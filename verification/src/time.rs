//! Seconds since the Unix epoch as civil time, and civil time as the text of
//! an ASN.1 UTCTime or GeneralizedTime.

use crate::buffer::{decimal_digits, digit, FmtBuf};
use crate::calendar::{
    days_before_year, days_from_civil, is_civil_date, lemma_civil_from_days,
    lemma_day_within_year, lemma_days_before_year_monotonic, lemma_days_from_civil_injective,
};
use crate::der::tlv;
use crate::{GENERALIZEDTIME, UTCTIME};
use vstd::prelude::*;

verus! {

/// The last instant that ASN.1 can name with a four-digit year:
/// 9999-12-31T23:59:59Z.
pub const MAX_ASN1_TIMESTAMP: u64 = 253402300799;

/// Why a value cannot be encoded.
#[derive(Copy, Clone, Debug, PartialEq, Eq, Structural)]
pub enum EncodeError {
    /// The instant lies after `MAX_ASN1_TIMESTAMP`, so ASN.1 has no text for
    /// it.
    TimeNotRepresentable,
}

/// A civil time as plain numbers: what a `DecomposedGmt` stands for.
pub struct CivilTime {
    pub year: int,
    pub month: int,
    pub day: int,
    pub hour: int,
    pub minute: int,
    pub second: int,
}

impl CivilTime {
    /// The date is a day of the calendar and the clock fields are in range.
    pub open spec fn is_valid(self) -> bool {
        &&& is_civil_date(self.year, self.month, self.day)
        &&& 0 <= self.hour < 24
        &&& 0 <= self.minute < 60
        &&& 0 <= self.second < 60
    }

    /// The number of seconds from 1970-01-01T00:00:00Z to this time, with
    /// 86400 seconds to every day.
    pub open spec fn seconds_since_epoch(self) -> int {
        days_from_civil(self.year, self.month, self.day) * 86400 + self.hour * 3600 + self.minute
            * 60 + self.second
    }

    /// Whether the time is written as a GeneralizedTime; otherwise it is
    /// written as a UTCTime.
    pub open spec fn is_generalized(self) -> bool {
        self.year > 2049
    }

    /// The number of bytes of the encoded time, tag and length included.
    pub open spec fn asn1_length(self) -> nat {
        if self.is_generalized() {
            17
        } else {
            15
        }
    }

    /// Month, day, hour, minute and second in two digits each, then `Z`.
    pub open spec fn clock_text(self) -> Seq<u8> {
        two_digits(self.month) + two_digits(self.day) + two_digits(self.hour) + two_digits(
            self.minute,
        ) + two_digits(self.second) + seq![0x5au8]
    }

    /// The tag of the encoded time.
    pub open spec fn asn1_tag(self) -> u8 {
        if self.is_generalized() {
            GENERALIZEDTIME
        } else {
            UTCTIME
        }
    }

    /// The text of the encoded time: `YYYYMMDDHHMMSSZ` for a
    /// GeneralizedTime, `YYMMDDHHMMSSZ` for a UTCTime.
    pub open spec fn asn1_text(self) -> Seq<u8> {
        if self.is_generalized() {
            four_digits(self.year) + self.clock_text()
        } else {
            two_digits(utc_year(self.year)) + self.clock_text()
        }
    }

    /// The encoded time: tag, length, and `YYYYMMDDHHMMSSZ` for a
    /// GeneralizedTime or `YYMMDDHHMMSSZ` for a UTCTime.
    pub open spec fn asn1_bytes(self) -> Seq<u8> {
        if self.is_generalized() {
            seq![GENERALIZEDTIME, 0x0fu8] + four_digits(self.year) + self.clock_text()
        } else {
            seq![UTCTIME, 0x0du8] + two_digits(utc_year(self.year)) + self.clock_text()
        }
    }
}

/// The civil time that lies `seconds` seconds from the epoch.
pub open spec fn civil_time(seconds: int) -> CivilTime {
    choose|t: CivilTime| t.is_valid() && t.seconds_since_epoch() == seconds
}

/// The last two decimal digits of `n`, as characters.
pub open spec fn two_digits(n: int) -> Seq<u8> {
    seq![digit(n / 10), digit(n)]
}

/// The last four decimal digits of `n`, as characters.
pub open spec fn four_digits(n: int) -> Seq<u8> {
    seq![digit(n / 1000), digit(n / 100), digit(n / 10), digit(n)]
}

/// The year as a UTCTime counts it: from 2000 after that year, from 1900 up
/// to it. Its last two digits are written.
pub open spec fn utc_year(year: int) -> int {
    if year > 2000 {
        year - 2000
    } else {
        year - 1900
    }
}

/// For the years that a UTCTime is used for here, its two digits are the
/// year modulo 100.
pub proof fn lemma_utc_year(year: int)
    requires
        1900 <= year <= 2099,
    ensures
        two_digits(utc_year(year)) == two_digits(year % 100),
{
}

/// The encoded time has the length that `asn1_length` announces, starts with
/// its tag, and its length byte counts the rest.
pub proof fn lemma_asn1_bytes(t: CivilTime)
    ensures
        t.asn1_bytes().len() == t.asn1_length(),
        t.asn1_bytes()[0] == if t.is_generalized() {
            GENERALIZEDTIME
        } else {
            UTCTIME
        },
        t.asn1_bytes()[1] == t.asn1_length() - 2,
{
}

/// The encoded time is an element: its tag, a length field that counts its
/// text, and the text.
pub proof fn lemma_asn1_bytes_framed(t: CivilTime)
    ensures
        t.asn1_bytes() == tlv(t.asn1_tag(), t.asn1_text()),
{
    assert(t.asn1_bytes() =~= tlv(t.asn1_tag(), t.asn1_text()));
}

/// The largest representable instant is the last second of the year 9999.
pub proof fn lemma_max_timestamp()
    ensures
        days_before_year(10000) * 86400 - 1 == MAX_ASN1_TIMESTAMP,
{
}

/// The first instant that is written as a GeneralizedTime:
/// 2050-01-01T00:00:00Z.
pub const MIN_GENERALIZED_TIMESTAMP: u64 = 2524608000;

/// A valid civil time is written as a GeneralizedTime exactly from
/// `MIN_GENERALIZED_TIMESTAMP` on.
pub proof fn lemma_format_boundary(t: CivilTime)
    requires
        t.is_valid(),
    ensures
        t.is_generalized() <==> t.seconds_since_epoch() >= MIN_GENERALIZED_TIMESTAMP,
        days_before_year(2050) * 86400 == MIN_GENERALIZED_TIMESTAMP,
{
    lemma_day_within_year(t.year, t.month, t.day);
    if t.year < 2050 {
        lemma_days_before_year_monotonic(t.year + 1, 2050);
    } else {
        lemma_days_before_year_monotonic(2050, t.year);
    }
}

/// A valid civil time is at or after the epoch exactly if its year is 1970
/// or later, and is representable exactly if its year is 9999 or earlier.
pub proof fn lemma_year_bounds(t: CivilTime)
    requires
        t.is_valid(),
    ensures
        t.seconds_since_epoch() >= 0 <==> t.year >= 1970,
        t.seconds_since_epoch() <= MAX_ASN1_TIMESTAMP <==> t.year <= 9999,
{
    lemma_day_within_year(t.year, t.month, t.day);
    if t.year < 1970 {
        lemma_days_before_year_monotonic(t.year + 1, 1970);
    } else {
        lemma_days_before_year_monotonic(1970, t.year);
    }
    if t.year < 10000 {
        lemma_days_before_year_monotonic(t.year + 1, 10000);
    } else {
        lemma_days_before_year_monotonic(10000, t.year);
    }
}

/// No two valid civil times lie the same number of seconds from the epoch.
pub proof fn lemma_civil_time_unique(a: CivilTime, b: CivilTime)
    requires
        a.is_valid(),
        b.is_valid(),
        a.seconds_since_epoch() == b.seconds_since_epoch(),
    ensures
        a == b,
{
    let rest_a = a.hour * 3600 + a.minute * 60 + a.second;
    let rest_b = b.hour * 3600 + b.minute * 60 + b.second;
    assert(0 <= rest_a < 86400 && 0 <= rest_b < 86400);
    assert(days_from_civil(a.year, a.month, a.day) == days_from_civil(b.year, b.month, b.day));
    assert(rest_a == rest_b);
    assert(a.hour == b.hour);
    assert(a.minute == b.minute);
    lemma_days_from_civil_injective(a.year, a.month, a.day, b.year, b.month, b.day);
}

/// A valid civil time is the civil time of its distance from the epoch.
pub proof fn lemma_civil_time(t: CivilTime)
    requires
        t.is_valid(),
    ensures
        civil_time(t.seconds_since_epoch()) == t,
{
    lemma_civil_time_unique(civil_time(t.seconds_since_epoch()), t);
}

/// Every distance from the epoch, before it or after, has its civil time.
pub proof fn lemma_civil_time_exists(seconds: int)
    ensures
        civil_time(seconds).is_valid(),
        civil_time(seconds).seconds_since_epoch() == seconds,
{
    let days = seconds / 86400;
    let rest = seconds % 86400;
    let era = (days + 719468) / 146097;
    let doe = days + 719468 - era * 146097;
    let yoe = (doe - doe / 1460 + doe / 36524 - doe / 146096) / 365;
    let doy = doe - (365 * yoe + yoe / 4 - yoe / 100);
    let mp = (5 * doy + 2) / 153;
    lemma_civil_from_days(days, era, doe, yoe, doy, mp);
    let month = if mp < 10 {
        mp + 3
    } else {
        mp - 9
    };
    let t = CivilTime {
        year: yoe + era * 400 + if month <= 2 {
            1int
        } else {
            0int
        },
        month,
        day: doy - (153 * mp + 2) / 5 + 1,
        hour: rest / 3600,
        minute: rest % 3600 / 60,
        second: rest % 3600 % 60,
    };
    assert(t.is_valid());
    assert(t.seconds_since_epoch() == seconds);
}

/// At every whole number of days from the epoch it is midnight: the civil
/// time has hour, minute and second zero, and its date is the one that lies
/// that number of days from 1970-01-01.
pub proof fn lemma_whole_days(seconds: int)
    requires
        seconds % 86400 == 0,
    ensures
        civil_time(seconds).is_valid(),
        civil_time(seconds).hour == 0,
        civil_time(seconds).minute == 0,
        civil_time(seconds).second == 0,
        days_from_civil(
            civil_time(seconds).year,
            civil_time(seconds).month,
            civil_time(seconds).day,
        ) == seconds / 86400,
{
    lemma_civil_time_exists(seconds);
    lemma_midnight(civil_time(seconds));
}

/// A valid civil time that lies a whole number of days from the epoch is a
/// midnight.
pub proof fn lemma_midnight(t: CivilTime)
    requires
        t.is_valid(),
        t.seconds_since_epoch() % 86400 == 0,
    ensures
        t.hour == 0,
        t.minute == 0,
        t.second == 0,
        days_from_civil(t.year, t.month, t.day) == t.seconds_since_epoch() / 86400,
{
    let rest = t.hour * 3600 + t.minute * 60 + t.second;
    vstd::arithmetic::div_mod::lemma_fundamental_div_mod_converse(
        t.seconds_since_epoch(),
        86400,
        days_from_civil(t.year, t.month, t.day),
        rest,
    );
}

/// A count of seconds as whole days and the hour, minute and second of the
/// day that is left.
pub fn seconds_to_dhms(seconds: u64) -> (r: (u64, u8, u8, u8))
    ensures
        r.0 * 86400 + r.1 * 3600 + r.2 * 60 + r.3 == seconds,
        r.1 < 24,
        r.2 < 60,
        r.3 < 60,
{
    let days: u64 = seconds / 86400;
    let rest: u32 = (seconds % 86400) as u32;
    let s: u8 = (rest % 60) as u8;
    let minutes: u32 = rest / 60;
    let m: u8 = (minutes % 60) as u8;
    (days, (minutes / 60) as u8, m, s)
}

/// The civil date that lies `days` days from 1970-01-01, before it for a
/// negative count: year, month (1 to 12) and day of the month.
pub fn days_to_ymd(days: i64) -> (r: (i64, u8, u8))
    ensures
        is_civil_date(r.0 as int, r.1 as int, r.2 as int),
        days_from_civil(r.0 as int, r.1 as int, r.2 as int) == days,
{
    let shifted: i128 = days as i128 + 719468;
    let era: i128 = (if shifted >= 0 {
        shifted
    } else {
        shifted - 146096
    }) / 146097;
    let doe: i128 = shifted - era * 146097;
    assert(0 <= doe <= 146096);
    let yoe: i128 = (doe - doe / 1460 + doe / 36524 - doe / 146096) / 365;
    proof {
        lemma_civil_from_days(
            days as int,
            era as int,
            doe as int,
            yoe as int,
            doe - (365 * yoe + yoe / 4 - yoe / 100),
            (5 * (doe - (365 * yoe + yoe / 4 - yoe / 100)) + 2) / 153,
        );
    }
    let y: i128 = yoe + era * 400;
    let doy: i128 = doe - (365 * yoe + yoe / 4 - yoe / 100);
    let mp: i128 = (5 * doy + 2) / 153;
    let d: i128 = doy - (153 * mp + 2) / 5 + 1;
    let m: i128 = if mp < 10 {
        mp + 3
    } else {
        mp - 9
    };
    let year: i128 = if m <= 2 {
        y + 1
    } else {
        y
    };
    (year as i64, m as u8, d as u8)
}

/// A moment as the calendar and the clock show it in Greenwich: year, month
/// (1 to 12), day (1 to 31), hour, minute, second. Only `parse` makes one,
/// so it always names a moment at or after the epoch.
#[derive(Copy, Clone, Eq, PartialEq, Ord, PartialOrd, Hash, Debug)]
pub struct DecomposedGmt {
    year: i64,
    month: u8,
    day: u8,
    hour: u8,
    minute: u8,
    second: u8,
}

impl View for DecomposedGmt {
    type V = CivilTime;

    closed spec fn view(&self) -> CivilTime {
        CivilTime {
            year: self.year as int,
            month: self.month as int,
            day: self.day as int,
            hour: self.hour as int,
            minute: self.minute as int,
            second: self.second as int,
        }
    }
}

impl DecomposedGmt {
    /// Holds of every value that executable code can hold.
    #[verifier::type_invariant]
    pub closed spec fn wf(&self) -> bool {
        self@.is_valid() && self@.year >= 1970
    }

    /// What a well-formed value is: a valid civil time at or after the
    /// epoch.
    pub proof fn lemma_wf(&self)
        requires
            self.wf(),
        ensures
            self@.is_valid(),
            self@.year >= 1970,
            self@.seconds_since_epoch() >= 0,
    {
        lemma_year_bounds(self@);
    }

    /// The civil time that lies `seconds` seconds after the epoch.
    pub fn parse(seconds: u64) -> (r: Self)
        ensures
            r@.is_valid(),
            r@.seconds_since_epoch() == seconds,
            r@ == civil_time(seconds as int),
    {
        let (days, hour, minute, second) = seconds_to_dhms(seconds);
        let (year, month, day) = days_to_ymd(days as i64);
        proof {
            lemma_civil_time(
                CivilTime {
                    year: year as int,
                    month: month as int,
                    day: day as int,
                    hour: hour as int,
                    minute: minute as int,
                    second: second as int,
                },
            );
            lemma_year_bounds(
                CivilTime {
                    year: year as int,
                    month: month as int,
                    day: day as int,
                    hour: hour as int,
                    minute: minute as int,
                    second: second as int,
                },
            );
        }
        Self { year, month, day, hour, minute, second }
    }

    pub fn year(&self) -> (r: i64)
        ensures
            r == self@.year,
    {
        self.year
    }

    pub fn month(&self) -> (r: u8)
        ensures
            r == self@.month,
    {
        self.month
    }

    pub fn day(&self) -> (r: u8)
        ensures
            r == self@.day,
    {
        self.day
    }

    pub fn hour(&self) -> (r: u8)
        ensures
            r == self@.hour,
    {
        self.hour
    }

    pub fn minute(&self) -> (r: u8)
        ensures
            r == self@.minute,
    {
        self.minute
    }

    pub fn second(&self) -> (r: u8)
        ensures
            r == self@.second,
    {
        self.second
    }
}

/// A civil time that ASN.1 can name: its year has at most four digits.
pub struct X509Time(DecomposedGmt);

impl View for X509Time {
    type V = CivilTime;

    closed spec fn view(&self) -> CivilTime {
        self.0@
    }
}

impl X509Time {
    /// Holds of every value that executable code can hold.
    #[verifier::type_invariant]
    pub closed spec fn wf(&self) -> bool {
        self.0.wf() && self.0@.year <= 9999
    }

    /// What a well-formed value is: a valid civil time between the epoch and
    /// the last representable instant.
    pub proof fn lemma_wf(&self)
        requires
            self.wf(),
        ensures
            self@.is_valid(),
            1970 <= self@.year <= 9999,
            0 <= self@.seconds_since_epoch() <= MAX_ASN1_TIMESTAMP,
    {
        self.0.lemma_wf();
        lemma_year_bounds(self@);
    }

    /// The civil time `seconds` seconds after the epoch, unless that is past
    /// the last instant that ASN.1 can name.
    pub fn try_from(seconds: u64) -> (r: Result<Self, EncodeError>)
        ensures
            seconds <= MAX_ASN1_TIMESTAMP <==> r is Ok,
            r matches Ok(t) ==> t@ == civil_time(seconds as int) && t@.is_valid()
                && t@.seconds_since_epoch() == seconds,
            r matches Err(e) ==> e == EncodeError::TimeNotRepresentable,
    {
        if seconds > MAX_ASN1_TIMESTAMP {
            return Err(EncodeError::TimeNotRepresentable);
        }
        let t = DecomposedGmt::parse(seconds);
        proof {
            lemma_year_bounds(t@);
        }
        Ok(Self(t))
    }

    /// The same civil time, unless its year has more than four digits.
    pub fn try_from_decomposed(t: DecomposedGmt) -> (r: Result<Self, EncodeError>)
        ensures
            t@.year <= 9999 <==> r is Ok,
            r matches Ok(x) ==> x@ == t@,
            r matches Err(e) ==> e == EncodeError::TimeNotRepresentable,
    {
        proof {
            use_type_invariant(&t);
        }
        if t.year > 9999 {
            Err(EncodeError::TimeNotRepresentable)
        } else {
            Ok(Self(t))
        }
    }

    /// The number of bytes that `write_time_choice` fills: 17 for a
    /// GeneralizedTime, 15 for a UTCTime.
    pub fn asn1_length(&self) -> (r: u8)
        ensures
            r == self@.asn1_length(),
    {
        if self.0.year > 2049 {
            17
        } else {
            15
        }
    }

    pub fn year(&self) -> (r: i64)
        ensures
            r == self@.year,
    {
        self.0.year
    }

    pub fn month(&self) -> (r: u8)
        ensures
            r == self@.month,
    {
        self.0.month
    }

    pub fn day(&self) -> (r: u8)
        ensures
            r == self@.day,
    {
        self.0.day
    }

    pub fn hour(&self) -> (r: u8)
        ensures
            r == self@.hour,
    {
        self.0.hour
    }

    pub fn minute(&self) -> (r: u8)
        ensures
            r == self@.minute,
    {
        self.0.minute
    }

    pub fn second(&self) -> (r: u8)
        ensures
            r == self@.second,
    {
        self.0.second
    }

    /// Fills `raw_buffer`, which has exactly the length that `asn1_length`
    /// gives, with the encoded time: a GeneralizedTime for a year after 2049,
    /// a UTCTime otherwise.
    pub fn write_time_choice(&self, raw_buffer: &mut [u8])
        requires
            old(raw_buffer)@.len() == self@.asn1_length(),
        ensures
            final(raw_buffer)@ == self@.asn1_bytes(),
    {
        proof {
            use_type_invariant(self);
            self.lemma_wf();
        }
        let t = self.0;
        let mut buffer = FmtBuf::new(raw_buffer);
        proof {
            reveal_with_fuel(decimal_digits, 5);
        }
        if t.year > 2049 {
            let head: [u8; 2] = [GENERALIZEDTIME, 0x0f];
            let _ = buffer.write_bytes(head.as_slice());
            let _ = buffer.write_padded(t.year as u64, 4);
            assert(buffer.filled() =~= seq![GENERALIZEDTIME, 0x0fu8] + four_digits(self@.year));
        } else {
            let head: [u8; 2] = [UTCTIME, 0x0d];
            let year: i64 = if t.year > 2000 {
                t.year - 2000
            } else {
                t.year - 1900
            };
            let _ = buffer.write_bytes(head.as_slice());
            let _ = buffer.write_padded(year as u64, 2);
            assert(buffer.filled() =~= seq![UTCTIME, 0x0du8] + two_digits(utc_year(self@.year)));
        }
        let ghost date = buffer.filled();
        let _ = buffer.write_padded(t.month as u64, 2);
        let _ = buffer.write_padded(t.day as u64, 2);
        let _ = buffer.write_padded(t.hour as u64, 2);
        let _ = buffer.write_padded(t.minute as u64, 2);
        let _ = buffer.write_padded(t.second as u64, 2);
        let tail: [u8; 1] = [0x5a];
        let _ = buffer.write_bytes(tail.as_slice());
        assert(buffer.filled() =~= date + self@.clock_text());
        assert(buffer.0@ =~= buffer.filled());
    }
}

} // verus!
