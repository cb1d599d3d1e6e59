use x509_der::buffer::FmtError;
use x509_der::time::seconds_to_dhms;
use x509_der::time::MIN_GENERALIZED_TIMESTAMP;
use x509_der::{days_to_ymd, DecomposedGmt, EncodeError, FmtBuf, X509Time, MAX_ASN1_TIMESTAMP};

fn is_leap(year: i64) -> bool {
    year % 4 == 0 && (year % 100 != 0 || year % 400 == 0)
}

fn month_length(year: i64, month: u8) -> u8 {
    match month {
        2 => {
            if is_leap(year) {
                29
            } else {
                28
            }
        }
        4 | 6 | 9 | 11 => 30,
        _ => 31,
    }
}

fn time_text(seconds: u64) -> Vec<u8> {
    let time = X509Time::try_from(seconds).unwrap();
    let mut text = vec![0u8; time.asn1_length() as usize];
    time.write_time_choice(&mut text);
    text
}

/// Calendar and clock fields as the C library's `struct tm` counts them, for
/// the midnights after the epoch, kept by stepping from one day to the next.
struct ReferenceTm {
    tm_year: i64,
    tm_mon: i32,
    tm_mday: i32,
    tm_hour: i32,
    tm_min: i32,
    tm_sec: i32,
}

impl ReferenceTm {
    fn epoch() -> Self {
        ReferenceTm { tm_year: 70, tm_mon: 0, tm_mday: 1, tm_hour: 0, tm_min: 0, tm_sec: 0 }
    }

    fn is_date(&self) -> bool {
        (0..12).contains(&self.tm_mon)
            && 1 <= self.tm_mday
            && self.tm_mday <= month_length(self.tm_year + 1900, self.tm_mon as u8 + 1) as i32
    }

    fn next_day(&mut self) {
        let length = month_length(self.tm_year + 1900, self.tm_mon as u8 + 1) as i32;
        if self.tm_mday < length {
            self.tm_mday += 1;
        } else if self.tm_mon < 11 {
            self.tm_mday = 1;
            self.tm_mon += 1;
        } else {
            self.tm_mday = 1;
            self.tm_mon = 0;
            self.tm_year += 1;
        }
    }
}

#[test]
fn encodes_time_correctly() {
    const MIN_LONG_TIME: u64 = 2524608000;
    let mut t1 = ReferenceTm::epoch();
    for i in 0..MAX_ASN1_TIMESTAMP / 86400 {
        let i = i * 86400;
        let tm = X509Time::try_from(i).unwrap();
        assert_eq!(tm.second(), 0);
        assert_eq!(tm.minute(), 0);
        assert_eq!(tm.hour(), 0);
        if i >= MIN_LONG_TIME {
            assert_eq!(tm.asn1_length(), 17);
        } else {
            assert_eq!(tm.asn1_length(), 15);
        }
        assert!(t1.is_date());
        assert_eq!(t1.tm_sec, 0);
        assert_eq!(t1.tm_min, 0);
        assert_eq!(t1.tm_hour, 0);
        assert_eq!(t1.tm_year as i64, tm.year() - 1900);
        assert_eq!(t1.tm_mon, (tm.month() - 1).into());
        assert_eq!(t1.tm_mday, tm.day().try_into().unwrap());
        t1.next_day();
    }
}

#[test]
fn every_day_follows_the_day_before() {
    let (mut year, mut month, mut day) = (1970i64, 1u8, 1u8);
    for days in 0..=(MAX_ASN1_TIMESTAMP / 86400) {
        let tm = DecomposedGmt::parse(days * 86400);
        assert_eq!((tm.year(), tm.month(), tm.day()), (year, month, day));
        assert_eq!((tm.hour(), tm.minute(), tm.second()), (0, 0, 0));
        if day < month_length(year, month) {
            day += 1;
        } else if month < 12 {
            day = 1;
            month += 1;
        } else {
            day = 1;
            month = 1;
            year += 1;
        }
    }
    assert_eq!((year, month, day), (10000, 1, 1));
}

#[test]
fn days_before_the_epoch_run_backwards() {
    let (mut year, mut month, mut day) = (1970i64, 1u8, 1u8);
    for days in 0..800_000i64 {
        assert_eq!(days_to_ymd(-days), (year, month, day));
        if day > 1 {
            day -= 1;
        } else if month > 1 {
            month -= 1;
            day = month_length(year, month);
        } else {
            year -= 1;
            month = 12;
            day = 31;
        }
    }
    assert!(year < 0);
}

#[test]
fn days_to_ymd_known_dates() {
    assert_eq!(days_to_ymd(0), (1970, 1, 1));
    assert_eq!(days_to_ymd(-1), (1969, 12, 31));
    assert_eq!(days_to_ymd(59), (1970, 3, 1));
    assert_eq!(days_to_ymd(11016), (2000, 2, 29));
    assert_eq!(days_to_ymd(11017), (2000, 3, 1));
    assert_eq!(days_to_ymd(18346), (2020, 3, 25));
    assert_eq!(days_to_ymd(47540), (2100, 2, 28));
    assert_eq!(days_to_ymd(47541), (2100, 3, 1));
    assert_eq!(days_to_ymd(2932896), (9999, 12, 31));
    assert_eq!(days_to_ymd(2932897), (10000, 1, 1));
    assert_eq!(days_to_ymd(-719468), (0, 3, 1));
    assert_eq!(days_to_ymd(-719528), (0, 1, 1));
    assert_eq!(days_to_ymd(-719529), (-1, 12, 31));
}

#[test]
fn days_to_ymd_takes_every_count() {
    let (year, month, day) = days_to_ymd(i64::MAX);
    assert_eq!((year, month, day), (25252734927768524, 7, 27));
    let (year, month, day) = days_to_ymd(i64::MIN);
    assert_eq!((year, month, day), (-25252734927764585, 6, 7));
}

#[test]
fn seconds_split_into_days_and_clock() {
    assert_eq!(seconds_to_dhms(0), (0, 0, 0, 0));
    assert_eq!(seconds_to_dhms(59), (0, 0, 0, 59));
    assert_eq!(seconds_to_dhms(60), (0, 0, 1, 0));
    assert_eq!(seconds_to_dhms(86399), (0, 23, 59, 59));
    assert_eq!(seconds_to_dhms(86400), (1, 0, 0, 0));
    assert_eq!(seconds_to_dhms(1585162134), (18346, 18, 48, 54));
    assert_eq!(seconds_to_dhms(u64::MAX), (213503982334601, 7, 0, 15));
}

#[test]
fn parse_gives_every_field() {
    let t = DecomposedGmt::parse(1585162134);
    assert_eq!(t.year(), 2020);
    assert_eq!(t.month(), 3);
    assert_eq!(t.day(), 25);
    assert_eq!(t.hour(), 18);
    assert_eq!(t.minute(), 48);
    assert_eq!(t.second(), 54);
    let t = DecomposedGmt::parse(0);
    assert_eq!((t.year(), t.month(), t.day()), (1970, 1, 1));
    assert_eq!((t.hour(), t.minute(), t.second()), (0, 0, 0));
}

#[test]
fn parse_goes_past_four_digit_years() {
    let t = DecomposedGmt::parse(MAX_ASN1_TIMESTAMP + 1);
    assert_eq!((t.year(), t.month(), t.day()), (10000, 1, 1));
    assert_eq!((t.hour(), t.minute(), t.second()), (0, 0, 0));
    assert_eq!(
        X509Time::try_from_decomposed(t).err(),
        Some(EncodeError::TimeNotRepresentable)
    );
    let t = DecomposedGmt::parse(u64::MAX);
    assert_eq!(t.year(), 584554051223);
}

#[test]
fn getters_agree_with_the_decomposed_time() {
    let d = DecomposedGmt::parse(4102444799);
    let t = X509Time::try_from_decomposed(d).unwrap();
    assert_eq!(t.year(), 2099);
    assert_eq!(t.month(), 12);
    assert_eq!(t.day(), 31);
    assert_eq!(t.hour(), 23);
    assert_eq!(t.minute(), 59);
    assert_eq!(t.second(), 59);
    assert_eq!(t.asn1_length(), 17);
}

#[test]
fn rejects_the_second_after_the_last() {
    assert_eq!(MAX_ASN1_TIMESTAMP, 253402300799);
    assert_eq!(
        X509Time::try_from(253402300800).err(),
        Some(EncodeError::TimeNotRepresentable)
    );
    assert_eq!(
        X509Time::try_from(u64::MAX).err(),
        Some(EncodeError::TimeNotRepresentable)
    );
    let last = X509Time::try_from(253402300799).unwrap();
    assert_eq!((last.year(), last.month(), last.day()), (9999, 12, 31));
    assert_eq!((last.hour(), last.minute(), last.second()), (23, 59, 59));
}

#[test]
fn year_2049_is_utc_time_and_2050_is_generalized_time() {
    let before = X509Time::try_from(2524607999).unwrap();
    assert_eq!(before.year(), 2049);
    assert_eq!(before.asn1_length(), 15);
    let text = time_text(2524607999);
    assert_eq!(text.len(), 15);
    assert_eq!(text[0], 0x17);
    assert_eq!(text, b"\x17\x0d491231235959Z".to_vec());

    let after = X509Time::try_from(2524608000).unwrap();
    assert_eq!(after.year(), 2050);
    assert_eq!(after.asn1_length(), 17);
    let text = time_text(2524608000);
    assert_eq!(text.len(), 17);
    assert_eq!(text[0], 0x18);
    assert_eq!(text, b"\x18\x0f20500101000000Z".to_vec());
}

#[test]
fn generalized_time_starts_with_2050() {
    assert_eq!(MIN_GENERALIZED_TIMESTAMP, 2524608000);
    let first = DecomposedGmt::parse(MIN_GENERALIZED_TIMESTAMP);
    assert_eq!((first.year(), first.month(), first.day()), (2050, 1, 1));
    assert_eq!((first.hour(), first.minute(), first.second()), (0, 0, 0));
    let last = DecomposedGmt::parse(MIN_GENERALIZED_TIMESTAMP - 1);
    assert_eq!((last.year(), last.month(), last.day()), (2049, 12, 31));
    assert_eq!((last.hour(), last.minute(), last.second()), (23, 59, 59));
}

#[test]
fn time_text_is_exact() {
    assert_eq!(time_text(0), b"\x17\x0d700101000000Z".to_vec());
    assert_eq!(time_text(1585162134), b"\x17\x0d200325184854Z".to_vec());
    assert_eq!(time_text(946684799), b"\x17\x0d991231235959Z".to_vec());
    assert_eq!(time_text(978307200), b"\x17\x0d010101000000Z".to_vec());
    assert_eq!(
        time_text(MAX_ASN1_TIMESTAMP),
        b"\x18\x0f99991231235959Z".to_vec()
    );
}

#[test]
fn the_year_2000_is_written_as_two_zeros() {
    assert_eq!(time_text(946684800), b"\x17\x0d000101000000Z".to_vec());
    assert_eq!(time_text(951782400), b"\x17\x0d000229000000Z".to_vec());
    assert_eq!(time_text(978307199), b"\x17\x0d001231235959Z".to_vec());
}

#[test]
fn formatter_fills_from_the_start() {
    let mut window = [0u8; 6];
    let mut f = FmtBuf::new(&mut window);
    assert_eq!(f.write_str("ab"), Ok(()));
    assert_eq!(f.1, 2);
    assert_eq!(f.write_padded(7, 2), Ok(()));
    assert_eq!(f.write_bytes(&[0x5a]), Ok(()));
    assert_eq!(f.1, 5);
    assert_eq!(window, *b"ab07Z\0");
}

#[test]
fn formatter_leaves_the_rest_of_the_window_alone() {
    let mut window = [0u8; 4];
    let mut f = FmtBuf::new(&mut window);
    assert_eq!(f.write_str("ab"), Ok(()));
    assert_eq!(f.write_str("c"), Ok(()));
    assert_eq!(f.1, 3);
    assert_eq!(window, [b'a', b'b', b'c', 0]);

    let mut window = [0xeeu8; 6];
    let mut f = FmtBuf::new(&mut window);
    assert_eq!(f.write_padded(42, 3), Ok(()));
    assert_eq!(f.write_bytes(&[1]), Ok(()));
    assert_eq!(f.1, 4);
    assert_eq!(window, [b'0', b'4', b'2', 1, 0xee, 0xee]);
}

#[test]
fn formatter_pads_and_keeps_the_last_digits() {
    let mut window = [0u8; 12];
    let mut f = FmtBuf::new(&mut window);
    assert_eq!(f.write_padded(0, 4), Ok(()));
    assert_eq!(f.write_padded(12345, 4), Ok(()));
    assert_eq!(f.write_padded(9, 1), Ok(()));
    assert_eq!(f.write_padded(5, 0), Ok(()));
    assert_eq!(f.write_padded(100, 2), Ok(()));
    assert_eq!(f.1, 11);
    assert_eq!(window, *b"00002345900\0");
}

#[test]
fn formatter_fails_when_the_window_is_too_small() {
    let mut window = [b'.'; 3];
    let mut f = FmtBuf::new(&mut window);
    assert_eq!(f.write_str("abcd"), Err(FmtError::Undersized));
    assert_eq!(f.1, 0);
    assert_eq!(f.write_str("ab"), Ok(()));
    assert_eq!(f.write_padded(2020, 2), Err(FmtError::Undersized));
    assert_eq!(f.write_bytes(&[1, 2]), Err(FmtError::Undersized));
    assert_eq!(f.1, 2);
    assert_eq!(f.write_bytes(&[]), Ok(()));
    assert_eq!(f.write_padded(3, 1), Ok(()));
    assert_eq!(f.write_bytes(&[1]), Err(FmtError::Undersized));
    assert_eq!(window, *b"ab3");
}
