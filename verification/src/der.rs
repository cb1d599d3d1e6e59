//! The canonical tag-length-value framing of DER, stated as functions on
//! byte sequences, with the facts about them that the writer relies on.

use vstd::prelude::*;

verus! {

/// The base-256 digits of `n`, most significant first, without a leading zero
/// byte. Zero has no digits.
pub open spec fn be_bytes(n: nat) -> Seq<u8>
    decreases n,
{
    if n == 0 {
        Seq::empty()
    } else {
        be_bytes(n / 256).push((n % 256) as u8)
    }
}

/// The number that a big-endian byte string denotes.
pub open spec fn be_value(s: Seq<u8>) -> nat
    decreases s.len(),
{
    if s.len() == 0 {
        0
    } else {
        be_value(s.drop_last()) * 256 + s.last() as nat
    }
}

/// The base-256 digits of `n` in exactly `width` bytes, most significant
/// first; higher digits are dropped.
pub open spec fn fixed_be_bytes(n: nat, width: nat) -> Seq<u8>
    decreases width,
{
    if width == 0 {
        Seq::empty()
    } else {
        fixed_be_bytes(n / 256, (width - 1) as nat).push((n % 256) as u8)
    }
}

/// The length field of a value of `len` bytes: one byte for a length below
/// 128, otherwise the count of digits with the top bit set, then the digits.
pub open spec fn length_octets(len: nat) -> Seq<u8> {
    if len < 128 {
        seq![len as u8]
    } else {
        seq![0x80u8 | (be_bytes(len).len() as u8)] + be_bytes(len)
    }
}

/// Tag and length field of a value of `len` bytes.
pub open spec fn header(tag: u8, len: nat) -> Seq<u8> {
    seq![tag] + length_octets(len)
}

/// A complete element: tag, length field, value.
pub open spec fn tlv(tag: u8, value: Seq<u8>) -> Seq<u8> {
    header(tag, value.len()) + value
}

/// `s` without its leading zero bytes.
pub open spec fn strip_leading_zeros(s: Seq<u8>) -> Seq<u8>
    decreases s.len(),
{
    if s.len() > 0 && s[0] == 0 {
        strip_leading_zeros(s.subrange(1, s.len() as int))
    } else {
        s
    }
}

/// The content of an INTEGER for the non-negative number that the big-endian
/// bytes `s` denote: leading zeros go, a single zero byte stands for zero, and
/// a zero byte is put in front where the first byte would otherwise read as a
/// sign bit.
pub open spec fn integer_content(s: Seq<u8>) -> Seq<u8> {
    let digits = strip_leading_zeros(s);
    if digits.len() == 0 {
        seq![0u8]
    } else if digits[0] >= 128 {
        seq![0u8] + digits
    } else {
        digits
    }
}

/// The content of an INTEGER for the number `n`.
pub open spec fn unsigned_content(n: nat) -> Seq<u8> {
    integer_content(be_bytes(n))
}

/// The three bytes of a BOOLEAN that is true.
pub open spec fn boolean_true() -> Seq<u8> {
    seq![0x01u8, 0x01u8, 0xffu8]
}

/// What an optional BOOLEAN with default false contributes.
pub open spec fn optional_boolean_bytes(val: bool) -> Seq<u8> {
    if val {
        boolean_true()
    } else {
        Seq::empty()
    }
}

/// A number below 2^64 has at most eight digits, and at least one unless it
/// is zero.
pub proof fn lemma_be_bytes_len_u64(n: nat)
    requires
        n <= u64::MAX,
    ensures
        be_bytes(n).len() <= 8,
        n > 0 ==> be_bytes(n).len() >= 1,
{
    reveal_with_fuel(be_bytes, 10);
}

/// The digits of a number denote that number.
pub proof fn lemma_be_bytes_value(n: nat)
    ensures
        be_value(be_bytes(n)) == n,
    decreases n,
{
    if n > 0 {
        lemma_be_bytes_value(n / 256);
        let s = be_bytes(n);
        assert(s.drop_last() =~= be_bytes(n / 256));
    }
}

/// The digits of a positive number do not start with a zero byte.
pub proof fn lemma_be_bytes_minimal(n: nat)
    requires
        n > 0,
    ensures
        be_bytes(n).len() > 0,
        be_bytes(n)[0] != 0,
    decreases n,
{
    if n >= 256 {
        lemma_be_bytes_minimal(n / 256);
    } else {
        reveal_with_fuel(be_bytes, 2);
    }
}

/// The length field is minimal: a length below 128 is the one byte equal to
/// it; a longer one is announced by `0x80` combined with the digit count, its
/// digits start with a non-zero byte and denote the length.
pub proof fn lemma_length_octets_minimal(len: nat)
    ensures
        len < 128 ==> length_octets(len) == seq![len as u8],
        len >= 128 ==> {
            &&& length_octets(len).len() == 1 + be_bytes(len).len()
            &&& length_octets(len)[0] == 0x80u8 | (be_bytes(len).len() as u8)
            &&& length_octets(len).subrange(1, length_octets(len).len() as int) == be_bytes(len)
            &&& be_bytes(len)[0] != 0
            &&& be_value(be_bytes(len)) == len
        },
{
    if len >= 128 {
        lemma_be_bytes_minimal(len);
        lemma_be_bytes_value(len);
        assert(length_octets(len).subrange(1, length_octets(len).len() as int) =~= be_bytes(len));
    }
}

/// Stripping leading zeros leaves a string that does not start with zero and
/// denotes the same number.
pub proof fn lemma_strip_leading_zeros(s: Seq<u8>)
    ensures
        strip_leading_zeros(s).len() <= s.len(),
        strip_leading_zeros(s).len() > 0 ==> strip_leading_zeros(s)[0] != 0,
        strip_leading_zeros(s) == s.subrange(
            s.len() - strip_leading_zeros(s).len(),
            s.len() as int,
        ),
        forall|i: int| 0 <= i < s.len() - strip_leading_zeros(s).len() ==> s[i] == 0,
    decreases s.len(),
{
    if s.len() > 0 && s[0] == 0 {
        let rest = s.subrange(1, s.len() as int);
        lemma_strip_leading_zeros(rest);
        let t = strip_leading_zeros(rest);
        assert(t =~= s.subrange(s.len() - t.len(), s.len() as int));
        assert forall|i: int| 0 <= i < s.len() - t.len() implies s[i] == 0 by {
            if i > 0 {
                assert(rest[i - 1] == s[i]);
            }
        }
    } else {
        assert(s =~= s.subrange(0, s.len() as int));
    }
}

/// Padding a number's digits with zeros on the left to a fixed width and
/// stripping them again gives the digits back.
pub proof fn lemma_strip_fixed(n: nat, width: nat)
    requires
        be_bytes(n).len() <= width,
    ensures
        strip_leading_zeros(fixed_be_bytes(n, width)) == be_bytes(n),
    decreases width,
{
    if width == 0 {
        assert(be_bytes(n) =~= Seq::<u8>::empty());
    } else if n == 0 {
        lemma_fixed_zero(width);
        lemma_strip_zeros(fixed_be_bytes(0, width));
    } else {
        lemma_strip_fixed(n / 256, (width - 1) as nat);
        let hi = fixed_be_bytes(n / 256, (width - 1) as nat);
        let b = (n % 256) as u8;
        lemma_strip_push(hi, b);
        if n / 256 == 0 {
            assert(be_bytes(n / 256).len() == 0);
            assert(b != 0);
        } else {
            lemma_be_bytes_minimal(n / 256);
        }
    }
}

/// Fixed-width digits have the width asked for.
pub proof fn lemma_fixed_be_bytes_len(n: nat, width: nat)
    ensures
        fixed_be_bytes(n, width).len() == width,
    decreases width,
{
    if width > 0 {
        lemma_fixed_be_bytes_len(n / 256, (width - 1) as nat);
    }
}

/// The INTEGER content computed from a number's digits in a fixed width is
/// the content for the number.
pub proof fn lemma_unsigned_content_fixed(n: nat, width: nat)
    requires
        be_bytes(n).len() <= width,
    ensures
        integer_content(fixed_be_bytes(n, width)) == unsigned_content(n),
{
    lemma_strip_fixed(n, width);
    if n > 0 {
        lemma_be_bytes_minimal(n);
    }
    assert(strip_leading_zeros(be_bytes(n)) == be_bytes(n));
}

/// The fixed-width digits of zero are all zero.
proof fn lemma_fixed_zero(width: nat)
    ensures
        fixed_be_bytes(0, width).len() == width,
        forall|i: int| 0 <= i < width ==> fixed_be_bytes(0, width)[i] == 0,
    decreases width,
{
    if width > 0 {
        lemma_fixed_zero((width - 1) as nat);
    }
}

/// A string of zeros strips to nothing.
proof fn lemma_strip_zeros(s: Seq<u8>)
    requires
        forall|i: int| 0 <= i < s.len() ==> s[i] == 0,
    ensures
        strip_leading_zeros(s) == Seq::<u8>::empty(),
    decreases s.len(),
{
    if s.len() > 0 {
        lemma_strip_zeros(s.subrange(1, s.len() as int));
    }
}

/// Stripping commutes with appending a byte, as long as something non-zero
/// is left.
proof fn lemma_strip_push(s: Seq<u8>, b: u8)
    ensures
        strip_leading_zeros(s.push(b)) == if strip_leading_zeros(s).len() == 0 && b == 0 {
            Seq::<u8>::empty()
        } else {
            strip_leading_zeros(s).push(b)
        },
    decreases s.len(),
{
    if s.len() > 0 && s[0] == 0 {
        let rest = s.subrange(1, s.len() as int);
        lemma_strip_push(rest, b);
        assert(s.push(b).subrange(1, s.push(b).len() as int) =~= rest.push(b));
    } else if s.len() == 0 {
        if b == 0 {
            let one = s.push(b);
            assert(one.subrange(1, one.len() as int) =~= Seq::<u8>::empty());
            reveal_with_fuel(strip_leading_zeros, 2);
        }
    }
}

/// The content of an INTEGER is canonical: it denotes the number, and it is
/// as short as the sign convention allows.
pub proof fn lemma_unsigned_content(n: nat)
    ensures
        be_value(unsigned_content(n)) == n,
        unsigned_content(n).len() >= 1,
        unsigned_content(n)[0] < 128,
        unsigned_content(n).len() >= 2 && unsigned_content(n)[0] == 0 ==> unsigned_content(n)[1]
            >= 128,
        n == 0 ==> unsigned_content(n) == seq![0u8],
{
    lemma_be_bytes_value(n);
    let d = be_bytes(n);
    if n == 0 {
        assert(strip_leading_zeros(d) =~= d);
        lemma_be_value_zero_prefix(Seq::<u8>::empty());
        assert(seq![0u8] + Seq::<u8>::empty() =~= seq![0u8]);
    } else {
        lemma_be_bytes_minimal(n);
        assert(strip_leading_zeros(d) == d);
        lemma_be_value_zero_prefix(d);
    }
}

/// A zero byte in front does not change the number denoted.
pub proof fn lemma_be_value_zero_prefix(s: Seq<u8>)
    ensures
        be_value(seq![0u8] + s) == be_value(s),
    decreases s.len(),
{
    let t = seq![0u8] + s;
    if s.len() == 0 {
        assert(t.drop_last() =~= Seq::<u8>::empty());
        reveal_with_fuel(be_value, 2);
    } else {
        lemma_be_value_zero_prefix(s.drop_last());
        assert(t.drop_last() =~= seq![0u8] + s.drop_last());
    }
}

/// What a reader finds at the start of `s`: the tag of the first element,
/// its value, and what follows it. There is nothing to find where `s` is
/// cut short or the length field is not the minimal one.
pub open spec fn read_element(s: Seq<u8>) -> Option<(u8, Seq<u8>, Seq<u8>)> {
    if s.len() < 2 {
        None
    } else if s[1] < 0x80 {
        read_value(s, 2, s[1] as nat)
    } else {
        let count = s[1] - 0x80;
        if count == 0 || s.len() < 2 + count {
            None
        } else {
            let digits = s.subrange(2, 2 + count);
            if digits[0] == 0 || be_value(digits) < 0x80 {
                None
            } else {
                read_value(s, 2 + count, be_value(digits))
            }
        }
    }
}

/// The element of `s` whose value is the `len` bytes from `start` on.
pub open spec fn read_value(s: Seq<u8>, start: int, len: nat) -> Option<(u8, Seq<u8>, Seq<u8>)> {
    if s.len() < start + len {
        None
    } else {
        Some((s[0], s.subrange(start, start + len), s.subrange(start + len, s.len() as int)))
    }
}

/// What a reader finds in `s` if it is elements from start to end: the tag
/// and the value of each.
pub open spec fn read_elements(s: Seq<u8>) -> Option<Seq<(u8, Seq<u8>)>>
    decreases s.len(),
{
    if s.len() == 0 {
        Some(Seq::empty())
    } else {
        match read_element(s) {
            Some((tag, value, rest)) => {
                if rest.len() < s.len() {
                    match read_elements(rest) {
                        Some(more) => Some(seq![(tag, value)] + more),
                        None => None,
                    }
                } else {
                    None
                }
            },
            None => None,
        }
    }
}

/// The elements with the given tags and values, one after the other.
pub open spec fn frame_all(fields: Seq<(u8, Seq<u8>)>) -> Seq<u8>
    decreases fields.len(),
{
    if fields.len() == 0 {
        Seq::empty()
    } else {
        frame_all(fields.drop_last()) + tlv(fields.last().0, fields.last().1)
    }
}

/// An element reads back: a reader finds the tag and exactly the value
/// that was framed, so the length field counts the value and nothing else,
/// and it finds untouched what stands behind the element.
pub proof fn lemma_read_tlv(tag: u8, value: Seq<u8>, rest: Seq<u8>)
    requires
        value.len() <= u64::MAX,
    ensures
        read_element(tlv(tag, value) + rest) == Some((tag, value, rest)),
{
    let len = value.len() as int;
    let s = tlv(tag, value) + rest;
    if len < 0x80 {
        assert(s[1] == len as u8);
        assert(s.subrange(2, 2 + len) =~= value);
        assert(s.subrange(2 + len, s.len() as int) =~= rest);
    } else {
        let digits = be_bytes(len as nat);
        let count = digits.len() as int;
        lemma_be_bytes_len_u64(len as nat);
        lemma_be_bytes_minimal(len as nat);
        lemma_be_bytes_value(len as nat);
        let c = count as u8;
        assert(0x80u8 | c == 0x80 + c) by (bit_vector)
            requires
                c <= 8,
        ;
        assert(s[1] == 0x80u8 | c);
        assert(s.subrange(2, 2 + count) =~= digits);
        assert(s.subrange(2 + count, 2 + count + len) =~= value);
        assert(s.subrange(2 + count + len, s.len() as int) =~= rest);
    }
}

/// Framing one more element appends it.
pub proof fn lemma_frame_all_push(fields: Seq<(u8, Seq<u8>)>, field: (u8, Seq<u8>))
    ensures
        frame_all(fields.push(field)) == frame_all(fields) + tlv(field.0, field.1),
{
    assert(fields.push(field).drop_last() =~= fields);
}

/// Framing elements behind a first one puts them behind it.
pub proof fn lemma_frame_all_first(field: (u8, Seq<u8>), fields: Seq<(u8, Seq<u8>)>)
    ensures
        frame_all(seq![field] + fields) == tlv(field.0, field.1) + frame_all(fields),
    decreases fields.len(),
{
    let all = seq![field] + fields;
    if fields.len() == 0 {
        assert(all.drop_last() =~= Seq::<(u8, Seq<u8>)>::empty());
        assert(frame_all(all.drop_last()) =~= Seq::<u8>::empty());
        assert(frame_all(all) =~= tlv(field.0, field.1) + frame_all(fields));
    } else {
        lemma_frame_all_first(field, fields.drop_last());
        assert(all.drop_last() =~= seq![field] + fields.drop_last());
        assert(all.last() == fields.last());
        assert(frame_all(all) =~= tlv(field.0, field.1) + frame_all(fields));
    }
}

/// Elements in a row read back: a reader finds each tag and each value as
/// it was framed, in order, with nothing left over.
pub proof fn lemma_read_frame_all(fields: Seq<(u8, Seq<u8>)>)
    requires
        forall|i: int| 0 <= i < fields.len() ==> (#[trigger] fields[i]).1.len() <= u64::MAX,
    ensures
        read_elements(frame_all(fields)) == Some(fields),
    decreases fields.len(),
{
    if fields.len() == 0 {
        assert(fields =~= Seq::<(u8, Seq<u8>)>::empty());
    } else {
        let first = fields[0];
        let others = fields.subrange(1, fields.len() as int);
        assert(fields =~= seq![first] + others);
        lemma_frame_all_first(first, others);
        assert forall|i: int| 0 <= i < others.len() implies (#[trigger] others[i]).1.len()
            <= u64::MAX by {
            assert(others[i] == fields[i + 1]);
        }
        lemma_read_frame_all(others);
        lemma_read_tlv(first.0, first.1, frame_all(others));
        let s = frame_all(fields);
        assert(s == tlv(first.0, first.1) + frame_all(others));
        assert(s.len() > frame_all(others).len());
        assert(seq![(first.0, first.1)] + others =~= fields);
    }
}

/// No element is longer than the row of elements that it stands in.
pub proof fn lemma_frame_all_len(fields: Seq<(u8, Seq<u8>)>)
    ensures
        forall|i: int| 0 <= i < fields.len() ==> (#[trigger] fields[i]).1.len() <= frame_all(
            fields,
        ).len(),
    decreases fields.len(),
{
    if fields.len() > 0 {
        lemma_frame_all_len(fields.drop_last());
        assert forall|i: int| 0 <= i < fields.len() implies (#[trigger] fields[i]).1.len()
            <= frame_all(fields).len() by {
            if i < fields.len() - 1 {
                assert(fields.drop_last()[i] == fields[i]);
            }
        }
    }
}

/// Elements in a row that a machine can hold read back.
pub proof fn lemma_read_row(fields: Seq<(u8, Seq<u8>)>)
    requires
        frame_all(fields).len() <= u64::MAX,
    ensures
        read_elements(frame_all(fields)) == Some(fields),
{
    lemma_frame_all_len(fields);
    lemma_read_frame_all(fields);
}

} // verus!
