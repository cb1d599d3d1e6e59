//! The output cursor: one type for both passes of an encoding. In counting
//! mode it only adds up lengths; in writing mode it fills a region from its
//! end towards its start, so that a header can be written after the value it
//! frames and still come to stand in front of it.

use crate::der::{
    be_bytes, boolean_true, header, integer_content, lemma_be_bytes_len_u64,
    lemma_strip_leading_zeros, optional_boolean_bytes, strip_leading_zeros, tlv,
};
use crate::node::Node;
use crate::time::{lemma_asn1_bytes, X509Time};
use crate::{BIT_STRING, INTEGER};
use vstd::prelude::*;
use vstd::slice::slice_subrange;
use vstd::string::StringSliceAdditionalSpecFns;

verus! {

/// The cursor. The first field is the region to fill, absent while counting;
/// the second is the number of bytes emitted so far. In writing mode those
/// bytes are the last ones of the region, and what is emitted next goes
/// directly in front of them.
///
/// The region is borrowed, so the contract of every operation ends with the
/// same clause: the cursor still holds the caller's region, that is, what
/// its region finally holds is what the region it was given finally holds.
/// With it a caller who lends a buffer to a cursor knows, once the cursor is
/// gone, that the buffer holds what `written` showed.
#[derive(Debug, PartialEq, Eq, PartialOrd, Ord, Hash)]
pub struct OutBuf<'a>(pub Option<&'a mut [u8]>, pub usize);

impl<'a> OutBuf<'a> {
    /// Whether bytes are materialised.
    pub open spec fn is_writing(&self) -> bool {
        self.0 is Some
    }

    /// The size of the region; zero while counting.
    pub open spec fn capacity(&self) -> nat {
        match self.0 {
            Some(region) => region@.len(),
            None => 0,
        }
    }

    /// In writing mode the emitted bytes fit in the region.
    pub open spec fn wf(&self) -> bool {
        self.is_writing() ==> self.1 <= self.capacity()
    }

    /// The bytes emitted so far, in the order in which they will be read:
    /// the tail of the region. Empty while counting.
    pub open spec fn written(&self) -> Seq<u8> {
        match self.0 {
            Some(region) => region@.subrange(region@.len() - self.1, region@.len() as int),
            None => Seq::empty(),
        }
    }

    /// The part of the region that nothing was emitted into: the bytes in
    /// front of the emitted ones. Empty while counting.
    pub open spec fn unused(&self) -> Seq<u8> {
        match self.0 {
            Some(region) => region@.subrange(0, region@.len() - self.1),
            None => Seq::empty(),
        }
    }

    /// Whether `n` more bytes can be emitted: they fit in what is left of the
    /// region, or, while counting, the total stays representable.
    pub open spec fn accepts(&self, n: nat) -> bool {
        if self.is_writing() {
            self.1 + n <= self.capacity()
        } else {
            self.1 + n <= usize::MAX
        }
    }

    /// The cursor is `before` after emitting `bytes`: same mode, same region
    /// size, the total advanced by their number, and in writing mode `bytes`
    /// standing directly in front of what was there, with every byte of the
    /// region in front of them as it was.
    pub open spec fn extends(&self, before: &OutBuf<'a>, bytes: Seq<u8>) -> bool {
        &&& self.wf()
        &&& self.is_writing() == before.is_writing()
        &&& self.1 == before.1 + bytes.len()
        &&& self.capacity() == before.capacity()
        &&& self.is_writing() ==> self.written() == bytes + before.written()
        &&& self.is_writing() ==> self.unused() == before.unused().subrange(
            0,
            self.capacity() - self.1,
        )
    }

    /// Emitting nothing leaves the cursor as it is.
    pub proof fn lemma_extends_nothing(&self)
        requires
            self.wf(),
        ensures
            self.extends(self, Seq::empty()),
    {
        assert(Seq::<u8>::empty() + self.written() =~= self.written());
        if self.is_writing() {
            assert(self.unused() =~= self.unused().subrange(0, self.capacity() - self.1));
        }
    }

    /// Emitting `first` and then `second` is emitting `second + first`.
    pub proof fn lemma_extends_twice(
        &self,
        mid: &OutBuf<'a>,
        before: &OutBuf<'a>,
        first: Seq<u8>,
        second: Seq<u8>,
    )
        requires
            mid.extends(before, first),
            self.extends(mid, second),
        ensures
            self.extends(before, second + first),
    {
        assert((second + first) + before.written() =~= second + (first + before.written()));
        if self.is_writing() {
            let left = self.capacity() - self.1;
            assert(mid.unused().subrange(0, left) =~= before.unused().subrange(0, left));
        }
    }

    /// Emits `buf` in front of everything emitted so far.
    pub fn write_raw(&mut self, buf: &[u8])
        requires
            old(self).wf(),
            old(self).accepts(buf@.len()),
        ensures
            final(self).extends(old(self), buf@),
            old(self).0 is Some ==> final(final(self).0->0)@ == final(old(self).0->0)@,
    {
        let n: usize = buf.len();
        if let Some(region) = self.0.take() {
            let end: usize = region.len() - self.1;
            let start: usize = end - n;
            let ghost before = region@;
            let mut i: usize = 0;
            while i < n
                invariant
                    i <= n,
                    n == buf@.len(),
                    start + n == end,
                    end <= region@.len(),
                    region@.len() == before.len(),
                    forall|k: int| 0 <= k < i ==> region@[start + k] == buf@[k],
                    forall|k: int| end <= k < region@.len() ==> region@[k] == before[k],
                    forall|k: int| 0 <= k < start ==> region@[k] == before[k],
                decreases n - i,
            {
                region[start + i] = buf[i];
                i = i + 1;
            }
            self.0 = Some(region);
        }
        self.1 = self.1 + n;
        assert(self.is_writing() ==> self.written() =~= buf@ + old(self).written());
        assert(self.is_writing() ==> self.unused() =~= old(self).unused().subrange(
            0,
            self.capacity() - self.1,
        ));
    }

    /// Emits the tag and the length field for a value of `len` bytes: first
    /// the length field, then the tag, so that the tag comes to stand first.
    pub fn write_header(&mut self, tag: u8, len: usize)
        requires
            old(self).wf(),
            old(self).accepts(header(tag, len as nat).len()),
        ensures
            final(self).extends(old(self), header(tag, len as nat)),
            old(self).0 is Some ==> final(final(self).0->0)@ == final(old(self).0->0)@,
    {
        if len < 0x80 {
            let short: [u8; 2] = [tag, len as u8];
            assert(short@ =~= header(tag, len as nat));
            self.write_raw(short.as_slice());
        } else {
            let ghost digits = be_bytes(len as nat);
            let ghost mut done: Seq<u8> = Seq::empty();
            let mut rest: usize = len;
            let mut count: usize = 0;
            proof {
                lemma_be_bytes_len_u64(len as nat);
                assert(digits =~= be_bytes(rest as nat) + done);
                self.lemma_extends_nothing();
            }
            while rest > 0
                invariant
                    self.extends(old(self), done),
                    old(self).0 is Some ==> final(self.0->0)@ == final(old(self).0->0)@,
                    digits == be_bytes(rest as nat) + done,
                    digits == be_bytes(len as nat),
                    digits.len() <= 8,
                    count == done.len(),
                    old(self).wf(),
                    old(self).accepts(2 + digits.len()),
                decreases rest,
            {
                let digit: [u8; 1] = [(rest % 256) as u8];
                let ghost mid = *self;
                self.write_raw(digit.as_slice());
                proof {
                    self.lemma_extends_twice(&mid, old(self), done, digit@);
                    assert(be_bytes(rest as nat) + done =~= be_bytes((rest / 256) as nat) + (digit@
                        + done));
                    done = digit@ + done;
                }
                rest = rest / 256;
                count = count + 1;
            }
            assert(done =~= digits);
            let long: [u8; 2] = [tag, 0x80u8 | (count as u8)];
            let ghost mid = *self;
            self.write_raw(long.as_slice());
            proof {
                self.lemma_extends_twice(&mid, old(self), digits, long@);
                assert(long@ + digits =~= header(tag, len as nat));
            }
        }
    }

    /// Emits the three bytes of a BOOLEAN that is true, or nothing for one
    /// that is false and so left to its default.
    pub fn optional_boolean(&mut self, val: bool)
        requires
            old(self).wf(),
            old(self).accepts(optional_boolean_bytes(val).len()),
        ensures
            final(self).extends(old(self), optional_boolean_bytes(val)),
            old(self).0 is Some ==> final(final(self).0->0)@ == final(old(self).0->0)@,
    {
        if val {
            let bytes: [u8; 3] = [1, 1, 255];
            assert(bytes@ =~= boolean_true());
            self.write_raw(bytes.as_slice());
        } else {
            proof {
                self.lemma_extends_nothing();
            }
        }
    }

    /// Emits the value of `body` framed under `tag`: the value first, then
    /// the header that announces its length. Returns the number of bytes
    /// emitted.
    pub fn write(&mut self, tag: u8, body: &Node) -> (n: usize)
        requires
            old(self).wf(),
            old(self).accepts(tlv(tag, body.value()).len()),
        ensures
            final(self).extends(old(self), tlv(tag, body.value())),
            n == tlv(tag, body.value()).len(),
            old(self).0 is Some ==> final(final(self).0->0)@ == final(old(self).0->0)@,
        decreases body, 1int,
    {
        let start: usize = self.1;
        body.write_value(self);
        let len: usize = self.1 - start;
        let ghost mid = *self;
        self.write_header(tag, len);
        proof {
            self.lemma_extends_twice(&mid, old(self), body.value(), header(tag, len as nat));
        }
        self.1 - start
    }

    /// Emits a BIT STRING of the whole bytes `buf`: the bytes, then the count
    /// of unused bits, which is zero, then the header. Returns the number of
    /// bytes emitted.
    pub fn bit_string(&mut self, buf: &[u8]) -> (n: usize)
        requires
            old(self).wf(),
            old(self).accepts(tlv(BIT_STRING, seq![0u8] + buf@).len()),
        ensures
            final(self).extends(old(self), tlv(BIT_STRING, seq![0u8] + buf@)),
            n == tlv(BIT_STRING, seq![0u8] + buf@).len(),
            old(self).0 is Some ==> final(final(self).0->0)@ == final(old(self).0->0)@,
    {
        let start: usize = self.1;
        self.write_raw(buf);
        let ghost first = *self;
        let unused: [u8; 1] = [0];
        self.write_raw(unused.as_slice());
        let ghost second = *self;
        proof {
            self.lemma_extends_twice(&first, old(self), buf@, unused@);
            assert(unused@ + buf@ =~= seq![0u8] + buf@);
        }
        let len: usize = self.1 - start;
        self.write_header(BIT_STRING, len);
        proof {
            self.lemma_extends_twice(
                &second,
                old(self),
                seq![0u8] + buf@,
                header(BIT_STRING, len as nat),
            );
        }
        self.1 - start
    }

    /// Emits the content of an INTEGER for the number that the big-endian
    /// bytes `buf` denote.
    pub fn integer_content(&mut self, buf: &[u8])
        requires
            old(self).wf(),
            old(self).accepts(integer_content(buf@).len()),
        ensures
            final(self).extends(old(self), integer_content(buf@)),
            old(self).0 is Some ==> final(final(self).0->0)@ == final(old(self).0->0)@,
    {
        let n: usize = buf.len();
        let mut e: usize = 0;
        while e < n && buf[e] == 0
            invariant
                e <= n,
                n == buf@.len(),
                forall|k: int| 0 <= k < e ==> buf@[k] == 0,
            decreases n - e,
        {
            e = e + 1;
        }
        proof {
            lemma_strip_leading_zeros(buf@);
            let digits = strip_leading_zeros(buf@);
            if digits.len() > 0 {
                assert(digits[0] == buf@[n - digits.len()]);
            }
            assert(digits =~= buf@.subrange(e as int, n as int));
        }
        let zero: [u8; 1] = [0];
        if e == n {
            assert(zero@ =~= integer_content(buf@));
            self.write_raw(zero.as_slice());
        } else {
            let digits = slice_subrange(buf, e, n);
            self.write_raw(digits);
            if buf[e] >= 128 {
                let ghost mid = *self;
                self.write_raw(zero.as_slice());
                proof {
                    self.lemma_extends_twice(&mid, old(self), digits@, zero@);
                    assert(zero@ + digits@ =~= integer_content(buf@));
                }
            }
        }
    }

    /// Emits an INTEGER for the number that the big-endian bytes `buf`
    /// denote. Returns the number of bytes emitted.
    pub fn nonnegative_integer(&mut self, buf: &[u8]) -> (n: usize)
        requires
            old(self).wf(),
            old(self).accepts(tlv(INTEGER, integer_content(buf@)).len()),
        ensures
            final(self).extends(old(self), tlv(INTEGER, integer_content(buf@))),
            n == tlv(INTEGER, integer_content(buf@)).len(),
            old(self).0 is Some ==> final(final(self).0->0)@ == final(old(self).0->0)@,
    {
        let start: usize = self.1;
        self.integer_content(buf);
        let len: usize = self.1 - start;
        let ghost mid = *self;
        self.write_header(INTEGER, len);
        proof {
            self.lemma_extends_twice(
                &mid,
                old(self),
                integer_content(buf@),
                header(INTEGER, len as nat),
            );
        }
        self.1 - start
    }

    /// Reserves the `size` bytes in front of everything emitted so far and
    /// has `time` fill them with its encoding, which is exactly that long.
    pub fn write_fixed(&mut self, size: usize, time: &X509Time)
        requires
            old(self).wf(),
            size == time@.asn1_length(),
            old(self).accepts(size as nat),
        ensures
            final(self).extends(old(self), time@.asn1_bytes()),
            old(self).0 is Some ==> final(final(self).0->0)@ == final(old(self).0->0)@,
    {
        proof {
            lemma_asn1_bytes(time@);
        }
        if let Some(region) = self.0.take() {
            let end: usize = region.len() - self.1;
            let start: usize = end - size;
            let ghost before = region@;
            let (head, tail) = region.split_at_mut(end);
            let (_, window) = head.split_at_mut(start);
            time.write_time_choice(window);
            assert(region@.len() == before.len());
            assert(region@.subrange(end as int, region@.len() as int) =~= before.subrange(
                end as int,
                before.len() as int,
            ));
            assert(region@.subrange(start as int, end as int) =~= time@.asn1_bytes());
            assert(region@.subrange(0, start as int) =~= before.subrange(0, start as int));
            self.0 = Some(region);
        }
        self.1 = self.1 + size;
        assert(self.is_writing() ==> self.written() =~= time@.asn1_bytes() + old(self).written());
        assert(self.is_writing() ==> self.unused() =~= old(self).unused().subrange(
            0,
            self.capacity() - self.1,
        ));
    }

    /// Emits the encoding of `time`: a UTCTime or a GeneralizedTime, tag and
    /// length included.
    pub fn x509_time(&mut self, time: &X509Time)
        requires
            old(self).wf(),
            old(self).accepts(time@.asn1_length()),
        ensures
            final(self).extends(old(self), time@.asn1_bytes()),
            old(self).0 is Some ==> final(final(self).0->0)@ == final(old(self).0->0)@,
    {
        self.write_fixed(time.asn1_length() as usize, time)
    }
}

/// The encoding of `data`, in a vector of exactly its length. The element is
/// traversed twice: once to count, once to fill the vector from its end.
pub fn encode(data: &Node) -> (bytes: Vec<u8>)
    requires
        data.der().len() <= usize::MAX,
    ensures
        bytes@ == data.der(),
{
    let mut counter = OutBuf(None, 0);
    let len: usize = data.write(&mut counter);
    let mut bytes: Vec<u8> = vec![0u8; len];
    let mut writer = OutBuf(Some(bytes.as_mut_slice()), 0);
    let written: usize = data.write(&mut writer);
    assert(written == len && writer.1 == len && writer.capacity() == len);
    assert(writer.0->0@ =~= writer.written());
    assert(writer.written() =~= data.der());
    bytes
}

/// Both passes over an element agree: counting it advances the total by
/// exactly the number of bytes that writing it puts into the region, and
/// that is the length of its encoding.
pub proof fn lemma_passes_agree(
    data: Node,
    counted_from: OutBuf,
    counted: OutBuf,
    written_from: OutBuf,
    written: OutBuf,
)
    requires
        !counted_from.is_writing(),
        written_from.is_writing(),
        written_from.wf(),
        counted.extends(&counted_from, data.der()),
        written.extends(&written_from, data.der()),
    ensures
        counted.1 - counted_from.1 == data.der().len(),
        written.written().len() - written_from.written().len() == data.der().len(),
        written.1 - written_from.1 == counted.1 - counted_from.1,
{
}

/// The character for the last decimal digit of `n`.
pub open spec fn digit(n: int) -> u8 {
    (0x30 + n % 10) as u8
}

/// The last `width` decimal digits of `n` as characters, with zeros in front
/// where `n` has fewer.
pub open spec fn decimal_digits(n: int, width: nat) -> Seq<u8>
    decreases width,
{
    if width == 0 {
        Seq::empty()
    } else {
        decimal_digits(n / 10, (width - 1) as nat).push(digit(n))
    }
}

/// `decimal_digits` has the width asked for.
pub proof fn lemma_decimal_digits_len(n: int, width: nat)
    ensures
        decimal_digits(n, width).len() == width,
    decreases width,
{
    if width > 0 {
        lemma_decimal_digits_len(n / 10, (width - 1) as nat);
    }
}

/// Why a formatter could not write.
#[derive(Copy, Clone, Debug, PartialEq, Eq, Structural)]
pub enum FmtError {
    /// The text does not fit in what is left of the window.
    Undersized,
}

/// A formatter over a window of fixed size, which it fills from the start.
/// The first field is the window, the second the number of bytes filled.
pub struct FmtBuf<'a>(pub &'a mut [u8], pub usize);

impl<'a> FmtBuf<'a> {
    /// The filled part does not exceed the window.
    pub open spec fn wf(&self) -> bool {
        self.1 <= self.0@.len()
    }

    /// The text written so far.
    pub open spec fn filled(&self) -> Seq<u8> {
        self.0@.subrange(0, self.1 as int)
    }

    /// The number of bytes that can still be written.
    pub open spec fn room(&self) -> nat {
        (self.0@.len() - self.1) as nat
    }

    /// The part of the window behind the text written so far.
    pub open spec fn unfilled(&self) -> Seq<u8> {
        self.0@.subrange(self.1 as int, self.0@.len() as int)
    }

    /// The formatter is `before` after writing `text`: the same window, with
    /// `text` behind what was filled and every byte behind `text` as it was.
    pub open spec fn appended(&self, before: &FmtBuf<'a>, text: Seq<u8>) -> bool {
        &&& self.wf()
        &&& self.0@.len() == before.0@.len()
        &&& self.1 == before.1 + text.len()
        &&& self.filled() == before.filled() + text
        &&& self.unfilled() == before.unfilled().subrange(
            text.len() as int,
            before.unfilled().len() as int,
        )
    }

    /// A formatter at the start of `slice`.
    pub fn new(slice: &'a mut [u8]) -> (r: Self)
        ensures
            r.0@ == old(slice)@,
            r.1 == 0,
            final(slice)@ == final(r.0)@,
    {
        Self(slice, 0)
    }

    /// Writes `bytes` behind the text written so far, or fails and leaves
    /// everything as it is where they do not fit.
    pub fn write_bytes(&mut self, bytes: &[u8]) -> (r: Result<(), FmtError>)
        requires
            old(self).wf(),
        ensures
            r is Ok <==> bytes@.len() <= old(self).room(),
            r is Ok ==> final(self).appended(old(self), bytes@),
            r is Err ==> final(self).0@ == old(self).0@ && final(self).1 == old(self).1,
            final(final(self).0)@ == final(old(self).0)@,
    {
        let n: usize = bytes.len();
        let at: usize = self.1;
        if n > self.0.len() - at {
            return Err(FmtError::Undersized);
        }
        let ghost before = self.0@;
        let end: usize = at + n;
        let mut i: usize = 0;
        while i < n
            invariant
                i <= n,
                n == bytes@.len(),
                at + n == end,
                end <= self.0@.len(),
                self.0@.len() == before.len(),
                self.1 == at,
                final(self.0)@ == final(old(self).0)@,
                forall|k: int| 0 <= k < at ==> self.0@[k] == before[k],
                forall|k: int| end <= k < self.0@.len() ==> self.0@[k] == before[k],
                forall|k: int| 0 <= k < i ==> self.0@[at + k] == bytes@[k],
            decreases n - i,
        {
            self.0[at + i] = bytes[i];
            i = i + 1;
        }
        self.1 = end;
        assert(self.filled() =~= old(self).filled() + bytes@);
        assert(self.unfilled() =~= old(self).unfilled().subrange(
            n as int,
            old(self).unfilled().len() as int,
        ));
        Ok(())
    }

    /// Writes the text of `s`; see `write_bytes`.
    pub fn write_str(&mut self, s: &str) -> (r: Result<(), FmtError>)
        requires
            old(self).wf(),
        ensures
            r is Ok <==> s.spec_bytes().len() <= old(self).room(),
            r is Ok ==> final(self).appended(old(self), s.spec_bytes()),
            r is Err ==> final(self).0@ == old(self).0@ && final(self).1 == old(self).1,
            final(final(self).0)@ == final(old(self).0)@,
    {
        self.write_bytes(s.as_bytes())
    }

    /// Writes the last `width` decimal digits of `value`, with zeros in
    /// front where it has fewer, or fails and leaves everything as it is
    /// where they do not fit.
    pub fn write_padded(&mut self, value: u64, width: usize) -> (r: Result<(), FmtError>)
        requires
            old(self).wf(),
        ensures
            r is Ok <==> width <= old(self).room(),
            r is Ok ==> final(self).appended(old(self), decimal_digits(value as int, width as nat)),
            r is Err ==> final(self).0@ == old(self).0@ && final(self).1 == old(self).1,
            final(final(self).0)@ == final(old(self).0)@,
    {
        let at: usize = self.1;
        if width > self.0.len() - at {
            return Err(FmtError::Undersized);
        }
        let ghost before = self.0@;
        let end: usize = at + width;
        let mut rest: u64 = value;
        let mut left: usize = width;
        proof {
            lemma_decimal_digits_len(value as int, width as nat);
        }
        while left > 0
            invariant
                left <= width,
                at + width == end,
                end <= self.0@.len(),
                self.0@.len() == before.len(),
                self.1 == at,
                final(self.0)@ == final(old(self).0)@,
                forall|k: int| 0 <= k < at ==> self.0@[k] == before[k],
                forall|k: int| end <= k < self.0@.len() ==> self.0@[k] == before[k],
                decimal_digits(value as int, width as nat).len() == width,
                decimal_digits(rest as int, left as nat) == decimal_digits(
                    value as int,
                    width as nat,
                ).subrange(0, left as int),
                forall|k: int|
                    left <= k < width ==> self.0@[at + k] == decimal_digits(
                        value as int,
                        width as nat,
                    )[k],
            decreases left,
        {
            let ghost text = decimal_digits(value as int, width as nat);
            left = left - 1;
            assert(decimal_digits(rest as int, (left + 1) as nat).last() == digit(rest as int));
            assert(text.subrange(0, left + 1).last() == text[left as int]);
            assert(decimal_digits((rest / 10) as int, left as nat) =~= text.subrange(
                0,
                left as int,
            )) by {
                assert(decimal_digits(rest as int, (left + 1) as nat).drop_last()
                    =~= decimal_digits((rest / 10) as int, left as nat));
                assert(text.subrange(0, left + 1).drop_last() =~= text.subrange(0, left as int));
            }
            self.0[at + left] = 0x30 + (rest % 10) as u8;
            rest = rest / 10;
        }
        self.1 = end;
        assert(self.filled() =~= old(self).filled() + decimal_digits(value as int, width as nat));
        assert(self.unfilled() =~= old(self).unfilled().subrange(
            width as int,
            old(self).unfilled().len() as int,
        ));
        Ok(())
    }
}

} // verus!
