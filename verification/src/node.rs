//! The elements that can be encoded: a closed set of node kinds, each of
//! which has a tag and a value, and the bytes that each stands for.

use crate::buffer::OutBuf;
use crate::der::{
    fixed_be_bytes, frame_all, header, lemma_be_bytes_len_u64, lemma_fixed_be_bytes_len,
    lemma_read_frame_all, lemma_read_tlv, lemma_unsigned_content_fixed, optional_boolean_bytes,
    read_element, read_elements, tlv, unsigned_content,
};
use crate::time::X509Time;
use crate::{BIT_STRING, INTEGER, OCTET_STRING, SEQUENCE};
use vstd::prelude::*;

verus! {

/// The tag of the version field: context-specific, constructed, number 0.
pub const VERSION_TAG: u8 = 0xa0;

/// An element to encode. A node is plain data: encoding it twice gives the
/// same bytes.
pub enum Node<'a> {
    /// A SEQUENCE of the given elements, in the order in which they are read.
    Sequence(Vec<Node<'a>>),
    /// Bytes that were encoded elsewhere, to be framed under the given tag.
    Raw(u8, &'a [u8]),
    /// A BIT STRING of whole bytes: no bit of the last byte is unused. The
    /// count of unused bits, zero, is emitted after the bytes and so comes to
    /// stand in front of them.
    BitString(&'a [u8]),
    /// An OCTET STRING whose content is the whole encoding of another
    /// element.
    OctetString(Box<Node<'a>>),
    /// An INTEGER that is not negative.
    PositiveInteger(u64),
    /// A certificate extension. It is emitted as the value inside an OCTET
    /// STRING, then the critical flag, left out where it is false, then the
    /// encoded identifier, and so reads identifier, flag, value.
    Extension { oid: &'a [u8], critical: bool, value: Box<Node<'a>> },
    /// A validity period: the time from which and the time until which it
    /// runs, read in this order.
    Validity(X509Time, X509Time),
    /// The version field of a version 3 certificate.
    Version,
    /// Another element wrapped under the given tag.
    Tagged(u8, Box<Node<'a>>),
}

impl<'a> Node<'a> {
    /// The tag under which the element is framed.
    pub open spec fn spec_tag(&self) -> u8 {
        match self {
            Node::Sequence(_) => SEQUENCE,
            Node::Raw(tag, _) => *tag,
            Node::BitString(_) => BIT_STRING,
            Node::OctetString(_) => OCTET_STRING,
            Node::PositiveInteger(_) => INTEGER,
            Node::Extension { .. } => SEQUENCE,
            Node::Validity(_, _) => SEQUENCE,
            Node::Version => VERSION_TAG,
            Node::Tagged(tag, _) => *tag,
        }
    }

    /// The value bytes of the element, without tag and length.
    pub open spec fn value(&self) -> Seq<u8>
        decreases self, 0int,
    {
        match self {
            Node::Sequence(children) => Self::concat(children@),
            Node::Raw(_, bytes) => bytes@,
            Node::BitString(bytes) => seq![0u8] + bytes@,
            Node::OctetString(inner) => inner.der(),
            Node::PositiveInteger(n) => unsigned_content(*n as nat),
            Node::Extension { oid, critical, value } => oid@ + optional_boolean_bytes(*critical)
                + tlv(OCTET_STRING, value.der()),
            Node::Validity(not_before, not_after) => not_before@.asn1_bytes()
                + not_after@.asn1_bytes(),
            Node::Version => seq![INTEGER, 1u8, 2u8],
            Node::Tagged(_, inner) => inner.der(),
        }
    }

    /// The encoding of the element: tag, length, value.
    pub open spec fn der(&self) -> Seq<u8>
        decreases self, 1int,
    {
        tlv(self.spec_tag(), self.value())
    }

    /// The encodings of the elements of a list, one after the other.
    pub open spec fn concat(nodes: Seq<Node<'a>>) -> Seq<u8>
        decreases nodes, 0int,
    {
        if nodes.len() == 0 {
            Seq::empty()
        } else {
            Self::concat(nodes.drop_last()) + nodes.last().der()
        }
    }

    /// The tag and the value of each element of a list.
    pub open spec fn fields(nodes: Seq<Node<'a>>) -> Seq<(u8, Seq<u8>)> {
        Seq::new(nodes.len(), |i: int| (nodes[i].spec_tag(), nodes[i].value()))
    }

    /// Whether a reader finds in the encoding what the element was made of,
    /// at every depth: the tag and a length field that counts exactly the
    /// value, with nothing left over; in the value of a SEQUENCE its
    /// elements, one after the other; in an OCTET STRING or under a tag of
    /// the caller the one element that was wrapped; and the same again in
    /// each of those. Bytes that the caller hands in as they are, raw ones
    /// and the identifier of an extension, are not looked into.
    pub open spec fn reads_back(&self) -> bool
        decreases self,
    {
        &&& read_element(self.der()) == Some((self.spec_tag(), self.value(), Seq::<u8>::empty()))
        &&& match self {
            Node::Sequence(children) => {
                &&& read_elements(self.value()) == Some(Self::fields(children@))
                &&& forall|i: int|
                    0 <= i < children@.len() ==> (#[trigger] children@[i]).reads_back()
            },
            Node::OctetString(inner) => {
                &&& read_elements(self.value()) == Some(seq![(inner.spec_tag(), inner.value())])
                &&& inner.reads_back()
            },
            Node::Tagged(_, inner) => {
                &&& read_elements(self.value()) == Some(seq![(inner.spec_tag(), inner.value())])
                &&& inner.reads_back()
            },
            Node::Extension { oid, critical, value } => {
                &&& read_elements(tlv(OCTET_STRING, value.der())) == Some(
                    seq![(OCTET_STRING, value.der())],
                )
                &&& value.reads_back()
            },
            _ => true,
        }
    }

    /// The encodings of a list of elements are the elements framed one
    /// after the other, and none is longer than all together.
    pub proof fn lemma_concat_frames(nodes: Seq<Node<'a>>)
        ensures
            Self::concat(nodes) == frame_all(Self::fields(nodes)),
            forall|i: int| 0 <= i < nodes.len() ==> (#[trigger] nodes[i]).der().len()
                <= Self::concat(nodes).len(),
        decreases nodes.len(),
    {
        if nodes.len() == 0 {
            assert(Self::fields(nodes) =~= Seq::<(u8, Seq<u8>)>::empty());
        } else {
            Self::lemma_concat_frames(nodes.drop_last());
            assert(Self::fields(nodes).drop_last() =~= Self::fields(nodes.drop_last()));
            assert forall|i: int| 0 <= i < nodes.len() implies (#[trigger] nodes[i]).der().len()
                <= Self::concat(nodes).len() by {
                if i < nodes.len() - 1 {
                    assert(nodes.drop_last()[i] == nodes[i]);
                }
            }
        }
    }

    /// Every element whose encoding a machine can hold reads back, at every
    /// depth.
    pub proof fn lemma_reads_back(&self)
        requires
            self.der().len() <= u64::MAX,
        ensures
            self.reads_back(),
        decreases self,
    {
        lemma_read_tlv(self.spec_tag(), self.value(), Seq::empty());
        assert(self.der() + Seq::<u8>::empty() =~= self.der());
        match self {
            Node::Sequence(children) => {
                Self::lemma_concat_frames(children@);
                let fields = Self::fields(children@);
                assert forall|i: int| 0 <= i < fields.len() implies (#[trigger] fields[i]).1.len()
                    <= u64::MAX by {
                    assert(children@[i].der().len() <= Self::concat(children@).len());
                }
                lemma_read_frame_all(fields);
                assert forall|i: int| 0 <= i < children@.len() implies (
                #[trigger] children@[i]).reads_back() by {
                    assert(children@[i].der().len() <= Self::concat(children@).len());
                    children@[i].lemma_reads_back();
                }
            },
            Node::OctetString(inner) => {
                Self::lemma_wrapped(**inner);
                inner.lemma_reads_back();
            },
            Node::Tagged(_, inner) => {
                Self::lemma_wrapped(**inner);
                inner.lemma_reads_back();
            },
            Node::Extension { oid, critical, value } => {
                let octets = (OCTET_STRING, value.der());
                assert(frame_all(seq![octets]) =~= tlv(OCTET_STRING, value.der())) by {
                    assert(seq![octets].drop_last() =~= Seq::<(u8, Seq<u8>)>::empty());
                    assert(frame_all(seq![octets].drop_last()) =~= Seq::<u8>::empty());
                }
                lemma_read_frame_all(seq![octets]);
                value.lemma_reads_back();
            },
            _ => {},
        }
    }

    /// A reader finds in the encoding of one element that element.
    pub proof fn lemma_wrapped(inner: Node<'a>)
        requires
            inner.der().len() <= u64::MAX,
        ensures
            read_elements(inner.der()) == Some(seq![(inner.spec_tag(), inner.value())]),
    {
        let field = (inner.spec_tag(), inner.value());
        assert(frame_all(seq![field]) =~= inner.der()) by {
            assert(seq![field].drop_last() =~= Seq::<(u8, Seq<u8>)>::empty());
            assert(frame_all(seq![field].drop_last()) =~= Seq::<u8>::empty());
        }
        lemma_read_frame_all(seq![field]);
    }

    /// The tag under which the element is framed.
    #[verifier::when_used_as_spec(spec_tag)]
    pub fn tag(&self) -> (t: u8)
        ensures
            t == self.spec_tag(),
    {
        match self {
            Node::Sequence(_) => SEQUENCE,
            Node::Raw(tag, _) => *tag,
            Node::BitString(_) => BIT_STRING,
            Node::OctetString(_) => OCTET_STRING,
            Node::PositiveInteger(_) => INTEGER,
            Node::Extension { .. } => SEQUENCE,
            Node::Validity(_, _) => SEQUENCE,
            Node::Version => VERSION_TAG,
            Node::Tagged(tag, _) => *tag,
        }
    }

    /// Emits the value bytes of the element. What is emitted later comes to
    /// stand earlier, so the parts are emitted last first.
    pub fn write_value(&self, out: &mut OutBuf)
        requires
            old(out).wf(),
            old(out).accepts(self.value().len()),
        ensures
            final(out).extends(old(out), self.value()),
            old(out).0 is Some ==> final(final(out).0->0)@ == final(old(out).0->0)@,
        decreases self, 0int,
    {
        match self {
            Node::Sequence(children) => {
                let mut i: usize = children.len();
                let ghost mut done: Seq<u8> = Seq::empty();
                proof {
                    assert(children@.take(i as int) =~= children@);
                    out.lemma_extends_nothing();
                    assert(Self::concat(children@) + done =~= Self::concat(children@));
                }
                while i > 0
                    invariant
                        i <= children.len(),
                        old(out).wf(),
                        old(out).accepts(Self::concat(children@).len()),
                        out.extends(old(out), done),
                        old(out).0 is Some ==> final(out.0->0)@ == final(old(out).0->0)@,
                        Self::concat(children@) == Self::concat(children@.take(i as int)) + done,
                        *self == Node::Sequence(*children),
                    decreases i,
                {
                    i = i - 1;
                    let child = &children[i];
                    let ghost mid = *out;
                    proof {
                        assert(children@.take(i + 1).drop_last() =~= children@.take(i as int));
                        assert(children@.take(i + 1).last() == children@[i as int]);
                        assert(Self::concat(children@.take(i + 1)) == Self::concat(
                            children@.take(i as int),
                        ) + child.der());
                        assert(decreases_to!(self => self->Sequence_0@[i as int]));
                    }
                    out.write(child.tag(), child);
                    proof {
                        out.lemma_extends_twice(&mid, old(out), done, child.der());
                        assert(Self::concat(children@.take(i + 1)) + done =~= Self::concat(
                            children@.take(i as int),
                        ) + (child.der() + done));
                        done = child.der() + done;
                    }
                }
                assert(Self::concat(children@.take(0)) =~= Seq::<u8>::empty());
                assert(Self::concat(children@.take(0)) + done =~= done);
            },
            Node::Raw(_, bytes) => {
                out.write_raw(bytes);
            },
            Node::BitString(bytes) => {
                let ghost start = *out;
                out.write_raw(bytes);
                let ghost mid = *out;
                let unused: [u8; 1] = [0];
                out.write_raw(unused.as_slice());
                proof {
                    out.lemma_extends_twice(&mid, &start, bytes@, unused@);
                    assert(unused@ + bytes@ =~= seq![0u8] + bytes@);
                }
            },
            Node::OctetString(inner) => {
                out.write(inner.tag(), inner);
            },
            Node::PositiveInteger(n) => {
                let digits = u64_be_bytes(*n);
                proof {
                    lemma_be_bytes_len_u64(*n as nat);
                    lemma_unsigned_content_fixed(*n as nat, 8);
                }
                out.integer_content(digits.as_slice());
            },
            Node::Extension { oid, critical, value } => {
                let ghost start = *out;
                let ghost wrapped = tlv(OCTET_STRING, value.der());
                let ghost flag = optional_boolean_bytes(*critical);
                proof {
                    assert(oid@ + flag + wrapped =~= oid@ + (flag + wrapped));
                    assert((oid@ + flag + wrapped).len() == oid@.len() + flag.len()
                        + wrapped.len());
                }
                let from: usize = out.1;
                out.write(value.tag(), value);
                let ghost inner = *out;
                let len: usize = out.1 - from;
                out.write_header(OCTET_STRING, len);
                let ghost framed = *out;
                proof {
                    out.lemma_extends_twice(
                        &inner,
                        &start,
                        value.der(),
                        header(OCTET_STRING, len as nat),
                    );
                }
                out.optional_boolean(*critical);
                let ghost flagged = *out;
                proof {
                    out.lemma_extends_twice(&framed, &start, wrapped, flag);
                }
                out.write_raw(oid);
                proof {
                    out.lemma_extends_twice(&flagged, &start, flag + wrapped, oid@);
                }
            },
            Node::Validity(not_before, not_after) => {
                let ghost start = *out;
                out.x509_time(not_after);
                let ghost mid = *out;
                out.x509_time(not_before);
                proof {
                    out.lemma_extends_twice(
                        &mid,
                        &start,
                        not_after@.asn1_bytes(),
                        not_before@.asn1_bytes(),
                    );
                }
            },
            Node::Version => {
                let bytes: [u8; 3] = [INTEGER, 1, 2];
                assert(bytes@ =~= seq![INTEGER, 1u8, 2u8]);
                out.write_raw(bytes.as_slice());
            },
            Node::Tagged(_, inner) => {
                out.write(inner.tag(), inner);
            },
        }
    }

    /// Emits the encoding of the element and returns its length.
    pub fn write(&self, out: &mut OutBuf) -> (n: usize)
        requires
            old(out).wf(),
            old(out).accepts(self.der().len()),
        ensures
            final(out).extends(old(out), self.der()),
            n == self.der().len(),
            old(out).0 is Some ==> final(final(out).0->0)@ == final(old(out).0->0)@,
    {
        out.write(self.tag(), self)
    }
}

/// The eight bytes of `n`, most significant first.
pub fn u64_be_bytes(n: u64) -> (r: [u8; 8])
    ensures
        r@ == fixed_be_bytes(n as nat, 8),
{
    let mut r: [u8; 8] = [0; 8];
    let mut rest: u64 = n;
    let mut left: usize = 8;
    proof {
        lemma_fixed_be_bytes_len(n as nat, 8);
        assert(fixed_be_bytes(n as nat, 8) =~= fixed_be_bytes(n as nat, 8).subrange(0, 8));
    }
    while left > 0
        invariant
            left <= 8,
            r@.len() == 8,
            fixed_be_bytes(n as nat, 8).len() == 8,
            fixed_be_bytes(rest as nat, left as nat) == fixed_be_bytes(n as nat, 8).subrange(
                0,
                left as int,
            ),
            forall|k: int| left <= k < 8 ==> r@[k] == fixed_be_bytes(n as nat, 8)[k],
        decreases left,
    {
        let ghost all = fixed_be_bytes(n as nat, 8);
        left = left - 1;
        assert(fixed_be_bytes(rest as nat, (left + 1) as nat).last() == (rest % 256) as u8);
        assert(all.subrange(0, left + 1).last() == all[left as int]);
        assert(fixed_be_bytes((rest / 256) as nat, left as nat) =~= all.subrange(0, left as int))
            by {
            assert(fixed_be_bytes(rest as nat, (left + 1) as nat).drop_last() =~= fixed_be_bytes(
                (rest / 256) as nat,
                left as nat,
            ));
            assert(all.subrange(0, left + 1).drop_last() =~= all.subrange(0, left as int));
        }
        r[left] = (rest % 256) as u8;
        rest = rest / 256;
    }
    assert(r@ =~= fixed_be_bytes(n as nat, 8));
    r
}

} // verus!
