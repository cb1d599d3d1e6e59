//! The one certificate that this library assembles: a fixed structure around
//! the caller's algorithm identifiers, key, signature and validity period.

use crate::buffer::encode;
use crate::der::{
    boolean_true, frame_all, header, lemma_be_bytes_len_u64, lemma_frame_all_len,
    lemma_frame_all_push, lemma_read_row, lemma_read_tlv, read_element, read_elements, tlv,
};
use crate::node::{Node, VERSION_TAG};
use crate::time::{
    civil_time, lemma_asn1_bytes, lemma_asn1_bytes_framed, CivilTime, EncodeError, X509Time,
    MAX_ASN1_TIMESTAMP,
};
use crate::BOOLEAN;
use crate::{BIT_STRING, INTEGER, OCTET_STRING, SEQUENCE};
use vstd::prelude::*;

verus! {

/// The tag of the extensions field: context-specific, constructed, number 3.
pub const EXTENSIONS_TAG: u8 = 0xa3;

/// The encoded object identifier of the basic constraints extension,
/// 2.5.29.19.
pub open spec fn basic_constraints_oid() -> Seq<u8> {
    seq![0x06u8, 0x03u8, 0x55u8, 0x1du8, 0x13u8]
}

/// The bytes that certificates have beyond the caller's byte strings never
/// exceed this number.
pub const MAX_OVERHEAD: usize = 256;

/// The version field: version 3, which is written as 2.
pub open spec fn version_der() -> Seq<u8> {
    tlv(VERSION_TAG, seq![INTEGER, 1u8, 2u8])
}

/// The validity period.
pub open spec fn validity_der(not_before: CivilTime, not_after: CivilTime) -> Seq<u8> {
    tlv(SEQUENCE, not_before.asn1_bytes() + not_after.asn1_bytes())
}

/// The public key with its algorithm.
pub open spec fn public_key_info_der(algorithm: Seq<u8>, key: Seq<u8>) -> Seq<u8> {
    tlv(SEQUENCE, tlv(SEQUENCE, algorithm) + tlv(BIT_STRING, seq![0u8] + key))
}

/// The extensions: one, basic constraints, critical, with an empty SEQUENCE
/// as its value.
pub open spec fn extensions_der() -> Seq<u8> {
    tlv(
        EXTENSIONS_TAG,
        tlv(
            SEQUENCE,
            tlv(
                SEQUENCE,
                basic_constraints_oid() + boolean_true() + tlv(
                    OCTET_STRING,
                    tlv(SEQUENCE, Seq::empty()),
                ),
            ),
        ),
    )
}

/// The part of the certificate that is signed: version, signature
/// algorithm, an empty issuer name, validity, public key, extensions.
pub open spec fn tbs_certificate_der(
    not_before: CivilTime,
    not_after: CivilTime,
    algorithm: Seq<u8>,
    key: Seq<u8>,
    sigalg: Seq<u8>,
) -> Seq<u8> {
    tlv(
        SEQUENCE,
        version_der() + tlv(SEQUENCE, sigalg) + tlv(SEQUENCE, Seq::empty()) + validity_der(
            not_before,
            not_after,
        ) + public_key_info_der(algorithm, key) + extensions_der(),
    )
}

/// The certificate: signature, signature algorithm, and the part that is
/// signed.
pub open spec fn certificate_der(
    not_before: CivilTime,
    not_after: CivilTime,
    algorithm: Seq<u8>,
    sig: Seq<u8>,
    key: Seq<u8>,
    sigalg: Seq<u8>,
) -> Seq<u8> {
    tlv(
        SEQUENCE,
        tlv(BIT_STRING, seq![0u8] + sig) + tlv(SEQUENCE, sigalg) + tbs_certificate_der(
            not_before,
            not_after,
            algorithm,
            key,
            sigalg,
        ),
    )
}

/// The fields of a certificate as a reader finds them, each with its tag
/// and its value: signature, signature algorithm, the part that is signed.
pub open spec fn certificate_fields(
    not_before: CivilTime,
    not_after: CivilTime,
    algorithm: Seq<u8>,
    sig: Seq<u8>,
    key: Seq<u8>,
    sigalg: Seq<u8>,
) -> Seq<(u8, Seq<u8>)> {
    seq![
        (BIT_STRING, seq![0u8] + sig),
        (SEQUENCE, sigalg),
        (SEQUENCE, frame_all(tbs_certificate_fields(not_before, not_after, algorithm, key, sigalg))),
    ]
}

/// The fields of the part that is signed as a reader finds them: version,
/// signature algorithm, issuer, validity, public key, extensions.
pub open spec fn tbs_certificate_fields(
    not_before: CivilTime,
    not_after: CivilTime,
    algorithm: Seq<u8>,
    key: Seq<u8>,
    sigalg: Seq<u8>,
) -> Seq<(u8, Seq<u8>)> {
    seq![
        (VERSION_TAG, seq![INTEGER, 1u8, 2u8]),
        (SEQUENCE, sigalg),
        (SEQUENCE, Seq::empty()),
        (SEQUENCE, frame_all(validity_fields(not_before, not_after))),
        (SEQUENCE, frame_all(public_key_info_fields(algorithm, key))),
        (EXTENSIONS_TAG, frame_all(seq![(SEQUENCE, frame_all(seq![extension_field()]))])),
    ]
}

/// The two times of the validity period as a reader finds them.
pub open spec fn validity_fields(not_before: CivilTime, not_after: CivilTime) -> Seq<
    (u8, Seq<u8>),
> {
    seq![
        (not_before.asn1_tag(), not_before.asn1_text()),
        (not_after.asn1_tag(), not_after.asn1_text()),
    ]
}

/// Algorithm and key as a reader finds them.
pub open spec fn public_key_info_fields(algorithm: Seq<u8>, key: Seq<u8>) -> Seq<(u8, Seq<u8>)> {
    seq![(SEQUENCE, algorithm), (BIT_STRING, seq![0u8] + key)]
}

/// The one extension as a reader finds it: a SEQUENCE of identifier,
/// critical flag, and an OCTET STRING that holds an empty SEQUENCE.
pub open spec fn extension_field() -> (u8, Seq<u8>) {
    (
        SEQUENCE,
        frame_all(
            seq![
                (0x06u8, seq![0x55u8, 0x1du8, 0x13u8]),
                (BOOLEAN, seq![0xffu8]),
                (OCTET_STRING, frame_all(seq![(SEQUENCE, Seq::empty())])),
            ],
        ),
    )
}

/// One, two and three elements framed are their encodings in a row.
pub proof fn lemma_frame_few(a: (u8, Seq<u8>), b: (u8, Seq<u8>), c: (u8, Seq<u8>))
    ensures
        frame_all(seq![a]) == tlv(a.0, a.1),
        frame_all(seq![a, b]) == tlv(a.0, a.1) + tlv(b.0, b.1),
        frame_all(seq![a, b, c]) == tlv(a.0, a.1) + tlv(b.0, b.1) + tlv(c.0, c.1),
{
    let none = Seq::<(u8, Seq<u8>)>::empty();
    lemma_frame_all_push(none, a);
    lemma_frame_all_push(none.push(a), b);
    lemma_frame_all_push(none.push(a).push(b), c);
    assert(none.push(a) =~= seq![a]);
    assert(none.push(a).push(b) =~= seq![a, b]);
    assert(none.push(a).push(b).push(c) =~= seq![a, b, c]);
    assert(frame_all(none) =~= Seq::<u8>::empty());
    assert(frame_all(seq![a]) =~= tlv(a.0, a.1));
}

/// The extensions are their fields, framed at every depth.
pub proof fn lemma_extensions_framed()
    ensures
        extensions_der() == tlv(
            EXTENSIONS_TAG,
            frame_all(seq![(SEQUENCE, frame_all(seq![extension_field()]))]),
        ),
{
    let unit = (SEQUENCE, Seq::<u8>::empty());
    let octets = (OCTET_STRING, frame_all(seq![unit]));
    let oid = (0x06u8, seq![0x55u8, 0x1du8, 0x13u8]);
    let flag = (BOOLEAN, seq![0xffu8]);
    lemma_frame_few(unit, unit, unit);
    lemma_frame_few(oid, flag, octets);
    assert(tlv(oid.0, oid.1) =~= basic_constraints_oid());
    assert(tlv(flag.0, flag.1) =~= boolean_true());
    let extension = extension_field();
    lemma_frame_few(extension, unit, unit);
    let list = (SEQUENCE, frame_all(seq![extension]));
    lemma_frame_few(list, unit, unit);
}

/// The certificate is its fields, framed at every depth: each of the
/// functions that say what its parts are agrees with the fields that a
/// reader is to find.
pub proof fn lemma_certificate_framed(
    not_before: CivilTime,
    not_after: CivilTime,
    algorithm: Seq<u8>,
    sig: Seq<u8>,
    key: Seq<u8>,
    sigalg: Seq<u8>,
)
    ensures
        certificate_der(not_before, not_after, algorithm, sig, key, sigalg) == tlv(
            SEQUENCE,
            frame_all(certificate_fields(not_before, not_after, algorithm, sig, key, sigalg)),
        ),
        tbs_certificate_der(not_before, not_after, algorithm, key, sigalg) == tlv(
            SEQUENCE,
            frame_all(tbs_certificate_fields(not_before, not_after, algorithm, key, sigalg)),
        ),
        validity_der(not_before, not_after) == tlv(
            SEQUENCE,
            frame_all(validity_fields(not_before, not_after)),
        ),
        public_key_info_der(algorithm, key) == tlv(
            SEQUENCE,
            frame_all(public_key_info_fields(algorithm, key)),
        ),
        extensions_der() == tlv(
            EXTENSIONS_TAG,
            frame_all(seq![(SEQUENCE, frame_all(seq![extension_field()]))]),
        ),
{
    let unit = (SEQUENCE, Seq::<u8>::empty());
    lemma_extensions_framed();
    lemma_asn1_bytes_framed(not_before);
    lemma_asn1_bytes_framed(not_after);
    let from = (not_before.asn1_tag(), not_before.asn1_text());
    let until = (not_after.asn1_tag(), not_after.asn1_text());
    lemma_frame_few(from, until, unit);
    let alg = (SEQUENCE, algorithm);
    let bits = (BIT_STRING, seq![0u8] + key);
    lemma_frame_few(alg, bits, unit);
    let fields = tbs_certificate_fields(not_before, not_after, algorithm, key, sigalg);
    let none = Seq::<(u8, Seq<u8>)>::empty();
    lemma_frame_all_push(none, fields[0]);
    lemma_frame_all_push(none.push(fields[0]), fields[1]);
    lemma_frame_all_push(none.push(fields[0]).push(fields[1]), fields[2]);
    lemma_frame_all_push(none.push(fields[0]).push(fields[1]).push(fields[2]), fields[3]);
    lemma_frame_all_push(
        none.push(fields[0]).push(fields[1]).push(fields[2]).push(fields[3]),
        fields[4],
    );
    lemma_frame_all_push(
        none.push(fields[0]).push(fields[1]).push(fields[2]).push(fields[3]).push(fields[4]),
        fields[5],
    );
    assert(none.push(fields[0]).push(fields[1]).push(fields[2]).push(fields[3]).push(
        fields[4],
    ).push(fields[5]) =~= fields);
    assert(frame_all(none) =~= Seq::<u8>::empty());
    assert(frame_all(fields) =~= version_der() + tlv(SEQUENCE, sigalg) + tlv(
        SEQUENCE,
        Seq::empty(),
    ) + validity_der(not_before, not_after) + public_key_info_der(algorithm, key)
        + extensions_der());
    let outer = certificate_fields(not_before, not_after, algorithm, sig, key, sigalg);
    lemma_frame_few(outer[0], outer[1], outer[2]);
    assert(outer =~= seq![outer[0], outer[1], outer[2]]);
}

/// The extensions read back at every depth: a reader finds one SEQUENCE, in
/// it the one extension, in that the identifier, the critical flag and an
/// OCTET STRING, and in the OCTET STRING an empty SEQUENCE.
pub proof fn lemma_extensions_read_back()
    ensures
        read_element(extensions_der()) == Some(
            (
                EXTENSIONS_TAG,
                frame_all(seq![(SEQUENCE, frame_all(seq![extension_field()]))]),
                Seq::<u8>::empty(),
            ),
        ),
        read_elements(frame_all(seq![(SEQUENCE, frame_all(seq![extension_field()]))])) == Some(
            seq![(SEQUENCE, frame_all(seq![extension_field()]))],
        ),
        read_elements(frame_all(seq![extension_field()])) == Some(seq![extension_field()]),
        read_elements(extension_field().1) == Some(
            seq![
                (0x06u8, seq![0x55u8, 0x1du8, 0x13u8]),
                (BOOLEAN, seq![0xffu8]),
                (OCTET_STRING, frame_all(seq![(SEQUENCE, Seq::empty())])),
            ],
        ),
        read_elements(frame_all(seq![(SEQUENCE, Seq::<u8>::empty())])) == Some(
            seq![(SEQUENCE, Seq::<u8>::empty())],
        ),
{
    let empty = Seq::<u8>::empty();
    lemma_extensions_framed();
    lemma_header_len(SEQUENCE, 0);
    let unit = (SEQUENCE, empty);
    lemma_frame_few(unit, unit, unit);
    assert(frame_all(seq![unit]).len() <= 10);
    lemma_read_row(seq![unit]);
    let parts = seq![
        (0x06u8, seq![0x55u8, 0x1du8, 0x13u8]),
        (BOOLEAN, seq![0xffu8]),
        (OCTET_STRING, frame_all(seq![unit])),
    ];
    lemma_frame_few(parts[0], parts[1], parts[2]);
    assert(parts =~= seq![parts[0], parts[1], parts[2]]);
    lemma_header_len(0x06u8, 3);
    lemma_header_len(BOOLEAN, 1);
    lemma_header_len(OCTET_STRING, frame_all(seq![unit]).len());
    assert(frame_all(parts).len() <= 50);
    lemma_read_row(parts);
    let extension = extension_field();
    lemma_frame_few(extension, unit, unit);
    lemma_header_len(SEQUENCE, frame_all(parts).len());
    assert(frame_all(seq![extension]).len() <= 60);
    lemma_read_row(seq![extension]);
    let list = (SEQUENCE, frame_all(seq![extension]));
    lemma_frame_few(list, unit, unit);
    lemma_header_len(SEQUENCE, frame_all(seq![extension]).len());
    assert(frame_all(seq![list]).len() <= 70);
    lemma_read_row(seq![list]);
    lemma_read_tlv(EXTENSIONS_TAG, frame_all(seq![list]), empty);
    assert(extensions_der() + empty =~= extensions_der());
}

/// The certificate reads back: a reader finds a SEQUENCE with nothing
/// behind it, in it the three fields of the certificate, in the part that is
/// signed its six fields, and in validity and public key theirs, each
/// length field counting exactly its value. The byte strings that the
/// caller hands in are found where they were put and are not looked into.
/// What a reader finds in the extensions, `lemma_extensions_read_back` says.
pub proof fn lemma_certificate_reads_back(
    not_before: CivilTime,
    not_after: CivilTime,
    algorithm: Seq<u8>,
    sig: Seq<u8>,
    key: Seq<u8>,
    sigalg: Seq<u8>,
)
    requires
        certificate_der(not_before, not_after, algorithm, sig, key, sigalg).len() <= u64::MAX,
    ensures
        read_element(certificate_der(not_before, not_after, algorithm, sig, key, sigalg)) == Some(
            (
                SEQUENCE,
                frame_all(
                    certificate_fields(not_before, not_after, algorithm, sig, key, sigalg),
                ),
                Seq::<u8>::empty(),
            ),
        ),
        read_elements(
            frame_all(certificate_fields(not_before, not_after, algorithm, sig, key, sigalg)),
        ) == Some(certificate_fields(not_before, not_after, algorithm, sig, key, sigalg)),
        read_elements(
            frame_all(tbs_certificate_fields(not_before, not_after, algorithm, key, sigalg)),
        ) == Some(tbs_certificate_fields(not_before, not_after, algorithm, key, sigalg)),
        read_elements(frame_all(validity_fields(not_before, not_after))) == Some(
            validity_fields(not_before, not_after),
        ),
        read_elements(frame_all(public_key_info_fields(algorithm, key))) == Some(
            public_key_info_fields(algorithm, key),
        ),
{
    lemma_certificate_framed(not_before, not_after, algorithm, sig, key, sigalg);
    let outer = certificate_fields(not_before, not_after, algorithm, sig, key, sigalg);
    let tbs = tbs_certificate_fields(not_before, not_after, algorithm, key, sigalg);
    let whole = certificate_der(not_before, not_after, algorithm, sig, key, sigalg);
    assert(whole == tlv(SEQUENCE, frame_all(outer)));
    assert(frame_all(outer).len() <= whole.len());
    lemma_read_tlv(SEQUENCE, frame_all(outer), Seq::empty());
    assert(whole + Seq::<u8>::empty() =~= whole);
    lemma_read_row(outer);
    lemma_frame_all_len(outer);
    assert(outer[2].1 == frame_all(tbs));
    lemma_read_row(tbs);
    lemma_frame_all_len(tbs);
    assert(tbs[3].1 == frame_all(validity_fields(not_before, not_after)));
    lemma_read_row(validity_fields(not_before, not_after));
    assert(tbs[4].1 == frame_all(public_key_info_fields(algorithm, key)));
    lemma_read_row(public_key_info_fields(algorithm, key));
}

/// A header has at most ten bytes, for any length that a machine can hold.
pub proof fn lemma_header_len(tag: u8, len: nat)
    requires
        len <= u64::MAX,
    ensures
        2 <= header(tag, len).len() <= 10,
{
    lemma_be_bytes_len_u64(len);
}

/// A certificate is at most `MAX_OVERHEAD` bytes longer than the byte
/// strings it is made of, of which the signature algorithm occurs twice. A
/// caller of `encode_certificate` whose byte strings leave that much room
/// meets its precondition by this.
pub proof fn lemma_certificate_len(
    not_before: CivilTime,
    not_after: CivilTime,
    algorithm: Seq<u8>,
    sig: Seq<u8>,
    key: Seq<u8>,
    sigalg: Seq<u8>,
)
    requires
        algorithm.len() + sig.len() + key.len() + 2 * sigalg.len() + MAX_OVERHEAD <= usize::MAX,
    ensures
        certificate_der(not_before, not_after, algorithm, sig, key, sigalg).len()
            <= algorithm.len() + sig.len() + key.len() + 2 * sigalg.len() + MAX_OVERHEAD,
{
    lemma_asn1_bytes(not_before);
    lemma_asn1_bytes(not_after);
    let empty = Seq::<u8>::empty();
    lemma_header_len(SEQUENCE, 0);
    let octets = tlv(OCTET_STRING, tlv(SEQUENCE, empty));
    lemma_header_len(OCTET_STRING, tlv(SEQUENCE, empty).len());
    let extension = basic_constraints_oid() + boolean_true() + octets;
    lemma_header_len(SEQUENCE, extension.len());
    lemma_header_len(SEQUENCE, tlv(SEQUENCE, extension).len());
    lemma_header_len(EXTENSIONS_TAG, tlv(SEQUENCE, tlv(SEQUENCE, extension)).len());
    assert(extensions_der().len() <= 60);
    lemma_header_len(VERSION_TAG, 3);
    assert(version_der().len() <= 13);
    lemma_header_len(SEQUENCE, (not_before.asn1_bytes() + not_after.asn1_bytes()).len());
    assert(validity_der(not_before, not_after).len() <= 44);
    lemma_header_len(SEQUENCE, algorithm.len());
    lemma_header_len(BIT_STRING, (seq![0u8] + key).len());
    let key_info = tlv(SEQUENCE, algorithm) + tlv(BIT_STRING, seq![0u8] + key);
    lemma_header_len(SEQUENCE, key_info.len());
    assert(public_key_info_der(algorithm, key).len() <= algorithm.len() + key.len() + 31);
    lemma_header_len(SEQUENCE, sigalg.len());
    let tbs = version_der() + tlv(SEQUENCE, sigalg) + tlv(SEQUENCE, empty) + validity_der(
        not_before,
        not_after,
    ) + public_key_info_der(algorithm, key) + extensions_der();
    lemma_header_len(SEQUENCE, tbs.len());
    lemma_header_len(BIT_STRING, (seq![0u8] + sig).len());
    let all = tlv(BIT_STRING, seq![0u8] + sig) + tlv(SEQUENCE, sigalg) + tbs_certificate_der(
        not_before,
        not_after,
        algorithm,
        key,
        sigalg,
    );
    lemma_header_len(SEQUENCE, all.len());
}

/// Appending an element to a list appends its encoding.
pub proof fn lemma_concat_push<'a>(nodes: Seq<Node<'a>>, node: Node<'a>)
    ensures
        Node::concat(nodes.push(node)) == Node::concat(nodes) + node.der(),
{
    assert(nodes.push(node).drop_last() =~= nodes);
}

/// The empty SEQUENCE.
fn empty_sequence<'a>() -> (r: Node<'a>)
    ensures
        r.der() == tlv(SEQUENCE, Seq::empty()),
{
    let list: Vec<Node> = Vec::new();
    assert(list@ =~= Seq::<Node>::empty());
    assert(Node::concat(list@) =~= Seq::<u8>::empty());
    let r = Node::Sequence(list);
    assert(r.value() == Node::concat(list@));
    r
}

/// The extensions field, given the encoded identifier of basic constraints.
fn extensions<'a>(oid: &'a [u8]) -> (r: Node<'a>)
    requires
        oid@ == basic_constraints_oid(),
    ensures
        r.der() == extensions_der(),
{
    let extension = Node::Extension { oid, critical: true, value: Box::new(empty_sequence()) };
    assert(extension.der() == tlv(
        SEQUENCE,
        basic_constraints_oid() + boolean_true() + tlv(OCTET_STRING, tlv(SEQUENCE, Seq::empty())),
    ));
    let mut list: Vec<Node> = Vec::new();
    list.push(extension);
    proof {
        lemma_concat_push(Seq::empty(), extension);
        assert(Node::concat(list@) =~= extension.der());
    }
    let inner = Node::Sequence(list);
    assert(inner.der() == tlv(SEQUENCE, extension.der()));
    Node::Tagged(EXTENSIONS_TAG, Box::new(inner))
}

/// The public key with its algorithm.
fn public_key_info<'a>(algorithm: &'a [u8], key: &'a [u8]) -> (r: Node<'a>)
    ensures
        r.der() == public_key_info_der(algorithm@, key@),
{
    let first = Node::Raw(SEQUENCE, algorithm);
    let second = Node::BitString(key);
    let mut list: Vec<Node> = Vec::new();
    list.push(first);
    proof {
        lemma_concat_push(Seq::empty(), first);
    }
    let ghost one = list@;
    list.push(second);
    proof {
        lemma_concat_push(one, second);
        assert(Node::concat(list@) =~= first.der() + second.der());
    }
    Node::Sequence(list)
}

/// The part of the certificate that is signed.
fn tbs_certificate<'a>(
    from: X509Time,
    until: X509Time,
    algorithm: &'a [u8],
    key: &'a [u8],
    sigalg: &'a [u8],
    oid: &'a [u8],
) -> (r: Node<'a>)
    requires
        oid@ == basic_constraints_oid(),
    ensures
        r.der() == tbs_certificate_der(from@, until@, algorithm@, key@, sigalg@),
{
    let version = Node::Version;
    let signature_algorithm = Node::Raw(SEQUENCE, sigalg);
    let issuer = empty_sequence();
    let validity = Node::Validity(from, until);
    let key_info = public_key_info(algorithm, key);
    let extensions = extensions(oid);
    assert(version.der() == version_der());
    assert(validity.der() == validity_der(from@, until@));
    let mut list: Vec<Node> = Vec::new();
    list.push(version);
    proof {
        lemma_concat_push(Seq::empty(), version);
    }
    let ghost l1 = list@;
    list.push(signature_algorithm);
    proof {
        lemma_concat_push(l1, signature_algorithm);
    }
    let ghost l2 = list@;
    list.push(issuer);
    proof {
        lemma_concat_push(l2, issuer);
    }
    let ghost l3 = list@;
    list.push(validity);
    proof {
        lemma_concat_push(l3, validity);
    }
    let ghost l4 = list@;
    list.push(key_info);
    proof {
        lemma_concat_push(l4, key_info);
    }
    let ghost l5 = list@;
    list.push(extensions);
    proof {
        lemma_concat_push(l5, extensions);
        assert(Node::concat(list@) =~= version_der() + tlv(SEQUENCE, sigalg@) + tlv(
            SEQUENCE,
            Seq::empty(),
        ) + validity_der(from@, until@) + public_key_info_der(algorithm@, key@)
            + extensions_der());
    }
    Node::Sequence(list)
}

/// The certificate for the given validity period, in seconds since the
/// epoch, and the given byte strings, which are taken as they are: the
/// content of the public key's algorithm identifier, the signature, the
/// public key, and the content of the signature algorithm's identifier.
/// Fails exactly if one of the two instants is past the last that ASN.1 can
/// name; no content of the byte strings makes it fail. All that is asked of
/// them is that the certificate is not longer than a vector can be, for
/// which `lemma_certificate_len` gives a bound in their lengths.
pub fn encode_certificate(
    not_before: u64,
    not_after: u64,
    algorithm: &[u8],
    sig: &[u8],
    key: &[u8],
    sigalg: &[u8],
) -> (r: Result<Vec<u8>, EncodeError>)
    requires
        not_before <= MAX_ASN1_TIMESTAMP && not_after <= MAX_ASN1_TIMESTAMP ==> certificate_der(
            civil_time(not_before as int),
            civil_time(not_after as int),
            algorithm@,
            sig@,
            key@,
            sigalg@,
        ).len() <= usize::MAX,
    ensures
        r is Ok <==> not_before <= MAX_ASN1_TIMESTAMP && not_after <= MAX_ASN1_TIMESTAMP,
        r matches Ok(bytes) ==> bytes@ == certificate_der(
            civil_time(not_before as int),
            civil_time(not_after as int),
            algorithm@,
            sig@,
            key@,
            sigalg@,
        ),
        r matches Err(e) ==> e == EncodeError::TimeNotRepresentable,
{
    let from = match X509Time::try_from(not_before) {
        Ok(t) => t,
        Err(e) => {
            return Err(e);
        },
    };
    let until = match X509Time::try_from(not_after) {
        Ok(t) => t,
        Err(e) => {
            return Err(e);
        },
    };
    let ghost nb = from@;
    let ghost na = until@;
    let oid: [u8; 5] = [6, 3, 85, 29, 19];
    assert(oid@ =~= basic_constraints_oid());
    let signature = Node::BitString(sig);
    let signature_algorithm = Node::Raw(SEQUENCE, sigalg);
    let tbs = tbs_certificate(from, until, algorithm, key, sigalg, oid.as_slice());
    let mut list: Vec<Node> = Vec::new();
    list.push(signature);
    proof {
        lemma_concat_push(Seq::empty(), signature);
    }
    let ghost l1 = list@;
    list.push(signature_algorithm);
    proof {
        lemma_concat_push(l1, signature_algorithm);
    }
    let ghost l2 = list@;
    list.push(tbs);
    proof {
        lemma_concat_push(l2, tbs);
        assert(Node::concat(list@) =~= tlv(BIT_STRING, seq![0u8] + sig@) + tlv(SEQUENCE, sigalg@)
            + tbs_certificate_der(nb, na, algorithm@, key@, sigalg@));
    }
    let certificate = Node::Sequence(list);
    Ok(encode(&certificate))
}

} // verus!
