use x509_der::certificate::MAX_OVERHEAD;
use x509_der::{encode_certificate, EncodeError, MAX_ASN1_TIMESTAMP};

const ED25519: [u8; 5] = [0x06, 0x03, 0x2b, 0x65, 0x70];

/// Reads one element at the start of `input`: its tag, its value and what
/// follows it. Fails on a truncated element or a length that is not minimal.
fn read_element(input: &[u8]) -> Option<(u8, &[u8], &[u8])> {
    let tag = *input.first()?;
    let first = *input.get(1)?;
    let (len, start) = if first < 0x80 {
        (first as usize, 2)
    } else {
        let count = (first & 0x7f) as usize;
        if count == 0 || count > 8 {
            return None;
        }
        let digits = input.get(2..2 + count)?;
        if digits[0] == 0 {
            return None;
        }
        let mut len = 0usize;
        for d in digits {
            len = len * 256 + *d as usize;
        }
        if len < 0x80 {
            return None;
        }
        (len, 2 + count)
    };
    let value = input.get(start..start + len)?;
    Some((tag, value, &input[start + len..]))
}

/// Reads a value that is a list of elements.
fn read_all(mut input: &[u8]) -> Option<Vec<(u8, &[u8])>> {
    let mut list = Vec::new();
    while !input.is_empty() {
        let (tag, value, rest) = read_element(input)?;
        list.push((tag, value));
        input = rest;
    }
    Some(list)
}

/// Checks that every constructed element of `input` holds well-formed
/// elements that fill it exactly, and returns how many elements there are.
fn check_nested(input: &[u8]) -> usize {
    let mut count = 0;
    for (tag, value) in read_all(input).unwrap() {
        count += 1;
        if tag & 0x20 != 0 {
            count += check_nested(value);
        }
    }
    count
}

fn tlv(tag: u8, value: &[u8]) -> Vec<u8> {
    assert!(value.len() < 128);
    let mut out = vec![tag, value.len() as u8];
    out.extend_from_slice(value);
    out
}

#[test]
fn encode_works() {
    let not_before = 1585162134;
    let not_after = MAX_ASN1_TIMESTAMP;
    let cert = encode_certificate(not_before, not_after, &ED25519, &[], &[], &ED25519).unwrap();

    let (tag, body, rest) = read_element(&cert).unwrap();
    assert_eq!(tag, 0x30);
    assert!(rest.is_empty());
    assert_eq!(body.len(), cert.len() - 2);

    let fields = read_all(body).unwrap();
    assert_eq!(fields.len(), 3);
    assert_eq!(fields[0], (0x03, &[0u8][..]));
    assert_eq!(fields[1], (0x30, &ED25519[..]));
    assert_eq!(fields[2].0, 0x30);

    let tbs = read_all(fields[2].1).unwrap();
    let tags: Vec<u8> = tbs.iter().map(|f| f.0).collect();
    assert_eq!(tags, vec![0xa0, 0x30, 0x30, 0x30, 0x30, 0xa3]);
    assert_eq!(tbs[0].1, &[0x02, 0x01, 0x02]);
    assert_eq!(tbs[1].1, &ED25519);
    assert!(tbs[2].1.is_empty());
    assert_eq!(
        tbs[3].1,
        b"\x17\x0d200325184854Z\x18\x0f99991231235959Z"
    );
    assert_eq!(tbs[4].1, &[0x30, 5, 6, 3, 0x2b, 0x65, 0x70, 3, 1, 0]);
    assert_eq!(
        tbs[5].1,
        &[0x30, 0x0e, 0x30, 0x0c, 6, 3, 85, 29, 19, 1, 1, 0xff, 4, 2, 0x30, 0]
    );

    assert_eq!(check_nested(&cert), 23);
}

#[test]
fn certificate_is_exact() {
    let cert = encode_certificate(0, 86400, &[0xaa], &[0xbb], &[0xcc], &[0xdd]).unwrap();

    let extension = tlv(
        0x30,
        &[6, 3, 85, 29, 19, 1, 1, 0xff, 4, 2, 0x30, 0],
    );
    let extensions = tlv(0xa3, &tlv(0x30, &extension));
    let key_info = tlv(0x30, &[0x30, 1, 0xaa, 3, 2, 0, 0xcc]);
    let validity = tlv(0x30, b"\x17\x0d700101000000Z\x17\x0d700102000000Z");
    let mut tbs = vec![0xa0, 3, 2, 1, 2];
    tbs.extend_from_slice(&[0x30, 1, 0xdd]);
    tbs.extend_from_slice(&[0x30, 0]);
    tbs.extend_from_slice(&validity);
    tbs.extend_from_slice(&key_info);
    tbs.extend_from_slice(&extensions);
    let mut all = vec![3, 2, 0, 0xbb];
    all.extend_from_slice(&[0x30, 1, 0xdd]);
    all.extend_from_slice(&tlv(0x30, &tbs));
    assert_eq!(cert, tlv(0x30, &all));
    assert_eq!(cert.len(), 80);
}

#[test]
fn long_fields_get_long_lengths() {
    let sig = vec![0x5au8; 64];
    let key = vec![0xa5u8; 300];
    let cert = encode_certificate(1, 2, &ED25519, &sig, &key, &ED25519).unwrap();
    let (tag, body, rest) = read_element(&cert).unwrap();
    assert_eq!(tag, 0x30);
    assert!(rest.is_empty());
    assert_eq!(&cert[..4], &[0x30, 0x82, 0x01, 0xca]);
    let fields = read_all(body).unwrap();
    assert_eq!(fields[0].0, 0x03);
    assert_eq!(fields[0].1[0], 0);
    assert_eq!(&fields[0].1[1..], &sig[..]);
    let tbs = read_all(fields[2].1).unwrap();
    let key_info = read_all(tbs[4].1).unwrap();
    assert_eq!(key_info[0], (0x30, &ED25519[..]));
    assert_eq!(key_info[1].0, 0x03);
    assert_eq!(key_info[1].1.len(), 301);
    assert_eq!(&key_info[1].1[1..], &key[..]);
    assert_eq!(check_nested(&cert), 23);
    assert!(cert.len() <= 2 * ED25519.len() + ED25519.len() + sig.len() + key.len() + MAX_OVERHEAD);
}

#[test]
fn certificate_needs_representable_times() {
    let last = MAX_ASN1_TIMESTAMP;
    assert_eq!(last, 253402300799);
    assert!(encode_certificate(last, last, &ED25519, &[], &[], &ED25519).is_ok());
    assert_eq!(
        encode_certificate(last + 1, last, &ED25519, &[], &[], &ED25519),
        Err(EncodeError::TimeNotRepresentable)
    );
    assert_eq!(
        encode_certificate(0, last + 1, &ED25519, &[], &[], &ED25519),
        Err(EncodeError::TimeNotRepresentable)
    );
    assert_eq!(
        encode_certificate(u64::MAX, u64::MAX, &ED25519, &[], &[], &ED25519),
        Err(EncodeError::TimeNotRepresentable)
    );
}
