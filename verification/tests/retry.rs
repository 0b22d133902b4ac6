//! Retry packets on the wire.

use aes_gcm::aead::{Aead, Payload};
use aes_gcm::{Aes128Gcm, KeyInit};
use sleepytale::retry::{
    build, build_with_scid, parse_ids, retry_integrity_tag, scid_of, QUIC_V1, RETRY_KEY,
    RETRY_NONCE, SCID_LEN,
};

/// `RFC 9001 Appendix A.4`: a Retry sent for the Client Initial DCID
/// `0x8394c8f03e515708`, with SCID `0xf067a5502a4262b5` and an empty token except for
/// the literal bytes `"token"`. This is the RFC's own worked example, not a synthetic
/// one, so it also happens to pin the wire format independent of `new_scid`.
#[test]
fn matches_the_rfc_9001_test_vector() {
    let odcid = hex("8394c8f03e515708");
    let mut header = vec![0xff];
    header.extend(hex("00000001")); // version
    header.push(0); // DCID len 0
    header.push(8); // SCID len
    header.extend(hex("f067a5502a4262b5"));
    header.extend(b"token");

    let tag = retry_integrity_tag(&odcid, &header);
    assert_eq!(hexstr(&tag), "04a265ba2eff4d829058fb3f0f2496ba");

    let mut expected_packet = header;
    expected_packet.extend_from_slice(&tag);
    assert_eq!(
        hexstr(&expected_packet),
        "ff000000010008f067a5502a4262b5746f6b656e04a265ba2eff4d829058fb3f0f2496ba"
    );
}

#[test]
fn builds_a_well_formed_retry_for_a_synthetic_initial() {
    let initial = synthetic_initial(&hex("aabbccddeeff0011"), &hex("1122334455667788"));

    let retry = build(&initial).expect("a well-formed Initial parses");

    assert_eq!(
        retry[0] & 0b1111_0000,
        0b1111_0000,
        "long header, Retry type"
    );
    assert_eq!(&retry[1..5], &QUIC_V1);
    let scid_of_client = hex("1122334455667788");
    assert_eq!(
        retry[5] as usize,
        scid_of_client.len(),
        "DCID len echoes client SCID len"
    );
    assert_eq!(&retry[6..6 + scid_of_client.len()], &scid_of_client[..]);

    let scid_pos = 6 + scid_of_client.len();
    let scid_len = retry[scid_pos] as usize;
    assert_eq!(scid_len, SCID_LEN, "the proxy's own SCID length");
    assert_eq!(
        retry.len(),
        scid_pos + 1 + scid_len + 16,
        "header fields plus a 16-byte tag, nothing else"
    );
}

#[test]
fn rejects_a_truncated_header() {
    assert!(
        build(&[0xff, 0, 0, 0, 1, 20]).is_none(),
        "DCID len claims more than is present"
    );
}

fn synthetic_initial(dcid: &[u8], scid: &[u8]) -> Vec<u8> {
    let mut packet = vec![0xc3];
    packet.extend(&QUIC_V1);
    packet.push(dcid.len() as u8);
    packet.extend_from_slice(dcid);
    packet.push(scid.len() as u8);
    packet.extend_from_slice(scid);
    packet.resize(1200, 0); // pad to the minimum Initial size, like a real client would
    packet
}

fn hex(s: &str) -> Vec<u8> {
    (0..s.len())
        .step_by(2)
        .map(|i| u8::from_str_radix(&s[i..i + 2], 16).unwrap())
        .collect()
}

fn hexstr(bytes: &[u8]) -> String {
    bytes.iter().map(|b| format!("{b:02x}")).collect()
}

#[test]
fn a_client_can_check_the_tag() {
    let (dcid, scid) = (hex("aabbccddeeff0011"), hex("1122334455"));
    let retry = build(&synthetic_initial(&dcid, &scid)).unwrap();
    let (header, tag) = retry.split_at(retry.len() - 16);
    let opens = |dcid: &[u8]| {
        let mut pseudo = vec![dcid.len() as u8];
        pseudo.extend(dcid);
        pseudo.extend(header);
        Aes128Gcm::new(&RETRY_KEY.into())
            .decrypt(&RETRY_NONCE.into(), Payload { msg: tag, aad: &pseudo })
    };
    assert_eq!(opens(&dcid), Ok(vec![]));
    assert!(opens(&scid).is_err(), "it answers another Initial");
}

#[test]
fn connection_ids_have_a_longest_length() {
    assert!(build(&synthetic_initial(&[1; 20], &[2; 20])).is_some());
    assert!(build(&synthetic_initial(&[1; 21], &[2; 20])).is_none());
    assert!(build(&synthetic_initial(&[1; 20], &[2; 21])).is_none());
    assert!(build(&synthetic_initial(&[], &[])).is_some());
    assert!(build(&[]).is_none());
}

#[test]
fn the_proxys_own_id_is_the_one_it_is_given() {
    let initial = synthetic_initial(&[1; 8], &[2; 4]);
    let retry = build_with_scid(&initial, b"proxy-id").unwrap();
    assert_eq!(&retry[..19], b"\xf0\x00\x00\x00\x01\x04\x02\x02\x02\x02\x08proxy-id");
    assert_eq!(parse_ids(&retry), Some((&[2u8; 4][..], &b"proxy-id"[..])));
}

#[test]
fn a_digest_gives_its_bytes_lowest_first() {
    assert_eq!(scid_of(0x0102_0304_0506_0708), [8, 7, 6, 5, 4, 3, 2, 1]);
    assert_eq!(scid_of(0), [0; 8]);
    assert_eq!(scid_of(u64::MAX), [0xff; 8]);
}
