//! Answering a client's QUIC Initial with a Retry while the backend is not ready.
//!
//! A Retry (RFC 9000, Section 17.2.5) is sent before any handshake state exists. It carries no
//! session state and no backend secret: the AEAD key and nonce below are the fixed QUIC v1
//! constants from RFC 9001, Section 5.8, the same for every QUIC server on the internet.
//!
//! The Retry Token this proxy issues is always empty. A real QUIC server encodes an
//! address-validation secret in the token and checks it on the client's next Initial; this
//! proxy never completes a handshake of its own to validate anything against, so there is
//! nothing to encode.

use crate::crypto;
use crate::reader::{self, Reader};
use std::collections::hash_map::DefaultHasher;
use std::hash::{Hash, Hasher};
use std::time::Instant;
use vstd::prelude::*;
use vstd::std_specs::hash::DefaultHasherAdditionalSpecFns;

verus! {

/// Fixed AEAD key for the Retry Integrity Tag (RFC 9001, Section 5.8): a QUIC v1 protocol
/// constant known to every implementation, not a secret.
pub const RETRY_KEY: [u8; 16] = [
    0xbe, 0x0c, 0x69, 0x0b, 0x9f, 0x66, 0x57, 0x5a, 0x1d, 0x76, 0x6b, 0x54, 0xe3, 0x68, 0xc8, 0x4e,
];

/// Fixed AEAD nonce for the Retry Integrity Tag (RFC 9001, Section 5.8).
pub const RETRY_NONCE: [u8; 12] = [
    0x46, 0x15, 0x99, 0xd3, 0x5d, 0x63, 0x2b, 0xf2, 0x23, 0x98, 0x25, 0xbb,
];

/// The version field of a QUIC v1 packet.
pub const QUIC_V1: [u8; 4] = [0x00, 0x00, 0x00, 0x01];

/// Length of the Source Connection ID this proxy picks for its Retry. The client echoes
/// it back as the Destination CID of its next Initial; the proxy does not demultiplex
/// on it, so any length up to 20 bytes would do; 8 matches what the server itself uses.
pub const SCID_LEN: usize = 8;

/// The Destination and Source Connection IDs of a long-header packet.
///
/// Layout after the fixed 5-byte header (type byte and version): `DCID Len (8) || DCID ||
/// SCID Len (8) || SCID || ...`. Everything past the SCID is irrelevant to building a Retry.
pub open spec fn ids(packet: Seq<u8>) -> Option<(Seq<u8>, Seq<u8>)> {
    if packet.len() < 5 {
        None
    } else {
        match reader::cid(packet.skip(5)) {
            None => None,
            Some((dcid, rest)) => match reader::cid(rest) {
                None => None,
                Some((scid, _)) => Some((dcid, scid)),
            },
        }
    }
}

/// Everything a Retry sends on the wire except the tag: long header, fixed bit and Retry type,
/// the client's Source Connection ID echoed as the destination, the proxy's own as the source,
/// and an empty token.
pub open spec fn retry_header(client_scid: Seq<u8>, scid: Seq<u8>) -> Seq<u8> {
    seq![0xf0u8] + QUIC_V1@ + seq![client_scid.len() as u8] + client_scid + seq![scid.len() as u8]
        + scid
}

/// The Retry Pseudo-Packet: the original client DCID, length-prefixed, then the Retry header.
pub open spec fn pseudo_packet(odcid: Seq<u8>, header: Seq<u8>) -> Seq<u8> {
    seq![(odcid.len() % 256) as u8] + odcid + header
}

/// AEAD_AES_128_GCM over an empty plaintext, with the Pseudo-Packet as associated data.
pub open spec fn integrity_tag(odcid: Seq<u8>, header: Seq<u8>) -> Seq<u8> {
    crypto::aes128_gcm_seal(
        RETRY_KEY@,
        RETRY_NONCE@,
        pseudo_packet(odcid, header),
        Seq::<u8>::empty(),
    )
}

/// The Retry that answers an Initial with these connection IDs.
pub open spec fn retry_packet(odcid: Seq<u8>, client_scid: Seq<u8>, scid: Seq<u8>) -> Seq<u8> {
    retry_header(client_scid, scid) + integrity_tag(odcid, retry_header(client_scid, scid))
}

/// The last sixteen bytes of a Retry vouch for the rest of it, and for the connection ID of the
/// Initial it answers: they open to nothing under the constants that every client knows.
pub open spec fn authentic(odcid: Seq<u8>, packet: Seq<u8>) -> bool {
    &&& packet.len() >= crypto::TAG
    &&& crypto::aes128_gcm_open(
        RETRY_KEY@,
        RETRY_NONCE@,
        pseudo_packet(odcid, packet.take(packet.len() - crypto::TAG)),
        packet.skip(packet.len() - crypto::TAG),
    ) == Some(Seq::<u8>::empty())
}

/// Pull the Destination and Source Connection IDs out of a long-header packet.
pub fn parse_ids(packet: &[u8]) -> (found: Option<(&[u8], &[u8])>)
    ensures
        match found {
            Some((dcid, scid)) => ids(packet@) == Some((dcid@, scid@)) && dcid@.len()
                <= reader::MAX_CID && scid@.len() <= reader::MAX_CID,
            None => ids(packet@) is None,
        },
{
    let mut r = Reader::new(packet);
    r.skip(5)?;
    let dcid = r.cid()?;
    let scid = r.cid()?;
    Some((dcid, scid))
}

/// RFC 9001, Section 5.8: the tag that ties a Retry to the Initial it answers.
///
/// A client opens the tag with the same constants and the Pseudo-Packet it rebuilds; an
/// authentic one opens to nothing.
pub fn retry_integrity_tag(odcid: &[u8], header: &[u8]) -> (tag: [u8; 16])
    requires
        1 + odcid@.len() + header@.len() <= crypto::GCM_MAX,
    ensures
        tag@ == integrity_tag(odcid@, header@),
        crypto::aes128_gcm_open(
            RETRY_KEY@,
            RETRY_NONCE@,
            pseudo_packet(odcid@, header@),
            tag@,
        ) == Some(Seq::<u8>::empty()),
{
    let mut aad: Vec<u8> = Vec::new();
    aad.push((odcid.len() % 256) as u8);
    aad.extend_from_slice(odcid);
    aad.extend_from_slice(header);
    let nothing: Vec<u8> = Vec::new();
    proof {
        assert(aad@ =~= pseudo_packet(odcid@, header@));
    }
    let mut tag: [u8; 16] = [0u8; 16];
    match crypto::encrypt(&RETRY_KEY, &RETRY_NONCE, aad.as_slice(), nothing.as_slice()) {
        Some(sealed) => {
            let mut i: usize = 0;
            while i < 16
                invariant
                    i <= 16,
                    sealed@.len() == 16,
                    forall|k: int| 0 <= k < i ==> tag@[k] == sealed@[k],
                decreases 16 - i,
            {
                tag[i] = sealed[i];
                i = i + 1;
            }
            proof {
                assert(tag@ =~= sealed@);
            }
        },
        None => {},
    }
    tag
}

/// Build the Retry that answers a client's Initial, with `scid` as the proxy's side.
pub fn build_with_scid(initial: &[u8], scid: &[u8; 8]) -> (packet: Option<Vec<u8>>)
    ensures
        match packet {
            Some(packet) => ids(initial@) matches Some((odcid, client_scid)) && packet@
                == retry_packet(odcid, client_scid, scid@) && packet@.len() == 31
                + client_scid.len() && authentic(odcid, packet@),
            None => ids(initial@) is None,
        },
{
    let (odcid, client_scid) = parse_ids(initial)?;
    let mut header: Vec<u8> = Vec::new();
    header.push(0xf0);
    header.extend_from_slice(QUIC_V1.as_slice());
    header.push(client_scid.len() as u8);
    header.extend_from_slice(client_scid);
    header.push(8);
    header.extend_from_slice(scid.as_slice());
    proof {
        assert(header@ =~= retry_header(client_scid@, scid@));
    }
    let tag = retry_integrity_tag(odcid, header.as_slice());
    let ghost unsigned = header@;
    header.extend_from_slice(tag.as_slice());
    proof {
        assert(header@.take(header@.len() - crypto::TAG) =~= unsigned);
        assert(header@.skip(header@.len() - crypto::TAG) =~= tag@);
        assert(header@ =~= retry_packet(odcid@, client_scid@, scid@));
    }
    Some(header)
}

/// The clock reading type of the standard library.
#[verifier::external_type_specification]
#[verifier::external_body]
pub struct ExInstant(std::time::Instant);

/// `std::time::Instant::now` reads the clock; nothing is claimed of what it reads.
pub assume_specification[ std::time::Instant::now ]() -> (now: std::time::Instant)
;

/// Calls `Instant`'s `Hash::hash`; nothing is claimed of what reaches the hasher.
#[verifier::external_body]
fn hash_instant(instant: &Instant, state: &mut DefaultHasher) {
    instant.hash(state)
}

/// A number in little-endian order, in `width` bytes.
pub open spec fn le_bytes(n: nat, width: nat) -> Seq<u8>
    decreases width,
{
    if width == 0 {
        Seq::empty()
    } else {
        seq![(n % 256) as u8] + le_bytes(n / 256, (width - 1) as nat)
    }
}

/// The `i`th byte of a number, the lowest being the first.
pub open spec fn byte_of(n: u64, i: nat) -> u8 {
    ((n >> (8 * i) as u64) & 0xff) as u8
}

/// Law: the bytes of a number come in order, the lowest first, and all eight of them.
pub proof fn law_the_lowest_byte_comes_first(n: u64)
    ensures
        le_bytes(n as nat, 8).len() == 8,
        forall|i: int| 0 <= i < 8 ==> #[trigger] le_bytes(n as nat, 8)[i] == byte_of(n, i as nat),
{
    lemma_le_bytes(n, 0);
    assert(n >> 0u64 == n) by (bit_vector);
}

proof fn lemma_le_bytes(n: u64, i: nat)
    requires
        i <= 8,
    ensures
        i < 8 ==> ({
            let left = le_bytes((n >> (8 * i) as u64) as nat, (8 - i) as nat);
            left.len() == 8 - i && forall|k: int|
                0 <= k < 8 - i ==> #[trigger] left[k] == byte_of(n, (i + k) as nat)
        }),
    decreases 8 - i,
{
    if i < 8 {
        let shift = (8 * i) as u64;
        let high = n >> shift;
        assert(high % 256 == high & 0xff) by (bit_vector);
        if i < 7 {
            lemma_le_bytes(n, i + 1);
            assert((n >> shift) / 256 == n >> ((shift + 8) as u64)) by (bit_vector)
                requires
                    shift <= 48,
            ;
            let left = le_bytes(high as nat, (8 - i) as nat);
            let rest = le_bytes((high / 256) as nat, (7 - i) as nat);
            assert(left =~= seq![(high % 256) as u8] + rest);
            assert forall|k: int| 0 <= k < 8 - i implies #[trigger] left[k] == byte_of(
                n,
                (i + k) as nat,
            ) by {
                if k > 0 {
                    assert(left[k] == rest[k - 1]);
                    assert(rest[k - 1] == byte_of(n, (i + 1 + (k - 1)) as nat));
                }
            }
        } else {
            assert(le_bytes((high / 256) as nat, 0) =~= Seq::<u8>::empty());
            assert(le_bytes(high as nat, 1) =~= seq![(high % 256) as u8]);
        }
    }
}

/// The connection ID that a digest stands for: its bytes, the lowest first.
pub fn scid_of(digest: u64) -> (scid: [u8; 8])
    ensures
        scid@ == le_bytes(digest as nat, SCID_LEN as nat),
        forall|i: int| 0 <= i < 8 ==> #[trigger] scid@[i] == byte_of(digest, i as nat),
{
    let mut left = digest;
    let mut scid: [u8; 8] = [0u8; 8];
    let mut i: usize = 0;
    proof {
        assert(scid@.take(0) + le_bytes(left as nat, 8) =~= le_bytes(left as nat, 8));
    }
    while i < 8
        invariant
            i <= 8,
            le_bytes(digest as nat, 8) == scid@.take(i as int) + le_bytes(
                left as nat,
                (8 - i) as nat,
            ),
        decreases 8 - i,
    {
        let ghost earlier = scid@.take(i as int);
        let ghost rest = le_bytes((left / 256) as nat, (7 - i) as nat);
        let byte = (left % 256) as u8;
        scid[i] = byte;
        proof {
            assert(scid@.take(i + 1) =~= earlier.push(byte));
            assert(earlier + (seq![byte] + rest) =~= earlier.push(byte) + rest);
        }
        left = left / 256;
        i = i + 1;
    }
    proof {
        assert(scid@.take(8) + Seq::<u8>::empty() =~= scid@);
        law_the_lowest_byte_comes_first(digest);
    }
    scid
}

/// A connection ID for the proxy's side of the Retry: what the hasher makes of the clock. No
/// security or uniqueness property is required of it, so this just needs to look plausible.
fn new_scid() -> (scid: [u8; 8])
    ensures
        exists|written: Seq<Seq<u8>>|
            scid@ == le_bytes(
                #[trigger] DefaultHasher::spec_finish(written) as nat,
                SCID_LEN as nat,
            ),
{
    let mut hasher = DefaultHasher::new();
    hash_instant(&Instant::now(), &mut hasher);
    scid_of(hasher.finish())
}

/// Build a QUIC v1 Retry packet in reply to a client's Initial.
///
/// Returns `None` if the header cannot be parsed. The proxy's own connection ID is taken from
/// the clock, so two Retries for one Initial can differ in it; everything else about them is fixed.
pub fn build(initial: &[u8]) -> (packet: Option<Vec<u8>>)
    ensures
        match packet {
            Some(packet) => ids(initial@) matches Some((odcid, client_scid)) && authentic(
                odcid,
                packet@,
            ) && exists|
                scid: Seq<u8>,
            |
                scid.len() == SCID_LEN && packet@.len() == 31 + client_scid.len() && packet@
                    == #[trigger] retry_packet(odcid, client_scid, scid),
            None => ids(initial@) is None,
        },
{
    let scid = new_scid();
    build_with_scid(initial, &scid)
}

/// Law: a Retry addresses the client by the connection ID the client chose for itself, and names the
/// proxy by the one the proxy picked, whatever Initial it answers.
pub proof fn law_retry_echoes_the_client(odcid: Seq<u8>, client_scid: Seq<u8>, scid: Seq<u8>)
    requires
        client_scid.len() <= reader::MAX_CID,
        scid.len() <= reader::MAX_CID,
    ensures
        ids(retry_packet(odcid, client_scid, scid)) == Some((client_scid, scid)),
{
    let packet = retry_packet(odcid, client_scid, scid);
    let tag = integrity_tag(odcid, retry_header(client_scid, scid));
    let after = seq![scid.len() as u8] + scid + tag;
    assert(packet.skip(5) =~= seq![client_scid.len() as u8] + client_scid + after);
    assert(packet.skip(5).skip(1).take(client_scid.len() as int) =~= client_scid);
    assert(packet.skip(5).skip(1).skip(client_scid.len() as int) =~= after);
    assert(after.skip(1).take(scid.len() as int) =~= scid);
}

/// Law: the connection IDs of a long-header packet are read as they were written, whatever stands
/// before and behind them, up to 20 bytes each; longer or cut short, neither is read.
pub proof fn law_ids_are_read_back(head: Seq<u8>, dcid: Seq<u8>, scid: Seq<u8>, rest: Seq<u8>)
    requires
        head.len() == 5,
        dcid.len() < 256,
        scid.len() < 256,
    ensures
        ({
            let packet = head + seq![dcid.len() as u8] + dcid + seq![scid.len() as u8] + scid;
            &&& dcid.len() <= 20 && scid.len() <= 20 ==> ids(packet + rest) == Some((dcid, scid))
            &&& dcid.len() > 20 || scid.len() > 20 ==> ids(packet + rest) is None
            &&& forall|kept: int|
                0 <= kept < packet.len() ==> ids(#[trigger] packet.take(kept)) is None
        }),
{
    let packet = head + seq![dcid.len() as u8] + dcid + seq![scid.len() as u8] + scid;
    let n = dcid.len() as int;
    let all = packet + rest;
    let s = all.skip(5);
    let after = seq![scid.len() as u8] + scid + rest;
    assert(s[0] == dcid.len() as u8);
    assert(s.skip(1).take(n) =~= dcid);
    assert(s.skip(1).skip(n) =~= after);
    assert(after.skip(1).take(scid.len() as int) =~= scid);
    assert forall|kept: int| 0 <= kept < packet.len() implies ids(
        #[trigger] packet.take(kept),
    ) is None by {
        let part = packet.take(kept);
        if kept > 5 {
            let t = part.skip(5);
            assert(t[0] == dcid.len() as u8);
            if kept >= 6 + n {
                let u = t.skip(1).skip(n);
                assert(kept > 6 + n ==> u[0] == scid.len() as u8);
            }
        }
    }
}

/// Law: a Retry is laid out as every client expects it. Its header tells a Retry of QUIC v1 from the
/// proxy to the client, with no token, and its last sixteen bytes are the tag over the connection
/// ID of the Initial it answers and that header.
pub proof fn law_a_retry_is_laid_out(odcid: Seq<u8>, client_scid: Seq<u8>, scid: Seq<u8>)
    requires
        odcid.len() <= 20,
        client_scid.len() <= 20,
        scid.len() <= 20,
    ensures
        ({
            let header = seq![0xf0u8, 0x00, 0x00, 0x00, 0x01, client_scid.len() as u8] + client_scid
                + seq![scid.len() as u8] + scid;
            retry_packet(odcid, client_scid, scid) == header + crypto::aes128_gcm_seal(
                RETRY_KEY@,
                RETRY_NONCE@,
                seq![odcid.len() as u8] + odcid + header,
                Seq::empty(),
            )
        }),
{
    let header = seq![0xf0u8, 0x00, 0x00, 0x00, 0x01, client_scid.len() as u8] + client_scid + seq![
        scid.len() as u8,
    ] + scid;
    assert(retry_header(client_scid, scid) =~= header);
    assert(pseudo_packet(odcid, header) =~= seq![odcid.len() as u8] + odcid + header);
}

/// Law: the tag is what sealing nothing gives under the constants that every client knows, with the
/// connection ID of the Initial, its length before it, and the Retry's header for associated data.
pub proof fn law_the_tag_covers_the_initial_and_the_retry(
    odcid: Seq<u8>,
    header: Seq<u8>,
    covered: Seq<u8>,
)
    requires
        covered.len() == 1 + odcid.len() + header.len(),
        covered[0] as int == odcid.len() % 256,
        forall|k: int| 0 <= k < odcid.len() ==> #[trigger] covered[1 + k] == odcid[k],
        forall|k: int|
            0 <= k < header.len() ==> #[trigger] covered[1 + odcid.len() + k] == header[k],
    ensures
        integrity_tag(odcid, header) == crypto::aes128_gcm_seal(
            RETRY_KEY@,
            RETRY_NONCE@,
            covered,
            Seq::empty(),
        ),
{
    assert forall|k: int| 0 <= k < covered.len() implies covered[k] == pseudo_packet(
        odcid,
        header,
    )[k] by {
        if 0 < k <= odcid.len() {
            assert(covered[1 + (k - 1)] == odcid[k - 1]);
        } else if k > odcid.len() {
            let at = k - 1 - odcid.len();
            assert(covered[1 + odcid.len() + at] == header[at]);
        }
    }
    assert(covered =~= pseudo_packet(odcid, header));
}

} // verus!
