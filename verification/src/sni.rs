//! Reading the `server_name` out of a client's first QUIC datagram.
//!
//! A QUIC Initial packet is protected with keys derived from the client's Destination
//! Connection ID and a salt that everybody knows (RFC 9001, Section 5.2), so anyone on the
//! path can read it. That is what makes SNI routing possible here without
//! terminating anything: the proxy peeks at the first packet and forwards the original
//! bytes untouched, leaving QUIC and mTLS end-to-end.
//!
//! Only the first Initial packet of a datagram is examined, and only far enough to reach
//! the ClientHello's `server_name`. Anything unexpected, such as a short header, an unknown
//! version or a ClientHello spread over several datagrams, has no name, and the caller falls
//! back to its default backend.

use crate::crypto;
use crate::frames::{self, reassemble_crypto};
use crate::hello::{self, client_hello_server_name};
use crate::reader::{self, Reader};
use vstd::prelude::*;
use vstd::slice::{slice_subrange, slice_to_vec};

verus! {

/// QUIC v1 (RFC 9000).
pub const V1: u32 = 0x0000_0001;

/// QUIC v2 (RFC 9369).
pub const V2: u32 = 0x6b33_43cf;

/// RFC 9001, Section 5.2.
pub const V1_SALT: [u8; 20] = [
    0x38, 0x76, 0x2c, 0xf7, 0xf5, 0x59, 0x34, 0xb3, 0x4d, 0x17, 0x9a, 0xe6, 0xa4, 0xc8, 0x0c, 0xad,
    0xcc, 0xbb, 0x7f, 0x0a,
];

/// RFC 9369, Section 3.3.1.
pub const V2_SALT: [u8; 20] = [
    0x0d, 0xed, 0xe3, 0xde, 0xf7, 0x00, 0xa6, 0xdb, 0x81, 0x93, 0x81, 0xbe, 0x6e, 0x26, 0x9d, 0xcb,
    0xf9, 0xbd, 0x2e, 0xd9,
];

/// `tls13 `, which starts every label of HKDF-Expand-Label.
pub const TLS13: [u8; 6] = [0x74, 0x6c, 0x73, 0x31, 0x33, 0x20];

/// `client in`
pub const CLIENT_IN: [u8; 9] = [0x63, 0x6c, 0x69, 0x65, 0x6e, 0x74, 0x20, 0x69, 0x6e];

/// `quic key`
pub const V1_KEY: [u8; 8] = [0x71, 0x75, 0x69, 0x63, 0x20, 0x6b, 0x65, 0x79];

/// `quic iv`
pub const V1_IV: [u8; 7] = [0x71, 0x75, 0x69, 0x63, 0x20, 0x69, 0x76];

/// `quic hp`
pub const V1_HP: [u8; 7] = [0x71, 0x75, 0x69, 0x63, 0x20, 0x68, 0x70];

/// `quicv2 key`
pub const V2_KEY: [u8; 10] = [0x71, 0x75, 0x69, 0x63, 0x76, 0x32, 0x20, 0x6b, 0x65, 0x79];

/// `quicv2 iv`
pub const V2_IV: [u8; 9] = [0x71, 0x75, 0x69, 0x63, 0x76, 0x32, 0x20, 0x69, 0x76];

/// `quicv2 hp`
pub const V2_HP: [u8; 9] = [0x71, 0x75, 0x69, 0x63, 0x76, 0x32, 0x20, 0x68, 0x70];

/// The bytes header protection samples, and the AES block size it feeds.
pub const SAMPLE: usize = 16;

/// The packet type an Initial has: QUIC v2 renumbers it (RFC 9369, Section 3.2).
pub open spec fn initial_type(version: u32) -> Option<u8> {
    if version == V1 {
        Some(0)
    } else if version == V2 {
        Some(1)
    } else {
        None
    }
}

/// A long header with the fixed bit set whose type is Initial in this version.
pub open spec fn is_initial(first: u8, version: u32) -> bool {
    first & 0xc0 == 0xc0 && initial_type(version) == Some((first & 0x30) >> 4)
}

/// What the proxy uses of an Initial's header, up to the packet number.
pub struct LongHeader {
    pub version: u32,
    pub dcid: Seq<u8>,
    /// Where the packet number starts.
    pub pn_offset: nat,
    /// How many bytes the Length field covers, from the packet number on.
    pub length: nat,
}

/// The part of an Initial's header after its Source Connection ID: a token and a length.
pub open spec fn token_and_length(s: Seq<u8>) -> Option<(nat, Seq<u8>)> {
    match reader::varint(s) {
        None => None,
        Some((token, s)) => match reader::skip(s, token as int) {
            None => None,
            Some(s) => reader::varint(s),
        },
    }
}

/// The header of an Initial packet that is whole in `d`.
pub open spec fn long_header(d: Seq<u8>) -> Option<LongHeader> {
    let version = reader::be(d.skip(1).take(4)) as u32;
    if d.len() < 5 || !is_initial(d[0], version) {
        None
    } else {
        match reader::cid(d.skip(5)) {
            None => None,
            Some((dcid, s)) => match reader::cid(s) {
                None => None,
                Some((_, s)) => match token_and_length(s) {
                    None => None,
                    Some((length, s)) => if SAMPLE + crypto::TAG <= length <= s.len() {
                        Some(
                            LongHeader { version, dcid, pn_offset: (d.len() - s.len()) as nat, length },
                        )
                    } else {
                        None
                    },
                },
            },
        }
    }
}

/// Split a long header up to its packet number, which stays protected until [`Keys::open`].
///
/// Returns the version, the Destination Connection ID, the offset of the packet number,
/// and the byte count the Length field covers.
pub fn parse_long_header(datagram: &[u8]) -> (header: Option<(u32, &[u8], usize, usize)>)
    ensures
        match header {
            Some((version, dcid, pn_offset, length)) => long_header(datagram@) == Some(
                LongHeader {
                    version,
                    dcid: dcid@,
                    pn_offset: pn_offset as nat,
                    length: length as nat,
                },
            ) && pn_offset + length <= datagram.len(),
            None => long_header(datagram@) is None,
        },
{
    let mut r = Reader::new(datagram);
    let first = r.u8()?;
    // QUIC bit greasing (RFC 9287) can clear the fixed bit, but only once a connection is
    // established, never on an Initial.
    if first & 0xc0 != 0xc0 {
        return None;
    }
    let version = r.u32()?;
    proof {
        assert(datagram@.skip(1).skip(4) =~= datagram@.skip(5));
    }
    let initial_type: u8 = match version {
        V1 => 0,
        V2 => 1,
        _ => return None,
    };
    if (first & 0x30) >> 4 != initial_type {
        return None;
    }
    let dcid = r.cid()?;
    let _scid = r.cid()?;
    let token_len = r.varint()?;
    if token_len > (datagram.len() - r.position()) as u64 {
        return None;
    }
    r.skip(token_len as usize)?;

    let length = r.varint()?;
    let pn_offset = r.position();
    // The packet number is 1..=4 bytes of the length, so anything shorter than a sample
    // plus a tag cannot be a whole packet.
    if length < (SAMPLE + crypto::TAG) as u64 || length > (datagram.len() - pn_offset) as u64 {
        return None;
    }
    Some((version, dcid, pn_offset, length as usize))
}

/// The info string of HKDF-Expand-Label from TLS 1.3, with the empty context QUIC always uses.
pub open spec fn label_info(label: Seq<u8>, len: nat) -> Seq<u8> {
    seq![(len / 256) as u8, (len % 256) as u8, (6 + label.len()) as u8] + TLS13@ + label + seq![0u8]
}

/// HKDF-Expand-Label from TLS 1.3.
///
/// Refuses a label whose length does not fit its one-byte prefix, and what HKDF-Expand
/// refuses: a short key and a long output.
pub fn expand_label(prk: &[u8], label: &[u8], out: &mut [u8]) -> (done: Option<()>)
    ensures
        done is Some <==> label@.len() <= 249 && prk@.len() >= crypto::HASH && old(out)@.len()
            <= crypto::MAX_EXPAND,
        final(out)@.len() == old(out)@.len(),
        final(out)@ == if done is Some {
            crypto::hkdf_expand(prk@, label_info(label@, old(out)@.len()), old(out)@.len())
        } else {
            old(out)@
        },
{
    let len = out.len();
    if len > 0xffff || label.len() > 249 {
        return None;
    }
    let mut info: Vec<u8> = Vec::new();
    info.push((len / 256) as u8);
    info.push((len % 256) as u8);
    info.push((6 + label.len()) as u8);
    info.extend_from_slice(TLS13.as_slice());
    info.extend_from_slice(label);
    info.push(0);
    proof {
        assert(info@ =~= label_info(label@, len as nat));
    }
    if crypto::expand(prk, info.as_slice(), out) {
        Some(())
    } else {
        None
    }
}

/// The salt a version's Initial keys start from.
pub open spec fn salt(version: u32) -> Seq<u8> {
    if version == V1 {
        V1_SALT@
    } else {
        V2_SALT@
    }
}

/// The client's Initial secret.
pub open spec fn client_secret(version: u32, dcid: Seq<u8>) -> Seq<u8> {
    crypto::hkdf_expand(
        crypto::hkdf_extract(salt(version), dcid),
        label_info(CLIENT_IN@, crypto::HASH as nat),
        crypto::HASH as nat,
    )
}

/// One value derived from the client's Initial secret.
pub open spec fn derived(version: u32, dcid: Seq<u8>, label: Seq<u8>, len: nat) -> Seq<u8> {
    crypto::hkdf_expand(client_secret(version, dcid), label_info(label, len), len)
}

/// The key that protects the payload.
pub open spec fn packet_key(version: u32, dcid: Seq<u8>) -> Seq<u8> {
    derived(
        version,
        dcid,
        if version == V1 {
            V1_KEY@
        } else {
            V2_KEY@
        },
        16,
    )
}

/// The value a packet number is folded into to make a nonce.
pub open spec fn packet_iv(version: u32, dcid: Seq<u8>) -> Seq<u8> {
    derived(
        version,
        dcid,
        if version == V1 {
            V1_IV@
        } else {
            V2_IV@
        },
        12,
    )
}

/// The key that protects the header.
pub open spec fn header_key(version: u32, dcid: Seq<u8>) -> Seq<u8> {
    derived(
        version,
        dcid,
        if version == V1 {
            V1_HP@
        } else {
            V2_HP@
        },
        16,
    )
}

/// The sixteen bytes header protection is computed from: they start four bytes past the
/// packet number, as if it were always the maximum four bytes long.
pub open spec fn sample(d: Seq<u8>, pn_offset: int) -> Seq<u8> {
    d.subrange(pn_offset + 4, pn_offset + 4 + SAMPLE)
}

/// The first byte with its protection removed; a long header hides the low four bits.
pub open spec fn clear_first(d: Seq<u8>, mask: Seq<u8>) -> u8 {
    d[0] ^ (mask[0] & 0x0f)
}

/// How many bytes the packet number takes.
pub open spec fn pn_len(first: u8) -> int {
    (first & 0x03) + 1
}

/// The header with the first byte and the packet number in the clear.
pub open spec fn clear_header(d: Seq<u8>, pn_offset: int, mask: Seq<u8>) -> Seq<u8> {
    let first = clear_first(d, mask);
    let masked = d.take(pn_offset + pn_len(first)).update(0, first);
    Seq::new(
        masked.len(),
        |k: int|
            if k < pn_offset {
                masked[k]
            } else {
                masked[k] ^ mask[1 + k - pn_offset]
            },
    )
}

/// The IV with the packet number xored into its tail.
pub open spec fn packet_nonce(iv: Seq<u8>, pn: Seq<u8>) -> Seq<u8> {
    Seq::new(
        iv.len(),
        |k: int|
            if k < iv.len() - pn.len() {
                iv[k]
            } else {
                iv[k] ^ pn[k - (iv.len() - pn.len())]
            },
    )
}

/// The payload of a protected packet, if it is whole and authentic.
pub open spec fn opened(
    key: Seq<u8>,
    iv: Seq<u8>,
    hp: Seq<u8>,
    d: Seq<u8>,
    pn_offset: int,
    length: int,
) -> Option<Seq<u8>> {
    if pn_offset + 4 + SAMPLE > d.len() {
        None
    } else {
        let mask = crypto::aes128_block(hp, sample(d, pn_offset));
        let pn_end = pn_offset + pn_len(clear_first(d, mask));
        let header = clear_header(d, pn_offset, mask);
        if pn_end <= pn_offset + length <= d.len() {
            crypto::aes128_gcm_open(
                key,
                packet_nonce(iv, header.skip(pn_offset)),
                header,
                d.subrange(pn_end, pn_offset + length),
            )
        } else {
            None
        }
    }
}

/// Law: opening a packet depends on nothing behind it. With the datagram cut off where the packet
/// ends, the same payload comes out, or none does again.
pub proof fn law_opening_ends_with_the_packet(
    key: Seq<u8>,
    iv: Seq<u8>,
    hp: Seq<u8>,
    d: Seq<u8>,
    pn_offset: int,
    length: int,
)
    requires
        0 <= pn_offset,
        SAMPLE + crypto::TAG <= length,
        pn_offset + length <= d.len(),
    ensures
        opened(key, iv, hp, d, pn_offset, length) == opened(
            key,
            iv,
            hp,
            d.take(pn_offset + length),
            pn_offset,
            length,
        ),
{
    let packet = d.take(pn_offset + length);
    assert(sample(packet, pn_offset) =~= sample(d, pn_offset));
    let mask = crypto::aes128_block(hp, sample(d, pn_offset));
    let first = clear_first(d, mask);
    assert(first & 0x03 <= 3) by (bit_vector);
    let pn_end = pn_offset + pn_len(first);
    assert(packet.take(pn_end) =~= d.take(pn_end));
    assert(packet.subrange(pn_end, pn_offset + length) =~= d.subrange(pn_end, pn_offset + length));
}

/// Initial keys for the client's side of a connection.
pub struct Keys {
    pub key: [u8; 16],
    pub iv: [u8; 12],
    pub hp: [u8; 16],
}

impl Keys {
    /// Derive the client's Initial secret from the Destination Connection ID.
    pub fn initial(version: u32, dcid: &[u8]) -> (keys: Option<Self>)
        ensures
            keys is Some <==> version == V1 || version == V2,
            keys matches Some(keys) ==> {
                &&& keys.key@ == packet_key(version, dcid@)
                &&& keys.iv@ == packet_iv(version, dcid@)
                &&& keys.hp@ == header_key(version, dcid@)
            },
            keys matches Some(keys) ==> {
                let v1 = version == V1;
                let early = crypto::hkdf_extract(
                    if v1 {
                        V1_SALT@
                    } else {
                        V2_SALT@
                    },
                    dcid@,
                );
                let secret = crypto::hkdf_expand(
                    early,
                    seq![0u8, 32, 15] + TLS13@ + CLIENT_IN@ + seq![0u8],
                    32,
                );
                &&& keys.key@ == if v1 {
                    crypto::hkdf_expand(secret, seq![0u8, 16, 14] + TLS13@ + V1_KEY@ + seq![0u8], 16)
                } else {
                    crypto::hkdf_expand(secret, seq![0u8, 16, 16] + TLS13@ + V2_KEY@ + seq![0u8], 16)
                }
                &&& keys.iv@ == if v1 {
                    crypto::hkdf_expand(secret, seq![0u8, 12, 13] + TLS13@ + V1_IV@ + seq![0u8], 12)
                } else {
                    crypto::hkdf_expand(secret, seq![0u8, 12, 15] + TLS13@ + V2_IV@ + seq![0u8], 12)
                }
                &&& keys.hp@ == if v1 {
                    crypto::hkdf_expand(secret, seq![0u8, 16, 13] + TLS13@ + V1_HP@ + seq![0u8], 16)
                } else {
                    crypto::hkdf_expand(secret, seq![0u8, 16, 15] + TLS13@ + V2_HP@ + seq![0u8], 16)
                }
            },
    {
        let (salt, key_label, iv_label, hp_label): (&[u8], &[u8], &[u8], &[u8]) = match version {
            V1 => (V1_SALT.as_slice(), V1_KEY.as_slice(), V1_IV.as_slice(), V1_HP.as_slice()),
            V2 => (V2_SALT.as_slice(), V2_KEY.as_slice(), V2_IV.as_slice(), V2_HP.as_slice()),
            _ => return None,
        };

        let initial = crypto::extract(salt, dcid);
        let mut client: [u8; 32] = [0u8; 32];
        expand_label(initial.as_slice(), CLIENT_IN.as_slice(), &mut client)?;

        let mut key: [u8; 16] = [0u8; 16];
        let mut iv: [u8; 12] = [0u8; 12];
        let mut hp: [u8; 16] = [0u8; 16];
        expand_label(client.as_slice(), key_label, &mut key)?;
        expand_label(client.as_slice(), iv_label, &mut iv)?;
        expand_label(client.as_slice(), hp_label, &mut hp)?;
        Some(Keys { key, iv, hp })
    }

    /// Remove header protection, then decrypt the packet payload.
    pub fn open(&self, datagram: &[u8], pn_offset: usize, length: usize) -> (payload: Option<
        Vec<u8>,
    >)
        requires
            pn_offset + 4 + SAMPLE <= usize::MAX,
            pn_offset + length <= usize::MAX,
        ensures
            match payload {
                Some(payload) => opened(
                    self.key@,
                    self.iv@,
                    self.hp@,
                    datagram@,
                    pn_offset as int,
                    length as int,
                ) == Some(payload@),
                None => opened(
                    self.key@,
                    self.iv@,
                    self.hp@,
                    datagram@,
                    pn_offset as int,
                    length as int,
                ) is None,
            },
            payload matches Some(payload) ==> {
                let mask = crypto::aes128_block(self.hp@, sample(datagram@, pn_offset as int));
                payload@.len() == length - pn_len(clear_first(datagram@, mask)) - crypto::TAG
            },
            payload matches Some(payload) ==> length - 20 <= payload@.len() <= length - 17,
    {
        let sample_at = pn_offset + 4;
        if sample_at + SAMPLE > datagram.len() {
            return None;
        }
        let mut block: [u8; 16] = [0u8; 16];
        let mut i: usize = 0;
        while i < SAMPLE
            invariant
                i <= SAMPLE,
                sample_at == pn_offset + 4,
                sample_at + SAMPLE <= datagram@.len(),
                sample_at + SAMPLE <= usize::MAX,
                forall|k: int| 0 <= k < i ==> block@[k] == datagram@[sample_at + k],
            decreases SAMPLE - i,
        {
            block[i] = datagram[sample_at + i];
            i = i + 1;
        }
        proof {
            assert(block@ =~= sample(datagram@, pn_offset as int));
        }
        let mask = crypto::encrypt_block(&self.hp, &block);
        let ghost d = datagram@;
        let ghost spec_mask = crypto::aes128_block(self.hp@, sample(d, pn_offset as int));

        let first = datagram[0] ^ (mask[0] & 0x0f);
        let low = first & 0x03;
        assert(low <= 3) by (bit_vector)
            requires
                low == first & 0x03,
        ;
        let pn_len: usize = low as usize + 1;
        if length < pn_len || length > datagram.len() - pn_offset {
            return None;
        }
        // Rebuild the header with the packet number in the clear: it is the AEAD's
        // associated data, so it has to match byte for byte.
        let mut header = slice_to_vec(slice_subrange(datagram, 0, pn_offset + pn_len));
        header[0] = first;
        let ghost masked = header@;
        // A client's first Initial numbers from zero and cannot have wrapped, so the
        // truncated number on the wire is the full one.
        let mut nonce = self.iv;
        let mut i: usize = 0;
        while i < pn_len
            invariant
                i <= pn_len <= 4,
                pn_offset + pn_len <= usize::MAX,
                header@.len() == pn_offset + pn_len == masked.len(),
                forall|k: int|
                    0 <= k < header@.len() ==> header@[k] == if pn_offset <= k < pn_offset + i {
                        masked[k] ^ mask@[1 + k - pn_offset]
                    } else {
                        masked[k]
                    },
                forall|k: int|
                    0 <= k < 12 ==> nonce@[k] == if 12 - pn_len <= k < 12 - pn_len + i {
                        self.iv@[k] ^ header@[pn_offset + k - (12 - pn_len)]
                    } else {
                        self.iv@[k]
                    },
            decreases pn_len - i,
        {
            let byte = header[pn_offset + i] ^ mask[1 + i];
            header[pn_offset + i] = byte;
            nonce[12 - pn_len + i] = nonce[12 - pn_len + i] ^ byte;
            i = i + 1;
        }
        proof {
            assert(header@ =~= clear_header(d, pn_offset as int, spec_mask));
            assert(nonce@ =~= packet_nonce(self.iv@, header@.skip(pn_offset as int)));
        }
        crypto::decrypt(
            &self.key,
            &nonce,
            header.as_slice(),
            slice_subrange(datagram, pn_offset + pn_len, pn_offset + length),
        )
    }
}

/// The name a datagram's first packet offers, if that is an Initial whose ClientHello can be
/// read whole.
pub open spec fn server_name(d: Seq<u8>) -> Option<Seq<char>> {
    match long_header(d) {
        None => None,
        Some(h) => match opened(
            packet_key(h.version, h.dcid),
            packet_iv(h.version, h.dcid),
            header_key(h.version, h.dcid),
            d,
            h.pn_offset as int,
            h.length as int,
        ) {
            None => None,
            Some(payload) => payload_server_name(payload),
        },
    }
}

/// The name the decrypted payload of an Initial offers.
pub open spec fn payload_server_name(payload: Seq<u8>) -> Option<Seq<char>> {
    match frames::crypto_stream(payload) {
        None => None,
        Some(handshake) => hello::hello_server_name(handshake),
    }
}

/// The `server_name` a client offered in its ClientHello.
///
/// `None` whenever this datagram is not an Initial packet whose ClientHello can be read
/// whole, which includes every datagram after the first of a connection.
pub fn peek_server_name(datagram: &[u8]) -> (name: Option<String>)
    ensures
        match name {
            Some(name) => server_name(datagram@) == Some(name@),
            None => server_name(datagram@) is None,
        },
{
    let (version, dcid, pn_offset, length) = parse_long_header(datagram)?;
    let keys = Keys::initial(version, dcid)?;
    let payload = keys.open(datagram, pn_offset, length)?;
    peek_payload(payload.as_slice())
}

/// The `server_name` offered in the decrypted payload of an Initial.
pub fn peek_payload(payload: &[u8]) -> (name: Option<String>)
    ensures
        match name {
            Some(name) => payload_server_name(payload@) == Some(name@),
            None => payload_server_name(payload@) is None,
        },
{
    let handshake = reassemble_crypto(payload)?;
    client_hello_server_name(handshake.as_slice())
}

/// Law: a label is put together from the length that is asked for, in two bytes, and the label behind
/// `tls13 `, with its length in one byte, and an empty context.
pub proof fn law_a_label_is_put_together(label: Seq<u8>, len: nat, i: int)
    requires
        label.len() <= 249,
        len < 0x1_0000,
    ensures
        ({
            let info = label_info(label, len);
            &&& info.len() == 10 + label.len()
            &&& info[0] as int * 256 + info[1] as int == len
            &&& info[2] as int == 6 + label.len()
            &&& info.subrange(3, 9) == seq![0x74u8, 0x6c, 0x73, 0x31, 0x33, 0x20]
            &&& 0 <= i < label.len() ==> info[9 + i] == label[i]
            &&& info[9 + label.len() as int] == 0
        }),
{
    assert(label_info(label, len).subrange(3, 9) =~= TLS13@);
    assert(TLS13@ =~= seq![0x74u8, 0x6c, 0x73, 0x31, 0x33, 0x20]);
}

/// Law: a packet is opened with its header in the clear. The mask comes from the sixteen bytes that
/// lie four past the start of the packet number; it covers the low four bits of the first byte,
/// and the packet number, of as many bytes as the low two bits then say and one more. With that
/// header for associated data, and the packet number in the end of the nonce, the rest of the
/// packet is decrypted, up to where it ends. Nothing comes out where the packet is not whole.
pub proof fn law_a_packet_is_opened_in_the_clear(
    key: Seq<u8>,
    iv: Seq<u8>,
    hp: Seq<u8>,
    d: Seq<u8>,
    pn_offset: int,
    length: int,
    n: int,
    header: Seq<u8>,
    nonce: Seq<u8>,
)
    requires
        iv.len() == 12,
        nonce.len() == 12,
        0 <= pn_offset,
        ({
            let mask = crypto::aes128_block(hp, d.subrange(pn_offset + 4, pn_offset + 20));
            let first = d[0] ^ (mask[0] & 0x0f);
            &&& n == 1 + first as int % 4
            &&& header.len() == pn_offset + n
            &&& forall|k: int|
                0 <= k < pn_offset ==> #[trigger] header[k] == (if k == 0 {
                    first
                } else {
                    d[k]
                })
            &&& forall|k: int|
                pn_offset <= k < pn_offset + n ==> #[trigger] header[k] == (if k == 0 {
                    first
                } else {
                    d[k]
                }) ^ mask[1 + k - pn_offset]
        }),
        forall|k: int| 0 <= k < 12 - n ==> #[trigger] nonce[k] == iv[k],
        forall|k: int|
            12 - n <= k < 12 ==> #[trigger] nonce[k] == iv[k] ^ header[pn_offset + k - (12 - n)],
    ensures
        pn_offset + 20 <= d.len() && n <= length && pn_offset + length <= d.len() ==> opened(
            key,
            iv,
            hp,
            d,
            pn_offset,
            length,
        ) == crypto::aes128_gcm_open(
            key,
            nonce,
            header,
            d.subrange(pn_offset + n, pn_offset + length),
        ),
        pn_offset + 20 > d.len() || n > length || pn_offset + length > d.len() ==> opened(
            key,
            iv,
            hp,
            d,
            pn_offset,
            length,
        ) is None,
{
    if pn_offset + 20 <= d.len() {
        let mask = crypto::aes128_block(hp, sample(d, pn_offset));
        let first = clear_first(d, mask);
        assert(first & 0x03 == first % 4) by (bit_vector);
        assert(pn_len(first) == n);
        assert(clear_header(d, pn_offset, mask).len() == header.len() || pn_offset + n > d.len());
        if pn_offset + n <= d.len() {
            assert(clear_header(d, pn_offset, mask) =~= header);
            assert(packet_nonce(iv, header.skip(pn_offset)) =~= nonce);
        }
    }
}

} // verus!
