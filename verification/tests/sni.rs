//! Reading server names out of protected Initial packets.

use sleepytale::sni::{parse_long_header, peek_server_name, Keys};

/// The client Initial from RFC 9001, Appendix A.2, protected and complete. Its
/// ClientHello offers `example.com`.
fn rfc9001_client_initial() -> Vec<u8> {
    const HEX: &str = "\
     c000000001088394c8f03e5157080000449e7b9aec34d1b1c98dd7689fb8ec11d242b123\
     dc9bd8bab936b47d92ec356c0bab7df5976d27cd449f63300099f3991c260ec4c60d17b3\
     1f8429157bb35a1282a643a8d2262cad67500cadb8e7378c8eb7539ec4d4905fed1bee1f\
     c8aafba17c750e2c7ace01e6005f80fcb7df621230c83711b39343fa028cea7f7fb5ff89\
     eac2308249a02252155e2347b63d58c5457afd84d05dfffdb20392844ae812154682e9cf\
     012f9021a6f0be17ddd0c2084dce25ff9b06cde535d0f920a2db1bf362c23e596d11a4f5\
     a6cf3948838a3aec4e15daf8500a6ef69ec4e3feb6b1d98e610ac8b7ec3faf6ad760b7ba\
     d1db4ba3485e8a94dc250ae3fdb41ed15fb6a8e5eba0fc3dd60bc8e30c5c4287e53805db\
     059ae0648db2f64264ed5e39be2e20d82df566da8dd5998ccabdae053060ae6c7b4378e8\
     46d29f37ed7b4ea9ec5d82e7961b7f25a9323851f681d582363aa5f89937f5a67258bf63\
     ad6f1a0b1d96dbd4faddfcefc5266ba6611722395c906556be52afe3f565636ad1b17d50\
     8b73d8743eeb524be22b3dcbc2c7468d54119c7468449a13d8e3b95811a198f3491de3e7\
     fe942b330407abf82a4ed7c1b311663ac69890f4157015853d91e923037c227a33cdd5ec\
     281ca3f79c44546b9d90ca00f064c99e3dd97911d39fe9c5d0b23a229a234cb36186c481\
     9e8b9c5927726632291d6a418211cc2962e20fe47feb3edf330f2c603a9d48c0fcb5699d\
     bfe5896425c5bac4aee82e57a85aaf4e2513e4f05796b07ba2ee47d80506f8d2c25e50fd\
     14de71e6c418559302f939b0e1abd576f279c4b2e0feb85c1f28ff18f58891ffef132eef\
     2fa09346aee33c28eb130ff28f5b766953334113211996d20011a198e3fc433f9f254101\
     0ae17c1bf202580f6047472fb36857fe843b19f5984009ddc324044e847a4f4a0ab34f71\
     9595de37252d6235365e9b84392b061085349d73203a4a13e96f5432ec0fd4a1ee65accd\
     d5e3904df54c1da510b0ff20dcc0c77fcb2c0e0eb605cb0504db87632cf3d8b4dae6e705\
     769d1de354270123cb11450efc60ac47683d7b8d0f811365565fd98c4c8eb936bcab8d06\
     9fc33bd801b03adea2e1fbc5aa463d08ca19896d2bf59a071b851e6c239052172f296bfb\
     5e72404790a2181014f3b94a4e97d117b438130368cc39dbb2d198065ae3986547926cd2\
     162f40a29f0c3c8745c0f50fba3852e566d44575c29d39a03f0cda721984b6f440591f35\
     5e12d439ff150aab7613499dbd49adabc8676eef023b15b65bfc5ca06948109f23f350db\
     82123535eb8a7433bdabcb909271a6ecbcb58b936a88cd4e8f2e6ff5800175f113253d8f\
     a9ca8885c2f552e657dc603f252e1a8e308f76f0be79e2fb8f5d5fbbe2e30ecadd220723\
     c8c0aea8078cdfcb3868263ff8f0940054da48781893a7e49ad5aff4af300cd804a6b627\
     9ab3ff3afb64491c85194aab760d58a606654f9f4400e8b38591356fbf6425aca26dc852\
     44259ff2b19c41b9f96f3ca9ec1dde434da7d2d392b905ddf3d1f9af93d1af5950bd493f\
     5aa731b4056df31bd267b6b90a079831aaf579be0a39013137aac6d404f518cfd4684064\
     7e78bfe706ca4cf5e9c5453e9f7cfd2b8b4c8d169a44e55c88d4a9a7f9474241e221af44\
     860018ab0856972e194cd934";

    let hex: Vec<u8> = HEX.bytes().filter(|b| !b.is_ascii_whitespace()).collect();
    hex.chunks(2)
        .map(|pair| {
            let digit = |b: u8| char::from(b).to_digit(16).expect("not hex") as u8;
            digit(pair[0]) << 4 | digit(pair[1])
        })
        .collect()
}

#[test]
fn reads_the_server_name_from_the_rfc_9001_client_initial() {
    let datagram = rfc9001_client_initial();
    assert_eq!(
        datagram.len(),
        1200,
        "the vector is a full Initial datagram"
    );
    assert_eq!(peek_server_name(&datagram).as_deref(), Some("example.com"));
}

/// The proxy sees the rest of a connection too, and must not spend keys on it.
#[test]
fn ignores_datagrams_that_are_not_initial_packets() {
    let datagram = rfc9001_client_initial();

    // Short header (bit 0x80 clear) — every packet after the handshake.
    let mut short = datagram.clone();
    short[0] &= 0x7f;
    assert_eq!(peek_server_name(&short), None);

    // Handshake packet: the same long header, a different type.
    let mut handshake = datagram.clone();
    handshake[0] = (handshake[0] & !0x30) | 0x20;
    assert_eq!(peek_server_name(&handshake), None);

    // A version this does not know how to unprotect.
    let mut future = datagram.clone();
    future[1..5].copy_from_slice(&0x0000_0002u32.to_be_bytes());
    assert_eq!(peek_server_name(&future), None);
}

#[test]
fn a_corrupt_packet_fails_the_aead_rather_than_returning_a_name() {
    let mut datagram = rfc9001_client_initial();
    let last = datagram.len() - 1;
    datagram[last] ^= 0xff;
    assert_eq!(peek_server_name(&datagram), None);
}

#[test]
fn truncated_and_junk_datagrams_return_none_without_panicking() {
    let datagram = rfc9001_client_initial();
    for len in 0..datagram.len() {
        assert_eq!(
            peek_server_name(&datagram[..len]),
            None,
            "truncated to {len}"
        );
    }

    assert_eq!(peek_server_name(b""), None);
    assert_eq!(peek_server_name(b"hello"), None);
    assert_eq!(peek_server_name(&[0xff; 64]), None);
    assert_eq!(peek_server_name(&[0xc0; 1200]), None);
}

#[test]
fn a_payload_is_the_packet_less_its_number_and_tag() {
    let datagram = rfc9001_client_initial();
    let (version, dcid, pn_offset, length) = parse_long_header(&datagram).unwrap();
    assert_eq!((version, pn_offset, length), (1, 18, 1182));
    let keys = Keys::initial(version, dcid).unwrap();
    let payload = keys.open(&datagram, pn_offset, length).unwrap();
    assert_eq!(payload.len(), 1182 - 4 - 16);
    assert_eq!(&payload[..3], &[0x06, 0x00, 0x40]);

    // What stands behind the packet does not count.
    let mut longer = datagram.clone();
    longer.extend([0xee; 40]);
    assert_eq!(keys.open(&longer, pn_offset, length), Some(payload));
    assert_eq!(keys.open(&datagram, pn_offset, length - 1), None);
}
