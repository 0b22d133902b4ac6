//! The shape of a datagram that wakes a backend.

use sleepytale::knock::is_quic_initial;

fn initial() -> Vec<u8> {
    let mut datagram = vec![0u8; 1200];
    datagram[0] = 0xc3; // long header, fixed bit, Initial, 4-byte packet number
    datagram[1..5].copy_from_slice(&[0, 0, 0, 1]);
    datagram
}

#[test]
fn accepts_a_client_initial() {
    assert!(is_quic_initial(&initial()));
}

#[test]
fn rejects_a_short_header_packet() {
    // What a live connection's traffic looks like: the high bit is clear.
    let mut datagram = initial();
    datagram[0] = 0x40;
    assert!(!is_quic_initial(&datagram));
}

#[test]
fn rejects_handshake_and_zero_rtt_long_headers() {
    for packet_type in [0b1101_0000, 0b1110_0000, 0b1111_0000] {
        let mut datagram = initial();
        datagram[0] = packet_type;
        assert!(!is_quic_initial(&datagram), "type bits {packet_type:08b}");
    }
}

#[test]
fn accepts_a_quic_v2_initial() {
    let mut datagram = initial();
    datagram[0] = 0xd3;
    datagram[1..5].copy_from_slice(&[0x6b, 0x33, 0x43, 0xcf]);
    assert!(is_quic_initial(&datagram));
}

#[test]
fn rejects_another_quic_version() {
    let mut datagram = initial();
    datagram[1..5].copy_from_slice(&[0x00, 0x00, 0x00, 0x02]);
    assert!(!is_quic_initial(&datagram));
}

#[test]
fn rejects_an_undersized_datagram() {
    let datagram = initial();
    assert!(!is_quic_initial(&datagram[..1199]));
    assert!(!is_quic_initial(b""));
}
