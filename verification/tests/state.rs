//! The proxy's lifecycle, one datagram and one event at a time.

use aes::cipher::BlockEncrypt;
use aes::Aes128;
use aes_gcm::aead::{Aead, Payload};
use aes_gcm::{Aes128Gcm, KeyInit};
use hkdf::Hkdf;
use sha2::Sha256;
use sleepytale::address::SocketAddr;
use sleepytale::config::{BackendConfig, Config, ServerConfig};
use sleepytale::knock::is_quic_initial;
use sleepytale::phase::{Fate, Stop, MAX_HELD_CLIENTS};
use sleepytale::relay::Passage;
use sleepytale::sni::{peek_payload, peek_server_name};
use sleepytale::state::{Action, Proxy};
use sleepytale::time::{Duration, Instant};

const V1: u32 = 0x0000_0001;
const V2: u32 = 0x6b33_43cf;

fn at(secs: u64) -> Instant {
    Instant { nanos: Duration::from_secs(secs).nanos }
}

fn client(port: u16) -> SocketAddr {
    SocketAddr::V4 { ip: 0x0a00_0001, port }
}

fn loopback(port: u16) -> SocketAddr {
    SocketAddr::V4 { ip: 0x7f00_0001, port }
}

/// An Initial-shaped datagram, padded to the 1200 bytes a real client sends.
fn initial() -> Vec<u8> {
    let mut datagram = vec![0u8; 1200];
    datagram[0] = 0xc3; // long header, fixed bit, Initial
    datagram[1..5].copy_from_slice(&[0, 0, 0, 1]); // QUIC v1
    datagram
}

fn prefixed(width: usize, bytes: &[u8]) -> Vec<u8> {
    let mut out = bytes.len().to_be_bytes()[8 - width..].to_vec();
    out.extend_from_slice(bytes);
    out
}

/// A ClientHello that offers `name`, after an extension of another kind.
fn client_hello(name: &str) -> Vec<u8> {
    let mut list = vec![0u8];
    list.extend(prefixed(2, name.as_bytes()));
    let mut extensions = vec![0x00, 0x2b];
    extensions.extend(prefixed(2, &[0x02, 0x03, 0x04]));
    extensions.extend([0x00, 0x00]);
    extensions.extend(prefixed(2, &prefixed(2, &list)));
    let mut body = vec![0x03, 0x03];
    body.extend([7u8; 32]);
    body.extend(prefixed(1, &[]));
    body.extend(prefixed(2, &[0x13, 0x01]));
    body.extend(prefixed(1, &[0x00]));
    body.extend(prefixed(2, &extensions));
    let mut message = vec![0x01];
    message.extend(prefixed(3, &body));
    message
}

fn expand(prk: &[u8], label: &str, out: &mut [u8]) {
    let label = format!("tls13 {label}");
    let mut info = (out.len() as u16).to_be_bytes().to_vec();
    info.extend(prefixed(1, label.as_bytes()));
    info.push(0);
    Hkdf::<Sha256>::from_prk(prk).unwrap().expand(&info, out).unwrap();
}

/// A client's first datagram, protected as the version asks, 1200 bytes long.
fn protected(version: u32, dcid: &[u8], name: &str) -> Vec<u8> {
    let (salt, prefix, kind): ([u8; 20], &str, u8) = if version == V1 {
        (
            [
                0x38, 0x76, 0x2c, 0xf7, 0xf5, 0x59, 0x34, 0xb3, 0x4d, 0x17, 0x9a, 0xe6, 0xa4, 0xc8,
                0x0c, 0xad, 0xcc, 0xbb, 0x7f, 0x0a,
            ],
            "quic",
            0,
        )
    } else {
        (
            [
                0x0d, 0xed, 0xe3, 0xde, 0xf7, 0x00, 0xa6, 0xdb, 0x81, 0x93, 0x81, 0xbe, 0x6e, 0x26,
                0x9d, 0xcb, 0xf9, 0xbd, 0x2e, 0xd9,
            ],
            "quicv2",
            1,
        )
    };
    let (extracted, _) = Hkdf::<Sha256>::extract(Some(&salt), dcid);
    let mut secret = [0u8; 32];
    expand(&extracted, "client in", &mut secret);
    let (mut key, mut iv, mut hp) = ([0u8; 16], [0u8; 12], [0u8; 16]);
    expand(&secret, &format!("{prefix} key"), &mut key);
    expand(&secret, &format!("{prefix} iv"), &mut iv);
    expand(&secret, &format!("{prefix} hp"), &mut hp);

    // The message in two CRYPTO frames, the second half first, with padding between and after.
    let message = client_hello(name);
    let half = message.len() / 2;
    let mut payload = vec![0x06];
    payload.extend((0x4000 | half as u16).to_be_bytes());
    payload.extend((0x4000 | (message.len() - half) as u16).to_be_bytes());
    payload.extend(&message[half..]);
    payload.extend([0x00, 0x01, 0x00]);
    payload.extend([0x06, 0x00]);
    payload.extend((0x4000 | half as u16).to_be_bytes());
    payload.extend(&message[..half]);

    let mut header = vec![0xc0 | kind << 4 | 0x01];
    header.extend(version.to_be_bytes());
    header.extend(prefixed(1, dcid));
    header.extend(prefixed(1, b"scid"));
    header.push(0); // no token
    let length = 1200 - header.len() - 2;
    header.extend((0x4000 | length as u16).to_be_bytes());
    let at = header.len();
    header.extend([0x00, 0x00]); // packet number 0
    payload.resize(length - 2 - 16, 0);

    let sealed = Aes128Gcm::new(&key.into())
        .encrypt(&iv.into(), Payload { msg: &payload, aad: &header })
        .unwrap();
    let mut datagram = header;
    datagram.extend(sealed);
    let mut mask = [0u8; 16];
    mask.copy_from_slice(&datagram[at + 4..at + 20]);
    Aes128::new(&hp.into()).encrypt_block((&mut mask).into());
    datagram[0] ^= mask[0] & 0x0f;
    datagram[at] ^= mask[1];
    datagram[at + 1] ^= mask[2];
    assert_eq!(datagram.len(), 1200);
    datagram
}

/// The default backend, and one for `creative.example.com`.
fn two_backends() -> Proxy {
    let mut config = Config::default();
    config.routes.insert(
        "creative.example.com".into(),
        BackendConfig {
            backend: loopback(5531),
            server: ServerConfig { forward_stdin: false, ..ServerConfig::default() },
        },
    );
    config.validate().unwrap();
    Proxy::new(config)
}

/// Wake and boot a backend for a client, and open its session.
fn run(proxy: &mut Proxy, from: SocketAddr, datagram: &[u8], now: Instant) -> usize {
    let action = proxy.receive(from, datagram, now);
    assert_eq!(action.fate, Fate::Wake);
    for (from, _) in proxy.booted(action.slot, now) {
        assert!(matches!(
            proxy.deliver(action.slot, from, now),
            Some(Passage::Open { .. })
        ));
        assert!(proxy.opened(action.slot, from, now));
    }
    action.slot
}

#[test]
fn sleeping_proxy_releases_promptly_on_shutdown() {
    let config = Config { listen: loopback(57121), ..Config::default() };
    let mut proxy = Proxy::new(config);
    assert!(proxy.shut_down().is_empty(), "there is nothing to wait for");
}

#[test]
fn a_datagram_queued_at_the_handoff_is_relayed_not_dropped() {
    let mut proxy = Proxy::new(Config::default());
    run(&mut proxy, client(1), &initial(), at(0));
    // Not an Initial, and from a client that was never heard of.
    let action = proxy.receive(client(2), &[0xaa; 32], at(0));
    assert_eq!(
        action,
        Action {
            slot: 0,
            fate: Fate::Relay {
                passage: Passage::Open { bind: SocketAddr::V4 { ip: 0, port: 0 } }
            }
        }
    );
}

#[test]
fn the_initial_that_woke_the_proxy_reaches_the_backend() {
    let mut proxy = Proxy::new(Config::default());
    let knock = initial();
    let action = proxy.receive(client(1), &knock, at(0));
    assert_eq!(action, Action { slot: 0, fate: Fate::Wake });
    assert_eq!(
        proxy.booted(0, at(1)),
        [(client(1), knock)],
        "the client's own bytes, unaltered"
    );
}

#[test]
fn an_initial_arriving_mid_boot_is_held_and_delivered() {
    let mut proxy = Proxy::new(Config::default());
    // Distinguishable from the knock, so the assertion proves the newer one won.
    let mut retransmit = initial();
    retransmit[5..9].copy_from_slice(b"HELD");

    proxy.receive(client(1), &initial(), at(0));
    let action = proxy.receive(client(1), &retransmit, at(1));
    assert_eq!(action.fate, Fate::Hold);
    assert_eq!(
        proxy.booted(0, at(2)),
        [(client(1), retransmit)],
        "the newest Initial for this client should win"
    );
}

#[test]
fn only_an_initial_wakes_a_backend() {
    let mut proxy = Proxy::new(Config::default());
    assert_eq!(proxy.receive(client(1), &[0x40; 1200], at(0)).fate, Fate::Ignore);
    assert_eq!(proxy.receive(client(1), &initial()[..1199], at(0)).fate, Fate::Ignore);
    assert_eq!(proxy.receive(client(1), &initial(), at(0)).fate, Fate::Wake);
}

#[test]
fn while_waking_everything_but_an_initial_is_dropped() {
    let mut proxy = Proxy::new(Config::default());
    proxy.receive(client(1), &initial(), at(0));
    assert_eq!(proxy.receive(client(1), &[0x40; 1200], at(0)).fate, Fate::Drop);
    assert_eq!(proxy.receive(client(2), &[0x40; 1200], at(0)).fate, Fate::Drop);
}

#[test]
fn no_more_clients_are_held_than_allowed() {
    let mut proxy = Proxy::new(Config::default());
    for n in 1..=MAX_HELD_CLIENTS as u16 {
        proxy.receive(client(n), &initial(), at(0));
    }
    assert_eq!(proxy.receive(client(100), &initial(), at(0)).fate, Fate::Drop);
    assert_eq!(proxy.receive(client(3), &initial(), at(0)).fate, Fate::Hold);
    assert_eq!(proxy.booted(0, at(1)).len(), 8);
}

#[test]
fn a_failed_wake_leads_back_to_sleep() {
    let mut proxy = Proxy::new(Config::default());
    proxy.receive(client(1), &initial(), at(0));
    proxy.start_failed(0);
    assert_eq!(proxy.owner(client(1)), None);
    assert_eq!(proxy.receive(client(1), &initial(), at(1)).fate, Fate::Wake);
    assert!(proxy.boot_failed(0), "the process is to be stopped");
    assert!(!proxy.stopped(0), "and not to be started again");
    assert_eq!(proxy.receive(client(1), &initial(), at(2)).fate, Fate::Wake);
}

#[test]
fn an_initial_that_arrives_during_a_stop_starts_the_backend_again() {
    let mut proxy = Proxy::new(Config::default());
    run(&mut proxy, client(1), &initial(), at(0));
    assert_eq!(
        proxy.tick(0, true, at(5)),
        (vec![client(1)], Some(Stop::BackendGone))
    );
    assert_eq!(proxy.receive(client(1), &[0x40; 50], at(6)).fate, Fate::Drop);
    assert_eq!(proxy.receive(client(2), &initial(), at(6)).fate, Fate::Hold);
    assert!(proxy.stopped(0));
    assert_eq!(proxy.booted(0, at(7)), [(client(2), initial())]);
}

#[test]
fn an_empty_backend_is_stopped_after_the_idle_timeout() {
    let mut proxy = Proxy::new(Config::default());
    run(&mut proxy, client(1), &initial(), at(0));
    assert_eq!(proxy.tick(0, false, at(89)), (vec![], None));
    assert_eq!(proxy.tick(0, false, at(90)), (vec![client(1)], None));
    assert_eq!(proxy.tick(0, false, at(989)), (vec![], None));
    assert_eq!(proxy.tick(0, false, at(990)), (vec![], Some(Stop::Idle)));
    assert!(!proxy.stopped(0));
    assert_eq!(proxy.tick(0, false, at(5000)), (vec![], None), "it sleeps");
}

#[test]
fn a_cold_start_is_given_the_idle_timeout() {
    let mut proxy = Proxy::new(Config::default());
    proxy.receive(client(1), &initial(), at(0));
    proxy.booted(0, at(100));
    assert_eq!(proxy.tick(0, false, at(999)).1, None);
    assert_eq!(proxy.tick(0, false, at(1000)).1, Some(Stop::Idle));
}

#[test]
fn a_player_resets_the_idle_clock() {
    let mut proxy = Proxy::new(Config::default());
    run(&mut proxy, client(1), &initial(), at(0));
    proxy.tick(0, false, at(90));
    assert!(proxy.opened(0, client(2), at(800)));
    assert_eq!(proxy.tick(0, false, at(801)).1, None);
    assert_eq!(proxy.tick(0, false, at(890)), (vec![client(2)], None));
    assert_eq!(proxy.tick(0, false, at(1000)).1, None, "empty since 890 only");
    assert_eq!(proxy.tick(0, false, at(1790)).1, Some(Stop::Idle));
}

#[test]
fn names_are_read_from_initials_of_both_versions() {
    for version in [V1, V2] {
        let datagram = protected(version, b"\x83\x94\xc8\xf0\x3e\x51\x57\x08", "Play.example.com");
        assert!(is_quic_initial(&datagram));
        assert_eq!(
            peek_server_name(&datagram).as_deref(),
            Some("Play.example.com")
        );
        // What is coalesced behind the packet does not matter.
        let mut longer = datagram.clone();
        longer.extend([0xee; 40]);
        assert_eq!(
            peek_server_name(&longer).as_deref(),
            Some("Play.example.com")
        );
        // The other version's keys do not open it.
        let mut relabelled = datagram.clone();
        let other = if version == V1 { V2 } else { V1 };
        relabelled[1..5].copy_from_slice(&other.to_be_bytes());
        relabelled[0] ^= 0x10;
        assert!(is_quic_initial(&relabelled));
        assert_eq!(peek_server_name(&relabelled), None);
    }
}

#[test]
fn a_name_that_cannot_be_routed_is_not_read() {
    let long = "x".repeat(254);
    assert_eq!(peek_server_name(&protected(V1, b"12345678", &long)), None);
    let longest = "x".repeat(253);
    assert_eq!(
        peek_server_name(&protected(V1, b"12345678", &longest)),
        Some(longest)
    );
    assert_eq!(peek_server_name(&protected(V1, b"12345678", "")), None);
}

#[test]
fn a_hello_that_is_not_whole_has_no_name() {
    let message = client_hello("play.example.com");
    let carried = |part: &[u8]| {
        let mut payload = vec![0x00, 0x06, 0x00];
        payload.extend((0x4000 | part.len() as u16).to_be_bytes());
        payload.extend(part);
        payload
    };
    assert_eq!(
        peek_payload(&carried(&message)).as_deref(),
        Some("play.example.com")
    );
    for len in 0..message.len() {
        assert_eq!(peek_payload(&carried(&message[..len])), None, "cut to {len}");
    }
}

#[test]
fn a_frame_that_does_not_belong_ends_the_walk() {
    let message = client_hello("play.example.com");
    let mut payload = vec![0x06, 0x00];
    payload.extend((0x4000 | message.len() as u16).to_be_bytes());
    payload.extend(&message);
    // An ACK with one more range and ECN counts, then a close that hides another CRYPTO frame.
    let mut acked = vec![0x03, 9, 0, 1, 0, 0, 0, 1, 2, 3];
    acked.extend(&payload);
    acked.extend([0x1c, 0x06, 0xff]);
    assert_eq!(
        peek_payload(&acked).as_deref(),
        Some("play.example.com")
    );
    // A frame that is cut short spoils the payload.
    payload.extend([0x06, 0x00, 0x05, 0x01]);
    assert_eq!(peek_payload(&payload), None);
}

#[test]
fn a_name_chooses_the_backend_it_wakes() {
    let mut proxy = two_backends();
    assert_eq!(proxy.slots(), 2);
    let creative = protected(V1, b"12345678", "Creative.Example.com.");
    assert_eq!(
        proxy.receive(client(1), &creative, at(0)),
        Action { slot: 1, fate: Fate::Wake }
    );
    assert_eq!(proxy.backend(1).backend, loopback(5531));
    // Unreadable and unknown names use the default, which is woken on its own.
    assert_eq!(
        proxy.receive(client(2), &initial(), at(0)),
        Action { slot: 0, fate: Fate::Wake }
    );
    let unknown = protected(V2, b"12345678", "unknown.example.com");
    assert_eq!(
        proxy.receive(client(3), &unknown, at(0)),
        Action { slot: 0, fate: Fate::Hold }
    );
}

#[test]
fn a_session_is_pinned_to_its_first_route() {
    let mut proxy = two_backends();
    let creative = protected(V1, b"12345678", "creative.example.com");
    assert_eq!(run(&mut proxy, client(1), &creative, at(0)), 1);
    assert_eq!(run(&mut proxy, client(2), &initial(), at(0)), 0);

    let reuse = Fate::Relay { passage: Passage::Reuse };
    let short = [0x40; 50];
    assert_eq!(proxy.receive(client(1), &short, at(1)), Action { slot: 1, fate: reuse });
    assert_eq!(proxy.receive(client(2), &short, at(1)), Action { slot: 0, fate: reuse });
    // Another name does not move either of them.
    assert_eq!(proxy.receive(client(2), &creative, at(1)), Action { slot: 0, fate: reuse });
    assert_eq!(proxy.receive(client(1), &initial(), at(1)), Action { slot: 1, fate: reuse });
    assert!(!proxy.opened(0, client(1), at(1)), "it belongs to the other backend");
    assert_eq!(proxy.owner(client(1)), Some(1));
}

#[test]
fn an_expired_session_frees_its_client() {
    let mut proxy = two_backends();
    let creative = protected(V1, b"12345678", "creative.example.com");
    run(&mut proxy, client(1), &creative, at(0));
    run(&mut proxy, client(2), &initial(), at(80));
    assert_eq!(proxy.tick(1, false, at(95)), (vec![client(1)], None));
    assert_eq!(proxy.owner(client(1)), None);
    let action = proxy.receive(client(1), &initial(), at(96));
    assert_eq!(action.slot, 0, "it chooses anew");
}

#[test]
fn backends_stop_independently() {
    let mut proxy = two_backends();
    let creative = protected(V1, b"12345678", "creative.example.com");
    run(&mut proxy, client(1), &creative, at(0));
    run(&mut proxy, client(2), &initial(), at(0));
    proxy.tick(1, true, at(5));
    assert!(!proxy.stopped(1));
    assert_eq!(proxy.owner(client(2)), Some(0));
    assert_eq!(proxy.receive(client(1), &creative, at(6)).fate, Fate::Wake);
}

#[test]
fn shutting_down_stops_what_runs_and_wakes_nothing() {
    let mut proxy = two_backends();
    let creative = protected(V1, b"12345678", "creative.example.com");
    run(&mut proxy, client(1), &creative, at(0));
    proxy.receive(client(2), &initial(), at(0));
    assert_eq!(proxy.shut_down(), [0, 1]);
    assert!(!proxy.stopped(0));
    assert!(!proxy.stopped(1));
    assert!(proxy.shut_down().is_empty());
}

#[test]
fn a_name_found_elsewhere_is_routed_alike() {
    let mut proxy = two_backends();
    let action = proxy.receive_named(client(1), &initial(), Some("CREATIVE.example.com"), at(0));
    assert_eq!(action, Action { slot: 1, fate: Fate::Wake });
    assert_eq!(proxy.config().backend, loopback(5521));
}

#[test]
fn nothing_starts_after_a_shutdown() {
    let mut proxy = two_backends();
    let creative = protected(V1, b"12345678", "creative.example.com");
    run(&mut proxy, client(1), &creative, at(0));
    proxy.receive(client(2), &initial(), at(0));
    assert!(proxy.is_running(1));
    assert!(!proxy.is_running(0));
    assert_eq!(proxy.shut_down(), [0, 1]);

    // A boot that was under way completes, and another that fails does.
    assert_eq!(proxy.booted(0, at(1)), []);
    assert!(!proxy.is_running(0));
    assert!(!proxy.boot_failed(0));
    assert_eq!(proxy.deliver(1, client(1), at(1)), None);
    assert!(!proxy.opened(1, client(1), at(1)));
    assert_eq!(proxy.tick(1, true, at(2)), (vec![], None));
    proxy.start_failed(0);
    assert!(!proxy.stopped(0));
    assert!(!proxy.stopped(1));
    assert!(!proxy.stopped(1));
    assert!(proxy.shut_down().is_empty());
}
