//! Sessions of the relay.

use sleepytale::address::SocketAddr;
use sleepytale::relay::{Passage, Relay};
use sleepytale::time::{Duration, Instant};

const BACKEND: SocketAddr = SocketAddr::V4 { ip: 0x7f00_0001, port: 5521 };

fn client(port: u16) -> SocketAddr {
    SocketAddr::V4 { ip: 0x7f00_0001, port }
}

fn at(millis: u64) -> Instant {
    Instant { nanos: Duration::from_millis(millis).nanos }
}

/// Hand the relay a datagram, and open the session it asks for.
fn forward(relay: &mut Relay, from: SocketAddr, now: Instant) -> Passage {
    let passage = relay.forward_to_backend(from, now);
    if let Passage::Open { .. } = passage {
        relay.opened(from, now);
    }
    passage
}

#[test]
fn two_clients_get_separate_sessions() {
    let mut relay = Relay::new(BACKEND, Duration::from_secs(30));
    let a = client(40001);
    let b = client(40002);
    forward(&mut relay, a, at(0));
    forward(&mut relay, b, at(0));
    assert_eq!(relay.session_count(), 2);

    // Repeat traffic reuses the session rather than opening another.
    assert_eq!(forward(&mut relay, a, at(1)), Passage::Reuse);
    assert_eq!(relay.session_count(), 2);
}

#[test]
fn quiet_sessions_are_reaped() {
    let mut relay = Relay::new(BACKEND, Duration::from_millis(50));
    forward(&mut relay, client(40001), at(0));
    assert_eq!(relay.reap_idle(at(0)), (1, vec![]), "still fresh");
    assert_eq!(
        relay.reap_idle(at(80)),
        (0, vec![client(40001)]),
        "expired after the timeout"
    );
    assert_eq!(relay.session_count(), 0);
}

#[test]
fn traffic_keeps_a_session_alive() {
    let mut relay = Relay::new(BACKEND, Duration::from_millis(100));
    for tick in 0..4 {
        forward(&mut relay, client(40001), at(40 * tick));
        assert_eq!(relay.reap_idle(at(40 * tick + 40)).0, 1);
    }
}

#[test]
fn clear_drops_everything() {
    let mut relay = Relay::new(BACKEND, Duration::from_secs(30));
    forward(&mut relay, client(40001), at(0));
    assert_eq!(relay.clear(), [client(40001)]);
    assert_eq!(relay.session_count(), 0);
}

#[test]
fn a_session_expires_at_the_timeout_and_not_before() {
    let mut relay = Relay::new(BACKEND, Duration::from_millis(50));
    forward(&mut relay, client(40001), at(100));
    forward(&mut relay, client(40002), at(120));
    assert_eq!(relay.reap_idle(at(149)).0, 2);
    assert_eq!(relay.reap_idle(at(150)), (1, vec![client(40001)]));
    assert!(relay.has_session(client(40002)));
    assert!(!relay.has_session(client(40001)));
}

#[test]
fn a_clock_that_steps_back_expires_nothing() {
    let mut relay = Relay::new(BACKEND, Duration::from_millis(50));
    forward(&mut relay, client(40001), at(100));
    assert_eq!(relay.reap_idle(at(0)).0, 1);
}

#[test]
fn upstream_sockets_match_the_family_of_the_backend() {
    let mut relay = Relay::new(BACKEND, Duration::from_secs(30));
    assert_eq!(
        relay.forward_to_backend(client(40001), at(0)),
        Passage::Open { bind: SocketAddr::V4 { ip: 0, port: 0 } }
    );
    assert_eq!(relay.backend(), BACKEND);
    assert_eq!(relay.session_count(), 0, "nothing is open until a socket is bound");

    let six = SocketAddr::V6 { ip: 1, port: 5521, flowinfo: 7, scope_id: 3 };
    let mut relay = Relay::new(six, Duration::from_secs(30));
    assert_eq!(
        relay.forward_to_backend(client(40001), at(0)),
        Passage::Open {
            bind: SocketAddr::V6 { ip: 0, port: 0, flowinfo: 0, scope_id: 0 }
        }
    );
}
