//! Sessions of the blind UDP relay used while a backend is running.
//!
//! Nothing is decrypted here. QUIC and TLS terminate at the backend, so the client's certificate
//! is the one the server sees and authenticated mode keeps working.
//!
//! Sessions are keyed by the client's source address. That is sound because the server disables
//! QUIC connection migration, so a connection's address is stable for its lifetime. One QUIC
//! connection is one player: further channels are streams on that same connection.

use crate::address::SocketAddr;
use crate::clients::{self, ClientMap};
use crate::time::{Duration, Instant};
use vstd::prelude::*;

verus! {

/// The sessions towards one backend.
#[derive(Debug)]
pub struct Relay {
    backend: SocketAddr,
    session_timeout: Duration,
    sessions: ClientMap<Instant>,
}

/// What a [`Relay`] knows: for each client with a session, when it was last heard.
#[verifier::ext_equal]
pub struct RelayModel {
    pub backend: SocketAddr,
    pub session_timeout: Duration,
    pub sessions: Map<SocketAddr, Instant>,
}

/// How a datagram travels to the backend.
#[derive(Debug, Clone, Copy, PartialEq, Eq, Structural)]
pub enum Passage {
    /// Through the socket that the client's session already has.
    Reuse,
    /// Through a socket that is yet to be bound to this address.
    Open { bind: SocketAddr },
}

/// Any port of any interface in an address's family, so that sending there cannot fail on a
/// mismatch.
pub open spec fn upstream(backend: SocketAddr) -> SocketAddr {
    match backend {
        SocketAddr::V4 { .. } => SocketAddr::V4 { ip: 0, port: 0 },
        SocketAddr::V6 { .. } => SocketAddr::V6 { ip: 0, port: 0, flowinfo: 0, scope_id: 0 },
    }
}

impl RelayModel {
    /// A relay without sessions.
    pub open spec fn fresh(backend: SocketAddr, session_timeout: Duration) -> RelayModel {
        RelayModel { backend, session_timeout, sessions: Map::empty() }
    }

    /// After hearing from a client: a session that is there is refreshed.
    pub open spec fn heard(self, client: SocketAddr, now: Instant) -> RelayModel {
        if self.sessions.contains_key(client) {
            self.opened(client, now)
        } else {
            self
        }
    }

    /// How a client's datagram travels.
    pub open spec fn passage(self, client: SocketAddr) -> Passage {
        if self.sessions.contains_key(client) {
            Passage::Reuse
        } else {
            Passage::Open { bind: upstream(self.backend) }
        }
    }

    /// After a session was opened for a client.
    pub open spec fn opened(self, client: SocketAddr, now: Instant) -> RelayModel {
        RelayModel { sessions: self.sessions.insert(client, now), ..self }
    }

    /// After the quiet sessions were dropped.
    pub open spec fn reaped(self, now: Instant) -> RelayModel {
        RelayModel { sessions: clients::lively(self.sessions, now, self.session_timeout), ..self }
    }

    /// After every session was dropped.
    pub open spec fn cleared(self) -> RelayModel {
        RelayModel { sessions: Map::empty(), ..self }
    }
}

impl View for Relay {
    type V = RelayModel;

    closed spec fn view(&self) -> RelayModel {
        RelayModel {
            backend: self.backend,
            session_timeout: self.session_timeout,
            sessions: self.sessions@,
        }
    }
}

impl Relay {
    pub fn new(backend: SocketAddr, session_timeout: Duration) -> (relay: Relay)
        ensures
            relay@ == RelayModel::fresh(backend, session_timeout),
    {
        Relay { backend, session_timeout, sessions: ClientMap::new() }
    }

    /// Where datagrams are relayed to.
    pub fn backend(&self) -> (backend: SocketAddr)
        ensures
            backend == self@.backend,
    {
        self.backend
    }

    /// Number of live sessions: the proxy's estimate of the player count.
    ///
    /// An upper bound: a connection that fails authentication, or a scan that completes a QUIC
    /// handshake, counts until it times out. That can only delay an idle shutdown, never trigger
    /// one wrongly.
    pub fn session_count(&self) -> (n: usize)
        ensures
            n == self@.sessions.dom().len(),
            self@.sessions.dom().finite(),
    {
        self.sessions.len()
    }

    pub fn has_session(&self, client: SocketAddr) -> (yes: bool)
        ensures
            yes == self@.sessions.contains_key(client),
    {
        self.sessions.contains(client)
    }

    /// Take in one datagram from a client: refresh its session, or ask for one.
    pub fn forward_to_backend(&mut self, from: SocketAddr, now: Instant) -> (passage: Passage)
        ensures
            final(self)@ == old(self)@.heard(from, now),
            passage == old(self)@.passage(from),
    {
        if self.sessions.contains(from) {
            self.sessions.insert(from, now);
            Passage::Reuse
        } else {
            Passage::Open { bind: self.backend.any_of_family() }
        }
    }

    /// A socket of its own was bound for a client.
    pub fn opened(&mut self, client: SocketAddr, now: Instant)
        ensures
            final(self)@ == old(self)@.opened(client, now),
    {
        self.sessions.insert(client, now);
    }

    /// Drop sessions that have gone quiet. Says how many remain, and which were dropped.
    pub fn reap_idle(&mut self, now: Instant) -> (outcome: (usize, Vec<SocketAddr>))
        ensures
            final(self)@ == old(self)@.reaped(now),
            outcome.0 == final(self)@.sessions.dom().len(),
            final(self)@.sessions.dom().finite(),
            outcome.1@.no_duplicates(),
            forall|a: SocketAddr|
                outcome.1@.contains(a) <==> #[trigger] old(self)@.sessions.contains_key(a)
                    && !final(self)@.sessions.contains_key(a),
    {
        let dropped = self.sessions.drop_quiet(now, self.session_timeout);
        (self.sessions.len(), dropped)
    }

    /// Drop every session, as when the backend is going away. Says which were dropped.
    pub fn clear(&mut self) -> (dropped: Vec<SocketAddr>)
        ensures
            final(self)@ == old(self)@.cleared(),
            dropped@.no_duplicates(),
            forall|a: SocketAddr|
                dropped@.contains(a) <==> #[trigger] old(self)@.sessions.contains_key(a),
    {
        self.sessions.drop_all()
    }
}

/// Law: a session stays for as long as its client is heard from within the timeout, and falls
/// at the first check after that.
pub proof fn law_traffic_keeps_a_session(
    relay: RelayModel,
    client: SocketAddr,
    heard: Instant,
    checked: Instant,
)
    requires
        relay.sessions.contains_key(client),
    ensures
        relay.heard(client, heard).reaped(checked).sessions.contains_key(client)
            <==> checked.spec_since(heard) < relay.session_timeout.nanos,
{
}

/// Law: each client has a session of its own; traffic from one neither opens, refreshes nor
/// closes that of another, and repeated traffic reuses the session.
pub proof fn law_sessions_are_separate(
    relay: RelayModel,
    client: SocketAddr,
    other: SocketAddr,
    now: Instant,
    later: Instant,
)
    requires
        client != other,
        relay.sessions.dom().finite(),
    ensures
        relay.opened(client, now).sessions.contains_key(other) == relay.sessions.contains_key(
            other,
        ),
        relay.sessions.contains_key(other) ==> relay.opened(client, now).sessions[other]
            == relay.sessions[other],
        relay.opened(client, now).passage(client) == Passage::Reuse,
        relay.opened(client, now).heard(client, later).sessions.dom() == relay.opened(
            client,
            now,
        ).sessions.dom(),
        !relay.sessions.contains_key(client) ==> relay.opened(client, now).sessions.dom().len()
            == relay.sessions.dom().len() + 1,
{
    let opened = relay.opened(client, now);
    assert(opened.heard(client, later).sessions.dom() =~= opened.sessions.dom());
}

/// Law: at a check each session stands or falls by itself: it stands exactly when less than the
/// session timeout has passed since its client was last heard, and nothing else about it changes.
pub proof fn law_each_session_stands_or_falls_alone(
    relay: RelayModel,
    client: SocketAddr,
    now: Instant,
)
    ensures
        relay.reaped(now).sessions.contains_key(client) <==> relay.sessions.contains_key(client)
            && now.nanos < relay.sessions[client].nanos + relay.session_timeout.nanos
            && relay.session_timeout.nanos > 0,
        relay.reaped(now).sessions.contains_key(client) ==> relay.reaped(now).sessions[client]
            == relay.sessions[client],
        relay.reaped(now).backend == relay.backend,
        relay.reaped(now).session_timeout == relay.session_timeout,
{
}

/// Law: hearing from a client refreshes its session if it has one, and opens none; opening one puts
/// it there as of now. Neither touches the sessions of others, nor where the relay leads.
pub proof fn law_traffic_touches_one_session(
    relay: RelayModel,
    client: SocketAddr,
    other: SocketAddr,
    now: Instant,
)
    ensures
        ({
            let heard = relay.heard(client, now);
            let opened = relay.opened(client, now);
            &&& heard.sessions.contains_key(client) == relay.sessions.contains_key(client)
            &&& relay.sessions.contains_key(client) ==> heard.sessions[client] == now
            &&& opened.sessions.contains_key(client) && opened.sessions[client] == now
            &&& other != client ==> {
                &&& heard.sessions.contains_key(other) == relay.sessions.contains_key(other)
                &&& opened.sessions.contains_key(other) == relay.sessions.contains_key(other)
                &&& heard.sessions[other] == relay.sessions[other]
                &&& opened.sessions[other] == relay.sessions[other]
            }
            &&& heard.backend == relay.backend && opened.backend == relay.backend
            &&& heard.session_timeout == relay.session_timeout
            &&& opened.session_timeout == relay.session_timeout
        }),
{
}

/// Law: a new relay leads to its backend and has no session; a cleared one has none left and leads
/// where it did.
pub proof fn law_a_relay_starts_and_ends_empty(
    backend: SocketAddr,
    session_timeout: Duration,
    relay: RelayModel,
    client: SocketAddr,
)
    ensures
        RelayModel::fresh(backend, session_timeout).backend == backend,
        RelayModel::fresh(backend, session_timeout).session_timeout == session_timeout,
        !RelayModel::fresh(backend, session_timeout).sessions.contains_key(client),
        relay.cleared().backend == relay.backend,
        relay.cleared().session_timeout == relay.session_timeout,
        !relay.cleared().sessions.contains_key(client),
{
}

/// Law: a client with a session uses it, and one without asks for a socket on any port of any
/// interface, in the family of the backend and of no client.
pub proof fn law_a_socket_is_of_the_backends_family(relay: RelayModel, client: SocketAddr)
    ensures
        relay.sessions.contains_key(client) ==> relay.passage(client) == Passage::Reuse,
        !relay.sessions.contains_key(client) ==> (relay.passage(client) matches Passage::Open {
            bind,
        } && {
            &&& relay.backend is V4 ==> bind == (SocketAddr::V4 { ip: 0, port: 0 })
            &&& relay.backend is V6 ==> bind == (SocketAddr::V6 {
                ip: 0,
                port: 0,
                flowinfo: 0,
                scope_id: 0,
            })
        }),
{
}

} // verus!
