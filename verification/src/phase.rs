//! The lifecycle of one backend: sleeping, waking, running, stopping.
//!
//! ```text
//! Sleeping   nothing runs; a QUIC Initial starts the backend
//! Waking     Initials are held while the backend boots; everything else is dropped
//! Running    held Initials are delivered, then datagrams are relayed to the backend
//!            no sessions for idle_timeout -> stop the backend
//! Stopping   as Waking, until the backend is gone; then Sleeping, or Waking if one is held
//! ```
//!
//! Nothing is ever sent back except while Running. The proxy does not terminate the QUIC
//! handshake, so it cannot answer one either. What it can do is deliver the client's own Initial
//! late, so the client does not have to retransmit for the connection to succeed.

use crate::address::SocketAddr;
use crate::clients::{self, ClientMap};
use crate::knock::{self, is_quic_initial};
use crate::relay::{Passage, Relay, RelayModel};
use crate::time::{Duration, Instant};
use vstd::prelude::*;
use vstd::slice::slice_to_vec;

verus! {

/// How many distinct clients can have an Initial held during one boot.
///
/// Only the newest Initial per address is kept, so this bounds the hold to a handful of
/// datagrams however long the boot runs. Clients past the cap are simply not held; they still
/// connect the moment they retransmit against the running relay.
pub const MAX_HELD_CLIENTS: usize = 8;

/// Client Initials received while the backend was not there to take them, newest per address.
#[derive(Debug)]
pub struct HeldInitials {
    initials: ClientMap<Vec<u8>>,
}

/// The bytes that are held, by client.
pub type HeldModel = Map<SocketAddr, Seq<u8>>;

/// The bytes of each datagram.
pub open spec fn contents(initials: Map<SocketAddr, Vec<u8>>) -> HeldModel {
    initials.map_values(|v: Vec<u8>| v@)
}

impl View for HeldInitials {
    type V = HeldModel;

    closed spec fn view(&self) -> HeldModel {
        contents(self.initials@)
    }
}

/// Whether a datagram is worth holding: it is an Initial, and its client is held already or
/// there is room for one more.
pub open spec fn holds(held: HeldModel, from: SocketAddr, datagram: Seq<u8>) -> bool {
    &&& knock::is_knock(datagram)
    &&& held.contains_key(from) || held.dom().len() < MAX_HELD_CLIENTS
}

/// What is held once a datagram has been offered.
pub open spec fn held_after(held: HeldModel, from: SocketAddr, datagram: Seq<u8>) -> HeldModel {
    if holds(held, from, datagram) {
        held.insert(from, datagram)
    } else {
        held
    }
}

/// What can be held at any time: Initials, of no more clients than allowed.
pub open spec fn holdable(held: HeldModel) -> bool {
    &&& held.dom().finite()
    &&& held.dom().len() <= MAX_HELD_CLIENTS
    &&& forall|a: SocketAddr| #[trigger] held.contains_key(a) ==> knock::is_knock(held[a])
}

/// The bytes of a list of datagrams.
pub open spec fn datagrams(entries: Seq<(SocketAddr, Vec<u8>)>) -> Seq<(SocketAddr, Seq<u8>)> {
    entries.map_values(|e: (SocketAddr, Vec<u8>)| (e.0, e.1@))
}

proof fn lemma_contents(entries: Seq<(SocketAddr, Vec<u8>)>)
    ensures
        contents(clients::as_map(entries)) == clients::as_map(datagrams(entries)),
    decreases entries.len(),
{
    if entries.len() > 0 {
        lemma_contents(entries.drop_last());
        assert(datagrams(entries).drop_last() =~= datagrams(entries.drop_last()));
    }
    assert(contents(clients::as_map(entries)) =~= clients::as_map(datagrams(entries)));
}

impl HeldInitials {
    pub fn new() -> (held: HeldInitials)
        ensures
            held@ == HeldModel::empty(),
    {
        let initials: ClientMap<Vec<u8>> = ClientMap::new();
        proof {
            assert(contents(initials@) =~= HeldModel::empty());
        }
        HeldInitials { initials }
    }

    pub fn is_empty(&self) -> (yes: bool)
        ensures
            yes == (self@ == HeldModel::empty()),
    {
        let n = self.initials.len();
        proof {
            assert(self@.dom() =~= self.initials@.dom());
            if n == 0 {
                assert(self.initials@.dom() =~= Set::<SocketAddr>::empty());
                assert(self@ =~= HeldModel::empty());
            }
        }
        n == 0
    }

    pub fn contains(&self, client: SocketAddr) -> (yes: bool)
        ensures
            yes == self@.contains_key(client),
    {
        self.initials.contains(client)
    }

    /// Hold a datagram if it is worth it, in place of an earlier one from the same client.
    pub fn offer(&mut self, from: SocketAddr, datagram: &[u8]) -> (held: bool)
        ensures
            held == holds(old(self)@, from, datagram@),
            final(self)@ == held_after(old(self)@, from, datagram@),
    {
        proof {
            assert(self@.dom() =~= self.initials@.dom());
        }
        let holding = is_quic_initial(datagram) && (self.initials.contains(from)
            || self.initials.len() < MAX_HELD_CLIENTS);
        if holding {
            self.initials.insert(from, slice_to_vec(datagram));
            proof {
                assert(self@ =~= old(self)@.insert(from, datagram@));
            }
        }
        holding
    }

    /// The datagrams, one for each client.
    pub fn into_entries(self) -> (entries: Vec<(SocketAddr, Vec<u8>)>)
        ensures
            clients::as_map(datagrams(entries@)) == self@,
            entries@.len() == self@.dom().len(),
    {
        proof {
            assert(self@.dom() =~= self.initials@.dom());
        }
        let entries = self.initials.into_entries();
        proof {
            lemma_contents(entries@);
        }
        entries
    }
}

/// Why a backend is stopped.
#[derive(Debug, Clone, Copy, PartialEq, Eq, Structural)]
pub enum Stop {
    /// Nobody has played for long enough.
    Idle,
    /// The backend exited on its own.
    BackendGone,
}

/// What becomes of a datagram.
#[derive(Debug, Clone, Copy, PartialEq, Eq, Structural)]
pub enum Fate {
    /// Nothing runs, and this is no reason to change that.
    Ignore,
    /// It is held, and the backend is to be started.
    Wake,
    /// It is held until the backend is ready.
    Hold,
    /// It is lost.
    Drop,
    /// It goes to the backend.
    Relay { passage: Passage },
}

/// Where one backend is in its lifecycle.
#[derive(Debug)]
pub enum Phase {
    Sleeping,
    Waking { held: HeldInitials },
    Running { relay: Relay, empty_since: Option<Instant> },
    Stopping { held: HeldInitials },
}

/// What a [`Phase`] knows.
#[verifier::ext_equal]
pub enum PhaseModel {
    Sleeping,
    Waking { held: HeldModel },
    Running { relay: RelayModel, empty_since: Option<Instant> },
    Stopping { held: HeldModel },
}

impl View for Phase {
    type V = PhaseModel;

    open spec fn view(&self) -> PhaseModel {
        match *self {
            Phase::Sleeping => PhaseModel::Sleeping,
            Phase::Waking { held } => PhaseModel::Waking { held: held@ },
            Phase::Running { relay, empty_since } => PhaseModel::Running {
                relay: relay@,
                empty_since,
            },
            Phase::Stopping { held } => PhaseModel::Stopping { held: held@ },
        }
    }
}

impl PhaseModel {
    /// The clients this backend is answerable for: those with a session, and those held.
    pub open spec fn clients(self) -> Set<SocketAddr> {
        match self {
            PhaseModel::Sleeping => Set::empty(),
            PhaseModel::Waking { held } => held.dom(),
            PhaseModel::Running { relay, .. } => relay.sessions.dom(),
            PhaseModel::Stopping { held } => held.dom(),
        }
    }

    /// What holds of a phase at all times.
    pub open spec fn inv(self) -> bool {
        match self {
            PhaseModel::Sleeping => true,
            PhaseModel::Waking { held } => holdable(held) && held.dom().len() > 0,
            PhaseModel::Running { relay, .. } => relay.sessions.dom().finite(),
            PhaseModel::Stopping { held } => holdable(held),
        }
    }

    /// What becomes of a datagram.
    pub open spec fn fate(self, from: SocketAddr, datagram: Seq<u8>) -> Fate {
        match self {
            PhaseModel::Sleeping => if knock::is_knock(datagram) {
                Fate::Wake
            } else {
                Fate::Ignore
            },
            PhaseModel::Waking { held } => if holds(held, from, datagram) {
                Fate::Hold
            } else {
                Fate::Drop
            },
            PhaseModel::Running { relay, .. } => Fate::Relay { passage: relay.passage(from) },
            PhaseModel::Stopping { held } => if holds(held, from, datagram) {
                Fate::Hold
            } else {
                Fate::Drop
            },
        }
    }

    /// The phase after a datagram.
    pub open spec fn received(self, from: SocketAddr, datagram: Seq<u8>, now: Instant) -> PhaseModel {
        match self {
            PhaseModel::Sleeping => if knock::is_knock(datagram) {
                PhaseModel::Waking { held: HeldModel::empty().insert(from, datagram) }
            } else {
                PhaseModel::Sleeping
            },
            PhaseModel::Waking { held } => PhaseModel::Waking {
                held: held_after(held, from, datagram),
            },
            PhaseModel::Running { relay, empty_since } => PhaseModel::Running {
                relay: relay.heard(from, now),
                empty_since,
            },
            PhaseModel::Stopping { held } => PhaseModel::Stopping {
                held: held_after(held, from, datagram),
            },
        }
    }

    /// The phase after the backend reported that it is ready.
    ///
    /// Being empty counts from here, so a cold start is not shut straight back down while the
    /// waking player is still connecting.
    pub open spec fn booted(self, backend: SocketAddr, timeout: Duration, now: Instant) -> PhaseModel {
        match self {
            PhaseModel::Waking { .. } => PhaseModel::Running {
                relay: RelayModel::fresh(backend, timeout),
                empty_since: Some(now),
            },
            other => other,
        }
    }

    /// What is to be delivered when the backend reports that it is ready.
    pub open spec fn deliverable(self) -> HeldModel {
        match self {
            PhaseModel::Waking { held } => held,
            _ => HeldModel::empty(),
        }
    }

    /// The phase after a held datagram of a client was delivered.
    pub open spec fn delivered(self, from: SocketAddr, now: Instant) -> PhaseModel {
        match self {
            PhaseModel::Running { relay, empty_since } => PhaseModel::Running {
                relay: relay.heard(from, now),
                empty_since,
            },
            other => other,
        }
    }

    /// Nothing runs or is to run: asleep, or on the way there with nobody waiting.
    pub open spec fn winding_down(self) -> bool {
        self == PhaseModel::Sleeping || self == (PhaseModel::Stopping { held: HeldModel::empty() })
    }

    /// The phase after a session was opened for a client.
    pub open spec fn opened(self, client: SocketAddr, now: Instant) -> PhaseModel {
        match self {
            PhaseModel::Running { relay, empty_since } => PhaseModel::Running {
                relay: relay.opened(client, now),
                empty_since,
            },
            other => other,
        }
    }

    /// The clients with a session.
    pub open spec fn sessions(self) -> Set<SocketAddr> {
        match self {
            PhaseModel::Running { relay, .. } => relay.sessions.dom(),
            _ => Set::empty(),
        }
    }

    /// The phase after the backend could not be started.
    pub open spec fn start_failed(self) -> PhaseModel {
        match self {
            PhaseModel::Waking { .. } => PhaseModel::Sleeping,
            other => other,
        }
    }

    /// The phase after the decision to stop the backend, whatever it was doing.
    pub open spec fn halted(self) -> PhaseModel {
        match self {
            PhaseModel::Sleeping => PhaseModel::Sleeping,
            _ => PhaseModel::Stopping { held: HeldModel::empty() },
        }
    }

    /// The phase after the backend failed to boot.
    pub open spec fn boot_failed(self) -> PhaseModel {
        match self {
            PhaseModel::Waking { .. } => self.halted(),
            other => other,
        }
    }

    /// The phase after the backend is gone.
    pub open spec fn stopped(self) -> PhaseModel {
        match self {
            PhaseModel::Stopping { held } => if held == HeldModel::empty() {
                PhaseModel::Sleeping
            } else {
                PhaseModel::Waking { held }
            },
            other => other,
        }
    }

    /// Since when nobody has been playing, as of a check that found the relay like this.
    pub open spec fn empty_at(relay: RelayModel, empty_since: Option<Instant>, now: Instant) -> Option<
        Instant,
    > {
        if relay.sessions.dom().len() > 0 {
            None
        } else {
            match empty_since {
                Some(since) => Some(since),
                None => Some(now),
            }
        }
    }

    /// Why a check at `now` would stop the backend.
    pub open spec fn stop(self, exited: bool, idle_timeout: Duration, now: Instant) -> Option<Stop> {
        match self {
            PhaseModel::Running { relay, empty_since } => if exited {
                Some(Stop::BackendGone)
            } else {
                match PhaseModel::empty_at(relay.reaped(now), empty_since, now) {
                    Some(since) => if now.spec_since(since) >= idle_timeout.nanos {
                        Some(Stop::Idle)
                    } else {
                        None
                    },
                    None => None,
                }
            },
            _ => None,
        }
    }

    /// The phase after a check.
    pub open spec fn ticked(self, exited: bool, idle_timeout: Duration, now: Instant) -> PhaseModel {
        match self {
            PhaseModel::Running { relay, empty_since } => if self.stop(exited, idle_timeout, now)
                is Some {
                self.halted()
            } else {
                PhaseModel::Running {
                    relay: relay.reaped(now),
                    empty_since: PhaseModel::empty_at(relay.reaped(now), empty_since, now),
                }
            },
            other => other,
        }
    }
}

impl Phase {
    /// Whether this backend is answerable for a client.
    pub fn has_client(&self, client: SocketAddr) -> (yes: bool)
        ensures
            yes == self@.clients().contains(client),
    {
        match self {
            Phase::Sleeping => false,
            Phase::Waking { held } => held.contains(client),
            Phase::Running { relay, .. } => relay.has_session(client),
            Phase::Stopping { held } => held.contains(client),
        }
    }

    /// Take in one datagram.
    pub fn receive(&mut self, from: SocketAddr, datagram: &[u8], now: Instant) -> (fate: Fate)
        ensures
            fate == old(self)@.fate(from, datagram@),
            final(self)@ == old(self)@.received(from, datagram@, now),
    {
        match self {
            Phase::Sleeping => {
                let mut held = HeldInitials::new();
                if held.offer(from, datagram) {
                    *self = Phase::Waking { held };
                    Fate::Wake
                } else {
                    Fate::Ignore
                }
            },
            Phase::Waking { held } => {
                if held.offer(from, datagram) {
                    Fate::Hold
                } else {
                    Fate::Drop
                }
            },
            Phase::Running { relay, .. } => {
                let passage = relay.forward_to_backend(from, now);
                Fate::Relay { passage }
            },
            Phase::Stopping { held } => {
                if held.offer(from, datagram) {
                    Fate::Hold
                } else {
                    Fate::Drop
                }
            },
        }
    }

    /// The backend is ready: start relaying, and hand out what was held.
    pub fn booted(&mut self, backend: SocketAddr, timeout: Duration, now: Instant) -> (held: Vec<
        (SocketAddr, Vec<u8>),
    >)
        ensures
            final(self)@ == old(self)@.booted(backend, timeout, now),
            clients::as_map(datagrams(held@)) == old(self)@.deliverable(),
            held@.len() == old(self)@.deliverable().dom().len(),
    {
        let mut before = Phase::Sleeping;
        std::mem::swap(&mut before, self);
        match before {
            Phase::Waking { held } => {
                let relay = Relay::new(backend, timeout);
                *self = Phase::Running { relay, empty_since: Some(now) };
                held.into_entries()
            },
            other => {
                *self = other;
                HeldInitials::new().into_entries()
            },
        }
    }

    /// A session was opened for a client. Says whether there is a relay to keep it.
    pub fn opened(&mut self, client: SocketAddr, now: Instant) -> (kept: bool)
        ensures
            kept == (old(self)@ is Running),
            final(self)@ == old(self)@.opened(client, now),
    {
        match self {
            Phase::Running { relay, .. } => {
                relay.opened(client, now);
                true
            },
            _ => false,
        }
    }

    /// The backend could not be started: sleep again.
    pub fn start_failed(&mut self)
        ensures
            final(self)@ == old(self)@.start_failed(),
    {
        match self {
            Phase::Waking { .. } => {
                *self = Phase::Sleeping;
            },
            _ => {},
        }
    }

    /// The backend failed to boot: stop it. Says whether there is one to stop.
    pub fn boot_failed(&mut self) -> (stop: bool)
        ensures
            stop == (old(self)@ is Waking),
            final(self)@ == old(self)@.boot_failed(),
    {
        match self {
            Phase::Waking { .. } => {
                *self = Phase::Stopping { held: HeldInitials::new() };
                true
            },
            _ => false,
        }
    }

    /// Stop whatever runs. Says whether that is still to be done.
    pub fn halt(&mut self) -> (stop: bool)
        ensures
            stop == (old(self)@ is Waking || old(self)@ is Running),
            final(self)@ == old(self)@.halted(),
    {
        match self {
            Phase::Sleeping => false,
            Phase::Stopping { .. } => {
                *self = Phase::Stopping { held: HeldInitials::new() };
                false
            },
            _ => {
                *self = Phase::Stopping { held: HeldInitials::new() };
                true
            },
        }
    }

    /// The backend is gone. Says whether it is to be started again.
    pub fn stopped(&mut self) -> (wake: bool)
        ensures
            wake == (old(self)@ is Stopping && final(self)@ is Waking),
            final(self)@ == old(self)@.stopped(),
    {
        let mut before = Phase::Sleeping;
        std::mem::swap(&mut before, self);
        match before {
            Phase::Stopping { held } => {
                if held.is_empty() {
                    false
                } else {
                    *self = Phase::Waking { held };
                    true
                }
            },
            other => {
                *self = other;
                false
            },
        }
    }

    /// Check on the backend. Says which sessions were closed, and why it is to be stopped.
    pub fn tick(&mut self, exited: bool, idle_timeout: Duration, now: Instant) -> (outcome: (
        Vec<SocketAddr>,
        Option<Stop>,
    ))
        ensures
            final(self)@ == old(self)@.ticked(exited, idle_timeout, now),
            outcome.1 == old(self)@.stop(exited, idle_timeout, now),
            outcome.0@.no_duplicates(),
            forall|a: SocketAddr|
                outcome.0@.contains(a) <==> #[trigger] old(self)@.sessions().contains(a)
                    && !final(self)@.sessions().contains(a),
    {
        match self {
            Phase::Running { relay, empty_since } => {
                if exited {
                    let closed = relay.clear();
                    *self = Phase::Stopping { held: HeldInitials::new() };
                    return (closed, Some(Stop::BackendGone));
                }
                let (players, closed) = relay.reap_idle(now);
                if players > 0 {
                    *empty_since = None;
                    return (closed, None);
                }
                let since = match *empty_since {
                    Some(since) => since,
                    None => now,
                };
                if now.since(since).nanos >= idle_timeout.nanos {
                    *self = Phase::Stopping { held: HeldInitials::new() };
                    (closed, Some(Stop::Idle))
                } else {
                    *empty_since = Some(since);
                    (closed, None)
                }
            },
            _ => (Vec::new(), None),
        }
    }
}

/// Law: every event leaves a phase in order: no more Initials held than allowed, nothing held
/// but Initials, and never a wake with nobody waiting for it.
pub proof fn law_phases_stay_in_order(
    phase: PhaseModel,
    from: SocketAddr,
    datagram: Seq<u8>,
    now: Instant,
    backend: SocketAddr,
    timeout: Duration,
    exited: bool,
)
    requires
        phase.inv(),
    ensures
        phase.received(from, datagram, now).inv(),
        phase.booted(backend, timeout, now).inv(),
        phase.opened(from, now).inv(),
        phase.start_failed().inv(),
        phase.boot_failed().inv(),
        phase.halted().inv(),
        phase.stopped().inv(),
        phase.ticked(exited, timeout, now).inv(),
{
    assert forall|held: HeldModel| holdable(held) implies holdable(
        #[trigger] held_after(held, from, datagram),
    ) by {
        if held.contains_key(from) {
            assert(held.insert(from, datagram).dom() =~= held.dom());
        }
    }
    match phase {
        PhaseModel::Waking { held } => {
            assert(holdable(held_after(held, from, datagram)));
            if held.contains_key(from) {
                assert(held.insert(from, datagram).dom() =~= held.dom());
            }
        },
        PhaseModel::Stopping { held } => {
            assert(holdable(held_after(held, from, datagram)));
            if held.dom().len() == 0 {
                assert(held.dom() =~= Set::<SocketAddr>::empty());
                assert(held =~= HeldModel::empty());
            }
        },
        PhaseModel::Running { relay, .. } => {
            let kept = relay.reaped(now).sessions.dom();
            assert(kept =~= relay.sessions.dom().intersect(kept));
        },
        PhaseModel::Sleeping => {},
    }
    let one = HeldModel::empty().insert(from, datagram);
    assert(one.dom() =~= Set::<SocketAddr>::empty().insert(from));
}

/// Law: a sleeping backend is started by an Initial and by nothing else: no other datagram and no
/// other event moves it.
pub proof fn law_only_an_initial_wakes(
    from: SocketAddr,
    datagram: Seq<u8>,
    backend: SocketAddr,
    timeout: Duration,
    exited: bool,
    now: Instant,
)
    ensures
        ({
            let asleep = PhaseModel::Sleeping;
            &&& asleep.fate(from, datagram) == Fate::Wake <==> knock::is_knock(datagram)
            &&& asleep.received(from, datagram, now) is Waking <==> knock::is_knock(datagram)
            &&& !knock::is_knock(datagram) ==> asleep.received(from, datagram, now) == asleep
            &&& asleep.booted(backend, timeout, now) == asleep
            &&& asleep.opened(from, now) == asleep
            &&& asleep.start_failed() == asleep
            &&& asleep.boot_failed() == asleep
            &&& asleep.halted() == asleep
            &&& asleep.stopped() == asleep
            &&& asleep.ticked(exited, timeout, now) == asleep
        }),
{
}

/// Law: nothing reaches a backend that is not running.
pub proof fn law_only_a_running_backend_is_relayed_to(
    phase: PhaseModel,
    from: SocketAddr,
    datagram: Seq<u8>,
)
    ensures
        phase.fate(from, datagram) is Relay <==> phase is Running,
{
}

/// Law: the Initial that woke the backend, or the newest that its client sent since, is among
/// those delivered once it is ready; and every held client's newest Initial is the one delivered.
pub proof fn law_the_newest_initial_is_delivered(
    phase: PhaseModel,
    from: SocketAddr,
    datagram: Seq<u8>,
    other: SocketAddr,
    late: Seq<u8>,
    now: Instant,
)
    requires
        phase is Sleeping || phase is Waking,
        knock::is_knock(datagram),
        phase.fate(from, datagram) == Fate::Wake || phase.fate(from, datagram) == Fate::Hold,
    ensures
        ({
            let held = phase.received(from, datagram, now);
            let next = held.received(other, late, now);
            &&& held.deliverable().contains_key(from)
            &&& held.deliverable()[from] == datagram
            &&& next.deliverable().contains_key(from)
            &&& next.deliverable()[from] == (if other == from && knock::is_knock(late) {
                late
            } else {
                datagram
            })
        }),
{
}

/// Law: a failed wake leads back to sleep, from where the next Initial tries again.
pub proof fn law_a_failed_wake_sleeps_again(
    phase: PhaseModel,
    from: SocketAddr,
    datagram: Seq<u8>,
)
    requires
        phase is Waking,
        knock::is_knock(datagram),
    ensures
        phase.start_failed() == PhaseModel::Sleeping,
        phase.boot_failed().stopped() == PhaseModel::Sleeping,
        phase.start_failed().fate(from, datagram) == Fate::Wake,
{
}

/// Law: an Initial that arrives while the backend is going away is not lost: it starts the
/// backend again and is delivered then.
pub proof fn law_an_initial_survives_a_stop(
    phase: PhaseModel,
    from: SocketAddr,
    datagram: Seq<u8>,
    now: Instant,
)
    requires
        phase is Waking || phase is Running,
        knock::is_knock(datagram),
    ensures
        phase.halted().fate(from, datagram) == Fate::Hold,
        phase.halted().received(from, datagram, now).stopped() is Waking,
        phase.halted().received(from, datagram, now).stopped().deliverable()
            == HeldModel::empty().insert(from, datagram),
{
    let held = HeldModel::empty().insert(from, datagram);
    assert(held.contains_key(from));
    assert(held != HeldModel::empty());
}

/// Law: a backend is stopped for being idle only when every session has expired and it is on
/// record as empty since a moment at least the idle timeout ago.
pub proof fn law_idle_means_empty_for_long(
    phase: PhaseModel,
    idle_timeout: Duration,
    now: Instant,
)
    requires
        phase.stop(false, idle_timeout, now) == Some(Stop::Idle),
    ensures
        phase matches PhaseModel::Running { relay, empty_since } && {
            &&& relay.reaped(now).sessions.dom().len() == 0
            &&& match empty_since {
                Some(since) => now.spec_since(since) >= idle_timeout.nanos,
                None => idle_timeout.nanos == 0,
            }
        },
{
}

/// Law: while anybody is playing the backend is not stopped, and the idle clock starts over.
pub proof fn law_a_player_keeps_the_backend(
    relay: RelayModel,
    empty_since: Option<Instant>,
    client: SocketAddr,
    idle_timeout: Duration,
    now: Instant,
)
    requires
        relay.sessions.dom().finite(),
        relay.sessions.contains_key(client),
        now.spec_since(relay.sessions[client]) < relay.session_timeout.nanos,
    ensures
        ({
            let phase = PhaseModel::Running { relay, empty_since };
            &&& phase.stop(false, idle_timeout, now) is None
            &&& phase.ticked(false, idle_timeout, now) == PhaseModel::Running {
                relay: relay.reaped(now),
                empty_since: None,
            }
        }),
{
    let kept = relay.reaped(now).sessions.dom();
    assert(kept =~= relay.sessions.dom().intersect(kept));
    assert(kept.contains(client));
}

/// Law: a backend that has just booted is given the whole idle timeout before it is stopped for
/// being empty, and an empty one is stopped at the first check after that.
pub proof fn law_a_cold_start_has_its_grace(
    phase: PhaseModel,
    backend: SocketAddr,
    session_timeout: Duration,
    idle_timeout: Duration,
    ready: Instant,
    now: Instant,
)
    requires
        phase is Waking,
    ensures
        ({
            let running = phase.booted(backend, session_timeout, ready);
            running.stop(false, idle_timeout, now) == (if now.spec_since(ready)
                >= idle_timeout.nanos {
                Some(Stop::Idle)
            } else {
                None
            })
        }),
{
    let fresh = RelayModel::fresh(backend, session_timeout);
    assert(fresh.reaped(now).sessions =~= Map::<SocketAddr, Instant>::empty());
}

/// Law: once everybody has left, the backend is stopped at the first check that comes the idle
/// timeout or more after the check that found it empty, and at none before.
pub proof fn law_an_empty_backend_is_stopped_in_time(
    relay: RelayModel,
    idle_timeout: Duration,
    emptied: Instant,
    now: Instant,
)
    requires
        relay.reaped(emptied).sessions == Map::<SocketAddr, Instant>::empty(),
        idle_timeout.nanos > 0,
    ensures
        ({
            let running = PhaseModel::Running { relay, empty_since: None };
            let empty = running.ticked(false, idle_timeout, emptied);
            &&& running.stop(false, idle_timeout, emptied) is None
            &&& empty.stop(false, idle_timeout, now) == (if now.spec_since(emptied)
                >= idle_timeout.nanos {
                Some(Stop::Idle)
            } else {
                None
            })
        }),
{
    let emptied_relay = relay.reaped(emptied);
    assert(emptied_relay.reaped(now).sessions =~= Map::<SocketAddr, Instant>::empty());
}

/// The phase after a run of checks that find the backend alive.
pub open spec fn checked(phase: PhaseModel, idle_timeout: Duration, checks: Seq<Instant>) -> PhaseModel
    decreases checks.len(),
{
    if checks.len() == 0 {
        phase
    } else {
        checked(phase, idle_timeout, checks.drop_last()).ticked(
            false,
            idle_timeout,
            checks.last(),
        )
    }
}

/// Instants that follow one another.
pub open spec fn in_sequence(instants: Seq<Instant>) -> bool {
    forall|i: int, j: int|
        0 <= i <= j < instants.len() ==> (#[trigger] instants[i]).nanos <= (
        #[trigger] instants[j]).nanos
}

/// Every session there is has gone quiet by then.
pub open spec fn deserted(relay: RelayModel, now: Instant) -> bool {
    forall|a: SocketAddr| #[trigger]
        relay.sessions.contains_key(a) ==> now.nanos >= relay.sessions[a].nanos
            + relay.session_timeout.nanos
}

/// A deserted relay has nobody left after a check, then or later.
proof fn lemma_deserted(relay: RelayModel, now: Instant, later: Instant)
    requires
        deserted(relay, now),
        now.nanos <= later.nanos,
    ensures
        relay.reaped(later) == relay.cleared(),
        relay.reaped(later).sessions.dom().len() == 0,
{
    assert forall|a: SocketAddr| !relay.reaped(later).sessions.contains_key(a) by {
        if relay.sessions.contains_key(a) {
            assert(now.nanos >= relay.sessions[a].nanos + relay.session_timeout.nanos);
        }
    }
    assert(relay.reaped(later).sessions =~= Map::<SocketAddr, Instant>::empty());
    assert(relay.reaped(later) =~= relay.cleared());
}

/// Law: a spell without players has one beginning, and the idle timeout counts from there. It is
/// the instant on record, which is the boot or an earlier check, or else the first check that
/// finds nobody. However many checks follow, and however close together, none before the timeout
/// is over stops the backend or moves that instant, and the first one after it stops it.
pub proof fn law_a_spell_without_players_has_one_beginning(
    relay: RelayModel,
    empty_since: Option<Instant>,
    idle_timeout: Duration,
    begun: Instant,
    checks: Seq<Instant>,
    now: Instant,
)
    requires
        in_sequence(seq![begun] + checks + seq![now]),
        match empty_since {
            Some(since) => begun == since,
            None => begun == (checks + seq![now])[0],
        },
        deserted(relay, (checks + seq![now])[0]),
        forall|i: int|
            0 <= i < checks.len() ==> (#[trigger] checks[i]).nanos < begun.nanos
                + idle_timeout.nanos,
    ensures
        ({
            let phase = PhaseModel::Running { relay, empty_since };
            let before = checked(phase, idle_timeout, checks);
            &&& checks.len() > 0 ==> (before matches PhaseModel::Running {
                relay: left,
                empty_since: since,
            } && since == Some(begun) && left.sessions == Map::<SocketAddr, Instant>::empty()
                && left.backend == relay.backend && left.session_timeout
                == relay.session_timeout)
            &&& now.nanos >= begun.nanos + idle_timeout.nanos ==> {
                &&& before.stop(false, idle_timeout, now) == Some(Stop::Idle)
                &&& before.ticked(false, idle_timeout, now) == (PhaseModel::Stopping {
                    held: HeldModel::empty(),
                })
            }
            &&& now.nanos < begun.nanos + idle_timeout.nanos ==> {
                &&& before.stop(false, idle_timeout, now) is None
                &&& (before.ticked(false, idle_timeout, now) matches PhaseModel::Running {
                    empty_since: since,
                    ..
                } && since == Some(begun))
            }
        }),
    decreases checks.len(),
{
    let all = seq![begun] + checks + seq![now];
    let first = (checks + seq![now])[0];
    assert(all[0] == begun && all[1] == first && all[all.len() - 1] == now);
    assert(begun.nanos <= first.nanos <= now.nanos);
    let phase = PhaseModel::Running { relay, empty_since };
    if checks.len() > 0 {
        let earlier = checks.drop_last();
        let last = checks.last();
        assert(all[all.len() - 2] == last);
        let part = seq![begun] + earlier + seq![last];
        assert(part =~= all.drop_last());
        assert((earlier + seq![last])[0] == first);
        assert forall|i: int| 0 <= i < earlier.len() implies (#[trigger] earlier[i]).nanos
            < begun.nanos + idle_timeout.nanos by {
            assert(checks[i] == earlier[i]);
        }
        assert(in_sequence(part));
        assert(checks[checks.len() - 1].nanos < begun.nanos + idle_timeout.nanos);
        law_a_spell_without_players_has_one_beginning(
            relay,
            empty_since,
            idle_timeout,
            begun,
            earlier,
            last,
        );
        let before = checked(phase, idle_timeout, earlier);
        lemma_deserted(relay, first, last);
        let left = relay.cleared();
        assert(deserted(left, last));
        lemma_deserted(left, last, last);
        assert(last.nanos <= now.nanos);
        lemma_deserted(left, last, now);
        assert(checked(phase, idle_timeout, checks) == (PhaseModel::Running {
            relay: left,
            empty_since: Some(begun),
        }));
    } else {
        lemma_deserted(relay, first, now);
    }
}

/// Law: a backend counts as empty from its boot on, however often it is checked before a player
/// comes: it is stopped at the first check that comes the idle timeout or more after the boot, and
/// at none before.
pub proof fn law_a_boot_nobody_follows_up_is_undone(
    held: HeldModel,
    backend: SocketAddr,
    session_timeout: Duration,
    idle_timeout: Duration,
    ready: Instant,
    checks: Seq<Instant>,
    now: Instant,
)
    requires
        in_sequence(seq![ready] + checks + seq![now]),
        forall|i: int|
            0 <= i < checks.len() ==> (#[trigger] checks[i]).nanos < ready.nanos
                + idle_timeout.nanos,
    ensures
        checked(
            PhaseModel::Waking { held }.booted(backend, session_timeout, ready),
            idle_timeout,
            checks,
        ).stop(false, idle_timeout, now) == (if now.nanos >= ready.nanos + idle_timeout.nanos {
            Some(Stop::Idle)
        } else {
            None
        }),
{
    let relay = RelayModel::fresh(backend, session_timeout);
    law_a_spell_without_players_has_one_beginning(
        relay,
        Some(ready),
        idle_timeout,
        ready,
        checks,
        now,
    );
}

/// Law: a check that finds a player leaves no beginning on record, and closes no session but those
/// that have gone quiet.
pub proof fn law_a_player_ends_the_spell(
    relay: RelayModel,
    empty_since: Option<Instant>,
    player: SocketAddr,
    idle_timeout: Duration,
    now: Instant,
)
    requires
        relay.sessions.dom().finite(),
        relay.sessions.contains_key(player),
        now.nanos < relay.sessions[player].nanos + relay.session_timeout.nanos,
        relay.session_timeout.nanos > 0,
    ensures
        ({
            let phase = PhaseModel::Running { relay, empty_since };
            &&& phase.stop(false, idle_timeout, now) is None
            &&& (phase.ticked(false, idle_timeout, now) matches PhaseModel::Running {
                relay: left,
                empty_since: since,
            } && since is None && left.sessions.contains_key(player) && left.sessions[player]
                == relay.sessions[player] && left.backend == relay.backend
                && left.session_timeout == relay.session_timeout && forall|a: SocketAddr|
                #[trigger] left.sessions.contains_key(a) <==> relay.sessions.contains_key(a)
                    && now.nanos < relay.sessions[a].nanos + relay.session_timeout.nanos)
        }),
{
    law_a_player_keeps_the_backend(relay, empty_since, player, idle_timeout, now);
}

/// Law: a backend that has exited is given up at the check that notices, whoever plays; and a
/// check concerns nothing but a running backend.
pub proof fn law_an_exit_is_noticed(
    phase: PhaseModel,
    exited: bool,
    idle_timeout: Duration,
    now: Instant,
)
    ensures
        phase is Running ==> phase.stop(true, idle_timeout, now) == Some(Stop::BackendGone)
            && phase.ticked(true, idle_timeout, now) == (PhaseModel::Stopping {
            held: HeldModel::empty(),
        }),
        !(phase is Running) ==> phase.stop(exited, idle_timeout, now) is None && phase.ticked(
            exited,
            idle_timeout,
            now,
        ) == phase,
{
}

/// Law: while a backend wakes or goes away, an Initial is held if its client is already or if fewer
/// than eight are; then it takes the place of that client's earlier one, and what others have held
/// stays. Everything else is lost and changes nothing.
pub proof fn law_eight_clients_are_held(
    held: HeldModel,
    stopping: bool,
    from: SocketAddr,
    datagram: Seq<u8>,
    now: Instant,
    other: SocketAddr,
)
    ensures
        ({
            let phase = if stopping {
                PhaseModel::Stopping { held }
            } else {
                PhaseModel::Waking { held }
            };
            let room = held.contains_key(from) || held.dom().len() < 8;
            let after = phase.received(from, datagram, now);
            &&& after is Stopping == stopping && after is Waking == !stopping
            &&& knock::is_knock(datagram) && room ==> {
                &&& phase.fate(from, datagram) == Fate::Hold
                &&& after.clients() == held.dom().insert(from)
                &&& (after matches PhaseModel::Waking { held: kept } ==> kept[from] == datagram && (
                other != from ==> kept[other] == held[other]))
                &&& (after matches PhaseModel::Stopping { held: kept } ==> kept[from] == datagram
                    && (other != from ==> kept[other] == held[other]))
            }
            &&& !(knock::is_knock(datagram) && room) ==> phase.fate(from, datagram) == Fate::Drop
                && after == phase
        }),
{
    assert(held.insert(from, datagram).dom() =~= held.dom().insert(from));
}

/// Law: the Initial that wakes a backend is held, and nothing else is.
pub proof fn law_a_wake_holds_its_initial(from: SocketAddr, datagram: Seq<u8>, now: Instant)
    requires
        knock::is_knock(datagram),
    ensures
        PhaseModel::Sleeping.fate(from, datagram) == Fate::Wake,
        PhaseModel::Sleeping.received(from, datagram, now) matches PhaseModel::Waking { held }
            && held.dom() == set![from] && held[from] == datagram,
{
    assert(HeldModel::empty().insert(from, datagram).dom() =~= set![from]);
}

/// Law: whatever a running backend's clients send is relayed, through the session of the sender if
/// there is one, and that leaves the idle clock as it is. No datagram opens or closes a session.
pub proof fn law_traffic_leaves_the_idle_clock(
    relay: RelayModel,
    empty_since: Option<Instant>,
    from: SocketAddr,
    datagram: Seq<u8>,
    now: Instant,
)
    ensures
        ({
            let phase = PhaseModel::Running { relay, empty_since };
            let after = phase.received(from, datagram, now);
            &&& phase.fate(from, datagram) == (Fate::Relay { passage: relay.passage(from) })
            &&& phase.delivered(from, now) == after
            &&& (after matches PhaseModel::Running { relay: left, empty_since: since } && since
                == empty_since && left.backend == relay.backend && left.session_timeout
                == relay.session_timeout && left.sessions.dom() == relay.sessions.dom() && (
            forall|a: SocketAddr| #[trigger]
                relay.sessions.contains_key(a) ==> left.sessions[a] == (if a == from {
                    now
                } else {
                    relay.sessions[a]
                })))
        }),
{
    assert(relay.heard(from, now).sessions.dom() =~= relay.sessions.dom());
}

/// Law: a boot starts an empty relay to the given backend and empties the hold; it concerns only
/// a backend that wakes.
pub proof fn law_a_boot_starts_afresh(
    phase: PhaseModel,
    backend: SocketAddr,
    timeout: Duration,
    now: Instant,
)
    ensures
        phase matches PhaseModel::Waking { held } ==> phase.deliverable() == held && (phase.booted(
            backend,
            timeout,
            now,
        ) matches PhaseModel::Running { relay, empty_since } && relay.backend == backend
            && relay.session_timeout == timeout && relay.sessions == Map::<
            SocketAddr,
            Instant,
        >::empty() && empty_since == Some(now)),
        !(phase is Waking) ==> phase.booted(backend, timeout, now) == phase && phase.deliverable()
            == HeldModel::empty(),
{
}

/// Law: a session is opened where a backend runs, as of now, beside those that are there; the idle
/// clock is left for the next check. Elsewhere nothing is opened or delivered.
pub proof fn law_sessions_are_opened_side_by_side(
    phase: PhaseModel,
    client: SocketAddr,
    now: Instant,
)
    ensures
        phase matches PhaseModel::Running { relay, empty_since } ==> (phase.opened(client, now)
            matches PhaseModel::Running { relay: more, empty_since: since } && since == empty_since
            && more.backend == relay.backend && more.session_timeout == relay.session_timeout
            && more.sessions == relay.sessions.insert(client, now)),
        !(phase is Running) ==> phase.opened(client, now) == phase && phase.delivered(client, now)
            == phase,
{
}

/// Law: giving up on a backend lets go of everything: one that could not be started sleeps, one
/// that failed to boot or is told to stop goes away with nobody waiting, and one that is gone
/// sleeps unless somebody waits, for whom it wakes with the same Initials held.
pub proof fn law_giving_up_lets_go(phase: PhaseModel)
    ensures
        phase is Waking ==> phase.start_failed() == PhaseModel::Sleeping && phase.boot_failed() == (
        PhaseModel::Stopping { held: HeldModel::empty() }),
        !(phase is Waking) ==> phase.start_failed() == phase && phase.boot_failed() == phase,
        phase is Sleeping ==> phase.halted() == phase,
        !(phase is Sleeping) ==> phase.halted() == (PhaseModel::Stopping {
            held: HeldModel::empty(),
        }),
        phase matches PhaseModel::Stopping { held } ==> if forall|a: SocketAddr|
            !(#[trigger] held.contains_key(a)) {
            phase.stopped() == PhaseModel::Sleeping
        } else {
            phase.stopped() == (PhaseModel::Waking { held })
        },
        !(phase is Stopping) ==> phase.stopped() == phase,
{
    if let PhaseModel::Stopping { held } = phase {
        if forall|a: SocketAddr| !(#[trigger] held.contains_key(a)) {
            assert(held =~= HeldModel::empty());
        }
    }
}

/// Law: a backend is answerable for those it holds an Initial of and for those with a session, and
/// sessions are only where it runs.
pub proof fn law_who_belongs_to_a_backend(phase: PhaseModel, client: SocketAddr)
    ensures
        phase.clients().contains(client) <==> match phase {
            PhaseModel::Sleeping => false,
            PhaseModel::Waking { held } => held.contains_key(client),
            PhaseModel::Running { relay, .. } => relay.sessions.contains_key(client),
            PhaseModel::Stopping { held } => held.contains_key(client),
        },
        phase.sessions().contains(client) <==> phase is Running && phase.clients().contains(client),
{
}

/// Law: a list of datagrams is read in its order, each with its client and all of its bytes.
pub proof fn law_datagrams_are_handed_out_whole(entries: Seq<(SocketAddr, Vec<u8>)>, i: int)
    requires
        0 <= i < entries.len(),
    ensures
        datagrams(entries).len() == entries.len(),
        datagrams(entries)[i].0 == entries[i].0,
        datagrams(entries)[i].1 == entries[i].1@,
{
}

} // verus!
