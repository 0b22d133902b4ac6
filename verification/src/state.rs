//! The proxy as a whole: one public port, and one lifecycle for each configured backend.
//!
//! One socket serves every state, so the public port is never released. A client's first Initial
//! chooses a backend by the name in its ClientHello; from then on its address belongs to that
//! backend for as long as it is held there or has a session.

use crate::address::SocketAddr;
use crate::clients;
use crate::config::{self, Config, ConfigModel};
use crate::knock;
use crate::phase::{self, Fate, Phase, PhaseModel, Stop};
use crate::relay::{Passage, RelayModel};
use crate::routes::{self, BackendConfig, Routes, RoutesModel};
use crate::sni::{self, peek_server_name};
use crate::time::Instant;
use vstd::prelude::*;

verus! {

/// How often, in seconds, every backend is checked for expired sessions, idleness and exit.
pub const TICK_SECS: u64 = 5;

/// The proxy's state.
#[derive(Debug)]
pub struct Proxy {
    config: Config,
    routes: Routes,
    phases: Vec<Phase>,
}

/// What a [`Proxy`] knows: its configuration, the routes made from it, and for each backend, the
/// default one first, where it is in its lifecycle.
#[verifier::ext_equal]
pub struct ProxyModel {
    pub config: ConfigModel,
    pub routes: RoutesModel,
    pub phases: Seq<PhaseModel>,
}

/// What became of a datagram, and which backend it was for.
#[derive(Debug, Clone, Copy, PartialEq, Eq, Structural)]
pub struct Action {
    pub slot: usize,
    pub fate: Fate,
}

/// What the phases know.
pub open spec fn phase_models(phases: Seq<Phase>) -> Seq<PhaseModel> {
    phases.map_values(|p: Phase| p@)
}

impl View for Proxy {
    type V = ProxyModel;

    closed spec fn view(&self) -> ProxyModel {
        ProxyModel {
            config: self.config@,
            routes: self.routes@,
            phases: phase_models(self.phases@),
        }
    }
}

/// The first backend, from the `i`th on, that is answerable for a client.
pub open spec fn owner_from(phases: Seq<PhaseModel>, client: SocketAddr, i: int) -> Option<int>
    decreases phases.len() - i,
{
    if i >= phases.len() {
        None
    } else if phases[i].clients().contains(client) {
        Some(i)
    } else {
        owner_from(phases, client, i + 1)
    }
}

/// No client belongs to two backends.
pub open spec fn apart(phases: Seq<PhaseModel>) -> bool {
    forall|i: int, j: int, a: SocketAddr|
        0 <= i < j < phases.len() && #[trigger] phases[i].clients().contains(a) ==> !(
        #[trigger] phases[j].clients().contains(a))
}

impl ProxyModel {
    /// The backend that a client belongs to.
    pub open spec fn owner(self, client: SocketAddr) -> Option<int> {
        owner_from(self.phases, client, 0)
    }

    /// The backend a datagram is for: the one its sender belongs to, else the one it names.
    pub open spec fn slot(self, from: SocketAddr, name: Option<Seq<char>>) -> int {
        match self.owner(from) {
            Some(i) => i,
            None => self.routes.slot(name),
        }
    }

    /// A backend runs with its own address and the configured session timeout.
    pub open spec fn faithful(self, i: int) -> bool {
        self.phases[i] matches PhaseModel::Running { relay, .. } ==> {
            &&& relay.backend == self.routes.backends()[i].backend
            &&& relay.session_timeout == self.config.session_timeout
        }
    }

    /// What holds of a proxy at all times.
    pub open spec fn inv(self) -> bool {
        &&& config::routed(self.config, self.routes)
        &&& self.phases.len() == self.routes.backends().len()
        &&& forall|i: int| 0 <= i < self.phases.len() ==> (#[trigger] self.phases[i]).inv()
        &&& forall|i: int| 0 <= i < self.phases.len() ==> #[trigger] self.faithful(i)
        &&& apart(self.phases)
    }

    /// The proxy with one backend in another phase.
    pub open spec fn with(self, slot: int, phase: PhaseModel) -> ProxyModel {
        ProxyModel { phases: self.phases.update(slot, phase), ..self }
    }

    /// The proxy after a datagram that offers `name`.
    pub open spec fn received(
        self,
        from: SocketAddr,
        datagram: Seq<u8>,
        name: Option<Seq<char>>,
        now: Instant,
    ) -> ProxyModel {
        let slot = self.slot(from, name);
        self.with(slot, self.phases[slot].received(from, datagram, now))
    }

    /// What becomes of a datagram that offers `name`.
    pub open spec fn fate(
        self,
        from: SocketAddr,
        datagram: Seq<u8>,
        name: Option<Seq<char>>,
    ) -> Fate {
        self.phases[self.slot(from, name)].fate(from, datagram)
    }

    /// Whether a session of a client may be opened at a backend.
    pub open spec fn may_open(self, slot: int, client: SocketAddr) -> bool {
        self.phases[slot] is Running && (self.owner(client) is None || self.owner(client) == Some(
            slot,
        ))
    }

    /// The proxy after everything is told to stop.
    pub open spec fn shut_down(self) -> ProxyModel {
        ProxyModel { phases: self.phases.map_values(|p: PhaseModel| p.halted()), ..self }
    }
}

/// What `owner_from` finds.
pub proof fn lemma_owner(phases: Seq<PhaseModel>, client: SocketAddr, i: int)
    requires
        0 <= i,
    ensures
        match owner_from(phases, client, i) {
            Some(k) => i <= k < phases.len() && phases[k].clients().contains(client),
            None => forall|k: int|
                i <= k < phases.len() ==> !(#[trigger] phases[k].clients().contains(client)),
        },
    decreases phases.len() - i,
{
    if i < phases.len() && !phases[i].clients().contains(client) {
        lemma_owner(phases, client, i + 1);
    }
}

/// Putting one backend in another phase keeps the proxy in order, as long as it takes on no
/// client that belongs to another.
proof fn lemma_with(m: ProxyModel, slot: int, next: PhaseModel, client: SocketAddr)
    requires
        m.inv(),
        0 <= slot < m.phases.len(),
        next.inv(),
        m.with(slot, next).faithful(slot),
        forall|a: SocketAddr| #[trigger]
            next.clients().contains(a) ==> m.phases[slot].clients().contains(a) || (a == client
                && (m.owner(client) is None || m.owner(client) == Some(slot))),
    ensures
        m.with(slot, next).inv(),
{
    let after = m.with(slot, next);
    lemma_owner(m.phases, client, 0);
    assert forall|i: int| 0 <= i < after.phases.len() implies #[trigger] after.faithful(i) by {
        assert(m.faithful(i));
    }
    assert forall|i: int| 0 <= i < after.phases.len() implies (#[trigger] after.phases[i]).inv() by {
        assert(m.phases[i].inv());
    }
    assert forall|i: int, j: int, a: SocketAddr|
        0 <= i < j < after.phases.len() && #[trigger] after.phases[i].clients().contains(
            a,
        ) implies !(#[trigger] after.phases[j].clients().contains(a)) by {
        if after.phases[j].clients().contains(a) {
            if i == slot {
                assert(m.phases[j].clients().contains(a));
                assert(m.phases[slot].clients().contains(a));
            } else if j == slot {
                assert(m.phases[i].clients().contains(a));
                assert(m.phases[slot].clients().contains(a));
            } else {
                assert(m.phases[i].clients().contains(a));
                assert(m.phases[j].clients().contains(a));
            }
        }
    }
}

impl Proxy {
    pub fn new(config: Config) -> (proxy: Proxy)
        ensures
            proxy@.inv(),
            proxy@.config == config@,
            forall|i: int|
                0 <= i < proxy@.phases.len() ==> #[trigger] proxy@.phases[i]
                    == PhaseModel::Sleeping,
    {
        let routes = config.routes();
        let mut phases: Vec<Phase> = Vec::new();
        phases.push(Phase::Sleeping);
        let mut i: usize = 0;
        while i < routes.table.len()
            invariant
                i <= routes@.table.len(),
                phases@.len() == 1 + i,
                forall|k: int| 0 <= k <= i ==> #[trigger] phases@[k] == Phase::Sleeping,
            decreases routes@.table.len() - i,
        {
            phases.push(Phase::Sleeping);
            i = i + 1;
        }
        let proxy = Proxy { config, routes, phases };
        proof {
            assert forall|k: int| 0 <= k < proxy@.phases.len() implies #[trigger] proxy@.phases[k]
                == PhaseModel::Sleeping by {
                assert(proxy.phases@[k] == Phase::Sleeping);
            }
        }
        proxy
    }

    /// How many backends there are.
    pub fn slots(&self) -> (n: usize)
        ensures
            n == self@.phases.len(),
    {
        self.phases.len()
    }

    /// The configuration the proxy was made with.
    pub fn config(&self) -> (config: &Config)
        ensures
            config@ == self@.config,
    {
        &self.config
    }

    /// The configuration of a backend.
    pub fn backend(&self, slot: usize) -> (backend: &BackendConfig)
        requires
            self@.inv(),
            slot < self@.phases.len(),
        ensures
            backend@ == self@.routes.backends()[slot as int],
    {
        self.routes.backend(slot)
    }

    /// The backend that a client belongs to.
    pub fn owner(&self, client: SocketAddr) -> (slot: Option<usize>)
        ensures
            match slot {
                Some(i) => self@.owner(client) == Some(i as int),
                None => self@.owner(client) is None,
            },
    {
        let mut i: usize = 0;
        while i < self.phases.len()
            invariant
                i <= self.phases@.len(),
                self@.owner(client) == owner_from(self@.phases, client, i as int),
            decreases self.phases@.len() - i,
        {
            if self.phases[i].has_client(client) {
                return Some(i);
            }
            i = i + 1;
        }
        None
    }

    /// Take in one datagram from the public port.
    ///
    /// The name in the ClientHello is read only when the sender belongs to no backend yet.
    pub fn receive(&mut self, from: SocketAddr, datagram: &[u8], now: Instant) -> (action: Action)
        requires
            old(self)@.inv(),
        ensures
            final(self)@.inv(),
            final(self)@ == old(self)@.received(
                from,
                datagram@,
                sni::server_name(datagram@),
                now,
            ),
            action.slot == old(self)@.slot(from, sni::server_name(datagram@)),
            action.fate == old(self)@.fate(from, datagram@, sni::server_name(datagram@)),
    {
        if self.owner(from).is_some() {
            return self.receive_named(from, datagram, None, now);
        }
        match peek_server_name(datagram) {
            Some(name) => self.receive_named(from, datagram, Some(name.as_str()), now),
            None => self.receive_named(from, datagram, None, now),
        }
    }

    /// Take in one datagram whose ClientHello offers the given name.
    pub fn receive_named(
        &mut self,
        from: SocketAddr,
        datagram: &[u8],
        name: Option<&str>,
        now: Instant,
    ) -> (action: Action)
        requires
            old(self)@.inv(),
        ensures
            final(self)@.inv(),
            final(self)@ == old(self)@.received(from, datagram@, routes::text_of(name), now),
            action.slot == old(self)@.slot(from, routes::text_of(name)),
            action.fate == old(self)@.fate(from, datagram@, routes::text_of(name)),
    {
        let slot = match self.owner(from) {
            Some(i) => i,
            None => self.routes.slot(name),
        };
        proof {
            lemma_owner(self@.phases, from, 0);
            law_the_proxy_stays_in_order(self@, slot as int, from, datagram@, false, now);
        }
        let fate = self.phases[slot].receive(from, datagram, now);
        proof {
            assert(self@.phases =~= old(self)@.phases.update(
                slot as int,
                old(self)@.phases[slot as int].received(from, datagram@, now),
            ));
        }
        Action { slot, fate }
    }
}

impl Proxy {
    /// A backend is ready: relay to it from now on. Hands out the Initials that waited for it.
    pub fn booted(&mut self, slot: usize, now: Instant) -> (held: Vec<(SocketAddr, Vec<u8>)>)
        requires
            old(self)@.inv(),
            slot < old(self)@.phases.len(),
        ensures
            final(self)@.inv(),
            final(self)@ == old(self)@.with(
                slot as int,
                old(self)@.phases[slot as int].booted(
                    old(self)@.routes.backends()[slot as int].backend,
                    old(self)@.config.session_timeout,
                    now,
                ),
            ),
            clients::as_map(phase::datagrams(held@)) == old(self)@.phases[slot as int].deliverable(),
            held@.len() == old(self)@.phases[slot as int].deliverable().dom().len(),
    {
        let backend = self.routes.backend(slot).backend;
        let timeout = self.config.session_timeout;
        let ghost next = self@.phases[slot as int].booted(backend, timeout, now);
        proof {
            law_the_proxy_stays_in_order(self@, slot as int, backend, Seq::empty(), false, now);
        }
        let held = self.phases[slot].booted(backend, timeout, now);
        proof {
            assert(self@.phases =~= old(self)@.phases.update(slot as int, next));
        }
        held
    }

    /// Deliver a held Initial to the backend it waited for. Says how it travels, if the backend
    /// is running.
    pub fn deliver(&mut self, slot: usize, from: SocketAddr, now: Instant) -> (passage: Option<
        Passage,
    >)
        requires
            old(self)@.inv(),
            slot < old(self)@.phases.len(),
        ensures
            final(self)@.inv(),
            passage == match old(self)@.phases[slot as int] {
                PhaseModel::Running { relay, .. } => Some(relay.passage(from)),
                _ => None,
            },
            final(self)@ == old(self)@.with(
                slot as int,
                old(self)@.phases[slot as int].delivered(from, now),
            ),
    {
        let ghost next = self@.phases[slot as int].delivered(from, now);
        proof {
            law_the_proxy_stays_in_order(self@, slot as int, from, Seq::empty(), false, now);
        }
        let passage = match &mut self.phases[slot] {
            Phase::Running { relay, .. } => Some(relay.forward_to_backend(from, now)),
            _ => None,
        };
        proof {
            assert(self@.phases =~= old(self)@.phases.update(slot as int, next));
        }
        passage
    }

    /// Whether a backend is being relayed to.
    pub fn is_running(&self, slot: usize) -> (yes: bool)
        requires
            slot < self@.phases.len(),
        ensures
            yes == (self@.phases[slot as int] is Running),
    {
        matches!(self.phases[slot], Phase::Running { .. })
    }

    /// A socket towards a backend was bound for a client. Says whether the session stands: not
    /// if the backend is no longer running or the client belongs to another by now.
    pub fn opened(&mut self, slot: usize, client: SocketAddr, now: Instant) -> (kept: bool)
        requires
            old(self)@.inv(),
            slot < old(self)@.phases.len(),
        ensures
            final(self)@.inv(),
            kept == old(self)@.may_open(slot as int, client),
            final(self)@ == (if kept {
                old(self)@.with(slot as int, old(self)@.phases[slot as int].opened(client, now))
            } else {
                old(self)@
            }),
            kept <==> old(self)@.phases[slot as int] is Running && forall|k: int|
                0 <= k < old(self)@.phases.len() && k != slot ==> !(#[trigger] old(self)@.phases[k].clients().contains(client)),
            kept ==> final(self)@.owner(client) == Some(slot as int),
    {
        proof {
            law_a_session_opens_beside_any_others(self@, slot as int, client, now, 0, client);
            law_a_session_of_another_backend_is_refused(self@, slot as int, client, now);
        }
        if let Some(owner) = self.owner(client) {
            if owner != slot {
                return false;
            }
        }
        let ghost next = self@.phases[slot as int].opened(client, now);
        proof {
            law_the_proxy_stays_in_order(self@, slot as int, client, Seq::empty(), false, now);
        }
        let kept = self.phases[slot].opened(client, now);
        proof {
            assert(self@.phases =~= old(self)@.phases.update(slot as int, next));
            if !kept {
                assert(self@.phases =~= old(self)@.phases);
            }
        }
        kept
    }

    /// A backend could not be started: it sleeps again.
    pub fn start_failed(&mut self, slot: usize)
        requires
            old(self)@.inv(),
            slot < old(self)@.phases.len(),
        ensures
            final(self)@.inv(),
            final(self)@ == old(self)@.with(
                slot as int,
                old(self)@.phases[slot as int].start_failed(),
            ),
    {
        let ghost next = self@.phases[slot as int].start_failed();
        proof {
            law_the_proxy_stays_in_order(
                self@,
                slot as int,
                self.config.listen,
                Seq::empty(),
                false,
                Instant { nanos: 0 },
            );
        }
        self.phases[slot].start_failed();
        proof {
            assert(self@.phases =~= old(self)@.phases.update(slot as int, next));
        }
    }

    /// A backend failed to boot. Says whether it is to be stopped.
    pub fn boot_failed(&mut self, slot: usize) -> (stop: bool)
        requires
            old(self)@.inv(),
            slot < old(self)@.phases.len(),
        ensures
            final(self)@.inv(),
            stop == (old(self)@.phases[slot as int] is Waking),
            final(self)@ == old(self)@.with(
                slot as int,
                old(self)@.phases[slot as int].boot_failed(),
            ),
    {
        let ghost next = self@.phases[slot as int].boot_failed();
        proof {
            law_the_proxy_stays_in_order(
                self@,
                slot as int,
                self.config.listen,
                Seq::empty(),
                false,
                Instant { nanos: 0 },
            );
        }
        let stop = self.phases[slot].boot_failed();
        proof {
            assert(self@.phases =~= old(self)@.phases.update(slot as int, next));
        }
        stop
    }

    /// A backend is gone. Says whether it is to be started again.
    pub fn stopped(&mut self, slot: usize) -> (wake: bool)
        requires
            old(self)@.inv(),
            slot < old(self)@.phases.len(),
        ensures
            final(self)@.inv(),
            wake == (old(self)@.phases[slot as int] is Stopping && final(self)@.phases[slot as int]
                is Waking),
            final(self)@ == old(self)@.with(
                slot as int,
                old(self)@.phases[slot as int].stopped(),
            ),
    {
        let ghost next = self@.phases[slot as int].stopped();
        proof {
            law_the_proxy_stays_in_order(
                self@,
                slot as int,
                self.config.listen,
                Seq::empty(),
                false,
                Instant { nanos: 0 },
            );
        }
        let wake = self.phases[slot].stopped();
        proof {
            assert(self@.phases =~= old(self)@.phases.update(slot as int, next));
        }
        wake
    }

    /// Check on a backend, given whether it has exited. Says which sessions were closed, and why
    /// it is to be stopped, if it is.
    pub fn tick(&mut self, slot: usize, exited: bool, now: Instant) -> (outcome: (
        Vec<SocketAddr>,
        Option<Stop>,
    ))
        requires
            old(self)@.inv(),
            slot < old(self)@.phases.len(),
        ensures
            final(self)@.inv(),
            final(self)@ == old(self)@.with(
                slot as int,
                old(self)@.phases[slot as int].ticked(exited, old(self)@.config.idle_timeout, now),
            ),
            outcome.1 == old(self)@.phases[slot as int].stop(
                exited,
                old(self)@.config.idle_timeout,
                now,
            ),
            outcome.0@.no_duplicates(),
            forall|a: SocketAddr|
                outcome.0@.contains(a) <==> #[trigger] old(self)@.phases[slot as int].sessions().contains(a) && !final(self)@.phases[slot as int].sessions().contains(a),
    {
        let idle_timeout = self.config.idle_timeout;
        let ghost next = self@.phases[slot as int].ticked(exited, idle_timeout, now);
        proof {
            law_the_proxy_stays_in_order(
                self@,
                slot as int,
                self.config.listen,
                Seq::empty(),
                exited,
                now,
            );
        }
        let outcome = self.phases[slot].tick(exited, idle_timeout, now);
        proof {
            assert(self@.phases =~= old(self)@.phases.update(slot as int, next));
            assert(self@.phases[slot as int] == next);
        }
        outcome
    }

    /// The proxy is shutting down: every backend is to end, and what is held is let go. Says which
    /// backends are still to be stopped. From here on only a further datagram would start one.
    pub fn shut_down(&mut self) -> (stop: Vec<usize>)
        requires
            old(self)@.inv(),
        ensures
            final(self)@.inv(),
            final(self)@ == old(self)@.shut_down(),
            stop@.no_duplicates(),
            forall|i: usize|
                stop@.contains(i) <==> i < old(self)@.phases.len() && (#[trigger] old(self)@.phases[i as int] is Waking || old(self)@.phases[i as int] is Running),
    {
        let mut stop: Vec<usize> = Vec::new();
        let mut i: usize = 0;
        while i < self.phases.len()
            invariant
                i <= self.phases@.len(),
                self.config == old(self).config,
                self.routes == old(self).routes,
                self.phases@.len() == old(self).phases@.len(),
                forall|k: int|
                    0 <= k < i ==> #[trigger] self.phases@[k]@ == old(self).phases@[k]@.halted(),
                forall|k: int|
                    i <= k < self.phases@.len() ==> #[trigger] self.phases@[k] == old(self).phases@[k],
                stop@.no_duplicates(),
                forall|k: int| 0 <= k < stop@.len() ==> #[trigger] stop@[k] < i,
                forall|k: usize|
                    stop@.contains(k) <==> k < i && (#[trigger] old(self)@.phases[k as int] is Waking
                        || old(self)@.phases[k as int] is Running),
            decreases self.phases@.len() - i,
        {
            let ghost before = stop@;
            if self.phases[i].halt() {
                stop.push(i);
                proof {
                    assert(stop@.drop_last() =~= before);
                    assert(stop@.last() == i);
                    assert forall|k: usize| before.contains(k) implies stop@.contains(k) by {
                        let n = choose|n: int| 0 <= n < before.len() && before[n] == k;
                        assert(stop@[n] == k);
                    }
                }
            }
            i = i + 1;
        }
        proof {
            assert(self@.phases =~= old(self)@.shut_down().phases);
            lemma_shut_down(old(self)@);
        }
        stop
    }
}

/// Law: every event leaves the proxy in order: every backend's phase is, none is relayed to but
/// under its own address, and no client belongs to two.
pub proof fn law_the_proxy_stays_in_order(
    m: ProxyModel,
    slot: int,
    client: SocketAddr,
    datagram: Seq<u8>,
    exited: bool,
    now: Instant,
)
    requires
        m.inv(),
        0 <= slot < m.phases.len(),
    ensures
        ({
            let phase = m.phases[slot];
            let backend = m.routes.backends()[slot].backend;
            let free = m.owner(client) is None || m.owner(client) == Some(slot);
            &&& free ==> m.with(slot, phase.received(client, datagram, now)).inv()
            &&& m.with(slot, phase.booted(backend, m.config.session_timeout, now)).inv()
            &&& m.with(slot, phase.delivered(client, now)).inv()
            &&& free ==> m.with(slot, phase.opened(client, now)).inv()
            &&& m.with(slot, phase.start_failed()).inv()
            &&& m.with(slot, phase.boot_failed()).inv()
            &&& m.with(slot, phase.stopped()).inv()
            &&& m.with(slot, phase.ticked(exited, m.config.idle_timeout, now)).inv()
            &&& m.shut_down().inv()
        }),
{
    let phase = m.phases[slot];
    let backend = m.routes.backends()[slot].backend;
    let timeout = m.config.session_timeout;
    let idle = m.config.idle_timeout;
    assert(phase.inv());
    assert(m.faithful(slot));
    phase::law_phases_stay_in_order(phase, client, datagram, now, backend, timeout, exited);
    phase::law_phases_stay_in_order(phase, client, datagram, now, backend, idle, exited);
    if m.owner(client) is None || m.owner(client) == Some(slot) {
        lemma_with(m, slot, phase.received(client, datagram, now), client);
        lemma_with(m, slot, phase.opened(client, now), client);
    }
    lemma_with(m, slot, phase.booted(backend, timeout, now), client);
    if let PhaseModel::Running { relay, .. } = phase {
        assert(relay.heard(client, now).sessions.dom() =~= relay.sessions.dom());
    }
    lemma_with(m, slot, phase.delivered(client, now), client);
    lemma_with(m, slot, phase.start_failed(), client);
    lemma_with(m, slot, phase.boot_failed(), client);
    lemma_with(m, slot, phase.stopped(), client);
    lemma_with(m, slot, phase.ticked(exited, idle, now), client);
    lemma_shut_down(m);
}

/// Shutting down keeps the proxy in order.
proof fn lemma_shut_down(m: ProxyModel)
    requires
        m.inv(),
    ensures
        m.shut_down().inv(),
{
}

/// A client belongs to at most one backend, and that one is found.
proof fn lemma_owner_unique(m: ProxyModel, client: SocketAddr, slot: int)
    requires
        apart(m.phases),
        0 <= slot < m.phases.len(),
        m.phases[slot].clients().contains(client),
    ensures
        m.owner(client) == Some(slot),
{
    lemma_owner(m.phases, client, 0);
    let found = m.owner(client).unwrap();
    assert(m.phases[found].clients().contains(client));
}

/// Law: a session stays with its backend. Whatever a client with a session sends, and whatever
/// name that offers, it is relayed through the session to the backend that was first chosen.
pub proof fn law_a_session_is_pinned(
    m: ProxyModel,
    slot: int,
    client: SocketAddr,
    datagram: Seq<u8>,
    name: Option<Seq<char>>,
)
    requires
        m.inv(),
        0 <= slot < m.phases.len(),
        m.phases[slot].sessions().contains(client),
    ensures
        m.slot(client, name) == slot,
        m.fate(client, datagram, name) == (Fate::Relay { passage: Passage::Reuse }),
{
    lemma_owner_unique(m, client, slot);
}

/// Law: backends live independently. A datagram touches one of them, and the others stay as they
/// are.
pub proof fn law_backends_are_independent(
    m: ProxyModel,
    from: SocketAddr,
    datagram: Seq<u8>,
    name: Option<Seq<char>>,
    now: Instant,
    other: int,
)
    requires
        m.inv(),
        0 <= other < m.phases.len(),
        other != m.slot(from, name),
    ensures
        m.received(from, datagram, name, now).phases[other] == m.phases[other],
{
    lemma_slot(m, from, name);
}

/// Law: a client that belongs to no backend reaches the default one unless its ClientHello
/// offers a name, and the route of that name if it does.
pub proof fn law_a_name_chooses_the_backend(
    m: ProxyModel,
    from: SocketAddr,
    name: Seq<char>,
    i: int,
)
    requires
        m.inv(),
        m.config.valid(),
        m.owner(from) is None,
        0 <= i < m.config.routes.len(),
        routes::normal(name) == routes::normal(m.config.routes[i].0),
    ensures
        m.slot(from, None) == 0,
        m.routes.backends()[0] == m.config.default_backend(),
        m.routes.backends()[m.slot(from, Some(name))] == m.config.routes[i].1,
{
    config::law_every_route_is_reached(m.config, m.routes, i, name);
}

/// Law: without routes there is one backend, and every datagram is for it.
pub proof fn law_no_routes_one_backend(
    m: ProxyModel,
    from: SocketAddr,
    name: Option<Seq<char>>,
)
    requires
        m.inv(),
        m.config.routes.len() == 0,
    ensures
        m.phases.len() == 1,
        m.slot(from, name) == 0,
{
    lemma_owner(m.phases, from, 0);
    let all = config::normal_entries(m.config.routes);
    if m.routes.table.len() > 0 {
        let n = m.routes.table[0].0;
        routes::lemma_lookup(m.routes.table, 0);
        assert(routes::lookup(m.routes.table, n) == routes::lookup(all, n));
    }
}

/// Law: the first attempt connects. The Initial that woke a sleeping backend is delivered to it
/// once it is ready, under a session of its client's own, and whatever that client sends next
/// travels through that session.
pub proof fn law_the_first_attempt_connects(
    m: ProxyModel,
    from: SocketAddr,
    datagram: Seq<u8>,
    name: Option<Seq<char>>,
    woken: Instant,
    ready: Instant,
    next: Seq<u8>,
    next_name: Option<Seq<char>>,
)
    requires
        m.inv(),
        m.owner(from) is None,
        m.phases[m.slot(from, name)] is Sleeping,
        knock::is_knock(datagram),
    ensures
        ({
            let slot = m.slot(from, name);
            let backend = m.routes.backends()[slot].backend;
            let waking = m.received(from, datagram, name, woken);
            let running = waking.with(
                slot,
                waking.phases[slot].booted(backend, m.config.session_timeout, ready),
            );
            let open = running.with(slot, running.phases[slot].opened(from, ready));
            &&& m.fate(from, datagram, name) == Fate::Wake
            &&& waking.phases[slot].deliverable() == phase::HeldModel::empty().insert(
                from,
                datagram,
            )
            &&& running.may_open(slot, from)
            &&& running.phases[slot].fate(from, datagram) == (Fate::Relay {
                passage: RelayModel::fresh(backend, m.config.session_timeout).passage(from),
            })
            &&& open.inv()
            &&& open.slot(from, next_name) == slot
            &&& open.fate(from, next, next_name) == (Fate::Relay { passage: Passage::Reuse })
        }),
{
    let slot = m.slot(from, name);
    lemma_slot(m, from, name);
    let backend = m.routes.backends()[slot].backend;
    let waking = m.received(from, datagram, name, woken);
    law_the_proxy_stays_in_order(m, slot, from, datagram, false, woken);
    let running = waking.with(
        slot,
        waking.phases[slot].booted(backend, m.config.session_timeout, ready),
    );
    law_the_proxy_stays_in_order(waking, slot, from, datagram, false, ready);
    lemma_owner(m.phases, from, 0);
    lemma_owner(running.phases, from, 0);
    if let Some(k) = running.owner(from) {
        assert(k != slot);
        assert(running.phases[k] == m.phases[k]);
        assert(m.phases[k].clients().contains(from));
    }
    let open = running.with(slot, running.phases[slot].opened(from, ready));
    law_the_proxy_stays_in_order(running, slot, from, datagram, false, ready);
    assert(open.phases[slot].sessions().contains(from));
    law_a_session_is_pinned(open, slot, from, next, next_name);
}

/// A datagram is always for some backend.
proof fn lemma_slot(m: ProxyModel, from: SocketAddr, name: Option<Seq<char>>)
    requires
        m.inv(),
    ensures
        0 <= m.slot(from, name) < m.phases.len(),
{
    lemma_owner(m.phases, from, 0);
    if let Some(n) = name {
        routes::lemma_lookup_index(m.routes.table, routes::normal(n));
    }
}

/// What can happen to a proxy.
pub enum Event {
    Received { from: SocketAddr, datagram: Seq<u8>, name: Option<Seq<char>>, now: Instant },
    Booted { slot: int, now: Instant },
    Delivered { slot: int, from: SocketAddr, now: Instant },
    Opened { slot: int, client: SocketAddr, now: Instant },
    StartFailed { slot: int },
    BootFailed { slot: int },
    Stopped { slot: int },
    Ticked { slot: int, exited: bool, now: Instant },
    ShutDown,
}

impl Event {
    /// The event concerns one of the first `n` backends.
    pub open spec fn concerns(self, n: nat) -> bool {
        match self {
            Event::Received { .. } => true,
            Event::Booted { slot, .. } => 0 <= slot < n,
            Event::Delivered { slot, .. } => 0 <= slot < n,
            Event::Opened { slot, .. } => 0 <= slot < n,
            Event::StartFailed { slot } => 0 <= slot < n,
            Event::BootFailed { slot } => 0 <= slot < n,
            Event::Stopped { slot } => 0 <= slot < n,
            Event::Ticked { slot, .. } => 0 <= slot < n,
            Event::ShutDown => true,
        }
    }
}

impl ProxyModel {
    /// The proxy after an event.
    pub open spec fn after(self, event: Event) -> ProxyModel {
        match event {
            Event::Received { from, datagram, name, now } => self.received(
                from,
                datagram,
                name,
                now,
            ),
            Event::Booted { slot, now } => self.with(
                slot,
                self.phases[slot].booted(
                    self.routes.backends()[slot].backend,
                    self.config.session_timeout,
                    now,
                ),
            ),
            Event::Delivered { slot, from, now } => self.with(
                slot,
                self.phases[slot].delivered(from, now),
            ),
            Event::Opened { slot, client, now } => if self.may_open(slot, client) {
                self.with(slot, self.phases[slot].opened(client, now))
            } else {
                self
            },
            Event::StartFailed { slot } => self.with(slot, self.phases[slot].start_failed()),
            Event::BootFailed { slot } => self.with(slot, self.phases[slot].boot_failed()),
            Event::Stopped { slot } => self.with(slot, self.phases[slot].stopped()),
            Event::Ticked { slot, exited, now } => self.with(
                slot,
                self.phases[slot].ticked(exited, self.config.idle_timeout, now),
            ),
            Event::ShutDown => self.shut_down(),
        }
    }

    /// The proxy after a run of events.
    pub open spec fn after_all(self, events: Seq<Event>) -> ProxyModel
        decreases events.len(),
    {
        if events.len() == 0 {
            self
        } else {
            self.after_all(events.drop_last()).after(events.last())
        }
    }

    /// A backend sleeps, and this datagram is for it and wakes it.
    pub open spec fn ready_to_wake(
        self,
        slot: int,
        from: SocketAddr,
        datagram: Seq<u8>,
        name: Option<Seq<char>>,
    ) -> bool {
        &&& self.phases[slot] == PhaseModel::Sleeping
        &&& self.slot(from, name) == slot
        &&& self.fate(from, datagram, name) == Fate::Wake
    }

    /// No backend runs or is to run.
    pub open spec fn winding_down(self) -> bool {
        forall|i: int| 0 <= i < self.phases.len() ==> (#[trigger] self.phases[i]).winding_down()
    }
}

/// Law: the proxy is in order after any run of events whatever.
pub proof fn law_the_proxy_is_always_in_order(m: ProxyModel, events: Seq<Event>)
    requires
        m.inv(),
        forall|k: int| 0 <= k < events.len() ==> (#[trigger] events[k]).concerns(m.phases.len()),
    ensures
        m.after_all(events).inv(),
        m.after_all(events).phases.len() == m.phases.len(),
    decreases events.len(),
{
    if events.len() > 0 {
        let earlier = events.drop_last();
        let event = events.last();
        assert forall|k: int| 0 <= k < earlier.len() implies (#[trigger] earlier[k]).concerns(
            m.phases.len(),
        ) by {
            assert(events[k].concerns(m.phases.len()));
        }
        law_the_proxy_is_always_in_order(m, earlier);
        let before = m.after_all(earlier);
        assert(events[events.len() - 1].concerns(before.phases.len()));
        lemma_after(before, event);
    }
}

/// An event keeps the proxy in order.
proof fn lemma_after(m: ProxyModel, event: Event)
    requires
        m.inv(),
        event.concerns(m.phases.len()),
    ensures
        m.after(event).inv(),
{
    let nobody = m.config.listen;
    let none = Seq::<u8>::empty();
    let start = Instant { nanos: 0 };
    match event {
        Event::Received { from, datagram, name, now } => {
            lemma_slot(m, from, name);
            law_the_proxy_stays_in_order(m, m.slot(from, name), from, datagram, false, now);
        },
        Event::Booted { slot, now } => law_the_proxy_stays_in_order(
            m,
            slot,
            nobody,
            none,
            false,
            now,
        ),
        Event::Delivered { slot, from, now } => law_the_proxy_stays_in_order(
            m,
            slot,
            from,
            none,
            false,
            now,
        ),
        Event::Opened { slot, client, now } => law_the_proxy_stays_in_order(
            m,
            slot,
            client,
            none,
            false,
            now,
        ),
        Event::StartFailed { slot } => law_the_proxy_stays_in_order(
            m,
            slot,
            nobody,
            none,
            false,
            start,
        ),
        Event::BootFailed { slot } => law_the_proxy_stays_in_order(
            m,
            slot,
            nobody,
            none,
            false,
            start,
        ),
        Event::Stopped { slot } => law_the_proxy_stays_in_order(
            m,
            slot,
            nobody,
            none,
            false,
            start,
        ),
        Event::Ticked { slot, exited, now } => law_the_proxy_stays_in_order(
            m,
            slot,
            nobody,
            none,
            exited,
            now,
        ),
        Event::ShutDown => lemma_shut_down(m),
    }
}

/// Law: after a shutdown nothing is started again. Whatever happens from there on, short of a
/// further datagram being taken in, every backend is asleep or on its way there with nobody
/// waiting, and once it is gone it sleeps and is not asked for again.
pub proof fn law_nothing_starts_after_a_shutdown(m: ProxyModel, events: Seq<Event>)
    requires
        forall|k: int|
            0 <= k < events.len() ==> (#[trigger] events[k]).concerns(m.phases.len()) && !(
            events[k] is Received),
    ensures
        m.shut_down().after_all(events).winding_down(),
        m.shut_down().after_all(events).phases.len() == m.phases.len(),
        forall|i: int|
            0 <= i < m.phases.len() ==> (#[trigger] m.shut_down().after_all(
                events,
            ).phases[i]).stopped() == PhaseModel::Sleeping,
    decreases events.len(),
{
    let down = m.shut_down();
    if events.len() > 0 {
        let earlier = events.drop_last();
        assert forall|k: int| 0 <= k < earlier.len() implies (#[trigger] earlier[k]).concerns(
            m.phases.len(),
        ) && !(earlier[k] is Received) by {
            assert(events[k].concerns(m.phases.len()));
        }
        law_nothing_starts_after_a_shutdown(m, earlier);
        let before = down.after_all(earlier);
        let event = events[events.len() - 1];
        assert(event.concerns(m.phases.len()));
        assert forall|i: int| 0 <= i < before.after(event).phases.len() implies (
        #[trigger] before.after(event).phases[i]).winding_down() by {
            assert(before.phases[i].winding_down());
        }
        assert(down.after_all(events) == before.after(event));
    }
    assert forall|i: int| 0 <= i < m.phases.len() implies (#[trigger] down.after_all(
        events,
    ).phases[i]).stopped() == PhaseModel::Sleeping by {
        assert(down.after_all(events).phases[i].winding_down());
    }
}

/// Law: every wake ends in sleep, and the next Initial wakes again. A backend that cannot be
/// started sleeps at once; one that fails to boot, exits on its own or goes idle sleeps once it
/// is gone; and from there an Initial for it starts it again.
pub proof fn law_every_wake_ends_in_sleep(
    m: ProxyModel,
    slot: int,
    exited: bool,
    now: Instant,
    from: SocketAddr,
    datagram: Seq<u8>,
    name: Option<Seq<char>>,
)
    requires
        m.inv(),
        0 <= slot < m.phases.len(),
        m.slot(from, name) == slot,
        m.routes.slot(name) == slot,
        knock::is_knock(datagram),
    ensures
        ({
            let phase = m.phases[slot];
            let gone = Event::Stopped { slot };
            let failed = m.after(Event::StartFailed { slot });
            let unready = m.after(Event::BootFailed { slot }).after(gone);
            let ended = m.after(Event::Ticked { slot, exited, now }).after(gone);
            &&& phase is Waking ==> failed.ready_to_wake(slot, from, datagram, name)
            &&& phase is Waking ==> unready.ready_to_wake(slot, from, datagram, name)
            &&& phase.stop(exited, m.config.idle_timeout, now) is Some
                ==> ended.ready_to_wake(slot, from, datagram, name)
        }),
{
    let gone = Event::Stopped { slot };
    let asleep = m.with(slot, PhaseModel::Sleeping);
    if m.phases[slot] is Waking {
        assert(m.after(Event::StartFailed { slot }) =~= asleep);
        assert(m.after(Event::BootFailed { slot }).after(gone) =~= asleep);
    }
    if m.phases[slot].stop(exited, m.config.idle_timeout, now) is Some {
        assert(m.after(Event::Ticked { slot, exited, now }).after(gone) =~= asleep);
    }
    lemma_owner(m.phases, from, 0);
    lemma_owner(asleep.phases, from, 0);
    if let Some(k) = asleep.owner(from) {
        assert(m.phases[k].clients().contains(from));
        lemma_owner_unique(m, from, k);
    }
}

/// Law: a client belongs to the backend that holds its Initial or has its session, and to none if
/// none does.
pub proof fn law_a_client_belongs_where_it_is_known(m: ProxyModel, client: SocketAddr, slot: int)
    requires
        m.inv(),
    ensures
        m.owner(client) == Some(slot) <==> 0 <= slot < m.phases.len()
            && m.phases[slot].clients().contains(client),
        m.owner(client) is None <==> forall|k: int|
            0 <= k < m.phases.len() ==> !(#[trigger] m.phases[k].clients().contains(client)),
{
    lemma_owner(m.phases, client, 0);
    if 0 <= slot < m.phases.len() && m.phases[slot].clients().contains(client) {
        lemma_owner_unique(m, client, slot);
    }
}

/// Law: a session is opened at every running backend for every client that belongs to no other,
/// whatever sessions there are already. The client then belongs to that backend, its session is
/// as fresh as can be, and all other sessions and backends are as before.
pub proof fn law_a_session_opens_beside_any_others(
    m: ProxyModel,
    slot: int,
    client: SocketAddr,
    now: Instant,
    other: int,
    someone: SocketAddr,
)
    requires
        m.inv(),
        0 <= slot < m.phases.len(),
    ensures
        m.phases[slot] is Running && (forall|k: int|
            0 <= k < m.phases.len() && k != slot ==> !(#[trigger] m.phases[k].clients().contains(
                client,
            ))) ==> {
            let after = m.after(Event::Opened { slot, client, now });
            &&& m.may_open(slot, client)
            &&& after == m.with(slot, m.phases[slot].opened(client, now))
            &&& after.inv()
            &&& after.owner(client) == Some(slot)
            &&& after.phases.len() == m.phases.len()
            &&& after.config == m.config && after.routes == m.routes
            &&& (m.phases[slot] matches PhaseModel::Running { relay, empty_since } && (
            after.phases[slot] matches PhaseModel::Running { relay: more, empty_since: since }
                && since == empty_since && more.backend == relay.backend && more.session_timeout
                == relay.session_timeout && more.sessions.contains_key(client)
                && more.sessions[client] == now && (someone != client ==> (
            more.sessions.contains_key(someone) <==> relay.sessions.contains_key(someone))
                && more.sessions[someone] == relay.sessions[someone])))
            &&& 0 <= other < m.phases.len() && other != slot ==> after.phases[other]
                == m.phases[other]
            &&& someone != client ==> after.owner(someone) == m.owner(someone)
        },
{
    if m.phases[slot] is Running && (forall|k: int|
        0 <= k < m.phases.len() && k != slot ==> !(#[trigger] m.phases[k].clients().contains(
            client,
        ))) {
        lemma_owner(m.phases, client, 0);
        if let Some(k) = m.owner(client) {
            assert(m.phases[k].clients().contains(client));
        }
        assert(m.may_open(slot, client));
        let after = m.after(Event::Opened { slot, client, now });
        law_the_proxy_stays_in_order(m, slot, client, Seq::empty(), false, now);
        lemma_owner_unique(after, client, slot);
        lemma_owner(m.phases, someone, 0);
        lemma_owner(after.phases, someone, 0);
        if someone != client {
            assert(forall|k: int|
                0 <= k < m.phases.len() ==> (#[trigger] m.phases[k].clients().contains(someone)
                    <==> after.phases[k].clients().contains(someone)));
            if let Some(k) = m.owner(someone) {
                assert(m.phases[k].clients().contains(someone));
                lemma_owner_unique(after, someone, k);
            } else if let Some(k) = after.owner(someone) {
                assert(m.phases[k].clients().contains(someone));
            }
        }
    }
}

/// Law: no session is opened at a backend that does not run, nor for a client that belongs to
/// another; the proxy is then as before.
pub proof fn law_a_session_of_another_backend_is_refused(
    m: ProxyModel,
    slot: int,
    client: SocketAddr,
    now: Instant,
)
    requires
        m.inv(),
        0 <= slot < m.phases.len(),
    ensures
        !(m.phases[slot] is Running) || (exists|k: int|
            0 <= k < m.phases.len() && k != slot && #[trigger] m.phases[k].clients().contains(
                client,
            )) ==> !m.may_open(slot, client) && m.after(Event::Opened { slot, client, now }) == m,
{
    if exists|k: int|
        0 <= k < m.phases.len() && k != slot && #[trigger] m.phases[k].clients().contains(client) {
        let k = choose|k: int|
            0 <= k < m.phases.len() && k != slot && #[trigger] m.phases[k].clients().contains(
                client,
            );
        lemma_owner_unique(m, client, k);
    }
}

/// Law: what a known client sends is for the backend it belongs to, whatever name that offers; what
/// an unknown one sends is for the last route whose name is the same as the one it offers, and for
/// the default backend if no route's is or if it offers none.
pub proof fn law_where_a_datagram_goes(
    m: ProxyModel,
    from: SocketAddr,
    name: Option<Seq<char>>,
    slot: int,
    route: int,
)
    requires
        m.inv(),
    ensures
        0 <= m.slot(from, name) < m.phases.len(),
        0 <= slot < m.phases.len() && m.phases[slot].clients().contains(from) ==> m.slot(from, name)
            == slot,
        (forall|k: int|
            0 <= k < m.phases.len() ==> !(#[trigger] m.phases[k].clients().contains(from))) ==> {
            &&& name is None ==> m.slot(from, name) == 0
            &&& name matches Some(name) ==> {
                &&& config::is_last_route(m.config, name, route) ==> m.slot(from, Some(name)) > 0
                    && m.routes.backends()[m.slot(from, Some(name))] == m.config.routes[route].1
                &&& (forall|k: int|
                    0 <= k < m.config.routes.len() ==> !routes::same_server(
                        name,
                        (#[trigger] m.config.routes[k]).0,
                    )) ==> m.slot(from, Some(name)) == 0
            }
        },
{
    lemma_slot(m, from, name);
    law_a_client_belongs_where_it_is_known(m, from, slot);
    if let Some(name) = name {
        config::law_a_name_reaches_its_route(m.config, m.routes, name, route);
    }
}

/// Law: an event at one backend leaves the others, the configuration and the routes as they are.
pub proof fn law_events_at_one_backend_stay_there(m: ProxyModel, event: Event, slot: int, other: int)
    requires
        0 <= other < m.phases.len(),
        other != slot,
        match event {
            Event::Received { from, name, .. } => m.slot(from, name) == slot,
            Event::Booted { slot: at, .. } => at == slot,
            Event::Delivered { slot: at, .. } => at == slot,
            Event::Opened { slot: at, .. } => at == slot,
            Event::StartFailed { slot: at } => at == slot,
            Event::BootFailed { slot: at } => at == slot,
            Event::Stopped { slot: at } => at == slot,
            Event::Ticked { slot: at, .. } => at == slot,
            Event::ShutDown => false,
        },
        0 <= slot < m.phases.len(),
    ensures
        m.after(event).phases[other] == m.phases[other],
        m.after(event).phases.len() == m.phases.len(),
        m.after(event).config == m.config,
        m.after(event).routes == m.routes,
{
}

/// Law: a backend that boots is relayed to under its own address, with the configured session
/// timeout and nobody connected yet.
pub proof fn law_a_backend_is_relayed_to_under_its_own_address(m: ProxyModel, slot: int, now: Instant)
    requires
        m.inv(),
        0 <= slot < m.phases.len(),
        m.phases[slot] is Waking,
    ensures
        m.after(Event::Booted { slot, now }).phases[slot] matches PhaseModel::Running {
            relay,
            empty_since,
        } && {
            &&& relay.backend == m.routes.backends()[slot].backend
            &&& relay.session_timeout == m.config.session_timeout
            &&& relay.sessions == Map::<SocketAddr, Instant>::empty()
            &&& empty_since == Some(now)
        },
{
}

/// Law: a shutdown ends every backend: one that sleeps goes on sleeping, and any other goes away
/// with nobody waiting.
pub proof fn law_a_shutdown_ends_every_backend(m: ProxyModel, slot: int)
    requires
        0 <= slot < m.phases.len(),
    ensures
        m.shut_down().phases.len() == m.phases.len(),
        m.shut_down().config == m.config,
        m.shut_down().routes == m.routes,
        m.phases[slot] is Sleeping ==> m.shut_down().phases[slot] is Sleeping,
        !(m.phases[slot] is Sleeping) ==> m.shut_down().phases[slot] == (PhaseModel::Stopping {
            held: Map::empty(),
        }),
{
}

/// Law: however often a running backend is checked while nobody plays, it is stopped at the first
/// check that comes the idle timeout or more after the spell began, and at none before.
pub proof fn law_an_idle_backend_is_stopped_however_often_it_is_checked(
    m: ProxyModel,
    slot: int,
    relay: RelayModel,
    since: Instant,
    checks: Seq<Instant>,
    now: Instant,
)
    requires
        0 <= slot < m.phases.len(),
        m.phases[slot] == (PhaseModel::Running { relay, empty_since: Some(since) }),
        phase::in_sequence(seq![since] + checks + seq![now]),
        phase::deserted(relay, since),
        forall|i: int|
            0 <= i < checks.len() ==> (#[trigger] checks[i]).nanos < since.nanos
                + m.config.idle_timeout.nanos,
    ensures
        ({
            let events = checks.map_values(
                |now: Instant| Event::Ticked { slot, exited: false, now },
            );
            let before = m.after_all(events);
            let after = before.after(Event::Ticked { slot, exited: false, now });
            &&& before.phases[slot] is Running
            &&& now.nanos >= since.nanos + m.config.idle_timeout.nanos ==> after.phases[slot] == (
            PhaseModel::Stopping { held: Map::empty() })
            &&& now.nanos < since.nanos + m.config.idle_timeout.nanos ==> after.phases[slot]
                is Running
        }),
{
    let idle = m.config.idle_timeout;
    let all = seq![since] + checks + seq![now];
    let first = (checks + seq![now])[0];
    assert(all[0] == since && all[1] == first);
    assert(since.nanos <= first.nanos);
    assert(phase::deserted(relay, first));
    phase::law_a_spell_without_players_has_one_beginning(
        relay,
        Some(since),
        idle,
        since,
        checks,
        now,
    );
    lemma_checks(m, slot, checks);
}

/// A run of checks on one backend.
proof fn lemma_checks(m: ProxyModel, slot: int, checks: Seq<Instant>)
    requires
        0 <= slot < m.phases.len(),
    ensures
        ({
            let events = checks.map_values(
                |now: Instant| Event::Ticked { slot, exited: false, now },
            );
            &&& m.after_all(events).phases[slot] == phase::checked(
                m.phases[slot],
                m.config.idle_timeout,
                checks,
            )
            &&& m.after_all(events).config == m.config
            &&& m.after_all(events).phases.len() == m.phases.len()
        }),
    decreases checks.len(),
{
    let events = checks.map_values(|now: Instant| Event::Ticked { slot, exited: false, now });
    if checks.len() > 0 {
        let earlier = checks.drop_last();
        lemma_checks(m, slot, earlier);
        assert(events.drop_last() =~= earlier.map_values(
            |now: Instant| Event::Ticked { slot, exited: false, now },
        ));
        assert(events.last() == (Event::Ticked { slot, exited: false, now: checks.last() }));
    }
}

/// Law: a datagram is taken in by the backend it is for as that backend alone would take it, with all
/// its bytes and under its sender's address, and the others see nothing of it.
pub proof fn law_a_datagram_is_one_backends_business(
    m: ProxyModel,
    from: SocketAddr,
    datagram: Seq<u8>,
    name: Option<Seq<char>>,
    now: Instant,
    slot: int,
)
    requires
        m.inv(),
        m.slot(from, name) == slot,
    ensures
        m.received(from, datagram, name, now).phases[slot] == m.phases[slot].received(
            from,
            datagram,
            now,
        ),
        m.fate(from, datagram, name) == m.phases[slot].fate(from, datagram),
        forall|k: int|
            0 <= k < m.phases.len() && k != slot ==> (#[trigger] m.received(
                from,
                datagram,
                name,
                now,
            ).phases[k]) == m.phases[k],
        m.received(from, datagram, name, now).phases.len() == m.phases.len(),
        m.received(from, datagram, name, now).config == m.config,
        m.received(from, datagram, name, now).routes == m.routes,
{
    lemma_slot(m, from, name);
}

} // verus!
