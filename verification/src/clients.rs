//! A map from client addresses.

use crate::address::SocketAddr;
use crate::time::{Duration, Instant};
use vstd::prelude::*;

verus! {

/// Values keyed by client address, each address once.
#[derive(Debug)]
pub struct ClientMap<T> {
    entries: Vec<(SocketAddr, T)>,
}

/// No address twice.
spec fn distinct<T>(entries: Seq<(SocketAddr, T)>) -> bool {
    forall|i: int, j: int|
        0 <= i < j < entries.len() ==> (#[trigger] entries[i]).0 != (#[trigger] entries[j]).0
}

/// The map that a list of entries stands for.
pub open spec fn as_map<T>(entries: Seq<(SocketAddr, T)>) -> Map<SocketAddr, T>
    decreases entries.len(),
{
    if entries.len() == 0 {
        Map::empty()
    } else {
        as_map(entries.drop_last()).insert(entries.last().0, entries.last().1)
    }
}

proof fn lemma_entry<T>(entries: Seq<(SocketAddr, T)>, i: int)
    requires
        distinct(entries),
        0 <= i < entries.len(),
    ensures
        as_map(entries).contains_key(entries[i].0),
        as_map(entries)[entries[i].0] == entries[i].1,
    decreases entries.len(),
{
    if i < entries.len() - 1 {
        lemma_entry(entries.drop_last(), i);
    }
}

/// A key of the map is the address of some entry.
proof fn lemma_key<T>(entries: Seq<(SocketAddr, T)>, a: SocketAddr) -> (i: int)
    requires
        as_map(entries).contains_key(a),
    ensures
        0 <= i < entries.len(),
        entries[i].0 == a,
    decreases entries.len(),
{
    if entries.last().0 == a {
        entries.len() - 1
    } else {
        lemma_key(entries.drop_last(), a)
    }
}

proof fn lemma_len<T>(entries: Seq<(SocketAddr, T)>)
    requires
        distinct(entries),
    ensures
        as_map(entries).dom().finite(),
        as_map(entries).dom().len() == entries.len(),
    decreases entries.len(),
{
    if entries.len() > 0 {
        let rest = entries.drop_last();
        lemma_len(rest);
        if as_map(rest).contains_key(entries.last().0) {
            let i = lemma_key(rest, entries.last().0);
            assert(entries[i].0 == entries.last().0);
        }
        assert(as_map(entries).dom() =~= as_map(rest).dom().insert(entries.last().0));
    }
}

proof fn lemma_update<T>(entries: Seq<(SocketAddr, T)>, i: int, value: T)
    requires
        distinct(entries),
        0 <= i < entries.len(),
    ensures
        distinct(entries.update(i, (entries[i].0, value))),
        as_map(entries.update(i, (entries[i].0, value))) == as_map(entries).insert(
            entries[i].0,
            value,
        ),
    decreases entries.len(),
{
    let after = entries.update(i, (entries[i].0, value));
    if i < entries.len() - 1 {
        lemma_update(entries.drop_last(), i, value);
        assert(after.drop_last() =~= entries.drop_last().update(i, (entries[i].0, value)));
    } else {
        assert(after.drop_last() =~= entries.drop_last());
    }
    assert(as_map(after) =~= as_map(entries).insert(entries[i].0, value));
}

impl<T> View for ClientMap<T> {
    type V = Map<SocketAddr, T>;

    closed spec fn view(&self) -> Map<SocketAddr, T> {
        as_map(self.entries@)
    }
}

impl<T> ClientMap<T> {
    #[verifier::type_invariant]
    spec fn each_once(self) -> bool {
        distinct(self.entries@)
    }

    pub fn new() -> (map: ClientMap<T>)
        ensures
            map@ == Map::<SocketAddr, T>::empty(),
    {
        ClientMap { entries: Vec::new() }
    }

    pub fn len(&self) -> (n: usize)
        ensures
            n == self@.dom().len(),
            self@.dom().finite(),
    {
        proof {
            use_type_invariant(self);
            lemma_len(self.entries@);
        }
        self.entries.len()
    }

    /// Where an address stands.
    fn find(&self, client: SocketAddr) -> (place: Option<usize>)
        ensures
            match place {
                Some(i) => i < self.entries@.len() && self.entries@[i as int].0 == client
                    && self@.contains_key(client) && self@[client] == self.entries@[i as int].1,
                None => !self@.contains_key(client),
            },
    {
        proof {
            use_type_invariant(self);
        }
        let mut i: usize = 0;
        while i < self.entries.len()
            invariant
                i <= self.entries@.len(),
                distinct(self.entries@),
                forall|k: int| 0 <= k < i ==> (#[trigger] self.entries@[k]).0 != client,
            decreases self.entries@.len() - i,
        {
            if self.entries[i].0 == client {
                proof {
                    lemma_entry(self.entries@, i as int);
                }
                return Some(i);
            }
            i = i + 1;
        }
        proof {
            if self@.contains_key(client) {
                let k = lemma_key(self.entries@, client);
                assert(self.entries@[k].0 == client);
            }
        }
        None
    }

    pub fn contains(&self, client: SocketAddr) -> (yes: bool)
        ensures
            yes == self@.contains_key(client),
    {
        self.find(client).is_some()
    }

    pub fn get(&self, client: SocketAddr) -> (value: Option<&T>)
        ensures
            match value {
                Some(v) => self@.contains_key(client) && *v == self@[client],
                None => !self@.contains_key(client),
            },
    {
        match self.find(client) {
            Some(i) => Some(&self.entries[i].1),
            None => None,
        }
    }

    /// Put a value under an address, in place of the one that was there.
    pub fn insert(&mut self, client: SocketAddr, value: T)
        ensures
            final(self)@ == old(self)@.insert(client, value),
    {
        let place = self.find(client);
        proof {
            use_type_invariant(&*self);
        }
        let ghost before = self.entries@;
        let mut entries: Vec<(SocketAddr, T)> = Vec::new();
        std::mem::swap(&mut entries, &mut self.entries);
        match place {
            Some(i) => {
                entries.set(i, (client, value));
                proof {
                    lemma_update(before, i as int, value);
                }
            },
            None => {
                entries.push((client, value));
                proof {
                    assert(entries@.drop_last() =~= before);
                    assert forall|i: int, j: int| 0 <= i < j < entries@.len() implies (
                    #[trigger] entries@[i]).0 != (#[trigger] entries@[j]).0 by {
                        if j == before.len() {
                            assert(entries@[i] == before[i]);
                            lemma_entry(before, i);
                        }
                    }
                }
            },
        }
        self.entries = entries;
    }

    /// The entries, each address once.
    pub fn into_entries(self) -> (entries: Vec<(SocketAddr, T)>)
        ensures
            as_map(entries@) == self@,
            entries@.len() == self@.dom().len(),
    {
        proof {
            use_type_invariant(&self);
            lemma_len(self.entries@);
        }
        self.entries
    }
}

/// Nothing was seen for as long as `timeout`.
pub open spec fn quiet(last_seen: Instant, now: Instant, timeout: Duration) -> bool {
    now.spec_since(last_seen) >= timeout.nanos
}

/// The sessions that are not quiet.
pub open spec fn lively(
    sessions: Map<SocketAddr, Instant>,
    now: Instant,
    timeout: Duration,
) -> Map<SocketAddr, Instant> {
    sessions.restrict(Set::new(|a: SocketAddr| !quiet(sessions[a], now, timeout)))
}

impl ClientMap<Instant> {
    /// Drop the clients that have gone quiet, and say which those were.
    pub fn drop_quiet(&mut self, now: Instant, timeout: Duration) -> (dropped: Vec<SocketAddr>)
        ensures
            final(self)@ == lively(old(self)@, now, timeout),
            dropped@.no_duplicates(),
            forall|a: SocketAddr|
                dropped@.contains(a) <==> #[trigger] old(self)@.contains_key(a) && quiet(
                    old(self)@[a],
                    now,
                    timeout,
                ),
    {
        proof {
            use_type_invariant(&*self);
        }
        let mut dropped: Vec<SocketAddr> = Vec::new();
        let mut kept: Vec<(SocketAddr, Instant)> = Vec::new();
        let mut i: usize = 0;
        proof {
            assert(self.entries@.take(0) =~= Seq::<(SocketAddr, Instant)>::empty());
            assert(lively(Map::empty(), now, timeout) =~= Map::<SocketAddr, Instant>::empty());
        }
        while i < self.entries.len()
            invariant
                i <= self.entries@.len(),
                *self == *old(self),
                distinct(self.entries@),
                distinct(kept@),
                as_map(kept@) == lively(as_map(self.entries@.take(i as int)), now, timeout),
                dropped@.no_duplicates(),
                forall|a: SocketAddr|
                    dropped@.contains(a) <==> #[trigger] as_map(
                        self.entries@.take(i as int),
                    ).contains_key(a) && quiet(
                        as_map(self.entries@.take(i as int))[a],
                        now,
                        timeout,
                    ),
            decreases self.entries@.len() - i,
        {
            let (client, last_seen) = self.entries[i];
            let ghost before = self.entries@.take(i as int);
            let ghost after = self.entries@.take(i + 1);
            let ghost dropped_before = dropped@;
            let ghost kept_before = kept@;
            proof {
                assert(after.drop_last() =~= before);
                if as_map(before).contains_key(client) {
                    let k = lemma_key(before, client);
                    assert(self.entries@[k].0 == client);
                }
            }
            if now.since(last_seen).nanos >= timeout.nanos {
                dropped.push(client);
                proof {
                    assert(!dropped_before.contains(client));
                    assert(dropped@.drop_last() =~= dropped_before);
                    assert(lively(as_map(after), now, timeout) =~= lively(
                        as_map(before),
                        now,
                        timeout,
                    ));
                }
            } else {
                kept.push((client, last_seen));
                proof {
                    assert(kept@.drop_last() =~= kept_before);
                    assert forall|k: int| 0 <= k < kept_before.len() implies (
                    #[trigger] kept_before[k]).0 != client by {
                        lemma_entry(kept_before, k);
                    }
                    assert(lively(as_map(after), now, timeout) =~= lively(
                        as_map(before),
                        now,
                        timeout,
                    ).insert(client, last_seen));
                }
            }
            proof {
                assert forall|a: SocketAddr|
                    dropped@.contains(a) <==> #[trigger] as_map(after).contains_key(a) && quiet(
                        as_map(after)[a],
                        now,
                        timeout,
                    ) by {
                    assert(as_map(after).contains_key(a) <==> as_map(before).contains_key(a) || a
                        == client);
                    if quiet(last_seen, now, timeout) {
                        assert(dropped@.last() == client);
                        if dropped_before.contains(a) {
                            let k = choose|k: int|
                                0 <= k < dropped_before.len() && dropped_before[k] == a;
                            assert(dropped@[k] == a);
                        }
                    }
                }
            }
            i = i + 1;
        }
        proof {
            assert(self.entries@.take(i as int) =~= self.entries@);
        }
        self.entries = kept;
        dropped
    }

    /// Drop every client, and say which those were.
    pub fn drop_all(&mut self) -> (dropped: Vec<SocketAddr>)
        ensures
            final(self)@ == Map::<SocketAddr, Instant>::empty(),
            dropped@.no_duplicates(),
            forall|a: SocketAddr| dropped@.contains(a) <==> #[trigger] old(self)@.contains_key(a),
    {
        // With no time allowed, everybody is quiet.
        let dropped = self.drop_quiet(Instant { nanos: 0 }, Duration { nanos: 0 });
        proof {
            assert(self@ =~= Map::<SocketAddr, Instant>::empty());
        }
        dropped
    }
}

/// Law: a list of entries stands for the map in which each address has what the last entry under it
/// says, and no other address has anything.
pub proof fn law_the_last_word_on_a_client_counts<T>(
    entries: Seq<(SocketAddr, T)>,
    a: SocketAddr,
    i: int,
)
    ensures
        0 <= i < entries.len() && entries[i].0 == a && (forall|j: int|
            i < j < entries.len() ==> (#[trigger] entries[j]).0 != a) ==> as_map(
            entries,
        ).contains_key(a) && as_map(entries)[a] == entries[i].1,
        (forall|j: int| 0 <= j < entries.len() ==> (#[trigger] entries[j]).0 != a) ==> !as_map(
            entries,
        ).contains_key(a),
    decreases entries.len(),
{
    if entries.len() > 0 {
        let front = entries.drop_last();
        law_the_last_word_on_a_client_counts(front, a, i);
        assert(entries.last() == entries[entries.len() - 1]);
        if 0 <= i < front.len() {
            assert(front[i] == entries[i]);
        }
        assert(forall|j: int| 0 <= j < front.len() ==> #[trigger] front[j] == entries[j]);
    }
}

} // verus!
