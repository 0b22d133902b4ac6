//! Which backend the proxy's console input goes to.
//!
//! One reader serves every backend and every wake cycle: two readers would race for the same
//! terminal, and each backend only lives for part of the proxy's lifetime.

use crate::routes::{self, BackendConfig, BackendModel};
use vstd::prelude::*;

verus! {

/// The attached backend's standard input, plus a counter that changes on every attach and
/// detach.
///
/// Whoever forwards input takes the pipe out for the duration of a write, so that detaching
/// never has to wait on one. The counter tells whether the backend it was borrowed from is still
/// the current one when the pipe comes back.
#[derive(Debug)]
pub struct Attached<T> {
    stdin: Option<T>,
    generation: u64,
}

/// What an [`Attached`] knows.
pub struct AttachedModel<T> {
    pub stdin: Option<T>,
    pub generation: u64,
}

/// The counter after `k` changes.
pub open spec fn advanced(generation: u64, k: nat) -> u64 {
    ((generation + k) % 0x1_0000_0000_0000_0000) as u64
}

impl<T> AttachedModel<T> {
    /// After an attach or a detach.
    pub open spec fn replaced(self, stdin: Option<T>) -> AttachedModel<T> {
        AttachedModel { stdin, generation: advanced(self.generation, 1) }
    }

    /// While a pipe is out for a write.
    pub open spec fn taken(self) -> AttachedModel<T> {
        AttachedModel { stdin: None, ..self }
    }

    /// After a write: the pipe comes back if it worked and belongs to the current backend.
    pub open spec fn returned(self, pipe: T, generation: u64, written: bool) -> AttachedModel<T> {
        if written && self.generation == generation {
            AttachedModel { stdin: Some(pipe), ..self }
        } else {
            self
        }
    }
}

impl<T> View for Attached<T> {
    type V = AttachedModel<T>;

    closed spec fn view(&self) -> AttachedModel<T> {
        AttachedModel { stdin: self.stdin, generation: self.generation }
    }
}

impl<T> Attached<T> {
    /// Nothing is attached.
    pub fn new() -> (attached: Attached<T>)
        ensures
            attached@ == (AttachedModel::<T> { stdin: None, generation: 0 }),
    {
        Attached { stdin: None, generation: 0 }
    }

    fn replace(&mut self, stdin: Option<T>)
        ensures
            final(self)@ == old(self)@.replaced(stdin),
    {
        self.stdin = stdin;
        self.generation = self.generation.wrapping_add(1);
    }

    /// Send subsequent console input to this backend.
    pub fn attach(&mut self, stdin: T)
        ensures
            final(self)@ == old(self)@.replaced(Some(stdin)),
    {
        self.replace(Some(stdin));
    }

    /// Stop forwarding. The pipe, if it is here, is closed.
    pub fn detach(&mut self)
        ensures
            final(self)@ == old(self)@.replaced(None),
    {
        self.replace(None);
    }

    /// Take the pipe out to write a chunk of input. Without one the chunk is discarded.
    pub fn take(&mut self) -> (taken: Option<(T, u64)>)
        ensures
            final(self)@ == old(self)@.taken(),
            taken == match old(self)@.stdin {
                Some(pipe) => Some((pipe, old(self)@.generation)),
                None => None,
            },
    {
        match self.stdin.take() {
            Some(pipe) => Some((pipe, self.generation)),
            None => None,
        }
    }

    /// Bring the pipe back after a write. One that is stale or broken is closed instead.
    pub fn put_back(&mut self, pipe: T, generation: u64, written: bool)
        ensures
            final(self)@ == old(self)@.returned(pipe, generation, written),
    {
        if written && self.generation == generation {
            self.stdin = Some(pipe);
        }
    }
}

/// The first backend, from the `i`th on, that asks for console input.
pub open spec fn wanted_from(backends: Seq<BackendModel>, i: int) -> Option<int>
    decreases backends.len() - i,
{
    if i >= backends.len() {
        None
    } else if backends[i].server.forward_stdin {
        Some(i)
    } else {
        wanted_from(backends, i + 1)
    }
}

/// The backend that gets console input. Terminal input has one source, so it is the first that
/// asks for it, the default one before the named ones.
pub fn console_slot(backends: &Vec<BackendConfig>) -> (slot: Option<usize>)
    ensures
        match slot {
            Some(i) => wanted_from(routes::backend_models(backends@), 0) == Some(i as int),
            None => wanted_from(routes::backend_models(backends@), 0) is None,
        },
{
    let ghost models = routes::backend_models(backends@);
    let mut i: usize = 0;
    while i < backends.len()
        invariant
            i <= backends@.len(),
            models == routes::backend_models(backends@),
            wanted_from(models, 0) == wanted_from(models, i as int),
        decreases backends@.len() - i,
    {
        proof {
            assert(models[i as int] == backends@[i as int]@);
        }
        if backends[i].server.forward_stdin {
            return Some(i);
        }
        i = i + 1;
    }
    None
}

/// Law: a pipe that was taken out is brought back to its own backend and to no other. Once the
/// console has been attached or detached in the meantime, the stale pipe changes nothing; up to
/// one change short of the counter's full round.
pub proof fn law_a_stale_pipe_stays_out<T>(
    before: AttachedModel<T>,
    after: AttachedModel<T>,
    pipe: T,
    k: nat,
    written: bool,
)
    requires
        0 < k < 0x1_0000_0000_0000_0000,
        after.generation == advanced(before.generation, k),
    ensures
        after.returned(pipe, before.generation, written) == after,
        written ==> before.taken().returned(pipe, before.generation, written).stdin == Some(pipe),
{
}

/// Law: the counter adds up over attaches and detaches.
pub proof fn law_changes_add_up(generation: u64, k: nat)
    ensures
        advanced(advanced(generation, k), 1) == advanced(generation, k + 1),
        advanced(generation, 0) == generation,
{
}

/// Law: no more than one backend gets console input, and one does exactly when any asks for it.
pub proof fn law_one_console(backends: Seq<BackendModel>, i: int)
    requires
        0 <= i,
    ensures
        match wanted_from(backends, i) {
            Some(k) => i <= k < backends.len() && backends[k].server.forward_stdin && forall|j: int|
                i <= j < k ==> !(#[trigger] backends[j]).server.forward_stdin,
            None => forall|j: int|
                i <= j < backends.len() ==> !(#[trigger] backends[j]).server.forward_stdin,
        },
    decreases backends.len() - i,
{
    if i < backends.len() && !backends[i].server.forward_stdin {
        law_one_console(backends, i + 1);
    }
}

/// Law: every attach and detach replaces the pipe and changes the counter, by one round the clock;
/// taking the pipe out leaves the counter, and bringing it back puts it there exactly when it
/// worked and nothing has changed in the meantime.
pub proof fn law_the_console_changes_hands<T>(
    attached: AttachedModel<T>,
    stdin: Option<T>,
    pipe: T,
    generation: u64,
    written: bool,
)
    ensures
        attached.replaced(stdin).stdin == stdin,
        attached.replaced(stdin).generation != attached.generation,
        attached.generation < u64::MAX ==> attached.replaced(stdin).generation
            == attached.generation + 1,
        attached.generation == u64::MAX ==> attached.replaced(stdin).generation == 0,
        attached.taken().stdin is None,
        attached.taken().generation == attached.generation,
        attached.returned(pipe, generation, written).generation == attached.generation,
        attached.returned(pipe, generation, written).stdin == (if written && attached.generation
            == generation {
            Some(pipe)
        } else {
            attached.stdin
        }),
{
}

} // verus!
