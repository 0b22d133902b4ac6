//! Stopping a backend: ask it to end, give it time, and kill it only then.
//!
//! The first signal lets the server run its shutdown hook and flush worlds. Both signals go to
//! the whole process group: with the usual `sh -c "... java ..."` launcher the shell leads the
//! group and the JVM is a member, and signalling the leader alone would leave the JVM holding
//! the backend port.

use vstd::prelude::*;

verus! {

/// What is to be done next to stop a backend.
#[derive(Debug, Clone, Copy, PartialEq, Eq, Structural)]
pub enum Step {
    /// Take the console away from it.
    Detach,
    /// See whether it is still there.
    Look,
    /// Ask its process group to end.
    Terminate { pid: u32 },
    /// Wait for it to exit, for as long as it is given.
    Await { pid: u32 },
    /// Kill its process group.
    Kill { pid: u32 },
    /// Wait for it to be gone.
    Reap,
    /// It is gone.
    Done,
    /// It could not be stopped.
    Failed { error: StopError },
}

/// Why a backend could not be stopped.
#[derive(Debug, Clone, Copy, PartialEq, Eq, Structural)]
pub enum StopError {
    /// Its state could not be read.
    Check,
    /// Its process group could not be signalled.
    Signal,
    /// Waiting for it to exit failed.
    Wait,
    /// Waiting for it to be gone failed.
    Reap,
}

/// What came of doing a step.
#[derive(Debug, Clone, Copy, PartialEq, Eq, Structural)]
pub enum Event {
    Detached,
    /// There is no process, it has exited, or it has no process number any more.
    Absent,
    Alive { pid: u32 },
    CheckFailed,
    Signalled { delivered: bool },
    Exited,
    TimedOut,
    WaitFailed,
}

/// The first step.
pub open spec fn first(console: bool) -> Step {
    if console {
        Step::Detach
    } else {
        Step::Look
    }
}

/// The step after what came of this one. An event that does not belong to a step changes nothing.
pub open spec fn after(step: Step, event: Event) -> Step {
    match (step, event) {
        (Step::Detach, Event::Detached) => Step::Look,
        (Step::Look, Event::Absent) => Step::Done,
        (Step::Look, Event::CheckFailed) => Step::Failed { error: StopError::Check },
        (Step::Look, Event::Alive { pid }) => Step::Terminate { pid },
        (Step::Terminate { pid }, Event::Signalled { delivered }) => if delivered {
            Step::Await { pid }
        } else {
            Step::Failed { error: StopError::Signal }
        },
        (Step::Await { .. }, Event::Exited) => Step::Done,
        (Step::Await { .. }, Event::WaitFailed) => Step::Failed { error: StopError::Wait },
        (Step::Await { pid }, Event::TimedOut) => Step::Kill { pid },
        (Step::Kill { .. }, Event::Signalled { delivered }) => if delivered {
            Step::Reap
        } else {
            Step::Failed { error: StopError::Signal }
        },
        (Step::Reap, Event::Exited) => Step::Done,
        (Step::Reap, Event::WaitFailed) => Step::Failed { error: StopError::Reap },
        (step, _) => step,
    }
}

impl Step {
    /// The first step. A backend with the console has it taken away before anything else, so
    /// that nobody goes on typing into a server that is shutting down.
    pub fn first(console: bool) -> (step: Step)
        ensures
            step == first(console),
    {
        if console {
            Step::Detach
        } else {
            Step::Look
        }
    }

    /// The step after what came of this one.
    pub fn next(self, event: Event) -> (step: Step)
        ensures
            step == after(self, event),
    {
        match (self, event) {
            (Step::Detach, Event::Detached) => Step::Look,
            (Step::Look, Event::Absent) => Step::Done,
            (Step::Look, Event::CheckFailed) => Step::Failed { error: StopError::Check },
            (Step::Look, Event::Alive { pid }) => Step::Terminate { pid },
            (Step::Terminate { pid }, Event::Signalled { delivered }) => if delivered {
                Step::Await { pid }
            } else {
                Step::Failed { error: StopError::Signal }
            },
            (Step::Await { .. }, Event::Exited) => Step::Done,
            (Step::Await { .. }, Event::WaitFailed) => Step::Failed { error: StopError::Wait },
            (Step::Await { pid }, Event::TimedOut) => Step::Kill { pid },
            (Step::Kill { .. }, Event::Signalled { delivered }) => if delivered {
                Step::Reap
            } else {
                Step::Failed { error: StopError::Signal }
            },
            (Step::Reap, Event::Exited) => Step::Done,
            (Step::Reap, Event::WaitFailed) => Step::Failed { error: StopError::Reap },
            (step, _) => step,
        }
    }
}

/// The text of an error.
pub open spec fn stop_message(error: StopError) -> Seq<char> {
    match error {
        StopError::Check => "checking backend status before shutdown"@,
        StopError::Signal => "signalling the backend process group"@,
        StopError::Wait => "waiting on backend"@,
        StopError::Reap => "reaping the killed backend"@,
    }
}

impl StopError {
    /// Say what went wrong.
    pub fn message(&self) -> (out: String)
        ensures
            out@ == stop_message(*self),
    {
        match self {
            StopError::Check => "checking backend status before shutdown".to_string(),
            StopError::Signal => "signalling the backend process group".to_string(),
            StopError::Wait => "waiting on backend".to_string(),
            StopError::Reap => "reaping the killed backend".to_string(),
        }
    }
}

/// How a process group is addressed: by the negative of its leader's process number. The child
/// leads its group, since it was put in a new one.
pub fn group_of(pid: u32) -> (target: i32)
    requires
        0 < pid <= i32::MAX,
    ensures
        target == -(pid as int),
        target < 0,
{
    -(pid as i32)
}

/// Whether a signal did what it was for: it was sent, or the group was gone already.
pub fn delivered(result: i32, gone: bool) -> (yes: bool)
    ensures
        yes == (result != -1 || gone),
{
    result != -1 || gone
}

/// The step after a whole run of events.
pub open spec fn run(step: Step, events: Seq<Event>) -> Step
    decreases events.len(),
{
    if events.len() == 0 {
        step
    } else {
        after(run(step, events.drop_last()), events.last())
    }
}

/// Law: a backend is killed only once it was asked to end and did not within its grace. Whatever
/// happens, before a kill of a process group stands a wait for it that timed out, and before that
/// a request to end that was delivered to the same group.
pub proof fn law_killing_is_the_last_resort(console: bool, events: Seq<Event>, pid: u32)
    ensures
        run(first(console), events) == (Step::Kill { pid }) ==> exists|n: int, m: int|
            0 <= n < m < events.len() && #[trigger] run(first(console), events.take(n)) == (
            Step::Terminate { pid }) && events[n] == (Event::Signalled { delivered: true })
                && #[trigger] run(first(console), events.take(m)) == (Step::Await { pid })
                && events[m] == Event::TimedOut,
        run(first(console), events) == (Step::Await { pid }) ==> exists|n: int|
            0 <= n < events.len() && #[trigger] run(first(console), events.take(n)) == (
            Step::Terminate { pid }) && events[n] == (Event::Signalled { delivered: true }),
    decreases events.len(),
{
    if events.len() > 0 {
        let start = first(console);
        let last = events.len() - 1;
        let earlier = events.drop_last();
        law_killing_is_the_last_resort(console, earlier, pid);
        assert(events.take(last) =~= earlier);
        if run(start, events) == (Step::Kill { pid }) {
            if run(start, earlier) == (Step::Kill { pid }) {
                let (n, m) = choose|n: int, m: int|
                    0 <= n < m < earlier.len() && #[trigger] run(start, earlier.take(n)) == (
                    Step::Terminate { pid }) && earlier[n] == (Event::Signalled {
                        delivered: true,
                    }) && #[trigger] run(start, earlier.take(m)) == (Step::Await { pid })
                        && earlier[m] == Event::TimedOut;
                assert(events.take(n) =~= earlier.take(n));
                assert(events.take(m) =~= earlier.take(m));
                assert(run(start, events.take(n)) == (Step::Terminate { pid }));
                assert(run(start, events.take(m)) == (Step::Await { pid }));
            } else {
                assert(run(start, earlier) == (Step::Await { pid }));
                let n = choose|n: int|
                    0 <= n < earlier.len() && #[trigger] run(start, earlier.take(n)) == (
                    Step::Terminate { pid }) && earlier[n] == (Event::Signalled {
                        delivered: true,
                    });
                assert(events.take(n) =~= earlier.take(n));
                assert(run(start, events.take(n)) == (Step::Terminate { pid }));
                assert(run(start, events.take(last)) == (Step::Await { pid }));
            }
        }
        if run(start, events) == (Step::Await { pid }) {
            if run(start, earlier) == (Step::Await { pid }) {
                let n = choose|n: int|
                    0 <= n < earlier.len() && #[trigger] run(start, earlier.take(n)) == (
                    Step::Terminate { pid }) && earlier[n] == (Event::Signalled {
                        delivered: true,
                    });
                assert(events.take(n) =~= earlier.take(n));
                assert(run(start, events.take(n)) == (Step::Terminate { pid }));
            } else {
                assert(run(start, events.take(last)) == (Step::Terminate { pid }));
            }
        }
    }
}

/// How many steps are left at most.
pub open spec fn steps_left(step: Step) -> nat {
    match step {
        Step::Detach => 6,
        Step::Look => 5,
        Step::Terminate { .. } => 4,
        Step::Await { .. } => 3,
        Step::Kill { .. } => 2,
        Step::Reap => 1,
        Step::Done => 0,
        Step::Failed { .. } => 0,
    }
}

/// Law: stopping comes to an end: no event leads back, every step that moves leaves fewer to go,
/// and nothing leads away from the end.
pub proof fn law_stopping_ends(step: Step, event: Event)
    ensures
        after(step, event) != step ==> steps_left(after(step, event)) < steps_left(step),
        steps_left(step) == 0 ==> after(step, event) == step,
{
}

/// The run up to where a living backend has been asked to end.
pub open spec fn asked(console: bool, pid: u32) -> Seq<Event> {
    let looked = seq![Event::Alive { pid }, Event::Signalled { delivered: true }];
    if console {
        seq![Event::Detached] + looked
    } else {
        looked
    }
}

proof fn lemma_run(step: Step, events: Seq<Event>, event: Event)
    ensures
        run(step, events.push(event)) == after(run(step, events), event),
{
    assert(events.push(event).drop_last() =~= events);
}

/// Law: a backend that is alive is asked to end and waited for; if it exits within its grace that is
/// all, and if it does not, it is killed and waited for until it is gone. The group that is signalled
/// is the one that was found alive, both times.
pub proof fn law_stopping_takes_its_course(console: bool, pid: u32)
    ensures
        ({
            let start = first(console);
            let events = asked(console, pid);
            &&& start == if console {
                Step::Detach
            } else {
                Step::Look
            }
            &&& run(start, events.drop_last()) == (Step::Terminate { pid })
            &&& run(start, events) == (Step::Await { pid })
            &&& run(start, events.push(Event::Exited)) == Step::Done
            &&& run(start, events.push(Event::WaitFailed)) == (Step::Failed {
                error: StopError::Wait,
            })
            &&& run(start, events.push(Event::TimedOut)) == (Step::Kill { pid })
            &&& run(
                start,
                events.push(Event::TimedOut).push(Event::Signalled { delivered: true }),
            ) == Step::Reap
            &&& run(
                start,
                events.push(Event::TimedOut).push(Event::Signalled { delivered: true }).push(
                    Event::Exited,
                ),
            ) == Step::Done
        }),
{
    let start = first(console);
    let none = Seq::<Event>::empty();
    let looked = if console {
        none.push(Event::Detached)
    } else {
        none
    };
    let alive = looked.push(Event::Alive { pid });
    let events = alive.push(Event::Signalled { delivered: true });
    assert(asked(console, pid) =~= events);
    assert(events.drop_last() =~= alive);
    lemma_run(start, none, Event::Detached);
    assert(run(start, none) == start);
    lemma_run(start, looked, Event::Alive { pid });
    lemma_run(start, alive, Event::Signalled { delivered: true });
    lemma_run(start, events, Event::Exited);
    lemma_run(start, events, Event::WaitFailed);
    lemma_run(start, events, Event::TimedOut);
    let late = events.push(Event::TimedOut);
    lemma_run(start, late, Event::Signalled { delivered: true });
    lemma_run(start, late.push(Event::Signalled { delivered: true }), Event::Exited);
}

/// Law: stopping is over at once when nothing is there, and it fails, saying at what, when a step
/// cannot be done. The console is given back and the process looked for whatever else happens.
pub proof fn law_what_can_go_wrong(pid: u32)
    ensures
        after(Step::Detach, Event::Detached) == Step::Look,
        after(Step::Look, Event::Absent) == Step::Done,
        after(Step::Look, Event::CheckFailed) == (Step::Failed { error: StopError::Check }),
        after(Step::Terminate { pid }, Event::Signalled { delivered: false }) == (Step::Failed {
            error: StopError::Signal,
        }),
        after(Step::Kill { pid }, Event::Signalled { delivered: false }) == (Step::Failed {
            error: StopError::Signal,
        }),
        after(Step::Await { pid }, Event::WaitFailed) == (Step::Failed { error: StopError::Wait }),
        after(Step::Reap, Event::WaitFailed) == (Step::Failed { error: StopError::Reap }),
{
}

/// The event is an answer to the step.
pub open spec fn answers(event: Event, step: Step) -> bool {
    match event {
        Event::Detached => step is Detach,
        Event::Absent => step is Look,
        Event::Alive { .. } => step is Look,
        Event::CheckFailed => step is Look,
        Event::Signalled { .. } => step is Terminate || step is Kill,
        Event::Exited => step is Await || step is Reap,
        Event::TimedOut => step is Await,
        Event::WaitFailed => step is Await || step is Reap,
    }
}

/// Law: an event moves things on exactly when it is an answer to the step at hand.
pub proof fn law_only_answers_count(step: Step, event: Event)
    ensures
        after(step, event) != step <==> answers(event, step),
{
}

} // verus!
