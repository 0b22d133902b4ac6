//! Deciding about a backend that runs as a child process.
//!
//! Readiness comes from the server's own boot banner rather than from probing the port: the
//! banner is logged once every module is up and the transport is bound, which is exactly the
//! moment relaying becomes safe. The port is bound long before the world has loaded.

use crate::config::{Config, ConfigModel};
use crate::routes::{self, BackendConfig, BackendModel};
use crate::time::{Duration, Instant};
use vstd::prelude::*;
use vstd::slice::slice_subrange;
use vstd::string::*;

verus! {

/// How long the banner is.
pub const MARKER_LEN: usize = 21;

/// Substring of the server's boot banner, `Hytale Server Booted!`. Matching a substring rather
/// than the whole line keeps this working through the colour codes the server prefixes.
pub const BOOT_MARKER: [u8; 21] = [
    0x48, 0x79, 0x74, 0x61, 0x6c, 0x65, 0x20,
    0x53, 0x65, 0x72, 0x76, 0x65, 0x72, 0x20,
    0x42, 0x6f, 0x6f, 0x74, 0x65, 0x64, 0x21,
];

/// The banner stands at a place in the output.
pub open spec fn banner_at(output: Seq<u8>, i: int) -> bool {
    &&& 0 <= i
    &&& i + MARKER_LEN <= output.len()
    &&& output.subrange(i, i + MARKER_LEN) == BOOT_MARKER@
}

/// The banner stands somewhere in the output.
pub open spec fn has_banner(output: Seq<u8>) -> bool {
    exists|i: int| #[trigger] banner_at(output, i)
}

/// Find the banner in a piece of output.
fn find_banner(output: &Vec<u8>) -> (found: bool)
    ensures
        found == has_banner(output@),
{
    let mut i: usize = 0;
    while i < output.len()
        invariant
            i <= output@.len(),
            forall|k: int| 0 <= k < i ==> !(#[trigger] banner_at(output@, k)),
        decreases output@.len() - i,
    {
        let mut n: usize = 0;
        while n < MARKER_LEN && n < output.len() - i && output[i + n] == BOOT_MARKER[n]
            invariant
                n <= MARKER_LEN,
                n <= output@.len() - i,
                i < output@.len(),
                forall|k: int| 0 <= k < n ==> output@[i + k] == #[trigger] BOOT_MARKER@[k],
            decreases MARKER_LEN - n,
        {
            n = n + 1;
        }
        if n == MARKER_LEN {
            proof {
                assert(output@.subrange(i as int, i + MARKER_LEN) =~= BOOT_MARKER@);
                assert(banner_at(output@, i as int));
            }
            return true;
        }
        proof {
            if banner_at(output@, i as int) {
                assert(output@.subrange(i as int, i + MARKER_LEN)[n as int] == output@[i + n]);
            }
        }
        i = i + 1;
    }
    false
}

/// Watches a backend's output for the banner, however the output is cut into chunks.
pub struct BootScan {
    tail: Vec<u8>,
    booted: bool,
    output: Ghost<Seq<u8>>,
}

impl View for BootScan {
    type V = Seq<u8>;

    /// Everything that was fed so far.
    closed spec fn view(&self) -> Seq<u8> {
        self.output@
    }
}

/// The end of the output, one byte short of a banner.
spec fn tail_of(output: Seq<u8>) -> Seq<u8> {
    if output.len() >= MARKER_LEN {
        output.skip(output.len() - (MARKER_LEN - 1))
    } else {
        output
    }
}

/// A banner in longer output is either one that was there before, or one that reaches into the
/// new part and so starts no further back than the tail.
proof fn lemma_banner(output: Seq<u8>, chunk: Seq<u8>)
    ensures
        has_banner(output + chunk) <==> has_banner(output) || has_banner(tail_of(output) + chunk),
{
    let all = output + chunk;
    let tail = tail_of(output);
    let near = tail + chunk;
    let cut = output.len() - tail.len();
    assert(near =~= all.skip(cut));
    if has_banner(all) {
        let i = choose|i: int| banner_at(all, i);
        assert(banner_at(all, i));
        if i + MARKER_LEN <= output.len() {
            assert(output.subrange(i, i + MARKER_LEN) =~= all.subrange(i, i + MARKER_LEN));
            assert(banner_at(output, i));
        } else {
            assert(i >= cut);
            assert(near.subrange(i - cut, i - cut + MARKER_LEN) =~= all.subrange(
                i,
                i + MARKER_LEN,
            ));
            assert(banner_at(near, i - cut));
        }
    }
    if has_banner(output) {
        let i = choose|i: int| banner_at(output, i);
        assert(banner_at(output, i));
        assert(output.subrange(i, i + MARKER_LEN) =~= all.subrange(i, i + MARKER_LEN));
        assert(banner_at(all, i));
    }
    if has_banner(near) {
        let i = choose|i: int| banner_at(near, i);
        assert(banner_at(near, i));
        assert(near.subrange(i, i + MARKER_LEN) =~= all.subrange(i + cut, i + cut + MARKER_LEN));
        assert(banner_at(all, i + cut));
    }
}

impl BootScan {
    #[verifier::type_invariant]
    spec fn inv(self) -> bool {
        &&& self.tail@ == tail_of(self.output@)
        &&& self.booted == has_banner(self.output@)
    }

    pub fn new() -> (scan: BootScan)
        ensures
            scan@ == Seq::<u8>::empty(),
    {
        proof {
            assert forall|i: int| !(#[trigger] banner_at(Seq::<u8>::empty(), i)) by {}
        }
        BootScan { tail: Vec::new(), booted: false, output: Ghost(Seq::empty()) }
    }

    /// Whether the banner has been seen.
    pub fn booted(&self) -> (yes: bool)
        ensures
            yes == has_banner(self@),
    {
        proof {
            use_type_invariant(self);
        }
        self.booted
    }

    /// Take in a chunk of output. Says whether it completed the first banner.
    pub fn feed(&mut self, chunk: &[u8]) -> (ready: bool)
        ensures
            final(self)@ == old(self)@ + chunk@,
            ready == (has_banner(final(self)@) && !has_banner(old(self)@)),
    {
        proof {
            use_type_invariant(&*self);
            lemma_banner(self.output@, chunk@);
        }
        let mut near: Vec<u8> = self.tail.clone();
        near.extend_from_slice(chunk);
        proof {
            assert(near@ =~= tail_of(self.output@) + chunk@);
        }
        let found = find_banner(&near);
        let ready = found && !self.booted;
        let booted = found || self.booted;
        let ghost output = self.output@ + chunk@;
        let keep: usize = MARKER_LEN - 1;
        let mut tail: Vec<u8> = Vec::new();
        if near.len() > keep {
            tail.extend_from_slice(
                slice_subrange(near.as_slice(), near.len() - keep, near.len()),
            );
            proof {
                assert(tail@ =~= tail_of(output));
            }
        } else {
            tail = near;
            proof {
                assert(tail@ =~= tail_of(output));
            }
        }
        *self = BootScan { tail, booted, output: Ghost(output) };
        ready
    }
}

/// Why a backend did not get ready.
#[derive(Debug, Clone, Copy, PartialEq, Eq, Structural)]
pub enum BootError {
    /// There is no child process.
    NotStarted,
    /// The child exited before it reported its banner.
    Exited,
    /// The child's state could not be read.
    WaitFailed,
    /// The deadline passed without the banner.
    TimedOut,
}

/// What is known of a child process while it boots.
#[derive(Debug, Clone, Copy, PartialEq, Eq, Structural)]
pub enum ChildState {
    Running,
    Exited,
    Unknown,
}

/// How far a boot has come.
#[derive(Debug, Clone, Copy, PartialEq, Eq, Structural)]
pub enum Readiness {
    Ready,
    Pending,
    Failed { error: BootError },
}

/// The text of a boot error. `detail` is the exit status, or the time that was allowed.
pub open spec fn boot_message(error: BootError, detail: Seq<char>) -> Seq<char> {
    match error {
        BootError::NotStarted => "backend not started"@,
        BootError::Exited => "backend exited during startup with "@ + detail,
        BootError::WaitFailed => "waiting on backend"@,
        BootError::TimedOut => "backend did not report `Hytale Server Booted!` within "@ + detail,
    }
}

impl BootError {
    /// Say what went wrong. `detail` is the exit status, or the time that was allowed.
    pub fn message(&self, detail: &str) -> (out: String)
        ensures
            out@ == boot_message(*self, detail@),
    {
        match self {
            BootError::NotStarted => "backend not started".to_string(),
            BootError::Exited => "backend exited during startup with ".to_string().concat(detail),
            BootError::WaitFailed => "waiting on backend".to_string(),
            BootError::TimedOut =>
                "backend did not report `Hytale Server Booted!` within ".to_string().concat(detail),
        }
    }
}

/// A backend that runs as a local child process: how to start it, and how far it has come.
pub struct ProcessBackend {
    pub command: String,
    pub args: Vec<String>,
    pub working_dir: String,
    pub boot_timeout: Duration,
    pub shutdown_grace: Duration,
    /// Give the child a pipe for its standard input; it gets none otherwise.
    pub console: bool,
    started_at: Option<Instant>,
    scan: BootScan,
}

/// What a [`ProcessBackend`] knows.
pub struct ProcessModel {
    pub command: Seq<char>,
    pub args: Seq<Seq<char>>,
    pub working_dir: Seq<char>,
    pub boot_timeout: Duration,
    pub shutdown_grace: Duration,
    pub console: bool,
    pub started_at: Option<Instant>,
    /// Everything the child has written.
    pub output: Seq<u8>,
}

impl View for ProcessBackend {
    type V = ProcessModel;

    closed spec fn view(&self) -> ProcessModel {
        ProcessModel {
            command: self.command@,
            args: routes::texts(self.args@),
            working_dir: self.working_dir@,
            boot_timeout: self.boot_timeout,
            shutdown_grace: self.shutdown_grace,
            console: self.console,
            started_at: self.started_at,
            output: self.scan@,
        }
    }
}

impl ProcessModel {
    /// A backend as configured, not started yet.
    pub open spec fn prepared(config: ConfigModel, backend: BackendModel, console: bool) -> ProcessModel {
        ProcessModel {
            command: backend.server.command,
            args: routes::bind_args(backend),
            working_dir: backend.server.working_dir,
            boot_timeout: config.boot_timeout,
            shutdown_grace: config.shutdown_grace,
            console,
            started_at: None,
            output: Seq::empty(),
        }
    }

    /// The instant by which the backend must report readiness. It counts from the start, not
    /// from a question about it, so a retrying client cannot keep a hung backend alive.
    pub open spec fn deadline(self, started_at: Instant) -> nat {
        started_at.spec_plus(self.boot_timeout)
    }

    /// How far the boot has come.
    pub open spec fn readiness(self, child: ChildState, now: Instant) -> Readiness {
        if has_banner(self.output) {
            Readiness::Ready
        } else {
            match self.started_at {
                None => Readiness::Failed { error: BootError::NotStarted },
                Some(started_at) => match child {
                    ChildState::Exited => Readiness::Failed { error: BootError::Exited },
                    ChildState::Unknown => Readiness::Failed { error: BootError::WaitFailed },
                    ChildState::Running => if now.nanos >= self.deadline(started_at) {
                        Readiness::Failed { error: BootError::TimedOut }
                    } else {
                        Readiness::Pending
                    },
                },
            }
        }
    }
}

impl ProcessBackend {
    /// Prepare a backend. It is not started until its process is spawned.
    pub fn new(config: &Config, backend: &BackendConfig, console: bool) -> (process: ProcessBackend)
        ensures
            process@ == ProcessModel::prepared(config@, backend@, console),
    {
        ProcessBackend {
            command: backend.server.command.clone(),
            args: backend.server_args(),
            working_dir: backend.server.working_dir.clone(),
            boot_timeout: config.boot_timeout,
            shutdown_grace: config.shutdown_grace,
            console,
            started_at: None,
            scan: BootScan::new(),
        }
    }

    /// The process was spawned. Says by when it must report readiness.
    pub fn started(&mut self, now: Instant) -> (deadline: Instant)
        ensures
            final(self)@ == (ProcessModel { started_at: Some(now), ..old(self)@ }),
            deadline.nanos == old(self)@.deadline(now),
    {
        self.started_at = Some(now);
        now.plus(self.boot_timeout)
    }

    /// The child wrote something. Says whether that completed the banner.
    pub fn wrote(&mut self, chunk: &[u8]) -> (ready: bool)
        ensures
            final(self)@ == (ProcessModel { output: old(self)@.output + chunk@, ..old(self)@ }),
            ready == (has_banner(final(self)@.output) && !has_banner(old(self)@.output)),
    {
        self.scan.feed(chunk)
    }

    /// How far the boot has come, given what is known of the child.
    pub fn readiness(&self, child: ChildState, now: Instant) -> (readiness: Readiness)
        ensures
            readiness == self@.readiness(child, now),
    {
        if self.scan.booted() {
            return Readiness::Ready;
        }
        match self.started_at {
            None => Readiness::Failed { error: BootError::NotStarted },
            Some(started_at) => match child {
                ChildState::Exited => Readiness::Failed { error: BootError::Exited },
                ChildState::Unknown => Readiness::Failed { error: BootError::WaitFailed },
                ChildState::Running => if now.nanos >= started_at.plus(self.boot_timeout).nanos {
                    Readiness::Failed { error: BootError::TimedOut }
                } else {
                    Readiness::Pending
                },
            },
        }
    }
}

/// Law: whether the banner is found does not depend on how the output was cut into chunks.
pub proof fn law_chunks_do_not_matter(
    process: ProcessModel,
    first: Seq<u8>,
    second: Seq<u8>,
    child: ChildState,
    now: Instant,
)
    ensures
        (ProcessModel { output: (process.output + first) + second, ..process }).readiness(
            child,
            now,
        ) == (ProcessModel { output: process.output + (first + second), ..process }).readiness(
            child,
            now,
        ),
{
    assert((process.output + first) + second =~= process.output + (first + second));
}

/// Law: the banner is found wherever it stands, whatever the server prints around it.
pub proof fn law_the_banner_is_found_anywhere(before: Seq<u8>, after: Seq<u8>)
    ensures
        has_banner(before + BOOT_MARKER@ + after),
{
    let output = before + BOOT_MARKER@ + after;
    let i = before.len() as int;
    assert(output.subrange(i, i + MARKER_LEN) =~= BOOT_MARKER@);
    assert(banner_at(output, i));
}

/// Law: once ready, a backend stays ready, whatever it writes.
pub proof fn law_ready_is_for_good(output: Seq<u8>, more: Seq<u8>)
    requires
        has_banner(output),
    ensures
        has_banner(output + more),
{
    lemma_banner(output, more);
}

/// Law: a boot that has timed out stays failed however long one waits on, and is pending at
/// every moment before its deadline.
pub proof fn law_the_deadline_is_absolute(
    process: ProcessModel,
    started_at: Instant,
    now: Instant,
    later: Instant,
)
    requires
        process.started_at == Some(started_at),
        !has_banner(process.output),
        now.nanos <= later.nanos,
    ensures
        process.readiness(ChildState::Running, now) == (Readiness::Failed {
            error: BootError::TimedOut,
        }) ==> process.readiness(ChildState::Running, later) == (Readiness::Failed {
            error: BootError::TimedOut,
        }),
        process.readiness(ChildState::Running, now) == Readiness::Pending <==> now.nanos
            < process.deadline(started_at),
{
}

/// Law: the banner is the line `Hytale Server Booted!`, whole and unbroken, and nothing else makes
/// a backend ready.
pub proof fn law_only_the_banner_counts(output: Seq<u8>)
    ensures
        BOOT_MARKER@.len() == "Hytale Server Booted!"@.len(),
        forall|i: int|
            0 <= i < BOOT_MARKER@.len() ==> (#[trigger] BOOT_MARKER@[i]) as char
                == "Hytale Server Booted!"@[i],
        has_banner(output) <==> exists|before: Seq<u8>, after: Seq<u8>|
            output == #[trigger] (before + BOOT_MARKER@ + after),
{
    reveal_strlit("Hytale Server Booted!");
    if has_banner(output) {
        let i = choose|i: int| banner_at(output, i);
        assert(banner_at(output, i));
        let before = output.take(i);
        let after = output.skip(i + MARKER_LEN);
        assert(output =~= before + BOOT_MARKER@ + after);
    }
    if exists|before: Seq<u8>, after: Seq<u8>|
        output == #[trigger] (before + BOOT_MARKER@ + after) {
        let (before, after) = choose|before: Seq<u8>, after: Seq<u8>|
            output == #[trigger] (before + BOOT_MARKER@ + after);
        law_the_banner_is_found_anywhere(before, after);
    }
}

/// Law: a backend is ready once its banner stood in the output, whatever has become of it since.
/// Before that it is pending for as long as its process runs and less than the boot timeout has
/// passed since its start, and has failed otherwise.
pub proof fn law_how_a_boot_ends(process: ProcessModel, child: ChildState, now: Instant)
    ensures
        has_banner(process.output) ==> process.readiness(child, now) == Readiness::Ready,
        !has_banner(process.output) ==> match process.started_at {
            None => process.readiness(child, now) == (Readiness::Failed {
                error: BootError::NotStarted,
            }),
            Some(started_at) => {
                &&& child is Exited ==> process.readiness(child, now) == (Readiness::Failed {
                    error: BootError::Exited,
                })
                &&& child is Unknown ==> process.readiness(child, now) == (Readiness::Failed {
                    error: BootError::WaitFailed,
                })
                &&& started_at.nanos + process.boot_timeout.nanos <= u128::MAX ==> {
                    &&& child is Running && now.nanos < started_at.nanos
                        + process.boot_timeout.nanos ==> process.readiness(child, now)
                        == Readiness::Pending
                    &&& child is Running && now.nanos >= started_at.nanos
                        + process.boot_timeout.nanos ==> process.readiness(child, now) == (
                    Readiness::Failed { error: BootError::TimedOut })
                    &&& process.deadline(started_at) == started_at.nanos
                        + process.boot_timeout.nanos
                }
            },
        },
{
}

/// Law: a backend is run by its own program, in its own directory, with its own arguments before
/// those that bind it, and with the configured times; nothing has happened to it yet.
pub proof fn law_a_backend_is_run_as_configured(
    config: ConfigModel,
    backend: BackendModel,
    console: bool,
    i: int,
)
    ensures
        ({
            let process = ProcessModel::prepared(config, backend, console);
            let n = backend.server.args.len() as int;
            &&& process.command == backend.server.command
            &&& process.working_dir == backend.server.working_dir
            &&& process.args.len() == n + 2
            &&& 0 <= i < n ==> process.args[i] == backend.server.args[i]
            &&& process.args[n] == seq!['-', 'b']
            &&& process.args[n + 1] == backend.backend.text()
            &&& process.boot_timeout == config.boot_timeout
            &&& process.shutdown_grace == config.shutdown_grace
            &&& process.console == console
            &&& process.started_at is None
            &&& process.output.len() == 0
        }),
{
    routes::law_arguments_stay_in_place(backend, i);
}

/// Law: a boot error gives its detail in full, and of one kind always in the same words.
pub proof fn law_boot_errors_give_their_detail(
    error: BootError,
    detail: Seq<char>,
    second: Seq<char>,
)
    ensures
        error is Exited || error is TimedOut ==> exists|words: Seq<char>|
            boot_message(error, detail) == #[trigger] (words + detail) && boot_message(error, second)
                == words + second,
        error is NotStarted || error is WaitFailed ==> boot_message(error, detail) == boot_message(
            error,
            second,
        ),
{
    let exited = "backend exited during startup with "@;
    let late = "backend did not report `Hytale Server Booted!` within "@;
    if error is Exited {
        assert(boot_message(error, detail) == exited + detail);
    }
    if error is TimedOut {
        assert(boot_message(error, detail) == late + detail);
    }
}

} // verus!
