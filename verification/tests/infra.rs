//! Deciding about child processes and the console.

use sleepytale::address::SocketAddr;
use sleepytale::config::{BackendConfig, Config, ServerConfig};
use sleepytale::infra::console::{console_slot, Attached};
use sleepytale::infra::process::{
    BootError, BootScan, ChildState, ProcessBackend, Readiness, BOOT_MARKER,
};
use sleepytale::infra::stopping::{delivered, group_of, Event, Step, StopError};
use sleepytale::time::{Duration, Instant};

fn at(millis: u64) -> Instant {
    Instant { nanos: Duration::from_millis(millis).nanos }
}

fn shell_config(script: &str) -> Config {
    let mut config = Config::default();
    config.server.command = "sh".to_string();
    config.server.args = vec!["-c".to_string(), script.to_string()];
    config.server.working_dir = ".".to_string();
    config.server.forward_stdin = false;
    config.boot_timeout = Duration::from_secs(5);
    config.shutdown_grace = Duration::from_secs(2);
    config
}

fn backend(config: &Config) -> ProcessBackend {
    ProcessBackend::new(config, &config.default_backend(), false)
}

#[test]
fn detects_the_boot_banner() {
    let config = shell_config(
        "echo starting; echo '\\033[32m         Hytale Server Booted! [x] took 1s'; sleep 30",
    );
    let mut backend = backend(&config);
    backend.started(at(0));
    assert!(!backend.wrote(b"starting\n"));
    assert_eq!(
        backend.readiness(ChildState::Running, at(1)),
        Readiness::Pending
    );
    assert!(backend.wrote(b"\x1b[32m         Hytale Server Booted! [x] took 1s\n"));
    assert_eq!(
        backend.readiness(ChildState::Running, at(2)),
        Readiness::Ready
    );
}

#[test]
fn reports_a_backend_that_dies_while_starting() {
    let config = shell_config("echo loading; exit 3");
    let mut backend = backend(&config);
    backend.started(at(0));
    backend.wrote(b"loading\n");
    let error = match backend.readiness(ChildState::Exited, at(10)) {
        Readiness::Failed { error } => error,
        other => panic!("{other:?}"),
    };
    assert_eq!(error, BootError::Exited);
    let message = error.message("exit status: 3");
    assert!(
        message.contains("exited during startup"),
        "unexpected error: {message}"
    );
    assert_eq!(message, "backend exited during startup with exit status: 3");
}

#[test]
fn times_out_when_the_banner_never_arrives() {
    let mut config = shell_config("sleep 30");
    config.boot_timeout = Duration::from_millis(300);
    let mut backend = backend(&config);
    assert_eq!(backend.started(at(1000)), at(1300));
    assert_eq!(
        backend.readiness(ChildState::Running, at(1299)),
        Readiness::Pending
    );
    let error = match backend.readiness(ChildState::Running, at(1300)) {
        Readiness::Failed { error } => error,
        other => panic!("{other:?}"),
    };
    assert_eq!(error, BootError::TimedOut);
    assert!(error.message("300ms").contains("did not report"));
    assert_eq!(
        error.message("300ms"),
        "backend did not report `Hytale Server Booted!` within 300ms"
    );
}

#[test]
fn a_boot_needs_a_process_that_can_be_watched() {
    let config = shell_config("sleep 30");
    let mut backend = backend(&config);
    assert_eq!(
        backend.readiness(ChildState::Running, at(0)),
        Readiness::Failed { error: BootError::NotStarted }
    );
    assert_eq!(BootError::NotStarted.message(""), "backend not started");
    backend.started(at(0));
    assert_eq!(
        backend.readiness(ChildState::Unknown, at(0)),
        Readiness::Failed { error: BootError::WaitFailed }
    );
    assert_eq!(BootError::WaitFailed.message(""), "waiting on backend");
}

#[test]
fn a_backend_is_prepared_from_its_configuration() {
    let mut config = shell_config("true");
    config.backend = SocketAddr::V4 { ip: 0x7f00_0001, port: 5531 };
    let backend = ProcessBackend::new(&config, &config.default_backend(), true);
    assert_eq!(backend.command, "sh");
    assert_eq!(backend.args, ["-c", "true", "-b", "127.0.0.1:5531"]);
    assert_eq!(backend.working_dir, ".");
    assert_eq!(backend.boot_timeout, Duration::from_secs(5));
    assert_eq!(backend.shutdown_grace, Duration::from_secs(2));
    assert!(backend.console);
}

#[test]
fn an_endless_boot_timeout_has_a_deadline_at_the_end_of_time() {
    let mut config = shell_config("true");
    config.boot_timeout = Duration { nanos: u128::MAX };
    let mut backend = backend(&config);
    assert_eq!(backend.started(at(5)).nanos, u128::MAX);
}

#[test]
fn the_banner_is_found_however_the_output_is_cut() {
    assert_eq!(&BOOT_MARKER, b"Hytale Server Booted!");
    let output = b"noise Hytale Server Boot Hytale Server Booted! took 1s";
    for size in 1..output.len() {
        let mut scan = BootScan::new();
        let mut reports = 0;
        for chunk in output.chunks(size) {
            if scan.feed(chunk) {
                reports += 1;
            }
        }
        assert_eq!(reports, 1, "in chunks of {size}");
        assert!(scan.booted());
    }
}

#[test]
fn readiness_is_reported_once() {
    let mut scan = BootScan::new();
    assert!(scan.feed(b"Hytale Server Booted!"));
    assert!(!scan.feed(b"Hytale Server Booted!"));
    assert!(scan.booted());
    let mut scan = BootScan::new();
    assert!(!scan.feed(b"hytale server booted!"));
    assert!(!scan.booted());
}

/// Run the stop through the events, and return the steps that were asked for.
fn steps(console: bool, events: &[Event]) -> Vec<Step> {
    let mut step = Step::first(console);
    let mut asked = vec![step];
    for event in events {
        step = step.next(*event);
        asked.push(step);
    }
    asked
}

#[test]
fn kills_a_backend_that_ignores_sigterm() {
    assert_eq!(
        steps(
            false,
            &[
                Event::Alive { pid: 41 },
                Event::Signalled { delivered: true },
                Event::TimedOut,
                Event::Signalled { delivered: true },
                Event::Exited,
            ]
        ),
        [
            Step::Look,
            Step::Terminate { pid: 41 },
            Step::Await { pid: 41 },
            Step::Kill { pid: 41 },
            Step::Reap,
            Step::Done,
        ]
    );
}

#[test]
fn a_backend_that_ends_in_time_is_not_killed() {
    assert_eq!(
        steps(
            true,
            &[
                Event::Detached,
                Event::Alive { pid: 41 },
                Event::Signalled { delivered: true },
                Event::Exited,
            ]
        ),
        [
            Step::Detach,
            Step::Look,
            Step::Terminate { pid: 41 },
            Step::Await { pid: 41 },
            Step::Done,
        ]
    );
    assert_eq!(steps(false, &[Event::Absent]), [Step::Look, Step::Done]);
}

#[test]
fn stopping_fails_where_the_system_does() {
    let alive = Event::Alive { pid: 41 };
    let sent = Event::Signalled { delivered: true };
    let refused = Event::Signalled { delivered: false };
    let cases: [(&[Event], StopError, &str); 5] = [
        (
            &[Event::CheckFailed],
            StopError::Check,
            "checking backend status before shutdown",
        ),
        (
            &[alive, refused],
            StopError::Signal,
            "signalling the backend process group",
        ),
        (
            &[alive, sent, Event::WaitFailed],
            StopError::Wait,
            "waiting on backend",
        ),
        (
            &[alive, sent, Event::TimedOut, refused],
            StopError::Signal,
            "signalling the backend process group",
        ),
        (
            &[alive, sent, Event::TimedOut, sent, Event::WaitFailed],
            StopError::Reap,
            "reaping the killed backend",
        ),
    ];
    for (events, error, message) in cases {
        assert_eq!(steps(false, events).last(), Some(&Step::Failed { error }));
        assert_eq!(error.message(), message);
    }
}

#[test]
fn an_event_out_of_place_changes_nothing() {
    assert_eq!(Step::Look.next(Event::TimedOut), Step::Look);
    assert_eq!(Step::Done.next(Event::Alive { pid: 41 }), Step::Done);
}

#[test]
fn signals_go_to_the_group_and_a_missing_group_is_fine() {
    assert_eq!(group_of(41), -41);
    assert!(delivered(0, false));
    assert!(delivered(-1, true));
    assert!(!delivered(-1, false));
}

#[test]
fn a_pipe_comes_back_to_the_backend_it_was_taken_from() {
    let mut attached: Attached<&str> = Attached::new();
    assert_eq!(attached.take(), None);
    attached.attach("first");
    let (pipe, generation) = attached.take().unwrap();
    assert_eq!(attached.take(), None, "it is out for a write");
    attached.put_back(pipe, generation, true);
    assert_eq!(attached.take(), Some(("first", generation)));
}

#[test]
fn a_stale_or_broken_pipe_does_not_come_back() {
    let mut attached: Attached<&str> = Attached::new();
    attached.attach("first");
    let (pipe, generation) = attached.take().unwrap();
    attached.detach();
    attached.put_back(pipe, generation, true);
    assert_eq!(attached.take(), None);

    attached.attach("second");
    attached.put_back(pipe, generation, true);
    let (pipe, generation) = attached.take().unwrap();
    assert_eq!(pipe, "second");
    attached.put_back(pipe, generation, false);
    assert_eq!(attached.take(), None);
}

#[test]
fn the_first_backend_that_asks_gets_the_console() {
    let with = |forward_stdin: bool| BackendConfig {
        backend: SocketAddr::V4 { ip: 0x7f00_0001, port: 5521 },
        server: ServerConfig { forward_stdin, ..ServerConfig::default() },
    };
    assert_eq!(console_slot(&vec![with(false), with(false)]), None);
    assert_eq!(console_slot(&vec![with(false), with(true), with(true)]), Some(1));
    assert_eq!(console_slot(&vec![with(true), with(true)]), Some(0));
    assert_eq!(console_slot(&vec![]), None);
}
