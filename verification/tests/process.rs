//! Waiting for child processes, driven by the events that a child would cause.
use ec_engine::process::{
    decimal_text, output_of, output_or_empty, windows_taskkill_args, Action, CommandError, Event,
    Outcome, RunResult, Watch, MAX_PAUSE_MS, MAX_STDOUT,
};

#[test]
fn windows_timeout_kill_includes_process_tree_flag() {
    assert_eq!(windows_taskkill_args(4242), ["/PID", "4242", "/T", "/F"]);
}

#[test]
fn decimal_numbers_are_written_without_leading_zeros() {
    assert_eq!(decimal_text(0), "0");
    assert_eq!(decimal_text(10), "10");
    assert_eq!(decimal_text(u64::MAX), "18446744073709551615");
}

#[test]
fn times_out_and_returns_empty() {
    let mut watch = Watch::new(false, false);
    assert_eq!(watch.step(Event::Drained), Action::TryWait);
    assert_eq!(watch.step(Event::Running { remaining_ms: 50 }), Action::Poll(20));
    assert_eq!(watch.step(Event::Woke), Action::Drain);
    assert_eq!(watch.step(Event::Drained), Action::TryWait);
    let action = watch.step(Event::Running { remaining_ms: 0 });
    assert_eq!(action, Action::KillAndReap(Outcome::TimedOut));
    let result = watch.run_result(Outcome::TimedOut);
    assert_eq!(result, RunResult::TimedOut);
    assert!(output_or_empty(RunResult::TimedOut).is_empty());
    assert_eq!(output_of(RunResult::TimedOut), None);
}

#[test]
fn captures_stdout_without_an_extra_thread() {
    let mut watch = Watch::new(false, false);
    watch.stdout.receive(b"hello-engine");
    watch.stdout.close();
    assert_eq!(watch.step(Event::Drained), Action::TryWait);
    assert_eq!(watch.step(Event::Exited { status: Some(0), success: true }), Action::Drain);
    assert_eq!(watch.step(Event::Drained), Action::Finish(Outcome::Done(0)));
    assert_eq!(output_or_empty(watch.run_result(Outcome::Done(0))), "hello-engine");
}

#[test]
fn execute_full_captures_stdout_and_stderr_without_an_extra_thread() {
    let mut watch = Watch::new(true, false);
    watch.stdout.receive(b"hello-out");
    watch.stderr.receive(b"hello-err");
    watch.stdout.close();
    watch.stderr.close();
    assert_eq!(watch.step(Event::Drained), Action::TryWait);
    assert_eq!(watch.step(Event::Exited { status: Some(0), success: true }), Action::Drain);
    assert_eq!(watch.step(Event::Drained), Action::Finish(Outcome::Done(0)));
    let out = watch.command_result(Outcome::Done(0)).expect("ok");
    assert_eq!(out.status, 0);
    assert_eq!(out.stdout, "hello-out");
    assert_eq!(out.stderr, "hello-err");
}

#[test]
fn execute_full_times_out() {
    let mut watch = Watch::new(true, false);
    assert_eq!(watch.step(Event::Drained), Action::TryWait);
    assert_eq!(
        watch.step(Event::Running { remaining_ms: 0 }),
        Action::KillAndReap(Outcome::TimedOut)
    );
    assert_eq!(watch.command_result(Outcome::TimedOut), Err(CommandError::TimedOut));
}

#[test]
fn execute_full_caps_stdout_without_waiting_for_eof() {
    let mut watch = Watch::new(true, false);
    while watch.stdout.wants_more() {
        watch.stdout.receive(b"xxxxxxxxxxxxxxxxxxxxxxxxxxxxxxx");
    }
    assert_eq!(watch.step(Event::Drained), Action::KillAndReap(Outcome::Done(-1)));
    let out = watch.command_result(Outcome::Done(-1)).expect("capped output is success");
    assert_eq!(out.stdout.len(), MAX_STDOUT);
    assert_eq!(out.status, -1);
}

#[test]
fn returns_stdout_after_pipe_closes_even_if_child_hangs() {
    let mut watch = Watch::new(false, false);
    watch.stdout.receive(b"hello-eof");
    watch.stdout.close();
    assert_eq!(watch.step(Event::Drained), Action::TryWait);
    assert_eq!(watch.step(Event::Running { remaining_ms: 150 }), Action::Sleep(MAX_PAUSE_MS));
    assert_eq!(watch.step(Event::Woke), Action::Drain);
    assert_eq!(watch.step(Event::Drained), Action::TryWait);
    let action = watch.step(Event::Running { remaining_ms: 0 });
    assert_eq!(action, Action::KillAndReap(Outcome::Done(-1)));
    assert_eq!(output_or_empty(watch.run_result(Outcome::Done(-1))), "hello-eof");
}

#[test]
fn strict_isolated_execution_rejects_nonzero_status() {
    let mut watch = Watch::new(false, true);
    watch.stdout.receive(b"misleading");
    watch.stdout.close();
    assert_eq!(watch.step(Event::Drained), Action::TryWait);
    assert_eq!(watch.step(Event::Exited { status: Some(7), success: false }), Action::Drain);
    assert_eq!(watch.step(Event::Drained), Action::Finish(Outcome::Failed));
    assert_eq!(output_of(watch.run_result(Outcome::Failed)), None);
}

#[test]
fn a_child_that_leaves_a_pipe_open_takes_its_group_with_it() {
    let mut watch = Watch::new(true, false);
    watch.stdout.receive(b"out");
    watch.stdout.close();
    assert_eq!(watch.step(Event::Exited { status: None, success: false }), Action::Drain);
    assert_eq!(watch.step(Event::Drained), Action::KillGroup(Outcome::Done(-1)));
}

#[test]
fn a_child_that_cannot_be_watched_fails() {
    let mut watch = Watch::new(true, false);
    assert_eq!(watch.step(Event::WaitFailed), Action::KillAndReap(Outcome::Failed));
    let mut watch = Watch::new(true, false);
    assert_eq!(watch.step(Event::PollFailed), Action::KillAndReap(Outcome::Failed));
    assert_eq!(watch.command_result(Outcome::Failed), Err(CommandError::Failed));
}

#[test]
fn invalid_pipes_count_as_closed() {
    let mut watch = Watch::new(true, false);
    assert_eq!(watch.step(Event::Invalid { stdout: true, stderr: false }), Action::Drain);
    assert!(watch.stdout.closed);
    assert!(!watch.stderr.closed);
    assert_eq!(watch.step(Event::Running { remaining_ms: 5 }), Action::Poll(5));
    assert_eq!(watch.step(Event::Invalid { stdout: false, stderr: true }), Action::Drain);
    assert_eq!(watch.step(Event::Running { remaining_ms: 5 }), Action::Sleep(5));
}

#[test]
fn broken_encodings_are_replaced() {
    let mut watch = Watch::new(false, false);
    watch.stdout.receive(&[b'a', 0xff, b'b']);
    watch.stdout.close();
    assert_eq!(output_or_empty(watch.run_result(Outcome::Done(0))), "a\u{fffd}b");
}
