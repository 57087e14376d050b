//! Waiting for a child process: what to do next, given what was read from its
//! pipes and what is known of its end. Nothing here touches a process; whoever
//! owns one performs the actions and reports the events.
use vstd::prelude::*;
use vstd::utf8::encode_utf8;

use crate::text::{opt_text, texts};

verus! {

/// The number of bytes kept of each pipe at most.
pub const MAX_STDOUT: usize = 262144;

/// The longest pause between two looks at the child, in milliseconds.
pub const MAX_PAUSE_MS: u64 = 20;

// ---------------------------------------------------------------------------
// Results
// ---------------------------------------------------------------------------
/// The result of a command of which the output counts.
#[derive(Debug, PartialEq, Eq)]
pub enum RunResult {
    Output(String),
    TimedOut,
    Failed,
}

/// The result of a command of which everything counts. A status that is not
/// zero is a result too.
#[derive(Debug, PartialEq, Eq)]
pub struct CommandOutput {
    pub status: i32,
    pub stdout: String,
    pub stderr: String,
}

/// Why a command gave no result.
#[derive(Debug, Clone, Copy, PartialEq, Eq, Structural)]
pub enum CommandError {
    TimedOut,
    Failed,
}

/// The output of a command, where there is one.
pub open spec fn output_text(result: RunResult) -> Option<Seq<char>> {
    match result {
        RunResult::Output(text) => Some(text@),
        _ => None,
    }
}

/// The output of a command; absent on timeout and failure, so that nobody keeps
/// an empty one.
pub fn output_of(result: RunResult) -> (text: Option<String>)
    ensures
        opt_text(text) == output_text(result),
{
    match result {
        RunResult::Output(text) => Some(text),
        _ => None,
    }
}

/// The output of a command; empty on timeout and failure.
pub fn output_or_empty(result: RunResult) -> (text: String)
    ensures
        text@ == match output_text(result) {
            Some(text) => text,
            None => Seq::empty(),
        },
{
    match result {
        RunResult::Output(text) => text,
        _ => String::new(),
    }
}

/// The text that bytes spell, with replacement characters for what is no
/// UTF-8, as `String::from_utf8_lossy` gives it.
pub uninterp spec fn lossy_text(bytes: Seq<u8>) -> Seq<char>;

/// Calls `String::from_utf8_lossy`. The text depends on the bytes alone, and is
/// the one that was encoded where the bytes are the encoding of a text.
#[verifier::external_body]
fn decode_lossy(bytes: &[u8]) -> (text: String)
    ensures
        text@ == lossy_text(bytes@),
        forall|s: Seq<char>| bytes@ == #[trigger] encode_utf8(s) ==> text@ == s,
{
    String::from_utf8_lossy(bytes).into_owned()
}

// ---------------------------------------------------------------------------
// The child
// ---------------------------------------------------------------------------
/// What was read from a pipe.
#[derive(Debug)]
pub struct Pipe {
    pub bytes: Vec<u8>,
    pub closed: bool,
}

/// What a pipe holds.
#[verifier::ext_equal]
pub struct PipeView {
    pub bytes: Seq<u8>,
    pub closed: bool,
}

impl View for Pipe {
    type V = PipeView;

    open spec fn view(&self) -> PipeView {
        PipeView { bytes: self.bytes@, closed: self.closed }
    }
}

/// The end of a child: its status, and whether that means success.
#[derive(Debug, Clone, Copy, PartialEq, Eq, Structural)]
pub struct Exit {
    pub status: i32,
    pub success: bool,
}

/// A child that is being waited for.
#[derive(Debug)]
pub struct Watch {
    pub stdout: Pipe,
    pub stderr: Pipe,
    /// Whether the error pipe and the status count too.
    pub full: bool,
    /// Whether a status other than success is a failure.
    pub require_success: bool,
    pub exit: Option<Exit>,
}

/// A child that is being waited for.
#[verifier::ext_equal]
pub struct WatchView {
    pub stdout: PipeView,
    pub stderr: PipeView,
    pub full: bool,
    pub require_success: bool,
    pub exit: Option<Exit>,
}

impl View for Watch {
    type V = WatchView;

    open spec fn view(&self) -> WatchView {
        WatchView {
            stdout: self.stdout@,
            stderr: self.stderr@,
            full: self.full,
            require_success: self.require_success,
            exit: self.exit,
        }
    }
}

/// What happened.
#[derive(Debug, Clone, Copy, PartialEq, Eq, Structural)]
pub enum Event {
    /// Everything that could be read at once was handed over.
    Drained,
    /// The child has ended; a child that was killed has no status.
    Exited { status: Option<i32>, success: bool },
    /// The child runs, and this much time is left, in milliseconds.
    Running { remaining_ms: u64 },
    /// Whether the child runs could not be found out.
    WaitFailed,
    /// The pause is over, or something can be read.
    Woke,
    /// Pipes turned out to be invalid.
    Invalid { stdout: bool, stderr: bool },
    /// Waiting on the pipes failed.
    PollFailed,
}

/// How waiting for a child ended.
#[derive(Debug, Clone, Copy, PartialEq, Eq, Structural)]
pub enum Outcome {
    Done(i32),
    TimedOut,
    Failed,
}

/// What to do next.
#[derive(Debug, Clone, Copy, PartialEq, Eq, Structural)]
pub enum Action {
    /// Read what can be read at once from the open pipes.
    Drain,
    /// See whether the child has ended.
    TryWait,
    /// Wait this long, in milliseconds.
    Sleep(u64),
    /// Wait this long for something to read, in milliseconds.
    Poll(u64),
    /// Kill the child and everything it started, collect it, and finish.
    KillAndReap(Outcome),
    /// Kill what the child started and left behind, and finish.
    KillGroup(Outcome),
    Finish(Outcome),
}

impl WatchView {
    /// Whether both pipes are closed; one that does not count is closed.
    pub open spec fn all_closed(self) -> bool {
        self.stdout.closed && (self.stderr.closed || !self.full)
    }

    /// Whether a pipe has given all that is kept of it.
    pub open spec fn is_full(self) -> bool {
        self.stdout.bytes.len() >= MAX_STDOUT || (self.full && self.stderr.bytes.len()
            >= MAX_STDOUT)
    }

    /// The outcome of a child that has ended.
    pub open spec fn outcome(self, exit: Exit) -> Outcome {
        if self.require_success && !exit.success {
            Outcome::Failed
        } else {
            Outcome::Done(exit.status)
        }
    }

    /// What to do next.
    pub open spec fn next(self, event: Event) -> Action {
        match event {
            Event::Drained => match self.exit {
                Some(exit) => if self.all_closed() {
                    Action::Finish(self.outcome(exit))
                } else {
                    Action::KillGroup(self.outcome(exit))
                },
                None => if self.is_full() {
                    Action::KillAndReap(Outcome::Done((-1) as i32))
                } else {
                    Action::TryWait
                },
            },
            Event::Exited { status, success } => Action::Drain,
            Event::Running { remaining_ms } => if remaining_ms == 0 {
                if self.stdout.closed && !self.full && !self.require_success {
                    Action::KillAndReap(Outcome::Done((-1) as i32))
                } else {
                    Action::KillAndReap(Outcome::TimedOut)
                }
            } else if self.all_closed() {
                Action::Sleep(brief(remaining_ms))
            } else {
                Action::Poll(brief(remaining_ms))
            },
            Event::WaitFailed => Action::KillAndReap(Outcome::Failed),
            Event::Woke => Action::Drain,
            Event::Invalid { stdout, stderr } => Action::Drain,
            Event::PollFailed => Action::KillAndReap(Outcome::Failed),
        }
    }

    /// The child behind an event.
    pub open spec fn after(self, event: Event) -> WatchView {
        match event {
            Event::Exited { status, success } => WatchView {
                exit: Some(
                    Exit {
                        status: match status {
                            Some(status) => status,
                            None => (-1) as i32,
                        },
                        success,
                    },
                ),
                ..self
            },
            Event::Invalid { stdout, stderr } => WatchView {
                stdout: PipeView { closed: self.stdout.closed || stdout, ..self.stdout },
                stderr: PipeView { closed: self.stderr.closed || stderr, ..self.stderr },
                ..self
            },
            _ => self,
        }
    }
}

/// The time of one pause.
pub open spec fn brief(remaining_ms: u64) -> u64 {
    if remaining_ms < MAX_PAUSE_MS {
        remaining_ms
    } else {
        MAX_PAUSE_MS
    }
}

/// The first bytes, up to the limit.
pub open spec fn capped(bytes: Seq<u8>) -> Seq<u8> {
    if bytes.len() > MAX_STDOUT {
        bytes.take(MAX_STDOUT as int)
    } else {
        bytes
    }
}

impl Pipe {
    /// Whether more should be read from the pipe now.
    pub fn wants_more(&self) -> (yes: bool)
        ensures
            yes == (!self@.closed && self@.bytes.len() < MAX_STDOUT),
    {
        !self.closed && self.bytes.len() < MAX_STDOUT
    }

    /// Takes bytes that were read.
    pub fn receive(&mut self, chunk: &[u8])
        ensures
            final(self)@ == (PipeView { bytes: old(self)@.bytes + chunk@, ..old(self)@ }),
    {
        let ghost start = self.bytes@;
        let mut i: usize = 0;
        proof {
            assert(start + chunk@.take(0) =~= start);
        }
        while i < chunk.len()
            invariant
                i <= chunk@.len(),
                self.closed == old(self).closed,
                self.bytes@ == start + chunk@.take(i as int),
            decreases chunk@.len() - i,
        {
            self.bytes.push(chunk[i]);
            i += 1;
            proof {
                assert(chunk@.take(i as int) =~= chunk@.take(i - 1).push(chunk@[i - 1]));
                assert(self.bytes@ =~= start + chunk@.take(i as int));
            }
        }
        proof {
            assert(chunk@.take(chunk@.len() as int) =~= chunk@);
        }
    }

    /// Notes that the pipe is at its end.
    pub fn close(&mut self)
        ensures
            final(self)@ == (PipeView { closed: true, ..old(self)@ }),
    {
        self.closed = true;
    }
}

impl Watch {
    /// A child that was just started. Without `full` only its output counts.
    pub fn new(full: bool, require_success: bool) -> (watch: Watch)
        ensures
            watch@ == (WatchView {
                stdout: PipeView { bytes: Seq::empty(), closed: false },
                stderr: PipeView { bytes: Seq::empty(), closed: !full },
                full,
                require_success,
                exit: None,
            }),
    {
        Watch {
            stdout: Pipe { bytes: Vec::new(), closed: false },
            stderr: Pipe { bytes: Vec::new(), closed: !full },
            full,
            require_success,
            exit: None,
        }
    }

    /// Notes an event and says what to do next.
    pub fn step(&mut self, event: Event) -> (action: Action)
        ensures
            final(self)@ == old(self)@.after(event),
            action == old(self)@.next(event),
    {
        let all_closed = self.stdout.closed && (self.stderr.closed || !self.full);
        match event {
            Event::Drained => match self.exit {
                Some(exit) => {
                    let outcome = if self.require_success && !exit.success {
                        Outcome::Failed
                    } else {
                        Outcome::Done(exit.status)
                    };
                    if all_closed {
                        Action::Finish(outcome)
                    } else {
                        Action::KillGroup(outcome)
                    }
                },
                None => {
                    if self.stdout.bytes.len() >= MAX_STDOUT || (self.full
                        && self.stderr.bytes.len() >= MAX_STDOUT) {
                        Action::KillAndReap(Outcome::Done(-1))
                    } else {
                        Action::TryWait
                    }
                },
            },
            Event::Exited { status, success } => {
                let status: i32 = match status {
                    Some(status) => status,
                    None => -1,
                };
                self.exit = Some(Exit { status, success });
                Action::Drain
            },
            Event::Running { remaining_ms } => {
                if remaining_ms == 0 {
                    if self.stdout.closed && !self.full && !self.require_success {
                        Action::KillAndReap(Outcome::Done(-1))
                    } else {
                        Action::KillAndReap(Outcome::TimedOut)
                    }
                } else {
                    let pause: u64 = if remaining_ms < MAX_PAUSE_MS {
                        remaining_ms
                    } else {
                        MAX_PAUSE_MS
                    };
                    if all_closed {
                        Action::Sleep(pause)
                    } else {
                        Action::Poll(pause)
                    }
                }
            },
            Event::WaitFailed => Action::KillAndReap(Outcome::Failed),
            Event::Woke => Action::Drain,
            Event::Invalid { stdout, stderr } => {
                if stdout {
                    self.stdout.closed = true;
                }
                if stderr {
                    self.stderr.closed = true;
                }
                Action::Drain
            },
            Event::PollFailed => Action::KillAndReap(Outcome::Failed),
        }
    }

    /// The output of a child of which only that counts. What was read beyond
    /// the limit is cut off, unless the child ended by itself.
    pub fn run_result(self, outcome: Outcome) -> (result: RunResult)
        ensures
            match outcome {
                Outcome::Done(_) => result matches RunResult::Output(text) && text@ == lossy_text(
                    if self@.exit is Some {
                        self@.stdout.bytes
                    } else {
                        capped(self@.stdout.bytes)
                    },
                ),
                Outcome::TimedOut => result is TimedOut,
                Outcome::Failed => result is Failed,
            },
    {
        match outcome {
            Outcome::Done(_) => {
                let mut bytes = self.stdout.bytes;
                if self.exit.is_none() {
                    cap(&mut bytes);
                }
                RunResult::Output(decode_lossy(&bytes))
            },
            Outcome::TimedOut => RunResult::TimedOut,
            Outcome::Failed => RunResult::Failed,
        }
    }

    /// The result of a child of which everything counts.
    pub fn command_result(self, outcome: Outcome) -> (result: Result<CommandOutput, CommandError>)
        ensures
            match outcome {
                Outcome::Done(status) => result matches Ok(output) && output.status == status
                    && output.stdout@ == lossy_text(capped(self@.stdout.bytes)) && output.stderr@
                    == lossy_text(capped(self@.stderr.bytes)),
                Outcome::TimedOut => result == Err::<CommandOutput, CommandError>(
                    CommandError::TimedOut,
                ),
                Outcome::Failed => result == Err::<CommandOutput, CommandError>(
                    CommandError::Failed,
                ),
            },
    {
        match outcome {
            Outcome::Done(status) => {
                let mut stdout = self.stdout.bytes;
                let mut stderr = self.stderr.bytes;
                cap(&mut stdout);
                cap(&mut stderr);
                Ok(
                    CommandOutput {
                        status,
                        stdout: decode_lossy(&stdout),
                        stderr: decode_lossy(&stderr),
                    },
                )
            },
            Outcome::TimedOut => Err(CommandError::TimedOut),
            Outcome::Failed => Err(CommandError::Failed),
        }
    }
}

fn cap(bytes: &mut Vec<u8>)
    ensures
        final(bytes)@ == capped(old(bytes)@),
{
    if bytes.len() > MAX_STDOUT {
        let ghost had = bytes@;
        bytes.truncate(MAX_STDOUT);
        proof {
            assert(bytes@ =~= had.take(MAX_STDOUT as int));
        }
    }
}

// ---------------------------------------------------------------------------
// Killing on Windows
// ---------------------------------------------------------------------------
/// A decimal digit.
pub open spec fn digit(n: int) -> char {
    (n + 48) as u8 as char
}

/// A number in decimal digits.
pub open spec fn decimal(n: nat) -> Seq<char>
    decreases n,
{
    if n < 10 {
        seq![digit(n as int)]
    } else {
        decimal(n / 10).push(digit((n % 10) as int))
    }
}

/// Computes [`decimal`].
pub fn decimal_text(n: u64) -> (text: String)
    ensures
        text@ == decimal(n as nat),
    decreases n,
{
    let c = (n % 10 + 48) as u8 as char;
    let mut text = if n < 10 {
        String::new()
    } else {
        decimal_text(n / 10)
    };
    let ghost had = text@;
    text.push(c);
    proof {
        if n < 10 {
            assert(text@ =~= seq![c]);
        }
    }
    text
}

/// The arguments with which `taskkill` ends a process and all it started.
pub fn windows_taskkill_args(pid: u32) -> (args: Vec<String>)
    ensures
        texts(args@) == seq!["/PID"@, decimal(pid as nat), "/T"@, "/F"@],
{
    let mut args: Vec<String> = Vec::new();
    args.push("/PID".to_owned());
    args.push(decimal_text(pid as u64));
    args.push("/T".to_owned());
    args.push("/F".to_owned());
    proof {
        assert(texts(args@) =~= seq!["/PID"@, decimal(pid as nat), "/T"@, "/F"@]);
    }
    args
}

// ---------------------------------------------------------------------------
// Laws
// ---------------------------------------------------------------------------
/// A child is never killed before its time is up, unless it wrote too much or
/// could not be watched any more.
pub proof fn law_children_get_their_time(watch: WatchView, event: Event)
    requires
        watch.exit is None,
        watch.next(event) is KillAndReap,
    ensures
        event == (Event::Running { remaining_ms: 0 }) || event is WaitFailed || event is PollFailed || (
        event is Drained && watch.is_full()),
{
}

/// Time runs out only when none is left, and then waiting always ends.
pub proof fn law_waiting_ends_in_time(watch: WatchView, event: Event)
    ensures
        watch.next((Event::Running { remaining_ms: 0 })) is KillAndReap,
        watch.next(event) == Action::KillAndReap(Outcome::TimedOut) ==> event
            == (Event::Running { remaining_ms: 0 }),
{
}

/// A child that has ended is reported with its status once its pipes are read,
/// and whatever it left behind is killed.
pub proof fn law_ended_children_are_reported(watch: WatchView, status: i32, success: bool)
    requires
        !watch.require_success || success,
    ensures
        ({
            let ended = watch.after((Event::Exited { status: Some(status), success }));
            let action = ended.next(Event::Drained);
            &&& action == Action::Finish(Outcome::Done(status)) || action == Action::KillGroup(
                Outcome::Done(status),
            )
            &&& action is KillGroup <==> !watch.all_closed()
        }),
{
}

/// Where success counts, a child that ends without it has failed, whatever it
/// wrote.
pub proof fn law_failures_give_no_output(watch: WatchView, status: Option<i32>)
    requires
        watch.require_success,
    ensures
        ({
            let ended = watch.after((Event::Exited { status, success: false }));
            let action = ended.next(Event::Drained);
            action == Action::Finish(Outcome::Failed) || action == Action::KillGroup(
                Outcome::Failed,
            )
        }),
{
}

/// No pause is longer than the time that is left.
pub proof fn law_pauses_fit(watch: WatchView, remaining_ms: u64)
    ensures
        match watch.next((Event::Running { remaining_ms })) {
            Action::Sleep(ms) => ms <= remaining_ms && ms <= MAX_PAUSE_MS,
            Action::Poll(ms) => ms <= remaining_ms && ms <= MAX_PAUSE_MS,
            _ => remaining_ms == 0,
        },
{
}

} // verus!
