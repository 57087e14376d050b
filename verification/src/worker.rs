//! The rules of the thread that owns the engine: how long it waits, which of
//! the queued jobs it runs, when it builds an engine anew, and where the specs
//! are looked for.
use vstd::prelude::*;

use crate::filegen::expand::{join_base, path_joined};
use crate::paths::{file_name, last_part, parent_dir, parent_of};
use crate::process::{decimal, decimal_text};
use crate::text::{concat, first_word, first_word_text, opt_text, same, split, split_from, texts};

verus! {

// ---------------------------------------------------------------------------
// Time limits
// ---------------------------------------------------------------------------
/// The time that an attempt has at least, in milliseconds: above the limit of
/// every bundled script.
pub const MIN_ATTEMPT_TIMEOUT_MS: u64 = 30000;

/// The time that an attempt has beyond the limit of scripts.
pub const ATTEMPT_MARGIN_MS: u64 = 5000;

/// The time that the user interface waits at least.
pub const MIN_UI_DEADLINE_MS: u64 = 2000;

/// The time that the user interface waits beyond the limit of scripts.
pub const UI_DEADLINE_MARGIN_MS: u64 = 1000;

/// A limit of scripts with a margin, but not below a floor; a negative limit
/// counts as none.
pub open spec fn with_margin(configured_ms: i64, margin_ms: int, floor_ms: int) -> int {
    let limit = if configured_ms < 0 {
        margin_ms
    } else {
        configured_ms + margin_ms
    };
    if limit < floor_ms {
        floor_ms
    } else {
        limit
    }
}

fn extend_limit(configured_ms: i64, margin_ms: u64, floor_ms: u64) -> (limit: u64)
    requires
        margin_ms <= 0xffff_ffff,
    ensures
        limit == with_margin(configured_ms, margin_ms as int, floor_ms as int),
{
    let configured: u64 = if configured_ms < 0 {
        0
    } else {
        configured_ms as u64
    };
    let limit: u64 = configured + margin_ms;
    if limit < floor_ms {
        floor_ms
    } else {
        limit
    }
}

/// How long an attempt may take before its thread counts as stuck. A long limit
/// of scripts extends it.
pub fn engine_attempt_timeout(configured_ms: i64) -> (limit: u64)
    ensures
        limit == with_margin(
            configured_ms,
            ATTEMPT_MARGIN_MS as int,
            MIN_ATTEMPT_TIMEOUT_MS as int,
        ),
{
    extend_limit(configured_ms, ATTEMPT_MARGIN_MS, MIN_ATTEMPT_TIMEOUT_MS)
}

/// How long the user interface waits for a completion. It follows the limit of
/// scripts, not the one after which a thread counts as stuck.
pub fn ui_completion_deadline(configured_ms: i64) -> (limit: u64)
    ensures
        limit == with_margin(
            configured_ms,
            UI_DEADLINE_MARGIN_MS as int,
            MIN_UI_DEADLINE_MS as int,
        ),
{
    extend_limit(configured_ms, UI_DEADLINE_MARGIN_MS, MIN_UI_DEADLINE_MS)
}

// ---------------------------------------------------------------------------
// Jobs
// ---------------------------------------------------------------------------
/// A job for the engine. `R` is a request with its reply, `K` the reply to a
/// request to forget what was kept.
pub enum JobKind<R, K> {
    Complete(R),
    RecordAcceptance { root_command: String, accepted_name: String, timestamp: u64 },
    ClearCaches(K),
}

/// An accepted row.
pub struct Accepted {
    pub root_command: String,
    pub accepted_name: String,
    pub timestamp: u64,
}

/// What a queue of jobs comes down to.
pub struct Drained<R, K> {
    /// The request to run.
    pub latest: R,
    /// The requests that a newer one made irrelevant, to be answered at once.
    pub superseded: Vec<R>,
    pub acceptances: Vec<Accepted>,
    pub clears: Vec<K>,
}

/// What a queue of jobs comes down to.
#[verifier::ext_equal]
pub struct DrainedView<R, K> {
    pub latest: R,
    pub superseded: Seq<R>,
    pub acceptances: Seq<Accepted>,
    pub clears: Seq<K>,
}

impl<R, K> View for Drained<R, K> {
    type V = DrainedView<R, K>;

    open spec fn view(&self) -> DrainedView<R, K> {
        DrainedView {
            latest: self.latest,
            superseded: self.superseded@,
            acceptances: self.acceptances@,
            clears: self.clears@,
        }
    }
}

/// What a first request and the jobs queued behind it come down to: the newest
/// request, and everything that is no request.
pub open spec fn drained<R, K>(first: R, queue: Seq<JobKind<R, K>>) -> DrainedView<R, K>
    decreases queue.len(),
{
    if queue.len() == 0 {
        DrainedView {
            latest: first,
            superseded: Seq::empty(),
            acceptances: Seq::empty(),
            clears: Seq::empty(),
        }
    } else {
        let earlier = drained(first, queue.drop_last());
        match queue.last() {
            JobKind::Complete(request) => DrainedView {
                latest: request,
                superseded: earlier.superseded.push(earlier.latest),
                ..earlier
            },
            JobKind::RecordAcceptance { root_command, accepted_name, timestamp } => DrainedView {
                acceptances: earlier.acceptances.push(
                    Accepted { root_command, accepted_name, timestamp },
                ),
                ..earlier
            },
            JobKind::ClearCaches(reply) => DrainedView {
                clears: earlier.clears.push(reply),
                ..earlier
            },
        }
    }
}

/// Computes [`drained`].
pub fn drain_to_latest<R, K>(first: R, queue: Vec<JobKind<R, K>>) -> (out: Drained<R, K>)
    ensures
        out@ == drained(first, queue@),
{
    let ghost all = queue@;
    let ghost start = first;
    let mut queue = queue;
    let mut latest = first;
    let mut superseded: Vec<R> = Vec::new();
    let mut acceptances: Vec<Accepted> = Vec::new();
    let mut clears: Vec<K> = Vec::new();
    let ghost mut done: int = 0;
    proof {
        assert(all.take(0) =~= Seq::<JobKind<R, K>>::empty());
        assert(all.skip(0) =~= all);
    }
    while queue.len() > 0
        invariant
            0 <= done <= all.len(),
            queue@ == all.skip(done),
            drained(start, all.take(done)) == (DrainedView {
                latest,
                superseded: superseded@,
                acceptances: acceptances@,
                clears: clears@,
            }),
        decreases queue@.len(),
    {
        proof {
            assert(all.take(done + 1).drop_last() =~= all.take(done));
            assert(all.take(done + 1).last() == queue@[0]);
            assert(queue@.remove(0) =~= all.skip(done + 1));
        }
        match queue.remove(0) {
            JobKind::Complete(request) => {
                superseded.push(latest);
                latest = request;
            },
            JobKind::RecordAcceptance { root_command, accepted_name, timestamp } => {
                acceptances.push(Accepted { root_command, accepted_name, timestamp });
            },
            JobKind::ClearCaches(reply) => {
                clears.push(reply);
            },
        }
        proof {
            done = done + 1;
        }
    }
    proof {
        assert(all.take(done) =~= all);
    }
    Drained { latest, superseded, acceptances, clears }
}

/// The answer to a request that a newer one made irrelevant.
pub fn superseded_message() -> (text: String)
    ensures
        text@ == "completion request superseded by a newer request"@,
{
    "completion request superseded by a newer request".to_owned()
}

// ---------------------------------------------------------------------------
// Attempts
// ---------------------------------------------------------------------------
/// Why an attempt gave no result.
#[derive(Debug, Clone, Copy, PartialEq, Eq, Structural)]
pub enum AttemptFailure {
    TimedOut,
    Panicked,
}

/// What the caller of a failed attempt is told.
pub open spec fn failure_text(failure: AttemptFailure, timeout_ms: u64) -> Seq<char> {
    match failure {
        AttemptFailure::TimedOut => "completion attempt timed out after "@ + decimal(
            timeout_ms as nat,
        ) + "ms; engine reset"@,
        AttemptFailure::Panicked => "completion attempt panicked; engine reset"@,
    }
}

impl AttemptFailure {
    /// Computes [`failure_text`].
    pub fn error(self, timeout_ms: u64) -> (text: String)
        ensures
            text@ == failure_text(self, timeout_ms),
    {
        match self {
            AttemptFailure::TimedOut => {
                let head = concat(
                    "completion attempt timed out after ",
                    &decimal_text(timeout_ms),
                );
                concat(&head, "ms; engine reset")
            },
            AttemptFailure::Panicked => "completion attempt panicked; engine reset".to_owned(),
        }
    }
}

/// What the supervisor has at hand.
#[derive(Debug, Clone, Copy, PartialEq, Eq, Structural)]
pub struct Supervisor {
    /// An engine that is ready.
    pub engine: bool,
    /// The index of the specs, kept aside to build engines from.
    pub template: bool,
    /// The thread that runs attempts.
    pub worker: bool,
}

/// How a request gets its engine.
#[derive(Debug, Clone, Copy, PartialEq, Eq, Structural)]
pub enum EngineStep {
    /// Nobody waits for the answer any more.
    Skip,
    /// The engine that is ready.
    Ready,
    /// A new engine on the kept index.
    Rebuild,
    /// A new engine, for which the specs have to be indexed first.
    Index,
}

impl Supervisor {
    /// How a request gets its engine.
    pub open spec fn step_for(self, cancelled: bool) -> EngineStep {
        if cancelled {
            EngineStep::Skip
        } else if self.engine {
            EngineStep::Ready
        } else if self.template {
            EngineStep::Rebuild
        } else {
            EngineStep::Index
        }
    }

    /// A supervisor that has nothing yet: an engine is built for the first
    /// request.
    pub fn new() -> (supervisor: Supervisor)
        ensures
            supervisor == (Supervisor { engine: false, template: false, worker: false }),
    {
        Supervisor { engine: false, template: false, worker: false }
    }

    /// Computes [`Supervisor::step_for`].
    pub fn engine_step(&self, cancelled: bool) -> (step: EngineStep)
        ensures
            step == self.step_for(cancelled),
    {
        if cancelled {
            EngineStep::Skip
        } else if self.engine {
            EngineStep::Ready
        } else if self.template {
            EngineStep::Rebuild
        } else {
            EngineStep::Index
        }
    }

    /// The specs were indexed, or could not be: then the next request tries
    /// again.
    pub fn indexed(&mut self, success: bool)
        ensures
            *final(self) == (Supervisor { template: old(self).template || success, ..*old(self) }),
    {
        if success {
            self.template = true;
        }
    }

    /// The attempt's engine has left for the attempt's thread.
    pub fn dispatched(&mut self)
        ensures
            *final(self) == (Supervisor { engine: false, worker: true, ..*old(self) }),
    {
        self.engine = false;
        self.worker = true;
    }

    /// The attempt is over. A failed one keeps its engine and its thread, which
    /// are given up; the kept index stays.
    pub fn attempted(&mut self, failure: Option<AttemptFailure>)
        ensures
            *final(self) == (Supervisor {
                engine: failure is None,
                worker: failure is None,
                ..*old(self)
            }),
    {
        self.engine = failure.is_none();
        self.worker = failure.is_none();
    }
}

// ---------------------------------------------------------------------------
// The log
// ---------------------------------------------------------------------------
/// A text in quotes, as its `Debug` form shows it.
pub uninterp spec fn debug_form(text: Seq<char>) -> Seq<char>;

/// Formats a text with `Debug for str`. The form depends on the text alone.
#[verifier::external_body]
fn quote_debug(text: &str) -> (quoted: String)
    ensures
        quoted@ == debug_form(text@),
{
    format!("{text:?}")
}

/// The line that tells in the log which attempt failed: the command and the
/// directory, not the whole buffer.
pub open spec fn log_context(command: Seq<char>, cwd: Seq<char>) -> Seq<char> {
    "root_command="@ + command + " cwd="@ + cwd
}

/// [`log_context`] of a request's first word and directory, both in their
/// `Debug` forms.
pub fn attempt_log_context(buffer: &str, cwd: &str) -> (text: String)
    ensures
        text@ == log_context(debug_form(first_word(buffer@)), debug_form(cwd@)),
{
    let mut text = concat("root_command=", &quote_debug(&first_word_text(buffer)));
    text.push_str(" cwd=");
    text.push_str(&quote_debug(cwd));
    text
}

// ---------------------------------------------------------------------------
// Where the specs are
// ---------------------------------------------------------------------------
/// The specs in an app bundle, from the directory of its program. The directory
/// holds compiled specs only.
pub fn specs_ir_in_bundle(macos_dir: &str) -> (path: String)
    ensures
        path@ == path_joined(macos_dir@, "../Resources/specs-ir"@),
{
    join_base(macos_dir, "../Resources/specs-ir")
}

/// The specs of a bundle, where the program runs from one.
pub open spec fn bundled_dir(exe: Seq<char>) -> Option<Seq<char>> {
    match parent_of(exe) {
        Some(dir) => if last_part(dir) == "MacOS"@ {
            Some(path_joined(dir, "../Resources/specs-ir"@))
        } else {
            None
        },
        None => None,
    }
}

/// Computes [`bundled_dir`].
pub fn bundled_specs_ir_dir(exe: &str) -> (path: Option<String>)
    ensures
        opt_text(path) == bundled_dir(exe@),
{
    let dir = match parent_dir(exe) {
        Some(dir) => dir,
        None => {
            return None;
        },
    };
    if same(&file_name(&dir), "MacOS") {
        Some(specs_ir_in_bundle(&dir))
    } else {
        None
    }
}

/// The specs of a packaged installation on Linux.
pub fn linux_share_specs_ir() -> (path: String)
    ensures
        path@ == "/usr/share/easy-complete/specs-ir"@,
{
    "/usr/share/easy-complete/specs-ir".to_owned()
}

/// A path below a directory, where there is one.
pub open spec fn below(dir: Option<Seq<char>>, rel: Seq<char>) -> Option<Seq<char>> {
    match dir {
        Some(dir) => Some(path_joined(dir, rel)),
        None => None,
    }
}

/// The specs of an installation below a prefix, from its program.
pub fn specs_ir_beside_prefix_bin(exe: &str) -> (path: Option<String>)
    ensures
        opt_text(path) == below(parent_of(exe@), "../share/easy-complete/specs-ir"@),
{
    match parent_dir(exe) {
        Some(dir) => Some(join_base(&dir, "../share/easy-complete/specs-ir")),
        None => None,
    }
}

/// The specs next to a program.
pub fn specs_ir_beside_exe(exe: &str) -> (path: Option<String>)
    ensures
        opt_text(path) == below(parent_of(exe@), "specs-ir"@),
{
    match parent_dir(exe) {
        Some(dir) => Some(join_base(&dir, "specs-ir")),
        None => None,
    }
}

/// What decides where an installation keeps its specs. A variable that is not
/// set is absent.
#[derive(Debug, Default)]
pub struct InstallPlaces {
    pub exe: Option<String>,
    pub local_app_data: Option<String>,
    /// Whether the directories of Unix systems count.
    pub unix: bool,
    pub xdg_data_home: Option<String>,
    pub home: Option<String>,
    pub xdg_data_dirs: Option<String>,
}

/// A list of one text, or of none.
pub open spec fn as_list(text: Option<Seq<char>>) -> Seq<Seq<char>> {
    match text {
        Some(text) => seq![text],
        None => Seq::empty(),
    }
}

/// The texts that are not empty, each with a path below it.
pub open spec fn all_below(dirs: Seq<Seq<char>>, rel: Seq<char>) -> Seq<Seq<char>>
    decreases dirs.len(),
{
    if dirs.len() == 0 {
        Seq::empty()
    } else if dirs.last().len() == 0 {
        all_below(dirs.drop_last(), rel)
    } else {
        all_below(dirs.drop_last(), rel).push(path_joined(dirs.last(), rel))
    }
}

/// The directory of the user's own data.
pub open spec fn user_data(places: InstallPlaces) -> Seq<Seq<char>> {
    match places.xdg_data_home {
        Some(dir) => all_below(seq![dir@], "easy-complete/specs-ir"@),
        None => match places.home {
            Some(home) => seq![path_joined(home@, ".local/share/easy-complete/specs-ir"@)],
            None => Seq::empty(),
        },
    }
}

/// The directories of the system's data.
pub open spec fn system_data(places: InstallPlaces) -> Seq<Seq<char>> {
    let list = match places.xdg_data_dirs {
        Some(list) => list@,
        None => "/usr/local/share:/usr/share"@,
    };
    all_below(split_from(list, ":"@, 0), "easy-complete/specs-ir"@)
}

/// The directories in which an installation can keep its specs, in order.
pub open spec fn installed_dirs(places: InstallPlaces) -> Seq<Seq<char>> {
    let exe = opt_text(places.exe);
    let beside = match exe {
        Some(exe) => as_list(below(parent_of(exe), "specs-ir"@)) + as_list(
            below(parent_of(exe), "../share/easy-complete/specs-ir"@),
        ),
        None => Seq::empty(),
    };
    let local = match places.local_app_data {
        Some(dir) => all_below(seq![dir@], "easy-complete/specs-ir"@),
        None => Seq::empty(),
    };
    let unix = if places.unix {
        user_data(places) + system_data(places) + seq!["/usr/share/easy-complete/specs-ir"@]
    } else {
        Seq::empty()
    };
    beside + local + unix
}

fn add_text(list: &mut Vec<String>, text: Option<String>)
    ensures
        texts(final(list)@) == texts(old(list)@) + as_list(opt_text(text)),
{
    let ghost had = list@;
    match text {
        Some(text) => {
            let ghost view = text@;
            list.push(text);
            proof {
                assert(texts(list@) =~= texts(had) + seq![view]);
            }
        },
        None => {
            proof {
                assert(texts(had) + Seq::<Seq<char>>::empty() =~= texts(had));
            }
        },
    }
}

fn add_below(list: &mut Vec<String>, dirs: &[String], rel: &str)
    ensures
        texts(final(list)@) == texts(old(list)@) + all_below(texts(dirs@), rel@),
{
    let ghost start = texts(list@);
    let ghost all = texts(dirs@);
    let mut i: usize = 0;
    proof {
        assert(start + Seq::<Seq<char>>::empty() =~= start);
    }
    while i < dirs.len()
        invariant
            i <= dirs@.len(),
            all == texts(dirs@),
            texts(list@) == start + all_below(all.take(i as int), rel@),
        decreases dirs@.len() - i,
    {
        proof {
            assert(all.take(i + 1).drop_last() =~= all.take(i as int));
        }
        if !dirs[i].as_str().is_empty() {
            let path = join_base(&dirs[i], rel);
            let ghost had = list@;
            let ghost view = path@;
            list.push(path);
            proof {
                assert(texts(list@) =~= texts(had).push(view));
                assert(texts(list@) =~= start + all_below(all.take(i + 1), rel@));
            }
        }
        i += 1;
    }
    proof {
        assert(all.take(all.len() as int) =~= all);
    }
}

fn single(text: &str) -> (list: Vec<String>)
    ensures
        texts(list@) == seq![text@],
{
    let mut list: Vec<String> = Vec::new();
    list.push(text.to_owned());
    proof {
        assert(texts(list@) =~= seq![text@]);
    }
    list
}

/// Computes [`installed_dirs`].
pub fn installed_specs_ir_candidates(places: &InstallPlaces) -> (dirs: Vec<String>)
    ensures
        texts(dirs@) == installed_dirs(*places),
{
    let mut dirs: Vec<String> = Vec::new();
    proof {
        assert(texts(dirs@) =~= Seq::<Seq<char>>::empty());
        reveal_strlit(":");
    }
    if let Some(exe) = &places.exe {
        add_text(&mut dirs, specs_ir_beside_exe(exe));
        add_text(&mut dirs, specs_ir_beside_prefix_bin(exe));
    }
    if let Some(dir) = &places.local_app_data {
        add_below(&mut dirs, &single(dir), "easy-complete/specs-ir");
    }
    if places.unix {
        match &places.xdg_data_home {
            Some(dir) => {
                add_below(&mut dirs, &single(dir), "easy-complete/specs-ir");
            },
            None => {
                if let Some(home) = &places.home {
                    add_text(
                        &mut dirs,
                        Some(join_base(home, ".local/share/easy-complete/specs-ir")),
                    );
                }
            },
        }
        let list = match &places.xdg_data_dirs {
            Some(list) => split(list, ":"),
            None => split("/usr/local/share:/usr/share", ":"),
        };
        add_below(&mut dirs, &list, "easy-complete/specs-ir");
        add_text(&mut dirs, Some(linux_share_specs_ir()));
    }
    proof {
        assert(texts(dirs@) =~= installed_dirs(*places));
    }
    dirs
}

// ---------------------------------------------------------------------------
// Laws
// ---------------------------------------------------------------------------
/// The user interface never waits longer than the thread that completes.
pub proof fn law_the_interface_gives_up_first(configured_ms: i64)
    ensures
        with_margin(configured_ms, UI_DEADLINE_MARGIN_MS as int, MIN_UI_DEADLINE_MS as int)
            < with_margin(
            configured_ms,
            ATTEMPT_MARGIN_MS as int,
            MIN_ATTEMPT_TIMEOUT_MS as int,
        ),
{
}

/// Whether a job is a request.
pub open spec fn is_request<R, K>(job: JobKind<R, K>) -> bool {
    job is Complete
}

/// No job gets lost: each is run, answered, recorded or cleared for.
pub proof fn law_no_job_is_lost<R, K>(first: R, queue: Seq<JobKind<R, K>>)
    ensures
        ({
            let d = drained(first, queue);
            d.superseded.len() + d.acceptances.len() + d.clears.len() == queue.len()
        }),
    decreases queue.len(),
{
    if queue.len() > 0 {
        law_no_job_is_lost(first, queue.drop_last());
    }
}

/// The newest request is the one that runs.
pub proof fn law_the_newest_request_runs<R, K>(
    first: R,
    queue: Seq<JobKind<R, K>>,
    request: R,
    later: Seq<JobKind<R, K>>,
)
    requires
        forall|i: int| 0 <= i < later.len() ==> !is_request(#[trigger] later[i]),
    ensures
        drained(first, queue.push(JobKind::Complete(request)) + later).latest == request,
    decreases later.len(),
{
    let head = queue.push(JobKind::Complete(request));
    if later.len() > 0 {
        let rest = later.drop_last();
        assert forall|i: int| 0 <= i < rest.len() implies !is_request(#[trigger] rest[i]) by {
            assert(rest[i] == later[i]);
        }
        law_the_newest_request_runs(first, queue, request, rest);
        assert((head + later).drop_last() =~= head + rest);
        assert((head + later).last() == later.last());
        assert(!is_request(later[later.len() - 1]));
    } else {
        assert(head + later =~= head);
        assert(head.drop_last() =~= queue);
    }
}

/// Behind a failed attempt the next request gets a new engine, without indexing
/// the specs again.
pub proof fn law_failures_do_not_stay(supervisor: Supervisor, failed: Supervisor)
    requires
        supervisor.template,
        failed == (Supervisor { engine: false, worker: false, ..supervisor }),
    ensures
        failed.step_for(false) == EngineStep::Rebuild,
{
}

} // verus!
