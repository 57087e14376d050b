//! The rules of the thread that owns the engine.
use ec_engine::paths::{file_name, parent_dir, same_path};
use ec_engine::worker::{
    bundled_specs_ir_dir, drain_to_latest, engine_attempt_timeout, installed_specs_ir_candidates,
    linux_share_specs_ir, specs_ir_beside_exe, specs_ir_beside_prefix_bin,
    specs_ir_in_bundle, superseded_message, ui_completion_deadline, AttemptFailure, EngineStep,
    InstallPlaces, JobKind, Supervisor, MIN_UI_DEADLINE_MS,
};

#[test]
fn the_ui_deadline_tracks_the_script_budget_not_the_supervisor_floor() {
    assert_eq!(ui_completion_deadline(5_000), 6_000);
    assert!(ui_completion_deadline(5_000) < engine_attempt_timeout(5_000));
}

#[test]
fn a_long_script_budget_extends_the_ui_deadline() {
    assert_eq!(ui_completion_deadline(15_000), 16_000);
}

#[test]
fn a_tiny_script_budget_still_leaves_the_engine_time_to_answer() {
    assert_eq!(ui_completion_deadline(0), MIN_UI_DEADLINE_MS);
    assert_eq!(ui_completion_deadline(-1), MIN_UI_DEADLINE_MS);
}

#[test]
fn default_watchdog_does_not_cut_off_the_legacy_five_second_generator_budget() {
    assert_eq!(engine_attempt_timeout(5_000), 30_000);
    assert_eq!(engine_attempt_timeout(60_000), 65_000);
    assert_eq!(engine_attempt_timeout(-5), 30_000);
    assert_eq!(engine_attempt_timeout(i64::MAX), i64::MAX as u64 + 5_000);
}

#[test]
fn drain_keeps_the_newest_job() {
    let queue: Vec<JobKind<&str, u8>> = vec![JobKind::Complete("git"), JobKind::Complete("git ")];
    let drained = drain_to_latest("gi", queue);
    assert_eq!(drained.latest, "git ");
    assert_eq!(drained.superseded, vec!["gi", "git"]);
    assert!(drained.acceptances.is_empty());
    assert!(drained.clears.is_empty());
    assert_eq!(superseded_message(), "completion request superseded by a newer request");
}

#[test]
fn acceptance_jobs_survive_completion_coalescing() {
    let queue: Vec<JobKind<u8, u8>> = vec![
        JobKind::RecordAcceptance {
            root_command: "git".into(),
            accepted_name: "status".into(),
            timestamp: 123,
        },
        JobKind::Complete(2),
    ];
    let drained = drain_to_latest(1, queue);
    assert_eq!(drained.latest, 2);
    assert_eq!(drained.acceptances.len(), 1);
    assert_eq!(drained.acceptances[0].root_command, "git");
    assert_eq!(drained.acceptances[0].accepted_name, "status");
    assert_eq!(drained.acceptances[0].timestamp, 123);
}

#[test]
fn cache_clear_jobs_survive_completion_coalescing() {
    let queue: Vec<JobKind<u8, &str>> = vec![JobKind::ClearCaches("reply"), JobKind::Complete(2)];
    let drained = drain_to_latest(1, queue);
    assert_eq!(drained.latest, 2);
    assert_eq!(drained.clears, vec!["reply"]);
}

#[test]
fn cancelled_latest_job_is_detected_before_running_an_attempt() {
    let supervisor = Supervisor::new();
    assert_eq!(supervisor.engine_step(true), EngineStep::Skip);
    assert_eq!(supervisor.engine_step(false), EngineStep::Index);
}

#[test]
fn rebuilding_the_engine_indexes_the_specs_directory_once() {
    let mut supervisor = Supervisor::new();
    assert_eq!(supervisor.engine_step(false), EngineStep::Index);
    supervisor.indexed(true);
    supervisor.dispatched();
    supervisor.attempted(Some(AttemptFailure::TimedOut));
    assert_eq!(supervisor.engine_step(false), EngineStep::Rebuild);
    supervisor.dispatched();
    supervisor.attempted(None);
    assert_eq!(supervisor.engine_step(false), EngineStep::Ready);
}

#[test]
fn supervisor_retries_engine_initialization_after_specs_are_repaired() {
    let mut supervisor = Supervisor::new();
    supervisor.indexed(false);
    assert_eq!(supervisor.engine_step(false), EngineStep::Index);
    supervisor.indexed(true);
    assert_eq!(supervisor.engine_step(false), EngineStep::Rebuild);
}

#[test]
fn supervisor_resets_after_a_timeout_before_serving_the_next_request() {
    let mut supervisor = Supervisor::new();
    supervisor.indexed(true);
    supervisor.dispatched();
    supervisor.attempted(Some(AttemptFailure::TimedOut));
    assert!(!supervisor.engine);
    assert!(!supervisor.worker);
    assert!(supervisor.template);
}

#[test]
fn panicked_attempt_returns_an_error_and_does_not_block_reset() {
    let mut supervisor = Supervisor::new();
    supervisor.indexed(true);
    supervisor.dispatched();
    supervisor.attempted(Some(AttemptFailure::Panicked));
    assert_eq!(
        AttemptFailure::Panicked.error(1_000),
        "completion attempt panicked; engine reset"
    );
    assert_eq!(supervisor.engine_step(false), EngineStep::Rebuild);
}

#[test]
fn failed_attempts_say_how_long_they_took() {
    assert_eq!(
        AttemptFailure::TimedOut.error(30_000),
        "completion attempt timed out after 30000ms; engine reset"
    );
}

#[test]
fn app_bundle_uses_specs_ir_not_js_specs() {
    let dir = specs_ir_in_bundle("/Applications/easy-complete.app/Contents/MacOS");
    assert!(dir.ends_with("/specs-ir"));
    assert_eq!(dir, "/Applications/easy-complete.app/Contents/MacOS/../Resources/specs-ir");
    assert_eq!(
        bundled_specs_ir_dir("/Applications/easy-complete.app/Contents/MacOS/ec").as_deref(),
        Some("/Applications/easy-complete.app/Contents/MacOS/../Resources/specs-ir")
    );
    assert_eq!(bundled_specs_ir_dir("/usr/bin/ec"), None);
}

#[test]
fn linux_share_prefix_matches_package_name() {
    assert_eq!(linux_share_specs_ir(), "/usr/share/easy-complete/specs-ir");
}

#[test]
fn linux_prefix_bin_looks_beside_share() {
    assert_eq!(
        specs_ir_beside_prefix_bin("/usr/local/bin/easy-complete").as_deref(),
        Some("/usr/local/bin/../share/easy-complete/specs-ir")
    );
}

#[test]
fn windows_zip_layout_looks_beside_the_exe() {
    assert_eq!(
        specs_ir_beside_exe("easy-complete/ec.exe").as_deref(),
        Some("easy-complete/specs-ir")
    );
    assert_eq!(
        specs_ir_beside_exe("/opt/easy-complete/ec").as_deref(),
        Some("/opt/easy-complete/specs-ir")
    );
}

#[test]
fn parents_of_paths() {
    assert_eq!(parent_dir("/usr/bin/ec").as_deref(), Some("/usr/bin"));
    assert_eq!(parent_dir("/usr").as_deref(), Some("/"));
    assert_eq!(parent_dir("ec").as_deref(), Some(""));
    assert_eq!(parent_dir("/usr//bin/").as_deref(), Some("/usr"));
    assert_eq!(parent_dir("/"), None);
    assert_eq!(parent_dir(""), None);
    assert_eq!(parent_dir("/x/MacOS/./ec").as_deref(), Some("/x/MacOS"));
    assert_eq!(parent_dir("/x/./MacOS/ec/.").as_deref(), Some("/x/./MacOS"));
    assert_eq!(parent_dir("./ec").as_deref(), Some("."));
    assert_eq!(parent_dir(".").as_deref(), Some(""));
    assert_eq!(parent_dir("a/..").as_deref(), Some("a"));
    assert_eq!(parent_dir("/."), None);
    assert_eq!(parent_dir("//a").as_deref(), Some("/"));
    assert_eq!(file_name("/x/MacOS/./"), "MacOS");
    assert_eq!(file_name("./"), "");
    assert_eq!(file_name("a/.b"), ".b");
    assert!(same_path("/a/./b//c/", "/a/b/c"));
    assert!(!same_path("a", "./a"));
    assert!(!same_path("/a", "a"));
    assert!(!same_path("a/../b", "b"));
}

#[test]
fn installed_specs_are_looked_for_in_order() {
    let places = InstallPlaces {
        exe: Some("/opt/ec/bin/ec".into()),
        local_app_data: Some(String::new()),
        unix: true,
        xdg_data_home: None,
        home: Some("/home/me".into()),
        xdg_data_dirs: Some("/a::/b".into()),
    };
    assert_eq!(
        installed_specs_ir_candidates(&places),
        vec![
            "/opt/ec/bin/specs-ir",
            "/opt/ec/bin/../share/easy-complete/specs-ir",
            "/home/me/.local/share/easy-complete/specs-ir",
            "/a/easy-complete/specs-ir",
            "/b/easy-complete/specs-ir",
            "/usr/share/easy-complete/specs-ir",
        ]
    );
    let windows = InstallPlaces {
        local_app_data: Some("/local".into()),
        ..InstallPlaces::default()
    };
    assert_eq!(installed_specs_ir_candidates(&windows), vec!["/local/easy-complete/specs-ir"]);
    let unix = InstallPlaces {
        unix: true,
        xdg_data_home: Some("/data".into()),
        home: Some("/home/me".into()),
        ..InstallPlaces::default()
    };
    assert_eq!(
        installed_specs_ir_candidates(&unix),
        vec![
            "/data/easy-complete/specs-ir",
            "/usr/local/share/easy-complete/specs-ir",
            "/usr/share/easy-complete/specs-ir",
            "/usr/share/easy-complete/specs-ir",
        ]
    );
}
