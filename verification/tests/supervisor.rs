use watchman::record::{KillStep, ProcessConfig, SpawnRequest, SuperviseError, KILL_ATTEMPTS};
use watchman::registry::{add, plan_selection, update_all, Toggle};
use watchman::status::ProcessStatus;
use watchman::table::{ProcessEntry, ProcessTable};

fn entry(pid: i32, cmd: &str) -> ProcessEntry {
    ProcessEntry {
        pid,
        cmd: cmd.as_bytes().to_vec(),
    }
}

fn table(entries: Vec<ProcessEntry>) -> ProcessTable {
    ProcessTable { entries }
}

fn record(cmd: &str, status: ProcessStatus) -> ProcessConfig {
    ProcessConfig {
        name: None,
        cmd: cmd.as_bytes().to_vec(),
        status,
        output: None,
    }
}

#[test]
fn reconcile_disabled_is_noop() {
    let t = table(vec![entry(1, "init"), entry(7, "sleep 100")]);
    let mut rec = record("sleep 100", ProcessStatus::Disabled);
    rec.update(&t);
    assert_eq!(rec.status, ProcessStatus::Disabled);
}

#[test]
fn reconcile_confirms_running_pid() {
    let t = table(vec![entry(1, "init"), entry(7, "sleep 100")]);
    let mut rec = record("sleep 100", ProcessStatus::Running(7));
    rec.update(&t);
    assert_eq!(rec.status, ProcessStatus::Running(7));
}

#[test]
fn reconcile_adopts_when_pid_dead() {
    // remembered pid 42 is gone, but pid 9 runs the same command
    let t = table(vec![entry(1, "init"), entry(9, "sleep 100")]);
    let mut rec = record("sleep 100", ProcessStatus::Stopped(42));
    rec.update(&t);
    assert_eq!(rec.status, ProcessStatus::Running(9));
}

#[test]
fn reconcile_adopts_from_running_mismatch() {
    // pid 5 was recycled by another command, but pid 9 matches
    let t = table(vec![entry(5, "other"), entry(9, "sleep 100")]);
    let mut rec = record("sleep 100", ProcessStatus::Running(5));
    rec.update(&t);
    assert_eq!(rec.status, ProcessStatus::Running(9));
}

#[test]
fn reconcile_marks_invalid_on_mismatch() {
    let t = table(vec![entry(5, "other")]);
    let mut rec = record("sleep 100", ProcessStatus::Running(5));
    rec.update(&t);
    assert_eq!(rec.status, ProcessStatus::Invalid(5));
}

#[test]
fn reconcile_marks_stopped_when_gone() {
    let t = table(vec![entry(1, "init")]);
    let mut rec = record("sleep 100", ProcessStatus::Running(5));
    rec.update(&t);
    assert_eq!(rec.status, ProcessStatus::Stopped(5));
}

#[test]
fn run_requests_spawn_when_not_running() {
    let t = table(vec![entry(1, "init")]);
    let mut rec = record("sleep 100", ProcessStatus::Disabled);
    let req = rec.run(&t, &None);
    let req = req.expect("a spawn must be requested");
    assert_eq!(req.cmd, b"sleep 100".to_vec());
    assert_eq!(req.output, None);
}

#[test]
fn run_resolves_output_path() {
    let t = table(vec![]);
    let mut rec = record("sleep 100", ProcessStatus::Disabled);
    rec.output = Some(b"/tmp/own.log".to_vec());
    let req = rec.run(&t, &Some(b"/tmp/default.log".to_vec())).unwrap();
    assert_eq!(req.output, Some(b"/tmp/own.log".to_vec()));

    let mut rec2 = record("sleep 100", ProcessStatus::Disabled);
    let req2 = rec2.run(&t, &Some(b"/tmp/default.log".to_vec())).unwrap();
    assert_eq!(req2.output, Some(b"/tmp/default.log".to_vec()));
}

#[test]
fn run_twice_on_running_spawns_nothing() {
    let t = table(vec![entry(7, "sleep 100")]);
    let mut rec = record("sleep 100", ProcessStatus::Running(7));
    let first: Option<SpawnRequest> = rec.run(&t, &None);
    assert!(first.is_none());
    assert_eq!(rec.status, ProcessStatus::Running(7));
    let second = rec.run(&t, &None);
    assert!(second.is_none());
    assert_eq!(rec.status, ProcessStatus::Running(7));
}

#[test]
fn confirm_spawn_accepts_matching_process() {
    let t = table(vec![entry(33, "sleep 100")]);
    let mut rec = record("sleep 100", ProcessStatus::Stopped(4321));
    assert_eq!(rec.confirm_spawn(33, &t), Ok(()));
    assert_eq!(rec.status, ProcessStatus::Running(33));
}

#[test]
fn confirm_spawn_rejects_empty_cmd() {
    let t = table(vec![entry(33, "")]);
    let mut rec = record("sleep 100", ProcessStatus::Stopped(4321));
    assert_eq!(rec.confirm_spawn(33, &t), Err(SuperviseError::SpawnedEmptyCmd));
}

#[test]
fn confirm_spawn_rejects_changed_cmd() {
    let t = table(vec![entry(33, "something else")]);
    let mut rec = record("sleep 100", ProcessStatus::Stopped(4321));
    assert_eq!(rec.confirm_spawn(33, &t), Err(SuperviseError::SpawnedWrongCmd));
}

#[test]
fn kill_requests_termination_of_running() {
    let t = table(vec![entry(7, "sleep 100")]);
    let mut rec = record("sleep 100", ProcessStatus::Running(7));
    let step = rec.kill(&t, KILL_ATTEMPTS);
    assert_eq!(step, Ok(KillStep::Terminate(7)));
    assert_eq!(rec.status, ProcessStatus::Running(7));
}

#[test]
fn kill_disables_stopped_record() {
    let t = table(vec![]);
    let mut rec = record("sleep 100", ProcessStatus::Stopped(7));
    let step = rec.kill(&t, KILL_ATTEMPTS);
    assert_eq!(step, Ok(KillStep::Done));
    assert_eq!(rec.status, ProcessStatus::Disabled);
}

#[test]
fn kill_noop_on_disabled_and_invalid() {
    let t = table(vec![entry(5, "other")]);

    let mut disabled = record("sleep 100", ProcessStatus::Disabled);
    assert_eq!(disabled.kill(&t, KILL_ATTEMPTS), Ok(KillStep::Done));
    assert_eq!(disabled.status, ProcessStatus::Disabled);

    let mut invalid = record("sleep 100", ProcessStatus::Invalid(5));
    assert_eq!(invalid.kill(&t, KILL_ATTEMPTS), Ok(KillStep::Done));
    assert_eq!(invalid.status, ProcessStatus::Invalid(5));
}

#[test]
fn kill_gives_up_after_exhausted_attempts() {
    let t = table(vec![entry(7, "sleep 100")]);
    let mut rec = record("sleep 100", ProcessStatus::Running(7));
    let step = rec.kill(&t, 0);
    assert_eq!(step, Err(SuperviseError::TerminationFailed));
    assert_eq!(rec.status, ProcessStatus::Running(7));
}

#[test]
fn fix_leaves_disabled_alone_and_runs_enabled() {
    let t = table(vec![]);
    let mut disabled = record("sleep 100", ProcessStatus::Disabled);
    assert!(disabled.fix(&t, &None).is_none());
    assert_eq!(disabled.status, ProcessStatus::Disabled);

    // the scenario: one enabled record {cmd: "sleep 100", status: Stopped(4321)},
    // no live pid 4321 and nothing else matching "sleep 100"
    let mut rec = record("sleep 100", ProcessStatus::Stopped(4321));
    let req = rec.fix(&t, &None).expect("fix must spawn");
    assert_eq!(req.cmd, b"sleep 100".to_vec());
    let new_pid = 5555;
    let after = table(vec![entry(new_pid, "sleep 100")]);
    assert_eq!(rec.confirm_spawn(new_pid, &after), Ok(()));
    assert_eq!(rec.status, ProcessStatus::Running(new_pid));
}

#[test]
fn duplicate_cmd_records_adopt_the_same_pid() {
    // two records share "worker --id=1"; the first was run and became Running(p)
    let p = 88;
    let t = table(vec![entry(p, "worker --id=1")]);
    let mut first = record("worker --id=1", ProcessStatus::Running(p));
    first.update(&t);
    assert_eq!(first.status, ProcessStatus::Running(p));

    // reconciling the second (still Stopped) adopts the very same pid
    let mut second = record("worker --id=1", ProcessStatus::Stopped(4321));
    second.update(&t);
    assert_eq!(second.status, ProcessStatus::Running(p));
}

#[test]
fn lookup_by_cmd_returns_first_match() {
    let t = table(vec![entry(3, "worker"), entry(4, "worker")]);
    assert_eq!(t.lookup_by_cmd(&b"worker".to_vec()), Some(3));
    assert_eq!(t.lookup_by_cmd(&b"absent".to_vec()), None);
}

#[test]
fn lookup_by_pid_finds_command() {
    let t = table(vec![entry(3, "worker"), entry(4, "other")]);
    assert_eq!(t.lookup_by_pid(4), Some(&b"other".to_vec()));
    assert_eq!(t.lookup_by_pid(5), None);
}

#[test]
fn getters_report_status() {
    let rec = record("x", ProcessStatus::Running(3));
    assert!(rec.is_running());
    assert!(rec.is_enabled());
    assert_eq!(rec.get_pid(), Some(3));

    let rec = record("x", ProcessStatus::Invalid(4));
    assert!(!rec.is_running());
    assert!(rec.is_enabled());
    assert_eq!(rec.get_pid(), Some(4));

    let rec = record("x", ProcessStatus::Disabled);
    assert!(!rec.is_running());
    assert!(!rec.is_enabled());
    assert_eq!(rec.get_pid(), None);

    assert_eq!(ProcessStatus::default(), ProcessStatus::Disabled);
}

#[test]
fn update_all_reconciles_each_record() {
    let t = table(vec![entry(7, "a"), entry(9, "b")]);
    let mut state = vec![
        record("a", ProcessStatus::Running(7)),
        record("b", ProcessStatus::Stopped(1)),
        record("c", ProcessStatus::Disabled),
    ];
    update_all(&mut state, &t);
    assert_eq!(state[0].status, ProcessStatus::Running(7));
    assert_eq!(state[1].status, ProcessStatus::Running(9));
    assert_eq!(state[2].status, ProcessStatus::Disabled);
}

#[test]
fn add_appends_only_started_records() {
    let mut state = vec![record("a", ProcessStatus::Running(7))];
    let ok = add(
        &mut state,
        record("b", ProcessStatus::Running(9)),
        Ok(()),
    );
    assert_eq!(ok, Ok(()));
    assert_eq!(state.len(), 2);
    assert_eq!(state[1].cmd, b"b".to_vec());

    let failed = add(
        &mut state,
        record("c", ProcessStatus::Running(10)),
        Err(SuperviseError::SpawnedWrongCmd),
    );
    assert_eq!(failed, Err(SuperviseError::SpawnedWrongCmd));
    assert_eq!(state.len(), 2);
}

#[test]
fn plan_selection_diffs_enabled_set() {
    let state = vec![
        record("a", ProcessStatus::Running(7)),  // enabled, kept checked
        record("b", ProcessStatus::Stopped(1)),  // enabled, unchecked -> stop
        record("c", ProcessStatus::Disabled),    // disabled, checked -> start
        record("d", ProcessStatus::Disabled),    // disabled, unchecked
    ];
    let selections: Vec<usize> = vec![0, 2];
    let plan = plan_selection(&state, &selections);
    assert_eq!(
        plan,
        vec![Toggle::Keep, Toggle::Stop, Toggle::Start, Toggle::Keep]
    );
}

#[test]
fn new_record_starts_disabled() {
    let rec = ProcessConfig::new(b"sleep 5".to_vec(), Some(b"naptime".to_vec()), None);
    assert_eq!(rec.status, ProcessStatus::Disabled);
    assert_eq!(rec.cmd, b"sleep 5".to_vec());
    assert_eq!(rec.name, Some(b"naptime".to_vec()));
    assert_eq!(rec.output, None);
}
