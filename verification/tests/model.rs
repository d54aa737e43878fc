use chrono::{DateTime, Utc};
use mini_dag_runner::errors::AppError;
use mini_dag_runner::services::clock::Timestamp;
use mini_dag_runner::models::dag::{
    Dag, DagStatus, DagStatusResponse, ProgressInfo, TaskDefinition, TaskState, TaskStatus,
};
use mini_dag_runner::models::events::DagEvent;
use mini_dag_runner::services::scheduler::SchedulerError;

/// The instant `ms` milliseconds after the Unix epoch.
fn at(ms: i64) -> Timestamp {
    Timestamp { secs: ms.div_euclid(1000), nanos: (ms.rem_euclid(1000) * 1_000_000) as u32 }
}

fn def(id: &str, deps: &[&str], command: &str) -> TaskDefinition {
    TaskDefinition {
        id: id.into(),
        depends_on: deps.iter().map(|d| d.to_string()).collect(),
        command: command.into(),
        params: vec![],
    }
}

fn dag_with(statuses: Vec<TaskStatus>) -> Dag {
    let defs = (0..statuses.len()).map(|i| def(&format!("t{}", i), &[], "test")).collect();
    let mut dag = Dag::new_at("d".into(), None, defs, at(100));
    for (i, s) in statuses.into_iter().enumerate() {
        let id = format!("t{}", i);
        dag.get_task_mut(&id).unwrap().status = s;
    }
    dag
}

#[test]
fn terminal_and_successful_statuses() {
    assert!(!TaskStatus::Pending.is_terminal());
    assert!(!TaskStatus::Running.is_terminal());
    assert!(TaskStatus::Succeeded.is_terminal());
    assert!(TaskStatus::Failed { error: "x".into() }.is_terminal());
    assert!(TaskStatus::Skipped.is_terminal());
    assert!(TaskStatus::Succeeded.is_successful());
    assert!(!TaskStatus::Skipped.is_successful());
    assert!(!TaskStatus::Failed { error: "x".into() }.is_successful());
}

#[test]
fn new_task_state_is_pending() {
    let t = TaskState::new(def("a", &["b"], "test"));
    assert_eq!(t.status, TaskStatus::Pending);
    assert_eq!(t.definition.id, "a");
    assert!(t.started_at.is_none() && t.finished_at.is_none() && t.duration_ms.is_none());
    assert!(t.output.is_none() && t.level.is_none());
}

#[test]
fn start_then_complete_measures_duration() {
    let mut t = TaskState::new(def("a", &[], "test"));
    t.start_at(at(1_000));
    assert_eq!(t.status, TaskStatus::Running);
    assert_eq!(t.started_at, Some(at(1_000)));
    t.complete_at(TaskStatus::Succeeded, Some("ok".into()), at(1_250));
    assert_eq!(t.status, TaskStatus::Succeeded);
    assert_eq!(t.finished_at, Some(at(1_250)));
    assert_eq!(t.duration_ms, Some(250));
    assert_eq!(t.output.as_deref(), Some("ok"));
}

#[test]
fn complete_without_start_has_no_duration() {
    let mut t = TaskState::new(def("a", &[], "test"));
    t.complete_at(TaskStatus::Skipped, None, at(5));
    assert_eq!(t.duration_ms, None);
    assert_eq!(t.finished_at, Some(at(5)));
}

#[test]
fn negative_span_wraps() {
    let mut t = TaskState::new(def("a", &[], "test"));
    t.start_at(at(10));
    t.complete_at(TaskStatus::Succeeded, None, at(9));
    assert_eq!(t.duration_ms, Some(u64::MAX));
}

#[test]
fn start_and_complete_use_the_clock() {
    let mut t = TaskState::new(def("a", &[], "test"));
    t.start();
    assert!(t.started_at.unwrap().secs > 1_600_000_000);
    t.complete(TaskStatus::Succeeded, None);
    let (s, f) = (t.started_at.unwrap(), t.finished_at.unwrap());
    assert!((f.secs, f.nanos) >= (s.secs, s.nanos));
    assert!(t.duration_ms.is_some());
}

#[test]
fn new_dag_keeps_last_definition_per_id() {
    let dag = Dag::new_at(
        "id1".into(),
        Some("n".into()),
        vec![def("a", &[], "first"), def("b", &[], "x"), def("a", &[], "second")],
        at(42),
    );
    assert_eq!(dag.id, "id1");
    assert_eq!(dag.name.as_deref(), Some("n"));
    assert_eq!(dag.status, DagStatus::Pending);
    assert_eq!(dag.created_at, at(42));
    assert_eq!(dag.tasks.len(), 2);
    assert_eq!(dag.get_task("a").unwrap().definition.command, "second");
    assert!(dag.get_task("c").is_none());
    assert!(dag.tasks.iter().all(|t| t.status == TaskStatus::Pending));
    assert!(dag.execution_levels.is_empty());
    assert!(Dag::new("x".into(), None, vec![]).created_at.secs > 1_600_000_000);
}

#[test]
fn get_task_mut_changes_only_that_task() {
    let mut dag = Dag::new_at("d".into(), None, vec![def("a", &[], "x"), def("b", &[], "x")], at(1));
    dag.get_task_mut("b").unwrap().level = Some(7);
    assert_eq!(dag.get_task("b").unwrap().level, Some(7));
    assert_eq!(dag.get_task("a").unwrap().level, None);
    assert!(dag.get_task_mut("zz").is_none());
}

#[test]
fn status_running_while_unfinished() {
    let mut dag = dag_with(vec![TaskStatus::Succeeded, TaskStatus::Running]);
    dag.update_status_at(at(9));
    assert_eq!(dag.status, DagStatus::Running);
    assert_eq!(dag.finished_at, None);
}

#[test]
fn status_succeeded_when_all_succeeded() {
    let mut dag = dag_with(vec![TaskStatus::Succeeded, TaskStatus::Succeeded]);
    dag.update_status_at(at(9));
    assert_eq!(dag.status, DagStatus::Succeeded);
    assert_eq!(dag.finished_at, Some(at(9)));
}

#[test]
fn status_partial_fail_and_failed() {
    let mut dag = dag_with(vec![TaskStatus::Succeeded, TaskStatus::Failed { error: "e".into() }]);
    dag.update_status_at(at(9));
    assert_eq!(dag.status, DagStatus::PartialFail);
    let mut dag = dag_with(vec![TaskStatus::Skipped, TaskStatus::Failed { error: "e".into() }]);
    dag.update_status_at(at(9));
    assert_eq!(dag.status, DagStatus::Failed);
    let mut dag = dag_with(vec![TaskStatus::Skipped, TaskStatus::Succeeded]);
    dag.update_status();
    assert_eq!(dag.status, DagStatus::PartialFail);
    assert!(dag.finished_at.is_some());
}

#[test]
fn empty_run_settles_as_succeeded() {
    let mut dag = dag_with(vec![]);
    dag.update_status_at(at(3));
    assert_eq!(dag.status, DagStatus::Succeeded);
}

#[test]
fn settling_twice_gives_the_same_status() {
    let mut dag = dag_with(vec![TaskStatus::Succeeded, TaskStatus::Skipped]);
    dag.update_status_at(at(1));
    let first = dag.status;
    dag.update_status_at(at(2));
    assert_eq!(dag.status, first);
    assert_ne!(dag.status, DagStatus::Pending);
}

#[test]
fn progress_counts_add_up() {
    let dag = dag_with(vec![
        TaskStatus::Pending,
        TaskStatus::Running,
        TaskStatus::Succeeded,
        TaskStatus::Succeeded,
        TaskStatus::Failed { error: "e".into() },
        TaskStatus::Skipped,
    ]);
    let p = ProgressInfo::from_dag(&dag);
    assert_eq!(
        p,
        ProgressInfo { total: 6, pending: 1, running: 1, succeeded: 2, failed: 1, skipped: 1 }
    );
    assert_eq!(p.pending + p.running + p.succeeded + p.failed + p.skipped, p.total);
    let r = DagStatusResponse::for_dag(dag);
    assert_eq!(r.progress, p);
    assert_eq!(r.dag.tasks.len(), 6);
}

#[test]
fn app_error_codes_and_messages() {
    let e = AppError::DagNotFound("abc".into());
    assert_eq!(e.status_code(), 404);
    assert_eq!(e.message(), "Dag 'abc' not found");
    let e = AppError::ValidationError("bad".into());
    assert_eq!(e.status_code(), 502);
    assert_eq!(e.message(), "bad");
    let e = AppError::SchedulerError("cyc".into());
    assert_eq!(e.status_code(), 400);
    assert_eq!(e.message(), "cyc");
    let e = AppError::InternalError("boom".into());
    assert_eq!(e.status_code(), 500);
    assert_eq!(e.message(), "boom");
    match AppError::from_scheduler_error(&SchedulerError::CycleDetected) {
        AppError::SchedulerError(m) => assert_eq!(m, "Cycle detected in DAG"),
        other => panic!("unexpected {:?}", other),
    }
}

#[test]
fn event_names_and_frames() {
    let e = DagEvent::DagCompleted {
        dag_id: "d".into(),
        status: DagStatus::Succeeded,
        total_duration_ms: 5,
        timestamp: 1,
    };
    assert_eq!(e.event_name(), "dag_completed");
    assert_eq!(e.to_see_event("{\"a\":1}"), "event: dag_completed\ndata: {\"a\":1}\n\n");
    let e = DagEvent::Error { dag_id: "d".into(), message: "m".into(), timestamp: 1 };
    assert_eq!(e.event_name(), "error");
    let e = DagEvent::DagStarted { dag_id: "d".into(), total_tasls: 1, execution_plan: vec![] };
    assert_eq!(e.event_name(), "dag_started");
    let e = DagEvent::TaskStarted { dag_id: "d".into(), task_id: "t".into(), level: 0, timestamp: 0 };
    assert_eq!(e.event_name(), "task_started");
    let e = DagEvent::TaskCompleted {
        dag_id: "d".into(),
        task_id: "t".into(),
        status: TaskStatus::Skipped,
        duration_ms: 0,
        output: None,
        timestamp: 0,
    };
    assert_eq!(e.event_name(), "task_completed");
    let e = DagEvent::LevelCompleted { dag_id: "d".into(), level: 0, tasks_in_level: vec![], timestamp: 0 };
    assert_eq!(e.event_name(), "level_completed");
}

#[test]
fn durations_match_chrono() {
    let cases: [((i64, u32), (i64, u32)); 7] = [
        ((10, 999_999_999), (11, 0)),
        ((0, 0), (0, 1_500_000)),
        ((1, 0), (0, 500_000_000)),
        ((1_700_000_000, 123_456_789), (1_700_000_002, 123_000_000)),
        ((1_700_000_002, 999_000_001), (1_700_000_000, 0)),
        ((-5, 700_000_000), (3, 100_000)),
        ((86_399, 999_999_999), (86_400, 999_999)),
    ];
    for ((s_secs, s_nanos), (f_secs, f_nanos)) in cases {
        let s: DateTime<Utc> = DateTime::from_timestamp(s_secs, s_nanos).unwrap();
        let f: DateTime<Utc> = DateTime::from_timestamp(f_secs, f_nanos).unwrap();
        let expected = (f - s).num_milliseconds() as u64;
        let mut t = TaskState::new(def("a", &[], "test"));
        t.start_at(Timestamp { secs: s_secs, nanos: s_nanos });
        t.complete_at(TaskStatus::Succeeded, None, Timestamp { secs: f_secs, nanos: f_nanos });
        assert_eq!(t.duration_ms, Some(expected));
    }
}
