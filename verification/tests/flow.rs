use mini_dag_runner::errors::AppError;
use mini_dag_runner::services::clock::Timestamp;
use mini_dag_runner::models::dag::{Dag, DagStatus, SubmitDagRequest, TaskDefinition, TaskStatus};
use mini_dag_runner::routes::delete::DeleteDagResponse;
use mini_dag_runner::routes::list::{sort_newest_first, DagSummary, ListDagResponse};
use mini_dag_runner::routes::submit::{prepare_submission, prepare_submission_with, submission_response};
use mini_dag_runner::services::executor::{
    check_dependencies, outcome_status, task_outcome, total_task_count,
};
use mini_dag_runner::text::{lex_less, sort_distinct};

/// The instant `ms` milliseconds after the Unix epoch.
fn at(ms: i64) -> Timestamp {
    Timestamp { secs: ms.div_euclid(1000), nanos: (ms.rem_euclid(1000) * 1_000_000) as u32 }
}

fn def(id: &str, deps: &[&str], command: &str) -> TaskDefinition {
    TaskDefinition {
        id: id.into(),
        depends_on: deps.iter().map(|d| d.to_string()).collect(),
        command: command.into(),
        params: vec![("k".into(), "1".into())],
    }
}

fn request(tasks: Vec<TaskDefinition>) -> SubmitDagRequest {
    SubmitDagRequest { name: Some("pipeline".into()), tasks }
}

#[test]
fn empty_submission_is_a_validation_error() {
    match prepare_submission_with("id".into(), at(1), request(vec![])) {
        Err(AppError::ValidationError(m)) => assert_eq!(m, "DAG must contain atleast one task"),
        other => panic!("unexpected {:?}", other.map(|_| ())),
    }
}

#[test]
fn unsound_submission_is_a_scheduler_error() {
    match prepare_submission_with("id".into(), at(1), request(vec![def("a", &["b"], "x"), def("b", &["a"], "x")])) {
        Err(AppError::SchedulerError(m)) => assert_eq!(m, "Cycle detected in DAG"),
        other => panic!("unexpected {:?}", other.map(|_| ())),
    }
    match prepare_submission_with("id".into(), at(1), request(vec![def("a", &["nope"], "x")])) {
        Err(AppError::SchedulerError(m)) => assert_eq!(m, "Task 'a' depends on unknown task 'nope'"),
        other => panic!("unexpected {:?}", other.map(|_| ())),
    }
}

#[test]
fn accepted_submission_records_levels() {
    let (dag, plan) = prepare_submission_with(
        "run-1".into(),
        at(77),
        request(vec![def("b", &["a"], "build"), def("a", &[], "test"), def("c", &["a"], "deploy")]),
    )
    .unwrap();
    assert_eq!(plan.levels, vec![vec!["a"], vec!["b", "c"]]);
    assert_eq!(dag.id, "run-1");
    assert_eq!(dag.name.as_deref(), Some("pipeline"));
    assert_eq!(dag.created_at, at(77));
    assert_eq!(dag.status, DagStatus::Pending);
    assert_eq!(dag.execution_levels, plan.levels);
    assert_eq!(dag.get_task("a").unwrap().level, Some(0));
    assert_eq!(dag.get_task("b").unwrap().level, Some(1));
    assert_eq!(dag.get_task("c").unwrap().level, Some(1));
    assert_eq!(dag.get_task("c").unwrap().definition.params, vec![("k".to_string(), "1".to_string())]);
    let resp = submission_response(&dag);
    assert_eq!(resp.dag_id, "run-1");
    assert_eq!(resp.status, DagStatus::Pending);
    assert_eq!(resp.task_count, 3);
    assert_eq!(resp.execution_levels, plan.levels);
    assert_eq!(resp.message, "DAG submitted and execution started");
}

#[test]
fn submission_gets_a_fresh_id_and_time() {
    let (d1, _) = prepare_submission(request(vec![def("a", &[], "x")])).unwrap();
    let (d2, _) = prepare_submission(request(vec![def("a", &[], "x")])).unwrap();
    assert_eq!(d1.id.len(), 36);
    for (i, c) in d1.id.chars().enumerate() {
        if [8, 13, 18, 23].contains(&i) {
            assert_eq!(c, '-');
        } else {
            assert!(c.is_ascii_digit() || ('a'..='f').contains(&c));
        }
    }
    assert_ne!(d1.id, d2.id);
    assert!(d1.created_at.secs > 1_600_000_000);
    assert!(d1.created_at.nanos < 1_000_000_000);
}

#[test]
fn dependencies_gate_tasks() {
    let mut dag = Dag::new_at(
        "d".into(),
        None,
        vec![def("a", &[], "x"), def("b", &[], "x"), def("c", &["a", "b"], "x"), def("e", &["a"], "x")],
        at(0),
    );
    dag.get_task_mut("a").unwrap().status = TaskStatus::Succeeded;
    dag.get_task_mut("b").unwrap().status = TaskStatus::Failed { error: "no".into() };
    let level: Vec<String> = vec!["c".into(), "e".into(), "missing".into(), "a".into()];
    assert_eq!(check_dependencies(Some(&dag), &level), vec![false, true, false, true]);
    assert_eq!(check_dependencies(None, &level), vec![false, false, false, false]);
}

#[test]
fn command_outcomes() {
    assert_eq!(task_outcome(&def("t", &[], "send_email")), (500, Ok("Email sent successfully".to_string())));
    assert_eq!(task_outcome(&def("t", &[], "build")), (2000, Ok("Build completed".to_string())));
    assert_eq!(task_outcome(&def("t", &[], "test")), (1000, Ok("All tests passed".to_string())));
    assert_eq!(task_outcome(&def("t", &[], "deploy")), (1500, Ok("Deployed to production".to_string())));
    assert_eq!(
        task_outcome(&def("t", &[], "fail")),
        (300, Err("Intentional failure for testing".to_string()))
    );
    assert_eq!(task_outcome(&def("t", &[], "shell")), (800, Ok("Shell command executed".to_string())));
    assert_eq!(task_outcome(&def("abc", &[], "lint")), (800, Ok("Executed 'lint' successfully".to_string())));
    // 25 bytes: (2500 % 2000) + 500
    assert_eq!(task_outcome(&def("ééééééééééééabc0", &[], "x")).0, (28 * 100) % 2000 + 500);
}

#[test]
fn outcome_statuses() {
    let (s, o) = outcome_status(Ok("done".into()));
    assert_eq!(s, TaskStatus::Succeeded);
    assert_eq!(o.as_deref(), Some("done"));
    let (s, o) = outcome_status(Err("bad".into()));
    assert_eq!(s, TaskStatus::Failed { error: "bad".into() });
    assert_eq!(o.as_deref(), Some("bad"));
}

#[test]
fn plan_sizes() {
    let levels: Vec<Vec<String>> = vec![vec!["a".into()], vec!["b".into(), "c".into()], vec![]];
    assert_eq!(total_task_count(&levels), 3);
    assert_eq!(total_task_count(&vec![]), 0);
}

fn summary(id: &str, secs: i64) -> DagSummary {
    DagSummary { id: id.into(), name: None, status: DagStatus::Running, task_count: 0, created_at: at(secs), finished_at: None }
}

#[test]
fn summaries_newest_first_and_stable() {
    let sorted = sort_newest_first(vec![
        summary("a", 1),
        summary("b", 3),
        summary("c", 1),
        summary("d", 2),
        summary("e", 3),
    ]);
    let ids: Vec<&str> = sorted.iter().map(|s| s.id.as_str()).collect();
    assert_eq!(ids, vec!["b", "e", "d", "a", "c"]);
}

#[test]
fn listing_summarises_runs() {
    let mut old = Dag::new_at("old".into(), Some("o".into()), vec![def("a", &[], "x")], at(10));
    old.update_status_at(at(11));
    let new = Dag::new_at("new".into(), None, vec![def("a", &[], "x"), def("b", &[], "x")], at(20));
    let list = ListDagResponse::from_dags(vec![old, new]);
    assert_eq!(list.total, 2);
    assert_eq!(list.dags[0].id, "new");
    assert_eq!(list.dags[0].task_count, 2);
    assert_eq!(list.dags[1].id, "old");
    assert_eq!(list.dags[1].status, DagStatus::Running);
    let s = DagSummary::from(Dag::new_at("x".into(), None, vec![], at(5)));
    assert_eq!(s.created_at, at(5));
    assert_eq!(s.task_count, 0);
}

#[test]
fn deletion_message() {
    assert_eq!(DeleteDagResponse::for_deleted("abc").message, "DAG 'abc' deleted successfully");
}

#[test]
fn code_point_order() {
    assert!(lex_less("a", "b"));
    assert!(lex_less("ab", "abc"));
    assert!(!lex_less("abc", "ab"));
    assert!(!lex_less("a", "a"));
    assert!(lex_less("Z", "a"));
    assert!(lex_less("z", "é"));
    let v: Vec<String> = vec!["q".into(), "b".into(), "é".into(), "ba".into()];
    assert_eq!(sort_distinct(&v), vec!["b", "ba", "q", "é"]);
}

#[test]
fn summaries_ordered_within_a_millisecond() {
    let mut a = summary("a", 5);
    a.created_at.nanos += 10;
    let mut b = summary("b", 5);
    b.created_at.nanos += 20;
    let sorted = sort_newest_first(vec![a, b]);
    assert_eq!(sorted[0].id, "b");
    assert_eq!(sorted[1].id, "a");
}
