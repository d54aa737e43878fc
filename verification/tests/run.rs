use mini_dag_runner::models::dag::{DagStatus, SubmitDagRequest, TaskDefinition, TaskStatus};
use mini_dag_runner::models::events::DagEvent;
use mini_dag_runner::routes::submit::prepare_submission_with;
use mini_dag_runner::services::clock::Timestamp;
use mini_dag_runner::services::run::{
    close_level, close_level_without_run, finish_task, finish_task_without_run,
    level_closing_events, plan_level,
    plan_level_without_run, run_started_event, start_run, TaskStep,
};

fn at(ms: i64) -> Timestamp {
    Timestamp { secs: ms.div_euclid(1000), nanos: (ms.rem_euclid(1000) * 1_000_000) as u32 }
}

fn def(id: &str, deps: &[&str], command: &str) -> TaskDefinition {
    TaskDefinition {
        id: id.into(),
        depends_on: deps.iter().map(|d| d.to_string()).collect(),
        command: command.into(),
        params: vec![],
    }
}

fn started(step: &TaskStep, task: &str, level: usize) -> bool {
    match step {
        TaskStep::Start { definition, event } => {
            definition.id == task
                && matches!(event, DagEvent::TaskStarted { task_id, level: l, timestamp: 5, .. }
                    if task_id == task && *l == level)
        }
        TaskStep::Skip { .. } => false,
    }
}

fn skipped(step: &TaskStep, task: &str) -> bool {
    match step {
        TaskStep::Skip { event } => matches!(event,
            DagEvent::TaskCompleted { task_id, status: TaskStatus::Skipped, duration_ms: 0, output: None, timestamp: 5, .. }
            if task_id == task),
        TaskStep::Start { .. } => false,
    }
}

#[test]
fn a_failure_skips_its_dependents_across_levels() {
    let request = SubmitDagRequest {
        name: None,
        tasks: vec![
            def("a", &[], "test"),
            def("b", &["a"], "fail"),
            def("c", &["b"], "build"),
            def("d", &["a"], "deploy"),
        ],
    };
    let (mut dag, plan) = prepare_submission_with("run".into(), at(0), request).unwrap();
    assert_eq!(plan.levels, vec![vec!["a"], vec!["b", "d"], vec!["c"]]);
    let id = "run".to_string();

    let opening = start_run(&mut dag, &id, &plan);
    assert!(matches!(opening, DagEvent::DagStarted { total_tasls: 4, .. }));
    assert_eq!(dag.status, DagStatus::Running);

    // Level 0: `a` runs and succeeds.
    let steps = plan_level(&mut dag, &id, 0, &plan.levels[0], 5);
    assert_eq!(steps.len(), 1);
    assert!(started(&steps[0], "a", 0));
    assert_eq!(dag.get_task("a").unwrap().status, TaskStatus::Running);
    assert_eq!(dag.get_task("a").unwrap().level, Some(0));
    assert!(dag.get_task("a").unwrap().started_at.is_some());
    let (status, event) = finish_task(&mut dag, &id, &"a".to_string(), Ok("All tests passed".into()), 9);
    assert_eq!(status, TaskStatus::Succeeded);
    assert!(matches!(event, DagEvent::TaskCompleted { status: TaskStatus::Succeeded, output: Some(ref o), timestamp: 9, .. } if o == "All tests passed"));
    assert_eq!(dag.get_task("a").unwrap().output.as_deref(), Some("All tests passed"));
    let closing = close_level(&mut dag, &id, 0, &plan.levels[0], 11, at(0), at(1_250), 12);
    assert_eq!(closing.len(), 2);
    assert!(matches!(&closing[0], DagEvent::LevelCompleted { level: 0, tasks_in_level, timestamp: 11, .. } if *tasks_in_level == plan.levels[0]));
    assert!(matches!(closing[1], DagEvent::DagCompleted { status: DagStatus::Running, total_duration_ms: 1_250, timestamp: 12, .. }));
    assert_eq!(dag.status, DagStatus::Running);
    assert_eq!(dag.finished_at, None);

    // Level 1: both start; `b` fails, `d` succeeds.
    let steps = plan_level(&mut dag, &id, 1, &plan.levels[1], 5);
    assert!(started(&steps[0], "b", 1));
    assert!(started(&steps[1], "d", 1));
    let (status, event) = finish_task(&mut dag, &id, &"b".to_string(), Err("Intentional failure for testing".into()), 20);
    assert_eq!(status, TaskStatus::Failed { error: "Intentional failure for testing".into() });
    assert!(matches!(event, DagEvent::TaskCompleted { output: Some(ref o), .. } if o == "Intentional failure for testing"));
    finish_task(&mut dag, &id, &"d".to_string(), Ok("Deployed to production".into()), 21);
    close_level(&mut dag, &id, 1, &plan.levels[1], 22, at(0), at(3_000), 23);
    assert_eq!(dag.status, DagStatus::Running);

    // Level 2: `c` waits for the failed `b`, so it is skipped and never starts.
    let steps = plan_level(&mut dag, &id, 2, &plan.levels[2], 5);
    assert!(skipped(&steps[0], "c"));
    let c = dag.get_task("c").unwrap();
    assert_eq!(c.status, TaskStatus::Skipped);
    assert_eq!(c.started_at, None);
    assert_eq!(c.duration_ms, None);
    assert!(c.finished_at.is_some());
    let closing = close_level(&mut dag, &id, 2, &plan.levels[2], 30, at(0), at(4_000), 31);
    assert!(matches!(closing[1], DagEvent::DagCompleted { status: DagStatus::PartialFail, total_duration_ms: 4_000, .. }));
    assert_eq!(dag.status, DagStatus::PartialFail);
    assert_eq!(dag.finished_at, Some(at(4_000)));
}

#[test]
fn a_run_that_is_gone_skips_everything_and_fails() {
    let levels = vec![vec!["x".to_string(), "y".to_string()]];
    let steps = plan_level_without_run(&"gone".to_string(), &levels[0], 5);
    assert_eq!(steps.len(), 2);
    assert!(skipped(&steps[0], "x"));
    assert!(skipped(&steps[1], "y"));
    let (status, event) = finish_task_without_run(&"gone".to_string(), &"x".to_string(), Ok("Build completed".into()), 7);
    assert_eq!(status, TaskStatus::Succeeded);
    assert!(matches!(event, DagEvent::TaskCompleted { duration_ms: 0, output: Some(ref o), .. } if o == "Build completed"));
    let events = level_closing_events(&"gone".to_string(), 0, &levels[0], 8, DagStatus::Failed, 42, 9);
    assert!(matches!(&events[0], DagEvent::LevelCompleted { level: 0, tasks_in_level, .. } if *tasks_in_level == levels[0]));
    assert!(matches!(events[1], DagEvent::DagCompleted { status: DagStatus::Failed, total_duration_ms: 42, timestamp: 9, .. }));
    let events = close_level_without_run(&"gone".to_string(), 0, &levels[0], 8, at(1_000), at(3_500), 9);
    assert_eq!(events.len(), 2);
    assert!(matches!(events[1], DagEvent::DagCompleted { status: DagStatus::Failed, total_duration_ms: 2_500, .. }));
}

#[test]
fn opening_event_counts_every_task() {
    let request = SubmitDagRequest { name: None, tasks: vec![def("a", &[], "x"), def("b", &[], "x"), def("c", &["a", "b"], "x")] };
    let (_, plan) = prepare_submission_with("r".into(), at(0), request).unwrap();
    match run_started_event(&"r".to_string(), &plan) {
        DagEvent::DagStarted { dag_id, total_tasls, execution_plan } => {
            assert_eq!(dag_id, "r");
            assert_eq!(total_tasls, 3);
            assert_eq!(execution_plan, vec![vec!["a", "b"], vec!["c"]]);
        }
        other => panic!("unexpected {:?}", other),
    }
}

#[test]
fn finishing_an_unknown_task_leaves_the_run_alone() {
    let request = SubmitDagRequest { name: None, tasks: vec![def("a", &[], "x")] };
    let (mut dag, _) = prepare_submission_with("r".into(), at(0), request).unwrap();
    let (status, event) = finish_task(&mut dag, &"r".to_string(), &"zz".to_string(), Ok("done".into()), 3);
    assert_eq!(status, TaskStatus::Succeeded);
    assert!(matches!(event, DagEvent::TaskCompleted { duration_ms: 0, .. }));
    assert_eq!(dag.get_task("a").unwrap().status, TaskStatus::Pending);
}

#[test]
fn a_failure_skips_every_task_downstream() {
    let request = SubmitDagRequest {
        name: None,
        tasks: vec![def("a", &[], "fail"), def("b", &["a"], "build"), def("c", &["b"], "test"), def("d", &[], "test")],
    };
    let (mut dag, plan) = prepare_submission_with("run".into(), at(0), request).unwrap();
    let id = "run".to_string();
    start_run(&mut dag, &id, &plan);
    for (k, level) in plan.levels.iter().enumerate() {
        let steps = plan_level(&mut dag, &id, k, level, 5);
        for (step, task_id) in steps.iter().zip(level.iter()) {
            if let TaskStep::Start { definition, .. } = step {
                let result = if definition.command == "fail" { Err("boom".to_string()) } else { Ok("fine".to_string()) };
                finish_task(&mut dag, &id, task_id, result, 6);
            }
        }
        close_level(&mut dag, &id, k, level, 7, at(0), at(10), 8);
    }
    assert!(matches!(dag.get_task("a").unwrap().status, TaskStatus::Failed { .. }));
    for t in ["b", "c"] {
        let task = dag.get_task(t).unwrap();
        assert_eq!(task.status, TaskStatus::Skipped);
        assert_eq!(task.started_at, None);
    }
    assert_eq!(dag.get_task("d").unwrap().status, TaskStatus::Succeeded);
    assert!(dag.tasks.iter().all(|t| t.status.is_terminal()));
    assert_eq!(dag.status, DagStatus::PartialFail);
}
