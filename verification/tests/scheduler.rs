use mini_dag_runner::models::dag::TaskDefinition;
use mini_dag_runner::services::scheduler::{ExecutionPlan, SchedulerError};

fn task(id: &str, deps: &[&str], command: &str) -> TaskDefinition {
    TaskDefinition {
        id: id.into(),
        depends_on: deps.iter().map(|d| d.to_string()).collect(),
        command: command.into(),
        params: Default::default(),
    }
}

#[test]
fn test_simple_linear_dag() {
    let tasks = vec![
        TaskDefinition {
            id: "a".into(),
            depends_on: vec![],
            command: "test".into(),
            params: Default::default(),
        },
        TaskDefinition {
            id: "b".into(),
            depends_on: vec!["a".into()],
            command: "test".into(),
            params: Default::default(),
        },
        TaskDefinition {
            id: "c".into(),
            depends_on: vec!["b".into()],
            command: "test".into(),
            params: Default::default(),
        },
    ];

    let plan = ExecutionPlan::build(&tasks).unwrap();
    assert_eq!(plan.levels.len(), 3);
    assert_eq!(plan.levels[0], vec!["a"]);
    assert_eq!(plan.levels[1], vec!["b"]);
    assert_eq!(plan.levels[2], vec!["c"]);
}

#[test]
fn test_parallel_dag() {
    let tasks = vec![
        TaskDefinition {
            id: "a".into(),
            depends_on: vec![],
            command: "test".into(),
            params: Default::default(),
        },
        TaskDefinition {
            id: "b".into(),
            depends_on: vec![],
            command: "test".into(),
            params: Default::default(),
        },
        TaskDefinition {
            id: "c".into(),
            depends_on: vec!["a".into(), "b".into()],
            command: "test".into(),
            params: Default::default(),
        },
    ];

    let plan = ExecutionPlan::build(&tasks).unwrap();
    assert_eq!(plan.levels.len(), 2);
    assert_eq!(plan.levels[0], vec!["a", "b"]);
    assert_eq!(plan.levels[1], vec!["c"]);
}

#[test]
fn test_cycle_detection() {
    let tasks = vec![
        TaskDefinition {
            id: "a".into(),
            depends_on: vec!["b".into()],
            command: "test".into(),
            params: Default::default(),
        },
        TaskDefinition {
            id: "b".into(),
            depends_on: vec!["a".into()],
            command: "test".into(),
            params: Default::default(),
        },
    ];

    let result = ExecutionPlan::build(&tasks);
    assert!(matches!(result, Err(SchedulerError::CycleDetected)));
}

#[test]
fn test_missing_dependency() {
    let tasks = vec![TaskDefinition {
        id: "a".into(),
        depends_on: vec!["nonexistent".into()],
        command: "test".into(),
        params: Default::default(),
    }];

    let result = ExecutionPlan::build(&tasks);
    assert!(matches!(
        result,
        Err(SchedulerError::MissingDependency(_, _))
    ));
}

#[test]
fn test_duplicate_task_id() {
    let tasks = vec![
        TaskDefinition {
            id: "a".into(),
            depends_on: vec![],
            command: "test".into(),
            params: Default::default(),
        },
        TaskDefinition {
            id: "a".into(),
            depends_on: vec![],
            command: "test".into(),
            params: Default::default(),
        },
    ];

    let result = ExecutionPlan::build(&tasks);
    assert!(matches!(result, Err(SchedulerError::DuplicateTaskId(_))));
}

#[test]
fn test_complex_dag() {
    // checkout -> [lint, unit_test] -> build -> integ_test -> deploy -> notify
    let tasks = vec![
        TaskDefinition {
            id: "checkout".into(),
            depends_on: vec![],
            command: "build".into(),
            params: Default::default(),
        },
        TaskDefinition {
            id: "lint".into(),
            depends_on: vec!["checkout".into()],
            command: "test".into(),
            params: Default::default(),
        },
        TaskDefinition {
            id: "unit_test".into(),
            depends_on: vec!["checkout".into()],
            command: "test".into(),
            params: Default::default(),
        },
        TaskDefinition {
            id: "build".into(),
            depends_on: vec!["lint".into(), "unit_test".into()],
            command: "build".into(),
            params: Default::default(),
        },
        TaskDefinition {
            id: "integ_test".into(),
            depends_on: vec!["build".into()],
            command: "test".into(),
            params: Default::default(),
        },
        TaskDefinition {
            id: "deploy".into(),
            depends_on: vec!["integ_test".into()],
            command: "deploy".into(),
            params: Default::default(),
        },
        TaskDefinition {
            id: "notify".into(),
            depends_on: vec!["deploy".into()],
            command: "send_email".into(),
            params: Default::default(),
        },
    ];

    let plan = ExecutionPlan::build(&tasks).unwrap();

    assert_eq!(plan.levels.len(), 6);
    assert_eq!(plan.levels[0], vec!["checkout"]);
    assert_eq!(plan.levels[1], vec!["lint", "unit_test"]);
    assert_eq!(plan.levels[2], vec!["build"]);
    assert_eq!(plan.levels[3], vec!["integ_test"]);
    assert_eq!(plan.levels[4], vec!["deploy"]);
    assert_eq!(plan.levels[5], vec!["notify"]);
}

#[test]
fn empty_task_list_is_rejected() {
    let result = ExecutionPlan::build(&[]);
    assert!(matches!(result, Err(SchedulerError::EmptyDag)));
}

#[test]
fn first_repeated_id_is_reported() {
    let tasks = vec![task("x", &[], "test"), task("y", &[], "test"), task("y", &[], "test"), task("x", &[], "test")];
    match ExecutionPlan::build(&tasks) {
        Err(SchedulerError::DuplicateTaskId(id)) => assert_eq!(id, "y"),
        other => panic!("unexpected {:?}", other),
    }
}

#[test]
fn first_unknown_dependency_is_reported() {
    let tasks = vec![task("a", &["b", "zz"], "test"), task("b", &["qq"], "test")];
    match ExecutionPlan::build(&tasks) {
        Err(SchedulerError::MissingDependency(task_id, dep)) => {
            assert_eq!(task_id, "a");
            assert_eq!(dep, "zz");
        }
        other => panic!("unexpected {:?}", other),
    }
}

#[test]
fn duplicates_are_reported_before_unknown_dependencies() {
    let tasks = vec![task("a", &["missing"], "test"), task("a", &[], "test")];
    assert!(matches!(ExecutionPlan::build(&tasks), Err(SchedulerError::DuplicateTaskId(_))));
}

#[test]
fn self_dependency_is_a_cycle() {
    let tasks = vec![task("a", &["a"], "test")];
    assert!(matches!(ExecutionPlan::build(&tasks), Err(SchedulerError::CycleDetected)));
}

#[test]
fn level_is_longest_dependency_chain() {
    // d waits for a directly and for c, which is two steps from a.
    let tasks = vec![
        task("d", &["a", "c"], "test"),
        task("c", &["b"], "test"),
        task("b", &["a"], "test"),
        task("a", &[], "test"),
        task("e", &[], "test"),
    ];
    let plan = ExecutionPlan::build(&tasks).unwrap();
    assert_eq!(plan.levels, vec![vec!["a", "e"], vec!["b"], vec!["c"], vec!["d"]]);
}

#[test]
fn levels_sorted_by_code_point_and_every_task_once() {
    let tasks = vec![
        task("zeta", &[], "test"),
        task("Alpha", &[], "test"),
        task("beta", &[], "test"),
        task("ä", &[], "test"),
        task("b", &[], "test"),
        task("end", &["zeta", "Alpha"], "test"),
    ];
    let plan = ExecutionPlan::build(&tasks).unwrap();
    assert_eq!(plan.levels, vec![vec!["Alpha", "b", "beta", "zeta", "ä"], vec!["end"]]);
    let mut all: Vec<String> = plan.levels.concat();
    all.sort();
    let mut ids: Vec<String> = tasks.iter().map(|t| t.id.clone()).collect();
    ids.sort();
    assert_eq!(all, ids);
    assert!(plan.levels.iter().all(|l| !l.is_empty()));
}

#[test]
fn dependencies_come_in_earlier_levels() {
    let tasks = vec![
        task("deploy", &["build", "test"], "deploy"),
        task("test", &["build"], "test"),
        task("build", &["fetch"], "build"),
        task("fetch", &[], "shell"),
        task("docs", &["fetch"], "shell"),
    ];
    let plan = ExecutionPlan::build(&tasks).unwrap();
    let level_of = |id: &str| plan.levels.iter().position(|l| l.iter().any(|x| x == id)).unwrap();
    for t in &tasks {
        for d in &t.depends_on {
            assert!(level_of(d) < level_of(&t.id));
        }
    }
}

#[test]
fn scheduler_error_messages() {
    assert_eq!(SchedulerError::DuplicateTaskId("a".into()).message(), "Duplicate task ID: a");
    assert_eq!(
        SchedulerError::MissingDependency("a".into(), "b".into()).message(),
        "Task 'a' depends on unknown task 'b'"
    );
    assert_eq!(SchedulerError::CycleDetected.message(), "Cycle detected in DAG");
    assert_eq!(SchedulerError::EmptyDag.message(), "DAG has no tasks");
}

#[test]
fn plan_does_not_depend_on_task_order() {
    let tasks = vec![
        task("deploy", &["build", "test"], "deploy"),
        task("test", &["build"], "test"),
        task("build", &["fetch"], "build"),
        task("fetch", &[], "shell"),
        task("docs", &["fetch"], "shell"),
    ];
    let mut reversed = tasks.clone();
    reversed.reverse();
    let a = ExecutionPlan::build(&tasks).unwrap();
    let b = ExecutionPlan::build(&reversed).unwrap();
    assert_eq!(a.levels, b.levels);
    assert_eq!(a.levels, vec![vec!["fetch"], vec!["build", "docs"], vec!["test"], vec!["deploy"]]);
}
