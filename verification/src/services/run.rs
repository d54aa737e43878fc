use crate::models::dag::{
    lemma_same_ids_same_uniqueness, is_first_state_with_id, settled_status, state_ids, Dag, DagStatus, TaskDefinition, TaskState,
    TaskStatus,
};
use crate::models::events::DagEvent;
use crate::services::clock::{elapsed_ms, elapsed_ms_between, Timestamp};
use crate::services::executor::{
    check_dependencies, dependencies_succeeded, dependency_succeeded, finished_from,
    mark_task_started, outcome_status, plan_size, ready_to_run, record_task_outcome, started_from,
    total_task_count,
};
use crate::services::scheduler::{level_views, ExecutionPlan};
use crate::services::executor::{lemma_first_state_unique, lemma_some_first_state, only_task_changed};
use crate::text::clone_string_lists;
use vstd::prelude::*;

verus! {

/// What the run does with one task of a level.
#[derive(Debug)]
pub enum TaskStep {
    /// The task is skipped; the event tells the clients.
    Skip { event: DagEvent },
    /// The task starts, running this definition; the event tells the clients.
    Start { definition: TaskDefinition, event: DagEvent },
}

/// The event for a skipped task.
pub open spec fn skipped_event(dag_id: String, task_id: String, time: i64) -> DagEvent {
    DagEvent::TaskCompleted {
        dag_id,
        task_id,
        status: TaskStatus::Skipped,
        duration_ms: 0,
        output: None,
        timestamp: time,
    }
}

/// The event for a task that starts at a level.
pub open spec fn started_event(dag_id: String, task_id: String, level: usize, time: i64) -> DagEvent {
    DagEvent::TaskStarted { dag_id, task_id, level, timestamp: time }
}

/// A skipped task is reported completed as skipped, with no duration and no output; a
/// started task is reported started at its level; each event names the run, the task
/// and the time it is given.
pub proof fn lemma_step_event_fields(dag_id: String, task_id: String, level: usize, time: i64)
    ensures
        skipped_event(dag_id, task_id, time) matches DagEvent::TaskCompleted {
            dag_id: d,
            task_id: t,
            status,
            duration_ms,
            output,
            timestamp,
        } && d == dag_id && t == task_id && status is Skipped && duration_ms == 0 && output is None
            && timestamp == time,
        started_event(dag_id, task_id, level, time) matches DagEvent::TaskStarted {
            dag_id: d,
            task_id: t,
            level: l,
            timestamp,
        } && d == dag_id && t == task_id && l == level && timestamp == time,
{
}

/// `r` is a copy of `d`.
pub open spec fn definition_copy(r: TaskDefinition, d: TaskDefinition) -> bool {
    &&& r.id == d.id
    &&& r.depends_on@ == d.depends_on@
    &&& r.command == d.command
    &&& r.params@ == d.params@
}

/// The level names the first task with its id at position `p`.
pub open spec fn names_task(tasks: Seq<TaskState>, level: Seq<String>, p: int) -> bool {
    exists|k: int| 0 <= k < level.len() && is_first_state_with_id(tasks, p, (#[trigger] level[k])@)
}

/// `new` is `old` once a level is planned: each task the level names starts at
/// `level_idx` when it was ready in `old` and is skipped otherwise; the others stay.
pub open spec fn level_planned(old: Seq<TaskState>, new: Seq<TaskState>, level: Seq<String>, level_idx: usize) -> bool {
    &&& new.len() == old.len()
    &&& forall|p: int|
        0 <= p < old.len() ==> if names_task(old, level, p) {
            if ready_to_run(old, old[p].definition.id@) {
                started_from(old[p], #[trigger] new[p], level_idx)
            } else {
                finished_from(old[p], new[p], TaskStatus::Skipped, None)
            }
        } else {
            new[p] == old[p]
        }
}

/// A copy of a task definition.
pub fn copy_definition(d: &TaskDefinition) -> (r: TaskDefinition)
    ensures
        definition_copy(r, *d),
        r.id@ == d.id@,
        r.command@ == d.command@,
        r.depends_on@ == d.depends_on@,
        r.params@ == d.params@,
{
    let mut depends_on: Vec<String> = Vec::new();
    for i in 0..d.depends_on.len()
        invariant
            depends_on@.len() == i,
            i <= d.depends_on@.len(),
            forall|j: int| 0 <= j < i ==> depends_on@[j] == d.depends_on@[j],
    {
        depends_on.push(d.depends_on[i].clone());
    }
    let mut params: Vec<(String, String)> = Vec::new();
    for i in 0..d.params.len()
        invariant
            params@.len() == i,
            i <= d.params@.len(),
            forall|j: int| 0 <= j < i ==> params@[j] == d.params@[j],
    {
        let (k, v) = &d.params[i];
        params.push((k.clone(), v.clone()));
    }
    assert(depends_on@ =~= d.depends_on@);
    assert(params@ =~= d.params@);
    TaskDefinition { id: d.id.clone(), depends_on, command: d.command.clone(), params }
}

proof fn lemma_same_definitions_same_first(a: Seq<TaskState>, b: Seq<TaskState>)
    requires
        a.len() == b.len(),
        forall|q: int| 0 <= q < a.len() ==> (#[trigger] a[q]).definition == b[q].definition,
    ensures
        forall|p: int, x: Seq<char>| is_first_state_with_id(a, p, x) == is_first_state_with_id(b, p, x),
        state_ids(a) == state_ids(b),
{
    assert forall|p: int, x: Seq<char>| is_first_state_with_id(a, p, x) == is_first_state_with_id(b, p, x) by {
        if 0 <= p < a.len() {
            assert(a[p].definition == b[p].definition);
            assert forall|q: int| 0 <= q < p implies a[q].definition.id@ == b[q].definition.id@ by {
                assert(a[q].definition == b[q].definition);
            }
        }
    }
    assert(state_ids(a) =~= state_ids(b)) by {
        assert forall|q: int| 0 <= q < a.len() implies state_ids(a)[q] == state_ids(b)[q] by {
            assert(a[q].definition == b[q].definition);
        }
    }
}

/// Plans a level of the run: every task of the level whose dependencies all succeeded
/// starts, marked running at `level_idx`; every other task is skipped. The events carry
/// `event_time` (milliseconds since the Unix epoch).
pub fn plan_level(dag: &mut Dag, dag_id: &String, level_idx: usize, level_tasks: &Vec<String>, event_time: i64) -> (r: Vec<TaskStep>)
    ensures
        r@.len() == level_tasks@.len(),
        forall|k: int|
            0 <= k < r@.len() ==> match #[trigger] r@[k] {
                TaskStep::Start { definition, event } => ready_to_run(
                    old(dag).tasks@,
                    level_tasks@[k]@,
                ) && event == started_event(*dag_id, level_tasks@[k], level_idx, event_time)
                    && exists|p: int|
                    is_first_state_with_id(old(dag).tasks@, p, level_tasks@[k]@) && definition_copy(
                        definition,
                        old(dag).tasks@[p].definition,
                    ),
                TaskStep::Skip { event } => !ready_to_run(old(dag).tasks@, level_tasks@[k]@) && event
                    == skipped_event(*dag_id, level_tasks@[k], event_time),
            },
        level_planned(old(dag).tasks@, final(dag).tasks@, level_tasks@, level_idx),
        level_not_started(old(dag).tasks@, level_tasks@) ==> run_step(old(dag).tasks@, final(dag).tasks@),
        final(dag).wf() == old(dag).wf(),
        final(dag).id == old(dag).id,
        final(dag).name == old(dag).name,
        final(dag).status == old(dag).status,
        final(dag).created_at == old(dag).created_at,
        final(dag).finished_at == old(dag).finished_at,
        final(dag).execution_levels == old(dag).execution_levels,
{
    let ghost ts = dag.tasks@;
    let ghost old_dag = *dag;
    let ready = check_dependencies(Some(&*dag), level_tasks);
    let n = level_tasks.len();
    let mut steps: Vec<TaskStep> = Vec::new();
    for k in 0..n
        invariant
            n == level_tasks@.len(),
            ready@.len() == n,
            forall|j: int| 0 <= j < n ==> #[trigger] ready@[j] == ready_to_run(ts, level_tasks@[j]@),
            steps@.len() == k,
            dag.tasks@.len() == ts.len(),
            forall|q: int| 0 <= q < ts.len() ==> (#[trigger] dag.tasks@[q]).definition == ts[q].definition,
            forall|p: int|
                0 <= p < ts.len() ==> if names_task(ts, level_tasks@.take(k as int), p) {
                    if ready_to_run(ts, ts[p].definition.id@) {
                        started_from(ts[p], #[trigger] dag.tasks@[p], level_idx)
                    } else {
                        finished_from(ts[p], dag.tasks@[p], TaskStatus::Skipped, None)
                    }
                } else {
                    dag.tasks@[p] == ts[p]
                },
            forall|j: int|
                0 <= j < k ==> match #[trigger] steps@[j] {
                    TaskStep::Start { definition, event } => ready_to_run(ts, level_tasks@[j]@)
                        && event == started_event(*dag_id, level_tasks@[j], level_idx, event_time)
                        && exists|p: int|
                        is_first_state_with_id(ts, p, level_tasks@[j]@) && definition_copy(
                            definition,
                            ts[p].definition,
                        ),
                    TaskStep::Skip { event } => !ready_to_run(ts, level_tasks@[j]@) && event
                        == skipped_event(*dag_id, level_tasks@[j], event_time),
                },
            dag.id == old_dag.id,
            dag.name == old_dag.name,
            dag.status == old_dag.status,
            dag.created_at == old_dag.created_at,
            dag.finished_at == old_dag.finished_at,
            dag.execution_levels == old_dag.execution_levels,
    {
        let task_id = &level_tasks[k];
        let ghost before = dag.tasks@;
        let ghost x = task_id@;
        let ghost before_dag = *dag;
        let ghost p0: int = if state_ids(before).contains(x) {
            choose|p: int| is_first_state_with_id(before, p, x)
        } else {
            -1
        };
        proof {
            lemma_same_definitions_same_first(before, ts);
            lemma_first_state_unique(before, x);
            if state_ids(before).contains(x) {
                let q = choose|q: int| 0 <= q < before.len() && state_ids(before)[q] == x;
                assert(before[q].definition.id@ == x);
                lemma_some_first_state(before, x, q);
                assert(is_first_state_with_id(before, p0, x));
            }
        }
        if !ready[k] {
            record_task_outcome(dag, task_id.as_str(), TaskStatus::Skipped, None);
            proof {
                if p0 >= 0 {
                    assert(only_task_changed(before_dag, *dag, p0));
                    assert(finished_from(before[p0], dag.tasks@[p0], TaskStatus::Skipped, None));
                } else {
                    assert(*dag == before_dag);
                }
            }
            let event = DagEvent::TaskCompleted {
                dag_id: dag_id.clone(),
                task_id: task_id.clone(),
                status: TaskStatus::Skipped,
                duration_ms: 0,
                output: None,
                timestamp: event_time,
            };
            steps.push(TaskStep::Skip { event });
        } else {
            let definition = match dag.get_task(task_id.as_str()) {
                Some(t) => copy_definition(&t.definition),
                None => {
                    proof {
                        let p = choose|p: int| is_first_state_with_id(ts, p, x) && dependencies_succeeded(ts, ts[p]);
                        assert(state_ids(ts)[p] == x);
                    }
                    vstd::pervasive::unreached()
                },
            };
            mark_task_started(dag, task_id.as_str(), level_idx);
            proof {
                if p0 >= 0 {
                    assert(only_task_changed(before_dag, *dag, p0));
                    assert(started_from(before[p0], dag.tasks@[p0], level_idx));
                } else {
                    assert(*dag == before_dag);
                }
            }
            let event = DagEvent::TaskStarted {
                dag_id: dag_id.clone(),
                task_id: task_id.clone(),
                level: level_idx,
                timestamp: event_time,
            };
            steps.push(TaskStep::Start { definition, event });
        }
        proof {
            let after = dag.tasks@;
            lemma_same_definitions_same_first(after, ts);
            assert(level_tasks@.take(k + 1) =~= level_tasks@.take(k as int).push(level_tasks@[k as int]));
            assert forall|p: int|
                0 <= p < ts.len() implies if names_task(ts, level_tasks@.take(k + 1), p) {
                    if ready_to_run(ts, ts[p].definition.id@) {
                        started_from(ts[p], #[trigger] after[p], level_idx)
                    } else {
                        finished_from(ts[p], after[p], TaskStatus::Skipped, None)
                    }
                } else {
                    after[p] == ts[p]
                } by {
                let named_before = names_task(ts, level_tasks@.take(k as int), p);
                let is_this = is_first_state_with_id(ts, p, x);
                if is_this {
                    lemma_same_definitions_same_first(before, ts);
                    assert(is_first_state_with_id(before, p, x));
                    assert(state_ids(before)[p] == x);
                    assert(p == p0);
                    assert(level_tasks@.take(k + 1)[k as int] == *task_id);
                    assert(ts[p].definition.id@ == x);
                    if named_before {
                        let kk = choose|kk: int| 0 <= kk < k && is_first_state_with_id(ts, p, (#[trigger] level_tasks@.take(k as int)[kk])@);
                        assert(level_tasks@.take(k + 1)[kk] == level_tasks@.take(k as int)[kk]);
                    }
                } else {
                    assert(after[p] == before[p]);
                    if names_task(ts, level_tasks@.take(k + 1), p) {
                        let kk = choose|kk: int| 0 <= kk < k + 1 && is_first_state_with_id(ts, p, (#[trigger] level_tasks@.take(k + 1)[kk])@);
                        if kk < k {
                            assert(level_tasks@.take(k + 1)[kk] == level_tasks@.take(k as int)[kk]);
                        }
                    }
                    if named_before {
                        let kk = choose|kk: int| 0 <= kk < k && is_first_state_with_id(ts, p, (#[trigger] level_tasks@.take(k as int)[kk])@);
                        assert(level_tasks@.take(k + 1)[kk] == level_tasks@.take(k as int)[kk]);
                    }
                }
            }
        }
    }
    proof {
        assert(level_tasks@.take(n as int) =~= level_tasks@);
        if level_not_started(ts, level_tasks@) {
            assert(level_planned(ts, dag.tasks@, level_tasks@, level_idx));
        }
        lemma_same_definitions_same_first(dag.tasks@, ts);
        lemma_same_ids_same_uniqueness(dag.tasks@, ts);
    }
    steps
}

/// Plans a level when the run is gone: every task of the level is skipped.
pub fn plan_level_without_run(dag_id: &String, level_tasks: &Vec<String>, event_time: i64) -> (r: Vec<TaskStep>)
    ensures
        r@.len() == level_tasks@.len(),
        forall|k: int|
            0 <= k < r@.len() ==> (#[trigger] r@[k] matches TaskStep::Skip { event } && event
                == skipped_event(*dag_id, level_tasks@[k], event_time)),
{
    let n = level_tasks.len();
    let mut steps: Vec<TaskStep> = Vec::new();
    for k in 0..n
        invariant
            n == level_tasks@.len(),
            steps@.len() == k,
            forall|j: int|
                0 <= j < k ==> (#[trigger] steps@[j] matches TaskStep::Skip { event } && event
                    == skipped_event(*dag_id, level_tasks@[j], event_time)),
    {
        let event = DagEvent::TaskCompleted {
            dag_id: dag_id.clone(),
            task_id: level_tasks[k].clone(),
            status: TaskStatus::Skipped,
            duration_ms: 0,
            output: None,
            timestamp: event_time,
        };
        steps.push(TaskStep::Skip { event });
    }
    steps
}

/// `e` tells that the run `dag_id` starts with `total` tasks over the given levels.
pub open spec fn is_run_started_event(e: DagEvent, dag_id: String, total: nat, levels: Seq<Vec<String>>) -> bool {
    e matches DagEvent::DagStarted { dag_id: d, total_tasls, execution_plan } && d == dag_id
        && total_tasls == total && level_views(execution_plan@) == level_views(levels)
}

/// The event that opens a run: its id, its number of tasks and its plan.
pub fn run_started_event(dag_id: &String, plan: &ExecutionPlan) -> (r: DagEvent)
    requires
        plan_size(plan.levels@) <= usize::MAX,
    ensures
        is_run_started_event(r, *dag_id, plan_size(plan.levels@), plan.levels@),
{
    let total = total_task_count(&plan.levels);
    let execution_plan = clone_string_lists(&plan.levels);
    assert(level_views(execution_plan@) =~= level_views(plan.levels@));
    DagEvent::DagStarted { dag_id: dag_id.clone(), total_tasls: total, execution_plan }
}

/// Opens a run: it is running from now on, and the event tells its plan.
pub fn start_run(dag: &mut Dag, dag_id: &String, plan: &ExecutionPlan) -> (r: DagEvent)
    requires
        plan_size(plan.levels@) <= usize::MAX,
    ensures
        is_run_started_event(r, *dag_id, plan_size(plan.levels@), plan.levels@),
        final(dag).status == DagStatus::Running,
        final(dag).tasks == old(dag).tasks,
        run_step(old(dag).tasks@, final(dag).tasks@),
        final(dag).wf() == old(dag).wf(),
        final(dag).id == old(dag).id,
        final(dag).name == old(dag).name,
        final(dag).created_at == old(dag).created_at,
        final(dag).finished_at == old(dag).finished_at,
        final(dag).execution_levels == old(dag).execution_levels,
{
    dag.status = DagStatus::Running;
    run_started_event(dag_id, plan)
}

/// The event for a finished task.
pub open spec fn completed_event(
    dag_id: String,
    task_id: String,
    status: TaskStatus,
    duration_ms: u64,
    output: Option<String>,
    time: i64,
) -> DagEvent {
    DagEvent::TaskCompleted { dag_id, task_id, status, duration_ms, output, timestamp: time }
}

/// The event for a finished task carries exactly the run, task, status, duration,
/// output and time it is given.
pub proof fn lemma_completed_event_fields(
    dag_id: String,
    task_id: String,
    status: TaskStatus,
    duration_ms: u64,
    output: Option<String>,
    time: i64,
)
    ensures
        completed_event(dag_id, task_id, status, duration_ms, output, time) matches DagEvent::TaskCompleted {
            dag_id: d,
            task_id: t,
            status: s,
            duration_ms: ms,
            output: o,
            timestamp,
        } && d == dag_id && t == task_id && s == status && ms == duration_ms && o == output && timestamp
            == time,
{
}

/// The status and output that a command's outcome gives a task.
pub open spec fn outcome_gives(result: Result<String, String>, status: TaskStatus, output: Option<String>) -> bool {
    match result {
        Ok(out) => status is Succeeded && output == Some(out),
        Err(err) => status matches TaskStatus::Failed { error } && error@ == err@ && output == Some(err),
    }
}

fn copy_status(s: &TaskStatus) -> (r: TaskStatus)
    ensures
        r == *s,
{
    match s {
        TaskStatus::Pending => TaskStatus::Pending,
        TaskStatus::Running => TaskStatus::Running,
        TaskStatus::Succeeded => TaskStatus::Succeeded,
        TaskStatus::Failed { error } => TaskStatus::Failed { error: error.clone() },
        TaskStatus::Skipped => TaskStatus::Skipped,
    }
}

fn copy_output(o: &Option<String>) -> (r: Option<String>)
    ensures
        r == *o,
{
    match o {
        Some(x) => Some(x.clone()),
        None => None,
    }
}

/// Records a command's outcome for a task of the run, finished at the current time; gives
/// the task's new status and the event that tells it, with the task's duration (0 when
/// it has none or is not in the run).
pub fn finish_task(
    dag: &mut Dag,
    dag_id: &String,
    task_id: &String,
    result: Result<String, String>,
    event_time: i64,
) -> (r: (TaskStatus, DagEvent))
    ensures
        exists|output: Option<String>|
            #![trigger outcome_gives(result, r.0, output)]
            outcome_gives(result, r.0, output) && {
                &&& !state_ids(old(dag).tasks@).contains(task_id@) ==> *final(dag) == *old(dag)
                    && r.1 == completed_event(*dag_id, *task_id, r.0, 0, output, event_time)
                &&& forall|p: int|
                    is_first_state_with_id(old(dag).tasks@, p, task_id@) ==> only_task_changed(
                        *old(dag),
                        *final(dag),
                        p,
                    ) && finished_from(old(dag).tasks@[p], final(dag).tasks@[p], r.0, output) && r.1
                        == completed_event(
                        *dag_id,
                        *task_id,
                        r.0,
                        match final(dag).tasks@[p].duration_ms {
                            Some(d) => d,
                            None => 0,
                        },
                        output,
                        event_time,
                    )
            },
        r.0 is Succeeded || r.0 is Failed,
        r.1 matches DagEvent::TaskCompleted { dag_id: d, task_id: t, status, output, timestamp, .. } && d
            == *dag_id && t == *task_id && status == r.0 && timestamp == event_time && match result {
            Ok(out) => output == Some(out),
            Err(err) => output == Some(err),
        },
        !state_ids(old(dag).tasks@).contains(task_id@) ==> (r.1 matches DagEvent::TaskCompleted {
            duration_ms,
            ..
        } && duration_ms == 0),
        forall|p: int|
            is_first_state_with_id(old(dag).tasks@, p, task_id@) ==> (r.1 matches DagEvent::TaskCompleted {
                duration_ms,
                ..
            } && final(dag).tasks@[p].finished_at is Some && (match old(dag).tasks@[p].started_at {
                Some(started) => duration_ms == elapsed_ms(started, final(dag).tasks@[p].finished_at->0)
                    && final(dag).tasks@[p].duration_ms == Some(duration_ms),
                None => final(dag).tasks@[p].duration_ms == old(dag).tasks@[p].duration_ms
                    && duration_ms == match old(dag).tasks@[p].duration_ms {
                    Some(d) => d,
                    None => 0,
                },
            })),
        final(dag).wf() == old(dag).wf(),
        forall|p: int|
            is_first_state_with_id(old(dag).tasks@, p, task_id@) && old(dag).tasks@[p].status is Running
                ==> task_finished(old(dag).tasks@, final(dag).tasks@, p, r.0, final(dag).tasks@[p].output)
                && run_step(old(dag).tasks@, final(dag).tasks@),
{
    let ghost res = result;
    let (status, output) = outcome_status(result);
    let ghost out = output;
    let duration_ms = record_task_outcome(dag, task_id.as_str(), copy_status(&status), copy_output(&output));
    let event = DagEvent::TaskCompleted {
        dag_id: dag_id.clone(),
        task_id: task_id.clone(),
        status: copy_status(&status),
        duration_ms,
        output,
        timestamp: event_time,
    };
    let r = (status, event);
    proof {
        assert(outcome_gives(res, r.0, out));
        assert(r.1 == completed_event(*dag_id, *task_id, r.0, duration_ms, out, event_time));
        assert forall|p: int|
            is_first_state_with_id(old(dag).tasks@, p, task_id@) && old(dag).tasks@[p].status is Running
                implies task_finished(old(dag).tasks@, dag.tasks@, p, r.0, dag.tasks@[p].output)
                && run_step(old(dag).tasks@, dag.tasks@) by {
            assert(only_task_changed(*old(dag), *dag, p));
            assert(finished_from(old(dag).tasks@[p], dag.tasks@[p], r.0, out));
            assert(task_finished(old(dag).tasks@, dag.tasks@, p, r.0, out));
        }
        assert forall|p: int| is_first_state_with_id(old(dag).tasks@, p, task_id@) implies (r.1 matches DagEvent::TaskCompleted {
                duration_ms,
                ..
            } && dag.tasks@[p].finished_at is Some && (match old(dag).tasks@[p].started_at {
                Some(started) => duration_ms == elapsed_ms(started, dag.tasks@[p].finished_at->0)
                    && dag.tasks@[p].duration_ms == Some(duration_ms),
                None => dag.tasks@[p].duration_ms == old(dag).tasks@[p].duration_ms
                    && duration_ms == match old(dag).tasks@[p].duration_ms {
                    Some(d) => d,
                    None => 0,
                },
            })) by {
            assert(only_task_changed(*old(dag), *dag, p));
            assert(finished_from(old(dag).tasks@[p], dag.tasks@[p], r.0, out));
            assert(duration_ms == match dag.tasks@[p].duration_ms {
                Some(d) => d,
                None => 0,
            });
        }
        if state_ids(old(dag).tasks@).contains(task_id@) {
            let q = choose|q: int| 0 <= q < old(dag).tasks@.len() && state_ids(old(dag).tasks@)[q] == task_id@;
            lemma_some_first_state(old(dag).tasks@, task_id@, q);
            let p = choose|p: int| is_first_state_with_id(old(dag).tasks@, p, task_id@);
            assert(only_task_changed(*old(dag), *dag, p));
            assert forall|i: int| 0 <= i < dag.tasks@.len() implies (#[trigger] dag.tasks@[i]).definition
                == old(dag).tasks@[i].definition by {
                if i != p {
                    assert(dag.tasks@[i] == old(dag).tasks@[i]);
                }
            }
            lemma_same_definitions_same_first(dag.tasks@, old(dag).tasks@);
        }
        lemma_same_ids_same_uniqueness(dag.tasks@, old(dag).tasks@);
    }
    r
}

/// Records a command's outcome when the run is gone: gives the status and the event,
/// with no duration.
pub fn finish_task_without_run(dag_id: &String, task_id: &String, result: Result<String, String>, event_time: i64) -> (r: (TaskStatus, DagEvent))
    ensures
        exists|output: Option<String>|
            #![trigger outcome_gives(result, r.0, output)]
            outcome_gives(result, r.0, output) && r.1 == completed_event(
                *dag_id,
                *task_id,
                r.0,
                0,
                output,
                event_time,
            ),
{
    let ghost res = result;
    let (status, output) = outcome_status(result);
    let ghost out = output;
    let event = DagEvent::TaskCompleted {
        dag_id: dag_id.clone(),
        task_id: task_id.clone(),
        status: copy_status(&status),
        duration_ms: 0,
        output,
        timestamp: event_time,
    };
    proof {
        assert(outcome_gives(res, status, out));
        assert(event == completed_event(*dag_id, *task_id, status, 0, out, event_time));
    }
    let r = (status, event);
    proof {
        assert(r.0 == status);
        assert(outcome_gives(result, r.0, out));
    }
    r
}

/// `events` close a level: the level is done, then the run stands at `status` after
/// `total_ms` milliseconds.
pub open spec fn closes_level(
    events: Seq<DagEvent>,
    dag_id: String,
    level_idx: usize,
    level_tasks: Seq<String>,
    level_time: i64,
    status: DagStatus,
    total_ms: u64,
    completion_time: i64,
) -> bool {
    &&& events.len() == 2
    &&& events[0] matches DagEvent::LevelCompleted { dag_id: d, level, tasks_in_level, timestamp }
        && d == dag_id && level == level_idx && tasks_in_level@ == level_tasks && timestamp == level_time
    &&& events[1] matches DagEvent::DagCompleted { dag_id: d, status: s, total_duration_ms, timestamp }
        && d == dag_id && s == status && total_duration_ms == total_ms && timestamp == completion_time
}

/// The events that close a level, given the status the run then stands at.
pub fn level_closing_events(
    dag_id: &String,
    level_idx: usize,
    level_tasks: &Vec<String>,
    level_time: i64,
    status: DagStatus,
    total_ms: u64,
    completion_time: i64,
) -> (r: Vec<DagEvent>)
    ensures
        closes_level(r@, *dag_id, level_idx, level_tasks@, level_time, status, total_ms, completion_time),
{
    let mut tasks_in_level: Vec<String> = Vec::new();
    for i in 0..level_tasks.len()
        invariant
            tasks_in_level@.len() == i,
            i <= level_tasks@.len(),
            forall|j: int| 0 <= j < i ==> tasks_in_level@[j] == level_tasks@[j],
    {
        tasks_in_level.push(level_tasks[i].clone());
    }
    assert(tasks_in_level@ =~= level_tasks@);
    let mut events: Vec<DagEvent> = Vec::new();
    events.push(DagEvent::LevelCompleted {
        dag_id: dag_id.clone(),
        level: level_idx,
        tasks_in_level,
        timestamp: level_time,
    });
    events.push(DagEvent::DagCompleted {
        dag_id: dag_id.clone(),
        status,
        total_duration_ms: total_ms,
        timestamp: completion_time,
    });
    events
}

/// Closes a level: the run's status is settled from its tasks at `now`, and the events
/// tell that the level is done and where the run stands after the time since
/// `run_started`.
pub fn close_level(
    dag: &mut Dag,
    dag_id: &String,
    level_idx: usize,
    level_tasks: &Vec<String>,
    level_time: i64,
    run_started: Timestamp,
    now: Timestamp,
    completion_time: i64,
) -> (r: Vec<DagEvent>)
    ensures
        final(dag).status == settled_status(old(dag).tasks@),
        final(dag).finished_at == if crate::models::dag::all_terminal(old(dag).tasks@) {
            Some(now)
        } else {
            old(dag).finished_at
        },
        final(dag).tasks == old(dag).tasks,
        run_step(old(dag).tasks@, final(dag).tasks@),
        final(dag).wf() == old(dag).wf(),
        final(dag).id == old(dag).id,
        final(dag).name == old(dag).name,
        final(dag).created_at == old(dag).created_at,
        final(dag).execution_levels == old(dag).execution_levels,
        closes_level(
            r@,
            *dag_id,
            level_idx,
            level_tasks@,
            level_time,
            settled_status(old(dag).tasks@),
            elapsed_ms(run_started, now),
            completion_time,
        ),
{
    dag.update_status_at(now);
    let total_ms = elapsed_ms_between(run_started, now);
    level_closing_events(dag_id, level_idx, level_tasks, level_time, dag.status, total_ms, completion_time)
}

/// Closes a level when the run is gone: the events tell that the level is done and that
/// the run has failed, after the time since `run_started`.
pub fn close_level_without_run(
    dag_id: &String,
    level_idx: usize,
    level_tasks: &Vec<String>,
    level_time: i64,
    run_started: Timestamp,
    now: Timestamp,
    completion_time: i64,
) -> (r: Vec<DagEvent>)
    ensures
        closes_level(
            r@,
            *dag_id,
            level_idx,
            level_tasks@,
            level_time,
            DagStatus::Failed,
            elapsed_ms(run_started, now),
            completion_time,
        ),
{
    let total_ms = elapsed_ms_between(run_started, now);
    level_closing_events(dag_id, level_idx, level_tasks, level_time, DagStatus::Failed, total_ms, completion_time)
}

/// Every task that has started did so after all the tasks it waits for had succeeded.
pub open spec fn started_after_dependencies(tasks: Seq<TaskState>) -> bool {
    forall|p: int|
        0 <= p < tasks.len() && (#[trigger] tasks[p]).started_at is Some ==> dependencies_succeeded(
            tasks,
            tasks[p],
        )
}

/// The tasks a level names have not started yet.
pub open spec fn level_not_started(tasks: Seq<TaskState>, level: Seq<String>) -> bool {
    forall|p: int|
        0 <= p < tasks.len() && #[trigger] names_task(tasks, level, p) ==> tasks[p].status is Pending
            && tasks[p].started_at is None
}

/// A run whose tasks are all pending and unstarted is in order, and none of the tasks
/// any level names has started.
pub proof fn lemma_fresh_run_in_order(tasks: Seq<TaskState>, level: Seq<String>)
    requires
        forall|p: int|
            0 <= p < tasks.len() ==> (#[trigger] tasks[p]).status is Pending && tasks[p].started_at is None,
    ensures
        started_after_dependencies(tasks),
        level_not_started(tasks, level),
{
}

proof fn lemma_dependency_kept(old: Seq<TaskState>, new: Seq<TaskState>, level: Seq<String>, level_idx: usize, d: Seq<char>)
    requires
        level_planned(old, new, level, level_idx),
        level_not_started(old, level),
        dependency_succeeded(old, d),
    ensures
        dependency_succeeded(new, d),
{
    let q = choose|q: int| is_first_state_with_id(old, q, d) && old[q].status is Succeeded;
    assert forall|i: int| 0 <= i < old.len() implies (#[trigger] old[i]).definition == new[i].definition by {
        assert(new[i] == new[i]);
    }
    lemma_same_definitions_same_first(old, new);
    if names_task(old, level, q) {
        assert(old[q].status is Pending);
    }
    assert(new[q] == old[q]);
    assert(is_first_state_with_id(new, q, d));
}

/// Planning a level keeps the order of the run: when the tasks the level names have not
/// started yet, every task that has started after planning did so once all the tasks it
/// waits for had succeeded.
pub proof fn lemma_plan_level_keeps_order(
    old: Seq<TaskState>,
    new: Seq<TaskState>,
    level: Seq<String>,
    level_idx: usize,
)
    requires
        started_after_dependencies(old),
        level_not_started(old, level),
        level_planned(old, new, level, level_idx),
    ensures
        started_after_dependencies(new),
{
    assert forall|i: int| 0 <= i < old.len() implies (#[trigger] old[i]).definition == new[i].definition by {
        assert(new[i] == new[i]);
    }
    lemma_same_definitions_same_first(old, new);
    assert forall|p: int|
        0 <= p < new.len() && (#[trigger] new[p]).started_at is Some implies dependencies_succeeded(
            new,
            new[p],
        ) by {
        let ready_p = ready_to_run(old, old[p].definition.id@);
        if names_task(old, level, p) {
            let k = choose|k: int| 0 <= k < level.len() && is_first_state_with_id(old, p, (#[trigger] level[k])@);
            assert(old[p].definition.id@ == level[k]@);
            if !ready_p {
                assert(finished_from(old[p], new[p], TaskStatus::Skipped, None));
                assert(old[p].started_at is None);
            }
            lemma_first_state_unique(old, old[p].definition.id@);
            let q = choose|q: int| is_first_state_with_id(old, q, old[p].definition.id@) && dependencies_succeeded(old, old[q]);
            assert(q == p);
        } else {
            assert(new[p] == old[p]);
        }
        assert(dependencies_succeeded(old, old[p]));
        assert forall|m: int|
            0 <= m < new[p].definition.depends_on@.len() implies dependency_succeeded(
                new,
                (#[trigger] new[p].definition.depends_on@[m])@,
            ) by {
            assert(dependency_succeeded(old, old[p].definition.depends_on@[m]@));
            lemma_dependency_kept(old, new, level, level_idx, old[p].definition.depends_on@[m]@);
        }
    }
}

/// Finishing a running task keeps the order of the run.
pub proof fn lemma_finish_keeps_order(
    old: Seq<TaskState>,
    new: Seq<TaskState>,
    p: int,
    status: TaskStatus,
    output: Option<String>,
)
    requires
        started_after_dependencies(old),
        0 <= p < old.len(),
        old[p].status is Running,
        new.len() == old.len(),
        forall|q: int| 0 <= q < old.len() && q != p ==> #[trigger] new[q] == old[q],
        finished_from(old[p], new[p], status, output),
    ensures
        started_after_dependencies(new),
{
    assert forall|i: int| 0 <= i < old.len() implies (#[trigger] old[i]).definition == new[i].definition by {
        if i != p {
            assert(new[i] == old[i]);
        }
    }
    lemma_same_definitions_same_first(old, new);
    assert forall|u: int|
        0 <= u < new.len() && (#[trigger] new[u]).started_at is Some implies dependencies_succeeded(
            new,
            new[u],
        ) by {
        if u != p {
            assert(new[u] == old[u]);
        }
        assert(old[u].started_at is Some);
        assert(dependencies_succeeded(old, old[u]));
        assert forall|m: int|
            0 <= m < new[u].definition.depends_on@.len() implies dependency_succeeded(
                new,
                (#[trigger] new[u].definition.depends_on@[m])@,
            ) by {
            let d = old[u].definition.depends_on@[m]@;
            assert(dependency_succeeded(old, d));
            let q = choose|q: int| is_first_state_with_id(old, q, d) && old[q].status is Succeeded;
            assert(q != p);
            assert(new[q] == old[q]);
            assert(is_first_state_with_id(new, q, d));
        }
    }
}

/// A task of a level that waits for a task that has not succeeded (or is missing) ends
/// skipped, never started.
pub proof fn lemma_unready_task_skipped(
    old: Seq<TaskState>,
    new: Seq<TaskState>,
    level: Seq<String>,
    level_idx: usize,
    p: int,
    m: int,
)
    requires
        level_planned(old, new, level, level_idx),
        names_task(old, level, p),
        0 <= m < old[p].definition.depends_on@.len(),
        !dependency_succeeded(old, old[p].definition.depends_on@[m]@),
    ensures
        new[p].status is Skipped,
        new[p].started_at == old[p].started_at,
{
    let k = choose|k: int| 0 <= k < level.len() && is_first_state_with_id(old, p, (#[trigger] level[k])@);
    lemma_first_state_unique(old, old[p].definition.id@);
    if ready_to_run(old, old[p].definition.id@) {
        let q = choose|q: int| is_first_state_with_id(old, q, old[p].definition.id@) && dependencies_succeeded(old, old[q]);
        assert(q == p);
    }
    assert(finished_from(old[p], new[p], TaskStatus::Skipped, None));
}

/// `new` is `old` after finishing the running task at `p` with `status` and `output`.
pub open spec fn task_finished(old: Seq<TaskState>, new: Seq<TaskState>, p: int, status: TaskStatus, output: Option<String>) -> bool {
    &&& 0 <= p < old.len()
    &&& old[p].status is Running
    &&& new.len() == old.len()
    &&& forall|q: int| 0 <= q < old.len() && q != p ==> #[trigger] new[q] == old[q]
    &&& finished_from(old[p], new[p], status, output)
}

/// One step of a run, as the step functions change its tasks: opening the run or closing
/// a level leaves them as they are; planning a level whose tasks have not started yet
/// starts or skips them; finishing a running task settles it.
pub open spec fn run_step(old: Seq<TaskState>, new: Seq<TaskState>) -> bool {
    ||| new == old
    ||| exists|level: Seq<String>, level_idx: usize|
        #[trigger] level_planned(old, new, level, level_idx) && level_not_started(old, level)
    ||| exists|p: int, status: TaskStatus, output: Option<String>|
        #[trigger] task_finished(old, new, p, status, output)
}

/// A settled task (succeeded, failed or skipped) keeps its status.
pub open spec fn settled_kept(old: Seq<TaskState>, new: Seq<TaskState>) -> bool {
    forall|p: int|
        0 <= p < old.len() && (#[trigger] old[p]).status.spec_is_terminal() ==> new[p].status
            == old[p].status
}

/// One step keeps the run in order and every settled status as it was.
pub proof fn lemma_step_keeps_order(old: Seq<TaskState>, new: Seq<TaskState>)
    requires
        started_after_dependencies(old),
        run_step(old, new),
    ensures
        started_after_dependencies(new),
        settled_kept(old, new),
        new.len() == old.len(),
{
    if new == old {
    } else if exists|level: Seq<String>, level_idx: usize|
        #[trigger] level_planned(old, new, level, level_idx) && level_not_started(old, level) {
        let (level, level_idx) = choose|level: Seq<String>, level_idx: usize|
            #[trigger] level_planned(old, new, level, level_idx) && level_not_started(old, level);
        lemma_plan_level_keeps_order(old, new, level, level_idx);
        assert forall|p: int|
            0 <= p < old.len() && (#[trigger] old[p]).status.spec_is_terminal() implies new[p].status
                == old[p].status by {
            if names_task(old, level, p) {
                assert(old[p].status is Pending);
            }
        }
    } else {
        let (p, status, output) = choose|p: int, status: TaskStatus, output: Option<String>|
            #[trigger] task_finished(old, new, p, status, output);
        lemma_finish_keeps_order(old, new, p, status, output);
        assert forall|q: int|
            0 <= q < old.len() && (#[trigger] old[q]).status.spec_is_terminal() implies new[q].status
                == old[q].status by {
            if q != p {
                assert(new[q] == old[q]);
            }
        }
    }
}

proof fn lemma_in_order_at(trace: Seq<Seq<TaskState>>, k: int)
    requires
        0 <= k < trace.len(),
        started_after_dependencies(trace[0]),
        forall|i: int| 0 <= i < trace.len() - 1 ==> run_step(#[trigger] trace[i], trace[i + 1]),
    ensures
        started_after_dependencies(trace[k]),
    decreases k,
{
    if k > 0 {
        lemma_in_order_at(trace, k - 1);
        assert(run_step(trace[k - 1], trace[k]));
        lemma_step_keeps_order(trace[k - 1], trace[k]);
    }
}

proof fn lemma_settled_along(trace: Seq<Seq<TaskState>>, i: int, j: int, p: int)
    requires
        0 <= i <= j < trace.len(),
        0 <= p < trace[i].len(),
        trace[i][p].status.spec_is_terminal(),
        forall|k: int| 0 <= k < trace.len() ==> started_after_dependencies(#[trigger] trace[k]),
        forall|k: int| 0 <= k < trace.len() - 1 ==> run_step(#[trigger] trace[k], trace[k + 1]),
    ensures
        trace[j].len() == trace[i].len(),
        trace[j][p].status == trace[i][p].status,
    decreases j - i,
{
    if i < j {
        lemma_settled_along(trace, i, j - 1, p);
        assert(run_step(trace[j - 1], trace[j]));
        assert(started_after_dependencies(trace[j - 1]));
        lemma_step_keeps_order(trace[j - 1], trace[j]);
        assert(trace[j - 1][p].status.spec_is_terminal());
    }
}

/// Over a whole run, from tasks all pending and unstarted, through any steps: every task
/// that has started did so once all the tasks it waits for had succeeded, and a task
/// that has succeeded, failed or been skipped keeps that status to the end.
pub proof fn lemma_run_stays_in_order(trace: Seq<Seq<TaskState>>)
    requires
        trace.len() > 0,
        forall|p: int|
            0 <= p < trace[0].len() ==> (#[trigger] trace[0][p]).status is Pending && trace[0][p].started_at
                is None,
        forall|i: int| 0 <= i < trace.len() - 1 ==> run_step(#[trigger] trace[i], trace[i + 1]),
    ensures
        forall|k: int| 0 <= k < trace.len() ==> started_after_dependencies(#[trigger] trace[k]),
        forall|i: int, j: int, p: int|
            0 <= i <= j < trace.len() && 0 <= p < trace[i].len() && (#[trigger] trace[i][p]).status.spec_is_terminal()
                ==> #[trigger] trace[j][p].status == trace[i][p].status,
{
    lemma_fresh_run_in_order(trace[0], Seq::empty());
    assert forall|k: int| 0 <= k < trace.len() implies started_after_dependencies(#[trigger] trace[k]) by {
        lemma_in_order_at(trace, k);
    }
    assert forall|i: int, j: int, p: int|
        0 <= i <= j < trace.len() && 0 <= p < trace[i].len() && (#[trigger] trace[i][p]).status.spec_is_terminal()
            implies #[trigger] trace[j][p].status == trace[i][p].status by {
        lemma_settled_along(trace, i, j, p);
    }
}

} // verus!
