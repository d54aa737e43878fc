use crate::errors::AppError;
use crate::models::dag::{
    find_state_index, lemma_distinct_state_ids, fresh_task_state, is_first_state_with_id, is_last_definition_with_id, state_ids,
    Dag, DagStatus, SubmitDagRequest, SubmitDagResponse, TaskDefinition, TaskState,
};
use crate::services::clock::{now, Timestamp};
use crate::services::ids::{is_hyphenated_uuid, new_dag_id};
use crate::services::scheduler::{
    dep_ids, graph_fits, has_duplicate_id, has_missing_dependency, is_first_duplicate,
    is_first_missing_dependency, is_plan_for, lemma_plan_places_each_task_once, level_views,
    tasks_acyclic, ExecutionPlan, SchedulerError,
};
use crate::text::{clone_string_lists, string_views};
use vstd::prelude::*;
use vstd::string::*;

verus! {

/// The text of the scheduling error that a non-empty set of tasks leads to, or `None`
/// when the tasks make a plan: the first repeated id, else the first unknown
/// dependency, else a cycle.
pub open spec fn plan_error_text(tasks: Seq<TaskDefinition>) -> Option<Seq<char>> {
    if tasks.len() == 0 {
        Some("DAG has no tasks"@)
    } else if has_duplicate_id(tasks) {
        let j = choose|j: int| is_first_duplicate(tasks, j);
        Some("Duplicate task ID: "@ + tasks[j].id@)
    } else if has_missing_dependency(tasks) {
        let (i, m) = choose|i: int, m: int| is_first_missing_dependency(tasks, i, m);
        Some("Task '"@ + tasks[i].id@ + "' depends on unknown task '"@ + dep_ids(tasks[i])[m] + "'"@)
    } else if !tasks_acyclic(tasks) {
        Some("Cycle detected in DAG"@)
    } else {
        None
    }
}

proof fn lemma_first_duplicate_unique(tasks: Seq<TaskDefinition>, a: int, b: int)
    requires
        is_first_duplicate(tasks, a),
        is_first_duplicate(tasks, b),
    ensures
        a == b,
{
}

proof fn lemma_first_missing_unique(tasks: Seq<TaskDefinition>, i1: int, m1: int, i2: int, m2: int)
    requires
        is_first_missing_dependency(tasks, i1, m1),
        is_first_missing_dependency(tasks, i2, m2),
    ensures
        i1 == i2 && m1 == m2,
{
}

/// Level `l` is the last level that lists `x`.
pub open spec fn is_last_level_holding(levels: Seq<Seq<Seq<char>>>, l: int, x: Seq<char>) -> bool {
    &&& 0 <= l < levels.len()
    &&& levels[l].contains(x)
    &&& forall|l2: int| l < l2 < levels.len() ==> !(#[trigger] levels[l2]).contains(x)
}

/// The level a task with id `x` gets from `levels`: the last level that lists it, or
/// `current` when none does.
pub open spec fn assigned_level(levels: Seq<Seq<Seq<char>>>, x: Seq<char>, current: Option<usize>) -> Option<
    usize,
> {
    if exists|l: int| is_last_level_holding(levels, l, x) {
        Some((choose|l: int| is_last_level_holding(levels, l, x)) as usize)
    } else {
        current
    }
}

proof fn lemma_last_level_unique(levels: Seq<Seq<Seq<char>>>, x: Seq<char>, a: int, b: int)
    requires
        is_last_level_holding(levels, a, x),
        is_last_level_holding(levels, b, x),
    ensures
        a == b,
{
    if a < b {
        assert(!levels[b].contains(x));
    } else if b < a {
        assert(!levels[a].contains(x));
    }
}

/// The level of task `p` once the levels are recorded: for the first task with its id,
/// the level assigned from `levels`; for any other, its level as it was.
pub open spec fn level_after_assignment(
    tasks: Seq<TaskState>,
    levels: Seq<Seq<Seq<char>>>,
    p: int,
) -> Option<usize> {
    if is_first_state_with_id(tasks, p, tasks[p].definition.id@) {
        assigned_level(levels, tasks[p].definition.id@, tasks[p].level)
    } else {
        tasks[p].level
    }
}

/// A task state with its level replaced.
pub open spec fn with_level(t: TaskState, level: Option<usize>) -> TaskState {
    TaskState { level, ..t }
}

/// The index of the last level that lists `id`, if any.
fn last_level_holding(levels: &Vec<Vec<String>>, id: &String) -> (r: Option<usize>)
    ensures
        match r {
            Some(l) => is_last_level_holding(level_views(levels@), l as int, id@),
            None => forall|l: int|
                0 <= l < levels@.len() ==> !(#[trigger] level_views(levels@)[l]).contains(id@),
        },
{
    let ghost lv = level_views(levels@);
    let n = levels.len();
    let mut found: Option<usize> = None;
    for l in 0..n
        invariant
            n == levels@.len(),
            lv == level_views(levels@),
            match found {
                Some(f) => f < l && lv[f as int].contains(id@) && forall|l2: int|
                    f < l2 < l ==> !(#[trigger] lv[l2]).contains(id@),
                None => forall|l2: int| 0 <= l2 < l ==> !(#[trigger] lv[l2]).contains(id@),
            },
    {
        let level = &levels[l];
        let m = level.len();
        let mut holds = false;
        for k in 0..m
            invariant
                m == level@.len(),
                *level == levels@[l as int],
                lv == level_views(levels@),
                holds == exists|j: int| 0 <= j < k && (#[trigger] level@[j])@ == id@,
        {
            if level[k] == *id {
                holds = true;
            }
        }
        proof {
            assert(lv[l as int] == string_views(level@));
            if holds {
                let j = choose|j: int| 0 <= j < m && (#[trigger] level@[j])@ == id@;
                assert(lv[l as int][j] == id@);
            } else if lv[l as int].contains(id@) {
                let j = choose|j: int| 0 <= j < lv[l as int].len() && lv[l as int][j] == id@;
                assert(level@[j]@ == id@);
            }
        }
        if holds {
            found = Some(l);
        }
    }
    found
}

/// Records in each task the index of the last level that lists its id; only the first
/// task with a given id is updated, and a task that no level lists keeps its level.
fn assign_task_levels(dag: &mut Dag, levels: &Vec<Vec<String>>)
    ensures
        final(dag).tasks@.len() == old(dag).tasks@.len(),
        forall|p: int|
            0 <= p < old(dag).tasks@.len() ==> #[trigger] final(dag).tasks@[p] == with_level(
                old(dag).tasks@[p],
                level_after_assignment(old(dag).tasks@, level_views(levels@), p),
            ),
        final(dag).id == old(dag).id,
        final(dag).name == old(dag).name,
        final(dag).status == old(dag).status,
        final(dag).created_at == old(dag).created_at,
        final(dag).finished_at == old(dag).finished_at,
        final(dag).execution_levels == old(dag).execution_levels,
{
    let ghost ts = dag.tasks@;
    let ghost lv = level_views(levels@);
    let n = dag.tasks.len();
    for p in 0..n
        invariant
            n == ts.len(),
            lv == level_views(levels@),
            dag.tasks@.len() == n,
            forall|q: int| #![trigger dag.tasks@[q]] 0 <= q < n ==> dag.tasks@[q].definition == ts[q].definition,
            forall|q: int|
                #![trigger dag.tasks@[q]]
                0 <= q < p ==> dag.tasks@[q] == with_level(ts[q], level_after_assignment(ts, lv, q)),
            forall|q: int| #![trigger dag.tasks@[q]] p <= q < n ==> dag.tasks@[q] == ts[q],
            dag.id == old(dag).id,
            dag.name == old(dag).name,
            dag.status == old(dag).status,
            dag.created_at == old(dag).created_at,
            dag.finished_at == old(dag).finished_at,
            dag.execution_levels == old(dag).execution_levels,
    {
        let id = dag.tasks[p].definition.id.clone();
        let first = match find_state_index(&dag.tasks, id.as_str()) {
            Some(q) => q == p,
            None => false,
        };
        proof {
            assert(dag.tasks@[p as int] == ts[p as int]);
            assert(state_ids(dag.tasks@) =~= state_ids(ts)) by {
                assert forall|q: int| 0 <= q < n implies state_ids(dag.tasks@)[q] == state_ids(ts)[q] by {
                    assert(dag.tasks@[q].definition == ts[q].definition);
                }
            }
            assert(first == is_first_state_with_id(ts, p as int, ts[p as int].definition.id@)) by {
                assert forall|q: int| is_first_state_with_id(dag.tasks@, q, id@) <==> is_first_state_with_id(ts, q, id@) by {
                    if 0 <= q < n {
                        assert(dag.tasks@[q].definition == ts[q].definition);
                    }
                    assert forall|q2: int| 0 <= q2 < q && q2 < n implies dag.tasks@[q2].definition.id@ == ts[q2].definition.id@ by {
                        assert(dag.tasks@[q2].definition == ts[q2].definition);
                    }
                }
                if !first && is_first_state_with_id(ts, p as int, id@) {
                    assert(state_ids(ts)[p as int] == id@);
                }
            }
        }
        if first {
            let found = last_level_holding(levels, &id);
            match found {
                Some(l) => {
                    let t = &mut dag.tasks[p];
                    t.level = Some(l);
                    proof {
                        lemma_last_level_unique(lv, id@, l as int, choose|l2: int| is_last_level_holding(lv, l2, id@));
                    }
                },
                None => {
                    proof {
                        if exists|l: int| is_last_level_holding(lv, l, id@) {
                            let l = choose|l: int| is_last_level_holding(lv, l, id@);
                            assert(!lv[l].contains(id@));
                        }
                    }
                },
            }
        }
    }
}

/// The states of a submitted run: one per id of `defs`, each made from the last
/// definition with that id and given the level that `levels` assigns to its id.
pub open spec fn submitted_states(
    defs: Seq<TaskDefinition>,
    levels: Seq<Seq<Seq<char>>>,
    states: Seq<TaskState>,
) -> bool {
    &&& state_ids(states).no_duplicates()
    &&& forall|x: Seq<char>|
        #[trigger] state_ids(states).contains(x) <==> exists|j: int|
            0 <= j < defs.len() && #[trigger] defs[j].id@ == x
    &&& forall|p: int|
        0 <= p < states.len() ==> exists|j: int|
            is_last_definition_with_id(defs, j, (#[trigger] states[p]).definition.id@) && states[p]
                == with_level(
                fresh_task_state(defs[j]),
                assigned_level(levels, states[p].definition.id@, None),
            )
}

/// The run and plan that an accepted submission leads to.
pub open spec fn is_prepared_submission(
    request: SubmitDagRequest,
    dag_id: String,
    now: Timestamp,
    dag: Dag,
    plan: ExecutionPlan,
) -> bool {
    &&& is_plan_for(request.tasks@, plan.levels@)
    &&& dag.id == dag_id
    &&& dag.name == request.name
    &&& dag.status == DagStatus::Pending
    &&& dag.created_at == now
    &&& dag.finished_at is None
    &&& level_views(dag.execution_levels@) == level_views(plan.levels@)
    &&& submitted_states(request.tasks@, level_views(plan.levels@), dag.tasks@)
    &&& dag.wf()
}

/// Checks a submission and, when it is sound, makes its run, with id `dag_id` and
/// created at `now`, and its plan.
pub fn prepare_submission_with(dag_id: String, now: Timestamp, request: SubmitDagRequest) -> (r: Result<
    (Dag, ExecutionPlan),
    AppError,
>)
    requires
        !has_duplicate_id(request.tasks@) && !has_missing_dependency(request.tasks@) ==> graph_fits(
            request.tasks@,
        ),
    ensures
        request.tasks@.len() == 0 ==> (r matches Err(AppError::ValidationError(msg)) && msg@
            == "DAG must contain atleast one task"@),
        request.tasks@.len() > 0 && plan_error_text(request.tasks@) is Some ==> (r matches Err(
            AppError::SchedulerError(msg),
        ) && msg@ == plan_error_text(request.tasks@)->0),
        request.tasks@.len() > 0 && plan_error_text(request.tasks@) is None ==> (r matches Ok(
            (dag, plan),
        ) && is_prepared_submission(request, dag_id, now, dag, plan)),
{
    let ghost req = request;
    if request.tasks.len() == 0 {
        return Err(AppError::ValidationError(String::from_str("DAG must contain atleast one task")));
    }
    let plan = match ExecutionPlan::build(request.tasks.as_slice()) {
        Ok(plan) => plan,
        Err(e) => {
            proof {
                let ts = req.tasks@;
                if e is DuplicateTaskId {
                    let id = e->DuplicateTaskId_0;
                    let j = choose|j: int| is_first_duplicate(ts, j) && ts[j].id@ == id@;
                    lemma_first_duplicate_unique(ts, j, choose|j2: int| is_first_duplicate(ts, j2));
                }
                if e is MissingDependency {
                    let task_id = e->MissingDependency_0;
                    let dep = e->MissingDependency_1;
                    let (i, m) = choose|i: int, m: int|
                        is_first_missing_dependency(ts, i, m) && ts[i].id@ == task_id@
                            && dep_ids(ts[i])[m] == dep@;
                    let (i2, m2) = choose|i2: int, m2: int| is_first_missing_dependency(ts, i2, m2);
                    lemma_first_missing_unique(ts, i, m, i2, m2);
                }
            }
            return Err(AppError::from_scheduler_error(&e));
        },
    };
    let SubmitDagRequest { name, tasks } = request;
    let mut dag = Dag::new_at(dag_id, name, tasks, now);
    dag.execution_levels = clone_string_lists(&plan.levels);
    let ghost states = dag.tasks@;
    assign_task_levels(&mut dag, &plan.levels);
    proof {
        let defs = req.tasks@;
        let lv = level_views(plan.levels@);
        assert(level_views(dag.execution_levels@) =~= lv);
        assert(state_ids(dag.tasks@) =~= state_ids(states)) by {
            assert forall|q: int| 0 <= q < states.len() implies state_ids(dag.tasks@)[q] == state_ids(states)[q] by {
                assert(dag.tasks@[q] == with_level(states[q], level_after_assignment(states, lv, q)));
            }
        }
        assert forall|p: int|
            0 <= p < dag.tasks@.len() implies exists|j: int|
                is_last_definition_with_id(defs, j, (#[trigger] dag.tasks@[p]).definition.id@) && dag.tasks@[p]
                    == with_level(
                    fresh_task_state(defs[j]),
                    assigned_level(lv, dag.tasks@[p].definition.id@, None),
                ) by {
            let j = choose|j: int|
                is_last_definition_with_id(defs, j, (#[trigger] states[p]).definition.id@)
                    && states[p] == fresh_task_state(defs[j]);
            assert(dag.tasks@[p] == with_level(states[p], level_after_assignment(states, lv, p)));
            assert(is_first_state_with_id(states, p, states[p].definition.id@)) by {
                assert forall|q: int| 0 <= q < p implies states[q].definition.id@ != states[p].definition.id@ by {
                    assert(state_ids(states)[q] == states[q].definition.id@);
                    assert(state_ids(states)[p] == states[p].definition.id@);
                }
            }
            assert(with_level(fresh_task_state(defs[j]), assigned_level(lv, dag.tasks@[p].definition.id@, None))
                =~= dag.tasks@[p]);
        }
    }
    proof {
        lemma_distinct_state_ids(dag.tasks@);
    }
    Ok((dag, plan))
}

/// Checks a submission and, when it is sound, makes its run, under a fresh random id
/// and created at the current time, and its plan.
pub fn prepare_submission(request: SubmitDagRequest) -> (r: Result<(Dag, ExecutionPlan), AppError>)
    requires
        !has_duplicate_id(request.tasks@) && !has_missing_dependency(request.tasks@) ==> graph_fits(
            request.tasks@,
        ),
    ensures
        request.tasks@.len() == 0 ==> (r matches Err(AppError::ValidationError(msg)) && msg@
            == "DAG must contain atleast one task"@),
        request.tasks@.len() > 0 && plan_error_text(request.tasks@) is Some ==> (r matches Err(
            AppError::SchedulerError(msg),
        ) && msg@ == plan_error_text(request.tasks@)->0),
        request.tasks@.len() > 0 && plan_error_text(request.tasks@) is None ==> (r matches Ok(
            (dag, plan),
        ) && is_prepared_submission(request, dag.id, dag.created_at, dag, plan)
            && is_hyphenated_uuid(dag.id@) && dag.created_at.nanos < 1_000_000_000),
{
    let dag_id = new_dag_id();
    let now = now();
    prepare_submission_with(dag_id, now, request)
}

/// The answer to an accepted submission of `dag`.
pub fn submission_response(dag: &Dag) -> (r: SubmitDagResponse)
    ensures
        r.dag_id@ == dag.id@,
        r.status == DagStatus::Pending,
        r.task_count == dag.tasks@.len(),
        level_views(r.execution_levels@) == level_views(dag.execution_levels@),
        r.message@ == "DAG submitted and execution started"@,
{
    let levels = clone_string_lists(&dag.execution_levels);
    proof {
        assert(level_views(levels@) =~= level_views(dag.execution_levels@));
    }
    SubmitDagResponse {
        dag_id: dag.id.clone(),
        status: DagStatus::Pending,
        task_count: dag.tasks.len(),
        execution_levels: levels,
        message: String::from_str("DAG submitted and execution started"),
    }
}

/// In an accepted submission every task records a level, and that level of the plan
/// lists the task's id and no other level does.
pub proof fn lemma_submitted_tasks_have_levels(
    request: SubmitDagRequest,
    dag_id: String,
    now: Timestamp,
    dag: Dag,
    plan: ExecutionPlan,
    p: int,
)
    requires
        !has_duplicate_id(request.tasks@),
        is_prepared_submission(request, dag_id, now, dag, plan),
        0 <= p < dag.tasks@.len(),
    ensures
        dag.tasks@[p].level is Some,
        level_views(plan.levels@)[dag.tasks@[p].level->0 as int].contains(dag.tasks@[p].definition.id@),
        forall|l: int|
            0 <= l < plan.levels@.len() && level_views(plan.levels@)[l].contains(
                dag.tasks@[p].definition.id@,
            ) ==> l == dag.tasks@[p].level->0,
{
    let defs = request.tasks@;
    let lv = level_views(plan.levels@);
    let x = dag.tasks@[p].definition.id@;
    let j = choose|j: int|
        is_last_definition_with_id(defs, j, (#[trigger] dag.tasks@[p]).definition.id@)
            && dag.tasks@[p] == with_level(fresh_task_state(defs[j]), assigned_level(lv, x, None));
    lemma_plan_places_each_task_once(defs, plan.levels@, j);
    let l = choose|l: int| 0 <= l < plan.levels@.len() && #[trigger] lv[l].contains(defs[j].id@);
    assert(is_last_level_holding(lv, l, x));
    let chosen = choose|l2: int| is_last_level_holding(lv, l2, x);
    lemma_last_level_unique(lv, x, l, chosen);
}

} // verus!
