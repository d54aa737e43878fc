use crate::models::dag::TaskDefinition;
use crate::services::graph::{
    add_dependency_edge, add_task_node, graph_edges, graph_nodes, is_acyclic,
    is_topological_order, new_task_graph, node_weight, topological_order, TaskGraph,
};
use crate::text::{
    lemma_lex_lt_irreflexive, lemma_lex_lt_transitive, lex_lt, sort_distinct, string_views,
    strictly_sorted,
};
use vstd::prelude::*;
use vstd::string::*;

verus! {

/// Why a set of tasks cannot be scheduled.
#[derive(Debug)]
pub enum SchedulerError {
    DuplicateTaskId(String),
    MissingDependency(String, String),
    CycleDetected,
    EmptyDag,
}

/// The text that describes a scheduling error.
pub open spec fn scheduler_error_text(e: SchedulerError) -> Seq<char> {
    match e {
        SchedulerError::DuplicateTaskId(id) => "Duplicate task ID: "@ + id@,
        SchedulerError::MissingDependency(task, dep) => "Task '"@ + task@
            + "' depends on unknown task '"@ + dep@ + "'"@,
        SchedulerError::CycleDetected => "Cycle detected in DAG"@,
        SchedulerError::EmptyDag => "DAG has no tasks"@,
    }
}

impl SchedulerError {
    /// The text that describes the error.
    pub fn message(&self) -> (r: String)
        ensures
            r@ == scheduler_error_text(*self),
    {
        match self {
            SchedulerError::DuplicateTaskId(id) => {
                let mut r = String::from_str("Duplicate task ID: ");
                r.append(id.as_str());
                r
            },
            SchedulerError::MissingDependency(task, dep) => {
                let mut r = String::from_str("Task '");
                r.append(task.as_str());
                r.append("' depends on unknown task '");
                r.append(dep.as_str());
                r.append("'");
                r
            },
            SchedulerError::CycleDetected => String::from_str("Cycle detected in DAG"),
            SchedulerError::EmptyDag => String::from_str("DAG has no tasks"),
        }
    }
}

/// The tasks of a run grouped into levels: every task of a level can start once all
/// earlier levels are done.
#[derive(Debug, Clone)]
pub struct ExecutionPlan {
    pub levels: Vec<Vec<String>>,
}

/// The ids that a task waits for.
pub open spec fn dep_ids(t: TaskDefinition) -> Seq<Seq<char>> {
    string_views(t.depends_on@)
}

/// Task `j` repeats the id of an earlier task.
pub open spec fn repeats_earlier_id(tasks: Seq<TaskDefinition>, j: int) -> bool {
    &&& 0 <= j < tasks.len()
    &&& exists|k: int| 0 <= k < j && #[trigger] tasks[k].id@ == tasks[j].id@
}

pub open spec fn has_duplicate_id(tasks: Seq<TaskDefinition>) -> bool {
    exists|j: int| repeats_earlier_id(tasks, j)
}

/// Task `j` is the first task that repeats an earlier id.
pub open spec fn is_first_duplicate(tasks: Seq<TaskDefinition>, j: int) -> bool {
    &&& repeats_earlier_id(tasks, j)
    &&& forall|j2: int| 0 <= j2 < j ==> !repeats_earlier_id(tasks, j2)
}

/// Some task has the id `d`.
pub open spec fn is_known_id(tasks: Seq<TaskDefinition>, d: Seq<char>) -> bool {
    exists|k: int| 0 <= k < tasks.len() && #[trigger] tasks[k].id@ == d
}

/// Dependency `m` of task `i` names no task.
pub open spec fn is_missing_dependency(tasks: Seq<TaskDefinition>, i: int, m: int) -> bool {
    &&& 0 <= i < tasks.len()
    &&& 0 <= m < dep_ids(tasks[i]).len()
    &&& !is_known_id(tasks, dep_ids(tasks[i])[m])
}

pub open spec fn has_missing_dependency(tasks: Seq<TaskDefinition>) -> bool {
    exists|i: int, m: int| is_missing_dependency(tasks, i, m)
}

/// Dependency `m` of task `i` is the first unknown dependency, tasks taken in order and
/// each task's dependencies in order.
pub open spec fn is_first_missing_dependency(tasks: Seq<TaskDefinition>, i: int, m: int) -> bool {
    &&& is_missing_dependency(tasks, i, m)
    &&& forall|i2: int, m2: int| 0 <= i2 < i ==> !is_missing_dependency(tasks, i2, m2)
    &&& forall|m2: int| 0 <= m2 < m ==> !is_missing_dependency(tasks, i, m2)
}

/// Task `i` waits for task `k`.
pub open spec fn depends_on(tasks: Seq<TaskDefinition>, i: int, k: int) -> bool {
    &&& 0 <= i < tasks.len()
    &&& 0 <= k < tasks.len()
    &&& dep_ids(tasks[i]).contains(tasks[k].id@)
}

/// `order` lists every task index once, each task after all the tasks it waits for.
pub open spec fn is_task_order(tasks: Seq<TaskDefinition>, order: Seq<usize>) -> bool {
    &&& order.len() == tasks.len()
    &&& forall|p: int| 0 <= p < tasks.len() ==> #[trigger] order[p] < tasks.len()
    &&& forall|p: int, q: int| 0 <= p < q < tasks.len() ==> order[p] != order[q]
    &&& forall|v: usize| v < tasks.len() ==> #[trigger] order.contains(v)
    &&& forall|p: int, q: int|
        #![trigger order[p], order[q]]
        0 <= p < tasks.len() && 0 <= q < tasks.len() && depends_on(
            tasks,
            order[q] as int,
            order[p] as int,
        ) ==> p < q
}

/// The dependencies of the tasks form no cycle.
pub open spec fn tasks_acyclic(tasks: Seq<TaskDefinition>) -> bool {
    exists|order: Seq<usize>| is_task_order(tasks, order)
}

/// `d[i]` is 0 for a task without dependencies and one more than the greatest `d` of the
/// tasks it waits for otherwise: the length of its longest chain of dependencies.
pub open spec fn depth_rule_holds(tasks: Seq<TaskDefinition>, d: Seq<usize>, i: int) -> bool {
    &&& forall|k: int| #[trigger] depends_on(tasks, i, k) ==> d[k] < d[i]
    &&& dep_ids(tasks[i]).len() == 0 ==> d[i] == 0
    &&& dep_ids(tasks[i]).len() > 0 ==> exists|k: int|
        #[trigger] depends_on(tasks, i, k) && d[k] + 1 == d[i]
}

pub open spec fn are_task_depths(tasks: Seq<TaskDefinition>, d: Seq<usize>) -> bool {
    &&& d.len() == tasks.len()
    &&& forall|i: int| 0 <= i < tasks.len() ==> #[trigger] depth_rule_holds(tasks, d, i)
}

/// The character sequences of a plan's levels.
pub open spec fn level_views(levels: Seq<Vec<String>>) -> Seq<Seq<Seq<char>>> {
    levels.map_values(|l: Vec<String>| string_views(l@))
}

/// There is one level per depth from 0 to the greatest depth, and level `l` holds the
/// ids of the tasks of depth `l` in strictly increasing order.
pub open spec fn levels_group_by_depth(
    tasks: Seq<TaskDefinition>,
    d: Seq<usize>,
    levels: Seq<Seq<Seq<char>>>,
) -> bool {
    &&& forall|i: int| 0 <= i < tasks.len() ==> #[trigger] d[i] < levels.len()
    &&& exists|i: int| 0 <= i < tasks.len() && #[trigger] d[i] + 1 == levels.len()
    &&& forall|l: int| 0 <= l < levels.len() ==> strictly_sorted(#[trigger] levels[l])
    &&& forall|l: int, x: Seq<char>|
        0 <= l < levels.len() ==> (#[trigger] levels[l].contains(x) <==> exists|i: int|
            0 <= i < tasks.len() && #[trigger] tasks[i].id@ == x && d[i] == l)
}

/// The levels are those of the tasks' dependency depths.
pub open spec fn is_plan_for(tasks: Seq<TaskDefinition>, levels: Seq<Vec<String>>) -> bool {
    exists|d: Seq<usize>|
        are_task_depths(tasks, d) && levels_group_by_depth(tasks, d, level_views(levels))
}

/// The number of dependency entries over all tasks.
pub open spec fn dependency_count(tasks: Seq<TaskDefinition>) -> nat
    decreases tasks.len(),
{
    if tasks.len() == 0 {
        0
    } else {
        dependency_count(tasks.drop_last()) + tasks.last().depends_on@.len()
    }
}

/// The graph of the tasks fits the index type of the graph library: at most
/// `u32::MAX` nodes and `u32::MAX` edges.
pub open spec fn graph_fits(tasks: Seq<TaskDefinition>) -> bool {
    tasks.len() <= u32::MAX && dependency_count(tasks) <= u32::MAX
}

proof fn lemma_dependency_count_step(tasks: Seq<TaskDefinition>, i: int)
    requires
        0 <= i < tasks.len(),
    ensures
        dependency_count(tasks.take(i + 1)) == dependency_count(tasks.take(i))
            + tasks[i].depends_on@.len(),
{
    assert(tasks.take(i + 1).drop_last() =~= tasks.take(i));
}

proof fn lemma_dependency_count_prefix(tasks: Seq<TaskDefinition>, i: int)
    requires
        0 <= i <= tasks.len(),
    ensures
        dependency_count(tasks.take(i)) <= dependency_count(tasks),
    decreases tasks.len() - i,
{
    if i < tasks.len() {
        lemma_dependency_count_step(tasks, i);
        lemma_dependency_count_prefix(tasks, i + 1);
    } else {
        assert(tasks.take(i) =~= tasks);
    }
}

/// Without duplicate ids an id names at most one task.
proof fn lemma_unique_id(tasks: Seq<TaskDefinition>, a: int, b: int)
    requires
        !has_duplicate_id(tasks),
        0 <= a < tasks.len(),
        0 <= b < tasks.len(),
        tasks[a].id@ == tasks[b].id@,
    ensures
        a == b,
{
    if a < b {
        assert(repeats_earlier_id(tasks, b));
    } else if b < a {
        assert(repeats_earlier_id(tasks, a));
    }
}

/// Every edge joins a task to one it waits for.
pub open spec fn edges_sound(tasks: Seq<TaskDefinition>, edges: Seq<(usize, usize)>) -> bool {
    forall|e: int|
        0 <= e < edges.len() ==> depends_on(
            tasks,
            (#[trigger] edges[e]).1 as int,
            edges[e].0 as int,
        )
}

/// Every dependency of the tasks before `upto` is an edge.
pub open spec fn edges_complete(
    tasks: Seq<TaskDefinition>,
    edges: Seq<(usize, usize)>,
    upto: int,
) -> bool {
    forall|i: int, k: int|
        0 <= i < upto && #[trigger] depends_on(tasks, i, k) ==> exists|e: int|
            0 <= e < edges.len() && #[trigger] edges[e] == (k as usize, i as usize)
}

proof fn lemma_task_order_is_graph_order(
    tasks: Seq<TaskDefinition>,
    edges: Seq<(usize, usize)>,
    order: Seq<usize>,
)
    requires
        edges_sound(tasks, edges),
        is_task_order(tasks, order),
    ensures
        is_topological_order(tasks.len(), edges, order),
{
    assert forall|e: int, i: int, j: int|
        #![trigger edges[e], order[i], order[j]]
        0 <= e < edges.len() && 0 <= i < tasks.len() && 0 <= j < tasks.len() && order[i]
            == edges[e].0 && order[j] == edges[e].1 implies i < j by {
        assert(depends_on(tasks, edges[e].1 as int, edges[e].0 as int));
    }
}

proof fn lemma_graph_order_is_task_order(
    tasks: Seq<TaskDefinition>,
    edges: Seq<(usize, usize)>,
    order: Seq<usize>,
)
    requires
        edges_complete(tasks, edges, tasks.len() as int),
        is_topological_order(tasks.len(), edges, order),
    ensures
        is_task_order(tasks, order),
{
    assert forall|p: int, q: int|
        #![trigger order[p], order[q]]
        0 <= p < tasks.len() && 0 <= q < tasks.len() && depends_on(
            tasks,
            order[q] as int,
            order[p] as int,
        ) implies p < q by {
        let e = choose|e: int|
            0 <= e < edges.len() && #[trigger] edges[e] == (order[p], order[q]);
        assert(edges[e].0 == order[p] && edges[e].1 == order[q]);
    }
}

/// A task that waits for another comes after it in a topological order of a graph that
/// holds all dependencies as edges.
proof fn lemma_dependency_precedes(
    tasks: Seq<TaskDefinition>,
    edges: Seq<(usize, usize)>,
    order: Seq<usize>,
    p: int,
    q: int,
)
    requires
        edges_complete(tasks, edges, tasks.len() as int),
        is_topological_order(tasks.len(), edges, order),
        0 <= p < tasks.len(),
        0 <= q < tasks.len(),
        depends_on(tasks, order[q] as int, order[p] as int),
    ensures
        p < q,
{
    lemma_graph_order_is_task_order(tasks, edges, order);
}

/// The position of the first task with the given id, if there is one.
fn find_task_index(tasks: &[TaskDefinition], id: &String) -> (r: Option<usize>)
    ensures
        match r {
            Some(k) => k < tasks@.len() && tasks@[k as int].id@ == id@ && forall|j: int|
                0 <= j < k ==> tasks@[j].id@ != id@,
            None => !is_known_id(tasks@, id@),
        },
{
    let n = tasks.len();
    for k in 0..n
        invariant
            n == tasks@.len(),
            forall|j: int| 0 <= j < k ==> tasks@[j].id@ != id@,
    {
        if tasks[k].id == *id {
            return Some(k);
        }
    }
    None
}

/// The dependency depth of every task, by task position: the tasks are visited in a
/// topological order of the graph and each one gets one more than the deepest task it
/// waits for, or 0.
fn compute_node_depths(graph: &TaskGraph, node_indices: &Vec<usize>, tasks: &[TaskDefinition]) -> (r:
    Vec<usize>)
    requires
        graph_nodes(*graph) == tasks@.map_values(|t: TaskDefinition| t.id@),
        node_indices@.len() == tasks@.len(),
        !has_duplicate_id(tasks@),
        !has_missing_dependency(tasks@),
        edges_complete(tasks@, graph_edges(*graph), tasks@.len() as int),
        is_acyclic(graph_nodes(*graph).len(), graph_edges(*graph)),
    ensures
        are_task_depths(tasks@, r@),
        forall|i: int| 0 <= i < tasks@.len() ==> #[trigger] r@[i] < tasks@.len(),
{
    let ghost ts = tasks@;
    let ghost edges = graph_edges(*graph);
    let n = tasks.len();
    let topo = topological_order(graph).unwrap();
    let mut processing_order: Vec<String> = Vec::new();
    for p in 0..n
        invariant
            n == ts.len(),
            graph_nodes(*graph) == ts.map_values(|t: TaskDefinition| t.id@),
            is_topological_order(n as nat, edges, topo@),
            processing_order@.len() == p,
            forall|q: int| 0 <= q < p ==> #[trigger] processing_order@[q]@ == ts[topo@[q] as int].id@,
    {
        let node_idx = topo[p];
        processing_order.push(node_weight(graph, node_idx));
    }
    let mut depths: Vec<Option<usize>> = Vec::new();
    for i in 0..n
        invariant
            depths@.len() == i,
            forall|j: int| 0 <= j < i ==> depths@[j] is None,
    {
        depths.push(None);
    }
    for p in 0..n
        invariant
            n == ts.len(),
            tasks@ == ts,
            !has_duplicate_id(ts),
            !has_missing_dependency(ts),
            edges_complete(ts, edges, n as int),
            is_topological_order(n as nat, edges, topo@),
            processing_order@.len() == n,
            forall|q: int| 0 <= q < n ==> #[trigger] processing_order@[q]@ == ts[topo@[q] as int].id@,
            depths@.len() == n,
            forall|q: int|
                #![trigger topo@[q]]
                0 <= q < p ==> depths@[topo@[q] as int] is Some && depths@[topo@[q] as int]->0
                    <= q && depth_rule_holds(ts, depth_values(depths@), topo@[q] as int),
            forall|q: int| #![trigger topo@[q]] p <= q < n ==> depths@[topo@[q] as int] is None,
    {
        let v_idx = find_task_index(tasks, &processing_order[p]).unwrap();
        proof {
            lemma_unique_id(ts, v_idx as int, topo@[p as int] as int);
        }
        let task = &tasks[v_idx];
        let ghost v = v_idx as int;
        let ghost before = depth_values(depths@);
        if task.depends_on.len() == 0 {
            depths.set(v_idx, Some(0));
        } else {
            let mut max_dep: usize = 0;
            let deps_len = task.depends_on.len();
            for m in 0..deps_len
                invariant
                    deps_len == dep_ids(ts[v]).len(),
                    v == topo@[p as int],
                    0 <= v < n,
                    n == ts.len(),
                    tasks@ == ts,
                    *task == ts[v],
                    !has_duplicate_id(ts),
                    !has_missing_dependency(ts),
                    edges_complete(ts, edges, n as int),
                    is_topological_order(n as nat, edges, topo@),
                    depths@.len() == n,
                    before == depth_values(depths@),
                    forall|q: int|
                        #![trigger topo@[q]]
                        0 <= q < p ==> depths@[topo@[q] as int] is Some && depths@[topo@[q] as int]->0
                            <= q,
                    p < n,
                    m == 0 ==> max_dep == 0,
                    m > 0 ==> max_dep < p,
                    forall|m2: int, k: int|
                        #![trigger ts[k].id@, dep_ids(ts[v])[m2]]
                        0 <= m2 < m && 0 <= k < n && ts[k].id@ == dep_ids(ts[v])[m2]
                            ==> before[k] <= max_dep,
                    m > 0 ==> exists|k: int| #[trigger] depends_on(ts, v, k) && before[k] == max_dep,
            {
                let found = find_task_index(tasks, &task.depends_on[m]);
                let dd = match found {
                    Some(k) => match depths[k] {
                        Some(x) => x,
                        None => 0,
                    },
                    None => 0,
                };
                proof {
                    assert(!is_missing_dependency(ts, v, m as int));
                    let k = found->0 as int;
                    assert(dep_ids(ts[v])[m as int] == ts[k].id@);
                    assert(depends_on(ts, v, k));
                    assert(topo@.contains(k as usize));
                    let a = choose|a: int| 0 <= a < n && topo@[a] == k as usize;
                    lemma_dependency_precedes(ts, edges, topo@, a, p as int);
                    assert(depths@[topo@[a] as int] is Some);
                    assert(dd == before[k]);
                    assert forall|k2: int|
                        0 <= k2 < n && #[trigger] ts[k2].id@ == dep_ids(ts[v])[m as int] implies before[k2]
                        <= if dd > max_dep { dd } else { max_dep } by {
                        lemma_unique_id(ts, k, k2);
                    }
                }
                let ghost old_max = max_dep;
                if dd > max_dep {
                    max_dep = dd;
                }
                proof {
                    let k = found->0 as int;
                    if dd > old_max || m == 0 {
                        assert(depends_on(ts, v, k) && before[k] == max_dep);
                    }
                }
            }
            depths.set(v_idx, Some(max_dep + 1));
        }
        proof {
            let after = depth_values(depths@);
            assert(after == before.update(v, after[v]));
            assert forall|q: int|
                #![trigger topo@[q]]
                0 <= q < p + 1 implies depths@[topo@[q] as int] is Some && depths@[topo@[q] as int]->0
                <= q && depth_rule_holds(ts, after, topo@[q] as int) by {
                let w = topo@[q] as int;
                if q < p {
                    assert(w != v);
                    assert forall|k: int| #[trigger] depends_on(ts, w, k) implies after[k] < after[w] by {
                        assert(topo@.contains(k as usize));
                        let a = choose|a: int| 0 <= a < n && topo@[a] == k as usize;
                        lemma_dependency_precedes(ts, edges, topo@, a, q);
                        assert(k != v);
                    }
                    if dep_ids(ts[w]).len() > 0 {
                        let k = choose|k: int| #[trigger] depends_on(ts, w, k) && before[k] + 1 == before[w];
                        assert(topo@.contains(k as usize));
                        let a = choose|a: int| 0 <= a < n && topo@[a] == k as usize;
                        lemma_dependency_precedes(ts, edges, topo@, a, q);
                        assert(depends_on(ts, w, k) && after[k] + 1 == after[w]);
                    }
                } else {
                    assert forall|k: int| #[trigger] depends_on(ts, w, k) implies after[k] < after[w] by {
                        let mk = choose|mk: int| 0 <= mk < dep_ids(ts[w]).len() && dep_ids(ts[w])[mk] == ts[k].id@;
                        assert(ts[k].id@ == dep_ids(ts[w])[mk]);
                        assert(topo@.contains(k as usize));
                        let a = choose|a: int| 0 <= a < n && topo@[a] == k as usize;
                        lemma_dependency_precedes(ts, edges, topo@, a, q);
                        assert(k != v);
                    }
                    if dep_ids(ts[w]).len() > 0 {
                        let k = choose|k: int| #[trigger] depends_on(ts, w, k) && before[k] == after[w] - 1;
                        assert(topo@.contains(k as usize));
                        let a = choose|a: int| 0 <= a < n && topo@[a] == k as usize;
                        lemma_dependency_precedes(ts, edges, topo@, a, q);
                        assert(depends_on(ts, w, k) && after[k] + 1 == after[w]);
                    }
                }
            }
            assert forall|q: int| #![trigger topo@[q]] p + 1 <= q < n implies depths@[topo@[q] as int] is None by {
                assert(topo@[q] != topo@[p as int]);
            }
        }
    }
    let mut result: Vec<usize> = Vec::new();
    for i in 0..n
        invariant
            n == ts.len(),
            depths@.len() == n,
            result@.len() == i,
            forall|j: int| 0 <= j < i ==> result@[j] == depth_values(depths@)[j],
    {
        result.push(depths[i].unwrap_or(0));
    }
    proof {
        assert(result@ =~= depth_values(depths@));
        assert forall|i: int| 0 <= i < ts.len() implies #[trigger] depth_rule_holds(ts, result@, i) by {
            assert(topo@.contains(i as usize));
            let q = choose|q: int| 0 <= q < n && topo@[q] == i as usize;
            assert(depth_rule_holds(ts, depth_values(depths@), topo@[q] as int));
        }
        assert forall|i: int| 0 <= i < ts.len() implies #[trigger] result@[i] < ts.len() by {
            assert(topo@.contains(i as usize));
            let q = choose|q: int| 0 <= q < n && topo@[q] == i as usize;
            assert(depths@[topo@[q] as int] is Some);
        }
    }
    result
}

impl ExecutionPlan {
    /// Checks a set of tasks and groups them into levels by dependency depth.
    pub fn build(tasks: &[TaskDefinition]) -> (r: Result<Self, SchedulerError>)
        requires
            !has_duplicate_id(tasks@) && !has_missing_dependency(tasks@) ==> graph_fits(tasks@),
        ensures
            match r {
                Err(SchedulerError::EmptyDag) => tasks@.len() == 0,
                Err(SchedulerError::DuplicateTaskId(id)) => tasks@.len() > 0 && exists|j: int|
                    is_first_duplicate(tasks@, j) && tasks@[j].id@ == id@,
                Err(SchedulerError::MissingDependency(task_id, dep)) => tasks@.len() > 0
                    && !has_duplicate_id(tasks@) && exists|i: int, m: int|
                    is_first_missing_dependency(tasks@, i, m) && tasks@[i].id@ == task_id@
                        && dep_ids(tasks@[i])[m] == dep@,
                Err(SchedulerError::CycleDetected) => tasks@.len() > 0 && !has_duplicate_id(tasks@)
                    && !has_missing_dependency(tasks@) && !tasks_acyclic(tasks@),
                Ok(plan) => tasks@.len() > 0 && !has_duplicate_id(tasks@) && !has_missing_dependency(
                    tasks@,
                ) && tasks_acyclic(tasks@) && is_plan_for(tasks@, plan.levels@),
            },
    {
        let ghost ts = tasks@;
        let n = tasks.len();
        if n == 0 {
            return Err(SchedulerError::EmptyDag);
        }
        for j in 0..n
            invariant
                n == ts.len(),
                tasks@ == ts,
                forall|j2: int| 0 <= j2 < j ==> !repeats_earlier_id(ts, j2),
        {
            for k in 0..j
                invariant
                    n == ts.len(),
                    tasks@ == ts,
                    j < n,
                    forall|j2: int| 0 <= j2 < j ==> !repeats_earlier_id(ts, j2),
                    forall|k2: int| 0 <= k2 < k ==> ts[k2].id@ != ts[j as int].id@,
            {
                if tasks[k].id == tasks[j].id {
                    let id = tasks[j].id.clone();
                    proof {
                        assert(repeats_earlier_id(ts, j as int));
                        assert(is_first_duplicate(ts, j as int));
                        assert(ts[j as int].id@ == id@);
                    }
                    return Err(SchedulerError::DuplicateTaskId(id));
                }
            }
        }
        assert(!has_duplicate_id(ts));
        for i in 0..n
            invariant
                n == ts.len(),
                tasks@ == ts,
                !has_duplicate_id(ts),
                forall|i2: int, m2: int| 0 <= i2 < i ==> !is_missing_dependency(ts, i2, m2),
        {
            let deps = &tasks[i].depends_on;
            let deps_len = deps.len();
            for m in 0..deps_len
                invariant
                    n == ts.len(),
                    tasks@ == ts,
                    i < n,
                    !has_duplicate_id(ts),
                    *deps == ts[i as int].depends_on,
                    deps_len == dep_ids(ts[i as int]).len(),
                    forall|i2: int, m2: int| 0 <= i2 < i ==> !is_missing_dependency(ts, i2, m2),
                    forall|m2: int| 0 <= m2 < m ==> !is_missing_dependency(ts, i as int, m2),
            {
                if find_task_index(tasks, &deps[m]).is_none() {
                    let task_id = tasks[i].id.clone();
                    let dep = deps[m].clone();
                    proof {
                        assert(is_missing_dependency(ts, i as int, m as int));
                        assert(is_first_missing_dependency(ts, i as int, m as int));
                        assert(ts[i as int].id@ == task_id@ && dep_ids(ts[i as int])[m as int] == dep@);
                    }
                    return Err(SchedulerError::MissingDependency(task_id, dep));
                }
            }
        }
        assert(!has_missing_dependency(ts));
        let mut graph = new_task_graph();
        let mut node_indices: Vec<usize> = Vec::new();
        for i in 0..n
            invariant
                n == ts.len(),
                tasks@ == ts,
                graph_fits(ts),
                graph_nodes(graph) == ts.take(i as int).map_values(|t: TaskDefinition| t.id@),
                graph_edges(graph).len() == 0,
                node_indices@.len() == i,
                forall|j: int| 0 <= j < i ==> #[trigger] node_indices@[j] == j,
        {
            let idx = add_task_node(&mut graph, tasks[i].id.clone());
            node_indices.push(idx);
            assert(ts.take(i + 1).map_values(|t: TaskDefinition| t.id@) =~= ts.take(
                i as int,
            ).map_values(|t: TaskDefinition| t.id@).push(ts[i as int].id@));
        }
        assert(ts.take(n as int) =~= ts);
        for i in 0..n
            invariant
                n == ts.len(),
                tasks@ == ts,
                graph_fits(ts),
                !has_duplicate_id(ts),
                !has_missing_dependency(ts),
                graph_nodes(graph) == ts.map_values(|t: TaskDefinition| t.id@),
                graph_edges(graph).len() == dependency_count(ts.take(i as int)),
                node_indices@.len() == n,
                forall|j: int| 0 <= j < n ==> #[trigger] node_indices@[j] == j,
                edges_sound(ts, graph_edges(graph)),
                edges_complete(ts, graph_edges(graph), i as int),
        {
            let deps = &tasks[i].depends_on;
            let deps_len = deps.len();
            let dependent_idx = node_indices[i];
            proof {
                lemma_dependency_count_step(ts, i as int);
                lemma_dependency_count_prefix(ts, i + 1);
            }
            for m in 0..deps_len
                invariant
                    n == ts.len(),
                    tasks@ == ts,
                    i < n,
                    dependent_idx == i,
                    *deps == ts[i as int].depends_on,
                    deps_len == dep_ids(ts[i as int]).len(),
                    !has_duplicate_id(ts),
                    !has_missing_dependency(ts),
                    graph_nodes(graph) == ts.map_values(|t: TaskDefinition| t.id@),
                    graph_edges(graph).len() == dependency_count(ts.take(i as int)) + m,
                    dependency_count(ts.take(i as int)) + deps_len <= u32::MAX,
                    node_indices@.len() == n,
                    forall|j: int| 0 <= j < n ==> #[trigger] node_indices@[j] == j,
                    edges_sound(ts, graph_edges(graph)),
                    edges_complete(ts, graph_edges(graph), i as int),
                    forall|m2: int, k: int|
                        #![trigger ts[k].id@, dep_ids(ts[i as int])[m2]]
                        0 <= m2 < m && 0 <= k < n && ts[k].id@ == dep_ids(ts[i as int])[m2]
                            ==> exists|e: int|
                            0 <= e < graph_edges(graph).len() && #[trigger] graph_edges(graph)[e]
                                == (k as usize, i as usize),
            {
                let found = find_task_index(tasks, &deps[m]);
                proof {
                    assert(!is_missing_dependency(ts, i as int, m as int));
                }
                let k = found.unwrap();
                let dependency_idx = node_indices[k];
                let ghost old_edges = graph_edges(graph);
                add_dependency_edge(&mut graph, dependency_idx, dependent_idx);
                proof {
                    let edges = graph_edges(graph);
                    assert(edges[old_edges.len() as int] == (k, i));
                    assert(dep_ids(ts[i as int])[m as int] == ts[k as int].id@);
                    assert(depends_on(ts, i as int, k as int));
                    assert forall|e: int| 0 <= e < edges.len() implies depends_on(
                        ts,
                        (#[trigger] edges[e]).1 as int,
                        edges[e].0 as int,
                    ) by {
                        if e < old_edges.len() {
                            assert(edges[e] == old_edges[e]);
                        }
                    }
                    assert forall|i2: int, k2: int|
                        0 <= i2 < i && #[trigger] depends_on(ts, i2, k2) implies exists|e: int|
                        0 <= e < edges.len() && #[trigger] edges[e] == (k2 as usize, i2 as usize) by {
                        let e = choose|e: int|
                            0 <= e < old_edges.len() && #[trigger] old_edges[e] == (k2 as usize, i2 as usize);
                        assert(edges[e] == old_edges[e]);
                    }
                    assert forall|m2: int, k2: int|
                        #![trigger ts[k2].id@, dep_ids(ts[i as int])[m2]]
                        0 <= m2 < m + 1 && 0 <= k2 < n && ts[k2].id@ == dep_ids(ts[i as int])[m2]
                        implies exists|e: int|
                        0 <= e < edges.len() && #[trigger] edges[e] == (k2 as usize, i as usize) by {
                        if m2 == m {
                            lemma_unique_id(ts, k as int, k2);
                            assert(edges[old_edges.len() as int] == (k2 as usize, i as usize));
                        } else {
                            let e = choose|e: int|
                                0 <= e < old_edges.len() && #[trigger] old_edges[e] == (k2 as usize, i as usize);
                            assert(edges[e] == old_edges[e]);
                        }
                    }
                }
            }
            proof {
                let edges = graph_edges(graph);
                assert forall|i2: int, k2: int|
                    0 <= i2 < i + 1 && #[trigger] depends_on(ts, i2, k2) implies exists|e: int|
                    0 <= e < edges.len() && #[trigger] edges[e] == (k2 as usize, i2 as usize) by {
                    if i2 == i {
                        let m2 = choose|m2: int|
                            0 <= m2 < dep_ids(ts[i as int]).len() && dep_ids(ts[i as int])[m2]
                                == ts[k2].id@;
                        assert(ts[k2].id@ == dep_ids(ts[i as int])[m2]);
                    }
                }
            }
        }
        match topological_order(&graph) {
            Some(_topo_order) => {
                proof {
                    lemma_graph_order_is_task_order(ts, graph_edges(graph), _topo_order@);
                }
            },
            None => {
                proof {
                    if tasks_acyclic(ts) {
                        let order = choose|order: Seq<usize>| is_task_order(ts, order);
                        lemma_task_order_is_graph_order(ts, graph_edges(graph), order);
                    }
                }
                return Err(SchedulerError::CycleDetected);
            },
        }
        proof {
            let order = choose|order: Seq<usize>| is_task_order(ts, order);
            lemma_task_order_is_graph_order(ts, graph_edges(graph), order);
        }
        let depths = compute_node_depths(&graph, &node_indices, tasks);
        let ghost d = depths@;
        let mut max_depth: usize = 0;
        for i in 0..n
            invariant
                n == ts.len(),
                d == depths@,
                d.len() == n,
                forall|j: int| 0 <= j < n ==> #[trigger] d[j] < n,
                max_depth < n,
                i == 0 ==> max_depth == 0,
                forall|j: int| 0 <= j < i ==> #[trigger] d[j] <= max_depth,
                i > 0 ==> exists|j: int| 0 <= j < i && #[trigger] d[j] == max_depth,
        {
            if depths[i] > max_depth {
                max_depth = depths[i];
            }
            proof {
                if d[i as int] <= max_depth && i == 0 {
                    assert(d[0] == max_depth);
                }
            }
        }
        let mut levels: Vec<Vec<String>> = Vec::new();
        for l in 0..max_depth + 1
            invariant
                n == ts.len(),
                tasks@ == ts,
                d == depths@,
                d.len() == n,
                !has_duplicate_id(ts),
                levels@.len() == l,
                forall|l2: int|
                    0 <= l2 < l ==> strictly_sorted(#[trigger] level_views(levels@)[l2]),
                forall|l2: int, x: Seq<char>|
                    0 <= l2 < l ==> (#[trigger] level_views(levels@)[l2].contains(x) <==> exists|
                        i: int,
                    | 0 <= i < n && #[trigger] ts[i].id@ == x && d[i] == l2),
        {
            let mut level: Vec<String> = Vec::new();
            for i in 0..n
                invariant
                    n == ts.len(),
                    tasks@ == ts,
                    d == depths@,
                    d.len() == n,
                    !has_duplicate_id(ts),
                    string_views(level@).no_duplicates(),
                    forall|x: Seq<char>|
                        #[trigger] string_views(level@).contains(x) <==> exists|i2: int|
                            0 <= i2 < i && #[trigger] ts[i2].id@ == x && d[i2] == l,
            {
                if depths[i] == l {
                    let ghost old_level = string_views(level@);
                    let id = tasks[i].id.clone();
                    proof {
                        if old_level.contains(id@) {
                            let i2 = choose|i2: int| 0 <= i2 < i && #[trigger] ts[i2].id@ == id@ && d[i2] == l;
                            lemma_unique_id(ts, i2, i as int);
                        }
                    }
                    level.push(id);
                    proof {
                        let nl = string_views(level@);
                        assert(nl =~= old_level.push(ts[i as int].id@));
                        assert forall|x: Seq<char>| #[trigger] nl.contains(x) <==> exists|i2: int|
                            0 <= i2 < i + 1 && #[trigger] ts[i2].id@ == x && d[i2] == l by {
                            if nl.contains(x) && x != ts[i as int].id@ {
                                let a = choose|a: int| 0 <= a < nl.len() && nl[a] == x;
                                assert(old_level[a] == x);
                                assert(old_level.contains(x));
                            }
                            if exists|i2: int| 0 <= i2 < i + 1 && #[trigger] ts[i2].id@ == x && d[i2] == l {
                                if x == ts[i as int].id@ {
                                    assert(nl[old_level.len() as int] == x);
                                } else {
                                    let i2 = choose|i2: int| 0 <= i2 < i + 1 && #[trigger] ts[i2].id@ == x && d[i2] == l;
                                    assert(i2 < i);
                                    assert(old_level.contains(x));
                                    let a = choose|a: int| 0 <= a < old_level.len() && old_level[a] == x;
                                    assert(nl[a] == x);
                                }
                            }
                        }
                    }
                }
            }
            let sorted = sort_distinct(&level);
            let ghost old_levels = levels@;
            levels.push(sorted);
            proof {
                assert(level_views(levels@) =~= level_views(old_levels).push(string_views(sorted@)));
            }
        }
        proof {
            let lv = level_views(levels@);
            assert forall|i: int| 0 <= i < n implies #[trigger] d[i] < lv.len() by {
                assert(d[i] <= max_depth);
            }
            assert(levels_group_by_depth(ts, d, lv));
        }
        Ok(ExecutionPlan { levels })
    }
}

proof fn lemma_depths_agree_before(
    tasks: Seq<TaskDefinition>,
    d1: Seq<usize>,
    d2: Seq<usize>,
    order: Seq<usize>,
    p: int,
)
    requires
        are_task_depths(tasks, d1),
        are_task_depths(tasks, d2),
        is_task_order(tasks, order),
        tasks.len() <= usize::MAX,
        0 <= p <= tasks.len(),
    ensures
        forall|q: int| 0 <= q < p ==> d1[#[trigger] order[q] as int] == d2[order[q] as int],
    decreases p,
{
    if p > 0 {
        lemma_depths_agree_before(tasks, d1, d2, order, p - 1);
        let v = order[p - 1] as int;
        assert(depth_rule_holds(tasks, d1, v));
        assert(depth_rule_holds(tasks, d2, v));
        assert forall|k: int| #[trigger] depends_on(tasks, v, k) implies d1[k] == d2[k] by {
            assert(order.contains(k as usize));
            let a = choose|a: int| 0 <= a < order.len() && order[a] == k as usize;
            assert(depends_on(tasks, order[p - 1] as int, order[a] as int));
            assert(a < p - 1);
            assert(d1[order[a] as int] == d2[order[a] as int]);
        }
        if dep_ids(tasks[v]).len() > 0 {
            let k1 = choose|k: int| #[trigger] depends_on(tasks, v, k) && d1[k] + 1 == d1[v];
            let k2 = choose|k: int| #[trigger] depends_on(tasks, v, k) && d2[k] + 1 == d2[v];
            assert(d2[k1] < d2[v]);
            assert(d1[k2] < d1[v]);
        }
    }
}

/// The depths of acyclic tasks are unique: any two assignments that follow the depth
/// rule agree.
pub proof fn lemma_task_depths_unique(tasks: Seq<TaskDefinition>, d1: Seq<usize>, d2: Seq<usize>)
    requires
        tasks.len() <= usize::MAX,
        tasks_acyclic(tasks),
        are_task_depths(tasks, d1),
        are_task_depths(tasks, d2),
    ensures
        d1 == d2,
{
    let order = choose|order: Seq<usize>| is_task_order(tasks, order);
    lemma_depths_agree_before(tasks, d1, d2, order, tasks.len() as int);
    assert forall|i: int| 0 <= i < d1.len() implies d1[i] == d2[i] by {
        assert(order.contains(i as usize));
        let q = choose|q: int| 0 <= q < order.len() && order[q] == i as usize;
        assert(d1[order[q] as int] == d2[order[q] as int]);
    }
    assert(d1 =~= d2);
}

/// Two strictly sorted sequences with the same elements are equal.
pub proof fn lemma_strictly_sorted_unique(a: Seq<Seq<char>>, b: Seq<Seq<char>>)
    requires
        strictly_sorted(a),
        strictly_sorted(b),
        forall|x: Seq<char>| a.contains(x) <==> b.contains(x),
    ensures
        a == b,
    decreases a.len(),
{
    if a.len() == 0 {
        if b.len() > 0 {
            assert(b.contains(b[0]));
        }
        assert(a =~= b);
    } else {
        assert(a.contains(a[0]));
        assert(b.len() > 0);
        assert(b.contains(b[0]));
        let ia = choose|i: int| 0 <= i < a.len() && a[i] == b[0];
        let ib = choose|i: int| 0 <= i < b.len() && b[i] == a[0];
        if ia > 0 {
            assert(lex_lt(a[0], a[ia]));
            if ib > 0 {
                assert(lex_lt(b[0], b[ib]));
                lemma_lex_lt_transitive(a[0], b[0], a[0]);
                lemma_lex_lt_irreflexive(a[0]);
            }
        }
        if ib > 0 && ia == 0 {
            assert(lex_lt(b[0], b[ib]));
            lemma_lex_lt_irreflexive(a[0]);
        }
        assert(a[0] == b[0]);
        let ra = a.drop_first();
        let rb = b.drop_first();
        assert forall|x: Seq<char>| ra.contains(x) <==> rb.contains(x) by {
            if ra.contains(x) {
                let i = choose|i: int| 0 <= i < ra.len() && ra[i] == x;
                assert(a[i + 1] == x);
                assert(lex_lt(a[0], a[i + 1]));
                assert(a.contains(x));
                let j = choose|j: int| 0 <= j < b.len() && b[j] == x;
                if j == 0 {
                    lemma_lex_lt_irreflexive(a[0]);
                }
                assert(rb[j - 1] == x);
            }
            if rb.contains(x) {
                let i = choose|i: int| 0 <= i < rb.len() && rb[i] == x;
                assert(b[i + 1] == x);
                assert(lex_lt(b[0], b[i + 1]));
                assert(b.contains(x));
                let j = choose|j: int| 0 <= j < a.len() && a[j] == x;
                if j == 0 {
                    lemma_lex_lt_irreflexive(b[0]);
                }
                assert(ra[j - 1] == x);
            }
        }
        assert forall|i: int, j: int| #![trigger ra[i], ra[j]] 0 <= i < j < ra.len() implies lex_lt(ra[i], ra[j]) by {
            assert(lex_lt(a[i + 1], a[j + 1]));
        }
        assert forall|i: int, j: int| #![trigger rb[i], rb[j]] 0 <= i < j < rb.len() implies lex_lt(rb[i], rb[j]) by {
            assert(lex_lt(b[i + 1], b[j + 1]));
        }
        lemma_strictly_sorted_unique(ra, rb);
        assert forall|i: int| 0 <= i < a.len() implies a[i] == b[i] by {
            if i > 0 {
                assert(a[i] == ra[i - 1] && b[i] == rb[i - 1]);
            }
        }
        assert(a =~= b);
    }
}

/// A plan for acyclic tasks is unique: two level lists that both follow the depths of
/// the same tasks are the same.
pub proof fn lemma_plan_unique(tasks: Seq<TaskDefinition>, l1: Seq<Vec<String>>, l2: Seq<Vec<String>>)
    requires
        tasks.len() <= usize::MAX,
        tasks_acyclic(tasks),
        is_plan_for(tasks, l1),
        is_plan_for(tasks, l2),
    ensures
        level_views(l1) == level_views(l2),
{
    let d1 = choose|d: Seq<usize>|
        are_task_depths(tasks, d) && levels_group_by_depth(tasks, d, level_views(l1));
    let d2 = choose|d: Seq<usize>|
        are_task_depths(tasks, d) && levels_group_by_depth(tasks, d, level_views(l2));
    lemma_task_depths_unique(tasks, d1, d2);
    let v1 = level_views(l1);
    let v2 = level_views(l2);
    let i1 = choose|i: int| 0 <= i < tasks.len() && #[trigger] d1[i] + 1 == v1.len();
    let i2 = choose|i: int| 0 <= i < tasks.len() && #[trigger] d2[i] + 1 == v2.len();
    assert(d1[i2] < v1.len());
    assert(d2[i1] < v2.len());
    assert(v1.len() == v2.len());
    assert forall|l: int| 0 <= l < v1.len() implies v1[l] == v2[l] by {
        assert(strictly_sorted(v1[l]));
        assert(strictly_sorted(v2[l]));
        assert forall|x: Seq<char>| v1[l].contains(x) <==> v2[l].contains(x) by {
            if v1[l].contains(x) {
                let i = choose|i: int| 0 <= i < tasks.len() && #[trigger] tasks[i].id@ == x && d1[i] == l;
                assert(tasks[i].id@ == x && d2[i] == l);
            }
            if v2[l].contains(x) {
                let i = choose|i: int| 0 <= i < tasks.len() && #[trigger] tasks[i].id@ == x && d2[i] == l;
                assert(tasks[i].id@ == x && d1[i] == l);
            }
        }
        lemma_strictly_sorted_unique(v1[l], v2[l]);
    }
    assert(v1 =~= v2);
}

/// In a plan every task's id stands in exactly one level.
pub proof fn lemma_plan_places_each_task_once(
    tasks: Seq<TaskDefinition>,
    levels: Seq<Vec<String>>,
    i: int,
)
    requires
        is_plan_for(tasks, levels),
        !has_duplicate_id(tasks),
        0 <= i < tasks.len(),
    ensures
        exists|l: int| 0 <= l < levels.len() && #[trigger] level_views(levels)[l].contains(tasks[i].id@),
        forall|l1: int, l2: int|
            0 <= l1 < levels.len() && 0 <= l2 < levels.len() && level_views(levels)[l1].contains(
                tasks[i].id@,
            ) && level_views(levels)[l2].contains(tasks[i].id@) ==> l1 == l2,
{
    let d = choose|d: Seq<usize>|
        are_task_depths(tasks, d) && levels_group_by_depth(tasks, d, level_views(levels));
    let v = level_views(levels);
    assert(d[i] < v.len());
    assert(v[d[i] as int].contains(tasks[i].id@));
    assert forall|l1: int, l2: int|
        0 <= l1 < levels.len() && 0 <= l2 < levels.len() && v[l1].contains(tasks[i].id@)
            && v[l2].contains(tasks[i].id@) implies l1 == l2 by {
        let a = choose|a: int| 0 <= a < tasks.len() && #[trigger] tasks[a].id@ == tasks[i].id@ && d[a] == l1;
        let b = choose|b: int| 0 <= b < tasks.len() && #[trigger] tasks[b].id@ == tasks[i].id@ && d[b] == l2;
        lemma_unique_id(tasks, a, i);
        lemma_unique_id(tasks, b, i);
    }
}

/// In a plan a task stands in a later level than every task it waits for.
pub proof fn lemma_plan_orders_dependencies(
    tasks: Seq<TaskDefinition>,
    levels: Seq<Vec<String>>,
    i: int,
    k: int,
    li: int,
    lk: int,
)
    requires
        is_plan_for(tasks, levels),
        !has_duplicate_id(tasks),
        depends_on(tasks, i, k),
        0 <= li < levels.len(),
        0 <= lk < levels.len(),
        level_views(levels)[li].contains(tasks[i].id@),
        level_views(levels)[lk].contains(tasks[k].id@),
    ensures
        lk < li,
{
    let d = choose|d: Seq<usize>|
        are_task_depths(tasks, d) && levels_group_by_depth(tasks, d, level_views(levels));
    let v = level_views(levels);
    let a = choose|a: int| 0 <= a < tasks.len() && #[trigger] tasks[a].id@ == tasks[i].id@ && d[a] == li;
    let b = choose|b: int| 0 <= b < tasks.len() && #[trigger] tasks[b].id@ == tasks[k].id@ && d[b] == lk;
    lemma_unique_id(tasks, a, i);
    lemma_unique_id(tasks, b, k);
    assert(depth_rule_holds(tasks, d, i));
}

proof fn lemma_every_depth_reached(tasks: Seq<TaskDefinition>, d: Seq<usize>, top: int, l: int)
    requires
        are_task_depths(tasks, d),
        0 <= top < tasks.len(),
        0 <= l <= d[top],
    ensures
        exists|i: int| 0 <= i < tasks.len() && #[trigger] d[i] == l,
    decreases d[top] - l,
{
    if l == d[top] {
        assert(d[top] == l);
    } else {
        lemma_every_depth_reached(tasks, d, top, l + 1);
        let i = choose|i: int| 0 <= i < tasks.len() && #[trigger] d[i] == l + 1;
        assert(depth_rule_holds(tasks, d, i));
        let k = choose|k: int| #[trigger] depends_on(tasks, i, k) && d[k] + 1 == d[i];
        assert(d[k] == l);
    }
}

/// No level of a plan is empty.
pub proof fn lemma_plan_levels_nonempty(tasks: Seq<TaskDefinition>, levels: Seq<Vec<String>>, l: int)
    requires
        is_plan_for(tasks, levels),
        0 <= l < levels.len(),
    ensures
        levels[l]@.len() > 0,
{
    let d = choose|d: Seq<usize>|
        are_task_depths(tasks, d) && levels_group_by_depth(tasks, d, level_views(levels));
    let v = level_views(levels);
    let top = choose|i: int| 0 <= i < tasks.len() && #[trigger] d[i] + 1 == v.len();
    lemma_every_depth_reached(tasks, d, top, l);
    let i = choose|i: int| 0 <= i < tasks.len() && #[trigger] d[i] == l;
    assert(v[l].contains(tasks[i].id@));
}

/// `tasks2` holds the tasks of `tasks` in another order: task `i` of `tasks2` is task
/// `perm[i]` of `tasks`, and every task of `tasks` is taken once.
pub open spec fn is_reordering(
    tasks: Seq<TaskDefinition>,
    tasks2: Seq<TaskDefinition>,
    perm: Seq<int>,
) -> bool {
    &&& tasks2.len() == tasks.len()
    &&& perm.len() == tasks.len()
    &&& forall|i: int| 0 <= i < tasks.len() ==> 0 <= #[trigger] perm[i] < tasks.len()
    &&& forall|i: int, j: int| 0 <= i < j < tasks.len() ==> perm[i] != perm[j]
    &&& forall|j: int| 0 <= j < tasks.len() ==> #[trigger] perm.contains(j)
    &&& forall|i: int| 0 <= i < tasks.len() ==> #[trigger] tasks2[i] == tasks[perm[i]]
}

proof fn lemma_reordering_dependencies(
    tasks: Seq<TaskDefinition>,
    tasks2: Seq<TaskDefinition>,
    perm: Seq<int>,
    i: int,
    k: int,
)
    requires
        is_reordering(tasks, tasks2, perm),
        0 <= i < tasks.len(),
        0 <= k < tasks.len(),
    ensures
        depends_on(tasks2, i, k) == depends_on(tasks, perm[i], perm[k]),
{
    assert(tasks2[i] == tasks[perm[i]]);
    assert(tasks2[k] == tasks[perm[k]]);
}

/// The plan does not depend on the order of the tasks: when the tasks pass every check
/// (no repeated id, no unknown dependency, no cycle), the same tasks in any other order
/// pass them too, the plan for the tasks is a plan for the reordered tasks, and every
/// plan for the reordered tasks has the same levels.
pub proof fn lemma_plan_independent_of_order(
    tasks: Seq<TaskDefinition>,
    tasks2: Seq<TaskDefinition>,
    perm: Seq<int>,
    l1: Seq<Vec<String>>,
    l2: Seq<Vec<String>>,
)
    requires
        is_reordering(tasks, tasks2, perm),
        tasks.len() <= usize::MAX,
        !has_duplicate_id(tasks),
        !has_missing_dependency(tasks),
        tasks_acyclic(tasks),
        is_plan_for(tasks, l1),
    ensures
        tasks2.len() == tasks.len(),
        !has_duplicate_id(tasks2),
        !has_missing_dependency(tasks2),
        tasks_acyclic(tasks2),
        is_plan_for(tasks2, l1),
        is_plan_for(tasks2, l2) ==> level_views(l1) == level_views(l2),
{
    let n = tasks.len();
    // No repeated ids.
    assert forall|j: int| !repeats_earlier_id(tasks2, j) by {
        if repeats_earlier_id(tasks2, j) {
            let k = choose|k: int| 0 <= k < j && #[trigger] tasks2[k].id@ == tasks2[j].id@;
            assert(tasks2[k] == tasks[perm[k]]);
            assert(tasks2[j] == tasks[perm[j]]);
            lemma_unique_id(tasks, perm[k], perm[j]);
        }
    }
    // No unknown dependencies.
    assert forall|i: int, m: int| !is_missing_dependency(tasks2, i, m) by {
        if is_missing_dependency(tasks2, i, m) {
            assert(tasks2[i] == tasks[perm[i]]);
            assert(!is_missing_dependency(tasks, perm[i], m));
            let k = choose|k: int| 0 <= k < n && #[trigger] tasks[k].id@ == dep_ids(tasks[perm[i]])[m];
            assert(perm.contains(k));
            let i2 = choose|i2: int| 0 <= i2 < n && perm[i2] == k;
            assert(tasks2[i2] == tasks[perm[i2]]);
            assert(tasks2[i2].id@ == dep_ids(tasks2[i])[m]);
        }
    }
    // The inverse of `perm`.
    let inv = Seq::new(n, |j: int| choose|i: int| 0 <= i < n && perm[i] == j);
    assert forall|j: int| 0 <= j < n implies 0 <= #[trigger] inv[j] < n && perm[inv[j]] == j by {
        assert(perm.contains(j));
    }
    assert forall|i: int| 0 <= i < n implies #[trigger] inv[perm[i]] == i by {
        let j = perm[i];
        assert(perm[inv[j]] == j);
        if inv[j] != i {
            if inv[j] < i {
                assert(perm[inv[j]] != perm[i]);
            } else {
                assert(perm[i] != perm[inv[j]]);
            }
        }
    }
    // A task order for the reordered tasks.
    let order = choose|order: Seq<usize>| is_task_order(tasks, order);
    let order2 = Seq::new(n, |p: int| inv[order[p] as int] as usize);
    assert(is_task_order(tasks2, order2)) by {
        assert forall|p: int| 0 <= p < n implies #[trigger] order2[p] < n by {
            assert(order[p] < n);
        }
        assert forall|p: int, q: int| 0 <= p < q < n implies order2[p] != order2[q] by {
            assert(order[p] != order[q]);
            assert(perm[inv[order[p] as int]] == order[p]);
            assert(perm[inv[order[q] as int]] == order[q]);
        }
        assert forall|v: usize| v < n implies #[trigger] order2.contains(v) by {
            let j = perm[v as int];
            assert(order.contains(j as usize));
            let p = choose|p: int| 0 <= p < order.len() && order[p] == j as usize;
            assert(order2[p] == v);
        }
        assert forall|p: int, q: int|
            #![trigger order2[p], order2[q]]
            0 <= p < n && 0 <= q < n && depends_on(tasks2, order2[q] as int, order2[p] as int)
            implies p < q by {
            let a = inv[order[p] as int];
            let b = inv[order[q] as int];
            lemma_reordering_dependencies(tasks, tasks2, perm, b, a);
            assert(perm[a] == order[p] && perm[b] == order[q]);
            assert(depends_on(tasks, order[q] as int, order[p] as int));
        }
    }
    // The depths carry over.
    let d = choose|d: Seq<usize>|
        are_task_depths(tasks, d) && levels_group_by_depth(tasks, d, level_views(l1));
    let d2 = Seq::new(n, |i: int| d[perm[i]]);
    assert(are_task_depths(tasks2, d2)) by {
        assert forall|i: int| 0 <= i < n implies #[trigger] depth_rule_holds(tasks2, d2, i) by {
            assert(depth_rule_holds(tasks, d, perm[i]));
            assert(tasks2[i] == tasks[perm[i]]);
            assert forall|k: int| #[trigger] depends_on(tasks2, i, k) implies d2[k] < d2[i] by {
                lemma_reordering_dependencies(tasks, tasks2, perm, i, k);
                assert(depends_on(tasks, perm[i], perm[k]));
            }
            if dep_ids(tasks2[i]).len() > 0 {
                let k = choose|k: int| #[trigger] depends_on(tasks, perm[i], k) && d[k] + 1 == d[perm[i]];
                let k2 = inv[k];
                lemma_reordering_dependencies(tasks, tasks2, perm, i, k2);
                assert(depends_on(tasks2, i, k2) && d2[k2] + 1 == d2[i]);
            }
        }
    }
    let lv = level_views(l1);
    assert(levels_group_by_depth(tasks2, d2, lv)) by {
        assert forall|i: int| 0 <= i < n implies #[trigger] d2[i] < lv.len() by {
            assert(d[perm[i]] < lv.len());
        }
        let top = choose|i: int| 0 <= i < n && #[trigger] d[i] + 1 == lv.len();
        assert(d2[inv[top]] + 1 == lv.len());
        assert forall|l: int, x: Seq<char>|
            0 <= l < lv.len() implies (#[trigger] lv[l].contains(x) <==> exists|i: int|
                0 <= i < n && #[trigger] tasks2[i].id@ == x && d2[i] == l) by {
            if lv[l].contains(x) {
                let j = choose|j: int| 0 <= j < n && #[trigger] tasks[j].id@ == x && d[j] == l;
                assert(tasks2[inv[j]] == tasks[perm[inv[j]]]);
                assert(tasks2[inv[j]].id@ == x && d2[inv[j]] == l);
            }
            if exists|i: int| 0 <= i < n && #[trigger] tasks2[i].id@ == x && d2[i] == l {
                let i = choose|i: int| 0 <= i < n && #[trigger] tasks2[i].id@ == x && d2[i] == l;
                assert(tasks2[i] == tasks[perm[i]]);
                assert(tasks[perm[i]].id@ == x && d[perm[i]] == l);
            }
        }
    }
    if is_plan_for(tasks2, l2) {
        lemma_plan_unique(tasks2, l1, l2);
    }
}

/// The value of each depth slot, 0 where none was set.
pub open spec fn depth_values(depths: Seq<Option<usize>>) -> Seq<usize> {
    depths.map_values(|o: Option<usize>| match o {
        Some(x) => x,
        None => 0,
    })
}

} // verus!
