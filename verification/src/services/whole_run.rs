use crate::models::dag::{
    all_terminal, ids_unique, is_first_state_with_id, is_last_definition_with_id, settled_status, state_ids, DagStatus,
    TaskDefinition, TaskState, TaskStatus,
};
use crate::routes::submit::submitted_states;
use crate::services::executor::{
    dependencies_succeeded, dependency_succeeded, finished_from, ready_to_run, started_from,
};
use crate::services::run::{level_planned, names_task, task_finished};
use crate::services::scheduler::{
    dep_ids, depends_on, has_duplicate_id, has_missing_dependency, is_known_id, is_plan_for,
    lemma_plan_orders_dependencies, lemma_plan_places_each_task_once, level_views,
};
use vstd::prelude::*;

verus! {

/// `lv[p]` is the level of the plan that names task `p`: each task is named by that level
/// alone, and every task it waits for is a task of the run named by an earlier level.
pub open spec fn levels_of_tasks(tasks: Seq<TaskState>, levels: Seq<Vec<String>>, lv: Seq<int>) -> bool {
    &&& lv.len() == tasks.len()
    &&& forall|p: int| 0 <= p < tasks.len() ==> 0 <= #[trigger] lv[p] < levels.len()
    &&& forall|p: int, l: int|
        0 <= p < tasks.len() && 0 <= l < levels.len() ==> (#[trigger] level_views(levels)[l].contains(
            tasks[p].definition.id@,
        ) <==> lv[p] == l)
    &&& forall|p: int, m: int|
        0 <= p < tasks.len() && 0 <= m < tasks[p].definition.depends_on@.len()
            ==> #[trigger] waits_for_earlier(tasks, lv, p, m)
}

/// Dependency `m` of task `p` is a task of the run at an earlier level.
pub open spec fn waits_for_earlier(tasks: Seq<TaskState>, lv: Seq<int>, p: int, m: int) -> bool {
    exists|q: int|
        #![trigger lv[q]]
        0 <= q < tasks.len() && tasks[q].definition.id@ == tasks[p].definition.depends_on@[m]@
            && lv[q] < lv[p]
}

/// The two runs hold the same task definitions, position by position.
pub open spec fn same_definitions(a: Seq<TaskState>, b: Seq<TaskState>) -> bool {
    &&& a.len() == b.len()
    &&& forall|p: int| 0 <= p < a.len() ==> (#[trigger] a[p]).definition == b[p].definition
}

proof fn lemma_first_is_only(t: Seq<TaskState>, q: int, x: Seq<char>)
    requires
        ids_unique(t),
        0 <= q < t.len(),
        t[q].definition.id@ == x,
    ensures
        is_first_state_with_id(t, q, x),
        forall|p: int| is_first_state_with_id(t, p, x) ==> p == q,
{
    assert forall|p: int| is_first_state_with_id(t, p, x) implies p == q by {
        if p != q {
            assert(t[p].definition.id@ != t[q].definition.id@);
        }
    }
    assert forall|r: int| 0 <= r < q implies t[r].definition.id@ != x by {
        assert(t[r].definition.id@ != t[q].definition.id@);
    }
}

/// With distinct ids, a task waited for by id has succeeded exactly when the task of
/// the run with that id has.
proof fn lemma_dependency_at(t: Seq<TaskState>, q: int, x: Seq<char>)
    requires
        ids_unique(t),
        0 <= q < t.len(),
        t[q].definition.id@ == x,
    ensures
        dependency_succeeded(t, x) == (t[q].status is Succeeded),
{
    lemma_first_is_only(t, q, x);
}

proof fn lemma_same_definitions_unique(a: Seq<TaskState>, b: Seq<TaskState>)
    requires
        same_definitions(a, b),
        ids_unique(a),
    ensures
        ids_unique(b),
{
    assert forall|p: int, q: int|
        0 <= p < b.len() && 0 <= q < b.len() && p != q implies (#[trigger] b[p]).definition.id@
            != (#[trigger] b[q]).definition.id@ by {
        assert(a[p].definition == b[p].definition);
        assert(a[q].definition == b[q].definition);
    }
}

proof fn lemma_same_definitions_levels(a: Seq<TaskState>, b: Seq<TaskState>, levels: Seq<Vec<String>>, lv: Seq<int>)
    requires
        same_definitions(a, b),
        levels_of_tasks(a, levels, lv),
    ensures
        levels_of_tasks(b, levels, lv),
{
    assert forall|p: int, l: int|
        0 <= p < b.len() && 0 <= l < levels.len() implies (#[trigger] level_views(levels)[l].contains(
            b[p].definition.id@,
        ) <==> lv[p] == l) by {
        assert(a[p].definition == b[p].definition);
    }
    assert forall|p: int, m: int|
        0 <= p < b.len() && 0 <= m < b[p].definition.depends_on@.len() implies #[trigger] waits_for_earlier(b, lv, p, m) by {
        assert(a[p].definition == b[p].definition);
        assert(a[p].definition.depends_on@[m] == b[p].definition.depends_on@[m]);
        assert(waits_for_earlier(a, lv, p, m));
        let q = choose|q: int|
            #![trigger lv[q]]
            0 <= q < a.len() && a[q].definition.id@ == a[p].definition.depends_on@[m]@ && lv[q] < lv[p];
        assert(a[q].definition == b[q].definition);
        assert(lv[q] < lv[p]);
    }
    assert(lv.len() == b.len());
    assert forall|p: int| 0 <= p < b.len() implies 0 <= #[trigger] lv[p] < levels.len() by {
        assert(0 <= lv[p] < levels.len());
    }
}

/// With distinct ids, a level names a task exactly when it is the task's level.
proof fn lemma_named_by_level(t: Seq<TaskState>, levels: Seq<Vec<String>>, lv: Seq<int>, k: int, p: int)
    requires
        ids_unique(t),
        levels_of_tasks(t, levels, lv),
        0 <= k < levels.len(),
        0 <= p < t.len(),
    ensures
        names_task(t, levels[k]@, p) == (lv[p] == k),
{
    let x = t[p].definition.id@;
    let v = level_views(levels);
    assert(v[k] == crate::text::string_views(levels[k]@));
    lemma_first_is_only(t, p, x);
    if lv[p] == k {
        assert(v[k].contains(x));
        let kk = choose|kk: int| 0 <= kk < v[k].len() && v[k][kk] == x;
        assert(levels[k]@[kk]@ == x);
        assert(is_first_state_with_id(t, p, (levels[k]@[kk])@));
    }
    if names_task(t, levels[k]@, p) {
        let kk = choose|kk: int| 0 <= kk < levels[k]@.len() && is_first_state_with_id(t, p, (#[trigger] levels[k]@[kk])@);
        assert(v[k][kk] == levels[k]@[kk]@);
        assert(v[k].contains(x));
    }
}

/// Whether a task's dependencies have all succeeded depends only on the tasks of earlier
/// levels.
proof fn lemma_dependencies_kept(r: Seq<TaskState>, a: Seq<TaskState>, levels: Seq<Vec<String>>, lv: Seq<int>, p: int)
    requires
        ids_unique(r),
        same_definitions(r, a),
        levels_of_tasks(r, levels, lv),
        0 <= p < r.len(),
        forall|q: int| 0 <= q < r.len() && lv[q] < lv[p] ==> (#[trigger] a[q]).status == r[q].status,
    ensures
        dependencies_succeeded(r, r[p]) == dependencies_succeeded(a, a[p]),
{
    lemma_same_definitions_unique(r, a);
    assert(a[p].definition == r[p].definition);
    assert forall|m: int| 0 <= m < r[p].definition.depends_on@.len() implies dependency_succeeded(
        r,
        (#[trigger] r[p].definition.depends_on@[m])@,
    ) == dependency_succeeded(a, r[p].definition.depends_on@[m]@) by {
        let d = r[p].definition.depends_on@[m]@;
        assert(waits_for_earlier(r, lv, p, m));
        let q = choose|q: int|
            #![trigger lv[q]]
            0 <= q < r.len() && r[q].definition.id@ == r[p].definition.depends_on@[m]@ && lv[q] < lv[p];
        assert(a[q].definition == r[q].definition);
        lemma_dependency_at(r, q, d);
        lemma_dependency_at(a, q, d);
        assert(a[q].status == r[q].status);
    }
    if dependencies_succeeded(r, r[p]) {
        assert forall|m: int| 0 <= m < a[p].definition.depends_on@.len() implies dependency_succeeded(
            a,
            (#[trigger] a[p].definition.depends_on@[m])@,
        ) by {
            assert(dependency_succeeded(r, r[p].definition.depends_on@[m]@));
        }
    }
    if dependencies_succeeded(a, a[p]) {
        assert forall|m: int| 0 <= m < r[p].definition.depends_on@.len() implies dependency_succeeded(
            r,
            (#[trigger] r[p].definition.depends_on@[m])@,
        ) by {
            assert(dependency_succeeded(a, a[p].definition.depends_on@[m]@));
        }
    }
}

/// `after` is `mid` once every task that was running has been finished with the outcome
/// of its command, succeeded or failed; the other tasks stay as they were.
pub open spec fn running_tasks_finished(mid: Seq<TaskState>, after: Seq<TaskState>) -> bool {
    &&& after.len() == mid.len()
    &&& forall|p: int|
        0 <= p < mid.len() ==> if (#[trigger] mid[p]).status is Running {
            &&& after[p].status is Succeeded || after[p].status is Failed
            &&& finished_from(mid[p], after[p], after[p].status, after[p].output)
        } else {
            after[p] == mid[p]
        }
}

/// The run `t`, started from `t0`, after its first `k` levels: the definitions are those
/// of `t0`; the tasks of later levels are as in `t0`; every task of the first `k` levels
/// has ended, one that succeeded had started and found every task it waits for
/// succeeded, and one some of whose dependencies did not succeed was skipped and never
/// started.
pub open spec fn run_after_levels(t0: Seq<TaskState>, t: Seq<TaskState>, lv: Seq<int>, k: int) -> bool {
    &&& same_definitions(t0, t)
    &&& forall|p: int| 0 <= p < t.len() && lv[p] >= k ==> #[trigger] t[p] == t0[p]
    &&& forall|p: int|
        0 <= p < t.len() && lv[p] < k ==> {
            &&& (#[trigger] t[p]).status.spec_is_terminal()
            &&& t[p].status is Succeeded ==> t[p].started_at is Some && dependencies_succeeded(t, t[p])
            &&& !dependencies_succeeded(t, t[p]) ==> t[p].status is Skipped && t[p].started_at is None
        }
}

/// Running the tasks of level `k` (planning it, then finishing every task that started)
/// only changes the tasks of that level.
proof fn lemma_round_unchanged(
    t0: Seq<TaskState>,
    r: Seq<TaskState>,
    m: Seq<TaskState>,
    a: Seq<TaskState>,
    levels: Seq<Vec<String>>,
    lv: Seq<int>,
    k: int,
    p: int,
)
    requires
        ids_unique(t0),
        levels_of_tasks(t0, levels, lv),
        forall|q: int| 0 <= q < t0.len() ==> (#[trigger] t0[q]).status is Pending && t0[q].started_at is None,
        0 <= k < levels.len(),
        k <= usize::MAX,
        run_after_levels(t0, r, lv, k),
        level_planned(r, m, levels[k]@, k as usize),
        running_tasks_finished(m, a),
        0 <= p < r.len(),
        lv[p] != k,
    ensures
        a[p] == r[p],
{
    lemma_same_definitions_unique(t0, r);
    lemma_same_definitions_levels(t0, r, levels, lv);
    lemma_named_by_level(r, levels, lv, k, p);
    assert(m[p] == r[p]);
    if lv[p] < k {
        assert(r[p].status.spec_is_terminal());
    } else {
        assert(r[p] == t0[p]);
    }
    assert(!(m[p].status is Running));
}

proof fn lemma_round_at(
    t0: Seq<TaskState>,
    r: Seq<TaskState>,
    m: Seq<TaskState>,
    a: Seq<TaskState>,
    levels: Seq<Vec<String>>,
    lv: Seq<int>,
    k: int,
    p: int,
)
    requires
        ids_unique(t0),
        levels_of_tasks(t0, levels, lv),
        forall|q: int| 0 <= q < t0.len() ==> (#[trigger] t0[q]).status is Pending && t0[q].started_at is None,
        0 <= k < levels.len(),
        k <= usize::MAX,
        run_after_levels(t0, r, lv, k),
        level_planned(r, m, levels[k]@, k as usize),
        running_tasks_finished(m, a),
        forall|q: int| 0 <= q < r.len() && lv[q] != k ==> #[trigger] a[q] == r[q],
        same_definitions(r, a),
        0 <= p < r.len(),
        lv[p] <= k,
    ensures
        a[p].status.spec_is_terminal(),
        a[p].status is Succeeded ==> a[p].started_at is Some && dependencies_succeeded(a, a[p]),
        !dependencies_succeeded(a, a[p]) ==> a[p].status is Skipped && a[p].started_at is None,
{
    lemma_same_definitions_unique(t0, r);
    lemma_same_definitions_levels(t0, r, levels, lv);
    assert forall|q: int| 0 <= q < r.len() && lv[q] < lv[p] implies (#[trigger] a[q]).status == r[q].status by {
        assert(a[q] == r[q]);
    }
    lemma_dependencies_kept(r, a, levels, lv, p);
    if lv[p] < k {
        assert(a[p] == r[p]);
    } else {
        lemma_named_by_level(r, levels, lv, k, p);
        assert(r[p] == t0[p]);
        lemma_first_is_only(r, p, r[p].definition.id@);
        if dependencies_succeeded(r, r[p]) {
            assert(ready_to_run(r, r[p].definition.id@));
            assert(started_from(r[p], m[p], k as usize));
            assert(m[p].status is Running);
        } else {
            if ready_to_run(r, r[p].definition.id@) {
                let q = choose|q: int| is_first_state_with_id(r, q, r[p].definition.id@) && dependencies_succeeded(r, r[q]);
                assert(q == p);
            }
            assert(finished_from(r[p], m[p], crate::models::dag::TaskStatus::Skipped, None));
            assert(!(m[p].status is Running));
            assert(a[p] == m[p]);
        }
    }
}

proof fn lemma_round(
    t0: Seq<TaskState>,
    r: Seq<TaskState>,
    m: Seq<TaskState>,
    a: Seq<TaskState>,
    levels: Seq<Vec<String>>,
    lv: Seq<int>,
    k: int,
)
    requires
        ids_unique(t0),
        levels_of_tasks(t0, levels, lv),
        forall|q: int| 0 <= q < t0.len() ==> (#[trigger] t0[q]).status is Pending && t0[q].started_at is None,
        0 <= k < levels.len(),
        k <= usize::MAX,
        run_after_levels(t0, r, lv, k),
        level_planned(r, m, levels[k]@, k as usize),
        running_tasks_finished(m, a),
    ensures
        run_after_levels(t0, a, lv, k + 1),
{
    assert forall|q: int| 0 <= q < r.len() && lv[q] != k implies #[trigger] a[q] == r[q] by {
        lemma_round_unchanged(t0, r, m, a, levels, lv, k, q);
    }
    assert forall|q: int| 0 <= q < r.len() implies (#[trigger] r[q]).definition == a[q].definition by {
        if lv[q] != k {
            assert(a[q] == r[q]);
        } else {
            lemma_same_definitions_unique(t0, r);
            lemma_same_definitions_levels(t0, r, levels, lv);
            lemma_named_by_level(r, levels, lv, k, q);
            assert(m[q].definition == r[q].definition);
        }
    }
    assert(same_definitions(r, a));
    assert forall|q: int| 0 <= q < t0.len() implies (#[trigger] t0[q]).definition == a[q].definition by {
        assert(t0[q].definition == r[q].definition);
        assert(r[q].definition == a[q].definition);
    }
    assert forall|p: int| 0 <= p < a.len() && lv[p] >= k + 1 implies #[trigger] a[p] == t0[p] by {
        assert(a[p] == r[p]);
        assert(r[p] == t0[p]);
    }
    assert forall|p: int|
        0 <= p < a.len() && lv[p] < k + 1 implies {
            &&& (#[trigger] a[p]).status.spec_is_terminal()
            &&& a[p].status is Succeeded ==> a[p].started_at is Some && dependencies_succeeded(a, a[p])
            &&& !dependencies_succeeded(a, a[p]) ==> a[p].status is Skipped && a[p].started_at is None
        } by {
        lemma_round_at(t0, r, m, a, levels, lv, k, p);
    }
}

/// The run of an accepted submission starts with distinct ids, every task pending and
/// unstarted, and the plan's levels ordered as the tasks wait for each other.
proof fn lemma_submitted_run_levels(
    defs: Seq<TaskDefinition>,
    levels: Seq<Vec<String>>,
    t0: Seq<TaskState>,
) -> (lv: Seq<int>)
    requires
        !has_duplicate_id(defs),
        !has_missing_dependency(defs),
        is_plan_for(defs, levels),
        submitted_states(defs, level_views(levels), t0),
    ensures
        ids_unique(t0),
        levels_of_tasks(t0, levels, lv),
        forall|q: int| 0 <= q < t0.len() ==> (#[trigger] t0[q]).status is Pending && t0[q].started_at is None,
{
    crate::models::dag::lemma_distinct_state_ids(t0);
    let lv = Seq::new(
        t0.len(),
        |p: int| choose|l: int| 0 <= l < levels.len() && #[trigger] level_views(levels)[l].contains(t0[p].definition.id@),
    );
    assert forall|p: int| 0 <= p < t0.len() implies {
        &&& t0[p].status is Pending && t0[p].started_at is None
        &&& exists|j: int| 0 <= j < defs.len() && #[trigger] defs[j] == t0[p].definition
        &&& 0 <= lv[p] < levels.len()
        &&& forall|l: int| 0 <= l < levels.len() ==> (#[trigger] level_views(levels)[l].contains(t0[p].definition.id@) <==> lv[p] == l)
    } by {
        let j = choose|j: int|
            is_last_definition_with_id(defs, j, (#[trigger] t0[p]).definition.id@) && t0[p]
                == crate::routes::submit::with_level(
                crate::models::dag::fresh_task_state(defs[j]),
                crate::routes::submit::assigned_level(level_views(levels), t0[p].definition.id@, None),
            );
        assert(t0[p].definition == defs[j]);
        lemma_plan_places_each_task_once(defs, levels, j);
    }
    assert forall|p: int, m: int|
        0 <= p < t0.len() && 0 <= m < t0[p].definition.depends_on@.len() implies #[trigger] waits_for_earlier(t0, lv, p, m) by {
        let j = choose|j: int| 0 <= j < defs.len() && #[trigger] defs[j] == t0[p].definition;
        let d = t0[p].definition.depends_on@[m]@;
        assert(dep_ids(defs[j])[m] == d);
        assert(!crate::services::scheduler::is_missing_dependency(defs, j, m));
        assert(is_known_id(defs, d));
        let k = choose|k: int| 0 <= k < defs.len() && #[trigger] defs[k].id@ == d;
        assert(state_ids(t0).contains(d));
        let q = choose|q: int| 0 <= q < t0.len() && state_ids(t0)[q] == d;
        assert(t0[q].definition.id@ == d);
        assert(depends_on(defs, j, k));
        assert(level_views(levels)[lv[p]].contains(defs[j].id@));
        assert(level_views(levels)[lv[q]].contains(defs[k].id@));
        lemma_plan_orders_dependencies(defs, levels, j, k, lv[p], lv[q]);
        assert(lv[q] < lv[p]);
    }
    lv
}

proof fn lemma_rounds_prefix(
    t0: Seq<TaskState>,
    levels: Seq<Vec<String>>,
    lv: Seq<int>,
    rounds: Seq<Seq<TaskState>>,
    mids: Seq<Seq<TaskState>>,
    k: int,
)
    requires
        ids_unique(t0),
        levels_of_tasks(t0, levels, lv),
        forall|q: int| 0 <= q < t0.len() ==> (#[trigger] t0[q]).status is Pending && t0[q].started_at is None,
        rounds.len() == levels.len() + 1,
        mids.len() == levels.len(),
        levels.len() <= usize::MAX,
        rounds[0] == t0,
        forall|i: int|
            0 <= i < levels.len() ==> level_planned(rounds[i], #[trigger] mids[i], levels[i]@, i as usize)
                && running_tasks_finished(mids[i], rounds[i + 1]),
        0 <= k <= levels.len(),
    ensures
        run_after_levels(t0, rounds[k], lv, k),
    decreases k,
{
    if k > 0 {
        lemma_rounds_prefix(t0, levels, lv, rounds, mids, k - 1);
        assert(mids[k - 1] == mids[k - 1]);
        assert(level_planned(rounds[k - 1], mids[k - 1], levels[k - 1]@, (k - 1) as usize));
        lemma_round(t0, rounds[k - 1], mids[k - 1], rounds[k], levels, lv, k - 1);
    }
}

/// A complete run of an accepted submission ends in order. The run starts as the
/// submission made it, from tasks whose ids are distinct and whose dependencies are all
/// known, with the plan built from them; then each level in turn is planned (its ready
/// tasks start, the others are skipped) and every task that started is finished with
/// the outcome of its command. At the end every task has ended, so the run's settled
/// status is no longer running; every task that succeeded had started, and every task
/// it waits for succeeded; and every task waiting for a task that did not succeed was
/// skipped and never started. Along a chain of dependencies this holds at each link: a
/// failed or skipped task leaves every task that waits on it, directly or through
/// others, skipped.
pub proof fn lemma_complete_run(
    defs: Seq<TaskDefinition>,
    levels: Seq<Vec<String>>,
    rounds: Seq<Seq<TaskState>>,
    mids: Seq<Seq<TaskState>>,
)
    requires
        !has_duplicate_id(defs),
        !has_missing_dependency(defs),
        is_plan_for(defs, levels),
        levels.len() <= usize::MAX,
        rounds.len() == levels.len() + 1,
        mids.len() == levels.len(),
        submitted_states(defs, level_views(levels), rounds[0]),
        forall|k: int|
            0 <= k < levels.len() ==> level_planned(rounds[k], #[trigger] mids[k], levels[k]@, k as usize)
                && running_tasks_finished(mids[k], rounds[k + 1]),
    ensures
        rounds.last().len() == rounds[0].len(),
        all_terminal(rounds.last()),
        settled_status(rounds.last()) != DagStatus::Running,
        forall|p: int|
            0 <= p < rounds.last().len() && (#[trigger] rounds.last()[p]).status is Succeeded
                ==> rounds.last()[p].started_at is Some && dependencies_succeeded(rounds.last(), rounds.last()[p]),
        forall|p: int|
            0 <= p < rounds.last().len() && !dependencies_succeeded(rounds.last(), #[trigger] rounds.last()[p])
                ==> rounds.last()[p].status is Skipped && rounds.last()[p].started_at is None,
{
    let t0 = rounds[0];
    let lv = lemma_submitted_run_levels(defs, levels, t0);
    let n = levels.len() as int;
    lemma_rounds_prefix(t0, levels, lv, rounds, mids, n);
    let end = rounds[n];
    assert(end == rounds.last());
    assert forall|p: int| 0 <= p < end.len() implies {
        &&& (#[trigger] end[p]).status.spec_is_terminal()
        &&& end[p].status is Succeeded ==> end[p].started_at is Some && dependencies_succeeded(end, end[p])
        &&& !dependencies_succeeded(end, end[p]) ==> end[p].status is Skipped && end[p].started_at is None
    } by {
        assert(lv[p] < n);
    }
    crate::models::dag::lemma_settled_status_running_iff_unfinished(end);
}

/// The tasks `ps` are finished one after the other from `steps[0]`: step `i` finishes
/// the running task `ps[i]` with `statuses[i]` (succeeded or failed) and `outputs[i]`,
/// and no task is finished twice.
pub open spec fn finished_one_by_one(
    steps: Seq<Seq<TaskState>>,
    ps: Seq<int>,
    statuses: Seq<TaskStatus>,
    outputs: Seq<Option<String>>,
) -> bool {
    &&& steps.len() == ps.len() + 1
    &&& statuses.len() == ps.len()
    &&& outputs.len() == ps.len()
    &&& forall|i: int|
        0 <= i < ps.len() ==> task_finished(steps[i], steps[i + 1], ps[i], #[trigger] statuses[i], outputs[i])
            && (statuses[i] is Succeeded || statuses[i] is Failed)
    &&& forall|i: int, j: int| 0 <= i < j < ps.len() ==> #[trigger] ps[i] != #[trigger] ps[j]
}

#[verifier::rlimit(40)]
proof fn lemma_finished_prefix(
    steps: Seq<Seq<TaskState>>,
    ps: Seq<int>,
    statuses: Seq<TaskStatus>,
    outputs: Seq<Option<String>>,
    i: int,
)
    requires
        finished_one_by_one(steps, ps, statuses, outputs),
        0 <= i <= ps.len(),
    ensures
        steps[i].len() == steps[0].len(),
        forall|p: int| 0 <= p < steps[0].len() && !ps.take(i).contains(p) ==> #[trigger] steps[i][p] == steps[0][p],
        forall|j: int|
            0 <= j < i ==> 0 <= #[trigger] ps[j] < steps[0].len() && steps[0][ps[j]].status is Running && (steps[i][ps[j]].status is Succeeded
                || steps[i][ps[j]].status is Failed) && finished_from(
                steps[0][ps[j]],
                steps[i][ps[j]],
                steps[i][ps[j]].status,
                steps[i][ps[j]].output,
            ),
    decreases i,
{
    if i > 0 {
        let k = i - 1;
        lemma_finished_prefix(steps, ps, statuses, outputs, k);
        assert(statuses[k] == statuses[k]);
        assert(task_finished(steps[k], steps[k + 1], ps[k], statuses[k], outputs[k]));
        assert(ps.take(i) =~= ps.take(k).push(ps[k]));
        assert(!ps.take(k).contains(ps[k])) by {
            if ps.take(k).contains(ps[k]) {
                let j = choose|j: int| 0 <= j < k && ps.take(k)[j] == ps[k];
                assert(ps[j] != ps[k]);
            }
        }
        assert(steps[k][ps[k]] == steps[0][ps[k]]);
        assert forall|p: int| 0 <= p < steps[0].len() && !ps.take(i).contains(p) implies #[trigger] steps[i][p] == steps[0][p] by {
            assert(ps.take(i)[k] == ps[k]);
            assert(p != ps[k]);
            assert forall|j: int| 0 <= j < k implies ps.take(k)[j] != p by {
                assert(ps.take(k)[j] == ps.take(i)[j]);
            }
            assert(!ps.take(k).contains(p));
            assert(steps[k][p] == steps[0][p]);
        }
        assert forall|j: int| 0 <= j < i implies 0 <= #[trigger] ps[j] < steps[0].len() && steps[0][ps[j]].status is Running && (steps[i][ps[j]].status is Succeeded
                || steps[i][ps[j]].status is Failed) && finished_from(
                steps[0][ps[j]],
                steps[i][ps[j]],
                steps[i][ps[j]].status,
                steps[i][ps[j]].output,
            ) by {
            if j < k {
                assert(ps[j] != ps[k]);
                assert(steps[i][ps[j]] == steps[k][ps[j]]);
            }
        }
    }
}

/// Finishing every running task one by one, each with the outcome of its command, gives
/// what `running_tasks_finished` describes.
pub proof fn lemma_finishing_one_by_one(
    steps: Seq<Seq<TaskState>>,
    ps: Seq<int>,
    statuses: Seq<TaskStatus>,
    outputs: Seq<Option<String>>,
)
    requires
        finished_one_by_one(steps, ps, statuses, outputs),
        forall|p: int| 0 <= p < steps[0].len() && (#[trigger] steps[0][p]).status is Running ==> ps.contains(p),
    ensures
        running_tasks_finished(steps[0], steps.last()),
{
    let n = ps.len() as int;
    lemma_finished_prefix(steps, ps, statuses, outputs, n);
    assert(ps.take(n) =~= ps);
    assert(steps.last() == steps[n]);
    assert forall|p: int| 0 <= p < steps[0].len() implies if (#[trigger] steps[0][p]).status is Running {
        &&& steps.last()[p].status is Succeeded || steps.last()[p].status is Failed
        &&& finished_from(steps[0][p], steps.last()[p], steps.last()[p].status, steps.last()[p].output)
    } else {
        steps.last()[p] == steps[0][p]
    } by {
        if ps.contains(p) {
            let j = choose|j: int| 0 <= j < n && ps[j] == p;
            assert(steps[0][ps[j]].status is Running);
        } else {
            assert(steps[n][p] == steps[0][p]);
        }
    }
}

} // verus!
