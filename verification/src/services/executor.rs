use crate::services::clock::elapsed_ms;
use crate::models::dag::{is_first_state_with_id, state_ids, Dag, TaskDefinition, TaskState, TaskStatus};
use vstd::prelude::*;
use vstd::string::*;
use vstd::utf8::encode_utf8;

verus! {

/// The first task with id `d` has succeeded.
pub open spec fn dependency_succeeded(tasks: Seq<TaskState>, d: Seq<char>) -> bool {
    exists|p: int| is_first_state_with_id(tasks, p, d) && tasks[p].status is Succeeded
}

/// Every task that `t` waits for has succeeded.
pub open spec fn dependencies_succeeded(tasks: Seq<TaskState>, t: TaskState) -> bool {
    forall|m: int|
        0 <= m < t.definition.depends_on@.len() ==> dependency_succeeded(
            tasks,
            (#[trigger] t.definition.depends_on@[m])@,
        )
}

/// The task with id `id` exists and every task it waits for has succeeded.
pub open spec fn ready_to_run(tasks: Seq<TaskState>, id: Seq<char>) -> bool {
    exists|p: int| is_first_state_with_id(tasks, p, id) && dependencies_succeeded(tasks, tasks[p])
}

/// For each task of a level, whether it may run: it must be in the run and every task
/// it waits for must have succeeded. Without a run no task may run.
pub fn check_dependencies(dag: Option<&Dag>, level_tasks: &Vec<String>) -> (r: Vec<bool>)
    ensures
        r@.len() == level_tasks@.len(),
        forall|k: int|
            0 <= k < r@.len() ==> #[trigger] r@[k] == (dag is Some && ready_to_run(
                dag->0.tasks@,
                level_tasks@[k]@,
            )),
{
    let n = level_tasks.len();
    let mut satisfied: Vec<bool> = Vec::new();
    let dag = match dag {
        Some(d) => d,
        None => {
            for k in 0..n
                invariant
                    satisfied@.len() == k,
                    forall|j: int| 0 <= j < k ==> !satisfied@[j],
            {
                satisfied.push(false);
            }
            return satisfied;
        },
    };
    let ghost ts = dag.tasks@;
    for k in 0..n
        invariant
            n == level_tasks@.len(),
            dag.tasks@ == ts,
            satisfied@.len() == k,
            forall|j: int| 0 <= j < k ==> #[trigger] satisfied@[j] == ready_to_run(ts, level_tasks@[j]@),
    {
        let found_task = dag.get_task(level_tasks[k].as_str());
        match found_task {
            None => {
                proof {
                    let x = level_tasks@[k as int]@;
                    if ready_to_run(ts, x) {
                        let q = choose|q: int| is_first_state_with_id(ts, q, x) && dependencies_succeeded(ts, ts[q]);
                        assert(state_ids(ts)[q] == x);
                    }
                }
                satisfied.push(false);
            },
            Some(task) => {
                let deps = &task.definition.depends_on;
                let deps_len = deps.len();
                let mut all_deps_succeeded = true;
                for m in 0..deps_len
                    invariant
                        deps_len == deps@.len(),
                        *deps == task.definition.depends_on,
                        dag.tasks@ == ts,
                        all_deps_succeeded == forall|m2: int|
                            0 <= m2 < m ==> dependency_succeeded(ts, (#[trigger] deps@[m2])@),
                {
                    let found = dag.get_task(deps[m].as_str());
                    let ok = match found {
                        Some(dep) => dep.status.is_successful(),
                        None => false,
                    };
                    proof {
                        let x = deps@[m as int]@;
                        lemma_first_state_unique(ts, x);
                        match found {
                            Some(dep) => {
                                let p = choose|p: int| is_first_state_with_id(ts, p, x) && *dep == ts[p];
                                if ok {
                                    assert(is_first_state_with_id(ts, p, x) && ts[p].status is Succeeded);
                                }
                            },
                            None => {
                                if dependency_succeeded(ts, x) {
                                    let q = choose|q: int| is_first_state_with_id(ts, q, x) && ts[q].status is Succeeded;
                                    assert(state_ids(ts)[q] == x);
                                }
                            },
                        }
                        assert(ok == dependency_succeeded(ts, x));
                    }
                    all_deps_succeeded = all_deps_succeeded && ok;
                }
                proof {
                    let x = level_tasks@[k as int]@;
                    assert(dependencies_succeeded(ts, *task) == all_deps_succeeded);
                    lemma_first_state_unique(ts, x);
                    let p = choose|p: int| is_first_state_with_id(ts, p, x) && *task == ts[p];
                    if all_deps_succeeded {
                        assert(is_first_state_with_id(ts, p, x) && dependencies_succeeded(ts, ts[p]));
                    }
                }
                satisfied.push(all_deps_succeeded);
            },
        }
    }
    satisfied
}

/// `new` is `old` finished with the given outcome: status and output replaced, the finish
/// time set, and, when it had started, its duration measured from its start.
pub open spec fn finished_from(old: TaskState, new: TaskState, status: TaskStatus, output: Option<String>) -> bool {
    &&& new.status == status
    &&& new.output == output
    &&& new.finished_at is Some
    &&& new.duration_ms == match old.started_at {
        Some(started) => Some(elapsed_ms(started, new.finished_at->0)),
        None => old.duration_ms,
    }
    &&& new.definition == old.definition
    &&& new.started_at == old.started_at
    &&& new.level == old.level
}

/// `new` is `old` running since some time, at the given level.
pub open spec fn started_from(old: TaskState, new: TaskState, level: usize) -> bool {
    &&& new.status is Running
    &&& new.started_at is Some
    &&& new.level == Some(level)
    &&& new.definition == old.definition
    &&& new.finished_at == old.finished_at
    &&& new.duration_ms == old.duration_ms
    &&& new.output == old.output
}

/// The run is unchanged but for the task at position `p`.
pub open spec fn only_task_changed(old: Dag, new: Dag, p: int) -> bool {
    &&& new.tasks@.len() == old.tasks@.len()
    &&& forall|q: int| 0 <= q < old.tasks@.len() && q != p ==> #[trigger] new.tasks@[q] == old.tasks@[q]
    &&& new.id == old.id
    &&& new.name == old.name
    &&& new.status == old.status
    &&& new.created_at == old.created_at
    &&& new.finished_at == old.finished_at
    &&& new.execution_levels == old.execution_levels
}

/// Records the outcome of the task with the given id, finished at the current time,
/// and gives its duration in milliseconds (0 when it has none or is not in the run).
pub fn record_task_outcome(dag: &mut Dag, task_id: &str, status: TaskStatus, output: Option<String>) -> (r: u64)
    ensures
        !state_ids(old(dag).tasks@).contains(task_id@) ==> *final(dag) == *old(dag) && r == 0,
        forall|p: int|
            is_first_state_with_id(old(dag).tasks@, p, task_id@) ==> only_task_changed(
                *old(dag),
                *final(dag),
                p,
            ) && finished_from(old(dag).tasks@[p], final(dag).tasks@[p], status, output) && r
                == match final(dag).tasks@[p].duration_ms {
                Some(d) => d,
                None => 0,
            },
{
    let ghost old_dag = *dag;
    let ghost st = status;
    let ghost out = output;
    proof {
        lemma_first_state_unique(old_dag.tasks@, task_id@);
    }
    let r = match dag.get_task_mut(task_id) {
        Some(task) => {
            proof {
                let p = choose|p: int| is_first_state_with_id(old_dag.tasks@, p, task_id@) && *task == old_dag.tasks@[p];
                assert(state_ids(old_dag.tasks@)[p] == task_id@);
            }
            task.complete(status, output);
            match task.duration_ms {
                Some(d) => d,
                None => 0,
            }
        },
        None => {
            proof {
                assert forall|p: int| !is_first_state_with_id(old_dag.tasks@, p, task_id@) by {
                    if is_first_state_with_id(old_dag.tasks@, p, task_id@) {
                        assert(state_ids(old_dag.tasks@)[p] == task_id@);
                    }
                }
            }
            0
        },
    };
    proof {
        if state_ids(old_dag.tasks@).contains(task_id@) {
            let q = choose|q: int| 0 <= q < old_dag.tasks@.len() && state_ids(old_dag.tasks@)[q] == task_id@;
            assert(old_dag.tasks@[q].definition.id@ == task_id@);
            assert(exists|p: int| is_first_state_with_id(old_dag.tasks@, p, task_id@)) by {
                lemma_some_first_state(old_dag.tasks@, task_id@, q);
            }
            let p = choose|p: int| is_first_state_with_id(old_dag.tasks@, p, task_id@);
            assert(only_task_changed(old_dag, *dag, p));
            assert(finished_from(old_dag.tasks@[p], dag.tasks@[p], st, out));
        }
    }
    r
}

/// Marks the task with the given id running since the current time, at the given
/// level.
pub fn mark_task_started(dag: &mut Dag, task_id: &str, level: usize)
    ensures
        !state_ids(old(dag).tasks@).contains(task_id@) ==> *final(dag) == *old(dag),
        forall|p: int|
            is_first_state_with_id(old(dag).tasks@, p, task_id@) ==> only_task_changed(
                *old(dag),
                *final(dag),
                p,
            ) && started_from(old(dag).tasks@[p], final(dag).tasks@[p], level),
{
    let ghost old_dag = *dag;
    proof {
        lemma_first_state_unique(old_dag.tasks@, task_id@);
    }
    match dag.get_task_mut(task_id) {
        Some(task) => {
            proof {
                let p = choose|p: int| is_first_state_with_id(old_dag.tasks@, p, task_id@) && *task == old_dag.tasks@[p];
                assert(state_ids(old_dag.tasks@)[p] == task_id@);
            }
            task.start();
            task.level = Some(level);
        },
        None => {
            proof {
                assert forall|p: int| !is_first_state_with_id(old_dag.tasks@, p, task_id@) by {
                    if is_first_state_with_id(old_dag.tasks@, p, task_id@) {
                        assert(state_ids(old_dag.tasks@)[p] == task_id@);
                    }
                }
            }
        },
    }
    proof {
        if state_ids(old_dag.tasks@).contains(task_id@) {
            let q = choose|q: int| 0 <= q < old_dag.tasks@.len() && state_ids(old_dag.tasks@)[q] == task_id@;
            assert(old_dag.tasks@[q].definition.id@ == task_id@);
            lemma_some_first_state(old_dag.tasks@, task_id@, q);
            let p = choose|p: int| is_first_state_with_id(old_dag.tasks@, p, task_id@);
            assert(only_task_changed(old_dag, *dag, p));
            assert(started_from(old_dag.tasks@[p], dag.tasks@[p], level));
        }
    }
}

/// When some task has id `x`, one of them is the first.
pub(crate) proof fn lemma_some_first_state(tasks: Seq<TaskState>, x: Seq<char>, q: int)
    requires
        0 <= q < tasks.len(),
        tasks[q].definition.id@ == x,
    ensures
        exists|p: int| is_first_state_with_id(tasks, p, x),
    decreases q,
{
    if exists|q2: int| 0 <= q2 < q && tasks[q2].definition.id@ == x {
        let q2 = choose|q2: int| 0 <= q2 < q && tasks[q2].definition.id@ == x;
        lemma_some_first_state(tasks, x, q2);
    } else {
        assert(is_first_state_with_id(tasks, q, x));
    }
}

/// At most one position holds the first state with a given id.
pub(crate) proof fn lemma_first_state_unique(tasks: Seq<TaskState>, x: Seq<char>)
    ensures
        forall|p: int, q: int|
            is_first_state_with_id(tasks, p, x) && is_first_state_with_id(tasks, q, x) ==> p == q,
{
}

/// The number of UTF-8 bytes of a text.
pub open spec fn utf8_len(s: Seq<char>) -> nat {
    encode_utf8(s).len()
}

/// How long a task's command takes, in milliseconds.
pub open spec fn planned_delay_ms(def: TaskDefinition) -> u64 {
    let c = def.command@;
    if c == "send_email"@ {
        500
    } else if c == "build"@ {
        2000
    } else if c == "test"@ {
        1000
    } else if c == "deploy"@ {
        1500
    } else if c == "fail"@ {
        300
    } else if c == "shell"@ {
        800
    } else {
        ((utf8_len(def.id@) * 100) % 2000 + 500) as u64
    }
}

/// What a task's command gives: its output, or the error it fails with.
pub open spec fn planned_result(def: TaskDefinition) -> Result<Seq<char>, Seq<char>> {
    let c = def.command@;
    if c == "send_email"@ {
        Ok("Email sent successfully"@)
    } else if c == "build"@ {
        Ok("Build completed"@)
    } else if c == "test"@ {
        Ok("All tests passed"@)
    } else if c == "deploy"@ {
        Ok("Deployed to production"@)
    } else if c == "fail"@ {
        Err("Intentional failure for testing"@)
    } else if c == "shell"@ {
        Ok("Shell command executed"@)
    } else {
        Ok("Executed '"@ + c + "' successfully"@)
    }
}

/// Only the command `fail` fails. Every command other than the six known ones
/// (`send_email`, `build`, `test`, `deploy`, `fail`, `shell`) succeeds with
/// "Executed '<command>' successfully", after 500 ms plus a hundred per UTF-8 byte of
/// the task's id, modulo 2000.
pub proof fn lemma_only_fail_fails(def: TaskDefinition)
    ensures
        planned_result(def) is Err <==> def.command@ == "fail"@,
        planned_result(def) is Err ==> planned_result(def) == Err::<Seq<char>, Seq<char>>(
            "Intentional failure for testing"@,
        ),
        def.command@ != "send_email"@ && def.command@ != "build"@ && def.command@ != "test"@
            && def.command@ != "deploy"@ && def.command@ != "fail"@ && def.command@ != "shell"@
            ==> planned_result(def) == Ok::<Seq<char>, Seq<char>>("Executed '"@ + def.command@ + "' successfully"@)
            && planned_delay_ms(def) == ((utf8_len(def.id@) * 100) % 2000 + 500) as u64,
{
    reveal_strlit("send_email");
    reveal_strlit("build");
    reveal_strlit("test");
    reveal_strlit("deploy");
    reveal_strlit("fail");
    reveal_strlit("shell");
    assert("fail"@.len() != "send_email"@.len());
    assert("fail"@.len() != "build"@.len());
    assert("fail"@[0] != "test"@[0]);
    assert("fail"@.len() != "deploy"@.len());
}

/// The six known commands: `send_email` sends in 500 ms, `build` builds in 2000 ms,
/// `test` passes in 1000 ms, `deploy` deploys in 1500 ms, `fail` fails in 300 ms and
/// `shell` runs in 800 ms, each with its own message.
pub proof fn lemma_known_commands(def: TaskDefinition)
    ensures
        def.command@ == "send_email"@ ==> planned_delay_ms(def) == 500 && planned_result(def) == Ok::<
            Seq<char>,
            Seq<char>,
        >("Email sent successfully"@),
        def.command@ == "build"@ ==> planned_delay_ms(def) == 2000 && planned_result(def) == Ok::<
            Seq<char>,
            Seq<char>,
        >("Build completed"@),
        def.command@ == "test"@ ==> planned_delay_ms(def) == 1000 && planned_result(def) == Ok::<
            Seq<char>,
            Seq<char>,
        >("All tests passed"@),
        def.command@ == "deploy"@ ==> planned_delay_ms(def) == 1500 && planned_result(def) == Ok::<
            Seq<char>,
            Seq<char>,
        >("Deployed to production"@),
        def.command@ == "fail"@ ==> planned_delay_ms(def) == 300 && planned_result(def) == Err::<
            Seq<char>,
            Seq<char>,
        >("Intentional failure for testing"@),
        def.command@ == "shell"@ ==> planned_delay_ms(def) == 800 && planned_result(def) == Ok::<
            Seq<char>,
            Seq<char>,
        >("Shell command executed"@),
{
    reveal_strlit("send_email");
    reveal_strlit("build");
    reveal_strlit("test");
    reveal_strlit("deploy");
    reveal_strlit("fail");
    reveal_strlit("shell");
    assert("fail"@.len() != "send_email"@.len());
    assert("fail"@.len() != "build"@.len());
    assert("fail"@[0] != "test"@[0]);
    assert("fail"@.len() != "deploy"@.len());
    assert("shell"@.len() != "send_email"@.len());
    assert("shell"@[0] != "build"@[0]);
    assert("shell"@.len() != "test"@.len());
    assert("shell"@.len() != "deploy"@.len());
    assert("shell"@.len() != "fail"@.len());
    assert("deploy"@.len() != "send_email"@.len());
    assert("deploy"@.len() != "build"@.len());
    assert("deploy"@.len() != "test"@.len());
    assert("test"@.len() != "send_email"@.len());
    assert("test"@.len() != "build"@.len());
    assert("build"@.len() != "send_email"@.len());
}

/// What running a task's command amounts to: the time it takes, in milliseconds, and
/// its outcome.
pub fn task_outcome(task: &TaskDefinition) -> (r: (u64, Result<String, String>))
    requires
        utf8_len(task.id@) * 100 <= usize::MAX,
    ensures
        r.0 == planned_delay_ms(*task),
        match (r.1, planned_result(*task)) {
            (Ok(out), Ok(expected)) => out@ == expected,
            (Err(err), Err(expected)) => err@ == expected,
            _ => false,
        },
        r.1 is Err <==> task.command@ == "fail"@,
        task.command@ != "send_email"@ && task.command@ != "build"@ && task.command@ != "test"@
            && task.command@ != "deploy"@ && task.command@ != "fail"@ && task.command@ != "shell"@
            ==> (r.1 matches Ok(out) && out@ == "Executed '"@ + task.command@ + "' successfully"@)
            && r.0 == ((utf8_len(task.id@) * 100) % 2000 + 500) as u64,
{
    proof {
        lemma_only_fail_fails(*task);
    }
    let c = &task.command;
    if *c == String::from_str("send_email") {
        (500, Ok(String::from_str("Email sent successfully")))
    } else if *c == String::from_str("build") {
        (2000, Ok(String::from_str("Build completed")))
    } else if *c == String::from_str("test") {
        (1000, Ok(String::from_str("All tests passed")))
    } else if *c == String::from_str("deploy") {
        (1500, Ok(String::from_str("Deployed to production")))
    } else if *c == String::from_str("fail") {
        (300, Err(String::from_str("Intentional failure for testing")))
    } else if *c == String::from_str("shell") {
        (800, Ok(String::from_str("Shell command executed")))
    } else {
        let delay = (task.id.as_str().len() * 100) % 2000 + 500;
        let mut out = String::from_str("Executed '");
        out.append(c.as_str());
        out.append("' successfully");
        (delay as u64, Ok(out))
    }
}

/// The status and output that a task's outcome gives it: success keeps the output; a
/// failure carries the error as both.
pub fn outcome_status(result: Result<String, String>) -> (r: (TaskStatus, Option<String>))
    ensures
        match result {
            Ok(out) => r.0 is Succeeded && r.1 == Some(out),
            Err(err) => r.0 matches TaskStatus::Failed { error } && error@ == err@ && r.1 == Some(
                err,
            ),
        },
{
    match result {
        Ok(out) => (TaskStatus::Succeeded, Some(out)),
        Err(err) => (TaskStatus::Failed { error: err.clone() }, Some(err)),
    }
}

/// The number of task ids over all levels.
pub open spec fn plan_size(levels: Seq<Vec<String>>) -> nat
    decreases levels.len(),
{
    if levels.len() == 0 {
        0
    } else {
        plan_size(levels.drop_last()) + levels.last()@.len()
    }
}

/// The number of task ids over all levels of a plan.
pub fn total_task_count(levels: &Vec<Vec<String>>) -> (r: usize)
    requires
        plan_size(levels@) <= usize::MAX,
    ensures
        r == plan_size(levels@),
{
    let n = levels.len();
    let mut total: usize = 0;
    for i in 0..n
        invariant
            n == levels@.len(),
            plan_size(levels@) <= usize::MAX,
            total == plan_size(levels@.take(i as int)),
    {
        proof {
            assert(levels@.take(i + 1).drop_last() =~= levels@.take(i as int));
            lemma_plan_size_prefix(levels@, i + 1);
        }
        total = total + levels[i].len();
    }
    assert(levels@.take(n as int) =~= levels@);
    total
}

proof fn lemma_plan_size_prefix(levels: Seq<Vec<String>>, i: int)
    requires
        0 <= i <= levels.len(),
    ensures
        plan_size(levels.take(i)) <= plan_size(levels),
    decreases levels.len() - i,
{
    if i < levels.len() {
        assert(levels.take(i + 1).drop_last() =~= levels.take(i));
        lemma_plan_size_prefix(levels, i + 1);
    } else {
        assert(levels.take(i) =~= levels);
    }
}

/// A task may not run once a task it waits for has failed or been skipped, nor when a
/// task it waits for is missing from the run.
pub proof fn lemma_blocked_by_unsuccessful_dependency(tasks: Seq<TaskState>, id: Seq<char>, p: int, m: int)
    requires
        is_first_state_with_id(tasks, p, id),
        0 <= m < tasks[p].definition.depends_on@.len(),
        !dependency_succeeded(tasks, tasks[p].definition.depends_on@[m]@),
    ensures
        !ready_to_run(tasks, id),
{
    lemma_first_state_unique(tasks, id);
}

/// A task that waits for nothing may run as soon as it is in the run.
pub proof fn lemma_independent_task_ready(tasks: Seq<TaskState>, id: Seq<char>, p: int)
    requires
        is_first_state_with_id(tasks, p, id),
        tasks[p].definition.depends_on@.len() == 0,
    ensures
        ready_to_run(tasks, id),
{
}

} // verus!
