use crate::services::clock::{elapsed_ms, elapsed_ms_between, now, Timestamp};
use vstd::prelude::*;
use vstd::string::*;

verus! {

/// Where a single task stands in its run.
#[derive(Debug, Clone, PartialEq, Eq)]
pub enum TaskStatus {
    Pending,
    Running,
    Succeeded,
    Failed { error: String },
    Skipped,
}

impl TaskStatus {
    /// A task is terminal once it has succeeded, failed or been skipped.
    pub open spec fn spec_is_terminal(&self) -> bool {
        self is Succeeded || self is Failed || self is Skipped
    }

    pub fn is_terminal(&self) -> (r: bool)
        ensures
            r == self.spec_is_terminal(),
    {
        match self {
            TaskStatus::Succeeded | TaskStatus::Failed { .. } | TaskStatus::Skipped => true,
            _ => false,
        }
    }

    pub fn is_successful(&self) -> (r: bool)
        ensures
            r == (self is Succeeded),
    {
        match self {
            TaskStatus::Succeeded => true,
            _ => false,
        }
    }
}

/// What a task is: its id, the ids of the tasks it waits for, the command it runs,
/// and its parameters, each with its JSON value in textual form.
#[derive(Debug, Clone, Default)]
pub struct TaskDefinition {
    pub id: String,
    pub depends_on: Vec<String>,
    pub command: String,
    pub params: Vec<(String, String)>,
}

/// Where a whole run stands.
#[derive(Debug, Clone, Copy, PartialEq, Eq, Structural)]
pub enum DagStatus {
    Pending,
    Running,
    Succeeded,
    Failed,
    PartialFail,
}

/// A task in a run: its definition, where it stands, and when it started and finished.
#[derive(Debug, Clone)]
pub struct TaskState {
    pub definition: TaskDefinition,
    pub status: TaskStatus,
    pub started_at: Option<Timestamp>,
    pub finished_at: Option<Timestamp>,
    pub duration_ms: Option<u64>,
    pub output: Option<String>,
    pub level: Option<usize>,
}

/// The state of a task that has not started.
pub open spec fn fresh_task_state(definition: TaskDefinition) -> TaskState {
    TaskState {
        definition,
        status: TaskStatus::Pending,
        started_at: None,
        finished_at: None,
        duration_ms: None,
        output: None,
        level: None,
    }
}

impl TaskState {
    pub fn new(definition: TaskDefinition) -> (r: Self)
        ensures
            r == fresh_task_state(definition),
    {
        TaskState {
            definition,
            status: TaskStatus::Pending,
            started_at: None,
            finished_at: None,
            duration_ms: None,
            output: None,
            level: None,
        }
    }

    /// Marks the task running since `now`.
    pub fn start_at(&mut self, now: Timestamp)
        ensures
            final(self).status is Running,
            final(self).started_at == Some(now),
            final(self).definition == old(self).definition,
            final(self).finished_at == old(self).finished_at,
            final(self).duration_ms == old(self).duration_ms,
            final(self).output == old(self).output,
            final(self).level == old(self).level,
    {
        self.status = TaskStatus::Running;
        self.started_at = Some(now);
    }

    /// Marks the task running since the current time.
    pub fn start(&mut self)
        ensures
            final(self).status is Running,
            final(self).started_at is Some,
            final(self).definition == old(self).definition,
            final(self).finished_at == old(self).finished_at,
            final(self).duration_ms == old(self).duration_ms,
            final(self).output == old(self).output,
            final(self).level == old(self).level,
    {
        let now = now();
        self.start_at(now);
    }

    /// Records the outcome of the task, finished at `now`; a task that had started
    /// gets the time from its start.
    pub fn complete_at(&mut self, status: TaskStatus, output: Option<String>, now: Timestamp)
        ensures
            final(self).status == status,
            final(self).output == output,
            final(self).finished_at == Some(now),
            final(self).duration_ms == match old(self).started_at {
                Some(started) => Some(elapsed_ms(started, now)),
                None => old(self).duration_ms,
            },
            final(self).definition == old(self).definition,
            final(self).started_at == old(self).started_at,
            final(self).level == old(self).level,
    {
        self.finished_at = Some(now);
        self.status = status;
        self.output = output;
        if let Some(started) = self.started_at {
            self.duration_ms = Some(elapsed_ms_between(started, now));
        }
    }

    /// Records the outcome of the task, finished at the current time.
    pub fn complete(&mut self, status: TaskStatus, output: Option<String>)
        ensures
            final(self).status == status,
            final(self).output == output,
            final(self).finished_at is Some,
            old(self).started_at is Some ==> final(self).duration_ms == Some(
                elapsed_ms(old(self).started_at->0, final(self).finished_at->0),
            ),
            old(self).started_at is None ==> final(self).duration_ms == old(self).duration_ms,
            final(self).definition == old(self).definition,
            final(self).started_at == old(self).started_at,
            final(self).level == old(self).level,
    {
        let now = now();
        self.complete_at(status, output, now);
    }
}

/// A run: its tasks, one per id, and where the run as a whole stands.
#[derive(Debug, Clone)]
pub struct Dag {
    pub id: String,
    pub name: Option<String>,
    pub status: DagStatus,
    pub tasks: Vec<TaskState>,
    pub created_at: Timestamp,
    pub finished_at: Option<Timestamp>,
    pub execution_levels: Vec<Vec<String>>,
}

/// The ids of a sequence of task states.
pub open spec fn state_ids(tasks: Seq<TaskState>) -> Seq<Seq<char>> {
    tasks.map_values(|t: TaskState| t.definition.id@)
}

/// No two task states share an id.
pub open spec fn ids_unique(tasks: Seq<TaskState>) -> bool {
    forall|p: int, q: int|
        0 <= p < tasks.len() && 0 <= q < tasks.len() && p != q ==> (#[trigger] tasks[p]).definition.id@
            != (#[trigger] tasks[q]).definition.id@
}

/// Task states whose ids, listed, hold no repeat have distinct ids.
pub proof fn lemma_distinct_state_ids(tasks: Seq<TaskState>)
    requires
        state_ids(tasks).no_duplicates(),
    ensures
        ids_unique(tasks),
{
    assert forall|p: int, q: int|
        0 <= p < tasks.len() && 0 <= q < tasks.len() && p != q implies (#[trigger] tasks[p]).definition.id@
            != (#[trigger] tasks[q]).definition.id@ by {
        assert(state_ids(tasks)[p] == tasks[p].definition.id@);
        assert(state_ids(tasks)[q] == tasks[q].definition.id@);
    }
}

/// Runs whose listed ids agree are both well formed or both not.
pub proof fn lemma_same_ids_same_uniqueness(a: Seq<TaskState>, b: Seq<TaskState>)
    requires
        state_ids(a) == state_ids(b),
    ensures
        ids_unique(a) == ids_unique(b),
{
    assert(a.len() == state_ids(a).len());
    assert(b.len() == state_ids(b).len());
    assert forall|p: int| 0 <= p < a.len() implies #[trigger] a[p].definition.id@ == b[p].definition.id@ by {
        assert(state_ids(a)[p] == a[p].definition.id@);
        assert(state_ids(b)[p] == b[p].definition.id@);
    }
    if ids_unique(a) {
        assert forall|p: int, q: int|
            0 <= p < b.len() && 0 <= q < b.len() && p != q implies (#[trigger] b[p]).definition.id@
                != (#[trigger] b[q]).definition.id@ by {
            assert(a[p].definition.id@ == b[p].definition.id@);
            assert(a[q].definition.id@ == b[q].definition.id@);
        }
    }
    if ids_unique(b) {
        assert forall|p: int, q: int|
            0 <= p < a.len() && 0 <= q < a.len() && p != q implies (#[trigger] a[p]).definition.id@
                != (#[trigger] a[q]).definition.id@ by {
            assert(a[p].definition.id@ == b[p].definition.id@);
            assert(a[q].definition.id@ == b[q].definition.id@);
        }
    }
}

/// Position `p` holds the first task state with id `x`.
pub open spec fn is_first_state_with_id(tasks: Seq<TaskState>, p: int, x: Seq<char>) -> bool {
    &&& 0 <= p < tasks.len()
    &&& tasks[p].definition.id@ == x
    &&& forall|q: int| 0 <= q < p ==> tasks[q].definition.id@ != x
}

/// Definition `j` is the last one with id `x`.
pub open spec fn is_last_definition_with_id(defs: Seq<TaskDefinition>, j: int, x: Seq<char>) -> bool {
    &&& 0 <= j < defs.len()
    &&& defs[j].id@ == x
    &&& forall|j2: int| j < j2 < defs.len() ==> defs[j2].id@ != x
}

/// `states` holds one fresh state per id of `defs`, made from the last definition with
/// that id.
pub open spec fn states_for(defs: Seq<TaskDefinition>, states: Seq<TaskState>) -> bool {
    &&& state_ids(states).no_duplicates()
    &&& forall|x: Seq<char>|
        #[trigger] state_ids(states).contains(x) <==> exists|j: int|
            0 <= j < defs.len() && #[trigger] defs[j].id@ == x
    &&& forall|p: int|
        0 <= p < states.len() ==> exists|j: int|
            is_last_definition_with_id(defs, j, (#[trigger] states[p]).definition.id@)
                && states[p] == fresh_task_state(defs[j])
}

/// Every task has reached an end.
pub open spec fn all_terminal(tasks: Seq<TaskState>) -> bool {
    forall|i: int| 0 <= i < tasks.len() ==> (#[trigger] tasks[i]).status.spec_is_terminal()
}

pub open spec fn all_succeeded(tasks: Seq<TaskState>) -> bool {
    forall|i: int| 0 <= i < tasks.len() ==> (#[trigger] tasks[i]).status is Succeeded
}

pub open spec fn any_succeeded(tasks: Seq<TaskState>) -> bool {
    exists|i: int| 0 <= i < tasks.len() && (#[trigger] tasks[i]).status is Succeeded
}

pub open spec fn any_failed(tasks: Seq<TaskState>) -> bool {
    exists|i: int| 0 <= i < tasks.len() && (#[trigger] tasks[i]).status is Failed
}

pub open spec fn any_skipped(tasks: Seq<TaskState>) -> bool {
    exists|i: int| 0 <= i < tasks.len() && (#[trigger] tasks[i]).status is Skipped
}

/// The status of a run with these tasks: running while a task has not reached an end;
/// then succeeded when all succeeded, partly failed when some succeeded, failed when
/// none did.
pub open spec fn settled_status(tasks: Seq<TaskState>) -> DagStatus {
    if !all_terminal(tasks) {
        DagStatus::Running
    } else if all_succeeded(tasks) {
        DagStatus::Succeeded
    } else if any_succeeded(tasks) {
        DagStatus::PartialFail
    } else {
        DagStatus::Failed
    }
}

/// The position of the first task state with the given id, if there is one.
pub(crate) fn find_state_index(tasks: &Vec<TaskState>, task_id: &str) -> (r: Option<usize>)
    ensures
        match r {
            Some(p) => is_first_state_with_id(tasks@, p as int, task_id@),
            None => !state_ids(tasks@).contains(task_id@),
        },
{
    let n = tasks.len();
    let wanted = String::from_str(task_id);
    for p in 0..n
        invariant
            n == tasks@.len(),
            wanted@ == task_id@,
            forall|q: int| 0 <= q < p ==> tasks@[q].definition.id@ != task_id@,
    {
        if tasks[p].definition.id == wanted {
            return Some(p);
        }
    }
    proof {
        if state_ids(tasks@).contains(task_id@) {
            let q = choose|q: int| 0 <= q < n && state_ids(tasks@)[q] == task_id@;
            assert(tasks@[q].definition.id@ == task_id@);
        }
    }
    None
}

impl Dag {
    /// A run is well formed when no two of its tasks share an id, as the keys of a map
    /// would have it.
    pub open spec fn wf(&self) -> bool {
        ids_unique(self.tasks@)
    }

    /// A pending run created at `now`, with one fresh state per task id; where ids
    /// repeat, the last definition counts.
    pub fn new_at(id: String, name: Option<String>, tasks: Vec<TaskDefinition>, now: Timestamp) -> (r: Self)
        ensures
            r.id == id,
            r.name == name,
            r.status == DagStatus::Pending,
            states_for(tasks@, r.tasks@),
            r.wf(),
            r.created_at == now,
            r.finished_at is None,
            r.execution_levels@.len() == 0,
    {
        let ghost defs = tasks@;
        let mut remaining = tasks;
        let mut states: Vec<TaskState> = Vec::new();
        while remaining.len() > 0
            invariant
                remaining@.len() <= defs.len(),
                remaining@ == defs.take(remaining@.len() as int),
                state_ids(states@).no_duplicates(),
                forall|x: Seq<char>|
                    #[trigger] state_ids(states@).contains(x) <==> exists|j: int|
                        remaining@.len() <= j < defs.len() && #[trigger] defs[j].id@ == x,
                forall|p: int|
                    0 <= p < states@.len() ==> exists|j: int|
                        is_last_definition_with_id(defs, j, (#[trigger] states@[p]).definition.id@)
                            && states@[p] == fresh_task_state(defs[j]),
            decreases remaining@.len(),
        {
            let ghost r = remaining@.len() - 1;
            let def = remaining.pop().unwrap();
            assert(remaining@ =~= defs.take(r));
            assert(def == defs[r]);
            let found = find_state_index(&states, def.id.as_str());
            if found.is_none() {
                let ghost old_states = states@;
                proof {
                    assert forall|j2: int| r < j2 < defs.len() implies defs[j2].id@ != def.id@ by {
                        if defs[j2].id@ == def.id@ {
                            assert(state_ids(old_states).contains(def.id@));
                        }
                    }
                }
                states.push(TaskState::new(def));
                proof {
                    let ns = states@;
                    assert(state_ids(ns) =~= state_ids(old_states).push(defs[r].id@));
                    assert forall|x: Seq<char>|
                        #[trigger] state_ids(ns).contains(x) <==> exists|j: int|
                            r <= j < defs.len() && #[trigger] defs[j].id@ == x by {
                        if state_ids(ns).contains(x) && x != defs[r].id@ {
                            let q = choose|q: int| 0 <= q < ns.len() && state_ids(ns)[q] == x;
                            assert(state_ids(old_states)[q] == x);
                            assert(state_ids(old_states).contains(x));
                        }
                        if exists|j: int| r <= j < defs.len() && #[trigger] defs[j].id@ == x {
                            if x == defs[r].id@ {
                                assert(state_ids(ns)[old_states.len() as int] == x);
                            } else {
                                let j = choose|j: int| r <= j < defs.len() && #[trigger] defs[j].id@ == x;
                                assert(j > r);
                                assert(state_ids(old_states).contains(x));
                                let q = choose|q: int| 0 <= q < old_states.len() && state_ids(old_states)[q] == x;
                                assert(state_ids(ns)[q] == x);
                            }
                        }
                    }
                    assert forall|p: int|
                        0 <= p < ns.len() implies exists|j: int|
                            is_last_definition_with_id(defs, j, (#[trigger] ns[p]).definition.id@)
                                && ns[p] == fresh_task_state(defs[j]) by {
                        if p < old_states.len() {
                            assert(ns[p] == old_states[p]);
                        } else {
                            assert(is_last_definition_with_id(defs, r, ns[p].definition.id@));
                        }
                    }
                }
            } else {
                proof {
                    let p = found->0 as int;
                    assert(state_ids(states@)[p] == def.id@);
                    assert(state_ids(states@).contains(def.id@));
                    assert forall|x: Seq<char>|
                        #[trigger] state_ids(states@).contains(x) <==> exists|j: int|
                            r <= j < defs.len() && #[trigger] defs[j].id@ == x by {
                        if state_ids(states@).contains(x) {
                            let j = choose|j: int| r + 1 <= j < defs.len() && #[trigger] defs[j].id@ == x;
                            assert(r <= j);
                        }
                    }
                }
            }
        }
        proof {
            lemma_distinct_state_ids(states@);
        }
        Dag {
            id,
            name,
            status: DagStatus::Pending,
            tasks: states,
            created_at: now,
            finished_at: None,
            execution_levels: Vec::new(),
        }
    }

    /// A pending run created at the current time.
    pub fn new(id: String, name: Option<String>, tasks: Vec<TaskDefinition>) -> (r: Self)
        ensures
            r.id == id,
            r.name == name,
            r.status == DagStatus::Pending,
            states_for(tasks@, r.tasks@),
            r.wf(),
            r.finished_at is None,
            r.execution_levels@.len() == 0,
    {
        let now = now();
        Dag::new_at(id, name, tasks, now)
    }

    /// Settles the status of the run from its tasks; once every task has reached an
    /// end the run is finished at `now`.
    pub fn update_status_at(&mut self, now: Timestamp)
        ensures
            final(self).status == settled_status(old(self).tasks@),
            final(self).finished_at == if all_terminal(old(self).tasks@) {
                Some(now)
            } else {
                old(self).finished_at
            },
            final(self).id == old(self).id,
            final(self).name == old(self).name,
            final(self).tasks == old(self).tasks,
            final(self).created_at == old(self).created_at,
            final(self).execution_levels == old(self).execution_levels,
    {
        let ghost ts = self.tasks@;
        let n = self.tasks.len();
        let mut all_terminal_so_far = true;
        let mut has_failed = false;
        let mut has_skipped = false;
        let mut all_succeeded_so_far = true;
        let mut has_succeeded = false;
        for i in 0..n
            invariant
                n == ts.len(),
                self.tasks@ == ts,
                all_terminal_so_far == all_terminal(ts.take(i as int)),
                all_succeeded_so_far == all_succeeded(ts.take(i as int)),
                has_failed == any_failed(ts.take(i as int)),
                has_skipped == any_skipped(ts.take(i as int)),
                has_succeeded == any_succeeded(ts.take(i as int)),
        {
            let status = &self.tasks[i].status;
            let ghost prev = ts.take(i as int);
            let ghost next = ts.take(i + 1);
            assert(next =~= prev.push(ts[i as int]));
            if !status.is_terminal() {
                all_terminal_so_far = false;
            }
            if !status.is_successful() {
                all_succeeded_so_far = false;
            }
            match status {
                TaskStatus::Failed { .. } => {
                    has_failed = true;
                },
                TaskStatus::Skipped => {
                    has_skipped = true;
                },
                TaskStatus::Succeeded => {
                    has_succeeded = true;
                },
                _ => {},
            }
            proof {
                assert(next[i as int] == ts[i as int]);
                assert(all_terminal_so_far == all_terminal(next)) by {
                    if all_terminal_so_far {
                        assert forall|j: int| 0 <= j < next.len() implies (#[trigger] next[j]).status.spec_is_terminal() by {
                            if j < i {
                                assert(next[j] == prev[j]);
                            }
                        }
                    }
                }
                assert(all_succeeded_so_far == all_succeeded(next)) by {
                    if all_succeeded_so_far {
                        assert forall|j: int| 0 <= j < next.len() implies (#[trigger] next[j]).status is Succeeded by {
                            if j < i {
                                assert(next[j] == prev[j]);
                            }
                        }
                    }
                }
                assert(has_failed == any_failed(next)) by {
                    if any_failed(next) {
                        let j = choose|j: int| 0 <= j < next.len() && (#[trigger] next[j]).status is Failed;
                        if j < i {
                            assert(prev[j] == next[j]);
                        }
                    }
                    if any_failed(prev) {
                        let j = choose|j: int| 0 <= j < prev.len() && (#[trigger] prev[j]).status is Failed;
                        assert(prev[j] == next[j]);
                    }
                }
                assert(has_skipped == any_skipped(next)) by {
                    if any_skipped(next) {
                        let j = choose|j: int| 0 <= j < next.len() && (#[trigger] next[j]).status is Skipped;
                        if j < i {
                            assert(prev[j] == next[j]);
                        }
                    }
                    if any_skipped(prev) {
                        let j = choose|j: int| 0 <= j < prev.len() && (#[trigger] prev[j]).status is Skipped;
                        assert(prev[j] == next[j]);
                    }
                }
                assert(has_succeeded == any_succeeded(next)) by {
                    if any_succeeded(next) {
                        let j = choose|j: int| 0 <= j < next.len() && (#[trigger] next[j]).status is Succeeded;
                        if j < i {
                            assert(prev[j] == next[j]);
                        }
                    }
                    if any_succeeded(prev) {
                        let j = choose|j: int| 0 <= j < prev.len() && (#[trigger] prev[j]).status is Succeeded;
                        assert(prev[j] == next[j]);
                    }
                }
            }
        }
        assert(ts.take(n as int) =~= ts);
        if !all_terminal_so_far {
            self.status = DagStatus::Running;
            return;
        }
        if all_succeeded_so_far {
            self.status = DagStatus::Succeeded;
        } else if has_failed || has_skipped {
            if has_succeeded {
                self.status = DagStatus::PartialFail;
            } else {
                self.status = DagStatus::Failed;
            }
        } else {
            proof {
                let j = choose|j: int| 0 <= j < ts.len() && !((#[trigger] ts[j]).status is Succeeded);
                assert(ts[j].status.spec_is_terminal());
                assert(ts[j].status is Failed || ts[j].status is Skipped);
            }
        }
        self.finished_at = Some(now);
    }

    /// Settles the status of the run from its tasks, finishing it at the current time
    /// once every task has reached an end.
    pub fn update_status(&mut self)
        ensures
            final(self).status == settled_status(old(self).tasks@),
            all_terminal(old(self).tasks@) ==> final(self).finished_at is Some,
            !all_terminal(old(self).tasks@) ==> final(self).finished_at == old(self).finished_at,
            final(self).id == old(self).id,
            final(self).name == old(self).name,
            final(self).tasks == old(self).tasks,
            final(self).created_at == old(self).created_at,
            final(self).execution_levels == old(self).execution_levels,
    {
        let now = now();
        self.update_status_at(now);
    }

    /// The state of the task with the given id.
    pub fn get_task(&self, task_id: &str) -> (r: Option<&TaskState>)
        ensures
            match r {
                Some(t) => exists|p: int|
                    is_first_state_with_id(self.tasks@, p, task_id@) && *t == self.tasks@[p],
                None => !state_ids(self.tasks@).contains(task_id@),
            },
    {
        match find_state_index(&self.tasks, task_id) {
            Some(p) => Some(&self.tasks[p]),
            None => None,
        }
    }

    /// The state of the task with the given id, to change in place.
    pub fn get_task_mut(&mut self, task_id: &str) -> (r: Option<&mut TaskState>)
        ensures
            match r {
                Some(t) => exists|p: int|
                    is_first_state_with_id(old(self).tasks@, p, task_id@) && *t == old(
                        self,
                    ).tasks@[p] && final(self).tasks@ == old(self).tasks@.update(p, *final(t)),
                None => !state_ids(old(self).tasks@).contains(task_id@) && *final(self) == *old(
                    self,
                ),
            },
            final(self).id == old(self).id,
            final(self).name == old(self).name,
            final(self).status == old(self).status,
            final(self).created_at == old(self).created_at,
            final(self).finished_at == old(self).finished_at,
            final(self).execution_levels == old(self).execution_levels,
    {
        match find_state_index(&self.tasks, task_id) {
            Some(p) => Some(&mut self.tasks[p]),
            None => None,
        }
    }
}

/// What a client submits: an optional name and the tasks of the run.
#[derive(Debug, Clone)]
pub struct SubmitDagRequest {
    pub name: Option<String>,
    pub tasks: Vec<TaskDefinition>,
}

/// The answer to an accepted submission.
#[derive(Debug, Clone)]
pub struct SubmitDagResponse {
    pub dag_id: String,
    pub status: DagStatus,
    pub task_count: usize,
    pub execution_levels: Vec<Vec<String>>,
    pub message: String,
}

/// How many tasks of a run stand where.
#[derive(Debug, Clone, Copy, PartialEq, Eq, Structural)]
pub struct ProgressInfo {
    pub total: usize,
    pub pending: usize,
    pub running: usize,
    pub succeeded: usize,
    pub failed: usize,
    pub skipped: usize,
}

/// The answer to a status request: the run and its progress.
#[derive(Debug, Clone)]
pub struct DagStatusResponse {
    pub dag: Dag,
    pub progress: ProgressInfo,
}

/// Task states of the same kind: 0 pending, 1 running, 2 succeeded, 3 failed,
/// 4 skipped.
pub open spec fn status_kind(s: TaskStatus) -> int {
    match s {
        TaskStatus::Pending => 0,
        TaskStatus::Running => 1,
        TaskStatus::Succeeded => 2,
        TaskStatus::Failed { .. } => 3,
        TaskStatus::Skipped => 4,
    }
}

/// The number of tasks whose status is of the given kind.
pub open spec fn count_kind(tasks: Seq<TaskState>, kind: int) -> nat
    decreases tasks.len(),
{
    if tasks.len() == 0 {
        0
    } else {
        count_kind(tasks.drop_last(), kind) + if status_kind(tasks.last().status) == kind {
            1nat
        } else {
            0nat
        }
    }
}

/// The number of tasks whose status satisfies `pred`.
pub open spec fn count_where(tasks: Seq<TaskState>, pred: spec_fn(TaskStatus) -> bool) -> nat
    decreases tasks.len(),
{
    if tasks.len() == 0 {
        0
    } else {
        count_where(tasks.drop_last(), pred) + if pred(tasks.last().status) {
            1nat
        } else {
            0nat
        }
    }
}

/// Each count by kind is the number of tasks with that status: pending, running,
/// succeeded, failed (whatever the error) and skipped.
pub proof fn lemma_counts_by_status(tasks: Seq<TaskState>)
    ensures
        count_kind(tasks, 0) == count_where(tasks, |s: TaskStatus| s is Pending),
        count_kind(tasks, 1) == count_where(tasks, |s: TaskStatus| s is Running),
        count_kind(tasks, 2) == count_where(tasks, |s: TaskStatus| s is Succeeded),
        count_kind(tasks, 3) == count_where(tasks, |s: TaskStatus| s is Failed),
        count_kind(tasks, 4) == count_where(tasks, |s: TaskStatus| s is Skipped),
    decreases tasks.len(),
{
    if tasks.len() > 0 {
        lemma_counts_by_status(tasks.drop_last());
    }
}

/// The five counts of a sequence of tasks add up to its length.
pub proof fn lemma_counts_add_up(tasks: Seq<TaskState>)
    ensures
        count_kind(tasks, 0) + count_kind(tasks, 1) + count_kind(tasks, 2) + count_kind(tasks, 3)
            + count_kind(tasks, 4) == tasks.len(),
    decreases tasks.len(),
{
    if tasks.len() > 0 {
        lemma_counts_add_up(tasks.drop_last());
    }
}

impl ProgressInfo {
    /// Counts the tasks of a run by status.
    pub fn from_dag(dag: &Dag) -> (r: Self)
        ensures
            r.total == dag.tasks@.len(),
            r.pending == count_kind(dag.tasks@, 0),
            r.running == count_kind(dag.tasks@, 1),
            r.succeeded == count_kind(dag.tasks@, 2),
            r.failed == count_kind(dag.tasks@, 3),
            r.skipped == count_kind(dag.tasks@, 4),
            r.pending == count_where(dag.tasks@, |s: TaskStatus| s is Pending),
            r.running == count_where(dag.tasks@, |s: TaskStatus| s is Running),
            r.succeeded == count_where(dag.tasks@, |s: TaskStatus| s is Succeeded),
            r.failed == count_where(dag.tasks@, |s: TaskStatus| s is Failed),
            r.skipped == count_where(dag.tasks@, |s: TaskStatus| s is Skipped),
    {
        let ghost ts = dag.tasks@;
        let total = dag.tasks.len();
        let mut pending: usize = 0;
        let mut running: usize = 0;
        let mut succeeded: usize = 0;
        let mut failed: usize = 0;
        let mut skipped: usize = 0;
        for i in 0..total
            invariant
                total == ts.len(),
                dag.tasks@ == ts,
                pending == count_kind(ts.take(i as int), 0),
                running == count_kind(ts.take(i as int), 1),
                succeeded == count_kind(ts.take(i as int), 2),
                failed == count_kind(ts.take(i as int), 3),
                skipped == count_kind(ts.take(i as int), 4),
                pending + running + succeeded + failed + skipped == i,
        {
            proof {
                assert(ts.take(i + 1).drop_last() =~= ts.take(i as int));
                lemma_counts_add_up(ts.take(i as int));
            }
            match &dag.tasks[i].status {
                TaskStatus::Pending => pending += 1,
                TaskStatus::Running => running += 1,
                TaskStatus::Succeeded => succeeded += 1,
                TaskStatus::Failed { .. } => failed += 1,
                TaskStatus::Skipped => skipped += 1,
            }
        }
        assert(ts.take(total as int) =~= ts);
        proof {
            lemma_counts_by_status(ts);
        }
        ProgressInfo { total, pending, running, succeeded, failed, skipped }
    }
}

impl DagStatusResponse {
    /// The answer for a run: the run itself and its counts.
    pub fn for_dag(dag: Dag) -> (r: Self)
        ensures
            r.dag == dag,
            r.progress.total == dag.tasks@.len(),
            r.progress.pending == count_kind(dag.tasks@, 0),
            r.progress.running == count_kind(dag.tasks@, 1),
            r.progress.succeeded == count_kind(dag.tasks@, 2),
            r.progress.failed == count_kind(dag.tasks@, 3),
            r.progress.skipped == count_kind(dag.tasks@, 4),
            r.progress.pending == count_where(dag.tasks@, |s: TaskStatus| s is Pending),
            r.progress.running == count_where(dag.tasks@, |s: TaskStatus| s is Running),
            r.progress.succeeded == count_where(dag.tasks@, |s: TaskStatus| s is Succeeded),
            r.progress.failed == count_where(dag.tasks@, |s: TaskStatus| s is Failed),
            r.progress.skipped == count_where(dag.tasks@, |s: TaskStatus| s is Skipped),
    {
        let progress = ProgressInfo::from_dag(&dag);
        DagStatusResponse { dag, progress }
    }
}

/// A settled run is never pending, and it is running exactly while some task has not
/// reached an end.
pub proof fn lemma_settled_status_running_iff_unfinished(tasks: Seq<TaskState>)
    ensures
        settled_status(tasks) != DagStatus::Pending,
        settled_status(tasks) == DagStatus::Running <==> !all_terminal(tasks),
{
}

/// A settled run has succeeded exactly when every task has succeeded.
pub proof fn lemma_settled_status_succeeded_iff_all_succeeded(tasks: Seq<TaskState>)
    ensures
        settled_status(tasks) == DagStatus::Succeeded <==> all_succeeded(tasks),
{
    if all_succeeded(tasks) {
        assert forall|i: int| 0 <= i < tasks.len() implies (#[trigger] tasks[i]).status.spec_is_terminal() by {
            assert(tasks[i].status is Succeeded);
        }
    }
}

/// Once every task has reached an end, the run has partly failed when some but not all
/// tasks succeeded, and failed when none did; either way some task failed or was
/// skipped.
pub proof fn lemma_settled_status_failures(tasks: Seq<TaskState>)
    requires
        all_terminal(tasks),
    ensures
        settled_status(tasks) == DagStatus::PartialFail <==> (any_succeeded(tasks) && !all_succeeded(
            tasks,
        )),
        settled_status(tasks) == DagStatus::Failed <==> (!any_succeeded(tasks) && tasks.len() > 0),
        (settled_status(tasks) == DagStatus::PartialFail || settled_status(tasks) == DagStatus::Failed)
            ==> (any_failed(tasks) || any_skipped(tasks)),
{
    if !all_succeeded(tasks) {
        let j = choose|j: int| 0 <= j < tasks.len() && !((#[trigger] tasks[j]).status is Succeeded);
        assert(tasks[j].status.spec_is_terminal());
    }
    if !any_succeeded(tasks) && tasks.len() > 0 {
        assert(!(tasks[0].status is Succeeded));
    }
}

/// The counts of a run's progress add up to its number of tasks.
pub proof fn lemma_progress_adds_up(dag: Dag, p: ProgressInfo)
    requires
        p.total == dag.tasks@.len(),
        p.pending == count_kind(dag.tasks@, 0),
        p.running == count_kind(dag.tasks@, 1),
        p.succeeded == count_kind(dag.tasks@, 2),
        p.failed == count_kind(dag.tasks@, 3),
        p.skipped == count_kind(dag.tasks@, 4),
    ensures
        p.pending + p.running + p.succeeded + p.failed + p.skipped == p.total,
{
    lemma_counts_add_up(dag.tasks@);
}

/// Every task of a new run is pending and has neither started nor finished.
pub proof fn lemma_new_run_all_pending(defs: Seq<TaskDefinition>, states: Seq<TaskState>, p: int)
    requires
        states_for(defs, states),
        0 <= p < states.len(),
    ensures
        states[p].status is Pending,
        states[p].started_at is None,
        states[p].finished_at is None,
        states[p].duration_ms is None,
        states[p].output is None,
        states[p].level is None,
{
    let j = choose|j: int|
        is_last_definition_with_id(defs, j, (#[trigger] states[p]).definition.id@) && states[p]
            == fresh_task_state(defs[j]);
}

} // verus!
