use crate::models::dag::{DagStatus, TaskStatus};
use vstd::prelude::*;
use vstd::string::*;

verus! {

/// What happens during a run, as told to the clients that follow it.
#[derive(Debug, Clone)]
pub enum DagEvent {
    DagStarted { dag_id: String, total_tasls: usize, execution_plan: Vec<Vec<String>> },
    TaskStarted { dag_id: String, task_id: String, level: usize, timestamp: i64 },
    TaskCompleted {
        dag_id: String,
        task_id: String,
        status: TaskStatus,
        duration_ms: u64,
        output: Option<String>,
        timestamp: i64,
    },
    LevelCompleted { dag_id: String, level: usize, tasks_in_level: Vec<String>, timestamp: i64 },
    DagCompleted { dag_id: String, status: DagStatus, total_duration_ms: u64, timestamp: i64 },
    Error { dag_id: String, message: String, timestamp: i64 },
}

/// The name under which an event is sent.
pub open spec fn event_name_of(e: DagEvent) -> Seq<char> {
    match e {
        DagEvent::DagStarted { .. } => "dag_started"@,
        DagEvent::TaskStarted { .. } => "task_started"@,
        DagEvent::TaskCompleted { .. } => "task_completed"@,
        DagEvent::LevelCompleted { .. } => "level_completed"@,
        DagEvent::DagCompleted { .. } => "dag_completed"@,
        DagEvent::Error { .. } => "error"@,
    }
}

impl DagEvent {
    /// The name under which the event is sent.
    pub fn event_name(&self) -> (r: String)
        ensures
            r@ == event_name_of(*self),
    {
        match self {
            DagEvent::DagStarted { .. } => String::from_str("dag_started"),
            DagEvent::TaskStarted { .. } => String::from_str("task_started"),
            DagEvent::TaskCompleted { .. } => String::from_str("task_completed"),
            DagEvent::LevelCompleted { .. } => String::from_str("level_completed"),
            DagEvent::DagCompleted { .. } => String::from_str("dag_completed"),
            DagEvent::Error { .. } => String::from_str("error"),
        }
    }

    /// The server-sent-events frame of the event, given its JSON text `data`.
    pub fn to_see_event(&self, data: &str) -> (r: String)
        ensures
            r@ == "event: "@ + event_name_of(*self) + "\ndata: "@ + data@ + "\n\n"@,
    {
        let name = self.event_name();
        let mut r = String::from_str("event: ");
        r.append(name.as_str());
        r.append("\ndata: ");
        r.append(data);
        r.append("\n\n");
        r
    }
}

} // verus!
