use vstd::prelude::*;
use vstd::string::*;

verus! {

/// The answer to a deletion.
#[derive(Debug, Clone)]
pub struct DeleteDagResponse {
    pub message: String,
}

impl DeleteDagResponse {
    /// The answer once the run `dag_id` is deleted.
    pub fn for_deleted(dag_id: &str) -> (r: Self)
        ensures
            r.message@ == "DAG '"@ + dag_id@ + "' deleted successfully"@,
    {
        let mut message = String::from_str("DAG '");
        message.append(dag_id);
        message.append("' deleted successfully");
        DeleteDagResponse { message }
    }
}

} // verus!
