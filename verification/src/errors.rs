use crate::services::scheduler::{scheduler_error_text, SchedulerError};
use vstd::prelude::*;
use vstd::string::*;

verus! {

/// The errors that a request can end in.
#[derive(Debug)]
pub enum AppError {
    DagNotFound(String),
    ValidationError(String),
    SchedulerError(String),
    InternalError(String),
}

impl AppError {
    /// The HTTP status code that answers the error.
    pub fn status_code(&self) -> (r: u16)
        ensures
            r == match self {
                AppError::DagNotFound(_) => 404u16,
                AppError::ValidationError(_) => 502u16,
                AppError::SchedulerError(_) => 400u16,
                AppError::InternalError(_) => 500u16,
            },
    {
        match self {
            AppError::DagNotFound(_) => 404,
            AppError::ValidationError(_) => 502,
            AppError::SchedulerError(_) => 400,
            AppError::InternalError(_) => 500,
        }
    }

    /// The text of the error that the answer carries.
    pub fn message(&self) -> (r: String)
        ensures
            r@ == match self {
                AppError::DagNotFound(id) => "Dag '"@ + id@ + "' not found"@,
                AppError::ValidationError(msg) => msg@,
                AppError::SchedulerError(msg) => msg@,
                AppError::InternalError(msg) => msg@,
            },
    {
        match self {
            AppError::DagNotFound(id) => {
                let mut r = String::from_str("Dag '");
                r.append(id.as_str());
                r.append("' not found");
                r
            },
            AppError::ValidationError(msg) => msg.clone(),
            AppError::SchedulerError(msg) => msg.clone(),
            AppError::InternalError(msg) => msg.clone(),
        }
    }

    /// A scheduling error becomes a scheduler error that carries its description.
    pub fn from_scheduler_error(err: &SchedulerError) -> (r: AppError)
        ensures
            r matches AppError::SchedulerError(msg) && msg@ == scheduler_error_text(*err),
    {
        AppError::SchedulerError(err.message())
    }
}

} // verus!
