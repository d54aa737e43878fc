pub mod clock;
pub mod graph;
pub mod ids;
pub mod scheduler;
pub mod executor;
pub mod run;
pub mod whole_run;
