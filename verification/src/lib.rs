//! A runner for directed acyclic graphs of tasks: the scheduling, state and
//! event logic, each function with the contract it meets.
pub mod errors;
pub mod models;
pub mod routes;
pub mod text;
pub mod services;
