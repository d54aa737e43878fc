pub mod delete;
pub mod list;
pub mod submit;
