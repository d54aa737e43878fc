pub mod dag;
pub mod events;
