pub mod json;
pub mod task;
pub mod todo;
