//! A personal task list: tasks with a name, a due date and a completion flag,
//! kept in one store that assigns identifiers and holds the tasks in their
//! display order.

pub mod dates;
pub mod platform;
pub mod task;
pub mod order;
pub mod db;
pub mod laws;
pub mod cli;
