//! A todo list kept as lines of text: one record per line, an id, a colon and
//! the task's text.

pub mod collection;
pub mod command;
pub mod decimal;
pub mod record;
pub mod round_trip;
pub mod text;
