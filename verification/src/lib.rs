//! A minimal to-do list manager: an in-memory list of pending and finished
//! tasks, together with a line-oriented on-disk encoding and the command set
//! that mutates the list.
//!
//! The backing file format is line-oriented: one task per line, a one-character
//! status marker (`0` pending, `1` finished) followed by the task's name and,
//! after an optional tab, its description.

pub mod error;
pub mod text;
pub mod task;
pub mod list;
pub mod entries;
pub mod codec;
pub mod command;
pub mod store;

pub use command::Command;
pub use error::TodoError;
pub use task::Task;
pub use list::List;
pub use store::Todo;
