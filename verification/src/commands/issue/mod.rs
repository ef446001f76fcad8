//! The rules behind the issue tracker's commands.

pub mod list;
pub mod mentions;
pub mod new;
pub mod ready;
pub mod tree;
pub mod update;
