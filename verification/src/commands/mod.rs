//! The rules behind the commands: what each command computes from the texts
//! and records that its caller has read.

pub mod compose;
pub mod index;
pub mod init;
pub mod issue;
pub mod read;
pub mod roadmap;
pub mod search;
