//! Processes.

pub mod fdtable;
pub mod group;
pub mod init;
pub mod laws;
pub mod stack;
pub mod table;
pub mod task;
