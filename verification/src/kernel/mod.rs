//! The kernel: its state, its services and its system calls.

pub mod call_laws;
pub mod guard;
pub mod laws;
pub mod memory_laws;
pub mod process_laws;
pub mod service;
pub mod signal_laws;
pub mod state;
pub mod sys_event;
pub mod sys_file;
pub mod sys_mem;
pub mod sys_proc;
pub mod syscall;
pub mod wait_laws;
