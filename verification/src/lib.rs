//! A small teaching kernel: bit tricks, clocks, locks, files, tasks and system calls.

pub mod bits;
pub mod capability;
pub mod circbuf;
pub mod codec;
pub mod cpu;
pub mod elf;
pub mod fs;
pub mod kernel;
pub mod laws;
pub mod limits;
pub mod memory;
pub mod net;
pub mod ordered;
pub mod proc;
pub mod registry;
pub mod scan;
pub mod schedule;
pub mod sequences;
pub mod sync;
pub mod terminal;
pub mod text;
pub mod time;
pub mod word;
