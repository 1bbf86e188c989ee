//! Files, pipes, epoll sets, mounts, the disk and its cache.

pub mod cache;
pub mod disk;
pub mod epoll;
pub mod file;
pub mod filelike;
pub mod ioqueue;
pub mod laws;
pub mod mount;
pub mod pipe;
pub mod pseudo;
pub mod store;
