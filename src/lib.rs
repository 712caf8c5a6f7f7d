//! Process- and memory-management core of a small RISC-V teaching kernel:
//! paged address spaces, stride scheduling, task lifecycle, trap dispatch,
//! signal delivery, mailboxes and descriptor-backed synchronization.
pub mod config;
pub mod efd;
pub mod frame;
pub mod kernel;
pub mod mail;
pub mod manager;
pub mod memory_set;
pub mod page_table;
pub mod sigdeliver;
pub mod signal;
pub mod task;
pub mod trap;
pub mod usermem;
pub mod word;
