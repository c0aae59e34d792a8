//! A model of a single-core SV39 kernel: physical frame allocation,
//! three-level page tables, per-task address spaces, the FIFO scheduler and
//! the trap dispatch rules, each stated and proved over plain values.
pub mod config;
pub mod address;
pub mod frame_allocator;
pub mod page_table;
pub mod memory_set;
pub mod task;
pub mod processor;
pub mod syscall;
pub mod trap;
