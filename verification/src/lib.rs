//! Core of a teaching operating-system kernel: stride scheduling, process
//! lifecycle (fork / exec / spawn / waitpid / exit), on-demand virtual-memory
//! regions, and blocking synchronization primitives with an opt-in
//! resource-allocation safety check on every acquisition.
//!
//! The machine-facing collaborators (trap entry, page tables, the program
//! loader, the timer interrupt and the raw context switch) stay outside this
//! crate; the kernel state they act on is held here as plain values, so every
//! decision the kernel makes is stated in a contract and proved.

pub mod kernel;
pub mod mem;
pub mod process;
pub mod sched;
pub mod sync;
pub mod task;
