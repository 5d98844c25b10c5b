//! Core of a small multi-core x86-64 kernel: physical memory tracked as
//! coalesced free intervals, a four-level page-table manager, per-processor
//! local state behind a FIFO ticket lock, descriptor-table construction, and
//! round-robin task scheduling decisions.
//!
//! Everything hardware-facing (privileged instructions, register access,
//! serial output) lives outside this crate; the modules here hold the logic
//! and its proofs.

pub mod core_locals;
pub mod interrupts;
pub mod kmain;
pub mod mm;
pub mod paging;
pub mod rangeset;
pub mod sync;
pub mod task;
