//! Core of a small preemptive multitasking supervisor kernel for RV64 with
//! Sv39 paging: physical frames, page tables, address spaces, tasks, the
//! ready queue and the trap and system-call paths, modelled over plain values
//! and proved against their contracts.

use vstd::prelude::*;

pub mod boot;
pub mod config;
pub mod kernel;
pub mod loader;
pub mod mm;
pub mod syscall;
pub mod task;
pub mod timer;
pub mod trap;
pub mod user;

