//! Virtual memory: addresses, physical frames, Sv39 page tables and address spaces.

pub mod address;
pub mod elf;
pub mod frame_allocator;
pub mod kernel_space;
pub mod memory;
pub mod memory_set;
pub mod page_table;
pub mod program;
