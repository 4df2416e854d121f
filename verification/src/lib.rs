//! Memory-management core of a small Sv39 kernel: heap allocators, physical
//! frames, page tables and address spaces.

pub mod address;
pub mod arena;
pub mod bits;
pub mod buddy_allocator;
pub mod buddy_laws;
pub mod buddy_model;
pub mod linked_list;
pub mod map_area;
pub mod memory_set;
pub mod page_table;
pub mod phys_memory;
pub mod pid;
pub mod range;
pub mod slub_allocator;
pub mod temp_mut;
pub mod up;
pub mod config;
pub mod console;
pub mod elf;
pub mod frame_allocator;
pub mod heap_allocator;
pub mod kernel_stack;
pub mod kmem_cache;
