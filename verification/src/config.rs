//! Sizes and fixed addresses shared by every part of the kernel.

use vstd::prelude::*;

verus! {

/// Bytes in one machine word: the granularity of every heap address.
pub const WORD_SIZE: usize = 8;

/// Bytes in one page.
pub const PAGE_SIZE: usize = 0x1000;

/// Number of bits of the offset inside a page.
pub const PAGE_SIZE_BITS: usize = 12;

/// Number of size classes of the buddy allocator.
pub const RANKS: usize = 32;

/// Largest number of bytes that one heap arena may span: one block of the
/// highest size class.
pub const ARENA_LIMIT: usize = 0x8000_0000;

/// Bytes in one page, as an address.
pub const PAGE_BYTES: u64 = 0x1000;

/// Bits of an Sv39 physical address.
pub const PA_WIDTH_SV39: usize = 56;

/// Bits of an Sv39 virtual address.
pub const VA_WIDTH_SV39: usize = 39;

/// Bits of an Sv39 physical page number.
pub const PPN_WIDTH_SV39: usize = 44;

/// Bits of an Sv39 virtual page number.
pub const VPN_WIDTH_SV39: usize = 27;

/// The bits of a physical address.
pub const PA_MASK: u64 = 0x00ff_ffff_ffff_ffff;

/// The bits of a physical page number.
pub const PPN_MASK: u64 = 0x0fff_ffff_ffff;

/// The bits of a virtual address.
pub const VA_MASK: u64 = 0x7f_ffff_ffff;

/// The bits of a virtual page number.
pub const VPN_MASK: u64 = 0x7ff_ffff;

/// Bytes of the kernel stack of one task.
pub const KERNEL_STACK_SIZE: u64 = 0x2000;

/// Bytes of the user stack of one task.
pub const USER_STACK_SIZE: u64 = 0x2000;

/// Bytes of the kernel heap.
pub const KERNEL_HEAP_SIZE: usize = 0x30_0000;

/// Size of the smallest block of the kernel heap.
pub const KERNEL_HEAP_UNIT: usize = 0x1000;

/// Number of records of slab pages of the kernel heap.
pub const SLAB_NODE_NUM: usize = 0x300;

/// First address of the serial port's registers.
pub const SERIAL_PORT_BASE_ADDRESS: u64 = 0x1000_0000;

/// Number of the serial port's registers that are mapped.
pub const SERIAL_PORT_MAP_SIZE: u64 = 0x6;

/// Ticks between two timer interrupts.
pub const TIMER_INTERVAL: u64 = 100_0000;

/// First address past the physical memory.
pub const MEMORY_END: u64 = 0x8800_0000;

/// Virtual address of the trampoline page: the last page of the address
/// space.
pub const TRAMPOLINE: u64 = 0xffff_ffff_ffff_f000;

/// Virtual address of the trap context page: the page below the trampoline.
pub const TRAP_CONTEXT: u64 = 0xffff_ffff_ffff_e000;

} // verus!
