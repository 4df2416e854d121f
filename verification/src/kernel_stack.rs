//! The place of each task's kernel stack in the kernel's address space:
//! below the trampoline, one stack of two pages for each task, with a guard
//! page between two stacks.

use vstd::prelude::*;
use crate::address::{VirtAddr, VirtPageNum};
use crate::config::{KERNEL_STACK_SIZE, PAGE_BYTES, TRAMPOLINE};
use crate::frame_allocator::{FramePool, StackFrameAllocator};
use crate::map_area::{span_frames, MapPermission, MapType};
use crate::memory_set::MemorySet;
use crate::phys_memory::{FrameModel, PhysMemory};
use crate::pid::PidHandle;

verus! {

/// The largest task number that has a kernel stack.
pub const MAX_PID: u64 = 0x5_5555_5555_5554;

/// The largest task number whose kernel stack lies in the 39 bits of a
/// virtual address.
pub const MAX_MAPPED_PID: u64 = 0x2aaaaa9;

/// Number of the first page of the kernel stack of the task `pid`.
pub open spec fn stack_page(pid: u64) -> u64 {
    (0x7ff_fffd - pid * 3) as u64
}

/// The handle of the kernel stack of one task.
pub struct KernelStack {
    pid: u64,
}

/// The lowest address of the kernel stack of the task `pid`.
pub open spec fn stack_bottom(pid: u64) -> int {
    0xffff_ffff_ffff_f000 - pid * 0x3000 - 0x2000
}

/// The address above the kernel stack of the task `pid`.
pub open spec fn stack_top(pid: u64) -> int {
    0xffff_ffff_ffff_f000 - pid * 0x3000
}

/// The lowest address of the kernel stack of the task `pid`, and the
/// address above the stack.
pub fn kernel_stack_position(pid: u64) -> (position: (u64, u64))
    requires
        pid <= MAX_PID,
    ensures
        position.0 == stack_bottom(pid),
        position.1 == stack_top(pid),
{
    let step = KERNEL_STACK_SIZE + PAGE_BYTES;
    assert(pid * step <= 0xffff_ffff_ffff_c000) by (nonlinear_arith)
        requires
            pid <= 0x5_5555_5555_5554,
            step == 0x3000,
    ;
    let top = TRAMPOLINE - pid * step;
    let bottom = top - KERNEL_STACK_SIZE;
    (bottom, top)
}

impl KernelStack {
    /// The task that the stack belongs to.
    pub closed spec fn pid(&self) -> u64 {
        self.pid
    }

    /// The handle of the stack of the task `pid`.
    pub fn of(pid: u64) -> (stack: KernelStack)
        requires
            pid <= MAX_PID,
        ensures
            stack.pid() == pid,
    {
        KernelStack { pid }
    }

    /// Maps the two pages of the kernel stack of the task of `pid_handle`
    /// in the address space of the kernel, to read and to write.
    pub fn new(
        pid_handle: &PidHandle,
        kernel_space: &mut MemorySet,
        pool: &mut StackFrameAllocator,
        mem: &mut PhysMemory,
    ) -> (stack: KernelStack)
        requires
            pid_handle.0 <= MAX_MAPPED_PID,
            old(kernel_space).wf(old(mem)@, old(pool)@),
            old(kernel_space).is_free(old(mem)@, stack_page(pid_handle.0 as u64)),
            old(kernel_space).is_free(old(mem)@, (stack_page(pid_handle.0 as u64) + 1) as u64),
            old(pool)@.available() >= span_frames(
                stack_page(pid_handle.0 as u64),
                (stack_page(pid_handle.0 as u64) + 2) as u64,
            ) + 2,
        ensures
            stack.pid() == pid_handle.0,
            final(kernel_space).wf(final(mem)@, final(pool)@),
            final(kernel_space).table().root() == old(kernel_space).table().root(),
            final(kernel_space).areas().len() == old(kernel_space).areas().len() + 1,
            forall|i: int|
                0 <= i < old(kernel_space).areas().len() ==> #[trigger] final(kernel_space).areas()[i] == old(kernel_space).areas()[i],
            final(kernel_space).user_area(
                final(kernel_space).areas().len() - 1,
                stack_page(pid_handle.0 as u64),
                (stack_page(pid_handle.0 as u64) + 2) as u64,
                0x06,
            ),
            forall|v: VirtPageNum|
                v.0 < 0x800_0000 && !(stack_page(pid_handle.0 as u64) <= v.0 < stack_page(
                    pid_handle.0 as u64,
                ) + 2) ==> #[trigger] final(kernel_space).table().mapping(final(mem)@, v) == old(kernel_space).table().mapping(old(mem)@, v),
    {
        let pid = pid_handle.0 as u64;
        let (kernel_stack_bottom, kernel_stack_top) = kernel_stack_position(pid);
        proof {
            lemma_stack_mask(kernel_stack_bottom);
            lemma_stack_mask(kernel_stack_top);
            assert(kernel_stack_top == 0xffff_ffff_ffff_f000 - pid * 0x3000);
            assert(kernel_stack_bottom == 0xffff_ffff_ffff_d000 - pid * 0x3000);
            assert(kernel_stack_bottom & 0x7f_ffff_ffff == 0x7f_ffff_d000 - pid * 0x3000);
            assert(kernel_stack_top & 0x7f_ffff_ffff == 0x7f_ffff_f000 - pid * 0x3000);
            assert((0x7f_ffff_d000 - pid * 0x3000) / 4096 == stack_page(pid));
            assert((0x7f_ffff_f000 - pid * 0x3000 + 4095) / 4096 == stack_page(pid) + 2);
            assert forall|v: u64|
                stack_page(pid) <= v < stack_page(pid) + 2 implies #[trigger] kernel_space.is_free(
                mem@,
                v,
            ) by {}
            lemma_stack_mask(0);
        }
        kernel_space.insert_framed_areas(
            VirtAddr::from(kernel_stack_bottom),
            VirtAddr::from(kernel_stack_top),
            MapPermission { bits: MapPermission::R | MapPermission::W },
            pool,
            mem,
        );
        Self { pid }
    }

    /// Takes the kernel stack out of the address space of the kernel: the
    /// region that starts at the stack's first page, if there is one.
    pub fn release(self, kernel_space: &mut MemorySet, pool: &mut StackFrameAllocator, mem: &mut PhysMemory)
        requires
            self.pid() <= MAX_MAPPED_PID,
            old(kernel_space).wf(old(mem)@, old(pool)@),
        ensures
            final(kernel_space).wf(final(mem)@, final(pool)@),
            final(kernel_space).table().root() == old(kernel_space).table().root(),
            match old(kernel_space).first_at(stack_page(self.pid())) {
                None => final(kernel_space).areas() == old(kernel_space).areas(),
                Some(idx) => final(kernel_space).areas() == old(kernel_space).areas().remove(idx),
            },
    {
        let (kernel_stack_bottom, _) = kernel_stack_position(self.pid);
        let pid = self.pid;
        proof {
            lemma_stack_mask(kernel_stack_bottom);
            assert(kernel_stack_bottom == 0xffff_ffff_ffff_d000 - pid * 0x3000);
            assert(kernel_stack_bottom & 0x7f_ffff_ffff == 0x7f_ffff_d000 - pid * 0x3000);
            assert((0x7f_ffff_d000 - pid * 0x3000) / 4096 == stack_page(pid));
            assert((0x7f_ffff_d000 - pid * 0x3000) % 4096 == 0);
        }
        let kernel_stack_bottom_va: VirtAddr = VirtAddr::from(kernel_stack_bottom);
        kernel_space.remove_areas(kernel_stack_bottom_va.page_number(), pool, mem);
    }

    /// The address above the stack, as a virtual address.
    pub fn top(&self) -> (top: VirtAddr)
        requires
            self.pid() <= MAX_PID,
        ensures
            top.0 == (stack_top(self.pid()) as u64) & 0x7f_ffff_ffff,
    {
        let (_, kernel_stack_top) = kernel_stack_position(self.pid);
        VirtAddr::from(kernel_stack_top)
    }

    /// The address above the stack.
    pub fn get_top(&self) -> (top: u64)
        requires
            self.pid() <= MAX_PID,
        ensures
            top == stack_top(self.pid()),
    {
        let (_, kernel_stack_top) = kernel_stack_position(self.pid);
        kernel_stack_top
    }

    /// The lowest address of the stack.
    pub fn get_bottom(&self) -> (bottom: u64)
        requires
            self.pid() <= MAX_PID,
        ensures
            bottom == stack_bottom(self.pid()),
    {
        let (kernel_stack_bottom, _) = kernel_stack_position(self.pid);
        kernel_stack_bottom
    }
}

/// An address of the highest 2^39 bytes keeps its offset in them when it is
/// cut to 39 bits.
pub proof fn lemma_stack_mask(x: u64)
    ensures
        x >= 0xffff_ff80_0000_0000 ==> x & 0x7f_ffff_ffff == x - 0xffff_ff80_0000_0000,
        0x02u8 | 0x04u8 == 0x06u8,
{
    assert((x >= 0xffff_ff80_0000_0000 ==> x & 0x7f_ffff_ffff == x - 0xffff_ff80_0000_0000) && 0x02u8
        | 0x04u8 == 0x06u8) by (bit_vector);
}

/// The stacks of two tasks do not overlap, and a page lies between them.
pub proof fn lemma_stacks_apart(a: u64, b: u64)
    requires
        a < b <= MAX_PID,
    ensures
        stack_top(b) + 0x1000 <= stack_bottom(a),
        0 <= stack_bottom(b),
{
}

} // verus!
