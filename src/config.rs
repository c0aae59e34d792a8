use vstd::prelude::*;

verus! {

/// Bytes in one page.
pub const PAGE_SIZE: u64 = 0x1000;

/// Bits of the in-page offset.
pub const PAGE_SIZE_BITS: u64 = 0xc;

/// Physical address width of SV39.
pub const PA_WIDTH_SV39: u64 = 56;

/// Virtual address width of SV39.
pub const VA_WIDTH_SV39: u64 = 39;

/// Physical page number width of SV39.
pub const PPN_WIDTH_SV39: u64 = 44;

/// Virtual page number width of SV39.
pub const VPN_WIDTH_SV39: u64 = 27;

/// End of the physical memory the kernel manages.
pub const MEMORY_END: u64 = 0x8080_0000;

/// Size of every user stack.
pub const USER_STACK_SIZE: u64 = 4096 * 2;

/// Size of every kernel stack.
pub const KERNEL_STACK_SIZE: u64 = 4096 * 2;

/// The top page of every address space, which holds the trap hand-off code.
pub const TRAMPOLINE: u64 = 0xffff_ffff_ffff_f000;

/// The page just below the trampoline, which holds a task's trap context.
pub const TRAP_CONTEXT: u64 = 0xffff_ffff_ffff_e000;

/// Timer frequency of the platform, in ticks per second.
pub const CLOCK_FREQ: u64 = 12_500_000;

/// Timer interrupts per second.
pub const TICKS_PER_SEC: u64 = 100;

/// Milliseconds per second.
pub const MSEC_PER_SEC: u64 = 1000;

/// Kernel stacks are laid out from the trampoline downwards, one per slot,
/// each separated from the next by an unmapped guard page.
pub open spec fn kernel_stack_top_spec(app_id: int) -> int {
    TRAMPOLINE - app_id * (KERNEL_STACK_SIZE + PAGE_SIZE)
}

/// The largest slot whose kernel stack, with its guard page, still lies in
/// the upper half of the 39-bit address window below the trampoline.
pub const MAX_KERNEL_STACK_SLOT: u64 = 0x155_5555;

/// Bottom and top of the kernel stack of slot `app_id`.
pub fn kernel_stack_position(app_id: u64) -> (r: (u64, u64))
    requires
        app_id <= MAX_KERNEL_STACK_SLOT,
    ensures
        r.1 == kernel_stack_top_spec(app_id as int),
        r.0 == r.1 - KERNEL_STACK_SIZE,
{
    assert(app_id * (KERNEL_STACK_SIZE + PAGE_SIZE) <= 0x155_5555 * 0x3000) by (nonlinear_arith)
        requires app_id <= 0x155_5555;
    let top: u64 = TRAMPOLINE - app_id * (KERNEL_STACK_SIZE + PAGE_SIZE);
    let bottom: u64 = top - KERNEL_STACK_SIZE;
    (bottom, top)
}

} // verus!
