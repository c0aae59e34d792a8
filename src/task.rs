use vstd::prelude::*;
use crate::address::{PhysPageNum, VirtAddr, VirtPageNum, VA_LIMIT};
use crate::config::{kernel_stack_position, kernel_stack_top_spec, MAX_KERNEL_STACK_SLOT, TRAP_CONTEXT};
use crate::frame_allocator::StackFrameAllocator;
use crate::memory_set::{ElfSegment, MapPermission, MemorySet, MAP_PERM_R, MAP_PERM_W};
use crate::page_table::pte_ppn;

verus! {

/// The page number of the trap-context page in every user address space.
pub const TRAP_CONTEXT_VPN: u64 = 0x7ff_fffe;

/// The previous-privilege bit of the status register; clear means user mode.
pub const SSTATUS_SPP: u64 = 0x100;

/// The first page of the kernel stack of slot `app_id`, in the address window.
pub open spec fn kstack_lo(app_id: int) -> int {
    crate::address::floor_spec(((kernel_stack_top_spec(app_id) - crate::config::KERNEL_STACK_SIZE) % (VA_LIMIT as int)) as u64)
}

/// The page just past the kernel stack of slot `app_id`.
pub open spec fn kstack_hi(app_id: int) -> int {
    crate::address::ceil_spec((kernel_stack_top_spec(app_id) % (VA_LIMIT as int)) as u64)
}

/// A task of these segments for slot `app_id` can be built: the image fits
/// (see `elf_fits`), the kernel stack's pages are free in `kernel_space`,
/// the kernel table's own frames are handed out, and frames suffice for
/// both.
pub open spec fn task_fits(
    kernel_space: MemorySet,
    allocator: StackFrameAllocator,
    segments: Seq<ElfSegment>,
    len: int,
    app_id: int,
) -> bool {
    &&& crate::memory_set::elf_fits(segments, len, allocator.free_count())
    &&& allocator.free_count() >= 12 + 3 * crate::memory_set::seg_total_pages(segments) + 3 * (kstack_hi(app_id)
        - kstack_lo(app_id))
    &&& (kernel_stack_top_spec(app_id) - crate::config::KERNEL_STACK_SIZE) % (VA_LIMIT as int)
        <= kernel_stack_top_spec(app_id) % (VA_LIMIT as int)
    &&& forall|v: u64| kstack_lo(app_id) <= v < kstack_hi(app_id) ==> !#[trigger] kernel_space.view().contains_key(v)
    &&& kernel_space.table().node_frames().subset_of(allocator.allocated())
}

/// Where a task is in its life.
#[derive(Clone, Copy, Debug, PartialEq, Eq, Structural)]
pub enum TaskStatus {
    Ready,
    Running,
    Zombie,
}

/// The registers that a switch between kernel control flows saves: the
/// return address, the stack pointer and the twelve callee-saved registers.
#[derive(Clone, Copy, Debug)]
pub struct TaskContext {
    pub ra: u64,
    pub sp: u64,
    pub s: [u64; 12],
}

impl TaskContext {
    /// All registers zero.
    pub fn zero_init() -> (r: Self)
        ensures
            r.ra == 0,
            r.sp == 0,
            forall|i: int| 0 <= i < 12 ==> r.s[i] == 0,
    {
        TaskContext { ra: 0, sp: 0, s: [0u64; 12] }
    }

    /// A context that resumes at `trap_return_entry` on the kernel stack
    /// whose top is `kstack_ptr`.
    pub fn goto_trap_return(trap_return_entry: u64, kstack_ptr: u64) -> (r: Self)
        ensures
            r.ra == trap_return_entry,
            r.sp == kstack_ptr,
            forall|i: int| 0 <= i < 12 ==> r.s[i] == 0,
    {
        TaskContext { ra: trap_return_entry, sp: kstack_ptr, s: [0u64; 12] }
    }
}

/// The user registers saved on a trap, and the three values the trap entry
/// needs to reach the kernel, written once when the task is made.
#[derive(Clone, Copy, Debug)]
pub struct TrapContext {
    pub x: [u64; 32],
    pub sstatus: u64,
    pub sepc: u64,
    pub kernel_satp: u64,
    pub kernel_sp: u64,
    pub trap_handler: u64,
}

impl TrapContext {
    /// Sets the user stack pointer, register `x2`.
    pub fn set_sp(&mut self, sp: u64)
        ensures
            final(self).x[2] == sp,
            forall|i: int| 0 <= i < 32 && i != 2 ==> final(self).x[i] == old(self).x[i],
            final(self).sstatus == old(self).sstatus,
            final(self).sepc == old(self).sepc,
            final(self).kernel_satp == old(self).kernel_satp,
            final(self).kernel_sp == old(self).kernel_sp,
            final(self).trap_handler == old(self).trap_handler,
    {
        self.x[2] = sp;
    }

    /// The first trap context of a task: all registers zero but the stack
    /// pointer, resuming at `entry` in user mode.
    pub fn app_init_context(
        entry: u64,
        sp: u64,
        sstatus: u64,
        kernel_satp: u64,
        kernel_sp: u64,
        trap_handler: u64,
    ) -> (r: Self)
        ensures
            r.sepc == entry,
            r.x[2] == sp,
            forall|i: int| 0 <= i < 32 && i != 2 ==> r.x[i] == 0,
            r.sstatus == sstatus & !SSTATUS_SPP,
            r.kernel_satp == kernel_satp,
            r.kernel_sp == kernel_sp,
            r.trap_handler == trap_handler,
    {
        let mut cx = TrapContext {
            x: [0u64; 32],
            sstatus: sstatus & !SSTATUS_SPP,
            sepc: entry,
            kernel_satp,
            kernel_sp,
            trap_handler,
        };
        cx.set_sp(sp);
        cx
    }
}

/// The addresses a new task needs from the platform.
#[derive(Clone, Copy, Debug, PartialEq, Eq, Structural)]
pub struct Platform {
    /// Physical address of the trampoline code.
    pub trampoline_pa: u64,
    /// Address of the kernel's trap handler.
    pub trap_handler_entry: u64,
    /// Address of the routine that returns to user mode.
    pub trap_return_entry: u64,
    /// The supervisor status register at the time tasks are made.
    pub sstatus: u64,
}

/// A task: its address space, saved contexts, program break and family.
pub struct TaskControlBlock {
    pub pid: usize,
    pub task_status: TaskStatus,
    pub task_cx: TaskContext,
    pub memory_set: MemorySet,
    pub trap_cx_ppn: PhysPageNum,
    /// What the task's trap-context page holds.
    pub trap_cx: TrapContext,
    pub base_size: u64,
    pub heap_bottom: u64,
    pub program_brk: u64,
    pub exit_code: i32,
    pub parent: Option<usize>,
    pub children: Vec<usize>,
}

impl TaskControlBlock {
    /// Moving the break by `size` succeeds: the new break lies between the
    /// heap bottom and the end of the address window, a segment starts at
    /// the heap bottom's page, and the new end lies inside it (shrinking) or
    /// above it with its new pages unmapped and enough free frames, the
    /// table's own frames being handed out (growing).
    pub open spec fn brk_succeeds(&self, allocator: &StackFrameAllocator, size: int) -> bool {
        let nb = self.program_brk + size;
        let hb = crate::address::floor_spec(self.heap_bottom) as u64;
        let ne = crate::address::ceil_spec(nb as u64);
        &&& self.heap_bottom <= nb < VA_LIMIT
        &&& self.memory_set.first_area_at(hb) is Some
        &&& {
            let a = self.memory_set.areas()[self.memory_set.first_area_at(hb).unwrap()];
            if size < 0 {
                a.start() <= ne <= a.end()
            } else {
                &&& a.end() <= ne <= crate::address::VPN_LIMIT
                &&& forall|v: u64| a.end() <= v < ne ==> !#[trigger] self.memory_set.view().contains_key(v)
                &&& allocator.free_count() >= 3 * (ne - a.end())
                &&& self.memory_set.table().node_frames().subset_of(allocator.allocated())
            }
        }
    }

    /// The task's trap context.
    pub fn get_trap_cx(&self) -> (r: &TrapContext)
        ensures
            *r == self.trap_cx,
    {
        &self.trap_cx
    }

    /// The token of the task's page table.
    pub fn get_user_token(&self) -> (r: u64)
        requires
            self.memory_set.table().wf(),
        ensures
            r == crate::page_table::SATP_SV39 + self.memory_set.table().root(),
    {
        self.memory_set.token()
    }

    /// A ready task made from an executable image: its address space built
    /// by `MemorySet::from_elf`, a kernel stack for slot `app_id` added to
    /// `kernel_space`, a context that enters the return-to-user routine on
    /// that stack, and a first trap context that starts at the image's entry
    /// with the user stack. `None` when the address space or the kernel
    /// stack cannot be built.
    pub fn new(
        allocator: &mut StackFrameAllocator,
        kernel_space: &mut MemorySet,
        segments: &Vec<ElfSegment>,
        entry: u64,
        elf_data: &[u8],
        app_id: u64,
        pid: usize,
        platform: &Platform,
    ) -> (r: Option<Self>)
        requires
            old(allocator).wf(),
            old(allocator).end() <= crate::address::PPN_LIMIT,
            old(kernel_space).wf_in(old(allocator)),
            app_id <= MAX_KERNEL_STACK_SLOT,
        ensures
            final(allocator).wf(),
            final(allocator).end() == old(allocator).end(),
            final(kernel_space).wf_in(final(allocator)),
            final(kernel_space).table().root() == old(kernel_space).table().root(),
            r matches Some(t) ==> {
                &&& t.pid == pid
                &&& t.task_status == TaskStatus::Ready
                &&& t.memory_set.wf_in(final(allocator))
                &&& t.task_cx.ra == platform.trap_return_entry
                &&& t.task_cx.sp == kernel_stack_top_spec(app_id as int)
                &&& t.trap_cx.sepc == entry
                &&& t.trap_cx.x[2] == t.heap_bottom
                &&& t.trap_cx.kernel_satp == crate::page_table::SATP_SV39 + final(kernel_space).table().root()
                &&& t.trap_cx.kernel_sp == kernel_stack_top_spec(app_id as int)
                &&& t.trap_cx.trap_handler == platform.trap_handler_entry
                &&& t.trap_cx.sstatus == platform.sstatus & !SSTATUS_SPP
                &&& t.memory_set.view().contains_key(TRAP_CONTEXT_VPN)
                &&& t.trap_cx_ppn.0 == pte_ppn(t.memory_set.view()[TRAP_CONTEXT_VPN])
                &&& t.base_size == t.heap_bottom && t.program_brk == t.heap_bottom
                &&& t.program_brk <= VA_LIMIT
                &&& t.exit_code == 0 && t.parent is None && t.children@.len() == 0
                &&& forall|i: int| 0 <= i < 32 && i != 2 ==> t.trap_cx.x[i] == 0
                &&& forall|i: int| 0 <= i < 12 ==> t.task_cx.s[i] == 0
                &&& final(kernel_space).areas().len() == old(kernel_space).areas().len() + 1
                &&& ({
                    let a = final(kernel_space).areas().last();
                    &&& a.kind() == crate::memory_set::MapType::Framed
                    &&& a.perm() == MAP_PERM_R | MAP_PERM_W
                    &&& a.start() == crate::address::floor_spec(
                        ((kernel_stack_top_spec(app_id as int) - crate::config::KERNEL_STACK_SIZE) % (VA_LIMIT as int)) as u64,
                    )
                    &&& a.end() == crate::address::ceil_spec((kernel_stack_top_spec(app_id as int) % (VA_LIMIT as int)) as u64)
                    &&& a.covers(final(kernel_space).view(), a.start() as int, a.end() as int)
                })
                &&& t.heap_bottom == crate::memory_set::user_stack_top(crate::memory_set::last_end(segments@) as u64)
                &&& crate::memory_set::user_space(t.memory_set, segments@, elf_data@, platform.trampoline_pa, t.heap_bottom)
                &&& t.memory_set.areas().len() == segments@.len() + 3
                &&& forall|i: int| 0 <= i < segments@.len() ==> #[trigger] crate::memory_set::segment_loaded(
                    t.memory_set.areas()[i],
                    segments@[i],
                    t.memory_set.view(),
                )
                &&& forall|i: int| 0 <= i < segments@.len() ==> #[trigger] t.memory_set.areas()[i].fresh_frames(
                    t.memory_set.areas()[i].start() as int,
                    t.memory_set.areas()[i].end() as int,
                    old(allocator).allocated(),
                    final(allocator).allocated(),
                )
                &&& old(allocator).allocated().subset_of(final(allocator).allocated())
            },
            task_fits(*old(kernel_space), *old(allocator), segments@, elf_data@.len() as int, app_id as int) ==> r is Some,
    {
        let (memory_set, user_sp, entry_point) = match MemorySet::from_elf(
            allocator,
            segments,
            entry,
            elf_data,
            platform.trampoline_pa,
        ) {
            None => {
                return None;
            },
            Some(t) => t,
        };
        let ghost n = segments@.len() as int;
        proof {
            assert(memory_set.areas()[n + 2].page_mapped(memory_set.view(), TRAP_CONTEXT_VPN));
        }
        let trap_cx_ppn = match memory_set.translate(VirtPageNum(TRAP_CONTEXT_VPN)) {
            None => {
                return None;
            },
            Some(pte) => pte.ppn(),
        };
        let (kernel_stack_bottom, kernel_stack_top) = kernel_stack_position(app_id);
        let bottom = VirtAddr::from(kernel_stack_bottom);
        let top = VirtAddr::from(kernel_stack_top);
        if bottom.0 > top.0 {
            return None;
        }
        let rw = MapPermission::from_bits(MAP_PERM_R | MAP_PERM_W);
        let ghost built = allocator.allocated();
        if !kernel_space.insert_framed_area(allocator, bottom, top, rw) {
            return None;
        }
        proof {
            assert forall|i: int| 0 <= i < segments@.len() implies #[trigger] memory_set.areas()[i].fresh_frames(
                memory_set.areas()[i].start() as int,
                memory_set.areas()[i].end() as int,
                old(allocator).allocated(),
                allocator.allocated(),
            ) by {
                let a = memory_set.areas()[i];
                assert(a.fresh_frames(a.start() as int, a.end() as int, old(allocator).allocated(), built));
                assert forall|v: u64| a.start() <= v < a.end() implies #[trigger] a.frame_fresh(
                    v,
                    old(allocator).allocated(),
                    allocator.allocated(),
                ) by {
                    assert(a.frame_fresh(v, old(allocator).allocated(), built));
                };
            };
        }
        let kernel_token = kernel_space.token();
        let trap_cx = TrapContext::app_init_context(
            entry_point,
            user_sp,
            platform.sstatus,
            kernel_token,
            kernel_stack_top,
            platform.trap_handler_entry,
        );
        proof {
            assert(memory_set.wf_in(allocator)) by {
                assert forall|i: int| 0 <= i < memory_set.areas().len() implies #[trigger] memory_set.areas()[i].wf() by {
                };
            };
        }
        Some(TaskControlBlock {
            pid,
            task_status: TaskStatus::Ready,
            task_cx: TaskContext::goto_trap_return(platform.trap_return_entry, kernel_stack_top),
            memory_set,
            trap_cx_ppn,
            trap_cx,
            base_size: user_sp,
            heap_bottom: user_sp,
            program_brk: user_sp,
            exit_code: 0,
            parent: None,
            children: Vec::new(),
        })
    }

    /// Moves the program break by `size` bytes, growing or shrinking the
    /// heap segment that starts at the heap bottom, and returns the old
    /// break. `None`, with the break unchanged, when the new break would lie
    /// below the heap bottom or outside the address window, or the heap
    /// segment cannot be resized.
    pub fn change_program_brk(&mut self, allocator: &mut StackFrameAllocator, size: i32) -> (r: Option<u64>)
        requires
            old(self).memory_set.wf_in(old(allocator)),
        ensures
            final(self).memory_set.wf_in(final(allocator)),
            final(allocator).end() == old(allocator).end(),
            final(self).heap_bottom == old(self).heap_bottom,
            final(self).pid == old(self).pid,
            final(self).task_status == old(self).task_status,
            final(self).trap_cx == old(self).trap_cx,
            final(self).children@ == old(self).children@,
            final(self).parent == old(self).parent,
            final(self).exit_code == old(self).exit_code,
            old(self).program_brk <= VA_LIMIT ==> final(self).program_brk <= VA_LIMIT,
            final(self).memory_set.table().root() == old(self).memory_set.table().root(),
            r matches Some(b) ==> b == old(self).program_brk && final(self).program_brk == old(self).program_brk
                + size,
            r is None ==> final(self).program_brk == old(self).program_brk,
            old(self).program_brk + size < old(self).heap_bottom ==> r is None,
            old(self).program_brk + size >= VA_LIMIT ==> r is None,
            old(self).brk_succeeds(old(allocator), size as int) ==> r == Some(old(self).program_brk),
            r is Some && size >= 0 ==> ({
                let hb = crate::address::floor_spec(old(self).heap_bottom) as u64;
                let i = old(self).memory_set.first_area_at(hb).unwrap();
                let ne = crate::address::ceil_spec((old(self).program_brk + size) as u64);
                &&& old(self).memory_set.first_area_at(hb) is Some
                &&& final(self).memory_set.areas()[i].perm() == old(self).memory_set.areas()[i].perm()
                &&& final(self).memory_set.areas()[i].covers(
                    final(self).memory_set.view(),
                    old(self).memory_set.areas()[i].end() as int,
                    ne,
                )
            }),
            r is None && (size < 0 || old(self).memory_set.table().node_frames().subset_of(old(allocator).allocated()))
                ==> final(self).memory_set.view() == old(self).memory_set.view(),
    {
        let old_break = self.program_brk;
        let new_break: i128 = self.program_brk as i128 + size as i128;
        if new_break < self.heap_bottom as i128 || new_break >= VA_LIMIT as i128 {
            return None;
        }
        let nb = new_break as u64;
        let result = if size < 0 {
            self.memory_set.shrink_to(allocator, VirtAddr(self.heap_bottom), VirtAddr(nb))
        } else {
            self.memory_set.append_to(allocator, VirtAddr(self.heap_bottom), VirtAddr(nb))
        };
        if result {
            self.program_brk = nb;
            Some(old_break)
        } else {
            None
        }
    }
}

/// A new task's heap grows: when a task laid out by `from_elf` still has its
/// break at the heap bottom, the page just above it is free, no loaded
/// segment starts there, and the allocator has three frames to give (and
/// has handed out the table's own frames), moving the break up by one page
/// succeeds.
pub proof fn lemma_new_task_heap_grows(
    t: TaskControlBlock,
    segments: Seq<ElfSegment>,
    elf_data: Seq<u8>,
    trampoline_pa: u64,
    allocator: StackFrameAllocator,
)
    requires
        crate::memory_set::user_space(t.memory_set, segments, elf_data, trampoline_pa, t.heap_bottom),
        t.program_brk == t.heap_bottom,
        t.heap_bottom + crate::config::PAGE_SIZE < VA_LIMIT,
        !t.memory_set.view().contains_key((t.heap_bottom / crate::config::PAGE_SIZE) as u64),
        forall|i: int| 0 <= i < segments.len() ==> crate::memory_set::seg_lo(#[trigger] segments[i])
            != t.heap_bottom / crate::config::PAGE_SIZE,
        allocator.free_count() >= 3,
        t.memory_set.table().node_frames().subset_of(allocator.allocated()),
    ensures
        t.brk_succeeds(&allocator, crate::config::PAGE_SIZE as int),
{
    let m = t.memory_set;
    let n = segments.len() as int;
    let b = t.heap_bottom;
    let hb = b as int / 4096;
    assert(b as int % 4096 == 0);
    assert(crate::address::floor_spec(b) == hb);
    assert(crate::address::ceil_spec((b + 4096) as u64) == hb + 1);
    assert forall|j: int| 0 <= j < n + 1 implies #[trigger] m.areas()[j].start() != hb as u64 by {
        if j < n {
            assert(crate::memory_set::segment_loaded(m.areas()[j], segments[j], m.view()));
        }
    };
    m.lemma_first_area_at(hb as u64, n + 1);
}

} // verus!
