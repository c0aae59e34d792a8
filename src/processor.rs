use vstd::prelude::*;
use std::collections::VecDeque;
use crate::frame_allocator::StackFrameAllocator;
use crate::memory_set::{ElfSegment, MemorySet};
use crate::task::{Platform, TaskContext, TaskControlBlock, TaskStatus, TrapContext};
use crate::config::MAX_KERNEL_STACK_SLOT;

verus! {

/// The pid of the first task; its exit shuts the system down, and it adopts
/// the children of every task that exits.
pub const INITPROC_PID: usize = 0;

/// The ready queue, first in first out.
pub struct TaskManager {
    ready_queue: VecDeque<usize>,
}

impl TaskManager {
    /// The pids waiting to run, the next one first.
    pub closed spec fn view(&self) -> Seq<usize> {
        self.ready_queue@
    }

    pub fn new() -> (r: Self)
        ensures
            r@ == Seq::<usize>::empty(),
    {
        TaskManager { ready_queue: VecDeque::new() }
    }

    /// Puts `pid` at the back of the queue.
    pub fn add(&mut self, pid: usize)
        ensures
            final(self)@ == old(self)@.push(pid),
    {
        self.ready_queue.push_back(pid);
    }

    /// Takes the pid at the front of the queue.
    pub fn fetch(&mut self) -> (r: Option<usize>)
        ensures
            old(self)@.len() > 0 ==> r == Some(old(self)@[0]) && final(self)@ == old(self)@.drop_first(),
            old(self)@.len() == 0 ==> r is None && final(self)@ == old(self)@,
    {
        self.ready_queue.pop_front()
    }
}

/// What the single core runs: the current task, if any, and the context of
/// the idle control flow that picks the next one.
pub struct Processor {
    current: Option<usize>,
    pub idle_task_cx: TaskContext,
}

impl Processor {
    pub closed spec fn current_spec(&self) -> Option<usize> {
        self.current
    }

    pub fn new() -> (r: Self)
        ensures
            r.current_spec() is None,
    {
        Processor { current: None, idle_task_cx: TaskContext::zero_init() }
    }

    /// Takes the current task out, leaving none.
    pub fn take_current(&mut self) -> (r: Option<usize>)
        ensures
            r == old(self).current_spec(),
            final(self).current_spec() is None,
    {
        let r = self.current;
        self.current = None;
        r
    }

    /// The current task.
    pub fn current(&self) -> (r: Option<usize>)
        ensures
            r == self.current_spec(),
    {
        self.current
    }

    fn set_current(&mut self, pid: usize)
        ensures
            final(self).current_spec() == Some(pid),
    {
        self.current = Some(pid);
    }
}

/// How the exit of the current task ends.
#[derive(Clone, Copy, Debug, PartialEq, Eq, Structural)]
pub enum ExitOutcome {
    /// The task became a zombie; the idle flow picks the next task.
    Exited(usize),
    /// The first task exited: halt, reporting success when its code was 0.
    Shutdown(bool),
}

/// The state that the kernel keeps across traps: the frame allocator, the
/// kernel address space, the tasks by pid, the ready queue and the core.
pub struct Kernel {
    pub frame_allocator: StackFrameAllocator,
    pub kernel_space: MemorySet,
    pub tasks: Vec<TaskControlBlock>,
    pub task_manager: TaskManager,
    pub processor: Processor,
}

impl Kernel {
    /// Every task sits at its pid, every address space fits the allocator,
    /// and every pid the kernel holds names a task.
    pub open spec fn wf(&self) -> bool {
        &&& self.frame_allocator.wf()
        &&& self.frame_allocator.end() <= crate::address::PPN_LIMIT
        &&& self.kernel_space.wf_in(&self.frame_allocator)
        &&& forall|i: int| 0 <= i < self.tasks@.len() ==> (#[trigger] self.tasks@[i]).pid == i
            && self.tasks@[i].memory_set.wf_in(&self.frame_allocator)
            && self.tasks@[i].program_brk <= crate::address::VA_LIMIT
        &&& forall|i: int, j: int| 0 <= i < self.tasks@.len() && 0 <= j < self.tasks@[i].children@.len()
            ==> #[trigger] self.tasks@[i].children@[j] < self.tasks@.len()
        &&& forall|k: int| 0 <= k < self.task_manager@.len() ==> #[trigger] self.task_manager@[k] < self.tasks@.len()
        &&& self.processor.current_spec() matches Some(p) ==> p < self.tasks@.len()
        &&& self.task_manager@.no_duplicates()
        &&& self.processor.current_spec() matches Some(p) ==> !self.task_manager@.contains(p)
    }

    /// A kernel with no tasks yet.
    pub fn new(frame_allocator: StackFrameAllocator, kernel_space: MemorySet) -> (r: Self)
        requires
            frame_allocator.wf(),
            frame_allocator.end() <= crate::address::PPN_LIMIT,
            kernel_space.wf_in(&frame_allocator),
        ensures
            r.wf(),
            r.tasks@.len() == 0,
            r.task_manager@.len() == 0,
            r.processor.current_spec() is None,
    {
        Kernel {
            frame_allocator,
            kernel_space,
            tasks: Vec::new(),
            task_manager: TaskManager::new(),
            processor: Processor::new(),
        }
    }

    /// Builds a task from an image, with the next pid, and puts it at the
    /// back of the ready queue. `None` when there are too many tasks for the
    /// kernel-stack slots or the task cannot be built.
    pub fn add_task_from_elf(
        &mut self,
        segments: &Vec<ElfSegment>,
        entry: u64,
        elf_data: &[u8],
        platform: &Platform,
    ) -> (r: Option<usize>)
        requires
            old(self).wf(),
        ensures
            final(self).wf(),
            r matches Some(pid) ==> pid == old(self).tasks@.len() && final(self).tasks@.len() == pid + 1
                && final(self).task_manager@ == old(self).task_manager@.push(pid)
                && final(self).tasks@[pid as int].task_status == TaskStatus::Ready
                && final(self).tasks@[pid as int].memory_set.areas().len() == segments@.len() + 3
                && forall|i: int| 0 <= i < segments@.len() ==> #[trigger] crate::memory_set::segment_loaded(
                    final(self).tasks@[pid as int].memory_set.areas()[i],
                    segments@[i],
                    final(self).tasks@[pid as int].memory_set.view(),
                ) && final(self).tasks@[pid as int].memory_set.areas()[i].fresh_frames(
                    final(self).tasks@[pid as int].memory_set.areas()[i].start() as int,
                    final(self).tasks@[pid as int].memory_set.areas()[i].end() as int,
                    old(self).frame_allocator.allocated(),
                    final(self).frame_allocator.allocated(),
                ),
            r is Some ==> old(self).frame_allocator.allocated().subset_of(final(self).frame_allocator.allocated()),
            old(self).tasks@.len() <= MAX_KERNEL_STACK_SLOT && crate::task::task_fits(
                old(self).kernel_space,
                old(self).frame_allocator,
                segments@,
                elf_data@.len() as int,
                old(self).tasks@.len() as int,
            ) ==> r == Some(old(self).tasks@.len() as usize),
            r is None ==> final(self).tasks@.len() == old(self).tasks@.len() && final(self).task_manager@
                == old(self).task_manager@,
            final(self).processor.current_spec() == old(self).processor.current_spec(),
    {
        let pid = self.tasks.len();
        if pid as u64 > MAX_KERNEL_STACK_SLOT {
            return None;
        }
        let ghost tasks0 = self.tasks@;
        match TaskControlBlock::new(
            &mut self.frame_allocator,
            &mut self.kernel_space,
            segments,
            entry,
            elf_data,
            pid as u64,
            pid,
            platform,
        ) {
            None => None,
            Some(t) => {
                self.tasks.push(t);
                self.task_manager.add(pid);
                proof {
                    assert forall|i: int| 0 <= i < self.tasks@.len() implies (#[trigger] self.tasks@[i]).pid == i
                        && self.tasks@[i].memory_set.wf_in(&self.frame_allocator)
                        && self.tasks@[i].program_brk <= crate::address::VA_LIMIT by {
                        if i < pid {
                            assert(self.tasks@[i] == tasks0[i]);
                        }
                    };
                    assert forall|i: int, j: int| 0 <= i < self.tasks@.len() && 0 <= j < self.tasks@[i].children@.len()
                        implies #[trigger] self.tasks@[i].children@[j] < self.tasks@.len() by {
                        if i < pid {
                            assert(self.tasks@[i] == tasks0[i]);
                        }
                    };
                    assert forall|k: int| 0 <= k < self.task_manager@.len() implies #[trigger] self.task_manager@[k]
                        < self.tasks@.len() by {
                        if k < self.task_manager@.len() - 1 {
                            assert(self.task_manager@[k] == old(self).task_manager@[k]);
                        }
                    };
                }
                Some(pid)
            },
        }
    }

    /// One round of the idle loop: takes the task at the front of the ready
    /// queue, marks it running and makes it current. Returns its pid, whose
    /// context the core then switches to from the idle context; `None` when
    /// the queue is empty.
    pub fn run_next_task(&mut self) -> (r: Option<usize>)
        requires
            old(self).wf(),
        ensures
            final(self).wf(),
            final(self).tasks@.len() == old(self).tasks@.len(),
            old(self).task_manager@.len() > 0 ==> r == Some(old(self).task_manager@[0])
                && final(self).task_manager@ == old(self).task_manager@.drop_first()
                && final(self).processor.current_spec() == r
                && final(self).tasks@[r.unwrap() as int].task_status == TaskStatus::Running,
            old(self).task_manager@.len() == 0 ==> r is None && final(self).task_manager@
                == old(self).task_manager@ && final(self).processor.current_spec()
                == old(self).processor.current_spec(),
    {
        match self.task_manager.fetch() {
            None => None,
            Some(pid) => {
                proof {
                    assert(old(self).task_manager@[0] == pid);
                }
                self.set_status(pid, TaskStatus::Running);
                self.processor.set_current(pid);
                proof {
                    assert forall|k: int| 0 <= k < self.task_manager@.len() implies #[trigger] self.task_manager@[k]
                        < self.tasks@.len() by {
                        assert(self.task_manager@[k] == old(self).task_manager@[k + 1]);
                    };
                }
                Some(pid)
            },
        }
    }

    /// Sets the status of task `pid`.
    fn set_status(&mut self, pid: usize, status: TaskStatus)
        requires
            old(self).wf(),
            pid < old(self).tasks@.len(),
        ensures
            final(self).wf(),
            final(self).tasks@.len() == old(self).tasks@.len(),
            final(self).tasks@[pid as int].task_status == status,
            forall|i: int| 0 <= i < old(self).tasks@.len() && i != pid ==> #[trigger] final(self).tasks@[i] == old(self).tasks@[i],
            final(self).task_manager@ == old(self).task_manager@,
            final(self).processor == old(self).processor,
            final(self).tasks@[pid as int].pid == old(self).tasks@[pid as int].pid,
            final(self).tasks@[pid as int].exit_code == old(self).tasks@[pid as int].exit_code,
            final(self).tasks@[pid as int].trap_cx == old(self).tasks@[pid as int].trap_cx,
    {
        self.tasks[pid].task_status = status;
        proof {
            assert forall|i: int, j: int| 0 <= i < self.tasks@.len() && 0 <= j < self.tasks@[i].children@.len()
                implies #[trigger] self.tasks@[i].children@[j] < self.tasks@.len() by {
                if i != pid {
                    assert(self.tasks@[i] == old(self).tasks@[i]);
                } else {
                    assert(self.tasks@[i].children == old(self).tasks@[i].children);
                }
            };
        }
    }


    /// Editing one task in place, keeping its pid, its children and the
    /// shape of its address space, keeps the kernel well formed.
    pub(crate) proof fn lemma_wf_after_edit(&self, before: Seq<TaskControlBlock>, p: int)
        requires
            0 <= p < before.len(),
            self.tasks@.len() == before.len(),
            forall|i: int| 0 <= i < before.len() && i != p ==> #[trigger] self.tasks@[i] == before[i],
            forall|i: int| 0 <= i < before.len() ==> (#[trigger] before[i]).pid == i,
            forall|i: int, j: int| 0 <= i < before.len() && 0 <= j < before[i].children@.len()
                ==> #[trigger] before[i].children@[j] < before.len(),
            self.tasks@[p].pid == before[p].pid,
            self.tasks@[p].children@.len() == 0 || self.tasks@[p].children@ == before[p].children@,
            self.tasks@[p].memory_set.wf_in(&self.frame_allocator),
            self.tasks@[p].program_brk <= crate::address::VA_LIMIT,
            forall|i: int| 0 <= i < before.len() ==> (#[trigger] before[i]).memory_set.wf_in(&self.frame_allocator)
                && before[i].program_brk <= crate::address::VA_LIMIT,
            self.frame_allocator.wf(),
            self.frame_allocator.end() <= crate::address::PPN_LIMIT,
            self.kernel_space.wf_in(&self.frame_allocator),
            forall|k: int| 0 <= k < self.task_manager@.len() ==> #[trigger] self.task_manager@[k] < self.tasks@.len(),
            self.processor.current_spec() matches Some(q) ==> q < self.tasks@.len(),
            self.task_manager@.no_duplicates(),
            self.processor.current_spec() matches Some(q) ==> !self.task_manager@.contains(q),
        ensures
            self.wf(),
    {
        assert forall|i: int| 0 <= i < self.tasks@.len() implies (#[trigger] self.tasks@[i]).pid == i
            && self.tasks@[i].memory_set.wf_in(&self.frame_allocator)
            && self.tasks@[i].program_brk <= crate::address::VA_LIMIT by {
            if i != p {
                assert(self.tasks@[i] == before[i]);
            }
        };
        assert forall|i: int, j: int| 0 <= i < self.tasks@.len() && 0 <= j < self.tasks@[i].children@.len()
            implies #[trigger] self.tasks@[i].children@[j] < self.tasks@.len() by {
            if i != p {
                assert(self.tasks@[i] == before[i]);
            }
        };
    }




    /// The arguments of the jump to the trampoline's restore routine for the
    /// current task: the trap context's address, the task's table token, and
    /// the routine's address, `restore_offset` bytes into the trampoline.
    pub fn trap_return_args(&self, restore_offset: u64) -> (r: (u64, u64, u64))
        requires
            self.wf(),
            self.processor.current_spec() is Some,
            restore_offset < crate::config::PAGE_SIZE,
        ensures
            r.0 == crate::config::TRAP_CONTEXT,
            r.1 == crate::page_table::SATP_SV39 + self.tasks@[self.processor.current_spec().unwrap() as int].memory_set.table().root(),
            r.2 == crate::config::TRAMPOLINE + restore_offset,
    {
        (crate::config::TRAP_CONTEXT, current_user_token(self), crate::config::TRAMPOLINE + restore_offset)
    }

}

/// The current task gives up the core: it becomes ready again and joins
/// the back of the ready queue, behind every task already waiting.
/// Returns its pid; the core then switches from its context to the idle
/// context.
pub fn suspend_current_and_run_next(kernel: &mut Kernel) -> (r: usize)
    requires
        old(kernel).wf(),
        old(kernel).processor.current_spec() is Some,
    ensures
        final(kernel).wf(),
        final(kernel).tasks@.len() == old(kernel).tasks@.len(),
        r == old(kernel).processor.current_spec().unwrap(),
        final(kernel).processor.current_spec() is None,
        final(kernel).task_manager@ == old(kernel).task_manager@.push(r),
        final(kernel).tasks@[r as int].task_status == TaskStatus::Ready,
        final(kernel).tasks@[r as int].trap_cx == old(kernel).tasks@[r as int].trap_cx,
        forall|i: int| 0 <= i < old(kernel).tasks@.len() && i != r ==> #[trigger] final(kernel).tasks@[i] == old(kernel).tasks@[i],
{
    let pid = kernel.processor.take_current().unwrap();
    kernel.set_status(pid, TaskStatus::Ready);
    kernel.task_manager.add(pid);
    proof {
        assert forall|k: int| 0 <= k < kernel.task_manager@.len() implies #[trigger] kernel.task_manager@[k]
            < kernel.tasks@.len() by {
            if k < old(kernel).task_manager@.len() {
                assert(kernel.task_manager@[k] == old(kernel).task_manager@[k]);
            }
        };
    }
    pid
}

/// The current task ends with `exit_code`. When it is the first task the
/// whole system halts, successfully when the code is 0. Otherwise the
/// task becomes a zombie keeping its exit code, its children are handed
/// to the first task, and the frames of its address space go back to
/// the allocator; the core then switches to the idle context.
pub fn exit_current_and_run_next(kernel: &mut Kernel, exit_code: i32) -> (r: ExitOutcome)
    requires
        old(kernel).wf(),
        old(kernel).processor.current_spec() is Some,
    ensures
        final(kernel).wf(),
        final(kernel).tasks@.len() == old(kernel).tasks@.len(),
        final(kernel).processor.current_spec() is None,
        final(kernel).task_manager@ == old(kernel).task_manager@,
        old(kernel).processor.current_spec() == Some(INITPROC_PID) ==> r == ExitOutcome::Shutdown(exit_code == 0),
        ({
            let pid = old(kernel).processor.current_spec().unwrap();
            pid != INITPROC_PID ==> {
                &&& r == ExitOutcome::Exited(pid)
                &&& final(kernel).tasks@[pid as int].task_status == TaskStatus::Zombie
                &&& final(kernel).tasks@[pid as int].exit_code == exit_code
                &&& final(kernel).tasks@[pid as int].children@.len() == 0
                &&& final(kernel).frame_allocator.free_count() >= old(kernel).frame_allocator.free_count()
                &&& forall|i: int, v: u64|
                    0 <= i < old(kernel).tasks@[pid as int].memory_set.areas().len()
                        && old(kernel).tasks@[pid as int].memory_set.areas()[i].start() <= v
                        < old(kernel).tasks@[pid as int].memory_set.areas()[i].end()
                        && old(kernel).tasks@[pid as int].memory_set.areas()[i].frames().contains_key(v)
                        && !old(kernel).tasks@[pid as int].memory_set.table().node_frames().contains(
                        old(kernel).tasks@[pid as int].memory_set.areas()[i].frames()[v].ppn.0,
                    ) ==> !#[trigger] final(kernel).frame_allocator.allocated().contains(
                        old(kernel).tasks@[pid as int].memory_set.areas()[i].frames()[v].ppn.0,
                    )
                &&& forall|i: int, v: u64|
                    0 <= i < final(kernel).tasks@[pid as int].memory_set.areas().len()
                        && final(kernel).tasks@[pid as int].memory_set.areas()[i].start() <= v
                        < final(kernel).tasks@[pid as int].memory_set.areas()[i].end()
                        ==> !#[trigger] final(kernel).tasks@[pid as int].memory_set.areas()[i].frames().contains_key(v)
                &&& final(kernel).tasks@[INITPROC_PID as int].children@ == old(kernel).tasks@[INITPROC_PID as int].children@
                    + old(kernel).tasks@[pid as int].children@
                &&& forall|j: int| 0 <= j < old(kernel).tasks@[pid as int].children@.len()
                    ==> #[trigger] final(kernel).tasks@[old(kernel).tasks@[pid as int].children@[j] as int].parent
                    == Some(INITPROC_PID)
            }
        }),
{
    let pid = kernel.processor.take_current().unwrap();
    if pid == INITPROC_PID {
        return ExitOutcome::Shutdown(exit_code == 0);
    }
    let ghost tasks0 = kernel.tasks@;
    let children = kernel.tasks[pid].children.split_off(0);
    proof {
        assert(children@ == tasks0[pid as int].children@);
        kernel.lemma_wf_after_edit(tasks0, pid as int);
    }
    // the children go to the first task
    let mut k: usize = 0;
    while k < children.len()
        invariant
            kernel.wf(),
            kernel.frame_allocator.free_count() == old(kernel).frame_allocator.free_count(),
            kernel.frame_allocator == old(kernel).frame_allocator,
            kernel.tasks@[pid as int].memory_set == old(kernel).tasks@[pid as int].memory_set,
            pid != INITPROC_PID,
            pid < kernel.tasks@.len(),
            kernel.tasks@.len() == tasks0.len(),
            kernel.processor.current_spec() is None,
            kernel.task_manager@ == old(kernel).task_manager@,
            k <= children@.len(),
            children@ == tasks0[pid as int].children@,
            forall|j: int| 0 <= j < children@.len() ==> #[trigger] children@[j] < tasks0.len(),
            kernel.tasks@[pid as int].children@.len() == 0,
            kernel.tasks@[INITPROC_PID as int].children@ == tasks0[INITPROC_PID as int].children@ + children@.subrange(0, k as int),
            forall|j: int| 0 <= j < k ==> #[trigger] kernel.tasks@[children@[j] as int].parent == Some(INITPROC_PID),
        decreases children@.len() - k,
    {
        let c = children[k];
        let ghost t1 = kernel.tasks@;
        kernel.tasks[c].parent = Some(INITPROC_PID);
        proof {
            kernel.lemma_wf_after_edit(t1, c as int);
        }
        let ghost t2 = kernel.tasks@;
        kernel.tasks[INITPROC_PID].children.push(c);
        proof {
            assert(kernel.tasks@[INITPROC_PID as int].children@ =~= tasks0[INITPROC_PID as int].children@ + children@.subrange(0, k + 1));
            assert forall|i: int, j: int| 0 <= i < kernel.tasks@.len() && 0 <= j < kernel.tasks@[i].children@.len()
                implies #[trigger] kernel.tasks@[i].children@[j] < kernel.tasks@.len() by {
                if i != INITPROC_PID {
                    assert(kernel.tasks@[i] == t2[i]);
                } else if j < t2[i].children@.len() {
                    assert(kernel.tasks@[i].children@[j] == t2[i].children@[j]);
                }
            };
            assert forall|i: int| 0 <= i < kernel.tasks@.len() implies (#[trigger] kernel.tasks@[i]).pid == i
                && kernel.tasks@[i].memory_set.wf_in(&kernel.frame_allocator)
                && kernel.tasks@[i].program_brk <= crate::address::VA_LIMIT by {
                assert(t2[i].pid == i);
            };
            assert forall|j: int| 0 <= j < k + 1 implies #[trigger] kernel.tasks@[children@[j] as int].parent == Some(INITPROC_PID) by {
                assert(t2[children@[j] as int].parent == Some(INITPROC_PID));
            };
        }
        k = k + 1;
    }
    proof {
        assert(children@.subrange(0, children@.len() as int) == children@);
    }
    let ghost t3 = kernel.tasks@;
    kernel.tasks[pid].task_status = TaskStatus::Zombie;
    kernel.tasks[pid].exit_code = exit_code;
    kernel.tasks[pid].memory_set.recycle_data_pages(&mut kernel.frame_allocator);
    proof {
        kernel.lemma_wf_after_edit(t3, pid as int);
        assert forall|j: int| 0 <= j < children@.len() implies #[trigger] kernel.tasks@[children@[j] as int].parent == Some(INITPROC_PID) by {
            assert(t3[children@[j] as int].parent == Some(INITPROC_PID));
        };
    }
    ExitOutcome::Exited(pid)
}

/// The token of the current task's page table.
pub fn current_user_token(kernel: &Kernel) -> (r: u64)
    requires
        kernel.wf(),
        kernel.processor.current_spec() is Some,
    ensures
        r == crate::page_table::SATP_SV39 + kernel.tasks@[kernel.processor.current_spec().unwrap() as int].memory_set.table().root(),
{
    let pid = kernel.processor.current().unwrap();
    proof {
        assert(kernel.tasks@[pid as int].memory_set.wf_in(&kernel.frame_allocator));
    }
    kernel.tasks[pid].get_user_token()
}

/// Moves the current task's program break by `size`, as
/// `TaskControlBlock::change_program_brk` does.
pub fn change_program_brk(kernel: &mut Kernel, size: i32) -> (r: Option<u64>)
    requires
        old(kernel).wf(),
        old(kernel).processor.current_spec() is Some,
    ensures
        final(kernel).wf(),
        final(kernel).tasks@.len() == old(kernel).tasks@.len(),
        final(kernel).processor.current_spec() == old(kernel).processor.current_spec(),
        final(kernel).task_manager@ == old(kernel).task_manager@,
        ({
            let p = old(kernel).processor.current_spec().unwrap() as int;
            let t0 = old(kernel).tasks@[p];
            let t1 = final(kernel).tasks@[p];
            &&& r matches Some(b) ==> b == t0.program_brk && t1.program_brk == t0.program_brk + size
            &&& r is None ==> t1.program_brk == t0.program_brk
            &&& t0.program_brk + size < t0.heap_bottom ==> r is None
            &&& t0.brk_succeeds(&old(kernel).frame_allocator, size as int) ==> r == Some(t0.program_brk)
            &&& t1.trap_cx == t0.trap_cx
            &&& t1.task_status == t0.task_status
        }),
{
    let pid = kernel.processor.current().unwrap();
    let ghost tasks0 = kernel.tasks@;
    proof {
        assert(tasks0[pid as int].memory_set.wf_in(&kernel.frame_allocator));
    }
    let r = kernel.tasks[pid].change_program_brk(&mut kernel.frame_allocator, size);
    proof {
        assert forall|i: int| 0 <= i < tasks0.len() implies (#[trigger] tasks0[i]).memory_set.wf_in(&kernel.frame_allocator)
            && tasks0[i].program_brk <= crate::address::VA_LIMIT by {
            assert(tasks0[i].memory_set.wf_in(&old(kernel).frame_allocator));
        };
        assert(kernel.kernel_space.wf_in(&kernel.frame_allocator)) by {
            assert(old(kernel).kernel_space.wf_in(&old(kernel).frame_allocator));
        };
        kernel.lemma_wf_after_edit(tasks0, pid as int);
    }
    r
}

/// The current task's trap context.
pub fn current_trap_cx(kernel: &Kernel) -> (r: &TrapContext)
    requires
        kernel.wf(),
        kernel.processor.current_spec() is Some,
    ensures
        *r == kernel.tasks@[kernel.processor.current_spec().unwrap() as int].trap_cx,
{
    let pid = kernel.processor.current().unwrap();
    kernel.tasks[pid].get_trap_cx()
}

/// The ready queue after one round in which the task at its front runs and
/// then yields.
pub open spec fn yield_round(q: Seq<usize>) -> Seq<usize> {
    q.drop_first().push(q[0])
}

/// The ready queue after `k` such rounds.
pub open spec fn yield_rounds(q: Seq<usize>, k: nat) -> Seq<usize>
    decreases k,
{
    if k == 0 {
        q
    } else {
        yield_round(yield_rounds(q, (k - 1) as nat))
    }
}

/// One round of the idle loop followed by the running task's yield moves
/// the ready queue by exactly one `yield_round`.
pub proof fn lemma_round_is_yield_round(before: Seq<usize>, fetched: Seq<usize>, after: Seq<usize>, ran: usize)
    requires
        before.len() > 0,
        ran == before[0],
        fetched == before.drop_first(),
        after == fetched.push(ran),
    ensures
        after == yield_round(before),
{
}

/// Tasks that each yield as soon as they run are run in the order in which
/// they were queued, over and over: with `q` queued, the task that runs in
/// round `k` is `q[k % |q|]`, and the queue then holds the same tasks in the
/// same cyclic order.
pub proof fn lemma_fifo_round_robin(q: Seq<usize>, k: nat)
    requires
        q.len() > 0,
    ensures
        yield_rounds(q, k) == q.subrange((k % q.len()) as int, q.len() as int) + q.subrange(0, (k % q.len()) as int),
        yield_rounds(q, k)[0] == q[(k % q.len()) as int],
    decreases k,
{
    let n = q.len();
    if k == 0 {
        assert(yield_rounds(q, 0) == q);
        assert(0nat % n == 0);
        assert(q.subrange(0, n as int) + q.subrange(0, 0) =~= q);
    } else {
        lemma_fifo_round_robin(q, (k - 1) as nat);
        let r = ((k - 1) as nat % n) as int;
        let p = yield_rounds(q, (k - 1) as nat);
        assert(yield_rounds(q, k) == yield_round(p));
        assert(0 <= r < n);
        assert(p[0] == q[r]);
        let kk = k as int;
        let nn = n as int;
        assert((k % q.len()) as int == kk % nn);
        if r + 1 == nn {
            assert(kk % nn == 0) by {
                vstd::arithmetic::div_mod::lemma_mod_add_multiples_vanish(kk, nn);
                assert((kk - 1) % nn == nn - 1);
                vstd::arithmetic::div_mod::lemma_fundamental_div_mod(kk - 1, nn);
                vstd::arithmetic::div_mod::lemma_mod_multiples_basic(((kk - 1) / nn) + 1, nn);
                assert(kk == (((kk - 1) / nn) + 1) * nn) by (nonlinear_arith)
                    requires kk - 1 == nn * ((kk - 1) / nn) + (nn - 1);
            };
            assert(yield_round(p) =~= q.subrange(0, nn) + q.subrange(0, 0));
            assert(yield_rounds(q, k)[0] == q[0]);
            assert(yield_rounds(q, k) == q.subrange((k % q.len()) as int, q.len() as int) + q.subrange(0, (k % q.len()) as int));
        } else {
            assert(kk % nn == r + 1) by {
                vstd::arithmetic::div_mod::lemma_fundamental_div_mod(kk - 1, nn);
                vstd::arithmetic::div_mod::lemma_mod_add_multiples_vanish(r + 1, nn);
                assert(kk == nn * ((kk - 1) / nn) + (r + 1));
                vstd::arithmetic::div_mod::lemma_mod_multiples_vanish((kk - 1) / nn, r + 1, nn);
                vstd::arithmetic::div_mod::lemma_small_mod((r + 1) as nat, nn as nat);
            };
            assert(yield_round(p) =~= q.subrange(r + 1, nn) + q.subrange(0, r + 1));
            assert(yield_rounds(q, k)[0] == q[r + 1]);
            assert(yield_rounds(q, k) == q.subrange((k % q.len()) as int, q.len() as int) + q.subrange(0, (k % q.len()) as int));
        }
    }
}

} // verus!
