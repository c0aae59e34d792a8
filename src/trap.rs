use vstd::prelude::*;
use crate::config::{CLOCK_FREQ, MSEC_PER_SEC, TICKS_PER_SEC};
use crate::page_table::{chunk_at, total_len, translate_byte_buffer_ok, ByteChunk};
use crate::processor::{current_trap_cx, exit_current_and_run_next, suspend_current_and_run_next, ExitOutcome, Kernel, INITPROC_PID};
use crate::syscall::{syscall, SyscallOutcome, FD_STDOUT, SYSCALL_EXIT, SYSCALL_GET_TIME, SYSCALL_SBRK, SYSCALL_WRITE, SYSCALL_YIELD};
use crate::task::TaskStatus;

verus! {

/// The exit code of a task killed by a store or load fault.
pub const PAGE_FAULT_EXIT_CODE: i32 = -2;

/// The exit code of a task killed for an illegal instruction.
pub const ILLEGAL_INSTRUCTION_EXIT_CODE: i32 = -3;

/// Why the core trapped from user mode.
#[derive(Clone, Copy, Debug, PartialEq, Eq, Structural)]
pub enum TrapCause {
    UserEnvCall,
    StoreFault,
    StorePageFault,
    LoadFault,
    LoadPageFault,
    IllegalInstruction,
    SupervisorTimer,
    /// Any other cause, by its code.
    Other(u64),
}

/// What the core does once the kernel has handled a trap.
pub enum TrapOutcome {
    /// Return to the current task.
    Resume,
    /// Print these bytes of physical memory, then return to the current task.
    Print(Vec<ByteChunk>),
    /// Program the timer for this deadline, then switch to the idle flow.
    Preempt(u64),
    /// Switch to the idle flow, which picks the next task.
    SwitchToIdle,
    /// Halt the machine, reporting success or failure.
    Halt(bool),
    /// A trap the kernel cannot handle: a kernel bug, fatal.
    Fatal(TrapCause),
    /// A system call the kernel does not know: fatal.
    FatalSyscall(u64),
}

/// The timer deadline one tick period after `now`.
pub fn set_next_trigger(now: u64) -> (r: u64)
    ensures
        r == now.saturating_add(CLOCK_FREQ / TICKS_PER_SEC),
{
    now.saturating_add(CLOCK_FREQ / TICKS_PER_SEC)
}

/// The outcome of the exit of the current task.
pub open spec fn exit_outcome(current: usize) -> TrapOutcome {
    if current == INITPROC_PID {
        TrapOutcome::Halt(false)
    } else {
        TrapOutcome::SwitchToIdle
    }
}

/// Handles a trap of the current task with cause `cause`; `ticks` is the
/// timer's count. A system call advances the saved program counter past
/// the call and leaves its result in `a0`; a store, load or instruction
/// fault kills the task; a timer interrupt preempts it.
pub fn trap_handler(kernel: &mut Kernel, cause: TrapCause, ticks: u64) -> (r: TrapOutcome)
    requires
        old(kernel).wf(),
        old(kernel).processor.current_spec() is Some,
    ensures
        final(kernel).wf(),
        final(kernel).tasks@.len() == old(kernel).tasks@.len(),
        ({
            let pid = old(kernel).processor.current_spec().unwrap();
            let cx0 = old(kernel).tasks@[pid as int].trap_cx;
            let cx1 = final(kernel).tasks@[pid as int].trap_cx;
            let id = cx0.x[17];
            let t0 = old(kernel).tasks@[pid as int];
            let t1 = final(kernel).tasks@[pid as int];
            let view0 = t0.memory_set.view();
            &&& cause == TrapCause::SupervisorTimer ==> r == TrapOutcome::Preempt(
                ticks.saturating_add(CLOCK_FREQ / TICKS_PER_SEC),
            ) && final(kernel).task_manager@ == old(kernel).task_manager@.push(pid)
                && final(kernel).processor.current_spec() is None
                && final(kernel).tasks@[pid as int].task_status == TaskStatus::Ready && cx1 == cx0
            &&& (cause == TrapCause::StoreFault || cause == TrapCause::StorePageFault || cause
                == TrapCause::LoadFault || cause == TrapCause::LoadPageFault || cause == TrapCause::IllegalInstruction)
                ==> final(kernel).task_manager@ == old(kernel).task_manager@
            &&& cause == TrapCause::UserEnvCall && id == SYSCALL_SBRK ==> r is Resume && cx1.sepc == cx0.sepc.wrapping_add(4)
                && ((cx1.x[10] == t0.program_brk && t1.program_brk == t0.program_brk + (cx0.x[10] as i32))
                || (cx1.x[10] == 0xffff_ffff_ffff_ffffu64 && t1.program_brk == t0.program_brk))
                && (t0.brk_succeeds(&old(kernel).frame_allocator, (cx0.x[10] as i32) as int) ==> cx1.x[10] == t0.program_brk
                    && t1.program_brk == t0.program_brk + (cx0.x[10] as i32))
            &&& cause == TrapCause::UserEnvCall && id == SYSCALL_WRITE ==> cx1.sepc == cx0.sepc.wrapping_add(4)
                && (r is Print || r is Resume)
                && (r is Print ==> cx1.x[10] == cx0.x[12] && total_len(r->Print_0@) == cx0.x[12]
                    && forall|i: int| 0 <= i < r->Print_0@.len() ==> #[trigger] chunk_at(
                        view0,
                        r->Print_0@[i],
                        cx0.x[11] + total_len(r->Print_0@.take(i)),
                    ))
                && (r is Resume ==> cx1.x[10] == 0xffff_ffff_ffff_ffffu64)
                && (cx0.x[10] == FD_STDOUT && cx0.x[12] < 0x8000_0000_0000_0000 ==> (r is Print
                    <==> translate_byte_buffer_ok(view0, cx0.x[11], cx0.x[12])))
                && (cx0.x[10] != FD_STDOUT ==> r is Resume)
            &&& cause == TrapCause::UserEnvCall && id != SYSCALL_WRITE && id != SYSCALL_EXIT && id != SYSCALL_YIELD
                && id != SYSCALL_GET_TIME && id != SYSCALL_SBRK ==> r == TrapOutcome::FatalSyscall(id)
                && *final(kernel) == *old(kernel)
            &&& (cause == TrapCause::StoreFault || cause == TrapCause::StorePageFault || cause
                == TrapCause::LoadFault || cause == TrapCause::LoadPageFault) ==> r == exit_outcome(pid)
                && final(kernel).processor.current_spec() is None && (pid != INITPROC_PID ==> final(kernel).tasks@[pid as int].task_status == TaskStatus::Zombie && final(kernel).tasks@[pid as int].exit_code
                == PAGE_FAULT_EXIT_CODE)
            &&& cause == TrapCause::IllegalInstruction ==> r == exit_outcome(pid)
                && final(kernel).processor.current_spec() is None && (pid != INITPROC_PID ==> final(kernel).tasks@[pid as int].task_status == TaskStatus::Zombie && final(kernel).tasks@[pid as int].exit_code
                == ILLEGAL_INSTRUCTION_EXIT_CODE)
            &&& cause is Other ==> r == TrapOutcome::Fatal(cause)
            &&& cause == TrapCause::UserEnvCall && id == SYSCALL_YIELD ==> r is SwitchToIdle
                && cx1.sepc == cx0.sepc.wrapping_add(4) && cx1.x[10] == 0
                && final(kernel).task_manager@ == old(kernel).task_manager@.push(pid)
            &&& cause == TrapCause::UserEnvCall && id == SYSCALL_GET_TIME ==> r is Resume
                && cx1.sepc == cx0.sepc.wrapping_add(4) && cx1.x[10] == ticks / (CLOCK_FREQ / MSEC_PER_SEC)
            &&& cause == TrapCause::UserEnvCall && id == SYSCALL_EXIT ==> r == (if pid == INITPROC_PID {
                TrapOutcome::Halt(cx0.x[10] as i32 == 0)
            } else {
                TrapOutcome::SwitchToIdle
            })
            &&& cause == TrapCause::UserEnvCall && (r is Resume || r is Print) ==> cx1.sepc == cx0.sepc.wrapping_add(4)
                && final(kernel).processor.current_spec() == Some(pid)
            &&& cause == TrapCause::UserEnvCall && (r is Resume || r is Print || (id == SYSCALL_YIELD && r is SwitchToIdle))
                ==> (forall|k: int| 0 <= k < 32 && k != 10 ==> cx1.x[k] == cx0.x[k]) && cx1.sstatus == cx0.sstatus
                && cx1.kernel_satp == cx0.kernel_satp && cx1.kernel_sp == cx0.kernel_sp && cx1.trap_handler
                == cx0.trap_handler
        }),
{
    let pid = kernel.processor.current().unwrap();
    match cause {
        TrapCause::UserEnvCall => {
            let cx = *current_trap_cx(kernel);
            let ghost pre = kernel.tasks@;
            let outcome = syscall(kernel, cx.x[17], [cx.x[10], cx.x[11], cx.x[12]], ticks);
            let (ret, r) = match outcome {
                SyscallOutcome::Return(v) => (v as u64, TrapOutcome::Resume),
                SyscallOutcome::Write(chunks, v) => (v as u64, TrapOutcome::Print(chunks)),
                SyscallOutcome::Yielded => (0u64, TrapOutcome::SwitchToIdle),
                SyscallOutcome::Exited(ExitOutcome::Exited(_)) => {
                    return TrapOutcome::SwitchToIdle;
                },
                SyscallOutcome::Exited(ExitOutcome::Shutdown(ok)) => {
                    return TrapOutcome::Halt(ok);
                },
                SyscallOutcome::Unsupported(id) => {
                    return TrapOutcome::FatalSyscall(id);
                },
            };
            let ghost tasks0 = kernel.tasks@;
            proof {
                assert((-1i64) as u64 == 0xffff_ffff_ffff_ffffu64) by (bit_vector);
                if cx.x[17] == SYSCALL_WRITE && r is Resume {
                    assert(ret == 0xffff_ffff_ffff_ffffu64);
                }
                if cx.x[17] == SYSCALL_SBRK {
                    let v = outcome->Return_0;
                    assert(v >= 0 ==> ret == pre[pid as int].program_brk);
                    assert((-1i64) as u64 == 0xffff_ffff_ffff_ffffu64) by (bit_vector);
                    assert(v < 0 ==> ret == 0xffff_ffff_ffff_ffffu64);
                }
            }
            kernel.tasks[pid].trap_cx.sepc = cx.sepc.wrapping_add(4);
            kernel.tasks[pid].trap_cx.x[10] = ret;
            proof {
                kernel.lemma_wf_after_edit(tasks0, pid as int);
                assert(kernel.tasks@[pid as int].program_brk == tasks0[pid as int].program_brk);
            }
            r
        },
        TrapCause::StoreFault | TrapCause::StorePageFault | TrapCause::LoadFault | TrapCause::LoadPageFault => {
            match exit_current_and_run_next(kernel, PAGE_FAULT_EXIT_CODE) {
                ExitOutcome::Exited(_) => TrapOutcome::SwitchToIdle,
                ExitOutcome::Shutdown(ok) => TrapOutcome::Halt(ok),
            }
        },
        TrapCause::IllegalInstruction => {
            match exit_current_and_run_next(kernel, ILLEGAL_INSTRUCTION_EXIT_CODE) {
                ExitOutcome::Exited(_) => TrapOutcome::SwitchToIdle,
                ExitOutcome::Shutdown(ok) => TrapOutcome::Halt(ok),
            }
        },
        TrapCause::SupervisorTimer => {
            let deadline = set_next_trigger(ticks);
            suspend_current_and_run_next(kernel);
            TrapOutcome::Preempt(deadline)
        },
        TrapCause::Other(_) => TrapOutcome::Fatal(cause),
    }
}

} // verus!
