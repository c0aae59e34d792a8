use vstd::prelude::*;
use crate::config::{CLOCK_FREQ, MSEC_PER_SEC};
use crate::page_table::{chunk_at, total_len, translate_byte_buffer_ok, ByteChunk};
use crate::processor::{change_program_brk, exit_current_and_run_next, suspend_current_and_run_next, ExitOutcome, Kernel};

verus! {

pub const SYSCALL_WRITE: u64 = 64;

pub const SYSCALL_EXIT: u64 = 93;

pub const SYSCALL_YIELD: u64 = 124;

pub const SYSCALL_GET_TIME: u64 = 169;

pub const SYSCALL_SBRK: u64 = 214;

/// The descriptor of standard output.
pub const FD_STDOUT: u64 = 1;

/// Seconds and microseconds.
#[derive(Clone, Copy, Debug, PartialEq, Eq, Structural)]
pub struct TimeVal {
    pub sec: u64,
    pub usec: u64,
}

/// Milliseconds from timer ticks.
pub fn get_time_ms(ticks: u64) -> (r: u64)
    ensures
        r == ticks / (CLOCK_FREQ / MSEC_PER_SEC),
{
    ticks / (CLOCK_FREQ / MSEC_PER_SEC)
}

/// What a system call asks of the world outside the kernel's state.
pub enum SyscallOutcome {
    /// Resume the current task with this value.
    Return(i64),
    /// The current task gave up the core; it resumes later with 0.
    Yielded,
    /// The current task exited.
    Exited(ExitOutcome),
    /// Print these bytes of physical memory, then resume with the value.
    Write(Vec<ByteChunk>, i64),
    /// A system call number the kernel does not know: fatal.
    Unsupported(u64),
}

/// The current task exits with `exit_code`.
pub fn sys_exit(kernel: &mut Kernel, exit_code: i32) -> (r: ExitOutcome)
    requires
        old(kernel).wf(),
        old(kernel).processor.current_spec() is Some,
    ensures
        final(kernel).wf(),
        final(kernel).tasks@.len() == old(kernel).tasks@.len(),
        final(kernel).processor.current_spec() is None,
        final(kernel).task_manager@ == old(kernel).task_manager@,
        old(kernel).processor.current_spec() == Some(crate::processor::INITPROC_PID) ==> r
            == ExitOutcome::Shutdown(exit_code == 0),
        old(kernel).processor.current_spec() != Some(crate::processor::INITPROC_PID) ==> r
            == ExitOutcome::Exited(old(kernel).processor.current_spec().unwrap()),
{
    exit_current_and_run_next(kernel, exit_code)
}

/// The current task gives up the core, and later sees 0.
pub fn sys_yield(kernel: &mut Kernel) -> (r: i64)
    requires
        old(kernel).wf(),
        old(kernel).processor.current_spec() is Some,
    ensures
        final(kernel).wf(),
        final(kernel).tasks@.len() == old(kernel).tasks@.len(),
        r == 0,
        final(kernel).processor.current_spec() is None,
        final(kernel).task_manager@ == old(kernel).task_manager@.push(old(kernel).processor.current_spec().unwrap()),
        final(kernel).tasks@[old(kernel).processor.current_spec().unwrap() as int].task_status == crate::task::TaskStatus::Ready,
        final(kernel).tasks@[old(kernel).processor.current_spec().unwrap() as int].trap_cx
            == old(kernel).tasks@[old(kernel).processor.current_spec().unwrap() as int].trap_cx,
{
    suspend_current_and_run_next(kernel);
    0
}

/// The time in milliseconds, from the timer's tick count.
pub fn sys_get_time(ticks: u64) -> (r: i64)
    ensures
        r == ticks / (CLOCK_FREQ / MSEC_PER_SEC),
{
    let ms = get_time_ms(ticks);
    proof {
        let t = ticks as int;
        assert(t / 12500 <= 0x7fff_ffff_ffff_ffff) by (nonlinear_arith)
            requires 0 <= t <= 0xffff_ffff_ffff_ffff;
    }
    ms as i64
}

/// Moves the current task's program break by `size`; the old break, or -1.
pub fn sys_sbrk(kernel: &mut Kernel, size: i32) -> (r: i64)
    requires
        old(kernel).wf(),
        old(kernel).processor.current_spec() is Some,
    ensures
        final(kernel).wf(),
        final(kernel).tasks@.len() == old(kernel).tasks@.len(),
        final(kernel).processor.current_spec() == old(kernel).processor.current_spec(),
        final(kernel).task_manager@ == old(kernel).task_manager@,
        ({
            let p = old(kernel).processor.current_spec().unwrap() as int;
            let t0 = old(kernel).tasks@[p];
            let t1 = final(kernel).tasks@[p];
            &&& r >= 0 ==> r == t0.program_brk && t1.program_brk == t0.program_brk + size
            &&& r < 0 ==> r == -1 && t1.program_brk == t0.program_brk
            &&& t0.program_brk + size < t0.heap_bottom ==> r == -1
            &&& t0.brk_succeeds(&old(kernel).frame_allocator, size as int) ==> r == t0.program_brk
            &&& t1.trap_cx == t0.trap_cx
        }),
{
    match change_program_brk(kernel, size) {
        Some(old_brk) => old_brk as i64,
        None => -1,
    }
}

/// Writes `len` bytes at `buf` of the current task to descriptor `fd`: the
/// chunks of physical memory to print, and `len`; -1 when `fd` is not
/// standard output or the buffer does not translate.
pub fn sys_write(kernel: &Kernel, fd: u64, buf: u64, len: u64) -> (r: (Option<Vec<ByteChunk>>, i64))
    requires
        kernel.wf(),
        kernel.processor.current_spec() is Some,
    ensures
        fd != FD_STDOUT ==> r.0 is None && r.1 == -1,
        r.0 is None ==> r.1 == -1,
        r.0 matches Some(chunks) ==> r.1 == len && total_len(chunks@) == len && fd == FD_STDOUT
            && forall|i: int| 0 <= i < chunks@.len() ==> #[trigger] chunk_at(
                kernel.tasks@[kernel.processor.current_spec().unwrap() as int].memory_set.view(),
                chunks@[i],
                buf + total_len(chunks@.take(i)),
            ),
        r.0 matches Some(chunks) ==> forall|i: int| 0 <= i < chunks@.len() - 1 ==> (#[trigger] chunks@[i]).end
            == crate::config::PAGE_SIZE,
        fd == FD_STDOUT && len < 0x8000_0000_0000_0000 ==> (r.0 is Some <==> translate_byte_buffer_ok(
            kernel.tasks@[kernel.processor.current_spec().unwrap() as int].memory_set.view(),
            buf,
            len,
        )),
{
    if fd != FD_STDOUT || len >= 0x8000_0000_0000_0000 {
        return (None, -1);
    }
    let pid = kernel.processor.current().unwrap();
    let t = &kernel.tasks[pid];
    proof {
        assert(kernel.tasks@[pid as int].memory_set.wf_in(&kernel.frame_allocator));
    }
    match t.memory_set.translate_buffer(buf, len) {
        None => (None, -1),
        Some(chunks) => (Some(chunks), len as i64),
    }
}

/// Dispatches system call `syscall_id` with `args` for the current task;
/// `ticks` is the timer's count, for the time call.
pub fn syscall(kernel: &mut Kernel, syscall_id: u64, args: [u64; 3], ticks: u64) -> (r: SyscallOutcome)
    requires
        old(kernel).wf(),
        old(kernel).processor.current_spec() is Some,
    ensures
        final(kernel).wf(),
        final(kernel).tasks@.len() == old(kernel).tasks@.len(),
        syscall_id == SYSCALL_YIELD ==> r is Yielded && final(kernel).task_manager@ == old(kernel).task_manager@.push(
            old(kernel).processor.current_spec().unwrap(),
        ),
        syscall_id == SYSCALL_EXIT ==> r == SyscallOutcome::Exited(
            if old(kernel).processor.current_spec() == Some(crate::processor::INITPROC_PID) {
                ExitOutcome::Shutdown(args[0] as i32 == 0)
            } else {
                ExitOutcome::Exited(old(kernel).processor.current_spec().unwrap())
            },
        ),
        syscall_id == SYSCALL_GET_TIME ==> r == SyscallOutcome::Return(
            (ticks / (CLOCK_FREQ / MSEC_PER_SEC)) as i64,
        ),
        syscall_id == SYSCALL_WRITE ==> (r is Write || r == SyscallOutcome::Return(-1i64)),
        syscall_id == SYSCALL_WRITE && args[0] != FD_STDOUT ==> r == SyscallOutcome::Return(-1i64),
        syscall_id == SYSCALL_WRITE && r is Write ==> r->Write_1 == args[2] && total_len(r->Write_0@) == args[2]
            && forall|i: int| 0 <= i < r->Write_0@.len() ==> #[trigger] chunk_at(
                old(kernel).tasks@[old(kernel).processor.current_spec().unwrap() as int].memory_set.view(),
                r->Write_0@[i],
                args[1] + total_len(r->Write_0@.take(i)),
            ),
        syscall_id == SYSCALL_WRITE && args[0] == FD_STDOUT && args[2] < 0x8000_0000_0000_0000 ==> (r is Write
            <==> translate_byte_buffer_ok(
            old(kernel).tasks@[old(kernel).processor.current_spec().unwrap() as int].memory_set.view(),
            args[1],
            args[2],
        )),
        syscall_id == SYSCALL_WRITE || syscall_id == SYSCALL_GET_TIME || (syscall_id != SYSCALL_EXIT
            && syscall_id != SYSCALL_YIELD && syscall_id != SYSCALL_SBRK) ==> *final(kernel) == *old(kernel),
        syscall_id == SYSCALL_YIELD ==> final(kernel).tasks@[old(kernel).processor.current_spec().unwrap() as int].task_status
            == crate::task::TaskStatus::Ready,
        syscall_id == SYSCALL_YIELD ==> final(kernel).tasks@[old(kernel).processor.current_spec().unwrap() as int].trap_cx
            == old(kernel).tasks@[old(kernel).processor.current_spec().unwrap() as int].trap_cx,
        syscall_id == SYSCALL_SBRK ==> final(kernel).tasks@[old(kernel).processor.current_spec().unwrap() as int].trap_cx
            == old(kernel).tasks@[old(kernel).processor.current_spec().unwrap() as int].trap_cx,
        syscall_id == SYSCALL_SBRK ==> r is Return && ({
            let v = r->Return_0;
            let p = old(kernel).processor.current_spec().unwrap() as int;
            let t0 = old(kernel).tasks@[p];
            let t1 = final(kernel).tasks@[p];
            &&& v >= 0 ==> v == t0.program_brk && t1.program_brk == t0.program_brk + (args[0] as i32)
            &&& v < 0 ==> v == -1 && t1.program_brk == t0.program_brk
            &&& t0.brk_succeeds(&old(kernel).frame_allocator, (args[0] as i32) as int) ==> v == t0.program_brk
        }),
        syscall_id != SYSCALL_WRITE && syscall_id != SYSCALL_EXIT && syscall_id != SYSCALL_YIELD
            && syscall_id != SYSCALL_GET_TIME && syscall_id != SYSCALL_SBRK ==> r == SyscallOutcome::Unsupported(
            syscall_id,
        ),
        syscall_id != SYSCALL_EXIT && syscall_id != SYSCALL_YIELD ==> final(kernel).processor.current_spec()
            == old(kernel).processor.current_spec(),
{
    if syscall_id == SYSCALL_EXIT {
        SyscallOutcome::Exited(sys_exit(kernel, args[0] as i32))
    } else if syscall_id == SYSCALL_WRITE {
        let (chunks, n) = sys_write(kernel, args[0], args[1], args[2]);
        match chunks {
            Some(c) => SyscallOutcome::Write(c, n),
            None => SyscallOutcome::Return(-1i64),
        }
    } else if syscall_id == SYSCALL_YIELD {
        sys_yield(kernel);
        SyscallOutcome::Yielded
    } else if syscall_id == SYSCALL_GET_TIME {
        SyscallOutcome::Return(sys_get_time(ticks))
    } else if syscall_id == SYSCALL_SBRK {
        SyscallOutcome::Return(sys_sbrk(kernel, args[0] as i32))
    } else {
        SyscallOutcome::Unsupported(syscall_id)
    }
}

} // verus!
