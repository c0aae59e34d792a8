use sv39_kernel::address::{PhysAddr, PhysPageNum, SimpleRange, StepByOne, VirtAddr, VirtPageNum};
use sv39_kernel::config::{kernel_stack_position, MEMORY_END, PAGE_SIZE, TRAMPOLINE, TRAP_CONTEXT};
use sv39_kernel::frame_allocator::{frame_alloc, frame_dealloc, init_frame_allocator, FrameTracker, StackFrameAllocator};
use sv39_kernel::memory_set::{
    init, ElfSegment, KernelLayout, MapArea, MapPermission, MapType, MemorySet, MAP_PERM_R, MAP_PERM_U, MAP_PERM_W,
    MAP_PERM_X, TRAMPOLINE_VPN,
};
use sv39_kernel::page_table::{translate_byte_buffer, PTEFlags, PageTable, PageTableEntry, PTE_R, PTE_V, PTE_W, PTE_X};
use sv39_kernel::processor::{
    change_program_brk, current_user_token, exit_current_and_run_next, suspend_current_and_run_next, ExitOutcome, Kernel,
};
use sv39_kernel::syscall::{get_time_ms, sys_get_time, syscall, SyscallOutcome, SYSCALL_EXIT, SYSCALL_SBRK, SYSCALL_YIELD};
use sv39_kernel::task::{Platform, TaskContext, TrapContext, TaskStatus, TRAP_CONTEXT_VPN};
use sv39_kernel::trap::{set_next_trigger, trap_handler, TrapCause, TrapOutcome, ILLEGAL_INSTRUCTION_EXIT_CODE};

fn layout() -> KernelLayout {
    KernelLayout {
        stext: 0x8020_0000,
        etext: 0x8020_4000,
        srodata: 0x8020_4000,
        erodata: 0x8020_5000,
        sdata: 0x8020_5000,
        edata: 0x8020_6000,
        sbss_with_stack: 0x8020_6000,
        ebss: 0x8020_8000,
        ekernel: 0x8040_0000,
        strampoline: 0x8020_1000,
        memory_end: MEMORY_END,
        mmio: vec![(0x0010_0000, 0x2000)],
    }
}

fn platform() -> Platform {
    Platform { trampoline_pa: 0x8020_1000, trap_handler_entry: 0x8020_2000, trap_return_entry: 0x8020_3000, sstatus: 0x122 }
}

fn image() -> (Vec<ElfSegment>, Vec<u8>) {
    let data: Vec<u8> = (0..300u32).map(|i| (i % 251) as u8).collect();
    let segs = vec![
        ElfSegment { virtual_addr: 0x1_0000, mem_size: 0x1800, offset: 0, file_size: 200, readable: true, writable: false, executable: true },
        ElfSegment { virtual_addr: 0x1_2000, mem_size: 0x1000, offset: 200, file_size: 100, readable: true, writable: true, executable: false },
    ];
    (segs, data)
}

fn kernel_with(n: usize) -> Kernel {
    let (allocator, space) = init(&layout()).expect("kernel space");
    let mut kernel = Kernel::new(allocator, space);
    let (segs, data) = image();
    for i in 0..n {
        assert_eq!(kernel.add_task_from_elf(&segs, 0x1_0000, &data, &platform()), Some(i));
    }
    kernel
}

fn small_allocator(frames: u64) -> StackFrameAllocator {
    let mut a = StackFrameAllocator::new();
    a.init(PhysPageNum(0x80400), PhysPageNum(0x80400 + frames));
    a
}

#[test]
fn address_floor_ceil_round_trip() {
    for a in [0u64, 1, 4095, 4096, 4097, 0x7f_ffff_ffff, 0x1234_5678] {
        let va = VirtAddr::from(a);
        let lo = va.floor().to_addr().0;
        let hi = va.ceil().to_addr().0;
        assert!(lo <= a && a - lo < PAGE_SIZE);
        assert!(hi >= a && hi - a < PAGE_SIZE);
    }
    assert_eq!(VirtAddr(0x1001).floor(), VirtPageNum(1));
    assert_eq!(VirtAddr(0x1001).ceil(), VirtPageNum(2));
    assert_eq!(VirtAddr(0x2000).ceil(), VirtPageNum(2));
    assert_eq!(VirtAddr(0).ceil(), VirtPageNum(0));
    assert_eq!(PhysAddr(0x3fff).floor(), PhysPageNum(3));
    assert_eq!(PhysAddr(0x3fff).ceil(), PhysPageNum(4));
}

#[test]
fn address_offsets_and_masks() {
    assert_eq!(VirtAddr(0x1234).page_offset(), 0x234);
    assert!(!VirtAddr(0x1234).aligned());
    assert!(PhysAddr(0x5000).aligned());
    assert_eq!(VirtAddr::from(u64::MAX).0, 0x7f_ffff_ffff);
    assert_eq!(PhysAddr::from(u64::MAX).0, 0xff_ffff_ffff_ffff);
    assert_eq!(PhysPageNum::from(u64::MAX).0, 0xfff_ffff_ffff);
    assert_eq!(VirtPageNum::from(u64::MAX).0, 0x7ff_ffff);
    assert_eq!(VirtAddr(0x40_0000_0000).to_usize(), 0xffff_ffc0_0000_0000);
    assert_eq!(VirtAddr(0x3f_ffff_ffff).to_usize(), 0x3f_ffff_ffff);
}

#[test]
fn vpn_indexes_split_nine_bits() {
    let vpn = VirtPageNum((3 << 18) | (5 << 9) | 7);
    assert_eq!(vpn.indexes(), [3, 5, 7]);
    assert_eq!(VirtPageNum(0x7ff_ffff).indexes(), [511, 511, 511]);
}

#[test]
fn frame_tracker_is_zeroed() {
    let f = FrameTracker::new(PhysPageNum(9));
    assert_eq!(f.ppn, PhysPageNum(9));
    assert_eq!(f.bytes.len(), 4096);
    assert!(f.bytes.iter().all(|b| *b == 0));
}

#[test]
fn allocator_reuses_last_freed_first() {
    let mut a = small_allocator(3);
    assert_eq!(a.allocate(), Some(PhysPageNum(0x80400)));
    assert_eq!(a.allocate(), Some(PhysPageNum(0x80401)));
    assert!(a.dealloc(PhysPageNum(0x80400)));
    assert_eq!(a.allocate(), Some(PhysPageNum(0x80400)));
    assert_eq!(a.allocate(), Some(PhysPageNum(0x80402)));
    assert_eq!(a.allocate(), None);
}

#[test]
fn allocator_refuses_double_and_unissued_free() {
    let mut a = small_allocator(4);
    let p = a.allocate().unwrap();
    assert!(a.dealloc(p));
    assert!(!a.dealloc(p));
    assert!(!a.dealloc(PhysPageNum(0x80403)));
    assert!(!a.dealloc(PhysPageNum(0x90000)));
    assert!(!a.is_allocated(p));
    let q = a.allocate().unwrap();
    assert!(a.is_allocated(q));
    frame_dealloc(&mut a, q);
    assert!(!a.is_allocated(q));
}

#[test]
fn allocator_never_issues_a_live_frame_twice() {
    let mut a = small_allocator(8);
    let mut first = Vec::new();
    for _ in 0..5 {
        first.push(frame_alloc(&mut a).unwrap());
    }
    for f in first.drain(..) {
        frame_dealloc(&mut a, f.ppn);
    }
    let live = frame_alloc(&mut a).unwrap();
    let mut again = Vec::new();
    for _ in 0..5 {
        let f = frame_alloc(&mut a).unwrap();
        assert_ne!(f.ppn, live.ppn);
        assert!(again.iter().all(|g: &PhysPageNum| *g != f.ppn));
        again.push(f.ppn);
    }
}

#[test]
fn frame_allocator_range_from_kernel_end() {
    let mut a = StackFrameAllocator::new();
    init_frame_allocator(&mut a, 0x8040_0001);
    assert_eq!(a.allocate(), Some(PhysPageNum(0x80401)));
}

#[test]
fn page_table_entry_fields() {
    let e = PageTableEntry::new(PhysPageNum(0x12345), PTEFlags::from_bits(PTE_V | PTE_R | PTE_W));
    assert_eq!(e.bits, (0x12345 << 10) | 7);
    assert_eq!(e.ppn(), PhysPageNum(0x12345));
    assert_eq!(e.flags().bits, 7);
    assert!(e.is_valid() && e.readable() && e.writable() && !e.executable());
    assert!(!PageTableEntry::empty().is_valid());
}

#[test]
fn map_translate_unmap_inverse() {
    let mut a = small_allocator(16);
    let mut pt = PageTable::new(&mut a).unwrap();
    let vpn = VirtPageNum(0x12345);
    assert!(pt.translate(vpn).is_none());
    assert!(pt.map(&mut a, vpn, PhysPageNum(0x777), PTEFlags::from_bits(PTE_R | PTE_W)));
    let e = pt.translate(vpn).unwrap();
    assert_eq!(e.ppn(), PhysPageNum(0x777));
    assert_eq!(e.flags().bits, PTE_R | PTE_W | PTE_V);
    assert!(pt.translate(VirtPageNum(0x12346)).is_none());
    pt.unmap(vpn);
    assert!(pt.translate(vpn).is_none());
}

#[test]
fn map_fails_when_frames_run_out() {
    let mut a = small_allocator(2);
    let mut pt = PageTable::new(&mut a).unwrap();
    assert!(!pt.map(&mut a, VirtPageNum(5), PhysPageNum(1), PTEFlags::from_bits(PTE_R)));
    assert!(pt.translate(VirtPageNum(5)).is_none());
}

#[test]
fn token_holds_mode_and_root() {
    let mut a = small_allocator(4);
    let pt = PageTable::new(&mut a).unwrap();
    assert_eq!(pt.token(), (8u64 << 60) | 0x80400);
}

#[test]
fn byte_buffer_splits_at_page_boundaries() {
    let mut a = small_allocator(16);
    let mut pt = PageTable::new(&mut a).unwrap();
    assert!(pt.map(&mut a, VirtPageNum(1), PhysPageNum(0x100), PTEFlags::from_bits(PTE_R)));
    assert!(pt.map(&mut a, VirtPageNum(2), PhysPageNum(0x200), PTEFlags::from_bits(PTE_R)));
    let chunks = translate_byte_buffer(&pt, 0x1ff0, 0x20).unwrap();
    assert_eq!(chunks.len(), 2);
    assert_eq!((chunks[0].ppn, chunks[0].start, chunks[0].end), (PhysPageNum(0x100), 0xff0, 0x1000));
    assert_eq!((chunks[1].ppn, chunks[1].start, chunks[1].end), (PhysPageNum(0x200), 0, 0x10));
    assert!(translate_byte_buffer(&pt, 0x2ff0, 0x20).is_none());
}

#[test]
fn segment_map_one_rejects_mapped_page() {
    let mut a = small_allocator(16);
    let mut pt = PageTable::new(&mut a).unwrap();
    let mut area = MapArea::new(VirtAddr(0x1000), VirtAddr(0x3000), MapType::Framed, MapPermission::from_bits(MAP_PERM_R));
    assert!(area.map(&mut pt, &mut a));
    assert!(!area.map_one(&mut pt, &mut a, VirtPageNum(1)));
    assert!(area.copy_data(&[1, 2, 3]));
    assert!(!area.copy_data(&vec![0u8; 0x2001]));
}

#[test]
fn kernel_space_maps_sections_identically() {
    let (_, space) = init(&layout()).unwrap();
    let text = space.translate(VirtPageNum(0x80200)).unwrap();
    assert_eq!(text.ppn(), PhysPageNum(0x80200));
    assert!(text.executable() && !text.writable());
    let rodata = space.translate(VirtPageNum(0x80204)).unwrap();
    assert!(rodata.readable() && !rodata.writable());
    let data = space.translate(VirtPageNum(0x80205)).unwrap();
    assert!(data.writable() && !data.executable());
    assert_eq!(space.translate(VirtPageNum(0x100)).unwrap().ppn(), PhysPageNum(0x100));
    let tramp = space.translate(VirtPageNum(TRAMPOLINE_VPN)).unwrap();
    assert_eq!(tramp.ppn(), PhysPageNum(0x80201));
    assert!(tramp.executable());
}

#[test]
fn kernel_space_rejects_image_past_memory() {
    let mut l = layout();
    l.ekernel = MEMORY_END + 0x1000;
    assert!(init(&l).is_none());
}

#[test]
fn user_space_from_segments() {
    let mut a = small_allocator(64);
    let (segs, data) = image();
    let (m, sp, entry) = MemorySet::from_elf(&mut a, &segs, 0x1_0040, &data, 0x8020_1000).unwrap();
    assert_eq!(entry, 0x1_0040);
    assert_eq!(sp, 0x1_4000 + 0x2000);
    let text = m.translate(VirtPageNum(0x10)).unwrap();
    assert!(text.executable() && !text.writable() && text.flags().bits & MAP_PERM_U != 0);
    assert!(m.translate(VirtPageNum(0x11)).is_some());
    assert!(m.translate(VirtPageNum(0x13)).is_none());
    assert!(m.translate(VirtPageNum(0x14)).unwrap().writable());
    assert!(m.translate(VirtPageNum(0x15)).unwrap().writable());
    assert!(m.translate(VirtPageNum(TRAP_CONTEXT_VPN)).is_some());
    assert!(m.translate(VirtPageNum(TRAMPOLINE_VPN)).is_some());
    let chunks = m.translate_buffer(0x1_0000, 200).unwrap();
    assert_eq!(chunks.len(), 1);
}

#[test]
fn user_space_rejects_overlapping_segments() {
    let mut a = small_allocator(64);
    let (mut segs, data) = image();
    segs[1].virtual_addr = 0x1_1000;
    assert!(MemorySet::from_elf(&mut a, &segs, 0, &data, 0x8020_1000).is_none());
    let (mut segs, data) = image();
    segs[0].file_size = 1000;
    assert!(MemorySet::from_elf(&mut a, &segs, 0, &data, 0x8020_1000).is_none());
}

#[test]
fn task_contexts_start_at_trap_return() {
    let cx = TaskContext::goto_trap_return(0x8020_3000, 0xffff_ffff_ffff_d000);
    assert_eq!((cx.ra, cx.sp, cx.s), (0x8020_3000, 0xffff_ffff_ffff_d000, [0; 12]));
    let z = TaskContext::zero_init();
    assert_eq!((z.ra, z.sp), (0, 0));
    let t = TrapContext::app_init_context(0x1000, 0x2000, 0x122, 7, 8, 9);
    assert_eq!((t.sepc, t.x[2], t.sstatus, t.kernel_satp, t.kernel_sp, t.trap_handler), (0x1000, 0x2000, 0x22, 7, 8, 9));
    assert_eq!(kernel_stack_position(1), (TRAMPOLINE - 0x3000 - 0x2000, TRAMPOLINE - 0x3000));
}

#[test]
fn new_task_is_ready_with_first_trap_context() {
    let kernel = kernel_with(2);
    let t = &kernel.tasks[1];
    assert_eq!(t.task_status, TaskStatus::Ready);
    assert_eq!(t.trap_cx.sepc, 0x1_0000);
    assert_eq!(t.trap_cx.x[2], 0x1_6000);
    assert_eq!(t.trap_cx.kernel_sp, TRAMPOLINE - 0x3000);
    assert_eq!(t.task_cx.ra, 0x8020_3000);
    assert_eq!(t.heap_bottom, 0x1_6000);
    assert_eq!(kernel.kernel_space.translate(VirtAddr::from(TRAMPOLINE - 0x3000 - 0x1000).floor()).is_some(), true);
    assert_eq!(t.trap_cx_ppn, t.memory_set.translate(VirtAddr::from(TRAP_CONTEXT).floor()).unwrap().ppn());
}

#[test]
fn fifo_round_robin_order() {
    let mut kernel = kernel_with(3);
    let mut order = Vec::new();
    for _ in 0..6 {
        let pid = kernel.run_next_task().unwrap();
        assert_eq!(kernel.tasks[pid].task_status, TaskStatus::Running);
        order.push(pid);
        assert_eq!(suspend_current_and_run_next(&mut kernel), pid);
    }
    assert_eq!(order, vec![0, 1, 2, 0, 1, 2]);
}

#[test]
fn isolation_between_tasks() {
    let kernel = kernel_with(2);
    let vpn = VirtPageNum(0x10);
    let a = kernel.tasks[0].memory_set.translate(vpn).unwrap().ppn();
    let b = kernel.tasks[1].memory_set.translate(vpn).unwrap().ppn();
    assert_ne!(a, b);
    assert_ne!(current_user_token_of(&kernel, 0), current_user_token_of(&kernel, 1));
}

fn current_user_token_of(kernel: &Kernel, pid: usize) -> u64 {
    kernel.tasks[pid].get_user_token()
}

#[test]
fn sbrk_grows_heap_and_exit_halts_with_success() {
    let mut kernel = kernel_with(2);
    // the first task grows its heap by a page and yields
    assert_eq!(kernel.run_next_task(), Some(0));
    let bottom = kernel.tasks[0].heap_bottom;
    kernel.tasks[0].trap_cx.x[17] = SYSCALL_SBRK;
    kernel.tasks[0].trap_cx.x[10] = 4096;
    let sepc = kernel.tasks[0].trap_cx.sepc;
    assert!(matches!(trap_handler(&mut kernel, TrapCause::UserEnvCall, 0), TrapOutcome::Resume));
    assert_eq!(kernel.tasks[0].trap_cx.x[10], bottom);
    assert_eq!(kernel.tasks[0].trap_cx.sepc, sepc + 4);
    let heap = kernel.tasks[0].memory_set.translate(VirtAddr(bottom).floor()).unwrap();
    assert!(heap.writable() && heap.flags().bits & MAP_PERM_U != 0);
    kernel.tasks[0].trap_cx.x[17] = SYSCALL_YIELD;
    assert!(matches!(trap_handler(&mut kernel, TrapCause::UserEnvCall, 0), TrapOutcome::SwitchToIdle));
    // the second task exits at once
    assert_eq!(kernel.run_next_task(), Some(1));
    kernel.tasks[1].trap_cx.x[17] = SYSCALL_EXIT;
    kernel.tasks[1].trap_cx.x[10] = 0;
    assert!(matches!(trap_handler(&mut kernel, TrapCause::UserEnvCall, 0), TrapOutcome::SwitchToIdle));
    assert_eq!(kernel.tasks[1].task_status, TaskStatus::Zombie);
    // the first task exits with 0: the system halts successfully
    assert_eq!(kernel.run_next_task(), Some(0));
    kernel.tasks[0].trap_cx.x[17] = SYSCALL_EXIT;
    kernel.tasks[0].trap_cx.x[10] = 0;
    assert!(matches!(trap_handler(&mut kernel, TrapCause::UserEnvCall, 0), TrapOutcome::Halt(true)));
    assert_eq!(kernel.run_next_task(), None);
}

#[test]
fn privileged_instruction_kills_only_the_task() {
    let mut kernel = kernel_with(2);
    kernel.run_next_task();
    assert!(matches!(trap_handler(&mut kernel, TrapCause::UserEnvCall, 0), TrapOutcome::FatalSyscall(0)));
    suspend_current_and_run_next(&mut kernel);
    assert_eq!(kernel.run_next_task(), Some(1));
    assert!(matches!(trap_handler(&mut kernel, TrapCause::IllegalInstruction, 0), TrapOutcome::SwitchToIdle));
    assert_eq!(kernel.tasks[1].task_status, TaskStatus::Zombie);
    assert_eq!(kernel.tasks[1].exit_code, ILLEGAL_INSTRUCTION_EXIT_CODE);
    assert_eq!(kernel.run_next_task(), Some(0));
}

#[test]
fn faults_of_first_task_halt_with_failure() {
    let mut kernel = kernel_with(1);
    kernel.run_next_task();
    assert!(matches!(trap_handler(&mut kernel, TrapCause::StorePageFault, 0), TrapOutcome::Halt(false)));
}

#[test]
fn timer_interrupt_preempts() {
    let mut kernel = kernel_with(2);
    kernel.run_next_task();
    assert!(matches!(trap_handler(&mut kernel, TrapCause::SupervisorTimer, 1000), TrapOutcome::Preempt(126_000)));
    assert_eq!(kernel.tasks[0].task_status, TaskStatus::Ready);
    assert_eq!(kernel.run_next_task(), Some(1));
    assert!(matches!(trap_handler(&mut kernel, TrapCause::Other(9), 0), TrapOutcome::Fatal(TrapCause::Other(9))));
    assert_eq!(set_next_trigger(u64::MAX - 1), u64::MAX);
}

#[test]
fn exit_reparents_children_to_first_task() {
    let mut kernel = kernel_with(3);
    kernel.tasks[1].children.push(2);
    kernel.tasks[2].parent = Some(1);
    kernel.run_next_task();
    suspend_current_and_run_next(&mut kernel);
    kernel.run_next_task();
    assert_eq!(exit_current_and_run_next(&mut kernel, 7), ExitOutcome::Exited(1));
    assert_eq!(kernel.tasks[1].exit_code, 7);
    assert!(kernel.tasks[1].children.is_empty());
    assert_eq!(kernel.tasks[0].children, vec![2]);
    assert_eq!(kernel.tasks[2].parent, Some(0));
}

#[test]
fn brk_below_heap_bottom_fails() {
    let mut kernel = kernel_with(1);
    kernel.run_next_task();
    assert_eq!(change_program_brk(&mut kernel, -1), None);
    let bottom = kernel.tasks[0].heap_bottom;
    assert_eq!(change_program_brk(&mut kernel, 8192), Some(bottom));
    assert_eq!(change_program_brk(&mut kernel, -8192), Some(bottom + 8192));
    assert!(kernel.tasks[0].memory_set.translate(VirtAddr(bottom).floor()).is_none());
    assert!(current_user_token(&kernel) >> 60 == 8);
}

#[test]
fn time_and_unknown_syscalls() {
    assert_eq!(get_time_ms(125_000), 10);
    assert_eq!(sys_get_time(12_499), 0);
    let mut kernel = kernel_with(1);
    kernel.run_next_task();
    assert!(matches!(syscall(&mut kernel, 169, [0, 0, 0], 25_000), SyscallOutcome::Return(2)));
    assert!(matches!(syscall(&mut kernel, 64, [2, 0, 1], 0), SyscallOutcome::Return(-1)));
    assert!(matches!(syscall(&mut kernel, 64, [1, 0x1_0000, 10], 0), SyscallOutcome::Write(_, 10)));
    assert!(matches!(syscall(&mut kernel, 12345, [0, 0, 0], 0), SyscallOutcome::Unsupported(12345)));
    let _ = (MAP_PERM_R, MAP_PERM_W, MAP_PERM_X, PTE_X);
}

#[test]
fn page_range_walks_each_page_once() {
    let range = SimpleRange::new(VirtPageNum(3), VirtPageNum(6));
    assert_eq!((range.get_start(), range.get_end()), (VirtPageNum(3), VirtPageNum(6)));
    let mut it = range.into_iter();
    let mut seen = Vec::new();
    while let Some(v) = it.next() {
        seen.push(v.0);
    }
    assert_eq!(seen, vec![3, 4, 5]);
    assert_eq!(it.next(), None);
    let mut v = VirtPageNum(7);
    v.step();
    assert_eq!(v, VirtPageNum(8));
}

#[test]
fn heap_segment_grows_and_shrinks() {
    let mut a = small_allocator(64);
    let (segs, data) = image();
    let (mut m, sp, _) = MemorySet::from_elf(&mut a, &segs, 0, &data, 0x8020_1000).unwrap();
    assert!(m.append_to(&mut a, VirtAddr(sp), VirtAddr(sp + 0x1800)));
    assert!(m.translate(VirtPageNum(sp / 4096 + 1)).is_some());
    assert!(m.shrink_to(&mut a, VirtAddr(sp), VirtAddr(sp + 0x10)));
    assert!(m.translate(VirtPageNum(sp / 4096)).is_some());
    assert!(m.translate(VirtPageNum(sp / 4096 + 1)).is_none());
    assert!(!m.append_to(&mut a, VirtAddr(sp + 0x5000), VirtAddr(sp + 0x6000)));
    assert!(!m.shrink_to(&mut a, VirtAddr(sp), VirtAddr(sp + 0x5000)));
}

#[test]
fn recycling_returns_data_frames() {
    let (segs, data) = image();
    let mut kept = small_allocator(64);
    let mut freed = small_allocator(64);
    let (_m1, _, _) = MemorySet::from_elf(&mut kept, &segs, 0, &data, 0x8020_1000).unwrap();
    let (mut m2, _, _) = MemorySet::from_elf(&mut freed, &segs, 0, &data, 0x8020_1000).unwrap();
    m2.recycle_data_pages(&mut freed);
    let mut left_kept = 0;
    while kept.allocate().is_some() {
        left_kept += 1;
    }
    let mut left_freed = 0;
    while freed.allocate().is_some() {
        left_freed += 1;
    }
    // two text pages, one data page, two stack pages and the trap-context page
    assert_eq!(left_freed - left_kept, 6);
}

#[test]
fn insert_framed_area_maps_zeroed_frames() {
    let mut a = small_allocator(16);
    let mut m = MemorySet::new_bare(&mut a).unwrap();
    assert!(m.insert_framed_area(&mut a, VirtAddr(0x3000), VirtAddr(0x4800), MapPermission::from_bits(MAP_PERM_R | MAP_PERM_W)));
    let e = m.translate(VirtPageNum(4)).unwrap();
    assert!(e.readable() && e.writable() && !e.executable());
    assert!(!m.insert_framed_area(&mut a, VirtAddr(0x4000), VirtAddr(0x5000), MapPermission::from_bits(MAP_PERM_R)));
    assert!(m.map_trampoline(&mut a, 0x8020_1000));
    assert!(!m.map_trampoline(&mut a, 0x8020_1000));
    assert_eq!(m.token() >> 60, 8);
}

#[test]
fn trap_context_frames_differ_between_tasks() {
    let kernel = kernel_with(2);
    let vpn = VirtPageNum(TRAP_CONTEXT_VPN);
    let a = kernel.tasks[0].memory_set.translate(vpn).unwrap();
    let b = kernel.tasks[1].memory_set.translate(vpn).unwrap();
    assert_ne!(a.ppn(), b.ppn());
    assert!(a.readable() && a.writable() && a.flags().bits & MAP_PERM_U == 0);
    let sp = kernel.tasks[0].trap_cx.x[2];
    let s0 = kernel.tasks[0].memory_set.translate(VirtPageNum(sp / 4096 - 1)).unwrap();
    let s1 = kernel.tasks[1].memory_set.translate(VirtPageNum(sp / 4096 - 1)).unwrap();
    assert_ne!(s0.ppn(), s1.ppn());
}

#[test]
fn guard_page_stays_unmapped() {
    let mut a = small_allocator(64);
    let (segs, data) = image();
    let (m, sp, _) = MemorySet::from_elf(&mut a, &segs, 0, &data, 0x8020_1000).unwrap();
    assert!(m.translate(VirtPageNum(sp / 4096 - 3)).is_none());
    let t = m.translate(VirtPageNum(TRAMPOLINE_VPN)).unwrap();
    assert_eq!(t.ppn(), PhysPageNum(0x80201));
    assert!(t.executable() && !t.writable() && t.flags().bits & MAP_PERM_U == 0);
    // a segment that reaches the guard page of the last one is refused
    let mut bad = vec![ElfSegment { virtual_addr: 0x1_3000, mem_size: 0x10, offset: 0, file_size: 0, readable: true, writable: false, executable: false }];
    bad.extend(segs.iter().copied());
    let mut b = small_allocator(64);
    assert!(MemorySet::from_elf(&mut b, &bad, 0, &data, 0x8020_1000).is_none());
}

#[test]
fn shrink_result_follows_segment_start() {
    let mut a = small_allocator(64);
    let (segs, data) = image();
    let (mut m, sp, _) = MemorySet::from_elf(&mut a, &segs, 0, &data, 0x8020_1000).unwrap();
    assert!(!m.shrink_to(&mut a, VirtAddr(sp + 0x4000), VirtAddr(sp + 0x4000)));
    assert!(m.shrink_to(&mut a, VirtAddr(sp), VirtAddr(sp)));
    assert!(m.append_to(&mut a, VirtAddr(sp), VirtAddr(sp + 0x1000)));
    assert!(m.shrink_to(&mut a, VirtAddr(sp), VirtAddr(sp)));
    assert!(m.translate(VirtPageNum(sp / 4096)).is_none());
}
