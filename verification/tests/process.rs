use os::config::{TRAP_CONTEXT_BASE, USER_STACK_SIZE};
use os::id::{RecycleAllocator, TaskUserRes};
use os::manager::TaskManager;
use os::mm::MemorySet;
use os::process::{brk_growth_is_free, ProcessControlBlock, STDIN_FILE, STDOUT_FILE};
use os::syscall::{sys_exec, sys_exit, sys_fork, sys_getpid, sys_sbrk, sys_set_priority, sys_spawn, sys_waitpid, LoadedElf};
use os::task::{TaskControlBlock, TaskStatus, BIG_STRIDE, DEFAULT_PRIORITY};
use os::trap::TrapContext;

/// An allocator that has handed out the pids below `next`.
fn pids_from(next: usize) -> RecycleAllocator {
    let mut a = RecycleAllocator::new();
    for _ in 0..next {
        a.allocate();
    }
    a
}

fn new_process(pid: usize, task: usize) -> (ProcessControlBlock, TaskControlBlock) {
    let mut pids = pids_from(pid);
    let mut m = TaskManager::new();
    let (p, t, _) = ProcessControlBlock::new(&mut pids, &mut m, MemorySet::new(0x8000_0000_0000_1000), 0x1_0000, 0x1000, task, 0x5000, 0x6000, 0x7000, 0x100);
    (p, t)
}

#[test]
fn new_process_trap_context() {
    let mut pids = pids_from(1);
    let mut m = TaskManager::new();
    let (p, t, cx) = ProcessControlBlock::new(&mut pids, &mut m, MemorySet::new(1), 0x1_0000, 0x1234, 10, 0x5000, 0x6000, 0x7000, 0x122);
    assert_eq!(p.getpid(), 1);
    // the pid is taken and the main thread is queued
    assert_eq!(pids.allocate(), 2);
    let queued = m.fetch().unwrap();
    assert_eq!(queued.id, t.id);
    assert_eq!(queued.process, 1);
    assert!(m.fetch().is_none());
    assert_eq!(cx.sepc, 0x1234);
    assert_eq!(cx.x[2], 0x1_0000 + USER_STACK_SIZE);
    assert_eq!(cx.sstatus, 0x22);
    assert_eq!(cx.kernel_satp, 0x5000);
    assert_eq!(cx.kernel_sp, 0x6000);
    assert_eq!(cx.trap_handler, 0x7000);
}

#[test]
fn new_process_layout() {
    let (p, t) = new_process(3, 30);
    assert_eq!(p.getpid(), 3);
    assert_eq!(sys_getpid(&p), 3);
    assert_eq!(p.inner.fd_table, vec![Some(STDIN_FILE), Some(STDOUT_FILE), Some(STDOUT_FILE)]);
    assert_eq!(p.inner.tasks, vec![Some(30)]);
    assert_eq!(p.inner.thread_count(), 1);
    assert_eq!(p.inner.get_task(0), 30);
    assert_eq!(p.inner.heap_bottom, 0x1_0000 + USER_STACK_SIZE);
    assert_eq!(p.inner.program_brk, p.inner.heap_bottom);
    assert_eq!(p.inner.get_user_token(), 0x8000_0000_0000_1000);
    assert_eq!(t.get_user_token(&p), 0x8000_0000_0000_1000);
    // the main thread's stack and trap context page are mapped
    assert!(p.inner.memory_set.translate(0x10).is_some());
    assert!(p.inner.memory_set.translate(0x11).is_some());
    assert!(p.inner.memory_set.translate(0x12).is_none());
    assert!(p.inner.memory_set.translate(0x7ff_fffe).is_some());
    assert_eq!(t.process, 3);
    assert_eq!(t.id, 30);
    let res = t.inner.res.unwrap();
    assert_eq!(res.tid, 0);
    assert_eq!(res.ustack_top(), 0x1_0000 + USER_STACK_SIZE);
    assert_eq!(res.trap_cx_user_va(), TRAP_CONTEXT_BASE);
}

#[test]
fn user_resources_of_later_threads() {
    let res = TaskUserRes { tid: 2, ustack_base: 0x1_0000 };
    assert_eq!(res.ustack_top(), 0x1_0000 + 2 * (4096 + 8192) + 8192);
    assert_eq!(res.trap_cx_user_va(), TRAP_CONTEXT_BASE - 2 * 4096);
    assert_eq!(res.ustack_base(), 0x1_0000);
}

#[test]
fn alloc_fd_takes_lowest_free_slot() {
    let (mut p, _) = new_process(1, 10);
    assert_eq!(p.inner.alloc_fd(), 3);
    assert_eq!(p.inner.fd_table.len(), 4);
    p.inner.fd_table[3] = Some(9);
    p.inner.fd_table[1] = None;
    assert_eq!(p.inner.alloc_fd(), 1);
    assert_eq!(p.inner.fd_table.len(), 4);
}

#[test]
fn thread_ids_are_recycled_last_freed_first() {
    let (mut p, _) = new_process(1, 10);
    assert_eq!(p.inner.alloc_tid(), 1);
    assert_eq!(p.inner.alloc_tid(), 2);
    assert_eq!(p.inner.alloc_tid(), 3);
    p.inner.dealloc_tid(1);
    p.inner.dealloc_tid(3);
    assert_eq!(p.inner.alloc_tid(), 3);
    assert_eq!(p.inner.alloc_tid(), 1);
    assert_eq!(p.inner.alloc_tid(), 4);
}

#[test]
fn recycle_allocator_counts_up_from_zero() {
    let mut a = RecycleAllocator::new();
    assert_eq!(a.allocate(), 0);
    assert_eq!(a.allocate(), 1);
    a.dealloc(0);
    assert_eq!(a.allocate(), 0);
    assert_eq!(a.allocate(), 2);
}

#[test]
fn fork_copies_the_parent() {
    let mut pids = pids_from(1);
    let mut m = TaskManager::new();
    let (mut p, t, _) = ProcessControlBlock::new(&mut pids, &mut m, MemorySet::new(0x8000_0000_0000_1000), 0x1_0000, 0x1000, 10, 0x5000, 0x6000, 0x7000, 0x100);
    let _ = m.fetch();
    let mut main = t;
    main.inner.set_priority(5);
    main.inner.stride = 77;
    p.inner.fd_table.push(Some(42));
    p.inner.add_resource(4);
    let mut parent_cx = TrapContext::app_init_context(0x1000, 0x2000, 0x3000, 0x4000, 0x5000, 0);
    parent_cx.x[10] = 99;
    let (r, child_cx) = sys_fork(&mut p, &mut pids, &mut m, &main, 0x9000, 20, &parent_cx, 0x8000);
    assert_eq!(r, 2);
    assert_eq!(child_cx.x[10], 0);
    assert_eq!(child_cx.x[2], 0x2000);
    assert_eq!(child_cx.kernel_sp, 0x8000);
    assert_eq!(child_cx.sepc, 0x1000);
    assert_eq!(p.inner.children.len(), 1);
    let c = &p.inner.children[0];
    assert_eq!(c.getpid(), 2);
    assert_eq!(c.inner.parent, Some(1));
    assert_eq!(c.inner.fd_table, p.inner.fd_table);
    assert_eq!(c.inner.dl_available, vec![4]);
    assert_eq!(c.inner.tasks, vec![Some(20)]);
    assert_eq!(c.inner.get_user_token(), 0x9000);
    assert!(c.inner.memory_set.translate(0x10).is_some());
    assert_eq!(c.inner.heap_bottom, p.inner.heap_bottom);
    let child_main = m.fetch().unwrap();
    assert_eq!(child_main.process, 2);
    assert_eq!(child_main.id, 20);
    assert_eq!(child_main.inner.priority, 5);
    assert_eq!(child_main.inner.stride, 77 + 1048576 / 5);
    assert!(child_main.inner.res == Some(TaskUserRes { tid: 0, ustack_base: 0x1_0000 }));
}

#[test]
fn waitpid_without_matching_child_returns_minus_one() {
    let (mut p, _) = new_process(1, 10);
    assert_eq!(sys_waitpid(&mut p.inner, -1), (-1, None));
    let (c, _) = new_process(5, 50);
    p.inner.children.push(c);
    assert_eq!(sys_waitpid(&mut p.inner, 6), (-1, None));
    assert_eq!(p.inner.children.len(), 1);
}

#[test]
fn waitpid_on_running_child_returns_minus_two() {
    let (mut p, _) = new_process(1, 10);
    let (c, _) = new_process(5, 50);
    p.inner.children.push(c);
    assert_eq!(sys_waitpid(&mut p.inner, 5), (-2, None));
    assert_eq!(sys_waitpid(&mut p.inner, -1), (-2, None));
    assert_eq!(p.inner.children.len(), 1);
}

#[test]
fn waitpid_reaps_first_zombie() {
    let (mut p, _) = new_process(1, 10);
    let (c1, _) = new_process(5, 50);
    let (mut c2, _) = new_process(6, 60);
    let (mut c3, _) = new_process(7, 70);
    c2.inner.is_zombie = true;
    c2.inner.exit_code = 3;
    c3.inner.is_zombie = true;
    c3.inner.exit_code = 4;
    p.inner.children.push(c1);
    p.inner.children.push(c2);
    p.inner.children.push(c3);
    assert_eq!(sys_waitpid(&mut p.inner, 7), (7, Some(4)));
    assert_eq!(sys_waitpid(&mut p.inner, -1), (6, Some(3)));
    assert_eq!(p.inner.children.len(), 1);
    assert_eq!(p.inner.children[0].getpid(), 5);
}

#[test]
fn spawn_starts_a_child_from_the_program() {
    let mut pids = pids_from(1);
    let mut m = TaskManager::new();
    let (mut p, _, _) = ProcessControlBlock::new(&mut pids, &mut m, MemorySet::new(0x8000_0000_0000_1000), 0x1_0000, 0x1000, 10, 0x5000, 0x6000, 0x7000, 0x100);
    let _ = m.fetch();
    let token_before = p.inner.get_user_token();
    let elf = LoadedElf { memory_set: MemorySet::new(0x7000), ustack_base: 0x2_0000, entry_point: 0x4000 };
    let (r, cx) = sys_spawn(&mut p, &mut pids, &mut m, Some(elf), 40, 0x5000, 0x6000, 0x7000, 0x100);
    assert_eq!(r, 2);
    let cx = cx.unwrap();
    assert_eq!(cx.sepc, 0x4000);
    assert_eq!(cx.x[2], 0x2_0000 + USER_STACK_SIZE);
    assert_eq!(p.inner.children.len(), 1);
    let c = &p.inner.children[0];
    assert_eq!(c.getpid(), 2);
    assert_eq!(c.inner.parent, Some(1));
    assert_eq!(c.inner.get_user_token(), 0x7000);
    assert_eq!(c.inner.tasks, vec![Some(40)]);
    assert_eq!(c.inner.heap_bottom, 0x2_0000 + USER_STACK_SIZE);
    // the parent's address space is untouched
    assert_eq!(p.inner.get_user_token(), token_before);
    let t = m.fetch().unwrap();
    assert_eq!(t.process, 2);
    assert_eq!(t.id, 40);
    assert_eq!(t.inner.priority, DEFAULT_PRIORITY);
    assert!(m.fetch().is_none());
}

#[test]
fn spawn_without_program_fails() {
    let mut pids = pids_from(1);
    let mut m = TaskManager::new();
    let (mut p, _, _) = ProcessControlBlock::new(&mut pids, &mut m, MemorySet::new(0x8000_0000_0000_1000), 0x1_0000, 0x1000, 10, 0x5000, 0x6000, 0x7000, 0x100);
    let _ = m.fetch();
    let (r, cx) = sys_spawn(&mut p, &mut pids, &mut m, None, 40, 0, 0, 0, 0);
    assert_eq!(r, -1);
    assert!(cx.is_none());
    assert!(p.inner.children.is_empty());
    assert!(m.fetch().is_none());
    assert_eq!(pids.allocate(), 2);
}

#[test]
fn set_priority_takes_priorities_from_two() {
    let (_, t) = new_process(1, 10);
    let mut task = t;
    assert_eq!(sys_set_priority(&mut task, 5), 5);
    assert_eq!(task.inner.priority, 5);
    assert_eq!(task.inner.stride_pass, BIG_STRIDE / 5);
    assert_eq!(sys_set_priority(&mut task, 2), 2);
    assert_eq!(task.inner.stride_pass, BIG_STRIDE / 2);
    assert_eq!(sys_set_priority(&mut task, 1), -1);
    assert_eq!(sys_set_priority(&mut task, -3), -1);
    assert_eq!(task.inner.priority, 2);
    assert_eq!(task.inner.stride_pass, BIG_STRIDE / 2);
}

#[test]
fn exit_makes_the_process_a_zombie() {
    let (mut p, t) = new_process(1, 10);
    let mut m = TaskManager::new();
    sys_exit(&mut p, &mut m, t, 7);
    assert!(p.inner.is_zombie);
    assert_eq!(p.inner.exit_code, 7);
    assert!(m.fetch().is_none());
    // the parent reaps it with that code
    let (mut parent, _) = new_process(0, 1);
    parent.inner.children.push(p);
    assert_eq!(sys_waitpid(&mut parent.inner, 1), (1, Some(7)));
}

#[test]
fn heap_growth_into_mapped_pages_is_detected() {
    let (mut p, _) = new_process(1, 10);
    // growing within the heap's free pages is fine
    assert!(brk_growth_is_free(&p.inner, 4096));
    assert_eq!(sys_sbrk(&mut p, 4096), (0x1_0000 + USER_STACK_SIZE) as isize);
    // shrinking never needs a check
    assert!(brk_growth_is_free(&p.inner, -4096));
    // map the page above the heap, then growing into it is refused
    let top = p.inner.program_brk;
    p.inner.memory_set.insert_framed_area(top, top + 4096, os::mm::MapPermission::from_bits(2));
    assert!(!brk_growth_is_free(&p.inner, 4096));
}

#[test]
fn sbrk_shrink_then_grow_restores_the_break() {
    let (mut p, _) = new_process(1, 10);
    let bottom = p.inner.heap_bottom;
    assert_eq!(sys_sbrk(&mut p, 8192), bottom as isize);
    let areas_before = p.inner.memory_set.translate(os::mm::floor(bottom) + 1);
    assert_eq!(sys_sbrk(&mut p, -4096), (bottom + 8192) as isize);
    assert_eq!(sys_sbrk(&mut p, 4096), (bottom + 4096) as isize);
    assert_eq!(p.inner.program_brk, bottom + 8192);
    assert!(areas_before.is_some());
    assert!(p.inner.memory_set.translate(os::mm::floor(bottom) + 1) == areas_before);
}

#[test]
fn exec_lays_out_arguments() {
    let (mut p, t) = new_process(1, 10);
    let mut main = t;
    p.inner.mmap_areas.insert(0x10_0000, os::process::MmapRegion {
        start: 0x10_0000,
        len: 4096,
        perm: os::mm::MapPermission::from_bits(18),
    });
    let elf = LoadedElf { memory_set: MemorySet::new(0x7000), ustack_base: 0x2_0000, entry_point: 0x1000 };
    let args = vec![b"ab".to_vec(), b"hello".to_vec()];
    let (r, image) = sys_exec(&mut p, &mut main, Some(elf), &args, 0x5000, 0x6000, 0x7000, 0x100);
    assert_eq!(r, 0);
    let image = image.unwrap();
    let top = 0x2_0000 + USER_STACK_SIZE;
    assert_eq!(image.argv_base, top - 3 * 8);
    assert_eq!(image.argv, vec![top - 24 - 3, top - 24 - 3 - 6]);
    assert_eq!(image.user_sp, (top - 24 - 9) / 8 * 8);
    assert_eq!(image.trap_cx.x[2], image.user_sp);
    assert_eq!(image.trap_cx.x[10], 2);
    assert_eq!(image.trap_cx.x[11], image.argv_base);
    // the argument area: "hello\0" lowest, then "ab\0", then the pointers and a null
    assert_eq!(image.stack_base, top - 24 - 9);
    let mut expected = b"hello\0ab\0".to_vec();
    expected.extend_from_slice(&(top - 24 - 3).to_le_bytes());
    expected.extend_from_slice(&(top - 24 - 9).to_le_bytes());
    expected.extend_from_slice(&0usize.to_le_bytes());
    assert_eq!(image.stack_bytes, expected);
    assert_eq!(image.stack_base + image.stack_bytes.len(), top);
    assert_eq!(image.trap_cx.sepc, 0x1000);
    assert_eq!(image.trap_cx.kernel_satp, 0x5000);
    assert_eq!(image.trap_cx.kernel_sp, 0x6000);
    assert_eq!(image.trap_cx.trap_handler, 0x7000);
    assert_eq!(image.trap_cx.sstatus, 0);
    assert_eq!(p.inner.get_user_token(), 0x7000);
    assert!(p.inner.mmap_areas.is_empty());
    assert_eq!(p.inner.heap_bottom, top);
    assert!(main.inner.res == Some(TaskUserRes { tid: 0, ustack_base: 0x2_0000 }));
    assert!(p.inner.memory_set.translate(0x20).is_some());
    assert!(p.inner.memory_set.translate(0x10).is_none());
    assert!(main.inner.task_status == TaskStatus::Ready);
}

#[test]
fn exec_without_program_fails() {
    let (mut p, t) = new_process(1, 10);
    let mut main = t;
    let (r, image) = sys_exec(&mut p, &mut main, None, &vec![], 0, 0, 0, 0);
    assert_eq!(r, -1);
    assert!(image.is_none());
    assert!(p.inner.memory_set.translate(0x10).is_some());
}

#[test]
fn image_and_argument_room_checks() {
    let empty = MemorySet::new(1);
    let res = TaskUserRes { tid: 0, ustack_base: 0x1_0000 };
    assert!(os::process::image_fits_check(&empty, 0x1_0000 + USER_STACK_SIZE, res));
    // an image that already maps the stack pages leaves no room
    let mut busy = MemorySet::new(1);
    busy.insert_framed_area(0x1_0000, 0x1_1000, os::mm::MapPermission::from_bits(2));
    assert!(!os::process::image_fits_check(&busy, 0x1_0000 + USER_STACK_SIZE, res));
    // a thread id whose stack lies past the end of the address space does not fit
    assert!(!os::process::image_fits_check(&empty, 0, TaskUserRes { tid: usize::MAX, ustack_base: 0 }));
    let args = vec![b"ab".to_vec(), b"hello".to_vec()];
    assert!(os::process::args_fit_check(3 * 8 + 9, &args));
    assert!(!os::process::args_fit_check(3 * 8 + 8, &args));
    let (p, t) = new_process(1, 10);
    assert!(os::process::can_exec_check(&p, &t, &MemorySet::new(2), 0x2_0000, &args));
    assert!(!os::process::can_exec_check(&p, &t, &busy, 0x1_0000, &args));
    let (_, other) = new_process(1, 11);
    assert!(!os::process::can_exec_check(&p, &other, &MemorySet::new(2), 0x2_0000, &args));
}

#[test]
fn find_process_walks_the_children() {
    let mut pids = pids_from(1);
    let mut m = TaskManager::new();
    let (mut p, t, _) = ProcessControlBlock::new(&mut pids, &mut m, MemorySet::new(0x8000_0000_0000_1000), 0x1_0000, 0x1000, 10, 0x5000, 0x6000, 0x7000, 0x100);
    let cx = TrapContext::app_init_context(0x1000, 0x2000, 0x3000, 0x4000, 0x5000, 0);
    let (r, _) = sys_fork(&mut p, &mut pids, &mut m, &t, 0x9000, 20, &cx, 0x8000);
    assert_eq!(r, 2);
    let (g, gt) = new_process(3, 30);
    let _ = gt;
    p.inner.children[0].inner.children.push(g);
    assert_eq!(os::process::find_process(&p, 1), Some(vec![]));
    assert_eq!(os::process::find_process(&p, 2), Some(vec![0]));
    assert_eq!(os::process::find_process(&p, 3), Some(vec![0, 0]));
    assert_eq!(os::process::find_process(&p, 4), None);
}
