use os::id::TaskUserRes;
use os::manager::{
    add_stopping_task, add_task, fetch_task, remove_task, stride_order, wakeup_task, StrideEntry,
    StrideOrder, TaskManager,
};
use os::syscall::sys_yield;
use os::task::{
    stride_pass_from_priority, TaskControlBlock, TaskStatus, BIG_STRIDE, DEFAULT_PRIORITY,
    MIN_PRIORITY,
};

fn task(id: usize, stride: usize, priority: usize) -> TaskControlBlock {
    let mut t = TaskControlBlock::new(1, id, TaskUserRes { tid: 0, ustack_base: 0 });
    t.inner.set_priority(priority);
    t.inner.stride = stride;
    t
}

fn entry(stride: usize, id: usize) -> StrideEntry {
    StrideEntry::new(task(id, stride, DEFAULT_PRIORITY))
}

#[test]
fn pass_is_big_stride_over_priority() {
    assert_eq!(BIG_STRIDE, 1 << 20);
    assert_eq!(stride_pass_from_priority(16), 65536);
    assert_eq!(stride_pass_from_priority(2), 524288);
    assert_eq!(stride_pass_from_priority(3), 349525);
    assert_eq!(stride_pass_from_priority(1), 1 << 20);
    assert_eq!(stride_pass_from_priority(0), 1 << 20);
    assert_eq!(stride_pass_from_priority(1 << 21), 1);
    assert_eq!(stride_pass_from_priority(usize::MAX), 1);
}

#[test]
fn min_priority_keeps_pass_within_half() {
    assert!(stride_pass_from_priority(MIN_PRIORITY) <= BIG_STRIDE / 2);
    assert!(stride_pass_from_priority(1) > BIG_STRIDE / 2);
}

#[test]
fn new_task_has_default_state() {
    let t = TaskControlBlock::new(7, 3, TaskUserRes { tid: 2, ustack_base: 0x1000 });
    assert_eq!(t.process, 7);
    assert_eq!(t.id, 3);
    assert!(t.inner.get_status() == TaskStatus::Ready);
    assert_eq!(t.inner.exit_code, None);
    assert_eq!(t.inner.priority, DEFAULT_PRIORITY);
    assert_eq!(t.inner.stride, 0);
    assert_eq!(t.inner.stride_pass, 65536);
    assert!(t.inner.res == Some(TaskUserRes { tid: 2, ustack_base: 0x1000 }));
}

#[test]
fn set_priority_updates_pass_and_add_stride_saturates() {
    let mut t = task(1, 10, 4);
    assert_eq!(t.inner.priority, 4);
    assert_eq!(t.inner.stride_pass, 262144);
    t.inner.add_stride();
    assert_eq!(t.inner.stride, 262154);
    t.inner.stride = usize::MAX - 5;
    t.inner.add_stride();
    assert_eq!(t.inner.stride, usize::MAX);
}

#[test]
fn order_prefers_smaller_stride_within_half() {
    assert!(stride_order(&entry(100, 1), &entry(200, 2)) == StrideOrder::Greater);
    assert!(stride_order(&entry(200, 1), &entry(100, 2)) == StrideOrder::Less);
    let half = BIG_STRIDE / 2;
    assert!(stride_order(&entry(0, 1), &entry(half, 2)) == StrideOrder::Greater);
}

#[test]
fn order_reads_large_gap_as_wraparound() {
    let half = BIG_STRIDE / 2;
    // a gap larger than half: the larger stride is taken to have wrapped around
    assert!(stride_order(&entry(0, 1), &entry(half + 1, 2)) == StrideOrder::Less);
    assert!(stride_order(&entry(half + 1, 1), &entry(0, 2)) == StrideOrder::Greater);
}

#[test]
fn order_breaks_stride_ties_by_id() {
    assert!(stride_order(&entry(5, 1), &entry(5, 2)) == StrideOrder::Less);
    assert!(stride_order(&entry(5, 3), &entry(5, 2)) == StrideOrder::Greater);
    assert!(stride_order(&entry(5, 3), &entry(5, 3)) == StrideOrder::Equal);
}

#[test]
fn fetch_takes_smallest_stride_and_advances_it() {
    let mut m = TaskManager::new();
    m.add(task(1, 300, 16));
    m.add(task(2, 100, 16));
    m.add(task(3, 200, 16));
    let t = m.fetch().unwrap();
    assert_eq!(t.id, 2);
    assert_eq!(t.inner.stride, 100 + 65536);
    assert_eq!(m.fetch().unwrap().id, 3);
    assert_eq!(m.fetch().unwrap().id, 1);
    assert!(m.fetch().is_none());
}

#[test]
fn fetch_prefers_larger_id_on_equal_stride() {
    let mut m = TaskManager::new();
    m.add(task(4, 50, 16));
    m.add(task(9, 50, 16));
    m.add(task(6, 50, 16));
    assert_eq!(m.fetch().unwrap().id, 9);
    assert_eq!(m.fetch().unwrap().id, 6);
    assert_eq!(m.fetch().unwrap().id, 4);
}

#[test]
fn fetch_on_empty_queue_is_none() {
    let mut m = TaskManager::new();
    assert!(fetch_task(&mut m).is_none());
}

#[test]
fn remove_drops_every_entry_of_the_task() {
    let mut m = TaskManager::new();
    add_task(&mut m, task(1, 10, 16));
    add_task(&mut m, task(2, 20, 16));
    add_task(&mut m, task(1, 30, 16));
    remove_task(&mut m, 1);
    assert_eq!(fetch_task(&mut m).unwrap().id, 2);
    assert!(fetch_task(&mut m).is_none());
}

#[test]
fn stopped_task_is_kept_out_of_queue() {
    let mut m = TaskManager::new();
    add_stopping_task(&mut m, task(5, 0, 16));
    assert!(m.fetch().is_none());
}

#[test]
fn wakeup_marks_ready_and_queues() {
    let mut m = TaskManager::new();
    let mut t = task(8, 0, 16);
    t.inner.task_status = TaskStatus::Blocked;
    wakeup_task(&mut m, t);
    let back = m.fetch().unwrap();
    assert_eq!(back.id, 8);
    assert!(back.inner.task_status == TaskStatus::Ready);
}

#[test]
fn yield_requeues_and_returns_zero() {
    let mut m = TaskManager::new();
    let mut t = task(3, 0, 16);
    t.inner.task_status = TaskStatus::Running;
    assert_eq!(sys_yield(&mut m, t), 0);
    let back = m.fetch().unwrap();
    assert!(back.inner.task_status == TaskStatus::Ready);
}

#[test]
fn fair_scheduling_keeps_strides_within_half() {
    // priorities at least MIN_PRIORITY: repeatedly running the chosen task keeps
    // all strides within BIG_STRIDE / 2 of each other
    let mut m = TaskManager::new();
    m.add(task(1, 0, 2));
    m.add(task(2, 0, 5));
    m.add(task(3, 0, 16));
    let mut strides = [0usize; 4];
    for _ in 0..200 {
        let t = m.fetch().unwrap();
        strides[t.id] = t.inner.stride;
        m.add(t);
        let lo = strides[1..].iter().min().unwrap();
        let hi = strides[1..].iter().max().unwrap();
        assert!(hi - lo <= BIG_STRIDE / 2);
    }
}

#[test]
fn cpu_share_follows_priority() {
    let mut m = TaskManager::new();
    m.add(task(1, 0, 2));
    m.add(task(2, 0, 8));
    let mut runs = [0usize; 3];
    for _ in 0..1000 {
        let t = m.fetch().unwrap();
        runs[t.id] += 1;
        m.add(t);
    }
    // task 2 has four times the priority, so about four times the turns
    assert!(runs[2] > 3 * runs[1]);
    assert!(runs[2] < 5 * runs[1]);
}

#[test]
fn fetch_takes_smallest_stride_above_the_signed_limit() {
    // strides past isize::MAX, within BIG_STRIDE / 2 of each other
    let base = (isize::MAX as usize) - 100;
    let mut m = TaskManager::new();
    add_task(&mut m, task(1, base + 300, 2));
    add_task(&mut m, task(2, base, 2));
    add_task(&mut m, task(3, base + 200, 2));
    let t = fetch_task(&mut m).unwrap();
    assert_eq!(t.id, 2);
    assert_eq!(t.inner.stride, base + BIG_STRIDE / 2);
    assert_eq!(fetch_task(&mut m).unwrap().id, 3);
    assert_eq!(fetch_task(&mut m).unwrap().id, 1);
}

#[test]
fn requeued_task_stays_within_the_window() {
    let mut m = TaskManager::new();
    add_task(&mut m, task(1, 1000, 2));
    add_task(&mut m, task(2, 1000 + BIG_STRIDE / 2, 2));
    let t = fetch_task(&mut m).unwrap();
    assert_eq!(t.id, 1);
    add_task(&mut m, t);
    // both now stand at the same stride; the larger id goes first
    let a = fetch_task(&mut m).unwrap();
    let b = fetch_task(&mut m).unwrap();
    assert_eq!((a.id, b.id), (2, 1));
    assert_eq!(a.inner.stride, 1000 + BIG_STRIDE);
    assert_eq!(b.inner.stride, 1000 + BIG_STRIDE);
}
