use os::id::RecycleAllocator;
use os::manager::TaskManager;
use os::deadlock::safety_check;
use os::mm::MemorySet;
use os::process::ProcessControlBlock;

fn process() -> ProcessControlBlock {
    let mut pids = RecycleAllocator::new();
    pids.allocate();
    let mut m = TaskManager::new();
    ProcessControlBlock::new(&mut pids, &mut m, MemorySet::new(0x8000_0000_0000_1000), 0x1_0000, 0x1000, 100, 0, 0, 0, 0).0
}

#[test]
fn textbook_state_is_safe() {
    let avail = vec![3, 3, 2];
    let alloc = vec![vec![0, 1, 0], vec![2, 0, 0], vec![3, 0, 2], vec![2, 1, 1], vec![0, 0, 2]];
    let need = vec![vec![7, 4, 3], vec![1, 2, 2], vec![6, 0, 0], vec![0, 1, 1], vec![4, 3, 1]];
    assert!(safety_check(&avail, &alloc, &need));
}

#[test]
fn nothing_available_with_needs_is_unsafe() {
    let avail = vec![0, 0];
    let alloc = vec![vec![1, 0], vec![0, 1]];
    let need = vec![vec![0, 1], vec![1, 0]];
    assert!(!safety_check(&avail, &alloc, &need));
}

#[test]
fn finished_threads_give_back_what_they_hold() {
    // thread 1 can finish and its units let thread 0 finish
    let avail = vec![0];
    let alloc = vec![vec![0], vec![2]];
    let need = vec![vec![2], vec![0]];
    assert!(safety_check(&avail, &alloc, &need));
}

#[test]
fn missing_rows_and_entries_count_as_zero() {
    // thread 1 has no need row: it needs nothing; need past the resources must be 0
    let avail = vec![1];
    let alloc = vec![vec![], vec![1]];
    let need = vec![vec![2]];
    assert!(safety_check(&avail, &alloc, &need));
    let need_beyond = vec![vec![0, 1]];
    assert!(!safety_check(&avail, &alloc, &need_beyond));
}

#[test]
fn add_resource_extends_every_row() {
    let mut p = process();
    assert_eq!(p.inner.add_resource(3), 0);
    p.inner.ensure_dl_task(1);
    assert_eq!(p.inner.dl_allocation, vec![vec![], vec![0]]);
    assert_eq!(p.inner.dl_need, vec![vec![], vec![0]]);
    assert_eq!(p.inner.add_resource(2), 1);
    assert_eq!(p.inner.dl_available, vec![3, 2]);
    assert_eq!(p.inner.dl_allocation, vec![vec![0], vec![0, 0]]);
    assert_eq!(p.inner.dl_need, vec![vec![2], vec![0, 2]]);
}

#[test]
fn ensure_pads_rows_with_zeros() {
    let mut p = process();
    p.inner.add_resource(1);
    p.inner.add_resource(1);
    p.inner.ensure_dl_task(2);
    assert_eq!(p.inner.dl_allocation, vec![vec![], vec![], vec![0, 0]]);
    assert_eq!(p.inner.dl_need, vec![vec![], vec![], vec![0, 0]]);
}

#[test]
fn safe_request_is_granted() {
    let mut p = process();
    p.inner.ensure_dl_task(0);
    p.inner.ensure_dl_task(1);
    p.inner.add_resource(2);
    assert!(p.inner.dl_try_request(0, 0));
    assert_eq!(p.inner.dl_available, vec![1]);
    assert_eq!(p.inner.dl_allocation, vec![vec![1], vec![0]]);
    assert_eq!(p.inner.dl_need, vec![vec![1], vec![2]]);
}

#[test]
fn unsafe_request_is_refused_and_rolled_back() {
    // two threads that both may still need both units of one resource
    let mut p = process();
    p.inner.ensure_dl_task(0);
    p.inner.ensure_dl_task(1);
    p.inner.add_resource(2);
    assert!(p.inner.dl_try_request(0, 0));
    let before = (p.inner.dl_available.clone(), p.inner.dl_allocation.clone(), p.inner.dl_need.clone());
    // giving the last unit to thread 1 leaves neither able to finish
    assert!(!p.inner.dl_try_request(1, 0));
    assert_eq!(before, (p.inner.dl_available.clone(), p.inner.dl_allocation.clone(), p.inner.dl_need.clone()));
}

#[test]
fn refusal_with_nothing_available_restores_everything() {
    let mut p = process();
    p.inner.add_resource(0);
    p.inner.dl_allocation = vec![vec![0], vec![0]];
    p.inner.dl_need = vec![vec![1], vec![2]];
    assert!(!p.inner.dl_try_request(0, 0));
    assert_eq!(p.inner.dl_available, vec![0]);
    assert_eq!(p.inner.dl_allocation, vec![vec![0], vec![0]]);
    assert_eq!(p.inner.dl_need, vec![vec![1], vec![2]]);
}

#[test]
fn release_returns_a_unit() {
    let mut p = process();
    p.inner.ensure_dl_task(0);
    p.inner.add_resource(1);
    assert!(p.inner.dl_try_request(0, 0));
    p.inner.dl_release_resource(0, 0);
    assert_eq!(p.inner.dl_available, vec![1]);
    assert_eq!(p.inner.dl_allocation, vec![vec![0]]);
    // releasing with nothing held only raises the available count
    p.inner.dl_release_resource(0, 0);
    assert_eq!(p.inner.dl_available, vec![2]);
    assert_eq!(p.inner.dl_allocation, vec![vec![0]]);
}

#[test]
fn is_dl_safe_on_empty_state() {
    let p = process();
    assert!(p.inner.is_dl_safe());
}

#[test]
fn ensure_keeps_old_entries_and_is_idempotent() {
    let mut p = process();
    p.inner.add_resource(3);
    p.inner.dl_allocation = vec![vec![1]];
    p.inner.dl_need = vec![vec![2]];
    p.inner.add_resource(5);
    p.inner.ensure_dl_task(1);
    assert_eq!(p.inner.dl_allocation, vec![vec![1, 0], vec![0, 0]]);
    assert_eq!(p.inner.dl_need, vec![vec![2, 5], vec![0, 0]]);
    assert_eq!(p.inner.dl_available, vec![3, 5]);
    p.inner.ensure_dl_task(1);
    assert_eq!(p.inner.dl_allocation, vec![vec![1, 0], vec![0, 0]]);
    assert_eq!(p.inner.dl_need, vec![vec![2, 5], vec![0, 0]]);
}

#[test]
fn more_available_units_keep_a_safe_state_safe() {
    let alloc = vec![vec![1, 0], vec![0, 1]];
    let need = vec![vec![1, 0], vec![2, 0]];
    assert!(safety_check(&vec![1, 0], &alloc, &need));
    assert!(safety_check(&vec![1, 1], &alloc, &need));
    assert!(safety_check(&vec![3, 4], &alloc, &need));
    assert!(!safety_check(&vec![0, 0], &alloc, &need));
}
