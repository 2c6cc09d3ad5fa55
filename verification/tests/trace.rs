use os::trace::{current_task_syscall_count, record_syscall, TraceManager};

#[test]
fn counts_start_at_zero() {
    let m = TraceManager::new(4);
    assert_eq!(m.get_syscall_count(0, 64), 0);
    assert_eq!(current_task_syscall_count(&m, 3, 93), 0);
}

#[test]
fn recording_counts_one_more() {
    let mut m = TraceManager::new(4);
    record_syscall(&mut m, 1, 64);
    record_syscall(&mut m, 1, 64);
    record_syscall(&mut m, 1, 93);
    record_syscall(&mut m, 2, 64);
    assert_eq!(current_task_syscall_count(&m, 1, 64), 2);
    assert_eq!(current_task_syscall_count(&m, 1, 93), 1);
    assert_eq!(current_task_syscall_count(&m, 2, 64), 1);
    assert_eq!(current_task_syscall_count(&m, 0, 64), 0);
}

#[test]
fn untracked_tasks_are_ignored() {
    let mut m = TraceManager::new(2);
    record_syscall(&mut m, 5, 64);
    assert_eq!(m.get_syscall_count(5, 64), 0);
    m.record_syscall(1, 410);
    assert_eq!(m.get_syscall_count(1, 410), 1);
}
