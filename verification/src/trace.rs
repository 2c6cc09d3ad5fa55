//! Per-task counts of system calls.
use vstd::prelude::*;
use std::collections::BTreeMap;

verus! {

/// Counts, per task id, how often each system call was made.
pub struct TraceManager {
    syscall_counts: Vec<BTreeMap<usize, usize>>,
}

impl TraceManager {
    /// The counts of each task, by system call number.
    pub closed spec fn counts(&self) -> Seq<Map<usize, usize>> {
        self.syscall_counts@.map_values(|m: BTreeMap<usize, usize>| m@)
    }

    /// How often task `task_id` made system call `syscall_id`; 0 for a task id
    /// that is not tracked.
    pub open spec fn count(&self, task_id: usize, syscall_id: usize) -> usize {
        if task_id < self.counts().len() && self.counts()[task_id as int].contains_key(syscall_id) {
            self.counts()[task_id as int][syscall_id]
        } else {
            0
        }
    }

    /// A manager that tracks task ids `0 .. app_num`, with all counts zero.
    pub fn new(app_num: usize) -> (r: Self)
        ensures
            r.counts().len() == app_num,
            forall|t: int| 0 <= t < app_num ==> (#[trigger] r.counts()[t]) == Map::<usize, usize>::empty(),
    {
        let mut syscall_counts: Vec<BTreeMap<usize, usize>> = Vec::new();
        let mut i: usize = 0;
        while i < app_num
            invariant
                i <= app_num,
                syscall_counts@.len() == i,
                forall|t: int| 0 <= t < i ==> (#[trigger] syscall_counts@[t])@ == Map::<usize, usize>::empty(),
            decreases app_num - i,
        {
            syscall_counts.push(BTreeMap::new());
            i = i + 1;
        }
        TraceManager { syscall_counts }
    }

    /// Count one more call of `syscall_id` by task `task_id`; nothing happens for a
    /// task id that is not tracked.
    pub fn record_syscall(&mut self, task_id: usize, syscall_id: usize)
        requires
            old(self).count(task_id, syscall_id) < usize::MAX,
        ensures
            final(self).counts().len() == old(self).counts().len(),
            task_id < old(self).counts().len() ==> final(self).counts() == old(self).counts().update(
                task_id as int,
                old(self).counts()[task_id as int].insert(syscall_id, (old(self).count(task_id, syscall_id) + 1) as usize),
            ),
            task_id >= old(self).counts().len() ==> final(self).counts() == old(self).counts(),
            final(self).count(task_id, syscall_id) == if task_id < old(self).counts().len() {
                old(self).count(task_id, syscall_id) + 1
            } else {
                0
            },
            forall|t: usize, s: usize|
                (t != task_id || s != syscall_id) ==> #[trigger] final(self).count(t, s) == old(self).count(t, s),
    {
        if task_id < self.syscall_counts.len() {
            let mut map = self.syscall_counts[task_id].clone();
            let current = match map.get(&syscall_id) {
                Some(c) => *c,
                None => 0,
            };
            map.insert(syscall_id, current + 1);
            self.syscall_counts.set(task_id, map);
            proof {
                assert(self.counts() =~= old(self).counts().update(
                    task_id as int,
                    old(self).counts()[task_id as int].insert(syscall_id, (current + 1) as usize),
                ));
            }
        }
    }

    /// How often task `task_id` made system call `syscall_id`.
    pub fn get_syscall_count(&self, task_id: usize, syscall_id: usize) -> (r: usize)
        ensures
            r == self.count(task_id, syscall_id),
    {
        if task_id < self.syscall_counts.len() {
            match self.syscall_counts[task_id].get(&syscall_id) {
                Some(c) => *c,
                None => 0,
            }
        } else {
            0
        }
    }
}

/// Record that the task `task_id` made system call `syscall_id`.
pub fn record_syscall(manager: &mut TraceManager, task_id: usize, syscall_id: usize)
    requires
        old(manager).count(task_id, syscall_id) < usize::MAX,
    ensures
        final(manager).count(task_id, syscall_id) == if task_id < old(manager).counts().len() {
            old(manager).count(task_id, syscall_id) + 1
        } else {
            0
        },
        forall|t: usize, s: usize|
            (t != task_id || s != syscall_id) ==> #[trigger] final(manager).count(t, s) == old(manager).count(t, s),
        final(manager).counts().len() == old(manager).counts().len(),
{
    manager.record_syscall(task_id, syscall_id);
}

/// How often the task `task_id` made system call `syscall_id`; the call that asks
/// counts too when it was recorded first.
pub fn current_task_syscall_count(manager: &TraceManager, task_id: usize, syscall_id: usize) -> (r: usize)
    ensures
        r == manager.count(task_id, syscall_id),
{
    manager.get_syscall_count(task_id, syscall_id)
}

/// Recording a call and then asking for the count gives one more than asking before
/// it, for a tracked task; for a task id that is not tracked both answers are 0. The
/// counts of all other calls and tasks do not move.
pub proof fn lemma_record_then_count(before: TraceManager, after: TraceManager, task_id: usize, syscall_id: usize)
    requires
        before.count(task_id, syscall_id) < usize::MAX,
        task_id < before.counts().len() ==> after.counts() == before.counts().update(
            task_id as int,
            before.counts()[task_id as int].insert(syscall_id, (before.count(task_id, syscall_id) + 1) as usize),
        ),
        task_id >= before.counts().len() ==> after.counts() == before.counts(),
    ensures
        task_id < before.counts().len() ==> after.count(task_id, syscall_id) == before.count(task_id, syscall_id) + 1,
        task_id >= before.counts().len() ==> after.count(task_id, syscall_id) == before.count(task_id, syscall_id)
            && before.count(task_id, syscall_id) == 0,
        forall|t: usize, s: usize|
            (t != task_id || s != syscall_id) ==> #[trigger] after.count(t, s) == before.count(t, s),
{
}

} // verus!
