//! Task control blocks and the stride arithmetic of the scheduler.
use vstd::prelude::*;
use crate::id::TaskUserRes;

verus! {

/// Large stride constant used for stride scheduling.
pub const BIG_STRIDE: usize = 0x10_0000;

/// Default priority assigned to new tasks.
pub const DEFAULT_PRIORITY: usize = 16;

/// Minimum allowed priority for stride scheduling.
pub const MIN_PRIORITY: usize = 2;

/// The pass that a task of the given priority adds to its stride each time it is
/// scheduled: `BIG_STRIDE / priority`, with priority 0 read as 1 and the pass at least 1.
pub open spec fn pass_of(priority: usize) -> int {
    let prio: int = if priority < 1 { 1 } else { priority as int };
    let q: int = BIG_STRIDE as int / prio;
    if q < 1 { 1 } else { q }
}

/// A stride increased by a pass, saturating at `usize::MAX`.
pub open spec fn stride_after(stride: usize, pass: usize) -> usize {
    if stride + pass > usize::MAX { usize::MAX } else { (stride + pass) as usize }
}

/// The execution status of a task.
#[derive(Clone, Copy, PartialEq, Eq, Structural)]
pub enum TaskStatus {
    /// ready to run
    Ready,
    /// running
    Running,
    /// blocked
    Blocked,
}

/// The mutable part of a task control block.
#[derive(Clone, Copy)]
pub struct TaskControlBlockInner {
    /// The thread id and user stack base of the task.
    pub res: Option<TaskUserRes>,
    /// Execution status of the task.
    pub task_status: TaskStatus,
    /// Set when the task exits on its own or on an execution error.
    pub exit_code: Option<i32>,
    /// Stride scheduling priority (bigger means more CPU time).
    pub priority: usize,
    /// Accumulated stride.
    pub stride: usize,
    /// Amount added to the stride whenever the task is scheduled.
    pub stride_pass: usize,
}

/// The pass for a priority, computed.
pub fn stride_pass_from_priority(priority: usize) -> (r: usize)
    ensures
        r == pass_of(priority),
        1 <= r <= BIG_STRIDE,
{
    let prio = if priority < 1 { 1 } else { priority };
    let q = BIG_STRIDE / prio;
    assert(q <= BIG_STRIDE) by (nonlinear_arith)
        requires prio >= 1, q == BIG_STRIDE / prio;
    if q < 1 { 1 } else { q }
}

impl TaskControlBlockInner {
    /// A fresh task state: ready, no exit code, default priority, stride 0.
    pub fn new(res: TaskUserRes) -> (r: Self)
        ensures
            r.res == Some(res),
            r.task_status == TaskStatus::Ready,
            r.exit_code.is_none(),
            r.priority == DEFAULT_PRIORITY,
            r.stride == 0,
            r.stride_pass == pass_of(DEFAULT_PRIORITY),
    {
        TaskControlBlockInner {
            res: Some(res),
            task_status: TaskStatus::Ready,
            exit_code: None,
            priority: DEFAULT_PRIORITY,
            stride: 0,
            stride_pass: stride_pass_from_priority(DEFAULT_PRIORITY),
        }
    }

    /// The status of the task.
    pub fn get_status(&self) -> (r: TaskStatus)
        ensures r == self.task_status,
    {
        self.task_status
    }

    /// Recompute the pass from the current priority.
    pub fn refresh_stride_pass(&mut self)
        ensures
            *final(self) == (TaskControlBlockInner { stride_pass: pass_of(old(self).priority) as usize, ..*old(self) }),
    {
        self.stride_pass = stride_pass_from_priority(self.priority);
    }

    /// Set the priority and the pass that follows from it.
    pub fn set_priority(&mut self, priority: usize)
        ensures
            *final(self) == (TaskControlBlockInner {
                priority,
                stride_pass: pass_of(priority) as usize,
                ..*old(self)
            }),
    {
        self.priority = priority;
        self.refresh_stride_pass();
    }

    /// Advance the stride by the pass, saturating at `usize::MAX`.
    pub fn add_stride(&mut self)
        ensures
            *final(self) == (TaskControlBlockInner {
                stride: stride_after(old(self).stride, old(self).stride_pass),
                ..*old(self)
            }),
    {
        self.stride = self.stride.saturating_add(self.stride_pass);
    }
}

/// A task (thread): the process it belongs to, an identity, and its mutable state.
#[derive(Clone, Copy)]
pub struct TaskControlBlock {
    /// The pid of its process.
    pub process: usize,
    /// Identity of the task, distinct among live tasks.
    pub id: usize,
    /// Mutable state.
    pub inner: TaskControlBlockInner,
}

impl TaskControlBlock {
    /// A fresh task of the given process, with the given thread resources.
    pub fn new(process: usize, id: usize, res: TaskUserRes) -> (r: Self)
        ensures
            r.inner.res == Some(res),
            r.process == process,
            r.id == id,
            r.inner.task_status == TaskStatus::Ready,
            r.inner.exit_code.is_none(),
            r.inner.priority == DEFAULT_PRIORITY,
            r.inner.stride == 0,
            r.inner.stride_pass == pass_of(DEFAULT_PRIORITY),
    {
        TaskControlBlock { process, id, inner: TaskControlBlockInner::new(res) }
    }

    /// Exclusive access to the mutable state.
    pub fn inner_exclusive_access(&mut self) -> (r: &mut TaskControlBlockInner)
        ensures
            *r == old(self).inner,
            final(self).inner == *final(r),
            final(self).process == old(self).process,
            final(self).id == old(self).id,
    {
        &mut self.inner
    }
}

/// A pass is at most `BIG_STRIDE / 2` exactly when the priority is at least
/// `MIN_PRIORITY`.
pub proof fn lemma_pass_at_most_half(priority: usize)
    ensures
        priority >= MIN_PRIORITY <==> pass_of(priority) <= BIG_STRIDE / 2,
{
    let p = priority as int;
    if p >= 2 {
        assert(BIG_STRIDE as int / p <= BIG_STRIDE as int / 2) by (nonlinear_arith)
            requires p >= 2;
    } else if p == 1 {
    } else {
    }
}

} // verus!
