//! The ready queue of the stride scheduler.
//!
//! Every queued task carries the stride it had when it was queued. `fetch` hands out
//! the task that the stride order ranks highest, which is the task with the smallest
//! stride while all strides lie within `BIG_STRIDE / 2` of each other, and advances
//! that task's stride by its pass.
use vstd::prelude::*;
use crate::task::{
    lemma_pass_at_most_half, pass_of, stride_after, TaskControlBlock, TaskControlBlockInner,
    TaskStatus, BIG_STRIDE, MIN_PRIORITY,
};

verus! {

/// Result of comparing two queue entries.
#[derive(Clone, Copy, PartialEq, Eq, Structural)]
pub enum StrideOrder {
    Less,
    Equal,
    Greater,
}

/// A queued task together with the stride and identity it is ordered by.
pub struct StrideEntry {
    pub stride: usize,
    pub id: usize,
    pub task: TaskControlBlock,
}

impl StrideEntry {
    /// The entry of a task: its current stride and its identity.
    pub fn new(task: TaskControlBlock) -> (r: Self)
        ensures
            r == entry_of(task),
    {
        let stride = task.inner.stride;
        let id = task.id;
        StrideEntry { stride, id, task }
    }
}

/// The entry under which a task is queued.
pub open spec fn entry_of(task: TaskControlBlock) -> StrideEntry {
    StrideEntry { stride: task.inner.stride, id: task.id, task }
}

/// The task after its stride was advanced by its pass.
pub open spec fn advanced(task: TaskControlBlock) -> TaskControlBlock {
    TaskControlBlock {
        inner: TaskControlBlockInner {
            stride: stride_after(task.inner.stride, task.inner.stride_pass),
            ..task.inner
        },
        ..task
    }
}

/// Difference of two strides read as signed words, wrapping on overflow.
pub open spec fn stride_diff(a: usize, b: usize) -> isize {
    vstd::wrapping::isize_specs::wrapping_sub(a as isize, b as isize)
}

/// The order of the scheduler on (stride, id). A difference of at most
/// `BIG_STRIDE / 2` is read directly (smaller stride ranks higher); a larger one is
/// read as a stride that has wrapped around (larger stride ranks higher). Equal
/// strides are ordered by id.
pub open spec fn order_of(a_stride: usize, a_id: usize, b_stride: usize, b_id: usize) -> StrideOrder {
    let d = stride_diff(a_stride, b_stride);
    let half = (BIG_STRIDE / 2) as int;
    if d == 0 {
        if a_id < b_id {
            StrideOrder::Less
        } else if a_id > b_id {
            StrideOrder::Greater
        } else {
            StrideOrder::Equal
        }
    } else if -half <= d <= half {
        if d < 0 { StrideOrder::Greater } else { StrideOrder::Less }
    } else if d > 0 {
        StrideOrder::Greater
    } else {
        StrideOrder::Less
    }
}

/// The order of two entries.
pub open spec fn entry_order(a: StrideEntry, b: StrideEntry) -> StrideOrder {
    order_of(a.stride, a.id, b.stride, b.id)
}

/// Plain order on (stride, id): `a` ranks above `b` when its stride is smaller, or
/// equal with a larger id.
pub open spec fn ranks_above(a: StrideEntry, b: StrideEntry) -> bool {
    a.stride < b.stride || (a.stride == b.stride && a.id > b.id)
}

/// All strides lie within `BIG_STRIDE / 2` of each other.
pub open spec fn strides_in_window(q: Seq<StrideEntry>) -> bool {
    forall|i: int, j: int|
        0 <= i < q.len() && 0 <= j < q.len() ==> q[i].stride - q[j].stride <= BIG_STRIDE / 2
}

/// The index that `fetch` takes among the first `n` entries: a later entry replaces
/// the current choice when it ranks strictly higher.
pub open spec fn pick_among(q: Seq<StrideEntry>, n: nat) -> int
    decreases n,
{
    if n <= 1 {
        0
    } else {
        let prev = pick_among(q, (n - 1) as nat);
        if entry_order(q[n - 1], q[prev]) == StrideOrder::Greater {
            n - 1
        } else {
            prev
        }
    }
}

/// The index of the entry that `fetch` takes from a nonempty queue.
pub open spec fn pick(q: Seq<StrideEntry>) -> int {
    pick_among(q, q.len())
}

/// Compare two entries in the scheduler's order.
pub fn stride_order(a: &StrideEntry, b: &StrideEntry) -> (r: StrideOrder)
    ensures
        r == entry_order(*a, *b),
{
    let x = a.stride as isize;
    let y = b.stride as isize;
    let diff = x.wrapping_sub(y);
    if diff == 0 {
        if a.id < b.id {
            return StrideOrder::Less;
        } else if a.id > b.id {
            return StrideOrder::Greater;
        } else {
            return StrideOrder::Equal;
        }
    }
    let half = (BIG_STRIDE / 2) as isize;
    if -half <= diff && diff <= half {
        if diff < 0 {
            StrideOrder::Greater
        } else {
            StrideOrder::Less
        }
    } else if diff > 0 {
        StrideOrder::Greater
    } else {
        StrideOrder::Less
    }
}

/// Every word is at most the word with all bits set.
proof fn lemma_all_ones_is_max(x: usize)
    by (bit_vector)
    ensures
        x <= !0usize,
{
}

/// A word and its reading as a signed word, bit by bit.
proof fn lemma_signed_reading_bits(a: usize)
    by (bit_vector)
    ensures
        (a as isize) >= 0 ==> a as isize == a,
        (a as isize) < 0 ==> (a as isize) + !0usize + 1 == a,
        (a as isize) >= 0 <==> a <= !0usize / 2,
{
}

/// A word read as a signed word: itself up to `isize::MAX`, less `usize::MAX + 1`
/// above it.
proof fn lemma_signed_reading(a: usize)
    ensures
        a <= isize::MAX ==> a as isize == a,
        a > isize::MAX ==> a as isize == a - usize::MAX - 1,
{
    lemma_all_ones_is_max(usize::MAX);
    lemma_signed_reading_bits(a);
}

/// Strides less than `BIG_STRIDE / 2` apart differ, read as signed words, by just
/// their difference, wherever in the word they lie.
proof fn lemma_stride_diff_near(a: usize, b: usize)
    requires
        a - b <= BIG_STRIDE / 2,
        b - a <= BIG_STRIDE / 2,
    ensures
        stride_diff(a, b) == a - b,
{
    lemma_signed_reading(a);
    lemma_signed_reading(b);
}

/// Within the window the scheduler's order is the plain order on (stride, id).
pub proof fn lemma_order_in_window(a: StrideEntry, b: StrideEntry)
    requires
        a.stride - b.stride <= BIG_STRIDE / 2,
        b.stride - a.stride <= BIG_STRIDE / 2,
    ensures
        entry_order(a, b) == StrideOrder::Greater <==> ranks_above(a, b),
        entry_order(a, b) == StrideOrder::Equal <==> (a.stride == b.stride && a.id == b.id),
{
    lemma_stride_diff_near(a.stride, b.stride);
}

/// In a queue whose strides lie in the window, the picked entry ranks at least as
/// high as every entry among the first `n`.
proof fn lemma_pick_among_is_highest(q: Seq<StrideEntry>, n: nat)
    requires
        1 <= n <= q.len(),
        strides_in_window(q),
    ensures
        0 <= pick_among(q, n) < n,
        forall|k: int| 0 <= k < n ==> !ranks_above(#[trigger] q[k], q[pick_among(q, n)]),
    decreases n,
{
    if n > 1 {
        lemma_pick_among_is_highest(q, (n - 1) as nat);
        let prev = pick_among(q, (n - 1) as nat);
        lemma_order_in_window(q[n - 1], q[prev]);
    }
}

/// In a queue whose strides lie in the window, `fetch` takes the entry with the
/// smallest stride, and among those the one with the largest id.
pub proof fn lemma_pick_is_highest(q: Seq<StrideEntry>)
    requires
        q.len() > 0,
        strides_in_window(q),
    ensures
        0 <= pick(q) < q.len(),
        forall|k: int| 0 <= k < q.len() ==> !ranks_above(#[trigger] q[k], q[pick(q)]),
        forall|k: int| 0 <= k < q.len() ==> q[pick(q)].stride <= #[trigger] q[k].stride,
{
    lemma_pick_among_is_highest(q, q.len());
}

/// The ready queue of the scheduler and the task that stopped last.
pub struct TaskManager {
    ready_queue: Vec<StrideEntry>,
    stop_task: Option<TaskControlBlock>,
}

impl TaskManager {
    /// The queued entries, in the order they are kept.
    pub closed spec fn queue(&self) -> Seq<StrideEntry> {
        self.ready_queue@
    }

    /// The task kept after it stopped, so that its kernel stack stays alive.
    pub closed spec fn stopped(&self) -> Option<TaskControlBlock> {
        self.stop_task
    }

    /// An empty scheduler.
    pub fn new() -> (r: Self)
        ensures
            r.queue() == Seq::<StrideEntry>::empty(),
            r.stopped().is_none(),
    {
        TaskManager { ready_queue: Vec::new(), stop_task: None }
    }

    /// Queue a task under its current stride.
    pub fn add(&mut self, task: TaskControlBlock)
        ensures
            final(self).queue() == old(self).queue().push(entry_of(task)),
            final(self).stopped() == old(self).stopped(),
    {
        let entry = StrideEntry::new(task);
        self.ready_queue.push(entry);
    }

    /// Take the highest ranking task out of the queue and advance its stride.
    pub fn fetch(&mut self) -> (r: Option<TaskControlBlock>)
        ensures
            old(self).queue().len() == 0 ==> r.is_none() && final(self).queue() == old(self).queue(),
            old(self).queue().len() > 0 ==> {
                let q = old(self).queue();
                let i = pick(q);
                &&& 0 <= i < q.len()
                &&& r == Some(advanced(q[i].task))
                &&& final(self).queue() == q.remove(i)
                &&& strides_in_window(q) ==> forall|k: int|
                    0 <= k < q.len() ==> !ranks_above(#[trigger] q[k], q[i]) && q[i].stride <= q[k].stride
            },
            final(self).stopped() == old(self).stopped(),
    {
        let len = self.ready_queue.len();
        if len == 0 {
            return None;
        }
        let ghost q = self.ready_queue@;
        let mut best: usize = 0;
        let mut i: usize = 1;
        while i < len
            invariant
                q == self.ready_queue@,
                len == q.len(),
                1 <= i <= len,
                best == pick_among(q, i as nat),
                0 <= best < i,
            decreases len - i,
        {
            let o = stride_order(&self.ready_queue[i], &self.ready_queue[best]);
            if o == StrideOrder::Greater {
                best = i;
            }
            i = i + 1;
        }
        proof {
            if strides_in_window(q) {
                lemma_pick_is_highest(q);
            }
        }
        let entry = self.ready_queue.remove(best);
        let mut task = entry.task;
        task.inner.add_stride();
        Some(task)
    }

    /// Drop every queued entry of the task with the given id.
    pub fn remove(&mut self, id: usize)
        ensures
            final(self).queue() == old(self).queue().filter(|e: StrideEntry| e.id != id),
            final(self).stopped() == old(self).stopped(),
    {
        let ghost q = self.ready_queue@;
        let ghost keep = |e: StrideEntry| e.id != id;
        let mut kept: Vec<StrideEntry> = Vec::new();
        let mut rest: Vec<StrideEntry> = Vec::new();
        std::mem::swap(&mut rest, &mut self.ready_queue);
        let n = rest.len();
        while rest.len() > 0
            invariant
                n == q.len(),
                rest.len() <= n,
                rest@ == q.skip(n - rest.len()),
                keep == (|e: StrideEntry| e.id != id),
                kept@ == q.take(n - rest.len()).filter(keep),
                self.stop_task == old(self).stop_task,
            decreases rest.len(),
        {
            let ghost k = n - rest.len();
            let e = rest.remove(0);
            proof {
                assert(q.take(k + 1).drop_last() =~= q.take(k));
                assert(q.take(k + 1).last() == q[k]);
                assert(e == q[k]);
                assert(rest@ =~= q.skip(n - rest.len()));
            }
            let keep_it = e.id != id;
            if keep_it {
                kept.push(e);
            }
            proof {
                reveal(Seq::filter);
                let t = q.take(k + 1);
                assert(t.filter(keep) == if keep(t.last()) {
                    t.drop_last().filter(keep).push(t.last())
                } else {
                    t.drop_last().filter(keep)
                });
            }
        }
        proof {
            assert(q.take(n as int) =~= q);
        }
        self.ready_queue = kept;
    }

    /// Keep a task that has stopped, replacing the one kept before.
    pub fn add_stop(&mut self, task: TaskControlBlock)
        ensures
            final(self).queue() == old(self).queue(),
            final(self).stopped() == Some(task),
    {
        self.stop_task = Some(task);
    }
}

/// The order is antisymmetric: `a` ranks above `b` exactly when `b` ranks below `a`,
/// and they are equal exactly when both ways say so, unless the strides read as
/// signed words differ by exactly the smallest signed word.
pub proof fn lemma_order_antisymmetric(a: StrideEntry, b: StrideEntry)
    requires
        stride_diff(a.stride, b.stride) != isize::MIN,
    ensures
        entry_order(a, b) == StrideOrder::Greater <==> entry_order(b, a) == StrideOrder::Less,
        entry_order(a, b) == StrideOrder::Equal <==> entry_order(b, a) == StrideOrder::Equal,
{
    let x = a.stride as isize;
    let y = b.stride as isize;
    assert(stride_diff(b.stride, a.stride) == -stride_diff(a.stride, b.stride));
}

/// Stride scheduling keeps the queue fair: when every queued task has a priority of
/// at least `MIN_PRIORITY` and a pass that matches it, and every entry carries its
/// task's stride, then taking the highest ranking task with `fetch` and queueing it
/// again with `add` leaves all strides within `BIG_STRIDE / 2` of each other.
pub proof fn lemma_fetch_and_requeue_keeps_window(q: Seq<StrideEntry>)
    requires
        q.len() > 0,
        strides_in_window(q),
        forall|k: int| 0 <= k < q.len() ==> (#[trigger] q[k]).stride == q[k].task.inner.stride,
        forall|k: int|
            0 <= k < q.len() ==> (#[trigger] q[k]).task.inner.priority >= MIN_PRIORITY
                && q[k].task.inner.stride_pass == pass_of(q[k].task.inner.priority),
    ensures
        strides_in_window(q.remove(pick(q)).push(entry_of(advanced(q[pick(q)].task)))),
{
    lemma_pick_is_highest(q);
    let i = pick(q);
    let t = q[i].task;
    lemma_pass_at_most_half(t.inner.priority);
    let e = entry_of(advanced(t));
    assert(q[i].stride <= e.stride <= q[i].stride + t.inner.stride_pass);
    assert(e.stride == usize::MAX || e.stride == q[i].stride + t.inner.stride_pass);
    let r = q.remove(i).push(e);
    assert forall|a: int, b: int| 0 <= a < r.len() && 0 <= b < r.len() implies
        r[a].stride - r[b].stride <= BIG_STRIDE / 2 by {
        let ia = if a == r.len() - 1 { i } else if a < i { a } else { a + 1 };
        let ib = if b == r.len() - 1 { i } else if b < i { b } else { b + 1 };
        assert(q[i].stride <= q[ia].stride);
        assert(q[i].stride <= q[ib].stride);
        assert(q[ia].stride - q[i].stride <= BIG_STRIDE / 2);
        assert(q[ib].stride - q[i].stride <= BIG_STRIDE / 2);
    }
}

/// Make a task ready again and queue it.
pub fn wakeup_task(manager: &mut TaskManager, task: TaskControlBlock)
    ensures
        final(manager).queue() == old(manager).queue().push(
            entry_of(
                TaskControlBlock {
                    inner: TaskControlBlockInner { task_status: TaskStatus::Ready, ..task.inner },
                    ..task
                },
            ),
        ),
        final(manager).stopped() == old(manager).stopped(),
{
    let mut task = task;
    task.inner.task_status = TaskStatus::Ready;
    manager.add(task);
}

/// Queue a task.
pub fn add_task(manager: &mut TaskManager, task: TaskControlBlock)
    ensures
        final(manager).queue() == old(manager).queue().push(entry_of(task)),
        final(manager).stopped() == old(manager).stopped(),
{
    manager.add(task);
}

/// Drop a task from the ready queue.
pub fn remove_task(manager: &mut TaskManager, id: usize)
    ensures
        final(manager).queue() == old(manager).queue().filter(|e: StrideEntry| e.id != id),
        final(manager).stopped() == old(manager).stopped(),
{
    manager.remove(id);
}

/// Take the next task to run out of the ready queue.
pub fn fetch_task(manager: &mut TaskManager) -> (r: Option<TaskControlBlock>)
    ensures
        old(manager).queue().len() == 0 ==> r.is_none() && final(manager).queue() == old(manager).queue(),
        old(manager).queue().len() > 0 ==> {
            let q = old(manager).queue();
            &&& r == Some(advanced(q[pick(q)].task))
            &&& final(manager).queue() == q.remove(pick(q))
            &&& strides_in_window(q) ==> forall|k: int|
                0 <= k < q.len() ==> !ranks_above(#[trigger] q[k], q[pick(q)])
                    && q[pick(q)].stride <= q[k].stride
        },
        final(manager).stopped() == old(manager).stopped(),
{
    manager.fetch()
}

/// Keep a task that stopped until its kernel stack is no longer in use.
pub fn add_stopping_task(manager: &mut TaskManager, task: TaskControlBlock)
    ensures
        final(manager).queue() == old(manager).queue(),
        final(manager).stopped() == Some(task),
{
    manager.add_stop(task);
}

} // verus!
