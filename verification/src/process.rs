//! Process control blocks: file descriptors, threads, the deadlock-avoidance state,
//! memory mappings and the program break.
use vstd::prelude::*;
use std::collections::BTreeMap;
use crate::config::USER_STACK_SIZE;
use crate::deadlock::{
    all_done, copy_row, is_safe, lemma_safe_with_more_available, padded, pad_row, released, resize_rows, resized, row_of, rows, safety_check,
    set_cell, totals_fit, with_cell,
};
use crate::id::{
    area_free_in, area_is_free, areas_overlap, lemma_free_after_push, overlap, trap_cx_area, user_res_fits,
    ustack_area, RecycleAllocator, TaskUserRes,
};
use crate::task::{pass_of, TaskControlBlock, TaskControlBlockInner, TaskStatus};
use crate::manager::{entry_of, TaskManager};
use crate::trap::{user_mode_sstatus, TrapContext};
use crate::syscall::{le_bytes, word_bytes};
use crate::mm::{
    ceil, ceil_of, first_starting, floor, floor_of, growth_is_free, va_of, virt_addr, with_area_end, MapArea,
    MapPermission, MemorySet, PERM_R, PERM_U, PERM_W,
};

verus! {

/// A memory region that the process mapped with `mmap`.
#[derive(Clone, Copy, PartialEq, Eq, Structural)]
pub struct MmapRegion {
    /// Region start address, page aligned.
    pub start: usize,
    /// Region length in bytes, rounded up to whole pages.
    pub len: usize,
    /// Permission used when mapping.
    pub perm: MapPermission,
}

/// The mutable part of a process control block.
pub struct ProcessControlBlockInner {
    /// Whether the process has exited and waits to be reaped.
    pub is_zombie: bool,
    /// The address space.
    pub memory_set: MemorySet,
    /// Pid of the parent process.
    pub parent: Option<usize>,
    /// Child processes.
    pub children: Vec<ProcessControlBlock>,
    /// Exit code, read when the process is reaped.
    pub exit_code: i32,
    /// Open files by descriptor; each entry names an open file object.
    pub fd_table: Vec<Option<usize>>,
    /// Pending signals, one bit each.
    pub signals: u32,
    /// Task (thread) identities by thread id.
    pub tasks: Vec<Option<usize>>,
    /// Allocator of thread ids.
    pub task_res_allocator: RecycleAllocator,
    /// Mutexes by id; each entry names a mutex object.
    pub mutex_list: Vec<Option<usize>>,
    /// Semaphores by id; each entry names a semaphore object.
    pub semaphore_list: Vec<Option<usize>>,
    /// Condition variables by id; each entry names a condition variable object.
    pub condvar_list: Vec<Option<usize>>,
    /// Whether deadlock detection is on.
    pub deadlock_detect: bool,
    /// Available units per resource.
    pub dl_available: Vec<usize>,
    /// Units held, per thread and resource.
    pub dl_allocation: Vec<Vec<usize>>,
    /// Units still needed, per thread and resource.
    pub dl_need: Vec<Vec<usize>>,
    /// Resource index of each mutex.
    pub dl_mutex_res: Vec<Option<usize>>,
    /// Resource index of each semaphore.
    pub dl_sem_res: Vec<Option<usize>>,
    /// Regions mapped with `mmap`, by start address.
    pub mmap_areas: BTreeMap<usize, MmapRegion>,
    /// Lowest address of the heap.
    pub heap_bottom: usize,
    /// Current program break.
    pub program_brk: usize,
}

/// A process: its pid and its mutable state.
pub struct ProcessControlBlock {
    /// Process identifier.
    pub pid: usize,
    /// Mutable state.
    pub inner: ProcessControlBlockInner,
}

/// The rows after making sure that row `tid` exists (growing to `tid + 1` rows when
/// `grow`) and has at least `cols` entries.
pub open spec fn ensured(m: Seq<Seq<usize>>, grow: bool, tid: int, cols: nat) -> Seq<Seq<usize>> {
    let m1 = if grow { resized(m, (tid + 1) as nat) } else { m };
    m1.update(tid, padded(m1[tid], cols))
}

/// The row made sure of exists and has an entry for every resource.
pub proof fn lemma_ensured_shape(m: Seq<Seq<usize>>, grow: bool, tid: int, cols: nat)
    requires
        0 <= tid,
        grow || tid < m.len(),
    ensures
        tid < ensured(m, grow, tid, cols).len(),
        ensured(m, grow, tid, cols)[tid].len() >= cols,
{
}

/// Making sure of row `tid` only adds: the matrix has `max(len, tid + 1)` rows, row
/// `tid` has an entry for each of `cols` resources, every old entry keeps its value,
/// and every added entry is 0.
pub proof fn lemma_ensured_pads_with_zeros(m: Seq<Seq<usize>>, tid: int, cols: nat)
    requires
        0 <= tid,
    ensures
        ({
            let e = ensured(m, tid >= m.len(), tid, cols);
            &&& e.len() == if tid < m.len() { m.len() } else { (tid + 1) as nat }
            &&& e[tid].len() >= cols
            &&& forall|i: int, j: int|
                0 <= i < m.len() && 0 <= j < m[i].len() ==> #[trigger] e[i][j] == m[i][j]
            &&& forall|i: int, j: int|
                0 <= i < e.len() && 0 <= j < e[i].len() && !(i < m.len() && j < m[i].len())
                    ==> #[trigger] e[i][j] == 0
            &&& forall|i: int| 0 <= i < e.len() && i != tid ==> (#[trigger] e[i]) == row_of(m, i)
        }),
{
    let grow = tid >= m.len();
    let m1 = if grow { resized(m, (tid + 1) as nat) } else { m };
    let e = ensured(m, grow, tid, cols);
    assert forall|i: int| 0 <= i < m1.len() implies (#[trigger] m1[i]) == row_of(m, i) by {
    }
    assert forall|i: int, j: int|
        0 <= i < e.len() && 0 <= j < e[i].len() && !(i < m.len() && j < m[i].len())
            implies #[trigger] e[i][j] == 0 by {
        assert(m1[i] == row_of(m, i));
    }
    assert forall|i: int, j: int|
        0 <= i < m.len() && 0 <= j < m[i].len() implies #[trigger] e[i][j] == m[i][j] by {
        assert(m1[i] == m[i]);
    }
}

/// Making sure of the same row twice changes nothing the second time.
pub proof fn lemma_ensured_idempotent(m: Seq<Seq<usize>>, tid: int, cols: nat)
    requires
        0 <= tid,
    ensures
        ({
            let e = ensured(m, tid >= m.len(), tid, cols);
            ensured(e, tid >= e.len(), tid, cols) == e
        }),
{
    let e = ensured(m, tid >= m.len(), tid, cols);
    assert(padded(e[tid], cols) =~= e[tid]);
    assert(e.update(tid, padded(e[tid], cols)) =~= e);
}

/// `ensure_dl_task` for thread `tid`: both matrices get `max(len, tid + 1)` rows and
/// row `tid` of each an entry for every resource; every old entry keeps its value,
/// every added one is 0, and the available units stay as they are. Called a second
/// time for the same thread it changes nothing.
pub proof fn lemma_ensure_dl_task_shape(p: ProcessControlBlockInner, q: ProcessControlBlockInner, tid: usize)
    requires
        p.can_ensure(tid),
        p.dl_need@.len() == p.dl_allocation@.len(),
        q.alloc_rows() == p.ensured_alloc(tid),
        q.need_rows() == p.ensured_need(tid),
        q.dl_available@ == p.dl_available@,
    ensures
        ({
            let a0 = p.alloc_rows();
            let n0 = p.need_rows();
            let a = q.alloc_rows();
            let n = q.need_rows();
            let c = p.dl_available@.len();
            let len = if tid < a0.len() { a0.len() } else { (tid + 1) as nat };
            &&& a.len() == len && n.len() == len
            &&& a[tid as int].len() >= c && n[tid as int].len() >= c
            &&& forall|i: int, j: int|
                0 <= i < a0.len() && 0 <= j < a0[i].len() ==> #[trigger] a[i][j] == a0[i][j]
            &&& forall|i: int, j: int|
                0 <= i < n0.len() && 0 <= j < n0[i].len() ==> #[trigger] n[i][j] == n0[i][j]
            &&& forall|i: int, j: int|
                0 <= i < a.len() && 0 <= j < a[i].len() && !(i < a0.len() && j < a0[i].len())
                    ==> #[trigger] a[i][j] == 0
            &&& forall|i: int, j: int|
                0 <= i < n.len() && 0 <= j < n[i].len() && !(i < n0.len() && j < n0[i].len())
                    ==> #[trigger] n[i][j] == 0
        }),
        q.can_ensure(tid),
        q.ensured_alloc(tid) == q.alloc_rows(),
        q.ensured_need(tid) == q.need_rows(),
{
    let c = p.dl_available@.len();
    assert(p.alloc_rows().len() == p.dl_allocation@.len());
    assert(p.need_rows().len() == p.dl_need@.len());
    lemma_ensured_pads_with_zeros(p.alloc_rows(), tid as int, c);
    lemma_ensured_pads_with_zeros(p.need_rows(), tid as int, c);
    lemma_ensured_idempotent(p.alloc_rows(), tid as int, c);
    lemma_ensured_idempotent(p.need_rows(), tid as int, c);
    assert(q.alloc_rows().len() == q.dl_allocation@.len());
    assert(q.need_rows().len() == q.dl_need@.len());
}

/// More available units keep a safe deadlock state safe: for two states that differ
/// only in having at least as many units of every resource available in `more`, where
/// `is_dl_safe` may be asked of `more` (giving back every allocation fits a word), it
/// may be asked of `fewer` too, and when it answers safe for `fewer` it answers safe
/// for `more`.
pub proof fn lemma_dl_safe_with_more_available(fewer: ProcessControlBlockInner, more: ProcessControlBlockInner)
    requires
        fewer.dl_available@.len() == more.dl_available@.len(),
        forall|j: int| 0 <= j < fewer.dl_available@.len() ==> #[trigger] fewer.dl_available@[j] <= more.dl_available@[j],
        fewer.alloc_rows() == more.alloc_rows(),
        fewer.need_rows() == more.need_rows(),
        totals_fit(more.dl_available@, more.alloc_rows()),
    ensures
        totals_fit(fewer.dl_available@, fewer.alloc_rows()),
        is_safe(fewer.dl_available@, fewer.alloc_rows(), fewer.need_rows())
            ==> is_safe(more.dl_available@, more.alloc_rows(), more.need_rows()),
{
    let a = fewer.alloc_rows();
    assert forall|j: int| 0 <= j < fewer.dl_available@.len() implies fewer.dl_available@[j]
        + #[trigger] released(a, all_done(a.len()), j, a.len()) <= usize::MAX by {
        assert(fewer.dl_available@[j] <= more.dl_available@[j]);
    }
    if is_safe(fewer.dl_available@, fewer.alloc_rows(), fewer.need_rows()) {
        lemma_safe_with_more_available(fewer.dl_available@, more.dl_available@, fewer.alloc_rows(), fewer.need_rows());
    }
}

/// Writing an entry and then writing back its old value gives the matrix back.
proof fn lemma_cell_restore(m: Seq<Seq<usize>>, i: int, j: int, v: usize, w: usize)
    requires
        0 <= i < m.len(),
        0 <= j < m[i].len(),
        m[i][j] == w,
    ensures
        with_cell(with_cell(m, i, j, v), i, j, w) == m,
{
    assert(with_cell(m, i, j, v)[i].update(j, w) =~= m[i]);
    assert(with_cell(with_cell(m, i, j, v), i, j, w) =~= m);
}

/// `s` with entry `i` replaced by `v`.
pub open spec fn with_entry(s: Seq<usize>, i: int, v: usize) -> Seq<usize> {
    s.update(i, v)
}

/// A word decreased by one, stopping at zero.
pub open spec fn dec_sat(x: usize) -> usize {
    if x > 0 { (x - 1) as usize } else { 0 }
}

impl ProcessControlBlockInner {
    /// Held units as rows.
    pub open spec fn alloc_rows(&self) -> Seq<Seq<usize>> {
        rows(self.dl_allocation@)
    }

    /// Needed units as rows.
    pub open spec fn need_rows(&self) -> Seq<Seq<usize>> {
        rows(self.dl_need@)
    }

    /// Whether making sure of row `tid` grows the matrices.
    pub open spec fn grows(&self, tid: usize) -> bool {
        tid >= self.dl_allocation@.len()
    }

    /// Held units once row `tid` is made sure of.
    pub open spec fn ensured_alloc(&self, tid: usize) -> Seq<Seq<usize>> {
        ensured(self.alloc_rows(), self.grows(tid), tid as int, self.dl_available@.len())
    }

    /// Needed units once row `tid` is made sure of.
    pub open spec fn ensured_need(&self, tid: usize) -> Seq<Seq<usize>> {
        ensured(self.need_rows(), self.grows(tid), tid as int, self.dl_available@.len())
    }

    /// Row `tid` can be made sure of without indexing past the need matrix.
    pub open spec fn can_ensure(&self, tid: usize) -> bool {
        &&& tid < usize::MAX
        &&& !self.grows(tid) ==> tid < self.dl_need@.len()
    }

    /// The token of the address space.
    pub fn get_user_token(&self) -> (r: usize)
        ensures
            r == self.memory_set.token_spec(),
    {
        self.memory_set.token()
    }

    /// The lowest free file descriptor; the table grows by one entry when none is free.
    pub fn alloc_fd(&mut self) -> (r: usize)
        requires
            old(self).fd_table@.len() < usize::MAX,
        ensures
            r <= old(self).fd_table@.len(),
            forall|k: int| 0 <= k < r ==> (#[trigger] old(self).fd_table@[k]).is_some(),
            r < old(self).fd_table@.len() ==> old(self).fd_table@[r as int].is_none()
                && final(self).fd_table@ == old(self).fd_table@,
            r == old(self).fd_table@.len() ==> final(self).fd_table@ == old(self).fd_table@.push(None),
            *final(self) == (ProcessControlBlockInner { fd_table: final(self).fd_table, ..*old(self) }),
    {
        let mut fd: usize = 0;
        while fd < self.fd_table.len()
            invariant
                fd <= self.fd_table@.len(),
                self.fd_table@ == old(self).fd_table@,
                forall|k: int| 0 <= k < fd ==> (#[trigger] self.fd_table@[k]).is_some(),
                *self == *old(self),
            decreases self.fd_table@.len() - fd,
        {
            if self.fd_table[fd].is_none() {
                return fd;
            }
            fd = fd + 1;
        }
        self.fd_table.push(None);
        self.fd_table.len() - 1
    }

    /// A fresh thread id.
    pub fn alloc_tid(&mut self) -> (r: usize)
        requires
            old(self).task_res_allocator.wf(),
            old(self).task_res_allocator.recycled().len() > 0
                || old(self).task_res_allocator.current() < usize::MAX,
        ensures
            final(self).task_res_allocator.wf(),
            !old(self).task_res_allocator.in_use(r),
            final(self).task_res_allocator.in_use(r),
            forall|x: usize| x != r ==> (final(self).task_res_allocator.in_use(x) <==> old(self).task_res_allocator.in_use(x)),
            old(self).task_res_allocator.recycled().len() > 0 ==> r == old(self).task_res_allocator.recycled().last(),
            old(self).task_res_allocator.recycled().len() == 0 ==> r == old(self).task_res_allocator.current(),
            *final(self) == (ProcessControlBlockInner { task_res_allocator: final(self).task_res_allocator, ..*old(self) }),
    {
        self.task_res_allocator.allocate()
    }

    /// Give a thread id back.
    pub fn dealloc_tid(&mut self, tid: usize)
        requires
            old(self).task_res_allocator.wf(),
            old(self).task_res_allocator.in_use(tid),
        ensures
            final(self).task_res_allocator.wf(),
            final(self).task_res_allocator.current() == old(self).task_res_allocator.current(),
            final(self).task_res_allocator.recycled() == old(self).task_res_allocator.recycled().push(tid),
            *final(self) == (ProcessControlBlockInner { task_res_allocator: final(self).task_res_allocator, ..*old(self) }),
    {
        self.task_res_allocator.dealloc(tid)
    }

    /// Number of thread slots of the process.
    pub fn thread_count(&self) -> (r: usize)
        ensures
            r == self.tasks@.len(),
    {
        self.tasks.len()
    }

    /// The task with the given thread id.
    pub fn get_task(&self, tid: usize) -> (r: usize)
        requires
            tid < self.tasks@.len(),
            self.tasks@[tid as int].is_some(),
        ensures
            Some(r) == self.tasks@[tid as int],
    {
        self.tasks[tid].unwrap()
    }

    /// Make sure that the deadlock matrices have a row for thread `tid` with an entry
    /// for every resource: both grow to `tid + 1` rows when the allocation matrix is
    /// too short, and row `tid` of each is padded with zeros.
    pub fn ensure_dl_task(&mut self, tid: usize)
        requires
            old(self).can_ensure(tid),
        ensures
            final(self).alloc_rows() == old(self).ensured_alloc(tid),
            final(self).need_rows() == old(self).ensured_need(tid),
            *final(self) == (ProcessControlBlockInner {
                dl_allocation: final(self).dl_allocation,
                dl_need: final(self).dl_need,
                ..*old(self)
            }),
    {
        let cols = self.dl_available.len();
        if tid >= self.dl_allocation.len() {
            resize_rows(&mut self.dl_allocation, tid + 1);
            resize_rows(&mut self.dl_need, tid + 1);
        }
        proof {
            assert(self.alloc_rows().len() == self.dl_allocation@.len());
            assert(self.need_rows().len() == self.dl_need@.len());
        }
        if self.dl_allocation[tid].len() < cols {
            pad_row(&mut self.dl_allocation, tid, cols);
        } else {
            proof {
                assert(self.alloc_rows() =~= self.alloc_rows().update(tid as int, padded(self.alloc_rows()[tid as int], cols as nat)));
            }
        }
        if self.dl_need[tid].len() < cols {
            pad_row(&mut self.dl_need, tid, cols);
        } else {
            proof {
                assert(self.need_rows() =~= self.need_rows().update(tid as int, padded(self.need_rows()[tid as int], cols as nat)));
            }
        }
    }

    /// Add a resource with `cap` units: every thread holds none of it and may still
    /// need all of it. Returns the index of the new resource.
    pub fn add_resource(&mut self, cap: usize) -> (r: usize)
        ensures
            r == old(self).dl_available@.len(),
            final(self).dl_available@ == old(self).dl_available@.push(cap),
            final(self).alloc_rows() == old(self).alloc_rows().map_values(|row: Seq<usize>| row.push(0usize)),
            final(self).need_rows() == old(self).need_rows().map_values(|row: Seq<usize>| row.push(cap)),
            *final(self) == (ProcessControlBlockInner {
                dl_available: final(self).dl_available,
                dl_allocation: final(self).dl_allocation,
                dl_need: final(self).dl_need,
                ..*old(self)
            }),
    {
        self.dl_available.push(cap);
        push_to_rows(&mut self.dl_allocation, 0);
        push_to_rows(&mut self.dl_need, cap);
        self.dl_available.len() - 1
    }

    /// Whether the current deadlock state is safe.
    pub fn is_dl_safe(&self) -> (r: bool)
        requires
            totals_fit(self.dl_available@, self.alloc_rows()),
        ensures
            r == is_safe(self.dl_available@, self.alloc_rows(), self.need_rows()),
    {
        safety_check(&self.dl_available, &self.dl_allocation, &self.dl_need)
    }
    /// Try to give thread `tid` one unit of resource `res_idx`: the unit is taken
    /// from the available ones and moved from the thread's need to its allocation,
    /// and kept there only when the resulting state is safe. Otherwise the available
    /// count, the allocation and the need all go back to what they were. Returns
    /// whether the unit was granted.
    pub fn dl_try_request(&mut self, tid: usize, res_idx: usize) -> (r: bool)
        requires
            old(self).can_ensure(tid),
            res_idx < old(self).dl_available@.len(),
            old(self).ensured_need(tid)[tid as int][res_idx as int] >= 1,
            old(self).ensured_alloc(tid)[tid as int][res_idx as int] < usize::MAX,
            totals_fit(
                with_entry(old(self).dl_available@, res_idx as int, dec_sat(old(self).dl_available@[res_idx as int])),
                with_cell(old(self).ensured_alloc(tid), tid as int, res_idx as int,
                    (old(self).ensured_alloc(tid)[tid as int][res_idx as int] + 1) as usize),
            ),
        ensures
            ({
                let a = old(self).ensured_alloc(tid);
                let n = old(self).ensured_need(tid);
                let av = old(self).dl_available@;
                let ga = with_cell(a, tid as int, res_idx as int, (a[tid as int][res_idx as int] + 1) as usize);
                let gn = with_cell(n, tid as int, res_idx as int, (n[tid as int][res_idx as int] - 1) as usize);
                let gv = with_entry(av, res_idx as int, dec_sat(av[res_idx as int]));
                &&& r == is_safe(gv, ga, gn)
                &&& r ==> final(self).dl_available@ == gv && final(self).alloc_rows() == ga
                    && final(self).need_rows() == gn
                &&& !r ==> final(self).dl_available@ == av
                    && final(self).alloc_rows() == a && final(self).need_rows() == n
            }),
            *final(self) == (ProcessControlBlockInner {
                dl_available: final(self).dl_available,
                dl_allocation: final(self).dl_allocation,
                dl_need: final(self).dl_need,
                ..*old(self)
            }),
    {
        self.ensure_dl_task(tid);
        proof {
            lemma_ensured_shape(old(self).alloc_rows(), old(self).grows(tid), tid as int, old(self).dl_available@.len());
            lemma_ensured_shape(old(self).need_rows(), old(self).grows(tid), tid as int, old(self).dl_available@.len());
            assert(self.dl_allocation@[tid as int]@ == self.alloc_rows()[tid as int]);
            assert(self.dl_need@[tid as int]@ == self.need_rows()[tid as int]);
        }
        let held = self.dl_allocation[tid][res_idx];
        set_cell(&mut self.dl_allocation, tid, res_idx, held + 1);
        let avail = self.dl_available[res_idx];
        self.dl_available.set(res_idx, avail.saturating_sub(1));
        let needed = self.dl_need[tid][res_idx];
        set_cell(&mut self.dl_need, tid, res_idx, needed - 1);
        let safe = self.is_dl_safe();
        if !safe {
            proof {
                let a = old(self).ensured_alloc(tid);
                let n = old(self).ensured_need(tid);
                assert(self.need_rows().len() == self.dl_need@.len());
                assert(self.alloc_rows().len() == self.dl_allocation@.len());
                assert(self.need_rows().len() == n.len());
                assert(self.alloc_rows().len() == a.len());
                assert(self.dl_need@[tid as int]@ == self.need_rows()[tid as int]);
                assert(self.dl_allocation@[tid as int]@ == self.alloc_rows()[tid as int]);
            }
            let n1 = self.dl_need[tid][res_idx];
            set_cell(&mut self.dl_need, tid, res_idx, n1 + 1);
            let a1 = self.dl_allocation[tid][res_idx];
            set_cell(&mut self.dl_allocation, tid, res_idx, a1 - 1);
            self.dl_available.set(res_idx, avail);
            proof {
                assert(self.dl_available@ =~= old(self).dl_available@);
                let a = old(self).ensured_alloc(tid);
                let n = old(self).ensured_need(tid);
                lemma_ensured_shape(old(self).alloc_rows(), old(self).grows(tid), tid as int, old(self).dl_available@.len());
                lemma_ensured_shape(old(self).need_rows(), old(self).grows(tid), tid as int, old(self).dl_available@.len());
                lemma_cell_restore(a, tid as int, res_idx as int, (held + 1) as usize, held);
                lemma_cell_restore(n, tid as int, res_idx as int, (needed - 1) as usize, needed);
            }
        }
        safe
    }

    /// Thread `tid` gives back one unit of resource `res_idx`: its allocation drops by
    /// one (not below zero) and the available count rises by one.
    pub fn dl_release_resource(&mut self, tid: usize, res_idx: usize)
        requires
            old(self).can_ensure(tid),
            res_idx < old(self).dl_available@.len(),
            old(self).dl_available@[res_idx as int] < usize::MAX,
        ensures
            ({
                let a = old(self).ensured_alloc(tid);
                &&& final(self).alloc_rows() == with_cell(a, tid as int, res_idx as int, dec_sat(a[tid as int][res_idx as int]))
                &&& final(self).need_rows() == old(self).ensured_need(tid)
                &&& final(self).dl_available@ == with_entry(old(self).dl_available@, res_idx as int,
                    (old(self).dl_available@[res_idx as int] + 1) as usize)
            }),
            *final(self) == (ProcessControlBlockInner {
                dl_available: final(self).dl_available,
                dl_allocation: final(self).dl_allocation,
                dl_need: final(self).dl_need,
                ..*old(self)
            }),
    {
        self.ensure_dl_task(tid);
        proof {
            lemma_ensured_shape(old(self).alloc_rows(), old(self).grows(tid), tid as int, old(self).dl_available@.len());
            assert(self.dl_allocation@[tid as int]@ == self.alloc_rows()[tid as int]);
        }
        let held = self.dl_allocation[tid][res_idx];
        if held > 0 {
            set_cell(&mut self.dl_allocation, tid, res_idx, held - 1);
        } else {
            proof {
                let a = old(self).ensured_alloc(tid);
                assert(a[tid as int].update(res_idx as int, 0) =~= a[tid as int]);
                assert(a.update(tid as int, a[tid as int]) =~= a);
                assert(self.alloc_rows() =~= with_cell(a, tid as int, res_idx as int, 0));
            }
        }
        let avail = self.dl_available[res_idx];
        self.dl_available.set(res_idx, avail + 1);
    }
}

/// The program break that `change_program_brk(size)` moves to: the current break
/// plus `size`, both read as signed words; nothing when the sum overflows or falls
/// below the heap bottom.
pub open spec fn brk_target(inner: &ProcessControlBlockInner, size: i32) -> Option<usize> {
    let nb: int = (inner.program_brk as isize) as int + size as int;
    if nb > isize::MAX || nb < isize::MIN {
        None
    } else if nb < (inner.heap_bottom as isize) as int {
        None
    } else {
        Some(nb as usize)
    }
}

/// When the break moves up, the pages the heap area grows into are not mapped yet.
pub open spec fn growth_is_free_for(inner: &ProcessControlBlockInner, size: i32) -> bool {
    size >= 0 ==> (brk_target(inner, size) matches Some(nb) ==> growth_is_free(
        inner.memory_set.areas(),
        floor_of(va_of(inner.heap_bottom)),
        ceil_of(va_of(nb)),
    ))
}

/// Whether moving the break by `size` leaves the pages the heap grows into unmapped,
/// as `change_program_brk` needs.
pub fn brk_growth_is_free(inner: &ProcessControlBlockInner, size: i32) -> (r: bool)
    ensures
        r == growth_is_free_for(inner, size),
{
    if size < 0 {
        return true;
    }
    let new_brk = match (inner.program_brk as isize).checked_add(size as isize) {
        Some(b) => b,
        None => return true,
    };
    if new_brk < inner.heap_bottom as isize {
        return true;
    }
    let nb = new_brk as usize;
    inner.memory_set.can_grow(floor(virt_addr(inner.heap_bottom)), ceil(virt_addr(nb)))
}

/// What moving the program break by `size` returns: the old break when the target
/// is in range and there is a heap area.
pub open spec fn brk_result(i0: &ProcessControlBlockInner, size: i32) -> Option<usize> {
    match brk_target(i0, size) {
        None => None,
        Some(_) => if has_heap_area(i0) { Some(i0.program_brk) } else { None },
    }
}

/// What moving the program break by `size` does: nothing when the target is out of
/// range; else the heap area (if any) is made to end at the target's page, and with a
/// heap area the break moves and the old break is returned.
pub open spec fn brk_effect(
    i0: &ProcessControlBlockInner,
    i1: &ProcessControlBlockInner,
    size: i32,
    r: Option<usize>,
) -> bool {
    match brk_target(i0, size) {
        None => r.is_none() && *i1 == *i0,
        Some(nb) => {
            &&& i1.memory_set.areas() == with_area_end(
                i0.memory_set.areas(),
                floor_of(va_of(i0.heap_bottom)),
                ceil_of(va_of(nb)),
            )
            &&& i1.memory_set.token_spec() == i0.memory_set.token_spec()
            &&& has_heap_area(i0) ==> r == Some(i0.program_brk) && i1.program_brk == nb
            &&& !has_heap_area(i0) ==> r.is_none() && i1.program_brk == i0.program_brk
            &&& *i1 == (ProcessControlBlockInner {
                memory_set: i1.memory_set,
                program_brk: i1.program_brk,
                ..*i0
            })
        },
    }
}

/// Whether the address space has a heap area, starting at the heap bottom's page.
pub open spec fn has_heap_area(inner: &ProcessControlBlockInner) -> bool {
    first_starting(
        inner.memory_set.areas(),
        floor_of(va_of(inner.heap_bottom)),
        inner.memory_set.areas().len(),
    ).is_some()
}

impl ProcessControlBlock {
    /// Exclusive access to the mutable state.
    pub fn inner_exclusive_access(&mut self) -> (r: &mut ProcessControlBlockInner)
        ensures
            *r == old(self).inner,
            final(self).inner == *final(r),
            final(self).pid == old(self).pid,
    {
        &mut self.inner
    }

    /// The process identifier.
    pub fn getpid(&self) -> (r: usize)
        ensures
            r == self.pid,
    {
        self.pid
    }

    /// Move the program break by `size` bytes, shrinking or growing the heap area.
    /// Returns the old break, or nothing when the new break would overflow, fall
    /// below the heap bottom, or the heap area is missing. When the heap grows, the
    /// pages it grows into must not be mapped yet.
    pub fn change_program_brk(&mut self, size: i32) -> (r: Option<usize>)
        requires
            growth_is_free_for(&old(self).inner, size),
        ensures
            final(self).pid == old(self).pid,
            brk_effect(&old(self).inner, &final(self).inner, size, r),
    {
        let inner = &mut self.inner;
        let heap_bottom = inner.heap_bottom;
        let old_break = inner.program_brk;
        let new_brk = match (inner.program_brk as isize).checked_add(size as isize) {
            Some(b) => b,
            None => return None,
        };
        if new_brk < heap_bottom as isize {
            return None;
        }
        let new_brk = new_brk as usize;
        let ok = if size < 0 {
            inner.memory_set.shrink_to(virt_addr(heap_bottom), virt_addr(new_brk))
        } else {
            inner.memory_set.append_to(virt_addr(heap_bottom), virt_addr(new_brk))
        };
        if ok {
            inner.program_brk = new_brk;
            Some(old_break)
        } else {
            None
        }
    }
}

/// Identifier of the standard input file object.
pub const STDIN_FILE: usize = 0;

/// Identifier of the standard output file object.
pub const STDOUT_FILE: usize = 1;

/// The (initially empty) heap area that starts at the heap bottom.
pub open spec fn heap_area(heap_bottom: usize) -> MapArea {
    MapArea {
        start_vpn: floor_of(va_of(heap_bottom)),
        end_vpn: ceil_of(va_of(heap_bottom)),
        perm: MapPermission { bits: (PERM_R | PERM_W) | PERM_U },
    }
}

/// The areas of a new program image: its own, the heap area at the heap bottom, and
/// the user stack and trap context of its main thread.
pub open spec fn image_areas(areas: Seq<MapArea>, heap_bottom: usize, res: TaskUserRes) -> Seq<MapArea> {
    areas.push(heap_area(heap_bottom)).push(ustack_area(res)).push(trap_cx_area(res))
}

/// A program image with its heap bottom can take the heap area and the main
/// thread's user stack and trap context without overlapping mappings.
pub open spec fn image_fits(areas: Seq<MapArea>, heap_bottom: usize, res: TaskUserRes) -> bool {
    &&& user_res_fits(res)
    &&& area_is_free(areas, heap_area(heap_bottom))
    &&& area_is_free(areas.push(heap_area(heap_bottom)), ustack_area(res))
    &&& area_is_free(areas.push(heap_area(heap_bottom)), trap_cx_area(res))
    &&& !areas_overlap(ustack_area(res), trap_cx_area(res))
}

/// Whether a program image with the given heap bottom has room for the heap area and
/// the main thread's user stack and trap context.
pub fn image_fits_check(memory_set: &MemorySet, heap_bottom: usize, res: TaskUserRes) -> (r: bool)
    ensures
        r == image_fits(memory_set.areas(), heap_bottom, res),
{
    if !res.fits() {
        return false;
    }
    let heap = MapArea {
        start_vpn: floor(virt_addr(heap_bottom)),
        end_vpn: ceil(virt_addr(heap_bottom)),
        perm: MapPermission { bits: (PERM_R | PERM_W) | PERM_U },
    };
    let stack = res.ustack_map_area();
    let trap_cx = res.trap_cx_map_area();
    proof {
        assert(heap == heap_area(heap_bottom));
        lemma_free_after_push(memory_set.areas(), heap, stack);
        lemma_free_after_push(memory_set.areas(), heap, trap_cx);
    }
    area_free_in(memory_set, heap) && area_free_in(memory_set, stack) && !overlap(heap, stack)
        && area_free_in(memory_set, trap_cx) && !overlap(heap, trap_cx) && !overlap(stack, trap_cx)
}

/// The heap area, readable, writable and user accessible, inserted at the heap bottom.
fn insert_heap_area(memory_set: &mut MemorySet, heap_bottom: usize)
    requires
        area_is_free(old(memory_set).areas(), heap_area(heap_bottom)),
    ensures
        final(memory_set).areas() == old(memory_set).areas().push(heap_area(heap_bottom)),
        final(memory_set).token_spec() == old(memory_set).token_spec(),
{
    let rwu = MapPermission::from_bits(PERM_R).union(MapPermission::from_bits(PERM_W)).union(
        MapPermission::from_bits(PERM_U),
    );
    memory_set.insert_framed_area(virt_addr(heap_bottom), virt_addr(heap_bottom), rwu);
}

/// A copy of a table of optional identifiers.
fn copy_opts(v: &Vec<Option<usize>>) -> (r: Vec<Option<usize>>)
    ensures
        r@ == v@,
{
    let mut r: Vec<Option<usize>> = Vec::new();
    let mut i: usize = 0;
    while i < v.len()
        invariant
            i <= v@.len(),
            r@ == v@.take(i as int),
        decreases v@.len() - i,
    {
        r.push(v[i]);
        i = i + 1;
        proof {
            assert(v@.take(i as int) =~= v@.take(i - 1).push(v@[i - 1]));
        }
    }
    proof {
        assert(v@.take(v@.len() as int) =~= v@);
    }
    r
}

/// A copy of a matrix.
fn copy_matrix(m: &Vec<Vec<usize>>) -> (r: Vec<Vec<usize>>)
    ensures
        rows(r@) == rows(m@),
{
    let mut r: Vec<Vec<usize>> = Vec::new();
    let mut i: usize = 0;
    while i < m.len()
        invariant
            i <= m@.len(),
            r@.len() == i,
            forall|k: int| 0 <= k < i ==> (#[trigger] r@[k])@ == m@[k]@,
        decreases m@.len() - i,
    {
        r.push(copy_row(&m[i]));
        i = i + 1;
    }
    proof {
        assert(rows(r@) =~= rows(m@));
    }
    r
}

/// What a process made by `ProcessControlBlock::new` looks like: `p` runs the image
/// `memory_set` with its heap and main thread mapped, holds standard input, output
/// and error, has no children, no synchronisation objects, no deadlock state and no
/// mapped regions; `t` is its main thread (thread id 0, ready, default priority,
/// stride 0); `cx` starts that thread at `entry_point` on its user stack.
pub open spec fn started(
    p: ProcessControlBlock,
    t: TaskControlBlock,
    cx: TrapContext,
    memory_set: MemorySet,
    ustack_base: usize,
    entry_point: usize,
    main_task: usize,
    kernel_token: usize,
    kstack_top: usize,
    trap_handler: usize,
    sstatus: usize,
) -> bool {
    let hb = (ustack_base + USER_STACK_SIZE) as usize;
    let res = TaskUserRes { tid: 0, ustack_base };
    &&& !p.inner.is_zombie
    &&& p.inner.memory_set.areas() == image_areas(memory_set.areas(), hb, res)
    &&& p.inner.memory_set.token_spec() == memory_set.token_spec()
    &&& p.inner.children@.len() == 0
    &&& p.inner.exit_code == 0
    &&& p.inner.fd_table@ == seq![Some(STDIN_FILE), Some(STDOUT_FILE), Some(STDOUT_FILE)]
    &&& p.inner.signals == 0
    &&& p.inner.mutex_list@.len() == 0
    &&& p.inner.semaphore_list@.len() == 0
    &&& p.inner.condvar_list@.len() == 0
    &&& p.inner.tasks@ == seq![Some(main_task)]
    &&& p.inner.task_res_allocator.wf()
    &&& p.inner.task_res_allocator.current() == 1
    &&& p.inner.task_res_allocator.recycled().len() == 0
    &&& !p.inner.deadlock_detect
    &&& p.inner.dl_available@.len() == 0
    &&& p.inner.dl_allocation@.len() == 0
    &&& p.inner.dl_need@.len() == 0
    &&& p.inner.dl_mutex_res@.len() == 0
    &&& p.inner.dl_sem_res@.len() == 0
    &&& p.inner.mmap_areas@ == Map::<usize, MmapRegion>::empty()
    &&& p.inner.heap_bottom == hb
    &&& p.inner.program_brk == hb
    &&& t.process == p.pid
    &&& t.id == main_task
    &&& t.inner.res == Some(res)
    &&& t.inner.task_status == TaskStatus::Ready
    &&& t.inner.exit_code.is_none()
    &&& t.inner.priority == crate::task::DEFAULT_PRIORITY
    &&& t.inner.stride == 0
    &&& t.inner.stride_pass == pass_of(crate::task::DEFAULT_PRIORITY)
    &&& cx.x@ == Seq::new(32, |i: int| 0usize).update(2, hb)
    &&& cx.sstatus == user_mode_sstatus(sstatus)
    &&& cx.sepc == entry_point
    &&& cx.kernel_satp == kernel_token
    &&& cx.kernel_sp == kstack_top
    &&& cx.trap_handler == trap_handler
}

/// The process reached from `p` by following `path`, one child index per step.
pub open spec fn reach(p: ProcessControlBlock, path: Seq<usize>) -> Option<ProcessControlBlock>
    decreases path.len(),
{
    if path.len() == 0 {
        Some(p)
    } else if path[0] < p.inner.children@.len() {
        reach(p.inner.children@[path[0] as int], path.drop_first())
    } else {
        None
    }
}

/// Following `path` from `p` leads to a process with pid `pid`.
pub open spec fn reaches_pid(p: ProcessControlBlock, path: Seq<usize>, pid: usize) -> bool {
    reach(p, path) matches Some(q) && q.pid == pid
}

/// Find the process with pid `pid` among `p` and its descendants: the child indices
/// that lead to the first one found, `p` itself before its children and each child
/// before the next, or nothing when none has that pid.
pub fn find_process(p: &ProcessControlBlock, pid: usize) -> (r: Option<Vec<usize>>)
    ensures
        r matches Some(path) ==> reaches_pid(*p, path@, pid),
        r is None ==> forall|path: Seq<usize>| !#[trigger] reaches_pid(*p, path, pid),
    decreases p,
{
    if p.pid == pid {
        let path: Vec<usize> = Vec::new();
        return Some(path);
    }
    let mut i: usize = 0;
    while i < p.inner.children.len()
        invariant
            i <= p.inner.children@.len(),
            p.pid != pid,
            forall|k: int, path: Seq<usize>|
                0 <= k < i ==> !#[trigger] reaches_pid(p.inner.children@[k], path, pid),
        decreases p.inner.children@.len() - i,
    {
        proof {
            assert(decreases_to!(*p => p.inner));
            assert(decreases_to!(p.inner => p.inner.children));
            assert(decreases_to!(p.inner.children => p.inner.children@));
            assert(decreases_to!(p.inner.children@ => p.inner.children@[i as int]));
        }
        match find_process(&p.inner.children[i], pid) {
            Some(sub) => {
                let ghost tail = sub@;
                let mut path = sub;
                path.insert(0, i);
                proof {
                    assert(path@.drop_first() =~= tail);
                    assert(path@[0] == i);
                    assert(reach(*p, path@) == reach(p.inner.children@[i as int], tail));
                }
                return Some(path);
            },
            None => {},
        }
        i = i + 1;
    }
    proof {
        assert forall|path: Seq<usize>| !#[trigger] reaches_pid(*p, path, pid) by {
            if path.len() > 0 && path[0] < p.inner.children@.len() {
                assert(reach(p.inner.children@[path[0] as int], path.drop_first()) == reach(*p, path));
                assert(!reaches_pid(p.inner.children@[path[0] as int], path.drop_first(), pid));
            }
        }
    }
    None
}

/// A pid can be taken from the allocator.
pub open spec fn can_alloc_pid(pids: &RecycleAllocator) -> bool {
    pids.wf() && (pids.recycled().len() > 0 || pids.current() < usize::MAX)
}

/// `pid` was taken from the allocator: it was free before, is in use now, and no other
/// identifier changed.
pub open spec fn took_pid(p0: &RecycleAllocator, p1: &RecycleAllocator, pid: usize) -> bool {
    &&& p1.wf()
    &&& !p0.in_use(pid)
    &&& p1.in_use(pid)
    &&& forall|x: usize| x != pid ==> (p1.in_use(x) <==> p0.in_use(x))
}

impl ProcessControlBlock {
    /// A new process running the program image `memory_set`, whose user stacks lie
    /// above `ustack_base`, under a pid taken from `pids`. The heap starts right above
    /// the first user stack area; descriptors 0, 1 and 2 are standard input, output
    /// and error. Its main thread (thread id 0) is queued in `manager`; the process,
    /// that thread and the trap context the thread starts from (at `entry_point` with
    /// its user stack) are returned.
    pub fn new(
        pids: &mut RecycleAllocator,
        manager: &mut TaskManager,
        memory_set: MemorySet,
        ustack_base: usize,
        entry_point: usize,
        main_task: usize,
        kernel_token: usize,
        kstack_top: usize,
        trap_handler: usize,
        sstatus: usize,
    ) -> (r: (ProcessControlBlock, TaskControlBlock, TrapContext))
        requires
            can_alloc_pid(old(pids)),
            ustack_base + USER_STACK_SIZE <= usize::MAX,
            image_fits(
                memory_set.areas(),
                (ustack_base + USER_STACK_SIZE) as usize,
                TaskUserRes { tid: 0, ustack_base },
            ),
        ensures
            took_pid(old(pids), final(pids), r.0.pid),
            r.0.inner.parent.is_none(),
            started(r.0, r.1, r.2, memory_set, ustack_base, entry_point, main_task, kernel_token,
                kstack_top, trap_handler, sstatus),
            final(manager).queue() == old(manager).queue().push(entry_of(r.1)),
            final(manager).stopped() == old(manager).stopped(),
            r.0.inner.memory_set.areas()[memory_set.areas().len() as int] == (MapArea {
                start_vpn: floor_of(va_of((ustack_base + USER_STACK_SIZE) as usize)),
                end_vpn: ceil_of(va_of((ustack_base + USER_STACK_SIZE) as usize)),
                perm: MapPermission { bits: 22 },
            }),
    {
        proof {
            lemma_heap_area_is_user_rw((ustack_base + USER_STACK_SIZE) as usize);
        }
        let pid = pids.allocate();
        let mut memory_set = memory_set;
        let heap_bottom = ustack_base + USER_STACK_SIZE;
        insert_heap_area(&mut memory_set, heap_bottom);
        let mut allocator = RecycleAllocator::new();
        let tid = allocator.allocate();
        let res = TaskUserRes { tid, ustack_base };
        res.alloc_user_res(&mut memory_set);
        let task = TaskControlBlock::new(pid, main_task, res);
        let trap_cx = TrapContext::app_init_context(
            entry_point,
            res.ustack_top(),
            kernel_token,
            kstack_top,
            trap_handler,
            sstatus,
        );
        let mut fd_table: Vec<Option<usize>> = Vec::new();
        fd_table.push(Some(STDIN_FILE));
        fd_table.push(Some(STDOUT_FILE));
        fd_table.push(Some(STDOUT_FILE));
        let mut tasks: Vec<Option<usize>> = Vec::new();
        tasks.push(Some(main_task));
        let process = ProcessControlBlock {
            pid,
            inner: ProcessControlBlockInner {
                is_zombie: false,
                memory_set,
                parent: None,
                children: Vec::new(),
                exit_code: 0,
                fd_table,
                signals: 0,
                tasks,
                task_res_allocator: allocator,
                mutex_list: Vec::new(),
                semaphore_list: Vec::new(),
                condvar_list: Vec::new(),
                deadlock_detect: false,
                dl_available: Vec::new(),
                dl_allocation: Vec::new(),
                dl_need: Vec::new(),
                dl_mutex_res: Vec::new(),
                dl_sem_res: Vec::new(),
                mmap_areas: BTreeMap::new(),
                heap_bottom,
                program_brk: heap_bottom,
            },
        };
        proof {
            assert(process.inner.fd_table@ =~= seq![Some(STDIN_FILE), Some(STDOUT_FILE), Some(STDOUT_FILE)]);
            assert(process.inner.tasks@ =~= seq![Some(main_task)]);
        }
        manager.add(task);
        (process, task, trap_cx)
    }
}

/// `fork` can run: the process has a single thread, whose task is `parent_main`, and
/// that task has thread resources.
pub open spec fn can_fork(p: &ProcessControlBlock, parent_main: &TaskControlBlock) -> bool {
    &&& p.inner.tasks@.len() == 1
    &&& p.inner.tasks@[0] == Some(parent_main.id)
    &&& parent_main.inner.res.is_some()
}

/// What `fork` does: the parent gains one child that copies it, and the child's
/// main thread `r` copies the parent's main thread's stack base, priority and
/// stride.
pub open spec fn fork_effect(
    p0: &ProcessControlBlock,
    p1: &ProcessControlBlock,
    child_pid: usize,
    child_token: usize,
    parent_main: &TaskControlBlock,
    child_task: usize,
    r: &TaskControlBlock,
) -> bool {
    let c = p1.inner.children@.last();
    let o = p0.inner;
    &&& p1.pid == p0.pid
    &&& p1.inner == (ProcessControlBlockInner { children: p1.inner.children, ..p0.inner })
    &&& p1.inner.children@.len() == p0.inner.children@.len() + 1
    &&& p1.inner.children@.drop_last() == p0.inner.children@
    &&& c.pid == child_pid
    &&& !c.inner.is_zombie
    &&& c.inner.memory_set.areas() == o.memory_set.areas()
    &&& c.inner.memory_set.token_spec() == child_token
    &&& c.inner.parent == Some(p0.pid)
    &&& c.inner.children@.len() == 0
    &&& c.inner.exit_code == 0
    &&& c.inner.fd_table@ == o.fd_table@
    &&& c.inner.signals == 0
    &&& c.inner.mutex_list@.len() == 0
    &&& c.inner.semaphore_list@.len() == 0
    &&& c.inner.condvar_list@.len() == 0
    &&& c.inner.tasks@ == seq![Some(child_task)]
    &&& c.inner.task_res_allocator.wf()
    &&& c.inner.task_res_allocator.current() == 1
    &&& c.inner.task_res_allocator.recycled().len() == 0
    &&& c.inner.deadlock_detect == o.deadlock_detect
    &&& c.inner.dl_available@ == o.dl_available@
    &&& c.inner.alloc_rows() == o.alloc_rows()
    &&& c.inner.need_rows() == o.need_rows()
    &&& c.inner.dl_mutex_res@ == o.dl_mutex_res@
    &&& c.inner.dl_sem_res@ == o.dl_sem_res@
    &&& c.inner.mmap_areas@ == o.mmap_areas@
    &&& c.inner.heap_bottom == o.heap_bottom
    &&& c.inner.program_brk == o.program_brk
    &&& r.process == child_pid
    &&& r.id == child_task
    &&& r.inner.res == Some(TaskUserRes { tid: 0, ustack_base: parent_main.inner.res.unwrap().ustack_base })
    &&& r.inner.task_status == TaskStatus::Ready
    &&& r.inner.exit_code.is_none()
    &&& r.inner.priority == parent_main.inner.priority
    &&& r.inner.stride_pass == pass_of(parent_main.inner.priority)
    &&& r.inner.stride == parent_main.inner.stride
}

impl ProcessControlBlock {
    /// Create a child process that copies this process, under a pid taken from
    /// `pids`: its address space under the new page table `child_token`, open files,
    /// deadlock state, mapped regions and heap, with this process as parent. Its main thread (thread id 0) takes over
    /// the user stack base, priority and stride of `parent_main`, the parent's main
    /// thread. The child is appended to the children; the thread is returned for the
    /// caller to queue, with its trap context: the parent's (`parent_trap_cx`, which
    /// the copied address space holds) on the child's kernel stack `kstack_top`.
    /// Only single-threaded processes fork.
    pub fn fork(
        &mut self,
        pids: &mut RecycleAllocator,
        child_token: usize,
        parent_main: &TaskControlBlock,
        child_task: usize,
        parent_trap_cx: &TrapContext,
        kstack_top: usize,
    ) -> (r: (TaskControlBlock, TrapContext))
        requires
            can_fork(old(self), parent_main),
            can_alloc_pid(old(pids)),
        ensures
            took_pid(old(pids), final(pids), r.0.process),
            old(pids).in_use(old(self).pid) ==> r.0.process != old(self).pid,
            fork_effect(old(self), final(self), r.0.process, child_token, parent_main, child_task, &r.0),
            r.1 == (TrapContext { kernel_sp: kstack_top, ..*parent_trap_cx }),
    {
        let child_pid = pids.allocate();
        let parent_priority = parent_main.inner.priority;
        let parent_stride = parent_main.inner.stride;
        let heap_bottom = self.inner.heap_bottom;
        let program_brk = self.inner.program_brk;
        let memory_set = MemorySet::from_existed_user(&self.inner.memory_set, child_token);
        let new_fd_table = copy_opts(&self.inner.fd_table);
        let mut allocator = RecycleAllocator::new();
        let tid = allocator.allocate();
        let ustack_base = match &parent_main.inner.res {
            Some(res) => res.ustack_base(),
            None => 0,
        };
        let mut tasks: Vec<Option<usize>> = Vec::new();
        tasks.push(Some(child_task));
        let child = ProcessControlBlock {
            pid: child_pid,
            inner: ProcessControlBlockInner {
                is_zombie: false,
                memory_set,
                parent: Some(self.pid),
                children: Vec::new(),
                exit_code: 0,
                fd_table: new_fd_table,
                signals: 0,
                tasks,
                task_res_allocator: allocator,
                mutex_list: Vec::new(),
                semaphore_list: Vec::new(),
                condvar_list: Vec::new(),
                deadlock_detect: self.inner.deadlock_detect,
                dl_available: copy_row(&self.inner.dl_available),
                dl_allocation: copy_matrix(&self.inner.dl_allocation),
                dl_need: copy_matrix(&self.inner.dl_need),
                dl_mutex_res: copy_opts(&self.inner.dl_mutex_res),
                dl_sem_res: copy_opts(&self.inner.dl_sem_res),
                mmap_areas: self.inner.mmap_areas.clone(),
                heap_bottom,
                program_brk,
            },
        };
        self.inner.children.push(child);
        let mut task = TaskControlBlock::new(child_pid, child_task, TaskUserRes { tid, ustack_base });
        task.inner.set_priority(parent_priority);
        task.inner.stride = parent_stride;
        let mut trap_cx = *parent_trap_cx;
        trap_cx.kernel_sp = kstack_top;
        proof {
            assert(self.inner.children@.drop_last() =~= old(self).inner.children@);
            assert(self.inner.children@.last().inner.tasks@ =~= seq![Some(child_task)]);
        }
        (task, trap_cx)
    }
}

/// Size of a machine word in bytes.
pub open spec fn word() -> int {
    vstd::layout::size_of::<usize>() as int
}

/// Bytes that the first `n` argument strings take on the user stack, each with its
/// terminating zero.
pub open spec fn strings_size(args: Seq<Vec<u8>>, n: nat) -> int
    decreases n,
{
    if n == 0 {
        0
    } else {
        strings_size(args, (n - 1) as nat) + args[n - 1]@.len() + 1
    }
}

/// Where the argument pointer array starts: below the stack top, one word per
/// argument and one for the terminating null pointer.
pub open spec fn argv_base_of(top: usize, args: Seq<Vec<u8>>) -> int {
    top - (args.len() + 1) * word()
}

/// Where argument string `i` is placed: the strings are pushed below the pointer
/// array one after the other.
pub open spec fn arg_addr_of(top: usize, args: Seq<Vec<u8>>, i: int) -> int {
    argv_base_of(top, args) - strings_size(args, (i + 1) as nat)
}

/// The stack pointer after the arguments are pushed, rounded down to a word.
pub open spec fn user_sp_of(top: usize, args: Seq<Vec<u8>>) -> int {
    let s = argv_base_of(top, args) - strings_size(args, args.len());
    s - s % word()
}

/// The arguments fit below the stack top.
pub open spec fn args_fit(top: usize, args: Seq<Vec<u8>>) -> bool {
    (args.len() + 1) * word() + strings_size(args, args.len()) <= top
}

/// The argument strings as they lie on the user stack, lowest address first: the
/// last `k` arguments, the last one lowest, each followed by a zero byte.
pub open spec fn strings_image(args: Seq<Vec<u8>>, k: nat) -> Seq<u8>
    decreases k,
{
    if k == 0 {
        Seq::empty()
    } else {
        strings_image(args, (k - 1) as nat) + args[args.len() - k]@.push(0u8)
    }
}

/// The first `k` words of `ws` as bytes, each least significant byte first.
pub open spec fn words_image(ws: Seq<usize>, k: nat) -> Seq<u8>
    decreases k,
{
    if k == 0 {
        Seq::empty()
    } else {
        words_image(ws, (k - 1) as nat) + le_bytes(ws[k - 1], word() as nat)
    }
}

/// What a new program image needs written to its user stack and trap context: the
/// argument pointer array at `argv_base` holds `argv` and then a null pointer, each
/// `argv[i]` points at argument string `i` followed by a zero byte, and `trap_cx`
/// starts the main thread with the argument count and `argv_base` in a0 and a1.
/// `stack_bytes` are the bytes to write to the user stack from address
/// `stack_base` up to the stack top: the strings, then the pointer array.
pub struct ExecImage {
    pub user_sp: usize,
    pub argv_base: usize,
    pub argv: Vec<usize>,
    pub trap_cx: TrapContext,
    pub stack_base: usize,
    pub stack_bytes: Vec<u8>,
}

/// `exec` can run: the process has a single thread, `t`, which has thread
/// resources, and the new image has room for the heap area, the thread's stack and
/// trap context, and the arguments.
pub open spec fn can_exec(
    p: &ProcessControlBlock,
    t: &TaskControlBlock,
    memory_set: &MemorySet,
    ustack_base: usize,
    args: Seq<Vec<u8>>,
) -> bool {
    &&& p.inner.tasks@.len() == 1
    &&& p.inner.tasks@[0] == Some(t.id)
    &&& t.inner.res.is_some()
    &&& ustack_base + USER_STACK_SIZE <= usize::MAX
    &&& image_fits(
        memory_set.areas(),
        (ustack_base + USER_STACK_SIZE) as usize,
        TaskUserRes { tid: t.inner.res.unwrap().tid, ustack_base },
    )
    &&& args_fit((crate::id::ustack_bottom(ustack_base, t.inner.res.unwrap().tid) + USER_STACK_SIZE) as usize, args)
}

/// What `exec` does to the process, its main thread, and what it returns.
pub open spec fn exec_effect(
    p0: &ProcessControlBlock,
    p1: &ProcessControlBlock,
    t0: &TaskControlBlock,
    t1: &TaskControlBlock,
    memory_set: &MemorySet,
    ustack_base: usize,
    entry_point: usize,
    args: Seq<Vec<u8>>,
    kernel_token: usize,
    kstack_top: usize,
    trap_handler: usize,
    sstatus: usize,
    image: &ExecImage,
) -> bool {
    let res = TaskUserRes { tid: t0.inner.res.unwrap().tid, ustack_base };
    let hb = (ustack_base + USER_STACK_SIZE) as usize;
    let top = (crate::id::ustack_bottom(ustack_base, res.tid) + USER_STACK_SIZE) as usize;
    let n = args.len();
    &&& p1.pid == p0.pid
    &&& p1.inner.memory_set.areas() == image_areas(memory_set.areas(), hb, res)
    &&& p1.inner.memory_set.token_spec() == memory_set.token_spec()
    &&& p1.inner.mmap_areas@ == Map::<usize, MmapRegion>::empty()
    &&& p1.inner.heap_bottom == hb
    &&& p1.inner.program_brk == hb
    &&& p1.inner == (ProcessControlBlockInner {
        memory_set: p1.inner.memory_set,
        mmap_areas: p1.inner.mmap_areas,
        heap_bottom: hb,
        program_brk: hb,
        ..p0.inner
    })
    &&& *t1 == (TaskControlBlock { inner: TaskControlBlockInner { res: Some(res), ..t0.inner }, ..*t0 })
    &&& image.argv_base == argv_base_of(top, args)
    &&& image.argv@.len() == n
    &&& forall|i: int| 0 <= i < n ==> image.argv@[i] == arg_addr_of(top, args, i)
    &&& image.user_sp == user_sp_of(top, args)
    &&& image.stack_base == argv_base_of(top, args) - strings_size(args, n)
    &&& image.stack_bytes@ == strings_image(args, n) + words_image(image.argv@.push(0usize), n + 1)
    &&& image.trap_cx.x@ == Seq::new(32, |i: int| 0usize).update(2, image.user_sp).update(10, n as usize).update(
        11,
        image.argv_base,
    )
    &&& image.trap_cx.sstatus == user_mode_sstatus(sstatus)
    &&& image.trap_cx.sepc == entry_point
    &&& image.trap_cx.kernel_satp == kernel_token
    &&& image.trap_cx.kernel_sp == kstack_top
    &&& image.trap_cx.trap_handler == trap_handler
}

impl TaskControlBlock {
    /// The token of the address space of the task's process.
    pub fn get_user_token(&self, process: &ProcessControlBlock) -> (r: usize)
        requires
            process.pid == self.process,
        ensures
            r == process.inner.memory_set.token_spec(),
    {
        process.inner.get_user_token()
    }
}

proof fn lemma_strings_size_mono(args: Seq<Vec<u8>>, i: nat, n: nat)
    requires
        i <= n,
    ensures
        strings_size(args, i) <= strings_size(args, n),
        strings_size(args, i) >= 0,
    decreases n,
{
    if n > i {
        lemma_strings_size_mono(args, i, (n - 1) as nat);
    }
    if i > 0 {
        lemma_strings_size_mono(args, (i - 1) as nat, (i - 1) as nat);
    }
}

/// Whether the argument strings and their pointer array fit below the stack top.
pub fn args_fit_check(top: usize, args: &Vec<Vec<u8>>) -> (r: bool)
    ensures
        r == args_fit(top, args@),
{
    broadcast use vstd::layout::layout_of_primitives;
    let w = core::mem::size_of::<usize>();
    proof {
        lemma_strings_size_mono(args@, 0, args@.len());
    }
    let n = match args.len().checked_add(1) {
        Some(x) => x,
        None => {
            proof {
                assert((args@.len() + 1) * word() >= args@.len() + 1) by (nonlinear_arith)
                    requires word() >= 1;
            }
            return false;
        },
    };
    let mut total = match n.checked_mul(w) {
        Some(x) => x,
        None => return false,
    };
    let mut i: usize = 0;
    while i < args.len()
        invariant
            i <= args@.len(),
            w == word(),
            total == (args@.len() + 1) * word() + strings_size(args@, i as nat),
        decreases args@.len() - i,
    {
        let next = match total.checked_add(args[i].len()) {
            Some(x) => x,
            None => {
                proof {
                    lemma_strings_size_mono(args@, (i + 1) as nat, args@.len());
                }
                return false;
            },
        };
        total = match next.checked_add(1) {
            Some(x) => x,
            None => {
                proof {
                    lemma_strings_size_mono(args@, (i + 1) as nat, args@.len());
                }
                return false;
            },
        };
        i = i + 1;
    }
    total <= top
}

/// Whether `exec` can run with this image and these arguments (see `can_exec`).
pub fn can_exec_check(
    p: &ProcessControlBlock,
    t: &TaskControlBlock,
    memory_set: &MemorySet,
    ustack_base: usize,
    args: &Vec<Vec<u8>>,
) -> (r: bool)
    ensures
        r == can_exec(p, t, memory_set, ustack_base, args@),
{
    if p.inner.tasks.len() != 1 {
        return false;
    }
    match p.inner.tasks[0] {
        Some(id) => {
            if id != t.id {
                return false;
            }
        },
        None => return false,
    }
    let tid = match &t.inner.res {
        Some(res) => res.tid,
        None => return false,
    };
    let heap_bottom = match ustack_base.checked_add(USER_STACK_SIZE) {
        Some(x) => x,
        None => return false,
    };
    let res = TaskUserRes { tid, ustack_base };
    if !image_fits_check(memory_set, heap_bottom, res) {
        return false;
    }
    args_fit_check(res.ustack_top(), args)
}

proof fn lemma_le_bytes_len(v: usize, m: nat)
    ensures
        le_bytes(v, m).len() == m,
    decreases m,
{
    if m > 0 {
        lemma_le_bytes_len((v / 256) as usize, (m - 1) as nat);
    }
}

/// The strings image of the last `k` arguments is as long as their strings, and
/// argument `i` among them lies at its place followed by a zero byte.
proof fn lemma_strings_image(args: Seq<Vec<u8>>, k: nat)
    requires
        k <= args.len(),
    ensures
        ({
            let n = args.len();
            let img = strings_image(args, k);
            &&& img.len() == strings_size(args, n) - strings_size(args, (n - k) as nat)
            &&& forall|i: int| n - k <= i < n ==> #[trigger] img.subrange(
                strings_size(args, n) - strings_size(args, (i + 1) as nat),
                strings_size(args, n) - strings_size(args, i as nat),
            ) == args[i]@.push(0u8)
        }),
    decreases k,
{
    let n = args.len();
    if k > 0 {
        lemma_strings_image(args, (k - 1) as nat);
        let prev = strings_image(args, (k - 1) as nat);
        let piece = args[n - k]@.push(0u8);
        let img = strings_image(args, k);
        assert(img == prev + piece);
        assert forall|i: int| n - k <= i < n implies #[trigger] img.subrange(
            strings_size(args, n) - strings_size(args, (i + 1) as nat),
            strings_size(args, n) - strings_size(args, i as nat),
        ) == args[i]@.push(0u8) by {
            let lo = strings_size(args, n) - strings_size(args, (i + 1) as nat);
            let hi = strings_size(args, n) - strings_size(args, i as nat);
            if i == n - k {
                assert(img.subrange(lo, hi) =~= piece);
            } else {
                lemma_strings_size_mono(args, (n - k + 1) as nat, i as nat);
                lemma_strings_size_mono(args, (i + 1) as nat, n as nat);
                lemma_strings_size_mono(args, i as nat, (i + 1) as nat);
                assert(img.subrange(lo, hi) =~= prev.subrange(lo, hi));
            }
        }
    }
}

/// The words image of the first `k` words holds word `i` at bytes `i * word()` up to
/// `(i + 1) * word()`.
proof fn lemma_words_image(ws: Seq<usize>, k: nat)
    requires
        k <= ws.len(),
    ensures
        words_image(ws, k).len() == k * word(),
        forall|i: int| 0 <= i < k ==> #[trigger] words_image(ws, k).subrange(i * word(), (i + 1) * word())
            == le_bytes(ws[i], word() as nat),
    decreases k,
{
    broadcast use vstd::layout::layout_of_primitives;
    if k > 0 {
        lemma_words_image(ws, (k - 1) as nat);
        let w = word();
        let prev = words_image(ws, (k - 1) as nat);
        let img = words_image(ws, k);
        lemma_le_bytes_len(ws[k - 1], w as nat);
        assert((k - 1) * w + w == k * w) by (nonlinear_arith);
        assert forall|i: int| 0 <= i < k implies #[trigger] img.subrange(i * w, (i + 1) * w)
            == le_bytes(ws[i], w as nat) by {
            assert((i + 1) * w == i * w + w) by (nonlinear_arith);
            if i == k - 1 {
                assert(img.subrange(i * w, (i + 1) * w) =~= le_bytes(ws[i], w as nat));
            } else {
                assert((i + 1) * w <= (k - 1) * w) by (nonlinear_arith)
                    requires i + 1 <= k - 1, w >= 0;
                assert(0 <= i * w) by (nonlinear_arith)
                    requires i >= 0, w >= 0;
                assert(img.subrange(i * w, (i + 1) * w) =~= prev.subrange(i * w, (i + 1) * w));
            }
        }
    }
}

/// Where the bytes of a new program's argument area go: laid out from `stack_base`,
/// they reach the stack top; at each address `argv[i]` lie the bytes of argument `i`
/// and a zero byte; and the word at `argv_base` plus `i` words holds `argv[i]`, the
/// one after the last argument a null pointer.
pub proof fn lemma_exec_stack_layout(top: usize, args: Seq<Vec<u8>>, argv: Seq<usize>)
    requires
        argv.len() == args.len(),
        forall|i: int| 0 <= i < args.len() ==> #[trigger] argv[i] == arg_addr_of(top, args, i),
    ensures
        ({
            let n = args.len();
            let base = argv_base_of(top, args) - strings_size(args, n);
            let img = strings_image(args, n) + words_image(argv.push(0usize), n + 1);
            &&& base + img.len() == top
            &&& forall|i: int| 0 <= i < n ==> #[trigger] img.subrange(
                argv[i] - base,
                argv[i] - base + args[i]@.len() + 1,
            ) == args[i]@.push(0u8)
            &&& forall|i: int| 0 <= i <= n ==> #[trigger] img.subrange(
                argv_base_of(top, args) + i * word() - base,
                argv_base_of(top, args) + (i + 1) * word() - base,
            ) == le_bytes(argv.push(0usize)[i], word() as nat)
        }),
{
    let n = args.len();
    let ws = argv.push(0usize);
    let strings = strings_image(args, n);
    let words = words_image(ws, n + 1);
    let img = strings + words;
    let base = argv_base_of(top, args) - strings_size(args, n);
    lemma_strings_image(args, n);
    lemma_words_image(ws, n + 1);
    assert(strings_size(args, 0) == 0);
    assert(strings.len() == strings_size(args, n));
    assert(base + img.len() == top) by (nonlinear_arith)
        requires
            base == top - (n + 1) * word() - strings_size(args, n),
            img.len() == strings.len() + words.len(),
            strings.len() == strings_size(args, n),
            words.len() == (n + 1) * word();
    assert forall|i: int| 0 <= i < n implies #[trigger] img.subrange(
        argv[i] - base,
        argv[i] - base + args[i]@.len() + 1,
    ) == args[i]@.push(0u8) by {
        lemma_strings_size_mono(args, (i + 1) as nat, n);
        lemma_strings_size_mono(args, i as nat, (i + 1) as nat);
        let lo = strings_size(args, n) - strings_size(args, (i + 1) as nat);
        let hi = strings_size(args, n) - strings_size(args, i as nat);
        assert(argv[i] - base == lo);
        assert(strings.subrange(lo, hi) == args[i]@.push(0u8));
        assert(img.subrange(lo, hi) =~= strings.subrange(lo, hi));
    }
    assert forall|i: int| 0 <= i <= n implies #[trigger] img.subrange(
        argv_base_of(top, args) + i * word() - base,
        argv_base_of(top, args) + (i + 1) * word() - base,
    ) == le_bytes(ws[i], word() as nat) by {
        let s = strings_size(args, n);
        assert(argv_base_of(top, args) + i * word() - base == s + i * word());
        assert(words.subrange(i * word(), (i + 1) * word()) == le_bytes(ws[i], word() as nat));
        assert(0 <= i * word()) by (nonlinear_arith)
            requires i >= 0, word() >= 0;
        assert((i + 1) * word() <= (n + 1) * word()) by (nonlinear_arith)
            requires i + 1 <= n + 1, word() >= 0;
        assert((i + 1) * word() == i * word() + word()) by (nonlinear_arith);
        assert(img.subrange(s + i * word(), s + (i + 1) * word()) =~= words.subrange(i * word(), (i + 1) * word()));
    }
}

/// The bytes of the argument area of a new user stack: the argument strings, the
/// last one first, each with its zero byte, then the pointers `argv` and a null
/// pointer, one word each.
fn stack_image(args: &Vec<Vec<u8>>, argv: &Vec<usize>) -> (r: Vec<u8>)
    requires
        argv@.len() == args@.len(),
    ensures
        r@ == strings_image(args@, args@.len()) + words_image(argv@.push(0usize), args@.len() + 1),
{
    let n = args.len();
    let mut out: Vec<u8> = Vec::new();
    let mut k: usize = 0;
    while k < n
        invariant
            n == args@.len(),
            k <= n,
            out@ == strings_image(args@, k as nat),
        decreases n - k,
    {
        let a = &args[n - 1 - k];
        let ghost start = out@;
        let mut j: usize = 0;
        while j < a.len()
            invariant
                j <= a@.len(),
                out@ == start + a@.take(j as int),
            decreases a@.len() - j,
        {
            out.push(a[j]);
            j = j + 1;
            proof {
                assert(a@.take(j as int) =~= a@.take(j - 1).push(a@[j - 1]));
            }
        }
        out.push(0u8);
        proof {
            assert(a@.take(a@.len() as int) =~= a@);
            assert(args@[args@.len() - (k + 1)] == *a);
            assert(out@ =~= start + a@.push(0u8));
        }
        k = k + 1;
    }
    let ghost ws = argv@.push(0usize);
    let ghost strings = out@;
    let mut i: usize = 0;
    while i < n
        invariant
            n == args@.len(),
            argv@.len() == n,
            i <= n,
            ws == argv@.push(0usize),
            out@ == strings + words_image(ws, i as nat),
        decreases n - i,
    {
        word_bytes(argv[i], &mut out);
        proof {
            assert(ws[i as int] == argv@[i as int]);
            assert(out@ =~= strings + words_image(ws, (i + 1) as nat));
        }
        i = i + 1;
    }
    word_bytes(0, &mut out);
    proof {
        assert(ws[n as int] == 0usize);
        assert(out@ =~= strings + words_image(ws, (n + 1) as nat));
    }
    out
}

impl ProcessControlBlock {
    /// Replace the program of a single-threaded process: the address space becomes
    /// `memory_set` with an empty heap area right above the first user stack area,
    /// mapped regions are forgotten, and the main thread `task` gets its user stack
    /// and trap context mapped anew above `ustack_base`. The arguments are laid out
    /// on that user stack, and the main thread starts at `entry_point` with them.
    pub fn exec(
        &mut self,
        task: &mut TaskControlBlock,
        memory_set: MemorySet,
        ustack_base: usize,
        entry_point: usize,
        args: &Vec<Vec<u8>>,
        kernel_token: usize,
        kstack_top: usize,
        trap_handler: usize,
        sstatus: usize,
    ) -> (image: ExecImage)
        requires
            can_exec(old(self), old(task), &memory_set, ustack_base, args@),
        ensures
            exec_effect(
                old(self),
                final(self),
                old(task),
                final(task),
                &memory_set,
                ustack_base,
                entry_point,
                args@,
                kernel_token,
                kstack_top,
                trap_handler,
                sstatus,
                &image,
            ),
            final(self).inner.memory_set.areas()[memory_set.areas().len() as int] == (MapArea {
                start_vpn: floor_of(va_of((ustack_base + USER_STACK_SIZE) as usize)),
                end_vpn: ceil_of(va_of((ustack_base + USER_STACK_SIZE) as usize)),
                perm: MapPermission { bits: 22 },
            }),
    {
        proof {
            lemma_heap_area_is_user_rw((ustack_base + USER_STACK_SIZE) as usize);
        }
        let mut memory_set = memory_set;
        let heap_bottom = ustack_base + USER_STACK_SIZE;
        insert_heap_area(&mut memory_set, heap_bottom);
        self.inner.memory_set = memory_set;
        self.inner.mmap_areas.clear();
        self.inner.heap_bottom = heap_bottom;
        self.inner.program_brk = heap_bottom;
        let tid = match &task.inner.res {
            Some(r) => r.tid,
            None => 0,
        };
        let res = TaskUserRes { tid, ustack_base };
        task.inner.res = Some(res);
        res.alloc_user_res(&mut self.inner.memory_set);
        let ustack_top = res.ustack_top();
        let wsize = core::mem::size_of::<usize>();
        proof {
            broadcast use vstd::layout::layout_of_primitives;
            assert(wsize == 4 || wsize == 8);
            lemma_strings_size_mono(args@, 0, args@.len());
            let n1 = args@.len() + 1;
            assert(n1 <= n1 * wsize) by (nonlinear_arith)
                requires wsize >= 4, n1 >= 1;
        }
        let mut user_sp = ustack_top - (args.len() + 1) * wsize;
        let argv_base = user_sp;
        let mut argv: Vec<usize> = Vec::new();
        let mut i: usize = 0;
        while i < args.len()
            invariant
                i <= args@.len(),
                wsize == word(),
                wsize == 4 || wsize == 8,
                argv_base == argv_base_of(ustack_top, args@),
                args_fit(ustack_top, args@),
                user_sp == argv_base - strings_size(args@, i as nat),
                argv@.len() == i,
                forall|k: int| 0 <= k < i ==> argv@[k] == arg_addr_of(ustack_top, args@, k),
            decreases args@.len() - i,
        {
            proof {
                lemma_strings_size_mono(args@, (i + 1) as nat, args@.len());
            }
            user_sp = user_sp - (args[i].len() + 1);
            argv.push(user_sp);
            i = i + 1;
        }
        let stack_base = user_sp;
        let stack_bytes = stack_image(args, &argv);
        user_sp = user_sp - user_sp % wsize;
        let mut trap_cx = TrapContext::app_init_context(
            entry_point,
            user_sp,
            kernel_token,
            kstack_top,
            trap_handler,
            sstatus,
        );
        trap_cx.x[10] = args.len();
        trap_cx.x[11] = argv_base;
        ExecImage { user_sp, argv_base, argv, trap_cx, stack_base, stack_bytes }
    }
}

/// Areas with the same start pages answer the same to `first_starting`.
proof fn lemma_first_starting_same_starts(a: Seq<MapArea>, b: Seq<MapArea>, vpn: usize, n: nat)
    requires
        n <= a.len(),
        a.len() == b.len(),
        forall|k: int| 0 <= k < a.len() ==> (#[trigger] a[k]).start_vpn == b[k].start_vpn,
    ensures
        first_starting(a, vpn, n) == first_starting(b, vpn, n),
    decreases n,
{
    if n > 0 {
        lemma_first_starting_same_starts(a, b, vpn, (n - 1) as nat);
    }
}

/// The heap area a program starts with is empty, sits at the page of the heap
/// bottom, and may be read, written and used from user mode.
pub proof fn lemma_heap_area_is_user_rw(heap_bottom: usize)
    ensures
        heap_area(heap_bottom).start_vpn == floor_of(va_of(heap_bottom)),
        heap_area(heap_bottom).end_vpn == ceil_of(va_of(heap_bottom)),
        heap_area(heap_bottom).perm.bits == 22,
        heap_area(heap_bottom).perm.bits & PERM_R == PERM_R,
        heap_area(heap_bottom).perm.bits & PERM_W == PERM_W,
        heap_area(heap_bottom).perm.bits & PERM_U == PERM_U,
{
    assert((2u8 | 4u8) | 16u8 == 22u8) by (bit_vector);
    assert(22u8 & 2u8 == 2u8) by (bit_vector);
    assert(22u8 & 4u8 == 4u8) by (bit_vector);
    assert(22u8 & 16u8 == 16u8) by (bit_vector);
}

/// A process made by `ProcessControlBlock::new` has, right after the areas of its
/// program image, an empty heap area at the page of the heap bottom (just above the
/// first user stack) that is readable, writable and user accessible.
pub proof fn lemma_new_heap_is_user_rw(
    p: ProcessControlBlock,
    t: TaskControlBlock,
    cx: TrapContext,
    memory_set: MemorySet,
    ustack_base: usize,
    entry_point: usize,
    main_task: usize,
    kernel_token: usize,
    kstack_top: usize,
    trap_handler: usize,
    sstatus: usize,
)
    requires
        started(p, t, cx, memory_set, ustack_base, entry_point, main_task, kernel_token, kstack_top,
            trap_handler, sstatus),
    ensures
        ({
            let hb = (ustack_base + USER_STACK_SIZE) as usize;
            let areas = p.inner.memory_set.areas();
            &&& areas.len() == memory_set.areas().len() + 3
            &&& areas.subrange(0, memory_set.areas().len() as int) == memory_set.areas()
            &&& areas[memory_set.areas().len() as int] == (MapArea {
                start_vpn: floor_of(va_of(hb)),
                end_vpn: ceil_of(va_of(hb)),
                perm: MapPermission { bits: 22 },
            })
            &&& p.inner.heap_bottom == hb
        }),
{
    let hb = (ustack_base + USER_STACK_SIZE) as usize;
    lemma_heap_area_is_user_rw(hb);
    assert(p.inner.memory_set.areas().subrange(0, memory_set.areas().len() as int) =~= memory_set.areas());
}

/// `exec` gives the process, right after the areas of the new program image, an
/// empty heap area at the page of the new heap bottom (just above the first user
/// stack) that is readable, writable and user accessible, and puts the break there.
pub proof fn lemma_exec_heap_is_user_rw(
    p0: &ProcessControlBlock,
    p1: &ProcessControlBlock,
    t0: &TaskControlBlock,
    t1: &TaskControlBlock,
    memory_set: &MemorySet,
    ustack_base: usize,
    entry_point: usize,
    args: Seq<Vec<u8>>,
    kernel_token: usize,
    kstack_top: usize,
    trap_handler: usize,
    sstatus: usize,
    image: &ExecImage,
)
    requires
        exec_effect(p0, p1, t0, t1, memory_set, ustack_base, entry_point, args, kernel_token, kstack_top,
            trap_handler, sstatus, image),
    ensures
        ({
            let hb = (ustack_base + USER_STACK_SIZE) as usize;
            let areas = p1.inner.memory_set.areas();
            &&& areas.len() == memory_set.areas().len() + 3
            &&& areas.subrange(0, memory_set.areas().len() as int) == memory_set.areas()
            &&& areas[memory_set.areas().len() as int] == (MapArea {
                start_vpn: floor_of(va_of(hb)),
                end_vpn: ceil_of(va_of(hb)),
                perm: MapPermission { bits: 22 },
            })
            &&& p1.inner.heap_bottom == hb
            &&& p1.inner.program_brk == hb
        }),
{
    let hb = (ustack_base + USER_STACK_SIZE) as usize;
    lemma_heap_area_is_user_rw(hb);
    assert(p1.inner.memory_set.areas().subrange(0, memory_set.areas().len() as int) =~= memory_set.areas());
}

/// Moving the program break never changes what an area may be used for: the areas
/// keep their number, their start pages and their permissions, and only the heap
/// area (the first one starting at the heap bottom's page) may change its end, to
/// the page of the new break.
pub proof fn lemma_sbrk_keeps_permissions(
    i0: ProcessControlBlockInner,
    i1: ProcessControlBlockInner,
    size: i32,
    r: Option<usize>,
)
    requires
        brk_effect(&i0, &i1, size, r),
    ensures
        ({
            let a0 = i0.memory_set.areas();
            let a1 = i1.memory_set.areas();
            let vpn = floor_of(va_of(i0.heap_bottom));
            &&& a1.len() == a0.len()
            &&& forall|k: int| 0 <= k < a0.len() ==> (#[trigger] a1[k]).perm == a0[k].perm
                && a1[k].start_vpn == a0[k].start_vpn
            &&& forall|k: int| 0 <= k < a0.len() && a1[k].end_vpn != a0[k].end_vpn ==> {
                &&& first_starting(a0, vpn, a0.len()) == Some(k)
                &&& brk_target(&i0, size) matches Some(nb)
                &&& a1[k].end_vpn == ceil_of(va_of(nb))
            }
        }),
{
    let a0 = i0.memory_set.areas();
    let vpn = floor_of(va_of(i0.heap_bottom));
    crate::mm::lemma_first_starting_found(a0, vpn, a0.len());
}

/// A word read as a signed word and back, and the other way round, is unchanged.
proof fn lemma_word_round_trip(a: usize, x: isize)
    by (bit_vector)
    ensures
        (a as isize) as usize == a,
        (x as usize) as isize == x,
{
}

/// Moving the break keeps the heap area where it starts: the areas start at the same
/// pages as before, so the heap area is still found at the heap bottom.
proof fn lemma_brk_keeps_heap_area(i0: ProcessControlBlockInner, end: usize)
    ensures
        ({
            let vpn = floor_of(va_of(i0.heap_bottom));
            let a0 = i0.memory_set.areas();
            let a1 = with_area_end(a0, vpn, end);
            &&& a1.len() == a0.len()
            &&& first_starting(a1, vpn, a1.len()) == first_starting(a0, vpn, a0.len())
        }),
{
    let vpn = floor_of(va_of(i0.heap_bottom));
    let a0 = i0.memory_set.areas();
    let a1 = with_area_end(a0, vpn, end);
    crate::mm::lemma_first_starting_found(a0, vpn, a0.len());
    assert forall|k: int| 0 <= k < a0.len() implies (#[trigger] a0[k]).start_vpn == a1[k].start_vpn by {
        match first_starting(a0, vpn, a0.len()) {
            Some(i) => {
                if k == i {
                }
            },
            None => {},
        }
    }
    lemma_first_starting_same_starts(a0, a1, vpn, a0.len());
}

/// Moving the program break by `size` bytes and then by `-size` bytes brings it back:
/// when the first move succeeds, so does the second, which returns the break the
/// first one made; afterwards the break is where it started, the heap area ends at
/// the page of that break, and nothing else has changed. This holds for growing and
/// for shrinking first, given a break that, read as a signed word, lies at or above
/// the heap bottom (as every move of the break leaves it).
pub proof fn lemma_sbrk_round_trip(
    i0: ProcessControlBlockInner,
    i1: ProcessControlBlockInner,
    i2: ProcessControlBlockInner,
    size: i32,
)
    requires
        size != i32::MIN,
        (i0.program_brk as isize) >= (i0.heap_bottom as isize),
        has_heap_area(&i0),
        brk_target(&i0, size).is_some(),
        brk_effect(&i0, &i1, size, brk_result(&i0, size)),
        brk_effect(&i1, &i2, (-size) as i32, brk_result(&i1, (-size) as i32)),
    ensures
        brk_result(&i0, size) == Some(i0.program_brk),
        brk_result(&i1, (-size) as i32) == Some(i1.program_brk),
        i2.program_brk == i0.program_brk,
        i2.memory_set.areas() == with_area_end(
            i0.memory_set.areas(),
            floor_of(va_of(i0.heap_bottom)),
            ceil_of(va_of(i0.program_brk)),
        ),
        i2.memory_set.token_spec() == i0.memory_set.token_spec(),
        i2 == (ProcessControlBlockInner { memory_set: i2.memory_set, ..i0 }),
{
    let vpn = floor_of(va_of(i0.heap_bottom));
    let a0 = i0.memory_set.areas();
    let nb = brk_target(&i0, size)->0;
    let x: isize = ((i0.program_brk as isize) as int + size as int) as isize;
    lemma_word_round_trip(i0.program_brk, x);
    assert(nb == x as usize);
    assert(i1.program_brk == nb);
    lemma_brk_keeps_heap_area(i0, ceil_of(va_of(nb)));
    assert(i1.heap_bottom == i0.heap_bottom);
    assert(has_heap_area(&i1));
    assert((i1.program_brk as isize) == x);
    assert(brk_target(&i1, (-size) as i32) == Some(i0.program_brk));
    let a1 = i1.memory_set.areas();
    assert(i2.memory_set.areas() == with_area_end(a1, vpn, ceil_of(va_of(i0.program_brk))));
    crate::mm::lemma_first_starting_found(a0, vpn, a0.len());
    assert(with_area_end(a1, vpn, ceil_of(va_of(i0.program_brk))) =~= with_area_end(a0, vpn, ceil_of(va_of(i0.program_brk))));
}

/// Append `v` to every row of a matrix.
fn push_to_rows(m: &mut Vec<Vec<usize>>, v: usize)
    ensures
        rows(final(m)@) == rows(old(m)@).map_values(|row: Seq<usize>| row.push(v)),
{
    let mut i: usize = 0;
    while i < m.len()
        invariant
            i <= m@.len(),
            m@.len() == old(m)@.len(),
            forall|k: int| 0 <= k < i ==> (#[trigger] m@[k])@ == old(m)@[k]@.push(v),
            forall|k: int| i <= k < m@.len() ==> #[trigger] m@[k] == old(m)@[k],
        decreases m@.len() - i,
    {
        let mut row = copy_row(&m[i]);
        row.push(v);
        m.set(i, row);
        i = i + 1;
    }
    proof {
        assert(rows(m@) =~= rows(old(m)@).map_values(|row: Seq<usize>| row.push(v)));
    }
}

} // verus!
