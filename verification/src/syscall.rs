//! The process-management system calls, on an explicit process and scheduler.
use vstd::prelude::*;
use crate::config::{PAGE_SIZE, TRAP_CONTEXT_BASE, USER_STACK_SIZE};
use crate::manager::{entry_of, TaskManager};
use crate::mm::{
    ceil, ceil_of, first_starting, floor, floor_of, va_of, virt_addr, without_area_at, MapArea,
    MapPermission, MemorySet, PERM_R, PERM_U, PERM_W, PERM_X,
};
use crate::id::{RecycleAllocator, TaskUserRes};
use crate::process::{
    brk_effect, brk_result, can_alloc_pid, can_exec, can_fork, exec_effect, fork_effect,
    growth_is_free_for, image_fits, reach, reaches_pid, started, took_pid, ExecImage, MmapRegion, ProcessControlBlock,
    ProcessControlBlockInner,
};
use crate::task::{pass_of, TaskControlBlock, TaskControlBlockInner, TaskStatus, MIN_PRIORITY};
use crate::trap::TrapContext;

verus! {

/// Seconds and microseconds of a point in time.
pub struct TimeVal {
    pub sec: usize,
    pub usec: usize,
}

/// A length rounded up to whole pages; nothing for an empty length or when the
/// rounding overflows.
pub open spec fn aligned_len(len: usize) -> Option<usize> {
    if len == 0 || len + PAGE_SIZE - 1 > usize::MAX {
        None
    } else {
        Some((((len + PAGE_SIZE - 1) / PAGE_SIZE as int) * PAGE_SIZE) as usize)
    }
}

/// Round a length up to whole pages.
pub fn align_up_len(len: usize) -> (r: Option<usize>)
    ensures
        r == aligned_len(len),
        r matches Some(x) ==> x % PAGE_SIZE == 0 && len <= x < len + PAGE_SIZE,
{
    if len == 0 {
        return None;
    }
    let addend = PAGE_SIZE - 1;
    let aligned = match len.checked_add(addend) {
        Some(a) => a,
        None => return None,
    };
    let q = aligned / PAGE_SIZE;
    assert(q * PAGE_SIZE <= aligned) by (nonlinear_arith)
        requires q == aligned as int / PAGE_SIZE as int;
    assert(aligned - PAGE_SIZE < q * PAGE_SIZE) by (nonlinear_arith)
        requires q == aligned as int / PAGE_SIZE as int;
    assert((q * PAGE_SIZE) % PAGE_SIZE as int == 0) by (nonlinear_arith);
    Some(q * PAGE_SIZE)
}

/// Whether `prot` is a valid protection: some of the read, write and execute bits
/// and nothing else.
pub open spec fn prot_valid(prot: usize) -> bool {
    0 < prot < 8
}

/// The permission that a valid protection maps to: user access, read when read or
/// write is asked for, write, and execute.
pub open spec fn perm_bits_of(prot: usize) -> u8 {
    let b0 = prot % 2 == 1;
    let b1 = (prot / 2) % 2 == 1;
    let b2 = (prot / 4) % 2 == 1;
    (PERM_U + (if b0 || b1 { PERM_R } else { 0 }) + (if b1 { PERM_W } else { 0 }) + (if b2 {
        PERM_X
    } else {
        0
    })) as u8
}

/// The permission for an `mmap` protection, or nothing when it is not valid.
pub fn prot_to_perm(prot: usize) -> (r: Option<MapPermission>)
    ensures
        r.is_some() == prot_valid(prot),
        r matches Some(p) ==> p.bits == perm_bits_of(prot),
{
    let allowed: usize = 0x7;
    assert(prot & !0x7usize != 0 <==> prot >= 8) by (bit_vector);
    if prot == 0 || prot & !allowed != 0 {
        return None;
    }
    assert(prot & 1 != 0 <==> prot % 2 == 1) by (bit_vector);
    assert(prot & 2 != 0 <==> (prot / 2) % 2 == 1) by (bit_vector);
    assert(prot & 4 != 0 <==> (prot / 4) % 2 == 1) by (bit_vector);
    let mut perm = MapPermission::from_bits(PERM_U);
    let ghost b0 = prot % 2 == 1;
    let ghost b1 = (prot / 2) % 2 == 1;
    let ghost b2 = (prot / 4) % 2 == 1;
    if prot & 0x1 != 0 {
        perm = perm.union(MapPermission::from_bits(PERM_R));
        assert(16u8 | 2u8 == 18u8) by (bit_vector);
    }
    assert(perm.bits == 16 + (if b0 { 2int } else { 0 }));
    if prot & 0x2 != 0 {
        let x = perm.bits;
        perm = perm.union(MapPermission::from_bits(PERM_W | PERM_R));
        assert(4u8 | 2u8 == 6u8) by (bit_vector);
        assert((x == 16u8 || x == 18u8) ==> x | 6u8 == 22u8) by (bit_vector);
    }
    assert(perm.bits == 16 + (if b0 || b1 { 2int } else { 0 }) + (if b1 { 4int } else { 0 }));
    if prot & 0x4 != 0 {
        let x = perm.bits;
        perm = perm.union(MapPermission::from_bits(PERM_X));
        assert((x == 16u8 || x == 18u8 || x == 22u8) ==> x | 8u8 == x + 8) by (bit_vector);
    }
    Some(perm)
}

/// The end address of an `mmap` request, when the length rounds and the end fits in
/// a word.
pub open spec fn mmap_end(start: usize, len: usize) -> Option<usize> {
    match aligned_len(len) {
        Some(l) => if start + l <= usize::MAX {
            Some((start + l) as usize)
        } else {
            None
        },
        None => None,
    }
}

/// `mmap(start, len, prot)` succeeds: the start is page aligned, the length rounds to
/// whole pages, the end lies at or below the trap context, the protection is valid,
/// no region starts at `start` yet, and none of the pages is mapped.
pub open spec fn mmap_accepts(inner: &ProcessControlBlockInner, start: usize, len: usize, prot: usize) -> bool {
    &&& start % PAGE_SIZE == 0
    &&& mmap_end(start, len) matches Some(end)
    &&& end <= TRAP_CONTEXT_BASE
    &&& prot_valid(prot)
    &&& !inner.mmap_areas@.contains_key(start)
    &&& forall|v: usize|
        floor_of(va_of(start)) <= v < ceil_of(va_of(end)) ==> !#[trigger] inner.memory_set.maps(v)
}

/// The area that a successful `mmap(start, len, prot)` adds.
pub open spec fn mmap_area(start: usize, len: usize, prot: usize) -> MapArea {
    MapArea {
        start_vpn: floor_of(va_of(start)),
        end_vpn: ceil_of(va_of(mmap_end(start, len)->0)),
        perm: MapPermission { bits: perm_bits_of(prot) },
    }
}

/// The region that a successful `mmap(start, len, prot)` records.
pub open spec fn mmap_region(start: usize, len: usize, prot: usize) -> MmapRegion {
    MmapRegion {
        start,
        len: aligned_len(len)->0,
        perm: MapPermission { bits: perm_bits_of(prot) },
    }
}

/// What a valid protection grants, bit by bit: user access always; reading when
/// reading or writing is asked for (write implies read); writing exactly when asked;
/// executing exactly when asked; and no other flag.
proof fn lemma_perm_bits_of_flags(prot: usize)
    by (bit_vector)
    requires
        0 < prot < 8,
    ensures
        perm_bits_of(prot) & 16u8 == 16u8,
        (perm_bits_of(prot) & 2u8 == 2u8) == (prot & 1 != 0 || prot & 2 != 0),
        (perm_bits_of(prot) & 4u8 == 4u8) == (prot & 2 != 0),
        (perm_bits_of(prot) & 8u8 == 8u8) == (prot & 4 != 0),
        perm_bits_of(prot) & !30u8 == 0u8,
{
}

/// The pages that a successful `mmap(start, len, prot)` maps carry the permission
/// that the region records, and that permission grants user access, reading when
/// reading or writing was asked for, writing and executing exactly when asked for,
/// and nothing else.
pub proof fn lemma_mmap_permission(start: usize, len: usize, prot: usize)
    requires
        prot_valid(prot),
    ensures
        mmap_area(start, len, prot).perm == mmap_region(start, len, prot).perm,
        mmap_area(start, len, prot).perm.bits & PERM_U == PERM_U,
        (mmap_area(start, len, prot).perm.bits & PERM_R == PERM_R) == (prot & 1 != 0 || prot & 2 != 0),
        (mmap_area(start, len, prot).perm.bits & PERM_W == PERM_W) == (prot & 2 != 0),
        (mmap_area(start, len, prot).perm.bits & PERM_X == PERM_X) == (prot & 4 != 0),
        mmap_area(start, len, prot).perm.bits & !(PERM_R | PERM_W | PERM_X | PERM_U) == 0,
{
    lemma_perm_bits_of_flags(prot);
    assert(!(2u8 | 4u8 | 8u8 | 16u8) == !30u8) by (bit_vector);
}

/// Map `len` bytes (rounded up to whole pages) at the page-aligned address `start`
/// with protection `prot` (bit 0 read, bit 1 write, bit 2 execute). Returns 0, or -1
/// and changes nothing when the request is refused.
pub fn sys_mmap(inner: &mut ProcessControlBlockInner, start: usize, len: usize, prot: usize) -> (r: isize)
    ensures
        r == 0 <==> mmap_accepts(old(inner), start, len, prot),
        r == 0 || r == -1,
        mmap_accepts(old(inner), start, len, prot) ==> {
            &&& final(inner).memory_set.areas() == old(inner).memory_set.areas().push(mmap_area(start, len, prot))
            &&& final(inner).memory_set.token_spec() == old(inner).memory_set.token_spec()
            &&& final(inner).mmap_areas@ == old(inner).mmap_areas@.insert(start, mmap_region(start, len, prot))
            &&& *final(inner) == (ProcessControlBlockInner {
                memory_set: final(inner).memory_set,
                mmap_areas: final(inner).mmap_areas,
                ..*old(inner)
            })
        },
        !mmap_accepts(old(inner), start, len, prot) ==> *final(inner) == *old(inner),
{
    if start % PAGE_SIZE != 0 {
        return -1;
    }
    let len_aligned = match align_up_len(len) {
        Some(l) => l,
        None => return -1,
    };
    let end = match start.checked_add(len_aligned) {
        Some(e) => e,
        None => return -1,
    };
    if end > TRAP_CONTEXT_BASE {
        return -1;
    }
    let perm = match prot_to_perm(prot) {
        Some(p) => p,
        None => return -1,
    };
    if inner.mmap_areas.contains_key(&start) {
        return -1;
    }
    assert(mmap_end(start, len) == Some(end));
    let start_vpn = floor(virt_addr(start));
    let end_vpn = ceil(virt_addr(end));
    let mut vpn = start_vpn;
    while vpn < end_vpn
        invariant
            start_vpn <= vpn,
            start_vpn == floor_of(va_of(start)),
            end_vpn == ceil_of(va_of(end)),
            forall|v: usize| start_vpn <= v < vpn ==> !#[trigger] inner.memory_set.maps(v),
            *inner == *old(inner),
            mmap_end(start, len) == Some(end),
        decreases end_vpn - vpn,
    {
        if inner.memory_set.translate(vpn).is_some() {
            assert(old(inner).memory_set.maps(vpn));
            return -1;
        }
        vpn = vpn + 1;
    }
    inner.memory_set.insert_framed_area(virt_addr(start), virt_addr(end), perm);
    inner.mmap_areas.insert(start, MmapRegion { start, len: len_aligned, perm });
    0
}

/// `munmap(start, len)` succeeds: the start is page aligned, the length is a nonzero
/// multiple of the page size, and a region of exactly that length starts at `start`.
pub open spec fn munmap_accepts(inner: &ProcessControlBlockInner, start: usize, len: usize) -> bool {
    &&& start % PAGE_SIZE == 0
    &&& len != 0
    &&& len % PAGE_SIZE == 0
    &&& inner.mmap_areas@.contains_key(start)
    &&& inner.mmap_areas@[start].len == len
}

/// `munmap` takes back exactly what `mmap` mapped: right after `mmap(start, len,
/// prot)` succeeded, `munmap(start, len2)` is accepted exactly when `len2` is the
/// mapped length, `len` rounded up to whole pages; a shorter or longer length is
/// refused. More generally, an accepted `munmap` names a recorded region by its start
/// and its exact length.
pub proof fn lemma_munmap_needs_exact_length(
    i0: ProcessControlBlockInner,
    i1: ProcessControlBlockInner,
    start: usize,
    len: usize,
    prot: usize,
    len2: usize,
)
    requires
        mmap_accepts(&i0, start, len, prot),
        i1.mmap_areas@ == i0.mmap_areas@.insert(start, mmap_region(start, len, prot)),
    ensures
        munmap_accepts(&i1, start, len2) <==> len2 as int == ((len + PAGE_SIZE - 1) / PAGE_SIZE as int) * PAGE_SIZE,
        forall|s: usize, l: usize| #[trigger] munmap_accepts(&i1, s, l) ==> {
            &&& i1.mmap_areas@.contains_key(s)
            &&& i1.mmap_areas@[s].len == l
        },
{
    let l = aligned_len(len)->0;
    let q = (len + PAGE_SIZE - 1) / PAGE_SIZE as int;
    assert(q >= 1) by (nonlinear_arith)
        requires len >= 1, q == (len + PAGE_SIZE - 1) / PAGE_SIZE as int;
    assert((q * PAGE_SIZE) % PAGE_SIZE as int == 0) by (nonlinear_arith);
    assert(q * PAGE_SIZE >= PAGE_SIZE) by (nonlinear_arith)
        requires q >= 1;
    assert(l == q * PAGE_SIZE);
}

/// Unmap the region that `mmap` mapped at `start`. Returns 0, or -1 and changes
/// nothing when the request is refused.
pub fn sys_munmap(inner: &mut ProcessControlBlockInner, start: usize, len: usize) -> (r: isize)
    ensures
        r == 0 <==> munmap_accepts(old(inner), start, len),
        r == 0 || r == -1,
        munmap_accepts(old(inner), start, len) ==> {
            &&& final(inner).memory_set.areas() == without_area_at(
                old(inner).memory_set.areas(),
                floor_of(va_of(start)),
            )
            &&& final(inner).memory_set.token_spec() == old(inner).memory_set.token_spec()
            &&& final(inner).mmap_areas@ == old(inner).mmap_areas@.remove(start)
            &&& *final(inner) == (ProcessControlBlockInner {
                memory_set: final(inner).memory_set,
                mmap_areas: final(inner).mmap_areas,
                ..*old(inner)
            })
        },
        !munmap_accepts(old(inner), start, len) ==> *final(inner) == *old(inner),
{
    if start % PAGE_SIZE != 0 || len == 0 || len % PAGE_SIZE != 0 {
        return -1;
    }
    match inner.mmap_areas.get(&start) {
        Some(region) => {
            if len != region.len {
                return -1;
            }
        },
        None => {
            return -1;
        },
    }
    inner.memory_set.remove_area_with_start_vpn(floor(virt_addr(start)));
    inner.mmap_areas.remove(&start);
    0
}

/// Unmapping a region right after mapping it gives back the address space and the
/// region table as they were, provided no area started at the region's first page
/// before. (The memory set removes the first area that starts at that page.)
pub proof fn lemma_munmap_undoes_mmap(
    areas: Seq<MapArea>,
    regions: Map<usize, MmapRegion>,
    start: usize,
    len: usize,
    prot: usize,
)
    requires
        mmap_end(start, len) is Some,
        first_starting(areas, floor_of(va_of(start)), areas.len()).is_none(),
        !regions.contains_key(start),
    ensures
        without_area_at(areas.push(mmap_area(start, len, prot)), floor_of(va_of(start))) == areas,
        regions.insert(start, mmap_region(start, len, prot)).remove(start) == regions,
        aligned_len(len)->0 != 0,
        aligned_len(len)->0 % PAGE_SIZE == 0,
{
    let vpn = floor_of(va_of(start));
    let pushed = areas.push(mmap_area(start, len, prot));
    lemma_first_starting_prefix(areas, pushed, vpn, areas.len());
    assert(pushed.remove(areas.len() as int) =~= areas);
    assert(regions.insert(start, mmap_region(start, len, prot)).remove(start) =~= regions);
    let l = len + PAGE_SIZE - 1;
    let q = l / PAGE_SIZE as int;
    assert(q * PAGE_SIZE >= PAGE_SIZE) by (nonlinear_arith)
        requires q == l / PAGE_SIZE as int, l >= PAGE_SIZE as int;
    assert((q * PAGE_SIZE) % PAGE_SIZE as int == 0) by (nonlinear_arith);
}

/// A sequence extended by one area answers as before for the prefix.
proof fn lemma_first_starting_prefix(areas: Seq<MapArea>, pushed: Seq<MapArea>, vpn: usize, n: nat)
    requires
        n <= areas.len(),
        pushed.len() == areas.len() + 1,
        forall|i: int| 0 <= i < areas.len() ==> pushed[i] == areas[i],
        pushed[areas.len() as int].start_vpn == vpn,
        first_starting(areas, vpn, areas.len()).is_none(),
    ensures
        first_starting(pushed, vpn, n) == first_starting(areas, vpn, n),
        first_starting(pushed, vpn, pushed.len()) == Some(areas.len() as int),
    decreases n,
{
    if n > 0 {
        lemma_first_starting_prefix(areas, pushed, vpn, (n - 1) as nat);
    }
    lemma_first_starting_none_prefix(areas, vpn, areas.len(), n);
    if n == areas.len() {
    }
    lemma_first_starting_prefix_full(areas, pushed, vpn, areas.len());
}

proof fn lemma_first_starting_none_prefix(areas: Seq<MapArea>, vpn: usize, m: nat, n: nat)
    requires
        n <= m <= areas.len(),
        first_starting(areas, vpn, m).is_none(),
    ensures
        first_starting(areas, vpn, n).is_none(),
    decreases m,
{
    if m > n {
        lemma_first_starting_none_prefix(areas, vpn, (m - 1) as nat, n);
    }
}

proof fn lemma_first_starting_prefix_full(areas: Seq<MapArea>, pushed: Seq<MapArea>, vpn: usize, n: nat)
    requires
        n <= areas.len(),
        pushed.len() == areas.len() + 1,
        forall|i: int| 0 <= i < areas.len() ==> pushed[i] == areas[i],
        pushed[areas.len() as int].start_vpn == vpn,
        first_starting(areas, vpn, areas.len()).is_none(),
    ensures
        first_starting(pushed, vpn, n).is_none(),
        n == areas.len() ==> first_starting(pushed, vpn, pushed.len()) == Some(areas.len() as int),
    decreases n,
{
    lemma_first_starting_none_prefix(areas, vpn, areas.len(), n);
    if n > 0 {
        lemma_first_starting_prefix_full(areas, pushed, vpn, (n - 1) as nat);
    }
}

/// The current process's pid.
pub fn sys_getpid(process: &ProcessControlBlock) -> (r: isize)
    ensures
        r == process.pid as isize,
{
    process.pid as isize
}

/// The running task gives up the processor: it becomes ready and is queued again.
/// Returns 0.
pub fn sys_yield(manager: &mut TaskManager, current: TaskControlBlock) -> (r: isize)
    ensures
        r == 0,
        final(manager).queue() == old(manager).queue().push(
            entry_of(
                TaskControlBlock {
                    inner: TaskControlBlockInner { task_status: TaskStatus::Ready, ..current.inner },
                    ..current
                },
            ),
        ),
        final(manager).stopped() == old(manager).stopped(),
{
    crate::manager::wakeup_task(manager, current);
    0
}

/// Move the program break of the process by `size` bytes. Returns the old break, or
/// -1 when the break cannot move.
pub fn sys_sbrk(process: &mut ProcessControlBlock, size: i32) -> (r: isize)
    requires
        growth_is_free_for(&old(process).inner, size),
    ensures
        final(process).pid == old(process).pid,
        brk_effect(&old(process).inner, &final(process).inner, size, brk_result(&old(process).inner, size)),
        r == match brk_result(&old(process).inner, size) {
            Some(b) => b as isize,
            None => -1isize,
        },
{
    let res = process.change_program_brk(size);
    match res {
        Some(old_brk) => old_brk as isize,
        None => -1,
    }
}

/// Start a child of the current process running the program found for the path
/// (`elf`), under a pid taken from `pids`: the child is made as
/// `ProcessControlBlock::new` makes a process, with default priority, gets the
/// current process as parent and is appended to its children; its main thread is
/// queued. Returns the child's pid and the trap context its main thread starts
/// from, or -1 and nothing, with nothing changed, when no program was found.
pub fn sys_spawn(
    process: &mut ProcessControlBlock,
    pids: &mut RecycleAllocator,
    manager: &mut TaskManager,
    elf: Option<LoadedElf>,
    main_task: usize,
    kernel_token: usize,
    kstack_top: usize,
    trap_handler: usize,
    sstatus: usize,
) -> (r: (isize, Option<TrapContext>))
    requires
        elf matches Some(e) ==> {
            &&& can_alloc_pid(old(pids))
            &&& e.ustack_base + USER_STACK_SIZE <= usize::MAX
            &&& image_fits(
                e.memory_set.areas(),
                (e.ustack_base + USER_STACK_SIZE) as usize,
                TaskUserRes { tid: 0, ustack_base: e.ustack_base },
            )
        },
    ensures
        elf.is_none() ==> {
            &&& r == (-1isize, None::<TrapContext>)
            &&& *final(process) == *old(process)
            &&& *final(pids) == *old(pids)
            &&& final(manager).queue() == old(manager).queue()
            &&& final(manager).stopped() == old(manager).stopped()
        },
        elf matches Some(e) ==> {
            let c = final(process).inner.children@.last();
            let t = final(manager).queue().last().task;
            &&& r.0 == c.pid as isize
            &&& r.1 is Some
            &&& took_pid(old(pids), final(pids), c.pid)
            &&& old(pids).in_use(old(process).pid) ==> c.pid != old(process).pid
            &&& c.inner.parent == Some(old(process).pid)
            &&& started(c, t, r.1->0, e.memory_set, e.ustack_base, e.entry_point, main_task,
                kernel_token, kstack_top, trap_handler, sstatus)
            &&& final(process).pid == old(process).pid
            &&& final(process).inner.children@ == old(process).inner.children@.push(c)
            &&& reaches_pid(*final(process), seq![old(process).inner.children@.len() as usize], c.pid)
            &&& final(process).inner == (ProcessControlBlockInner {
                children: final(process).inner.children,
                ..old(process).inner
            })
            &&& final(manager).queue() == old(manager).queue().push(entry_of(t))
            &&& final(manager).stopped() == old(manager).stopped()
        },
{
    match elf {
        Some(e) => {
            let (mut child, task, trap_cx) = ProcessControlBlock::new(
                pids,
                manager,
                e.memory_set,
                e.ustack_base,
                e.entry_point,
                main_task,
                kernel_token,
                kstack_top,
                trap_handler,
                sstatus,
            );
            child.inner.parent = Some(process.pid);
            let child_pid = child.pid;
            let len = process.inner.children.len();
            process.inner.children.push(child);
            proof {
                let c = process.inner.children@[len as int];
                assert(seq![len].drop_first() =~= Seq::<usize>::empty());
                assert(reach(c, Seq::<usize>::empty()) == Some(c));
                assert(seq![len][0] == len as usize);
                assert(seq![len].len() == 1);
                assert(process.inner.children@.len() == len + 1);
                assert(reach(*process, seq![len]) == reach(c, seq![len].drop_first()));
            }
            (child_pid as isize, Some(trap_cx))
        },
        None => (-1, None),
    }
}

/// Set the priority of the current task. A priority of at least `MIN_PRIORITY` is
/// taken, with the pass that follows from it, and returned; a smaller one is refused
/// with -1 and changes nothing.
pub fn sys_set_priority(task: &mut TaskControlBlock, prio: isize) -> (r: isize)
    ensures
        prio >= MIN_PRIORITY ==> {
            &&& r == prio
            &&& *final(task) == (TaskControlBlock {
                inner: TaskControlBlockInner {
                    priority: prio as usize,
                    stride_pass: pass_of(prio as usize) as usize,
                    ..old(task).inner
                },
                ..*old(task)
            })
        },
        prio < MIN_PRIORITY ==> r == -1 && *final(task) == *old(task),
{
    if prio < MIN_PRIORITY as isize {
        return -1;
    }
    task.inner.set_priority(prio as usize);
    prio
}

/// The current task exits with `exit_code`: it records the code, stops running and
/// is kept by the scheduler as the stopped task; its process becomes a zombie with
/// that exit code, for the parent to reap. The caller then switches to the next
/// task and never comes back.
pub fn sys_exit(process: &mut ProcessControlBlock, manager: &mut TaskManager, current: TaskControlBlock, exit_code: i32)
    ensures
        final(process).pid == old(process).pid,
        final(process).inner == (ProcessControlBlockInner {
            is_zombie: true,
            exit_code,
            ..old(process).inner
        }),
        final(manager).stopped() == Some(TaskControlBlock {
            inner: TaskControlBlockInner {
                task_status: TaskStatus::Blocked,
                exit_code: Some(exit_code),
                ..current.inner
            },
            ..current
        }),
        final(manager).queue() == old(manager).queue(),
{
    let mut current = current;
    current.inner.task_status = TaskStatus::Blocked;
    current.inner.exit_code = Some(exit_code);
    process.inner.is_zombie = true;
    process.inner.exit_code = exit_code;
    manager.add_stop(current);
}

/// Whether a child with pid `child_pid` is one that `waitpid(pid)` waits for: any
/// child for -1, else the child with that pid.
pub open spec fn waits_for(pid: isize, child_pid: usize) -> bool {
    pid == -1 || pid as usize == child_pid
}

/// The index of the first of the first `n` children that `waitpid(pid)` may reap: a
/// zombie it waits for.
pub open spec fn first_reapable(children: Seq<ProcessControlBlock>, pid: isize, n: nat) -> Option<int>
    decreases n,
{
    if n == 0 {
        None
    } else {
        let before = first_reapable(children, pid, (n - 1) as nat);
        if before.is_some() {
            before
        } else if children[n - 1].inner.is_zombie && waits_for(pid, children[n - 1].pid) {
            Some(n - 1)
        } else {
            None
        }
    }
}

proof fn lemma_first_reapable_stays(children: Seq<ProcessControlBlock>, pid: isize, n: nat, m: nat)
    requires
        1 <= n <= m <= children.len(),
        first_reapable(children, pid, (n - 1) as nat).is_none(),
        children[n - 1].inner.is_zombie && waits_for(pid, children[n - 1].pid),
    ensures
        first_reapable(children, pid, m) == Some(n - 1),
    decreases m,
{
    if m > n {
        lemma_first_reapable_stays(children, pid, n, (m - 1) as nat);
    }
}

/// Reap a child that has exited. Returns -1 when no child is waited for, -2 when
/// none of them has exited yet, and otherwise the reaped child's pid together with
/// its exit code (which the caller stores for the user); the first such child is
/// removed from the children.
pub fn sys_waitpid(inner: &mut ProcessControlBlockInner, pid: isize) -> (r: (isize, Option<i32>))
    ensures
        ({
            let ch = old(inner).children@;
            if !(exists|i: int| 0 <= i < ch.len() && waits_for(pid, (#[trigger] ch[i]).pid)) {
                r == (-1isize, None::<i32>) && *final(inner) == *old(inner)
            } else {
                match first_reapable(ch, pid, ch.len()) {
                    Some(i) => {
                        &&& r == (ch[i].pid as isize, Some(ch[i].inner.exit_code))
                        &&& final(inner).children@ == ch.remove(i)
                        &&& *final(inner) == (ProcessControlBlockInner {
                            children: final(inner).children,
                            ..*old(inner)
                        })
                    },
                    None => r == (-2isize, None::<i32>) && *final(inner) == *old(inner),
                }
            }
        }),
{
    let ghost ch = inner.children@;
    let mut any = false;
    let mut i: usize = 0;
    while i < inner.children.len()
        invariant
            i <= ch.len(),
            inner.children@ == ch,
            *inner == *old(inner),
            any <==> exists|k: int| 0 <= k < i && waits_for(pid, (#[trigger] ch[k]).pid),
        decreases ch.len() - i,
    {
        if pid == -1 || pid as usize == inner.children[i].pid {
            any = true;
            proof {
                assert(waits_for(pid, ch[i as int].pid));
            }
        }
        i = i + 1;
    }
    if !any {
        return (-1, None);
    }
    let mut j: usize = 0;
    while j < inner.children.len()
        invariant
            j <= ch.len(),
            inner.children@ == ch,
            *inner == *old(inner),
            first_reapable(ch, pid, j as nat).is_none(),
        decreases ch.len() - j,
    {
        let reapable = inner.children[j].inner.is_zombie && (pid == -1 || pid as usize == inner.children[j].pid);
        if reapable {
            proof {
                lemma_first_reapable_stays(ch, pid, (j + 1) as nat, ch.len());
            }
            let child = inner.children.remove(j);
            let found_pid = child.pid;
            let exit_code = child.inner.exit_code;
            return (found_pid as isize, Some(exit_code));
        }
        j = j + 1;
    }
    (-2, None)
}

/// Fork the current single-threaded process. The child gets a pid taken from `pids`,
/// a copy of the address space under the page table `child_token`, and a main thread
/// with identity `child_task` that is queued for scheduling. Returns the child's pid,
/// for the parent, and the child's trap context, in which fork returns 0.
pub fn sys_fork(
    process: &mut ProcessControlBlock,
    pids: &mut RecycleAllocator,
    manager: &mut TaskManager,
    parent_main: &TaskControlBlock,
    child_token: usize,
    child_task: usize,
    parent_trap_cx: &TrapContext,
    kstack_top: usize,
) -> (r: (isize, TrapContext))
    requires
        can_fork(old(process), parent_main),
        can_alloc_pid(old(pids)),
    ensures
        ({
            let t = final(manager).queue().last().task;
            &&& r.0 == t.process as isize
            &&& took_pid(old(pids), final(pids), t.process)
            &&& old(pids).in_use(old(process).pid) ==> t.process != old(process).pid
            &&& fork_effect(old(process), final(process), t.process, child_token, parent_main, child_task, &t)
            &&& reaches_pid(*final(process), seq![old(process).inner.children@.len() as usize], t.process)
            &&& final(manager).queue() == old(manager).queue().push(entry_of(t))
        }),
        r.1.x@ == parent_trap_cx.x@.update(10, 0usize),
        r.1 == (TrapContext { kernel_sp: kstack_top, x: r.1.x, ..*parent_trap_cx }),
        final(manager).stopped() == old(manager).stopped(),
{
    let len = process.inner.children.len();
    let (task, mut trap_cx) = process.fork(pids, child_token, parent_main, child_task, parent_trap_cx, kstack_top);
    let child_pid = task.process;
    // the child sees 0 as the result of fork
    trap_cx.x[10] = 0;
    manager.add(task);
    proof {
        let c = process.inner.children@[len as int];
        assert(seq![len].drop_first() =~= Seq::<usize>::empty());
        assert(reach(c, Seq::<usize>::empty()) == Some(c));
        assert(seq![len][0] == len as usize);
        assert(seq![len].len() == 1);
        assert(process.inner.children@.len() == len + 1);
        assert(reach(*process, seq![len]) == reach(c, seq![len].drop_first()));
    }
    (child_pid as isize, trap_cx)
}

/// A program loaded from an executable: its address space, the base of its user
/// stacks, and its entry point.
pub struct LoadedElf {
    pub memory_set: MemorySet,
    pub ustack_base: usize,
    pub entry_point: usize,
}

/// Run the program found for the path in the current process, or return -1 when no
/// program was found. On success returns 0 and what must be written to the new user
/// stack and trap context.
pub fn sys_exec(
    process: &mut ProcessControlBlock,
    task: &mut TaskControlBlock,
    elf: Option<LoadedElf>,
    args: &Vec<Vec<u8>>,
    kernel_token: usize,
    kstack_top: usize,
    trap_handler: usize,
    sstatus: usize,
) -> (r: (isize, Option<ExecImage>))
    requires
        elf matches Some(e) ==> can_exec(old(process), old(task), &e.memory_set, e.ustack_base, args@),
    ensures
        elf.is_none() ==> r.0 == -1 && r.1.is_none() && *final(process) == *old(process)
            && *final(task) == *old(task),
        elf matches Some(e) ==> (r.0 == 0 && r.1 is Some && exec_effect(
            old(process),
            final(process),
            old(task),
            final(task),
            &e.memory_set,
            e.ustack_base,
            e.entry_point,
            args@,
            kernel_token,
            kstack_top,
            trap_handler,
            sstatus,
            &r.1->0,
        )),
{
    match elf {
        Some(e) => {
            let image = process.exec(
                task,
                e.memory_set,
                e.ustack_base,
                e.entry_point,
                args,
                kernel_token,
                kstack_top,
                trap_handler,
                sstatus,
            );
            (0, Some(image))
        },
        None => (-1, None),
    }
}

/// A time in microseconds as seconds and microseconds.
pub fn time_val_from_us(time_us: usize) -> (r: TimeVal)
    ensures
        r.sec == time_us / 1_000_000,
        r.usec == time_us % 1_000_000,
{
    TimeVal { sec: time_us / 1_000_000, usec: time_us % 1_000_000 }
}

/// The low `n` bytes of a word, least significant first.
pub open spec fn le_bytes(v: usize, n: nat) -> Seq<u8>
    decreases n,
{
    if n == 0 {
        Seq::empty()
    } else {
        seq![(v % 256) as u8] + le_bytes((v / 256) as usize, (n - 1) as nat)
    }
}

/// The bytes of a word, least significant first.
pub(crate) fn word_bytes(v: usize, out: &mut Vec<u8>)
    ensures
        final(out)@ == old(out)@ + le_bytes(v, crate::process::word() as nat),
{
    let n = core::mem::size_of::<usize>();
    let mut x = v;
    let mut k: usize = 0;
    let ghost start = out@;
    while k < n
        invariant
            k <= n,
            n == crate::process::word(),
            out@ + le_bytes(x, (n - k) as nat) == start + le_bytes(v, n as nat),
        decreases n - k,
    {
        proof {
            assert(le_bytes(x, (n - k) as nat) == seq![(x % 256) as u8] + le_bytes((x / 256) as usize, (n - k - 1) as nat));
            assert(out@ + le_bytes(x, (n - k) as nat) =~= out@.push((x % 256) as u8) + le_bytes((x / 256) as usize, (n - k - 1) as nat));
        }
        out.push((x % 256) as u8);
        x = x / 256;
        k = k + 1;
    }
    proof {
        assert(out@ + le_bytes(x, 0) =~= out@);
    }
}

/// The in-memory bytes of a time value on a little-endian machine: seconds, then
/// microseconds, one word each.
pub fn timeval_bytes(tv: &TimeVal) -> (r: Vec<u8>)
    ensures
        r@ == le_bytes(tv.sec, crate::process::word() as nat) + le_bytes(tv.usec, crate::process::word() as nat),
{
    let mut out: Vec<u8> = Vec::new();
    word_bytes(tv.sec, &mut out);
    word_bytes(tv.usec, &mut out);
    proof {
        assert(out@ =~= le_bytes(tv.sec, crate::process::word() as nat) + le_bytes(tv.usec, crate::process::word() as nat));
    }
    out
}

/// Where buffer `i` starts when the buffers are laid end to end.
pub open spec fn offset(bufs: Seq<Vec<u8>>, i: nat) -> int
    decreases i,
{
    if i == 0 {
        0
    } else {
        offset(bufs, (i - 1) as nat) + bufs[i - 1]@.len()
    }
}

/// Copy `src` into the buffers laid end to end, as far as both go. Returns the
/// number of bytes copied.
pub fn copy_to_buffers(src: &Vec<u8>, buffers: &mut Vec<Vec<u8>>) -> (copied: usize)
    ensures
        copied == (if src@.len() <= offset(old(buffers)@, old(buffers)@.len()) {
            src@.len() as int
        } else {
            offset(old(buffers)@, old(buffers)@.len())
        }),
        final(buffers)@.len() == old(buffers)@.len(),
        forall|i: int| 0 <= i < old(buffers)@.len() ==> (#[trigger] final(buffers)@[i])@.len() == old(buffers)@[i]@.len(),
        forall|i: int, j: int|
            0 <= i < old(buffers)@.len() && 0 <= j < old(buffers)@[i]@.len() ==> #[trigger] final(buffers)@[i]@[j] == if offset(old(buffers)@, i as nat) + j < copied {
                src@[offset(old(buffers)@, i as nat) + j]
            } else {
                old(buffers)@[i]@[j]
            },
{
    let len = src.len();
    let mut copied: usize = 0;
    let mut i: usize = 0;
    let ghost b0 = buffers@;
    while i < buffers.len()
        invariant
            len == src@.len(),
            buffers@.len() == b0.len(),
            i <= b0.len(),
            forall|k: int| 0 <= k < b0.len() ==> (#[trigger] buffers@[k])@.len() == b0[k]@.len(),
            copied == (if len <= offset(b0, i as nat) { len as int } else { offset(b0, i as nat) }),
            forall|k: int, j: int|
                0 <= k < i && 0 <= j < b0[k]@.len() ==> #[trigger] buffers@[k]@[j] == if offset(b0, k as nat) + j < copied {
                    src@[offset(b0, k as nat) + j]
                } else {
                    b0[k]@[j]
                },
            forall|k: int| i <= k < b0.len() ==> #[trigger] buffers@[k] == b0[k],
        decreases b0.len() - i,
    {
        proof {
            lemma_offset_mono(b0, i as nat, (i + 1) as nat);
        }
        if copied >= len {
            proof {
                assert forall|k: int, j: int|
                    0 <= k < i + 1 && 0 <= j < b0[k]@.len() implies #[trigger] buffers@[k]@[j] == if offset(b0, k as nat) + j < copied {
                        src@[offset(b0, k as nat) + j]
                    } else {
                        b0[k]@[j]
                    } by {
                    if k == i {
                        assert(buffers@[k] == b0[k]);
                    }
                }
            }
            i = i + 1;
            continue;
        }
        let blen = buffers[i].len();
        let copy_len = if blen < len - copied { blen } else { len - copied };
        let mut nb: Vec<u8> = Vec::new();
        let mut j: usize = 0;
        while j < blen
            invariant
                len == src@.len(),
                i < b0.len(),
                buffers@.len() == b0.len(),
                buffers@[i as int] == b0[i as int],
                blen == b0[i as int]@.len(),
                copy_len <= blen,
                copied + copy_len <= len,
                j <= blen,
                nb@.len() == j,
                forall|t: int| 0 <= t < j ==> #[trigger] nb@[t] == if t < copy_len {
                    src@[copied + t]
                } else {
                    b0[i as int]@[t]
                },
            decreases blen - j,
        {
            if j < copy_len {
                nb.push(src[copied + j]);
            } else {
                nb.push(buffers[i][j]);
            }
            j = j + 1;
        }
        let ghost old_copied = copied;
        let ghost bufs_before = buffers@;
        buffers.set(i, nb);
        proof {
            assert(copied == offset(b0, i as nat));
        }
        copied = copied + copy_len;
        proof {
            assert forall|k: int, j: int|
                0 <= k < i + 1 && 0 <= j < b0[k]@.len() implies #[trigger] buffers@[k]@[j] == if offset(b0, k as nat) + j < copied {
                    src@[offset(b0, k as nat) + j]
                } else {
                    b0[k]@[j]
                } by {
                if k < i {
                    lemma_offset_mono(b0, (k + 1) as nat, i as nat);
                    assert(buffers@[k] == bufs_before[k]);
                    assert(offset(b0, k as nat) + j < old_copied);
                }
            }
        }
        i = i + 1;
    }
    copied
}

proof fn lemma_offset_mono(bufs: Seq<Vec<u8>>, i: nat, j: nat)
    requires
        i <= j,
    ensures
        offset(bufs, i) <= offset(bufs, j),
        offset(bufs, i) >= 0,
    decreases j,
{
    if j > i {
        lemma_offset_mono(bufs, i, (j - 1) as nat);
    }
    if i > 0 {
        lemma_offset_mono(bufs, (i - 1) as nat, (i - 1) as nat);
    }
}

/// Store the current time (`time_us` microseconds) as a time value into the user
/// buffers that hold it. Returns -1 for a null pointer `ts` or when the buffers
/// are too short, else 0.
pub fn sys_get_time(ts: usize, time_us: usize, buffers: &mut Vec<Vec<u8>>) -> (r: isize)
    ensures
        ts == 0 ==> r == -1 && final(buffers)@ == old(buffers)@,
        ts != 0 ==> {
            let bytes = le_bytes(time_us / 1_000_000, crate::process::word() as nat) + le_bytes(
                (time_us % 1_000_000) as usize,
                crate::process::word() as nat,
            );
            let total = offset(old(buffers)@, old(buffers)@.len());
            &&& r == (if bytes.len() <= total { 0int } else { -1int })
            &&& final(buffers)@.len() == old(buffers)@.len()
            &&& forall|i: int, j: int|
                0 <= i < old(buffers)@.len() && 0 <= j < old(buffers)@[i]@.len() ==> #[trigger] final(buffers)@[i]@[j] == if offset(old(buffers)@, i as nat) + j < bytes.len() {
                    bytes[offset(old(buffers)@, i as nat) + j]
                } else {
                    old(buffers)@[i]@[j]
                }
        },
{
    if ts == 0 {
        return -1;
    }
    let timeval = time_val_from_us(time_us);
    let src = timeval_bytes(&timeval);
    let len = src.len();
    let copied = copy_to_buffers(&src, buffers);
    proof {
        let b = old(buffers)@;
        assert forall|i: int, j: int| #![trigger buffers@[i]@[j]] 0 <= i < b.len() && 0 <= j < b[i]@.len() implies offset(b, i as nat) + j < offset(b, b.len()) by {
            lemma_offset_mono(b, (i + 1) as nat, b.len());
        }
    }
    if copied == len {
        0
    } else {
        -1
    }
}

} // verus!
