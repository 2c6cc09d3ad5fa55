//! Recycling allocator of small integer identifiers (thread ids and pids).
use vstd::prelude::*;
use crate::config::{PAGE_SIZE, TRAP_CONTEXT_BASE, USER_STACK_SIZE};
use crate::mm::{
    area_maps, ceil, ceil_of, floor, floor_of, is_mapped, va_of, virt_addr, MapArea, MapPermission, MemorySet, PERM_R,
    PERM_U, PERM_W,
};

verus! {

/// Hands out identifiers `0, 1, 2, ...`, reusing the most recently freed one first.
pub struct RecycleAllocator {
    current: usize,
    recycled: Vec<usize>,
}

impl RecycleAllocator {
    /// Number of identifiers handed out so far, freed ones included.
    pub closed spec fn current(&self) -> nat {
        self.current as nat
    }

    /// Freed identifiers, the most recently freed last.
    pub closed spec fn recycled(&self) -> Seq<usize> {
        self.recycled@
    }

    /// Freed identifiers are distinct and were handed out before.
    pub open spec fn wf(&self) -> bool {
        &&& self.recycled().no_duplicates()
        &&& forall|k: int| 0 <= k < self.recycled().len() ==> #[trigger] self.recycled()[k] < self.current()
    }

    /// The identifier is in use: handed out and not freed since.
    pub open spec fn in_use(&self, id: usize) -> bool {
        id < self.current() && !self.recycled().contains(id)
    }

    /// An allocator that has handed out nothing.
    pub fn new() -> (r: Self)
        ensures
            r.wf(),
            r.current() == 0,
            r.recycled() == Seq::<usize>::empty(),
    {
        RecycleAllocator { current: 0, recycled: Vec::new() }
    }

    /// Whether an identifier can be handed out: a freed one is waiting, or the next
    /// new one fits in a word.
    pub fn can_allocate(&self) -> (r: bool)
        ensures
            r == (self.recycled().len() > 0 || self.current() < usize::MAX),
    {
        self.recycled.len() > 0 || self.current < usize::MAX
    }

    /// Hand out an identifier: the most recently freed one, else the next new one.
    pub fn allocate(&mut self) -> (r: usize)
        requires
            old(self).wf(),
            old(self).recycled().len() > 0 || old(self).current() < usize::MAX,
        ensures
            final(self).wf(),
            old(self).recycled().len() > 0 ==> {
                &&& r == old(self).recycled().last()
                &&& final(self).recycled() == old(self).recycled().drop_last()
                &&& final(self).current() == old(self).current()
            },
            old(self).recycled().len() == 0 ==> {
                &&& r == old(self).current()
                &&& final(self).recycled() == old(self).recycled()
                &&& final(self).current() == old(self).current() + 1
            },
            !old(self).in_use(r),
            final(self).in_use(r),
            forall|x: usize| x != r ==> (final(self).in_use(x) <==> old(self).in_use(x)),
    {
        let ghost old_rec = self.recycled@;
        match self.recycled.pop() {
            Some(id) => {
                proof {
                    assert(old_rec =~= self.recycled@.push(id));
                    assert(old_rec.contains(id)) by {
                        assert(old_rec[old_rec.len() - 1] == id);
                    }
                    assert forall|x: usize| #[trigger] self.recycled@.contains(x) implies old_rec.contains(x) && x != id by {
                        let m = choose|m: int| 0 <= m < self.recycled@.len() && self.recycled@[m] == x;
                        assert(old_rec[m] == x);
                        assert(old_rec[old_rec.len() - 1] == id);
                    }
                    assert forall|x: usize| old_rec.contains(x) && x != id implies #[trigger] self.recycled@.contains(x) by {
                        let m = choose|m: int| 0 <= m < old_rec.len() && old_rec[m] == x;
                        assert(self.recycled@[m] == x);
                    }
                }
                id
            },
            None => {
                self.current = self.current + 1;
                self.current - 1
            },
        }
    }

    /// Give an identifier back. It must be in use.
    pub fn dealloc(&mut self, id: usize)
        requires
            old(self).wf(),
            old(self).in_use(id),
        ensures
            final(self).wf(),
            final(self).current() == old(self).current(),
            final(self).recycled() == old(self).recycled().push(id),
            !final(self).in_use(id),
            forall|x: usize| x != id ==> (final(self).in_use(x) <==> old(self).in_use(x)),
    {
        let ghost old_rec = self.recycled@;
        self.recycled.push(id);
        proof {
            assert forall|x: usize| #[trigger] self.recycled@.contains(x) <==> (old_rec.contains(x) || x == id) by {
                if self.recycled@.contains(x) {
                    let m = choose|m: int| 0 <= m < self.recycled@.len() && self.recycled@[m] == x;
                    if m < old_rec.len() {
                        assert(old_rec[m] == x);
                    }
                }
                if old_rec.contains(x) {
                    let m = choose|m: int| 0 <= m < old_rec.len() && old_rec[m] == x;
                    assert(self.recycled@[m] == x);
                }
                if x == id {
                    assert(self.recycled@[old_rec.len() as int] == x);
                }
            }
        }
    }
}

/// Freeing an identifier and then allocating hands the same identifier out again
/// and leaves the allocator as it was before the identifier was freed: `before` is
/// the allocator, `freed` the allocator after `dealloc(id)`, and `after` the
/// allocator after `allocate` returned `r` on `freed`.
pub proof fn lemma_dealloc_then_allocate(
    before: RecycleAllocator,
    id: usize,
    freed: RecycleAllocator,
    after: RecycleAllocator,
    r: usize,
)
    requires
        freed.current() == before.current(),
        freed.recycled() == before.recycled().push(id),
        freed.recycled().len() > 0 ==> {
            &&& r == freed.recycled().last()
            &&& after.recycled() == freed.recycled().drop_last()
            &&& after.current() == freed.current()
        },
    ensures
        r == id,
        after.current() == before.current(),
        after.recycled() == before.recycled(),
{
    assert(freed.recycled().drop_last() =~= before.recycled());
}

/// Lowest address of the trap context page of thread `tid`.
pub open spec fn trap_cx_bottom(tid: usize) -> int {
    TRAP_CONTEXT_BASE - tid * PAGE_SIZE
}

/// Lowest address of the user stack of thread `tid`: stacks are laid out upwards
/// from `ustack_base`, separated by one guard page.
pub open spec fn ustack_bottom(ustack_base: usize, tid: usize) -> int {
    ustack_base + tid * (PAGE_SIZE + USER_STACK_SIZE)
}

/// The per-thread user resources: a thread id, and the base above which the user
/// stacks of the process lie.
#[derive(Clone, Copy, PartialEq, Eq, Structural)]
pub struct TaskUserRes {
    pub tid: usize,
    pub ustack_base: usize,
}

/// The user stack and trap context of a thread fit in the address space.
pub open spec fn user_res_fits(res: TaskUserRes) -> bool {
    &&& ustack_bottom(res.ustack_base, res.tid) + USER_STACK_SIZE <= usize::MAX
    &&& res.tid * PAGE_SIZE <= TRAP_CONTEXT_BASE
}

/// The area of the user stack of a thread.
pub open spec fn ustack_area(res: TaskUserRes) -> MapArea {
    let b = ustack_bottom(res.ustack_base, res.tid) as usize;
    MapArea {
        start_vpn: floor_of(va_of(b)),
        end_vpn: ceil_of(va_of((b + USER_STACK_SIZE) as usize)),
        perm: MapPermission { bits: (PERM_R | PERM_W) | PERM_U },
    }
}

/// The area of the trap context page of a thread.
pub open spec fn trap_cx_area(res: TaskUserRes) -> MapArea {
    let b = trap_cx_bottom(res.tid) as usize;
    MapArea {
        start_vpn: floor_of(va_of(b)),
        end_vpn: ceil_of(va_of((b + PAGE_SIZE) as usize)),
        perm: MapPermission { bits: PERM_R | PERM_W },
    }
}

/// No page of the given area is mapped by the areas.
pub open spec fn area_is_free(areas: Seq<MapArea>, a: MapArea) -> bool {
    forall|v: usize| a.start_vpn <= v < a.end_vpn ==> !is_mapped(areas, v)
}

impl TaskUserRes {
    /// Lowest address of the thread's trap context page.
    pub fn trap_cx_user_va(&self) -> (r: usize)
        requires
            user_res_fits(*self),
        ensures
            r == trap_cx_bottom(self.tid),
    {
        TRAP_CONTEXT_BASE - self.tid * PAGE_SIZE
    }

    /// The base of the user stacks.
    pub fn ustack_base(&self) -> (r: usize)
        ensures
            r == self.ustack_base,
    {
        self.ustack_base
    }

    /// The top of the thread's user stack.
    pub fn ustack_top(&self) -> (r: usize)
        requires
            user_res_fits(*self),
        ensures
            r == ustack_bottom(self.ustack_base, self.tid) + USER_STACK_SIZE,
    {
        self.ustack_base + self.tid * (PAGE_SIZE + USER_STACK_SIZE) + USER_STACK_SIZE
    }

    /// Whether the thread's user stack and trap context page fit in the address space.
    pub fn fits(&self) -> (r: bool)
        ensures
            r == user_res_fits(*self),
    {
        let off = match self.tid.checked_mul(PAGE_SIZE + USER_STACK_SIZE) {
            Some(x) => x,
            None => return false,
        };
        let bottom = match self.ustack_base.checked_add(off) {
            Some(x) => x,
            None => return false,
        };
        if bottom.checked_add(USER_STACK_SIZE).is_none() {
            return false;
        }
        match self.tid.checked_mul(PAGE_SIZE) {
            Some(x) => x <= TRAP_CONTEXT_BASE,
            None => false,
        }
    }

    /// The area of the thread's user stack.
    pub fn ustack_map_area(&self) -> (r: MapArea)
        requires
            user_res_fits(*self),
        ensures
            r == ustack_area(*self),
    {
        let b = self.ustack_base + self.tid * (PAGE_SIZE + USER_STACK_SIZE);
        MapArea {
            start_vpn: floor(virt_addr(b)),
            end_vpn: ceil(virt_addr(b + USER_STACK_SIZE)),
            perm: MapPermission { bits: (PERM_R | PERM_W) | PERM_U },
        }
    }

    /// The area of the thread's trap context page.
    pub fn trap_cx_map_area(&self) -> (r: MapArea)
        requires
            user_res_fits(*self),
        ensures
            r == trap_cx_area(*self),
    {
        let b = TRAP_CONTEXT_BASE - self.tid * PAGE_SIZE;
        MapArea {
            start_vpn: floor(virt_addr(b)),
            end_vpn: ceil(virt_addr(b + PAGE_SIZE)),
            perm: MapPermission { bits: PERM_R | PERM_W },
        }
    }

    /// Map the thread's user stack (readable, writable, user) and its trap context
    /// page (readable, writable) into the address space. Neither may overlap a
    /// mapping.
    pub fn alloc_user_res(&self, memory_set: &mut MemorySet)
        requires
            user_res_fits(*self),
            area_is_free(old(memory_set).areas(), ustack_area(*self)),
            area_is_free(old(memory_set).areas(), trap_cx_area(*self))
                && !areas_overlap(ustack_area(*self), trap_cx_area(*self)),
        ensures
            final(memory_set).areas() == old(memory_set).areas().push(ustack_area(*self)).push(trap_cx_area(*self)),
            final(memory_set).token_spec() == old(memory_set).token_spec(),
    {
        let ustack_bottom = self.ustack_base + self.tid * (PAGE_SIZE + USER_STACK_SIZE);
        let ustack_top = ustack_bottom + USER_STACK_SIZE;
        let rwu = MapPermission::from_bits(PERM_R).union(MapPermission::from_bits(PERM_W)).union(
            MapPermission::from_bits(PERM_U),
        );
        memory_set.insert_framed_area(virt_addr(ustack_bottom), virt_addr(ustack_top), rwu);
        let trap_cx_bottom = TRAP_CONTEXT_BASE - self.tid * PAGE_SIZE;
        let trap_cx_top = trap_cx_bottom + PAGE_SIZE;
        let rw = MapPermission::from_bits(PERM_R).union(MapPermission::from_bits(PERM_W));
        proof {
            let a = ustack_area(*self);
            let t = trap_cx_area(*self);
            assert forall|v: usize| t.start_vpn <= v < t.end_vpn implies !memory_set.maps(v) by {
                if memory_set.maps(v) {
                    let i = choose|i: int| 0 <= i < memory_set.areas().len() && crate::mm::area_maps(#[trigger] memory_set.areas()[i], v);
                    if i < old(memory_set).areas().len() {
                        assert(old(memory_set).areas()[i] == memory_set.areas()[i]);
                        assert(old(memory_set).maps(v));
                    }
                }
            }
        }
        memory_set.insert_framed_area(virt_addr(trap_cx_bottom), virt_addr(trap_cx_top), rw);
    }
}

/// Two areas share a page.
pub open spec fn areas_overlap(a: MapArea, b: MapArea) -> bool {
    &&& a.start_vpn < a.end_vpn
    &&& b.start_vpn < b.end_vpn
    &&& a.start_vpn < b.end_vpn
    &&& b.start_vpn < a.end_vpn
}

/// Whether two areas share a page.
pub fn overlap(a: MapArea, b: MapArea) -> (r: bool)
    ensures
        r == areas_overlap(a, b),
{
    a.start_vpn < a.end_vpn && b.start_vpn < b.end_vpn && a.start_vpn < b.end_vpn && b.start_vpn < a.end_vpn
}

/// Whether no page of an area is mapped in the address space.
pub fn area_free_in(memory_set: &MemorySet, a: MapArea) -> (r: bool)
    ensures
        r == area_is_free(memory_set.areas(), a),
{
    let r = memory_set.range_is_free(a.start_vpn, a.end_vpn);
    proof {
        if r {
            assert forall|v: usize| a.start_vpn <= v < a.end_vpn implies !is_mapped(memory_set.areas(), v) by {
                assert(!memory_set.maps(v));
            }
        } else {
            let v = choose|v: usize| a.start_vpn <= v < a.end_vpn && memory_set.maps(v);
            assert(is_mapped(memory_set.areas(), v));
        }
    }
    r
}

/// An area is free among the areas with one more pushed exactly when it is free
/// among the others and does not share a page with the new one.
pub proof fn lemma_free_after_push(areas: Seq<MapArea>, h: MapArea, a: MapArea)
    ensures
        area_is_free(areas.push(h), a) == (area_is_free(areas, a) && !areas_overlap(h, a)),
{
    let p = areas.push(h);
    if areas_overlap(h, a) {
        let v: usize = if h.start_vpn < a.start_vpn { a.start_vpn } else { h.start_vpn };
        assert(area_maps(p[areas.len() as int], v));
        assert(is_mapped(p, v));
    }
    if !area_is_free(areas, a) {
        let v = choose|v: usize| a.start_vpn <= v < a.end_vpn && is_mapped(areas, v);
        let i = choose|i: int| 0 <= i < areas.len() && area_maps(#[trigger] areas[i], v);
        assert(p[i] == areas[i]);
        assert(is_mapped(p, v));
    }
    if area_is_free(areas, a) && !areas_overlap(h, a) {
        assert forall|v: usize| a.start_vpn <= v < a.end_vpn implies !is_mapped(p, v) by {
            if is_mapped(p, v) {
                let i = choose|i: int| 0 <= i < p.len() && area_maps(#[trigger] p[i], v);
                if i < areas.len() {
                    assert(p[i] == areas[i]);
                    assert(is_mapped(areas, v));
                }
            }
        }
    }
}

} // verus!
