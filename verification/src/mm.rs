//! A page-granular model of a user address space: virtual addresses, page numbers,
//! permissions, and the framed areas of a memory set.
use vstd::prelude::*;
use crate::config::PAGE_SIZE;

verus! {

/// Width of an Sv39 virtual address.
pub const VA_WIDTH_SV39: usize = 39;

/// A virtual address as the hardware sees it: the low 39 bits of the word.
pub open spec fn va_of(v: usize) -> usize {
    (v as int % 0x80_0000_0000) as usize
}

/// The page that holds a virtual address.
pub open spec fn floor_of(va: usize) -> usize {
    (va / PAGE_SIZE) as usize
}

/// The first page at or above a virtual address.
pub open spec fn ceil_of(va: usize) -> usize {
    if va == 0 {
        0
    } else {
        ((va - 1 + PAGE_SIZE) / PAGE_SIZE as int) as usize
    }
}

/// Truncate a word to a 39-bit virtual address.
pub fn virt_addr(v: usize) -> (r: usize)
    ensures
        r == va_of(v),
        r < 0x80_0000_0000,
{
    let w = v as u64;
    let m = w & 0x7f_ffff_ffffu64;
    assert(w & 0x7f_ffff_ffffu64 == w % 0x80_0000_0000u64) by (bit_vector);
    assert(w & 0x7f_ffff_ffffu64 <= w) by (bit_vector);
    m as usize
}

/// The page number of a virtual address, rounded down.
pub fn floor(va: usize) -> (r: usize)
    ensures
        r == floor_of(va),
{
    va / PAGE_SIZE
}

/// The page number of a virtual address, rounded up.
pub fn ceil(va: usize) -> (r: usize)
    ensures
        r == ceil_of(va),
{
    if va == 0 {
        0
    } else {
        assert((va - 1 + PAGE_SIZE as int) / PAGE_SIZE as int == (va - 1) / PAGE_SIZE as int + 1);
        (va - 1) / PAGE_SIZE + 1
    }
}

/// Access rights of a mapping, as the flag bits of a page table entry.
#[derive(Clone, Copy, PartialEq, Eq, Structural)]
pub struct MapPermission {
    pub bits: u8,
}

/// Readable.
pub const PERM_R: u8 = 2;

/// Writable.
pub const PERM_W: u8 = 4;

/// Executable.
pub const PERM_X: u8 = 8;

/// Accessible from user mode.
pub const PERM_U: u8 = 16;

impl MapPermission {
    /// The permission with exactly the given flag bits.
    pub fn from_bits(bits: u8) -> (r: Self)
        ensures
            r.bits == bits,
    {
        MapPermission { bits }
    }

    /// The union of two permissions.
    pub fn union(self, other: Self) -> (r: Self)
        ensures
            r.bits == self.bits | other.bits,
    {
        MapPermission { bits: self.bits | other.bits }
    }

    /// Whether every flag of `other` is set.
    pub fn contains(self, other: Self) -> (r: bool)
        ensures
            r == (self.bits & other.bits == other.bits),
    {
        self.bits & other.bits == other.bits
    }
}

/// A contiguous range of mapped pages `start_vpn .. end_vpn` with one permission.
#[derive(Clone, Copy, PartialEq, Eq, Structural)]
pub struct MapArea {
    pub start_vpn: usize,
    pub end_vpn: usize,
    pub perm: MapPermission,
}

/// Whether an area maps a page.
pub open spec fn area_maps(a: MapArea, vpn: usize) -> bool {
    a.start_vpn <= vpn < a.end_vpn
}

/// Whether some area maps a page.
pub open spec fn is_mapped(areas: Seq<MapArea>, vpn: usize) -> bool {
    exists|i: int| 0 <= i < areas.len() && area_maps(#[trigger] areas[i], vpn)
}

/// The permission of the first of the first `n` areas that maps a page.
pub open spec fn first_perm(areas: Seq<MapArea>, vpn: usize, n: nat) -> Option<MapPermission>
    decreases n,
{
    if n == 0 {
        None
    } else {
        let before = first_perm(areas, vpn, (n - 1) as nat);
        if before.is_some() {
            before
        } else if area_maps(areas[n - 1], vpn) {
            Some(areas[n - 1].perm)
        } else {
            None
        }
    }
}

/// The index of the first of the first `n` areas that starts at a page.
pub open spec fn first_starting(areas: Seq<MapArea>, vpn: usize, n: nat) -> Option<int>
    decreases n,
{
    if n == 0 {
        None
    } else {
        let before = first_starting(areas, vpn, (n - 1) as nat);
        if before.is_some() {
            before
        } else if areas[n - 1].start_vpn == vpn {
            Some(n - 1)
        } else {
            None
        }
    }
}

/// The areas after the first one that starts at `vpn` is removed.
pub open spec fn without_area_at(areas: Seq<MapArea>, vpn: usize) -> Seq<MapArea> {
    match first_starting(areas, vpn, areas.len()) {
        Some(i) => areas.remove(i),
        None => areas,
    }
}

/// The areas after the first one that starts at `vpn` gets the new end page.
pub open spec fn with_area_end(areas: Seq<MapArea>, vpn: usize, end: usize) -> Seq<MapArea> {
    match first_starting(areas, vpn, areas.len()) {
        Some(i) => areas.update(i, MapArea { end_vpn: end, ..areas[i] }),
        None => areas,
    }
}

proof fn lemma_first_perm(areas: Seq<MapArea>, vpn: usize, n: nat)
    requires
        n <= areas.len(),
    ensures
        first_perm(areas, vpn, n).is_some() <==> exists|i: int| 0 <= i < n && area_maps(#[trigger] areas[i], vpn),
    decreases n,
{
    if n > 0 {
        lemma_first_perm(areas, vpn, (n - 1) as nat);
        if first_perm(areas, vpn, (n - 1) as nat).is_none() && !area_maps(areas[n - 1], vpn) {
            assert forall|i: int| 0 <= i < n implies !area_maps(#[trigger] areas[i], vpn) by {
                if i < n - 1 {
                }
            }
        }
    }
}

/// The area that `first_starting` finds is among the first `n` and starts at the page.
pub proof fn lemma_first_starting_found(areas: Seq<MapArea>, vpn: usize, n: nat)
    requires
        n <= areas.len(),
    ensures
        first_starting(areas, vpn, n) matches Some(i) ==> 0 <= i < n && areas[i].start_vpn == vpn,
    decreases n,
{
    if n > 0 {
        lemma_first_starting_found(areas, vpn, (n - 1) as nat);
    }
}

/// The user address space of a process: the token of its page table and its areas.
pub struct MemorySet {
    token: usize,
    areas: Vec<MapArea>,
}

impl MemorySet {
    /// The areas, in the order they were inserted.
    pub closed spec fn areas(&self) -> Seq<MapArea> {
        self.areas@
    }

    /// The token (satp value) of the page table.
    pub closed spec fn token_spec(&self) -> usize {
        self.token
    }

    /// Whether a page is mapped.
    pub open spec fn maps(&self, vpn: usize) -> bool {
        is_mapped(self.areas(), vpn)
    }

    /// An address space with no areas.
    pub fn new(token: usize) -> (r: Self)
        ensures
            r.areas() == Seq::<MapArea>::empty(),
            r.token_spec() == token,
    {
        MemorySet { token, areas: Vec::new() }
    }

    /// A copy of another address space under a new page table: the same areas (the
    /// page contents are copied by the page table code).
    pub fn from_existed_user(user_space: &MemorySet, token: usize) -> (r: Self)
        ensures
            r.areas() == user_space.areas(),
            r.token_spec() == token,
    {
        let mut areas: Vec<MapArea> = Vec::new();
        let mut i: usize = 0;
        while i < user_space.areas.len()
            invariant
                i <= user_space.areas@.len(),
                areas@ == user_space.areas@.take(i as int),
            decreases user_space.areas@.len() - i,
        {
            areas.push(user_space.areas[i]);
            i = i + 1;
            proof {
                assert(user_space.areas@.take(i as int) =~= user_space.areas@.take(i - 1).push(user_space.areas@[i - 1]));
            }
        }
        proof {
            assert(user_space.areas@.take(user_space.areas@.len() as int) =~= user_space.areas@);
        }
        MemorySet { token, areas }
    }

    /// The token of the page table.
    pub fn token(&self) -> (r: usize)
        ensures
            r == self.token_spec(),
    {
        self.token
    }

    /// The permission with which a page is mapped, if it is.
    pub fn translate(&self, vpn: usize) -> (r: Option<MapPermission>)
        ensures
            r == first_perm(self.areas(), vpn, self.areas().len()),
            r.is_some() <==> self.maps(vpn),
    {
        let mut i: usize = 0;
        while i < self.areas.len()
            invariant
                i <= self.areas@.len(),
                first_perm(self.areas@, vpn, i as nat).is_none(),
            decreases self.areas@.len() - i,
        {
            let a = self.areas[i];
            if a.start_vpn <= vpn && vpn < a.end_vpn {
                proof {
                    lemma_first_perm_stays(self.areas@, vpn, (i + 1) as nat, self.areas@.len());
                }
                return Some(a.perm);
            }
            i = i + 1;
        }
        proof {
            lemma_first_perm(self.areas@, vpn, self.areas@.len());
        }
        None
    }

    /// Map the pages from the one holding `start_va` up to the one holding the byte
    /// before `end_va`, as a new area. None of these pages may be mapped yet.
    pub fn insert_framed_area(&mut self, start_va: usize, end_va: usize, perm: MapPermission)
        requires
            forall|v: usize| floor_of(start_va) <= v < ceil_of(end_va) ==> !old(self).maps(v),
        ensures
            final(self).areas() == old(self).areas().push(
                MapArea { start_vpn: floor_of(start_va), end_vpn: ceil_of(end_va), perm },
            ),
            final(self).token_spec() == old(self).token_spec(),
    {
        let area = MapArea { start_vpn: floor(start_va), end_vpn: ceil(end_va), perm };
        self.areas.push(area);
    }

    /// Unmap the first area that starts at the given page, if there is one.
    pub fn remove_area_with_start_vpn(&mut self, start_vpn: usize)
        ensures
            final(self).areas() == without_area_at(old(self).areas(), start_vpn),
            final(self).token_spec() == old(self).token_spec(),
    {
        match self.find_area(start_vpn) {
            Some(i) => {
                self.areas.remove(i);
            },
            None => {},
        }
    }

    /// Index of the first area that starts at the given page.
    fn find_area(&self, start_vpn: usize) -> (r: Option<usize>)
        ensures
            r matches Some(i) ==> first_starting(self.areas(), start_vpn, self.areas().len()) == Some(i as int),
            r.is_none() ==> first_starting(self.areas(), start_vpn, self.areas().len()).is_none(),
            r matches Some(i) ==> i < self.areas().len(),
    {
        let mut i: usize = 0;
        while i < self.areas.len()
            invariant
                i <= self.areas@.len(),
                first_starting(self.areas@, start_vpn, i as nat).is_none(),
            decreases self.areas@.len() - i,
        {
            if self.areas[i].start_vpn == start_vpn {
                proof {
                    lemma_first_starting_stays(self.areas@, start_vpn, (i + 1) as nat, self.areas@.len());
                }
                return Some(i);
            }
            i = i + 1;
        }
        None
    }

    /// Whether no page from `lo` up to (not including) `hi` is mapped.
    pub fn range_is_free(&self, lo: usize, hi: usize) -> (r: bool)
        ensures
            r == (forall|v: usize| lo <= v < hi ==> !self.maps(v)),
    {
        let mut k: usize = 0;
        while k < self.areas.len()
            invariant
                k <= self.areas@.len(),
                forall|m: int, v: usize|
                    0 <= m < k && lo <= v < hi ==> !#[trigger] area_maps(self.areas@[m], v),
            decreases self.areas@.len() - k,
        {
            let a = self.areas[k];
            if a.start_vpn < a.end_vpn && lo < hi && a.start_vpn < hi && lo < a.end_vpn {
                proof {
                    let v: usize = if a.start_vpn < lo { lo } else { a.start_vpn };
                    assert(area_maps(self.areas@[k as int], v));
                    assert(self.maps(v));
                }
                return false;
            }
            k = k + 1;
        }
        true
    }

    /// Whether the first area that starts at page `start_vpn` can be extended to end
    /// at page `new_end` without reaching a page that some area maps already (true
    /// when no area starts there).
    pub fn can_grow(&self, start_vpn: usize, new_end: usize) -> (r: bool)
        ensures
            r == growth_is_free(self.areas(), start_vpn, new_end),
    {
        match self.find_area(start_vpn) {
            None => true,
            Some(i) => {
                let lo = self.areas[i].end_vpn;
                let r = self.range_is_free(lo, new_end);
                proof {
                    assert(self.areas()[i as int].end_vpn == lo);
                    if !r {
                        let v = choose|v: usize| lo <= v < new_end && self.maps(v);
                        assert(is_mapped(self.areas(), v));
                    } else {
                        assert forall|v: usize| self.areas()[i as int].end_vpn <= v < new_end implies
                            !is_mapped(self.areas(), v) by {
                            assert(!self.maps(v));
                        }
                    }
                    assert(first_starting(self.areas(), start_vpn, self.areas().len()) == Some(i as int));
                }
                r
            },
        }
    }

    /// Shrink the area that starts at the page of `start_va` so that it ends at the
    /// page of `new_end_va`; false when no area starts there.
    pub fn shrink_to(&mut self, start_va: usize, new_end_va: usize) -> (r: bool)
        ensures
            r == first_starting(old(self).areas(), floor_of(start_va), old(self).areas().len()).is_some(),
            final(self).areas() == with_area_end(old(self).areas(), floor_of(start_va), ceil_of(new_end_va)),
            final(self).token_spec() == old(self).token_spec(),
    {
        self.set_area_end(start_va, new_end_va)
    }

    /// Extend the area that starts at the page of `start_va` so that it ends at the
    /// page of `new_end_va`; false when no area starts there. The pages it grows
    /// into may not be mapped yet.
    pub fn append_to(&mut self, start_va: usize, new_end_va: usize) -> (r: bool)
        requires
            growth_is_free(old(self).areas(), floor_of(start_va), ceil_of(new_end_va)),
        ensures
            r == first_starting(old(self).areas(), floor_of(start_va), old(self).areas().len()).is_some(),
            final(self).areas() == with_area_end(old(self).areas(), floor_of(start_va), ceil_of(new_end_va)),
            final(self).token_spec() == old(self).token_spec(),
    {
        self.set_area_end(start_va, new_end_va)
    }

    fn set_area_end(&mut self, start_va: usize, new_end_va: usize) -> (r: bool)
        ensures
            r == first_starting(old(self).areas(), floor_of(start_va), old(self).areas().len()).is_some(),
            final(self).areas() == with_area_end(old(self).areas(), floor_of(start_va), ceil_of(new_end_va)),
            final(self).token_spec() == old(self).token_spec(),
    {
        let start_vpn = floor(start_va);
        let new_end = ceil(new_end_va);
        match self.find_area(start_vpn) {
            Some(i) => {
                let a = self.areas[i];
                self.areas.set(i, MapArea { end_vpn: new_end, ..a });
                true
            },
            None => false,
        }
    }
}

/// The pages that the first area starting at `start_vpn` would grow into when it
/// were made to end at `new_end` are not mapped.
pub open spec fn growth_is_free(areas: Seq<MapArea>, start_vpn: usize, new_end: usize) -> bool {
    match first_starting(areas, start_vpn, areas.len()) {
        Some(i) => forall|v: usize| areas[i].end_vpn <= v < new_end ==> !is_mapped(areas, v),
        None => true,
    }
}

proof fn lemma_first_perm_stays(areas: Seq<MapArea>, vpn: usize, n: nat, m: nat)
    requires
        1 <= n <= m <= areas.len(),
        first_perm(areas, vpn, (n - 1) as nat).is_none(),
        area_maps(areas[n - 1], vpn),
    ensures
        first_perm(areas, vpn, m) == Some(areas[n - 1].perm),
    decreases m,
{
    if m > n {
        lemma_first_perm_stays(areas, vpn, n, (m - 1) as nat);
    }
}

proof fn lemma_first_starting_stays(areas: Seq<MapArea>, vpn: usize, n: nat, m: nat)
    requires
        1 <= n <= m <= areas.len(),
        first_starting(areas, vpn, (n - 1) as nat).is_none(),
        areas[n - 1].start_vpn == vpn,
    ensures
        first_starting(areas, vpn, m) == Some(n - 1),
    decreases m,
{
    if m > n {
        lemma_first_starting_stays(areas, vpn, n, (m - 1) as nat);
    }
}

} // verus!
