//! A model of a user address space: framed regions of whole pages, each with
//! a permission set and its bytes.
use vstd::prelude::*;

verus! {

/// Bytes in a page.
pub const PAGE_SIZE: usize = 4096;

/// One past the highest page number that a region may reach: every address
/// of such a page fits in a `usize`.
pub const MAX_VPN: usize = usize::MAX / PAGE_SIZE;

/// One past the highest address that a region may cover.
pub const USER_END: usize = MAX_VPN * PAGE_SIZE;

/// Mode bits that mark a page-table token as three-level paging.
pub const SATP_MODE: u64 = 0x8000_0000_0000_0000;

/// A virtual page number.
#[derive(Clone, Copy, Debug, PartialEq, Eq, Structural)]
pub struct VirtPageNum(pub usize);

/// Access rights of a mapped region.
#[derive(Clone, Copy, Debug, PartialEq, Eq, Structural)]
pub struct MapPermission {
    pub readable: bool,
    pub writable: bool,
    pub executable: bool,
    pub user: bool,
}

/// A mapped region as the contracts see it: first page, one past the last
/// page, rights, and the bytes of its pages.
pub type AreaView = (usize, usize, MapPermission, Seq<u8>);

/// A framed region of pages `[start, end)`.
pub struct MapArea {
    start: usize,
    end: usize,
    perm: MapPermission,
    data: Vec<u8>,
}

impl View for MapArea {
    type V = AreaView;

    closed spec fn view(&self) -> AreaView {
        (self.start, self.end, self.perm, self.data@)
    }
}

/// The page table token of the space rooted at `root_ppn`.
pub open spec fn satp_of(root_ppn: usize) -> u64 {
    SATP_MODE | (root_ppn as u64)
}

/// Page ranges `[a, b)` and `[c, d)` share a page.
pub open spec fn overlaps(a: usize, b: usize, c: usize, d: usize) -> bool {
    a < b && c < d && a < d && c < b
}

/// A region is well formed: ordered bounds on addressable pages, one page of
/// bytes per page.
pub open spec fn area_wf(a: AreaView) -> bool {
    &&& a.0 <= a.1 <= MAX_VPN
    &&& a.3.len() == (a.1 - a.0) * PAGE_SIZE
}

/// No region of `v` shares a page with `[s, e)`.
pub open spec fn range_free(v: Seq<AreaView>, s: usize, e: usize) -> bool {
    forall|i: int| 0 <= i < v.len() ==> !overlaps(#[trigger] v[i].0, v[i].1, s, e)
}

/// Every region is well formed and no two share a page.
pub open spec fn space_wf(v: Seq<AreaView>) -> bool {
    &&& forall|i: int| 0 <= i < v.len() ==> area_wf(#[trigger] v[i])
    &&& forall|i: int, j: int|
        0 <= i < v.len() && 0 <= j < v.len() && i != j ==> !overlaps(
            #[trigger] v[i].0,
            v[i].1,
            #[trigger] v[j].0,
            v[j].1,
        )
}

/// A fresh region of zeroed pages.
pub open spec fn zero_area(s: usize, e: usize, perm: MapPermission) -> AreaView {
    (s, e, perm, Seq::new(((e - s) * PAGE_SIZE) as nat, |i: int| 0u8))
}

/// Index of the last region of `v` with bounds `[s, e)`, or -1.
pub open spec fn last_match(v: Seq<AreaView>, s: usize, e: usize) -> int
    decreases v.len(),
{
    if v.len() == 0 {
        -1
    } else if v.last().0 == s && v.last().1 == e {
        v.len() - 1
    } else {
        last_match(v.drop_last(), s, e)
    }
}

/// Index of the last region of `v` that starts at page `s`, or -1.
pub open spec fn last_start(v: Seq<AreaView>, s: usize) -> int
    decreases v.len(),
{
    if v.len() == 0 {
        -1
    } else if v.last().0 == s {
        v.len() - 1
    } else {
        last_start(v.drop_last(), s)
    }
}

/// Index of the region of `v` holding page `p`, or -1.
pub open spec fn area_of(v: Seq<AreaView>, p: usize) -> int
    decreases v.len(),
{
    if v.len() == 0 {
        -1
    } else if v.last().0 <= p < v.last().1 {
        v.len() - 1
    } else {
        area_of(v.drop_last(), p)
    }
}

/// `v` without the region `[s, e)` (the last such one), if there is one.
pub open spec fn unmap_view(v: Seq<AreaView>, s: usize, e: usize) -> Seq<AreaView> {
    if last_match(v, s, e) < 0 {
        v
    } else {
        v.remove(last_match(v, s, e))
    }
}

/// `v` with the region starting at `s` grown to end at `e`, if that region
/// exists, `e` is not below its end, and the new pages are free.
pub open spec fn grow_view(v: Seq<AreaView>, s: usize, e: usize) -> Option<Seq<AreaView>> {
    let i = last_start(v, s);
    if i >= 0 && v[i].1 <= e <= MAX_VPN && range_free(v, v[i].1, e) {
        Some(v.update(i, (s, e, v[i].2, v[i].3 + zero_area(v[i].1, e, v[i].2).3)))
    } else {
        None
    }
}

/// `v` with the region starting at `s` cut to end at `e`, if that region
/// exists and `e` lies within it.
pub open spec fn shrink_view(v: Seq<AreaView>, s: usize, e: usize) -> Option<Seq<AreaView>> {
    let i = last_start(v, s);
    if i >= 0 && s <= e <= v[i].1 {
        Some(v.update(i, (s, e, v[i].2, v[i].3.take((e - s) * PAGE_SIZE))))
    } else {
        None
    }
}

/// The byte at address `va`, if its page is mapped.
pub open spec fn byte_at(v: Seq<AreaView>, va: usize) -> Option<u8> {
    let i = area_of(v, va / PAGE_SIZE);
    if i < 0 {
        None
    } else {
        Some(v[i].3[va - v[i].0 * PAGE_SIZE])
    }
}

/// `v` with the byte at `va` set to `b`, if its page is mapped.
pub open spec fn write_view(v: Seq<AreaView>, va: usize, b: u8) -> Seq<AreaView> {
    let i = area_of(v, va / PAGE_SIZE);
    if i < 0 {
        v
    } else {
        v.update(i, (v[i].0, v[i].1, v[i].2, v[i].3.update(va - v[i].0 * PAGE_SIZE, b)))
    }
}

proof fn lemma_last_match(v: Seq<AreaView>, s: usize, e: usize, k: int)
    requires
        -1 <= k < v.len(),
        k >= 0 ==> v[k].0 == s && v[k].1 == e,
        forall|j: int| k < j < v.len() ==> !(#[trigger] v[j].0 == s && v[j].1 == e),
    ensures
        last_match(v, s, e) == k,
    decreases v.len(),
{
    if v.len() > 0 && k < v.len() - 1 {
        assert(!(v[v.len() - 1].0 == s && v[v.len() - 1].1 == e));
        lemma_last_match(v.drop_last(), s, e, k);
    }
}

proof fn lemma_last_start(v: Seq<AreaView>, s: usize, k: int)
    requires
        -1 <= k < v.len(),
        k >= 0 ==> v[k].0 == s,
        forall|j: int| k < j < v.len() ==> #[trigger] v[j].0 != s,
    ensures
        last_start(v, s) == k,
    decreases v.len(),
{
    if v.len() > 0 && k < v.len() - 1 {
        assert(v[v.len() - 1].0 != s);
        lemma_last_start(v.drop_last(), s, k);
    }
}

proof fn lemma_area_of(v: Seq<AreaView>, p: usize, k: int)
    requires
        -1 <= k < v.len(),
        k >= 0 ==> v[k].0 <= p < v[k].1,
        forall|j: int| k < j < v.len() ==> !(#[trigger] v[j].0 <= p && p < v[j].1),
    ensures
        area_of(v, p) == k,
    decreases v.len(),
{
    if v.len() > 0 && k < v.len() - 1 {
        assert(!(v[v.len() - 1].0 <= p && p < v[v.len() - 1].1));
        lemma_area_of(v.drop_last(), p, k);
    }
}

proof fn lemma_wf_remove(v: Seq<AreaView>, i: int)
    requires
        space_wf(v),
        0 <= i < v.len(),
    ensures
        space_wf(v.remove(i)),
{
    let w = v.remove(i);
    assert forall|a: int| 0 <= a < w.len() implies area_wf(#[trigger] w[a]) by {
        if a < i {
            assert(w[a] == v[a]);
        } else {
            assert(w[a] == v[a + 1]);
        }
    }
    assert forall|a: int, b: int|
        0 <= a < w.len() && 0 <= b < w.len() && a != b implies !overlaps(
        #[trigger] w[a].0,
        w[a].1,
        #[trigger] w[b].0,
        w[b].1,
    ) by {
        let a2 = if a < i { a } else { a + 1 };
        let b2 = if b < i { b } else { b + 1 };
        assert(w[a] == v[a2] && w[b] == v[b2]);
    }
}

proof fn lemma_area_of_same_bounds(v: Seq<AreaView>, w: Seq<AreaView>, p: usize)
    requires
        v.len() == w.len(),
        forall|j: int| 0 <= j < v.len() ==> #[trigger] v[j].0 == w[j].0 && v[j].1 == w[j].1,
    ensures
        area_of(v, p) == area_of(w, p),
    decreases v.len(),
{
    if v.len() > 0 {
        let (dv, dw) = (v.drop_last(), w.drop_last());
        assert forall|j: int| 0 <= j < dv.len() implies #[trigger] dv[j].0 == dw[j].0 && dv[j].1 == dw[j].1 by {
            assert(dv[j] == v[j] && dw[j] == w[j]);
        }
        lemma_area_of_same_bounds(dv, dw, p);
    }
}

proof fn lemma_area_of_bounds(v: Seq<AreaView>, p: usize)
    ensures
        -1 <= area_of(v, p) < v.len(),
        area_of(v, p) >= 0 ==> v[area_of(v, p)].0 <= p < v[area_of(v, p)].1,
    decreases v.len(),
{
    if v.len() > 0 {
        lemma_area_of_bounds(v.drop_last(), p);
    }
}

/// Writing a byte into a mapped page of one space changes that byte and no
/// other, and leaves every other space alone: after a copy (as `fork` makes),
/// a write to the parent's region is seen by the parent only.
pub proof fn lemma_write_is_local(v: Seq<AreaView>, va: usize, b: u8, other: usize)
    requires
        space_wf(v),
        byte_at(v, va) is Some,
    ensures
        byte_at(write_view(v, va, b), va) == Some(b),
        other != va ==> byte_at(write_view(v, va, b), other) == byte_at(v, other),
{
    let w = write_view(v, va, b);
    let i = area_of(v, va / PAGE_SIZE);
    lemma_area_of_bounds(v, va / PAGE_SIZE);
    assert forall|j: int| 0 <= j < v.len() implies #[trigger] v[j].0 == w[j].0 && v[j].1 == w[j].1 by {}
    lemma_area_of_same_bounds(v, w, va / PAGE_SIZE);
    lemma_area_of_same_bounds(v, w, other / PAGE_SIZE);
    lemma_area_of_bounds(v, other / PAGE_SIZE);
    assert(area_wf(v[i]));
    assert(va - v[i].0 * PAGE_SIZE < v[i].3.len()) by (nonlinear_arith)
        requires
            v[i].0 <= va / PAGE_SIZE < v[i].1,
            v[i].3.len() == (v[i].1 - v[i].0) * PAGE_SIZE,
            PAGE_SIZE == 4096,
    ;
    assert(v[i].0 * PAGE_SIZE <= va) by (nonlinear_arith)
        requires
            v[i].0 <= va / PAGE_SIZE,
            PAGE_SIZE == 4096,
    ;
    let k = area_of(v, other / PAGE_SIZE);
    if other != va && k >= 0 {
        if k == i {
            assert(v[i].0 * PAGE_SIZE <= other) by (nonlinear_arith)
                requires
                    v[i].0 <= other / PAGE_SIZE,
                    PAGE_SIZE == 4096,
            ;
        }
    }
}

/// A vector of `n` zero bytes.
fn zeros(n: usize) -> (r: Vec<u8>)
    ensures
        r@ == Seq::new(n as nat, |i: int| 0u8),
{
    let mut r: Vec<u8> = Vec::new();
    while r.len() < n
        invariant
            r.len() <= n,
            forall|i: int| 0 <= i < r.len() ==> r@[i] == 0u8,
        decreases n - r.len(),
    {
        r.push(0u8);
    }
    assert(r@ =~= Seq::new(n as nat, |i: int| 0u8));
    r
}

/// A copy of the bytes of `v`.
fn copy_bytes(v: &Vec<u8>) -> (r: Vec<u8>)
    ensures
        r@ == v@,
{
    let mut r: Vec<u8> = Vec::new();
    let mut i: usize = 0;
    while i < v.len()
        invariant
            i <= v.len(),
            r@ == v@.take(i as int),
        decreases v.len() - i,
    {
        r.push(v[i]);
        i += 1;
        assert(r@ =~= v@.take(i as int));
    }
    assert(r@ =~= v@);
    r
}

/// A user address space: the root page of its page table and its regions.
pub struct MemorySet {
    root_ppn: usize,
    areas: Vec<MapArea>,
}

impl View for MemorySet {
    type V = Seq<AreaView>;

    closed spec fn view(&self) -> Seq<AreaView> {
        self.areas@.map_values(|a: MapArea| a@)
    }
}

impl MemorySet {
    /// Root page of the page table.
    pub closed spec fn root(&self) -> usize {
        self.root_ppn
    }

    /// The regions are well formed and disjoint.
    pub open spec fn wf(&self) -> bool {
        space_wf(self@)
    }

    /// An address space with no regions, rooted at page `root_ppn`.
    pub fn new_bare(root_ppn: usize) -> (r: Self)
        ensures
            r.wf(),
            r@ == Seq::<AreaView>::empty(),
            r.root() == root_ppn,
    {
        let r = MemorySet { root_ppn, areas: Vec::new() };
        assert(r@ =~= Seq::<AreaView>::empty());
        r
    }

    /// The token that names this space to address translation.
    pub fn token(&self) -> (r: u64)
        ensures
            r == satp_of(self.root()),
    {
        SATP_MODE | (self.root_ppn as u64)
    }

    /// Whether no region shares a page with `[s, e)`.
    pub fn is_free(&self, s: usize, e: usize) -> (b: bool)
        ensures
            b == range_free(self@, s, e),
    {
        let mut i: usize = 0;
        while i < self.areas.len()
            invariant
                i <= self.areas.len(),
                self@.len() == self.areas@.len(),
                forall|j: int| 0 <= j < i ==> !overlaps(#[trigger] self@[j].0, self@[j].1, s, e),
            decreases self.areas.len() - i,
        {
            let a = &self.areas[i];
            if a.start < a.end && s < e && a.start < e && s < a.end {
                assert(overlaps(self@[i as int].0, self@[i as int].1, s, e));
                return false;
            }
            i += 1;
        }
        true
    }

    /// Maps the pages `[s, e)` as a new region of zeroed frames with rights `perm`.
    pub fn insert_framed_area(&mut self, s: usize, e: usize, perm: MapPermission)
        requires
            old(self).wf(),
            s <= e <= MAX_VPN,
            range_free(old(self)@, s, e),
        ensures
            final(self).wf(),
            final(self)@ == old(self)@.push(zero_area(s, e, perm)),
            final(self).root() == old(self).root(),
    {
        let data = zeros((e - s) * PAGE_SIZE);
        let area = MapArea { start: s, end: e, perm, data };
        let ghost before = self@;
        self.areas.push(area);
        assert(self@ =~= before.push(zero_area(s, e, perm)));
        assert forall|i: int, j: int|
            0 <= i < self@.len() && 0 <= j < self@.len() && i != j implies !overlaps(
            #[trigger] self@[i].0,
            self@[i].1,
            #[trigger] self@[j].0,
            self@[j].1,
        ) by {
            if i < before.len() && j < before.len() {
                assert(self@[i] == before[i] && self@[j] == before[j]);
            } else if i < before.len() {
                assert(self@[i] == before[i]);
            } else {
                assert(self@[j] == before[j]);
            }
        }
    }

    fn find_match(&self, s: usize, e: usize) -> (r: Option<usize>)
        ensures
            match r {
                Some(i) => i == last_match(self@, s, e) && i < self@.len(),
                None => last_match(self@, s, e) == -1,
            },
    {
        let mut i: usize = self.areas.len();
        while i > 0
            invariant
                i <= self.areas.len(),
                self@.len() == self.areas@.len(),
                forall|j: int| i <= j < self@.len() ==> !(#[trigger] self@[j].0 == s && self@[j].1 == e),
            decreases i,
        {
            i -= 1;
            if self.areas[i].start == s && self.areas[i].end == e {
                proof {
                    lemma_last_match(self@, s, e, i as int);
                }
                return Some(i);
            }
        }
        proof {
            lemma_last_match(self@, s, e, -1);
        }
        None
    }

    fn find_start(&self, s: usize) -> (r: Option<usize>)
        ensures
            match r {
                Some(i) => i == last_start(self@, s) && i < self@.len() && self@[i as int].0 == s,
                None => last_start(self@, s) == -1,
            },
    {
        let mut i: usize = self.areas.len();
        while i > 0
            invariant
                i <= self.areas.len(),
                self@.len() == self.areas@.len(),
                forall|j: int| i <= j < self@.len() ==> #[trigger] self@[j].0 != s,
            decreases i,
        {
            i -= 1;
            if self.areas[i].start == s {
                proof {
                    lemma_last_start(self@, s, i as int);
                }
                return Some(i);
            }
        }
        proof {
            lemma_last_start(self@, s, -1);
        }
        None
    }

    fn find_page(&self, p: usize) -> (r: Option<usize>)
        ensures
            match r {
                Some(i) => i == area_of(self@, p) && i < self@.len() && self@[i as int].0 <= p
                    < self@[i as int].1,
                None => area_of(self@, p) == -1,
            },
    {
        let mut i: usize = self.areas.len();
        while i > 0
            invariant
                i <= self.areas.len(),
                self@.len() == self.areas@.len(),
                forall|j: int| i <= j < self@.len() ==> !(#[trigger] self@[j].0 <= p && p < self@[j].1),
            decreases i,
        {
            i -= 1;
            if self.areas[i].start <= p && p < self.areas[i].end {
                proof {
                    lemma_area_of(self@, p, i as int);
                }
                return Some(i);
            }
        }
        proof {
            lemma_area_of(self@, p, -1);
        }
        None
    }

    /// Unmaps the region with bounds exactly `[s, e)` (the most recently mapped
    /// one, if several); returns whether there was one.
    pub fn remove_area(&mut self, s: usize, e: usize) -> (found: bool)
        requires
            old(self).wf(),
        ensures
            final(self).wf(),
            found == (last_match(old(self)@, s, e) >= 0),
            final(self)@ == unmap_view(old(self)@, s, e),
            final(self).root() == old(self).root(),
    {
        match self.find_match(s, e) {
            Some(i) => {
                let ghost before = self@;
                self.areas.remove(i);
                proof {
                    assert(self@ =~= before.remove(i as int));
                    lemma_wf_remove(before, i as int);
                }
                true
            },
            None => false,
        }
    }

    /// Grows the region that starts at page `s` so that it ends at page `e`,
    /// mapping zeroed frames for the new pages; returns whether it could.
    pub fn append_to(&mut self, s: usize, e: usize) -> (ok: bool)
        requires
            old(self).wf(),
        ensures
            final(self).wf(),
            ok == grow_view(old(self)@, s, e) is Some,
            ok ==> final(self)@ == grow_view(old(self)@, s, e).unwrap(),
            !ok ==> final(self)@ == old(self)@,
            final(self).root() == old(self).root(),
    {
        let i = match self.find_start(s) {
            Some(i) => i,
            None => {
                return false;
            },
        };
        let old_end = self.areas[i].end;
        if e < old_end || e > MAX_VPN || !self.is_free(old_end, e) {
            return false;
        }
        let ghost before = self@;
        let ghost ba = self.areas@;
        let mut area = self.areas.remove(i);
        let extra = zeros((e - old_end) * PAGE_SIZE);
        let mut k: usize = 0;
        let ghost base = area.data@;
        let ghost a0 = area@;
        while k < extra.len()
            invariant
                k <= extra.len(),
                area.start == a0.0,
                area.perm == a0.2,
                area.data@ == base + extra@.take(k as int),
            decreases extra.len() - k,
        {
            area.data.push(extra[k]);
            k += 1;
            assert(area.data@ =~= base + extra@.take(k as int));
        }
        area.end = e;
        let ghost na = area@;
        self.areas.insert(i, area);
        proof {
            assert(self.areas@ =~= ba.update(i as int, self.areas@[i as int]));
            assert(self@ =~= before.update(i as int, na));
            assert(extra@.take(k as int) =~= extra@);
            assert(before[i as int].0 == s);
            assert(old_end == before[i as int].1);
            assert(base == before[i as int].3);
            assert(na.3 =~= before[i as int].3 + zero_area(old_end, e, before[i as int].2).3);
            assert(i == last_start(before, s));
            assert(range_free(before, old_end, e));
            assert(grow_view(before, s, e) is Some);
            assert(na.0 == s && na.1 == e && na.2 == before[i as int].2);
            let target = grow_view(before, s, e).unwrap();
            assert(target[i as int] == na);
            assert(self@ =~= target);
            assert forall|a: int, b: int|
                0 <= a < self@.len() && 0 <= b < self@.len() && a != b implies !overlaps(
                #[trigger] self@[a].0,
                self@[a].1,
                #[trigger] self@[b].0,
                self@[b].1,
            ) by {
                if a != i && b != i {
                    assert(self@[a] == before[a] && self@[b] == before[b]);
                } else if a == i {
                    assert(self@[b] == before[b]);
                    assert(!overlaps(before[b].0, before[b].1, before[a].0, before[a].1));
                    assert(!overlaps(before[b].0, before[b].1, old_end, e));
                } else {
                    assert(self@[a] == before[a]);
                    assert(!overlaps(before[a].0, before[a].1, before[b].0, before[b].1));
                    assert(!overlaps(before[a].0, before[a].1, old_end, e));
                }
            }
            assert forall|a: int| 0 <= a < self@.len() implies area_wf(#[trigger] self@[a]) by {
                if a != i {
                    assert(self@[a] == before[a]);
                } else {
                    assert(area_wf(before[a]));
                    assert((e - s) * PAGE_SIZE == (old_end - s) * PAGE_SIZE + (e - old_end) * PAGE_SIZE) by (nonlinear_arith)
                        requires s <= old_end <= e;
                }
            }
        }
        true
    }

    /// Cuts the region that starts at page `s` so that it ends at page `e`,
    /// unmapping the pages past `e`; returns whether it could.
    pub fn shrink_to(&mut self, s: usize, e: usize) -> (ok: bool)
        requires
            old(self).wf(),
        ensures
            final(self).wf(),
            ok == shrink_view(old(self)@, s, e) is Some,
            ok ==> final(self)@ == shrink_view(old(self)@, s, e).unwrap(),
            !ok ==> final(self)@ == old(self)@,
            final(self).root() == old(self).root(),
    {
        let i = match self.find_start(s) {
            Some(i) => i,
            None => {
                return false;
            },
        };
        if e < s || e > self.areas[i].end {
            return false;
        }
        let ghost before = self@;
        let ghost ba = self.areas@;
        let mut area = self.areas.remove(i);
        proof {
            assert(area_wf(before[i as int]));
            assert((e - s) * PAGE_SIZE <= (before[i as int].1 - s) * PAGE_SIZE) by (nonlinear_arith)
                requires s <= e <= before[i as int].1;
        }
        area.data.truncate((e - s) * PAGE_SIZE);
        area.end = e;
        let ghost na = area@;
        self.areas.insert(i, area);
        proof {
            assert(self.areas@ =~= ba.update(i as int, self.areas@[i as int]));
            assert(self@ =~= before.update(i as int, na));
            let target = shrink_view(before, s, e).unwrap();
            assert(self@ =~= target);
            assert forall|a: int, b: int|
                0 <= a < self@.len() && 0 <= b < self@.len() && a != b implies !overlaps(
                #[trigger] self@[a].0,
                self@[a].1,
                #[trigger] self@[b].0,
                self@[b].1,
            ) by {
                assert(!overlaps(before[a].0, before[a].1, before[b].0, before[b].1));
            }
            assert forall|a: int| 0 <= a < self@.len() implies area_wf(#[trigger] self@[a]) by {
                assert(area_wf(before[a]));
            }
        }
        true
    }

    /// The byte at address `va`, if its page is mapped.
    pub fn read_byte(&self, va: usize) -> (r: Option<u8>)
        requires
            self.wf(),
        ensures
            r == byte_at(self@, va),
    {
        match self.find_page(va / PAGE_SIZE) {
            Some(i) => {
                proof {
                    assert(area_wf(self@[i as int]));
                    let a = self@[i as int];
                    assert(va - a.0 * PAGE_SIZE < (a.1 - a.0) * PAGE_SIZE) by (nonlinear_arith)
                        requires a.0 <= va / PAGE_SIZE < a.1, PAGE_SIZE == 4096;
                    assert(a.0 * PAGE_SIZE <= va) by (nonlinear_arith)
                        requires a.0 <= va / PAGE_SIZE, PAGE_SIZE == 4096;
                }
                let off = va - self.areas[i].start * PAGE_SIZE;
                Some(self.areas[i].data[off])
            },
            None => None,
        }
    }

    /// Sets the byte at address `va` to `b`; returns whether its page is mapped.
    pub fn write_byte(&mut self, va: usize, b: u8) -> (ok: bool)
        requires
            old(self).wf(),
        ensures
            final(self).wf(),
            ok == byte_at(old(self)@, va) is Some,
            final(self)@ == write_view(old(self)@, va, b),
            final(self).root() == old(self).root(),
    {
        match self.find_page(va / PAGE_SIZE) {
            Some(i) => {
                let ghost before = self@;
                proof {
                    assert(area_wf(self@[i as int]));
                    let a = self@[i as int];
                    assert(va - a.0 * PAGE_SIZE < (a.1 - a.0) * PAGE_SIZE) by (nonlinear_arith)
                        requires a.0 <= va / PAGE_SIZE < a.1, PAGE_SIZE == 4096;
                    assert(a.0 * PAGE_SIZE <= va) by (nonlinear_arith)
                        requires a.0 <= va / PAGE_SIZE, PAGE_SIZE == 4096;
                }
                let ghost ba = self.areas@;
                let mut area = self.areas.remove(i);
                let off = va - area.start * PAGE_SIZE;
                area.data.set(off, b);
                let ghost na = area@;
                self.areas.insert(i, area);
                proof {
                    assert(self.areas@ =~= ba.update(i as int, self.areas@[i as int]));
                    assert(self@ =~= before.update(i as int, na));
                    assert(self@ =~= write_view(before, va, b));
                    assert forall|a: int, c: int|
                        0 <= a < self@.len() && 0 <= c < self@.len() && a != c implies !overlaps(
                        #[trigger] self@[a].0,
                        self@[a].1,
                        #[trigger] self@[c].0,
                        self@[c].1,
                    ) by {
                        assert(!overlaps(before[a].0, before[a].1, before[c].0, before[c].1));
                    }
                    assert forall|a: int| 0 <= a < self@.len() implies area_wf(#[trigger] self@[a]) by {
                        assert(area_wf(before[a]));
                    }
                }
                true
            },
            None => false,
        }
    }

    /// A copy of this space, with the same regions and bytes, rooted at page
    /// `root_ppn`; later writes to either leave the other as it is.
    pub fn from_existed_user(&self, root_ppn: usize) -> (r: Self)
        requires
            self.wf(),
        ensures
            r.wf(),
            r@ == self@,
            r.root() == root_ppn,
    {
        let mut areas: Vec<MapArea> = Vec::new();
        let mut i: usize = 0;
        while i < self.areas.len()
            invariant
                i <= self.areas.len(),
                self@.len() == self.areas@.len(),
                areas@.map_values(|a: MapArea| a@) == self@.take(i as int),
            decreases self.areas.len() - i,
        {
            let a = &self.areas[i];
            let copy = MapArea { start: a.start, end: a.end, perm: a.perm, data: copy_bytes(&a.data) };
            let ghost before = areas@;
            assert(copy@ == self@[i as int]);
            areas.push(copy);
            assert(areas@.map_values(|a: MapArea| a@) =~= before.map_values(|a: MapArea| a@).push(
                self@[i as int],
            ));
            i += 1;
            assert(areas@.map_values(|a: MapArea| a@) =~= self@.take(i as int));
        }
        let r = MemorySet { root_ppn, areas };
        assert(r@ =~= self@);
        r
    }

    /// Number of regions.
    pub fn region_count(&self) -> (r: usize)
        ensures
            r == self@.len(),
    {
        self.areas.len()
    }

    /// First page, end page and rights of region `i`.
    pub fn region(&self, i: usize) -> (r: (usize, usize, MapPermission))
        requires
            i < self@.len(),
        ensures
            r == (self@[i as int].0, self@[i as int].1, self@[i as int].2),
    {
        (self.areas[i].start, self.areas[i].end, self.areas[i].perm)
    }
}

} // verus!
