//! User address spaces at page granularity, `mmap` and `munmap`, and the
//! physical frame allocator.
use vstd::prelude::*;
use crate::process::SIGSEGV;

verus! {

pub const PAGE_SIZE: usize = 4096;

/// Permission bits of a mapping, as in a page-table entry.
pub const PTE_V: u8 = 0x1;
pub const PERM_R: u8 = 0x2;
pub const PERM_W: u8 = 0x4;
pub const PERM_X: u8 = 0x8;
pub const PERM_U: u8 = 0x10;

/// A range of virtual pages `[start_vpn, end_vpn)` mapped with one set of permissions.
#[derive(PartialEq, Eq, Structural, Debug, Clone, Copy)]
pub struct MapArea {
    pub start_vpn: usize,
    pub end_vpn: usize,
    pub perm: u8,
}

/// What a translation finds for a page.
#[derive(PartialEq, Eq, Structural, Debug, Clone, Copy)]
pub struct PageTableEntry {
    pub flags: u8,
}

impl PageTableEntry {
    pub fn is_valid(&self) -> (r: bool)
        ensures
            r == (self.flags & PTE_V != 0),
    {
        self.flags & PTE_V != 0
    }
}

/// The areas of one address space.
pub struct MemorySet {
    pub areas: Vec<MapArea>,
}

/// Page number of the page holding `va`.
pub open spec fn floor_vpn(va: int) -> int {
    va / PAGE_SIZE as int
}

/// Number of the first page not below `va`.
pub open spec fn ceil_vpn(va: int) -> int {
    (va + PAGE_SIZE - 1) / PAGE_SIZE as int
}

pub open spec fn area_holds(a: MapArea, vpn: int) -> bool {
    a.start_vpn <= vpn < a.end_vpn
}

/// Pages `[s, e)` and the area share a page.
pub open spec fn overlaps(a: MapArea, s: int, e: int) -> bool {
    a.start_vpn < e && s < a.end_vpn
}

/// No two areas share a page.
pub open spec fn disjoint_areas(areas: Seq<MapArea>) -> bool {
    forall|i: int, j: int|
        0 <= i < areas.len() && 0 <= j < areas.len() && i != j ==> !overlaps(
            #[trigger] areas[i],
            areas[j].start_vpn as int,
            #[trigger] areas[j].end_vpn as int,
        ) || areas[j].start_vpn >= areas[j].end_vpn
}

/// Some area maps page `vpn`.
pub open spec fn is_mapped(areas: Seq<MapArea>, vpn: int) -> bool {
    exists|i: int| 0 <= i < areas.len() && area_holds(#[trigger] areas[i], vpn)
}

/// The permission bits `mmap` gives for the port bits R=1, W=2, X=4.
pub open spec fn perm_of_port(port: usize) -> u8 {
    (PERM_U | ((port as u8) << 1u8)) as u8
}

/// Index of the first area covering exactly pages `[s, e)`, or -1.
pub open spec fn find_area(areas: Seq<MapArea>, s: int, e: int) -> int
    decreases areas.len(),
{
    if areas.len() == 0 {
        -1
    } else {
        let k = find_area(areas.drop_last(), s, e);
        if k >= 0 {
            k
        } else if areas.last().start_vpn == s && areas.last().end_vpn == e {
            areas.len() - 1
        } else {
            -1
        }
    }
}

/// Result of `mmap` on areas `areas`: the new areas and the return value.
pub open spec fn mmap_result(areas: Seq<MapArea>, start: usize, len: usize, port: usize) -> (Seq<MapArea>, isize) {
    if start % PAGE_SIZE != 0 || port & !7usize != 0 || port & 7usize == 0 || start + len > usize::MAX {
        (areas, -1isize)
    } else if len == 0 {
        (areas, 0isize)
    } else {
        let s = floor_vpn(start as int);
        let e = ceil_vpn(start + len);
        if exists|i: int| 0 <= i < areas.len() && #[trigger] overlaps(areas[i], s, e) {
            (areas, -1isize)
        } else {
            (areas.push(MapArea { start_vpn: s as usize, end_vpn: e as usize, perm: perm_of_port(port) }), 0)
        }
    }
}

/// Result of `munmap` on areas `areas`.
pub open spec fn munmap_result(areas: Seq<MapArea>, start: usize, len: usize) -> (Seq<MapArea>, isize) {
    if start % PAGE_SIZE != 0 || start + len > usize::MAX {
        (areas, -1isize)
    } else if len == 0 {
        (areas, 0isize)
    } else {
        let k = find_area(areas, floor_vpn(start as int), ceil_vpn(start + len));
        if k >= 0 {
            (areas.remove(k), 0)
        } else {
            (areas, -1isize)
        }
    }
}

proof fn lemma_find_area_found(areas: Seq<MapArea>, s: int, e: int)
    ensures
        -1 <= find_area(areas, s, e) < areas.len(),
        find_area(areas, s, e) >= 0 ==> areas[find_area(areas, s, e)].start_vpn == s
            && areas[find_area(areas, s, e)].end_vpn == e,
        find_area(areas, s, e) == -1 ==> forall|i: int|
            0 <= i < areas.len() ==> !(#[trigger] areas[i].start_vpn == s && areas[i].end_vpn == e),
        forall|i: int|
            0 <= i < find_area(areas, s, e) ==> !(#[trigger] areas[i].start_vpn == s && areas[i].end_vpn == e),
    decreases areas.len(),
{
    if areas.len() > 0 {
        lemma_find_area_found(areas.drop_last(), s, e);
        let d = areas.drop_last();
        assert forall|i: int| 0 <= i < d.len() implies d[i] == areas[i] by {}
    }
}

proof fn lemma_find_area_push(areas: Seq<MapArea>, a: MapArea)
    requires
        find_area(areas, a.start_vpn as int, a.end_vpn as int) == -1,
    ensures
        find_area(areas.push(a), a.start_vpn as int, a.end_vpn as int) == areas.len(),
{
    assert(areas.push(a).drop_last() =~= areas);
}

impl MemorySet {
    pub open spec fn wf(&self) -> bool {
        &&& disjoint_areas(self.areas@)
        &&& forall|i: int| 0 <= i < self.areas@.len() ==> (#[trigger] self.areas@[i]).start_vpn < self.areas@[i].end_vpn
    }

    /// A copy of this address space, area by area.
    pub fn deep_copy(&self) -> (m: Self)
        ensures
            m.areas@ == self.areas@,
    {
        let mut areas: Vec<MapArea> = Vec::new();
        let mut i: usize = 0;
        while i < self.areas.len()
            invariant
                i <= self.areas@.len(),
                areas@ == self.areas@.subrange(0, i as int),
            decreases self.areas@.len() - i,
        {
            areas.push(self.areas[i]);
            i += 1;
            proof {
                assert(areas@ =~= self.areas@.subrange(0, i as int));
            }
        }
        proof {
            assert(areas@ =~= self.areas@);
        }
        MemorySet { areas }
    }

    /// An empty address space.
    pub fn new_bare() -> (m: Self)
        ensures
            m.wf(),
            m.areas@ == Seq::<MapArea>::empty(),
    {
        MemorySet { areas: Vec::new() }
    }

    /// The entry for page `vpn`: valid with the area's permissions where
    /// an area maps it, none elsewhere.
    pub fn translate(&self, vpn: usize) -> (r: Option<PageTableEntry>)
        requires
            self.wf(),
        ensures
            r is None <==> !is_mapped(self.areas@, vpn as int),
            r matches Some(pte) ==> exists|i: int|
                0 <= i < self.areas@.len() && area_holds(#[trigger] self.areas@[i], vpn as int) && pte.flags == (
                self.areas@[i].perm | PTE_V),
    {
        let mut i: usize = 0;
        while i < self.areas.len()
            invariant
                i <= self.areas@.len(),
                forall|k: int| 0 <= k < i ==> !area_holds(#[trigger] self.areas@[k], vpn as int),
            decreases self.areas@.len() - i,
        {
            let a = self.areas[i];
            if a.start_vpn <= vpn && vpn < a.end_vpn {
                return Some(PageTableEntry { flags: a.perm | PTE_V });
            }
            i += 1;
        }
        None
    }

    /// Index of the first area covering exactly pages `[s, e)`.
    fn find_exact(&self, s: usize, e: usize) -> (r: Option<usize>)
        ensures
            r is None <==> find_area(self.areas@, s as int, e as int) == -1,
            r matches Some(k) ==> k == find_area(self.areas@, s as int, e as int),
    {
        proof {
            lemma_find_area_found(self.areas@, s as int, e as int);
        }
        let mut i: usize = 0;
        while i < self.areas.len()
            invariant
                i <= self.areas@.len(),
                find_area(self.areas@.take(i as int), s as int, e as int) == -1,
            decreases self.areas@.len() - i,
        {
            proof {
                assert(self.areas@.take(i as int + 1).drop_last() =~= self.areas@.take(i as int));
            }
            if self.areas[i].start_vpn == s && self.areas[i].end_vpn == e {
                proof {
                    lemma_find_area_prefix(self.areas@, i as int + 1, s as int, e as int);
                }
                return Some(i);
            }
            i += 1;
        }
        proof {
            assert(self.areas@.take(i as int) =~= self.areas@);
        }
        None
    }
}

proof fn lemma_find_area_prefix(areas: Seq<MapArea>, n: int, s: int, e: int)
    requires
        0 <= n <= areas.len(),
        find_area(areas.take(n), s, e) >= 0,
    ensures
        find_area(areas, s, e) == find_area(areas.take(n), s, e),
    decreases areas.len() - n,
{
    if n < areas.len() {
        assert(areas.take(n + 1).drop_last() =~= areas.take(n));
        lemma_find_area_prefix(areas, n + 1, s, e);
    } else {
        assert(areas.take(n) =~= areas);
    }
}

/// Maps `len` bytes from the page-aligned address `start` with the port
/// bits R=1, W=2, X=4 (at least one, no other) for user access; pages are
/// given frames when first touched.  Fails (-1) on a bad argument or when
/// a page of the range is already mapped.
pub fn sys_mmap(ms: &mut MemorySet, start: usize, len: usize, port: usize) -> (r: isize)
    requires
        old(ms).wf(),
    ensures
        final(ms).wf(),
        (final(ms).areas@, r) == mmap_result(old(ms).areas@, start, len, port),
        (start % PAGE_SIZE == 0 && port & !7usize == 0 && port & 7usize != 0 && start + len <= usize::MAX && len > 0)
            ==> (r == -1 <==> exists|v: int|
            floor_vpn(start as int) <= v < ceil_vpn(start + len) && #[trigger] is_mapped(old(ms).areas@, v)),
{
    proof {
        if start % PAGE_SIZE == 0 && port & !7usize == 0 && port & 7usize != 0 && start + len <= usize::MAX && len > 0 {
            let s0 = floor_vpn(start as int);
            let e0 = ceil_vpn(start + len);
            assert(s0 < e0) by (nonlinear_arith)
                requires
                    s0 == start / 4096,
                    e0 == (start + len + 4095) / 4096,
                    len > 0,
            ;
            lemma_overlap_iff_mapped(ms.areas@, s0, e0);
        }
    }
    if start % PAGE_SIZE != 0 || port & !7usize != 0 || port & 7usize == 0 || start > usize::MAX - len {
        return -1;
    }
    if len == 0 {
        return 0;
    }
    let s = start / PAGE_SIZE;
    let end = start + len;
    let e = end / PAGE_SIZE + if end % PAGE_SIZE == 0 { 0 } else { 1 };
    proof {
        assert(e == ceil_vpn(start + len));
        assert(s as int == floor_vpn(start as int));
    }
    let mut i: usize = 0;
    while i < ms.areas.len()
        invariant
            i <= ms.areas@.len(),
            ms.areas@ == old(ms).areas@,
            ms.wf(),
            e == ceil_vpn(start + len),
            s as int == floor_vpn(start as int),
            start % PAGE_SIZE == 0 && port & !7usize == 0 && port & 7usize != 0 && start + len <= usize::MAX,
            len > 0,
            (exists|k: int| 0 <= k < ms.areas@.len() && #[trigger] overlaps(ms.areas@[k], s as int, e as int)) <==> (
            exists|v: int| s <= v < e && #[trigger] is_mapped(ms.areas@, v)),
            forall|k: int| 0 <= k < i ==> !#[trigger] overlaps(ms.areas@[k], s as int, e as int),
        decreases ms.areas@.len() - i,
    {
        let a = ms.areas[i];
        if a.start_vpn < e && s < a.end_vpn {
            proof {
                assert(overlaps(ms.areas@[i as int], s as int, e as int));
            }
            return -1;
        }
        i += 1;
    }
    let perm: u8 = PERM_U | ((port as u8) << 1u8);
    proof {
        assert(s < e) by (nonlinear_arith)
            requires
                s == start / 4096,
                e == (start + len + 4095) / 4096,
                len > 0,
        ;
    }
    let ghost pre = ms.areas@;
    ms.areas.push(MapArea { start_vpn: s, end_vpn: e, perm });
    proof {
        let ns = ms.areas@;
        assert forall|x: int, y: int|
            0 <= x < ns.len() && 0 <= y < ns.len() && x != y implies !overlaps(
            #[trigger] ns[x],
            ns[y].start_vpn as int,
            #[trigger] ns[y].end_vpn as int,
        ) || ns[y].start_vpn >= ns[y].end_vpn by {
            if x < pre.len() && y < pre.len() {
                assert(ns[x] == pre[x] && ns[y] == pre[y]);
            } else if x < pre.len() {
                assert(!overlaps(pre[x], s as int, e as int));
            } else {
                assert(!overlaps(pre[y], s as int, e as int));
            }
        }
    }
    0
}

/// Unmaps the area that covers exactly the pages of `len` bytes from the
/// page-aligned address `start`.  Fails (-1) on a bad argument or when no
/// area covers exactly that range.
pub fn sys_munmap(ms: &mut MemorySet, start: usize, len: usize) -> (r: isize)
    requires
        old(ms).wf(),
    ensures
        final(ms).wf(),
        (final(ms).areas@, r) == munmap_result(old(ms).areas@, start, len),
{
    if start % PAGE_SIZE != 0 || start > usize::MAX - len {
        return -1;
    }
    if len == 0 {
        return 0;
    }
    let s = start / PAGE_SIZE;
    let end = start + len;
    let e = end / PAGE_SIZE + if end % PAGE_SIZE == 0 { 0 } else { 1 };
    proof {
        assert(e == ceil_vpn(start + len));
    }
    proof {
        lemma_find_area_found(ms.areas@, s as int, e as int);
    }
    match ms.find_exact(s, e) {
        Some(k) => {
            let ghost pre = ms.areas@;
            ms.areas.remove(k);
            proof {
                let ns = ms.areas@;
                assert forall|x: int| 0 <= x < ns.len() implies (#[trigger] ns[x]).start_vpn < ns[x].end_vpn by {
                    let px = if x < k { x } else { x + 1 };
                    assert(ns[x] == pre[px]);
                }
                assert forall|x: int, y: int|
                    0 <= x < ns.len() && 0 <= y < ns.len() && x != y implies !overlaps(
                    #[trigger] ns[x],
                    ns[y].start_vpn as int,
                    #[trigger] ns[y].end_vpn as int,
                ) || ns[y].start_vpn >= ns[y].end_vpn by {
                    let px = if x < k { x } else { x + 1 };
                    let py = if y < k { y } else { y + 1 };
                    assert(ns[x] == pre[px] && ns[y] == pre[py]);
                }
            }
            0
        },
        None => -1,
    }
}

/// With no empty area, a range of pages meets an area exactly when one of
/// its pages is mapped; so `mmap` fails on a valid request exactly when a
/// page of the range is already mapped.
pub proof fn lemma_overlap_iff_mapped(areas: Seq<MapArea>, s: int, e: int)
    requires
        s < e,
        forall|i: int| 0 <= i < areas.len() ==> (#[trigger] areas[i]).start_vpn < areas[i].end_vpn,
    ensures
        (exists|i: int| 0 <= i < areas.len() && #[trigger] overlaps(areas[i], s, e)) <==> (exists|v: int|
            s <= v < e && #[trigger] is_mapped(areas, v)),
{
    if exists|i: int| 0 <= i < areas.len() && #[trigger] overlaps(areas[i], s, e) {
        let i = choose|i: int| 0 <= i < areas.len() && #[trigger] overlaps(areas[i], s, e);
        let v = if areas[i].start_vpn as int > s { areas[i].start_vpn as int } else { s };
        assert(area_holds(areas[i], v));
        assert(is_mapped(areas, v));
        assert(s <= v < e);
    }
    if exists|v: int| s <= v < e && #[trigger] is_mapped(areas, v) {
        let v = choose|v: int| s <= v < e && #[trigger] is_mapped(areas, v);
        let i = choose|i: int| 0 <= i < areas.len() && area_holds(#[trigger] areas[i], v);
        assert(overlaps(areas[i], s, e));
    }
}

/// Mapping a fresh range and unmapping the same range gives back the
/// address space as it was.
pub proof fn lemma_mmap_munmap_identity(areas: Seq<MapArea>, start: usize, len: usize, port: usize)
    requires
        disjoint_areas(areas),
        mmap_result(areas, start, len, port).1 == 0,
    ensures
        munmap_result(mmap_result(areas, start, len, port).0, start, len) == (areas, 0isize),
{
    if len > 0 {
        let s = floor_vpn(start as int);
        let e = ceil_vpn(start + len);
        let a = MapArea { start_vpn: s as usize, end_vpn: e as usize, perm: perm_of_port(port) };
        lemma_find_area_found(areas, s, e);
        if find_area(areas, s, e) >= 0 {
            let k = find_area(areas, s, e);
            assert(overlaps(areas[k], s, e));
        }
        lemma_find_area_push(areas, a);
        assert(areas.push(a).remove(areas.len() as int) =~= areas);
    }
}

/// After a successful `munmap` of a non-empty range, no page of the range
/// is mapped.
pub proof fn lemma_munmap_unmaps(areas: Seq<MapArea>, start: usize, len: usize, vpn: int)
    requires
        disjoint_areas(areas),
        len > 0,
        munmap_result(areas, start, len).1 == 0,
        floor_vpn(start as int) <= vpn < ceil_vpn(start + len),
    ensures
        !is_mapped(munmap_result(areas, start, len).0, vpn),
{
    let s = floor_vpn(start as int);
    let e = ceil_vpn(start + len);
    lemma_find_area_found(areas, s, e);
    let k = find_area(areas, s, e);
    let ns = areas.remove(k);
    assert forall|i: int| 0 <= i < ns.len() implies !area_holds(#[trigger] ns[i], vpn) by {
        let pi = if i < k { i } else { i + 1 };
        assert(ns[i] == areas[pi]);
        assert(!overlaps(areas[pi], areas[k].start_vpn as int, areas[k].end_vpn as int));
    }
}

/// How a user access touches memory.
#[derive(PartialEq, Eq, Structural, Debug, Clone, Copy)]
pub enum Access {
    Load,
    Store,
    Fetch,
}

/// The permission bit an access needs.
pub open spec fn needed_perm(access: Access) -> u8 {
    match access {
        Access::Load => PERM_R,
        Access::Store => PERM_W,
        Access::Fetch => PERM_X,
    }
}

/// An access from user mode to `va`: none when it is allowed, the signal
/// it raises (SIGSEGV) when the page is unmapped or lacks the user bit or
/// the bit the access needs.
pub fn user_access(ms: &MemorySet, va: usize, access: Access) -> (r: Option<u32>)
    requires
        ms.wf(),
    ensures
        !is_mapped(ms.areas@, floor_vpn(va as int)) ==> r == Some(SIGSEGV),
        r is None <==> exists|i: int|
            0 <= i < ms.areas@.len() && area_holds(#[trigger] ms.areas@[i], floor_vpn(va as int))
                && ms.areas@[i].perm & PERM_U != 0 && ms.areas@[i].perm & needed_perm(access) != 0,
        r is Some ==> r == Some(SIGSEGV),
{
    let need: u8 = match access {
        Access::Load => PERM_R,
        Access::Store => PERM_W,
        Access::Fetch => PERM_X,
    };
    match ms.translate(va / PAGE_SIZE) {
        None => Some(SIGSEGV),
        Some(pte) => {
            let flags = pte.flags;
            proof {
                let i = choose|i: int|
                    0 <= i < ms.areas@.len() && area_holds(#[trigger] ms.areas@[i], (va / PAGE_SIZE) as int)
                        && pte.flags == (ms.areas@[i].perm | PTE_V);
                let p = ms.areas@[i].perm;
                assert(need == 2u8 || need == 4u8 || need == 8u8);
                assert((flags & 16u8 != 0 && flags & need != 0) == (p & 16u8 != 0 && p & need != 0)) by (bit_vector)
                    requires
                        flags == (p | 1u8),
                        need == 2u8 || need == 4u8 || need == 8u8,
                ;
                assert forall|j: int|
                    0 <= j < ms.areas@.len() && area_holds(#[trigger] ms.areas@[j], (va / PAGE_SIZE) as int) implies j == i by {
                    if j != i {
                        assert(!overlaps(ms.areas@[j], ms.areas@[i].start_vpn as int, ms.areas@[i].end_vpn as int)
                            || ms.areas@[i].start_vpn >= ms.areas@[i].end_vpn);
                    }
                }
            }
            if flags & PERM_U != 0 && flags & need != 0 {
                proof {
                    let i = choose|i: int|
                        0 <= i < ms.areas@.len() && area_holds(#[trigger] ms.areas@[i], (va / PAGE_SIZE) as int)
                            && pte.flags == (ms.areas@[i].perm | PTE_V);
                    let p = ms.areas@[i].perm;
                    assert(need == 2u8 || need == 4u8 || need == 8u8);
                    assert(p & 16u8 != 0 && p & need != 0) by (bit_vector)
                        requires
                            flags == (p | 1u8),
                            flags & 16u8 != 0,
                            flags & need != 0,
                            need == 2u8 || need == 4u8 || need == 8u8,
                    ;
                }
                None
            } else {
                Some(SIGSEGV)
            }
        },
    }
}

/// Physical frames `[start, end)`, handed out from a bump pointer and a
/// stack of returned frames.
pub struct FrameAllocator {
    pub start: usize,
    pub current: usize,
    pub end: usize,
    pub recycled: Vec<usize>,
}

impl FrameAllocator {
    pub open spec fn wf(&self) -> bool {
        &&& self.start <= self.current <= self.end
        &&& self.recycled@.no_duplicates()
        &&& forall|i: int| 0 <= i < self.recycled@.len() ==> self.start <= #[trigger] self.recycled@[i] < self.current
    }

    /// Frames handed out and not yet returned.
    pub open spec fn allocated(&self) -> Set<usize> {
        Set::new(|p: usize| self.start <= p < self.current && !self.recycled@.contains(p))
    }

    /// An allocator over frames `[start, end)`, none handed out.
    pub fn new(start: usize, end: usize) -> (a: Self)
        requires
            start <= end,
        ensures
            a.wf(),
            a.allocated() == Set::<usize>::empty(),
            a.start == start && a.end == end,
    {
        let a = FrameAllocator { start, current: start, end, recycled: Vec::new() };
        proof {
            assert(a.allocated() =~= Set::<usize>::empty());
        }
        a
    }

    /// Hands out a frame that is not handed out; none when every frame is.
    pub fn frame_alloc(&mut self) -> (r: Option<usize>)
        requires
            old(self).wf(),
        ensures
            final(self).wf(),
            final(self).start == old(self).start && final(self).end == old(self).end,
            r matches Some(p) ==> !old(self).allocated().contains(p) && old(self).start <= p < old(self).end
                && final(self).allocated() == old(self).allocated().insert(p),
            r is None ==> final(self).allocated() == old(self).allocated() && forall|p: usize|
                old(self).start <= p < old(self).end ==> #[trigger] old(self).allocated().contains(p),
    {
        let ghost pre = *self;
        match self.recycled.pop() {
            Some(p) => {
                proof {
                    assert(pre.recycled@ == self.recycled@.push(p));
                    assert(pre.recycled@.contains(p)) by {
                        assert(pre.recycled@[pre.recycled@.len() - 1] == p);
                    }
                    assert(!self.recycled@.contains(p)) by {
                        if self.recycled@.contains(p) {
                            let j = choose|j: int| 0 <= j < self.recycled@.len() && self.recycled@[j] == p;
                            assert(pre.recycled@[j] == pre.recycled@[pre.recycled@.len() - 1]);
                        }
                    }
                    assert forall|q: usize| #[trigger] self.recycled@.contains(q) implies pre.recycled@.contains(q) by {
                        let j = choose|j: int| 0 <= j < self.recycled@.len() && self.recycled@[j] == q;
                        assert(pre.recycled@[j] == q);
                    }
                    assert forall|q: usize| #[trigger] pre.recycled@.contains(q) && q != p implies self.recycled@.contains(q) by {
                        let j = choose|j: int| 0 <= j < pre.recycled@.len() && pre.recycled@[j] == q;
                        assert(j != pre.recycled@.len() - 1);
                        assert(self.recycled@[j] == q);
                    }
                    assert(self.allocated() =~= pre.allocated().insert(p));
                }
                Some(p)
            },
            None => {
                if self.current == self.end {
                    proof {
                        assert forall|p: usize| pre.start <= p < pre.end implies #[trigger] pre.allocated().contains(p) by {}
                    }
                    None
                } else {
                    let p = self.current;
                    self.current = self.current + 1;
                    proof {
                        assert(self.allocated() =~= pre.allocated().insert(p));
                    }
                    Some(p)
                }
            },
        }
    }

    /// Takes back frame `ppn`, which must be handed out.
    pub fn frame_dealloc(&mut self, ppn: usize)
        requires
            old(self).wf(),
            old(self).allocated().contains(ppn),
        ensures
            final(self).wf(),
            final(self).start == old(self).start && final(self).end == old(self).end,
            final(self).allocated() == old(self).allocated().remove(ppn),
    {
        let ghost pre = *self;
        self.recycled.push(ppn);
        proof {
            assert forall|q: usize| #[trigger] self.recycled@.contains(q) <==> (pre.recycled@.contains(q) || q == ppn) by {
                if self.recycled@.contains(q) {
                    let j = choose|j: int| 0 <= j < self.recycled@.len() && self.recycled@[j] == q;
                    if j < pre.recycled@.len() {
                        assert(pre.recycled@[j] == q);
                    }
                }
                if pre.recycled@.contains(q) {
                    let j = choose|j: int| 0 <= j < pre.recycled@.len() && pre.recycled@[j] == q;
                    assert(self.recycled@[j] == q);
                }
                if q == ppn {
                    assert(self.recycled@[pre.recycled@.len() as int] == q);
                }
            }
            assert(self.allocated() =~= pre.allocated().remove(ppn));
        }
    }
}

/// A frame that was handed out and then returned leaves the set of
/// frames handed out as it was before.
pub proof fn lemma_frame_returned_once(before: Set<usize>, p: usize)
    requires
        !before.contains(p),
    ensures
        before.insert(p).contains(p),
        before.insert(p).remove(p) == before,
        !before.insert(p).remove(p).contains(p),
{
    assert(before.insert(p).remove(p) =~= before);
}

} // verus!
