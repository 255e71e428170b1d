//! The page frame allocator: a stack of free frames threaded through the
//! frames' own metadata.
use vstd::prelude::*;
use crate::mem::{PageTable, MemoryMap, MemoryRegion, MemoryType, VADDR, fit, first_fit, rounding_fits, get_pfn};
use crate::mem::page::Page;
use crate::mem::layout::{Layout, round_up, lemma_round_up};
use crate::list::lemma_distinct_below;

verus! {

/// The frame after position `i` of the free stack `s`, if any.
pub open spec fn next_free(s: Seq<usize>, i: int) -> Option<usize> {
    if i + 1 < s.len() {
        Some(s[i + 1])
    } else {
        None
    }
}

/// The page frame allocator.
pub struct Alloc {
    pages: usize,
    freelist: Option<usize>,
    free: Ghost<Seq<usize>>,
}

impl Alloc {
    /// The free frames, the next one to hand out first.
    pub closed spec fn free_spec(&self) -> Seq<usize> {
        self.free@
    }

    /// The free stack is threaded through `table`: each free frame is
    /// marked free and points at the next, and the count is kept.
    pub closed spec fn wf(&self, table: Seq<Page>) -> bool {
        let s = self.free@;
        &&& s.no_duplicates()
        &&& self.pages == s.len()
        &&& self.freelist == (if s.len() == 0 { None } else { Some(s[0]) })
        &&& forall|i: int| 0 <= i < s.len() ==> #[trigger] s[i] < table.len()
        &&& forall|i: int|
            0 <= i < s.len() ==> (#[trigger] table[s[i] as int]).free_spec()
                && table[s[i] as int].pointer_spec() == next_free(s, i)
    }

    /// An allocator with no free frame.
    pub fn new() -> (r: Self)
        ensures
            r.free_spec() == Seq::<usize>::empty(),
            forall|t: Seq<Page>| r.wf(t),
    {
        Alloc { pages: 0, freelist: None, free: Ghost(Seq::empty()) }
    }

    /// The count of free frames kept by the allocator.
    pub closed spec fn pages_spec(&self) -> nat {
        self.pages as nat
    }

    /// The count the allocator keeps is the number of free frames.
    pub proof fn law_pages_count_free(&self, table: Seq<Page>)
        requires
            self.wf(table),
        ensures
            self.pages_spec() == self.free_spec().len(),
    {
    }

    /// Number of free frames.
    pub fn pages(&self) -> (r: usize)
        ensures
            r == self.pages_spec(),
    {
        self.pages
    }

    /// Takes the most recently freed frame off the free stack and marks it
    /// allocated; `None` when no frame is free.
    pub fn alloc_page(&mut self, table: &mut PageTable) -> (r: Option<usize>)
        requires
            old(self).wf(old(table)@),
        ensures
            final(self).wf(final(table)@),
            old(self).free_spec().len() == 0 ==> r is None && final(self).free_spec() == old(self).free_spec()
                && final(table)@ == old(table)@,
            old(self).free_spec().len() > 0 ==> {
                let pfn = old(self).free_spec()[0];
                &&& r == Some(pfn)
                &&& pfn < old(table)@.len()
                &&& final(self).free_spec() == old(self).free_spec().drop_first()
                &&& final(table)@.len() == old(table)@.len()
                &&& !final(table)@[pfn as int].free_spec()
                &&& final(table)@[pfn as int].pointer_spec() == old(table)@[pfn as int].pointer_spec()
                &&& forall|j: int| 0 <= j < old(table)@.len() && j != pfn ==> final(table)@[j] == old(table)@[j]
            },
    {
        let pfn = match self.freelist {
            Some(pfn) => pfn,
            None => {
                return None;
            },
        };
        let ghost s = self.free@;
        assert(pfn == s[0]);
        assert(pfn < table@.len());
        let next = table.page_mut(pfn).pointer();
        self.pages = self.pages - 1;
        self.freelist = next;
        table.page_mut(pfn).set_free(false);
        proof {
            let s2 = s.drop_first();
            self.free@ = s2;
            assert forall|i: int| 0 <= i < s2.len() implies (#[trigger] table@[s2[i] as int]).free_spec()
                && table@[s2[i] as int].pointer_spec() == next_free(s2, i) by {
                assert(s2[i] == s[i + 1]);
                assert(s[i + 1] != s[0]);
            }
            assert forall|i: int| 0 <= i < s2.len() implies #[trigger] s2[i] < table@.len() by {
                assert(s2[i] == s[i + 1]);
            }
        }
        Some(pfn)
    }

    /// Puts frame `pfn` on top of the free stack and marks it free. The
    /// frame must not be free already.
    pub fn free_page(&mut self, table: &mut PageTable, pfn: usize)
        requires
            old(self).wf(old(table)@),
            pfn < old(table)@.len(),
            !old(table)@[pfn as int].free_spec(),
        ensures
            final(self).wf(final(table)@),
            final(self).free_spec() == seq![pfn] + old(self).free_spec(),
            final(table)@.len() == old(table)@.len(),
            final(table)@[pfn as int].free_spec(),
            final(table)@[pfn as int].pointer_spec() == (if old(self).free_spec().len() == 0 { None } else { Some(old(self).free_spec()[0]) }),
            forall|j: int| 0 <= j < old(table)@.len() && j != pfn ==> final(table)@[j] == old(table)@[j],
    {
        let ghost s = self.free@;
        proof {
            assert(!s.contains(pfn)) by {
                if s.contains(pfn) {
                    let i = choose|i: int| 0 <= i < s.len() && s[i] == pfn;
                    assert(table@[s[i] as int].free_spec());
                }
            }
            let n = table@.len() as int;
            let s1 = s.push(pfn);
            assert(s1.no_duplicates()) by {
                assert forall|i: int, j: int| 0 <= i < s1.len() && 0 <= j < s1.len() && i != j implies s1[i] != s1[j] by {
                    if i < s.len() && j < s.len() {
                    } else if i < s.len() {
                        assert(s.contains(s[i]));
                    } else if j < s.len() {
                        assert(s.contains(s[j]));
                    }
                }
            }
            lemma_distinct_below(s1, 0, n);
        }
        let cap = table.len();
        let page = table.page_mut(pfn);
        page.set_free(true);
        page.set_pointer(self.freelist);
        self.pages = self.pages + 1;
        self.freelist = Some(pfn);
        proof {
            let s2 = seq![pfn] + s;
            self.free@ = s2;
            assert forall|i: int| 0 <= i < s2.len() implies (#[trigger] table@[s2[i] as int]).free_spec()
                && table@[s2[i] as int].pointer_spec() == next_free(s2, i) by {
                if i > 0 {
                    assert(s2[i] == s[i - 1]);
                    assert(s[i - 1] != pfn) by {
                        assert(s.contains(s[i - 1]));
                    }
                } else {
                    if s.len() > 0 {
                        assert(s2[1] == s[0]);
                    }
                }
            }
            assert forall|i: int| 0 <= i < s2.len() implies #[trigger] s2[i] < table@.len() by {
                if i > 0 {
                    assert(s2[i] == s[i - 1]);
                }
            }
            assert forall|i: int, j: int| 0 <= i < s2.len() && 0 <= j < s2.len() && i != j implies s2[i] != s2[j] by {
                if i > 0 && j > 0 {
                    assert(s2[i] == s[i - 1] && s2[j] == s[j - 1]);
                } else if i > 0 {
                    assert(s.contains(s[i - 1]));
                } else if j > 0 {
                    assert(s.contains(s[j - 1]));
                }
            }
        }
    }
}

/// A frame is never free twice, and every free frame is marked free in
/// the table.
pub proof fn law_free_frames(alloc: &Alloc, table: Seq<Page>)
    requires
        alloc.wf(table),
    ensures
        alloc.free_spec().no_duplicates(),
        forall|i: int|
            0 <= i < alloc.free_spec().len() ==> #[trigger] alloc.free_spec()[i] < table.len()
                && table[alloc.free_spec()[i] as int].free_spec(),
{
}

/// Allocating right after freeing frame `pfn` hands `pfn` back and
/// leaves the free frames as they were before it was freed.
pub proof fn law_alloc_undoes_free(free: Seq<usize>, pfn: usize)
    ensures
        (seq![pfn] + free).len() > 0,
        (seq![pfn] + free)[0] == pfn,
        (seq![pfn] + free).drop_first() == free,
{
    assert((seq![pfn] + free).drop_first() =~= free);
}

/// Where early allocation from region `r` starts: past what was taken.
pub open spec fn start_of(r: MemoryRegion) -> int {
    r.addr_spec() + r.allocated_spec()
}

/// Page `p` lies wholly between the addresses `lo` and `hi`.
pub open spec fn page_between(p: int, lo: int, hi: int) -> bool {
    lo <= p * 4096 && p * 4096 + 4096 <= hi
}

/// Page `p` is one that early allocation can hand out from region `r`:
/// free memory, wholly past what was taken and within the region, at an
/// address the linear mapping reaches.
pub open spec fn reachable_page(r: MemoryRegion, p: int) -> bool {
    &&& r.type_spec() == MemoryType::Free
    &&& page_between(p, start_of(r), r.addr_spec() + r.len_spec())
    &&& p * 4096 + VADDR <= usize::MAX
}

/// No page can be handed out from two regions of `rs`.
pub open spec fn no_shared_page(rs: Seq<MemoryRegion>) -> bool {
    forall|i: int, j: int, p: int|
        0 <= i < rs.len() && 0 <= j < rs.len() && i != j && #[trigger] reachable_page(rs[i], p)
            ==> !#[trigger] reachable_page(rs[j], p)
}

/// A table of `n` pages has one for every page early allocation can hand
/// out from `rs`.
pub open spec fn table_covers(rs: Seq<MemoryRegion>, n: int) -> bool {
    forall|j: int, p: int| 0 <= j < rs.len() && #[trigger] reachable_page(rs[j], p) ==> p < n
}

/// The free regions of `rs` do not overlap.
pub open spec fn free_regions_disjoint(rs: Seq<MemoryRegion>) -> bool {
    forall|i: int, j: int|
        0 <= i < rs.len() && 0 <= j < rs.len() && i != j && rs[i].type_spec() == MemoryType::Free
            && rs[j].type_spec() == MemoryType::Free ==> #[trigger] rs[i].addr_spec() + rs[i].len_spec()
            <= rs[j].addr_spec() || #[trigger] rs[j].addr_spec() + rs[j].len_spec() <= rs[i].addr_spec()
}

/// Free regions that do not overlap share no page.
pub proof fn law_disjoint_regions_share_no_page(rs: Seq<MemoryRegion>)
    requires
        free_regions_disjoint(rs),
    ensures
        no_shared_page(rs),
{
    assert forall|i: int, j: int, p: int|
        0 <= i < rs.len() && 0 <= j < rs.len() && i != j && #[trigger] reachable_page(rs[i], p)
            implies !#[trigger] reachable_page(rs[j], p) by {
        if reachable_page(rs[j], p) {
            assert(rs[i].addr_spec() + rs[i].len_spec() <= rs[j].addr_spec() || rs[j].addr_spec()
                + rs[j].len_spec() <= rs[i].addr_spec());
        }
    }
}

/// A table of pages up to the end of the highest free region covers
/// every page early allocation can hand out.
pub proof fn law_table_up_to_free_end_covers(rs: Seq<MemoryRegion>, n: int)
    requires
        forall|j: int|
            0 <= j < rs.len() && rs[j].type_spec() == MemoryType::Free && rs[j].len_spec() > 0
                ==> #[trigger] rs[j].addr_spec() + rs[j].len_spec() <= n * 4096,
    ensures
        table_covers(rs, n),
{
    assert forall|j: int, p: int| 0 <= j < rs.len() && #[trigger] reachable_page(rs[j], p) implies p < n by {
        assert(p * 4096 + 4096 <= n * 4096);
        assert(p < n) by (nonlinear_arith)
            requires
                p * 4096 + 4096 <= n * 4096,
        ;
    }
}

/// `after` is `before` with only what early allocation took changed.
pub open spec fn same_regions(before: Seq<MemoryRegion>, after: Seq<MemoryRegion>) -> bool {
    &&& after.len() == before.len()
    &&& forall|j: int|
        0 <= j < before.len() ==> #[trigger] after[j].addr_spec() == before[j].addr_spec() && after[j].len_spec()
            == before[j].len_spec() && after[j].type_spec() == before[j].type_spec()
}

/// The pages that early allocation handed over, region by region: every
/// page wholly between where a free region's allocation started, in
/// `before`, and where it stops, in `after`.
pub open spec fn taken(before: Seq<MemoryRegion>, after: Seq<MemoryRegion>, p: int) -> bool {
    exists|j: int|
        0 <= j < before.len() && before[j].type_spec() == MemoryType::Free && #[trigger] page_between(
            p,
            start_of(before[j]),
            start_of(after[j]),
        ) && p * 4096 + 4096 <= before[j].addr_spec() + before[j].len_spec()
}

/// One page taken by early allocation from the map `before`: the first
/// free region with room for a page hands out frame `pfn`, its free start
/// moving past that page, and `after` is the map it leaves.
pub open spec fn take_step(before: Seq<MemoryRegion>, pfn: usize, after: Seq<MemoryRegion>) -> bool {
    match first_fit(before, 4096, 4096, 0) {
        None => false,
        Some(i) => {
            let a = fit(before[i], 4096, 4096)->0;
            &&& pfn == a / 4096
            &&& after.len() == before.len()
            &&& forall|j: int| 0 <= j < before.len() && j != i ==> after[j] == before[j]
            &&& after[i].addr_spec() == before[i].addr_spec()
            &&& after[i].len_spec() == before[i].len_spec()
            &&& after[i].type_spec() == before[i].type_spec()
            &&& after[i].allocated_spec() == a + 4096 - before[i].addr_spec()
        },
    }
}

/// Taking the frames `frames`, one page after another in that order,
/// goes through the maps `maps`: from the first, each take leading to the
/// next.
pub open spec fn take_run(maps: Seq<Seq<MemoryRegion>>, frames: Seq<usize>) -> bool {
    &&& maps.len() == frames.len() + 1
    &&& forall|k: int| 0 <= k < frames.len() ==> take_step(#[trigger] maps[k], frames[k], maps[k + 1])
}

/// From one map, one take hands out one frame and leaves one map.
proof fn lemma_take_step_unique(m: Seq<MemoryRegion>, p1: usize, a1: Seq<MemoryRegion>, p2: usize, a2: Seq<MemoryRegion>)
    requires
        take_step(m, p1, a1),
        take_step(m, p2, a2),
    ensures
        p1 == p2,
        a1 == a2,
{
    let i = first_fit(m, 4096, 4096, 0)->0;
    MemoryRegion::lemma_same_fields(a1[i], a2[i]);
    assert(a1 =~= a2);
}

/// Two runs of takes from one map agree on their first `k` takes.
proof fn lemma_runs_agree(
    maps1: Seq<Seq<MemoryRegion>>,
    frames1: Seq<usize>,
    maps2: Seq<Seq<MemoryRegion>>,
    frames2: Seq<usize>,
    k: int,
)
    requires
        take_run(maps1, frames1),
        take_run(maps2, frames2),
        maps1[0] == maps2[0],
        0 <= k <= frames1.len(),
        k <= frames2.len(),
    ensures
        forall|j: int| 0 <= j <= k ==> #[trigger] maps1[j] == maps2[j],
        forall|j: int| 0 <= j < k ==> #[trigger] frames1[j] == frames2[j],
    decreases k,
{
    if k > 0 {
        lemma_runs_agree(maps1, frames1, maps2, frames2, k - 1);
        let m = k - 1;
        assert(take_step(maps1[m], frames1[m], maps1[m + 1]));
        assert(take_step(maps2[m], frames2[m], maps2[m + 1]));
        assert(maps1[m] == maps2[m]);
        lemma_take_step_unique(maps1[m], frames1[m], maps1[m + 1], frames2[m], maps2[m + 1]);
    }
}

/// The frames early allocation hands out, one page at a time until no
/// free region has a page left, are fixed by the map it starts from: two
/// runs of takes from one map that both end with no page left take the
/// same frames and end in the same map.
pub proof fn law_take_run_is_determined(
    maps1: Seq<Seq<MemoryRegion>>,
    frames1: Seq<usize>,
    maps2: Seq<Seq<MemoryRegion>>,
    frames2: Seq<usize>,
)
    requires
        take_run(maps1, frames1),
        take_run(maps2, frames2),
        maps1[0] == maps2[0],
        first_fit(maps1.last(), 4096, 4096, 0) is None,
        first_fit(maps2.last(), 4096, 4096, 0) is None,
    ensures
        frames1 == frames2,
        maps1 == maps2,
{
    let n1 = frames1.len() as int;
    let n2 = frames2.len() as int;
    let n = if n1 < n2 { n1 } else { n2 };
    lemma_runs_agree(maps1, frames1, maps2, frames2, n);
    if n1 < n2 {
        assert(take_step(maps2[n1], frames2[n1], maps2[n1 + 1]));
        assert(maps1[n1] == maps2[n1]);
    } else if n2 < n1 {
        assert(take_step(maps1[n2], frames1[n2], maps1[n2 + 1]));
        assert(maps1[n2] == maps2[n2]);
    }
    assert(frames1 =~= frames2);
    assert(maps1 =~= maps2);
}

/// The run of takes so far: from `m0`, the frames `frames` were taken
/// through the maps `maps` to `mm`, and the free stack `free` is the
/// taken frames, last first, ahead of the frames `l0` free before.
#[verifier::opaque]
spec fn took(
    m0: Seq<MemoryRegion>,
    mm: Seq<MemoryRegion>,
    l0: Seq<usize>,
    free: Seq<usize>,
    maps: Seq<Seq<MemoryRegion>>,
    frames: Seq<usize>,
) -> bool {
    &&& take_run(maps, frames)
    &&& maps[0] == m0
    &&& maps.last() == mm
    &&& free == frames.reverse() + l0
}

/// Nothing taken yet.
proof fn lemma_took_none(m0: Seq<MemoryRegion>, l0: Seq<usize>)
    ensures
        took(m0, m0, l0, l0, seq![m0], Seq::empty()),
{
    reveal(took);
    assert(Seq::<usize>::empty().reverse() =~= Seq::<usize>::empty());
    assert(l0 =~= Seq::<usize>::empty().reverse() + l0);
}

/// One more page taken extends the run of takes, and pushing its frame on
/// the free stack keeps the stack the taken frames, last first, ahead of
/// the frames free before.
proof fn lemma_take_more(
    m0: Seq<MemoryRegion>,
    before: Seq<MemoryRegion>,
    l0: Seq<usize>,
    list: Seq<usize>,
    maps: Seq<Seq<MemoryRegion>>,
    frames: Seq<usize>,
    pfn: usize,
    after: Seq<MemoryRegion>,
    l2: Seq<usize>,
)
    requires
        took(m0, before, l0, list, maps, frames),
        take_step(before, pfn, after),
        l2 == seq![pfn] + list,
    ensures
        took(m0, after, l0, l2, maps.push(after), frames.push(pfn)),
{
    reveal(took);
    let f2 = frames.push(pfn);
    let m2 = maps.push(after);
    assert forall|k: int| 0 <= k < f2.len() implies take_step(#[trigger] m2[k], f2[k], m2[k + 1]) by {
        if k < frames.len() {
            assert(m2[k] == maps[k] && m2[k + 1] == maps[k + 1] && f2[k] == frames[k]);
        } else {
            assert(m2[k] == maps.last() && m2[k + 1] == after && f2[k] == pfn);
        }
    }
    assert(f2.reverse() =~= seq![pfn] + frames.reverse());
    assert(l2 =~= f2.reverse() + l0);
}

/// The run of takes as `init` states it.
proof fn lemma_took_done(
    m0: Seq<MemoryRegion>,
    mm: Seq<MemoryRegion>,
    l0: Seq<usize>,
    free: Seq<usize>,
    maps: Seq<Seq<MemoryRegion>>,
    frames: Seq<usize>,
)
    requires
        took(m0, mm, l0, free, maps, frames),
    ensures
        exists|maps: Seq<Seq<MemoryRegion>>, frames: Seq<usize>|
            #[trigger] take_run(maps, frames) && maps[0] == m0 && maps.last() == mm && free == frames.reverse() + l0,
{
    reveal(took);
    assert(take_run(maps, frames));
}

/// What `allocate_early` did with a page layout is one take.
proof fn lemma_take_step(before: Seq<MemoryRegion>, after: Seq<MemoryRegion>, i: int, a: int, pfn: usize)
    requires
        first_fit(before, 4096, 4096, 0) == Some(i),
        a == fit(before[i], 4096, 4096)->0,
        pfn == a / 4096,
        after.len() == before.len(),
        forall|j: int| 0 <= j < before.len() && j != i ==> after[j] == before[j],
        after[i].addr_spec() == before[i].addr_spec(),
        after[i].len_spec() == before[i].len_spec(),
        after[i].type_spec() == before[i].type_spec(),
        after[i].allocated_spec() == a + 4096 - before[i].addr_spec(),
    ensures
        take_step(before, pfn, after),
{
}

/// Two multiples of `m` less than `m` apart are equal.
proof fn lemma_multiples_apart(a: int, b: int, m: int)
    requires
        0 < m,
        a % m == 0,
        b % m == 0,
        a <= b < a + m,
    ensures
        a == b,
{
    vstd::arithmetic::div_mod::lemma_fundamental_div_mod(a, m);
    vstd::arithmetic::div_mod::lemma_fundamental_div_mod(b, m);
    let qa = a / m;
    let qb = b / m;
    assert(qa <= qb < qa + 1) by (nonlinear_arith)
        requires
            a == m * qa,
            b == m * qb,
            a <= b < a + m,
            0 < m,
    ;
}

/// Page `p` starts at a multiple of the page size.
proof fn lemma_page_start(p: int)
    ensures
        (p * 4096) % 4096 == 0,
{
    vstd::arithmetic::div_mod::lemma_mod_multiples_basic(p, 4096);
}

impl Alloc {
    /// Hands every page that early allocation can still take from the
    /// memory map to the allocator, until no free region has a page left;
    /// the frames free before stay free. No page that can be handed out
    /// may be marked free already, nor be reachable from two regions, and
    /// the table must have a page for each.
    pub fn init(&mut self, mmap: &mut MemoryMap, table: &mut PageTable)
        requires
            old(self).wf(old(table)@),
            forall|j: int, p: int|
                0 <= j < old(mmap)@.len() && #[trigger] reachable_page(old(mmap)@[j], p) && 0 <= p < old(
                    table,
                )@.len() ==> !old(table)@[p].free_spec(),
            no_shared_page(old(mmap)@),
            table_covers(old(mmap)@, old(table)@.len() as int),
            rounding_fits(old(mmap)@, 4096),
        ensures
            final(self).wf(final(table)@),
            final(table)@.len() == old(table)@.len(),
            same_regions(old(mmap)@, final(mmap)@),
            first_fit(final(mmap)@, 4096, 4096, 0) is None,
            forall|p: usize| #[trigger] old(self).free_spec().contains(p) ==> final(self).free_spec().contains(p),
            forall|p: usize|
                #[trigger] final(self).free_spec().contains(p) ==> old(self).free_spec().contains(p) || taken(
                    old(mmap)@,
                    final(mmap)@,
                    p as int,
                ),
            forall|p: int| 0 <= p <= usize::MAX && #[trigger] taken(old(mmap)@, final(mmap)@, p) ==> final(self).free_spec().contains(p as usize),
            exists|maps: Seq<Seq<MemoryRegion>>, frames: Seq<usize>|
                #[trigger] take_run(maps, frames) && maps[0] == old(mmap)@ && maps.last() == final(mmap)@
                    && final(self).free_spec() == frames.reverse() + old(self).free_spec(),
    {
        let ghost m0 = mmap@;
        let ghost mut frames: Seq<usize> = Seq::empty();
        let ghost mut maps: Seq<Seq<MemoryRegion>> = seq![mmap@];
        let ghost t0 = table@;
        let ghost l0 = self.free_spec();
        let ghost n = table@.len() as int;
        assert(4096usize & 4095usize == 0usize) by (bit_vector);
        let layout = match Layout::from_size_align(4096, 4096) {
            Ok(l) => l,
            Err(_) => {
                return;
            },
        };
        proof {
            lemma_took_none(m0, l0);
        }
        loop
            invariant
                self.wf(table@),
                table@.len() == n,
                t0.len() == n,
                layout.size_spec() == 4096 && layout.align_spec() == 4096,
                same_regions(m0, mmap@),
                no_shared_page(m0),
                table_covers(m0, n),
                rounding_fits(mmap@, 4096),
                forall|j: int, p: int|
                    0 <= j < m0.len() && #[trigger] reachable_page(m0[j], p) && 0 <= p < n ==> !t0[p].free_spec(),
                forall|j: int| 0 <= j < m0.len() ==> start_of(m0[j]) <= #[trigger] start_of(mmap@[j]),
                forall|j: int| 0 <= j < m0.len() ==> start_of(mmap@[j]) == start_of(m0[j]) || #[trigger] start_of(mmap@[j]) % 4096 == 0,
                forall|p: usize|
                    p < n && #[trigger] table@[p as int].free_spec() ==> t0[p as int].free_spec()
                        || taken(m0, mmap@, p as int),
                forall|p: usize| #[trigger] l0.contains(p) ==> self.free_spec().contains(p),
                forall|p: usize| #[trigger] self.free_spec().contains(p) ==> l0.contains(p) || taken(m0, mmap@, p as int),
                forall|p: int| 0 <= p <= usize::MAX && #[trigger] taken(m0, mmap@, p) ==> self.free_spec().contains(p as usize),
                took(m0, mmap@, l0, self.free_spec(), maps, frames),
            ensures
                first_fit(mmap@, 4096, 4096, 0) is None,
                took(m0, mmap@, l0, self.free_spec(), maps, frames),
            decreases n - self.free_spec().len(),
        {
            let ghost before = mmap@;
            let ghost list = self.free_spec();
            let ghost tb = table@;
            match mmap.allocate_early(layout) {
                None => {
                    break;
                },
                Some(vaddr) => {
                    let ghost i = first_fit(before, 4096, 4096, 0)->0;
                    let ghost a = fit(before[i], 4096, 4096)->0;
                    proof {
                        lemma_first_fit_found(before, 4096, 4096, 0);
                        lemma_round_up(start_of(before[i]), 4096);
                        lemma_same_region_at(m0, before, i);
                    }
                    let paddr = ((vaddr as u64) - VADDR) as usize;
                    assert(paddr == a);
                    let pfn = get_pfn(paddr);
                    proof {
                        vstd::arithmetic::div_mod::lemma_fundamental_div_mod(a, 4096);
                        assert(pfn * 4096 == a);
                        assert(reachable_page(m0[i], pfn as int));
                        if table@[pfn as int].free_spec() {
                            if !t0[pfn as int].free_spec() {
                                assert(taken(m0, before, pfn as int));
                                let j = choose|j: int|
                                    0 <= j < m0.len() && m0[j].type_spec() == MemoryType::Free && #[trigger] page_between(
                                        pfn as int,
                                        start_of(m0[j]),
                                        start_of(before[j]),
                                    ) && pfn * 4096 + 4096 <= m0[j].addr_spec() + m0[j].len_spec();
                                if j == i {
                                    assert(false);
                                } else {
                                    assert(reachable_page(m0[j], pfn as int));
                                    assert(false);
                                }
                            }
                        }
                    }
                    self.free_page(table, pfn);
                    proof {
                        lemma_take_step(before, mmap@, i, a, pfn);
                        lemma_take_more(m0, before, l0, list, maps, frames, pfn, mmap@, self.free_spec());
                        frames = frames.push(pfn);
                        maps = maps.push(mmap@);
                        let l2 = self.free_spec();
                        lemma_distinct_below(l2, 0, n);
                        assert(start_of(mmap@[i]) == a + 4096);
                        assert forall|j: int| 0 <= j < m0.len() implies #[trigger] mmap@[j].addr_spec() == m0[j].addr_spec()
                            && mmap@[j].len_spec() == m0[j].len_spec() && mmap@[j].type_spec() == m0[j].type_spec() by {
                            lemma_same_region_at(m0, before, j);
                            if j != i {
                                assert(mmap@[j] == before[j]);
                            }
                        }
                        assert(mmap@.len() == m0.len());
                        assert(same_regions(m0, mmap@));
                        assert(taken(m0, mmap@, pfn as int)) by {
                            assert(page_between(pfn as int, start_of(m0[i]), start_of(mmap@[i])));
                        }
                        assert forall|p: int| #[trigger] taken(m0, before, p) implies taken(m0, mmap@, p) by {
                            let j = choose|j: int|
                                0 <= j < m0.len() && m0[j].type_spec() == MemoryType::Free && #[trigger] page_between(
                                    p,
                                    start_of(m0[j]),
                                    start_of(before[j]),
                                ) && p * 4096 + 4096 <= m0[j].addr_spec() + m0[j].len_spec();
                            assert(page_between(p, start_of(m0[j]), start_of(mmap@[j])));
                        }
                        assert forall|p: usize| p < n && #[trigger] table@[p as int].free_spec() implies t0[p as int].free_spec() || taken(m0, mmap@, p as int) by {
                            if p != pfn {
                                assert(table@[p as int] == tb[p as int]);
                                if !t0[p as int].free_spec() {
                                    assert(taken(m0, before, p as int));
                                }
                            }
                        }
                        assert forall|p: usize| #[trigger] l0.contains(p) implies self.free_spec().contains(p) by {
                            assert(list.contains(p));
                            let k = choose|k: int| 0 <= k < list.len() && list[k] == p;
                            assert(l2[k + 1] == p);
                        }
                        assert forall|p: usize| #[trigger] self.free_spec().contains(p) implies l0.contains(p) || taken(m0, mmap@, p as int) by {
                            let k = choose|k: int| 0 <= k < l2.len() && l2[k] == p;
                            if k > 0 {
                                assert(list[k - 1] == p);
                                assert(list.contains(p));
                                if !l0.contains(p) {
                                    assert(taken(m0, before, p as int));
                                }
                            }
                        }
                        assert forall|p: int| 0 <= p <= usize::MAX && #[trigger] taken(m0, mmap@, p) implies self.free_spec().contains(p as usize) by {
                            let j = choose|j: int|
                                0 <= j < m0.len() && m0[j].type_spec() == MemoryType::Free && #[trigger] page_between(
                                    p,
                                    start_of(m0[j]),
                                    start_of(mmap@[j]),
                                ) && p * 4096 + 4096 <= m0[j].addr_spec() + m0[j].len_spec();
                            if j != i || p * 4096 + 4096 <= start_of(before[i]) {
                                if j != i {
                                    assert(mmap@[j] == before[j]);
                                }
                                assert(page_between(p, start_of(m0[j]), start_of(before[j])));
                                assert(taken(m0, before, p));
                                assert(list.contains(p as usize));
                                let k = choose|k: int| 0 <= k < list.len() && list[k] == p as usize;
                                assert(l2[k + 1] == p as usize);
                            } else {
                                lemma_page_start(p);
                                if start_of(before[i]) != start_of(m0[i]) {
                                    assert(start_of(before[i]) % 4096 == 0);
                                    if p * 4096 < start_of(before[i]) {
                                        lemma_multiples_apart(p * 4096, start_of(before[i]), 4096);
                                    }
                                }
                                assert(start_of(before[i]) <= p * 4096);
                                lemma_multiples_apart(p * 4096, a, 4096);
                                assert(p == pfn);
                                assert(l2[0] == pfn);
                            }
                        }
                        assert forall|j: int| 0 <= j < m0.len() implies #[trigger] start_of(mmap@[j]) % 4096 == 0
                            || start_of(mmap@[j]) == start_of(m0[j]) by {
                            if j == i {
                                lemma_page_start(pfn + 1);
                                assert(start_of(mmap@[j]) == (pfn + 1) * 4096);
                            } else {
                                assert(mmap@[j] == before[j]);
                            }
                        }
                        assert forall|j: int| 0 <= j < m0.len() implies start_of(m0[j]) <= #[trigger] start_of(mmap@[j]) by {
                            if j != i {
                                assert(mmap@[j] == before[j]);
                            }
                        }
                        assert forall|j: int| 0 <= j < mmap@.len() && mmap@[j].type_spec() == MemoryType::Free
                            && start_of(mmap@[j]) <= usize::MAX implies round_up(
                            #[trigger] start_of(mmap@[j]),
                            4096,
                        ) <= usize::MAX by {
                            if j == i {
                                lemma_page_start(pfn + 1);
                                assert(start_of(mmap@[j]) == (pfn + 1) * 4096);
                            } else {
                                assert(mmap@[j] == before[j]);
                            }
                        }
                    }
                },
            }
        }
        proof {
            lemma_took_done(m0, mmap@, l0, self.free_spec(), maps, frames);
        }
    }
}

/// Region `j` keeps its place, size and kind.
proof fn lemma_same_region_at(before: Seq<MemoryRegion>, after: Seq<MemoryRegion>, j: int)
    requires
        same_regions(before, after),
        0 <= j < before.len(),
    ensures
        after[j].addr_spec() == before[j].addr_spec(),
        after[j].len_spec() == before[j].len_spec(),
        after[j].type_spec() == before[j].type_spec(),
{
}

/// The region `first_fit` finds has room for the block.
proof fn lemma_first_fit_found(rs: Seq<MemoryRegion>, size: int, align: int, j: int)
    requires
        first_fit(rs, size, align, j) is Some,
    ensures
        0 <= first_fit(rs, size, align, j)->0 < rs.len(),
        fit(rs[first_fit(rs, size, align, j)->0], size, align) is Some,
    decreases rs.len() - j,
{
    if !(j < 0 || j >= rs.len()) && fit(rs[j], size, align) is None {
        lemma_first_fit_found(rs, size, align, j + 1);
    }
}

} // verus!
