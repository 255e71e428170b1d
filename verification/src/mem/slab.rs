//! A slab: one page cut into equal slots, at most 128, with a bitmap of
//! the free ones.
use vstd::prelude::*;
use crate::mem::layout::{Layout, round_up, checked_next_multiple_of, lemma_round_up, layout_ok};
use crate::mem::page;
use crate::mem::page_alloc::Alloc;
use crate::mem::PageTable;

verus! {

/// Bit `j` of word `w` is set.
pub open spec fn word_bit(w: u64, j: int) -> bool {
    (w >> (j as u64)) & 1u64 == 1u64
}

proof fn lemma_bits(w: u64, k: u64)
    requires
        k < 64,
    ensures
        forall|j: u64| j < 64 ==> (((w & !(1u64 << k)) >> j) & 1u64 == 1u64) == (j != k && (w >> j) & 1u64 == 1u64),
        forall|j: u64| j < 64 ==> (((w | (1u64 << k)) >> j) & 1u64 == 1u64) == (j == k || (w >> j) & 1u64 == 1u64),
        (w & (1u64 << k) == 0) == ((w >> k) & 1u64 != 1u64),
{
    assert forall|j: u64| j < 64 implies (((w & !(1u64 << k)) >> j) & 1u64 == 1u64) == (j != k && (w >> j) & 1u64 == 1u64) by {
        assert(j < 64 && k < 64 ==> (((w & !(1u64 << k)) >> j) & 1u64 == 1u64) == (j != k && (w >> j) & 1u64 == 1u64)) by (bit_vector);
    }
    assert forall|j: u64| j < 64 implies (((w | (1u64 << k)) >> j) & 1u64 == 1u64) == (j == k || (w >> j) & 1u64 == 1u64) by {
        assert(j < 64 && k < 64 ==> (((w | (1u64 << k)) >> j) & 1u64 == 1u64) == (j == k || (w >> j) & 1u64 == 1u64)) by (bit_vector);
    }
    assert(k < 64 ==> (w & (1u64 << k) == 0) == ((w >> k) & 1u64 != 1u64)) by (bit_vector);
}

proof fn lemma_zero_word()
    ensures
        forall|j: u64| j < 64 ==> (0u64 >> j) & 1u64 != 1u64,
{
    assert forall|j: u64| j < 64 implies (0u64 >> j) & 1u64 != 1u64 by {
        assert((0u64 >> j) & 1u64 == 0u64) by (bit_vector);
    }
}

/// A slab of objects of one layout within one page.
pub struct Slab {
    layout: Layout,
    stride: usize,
    capacity: usize,
    available: usize,
    page: usize,
    free_lo: u64,
    free_hi: u64,
}

impl Slab {
    /// Slot `i` is free.
    pub closed spec fn is_free(&self, i: int) -> bool {
        if i < 64 {
            word_bit(self.free_lo, i)
        } else {
            word_bit(self.free_hi, i - 64)
        }
    }

    /// The free slots.
    pub closed spec fn free_set(&self) -> Set<int> {
        Set::new(|i: int| 0 <= i < 128 && self.is_free(i))
    }

    /// Bytes between slots.
    pub closed spec fn stride_spec(&self) -> usize {
        self.stride
    }

    /// Number of slots.
    pub closed spec fn capacity_spec(&self) -> usize {
        self.capacity
    }

    /// Count of free slots kept by the slab.
    pub closed spec fn available_spec(&self) -> usize {
        self.available
    }

    /// Address of the page.
    pub closed spec fn page_spec(&self) -> usize {
        self.page
    }

    /// Layout of the objects.
    pub closed spec fn layout_spec(&self) -> Layout {
        self.layout
    }

    /// The slots are the layout's size rounded up to its alignment, as
    /// many as the page holds; the free slots are slots of the page and
    /// their count is kept.
    pub closed spec fn wf(&self) -> bool {
        &&& layout_ok(self.layout.size_spec(), self.layout.align_spec())
        &&& self.layout.size_spec() > 0
        &&& self.stride as int == round_up(self.layout.size_spec() as int, self.layout.align_spec() as int)
        &&& self.capacity as int == 4096int / (self.stride as int)
        &&& 0 < self.stride
        &&& self.capacity <= 128
        &&& self.stride * self.capacity <= 4096
        &&& self.page + 4096 <= usize::MAX + 1
        &&& forall|i: int| self.capacity <= i < 128 ==> !#[trigger] self.is_free(i)
        &&& self.free_set().finite()
        &&& self.available == self.free_set().len()
    }

    /// The slots handed out and not given back.
    pub open spec fn handed_out(&self) -> Set<int> {
        vstd::set_lib::set_int_range(0, self.capacity_spec() as int).difference(self.free_set())
    }

    /// The slot `alloc` hands out next: the lowest free one.
    pub open spec fn lowest_free(&self) -> int {
        choose|i: int| self.free_set().contains(i) && forall|j: int| 0 <= j < i ==> !self.free_set().contains(j)
    }

    proof fn lemma_free_subset(&self)
        requires
            forall|i: int| self.capacity <= i < 128 ==> !#[trigger] self.is_free(i),
            self.capacity <= 128,
        ensures
            self.free_set().finite(),
            self.free_set().len() <= self.capacity,
            forall|i: int| #[trigger] self.free_set().contains(i) ==> 0 <= i < self.capacity,
    {
        vstd::set_lib::lemma_int_range(0, self.capacity as int);
        assert(self.free_set().subset_of(vstd::set_lib::set_int_range(0, self.capacity as int)));
        vstd::set_lib::lemma_len_subset(self.free_set(), vstd::set_lib::set_int_range(0, self.capacity as int));
    }

    /// A slab for objects of `layout`, every slot free. Slots are the size
    /// rounded up to the alignment. When the page would hold more than 128
    /// slots no frame is asked for and the result is `None`; otherwise the
    /// slab's page is the next frame `alloc` hands out, at the address of
    /// that frame, and the result is `None` when no frame is free.
    pub fn try_new(layout: Layout, alloc: &mut Alloc, table: &mut PageTable) -> (r: Option<Slab>)
        requires
            layout.size_spec() > 0,
            old(alloc).wf(old(table)@),
            old(table)@.len() * 4096 <= usize::MAX + 1,
        ensures
            final(alloc).wf(final(table)@),
            r is Some <==> (4096int / round_up(layout.size_spec() as int, layout.align_spec() as int) <= 128
                && old(alloc).free_spec().len() > 0),
            4096int / round_up(layout.size_spec() as int, layout.align_spec() as int) > 128 ==> *final(alloc)
                == *old(alloc) && final(table)@ == old(table)@,
            old(alloc).free_spec().len() == 0 ==> final(alloc).free_spec() == old(alloc).free_spec()
                && final(table)@ == old(table)@,
            r matches Some(s) ==> {
                let pfn = old(alloc).free_spec()[0];
                &&& final(alloc).free_spec() == old(alloc).free_spec().drop_first()
                &&& final(table)@.len() == old(table)@.len()
                &&& !final(table)@[pfn as int].free_spec()
                &&& final(table)@[pfn as int].pointer_spec() == old(table)@[pfn as int].pointer_spec()
                &&& forall|j: int| 0 <= j < old(table)@.len() && j != pfn ==> final(table)@[j] == old(table)@[j]
                &&& s.wf()
                &&& s.layout_spec() == layout
                &&& s.stride_spec() == round_up(layout.size_spec() as int, layout.align_spec() as int)
                &&& s.capacity_spec() == 4096int / (s.stride_spec() as int)
                &&& s.page_spec() == pfn * 4096
                &&& s.free_set() == vstd::set_lib::set_int_range(0, s.capacity_spec() as int)
                &&& s.available_spec() == s.capacity_spec()
            },
    {
        let size = layout.size();
        let align = layout.align();
        proof {
            lemma_round_up(size as int, align as int);
        }
        let stride = match checked_next_multiple_of(size, align) {
            Some(s) => s,
            None => {
                return None;
            },
        };
        let capacity = 4096 / stride;
        if capacity > 128 {
            return None;
        }
        let pfn = match alloc.alloc_page(table) {
            Some(pfn) => pfn,
            None => {
                return None;
            },
        };
        proof {
            assert(pfn < table@.len());
            assert(pfn * 4096 + 4096 <= table@.len() * 4096) by (nonlinear_arith)
                requires
                    pfn < table@.len(),
            ;
        }
        let page = pfn * page::SIZE;
        let mut lo: u64 = 0;
        let mut hi: u64 = 0;
        let mut i: usize = 0;
        proof {
            lemma_zero_word();
        }
        while i < capacity
            invariant
                i <= capacity <= 128,
                forall|j: u64| j < 64 ==> (((lo >> j) & 1u64 == 1u64) <==> (j as int) < i),
                forall|j: u64| j < 64 ==> (((hi >> j) & 1u64 == 1u64) <==> (j as int) + 64 < i),
            decreases capacity - i,
        {
            let bit = (i % 64) as u64;
            proof {
                lemma_bits(lo, bit);
                lemma_bits(hi, bit);
                if i < 64 {
                    assert(i / 64 == 0 && bit == i);
                } else {
                    assert(i / 64 == 1 && bit == i - 64);
                }
            }
            let ghost lo0 = lo;
            let ghost hi0 = hi;
            if i / 64 == 0 {
                lo = lo | (1u64 << bit);
            } else {
                hi = hi | (1u64 << bit);
            }
            i = i + 1;
            assert forall|j: u64| j < 64 implies (((lo >> j) & 1u64 == 1u64) <==> (j as int) < i) by {
                assert(((lo0 >> j) & 1u64 == 1u64) <==> (j as int) < i - 1);
            }
            assert forall|j: u64| j < 64 implies (((hi >> j) & 1u64 == 1u64) <==> (j as int) + 64 < i) by {
                assert(((hi0 >> j) & 1u64 == 1u64) <==> (j as int) + 64 < i - 1);
            }
        }
        let s = Slab {
            layout,
            stride,
            capacity,
            available: capacity,
            page,
            free_lo: lo,
            free_hi: hi,
        };
        proof {
            assert forall|k: int| 0 <= k < 128 implies s.is_free(k) == (k < capacity) by {
                if k < 64 {
                    assert(((lo >> (k as u64)) & 1u64 == 1u64) <==> (k as u64 as int) < capacity);
                } else {
                    assert(((hi >> ((k - 64) as u64)) & 1u64 == 1u64) <==> ((k - 64) as u64 as int) + 64 < capacity);
                }
            }
            vstd::set_lib::lemma_int_range(0, capacity as int);
            assert(s.free_set() =~= vstd::set_lib::set_int_range(0, capacity as int));
            assert(stride * capacity <= 4096) by (nonlinear_arith)
                requires
                    capacity == 4096usize / stride,
                    stride > 0,
            ;
        }
        Some(s)
    }

    /// Layout of the objects.
    pub fn layout(&self) -> (r: Layout)
        ensures
            r == self.layout_spec(),
    {
        self.layout
    }

    /// Bytes between slots.
    pub fn stride(&self) -> (r: usize)
        ensures
            r == self.stride_spec(),
    {
        self.stride
    }

    /// Number of free slots.
    pub fn available(&self) -> (r: usize)
        ensures
            r == self.available_spec(),
    {
        self.available
    }

    /// Number of slots.
    pub fn capacity(&self) -> (r: usize)
        ensures
            r == self.capacity_spec(),
    {
        self.capacity
    }
}


impl Slab {
    /// Takes the lowest free slot and returns the address the slab hands
    /// out for it: the slot's own address for slots 0 to 63, and for slots
    /// 64 to 127 the address of the slot 64 below, as the bitmap's upper
    /// word is read. `None` when no slot is free.
    pub fn allocate(&mut self) -> (r: Option<usize>)
        requires
            old(self).wf(),
        ensures
            final(self).wf(),
            old(self).free_set().len() == 0 <==> r is None,
            r is None ==> *final(self) == *old(self),
            same_shape(*old(self), *final(self)),
            alloc_step(*old(self), *final(self), r),
            r matches Some(p) ==> {
                let i = old(self).lowest_free();
                &&& old(self).free_set().contains(i)
                &&& forall|j: int| 0 <= j < i ==> !old(self).free_set().contains(j)
                &&& final(self).free_set() == old(self).free_set().remove(i)
                &&& final(self).available_spec() == old(self).available_spec() - 1
                &&& p == old(self).page_spec() + old(self).stride_spec() * (i % 64)
                &&& final(self).page_spec() == old(self).page_spec()
                &&& final(self).stride_spec() == old(self).stride_spec()
                &&& final(self).capacity_spec() == old(self).capacity_spec()
                &&& final(self).layout_spec() == old(self).layout_spec()
            },
    {
        proof {
            self.lemma_free_subset();
            vstd::std_specs::bits::axiom_u64_trailing_zeros(self.free_lo);
            vstd::std_specs::bits::axiom_u64_trailing_zeros(self.free_hi);
            lemma_zero_word();
        }
        let ghost old_set = self.free_set();
        let ghost k: int;
        let index: u32;
        if self.free_lo != 0 {
            index = self.free_lo.trailing_zeros();
            proof {
                k = index as int;
                lemma_bits(self.free_lo, index as u64);
                assert(old_set.contains(k));
                assert forall|j: int| 0 <= j < k implies !old_set.contains(j) by {
                    assert((self.free_lo >> (j as u64)) & 1u64 == 0u64);
                }
            }
            self.free_lo = self.free_lo & !(1u64 << index);
        } else if self.free_hi != 0 {
            index = self.free_hi.trailing_zeros();
            proof {
                k = index as int + 64;
                lemma_bits(self.free_hi, index as u64);
                assert(old_set.contains(k));
                assert forall|j: int| 0 <= j < k implies !old_set.contains(j) by {
                    if j >= 64 {
                        assert((self.free_hi >> ((j - 64) as u64)) & 1u64 == 0u64);
                    }
                }
            }
            self.free_hi = self.free_hi & !(1u64 << index);
        } else {
            proof {
                assert(old_set =~= Set::<int>::empty());
            }
            return None;
        }
        proof {
            let low = old(self).lowest_free();
            assert(old_set.contains(k) && forall|j: int| 0 <= j < k ==> !old_set.contains(j));
            assert(old_set.contains(low) && forall|j: int| 0 <= j < low ==> !old_set.contains(j));
            assert(low == k);
            assert(self.free_set() =~= old_set.remove(k)) by {
                assert forall|j: int| 0 <= j < 128 implies self.is_free(j) == (old(self).is_free(j) && j != k) by {
                    if j < 64 {
                        assert(((self.free_lo >> (j as u64)) & 1u64 == 1u64) == ((old(self).free_lo >> (j as u64)) & 1u64 == 1u64 && (j != k)));
                    } else {
                        assert(((self.free_hi >> ((j - 64) as u64)) & 1u64 == 1u64) == ((old(self).free_hi >> ((j - 64) as u64)) & 1u64 == 1u64 && (j != k)));
                    }
                }
            }
            assert(k < self.capacity);
            assert(self.stride * (index as int) + self.stride <= self.stride * self.capacity) by (nonlinear_arith)
                requires
                    index as int <= k,
                    k < self.capacity,
                    0 < self.stride,
            ;
            assert(k % 64 == index as int);
        }
        self.available = self.available - 1;
        proof {
            vstd::set::axiom_set_remove_len(old_set, k);
            vstd::set::axiom_set_remove_finite(old_set, k);
            assert(self.free_set() == old_set.remove(k));
            assert(self.free_set().len() == old_set.len() - 1);
            assert forall|i: int| self.capacity <= i < 128 implies !#[trigger] self.is_free(i) by {
                assert(!old_set.contains(i));
                assert(!self.free_set().contains(i));
            }
        }
        let ptr = self.page + self.stride * (index as usize);
        Some(ptr)
    }

    /// Gives back the object at `ptr`, which must be the address of a slot
    /// of this slab that is not free.
    pub fn dealloc(&mut self, ptr: usize)
        requires
            old(self).wf(),
            old(self).page_spec() <= ptr,
            (ptr - old(self).page_spec()) % (old(self).stride_spec() as int) == 0,
            (ptr - old(self).page_spec()) / (old(self).stride_spec() as int) < old(self).capacity_spec(),
            !old(self).free_set().contains((ptr - old(self).page_spec()) / (old(self).stride_spec() as int)),
        ensures
            final(self).wf(),
            final(self).free_set() == old(self).free_set().insert((ptr - old(self).page_spec()) / (old(
                self,
            ).stride_spec() as int)),
            final(self).available_spec() == old(self).available_spec() + 1,
            same_shape(*old(self), *final(self)),
            dealloc_step(*old(self), *final(self), ptr),
            final(self).page_spec() == old(self).page_spec(),
            final(self).stride_spec() == old(self).stride_spec(),
            final(self).capacity_spec() == old(self).capacity_spec(),
            final(self).layout_spec() == old(self).layout_spec(),
    {
        let offset = ptr - self.page;
        let obj_index = offset / self.stride;
        let word = obj_index / 64;
        let bit = (obj_index % 64) as u64;
        let ghost old_set = self.free_set();
        let ghost k = obj_index as int;
        proof {
            self.lemma_free_subset();
            lemma_bits(self.free_lo, bit);
            lemma_bits(self.free_hi, bit);
            if k < 64 {
                assert(word == 0 && bit == k);
            } else {
                assert(word == 1 && bit == k - 64);
            }
            vstd::set_lib::lemma_int_range(0, self.capacity as int);
            assert(old_set.subset_of(vstd::set_lib::set_int_range(0, self.capacity as int).remove(k)));
            vstd::set_lib::lemma_len_subset(old_set, vstd::set_lib::set_int_range(0, self.capacity as int).remove(k));
        }
        if word == 0 {
            self.free_lo = self.free_lo | (1u64 << bit);
        } else {
            self.free_hi = self.free_hi | (1u64 << bit);
        }
        proof {
            assert(self.free_set() =~= old_set.insert(k)) by {
                assert forall|j: int| 0 <= j < 128 implies self.is_free(j) == (old(self).is_free(j) || j == k) by {
                    if j < 64 {
                        assert(((self.free_lo >> (j as u64)) & 1u64 == 1u64) == ((old(self).free_lo >> (j as u64)) & 1u64 == 1u64 || (j == k)));
                    } else {
                        assert(((self.free_hi >> ((j - 64) as u64)) & 1u64 == 1u64) == ((old(self).free_hi >> ((j - 64) as u64)) & 1u64 == 1u64 || (j == k)));
                    }
                }
            }
        }
        self.available = self.available + 1;
        proof {
            vstd::set::axiom_set_insert_len(old_set, k);
            vstd::set::axiom_set_insert_finite(old_set, k);
            assert(self.free_set() == old_set.insert(k));
            assert(self.free_set().len() == old_set.len() + 1);
            assert forall|i: int| self.capacity <= i < 128 implies !#[trigger] self.is_free(i) by {
                assert(!old_set.contains(i));
                assert(!self.free_set().contains(i));
            }
        }
    }

    /// Gives up the slab, every slot free again: its frame goes back on
    /// top of the page allocator's free stack, and the result is the
    /// page's address. The frame must not be free already.
    pub fn release(self, alloc: &mut Alloc, table: &mut PageTable) -> (r: usize)
        requires
            self.wf(),
            self.available_spec() == self.capacity_spec(),
            old(alloc).wf(old(table)@),
            self.page_spec() / 4096 < old(table)@.len(),
            !old(table)@[(self.page_spec() / 4096) as int].free_spec(),
        ensures
            r == self.page_spec(),
            final(alloc).wf(final(table)@),
            final(alloc).free_spec() == seq![(self.page_spec() / 4096) as usize] + old(alloc).free_spec(),
            final(table)@.len() == old(table)@.len(),
            final(table)@[(self.page_spec() / 4096) as int].free_spec(),
            forall|j: int| 0 <= j < old(table)@.len() && j != (self.page_spec() / 4096) as int ==> final(table)@[j] == old(
                table,
            )@[j],
    {
        alloc.free_page(table, self.page / page::SIZE);
        self.page
    }
}

/// Releasing a slab undoes making it: the page allocator's free stack is
/// as it was before `try_new` took the slab's frame. `before` is the free
/// stack before `try_new`, `between` after it, `page` the new slab's page
/// and `after` the free stack after `release`.
pub proof fn law_release_undoes_try_new(before: Seq<usize>, between: Seq<usize>, page: int, after: Seq<usize>)
    requires
        before.len() > 0,
        between == before.drop_first(),
        page == before[0] * 4096,
        after == seq![(page / 4096) as usize] + between,
    ensures
        after == before,
{
    assert(page / 4096 == before[0]);
    assert(after =~= before);
}

/// Handing back the address `allocate` gave for a slot below 64 meets
/// what `dealloc` asks and frees that slot again, so the free slots are
/// as before: `before` is the slab `allocate` was called on, `after` the
/// slab it left, `i` the slot it took and `p` the address it returned.
pub proof fn law_dealloc_undoes_allocate(before: Slab, after: Slab, i: int, p: int)
    requires
        before.wf(),
        before.free_set().contains(i),
        i < 64,
        after.free_set() == before.free_set().remove(i),
        p == before.page_spec() + before.stride_spec() * (i % 64),
        after.page_spec() == before.page_spec(),
        after.stride_spec() == before.stride_spec(),
        after.capacity_spec() == before.capacity_spec(),
    ensures
        after.page_spec() <= p,
        (p - after.page_spec()) % (after.stride_spec() as int) == 0,
        (p - after.page_spec()) / (after.stride_spec() as int) == i,
        i < after.capacity_spec(),
        !after.free_set().contains(i),
        after.free_set().insert(i) == before.free_set(),
{
    before.lemma_free_subset();
    let d = before.stride_spec() as int;
    vstd::arithmetic::div_mod::lemma_small_mod(i as nat, 64);
    assert(0 <= d * i) by (nonlinear_arith)
        requires
            0 < d,
            0 <= i,
    ;
    vstd::arithmetic::div_mod::lemma_mod_multiples_basic(i, d);
    vstd::arithmetic::div_mod::lemma_div_multiples_vanish(i, d);
    assert(i * d == d * i) by (nonlinear_arith);
    assert(after.free_set().insert(i) =~= before.free_set());
}

/// The count of available slots is the number of free slots, and never
/// more than the slab's capacity: it is the capacity less the slots
/// handed out and not given back.
pub proof fn law_available_counts_free(slab: &Slab)
    requires
        slab.wf(),
    ensures
        slab.available_spec() == slab.free_set().len(),
        slab.available_spec() <= slab.capacity_spec(),
        slab.available_spec() == slab.capacity_spec() - slab.handed_out().len(),
{
    slab.lemma_free_subset();
    let all = vstd::set_lib::set_int_range(0, slab.capacity_spec() as int);
    vstd::set_lib::lemma_int_range(0, slab.capacity_spec() as int);
    vstd::set_lib::lemma_set_difference_len(all, slab.free_set());
    assert(all.intersect(slab.free_set()) =~= slab.free_set());
}

/// A slab's slots: each is the layout's size rounded up to its alignment,
/// so a multiple of the alignment, no smaller than the size and less than
/// the size plus the alignment; at least 32 bytes, as a page holds at
/// most 128 slots; and the page holds as many as fit.
pub proof fn law_stride_fits_layout(slab: &Slab)
    requires
        slab.wf(),
    ensures
        slab.stride_spec() % slab.layout_spec().align_spec() == 0,
        slab.layout_spec().size_spec() <= slab.stride_spec(),
        slab.stride_spec() < slab.layout_spec().size_spec() + slab.layout_spec().align_spec(),
        slab.stride_spec() >= 32,
        slab.capacity_spec() == 4096int / (slab.stride_spec() as int),
{
    let st = slab.stride_spec() as int;
    lemma_round_up(slab.layout_spec().size_spec() as int, slab.layout_spec().align_spec() as int);
    assert(st >= 32) by {
        if st < 32 {
            // A smaller slot would fit more than 128 times.
            vstd::arithmetic::div_mod::lemma_div_is_ordered_by_denominator(4096, st, 31);
            assert(4096int / 31 == 132);
        }
    }
}

/// The slab's page, slot size, slot count and layout.
pub open spec fn same_shape(a: Slab, b: Slab) -> bool {
    &&& a.layout_spec() == b.layout_spec()
    &&& a.stride_spec() == b.stride_spec()
    &&& a.capacity_spec() == b.capacity_spec()
    &&& a.page_spec() == b.page_spec()
}

/// Over any run of `allocate` and `dealloc` calls a slab keeps its
/// layout, slot size, slot count and page: `states` holds the slab before
/// each call and after the last, each call leaving the shape as its
/// contract says.
pub proof fn law_shape_kept(states: Seq<Slab>)
    requires
        forall|k: int| 0 <= k < states.len() - 1 ==> same_shape(#[trigger] states[k], states[k + 1]),
    ensures
        forall|k: int| 0 <= k < states.len() ==> same_shape(states[0], #[trigger] states[k]),
    decreases states.len(),
{
    if states.len() > 1 {
        let init = states.drop_last();
        assert forall|k: int| 0 <= k < init.len() - 1 implies same_shape(#[trigger] init[k], init[k + 1]) by {
            assert(init[k] == states[k] && init[k + 1] == states[k + 1]);
        }
        law_shape_kept(init);
        let n = states.len() - 1;
        assert(init[n - 1] == states[n - 1]);
        assert(same_shape(states[n - 1], states[n]));
        assert forall|k: int| 0 <= k < states.len() implies same_shape(states[0], #[trigger] states[k]) by {
            if k < n {
                assert(init[k] == states[k]);
            }
        }
    }
}

/// One call of `allocate`, taking the slab `before` to `after` and
/// returning `r`: the lowest free slot `i` is taken and its address
/// handed out, as the bitmap word it lies in reads it; or, with no slot
/// free, nothing changes.
pub open spec fn alloc_step(before: Slab, after: Slab, r: Option<usize>) -> bool {
    &&& after.wf()
    &&& same_shape(before, after)
    &&& (before.free_set().len() == 0 <==> r is None)
    &&& r is None ==> after == before
    &&& r matches Some(p) ==> exists|i: int|
        #[trigger] before.free_set().contains(i) && (forall|j: int| 0 <= j < i ==> !before.free_set().contains(j))
            && after.free_set() == before.free_set().remove(i) && after.available_spec() == before.available_spec()
            - 1 && p == before.page_spec() + before.stride_spec() * (i % 64)
}

/// One call of `dealloc`, taking the slab `before` to `after`: the slot at
/// `ptr` is free again.
pub open spec fn dealloc_step(before: Slab, after: Slab, ptr: usize) -> bool {
    &&& after.wf()
    &&& same_shape(before, after)
    &&& after.free_set() == before.free_set().insert((ptr - before.page_spec()) / (before.stride_spec() as int))
    &&& after.available_spec() == before.available_spec() + 1
}

/// After `k` calls of `allocate` on a slab with every slot free, the
/// first `k` slots (or all of them) are taken.
proof fn lemma_fresh_run(states: Seq<Slab>, results: Seq<Option<usize>>, k: int)
    requires
        states.len() == results.len() + 1,
        states[0].wf(),
        states[0].free_set() == vstd::set_lib::set_int_range(0, states[0].capacity_spec() as int),
        forall|j: int| 0 <= j < results.len() ==> alloc_step(#[trigger] states[j], states[j + 1], results[j]),
        0 <= k <= results.len(),
    ensures
        states[k].wf(),
        same_shape(states[0], states[k]),
        states[k].free_set() == vstd::set_lib::set_int_range(
            if k < states[0].capacity_spec() { k } else { states[0].capacity_spec() as int },
            states[0].capacity_spec() as int,
        ),
        states[k].available_spec() == states[0].capacity_spec() - (if k < states[0].capacity_spec() {
            k
        } else {
            states[0].capacity_spec() as int
        }),
    decreases k,
{
    let c = states[0].capacity_spec() as int;
    if k == 0 {
        law_available_counts_free(&states[0]);
        vstd::set_lib::lemma_int_range(0, c);
    } else {
        lemma_fresh_run(states, results, k - 1);
        let b = states[k - 1];
        let a = states[k];
        assert(alloc_step(b, a, results[k - 1]));
        let lo = if k - 1 < c { k - 1 } else { c };
        vstd::set_lib::lemma_int_range(lo, c);
        if k - 1 < c {
            assert(b.free_set().contains(k - 1));
            let p = results[k - 1]->0;
            let i = choose|i: int|
                #[trigger] b.free_set().contains(i) && (forall|j: int| 0 <= j < i ==> !b.free_set().contains(j))
                    && a.free_set() == b.free_set().remove(i) && a.available_spec() == b.available_spec() - 1 && p
                    == b.page_spec() + b.stride_spec() * (i % 64);
            if i != k - 1 {
                assert(!b.free_set().contains(k - 1));
            }
            assert(a.free_set() =~= vstd::set_lib::set_int_range(k, c));
        } else {
            assert(b.free_set() =~= Set::<int>::empty());
        }
    }
}

/// Over a run of `allocate` calls on a slab with every slot free, call
/// `k` hands out slot `k` for as long as slots last, as the slot's bitmap
/// word reads it (the address of slot `k % 64`), leaving `k + 1` slots
/// taken; once every slot is taken, a call hands out nothing and changes
/// nothing. Below slot 64 the addresses handed out are all different.
/// `states` holds the slab before each call and after the last,
/// `results` what each call returned.
pub proof fn law_fresh_slab_allocations(states: Seq<Slab>, results: Seq<Option<usize>>)
    requires
        states.len() == results.len() + 1,
        states[0].wf(),
        states[0].free_set() == vstd::set_lib::set_int_range(0, states[0].capacity_spec() as int),
        forall|k: int| 0 <= k < results.len() ==> alloc_step(#[trigger] states[k], states[k + 1], results[k]),
    ensures
        forall|k: int|
            0 <= k < results.len() && k < states[0].capacity_spec() ==> (#[trigger] results[k] matches Some(p) && p
                == states[0].page_spec() + states[0].stride_spec() * (k % 64)) && states[k + 1].available_spec()
                == states[0].capacity_spec() - k - 1,
        forall|k: int|
            0 <= k < results.len() && k >= states[0].capacity_spec() ==> #[trigger] results[k] is None && states[k
                + 1] == states[k],
        forall|k1: int, k2: int|
            0 <= k1 < k2 < results.len() && k2 < states[0].capacity_spec() && k2 < 64 ==> #[trigger] results[k1]
                != #[trigger] results[k2],
{
    let c = states[0].capacity_spec() as int;
    let base = states[0].page_spec() as int;
    let st = states[0].stride_spec() as int;
    law_stride_fits_layout(&states[0]);
    assert forall|k: int| 0 <= k < results.len() implies {
        &&& k < c ==> (#[trigger] results[k] matches Some(p) && p == base + st * (k % 64))
            && states[k + 1].available_spec() == c - k - 1
        &&& k >= c ==> results[k] is None && states[k + 1] == states[k]
    } by {
        lemma_fresh_run(states, results, k);
        lemma_fresh_run(states, results, k + 1);
        let b = states[k];
        let a = states[k + 1];
        assert(alloc_step(b, a, results[k]));
        let lo = if k < c { k } else { c };
        vstd::set_lib::lemma_int_range(lo, c);
        if k < c {
            assert(b.free_set().contains(k));
            let p = results[k]->0;
            let i = choose|i: int|
                #[trigger] b.free_set().contains(i) && (forall|j: int| 0 <= j < i ==> !b.free_set().contains(j))
                    && a.free_set() == b.free_set().remove(i) && a.available_spec() == b.available_spec() - 1 && p
                    == b.page_spec() + b.stride_spec() * (i % 64);
            if i != k {
                assert(!b.free_set().contains(k));
            }
        } else {
            assert(b.free_set() =~= Set::<int>::empty());
        }
    }
    assert forall|k1: int, k2: int|
        0 <= k1 < k2 < results.len() && k2 < c && k2 < 64 implies #[trigger] results[k1] != #[trigger] results[k2] by {
        assert(k1 < c);
        vstd::arithmetic::div_mod::lemma_small_mod(k1 as nat, 64);
        vstd::arithmetic::div_mod::lemma_small_mod(k2 as nat, 64);
        assert(st * k1 < st * k2) by (nonlinear_arith)
            requires
                0 < st,
                k1 < k2,
        ;
    }
}

/// One call of `allocate` or of `dealloc`, taking the slab `before` to
/// `after`.
pub open spec fn slab_step(before: Slab, after: Slab) -> bool {
    (exists|r: Option<usize>| #[trigger] alloc_step(before, after, r)) || (exists|p: usize|
        #[trigger] dealloc_step(before, after, p))
}

/// Over any run of `allocate` and `dealloc` calls a slab stays well
/// formed, keeps its layout, slot size, slot count and page, and counts
/// as available its capacity less the slots handed out and not given
/// back. `states` holds the slab before each call and after the last.
pub proof fn law_slab_run(states: Seq<Slab>)
    requires
        states.len() >= 1,
        states[0].wf(),
        forall|k: int| 0 <= k < states.len() - 1 ==> #[trigger] slab_step(states[k], states[k + 1]),
    ensures
        forall|k: int|
            #![trigger states[k]]
            0 <= k < states.len() ==> states[k].wf() && same_shape(states[0], states[k])
                && states[k].available_spec() == states[k].capacity_spec() - states[k].handed_out().len(),
    decreases states.len(),
{
    if states.len() > 1 {
        let init = states.drop_last();
        let n = states.len() - 1;
        assert forall|k: int| 0 <= k < init.len() - 1 implies #[trigger] slab_step(init[k], init[k + 1]) by {
            assert(init[k] == states[k] && init[k + 1] == states[k + 1]);
            assert(slab_step(states[k], states[k + 1]));
        }
        law_slab_run(init);
        assert(init[n - 1] == states[n - 1]);
        assert(init[n - 1].wf() && same_shape(init[0], init[n - 1]));
        assert(init[0] == states[0]);
        assert(states[n - 1].wf() && same_shape(states[0], states[n - 1]));
        assert(states[n].wf() && same_shape(states[n - 1], states[n])) by {
            let m = n - 1;
            assert(slab_step(states[m], states[m + 1]));
            if exists|r: Option<usize>| #[trigger] alloc_step(states[n - 1], states[n], r) {
                let r = choose|r: Option<usize>| #[trigger] alloc_step(states[n - 1], states[n], r);
            } else {
                let p = choose|p: usize| #[trigger] dealloc_step(states[n - 1], states[n], p);
            }
        }
        law_available_counts_free(&states[n]);
        assert forall|k: int| #![trigger states[k]] 0 <= k < states.len() implies states[k].wf() && same_shape(states[0], states[k])
            && states[k].available_spec() == states[k].capacity_spec() - states[k].handed_out().len() by {
            if k < n {
                assert(init[k] == states[k]);
                assert(init[k].wf());
            }
        }
    } else {
        law_available_counts_free(&states[0]);
    }
}

} // verus!
