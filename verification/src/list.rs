//! A circular doubly-linked list threaded through link records, with a
//! sentinel record at its head. Each item is named by a handle: the number
//! of its link record. Handle 0 is the sentinel.
use vstd::prelude::*;

verus! {

/// The two links of one record; `None` is a null link.
#[derive(Clone, Copy, Debug)]
pub struct Raw {
    prev: Option<usize>,
    next: Option<usize>,
}

impl Raw {
    /// A record whose links are both null.
    pub fn new() -> (r: Raw)
        ensures
            r.is_null(),
    {
        Raw { prev: None, next: None }
    }

    /// Both links are null.
    pub closed spec fn is_null(&self) -> bool {
        self.prev is None && self.next is None
    }

    /// The record of item `x` links nowhere: both links are null or both
    /// point back at `x`.
    pub closed spec fn is_terminal(&self, x: usize) -> bool {
        self.prev == self.next && (self.next is None || self.next == Some(x))
    }
}

/// The link record that an item of a list carries.
#[derive(Clone, Copy, Debug)]
pub struct Links(Raw);

impl Links {
    /// A record that is in no list.
    pub fn new() -> (r: Links)
        ensures
            r.raw().is_null(),
    {
        Links(Raw::new())
    }

    /// The record's links.
    pub closed spec fn raw(&self) -> Raw {
        self.0
    }
}

/// The item after position `i` of `s`, or the sentinel after the last one.
pub open spec fn succ(s: Seq<usize>, i: int) -> usize {
    if i + 1 < s.len() {
        s[i + 1]
    } else {
        0
    }
}

/// The item before position `i` of `s`, or the sentinel before the first.
pub open spec fn pred(s: Seq<usize>, i: int) -> usize {
    if i > 0 {
        s[i - 1]
    } else {
        0
    }
}

/// The first item, or the sentinel when there is none.
pub open spec fn first_or_sentinel(s: Seq<usize>) -> usize {
    if s.len() == 0 {
        0
    } else {
        s[0]
    }
}

/// The last item, or the sentinel when there is none.
pub open spec fn last_or_sentinel(s: Seq<usize>) -> usize {
    if s.len() == 0 {
        0
    } else {
        s[s.len() - 1]
    }
}

/// A list of items named by handles.
pub struct List {
    nodes: Vec<Links>,
    len: usize,
    items: Ghost<Seq<usize>>,
}

impl View for List {
    type V = Seq<usize>;

    /// The handles of the items, front to back.
    closed spec fn view(&self) -> Seq<usize> {
        self.items@
    }
}

/// A sequence of distinct numbers from `lo` up to `n` holds at most
/// `n - lo` of them.
pub proof fn lemma_distinct_below(s: Seq<usize>, lo: int, n: int)
    requires
        s.no_duplicates(),
        forall|i: int| 0 <= i < s.len() ==> lo <= #[trigger] s[i] < n,
    ensures
        s.len() <= n - lo || s.len() == 0,
{
    let f = |x: usize| x as int;
    assert(vstd::relations::injective(f));
    s.lemma_no_duplicates_injective(f);
    let t = s.map_values(f);
    t.unique_seq_to_set();
    if lo <= n {
        vstd::set_lib::lemma_int_range(lo, n);
        assert forall|x: int| t.to_set().contains(x) implies vstd::set_lib::set_int_range(lo, n).contains(x) by {
            let i = choose|i: int| 0 <= i < t.len() && t[i] == x;
            assert(t[i] == s[i] as int);
        }
        vstd::set_lib::lemma_len_subset(t.to_set(), vstd::set_lib::set_int_range(lo, n));
    } else if s.len() > 0 {
        assert(lo <= s[0] < n);
    }
}

/// The records `l` link the items `s` in order, the records of other
/// items link nowhere, and the sentinel links to the ends or is null.
spec fn links_ok(l: Seq<Links>, s: Seq<usize>) -> bool {
    &&& 1 <= l.len() <= usize::MAX
    &&& s.no_duplicates()
    &&& forall|i: int| 0 <= i < s.len() ==> 1 <= #[trigger] s[i] < l.len()
    &&& forall|i: int|
        0 <= i < s.len() ==> (#[trigger] l[s[i] as int]).0.next == Some(succ(s, i))
            && l[s[i] as int].0.prev == Some(pred(s, i))
    &&& forall|x: int|
        1 <= x < l.len() && !s.contains(x as usize) ==> (#[trigger] l[x]).0.is_terminal(x as usize)
    &&& if l[0].0.next is Some || l[0].0.prev is Some {
        l[0].0.next == Some(first_or_sentinel(s)) && l[0].0.prev == Some(last_or_sentinel(s))
    } else {
        s.len() == 0
    }
}

impl List {
    /// The list is consistent: its records link its items in order,
    /// records of other items link nowhere, and its length is counted.
    pub closed spec fn wf(&self) -> bool {
        &&& links_ok(self.nodes@, self.items@)
        &&& self.len == self.items@.len()
    }

    /// The sentinel is linked to itself or to items.
    pub closed spec fn is_init_spec(&self) -> bool {
        self.nodes@[0].0.next is Some
    }

    /// Number of link records held, the sentinel's included.
    pub closed spec fn capacity(&self) -> nat {
        self.nodes@.len()
    }

    /// A list whose sentinel is not linked yet.
    pub fn new() -> (r: Self)
        ensures
            r.wf(),
            !r.is_init_spec(),
            r@ == Seq::<usize>::empty(),
    {
        let mut nodes: Vec<Links> = Vec::new();
        nodes.push(Links::new());
        assert(nodes@.len() == 1);
        List { nodes, len: 0, items: Ghost(Seq::empty()) }
    }

    /// Links the sentinel to itself: the list is then empty and usable.
    pub fn init(&mut self)
        requires
            old(self).wf(),
            !old(self).is_init_spec(),
        ensures
            final(self).wf(),
            final(self).is_init_spec(),
            final(self)@ == Seq::<usize>::empty(),
            final(self).capacity() == old(self).capacity(),
    {
        self.nodes.set(0, Links(Raw { prev: Some(0), next: Some(0) }));
        assert forall|x: int| 1 <= x < self.nodes@.len() && !self.items@.contains(x as usize) implies (#[trigger] self.nodes@[x]).0.is_terminal(x as usize) by {
            assert(self.nodes@[x] == old(self).nodes@[x]);
        }
    }

    /// Number of items.
    pub fn len(&self) -> (r: usize)
        requires
            self.wf(),
        ensures
            r == self@.len(),
    {
        self.len
    }

    /// Whether the sentinel has been linked.
    pub fn is_init(&self) -> (r: bool)
        requires
            self.wf(),
        ensures
            r == self.is_init_spec(),
    {
        let sentinel = self.nodes[0].0;
        sentinel.prev.is_some() && sentinel.next.is_some()
    }

    /// Whether the list holds no item.
    pub fn is_empty(&self) -> (r: bool)
        requires
            self.wf(),
        ensures
            r == (self@.len() == 0),
    {
        self.len == 0
    }

    /// Handle of the first item.
    pub fn front(&self) -> (r: Option<usize>)
        requires
            self.wf(),
            self.is_init_spec(),
        ensures
            r == (if self@.len() == 0 { None } else { Some(self@[0]) }),
    {
        if self.is_empty() {
            None
        } else {
            Some(self.nodes[0].0.next.unwrap())
        }
    }

    /// Handle of the last item.
    pub fn back(&self) -> (r: Option<usize>)
        requires
            self.wf(),
            self.is_init_spec(),
        ensures
            r == (if self@.len() == 0 { None } else { Some(self@[self@.len() - 1]) }),
    {
        if self.is_empty() {
            None
        } else {
            Some(self.nodes[0].0.prev.unwrap())
        }
    }
}


impl List {
    /// Replaces the record of `x`.
    fn set_raw(&mut self, x: usize, r: Raw)
        requires
            x < old(self).nodes@.len(),
        ensures
            final(self).nodes@ == old(self).nodes@.update(x as int, Links(r)),
            final(self).len == old(self).len,
            final(self).items == old(self).items,
    {
        self.nodes.set(x, Links(r));
    }

    /// Links item `this` in after `head`, at position `k` of the list.
    fn link(&mut self, this: usize, head: usize, Ghost(k): Ghost<int>)
        requires
            old(self).wf(),
            old(self).is_init_spec(),
            1 <= this < old(self).nodes@.len(),
            !old(self)@.contains(this),
            0 <= k <= old(self)@.len(),
            head == (if k == 0 { 0 } else { old(self)@[k - 1] }),
        ensures
            final(self).wf(),
            final(self).is_init_spec(),
            final(self)@ == old(self)@.insert(k, this),
            final(self).capacity() == old(self).capacity(),
    {
        let ghost s = self.items@;
        let ghost l0 = self.nodes@;
        let cap = self.nodes.len();
        proof {
            lemma_distinct_below(s, 1, l0.len() as int);
            if k > 0 {
                assert(1 <= s[k - 1] < l0.len());
                assert(l0[s[k - 1] as int].0.next == Some(succ(s, k - 1)));
            }
        }
        let next = self.nodes[head].0.next.unwrap();
        assert(next == (if k < s.len() { s[k] } else { 0 }));
        proof {
            lemma_link(l0, s, k, this, head, next);
        }
        self.set_raw(this, Raw { prev: Some(head), next: Some(next) });
        let mut h = self.nodes[head].0;
        h.next = Some(this);
        self.set_raw(head, h);
        let mut n = self.nodes[next].0;
        n.prev = Some(this);
        self.set_raw(next, n);
        self.len = self.len + 1;
        proof {
            self.items@ = s.insert(k, this);
        }
    }
}

/// The records after item `this` is linked in after `head`, whose
/// successor was `next`.
spec fn linked(l: Seq<Links>, this: usize, head: usize, next: usize) -> Seq<Links> {
    let l1 = l.update(this as int, Links(Raw { prev: Some(head), next: Some(next) }));
    let l2 = l1.update(head as int, Links(Raw { prev: l1[head as int].0.prev, next: Some(this) }));
    l2.update(next as int, Links(Raw { prev: Some(this), next: l2[next as int].0.next }))
}

/// What linking an item needs: it is outside the list, `head` is the
/// item before position `k` and `next` the one at it.
spec fn link_pre(l: Seq<Links>, s: Seq<usize>, k: int, this: usize, head: usize, next: usize) -> bool {
    &&& links_ok(l, s)
    &&& l[0].0.next is Some
    &&& 1 <= this < l.len()
    &&& !s.contains(this)
    &&& 0 <= k <= s.len()
    &&& head == (if k == 0 { 0 } else { s[k - 1] })
    &&& next == (if k < s.len() { s[k] } else { 0 })
}

/// Linking an item in keeps the records consistent with the items, the
/// new one inserted.
proof fn lemma_link(l0: Seq<Links>, s: Seq<usize>, k: int, this: usize, head: usize, next: usize)
    requires
        link_pre(l0, s, k, this, head, next),
    ensures
        links_ok(linked(l0, this, head, next), s.insert(k, this)),
        linked(l0, this, head, next).len() == l0.len(),
        linked(l0, this, head, next)[0].0.next is Some,
{
    lemma_link_items(l0, s, k, this, head, next);
    lemma_link_others(l0, s, k, this, head, next);
    lemma_link_sentinel(l0, s, k, this, head, next);
}

proof fn lemma_link_basics(l0: Seq<Links>, s: Seq<usize>, k: int, this: usize, head: usize, next: usize)
    requires
        link_pre(l0, s, k, this, head, next),
    ensures
        this != head && this != next,
        head != next || (head == 0 && next == 0),
        head < l0.len() && next < l0.len(),
        k > 0 ==> s.contains(head),
        k < s.len() ==> s.contains(next),
        forall|x: int| 0 <= x < l0.len() && x != this && x != head && x != next
            ==> linked(l0, this, head, next)[x] == l0[x],
        s.insert(k, this).no_duplicates(),
        forall|i: int| 0 <= i < s.insert(k, this).len() ==> 1 <= #[trigger] s.insert(k, this)[i] < l0.len(),
{
    let s2 = s.insert(k, this);
    if k > 0 {
        assert(s.contains(s[k - 1]));
        assert(1 <= s[k - 1] < l0.len());
    }
    if k < s.len() {
        assert(s.contains(s[k]));
        assert(1 <= s[k] < l0.len());
    }
    if k > 0 && k < s.len() {
        assert(s[k - 1] != s[k]);
    }
    assert forall|i: int, j: int| 0 <= i < s2.len() && 0 <= j < s2.len() && i != j implies s2[i] != s2[j] by {
        if i != k && j != k {
            let i0 = if i < k { i } else { i - 1 };
            let j0 = if j < k { j } else { j - 1 };
            assert(s2[i] == s[i0]);
            assert(s2[j] == s[j0]);
        } else if i == k {
            let j0 = if j < k { j } else { j - 1 };
            assert(s2[j] == s[j0]);
            assert(s.contains(s[j0]));
        } else {
            let i0 = if i < k { i } else { i - 1 };
            assert(s2[i] == s[i0]);
            assert(s.contains(s[i0]));
        }
    }
    assert forall|i: int| 0 <= i < s2.len() implies 1 <= #[trigger] s2[i] < l0.len() by {
        if i < k {
            assert(s2[i] == s[i]);
        } else if i > k {
            assert(s2[i] == s[i - 1]);
        }
    }
}

proof fn lemma_link_items(l0: Seq<Links>, s: Seq<usize>, k: int, this: usize, head: usize, next: usize)
    requires
        link_pre(l0, s, k, this, head, next),
    ensures
        forall|i: int|
            0 <= i < s.insert(k, this).len() ==> (#[trigger] linked(l0, this, head, next)[s.insert(k, this)[i] as int]).0.next
                == Some(succ(s.insert(k, this), i))
                && linked(l0, this, head, next)[s.insert(k, this)[i] as int].0.prev == Some(pred(s.insert(k, this), i)),
{
    lemma_link_basics(l0, s, k, this, head, next);
    let s2 = s.insert(k, this);
    let l = linked(l0, this, head, next);
    assert forall|i: int| 0 <= i < s2.len() implies (#[trigger] l[s2[i] as int]).0.next == Some(succ(s2, i))
        && l[s2[i] as int].0.prev == Some(pred(s2, i)) by {
        if i < k {
            assert(s2[i] == s[i]);
            assert(l0[s[i] as int].0.next == Some(succ(s, i)));
            if i < k - 1 {
                assert(s[i] != s[k - 1]);
                if k < s.len() {
                    assert(s[i] != s[k]);
                }
                assert(s2[i + 1] == s[i + 1]);
            }
            if i > 0 {
                assert(s2[i - 1] == s[i - 1]);
            }
        } else if i == k {
            if k > 0 {
                assert(s2[k - 1] == s[k - 1]);
            }
            if k < s.len() {
                assert(s2[k + 1] == s[k]);
            }
        } else {
            assert(s2[i] == s[i - 1]);
            assert(l0[s[i - 1] as int].0.next == Some(succ(s, i - 1)));
            if i > k + 1 {
                assert(s[i - 1] != s[k]);
                if k > 0 {
                    assert(s[i - 1] != s[k - 1]);
                }
                assert(s2[i - 1] == s[i - 2]);
            }
            if i + 1 < s2.len() {
                assert(s2[i + 1] == s[i]);
            }
        }
    }
}

proof fn lemma_link_others(l0: Seq<Links>, s: Seq<usize>, k: int, this: usize, head: usize, next: usize)
    requires
        link_pre(l0, s, k, this, head, next),
    ensures
        forall|x: int|
            1 <= x < l0.len() && !s.insert(k, this).contains(x as usize) ==> (#[trigger] linked(l0, this, head, next)[x]).0.is_terminal(x as usize),
{
    lemma_link_basics(l0, s, k, this, head, next);
    let s2 = s.insert(k, this);
    let l = linked(l0, this, head, next);
    assert forall|x: int| 1 <= x < l0.len() && !s2.contains(x as usize) implies (#[trigger] l[x]).0.is_terminal(x as usize) by {
        assert(!s.contains(x as usize)) by {
            if s.contains(x as usize) {
                let j = choose|j: int| 0 <= j < s.len() && s[j] == x as usize;
                if j < k {
                    assert(s2[j] == s[j]);
                } else {
                    assert(s2[j + 1] == s[j]);
                }
            }
        }
        assert(s2[k] == this);
        assert(l[x] == l0[x]);
    }
}

proof fn lemma_link_sentinel(l0: Seq<Links>, s: Seq<usize>, k: int, this: usize, head: usize, next: usize)
    requires
        link_pre(l0, s, k, this, head, next),
    ensures
        linked(l0, this, head, next)[0].0.next == Some(first_or_sentinel(s.insert(k, this))),
        linked(l0, this, head, next)[0].0.prev == Some(last_or_sentinel(s.insert(k, this))),
        linked(l0, this, head, next).len() == l0.len(),
{
    lemma_link_basics(l0, s, k, this, head, next);
    let s2 = s.insert(k, this);
    if k < s.len() {
        assert(s2[s2.len() - 1] == s[s.len() - 1]);
    }
    if k > 0 {
        assert(s2[0] == s[0]);
    }
}


/// The records after the item at position `k` of `s` is unlinked.
spec fn unlinked(l: Seq<Links>, s: Seq<usize>, k: int) -> Seq<Links> {
    let this = s[k];
    let p = pred(s, k);
    let n = succ(s, k);
    let l1 = l.update(p as int, Links(Raw { prev: l[p as int].0.prev, next: Some(n) }));
    let l2 = l1.update(n as int, Links(Raw { prev: Some(p), next: l1[n as int].0.next }));
    l2.update(this as int, Links(Raw { prev: Some(this), next: Some(this) }))
}

proof fn lemma_unlink_basics(l0: Seq<Links>, s: Seq<usize>, k: int)
    requires
        links_ok(l0, s),
        0 <= k < s.len(),
    ensures
        s[k] != pred(s, k) && s[k] != succ(s, k),
        pred(s, k) != succ(s, k) || (pred(s, k) == 0 && succ(s, k) == 0),
        pred(s, k) < l0.len() && succ(s, k) < l0.len(),
        forall|x: int| 0 <= x < l0.len() && x != s[k] && x != pred(s, k) && x != succ(s, k)
            ==> unlinked(l0, s, k)[x] == l0[x],
        unlinked(l0, s, k).len() == l0.len(),
        s.remove(k).no_duplicates(),
        forall|i: int| 0 <= i < s.remove(k).len() ==> 1 <= #[trigger] s.remove(k)[i] < l0.len(),
        !s.remove(k).contains(s[k]),
{
    let s2 = s.remove(k);
    assert(1 <= s[k] < l0.len());
    if k > 0 {
        assert(1 <= s[k - 1] < l0.len());
    }
    if k + 1 < s.len() {
        assert(1 <= s[k + 1] < l0.len());
    }
    assert forall|i: int| 0 <= i < s2.len() implies 1 <= #[trigger] s2[i] < l0.len() by {
        if i < k {
            assert(s2[i] == s[i]);
        } else {
            assert(s2[i] == s[i + 1]);
        }
    }
    assert forall|i: int, j: int| 0 <= i < s2.len() && 0 <= j < s2.len() && i != j implies s2[i] != s2[j] by {
        let i0 = if i < k { i } else { i + 1 };
        let j0 = if j < k { j } else { j + 1 };
        assert(s2[i] == s[i0]);
        assert(s2[j] == s[j0]);
    }
    assert(!s2.contains(s[k])) by {
        if s2.contains(s[k]) {
            let j = choose|j: int| 0 <= j < s2.len() && s2[j] == s[k];
            let j0 = if j < k { j } else { j + 1 };
            assert(s2[j] == s[j0]);
        }
    }
}

proof fn lemma_unlink(l0: Seq<Links>, s: Seq<usize>, k: int)
    requires
        links_ok(l0, s),
        l0[0].0.next is Some,
        0 <= k < s.len(),
    ensures
        links_ok(unlinked(l0, s, k), s.remove(k)),
        unlinked(l0, s, k).len() == l0.len(),
        unlinked(l0, s, k)[0].0.next is Some,
        unlinked(l0, s, k)[s[k] as int].0.is_terminal(s[k]),
{
    lemma_unlink_basics(l0, s, k);
    lemma_unlink_items(l0, s, k);
    lemma_unlink_others(l0, s, k);
    let s2 = s.remove(k);
    if k > 0 {
        assert(s2[0] == s[0]);
    }
    if k + 1 < s.len() {
        assert(s2[s2.len() - 1] == s[s.len() - 1]);
    }
}

proof fn lemma_unlink_items(l0: Seq<Links>, s: Seq<usize>, k: int)
    requires
        links_ok(l0, s),
        0 <= k < s.len(),
    ensures
        forall|i: int|
            0 <= i < s.remove(k).len() ==> (#[trigger] unlinked(l0, s, k)[s.remove(k)[i] as int]).0.next
                == Some(succ(s.remove(k), i))
                && unlinked(l0, s, k)[s.remove(k)[i] as int].0.prev == Some(pred(s.remove(k), i)),
{
    lemma_unlink_basics(l0, s, k);
    let s2 = s.remove(k);
    let l = unlinked(l0, s, k);
    assert forall|i: int| 0 <= i < s2.len() implies (#[trigger] l[s2[i] as int]).0.next == Some(succ(s2, i))
        && l[s2[i] as int].0.prev == Some(pred(s2, i)) by {
        if i < k {
            assert(s2[i] == s[i]);
            assert(l0[s[i] as int].0.next == Some(succ(s, i)));
            assert(s[i] != s[k]);
            if i < k - 1 {
                assert(s[i] != s[k - 1]);
                assert(s2[i + 1] == s[i + 1]);
            } else {
                if k + 1 < s.len() {
                    assert(s2[i + 1] == s[k + 1]);
                }
            }
            if k + 1 < s.len() {
                assert(s[i] != s[k + 1]);
            }
            if i > 0 {
                assert(s2[i - 1] == s[i - 1]);
            }
        } else {
            assert(s2[i] == s[i + 1]);
            assert(l0[s[i + 1] as int].0.next == Some(succ(s, i + 1)));
            assert(s[i + 1] != s[k]);
            if k > 0 {
                assert(s[i + 1] != s[k - 1]);
            }
            if i > k {
                assert(s[i + 1] != s[k + 1]);
                assert(s2[i - 1] == s[i]);
            } else {
                if k > 0 {
                    assert(s2[i - 1] == s[k - 1]);
                }
            }
            if i + 1 < s2.len() {
                assert(s2[i + 1] == s[i + 2]);
            }
        }
    }
}

proof fn lemma_unlink_others(l0: Seq<Links>, s: Seq<usize>, k: int)
    requires
        links_ok(l0, s),
        0 <= k < s.len(),
    ensures
        forall|x: int|
            1 <= x < l0.len() && !s.remove(k).contains(x as usize) ==> (#[trigger] unlinked(l0, s, k)[x]).0.is_terminal(x as usize),
{
    lemma_unlink_basics(l0, s, k);
    let s2 = s.remove(k);
    let l = unlinked(l0, s, k);
    assert forall|x: int| 1 <= x < l0.len() && !s2.contains(x as usize) implies (#[trigger] l[x]).0.is_terminal(x as usize) by {
        if x != s[k] {
            assert(!s.contains(x as usize)) by {
                if s.contains(x as usize) {
                    let j = choose|j: int| 0 <= j < s.len() && s[j] == x as usize;
                    if j < k {
                        assert(s2[j] == s[j]);
                    } else if j > k {
                        assert(s2[j - 1] == s[j]);
                    }
                }
            }
            if k > 0 {
                assert(s.contains(s[k - 1]));
            }
            if k + 1 < s.len() {
                assert(s.contains(s[k + 1]));
            }
            assert(l[x] == l0[x]);
        }
    }
}

impl List {
    /// Unlinks the item at position `k`.
    fn unlink(&mut self, this: usize, Ghost(k): Ghost<int>)
        requires
            old(self).wf(),
            old(self).is_init_spec(),
            0 <= k < old(self)@.len(),
            old(self)@[k] == this,
        ensures
            final(self).wf(),
            final(self).is_init_spec(),
            final(self)@ == old(self)@.remove(k),
            final(self).capacity() == old(self).capacity(),
            final(self).nodes@[this as int].0.is_terminal(this),
    {
        let ghost s = self.items@;
        let ghost l0 = self.nodes@;
        proof {
            lemma_unlink(l0, s, k);
            assert(1 <= s[k] < l0.len());
            assert(l0[s[k] as int].0.next == Some(succ(s, k)));
        }
        let r = self.nodes[this].0;
        let prev = r.prev.unwrap();
        let next = r.next.unwrap();
        let mut p = self.nodes[prev].0;
        p.next = Some(next);
        self.set_raw(prev, p);
        let mut n = self.nodes[next].0;
        n.prev = Some(prev);
        self.set_raw(next, n);
        self.set_raw(this, Raw { prev: Some(this), next: Some(this) });
        self.len = self.len - 1;
        proof {
            self.items@ = s.remove(k);
        }
    }
}


impl List {
    /// Adds unlinked records until item `obj` has one.
    fn reserve(&mut self, obj: usize)
        requires
            old(self).wf(),
            obj < usize::MAX,
        ensures
            final(self).wf(),
            final(self)@ == old(self)@,
            final(self).is_init_spec() == old(self).is_init_spec(),
            obj < final(self).capacity(),
            final(self).capacity() == if obj < old(self).capacity() { old(self).capacity() as int } else { obj + 1 },
    {
        let ghost l0 = self.nodes@;
        while self.nodes.len() <= obj
            invariant
                self.wf(),
                self.items == old(self).items,
                self.nodes@[0] == l0[0],
                l0 == old(self).nodes@,
                obj < usize::MAX,
                l0.len() <= self.nodes@.len(),
                self.nodes@.len() > l0.len() ==> self.nodes@.len() <= obj + 1,
            decreases obj + 1 - self.nodes@.len(),
        {
            let ghost before = self.nodes@;
            self.nodes.push(Links::new());
            proof {
                let s = self.items@;
                let l = self.nodes@;
                assert forall|i: int| 0 <= i < s.len() implies (#[trigger] l[s[i] as int]) == before[s[i] as int] by {
                    assert(1 <= s[i] < before.len());
                }
                assert forall|x: int| 1 <= x < l.len() && !s.contains(x as usize) implies (#[trigger] l[x]).0.is_terminal(x as usize) by {
                    if x < before.len() {
                        assert(l[x] == before[x]);
                    }
                }
            }
        }
    }

    /// Puts item `obj` first. The item must be in no list.
    pub fn push_front(&mut self, obj: usize)
        requires
            old(self).wf(),
            old(self).is_init_spec(),
            1 <= obj < usize::MAX,
            !old(self)@.contains(obj),
        ensures
            final(self).wf(),
            final(self).is_init_spec(),
            final(self)@ == seq![obj] + old(self)@,
    {
        self.reserve(obj);
        self.link(obj, 0, Ghost(0));
        assert(seq![obj] + old(self)@ =~= old(self)@.insert(0, obj));
    }

    /// Puts item `obj` last. The item must be in no list.
    pub fn push_back(&mut self, obj: usize)
        requires
            old(self).wf(),
            old(self).is_init_spec(),
            1 <= obj < usize::MAX,
            !old(self)@.contains(obj),
        ensures
            final(self).wf(),
            final(self).is_init_spec(),
            final(self)@ == old(self)@.push(obj),
    {
        self.reserve(obj);
        let head = self.nodes[0].0.prev.unwrap();
        let ghost n = self@.len() as int;
        self.link(obj, head, Ghost(n));
        assert(old(self)@.push(obj) =~= old(self)@.insert(n, obj));
    }

    /// Takes the first item out; `None` when the list is empty.
    pub fn pop_front(&mut self) -> (r: Option<usize>)
        requires
            old(self).wf(),
            old(self).is_init_spec(),
        ensures
            final(self).wf(),
            final(self).is_init_spec(),
            old(self)@.len() == 0 ==> r is None && final(self)@ == old(self)@,
            old(self)@.len() > 0 ==> r == Some(old(self)@[0]) && final(self)@ == old(self)@.drop_first(),
    {
        if self.is_empty() {
            None
        } else {
            let x = self.nodes[0].0.next.unwrap();
            self.unlink(x, Ghost(0));
            assert(old(self)@.remove(0) =~= old(self)@.drop_first());
            Some(x)
        }
    }

    /// Takes the last item out; `None` when the list is empty.
    pub fn pop_back(&mut self) -> (r: Option<usize>)
        requires
            old(self).wf(),
            old(self).is_init_spec(),
        ensures
            final(self).wf(),
            final(self).is_init_spec(),
            old(self)@.len() == 0 ==> r is None && final(self)@ == old(self)@,
            old(self)@.len() > 0 ==> r == Some(old(self)@[old(self)@.len() - 1]) && final(self)@
                == old(self)@.drop_last(),
    {
        if self.is_empty() {
            None
        } else {
            let x = self.nodes[0].0.prev.unwrap();
            let ghost n = self@.len() as int;
            self.unlink(x, Ghost(n - 1));
            assert(old(self)@.remove(n - 1) =~= old(self)@.drop_last());
            Some(x)
        }
    }

    /// Takes item `obj` out of the list. The item must be in it.
    pub fn remove(&mut self, obj: usize)
        requires
            old(self).wf(),
            old(self).is_init_spec(),
            old(self)@.contains(obj),
        ensures
            final(self).wf(),
            final(self).is_init_spec(),
            final(self)@ == old(self)@.remove(old(self)@.index_of(obj)),
            !final(self)@.contains(obj),
    {
        let ghost k = self@.index_of(obj);
        assert(0 <= k < self@.len() && self@[k] == obj);
        self.unlink(obj, Ghost(k));
        proof {
            lemma_unlink_basics(old(self).nodes@, old(self)@, k);
        }
    }

    /// Takes every item out; each one's record then links nowhere.
    pub fn clear(&mut self)
        requires
            old(self).wf(),
            old(self).is_init_spec(),
        ensures
            final(self).wf(),
            final(self).is_init_spec(),
            final(self)@ == Seq::<usize>::empty(),
            final(self).capacity() == old(self).capacity(),
    {
        let mut current = self.nodes[0].0.next.unwrap();
        while current != 0
            invariant
                self.wf(),
                self.is_init_spec(),
                current == first_or_sentinel(self@),
                self.capacity() == old(self).capacity(),
            decreases self@.len(),
        {
            proof {
                if self@.len() > 0 {
                    assert(1 <= self@[0] < self.nodes@.len());
                }
            }
            let next = self.nodes[current].0.next.unwrap();
            let ghost before = self@;
            self.unlink(current, Ghost(0));
            proof {
                if before.len() > 1 {
                    assert(self@[0] == before[1]);
                }
            }
            current = next;
        }
        proof {
            if self@.len() > 0 {
                assert(1 <= self@[0]);
            }
        }
    }
}


/// The record at position `k` of the ring made of the items `s` and the
/// sentinel after them.
pub open spec fn ring_at(s: Seq<usize>, k: int) -> usize {
    if k == s.len() {
        0
    } else {
        s[k]
    }
}

/// A position in a list: on one of its items or on the sentinel.
pub struct Cursor<'a> {
    list: &'a List,
    current: usize,
    pos: Ghost<int>,
}

impl<'a> Cursor<'a> {
    #[verifier::type_invariant]
    spec fn on_ring(&self) -> bool {
        &&& self.list.wf()
        &&& self.list.is_init_spec()
        &&& 0 <= self.pos@ <= self.list@.len()
        &&& self.current == ring_at(self.list@, self.pos@)
    }

    /// The items of the list, front to back.
    pub closed spec fn items(&self) -> Seq<usize> {
        self.list@
    }

    /// The position: an item's index, or the number of items for the
    /// sentinel.
    pub closed spec fn pos(&self) -> int {
        self.pos@
    }

    /// A cursor on the first item (on the sentinel if there is none).
    fn new(list: &'a List) -> (r: Self)
        requires
            list.wf(),
            list.is_init_spec(),
        ensures
            r.items() == list@,
            r.pos() == 0,
    {
        let current = list.nodes[0].0.next.unwrap();
        Cursor { list, current, pos: Ghost(0) }
    }

    /// Whether the cursor is on the sentinel.
    pub fn at_sentinel(&self) -> (r: bool)
        ensures
            r == (self.pos() == self.items().len()),
    {
        proof {
            use_type_invariant(self);
            if self.pos@ < self.list@.len() {
                assert(1 <= self.list@[self.pos@]);
            }
        }
        self.current == 0
    }

    /// The item under the cursor; `None` on the sentinel.
    pub fn current(&self) -> (r: Option<usize>)
        ensures
            r == (if self.pos() == self.items().len() { None } else { Some(self.items()[self.pos()]) }),
    {
        proof {
            use_type_invariant(self);
        }
        if self.at_sentinel() {
            None
        } else {
            Some(self.current)
        }
    }

    /// Moves to the next record of the ring.
    pub fn next(&mut self)
        ensures
            final(self).items() == old(self).items(),
            final(self).pos() == (old(self).pos() + 1) % (old(self).items().len() + 1) as int,
    {
        proof {
            use_type_invariant(&*self);
            let s = self.list@;
            if self.pos@ < s.len() {
                assert(1 <= s[self.pos@] < self.list.nodes@.len());
                assert(self.list.nodes@[s[self.pos@] as int].0.next == Some(succ(s, self.pos@)));
            }
        }
        let next = self.list.nodes[self.current].0.next.unwrap();
        let ghost n = self.list@.len() as int;
        let ghost np = (self.pos@ + 1) % (n + 1);
        proof {
            if self.pos@ == n {
                vstd::arithmetic::div_mod::lemma_mod_self_0(n + 1);
            } else {
                vstd::arithmetic::div_mod::lemma_small_mod((self.pos@ + 1) as nat, (n + 1) as nat);
            }
        }
        let list = self.list;
        *self = Cursor { list, current: next, pos: Ghost(np) };
    }

    /// Moves to the previous record of the ring.
    pub fn prev(&mut self)
        ensures
            final(self).items() == old(self).items(),
            final(self).pos() == (old(self).pos() + old(self).items().len()) % (old(self).items().len() + 1) as int,
    {
        proof {
            use_type_invariant(&*self);
            let s = self.list@;
            if self.pos@ < s.len() {
                assert(1 <= s[self.pos@] < self.list.nodes@.len());
                assert(self.list.nodes@[s[self.pos@] as int].0.prev == Some(pred(s, self.pos@)));
            }
        }
        let prev = self.list.nodes[self.current].0.prev.unwrap();
        let ghost n = self.list@.len() as int;
        let ghost np = (self.pos@ + n) % (n + 1);
        proof {
            if self.pos@ == 0 {
                vstd::arithmetic::div_mod::lemma_small_mod(n as nat, (n + 1) as nat);
            } else {
                vstd::arithmetic::div_mod::lemma_fundamental_div_mod_converse(self.pos@ + n, n + 1, 1, self.pos@ - 1);
            }
        }
        let list = self.list;
        *self = Cursor { list, current: prev, pos: Ghost(np) };
    }
}

/// Iterator over the items of a list, front to back.
pub struct Iter<'a> {
    cursor: Cursor<'a>,
}

impl<'a> Iter<'a> {
    /// The items of the list.
    pub closed spec fn items(&self) -> Seq<usize> {
        self.cursor.items()
    }

    /// How many items were yielded.
    pub closed spec fn pos(&self) -> int {
        self.cursor.pos()
    }

    /// An iterator from the first item.
    fn new(list: &'a List) -> (r: Self)
        requires
            list.wf(),
            list.is_init_spec(),
        ensures
            r.items() == list@,
            r.pos() == 0,
    {
        Iter { cursor: Cursor::new(list) }
    }

    /// The next item; `None` once every item was yielded.
    pub fn next(&mut self) -> (r: Option<usize>)
        ensures
            final(self).items() == old(self).items(),
            old(self).pos() < old(self).items().len() ==> r == Some(old(self).items()[old(self).pos()])
                && final(self).pos() == old(self).pos() + 1,
            old(self).pos() >= old(self).items().len() ==> r is None && final(self).pos() == old(self).pos(),
    {
        proof {
            use_type_invariant(&self.cursor);
        }
        let r = self.cursor.current();
        if r.is_some() {
            proof {
                vstd::arithmetic::div_mod::lemma_small_mod(
                    (self.cursor.pos() + 1) as nat,
                    (self.cursor.items().len() + 1) as nat,
                );
            }
            self.cursor.next();
        }
        r
    }
}

impl List {
    /// A cursor on the first item.
    pub fn cursor(&self) -> (r: Cursor<'_>)
        requires
            self.wf(),
            self.is_init_spec(),
        ensures
            r.items() == self@,
            r.pos() == 0,
    {
        Cursor::new(self)
    }

    /// An iterator over the items, front to back.
    pub fn iter(&self) -> (r: Iter<'_>)
        requires
            self.wf(),
            self.is_init_spec(),
        ensures
            r.items() == self@,
            r.pos() == 0,
    {
        Iter::new(self)
    }
}


/// A list never holds an item twice.
pub proof fn law_items_distinct(list: &List)
    requires
        list.wf(),
    ensures
        list@.no_duplicates(),
{
}

/// Taking the last item out right after putting `obj` last gives `obj`
/// back and leaves the items as they were.
pub proof fn law_pop_back_undoes_push_back(items: Seq<usize>, obj: usize)
    ensures
        items.push(obj).len() > 0,
        items.push(obj)[items.push(obj).len() - 1] == obj,
        items.push(obj).drop_last() == items,
{
    assert(items.push(obj).drop_last() =~= items);
}

/// Taking the first item out right after putting `obj` first gives `obj`
/// back and leaves the items as they were.
pub proof fn law_pop_front_undoes_push_front(items: Seq<usize>, obj: usize)
    ensures
        (seq![obj] + items).len() > 0,
        (seq![obj] + items)[0] == obj,
        (seq![obj] + items).drop_first() == items,
{
    assert((seq![obj] + items).drop_first() =~= items);
}

/// Removing an item that was just put last or first leaves the items as
/// they were.
pub proof fn law_remove_undoes_push(items: Seq<usize>, obj: usize)
    requires
        !items.contains(obj),
    ensures
        items.push(obj).remove(items.push(obj).index_of(obj)) == items,
        (seq![obj] + items).remove((seq![obj] + items).index_of(obj)) == items,
{
    let b = items.push(obj);
    assert(b[items.len() as int] == obj);
    assert(b.contains(obj));
    let k = b.index_of(obj);
    assert(b[k] == obj);
    if k < items.len() {
        assert(items[k] == obj);
        assert(items.contains(obj));
    }
    assert(b.remove(k) =~= items);
    let f = seq![obj] + items;
    assert(f[0] == obj);
    assert(f.contains(obj));
    let j = f.index_of(obj);
    assert(f[j] == obj);
    if j > 0 {
        assert(items[j - 1] == obj);
        assert(items.contains(obj));
    }
    assert(f.remove(j) =~= items);
}

/// Moving a cursor forward and then back returns it where it was, and so
/// does moving back and then forward.
pub proof fn law_cursor_prev_undoes_next(n: nat, pos: int)
    requires
        0 <= pos <= n,
    ensures
        (((pos + 1) % (n + 1) as int) + n) % (n + 1) as int == pos,
        (((pos + n) % (n + 1) as int) + 1) % (n + 1) as int == pos,
{
    let m = (n + 1) as int;
    if pos == n {
        vstd::arithmetic::div_mod::lemma_mod_self_0(m);
        vstd::arithmetic::div_mod::lemma_small_mod(n, m as nat);
        if n == 0 {
            vstd::arithmetic::div_mod::lemma_small_mod(0, 1);
        } else {
            vstd::arithmetic::div_mod::lemma_fundamental_div_mod_converse(pos + n, m, 1, pos - 1);
        }
    } else {
        vstd::arithmetic::div_mod::lemma_small_mod((pos + 1) as nat, m as nat);
        vstd::arithmetic::div_mod::lemma_fundamental_div_mod_converse(pos + 1 + n, m, 1, pos);
        if pos == 0 {
            vstd::arithmetic::div_mod::lemma_small_mod(n, m as nat);
            vstd::arithmetic::div_mod::lemma_mod_self_0(m);
        } else {
            vstd::arithmetic::div_mod::lemma_fundamental_div_mod_converse(pos + n, m, 1, pos - 1);
            vstd::arithmetic::div_mod::lemma_small_mod(pos as nat, m as nat);
        }
    }
}

} // verus!
