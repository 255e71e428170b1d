//! The kernel command line: space-separated `key` and `key=value` entries,
//! and values made of delimiter-separated parts.
use vstd::prelude::*;

verus! {

/// First position at or after `i` whose byte is not `d` (or the end).
pub open spec fn skip_byte(s: Seq<u8>, d: u8, i: int) -> int
    decreases s.len() - i,
{
    if i >= s.len() {
        i
    } else if s[i] == d {
        skip_byte(s, d, i + 1)
    } else {
        i
    }
}

/// First position at or after `i` whose byte is `d` (or the end).
pub open spec fn find_byte(s: Seq<u8>, d: u8, i: int) -> int
    decreases s.len() - i,
{
    if i >= s.len() {
        i
    } else if s[i] == d {
        i
    } else {
        find_byte(s, d, i + 1)
    }
}

/// `skip_byte` lands on the first byte after a run of `d`.
pub proof fn lemma_skip_byte(s: Seq<u8>, d: u8, i: int, q: int)
    requires
        0 <= i <= q <= s.len(),
        forall|j: int| i <= j < q ==> s[j] == d,
        q == s.len() || s[q] != d,
    ensures
        skip_byte(s, d, i) == q,
    decreases q - i,
{
    if i < q {
        lemma_skip_byte(s, d, i + 1, q);
    }
}

/// `find_byte` lands on the first `d` after a run of other bytes.
pub proof fn lemma_find_byte(s: Seq<u8>, d: u8, i: int, q: int)
    requires
        0 <= i <= q <= s.len(),
        forall|j: int| i <= j < q ==> s[j] != d,
        q == s.len() || s[q] == d,
    ensures
        find_byte(s, d, i) == q,
    decreases q - i,
{
    if i < q {
        lemma_find_byte(s, d, i + 1, q);
    }
}

/// `find_byte` stays within the sequence and past its start.
pub proof fn lemma_find_byte_bounds(s: Seq<u8>, d: u8, i: int)
    requires
        0 <= i <= s.len(),
    ensures
        i <= find_byte(s, d, i) <= s.len(),
        find_byte(s, d, i) < s.len() ==> s[find_byte(s, d, i)] == d,
        forall|j: int| i <= j < find_byte(s, d, i) ==> s[j] != d,
    decreases s.len() - i,
{
    if i < s.len() && s[i] != d {
        lemma_find_byte_bounds(s, d, i + 1);
    }
}

/// `skip_byte` stays within the sequence and past its start.
pub proof fn lemma_skip_byte_bounds(s: Seq<u8>, d: u8, i: int)
    requires
        0 <= i <= s.len(),
    ensures
        i <= skip_byte(s, d, i) <= s.len(),
        skip_byte(s, d, i) < s.len() ==> s[skip_byte(s, d, i)] != d,
    decreases s.len() - i,
{
    if i < s.len() && s[i] == d {
        lemma_skip_byte_bounds(s, d, i + 1);
    }
}

/// An entry of the command line: a key and, after `=`, an optional value.
pub type Entry = (Seq<u8>, Option<Seq<u8>>);

/// The entry found by scanning from position `i`, and the position where
/// the scan stops. Entries are the space-separated words; a word's key is
/// the part before its first `=` and its value the part after it. Words
/// whose key is empty are skipped.
pub open spec fn next_entry(s: Seq<u8>, i: int) -> Option<(Entry, int)>
    decreases s.len() - i,
{
    let start = skip_byte(s, 32u8, i);
    if i < 0 || start >= s.len() || start < i {
        None
    } else {
        let end = find_byte(s, 32u8, start);
        let eq = if find_byte(s, 61u8, start) < end { find_byte(s, 61u8, start) } else { end };
        if end <= start || end > s.len() {
            None
        } else if eq == start {
            next_entry(s, end)
        } else {
            let value = if eq < end { Some(s.subrange(eq + 1, end)) } else { None };
            let stop = if end < s.len() { end + 1 } else { end };
            Some(((s.subrange(start, eq), value), stop))
        }
    }
}

/// A scan that finds an entry moves forward.
pub proof fn lemma_next_entry_advances(s: Seq<u8>, i: int)
    ensures
        next_entry(s, i) matches Some((_, j)) ==> i < j <= s.len(),
    decreases s.len() - i,
{
    let start = skip_byte(s, 32u8, i);
    if !(i < 0 || start >= s.len() || start < i) {
        let end = find_byte(s, 32u8, start);
        let eq = if find_byte(s, 61u8, start) < end { find_byte(s, 61u8, start) } else { end };
        if !(end <= start || end > s.len()) && eq == start {
            lemma_next_entry_advances(s, end);
        }
    }
}

/// The value of the first entry from position `i` on whose key is `key`:
/// `None` when there is none, `Some(None)` when that entry has no `=`.
pub open spec fn lookup(s: Seq<u8>, key: Seq<u8>, i: int) -> Option<Option<Seq<u8>>>
    decreases s.len() - i,
    via lookup_decreases
{
    match next_entry(s, i) {
        None => None,
        Some((e, j)) => if e.0 == key {
            Some(e.1)
        } else {
            lookup(s, key, j)
        },
    }
}

#[via_fn]
proof fn lookup_decreases(s: Seq<u8>, key: Seq<u8>, i: int) {
    lemma_next_entry_advances(s, i);
}

/// The part found by scanning `v` from position `i`, and the position
/// where the scan stops: parts are the non-empty runs between delimiters.
pub open spec fn next_part(v: Seq<u8>, d: u8, i: int) -> Option<(Seq<u8>, int)> {
    let start = skip_byte(v, d, i);
    if i < 0 || start >= v.len() || start < i {
        None
    } else {
        let end = find_byte(v, d, start);
        if end <= start || end > v.len() {
            None
        } else {
            Some((v.subrange(start, end), if end < v.len() { end + 1 } else { end }))
        }
    }
}


/// The view of an optional byte slice.
pub open spec fn opt_bytes(v: Option<&[u8]>) -> Option<Seq<u8>> {
    match v {
        Some(b) => Some(b@),
        None => None,
    }
}

/// Iterator over the entries of a command line.
pub struct Iter<'a> {
    index: usize,
    cmdline: &'a [u8],
}

impl<'a> Iter<'a> {
    /// Position of the next scan.
    pub closed spec fn pos(&self) -> int {
        self.index as int
    }

    /// The command line being scanned.
    pub closed spec fn text(&self) -> Seq<u8> {
        self.cmdline@
    }

    /// An iterator over the entries of `cmdline`, from its start.
    pub fn new(cmdline: &'a [u8]) -> (r: Self)
        ensures
            r.pos() == 0,
            r.text() == cmdline@,
    {
        Self { index: 0, cmdline }
    }

    /// The next entry, as `(key, value)`; `None` when no entry is left.
    pub fn next(&mut self) -> (r: Option<(&'a [u8], Option<&'a [u8]>)>)
        ensures
            iter_step(*old(self), *final(self), entry_view(r)),
            final(self).text() == old(self).text(),
            match next_entry(old(self).text(), old(self).pos()) {
                None => r is None && final(self).pos() == (if old(self).pos() >= old(
                    self,
                ).text().len() {
                    old(self).pos()
                } else {
                    old(self).text().len() as int
                }),
                Some((e, j)) => r matches Some((k, v)) && k@ == e.0 && opt_bytes(v) == e.1
                    && final(self).pos() == j,
            },
    {
        let ghost s = self.cmdline@;
        let ghost start_pos = self.index as int;
        let len = self.cmdline.len();
        if self.index >= len {
            return None;
        }
        let mut k: (usize, usize) = (0, 0);
        let mut v: (usize, usize) = (0, 0);
        let ghost mut p: int = self.index as int;
        let ghost mut e: int = self.index as int;
        while self.index < len
            invariant
                s == self.cmdline@,
                s == old(self).cmdline@,
                start_pos == old(self).index as int,
                len == s.len(),
                start_pos < len,
                0 <= p <= e <= self.index <= len,
                forall|j: int| p <= j < self.index ==> s[j] != 32u8,
                forall|j: int| p <= j < e ==> s[j] != 61u8,
                e < self.index ==> s[e] == 61u8,
                next_entry(s, p) == next_entry(s, start_pos),
                self.index == p ==> k.1 == 0 && v.0 == 0 && v.1 == 0 && e == p,
                self.index > p && e == p ==> k.1 == 0 && v.0 == p + 1 && v.1 == self.index - p - 1,
                e > p ==> k.0 == p && k.1 == e - p,
                e > p && e < self.index ==> v.0 == e + 1 && v.1 == self.index - e - 1,
                e == self.index ==> v.0 == 0 && v.1 == 0,
            decreases len - self.index,
        {
            let c = self.cmdline[self.index];
            let ghost idx = self.index as int;
            self.index = self.index + 1;
            if c == 32u8 {
                if k.1 > 0 {
                    proof {
                        self.lemma_entry_at(p, e, idx);
                    }
                    let key = &self.cmdline[k.0..k.0 + k.1];
                    let value = if v.0 > 0 {
                        Some(&self.cmdline[v.0..v.0 + v.1])
                    } else {
                        None
                    };
                    return Some((key, value));
                }
                proof {
                    lemma_skip_byte_bounds(s, 32u8, idx + 1);
                    if idx > p {
                        lemma_find_byte(s, 32u8, p, idx);
                    }
                    assert(next_entry(s, idx) == next_entry(s, idx + 1));
                    p = idx + 1;
                    e = idx + 1;
                }
                k = (0, 0);
                v = (0, 0);
            } else if c == 61u8 && v.0 == 0 {
                v.0 = self.index;
            } else if v.0 > 0 {
                v.1 = v.1 + 1;
            } else if k.1 == 0 {
                k.0 = self.index - 1;
                k.1 = 1;
                proof {
                    e = idx + 1;
                }
            } else {
                k.1 = k.1 + 1;
                proof {
                    e = idx + 1;
                }
            }
        }
        if k.1 > 0 {
            proof {
                self.lemma_entry_at(p, e, len as int);
            }
            let key = &self.cmdline[k.0..k.0 + k.1];
            let value = if v.0 > 0 {
                Some(&self.cmdline[v.0..v.0 + v.1])
            } else {
                None
            };
            Some((key, value))
        } else {
            proof {
                assert(skip_byte(s, 32u8, len as int) == len);
                assert(next_entry(s, len as int) is None);
                if p < len {
                    lemma_find_byte(s, 32u8, p, len as int);
                    assert(skip_byte(s, 32u8, p) == p);
                    assert(find_byte(s, 61u8, p) == p);
                    assert(next_entry(s, p) == next_entry(s, len as int));
                }
            }
            None
        }
    }

    /// The entry that starts at `p` and ends at `end` (a space or the end of
    /// the line), with its first `=` at `e`.
    proof fn lemma_entry_at(&self, p: int, e: int, end: int)
        requires
            0 <= p < e <= end <= self.cmdline@.len(),
            end < self.cmdline@.len() ==> self.cmdline@[end] == 32u8,
            forall|j: int| p <= j < end ==> self.cmdline@[j] != 32u8,
            forall|j: int| p <= j < e ==> self.cmdline@[j] != 61u8,
            e < end ==> self.cmdline@[e] == 61u8,
        ensures
            next_entry(self.cmdline@, p) == Some(
                (
                    (
                        self.cmdline@.subrange(p, e),
                        if e < end { Some(self.cmdline@.subrange(e + 1, end)) } else { None },
                    ),
                    if end < self.cmdline@.len() { end + 1 } else { end },
                ),
            ),
    {
        let s = self.cmdline@;
        lemma_find_byte(s, 32u8, p, end);
        lemma_find_byte_bounds(s, 61u8, p);
        if e < end {
            lemma_find_byte(s, 61u8, p, e);
        }
        assert(skip_byte(s, 32u8, p) == p);
    }
}


/// A scan that finds a part moves forward.
pub proof fn lemma_next_part_advances(v: Seq<u8>, d: u8, i: int)
    ensures
        next_part(v, d, i) matches Some((_, j)) ==> i < j <= v.len(),
{
}

/// Iterator over the delimiter-separated parts of a value.
pub struct DelimiterIter<'a> {
    index: usize,
    delimiter: u8,
    v: &'a [u8],
}

impl<'a> DelimiterIter<'a> {
    /// Position of the next scan.
    pub closed spec fn pos(&self) -> int {
        self.index as int
    }

    /// The value being split.
    pub closed spec fn text(&self) -> Seq<u8> {
        self.v@
    }

    /// The delimiter between parts.
    pub closed spec fn delim(&self) -> u8 {
        self.delimiter
    }

    /// An iterator over the parts of `v` separated by `delimiter`.
    pub fn new(delimiter: u8, v: &'a [u8]) -> (r: Self)
        ensures
            r.pos() == 0,
            r.text() == v@,
            r.delim() == delimiter,
    {
        Self { index: 0, delimiter, v }
    }

    /// The next non-empty part; `None` when no part is left.
    pub fn next(&mut self) -> (r: Option<&'a [u8]>)
        ensures
            part_step(*old(self), *final(self), opt_bytes(r)),
            final(self).text() == old(self).text(),
            final(self).delim() == old(self).delim(),
            match next_part(old(self).text(), old(self).delim(), old(self).pos()) {
                None => r is None && final(self).pos() == (if old(self).pos() >= old(
                    self,
                ).text().len() {
                    old(self).pos()
                } else {
                    old(self).text().len() as int
                }),
                Some((part, j)) => r matches Some(p) && p@ == part && final(self).pos() == j,
            },
    {
        let ghost s = self.v@;
        let ghost d = self.delimiter;
        let ghost i0 = self.index as int;
        let len = self.v.len();
        if self.index >= len {
            return None;
        }
        let mut start = self.index;
        let mut run: usize = 0;
        while self.index < len
            invariant
                s == self.v@,
                s == old(self).v@,
                d == self.delimiter,
                d == old(self).delimiter,
                i0 == old(self).index as int,
                len == s.len(),
                i0 <= start <= self.index <= len,
                run == self.index - start,
                forall|j: int| start <= j < self.index ==> s[j] != d,
                next_part(s, d, start as int) == next_part(s, d, i0),
            decreases len - self.index,
        {
            let c = self.v[self.index];
            let ghost idx = self.index as int;
            self.index = self.index + 1;
            if c == self.delimiter {
                if run > 0 {
                    proof {
                        lemma_find_byte(s, d, start as int, idx);
                        assert(skip_byte(s, d, start as int) == start);
                    }
                    return Some(&self.v[start..start + run]);
                }
                proof {
                    lemma_skip_byte_bounds(s, d, idx + 1);
                    assert(next_part(s, d, idx) == next_part(s, d, idx + 1));
                }
                start = self.index;
                run = 0;
            } else {
                run = run + 1;
            }
        }
        if run > 0 {
            proof {
                lemma_find_byte(s, d, start as int, len as int);
                assert(skip_byte(s, d, start as int) == start);
            }
            Some(&self.v[start..start + run])
        } else {
            proof {
                assert(skip_byte(s, d, start as int) == start);
            }
            None
        }
    }
}

/// Whether two byte strings are equal.
pub fn bytes_eq(a: &[u8], b: &[u8]) -> (r: bool)
    ensures
        r == (a@ == b@),
{
    if a.len() != b.len() {
        return false;
    }
    let mut i: usize = 0;
    while i < a.len()
        invariant
            a@.len() == b@.len(),
            0 <= i <= a@.len(),
            forall|j: int| 0 <= j < i ==> a@[j] == b@[j],
        decreases a@.len() - i,
    {
        if a[i] != b[i] {
            return false;
        }
        i = i + 1;
    }
    assert(a@ =~= b@);
    true
}

/// The kernel command line, once the bootloader has handed it over.
pub struct CmdLine {
    cmdline: Option<&'static [u8]>,
}

impl CmdLine {
    /// The bytes of the command line; empty while none was set.
    pub closed spec fn text(&self) -> Seq<u8> {
        match self.cmdline {
            Some(c) => c@,
            None => Seq::empty(),
        }
    }

    /// Whether a command line was set.
    pub closed spec fn is_set(&self) -> bool {
        self.cmdline is Some
    }

    /// A command line that holds nothing yet.
    pub fn new() -> (r: Self)
        ensures
            !r.is_set(),
            r.text() == Seq::<u8>::empty(),
    {
        Self { cmdline: None }
    }

    /// Records the command line handed over by the bootloader.
    pub fn set(&mut self, cmdline: &'static [u8])
        ensures
            final(self).is_set(),
            final(self).text() == cmdline@,
    {
        self.cmdline = Some(cmdline);
    }

    /// An iterator over the entries of the command line.
    pub fn iter(&self) -> (r: Iter<'_>)
        ensures
            r.pos() == 0,
            r.text() == self.text(),
    {
        match self.cmdline {
            Some(c) => Iter::new(c),
            None => Iter::new(&[]),
        }
    }

    /// The value of the first entry whose key is `key`: `None` when there
    /// is no such entry, `Some(None)` when it has no `=`.
    pub fn get_value(&self, key: &[u8]) -> (r: Option<Option<&[u8]>>)
        ensures
            match r {
                None => lookup(self.text(), key@, 0) is None,
                Some(v) => lookup(self.text(), key@, 0) == Some(opt_bytes(v)),
            },
    {
        let mut it = self.iter();
        loop
            invariant
                it.text() == self.text(),
                0 <= it.pos(),
                lookup(self.text(), key@, 0) == lookup(self.text(), key@, it.pos()),
            decreases self.text().len() - it.pos(),
        {
            proof {
                lemma_next_entry_advances(it.text(), it.pos());
            }
            match it.next() {
                None => {
                    return None;
                },
                Some((k, v)) => {
                    if bytes_eq(key, k) {
                        return Some(v);
                    }
                },
            }
        }
    }

    /// The parts, separated by `delimiter`, of the value of the first
    /// entry whose key is `key`; `None` when there is no such entry or it
    /// has no value.
    pub fn get_value_array(&self, key: &[u8], delimiter: u8) -> (r: Option<DelimiterIter<'_>>)
        ensures
            match lookup(self.text(), key@, 0) {
                Some(Some(v)) => r matches Some(it) && it.text() == v && it.pos() == 0
                    && it.delim() == delimiter,
                _ => r is None,
            },
    {
        match self.get_value(key) {
            Some(Some(v)) => Some(DelimiterIter::new(delimiter, v)),
            _ => None,
        }
    }
}

/// A command line of one entry `key=value`, or of the bare `key`, gives
/// that value back for the key.
pub proof fn law_lookup_reads_entry(key: Seq<u8>, value: Seq<u8>)
    requires
        key.len() > 0,
        forall|j: int| 0 <= j < key.len() ==> key[j] != 32u8 && key[j] != 61u8,
        forall|j: int| 0 <= j < value.len() ==> value[j] != 32u8,
    ensures
        lookup(key + seq![61u8] + value, key, 0) == Some(Some(value)),
        lookup(key, key, 0) == Some(None::<Seq<u8>>),
{
    let s = key + seq![61u8] + value;
    let n = key.len() as int;
    assert(s[0] == key[0]);
    lemma_skip_byte(s, 32u8, 0, 0);
    assert forall|j: int| 0 <= j < s.len() implies s[j] != 32u8 by {
        if j < n {
            assert(s[j] == key[j]);
        } else if j > n {
            assert(s[j] == value[j - n - 1]);
        }
    }
    lemma_find_byte(s, 32u8, 0, s.len() as int);
    assert forall|j: int| 0 <= j < n implies s[j] != 61u8 by {
        assert(s[j] == key[j]);
    }
    lemma_find_byte(s, 61u8, 0, n);
    assert(s.subrange(0, n) =~= key);
    assert(s.subrange(n + 1, s.len() as int) =~= value);
    assert(next_entry(s, 0) == Some(((key, Some(value)), s.len() as int)));
    lemma_skip_byte(key, 32u8, 0, 0);
    lemma_find_byte(key, 32u8, 0, n);
    lemma_find_byte(key, 61u8, 0, n);
    assert(key.subrange(0, n) =~= key);
    assert(next_entry(key, 0) == Some(((key, None::<Seq<u8>>), n)));
}

/// A value made of two parts joined by the delimiter yields those two
/// parts, in order, and then nothing.
pub proof fn law_parts_read_back(a: Seq<u8>, b: Seq<u8>, d: u8)
    requires
        a.len() > 0,
        b.len() > 0,
        forall|j: int| 0 <= j < a.len() ==> a[j] != d,
        forall|j: int| 0 <= j < b.len() ==> b[j] != d,
    ensures
        next_part(a + seq![d] + b, d, 0) == Some((a, a.len() + 1 as int)),
        next_part(a + seq![d] + b, d, a.len() + 1 as int) == Some((b, a.len() + 1 + b.len() as int)),
        next_part(a + seq![d] + b, d, a.len() + 1 + b.len() as int) is None,
{
    let v = a + seq![d] + b;
    let n = a.len() as int;
    let m = v.len() as int;
    assert(v[0] == a[0]);
    lemma_skip_byte(v, d, 0, 0);
    assert forall|j: int| 0 <= j < n implies v[j] != d by {
        assert(v[j] == a[j]);
    }
    lemma_find_byte(v, d, 0, n);
    assert(v.subrange(0, n) =~= a);
    assert(v[n + 1] == b[0]);
    lemma_skip_byte(v, d, n + 1, n + 1);
    assert forall|j: int| n + 1 <= j < m implies v[j] != d by {
        assert(v[j] == b[j - n - 1]);
    }
    lemma_find_byte(v, d, n + 1, m);
    assert(v.subrange(n + 1, m) =~= b);
    lemma_skip_byte(v, d, m, m);
}

/// The parts scanned from position `i` on, in the order the iterator
/// yields them.
pub open spec fn parts_from(v: Seq<u8>, d: u8, i: int) -> Seq<Seq<u8>>
    decreases v.len() - i,
    via parts_from_decreases
{
    match next_part(v, d, i) {
        None => Seq::empty(),
        Some((part, j)) => seq![part] + parts_from(v, d, j),
    }
}

#[via_fn]
proof fn parts_from_decreases(v: Seq<u8>, d: u8, i: int) {
    lemma_next_part_advances(v, d, i);
}

/// Position `p` of `v` begins a part: its byte is not the delimiter, and
/// it starts `v` or follows a delimiter.
pub open spec fn part_start(v: Seq<u8>, d: u8, p: int) -> bool {
    0 <= p < v.len() && v[p] != d && (p == 0 || v[p - 1] == d)
}

/// The positions at or after `i` that begin a part, in increasing order.
pub open spec fn part_starts(v: Seq<u8>, d: u8, i: int) -> Seq<int>
    decreases v.len() - i,
{
    if i < 0 || i >= v.len() {
        Seq::empty()
    } else if part_start(v, d, i) {
        seq![i] + part_starts(v, d, i + 1)
    } else {
        part_starts(v, d, i + 1)
    }
}

/// The part that begins at `p`: the bytes up to the next delimiter.
pub open spec fn part_at(v: Seq<u8>, d: u8, p: int) -> Seq<u8> {
    v.subrange(p, find_byte(v, d, p))
}

/// Within a run of bytes that are not the delimiter no part begins.
proof fn lemma_part_starts_skip(v: Seq<u8>, d: u8, a: int, b: int)
    requires
        1 <= a <= b <= v.len(),
        forall|p: int| a - 1 <= p < b ==> v[p] != d,
    ensures
        part_starts(v, d, a) == part_starts(v, d, b),
    decreases b - a,
{
    if a < b {
        lemma_part_starts_skip(v, d, a + 1, b);
    }
}

/// What `part_starts` lists: every position at or after `i` that begins a
/// part, each once, in increasing order.
pub proof fn lemma_part_starts(v: Seq<u8>, d: u8, i: int)
    requires
        0 <= i,
    ensures
        forall|k: int| 0 <= k < part_starts(v, d, i).len() ==> i <= #[trigger] part_starts(v, d, i)[k]
            && part_start(v, d, part_starts(v, d, i)[k]),
        forall|k1: int, k2: int| 0 <= k1 < k2 < part_starts(v, d, i).len() ==> #[trigger] part_starts(v, d, i)[k1]
            < #[trigger] part_starts(v, d, i)[k2],
        forall|p: int| i <= p && #[trigger] part_start(v, d, p) ==> part_starts(v, d, i).contains(p),
    decreases v.len() - i,
{
    if i < v.len() {
        lemma_part_starts(v, d, i + 1);
        let r = part_starts(v, d, i + 1);
        if part_start(v, d, i) {
            let q = seq![i] + r;
            assert forall|k: int| 0 <= k < q.len() implies i <= #[trigger] q[k] && part_start(v, d, q[k]) by {
                if k > 0 {
                    assert(q[k] == r[k - 1]);
                }
            }
            assert forall|k1: int, k2: int| 0 <= k1 < k2 < q.len() implies #[trigger] q[k1] < #[trigger] q[k2] by {
                assert(q[k2] == r[k2 - 1]);
                if k1 > 0 {
                    assert(q[k1] == r[k1 - 1]);
                }
            }
            assert forall|p: int| i <= p && #[trigger] part_start(v, d, p) implies q.contains(p) by {
                if p == i {
                    assert(q[0] == i);
                } else {
                    let k = choose|k: int| 0 <= k < r.len() && r[k] == p;
                    assert(q[k + 1] == p);
                }
            }
        }
    }
}

/// The parts scanned from a position where a part may begin are the parts
/// that begin there or later, in order.
proof fn lemma_parts_from(v: Seq<u8>, d: u8, i: int)
    requires
        0 <= i,
        i == 0 || i >= v.len() || v[i - 1] == d || v[i] == d,
    ensures
        parts_from(v, d, i).len() == part_starts(v, d, i).len(),
        forall|k: int| 0 <= k < parts_from(v, d, i).len() ==> #[trigger] parts_from(v, d, i)[k] == part_at(
            v,
            d,
            part_starts(v, d, i)[k],
        ),
    decreases v.len() - i,
{
    if i >= v.len() {
        assert(skip_byte(v, d, i) == i);
    } else if v[i] == d {
        lemma_parts_from(v, d, i + 1);
        lemma_skip_byte_bounds(v, d, i + 1);
        assert(skip_byte(v, d, i) == skip_byte(v, d, i + 1));
        assert(next_part(v, d, i) == next_part(v, d, i + 1));
    } else {
        let n = v.len() as int;
        let end = find_byte(v, d, i);
        lemma_find_byte_bounds(v, d, i);
        assert(skip_byte(v, d, i) == i);
        assert(end > i);
        let j = if end < n { end + 1 } else { end };
        assert(next_part(v, d, i) == Some((v.subrange(i, end), j)));
        lemma_part_starts_skip(v, d, i + 1, end);
        if end < n {
            assert(part_starts(v, d, end) == part_starts(v, d, end + 1));
        }
        lemma_parts_from(v, d, j);
        let ps = part_starts(v, d, i);
        let rs = part_starts(v, d, j);
        let fs = parts_from(v, d, i);
        let gs = parts_from(v, d, j);
        assert(ps == seq![i] + rs);
        assert(fs == seq![v.subrange(i, end)] + gs);
        assert forall|k: int| 0 <= k < fs.len() implies #[trigger] fs[k] == part_at(v, d, ps[k]) by {
            if k > 0 {
                assert(fs[k] == gs[k - 1]);
                assert(ps[k] == rs[k - 1]);
            }
        }
    }
}

/// A value splits into its parts: the iterator yields, in order, one part
/// for each maximal run of bytes other than the delimiter, that run
/// itself, so each part is non-empty and holds no delimiter; every run
/// is yielded, in the order of its position; and once the iterator has
/// yielded nothing it yields nothing again.
pub proof fn law_split_into_runs(v: Seq<u8>, d: u8)
    ensures
        parts_from(v, d, 0).len() == part_starts(v, d, 0).len(),
        forall|k: int| 0 <= k < parts_from(v, d, 0).len() ==> {
            let p = part_starts(v, d, 0)[k];
            let e = find_byte(v, d, p);
            &&& part_start(v, d, p)
            &&& #[trigger] parts_from(v, d, 0)[k] == v.subrange(p, e)
            &&& p < e
            &&& e == v.len() || v[e] == d
            &&& forall|j: int| 0 <= j < parts_from(v, d, 0)[k].len() ==> parts_from(v, d, 0)[k][j] != d
        },
        forall|k1: int, k2: int| 0 <= k1 < k2 < part_starts(v, d, 0).len() ==> #[trigger] part_starts(v, d, 0)[k1]
            < #[trigger] part_starts(v, d, 0)[k2],
        forall|p: int| #[trigger] part_start(v, d, p) ==> part_starts(v, d, 0).contains(p),
        forall|i: int| i >= v.len() ==> next_part(v, d, i) is None,
{
    lemma_parts_from(v, d, 0);
    lemma_part_starts(v, d, 0);
    assert forall|k: int| 0 <= k < parts_from(v, d, 0).len() implies {
        let p = part_starts(v, d, 0)[k];
        let e = find_byte(v, d, p);
        &&& part_start(v, d, p)
        &&& #[trigger] parts_from(v, d, 0)[k] == v.subrange(p, e)
        &&& p < e
        &&& e == v.len() || v[e] == d
        &&& forall|j: int| 0 <= j < parts_from(v, d, 0)[k].len() ==> parts_from(v, d, 0)[k][j] != d
    } by {
        let p = part_starts(v, d, 0)[k];
        lemma_find_byte_bounds(v, d, p);
        let e = find_byte(v, d, p);
        assert forall|j: int| 0 <= j < parts_from(v, d, 0)[k].len() implies parts_from(v, d, 0)[k][j] != d by {
            assert(parts_from(v, d, 0)[k][j] == v[p + j]);
        }
    }
    assert forall|i: int| i >= v.len() implies next_part(v, d, i) is None by {
        assert(skip_byte(v, d, i) == i);
    }
}

/// The entries scanned from position `i` on, in the order the iterator
/// yields them.
pub open spec fn entries_from(s: Seq<u8>, i: int) -> Seq<Entry>
    decreases s.len() - i,
    via entries_from_decreases
{
    match next_entry(s, i) {
        None => Seq::empty(),
        Some((e, j)) => seq![e] + entries_from(s, j),
    }
}

#[via_fn]
proof fn entries_from_decreases(s: Seq<u8>, i: int) {
    lemma_next_entry_advances(s, i);
}

/// Position `p` of `s` begins a word that makes an entry: its byte is
/// neither a space nor `=`, and it starts `s` or follows a space.
pub open spec fn entry_start(s: Seq<u8>, p: int) -> bool {
    0 <= p < s.len() && s[p] != 32u8 && s[p] != 61u8 && (p == 0 || s[p - 1] == 32u8)
}

/// The positions at or after `i` that begin a word making an entry, in
/// increasing order.
pub open spec fn entry_starts(s: Seq<u8>, i: int) -> Seq<int>
    decreases s.len() - i,
{
    if i < 0 || i >= s.len() {
        Seq::empty()
    } else if entry_start(s, i) {
        seq![i] + entry_starts(s, i + 1)
    } else {
        entry_starts(s, i + 1)
    }
}

/// The word that begins at `p`: the bytes up to the next space.
pub open spec fn word_at(s: Seq<u8>, p: int) -> Seq<u8> {
    s.subrange(p, find_byte(s, 32u8, p))
}

/// The entry a word makes: its key is the part before its first `=`; its
/// value, when it has an `=`, the part after.
pub open spec fn entry_of(w: Seq<u8>) -> Entry {
    let eq = find_byte(w, 61u8, 0);
    (w.subrange(0, eq), if eq < w.len() { Some(w.subrange(eq + 1, w.len() as int)) } else { None })
}

/// Within a word no other word begins.
proof fn lemma_entry_starts_skip(s: Seq<u8>, a: int, b: int)
    requires
        1 <= a <= b <= s.len(),
        forall|p: int| a - 1 <= p < b ==> s[p] != 32u8,
    ensures
        entry_starts(s, a) == entry_starts(s, b),
    decreases b - a,
{
    if a < b {
        lemma_entry_starts_skip(s, a + 1, b);
    }
}

/// What `entry_starts` lists: every position at or after `i` that begins
/// a word making an entry, each once, in increasing order.
pub proof fn lemma_entry_starts(s: Seq<u8>, i: int)
    requires
        0 <= i,
    ensures
        forall|k: int| 0 <= k < entry_starts(s, i).len() ==> i <= #[trigger] entry_starts(s, i)[k]
            && entry_start(s, entry_starts(s, i)[k]),
        forall|k1: int, k2: int| 0 <= k1 < k2 < entry_starts(s, i).len() ==> #[trigger] entry_starts(s, i)[k1]
            < #[trigger] entry_starts(s, i)[k2],
        forall|p: int| i <= p && #[trigger] entry_start(s, p) ==> entry_starts(s, i).contains(p),
    decreases s.len() - i,
{
    if i < s.len() {
        lemma_entry_starts(s, i + 1);
        let r = entry_starts(s, i + 1);
        if entry_start(s, i) {
            let q = seq![i] + r;
            assert forall|k: int| 0 <= k < q.len() implies i <= #[trigger] q[k] && entry_start(s, q[k]) by {
                if k > 0 {
                    assert(q[k] == r[k - 1]);
                }
            }
            assert forall|k1: int, k2: int| 0 <= k1 < k2 < q.len() implies #[trigger] q[k1] < #[trigger] q[k2] by {
                assert(q[k2] == r[k2 - 1]);
                if k1 > 0 {
                    assert(q[k1] == r[k1 - 1]);
                }
            }
            assert forall|p: int| i <= p && #[trigger] entry_start(s, p) implies q.contains(p) by {
                if p == i {
                    assert(q[0] == i);
                } else {
                    let k = choose|k: int| 0 <= k < r.len() && r[k] == p;
                    assert(q[k + 1] == p);
                }
            }
        }
    }
}

/// The entry scanned at the start of a word is the entry that word makes.
proof fn lemma_entry_of_word(s: Seq<u8>, i: int, end: int)
    requires
        0 <= i < end <= s.len(),
        end == find_byte(s, 32u8, i),
        s[i] != 61u8,
    ensures
        ({
            let f = find_byte(s, 61u8, i);
            let eq = if f < end { f } else { end };
            entry_of(word_at(s, i)) == (s.subrange(i, eq), if eq < end {
                Some(s.subrange(eq + 1, end))
            } else {
                None
            })
        }),
{
    let w = word_at(s, i);
    let f = find_byte(s, 61u8, i);
    lemma_find_byte_bounds(s, 61u8, i);
    let eq = if f < end { f } else { end };
    let q = eq - i;
    assert forall|j: int| 0 <= j < q implies w[j] != 61u8 by {
        assert(w[j] == s[i + j]);
    }
    if f < end {
        assert(w[q] == s[f]);
    }
    lemma_find_byte(w, 61u8, 0, q);
    assert(w.subrange(0, q) =~= s.subrange(i, eq));
    if eq < end {
        assert(w.subrange(q + 1, w.len() as int) =~= s.subrange(eq + 1, end));
    }
}

/// The entries scanned from a place where a word may begin are the
/// entries of the words that begin there or later, in order.
proof fn lemma_entries_from(s: Seq<u8>, i: int)
    requires
        0 <= i,
        i == 0 || i >= s.len() || s[i - 1] == 32u8 || s[i] == 32u8,
    ensures
        entries_from(s, i).len() == entry_starts(s, i).len(),
        forall|k: int| 0 <= k < entries_from(s, i).len() ==> #[trigger] entries_from(s, i)[k] == entry_of(
            word_at(s, entry_starts(s, i)[k]),
        ),
    decreases s.len() - i,
{
    let n = s.len() as int;
    if i >= n {
        assert(skip_byte(s, 32u8, i) == i);
    } else if s[i] == 32u8 {
        lemma_entries_from(s, i + 1);
        lemma_skip_byte_bounds(s, 32u8, i + 1);
        assert(skip_byte(s, 32u8, i) == skip_byte(s, 32u8, i + 1));
        assert(next_entry(s, i) == next_entry(s, i + 1));
    } else {
        let end = find_byte(s, 32u8, i);
        lemma_find_byte_bounds(s, 32u8, i);
        assert(skip_byte(s, 32u8, i) == i);
        assert(end > i);
        lemma_entry_starts_skip(s, i + 1, end);
        if s[i] == 61u8 {
            lemma_find_byte(s, 61u8, i, i);
            assert(next_entry(s, i) == next_entry(s, end));
            lemma_entries_from(s, end);
            assert(entries_from(s, i) == entries_from(s, end));
        } else {
            let j = if end < n { end + 1 } else { end };
            lemma_entry_of_word(s, i, end);
            lemma_find_byte_bounds(s, 61u8, i);
            let f = find_byte(s, 61u8, i);
            let eq = if f < end { f } else { end };
            assert(eq != i);
            let value = if eq < end { Some(s.subrange(eq + 1, end)) } else { None };
            assert(next_entry(s, i) == Some(((s.subrange(i, eq), value), j)));
            assert(next_entry(s, i) == Some((entry_of(word_at(s, i)), j)));
            if end < n {
                assert(entry_starts(s, end) == entry_starts(s, end + 1));
            }
            lemma_entries_from(s, j);
            let ps = entry_starts(s, i);
            let rs = entry_starts(s, j);
            let fs = entries_from(s, i);
            let gs = entries_from(s, j);
            assert(ps == seq![i] + rs);
            assert(fs == seq![entry_of(word_at(s, i))] + gs);
            assert forall|k: int| 0 <= k < fs.len() implies #[trigger] fs[k] == entry_of(word_at(s, ps[k])) by {
                if k > 0 {
                    assert(fs[k] == gs[k - 1]);
                    assert(ps[k] == rs[k - 1]);
                }
            }
        }
    }
}

/// What the iterator yields over a whole command line: one entry for each
/// space-separated word that does not begin with `=`, in the order of the
/// words, made of the word's bytes before its first `=` as key and, when
/// it has an `=`, the bytes after it as value; words that begin with `=`
/// are skipped; and once the iterator has yielded nothing it yields
/// nothing again.
pub proof fn law_entries_are_words(s: Seq<u8>)
    ensures
        entries_from(s, 0).len() == entry_starts(s, 0).len(),
        forall|k: int| 0 <= k < entries_from(s, 0).len() ==> {
            let p = entry_starts(s, 0)[k];
            &&& entry_start(s, p)
            &&& #[trigger] entries_from(s, 0)[k] == entry_of(word_at(s, p))
        },
        forall|k1: int, k2: int| 0 <= k1 < k2 < entry_starts(s, 0).len() ==> #[trigger] entry_starts(s, 0)[k1]
            < #[trigger] entry_starts(s, 0)[k2],
        forall|p: int| #[trigger] entry_start(s, p) ==> entry_starts(s, 0).contains(p),
        forall|i: int| i >= s.len() ==> next_entry(s, i) is None,
{
    lemma_entries_from(s, 0);
    lemma_entry_starts(s, 0);
    assert forall|i: int| i >= s.len() implies next_entry(s, i) is None by {
        assert(skip_byte(s, 32u8, i) == i);
    }
}

/// The view of an entry the iterator hands out.
pub open spec fn entry_view(r: Option<(&[u8], Option<&[u8]>)>) -> Option<Entry> {
    match r {
        Some((k, v)) => Some((k@, opt_bytes(v))),
        None => None,
    }
}

/// One call of `Iter::next`, taking the iterator `before` to `after` and
/// handing out `r`: the entry the scan from its position finds, moving
/// past it; or nothing, moving to the end.
pub open spec fn iter_step<'a>(before: Iter<'a>, after: Iter<'a>, r: Option<Entry>) -> bool {
    &&& after.text() == before.text()
    &&& match next_entry(before.text(), before.pos()) {
        None => r is None && after.pos() == (if before.pos() >= before.text().len() {
            before.pos()
        } else {
            before.text().len() as int
        }),
        Some((e, j)) => r == Some(e) && after.pos() == j,
    }
}

/// After `k` calls from the start, the entries left to scan are those
/// after the first `k`.
proof fn lemma_iter_run<'a>(states: Seq<Iter<'a>>, results: Seq<Option<Entry>>, k: int)
    requires
        states.len() == results.len() + 1,
        states[0].pos() == 0,
        forall|j: int| 0 <= j < results.len() ==> iter_step(#[trigger] states[j], states[j + 1], results[j]),
        0 <= k <= results.len(),
    ensures
        states[k].text() == states[0].text(),
        states[k].pos() >= 0,
        entries_from(states[0].text(), states[k].pos()) == entries_from(states[0].text(), 0).subrange(
            if k < entries_from(states[0].text(), 0).len() { k } else { entries_from(states[0].text(), 0).len() as int },
            entries_from(states[0].text(), 0).len() as int,
        ),
        k < results.len() ==> results[k] == (if k < entries_from(states[0].text(), 0).len() {
            Some(entries_from(states[0].text(), 0)[k])
        } else {
            None
        }),
    decreases k,
{
    let s = states[0].text();
    let es = entries_from(s, 0);
    let n = es.len() as int;
    if k == 0 {
        assert(es.subrange(0, n) =~= es);
    } else {
        lemma_iter_run(states, results, k - 1);
        assert(iter_step(states[k - 1], states[k], results[k - 1]));
        let q = states[k - 1].pos();
        let before = es.subrange(if k - 1 < n { k - 1 } else { n }, n);
        lemma_next_entry_advances(s, q);
        match next_entry(s, q) {
            Some((e, j)) => {
                assert(entries_from(s, q) == seq![e] + entries_from(s, j));
                assert(before.len() > 0);
                assert(entries_from(s, j) =~= before.drop_first());
                assert(before.drop_first() =~= es.subrange(k, n));
            },
            None => {
                assert(entries_from(s, q).len() == 0);
                assert(skip_byte(s, 32u8, s.len() as int) == s.len());
                assert(next_entry(s, s.len() as int) is None);
                assert(entries_from(s, states[k].pos()) =~= es.subrange(n, n));
            },
        }
    }
    let p = states[k].pos();
    let rest = es.subrange(if k < n { k } else { n }, n);
    lemma_next_entry_advances(s, p);
    if k < results.len() {
        assert(iter_step(states[k], states[k + 1], results[k]));
        match next_entry(s, p) {
            Some((e, j)) => {
                assert(entries_from(s, p) == seq![e] + entries_from(s, j));
                assert(rest.len() > 0);
                assert(rest[0] == es[k]);
            },
            None => {
                assert(entries_from(s, p).len() == 0);
            },
        }
    }
}

/// Over the whole run of calls of `Iter::next` on a command line from its
/// start, the iterator hands out the entries `entries_from` lists, in
/// order, and nothing after them: `states` holds the iterator before each
/// call and after the last, `results` what each call handed out.
pub proof fn law_iter_run<'a>(states: Seq<Iter<'a>>, results: Seq<Option<Entry>>)
    requires
        states.len() == results.len() + 1,
        states[0].pos() == 0,
        forall|k: int| 0 <= k < results.len() ==> iter_step(#[trigger] states[k], states[k + 1], results[k]),
    ensures
        forall|k: int|
            0 <= k < results.len() ==> #[trigger] results[k] == (if k < entries_from(states[0].text(), 0).len() {
                Some(entries_from(states[0].text(), 0)[k])
            } else {
                None
            }),
{
    assert forall|k: int| 0 <= k < results.len() implies #[trigger] results[k] == (if k < entries_from(
        states[0].text(),
        0,
    ).len() {
        Some(entries_from(states[0].text(), 0)[k])
    } else {
        None
    }) by {
        lemma_iter_run(states, results, k);
    }
}

/// One call of `DelimiterIter::next`, taking the iterator `before` to
/// `after` and handing out `r`: the part the scan from its position finds,
/// moving past it; or nothing, moving to the end.
pub open spec fn part_step<'a>(before: DelimiterIter<'a>, after: DelimiterIter<'a>, r: Option<Seq<u8>>) -> bool {
    &&& after.text() == before.text()
    &&& after.delim() == before.delim()
    &&& match next_part(before.text(), before.delim(), before.pos()) {
        None => r is None && after.pos() == (if before.pos() >= before.text().len() {
            before.pos()
        } else {
            before.text().len() as int
        }),
        Some((part, j)) => r == Some(part) && after.pos() == j,
    }
}

/// After `k` calls from the start, the parts left to scan are those after
/// the first `k`.
proof fn lemma_part_run<'a>(states: Seq<DelimiterIter<'a>>, results: Seq<Option<Seq<u8>>>, k: int)
    requires
        states.len() == results.len() + 1,
        states[0].pos() == 0,
        forall|j: int| 0 <= j < results.len() ==> part_step(#[trigger] states[j], states[j + 1], results[j]),
        0 <= k <= results.len(),
    ensures
        states[k].text() == states[0].text(),
        states[k].delim() == states[0].delim(),
        states[k].pos() >= 0,
        parts_from(states[0].text(), states[0].delim(), states[k].pos()) == parts_from(
            states[0].text(),
            states[0].delim(),
            0,
        ).subrange(
            if k < parts_from(states[0].text(), states[0].delim(), 0).len() {
                k
            } else {
                parts_from(states[0].text(), states[0].delim(), 0).len() as int
            },
            parts_from(states[0].text(), states[0].delim(), 0).len() as int,
        ),
        k < results.len() ==> results[k] == (if k < parts_from(states[0].text(), states[0].delim(), 0).len() {
            Some(parts_from(states[0].text(), states[0].delim(), 0)[k])
        } else {
            None
        }),
    decreases k,
{
    let v = states[0].text();
    let d = states[0].delim();
    let ps = parts_from(v, d, 0);
    let n = ps.len() as int;
    if k == 0 {
        assert(ps.subrange(0, n) =~= ps);
    } else {
        lemma_part_run(states, results, k - 1);
        assert(part_step(states[k - 1], states[k], results[k - 1]));
        let q = states[k - 1].pos();
        let before = ps.subrange(if k - 1 < n { k - 1 } else { n }, n);
        lemma_next_part_advances(v, d, q);
        match next_part(v, d, q) {
            Some((part, j)) => {
                assert(parts_from(v, d, q) == seq![part] + parts_from(v, d, j));
                assert(before.len() > 0);
                assert(parts_from(v, d, j) =~= before.drop_first());
                assert(before.drop_first() =~= ps.subrange(k, n));
            },
            None => {
                assert(parts_from(v, d, q).len() == 0);
                assert(skip_byte(v, d, v.len() as int) == v.len());
                assert(next_part(v, d, v.len() as int) is None);
                assert(parts_from(v, d, states[k].pos()) =~= ps.subrange(n, n));
            },
        }
    }
    let p = states[k].pos();
    let rest = ps.subrange(if k < n { k } else { n }, n);
    lemma_next_part_advances(v, d, p);
    if k < results.len() {
        assert(part_step(states[k], states[k + 1], results[k]));
        match next_part(v, d, p) {
            Some((part, j)) => {
                assert(parts_from(v, d, p) == seq![part] + parts_from(v, d, j));
                assert(rest.len() > 0);
                assert(rest[0] == ps[k]);
            },
            None => {
                assert(parts_from(v, d, p).len() == 0);
            },
        }
    }
}

/// Over the whole run of calls of `DelimiterIter::next` on a value from
/// its start, the iterator hands out the parts `parts_from` lists, in
/// order, and nothing after them: `states` holds the iterator before each
/// call and after the last, `results` what each call handed out.
pub proof fn law_part_run<'a>(states: Seq<DelimiterIter<'a>>, results: Seq<Option<Seq<u8>>>)
    requires
        states.len() == results.len() + 1,
        states[0].pos() == 0,
        forall|k: int| 0 <= k < results.len() ==> part_step(#[trigger] states[k], states[k + 1], results[k]),
    ensures
        forall|k: int|
            0 <= k < results.len() ==> #[trigger] results[k] == (if k < parts_from(
                states[0].text(),
                states[0].delim(),
                0,
            ).len() {
                Some(parts_from(states[0].text(), states[0].delim(), 0)[k])
            } else {
                None
            }),
{
    assert forall|k: int| 0 <= k < results.len() implies #[trigger] results[k] == (if k < parts_from(
        states[0].text(),
        states[0].delim(),
        0,
    ).len() {
        Some(parts_from(states[0].text(), states[0].delim(), 0)[k])
    } else {
        None
    }) by {
        lemma_part_run(states, results, k);
    }
}

/// Entry `k` of `es` is the first whose key is exactly `key`.
pub open spec fn first_with_key(es: Seq<Entry>, key: Seq<u8>, k: int) -> bool {
    &&& 0 <= k < es.len()
    &&& es[k].0 == key
    &&& forall|k2: int| 0 <= k2 < k ==> es[k2].0 != key
}

/// What looking a key up from position `i` finds, in terms of the entries
/// from there on.
proof fn lemma_lookup_first(s: Seq<u8>, key: Seq<u8>, i: int)
    requires
        0 <= i,
    ensures
        lookup(s, key, i) is None <==> forall|k: int|
            0 <= k < entries_from(s, i).len() ==> (#[trigger] entries_from(s, i)[k]).0 != key,
        lookup(s, key, i) matches Some(v) ==> exists|k: int|
            #[trigger] first_with_key(entries_from(s, i), key, k) && entries_from(s, i)[k].1 == v,
    decreases s.len() - i,
{
    lemma_next_entry_advances(s, i);
    match next_entry(s, i) {
        None => {
            assert(entries_from(s, i).len() == 0);
        },
        Some((e, j)) => {
            let es = entries_from(s, i);
            let rest = entries_from(s, j);
            assert(es == seq![e] + rest);
            assert(es[0] == e);
            if e.0 == key {
                assert(first_with_key(es, key, 0));
            } else {
                lemma_lookup_first(s, key, j);
                assert(lookup(s, key, i) == lookup(s, key, j));
                assert forall|k: int| 1 <= k < es.len() implies #[trigger] es[k] == rest[k - 1] by {
                }
                if lookup(s, key, i) is None {
                    assert forall|k: int| 0 <= k < es.len() implies (#[trigger] es[k]).0 != key by {
                        if k > 0 {
                            assert(es[k] == rest[k - 1]);
                        }
                    }
                } else {
                    let v = lookup(s, key, i)->0;
                    let k = choose|k: int| #[trigger] first_with_key(rest, key, k) && rest[k].1 == v;
                    assert(es[k + 1] == rest[k]);
                    assert forall|k2: int| 0 <= k2 < k + 1 implies es[k2].0 != key by {
                        if k2 > 0 {
                            assert(es[k2] == rest[k2 - 1]);
                        }
                    }
                    assert(first_with_key(es, key, k + 1));
                }
                if forall|k: int| 0 <= k < es.len() ==> (#[trigger] es[k]).0 != key {
                    assert forall|k: int| 0 <= k < rest.len() implies (#[trigger] rest[k]).0 != key by {
                        assert(es[k + 1] == rest[k]);
                    }
                }
            }
        },
    }
}

/// Looking a key up on a command line finds the value of the first entry
/// whose key is exactly that key, and nothing when no entry has that key;
/// an entry whose key only begins with it, or is only part of it, is
/// never taken for it.
pub proof fn law_lookup_finds_first_exact_key(s: Seq<u8>, key: Seq<u8>)
    ensures
        lookup(s, key, 0) is None <==> forall|k: int|
            0 <= k < entries_from(s, 0).len() ==> (#[trigger] entries_from(s, 0)[k]).0 != key,
        lookup(s, key, 0) matches Some(v) ==> exists|k: int|
            #[trigger] first_with_key(entries_from(s, 0), key, k) && entries_from(s, 0)[k].1 == v,
{
    lemma_lookup_first(s, key, 0);
}

} // verus!
