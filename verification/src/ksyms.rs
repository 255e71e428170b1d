//! The kernel symbol table: built from the kernel's object file (text
//! symbols, sorted by address, names demangled) and searched to name the
//! return addresses of a backtrace.
use vstd::prelude::*;
use object::{Object, ObjectSymbol};

verus! {

/// Kind of a symbol of an object file.
#[derive(Clone, Copy, Debug, PartialEq, Eq, Structural)]
pub enum SymbolKind {
    Unknown,
    Text,
    Data,
    Section,
    File,
    Label,
    Tls,
    Other,
}

/// A symbol as the object file lists it; `name` is `None` where the name
/// could not be read.
#[derive(Debug)]
pub struct ObjSymbol {
    pub kind: SymbolKind,
    pub name: Option<String>,
    pub address: u64,
    pub size: u64,
}

/// The plain values of an object-file symbol.
pub open spec fn obj_view(s: ObjSymbol) -> (SymbolKind, Option<Seq<char>>, u64, u64) {
    (
        s.kind,
        match s.name {
            Some(n) => Some(n@),
            None => None,
        },
        s.address,
        s.size,
    )
}

/// The symbols that the object file `bin` lists, in its order; `None`
/// when it is no object file that can be read.
pub uninterp spec fn object_symbols(bin: Seq<u8>) -> Option<Seq<(SymbolKind, Option<Seq<char>>, u64, u64)>>;

/// The symbol name that `rustc_demangle` makes of `name`.
pub uninterp spec fn demangled(name: Seq<char>) -> Seq<char>;

/// Parses `bin` with `object::File::parse` and lists its symbols with
/// `Object::symbols`, each with `ObjectSymbol::kind`, `name`, `address`
/// and `size`. The contract claims only that the result is a function of
/// the bytes, named `object_symbols`.
#[verifier::external_body]
fn parse_symbols(bin: &[u8]) -> (r: Option<Vec<ObjSymbol>>)
    ensures
        match r {
            None => object_symbols(bin@) is None,
            Some(v) => object_symbols(bin@) == Some(raw_view(v@)),
        },
{
    let file = object::File::parse(bin).ok()?;
    Some(file.symbols().map(|s| ObjSymbol {
        kind: match s.kind() {
            object::SymbolKind::Unknown => SymbolKind::Unknown,
            object::SymbolKind::Text => SymbolKind::Text,
            object::SymbolKind::Data => SymbolKind::Data,
            object::SymbolKind::Section => SymbolKind::Section,
            object::SymbolKind::File => SymbolKind::File,
            object::SymbolKind::Label => SymbolKind::Label,
            object::SymbolKind::Tls => SymbolKind::Tls,
            _ => SymbolKind::Other,
        },
        name: s.name().ok().map(|n| n.to_string()),
        address: s.address(), size: s.size(),
    }).collect())
}

/// Demangles a symbol name with `rustc_demangle::demangle`, printed with
/// `Display`. The contract claims only that the result is a function of
/// the name, named `demangled`.
#[verifier::external_body]
fn demangle(name: &str) -> (r: String)
    ensures
        r@ == demangled(name@),
{
    rustc_demangle::demangle(name).to_string()
}

/// An entry of the kernel symbol table.
#[derive(Debug)]
pub struct Symbol {
    pub address: u64,
    pub size: u64,
    pub name: String,
}

/// The plain values of a symbol-table entry.
pub open spec fn sym_view(s: Symbol) -> (u64, u64, Seq<char>) {
    (s.address, s.size, s.name@)
}

/// The text symbols with a readable name, in the object file's order: their
/// address, size and name.
pub open spec fn text_symbols(raw: Seq<(SymbolKind, Option<Seq<char>>, u64, u64)>) -> Seq<(u64, u64, Seq<char>)>
    decreases raw.len(),
{
    if raw.len() == 0 {
        Seq::empty()
    } else {
        let rest = text_symbols(raw.drop_last());
        let s = raw.last();
        if s.0 == SymbolKind::Text && s.1 is Some {
            rest.push((s.2, s.3, s.1->0))
        } else {
            rest
        }
    }
}

/// The plain values of a symbol table.
pub open spec fn table_view(v: Seq<Symbol>) -> Seq<(u64, u64, Seq<char>)> {
    v.map_values(|s: Symbol| sym_view(s))
}

/// The plain values of the symbols an object file lists.
pub open spec fn raw_view(v: Seq<ObjSymbol>) -> Seq<(SymbolKind, Option<Seq<char>>, u64, u64)> {
    v.map_values(|s: ObjSymbol| obj_view(s))
}

/// `p` numbers the positions of a sequence of `n` items in some order.
pub open spec fn is_permutation(p: Seq<int>, n: int) -> bool {
    &&& p.len() == n
    &&& p.no_duplicates()
    &&& forall|k: int| 0 <= k < p.len() ==> 0 <= #[trigger] p[k] < n
}

/// `table` is `t` sorted by address, stably: entry `k` of the table is
/// item `p[k]` of `t`, and entries of equal address keep their order.
pub open spec fn stable_sort_of(table: Seq<(u64, u64, Seq<char>)>, t: Seq<(u64, u64, Seq<char>)>, p: Seq<int>) -> bool {
    &&& is_permutation(p, t.len() as int)
    &&& table.len() == t.len()
    &&& forall|k: int| 0 <= k < table.len() ==> #[trigger] table[k] == t[p[k]]
    &&& forall|a: int, b: int| 0 <= a < b < table.len() ==> #[trigger] table[a].0 < #[trigger] table[b].0
        || (table[a].0 == table[b].0 && p[a] < p[b])
}

/// `table` is the symbol table of an object file listing `raw`: its text
/// symbols with a name, sorted by address (equal addresses in the file's
/// order), names demangled.
pub open spec fn is_table_of(table: Seq<(u64, u64, Seq<char>)>, raw: Seq<(SymbolKind, Option<Seq<char>>, u64, u64)>) -> bool {
    exists|p: Seq<int>| #[trigger] stable_sort_of(table, demangled_all(text_symbols(raw)), p)
}

/// The text symbols of `t` with their names demangled, in order.
pub open spec fn demangled_all(t: Seq<(u64, u64, Seq<char>)>) -> Seq<(u64, u64, Seq<char>)> {
    Seq::new(t.len(), |k: int| (t[k].0, t[k].1, demangled(t[k].2)))
}

/// The text symbols of an object file with a readable name, demangled, in
/// the file's order.
fn demangled_text_symbols(raw: &Vec<ObjSymbol>) -> (r: Vec<Symbol>)
    ensures
        table_view(r@) == demangled_all(text_symbols(raw_view(raw@))),
{
    let ghost rv = raw_view(raw@);
    let mut items: Vec<Symbol> = Vec::new();
    let mut i: usize = 0;
    while i < raw.len()
        invariant
            0 <= i <= raw@.len(),
            rv == raw_view(raw@),
            table_view(items@) == demangled_all(text_symbols(rv.subrange(0, i as int))),
        decreases raw@.len() - i,
    {
        let s = &raw[i];
        proof {
            assert(rv.subrange(0, i + 1).drop_last() =~= rv.subrange(0, i as int));
            assert(rv.subrange(0, i + 1).last() == obj_view(raw@[i as int]));
        }
        if s.kind == SymbolKind::Text {
            if let Some(n) = &s.name {
                let name = demangle(n.as_str());
                let ghost before_items = items@;
                items.push(Symbol { address: s.address, size: s.size, name });
                proof {
                    assert(table_view(items@) =~= table_view(before_items).push(sym_view(items@.last())));
                    assert(table_view(items@) =~= demangled_all(text_symbols(rv.subrange(0, i + 1))));
                }
            }
        }
        i = i + 1;
    }
    assert(rv.subrange(0, raw@.len() as int) =~= rv);
    items
}

/// The symbols `items` sorted by address, those of equal address kept in
/// their order.
pub fn sort_by_address(items: Vec<Symbol>) -> (r: Vec<Symbol>)
    ensures
        exists|p: Seq<int>| #[trigger] stable_sort_of(table_view(r@), table_view(items@), p),
{
    let mut items = items;
    let ghost d = table_view(items@);
    let ghost n = d.len() as int;
    let mut out: Vec<Symbol> = Vec::new();
    let ghost mut p: Seq<int> = Seq::empty();
    let ghost mut i: int = 0;
    assert(d.subrange(0, n) =~= d);
    while items.len() > 0
        invariant
            n == d.len(),
            0 <= i <= n,
            table_view(items@) == d.subrange(i, n),
            out@.len() == i,
            is_permutation(p, i),
            forall|k: int| 0 <= k < out@.len() ==> #[trigger] sym_view(out@[k]) == d[p[k]],
            forall|a: int, b: int| 0 <= a < b < out@.len() ==> #[trigger] out@[a].address < #[trigger] out@[b].address
                || (out@[a].address == out@[b].address && p[a] < p[b]),
        decreases items@.len(),
    {
        proof {
            assert(table_view(items@).len() == items@.len());
            assert(table_view(items@)[0] == d[i]);
        }
        let ghost before_items = items@;
        let sym = items.remove(0);
        proof {
            assert(table_view(items@) =~= table_view(before_items).drop_first());
        }
        let x = sym.address;
        let mut pos: usize = 0;
        while pos < out.len() && out[pos].address <= x
            invariant
                0 <= pos <= out@.len(),
                forall|k: int| 0 <= k < pos ==> out@[k].address <= x,
            decreases out@.len() - pos,
        {
            pos = pos + 1;
        }
        let ghost old_out = out@;
        let ghost old_p = p;
        out.insert(pos, sym);
        proof {
            p = old_p.insert(pos as int, i);
            assert(table_view(items@) =~= d.subrange(i + 1, n));
            assert forall|k: int| 0 <= k < out@.len() implies #[trigger] sym_view(out@[k]) == d[p[k]] by {
                if k < pos {
                    assert(out@[k] == old_out[k] && p[k] == old_p[k]);
                } else if k > pos {
                    assert(out@[k] == old_out[k - 1] && p[k] == old_p[k - 1]);
                }
            }
            assert forall|a: int, b: int| 0 <= a < b < out@.len() implies #[trigger] out@[a].address < #[trigger] out@[b].address
                || (out@[a].address == out@[b].address && p[a] < p[b]) by {
                if pos < old_out.len() {
                    assert(old_out[pos as int].address > x);
                }
                if b < pos {
                    assert(out@[a] == old_out[a] && out@[b] == old_out[b]);
                } else if b == pos {
                    assert(out@[a] == old_out[a] && p[a] == old_p[a]);
                } else if a == pos {
                    assert(out@[b] == old_out[b - 1]);
                    assert(old_out[pos as int].address > x || b - 1 == pos);
                    if b - 1 > pos {
                        assert(old_out[pos as int].address <= old_out[b - 1].address);
                    }
                } else if a < pos {
                    assert(out@[a] == old_out[a] && out@[b] == old_out[b - 1]);
                    assert(p[a] == old_p[a] && p[b] == old_p[b - 1]);
                } else {
                    assert(out@[a] == old_out[a - 1] && out@[b] == old_out[b - 1]);
                    assert(p[a] == old_p[a - 1] && p[b] == old_p[b - 1]);
                }
            }
            assert forall|k: int| 0 <= k < p.len() implies 0 <= #[trigger] p[k] < i + 1 by {
                if k < pos {
                    assert(p[k] == old_p[k]);
                } else if k > pos {
                    assert(p[k] == old_p[k - 1]);
                }
            }
            assert(p.no_duplicates()) by {
                assert forall|a: int, b: int| 0 <= a < p.len() && 0 <= b < p.len() && a != b implies p[a] != p[b] by {
                    if a != pos && b != pos {
                        let a0 = if a < pos { a } else { a - 1 };
                        let b0 = if b < pos { b } else { b - 1 };
                        assert(p[a] == old_p[a0] && p[b] == old_p[b0]);
                    } else if a == pos {
                        let b0 = if b < pos { b } else { b - 1 };
                        assert(p[b] == old_p[b0]);
                    } else {
                        let a0 = if a < pos { a } else { a - 1 };
                        assert(p[a] == old_p[a0]);
                    }
                }
            }
            i = i + 1;
        }
    }
    proof {
        let tv = table_view(out@);
        assert forall|k: int| 0 <= k < tv.len() implies #[trigger] tv[k] == d[p[k]] by {
            assert(tv[k] == sym_view(out@[k]));
        }
        assert forall|a: int, b: int| 0 <= a < b < tv.len() implies #[trigger] tv[a].0 < #[trigger] tv[b].0
            || (tv[a].0 == tv[b].0 && p[a] < p[b]) by {
            assert(tv[a].0 == out@[a].address && tv[b].0 == out@[b].address);
        }
        assert(stable_sort_of(tv, d, p));
    }
    out
}

/// The kernel symbol table made of the symbols an object file lists: its
/// text symbols with a readable name, sorted by address (those of equal
/// address kept in the file's order), names demangled.
pub fn symbol_table(raw: Vec<ObjSymbol>) -> (r: Vec<Symbol>)
    ensures
        is_table_of(table_view(r@), raw_view(raw@)),
{
    let items = demangled_text_symbols(&raw);
    let r = sort_by_address(items);
    proof {
        let p = choose|p: Seq<int>| #[trigger] stable_sort_of(table_view(r@), table_view(items@), p);
        assert(stable_sort_of(table_view(r@), demangled_all(text_symbols(raw_view(raw@))), p));
    }
    r
}

/// Lists the text symbols of the object file `bin` as the kernel symbol
/// table; `None` when `bin` is no object file that can be read.
pub fn kernel_symbols(bin: &[u8]) -> (r: Option<Vec<Symbol>>)
    ensures
        match object_symbols(bin@) {
            None => r is None,
            Some(raw) => r matches Some(v) && is_table_of(table_view(v@), raw),
        },
{
    match parse_symbols(bin) {
        None => None,
        Some(raw) => {
            let ghost rv = raw_view(raw@);
            let table = symbol_table(raw);
            assert(object_symbols(bin@) == Some(rv));
            Some(table)
        },
    }
}


/// The table is sorted by address.
pub open spec fn sorted_by_address(t: Seq<Symbol>) -> bool {
    forall|a: int, b: int| 0 <= a <= b < t.len() ==> #[trigger] t[a].address <= #[trigger] t[b].address
}

/// Entry `i` is the last one that starts at or before `find`.
pub open spec fn last_at_or_before(t: Seq<Symbol>, i: int, find: u64) -> bool {
    0 <= i < t.len() && t[i].address <= find && (i + 1 == t.len() || t[i + 1].address > find)
}

/// Where a binary search of the entries from `lo` up to `hi` for the first
/// one starting past `find` ends: it halves the range at its middle entry,
/// going right of it when that entry starts at or before `find`.
pub open spec fn search_end(t: Seq<Symbol>, find: u64, lo: int, hi: int) -> int
    decreases hi - lo,
{
    if lo >= hi {
        lo
    } else {
        let mid = lo + (hi - lo) / 2;
        if t[mid].address <= find {
            search_end(t, find, mid + 1, hi)
        } else {
            search_end(t, find, lo, mid)
        }
    }
}

/// The entry a search for `find` lands on: the one before where the
/// search ends, if any.
pub open spec fn landing(t: Seq<Symbol>, find: u64) -> int {
    search_end(t, find, 0, t.len() as int) - 1
}

/// The entry's end, its start plus its size, lies within the address
/// space; summing them does not overflow.
pub open spec fn end_fits(t: Seq<Symbol>, i: int) -> bool {
    0 <= i < t.len() ==> t[i].address + t[i].size <= u64::MAX
}

/// The symbol `find_symbol` names for `find`: the entry the search lands
/// on, if it ends past `find`.
pub open spec fn symbol_for(t: Seq<Symbol>, find: u64) -> Option<usize> {
    let i = landing(t, find);
    if 0 <= i && find < t[i].address + t[i].size {
        Some(i as usize)
    } else {
        None
    }
}

/// The binary search on start addresses: where the search for the first
/// entry starting past `find` ends. In a table sorted by address, every
/// entry before that place starts at or before `find` and every entry
/// from it on starts past it.
pub fn search(ksyms: &[Symbol], find: u64) -> (r: usize)
    ensures
        r as int == search_end(ksyms@, find, 0, ksyms@.len() as int),
        r <= ksyms@.len(),
        r > 0 ==> ksyms@[r - 1].address <= find,
        sorted_by_address(ksyms@) ==> forall|k: int| 0 <= k < r ==> #[trigger] ksyms@[k].address <= find,
        sorted_by_address(ksyms@) ==> forall|k: int| r <= k < ksyms@.len() ==> #[trigger] ksyms@[k].address > find,
{
    let mut lo: usize = 0;
    let mut hi: usize = ksyms.len();
    while lo < hi
        invariant
            0 <= lo <= hi <= ksyms@.len(),
            search_end(ksyms@, find, lo as int, hi as int) == search_end(ksyms@, find, 0, ksyms@.len() as int),
            lo == 0 || ksyms@[lo - 1].address <= find,
            sorted_by_address(ksyms@) ==> forall|k: int| 0 <= k < lo ==> #[trigger] ksyms@[k].address <= find,
            sorted_by_address(ksyms@) ==> forall|k: int| hi <= k < ksyms@.len() ==> #[trigger] ksyms@[k].address > find,
        decreases hi - lo,
    {
        let mid = lo + (hi - lo) / 2;
        if ksyms[mid].address <= find {
            lo = mid + 1;
        } else {
            hi = mid;
        }
    }
    lo
}

/// The symbol whose code holds address `find`: the entry the binary search
/// on start addresses lands on, if it also ends past `find`. In a table
/// sorted by address that is the last symbol starting at or before
/// `find`. The landing entry's start and size must not overflow when
/// summed.
pub fn find_symbol(ksyms: &[Symbol], find: u64) -> (r: Option<usize>)
    requires
        end_fits(ksyms@, landing(ksyms@, find)),
    ensures
        r == symbol_for(ksyms@, find),
        r matches Some(i) ==> i < ksyms@.len() && ksyms@[i as int].address <= find && find < ksyms@[i as int].address
            + ksyms@[i as int].size,
        sorted_by_address(ksyms@) ==> match r {
            Some(i) => last_at_or_before(ksyms@, i as int, find),
            None => forall|i: int| last_at_or_before(ksyms@, i, find) ==> ksyms@[i].address + ksyms@[i].size <= find,
        },
{
    let lo = search(ksyms, find);
    if lo == 0 {
        proof {
            if sorted_by_address(ksyms@) {
                assert forall|i: int| last_at_or_before(ksyms@, i, find) implies ksyms@[i].address + ksyms@[i].size
                    <= find by {
                    assert(ksyms@[i].address > find);
                }
            }
        }
        return None;
    }
    let i = lo - 1;
    let symbol = &ksyms[i];
    if symbol.address + symbol.size > find {
        proof {
            if sorted_by_address(ksyms@) {
                assert(last_at_or_before(ksyms@, i as int, find));
            }
        }
        Some(i)
    } else {
        proof {
            if sorted_by_address(ksyms@) {
                assert forall|j: int| last_at_or_before(ksyms@, j, find) implies ksyms@[j].address + ksyms@[j].size
                    <= find by {
                    if j < i {
                        assert(ksyms@[j + 1].address <= find);
                    } else if j > i {
                        assert(ksyms@[j].address > find);
                    }
                }
            }
        }
        None
    }
}

/// In a table sorted by address the search lands on the last entry that
/// starts at or before `find`, if any; so only that entry's end must fit.
pub proof fn law_sorted_search_lands_on_last_before(t: Seq<Symbol>, find: u64)
    requires
        sorted_by_address(t),
    ensures
        landing(t, find) == -1 ==> forall|i: int| 0 <= i < t.len() ==> t[i].address > find,
        landing(t, find) >= 0 ==> last_at_or_before(t, landing(t, find), find),
{
    lemma_search_end(t, find, 0, t.len() as int);
}

/// Where the search ends in a sorted table.
proof fn lemma_search_end(t: Seq<Symbol>, find: u64, lo: int, hi: int)
    requires
        sorted_by_address(t),
        0 <= lo <= hi <= t.len(),
        forall|k: int| 0 <= k < lo ==> #[trigger] t[k].address <= find,
        forall|k: int| hi <= k < t.len() ==> #[trigger] t[k].address > find,
    ensures
        lo <= search_end(t, find, lo, hi) <= hi,
        forall|k: int| 0 <= k < search_end(t, find, lo, hi) ==> #[trigger] t[k].address <= find,
        forall|k: int| search_end(t, find, lo, hi) <= k < t.len() ==> #[trigger] t[k].address > find,
    decreases hi - lo,
{
    if lo < hi {
        let mid = lo + (hi - lo) / 2;
        if t[mid].address <= find {
            lemma_search_end(t, find, mid + 1, hi);
        } else {
            lemma_search_end(t, find, lo, mid);
        }
    }
}

/// The name `resolve` gives a return address: the symbol for the address
/// just before it, and the return address's offset from that symbol's
/// start.
pub open spec fn resolved(t: Seq<Symbol>, return_address: u64) -> Option<(usize, u64)> {
    match symbol_for(t, (return_address - 1) as u64) {
        Some(i) => Some((i, (return_address - t[i as int].address) as u64)),
        None => None,
    }
}

/// Names a return address of a backtrace: the symbol holding the call
/// instruction just before it, and the return address's offset from the
/// symbol's start.
pub fn resolve(ksyms: &[Symbol], return_address: u64) -> (r: Option<(usize, u64)>)
    requires
        return_address > 0,
        end_fits(ksyms@, landing(ksyms@, (return_address - 1) as u64)),
    ensures
        r == resolved(ksyms@, return_address),
        r matches Some((i, off)) ==> i < ksyms@.len() && ksyms@[i as int].address <= return_address - 1
            < ksyms@[i as int].address + ksyms@[i as int].size && off == return_address - ksyms@[i as int].address,
        sorted_by_address(ksyms@) ==> match r {
            Some((i, off)) => last_at_or_before(ksyms@, i as int, (return_address - 1) as u64),
            None => forall|i: int| last_at_or_before(ksyms@, i, (return_address - 1) as u64) ==> ksyms@[i].address
                + ksyms@[i].size <= return_address - 1,
        },
{
    match find_symbol(ksyms, return_address - 1) {
        Some(i) => Some((i, return_address - ksyms[i].address)),
        None => None,
    }
}

/// The number of return addresses before the first zero, which ends a
/// backtrace.
pub open spec fn frames_before_zero(frames: Seq<u64>) -> int
    decreases frames.len(),
{
    if frames.len() == 0 || frames[0] == 0 {
        0
    } else {
        1 + frames_before_zero(frames.drop_first())
    }
}

/// The lookups of a backtrace through the return addresses `frames`: one
/// `resolve` for each address before the first zero, which ends the walk.
/// The search for each of those must land on an entry whose end fits.
pub fn resolve_frames(ksyms: &[Symbol], frames: &[u64]) -> (r: Vec<Option<(usize, u64)>>)
    requires
        forall|k: int| 0 <= k < frames_before_zero(frames@) ==> end_fits(
            ksyms@,
            landing(ksyms@, (#[trigger] frames@[k] - 1) as u64),
        ),
    ensures
        r@.len() == frames_before_zero(frames@),
        forall|k: int| 0 <= k < r@.len() ==> frames@[k] > 0 && #[trigger] r@[k] == resolved(ksyms@, frames@[k]),
{
    proof {
        lemma_frames_before_zero(frames@);
    }
    let mut out: Vec<Option<(usize, u64)>> = Vec::new();
    let mut k: usize = 0;
    while k < frames.len() && frames[k] != 0
        invariant
            0 <= k <= frames@.len(),
            k <= frames_before_zero(frames@),
            frames_before_zero(frames@) <= frames@.len(),
            forall|j: int| 0 <= j < frames_before_zero(frames@) ==> #[trigger] frames@[j] != 0,
            frames_before_zero(frames@) < frames@.len() ==> frames@[frames_before_zero(frames@)] == 0,
            forall|j: int| 0 <= j < frames_before_zero(frames@) ==> end_fits(
                ksyms@,
                landing(ksyms@, (#[trigger] frames@[j] - 1) as u64),
            ),
            out@.len() == k,
            forall|j: int| 0 <= j < k ==> #[trigger] out@[j] == resolved(ksyms@, frames@[j]),
        decreases frames@.len() - k,
    {
        assert(k < frames_before_zero(frames@));
        let r = resolve(ksyms, frames[k]);
        out.push(r);
        k = k + 1;
    }
    out
}

/// The first `frames_before_zero(s)` addresses are not zero, and the one
/// after them, if any, is.
proof fn lemma_frames_before_zero(s: Seq<u64>)
    ensures
        0 <= frames_before_zero(s) <= s.len(),
        forall|j: int| 0 <= j < frames_before_zero(s) ==> #[trigger] s[j] != 0,
        frames_before_zero(s) < s.len() ==> s[frames_before_zero(s)] == 0,
    decreases s.len(),
{
    if s.len() > 0 && s[0] != 0 {
        let t = s.drop_first();
        lemma_frames_before_zero(t);
        assert forall|j: int| 0 <= j < frames_before_zero(s) implies #[trigger] s[j] != 0 by {
            if j > 0 {
                assert(s[j] == t[j - 1]);
            }
        }
        if frames_before_zero(s) < s.len() {
            assert(s[frames_before_zero(s)] == t[frames_before_zero(t)]);
        }
    }
}

/// A symbol table built from an object file is sorted by address, as
/// looking a symbol up needs.
pub proof fn law_table_is_sorted(table: Seq<Symbol>, raw: Seq<(SymbolKind, Option<Seq<char>>, u64, u64)>)
    requires
        is_table_of(table_view(table), raw),
    ensures
        sorted_by_address(table),
{
    let t = demangled_all(text_symbols(raw));
    let p = choose|p: Seq<int>| #[trigger] stable_sort_of(table_view(table), t, p);
    assert forall|a: int, b: int| 0 <= a <= b < table.len() implies #[trigger] table[a].address <= #[trigger] table[b].address by {
        if a < b {
            assert(table_view(table)[a].0 == table[a].address);
            assert(table_view(table)[b].0 == table[b].address);
        }
    }
}

/// Symbol `j` of `raw` is of kind `Text`, has a name, and `e` is its
/// address, size and name.
pub open spec fn text_symbol_at(raw: Seq<(SymbolKind, Option<Seq<char>>, u64, u64)>, j: int, e: (u64, u64, Seq<char>)) -> bool {
    &&& 0 <= j < raw.len()
    &&& raw[j].0 == SymbolKind::Text
    &&& raw[j].1 is Some
    &&& e == (raw[j].2, raw[j].3, raw[j].1->0)
}

/// Symbol `j` of `raw` is of kind `Text`, has a name, and `e` is its
/// address, size and demangled name: the entry a symbol table has for it.
pub open spec fn text_entry_at(raw: Seq<(SymbolKind, Option<Seq<char>>, u64, u64)>, j: int, e: (u64, u64, Seq<char>)) -> bool {
    &&& 0 <= j < raw.len()
    &&& raw[j].0 == SymbolKind::Text
    &&& raw[j].1 is Some
    &&& e == (raw[j].2, raw[j].3, demangled(raw[j].1->0))
}

/// `e` is the address, size and name of some text symbol of `raw` that has
/// a name.
pub open spec fn from_text_symbol(raw: Seq<(SymbolKind, Option<Seq<char>>, u64, u64)>, e: (u64, u64, Seq<char>)) -> bool {
    exists|j: int| #[trigger] text_symbol_at(raw, j, e)
}

/// `e` is the entry a symbol table has for some text symbol of `raw` that
/// has a name.
pub open spec fn from_text_entry(raw: Seq<(SymbolKind, Option<Seq<char>>, u64, u64)>, e: (u64, u64, Seq<char>)) -> bool {
    exists|j: int| #[trigger] text_entry_at(raw, j, e)
}

/// Where the entries of `text_symbols(raw)` come from: each is the
/// address, size and name of a text symbol of `raw` with a name, and each
/// such symbol gives one.
proof fn lemma_text_symbols_from(raw: Seq<(SymbolKind, Option<Seq<char>>, u64, u64)>)
    ensures
        forall|k: int| 0 <= k < text_symbols(raw).len() ==> from_text_symbol(raw, #[trigger] text_symbols(raw)[k]),
        forall|j: int, e: (u64, u64, Seq<char>)|
            #[trigger] text_symbol_at(raw, j, e) ==> text_symbols(raw).contains(e),
    decreases raw.len(),
{
    if raw.len() > 0 {
        let init = raw.drop_last();
        lemma_text_symbols_from(init);
        let rest = text_symbols(init);
        let t = text_symbols(raw);
        let n = raw.len() - 1;
        assert forall|k: int| 0 <= k < t.len() implies from_text_symbol(raw, #[trigger] t[k]) by {
            if k < rest.len() {
                assert(t[k] == rest[k]);
                assert(from_text_symbol(init, rest[k]));
                let j = choose|j: int| #[trigger] text_symbol_at(init, j, rest[k]);
                assert(raw[j] == init[j]);
                assert(text_symbol_at(raw, j, t[k]));
            } else {
                assert(text_symbol_at(raw, n, t[k]));
            }
        }
        assert forall|j: int, e: (u64, u64, Seq<char>)| #[trigger] text_symbol_at(raw, j, e) implies t.contains(e) by {
            if j < n {
                assert(raw[j] == init[j]);
                assert(text_symbol_at(init, j, e));
                let k = choose|k: int| 0 <= k < rest.len() && rest[k] == e;
                assert(t[k] == rest[k]);
            } else {
                assert(t[rest.len() as int] == e);
            }
        }
    }
}

/// The symbol table of an object file holds its text symbols and nothing
/// else: every entry is the address, size and demangled name of a symbol
/// of kind `Text` with a name, every such symbol has an entry, and an
/// object file with no text symbol gives an empty table, whatever labels,
/// data, section or file symbols it lists.
pub proof fn law_table_holds_text_symbols(
    table: Seq<(u64, u64, Seq<char>)>,
    raw: Seq<(SymbolKind, Option<Seq<char>>, u64, u64)>,
)
    requires
        is_table_of(table, raw),
    ensures
        forall|k: int| 0 <= k < table.len() ==> from_text_entry(raw, #[trigger] table[k]),
        forall|j: int, e: (u64, u64, Seq<char>)| #[trigger] text_entry_at(raw, j, e) ==> table.contains(e),
        (forall|j: int| 0 <= j < raw.len() ==> raw[j].0 != SymbolKind::Text) ==> table.len() == 0,
{
    lemma_text_symbols_from(raw);
    let ts = text_symbols(raw);
    let t = demangled_all(ts);
    let p = choose|p: Seq<int>| #[trigger] stable_sort_of(table, t, p);
    assert forall|k: int| 0 <= k < table.len() implies from_text_entry(raw, #[trigger] table[k]) by {
        let q = p[k];
        assert(table[k] == t[q]);
        assert(from_text_symbol(raw, ts[q]));
        let j = choose|j: int| #[trigger] text_symbol_at(raw, j, ts[q]);
        assert(text_entry_at(raw, j, table[k]));
    }
    assert forall|j: int, e: (u64, u64, Seq<char>)| #[trigger] text_entry_at(raw, j, e) implies table.contains(e) by {
        let e0 = (raw[j].2, raw[j].3, raw[j].1->0);
        assert(text_symbol_at(raw, j, e0));
        let q = choose|q: int| 0 <= q < ts.len() && ts[q] == e0;
        lemma_permutation_onto(p, t.len() as int, q);
        let k = choose|k: int| 0 <= k < p.len() && p[k] == q;
        assert(table[k] == t[q]);
        assert(table[k] == e);
    }
    if forall|j: int| 0 <= j < raw.len() ==> raw[j].0 != SymbolKind::Text {
        if ts.len() > 0 {
            assert(from_text_symbol(raw, ts[0]));
            let j = choose|j: int| #[trigger] text_symbol_at(raw, j, ts[0]);
        }
    }
}

/// A permutation of the positions `0..n` reaches each of them.
proof fn lemma_permutation_onto(p: Seq<int>, n: int, q: int)
    requires
        is_permutation(p, n),
        0 <= q < n,
    ensures
        exists|k: int| 0 <= k < p.len() && p[k] == q,
{
    let s = p.to_set();
    p.unique_seq_to_set();
    assert(s.subset_of(vstd::set_lib::set_int_range(0, n)));
    vstd::set_lib::lemma_int_range(0, n);
    if !s.contains(q) {
        assert(s.subset_of(vstd::set_lib::set_int_range(0, n).remove(q)));
        vstd::set_lib::lemma_len_subset(s, vstd::set_lib::set_int_range(0, n).remove(q));
    }
}

} // verus!
