use void_kernel::ksyms::{find_symbol, kernel_symbols, resolve, resolve_frames, search, sort_by_address, symbol_table, ObjSymbol, Symbol, SymbolKind};

fn obj(kind: SymbolKind, name: Option<&str>, address: u64, size: u64) -> ObjSymbol {
    ObjSymbol { kind, name: name.map(|n| n.to_string()), address, size }
}

fn sym(address: u64, size: u64, name: &str) -> Symbol {
    Symbol { address, size, name: name.to_string() }
}

#[test]
fn table_keeps_named_text_symbols_sorted() {
    let raw = vec![
        obj(SymbolKind::Text, Some("b"), 0x200, 0x10),
        obj(SymbolKind::Data, Some("d"), 0x50, 0x8),
        obj(SymbolKind::Text, None, 0x10, 0x4),
        obj(SymbolKind::Text, Some("a"), 0x100, 0x20),
        obj(SymbolKind::Text, Some("c"), 0x100, 0x0),
        obj(SymbolKind::File, Some("f.rs"), 0, 0),
    ];
    let t = symbol_table(raw);
    let view: Vec<(u64, u64, &str)> = t.iter().map(|s| (s.address, s.size, s.name.as_str())).collect();
    assert_eq!(view, vec![(0x100, 0x20, "a"), (0x100, 0, "c"), (0x200, 0x10, "b")]);
}

#[test]
fn table_names_are_demangled() {
    let raw = vec![
        obj(SymbolKind::Text, Some("_ZN4core3fmt5write17h0123456789abcdefE"), 0x10, 4),
        obj(SymbolKind::Text, Some("_start"), 0x0, 4),
    ];
    let t = symbol_table(raw);
    assert_eq!(t[0].name, "_start");
    assert_eq!(t[1].name, "core::fmt::write::h0123456789abcdef");
}

#[test]
fn bytes_that_are_no_object_file_give_none() {
    assert!(kernel_symbols(b"not an object file").is_none());
    assert!(kernel_symbols(&[]).is_none());
}

#[test]
fn symbol_lookup_by_address() {
    let t = vec![sym(0x100, 0x20, "a"), sym(0x120, 0x10, "b"), sym(0x200, 0x8, "c")];
    assert_eq!(find_symbol(&t, 0x0ff), None);
    assert_eq!(find_symbol(&t, 0x100), Some(0));
    assert_eq!(find_symbol(&t, 0x11f), Some(0));
    assert_eq!(find_symbol(&t, 0x120), Some(1));
    assert_eq!(find_symbol(&t, 0x130), None);
    assert_eq!(find_symbol(&t, 0x207), Some(2));
    assert_eq!(find_symbol(&t, 0x208), None);
    assert_eq!(find_symbol(&[], 0x100), None);
}

#[test]
fn return_address_names_the_caller() {
    let t = vec![sym(0x100, 0x20, "a"), sym(0x120, 0x10, "b")];
    // A call at the end of `a` returns to the first byte of `b`.
    assert_eq!(resolve(&t, 0x120), Some((0, 0x20)));
    assert_eq!(resolve(&t, 0x125), Some((1, 0x5)));
    assert_eq!(resolve(&t, 0x50), None);
}

/// A small ELF64 relocatable object with a symbol table: `foo` and `bar`
/// are functions, `dat` a data object.
fn tiny_elf() -> Vec<u8> {
    fn u16le(v: &mut Vec<u8>, x: u16) {
        v.extend_from_slice(&x.to_le_bytes());
    }
    fn u32le(v: &mut Vec<u8>, x: u32) {
        v.extend_from_slice(&x.to_le_bytes());
    }
    fn u64le(v: &mut Vec<u8>, x: u64) {
        v.extend_from_slice(&x.to_le_bytes());
    }
    let strtab: &[u8] = b"\0foo\0bar\0dat\0";
    let shstrtab: &[u8] = b"\0.symtab\0.strtab\0.shstrtab\0";
    let strtab_off = 64u64;
    let symtab_off = 80u64;
    let mut symtab = Vec::new();
    // Null symbol.
    symtab.extend_from_slice(&[0u8; 24]);
    for (name, info, value, size) in [(1u32, 0x12u8, 0x2000u64, 0x10u64), (5, 0x12, 0x1000, 0x20), (9, 0x11, 0x3000, 0x8)] {
        u32le(&mut symtab, name);
        symtab.push(info);
        symtab.push(0);
        u16le(&mut symtab, 0xfff1);
        u64le(&mut symtab, value);
        u64le(&mut symtab, size);
    }
    let shstrtab_off = symtab_off + symtab.len() as u64;
    let shoff = (shstrtab_off + shstrtab.len() as u64 + 7) / 8 * 8;

    let mut v = Vec::new();
    v.extend_from_slice(&[0x7f, b'E', b'L', b'F', 2, 1, 1, 0]);
    v.extend_from_slice(&[0u8; 8]);
    u16le(&mut v, 1);
    u16le(&mut v, 0x3e);
    u32le(&mut v, 1);
    u64le(&mut v, 0);
    u64le(&mut v, 0);
    u64le(&mut v, shoff);
    u32le(&mut v, 0);
    u16le(&mut v, 64);
    u16le(&mut v, 0);
    u16le(&mut v, 0);
    u16le(&mut v, 64);
    u16le(&mut v, 4);
    u16le(&mut v, 3);
    assert_eq!(v.len(), 64);
    v.extend_from_slice(strtab);
    v.resize(symtab_off as usize, 0);
    v.extend_from_slice(&symtab);
    v.extend_from_slice(shstrtab);
    v.resize(shoff as usize, 0);
    let mut section = |name: u32, kind: u32, off: u64, size: u64, link: u32, info: u32, align: u64, entsize: u64| {
        u32le(&mut v, name);
        u32le(&mut v, kind);
        u64le(&mut v, 0);
        u64le(&mut v, 0);
        u64le(&mut v, off);
        u64le(&mut v, size);
        u32le(&mut v, link);
        u32le(&mut v, info);
        u64le(&mut v, align);
        u64le(&mut v, entsize);
    };
    section(0, 0, 0, 0, 0, 0, 0, 0);
    section(1, 2, symtab_off, symtab.len() as u64, 2, 1, 8, 24);
    section(9, 3, strtab_off, strtab.len() as u64, 0, 0, 1, 0);
    section(17, 3, shstrtab_off, shstrtab.len() as u64, 0, 0, 1, 0);
    v
}

#[test]
fn object_file_symbols_become_the_table() {
    let table = kernel_symbols(&tiny_elf()).expect("a readable object file");
    let view: Vec<(u64, u64, &str)> = table.iter().map(|s| (s.address, s.size, s.name.as_str())).collect();
    assert_eq!(view, vec![(0x1000, 0x20, "bar"), (0x2000, 0x10, "foo")]);
}

#[test]
fn sorting_keeps_equal_addresses_in_order() {
    let t = sort_by_address(vec![sym(0x30, 1, "x"), sym(0x10, 1, "y"), sym(0x30, 2, "z"), sym(0x20, 1, "w")]);
    let names: Vec<&str> = t.iter().map(|s| s.name.as_str()).collect();
    assert_eq!(names, vec!["y", "w", "x", "z"]);
    assert!(sort_by_address(vec![]).is_empty());
}

#[test]
fn search_ends_past_the_last_start_at_or_before() {
    let t = vec![sym(0x100, 0x20, "a"), sym(0x120, 0x10, "b"), sym(0x200, 0x8, "c")];
    assert_eq!(search(&t, 0x0ff), 0);
    assert_eq!(search(&t, 0x100), 1);
    assert_eq!(search(&t, 0x1ff), 2);
    assert_eq!(search(&t, 0x200), 3);
    assert_eq!(search(&t, u64::MAX), 3);
    assert_eq!(search(&[], 7), 0);
}

#[test]
fn backtrace_lookups_stop_at_a_zero_address() {
    let t = vec![sym(0x100, 0x20, "a"), sym(0x120, 0x10, "b")];
    assert_eq!(resolve_frames(&t, &[0x125, 0x50, 0x120, 0, 0x125]), vec![Some((1, 0x5)), None, Some((0, 0x20))]);
    assert_eq!(resolve_frames(&t, &[0, 0x125]), vec![]);
    assert_eq!(resolve_frames(&t, &[0x121]), vec![Some((1, 0x1))]);
}

#[test]
fn lookup_in_an_unsorted_table_finds_only_holding_symbols() {
    let t = vec![sym(0x200, 0x10, "b"), sym(0x100, 0x10, "a"), sym(0x300, 0x10, "c")];
    for find in [0x0u64, 0x105, 0x205, 0x305, 0x400] {
        if let Some(i) = find_symbol(&t, find) {
            assert!(t[i].address <= find && find < t[i].address + t[i].size);
        }
    }
}
