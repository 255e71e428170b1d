use void_kernel::boot::cmdline::{bytes_eq, CmdLine, DelimiterIter, Iter};

fn entries(line: &[u8]) -> Vec<(Vec<u8>, Option<Vec<u8>>)> {
    let mut it = Iter::new(line);
    let mut out = Vec::new();
    while let Some((k, v)) = it.next() {
        out.push((k.to_vec(), v.map(|v| v.to_vec())));
    }
    out
}

fn parts(v: &[u8], d: u8) -> Vec<Vec<u8>> {
    let mut it = DelimiterIter::new(d, v);
    let mut out = Vec::new();
    while let Some(p) = it.next() {
        out.push(p.to_vec());
    }
    out
}

#[test]
fn entries_of_a_command_line() {
    let e = entries(b"quiet console=fb0,fb1  root=/dev/sda1");
    assert_eq!(
        e,
        vec![
            (b"quiet".to_vec(), None),
            (b"console".to_vec(), Some(b"fb0,fb1".to_vec())),
            (b"root".to_vec(), Some(b"/dev/sda1".to_vec())),
        ]
    );
}

#[test]
fn value_keeps_later_equals_signs() {
    assert_eq!(entries(b"a=b=c"), vec![(b"a".to_vec(), Some(b"b=c".to_vec()))]);
}

#[test]
fn empty_value_is_some_empty() {
    assert_eq!(entries(b"a="), vec![(b"a".to_vec(), Some(Vec::new()))]);
}

#[test]
fn words_without_key_are_skipped() {
    assert_eq!(entries(b"=x b"), vec![(b"b".to_vec(), None)]);
    assert_eq!(entries(b" =x "), Vec::<(Vec<u8>, Option<Vec<u8>>)>::new());
}

#[test]
fn blank_lines_have_no_entries() {
    assert_eq!(entries(b""), Vec::<(Vec<u8>, Option<Vec<u8>>)>::new());
    assert_eq!(entries(b"    "), Vec::<(Vec<u8>, Option<Vec<u8>>)>::new());
}

#[test]
fn get_value_finds_the_first_entry() {
    let mut c = CmdLine::new();
    assert_eq!(c.get_value(b"a"), None);
    c.set(b"a=1 b a=2");
    assert_eq!(c.get_value(b"a"), Some(Some(&b"1"[..])));
    assert_eq!(c.get_value(b"b"), Some(None));
    assert_eq!(c.get_value(b"c"), None);
}

#[test]
fn get_value_array_splits_the_value() {
    let mut c = CmdLine::new();
    c.set(b"console=fb0,,fb*, x=");
    let mut it = c.get_value_array(b"console", b',').unwrap();
    assert_eq!(it.next(), Some(&b"fb0"[..]));
    assert_eq!(it.next(), Some(&b"fb*"[..]));
    assert_eq!(it.next(), None);
    assert_eq!(it.next(), None);
    assert!(c.get_value_array(b"x", b',').is_some());
    assert!(c.get_value_array(b"y", b',').is_none());
}

#[test]
fn get_value_array_of_bare_key_is_none() {
    let mut c = CmdLine::new();
    c.set(b"console");
    assert!(c.get_value_array(b"console", b',').is_none());
}

#[test]
fn delimiter_parts_skip_empty_runs() {
    assert_eq!(parts(b",,a,,bc,", b','), vec![b"a".to_vec(), b"bc".to_vec()]);
    assert_eq!(parts(b"", b','), Vec::<Vec<u8>>::new());
    assert_eq!(parts(b",,,", b','), Vec::<Vec<u8>>::new());
    assert_eq!(parts(b"abc", b','), vec![b"abc".to_vec()]);
}

#[test]
fn bytes_eq_compares_contents() {
    assert!(bytes_eq(b"abc", b"abc"));
    assert!(!bytes_eq(b"abc", b"abd"));
    assert!(!bytes_eq(b"ab", b"abc"));
    assert!(bytes_eq(b"", b""));
}

#[test]
fn entry_iterator_stays_done() {
    let mut it = Iter::new(b"a=1 =x  b c=d=e ");
    assert_eq!(it.next().map(|(k, v)| (k.to_vec(), v.map(|v| v.to_vec()))), Some((b"a".to_vec(), Some(b"1".to_vec()))));
    assert_eq!(it.next().map(|(k, v)| (k.to_vec(), v.is_some())), Some((b"b".to_vec(), false)));
    assert_eq!(it.next().map(|(k, v)| (k.to_vec(), v.map(|v| v.to_vec()))), Some((b"c".to_vec(), Some(b"d=e".to_vec()))));
    assert!(it.next().is_none());
    assert!(it.next().is_none());
    assert!(it.next().is_none());
}

#[test]
fn part_iterator_stays_done() {
    let mut it = DelimiterIter::new(b':', b"x::yz:");
    assert_eq!(it.next(), Some(&b"x"[..]));
    assert_eq!(it.next(), Some(&b"yz"[..]));
    assert_eq!(it.next(), None);
    assert_eq!(it.next(), None);
}
