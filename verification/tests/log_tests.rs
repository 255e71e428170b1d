use void_kernel::log::{self, Log, Logger, CAP};

fn joined(parts: (&[u8], &[u8])) -> Vec<u8> {
    let mut v = parts.0.to_vec();
    v.extend_from_slice(parts.1);
    v
}

#[test]
fn mask_wraps_at_capacity() {
    assert_eq!(CAP, 8192);
    assert_eq!(Log::mask(0), 0);
    assert_eq!(Log::mask(5), 5);
    assert_eq!(Log::mask(8192), 0);
    assert_eq!(Log::mask(8195), 3);
    assert_eq!(Log::mask(usize::MAX), 8191);
}

#[test]
fn write_shows_the_message_with_newline() {
    let mut logger = Logger::new();
    log::init(&mut logger);
    let span = log::write(&mut logger, b"hello", true).unwrap();
    assert_eq!(joined(logger.log().span(span.0, span.1)), b"hello\n".to_vec());
    let span = log::write(&mut logger, b"world", false).unwrap();
    assert_eq!(joined(logger.log().span(span.0, span.1)), b"world".to_vec());
}

#[test]
fn empty_message_shows_nothing() {
    let mut logger = Logger::new();
    log::init(&mut logger);
    assert_eq!(log::write(&mut logger, b"", false), None);
    assert!(log::write(&mut logger, b"", true).is_some());
}

#[test]
fn register_shows_what_was_logged() {
    let mut logger = Logger::new();
    log::init(&mut logger);
    assert_eq!(log::register(&mut logger, 1), None);
    log::write(&mut logger, b"abc", false);
    log::write(&mut logger, b"def", true);
    let span = log::register(&mut logger, 2).unwrap();
    assert_eq!(joined(logger.log().span(span.0, span.1)), b"abcdef\n".to_vec());
    assert_eq!(log::clear(&logger), vec![2, 1]);
}

#[test]
fn long_message_keeps_its_last_cap_bytes() {
    let mut logger = Logger::new();
    log::init(&mut logger);
    let mut msg = Vec::new();
    for i in 0..(CAP + 100) {
        msg.push((i % 251) as u8);
    }
    let span = log::write(&mut logger, &msg, false).unwrap();
    let shown = joined(logger.log().span(span.0, span.1));
    assert_eq!(shown.len(), CAP);
    assert_eq!(shown, msg[100..].to_vec());
}

#[test]
fn ring_wraps_around() {
    let mut logger = Logger::new();
    log::init(&mut logger);
    let first = vec![b'a'; CAP - 3];
    log::write(&mut logger, &first, false);
    let span = log::write(&mut logger, b"123456", false).unwrap();
    let parts = logger.log().span(span.0, span.1);
    assert_eq!(parts.0, b"123");
    assert_eq!(parts.1, b"456");
    let span = log::register(&mut logger, 3).unwrap();
    let all = joined(logger.log().span(span.0, span.1));
    assert_eq!(all.len(), CAP);
    assert_eq!(&all[CAP - 6..], b"123456");
    assert_eq!(&all[..CAP - 6], &vec![b'a'; CAP - 6][..]);
}

#[test]
fn write_str_appends_bytes() {
    let mut l = Log::new();
    l.write_str(b"ab");
    l.write_str(b"cd");
    assert_eq!(joined(l.span(0, 4)), b"abcd".to_vec());
    assert_eq!(joined(l.span(1, 4)), b"bcd".to_vec());
}

#[test]
fn writing_in_pieces_logs_the_same_as_at_once() {
    let mut a = Logger::new();
    let mut b = Logger::new();
    log::init(&mut a);
    log::init(&mut b);
    log::write(&mut a, b"ab", false);
    log::write(&mut a, b"cd", false);
    log::write(&mut b, b"abcd", false);
    let sa = log::register(&mut a, 1).unwrap();
    let sb = log::register(&mut b, 1).unwrap();
    assert_eq!(joined(a.log().span(sa.0, sa.1)), joined(b.log().span(sb.0, sb.1)));
}
