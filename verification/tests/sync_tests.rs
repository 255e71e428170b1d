use void_kernel::sync::once::Once;
use void_kernel::sync::ticket::SpinLock;

#[test]
fn new_lock_is_free() {
    let l = SpinLock::new();
    assert!(!l.is_locked());
}

#[test]
fn try_acquire_then_release() {
    let mut l = SpinLock::new();
    assert!(l.try_acquire());
    assert!(l.is_locked());
    assert!(!l.try_acquire());
    l.release();
    assert!(!l.is_locked());
    assert!(l.try_acquire());
}

#[test]
fn tickets_are_served_in_order() {
    let mut l = SpinLock::new();
    let a = l.take_ticket();
    let b = l.take_ticket();
    let c = l.take_ticket();
    assert_eq!((a, b, c), (0, 1, 2));
    assert!(l.is_turn(a));
    assert!(!l.is_turn(b));
    l.release();
    assert!(l.is_turn(b));
    l.release();
    assert!(l.is_turn(c));
    l.release();
    assert!(!l.is_locked());
}

#[test]
fn once_hands_out_the_value_once() {
    let mut o = Once::new(5u32);
    assert!(!o.is_completed());
    match o.call_once() {
        Some(v) => *v += 1,
        None => panic!("first call must run"),
    }
    assert!(o.is_completed());
    assert!(o.call_once().is_none());
    assert!(o.call_once().is_none());
}

#[test]
fn acquire_takes_a_free_lock() {
    let mut l = SpinLock::new();
    assert_eq!(l.acquire(), 0);
    assert!(l.is_locked());
    l.release();
    assert_eq!(l.acquire(), 1);
    assert!(l.is_locked());
}
