use void_kernel::list::List;

fn collect(list: &List) -> Vec<usize> {
    let mut out = Vec::new();
    let mut it = list.iter();
    while let Some(x) = it.next() {
        out.push(x);
    }
    out
}

fn ready_list() -> List {
    let mut list = List::new();
    list.init();
    list
}

#[test]
fn new_list_is_not_initialized() {
    let list = List::new();
    assert!(!list.is_init());
    assert!(list.is_empty());
    assert_eq!(list.len(), 0);
}

#[test]
fn init_makes_an_empty_usable_list() {
    let list = ready_list();
    assert!(list.is_init());
    assert!(list.is_empty());
    assert_eq!(list.front(), None);
    assert_eq!(list.back(), None);
    assert_eq!(collect(&list), Vec::<usize>::new());
}

#[test]
fn push_back_keeps_order() {
    let mut list = ready_list();
    list.push_back(3);
    list.push_back(1);
    list.push_back(7);
    assert_eq!(list.len(), 3);
    assert_eq!(list.front(), Some(3));
    assert_eq!(list.back(), Some(7));
    assert_eq!(collect(&list), vec![3, 1, 7]);
}

#[test]
fn push_front_puts_first() {
    let mut list = ready_list();
    list.push_front(3);
    list.push_front(1);
    list.push_front(7);
    assert_eq!(collect(&list), vec![7, 1, 3]);
}

#[test]
fn pop_back_undoes_push_back() {
    let mut list = ready_list();
    list.push_back(2);
    list.push_back(5);
    list.push_back(9);
    assert_eq!(list.pop_back(), Some(9));
    assert_eq!(collect(&list), vec![2, 5]);
    list.push_back(9);
    assert_eq!(list.pop_back(), Some(9));
    assert_eq!(collect(&list), vec![2, 5]);
}

#[test]
fn pop_front_undoes_push_front() {
    let mut list = ready_list();
    list.push_back(2);
    list.push_back(5);
    list.push_front(4);
    assert_eq!(list.pop_front(), Some(4));
    assert_eq!(collect(&list), vec![2, 5]);
}

#[test]
fn pop_on_empty_gives_none() {
    let mut list = ready_list();
    assert_eq!(list.pop_front(), None);
    assert_eq!(list.pop_back(), None);
    assert!(list.is_empty());
}

#[test]
fn remove_from_the_middle() {
    let mut list = ready_list();
    for x in [1usize, 2, 3, 4] {
        list.push_back(x);
    }
    list.remove(3);
    assert_eq!(collect(&list), vec![1, 2, 4]);
    list.remove(1);
    assert_eq!(collect(&list), vec![2, 4]);
    list.remove(4);
    assert_eq!(collect(&list), vec![2]);
    assert_eq!(list.front(), Some(2));
    assert_eq!(list.back(), Some(2));
}

#[test]
fn removed_item_can_be_put_back() {
    let mut list = ready_list();
    list.push_back(6);
    list.push_back(8);
    list.remove(6);
    list.push_back(6);
    assert_eq!(collect(&list), vec![8, 6]);
}

#[test]
fn clear_empties_the_list() {
    let mut list = ready_list();
    for x in [5usize, 6, 7] {
        list.push_front(x);
    }
    list.clear();
    assert!(list.is_empty());
    assert_eq!(list.len(), 0);
    assert!(list.is_init());
    list.push_back(6);
    assert_eq!(collect(&list), vec![6]);
}

#[test]
fn cursor_walks_the_ring() {
    let mut list = ready_list();
    list.push_back(10);
    list.push_back(20);
    let mut c = list.cursor();
    assert_eq!(c.current(), Some(10));
    c.next();
    assert_eq!(c.current(), Some(20));
    c.next();
    assert!(c.at_sentinel());
    assert_eq!(c.current(), None);
    c.next();
    assert_eq!(c.current(), Some(10));
    c.prev();
    assert!(c.at_sentinel());
    c.prev();
    assert_eq!(c.current(), Some(20));
    c.next();
    c.prev();
    assert_eq!(c.current(), Some(20));
}

#[test]
fn iterator_ends_and_stays_ended() {
    let mut list = ready_list();
    list.push_back(4);
    let mut it = list.iter();
    assert_eq!(it.next(), Some(4));
    assert_eq!(it.next(), None);
    assert_eq!(it.next(), None);
}
