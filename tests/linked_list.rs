use uranus::LinkedList;

fn forward(list: &LinkedList) -> Vec<u64> {
    let mut out = Vec::new();
    let mut it = list.iter();
    while let Some(v) = it.next() {
        out.push(*v);
    }
    out
}

fn backward(list: &LinkedList) -> Vec<u64> {
    let mut out = Vec::new();
    let mut it = list.iter();
    while let Some(v) = it.next_back() {
        out.push(*v);
    }
    out
}

#[test]
fn empty_list() {
    let list = LinkedList::with_capacity(4);
    assert_eq!(list.len(), 0);
    assert_eq!(list.head(), None);
    assert_eq!(list.tail(), None);
    assert!(forward(&list).is_empty());
    assert!(!list.exist_near_head(1, 10));
}

#[test]
fn len_matches_forward_walk_after_interleaved_calls() {
    let mut list = LinkedList::with_capacity(0);
    let a = list.push_tail(1);
    let b = list.push_tail(2);
    let c = list.push_tail(3);
    assert_eq!(list.remove(b), 2);
    let d = list.push_tail(4);
    assert_eq!(d, b);
    assert_eq!(list.remove(a), 1);
    let e = list.push_tail(5);
    assert_eq!(e, a);
    let _f = list.push_tail(6);
    assert_eq!(list.remove(c), 3);
    assert_eq!(forward(&list), vec![4, 5, 6]);
    assert_eq!(list.len(), forward(&list).len());
    assert_eq!(list.len(), 3);
}

#[test]
fn pop_tail_drains_in_reverse_of_insertion() {
    let mut list = LinkedList::with_capacity(8);
    for v in [10u64, 20, 30, 40] {
        list.push_tail(v);
    }
    assert_eq!(list.pop_tail(), Some(40));
    assert_eq!(list.pop_tail(), Some(30));
    assert_eq!(list.pop_tail(), Some(20));
    assert_eq!(list.pop_tail(), Some(10));
    assert_eq!(list.pop_tail(), None);
    assert_eq!(list.len(), 0);
}

#[test]
fn promote_moves_to_front_from_any_position() {
    let mut list = LinkedList::with_capacity(0);
    let a = list.push_tail(1);
    let b = list.push_tail(2);
    let c = list.push_tail(3);
    list.promote(c);
    assert_eq!(forward(&list), vec![3, 1, 2]);
    list.promote(b);
    assert_eq!(forward(&list), vec![2, 3, 1]);
    list.promote(b);
    assert_eq!(forward(&list), vec![2, 3, 1]);
    list.promote(a);
    assert_eq!(forward(&list), vec![1, 2, 3]);
    assert_eq!(backward(&list), vec![3, 2, 1]);
    assert_eq!(list.head(), Some(a));
    assert_eq!(list.tail(), Some(c));
}

#[test]
fn near_head_probe_is_bounded() {
    let mut list = LinkedList::with_capacity(0);
    list.push_head(7);
    assert!(list.exist_near_head(7, 1));
    list.push_head(8);
    list.push_head(9);
    assert!(!list.exist_near_head(7, 2));
    assert!(list.exist_near_head(7, 3));
    assert!(!list.exist_near_head(7, 0));
    assert!(!list.exist_near_head(42, 100));
}

#[test]
fn near_head_after_promotion() {
    let mut list = LinkedList::with_capacity(0);
    let x = list.push_head(5);
    list.push_head(6);
    list.push_head(7);
    assert!(!list.exist_near_head(5, 2));
    list.promote(x);
    assert!(list.exist_near_head(5, 1));
}

#[test]
fn peek_checks_bounds() {
    let mut list = LinkedList::with_capacity(0);
    let a = list.push_head(11);
    assert_eq!(list.peek(a), Some(11));
    assert_eq!(list.peek(0), None);
    assert_eq!(list.peek(1), None);
    assert_eq!(list.peek(a + 1), None);
    assert_eq!(list.peek(usize::MAX), None);
}

#[test]
fn freed_slots_are_reused_last_freed_first() {
    let mut list = LinkedList::with_capacity(0);
    let a = list.push_head(1);
    let b = list.push_head(2);
    let c = list.push_head(3);
    assert_eq!((a, b, c), (2, 3, 4));
    list.remove(a);
    list.remove(c);
    assert_eq!(list.len(), 1);
    assert_eq!(list.push_tail(9), c);
    assert_eq!(list.push_tail(8), a);
    assert_eq!(list.push_tail(7), 5);
    assert_eq!(forward(&list), vec![2, 9, 8, 7]);
}

#[test]
fn iterator_ends_meet() {
    let mut list = LinkedList::with_capacity(0);
    for v in 1..=5u64 {
        list.push_tail(v);
    }
    let mut it = list.iter();
    assert_eq!(it.size_hint(), (5, Some(5)));
    assert_eq!(it.next(), Some(&1));
    assert_eq!(it.next_back(), Some(&5));
    assert_eq!(it.next(), Some(&2));
    assert_eq!(it.next_back(), Some(&4));
    assert_eq!(it.size_hint(), (1, Some(1)));
    assert_eq!(it.next(), Some(&3));
    assert_eq!(it.next_back(), None);
    assert_eq!(it.next(), None);
}
