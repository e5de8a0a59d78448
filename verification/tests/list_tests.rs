use last_linked_list::LastLinkedList;
use last_linked_list::Node;

#[test]
fn node_holds_value_and_link() {
    let n = Node::new(None, 42u32);
    assert_eq!(n.data, 42);
    assert!(n.next.is_none());

    let m = Node::new(Some(7), "x");
    assert_eq!(m.data, "x");
    assert_eq!(m.next, Some(7));
}

#[test]
fn appends_iterate_in_order() {
    let mut l = LastLinkedList::new();
    for i in 1..=5i64 {
        l.append(i);
    }
    let mut it = l.into_iter();
    let mut got = Vec::new();
    while let Some(v) = it.next() {
        got.push(v);
    }
    assert_eq!(got, vec![1, 2, 3, 4, 5]);
}

#[test]
fn prepends_iterate_reversed() {
    let mut l = LastLinkedList::new();
    for i in 1..=5i64 {
        l.prepend(i);
    }
    let mut it = l.into_iter();
    let mut got = Vec::new();
    while let Some(v) = it.next() {
        got.push(v);
    }
    assert_eq!(got, vec![5, 4, 3, 2, 1]);
}

#[test]
fn mixed_append_prepend() {
    let mut l = LastLinkedList::new();
    l.append(3);
    l.append(11);
    l.prepend(22);
    let mut it = l.into_iter();
    assert_eq!(it.next(), Some(22));
    assert_eq!(it.next(), Some(3));
    assert_eq!(it.next(), Some(11));
    assert_eq!(it.next(), None);
}

#[test]
fn push_back_is_append() {
    let mut l = LastLinkedList::new();
    l.push_back(10u8);
    l.push_back(20u8);
    let mut it = l.into_iter();
    assert_eq!(it.next(), Some(10));
    assert_eq!(it.next(), Some(20));
    assert_eq!(it.next(), None);
}

#[test]
fn append_after_prepend_uses_recorded_tail() {
    let mut l = LastLinkedList::new();
    l.prepend(1);
    l.append(2);
    l.append(3);
    let mut it = l.into_iter();
    assert_eq!(it.next(), Some(1));
    assert_eq!(it.next(), Some(2));
    assert_eq!(it.next(), Some(3));
    assert_eq!(it.next(), None);
}

#[test]
fn single_element_round_trip() {
    let mut l = LastLinkedList::new();
    l.append(String::from("only"));
    let mut it = l.into_iter();
    assert_eq!(it.next(), Some(String::from("only")));
    assert_eq!(it.next(), None);
}

#[test]
fn empty_list_iterates_empty() {
    let l = LastLinkedList::<u64>::new();
    let mut it = l.into_iter();
    assert_eq!(it.next(), None);
    assert_eq!(it.next(), None);
}

#[test]
fn bulk_append_stays_linear() {
    // A quadratic append (walking from the head each time) would not get
    // through 100_000 insertions in any reasonable time.
    let n = 100_000i64;
    let mut l = LastLinkedList::new();
    for i in 0..n {
        l.push_back(i);
    }
    let mut it = l.into_iter();
    assert_eq!(it.next(), Some(0));
    let mut count = 1i64;
    let mut last = 0i64;
    while let Some(v) = it.next() {
        count += 1;
        last = v;
    }
    assert_eq!(count, n);
    assert_eq!(last, n - 1);
}

#[test]
fn discard_long_list_without_stack_failure() {
    let n = 300_000i64;
    let mut l = LastLinkedList::new();
    for i in 0..n {
        l.append(i);
    }
    // Dropping the whole chain must not recurse: an explicit teardown walk
    // releases every node one at a time.
    l.teardown();
    // The list stays usable afterwards.
    l.append(5);
    let mut it = l.into_iter();
    assert_eq!(it.next(), Some(5));
    assert_eq!(it.next(), None);
}

#[test]
fn discard_partially_consumed_iterator() {
    let n = 300_000i64;
    let mut l = LastLinkedList::new();
    for i in 0..n {
        l.append(i);
    }
    let mut it = l.into_iter();
    assert_eq!(it.next(), Some(0));
    assert_eq!(it.next(), Some(1));
    assert_eq!(it.next(), Some(2));
    // Abandon the rest: the teardown walk releases the unread suffix
    // iteratively, however long it is.
    it.teardown();
    assert_eq!(it.next(), None);
}

#[test]
fn discard_long_list_by_going_out_of_scope() {
    let n = 300_000i64;
    let mut l = LastLinkedList::new();
    for i in 0..n {
        l.append(i);
    }
    drop(l);
}

#[test]
fn consumed_iterator_teardown_is_noop() {
    let mut l = LastLinkedList::new();
    l.append(1);
    l.append(2);
    let mut it = l.into_iter();
    assert_eq!(it.next(), Some(1));
    assert_eq!(it.next(), Some(2));
    assert_eq!(it.next(), None);
    // The cursor is empty: tearing the iterator down finds nothing to do.
    it.teardown();
    assert_eq!(it.next(), None);
}

#[test]
fn teardown_empty_list_is_noop() {
    let mut l = LastLinkedList::<u16>::new();
    l.teardown();
    let mut it = l.into_iter();
    assert_eq!(it.next(), None);
}
