use ngram_lm::utilities::LimitedMinHeap;

#[test]
fn selector_keeps_the_largest_counts() {
    let mut heap = LimitedMinHeap::new(2);
    assert_eq!(heap.peek(), None);
    assert_eq!(heap.insert(5), Some(5));
    assert_eq!(heap.insert(3), Some(3));
    assert_eq!(heap.insert(4), Some(4));
    assert_eq!(heap.insert(1), Some(4));
    assert_eq!(heap.insert(4), Some(4));
    assert_eq!(heap.insert(9), Some(5));
    assert_eq!(heap.peek(), Some(5));
}

#[test]
fn selector_of_no_capacity_holds_nothing() {
    let mut heap = LimitedMinHeap::new(0);
    assert_eq!(heap.insert(7), None);
    assert_eq!(heap.insert(0), None);
    assert_eq!(heap.peek(), None);
}
