use zydecodb_engine::seq::SeqAllocator;

#[test]
fn monotonic_single_thread() {
    let mut a = SeqAllocator::new(1);
    assert_eq!(a.next(), 1);
    assert_eq!(a.next(), 2);
    assert_eq!(a.next(), 3);
    assert_eq!(a.peek(), 4);
}

#[test]
fn bump_to_at_least_only_increases() {
    let mut a = SeqAllocator::new(10);
    a.bump_to_at_least(5);
    assert_eq!(a.peek(), 10);
    a.bump_to_at_least(100);
    assert_eq!(a.peek(), 100);
}

