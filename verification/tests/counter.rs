use spectrum::counter::Counter;

#[test]
fn new() {
    let counter = Counter::new();
    assert_eq!(counter, Counter { count: 0 });
}

#[test]
fn set_count() {
    let mut counter = Counter::new();
    counter.set_count(12);
    assert_eq!(counter, Counter { count: 12 });
}

#[test]
fn get_count() {
    let mut counter = Counter::new();
    assert_eq!(counter.get_count(), 0);
    counter.set_count(12);
    assert_eq!(counter.get_count(), 12);
}
