use counter_service::Counter;

#[test]
fn lib_test_counter() {
    let mut counter = Counter::new();
    assert_eq!(counter.get(), 0);
    counter.increment();
    assert_eq!(counter.get(), 1);
    counter.increment();
    assert_eq!(counter.get(), 2);
    counter.set(0);
    assert_eq!(counter.get(), 0);
}

#[test]
fn new_counter_holds_zero() {
    assert_eq!(Counter::new().get(), 0);
}

#[test]
fn increment_k_times_adds_k() {
    let mut counter = Counter::new();
    counter.set(-3);
    let mut i: usize = 0;
    while i < 7 {
        counter.increment();
        i += 1;
    }
    assert_eq!(counter.get(), 4);
}

#[test]
fn last_set_wins() {
    let mut counter = Counter::new();
    counter.set(10);
    counter.set(-20);
    counter.set(2026);
    assert_eq!(counter.get(), 2026);
}
