use sturnus::budget::BufferBudget;

#[test]
fn budgets_are_counted_in_kilobytes() {
    let budget = BufferBudget::new(128 * 1024, 32 * 1024);
    assert_eq!(budget.permits(), 128);
    assert_eq!(budget.available_permits(), 128);
    assert_eq!(budget.max_body_bytes(), 32 * 1024);
}

#[test]
fn budgets_have_at_least_one_permit() {
    let budget = BufferBudget::new(0, 5000);
    assert_eq!(budget.permits(), 1);
    // The cap on one body is never above the budget.
    assert_eq!(budget.max_body_bytes(), 1024);
}

#[test]
fn budgets_stop_at_what_a_semaphore_can_hold() {
    let budget = BufferBudget::new(usize::MAX, usize::MAX);
    assert_eq!(budget.permits(), usize::MAX / 1024);
    assert_eq!(budget.max_body_bytes(), usize::MAX / 1024 * 1024);
}

#[test]
fn reservations_round_up_and_are_given_back() {
    let mut budget = BufferBudget::new(10 * 1024, 10 * 1024);
    assert_eq!(budget.reserve(0), Some(1));
    assert_eq!(budget.reserve(1024), Some(1));
    assert_eq!(budget.reserve(1025), Some(2));
    assert_eq!(budget.available_permits(), 6);
    assert_eq!(budget.reserve(7 * 1024), None);
    assert_eq!(budget.available_permits(), 6);
    assert_eq!(budget.reserve(6 * 1024), Some(6));
    assert_eq!(budget.reserve(0), None);
    budget.release(6);
    budget.release(2);
    assert_eq!(budget.available_permits(), 8);
    assert_eq!(budget.permits(), 10);
}

#[test]
fn the_largest_admissible_body_fits_an_idle_budget() {
    for bytes in [0, 1, 1023, 1024, 5000, 1 << 20] {
        let mut budget = BufferBudget::new(bytes, usize::MAX);
        let cap = budget.max_body_bytes();
        assert_eq!(budget.reserve(cap), Some(budget.permits() as u32));
    }
}

#[test]
fn held_bytes_never_exceed_the_budget() {
    let mut budget = BufferBudget::new(64 * 1024, 8 * 1024);
    let mut held = 0;
    let mut size = 1;
    while let Some(_) = budget.reserve(size) {
        held += size;
        size = size * 7 % 8191;
    }
    assert!(held <= 64 * 1024, "{held}");
}

#[test]
fn what_is_reserved_can_be_released_whatever_else_is_held() {
    let mut budget = BufferBudget::new(10 * 1024, 10 * 1024);
    let held = budget.reserve(3 * 1024).unwrap();
    for bytes in [0, 1, 1024, 1025, 7 * 1024] {
        let free = budget.available_permits();
        let n = budget.reserve(bytes).unwrap();
        assert_eq!(budget.available_permits(), free - n as usize);
        budget.release(n);
        assert_eq!(budget.available_permits(), free);
    }
    assert!(budget.reserve(7 * 1024 + 1).is_none());
    assert_eq!(budget.available_permits(), 7);
    budget.release(held);
    assert_eq!(budget.available_permits(), budget.permits());
}
