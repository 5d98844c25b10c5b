use kernel::sync::LockCell;

#[test]
fn lock_guards_and_returns_the_value() {
    let mut cell = LockCell::new(42u64);
    let guard = cell.lock();
    assert_eq!(*cell.get(&guard), 42);
    guard.release_lock(&mut cell);
}

#[test]
fn mutation_through_the_lock_sticks() {
    let mut cell = LockCell::new(String::from("boot"));
    let guard = cell.lock();
    *cell.get_mut(&guard) = String::from("ready");
    guard.release_lock(&mut cell);
    let guard = cell.lock();
    assert_eq!(cell.get(&guard).as_str(), "ready");
    guard.release_lock(&mut cell);
}

#[test]
fn tickets_are_served_in_issue_order() {
    // Acquire and release repeatedly: each guard carries the next ticket
    // number, and the release counter chases it one step behind, so the
    // acquisition order is exactly the ticket-issue order.
    let mut cell = LockCell::new(0u32);
    for expected_ticket in 0..5u64 {
        let guard = cell.lock();
        *cell.get_mut(&guard) += 1;
        assert_eq!(guard.ticket_number(), expected_ticket);
        guard.release_lock(&mut cell);
    }
    let guard = cell.lock();
    assert_eq!(*cell.get(&guard), 5);
    guard.release_lock(&mut cell);
}

#[test]
fn lock_holds_arbitrary_payloads() {
    let mut cell = LockCell::new(Option::<Vec<u8>>::None);
    let guard = cell.lock();
    *cell.get_mut(&guard) = Some(vec![1, 2, 3]);
    guard.release_lock(&mut cell);
    let guard = cell.lock();
    assert_eq!(cell.get(&guard).as_ref().unwrap().len(), 3);
    guard.release_lock(&mut cell);
}
