use thid::IdCounter;
use thid::ThreadId;

#[test]
fn different_threads_have_different_ids() {
    let mut counter = IdCounter::new();
    let mut main_cell = ThreadId::uninitialized();
    let mut other_cell = ThreadId::uninitialized();

    let other_id = ThreadId::current(&mut other_cell, &mut counter);
    let main_id = ThreadId::current(&mut main_cell, &mut counter);
    assert!(main_id != other_id);
}

#[test]
fn first_identifier_is_zero() {
    let mut counter = IdCounter::new();
    let mut cell = ThreadId::uninitialized();
    let id = ThreadId::current(&mut cell, &mut counter);
    assert_eq!(id.as_u32(), 0);
    assert_eq!(id.as_usize(), 0);
    assert_eq!(cell, id);
    assert_eq!(counter.issued(), 1);
}

#[test]
fn current_is_idempotent() {
    let mut counter = IdCounter::new();
    let mut cell = ThreadId::uninitialized();
    let mut other = ThreadId::uninitialized();
    let first = ThreadId::current(&mut cell, &mut counter);
    let second = ThreadId::current(&mut cell, &mut counter);
    ThreadId::current(&mut other, &mut counter);
    let third = ThreadId::current(&mut cell, &mut counter);
    assert_eq!(first, second);
    assert_eq!(first, third);
    assert_eq!(cell, first);
}

#[test]
fn current_leaves_the_counter_alone_once_cached() {
    let mut counter = IdCounter::new();
    let mut cell = ThreadId::uninitialized();
    ThreadId::current(&mut cell, &mut counter);
    assert_eq!(counter.issued(), 1);
    ThreadId::current(&mut cell, &mut counter);
    ThreadId::current(&mut cell, &mut counter);
    assert_eq!(counter.issued(), 1);
}

#[test]
fn identifiers_are_dense_from_zero() {
    let mut counter = IdCounter::new();
    let mut expected: u32 = 0;
    while expected < 100 {
        let mut cell = ThreadId::uninitialized();
        let id = ThreadId::current(&mut cell, &mut counter);
        assert_eq!(id.as_u32(), expected);
        expected += 1;
        assert_eq!(counter.issued(), expected);
    }
}

#[test]
fn next_counts_up() {
    let mut counter = IdCounter::new();
    assert_eq!(counter.issued(), 0);
    assert_eq!(ThreadId::next(&mut counter).as_u32(), 0);
    assert_eq!(ThreadId::next(&mut counter).as_u32(), 1);
    assert_eq!(ThreadId::next(&mut counter).as_u32(), 2);
    assert_eq!(counter.issued(), 3);
}

#[test]
fn clear_gives_a_greater_identifier() {
    let mut counter = IdCounter::new();
    let mut cell = ThreadId::uninitialized();
    let mut other = ThreadId::uninitialized();

    let first = ThreadId::current(&mut cell, &mut counter);
    ThreadId::clear(&mut cell);
    assert!(cell.is_uninitialized());
    let second = ThreadId::current(&mut cell, &mut counter);
    assert!(second.as_u32() > first.as_u32());
    assert_eq!(first.as_u32(), 0);
    assert_eq!(second.as_u32(), 1);

    let seen_by_other = ThreadId::current(&mut other, &mut counter);
    assert!(seen_by_other != first);
    assert!(seen_by_other != second);
    assert_eq!(seen_by_other.as_u32(), 2);
}

#[test]
fn clear_does_not_move_the_counter() {
    let mut counter = IdCounter::new();
    let mut cell = ThreadId::uninitialized();
    ThreadId::current(&mut cell, &mut counter);
    ThreadId::clear(&mut cell);
    assert_eq!(counter.issued(), 1);
    ThreadId::clear(&mut cell);
    assert!(cell.is_uninitialized());
    assert_eq!(counter.issued(), 1);
}

#[test]
fn cleared_identifier_never_comes_back() {
    let mut counter = IdCounter::new();
    let mut cell = ThreadId::uninitialized();
    let first = ThreadId::current(&mut cell, &mut counter);
    let mut round: u32 = 0;
    while round < 50 {
        ThreadId::clear(&mut cell);
        let again = ThreadId::current(&mut cell, &mut counter);
        assert!(again.as_u32() > first.as_u32());
        assert_eq!(again.as_u32(), round + 1);
        round += 1;
    }
}

#[test]
fn accessors_agree() {
    let mut counter = IdCounter::starting_at(70_000);
    let id = ThreadId::next(&mut counter);
    assert_eq!(id.as_u32(), 70_000);
    assert_eq!(id.as_usize(), 70_000);
}

#[test]
fn uninitialized_is_the_reserved_value() {
    let cell = ThreadId::uninitialized();
    assert!(cell.is_uninitialized());
    assert_eq!(cell.as_u32(), u32::MAX);
    assert_eq!(cell, ThreadId::uninitialized());
}

#[test]
fn assigned_identifier_is_not_uninitialized() {
    let mut counter = IdCounter::new();
    let mut cell = ThreadId::uninitialized();
    let id = ThreadId::current(&mut cell, &mut counter);
    assert!(!id.is_uninitialized());
    assert!(!cell.is_uninitialized());
}

#[test]
fn counter_is_exhausted_before_the_reserved_value() {
    let mut counter = IdCounter::starting_at(u32::MAX - 1);
    assert!(!counter.is_exhausted());
    let mut cell = ThreadId::uninitialized();
    let last = ThreadId::current(&mut cell, &mut counter);
    assert_eq!(last.as_u32(), u32::MAX - 1);
    assert!(!last.is_uninitialized());
    assert!(counter.is_exhausted());
    assert_eq!(counter.issued(), u32::MAX);

    let again = ThreadId::current(&mut cell, &mut counter);
    assert_eq!(again, last);
    assert_eq!(counter.issued(), u32::MAX);
}

#[test]
fn fresh_counter_is_not_exhausted() {
    let counter = IdCounter::new();
    assert!(!counter.is_exhausted());
    assert_eq!(counter.issued(), 0);
}

#[test]
fn identifiers_can_be_copied_and_hashed() {
    let mut counter = IdCounter::new();
    let mut cell = ThreadId::uninitialized();
    let id = ThreadId::current(&mut cell, &mut counter);
    let copy = id;
    let mut seen = std::collections::HashSet::new();
    assert!(seen.insert(id));
    assert!(!seen.insert(copy));
    assert_eq!(format!("{:?}", id), "ThreadId(0)");
}
