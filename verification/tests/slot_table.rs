use thid::IdCounter;
use thid::SlotTable;
use thid::ThreadId;
use thid::SEGMENT_SIZE;

fn values(table: &mut SlotTable<i32>) -> Vec<i32> {
    let mut listed: Vec<i32> = Vec::new();
    for slot in table.iter_mut() {
        listed.push(*slot);
    }
    listed
}

#[test]
fn new_table_is_empty() {
    let mut table: SlotTable<i32> = SlotTable::new();
    assert_eq!(table.segments(), 0);
    assert!(table.iter_mut().is_empty());
}

#[test]
fn get_or_runs_the_initializer_once() {
    let mut counter = IdCounter::new();
    let mut cell = ThreadId::uninitialized();
    let mut table: SlotTable<i32> = SlotTable::new();
    let mut first_ran = false;
    let mut second_ran = false;

    let first = *table.get_or(&mut cell, &mut counter, || {
        first_ran = true;
        1
    });
    let second = *table.get_or(&mut cell, &mut counter, || {
        second_ran = true;
        99
    });

    assert!(first_ran);
    assert!(!second_ran);
    assert_eq!(first, 1);
    assert_eq!(second, 1);
    assert_eq!(values(&mut table), vec![1]);
}

#[test]
fn second_access_sees_what_the_first_left() {
    let mut counter = IdCounter::new();
    let mut cell = ThreadId::uninitialized();
    let mut table: SlotTable<String> = SlotTable::new();

    table.get_or(&mut cell, &mut counter, || String::from("foo")).push_str("bar");
    let again = table.get_or(&mut cell, &mut counter, || String::from("other"));
    assert_eq!(again.as_str(), "foobar");
}

#[test]
fn two_threads_leave_two_and_twenty() {
    let mut counter = IdCounter::new();
    let mut a = ThreadId::uninitialized();
    let mut b = ThreadId::uninitialized();
    let mut table: SlotTable<i32> = SlotTable::new();

    let slot_a = table.get_or(&mut a, &mut counter, || 1);
    assert_eq!(*slot_a, 1);
    *slot_a = 2;
    let slot_b = table.get_or(&mut b, &mut counter, || 10);
    assert_eq!(*slot_b, 10);
    *slot_b = 20;

    assert_eq!(values(&mut table), vec![2, 20]);
}

#[test]
fn every_thread_is_listed_in_ascending_order() {
    let mut counter = IdCounter::new();
    let mut cells: Vec<ThreadId> = Vec::new();
    let mut made: usize = 0;
    while made < 10 {
        let mut cell = ThreadId::uninitialized();
        ThreadId::current(&mut cell, &mut counter);
        cells.push(cell);
        made += 1;
    }

    let mut table: SlotTable<i32> = SlotTable::new();
    let mut turn: usize = 10;
    while turn > 0 {
        turn -= 1;
        let slot = table.get_or(&mut cells[turn], &mut counter, || 0);
        *slot += 100 + turn as i32;
    }

    assert_eq!(
        values(&mut table),
        vec![100, 101, 102, 103, 104, 105, 106, 107, 108, 109]
    );
    assert_eq!(counter.issued(), 10);
}

#[test]
fn strings_of_two_threads_are_collected() {
    let mut counter = IdCounter::new();
    let mut first = ThreadId::uninitialized();
    let mut second = ThreadId::uninitialized();
    let mut table: SlotTable<String> = SlotTable::new();

    table.get_or(&mut first, &mut counter, || String::from("foo")).push_str("bar");
    table.get_or(&mut second, &mut counter, || String::from("baz")).push_str("bip");
    for value in table.iter_mut() {
        value.push_str("new");
    }

    let mut collected: Vec<String> = Vec::new();
    for value in table.iter_mut() {
        collected.push(value.clone());
    }
    assert_eq!(collected, vec![String::from("foobarnew"), String::from("bazbipnew")]);
}

#[test]
fn growth_across_a_segment_boundary_keeps_slots() {
    let mut counter = IdCounter::new();
    let mut cells: Vec<ThreadId> = Vec::new();
    let mut table: SlotTable<i32> = SlotTable::new();

    let mut made: usize = 0;
    while made < SEGMENT_SIZE {
        let mut cell = ThreadId::uninitialized();
        let value = made as i32;
        *table.get_or(&mut cell, &mut counter, || value) += 1000;
        cells.push(cell);
        made += 1;
    }
    assert_eq!(table.segments(), 1);
    assert_eq!(cells[SEGMENT_SIZE - 1].as_usize(), SEGMENT_SIZE - 1);

    let mut beyond = ThreadId::uninitialized();
    *table.get_or(&mut beyond, &mut counter, || -1) -= 1;
    assert_eq!(beyond.as_usize(), SEGMENT_SIZE);
    assert_eq!(table.segments(), 2);

    let last_of_first = *table.get_or(&mut cells[SEGMENT_SIZE - 1], &mut counter, || 0);
    assert_eq!(last_of_first, 1000 + SEGMENT_SIZE as i32 - 1);

    let listed = values(&mut table);
    assert_eq!(listed.len(), SEGMENT_SIZE + 1);
    let mut at: usize = 0;
    while at < SEGMENT_SIZE {
        assert_eq!(listed[at], 1000 + at as i32);
        at += 1;
    }
    assert_eq!(listed[SEGMENT_SIZE], -2);
}

#[test]
fn segment_size_is_thirty_two() {
    assert_eq!(SEGMENT_SIZE, 32);
}

#[test]
fn segments_are_allocated_on_demand() {
    let mut table: SlotTable<i32> = SlotTable::new();
    let mut counter = IdCounter::starting_at(70);
    let far = ThreadId::next(&mut counter);
    let mut near_counter = IdCounter::starting_at(5);
    let near = ThreadId::next(&mut near_counter);

    *table.get_or_for(far, || 7) += 1;
    assert_eq!(table.segments(), 3);
    *table.get_or_for(near, || 5) += 1;
    assert_eq!(table.segments(), 3);

    assert_eq!(values(&mut table), vec![6, 8]);
}

#[test]
fn get_or_for_keeps_the_first_value() {
    let mut counter = IdCounter::new();
    let id = ThreadId::next(&mut counter);
    let mut table: SlotTable<i32> = SlotTable::new();
    assert_eq!(*table.get_or_for(id, || 3), 3);
    assert_eq!(*table.get_or_for(id, || 4), 3);
    *table.get_or_for(id, || 5) = 6;
    assert_eq!(*table.get_or_for(id, || 7), 6);
    assert_eq!(values(&mut table), vec![6]);
}

#[test]
fn get_or_assigns_an_identifier_on_first_use() {
    let mut counter = IdCounter::new();
    let mut cell = ThreadId::uninitialized();
    let mut table: SlotTable<i32> = SlotTable::new();
    table.get_or(&mut cell, &mut counter, || 1);
    assert!(!cell.is_uninitialized());
    assert_eq!(cell.as_u32(), 0);
    assert_eq!(counter.issued(), 1);
    table.get_or(&mut cell, &mut counter, || 1);
    assert_eq!(cell.as_u32(), 0);
    assert_eq!(counter.issued(), 1);
}

#[test]
fn each_table_initializes_separately() {
    let mut counter = IdCounter::new();
    let mut cell = ThreadId::uninitialized();
    let mut one: SlotTable<i32> = SlotTable::new();
    let mut other: SlotTable<i32> = SlotTable::new();
    assert_eq!(*one.get_or(&mut cell, &mut counter, || 1), 1);
    assert_eq!(*other.get_or(&mut cell, &mut counter, || 2), 2);
    assert_eq!(*one.get_or(&mut cell, &mut counter, || 3), 1);
    assert_eq!(counter.issued(), 1);
}

#[test]
fn cleared_thread_gets_a_new_slot() {
    let mut counter = IdCounter::new();
    let mut cell = ThreadId::uninitialized();
    let mut table: SlotTable<i32> = SlotTable::new();
    *table.get_or(&mut cell, &mut counter, || 1) = 11;
    ThreadId::clear(&mut cell);
    *table.get_or(&mut cell, &mut counter, || 2) = 22;
    assert_eq!(cell.as_u32(), 1);
    assert_eq!(values(&mut table), vec![11, 22]);
}

#[test]
fn writes_through_iter_mut_reach_the_table() {
    let mut counter = IdCounter::new();
    let mut a = ThreadId::uninitialized();
    let mut b = ThreadId::uninitialized();
    let mut table: SlotTable<i32> = SlotTable::new();
    table.get_or(&mut a, &mut counter, || 1);
    table.get_or(&mut b, &mut counter, || 2);

    for slot in table.iter_mut() {
        *slot *= 10;
    }

    assert_eq!(*table.get_or(&mut a, &mut counter, || 0), 10);
    assert_eq!(*table.get_or(&mut b, &mut counter, || 0), 20);
    assert_eq!(table.segments(), 1);
}

#[test]
fn slot_of_the_last_identifier_of_a_segment() {
    let mut counter = IdCounter::starting_at(63);
    let last = ThreadId::next(&mut counter);
    let first_of_next = ThreadId::next(&mut counter);
    let mut table: SlotTable<i32> = SlotTable::new();
    table.get_or_for(last, || 63);
    assert_eq!(table.segments(), 2);
    table.get_or_for(first_of_next, || 64);
    assert_eq!(table.segments(), 3);
    assert_eq!(values(&mut table), vec![63, 64]);
}

#[test]
fn failed_initializer_leaves_the_slot_empty() {
    let mut counter = IdCounter::new();
    let mut cell = ThreadId::uninitialized();
    let mut table: SlotTable<i32> = SlotTable::new();

    let failed = table.get_or_try(&mut cell, &mut counter, || Err::<i32, String>(String::from("no")));
    assert_eq!(failed, Err(String::from("no")));
    assert!(table.iter_mut().is_empty());
    assert_eq!(cell.as_u32(), 0);
    assert_eq!(counter.issued(), 1);

    let mut retried = false;
    let second = table.get_or_try(&mut cell, &mut counter, || {
        retried = true;
        Ok::<i32, String>(4)
    });
    assert_eq!(second, Ok(&mut 4));
    assert!(retried);
    assert_eq!(values(&mut table), vec![4]);
    assert_eq!(counter.issued(), 1);
}

#[test]
fn fallible_initializer_is_not_run_on_a_populated_slot() {
    let mut counter = IdCounter::new();
    let mut cell = ThreadId::uninitialized();
    let mut table: SlotTable<i32> = SlotTable::new();
    *table.get_or(&mut cell, &mut counter, || 1) = 2;

    let mut ran = false;
    let found = table.get_or_try(&mut cell, &mut counter, || {
        ran = true;
        Err::<i32, u8>(9)
    });
    assert_eq!(found, Ok(&mut 2));
    assert!(!ran);
}

#[test]
fn failure_by_identifier_keeps_other_slots() {
    let mut counter = IdCounter::new();
    let kept = ThreadId::next(&mut counter);
    let failing = ThreadId::next(&mut counter);
    let mut table: SlotTable<i32> = SlotTable::new();
    *table.get_or_for(kept, || 10) += 1;

    let failed = table.get_or_try_for(failing, || Err::<i32, u8>(3));
    assert_eq!(failed, Err(3));
    assert_eq!(values(&mut table), vec![11]);

    let fine = table.get_or_try_for(failing, || Ok::<i32, u8>(20));
    assert_eq!(fine, Ok(&mut 20));
    assert_eq!(values(&mut table), vec![11, 20]);
}

#[test]
fn failure_in_a_new_segment_still_grows_the_table() {
    let mut counter = IdCounter::starting_at(40);
    let id = ThreadId::next(&mut counter);
    let mut table: SlotTable<i32> = SlotTable::new();
    let failed = table.get_or_try_for(id, || Err::<i32, u8>(1));
    assert_eq!(failed, Err(1));
    assert_eq!(table.segments(), 2);
    assert!(table.iter_mut().is_empty());
}
