use movement_node::garbage::counted::GcCounter;
use movement_node::garbage::set::GcSet;
use movement_node::garbage::Duration;
use movement_node::garbage::DurationError;

#[derive(Debug, Eq, PartialEq, Hash)]
pub struct Value(u64);

#[test]
fn test_gc_counter() {
    let value_ttl_ms = Duration::try_new(100).unwrap();
    let gc_slot_duration_ms = Duration::try_new(10).unwrap();
    let mut gc_counter = GcCounter::new(value_ttl_ms, gc_slot_duration_ms);

    let current_time_ms = 0;

    // add three
    gc_counter.increment(current_time_ms);
    gc_counter.increment(current_time_ms);
    gc_counter.increment(current_time_ms);
    assert_eq!(gc_counter.get_count(), 3);

    // decrement one
    gc_counter.decrement();
    assert_eq!(gc_counter.get_count(), 2);

    // add one garbage collect the rest
    gc_counter.increment(current_time_ms + 10);
    gc_counter.gc(current_time_ms + 100);

    // check that the count is 1
    assert_eq!(gc_counter.get_count(), 1);
}

#[test]
fn test_gc_set() {
    let value_ttl_ms = Duration::try_new(100).unwrap();
    let gc_slot_duration_ms = Duration::try_new(10).unwrap();
    let mut gc_set = GcSet::new(value_ttl_ms, gc_slot_duration_ms);

    let current_time_ms = 0;

    // set the value for key 1
    gc_set.insert(Value(1), current_time_ms);
    assert_eq!(gc_set.contains(&Value(1)), true);

    // write the value for key 1 again at later time
    gc_set.insert(Value(1), current_time_ms + 100);
    assert_eq!(gc_set.contains(&Value(1)), true);

    // add another value back at the first time
    gc_set.insert(Value(2), current_time_ms);

    // garbage collect
    gc_set.gc(current_time_ms + 100);

    // assert the value 1 is still there
    assert_eq!(gc_set.contains(&Value(1)), true);

    // assert the value 2 is gone
    assert_eq!(gc_set.contains(&Value(2)), false);
}

#[test]
fn duration_rejects_zero() {
    assert_eq!(Duration::try_new(0).err(), Some(DurationError::InvalidConfig));
    assert_eq!(Duration::try_new(1).unwrap().get(), 1);
    assert_eq!(Duration::try_new(u64::MAX).unwrap().get(), u64::MAX);
}

#[test]
fn counter_decrement_on_empty_is_noop() {
    let mut counter = GcCounter::new(Duration::try_new(100).unwrap(), Duration::try_new(10).unwrap());
    counter.decrement();
    assert_eq!(counter.get_count(), 0);
    counter.increment(5);
    counter.decrement();
    counter.decrement();
    assert_eq!(counter.get_count(), 0);
}

#[test]
fn counter_decrement_takes_oldest_slot_first() {
    let mut counter = GcCounter::new(Duration::try_new(100).unwrap(), Duration::try_new(10).unwrap());
    counter.increment(0);
    counter.increment(200);
    counter.decrement();
    // the unit of slot 0 is gone, so a collection that expires slot 0 drops nothing
    counter.gc(100);
    assert_eq!(counter.get_count(), 1);
}

#[test]
fn counter_gc_before_one_ttl_drops_nothing() {
    let mut counter = GcCounter::new(Duration::try_new(100).unwrap(), Duration::try_new(10).unwrap());
    counter.increment(0);
    counter.increment(50);
    counter.gc(99);
    assert_eq!(counter.get_count(), 2);
    // at 100 the cutoff is slot 0
    counter.gc(100);
    assert_eq!(counter.get_count(), 1);
    // at 150 the cutoff is slot 5
    counter.gc(150);
    assert_eq!(counter.get_count(), 0);
}

#[test]
fn counter_balance_of_increments_decrements_and_drops() {
    let mut counter = GcCounter::new(Duration::try_new(30).unwrap(), Duration::try_new(10).unwrap());
    // five increments
    counter.increment(0);
    counter.increment(1);
    counter.increment(10);
    counter.increment(25);
    counter.increment(40);
    // one honoured decrement: slot 0 goes from 2 to 1
    counter.decrement();
    // cutoff = 4 - 3 = 1: drops slot 0 (1 unit) and slot 1 (1 unit)
    counter.gc(40);
    assert_eq!(counter.get_count(), 5 - 1 - 2);
}

#[test]
fn set_remove_value_and_gc() {
    let mut set: GcSet<u64> = GcSet::new(Duration::try_new(20).unwrap(), Duration::try_new(10).unwrap());
    assert!(!set.contains(&7));
    set.insert(7, 0);
    set.insert(8, 15);
    set.remove_value(&7);
    assert!(!set.contains(&7));
    assert!(set.contains(&8));
    set.remove_value(&9);
    assert!(set.contains(&8));
    // cutoff = 3 - 2 = 1: slot 1 expires
    set.gc(30);
    assert!(!set.contains(&8));
}

#[test]
fn set_gc_before_one_ttl_drops_nothing() {
    let mut set: GcSet<u64> = GcSet::new(Duration::try_new(100).unwrap(), Duration::try_new(10).unwrap());
    set.insert(1, 0);
    set.gc(99);
    assert!(set.contains(&1));
    set.gc(100);
    assert!(!set.contains(&1));
}
