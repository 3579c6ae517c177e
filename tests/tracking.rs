use actors_tracking::{ActorsData, ActorsTracker, TrackerError};

fn payloads(t: &ActorsTracker<char>) -> Vec<char> {
    t.iter().into_iter().copied().collect()
}

fn sorted(mut v: Vec<char>) -> Vec<char> {
    v.sort();
    v
}

#[test]
fn new_tracker_is_empty() {
    let t: ActorsTracker<char> = ActorsTracker::new();
    assert_eq!(t.baseline(), 0);
    assert_eq!(t.group_count(), 0);
    assert!(t.iter().is_empty());
}

#[test]
fn insert_then_iterate_yields_the_payloads() {
    let mut t = ActorsTracker::new();
    assert_eq!(t.insert(4, vec!['a', 'b', 'c']), Ok(()));
    assert_eq!(sorted(payloads(&t)), vec!['a', 'b', 'c']);
    assert_eq!(t.group_count(), 1);
    assert_eq!(t.group_ticks(), vec![4]);
}

#[test]
fn insert_empty_payloads_adds_an_empty_group() {
    let mut t: ActorsTracker<char> = ActorsTracker::new();
    assert_eq!(t.insert(2, Vec::new()), Ok(()));
    assert_eq!(t.group_count(), 1);
    assert!(payloads(&t).is_empty());
}

#[test]
fn insert_at_largest_tick() {
    let mut t = ActorsTracker::new();
    assert_eq!(t.insert(u32::MAX, vec!['z']), Ok(()));
    assert_eq!(t.group_ticks(), vec![u32::MAX]);
    t.remove(u32::MAX - 1);
    assert_eq!(payloads(&t), vec!['z']);
    t.remove(u32::MAX);
    assert_eq!(t.group_count(), 0);
}

#[test]
fn groups_are_kept_in_tick_order() {
    let mut t = ActorsTracker::new();
    assert_eq!(t.insert(7, vec!['c']), Ok(()));
    assert_eq!(t.insert(1, vec!['a']), Ok(()));
    assert_eq!(t.insert(3, vec!['b']), Ok(()));
    assert_eq!(t.group_ticks(), vec![1, 3, 7]);
    assert_eq!(payloads(&t), vec!['a', 'b', 'c']);
}

#[test]
fn remove_drops_groups_up_to_the_threshold() {
    let mut t = ActorsTracker::new();
    assert_eq!(t.insert(1, vec!['a']), Ok(()));
    assert_eq!(t.insert(2, vec!['b']), Ok(()));
    assert_eq!(t.insert(3, vec!['c']), Ok(()));
    t.remove(2);
    assert_eq!(payloads(&t), vec!['c']);
    assert_eq!(t.group_ticks(), vec![3]);
    t.remove(2);
    assert_eq!(payloads(&t), vec!['c']);
}

#[test]
fn remove_is_inclusive() {
    let mut t = ActorsTracker::new();
    assert_eq!(t.insert(2, vec!['a']), Ok(()));
    t.remove(1);
    assert_eq!(payloads(&t), vec!['a']);
    t.remove(2);
    assert!(payloads(&t).is_empty());
    assert_eq!(t.group_count(), 0);
}

#[test]
fn remove_on_empty_tracker_does_nothing() {
    let mut t: ActorsTracker<char> = ActorsTracker::new();
    t.remove(10);
    assert_eq!(t.group_count(), 0);
}

#[test]
fn cleanup_merges_groups_of_the_same_tick() {
    let mut t = ActorsTracker::new();
    assert_eq!(t.insert(5, vec!['a']), Ok(()));
    assert_eq!(t.insert(5, vec!['b']), Ok(()));
    let mut c = t.cleanup();
    assert_eq!(c.group_count(), 1);
    assert_eq!(c.group_ticks(), vec![5]);
    assert_eq!(payloads(&c), vec!['a', 'b']);
    c.remove(4);
    assert_eq!(payloads(&c), vec!['a', 'b']);
    c.remove(5);
    assert!(payloads(&c).is_empty());
}

#[test]
fn cleanup_keeps_distinct_ticks_apart() {
    let mut t = ActorsTracker::new();
    assert_eq!(t.insert(5, vec!['a']), Ok(()));
    assert_eq!(t.insert(7, vec!['b']), Ok(()));
    let mut c = t.cleanup();
    assert_eq!(c.group_count(), 2);
    assert_eq!(c.group_ticks(), vec![5, 7]);
    c.remove(5);
    assert_eq!(payloads(&c), vec!['b']);
    assert_eq!(c.group_ticks(), vec![7]);
}

#[test]
fn cleanup_keeps_the_last_tick() {
    let mut t = ActorsTracker::new();
    assert_eq!(t.insert(9, vec!['x', 'y']), Ok(()));
    let c = t.cleanup();
    assert_eq!(c.group_ticks(), vec![9]);
    assert_eq!(payloads(&c), vec!['x', 'y']);
}

#[test]
fn cleanup_adds_no_group_at_the_baseline() {
    let mut t = ActorsTracker::new();
    assert_eq!(t.insert(3, vec!['a']), Ok(()));
    assert_eq!(t.insert(0, vec!['z']), Ok(()));
    assert_eq!(t.insert(3, vec!['b']), Ok(()));
    let c = t.cleanup();
    assert_eq!(c.group_ticks(), vec![0, 3]);
    assert_eq!(payloads(&c), vec!['z', 'a', 'b']);

    let mut u = ActorsTracker::new();
    assert_eq!(u.insert(4, vec!['q']), Ok(()));
    let d = u.cleanup();
    assert_eq!(d.group_ticks(), vec![4]);
}

#[test]
fn cleanup_of_empty_tracker_is_empty() {
    let t: ActorsTracker<char> = ActorsTracker::new();
    let c = t.cleanup();
    assert_eq!(c.group_count(), 0);
    assert!(c.iter().is_empty());
    assert_eq!(c.baseline(), 0);
}

#[test]
fn cleanup_merges_many_groups_in_order() {
    let mut t = ActorsTracker::new();
    assert_eq!(t.insert(2, vec!['c']), Ok(()));
    assert_eq!(t.insert(1, vec!['a']), Ok(()));
    assert_eq!(t.insert(2, vec!['d', 'e']), Ok(()));
    assert_eq!(t.insert(1, vec!['b']), Ok(()));
    assert_eq!(t.insert(6, Vec::new()), Ok(()));
    let c = t.cleanup();
    assert_eq!(c.group_ticks(), vec![1, 2, 6]);
    assert_eq!(payloads(&c), vec!['a', 'b', 'c', 'd', 'e']);
}

#[test]
fn inserts_at_the_same_tick_stay_separate_groups() {
    let mut t = ActorsTracker::new();
    assert_eq!(t.insert(5, vec!['a']), Ok(()));
    assert_eq!(t.insert(5, vec!['b']), Ok(()));
    assert_eq!(t.group_count(), 2);
    assert_eq!(t.group_ticks(), vec![5, 5]);
    assert_eq!(payloads(&t), vec!['a', 'b']);
    t.remove(4);
    assert_eq!(t.group_count(), 2);
    t.remove(5);
    assert_eq!(t.group_count(), 0);
    assert!(payloads(&t).is_empty());
}

#[test]
fn tick_overflow_error_is_comparable() {
    let e = TrackerError::TickOverflow;
    assert_eq!(e, TrackerError::TickOverflow);
    assert_eq!(format!("{:?}", e), "TickOverflow");
}

#[test]
fn group_record_holds_tick_and_payloads() {
    let g = ActorsData { ticks: 3, datas: vec!['a', 'b'] };
    assert_eq!(g.ticks, 3);
    assert_eq!(g.datas, vec!['a', 'b']);
}
