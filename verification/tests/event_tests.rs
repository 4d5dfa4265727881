use aevum::event::{Event, EventMetadata, ProcessId, ThreadId, TraceId, VectorClock};

#[test]
fn test_vector_clock_happens_before() {
    let mut vc1 = VectorClock::new();
    let mut vc2 = VectorClock::new();

    let p1 = ProcessId(1);
    let p2 = ProcessId(2);

    vc1.increment(p1);
    vc2.clocks.insert(p1.0, 2);
    vc2.clocks.insert(p2.0, 1);

    assert!(vc1.happens_before(&vc2));
    assert!(!vc2.happens_before(&vc1));
}

#[test]
fn test_vector_clock_concurrent() {
    let mut vc1 = VectorClock::new();
    let mut vc2 = VectorClock::new();

    let p1 = ProcessId(1);
    let p2 = ProcessId(2);

    vc1.increment(p1);
    vc2.increment(p2);

    assert!(vc1.concurrent_with(&vc2));
    assert!(vc2.concurrent_with(&vc1));
}

#[test]
fn test_vector_clock_merge() {
    let mut vc1 = VectorClock::new();
    let mut vc2 = VectorClock::new();

    let p1 = ProcessId(1);
    let p2 = ProcessId(2);

    vc1.clocks.insert(p1.0, 5);
    vc1.clocks.insert(p2.0, 2);

    vc2.clocks.insert(p1.0, 3);
    vc2.clocks.insert(p2.0, 7);

    vc1.merge(&vc2);

    assert_eq!(vc1.clocks.get(&p1.0), Some(&5));
    assert_eq!(vc1.clocks.get(&p2.0), Some(&7));
}

fn clock(entries: &[(u32, u64)]) -> VectorClock {
    let mut vc = VectorClock::new();
    for (p, c) in entries {
        vc.clocks.insert(*p, *c);
    }
    vc
}

#[test]
fn vector_clock_not_before_itself() {
    let vc = clock(&[(1, 3), (2, 4)]);
    assert!(!vc.happens_before(&vc));
    assert!(vc.concurrent_with(&vc));
}

#[test]
fn vector_clock_zero_entries_count_as_absent() {
    let a = clock(&[(1, 0)]);
    let b = VectorClock::new();
    assert!(!a.happens_before(&b));
    assert!(!b.happens_before(&a));
    let c = clock(&[(7, 1)]);
    assert!(b.happens_before(&c));
    assert!(a.happens_before(&c));
}

#[test]
fn vector_clock_happens_before_is_transitive_on_example() {
    let a = clock(&[(1, 1)]);
    let b = clock(&[(1, 1), (2, 1)]);
    let c = clock(&[(1, 2), (2, 1)]);
    assert!(a.happens_before(&b));
    assert!(b.happens_before(&c));
    assert!(a.happens_before(&c));
}

#[test]
fn vector_clock_merge_takes_union_and_maximum() {
    let mut a = clock(&[(1, 4), (3, 1)]);
    let b = clock(&[(1, 2), (2, 9)]);
    a.merge(&b);
    assert_eq!(a.clocks.len(), 3);
    assert_eq!(a.clocks.get(&1), Some(&4));
    assert_eq!(a.clocks.get(&2), Some(&9));
    assert_eq!(a.clocks.get(&3), Some(&1));
    assert!(!a.happens_before(&b));
    assert!(b.happens_before(&a));
}

#[test]
fn vector_clock_increment_moves_forward() {
    let mut a = clock(&[(1, 4)]);
    let before = a.clone();
    a.increment(ProcessId(1));
    assert_eq!(a.clocks.get(&1), Some(&5));
    assert!(before.happens_before(&a));
    a.increment(ProcessId(2));
    assert_eq!(a.clocks.get(&2), Some(&1));
}

/// The two-node example of the vector clock documentation.
#[test]
fn vector_clock_documented_example() {
    let event1 = clock(&[(1, 1), (2, 0)]);
    let send_m1 = clock(&[(1, 2), (2, 0)]);
    let mut receive_m1 = clock(&[(2, 0)]);
    receive_m1.merge(&send_m1);
    receive_m1.increment(ProcessId(2));
    assert_eq!(receive_m1.clocks.get(&1), Some(&2));
    assert_eq!(receive_m1.clocks.get(&2), Some(&1));
    let mut event2 = receive_m1.clone();
    event2.increment(ProcessId(2));
    let event3 = clock(&[(1, 3), (2, 0)]);
    assert!(event1.happens_before(&receive_m1));
    assert!(event3.concurrent_with(&event2));
    assert!(event2.concurrent_with(&event3));
}

#[test]
fn trace_id_is_random_version_four() {
    let a = TraceId::new();
    let b = TraceId::new();
    assert_ne!(a, b);
    assert_eq!((a.0 >> 76) & 0xf, 4);
    assert_eq!((a.0 >> 62) & 0x3, 2);
}

fn metadata(thread: u64, sequence: u64) -> EventMetadata {
    EventMetadata {
        trace_id: TraceId(7),
        process_id: ProcessId(1),
        thread_id: ThreadId(thread),
        timestamp_ns: 1000 + sequence,
        vector_clock: VectorClock::new(),
        sequence_number: sequence,
    }
}

#[test]
fn event_type_and_metadata() {
    let e = Event::MutexLock { metadata: metadata(3, 9), mutex_id: 1, acquired: true };
    assert_eq!(e.event_type(), "MutexLock");
    assert_eq!(e.metadata().sequence_number, 9);
    assert_eq!(e.metadata().thread_id, ThreadId(3));
    let e = Event::Timestamp { metadata: metadata(1, 2), wall_clock_ns: 5 };
    assert_eq!(e.event_type(), "Timestamp");
    let e = Event::ProcessExec { metadata: metadata(1, 4), executable: "sh".to_string(), args: vec![] };
    assert_eq!(e.event_type(), "ProcessExec");
    assert_eq!(e.metadata().timestamp_ns, 1004);
}
