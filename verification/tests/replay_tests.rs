use aevum::controlled_scheduler::ControlledScheduler;
use aevum::event::{Event, EventMetadata, ProcessId, ThreadId, TraceId, VectorClock};
use aevum::replay::{ReplayEngine, ReplayError};
use aevum::trace_log::TraceLog;

fn metadata(thread: u64, sequence: u64) -> EventMetadata {
    EventMetadata {
        trace_id: TraceId(1),
        process_id: ProcessId(1),
        thread_id: ThreadId(thread),
        timestamp_ns: 1000 + sequence,
        vector_clock: VectorClock::new(),
        sequence_number: sequence,
    }
}

fn call(thread: u64, sequence: u64) -> Event {
    Event::FunctionCall {
        metadata: metadata(thread, sequence),
        function_name: format!("func_{}", sequence),
        module: "test".to_string(),
        args: vec![],
        stack_depth: 1,
    }
}

fn engine(events: Vec<Event>) -> ReplayEngine {
    ReplayEngine::from_events(TraceLog::create("t.log".to_string(), true), events)
}

#[test]
fn replay_steps_forward_and_back() {
    let mut replay = engine((1..=10).map(|i| call(1, i)).collect());
    assert_eq!(replay.total_events(), 10);
    assert_eq!(replay.current_position(), 0);
    assert!(replay.previous_event().is_none());
    let event = replay.next_event().unwrap();
    assert_eq!(event.metadata().sequence_number, 1);
    let event = replay.previous_event().unwrap();
    assert_eq!(event.metadata().sequence_number, 1);
    assert_eq!(replay.current_position(), 0);
    for _ in 0..10 {
        assert!(replay.next_event().is_some());
    }
    assert!(replay.is_complete());
    assert!(replay.next_event().is_none());
    replay.reset();
    assert_eq!(replay.current_position(), 0);
    assert!(!replay.is_complete());
}

#[test]
fn replay_seek_and_filters() {
    let events = vec![call(1, 1), call(2, 2), call(1, 3), call(2, 3), call(3, 5)];
    let mut replay = engine(events);
    let e = replay.seek_to(3).unwrap();
    assert_eq!(e.metadata().thread_id, ThreadId(1));
    assert_eq!(replay.current_position(), 2);
    assert_eq!(replay.seek_to(4).unwrap_err(), ReplayError::EventNotFound);
    assert_eq!(replay.current_position(), 2);
    assert_eq!(ReplayError::EventNotFound.message(), "Event not found");
    let in_range: Vec<u64> = replay.events_in_range(2, 3).iter().map(|e| e.metadata().sequence_number).collect();
    assert_eq!(in_range, vec![2, 3, 3]);
    assert!(replay.events_in_range(4, 1).is_empty());
    let on_two: Vec<u64> = replay.events_for_thread(ThreadId(2)).iter().map(|e| e.metadata().sequence_number).collect();
    assert_eq!(on_two, vec![2, 3]);
}

#[test]
fn replay_collects_nondeterministic_inputs() {
    let events = vec![
        call(1, 1),
        Event::RandomBytes { metadata: metadata(1, 2), bytes: vec![7, 7, 7] },
        Event::Timestamp { metadata: metadata(1, 3), wall_clock_ns: 0x0102030405060708 },
        Event::RandomBytes { metadata: metadata(1, 2), bytes: vec![9] },
    ];
    let replay = engine(events);
    assert_eq!(replay.get_nondeterministic_input(1), None);
    assert_eq!(replay.get_nondeterministic_input(2), Some(&vec![9]));
    assert_eq!(replay.get_nondeterministic_input(3), Some(&vec![8, 7, 6, 5, 4, 3, 2, 1]));
    let inputs = ReplayEngine::extract_nondeterministic_inputs(&[]);
    assert!(inputs.is_empty());
}

#[test]
fn controlled_scheduler_replays_in_load_order() {
    let mut scheduler = ControlledScheduler::new();
    assert!(scheduler.next_event().is_none());
    scheduler.load_events(vec![call(1, 1), call(2, 2), call(1, 3)]);
    assert!(!scheduler.should_block(ThreadId(1)));
    assert!(!scheduler.should_block(ThreadId(9)));
    let e = scheduler.next_event().unwrap();
    assert_eq!(e.metadata().sequence_number, 1);
    scheduler.mark_completed(ThreadId(1));
    assert!(scheduler.should_block(ThreadId(1)));
    let e = scheduler.next_event().unwrap();
    assert_eq!(e.metadata().sequence_number, 2);
    let e = scheduler.next_event().unwrap();
    assert_eq!(e.metadata().sequence_number, 3);
    assert!(!scheduler.should_block(ThreadId(1)));
    assert!(scheduler.next_event().is_none());
}

#[test]
fn replay_position_stays_within_the_events() {
    let mut replay = engine((1..=3).map(|i| call(1, i)).collect());
    let check = |r: &ReplayEngine| {
        assert!(r.current_position() <= r.total_events());
        assert_eq!(r.total_events(), 3);
        assert_eq!(r.is_complete(), r.current_position() == r.total_events());
    };
    check(&replay);
    for _ in 0..5 {
        replay.next_event();
        check(&replay);
    }
    assert!(replay.is_complete());
    assert!(replay.seek_to(2).is_ok());
    check(&replay);
    assert_eq!(replay.current_position(), 1);
    assert!(replay.seek_to(99).is_err());
    assert_eq!(replay.current_position(), 1);
    for _ in 0..3 {
        replay.previous_event();
        check(&replay);
    }
    assert_eq!(replay.current_position(), 0);
    replay.next_event();
    replay.reset();
    check(&replay);
    assert!(!replay.is_complete());
}

#[test]
fn completed_thread_stays_blocked_until_its_own_event() {
    let mut scheduler = ControlledScheduler::new();
    scheduler.load_events(vec![call(1, 1), call(2, 2), call(3, 3), call(2, 4)]);
    scheduler.mark_completed(ThreadId(2));
    assert!(scheduler.should_block(ThreadId(2)));
    assert!(!scheduler.should_block(ThreadId(1)));
    assert!(!scheduler.should_block(ThreadId(3)));
    let e = scheduler.next_event().unwrap();
    assert_eq!(e.metadata().thread_id, ThreadId(1));
    assert!(scheduler.should_block(ThreadId(2)));
    let e = scheduler.next_event().unwrap();
    assert_eq!(e.metadata().thread_id, ThreadId(2));
    assert_eq!(e.metadata().sequence_number, 2);
    assert!(!scheduler.should_block(ThreadId(2)));
}

#[test]
fn inspect_counts_and_filter() {
    let events = vec![
        call(1, 1),
        Event::MutexLock { metadata: metadata(2, 2), mutex_id: 3, acquired: true },
        call(2, 3),
        Event::MutexUnlock { metadata: metadata(2, 3), mutex_id: 3 },
        call(1, 9),
    ];
    let replay = engine(events);
    let kinds = replay.type_counts();
    assert_eq!(kinds.len(), 15);
    // Sequence numbers 1..=5 are sampled: 1, 2 and 3 have events (3 twice, the first counts).
    assert_eq!(kinds[0], 2);
    assert_eq!(kinds[11], 1);
    assert_eq!(kinds[12], 0);
    assert_eq!(aevum::replay::event_kind_name(11), "MutexLock");
    assert_eq!(aevum::replay::event_kind_name(0), "FunctionCall");
    let threads = replay.thread_counts();
    assert_eq!(threads.len(), 2);
    assert_eq!(threads.get(&1), Some(&1));
    assert_eq!(threads.get(&2), Some(&2));
    let calls = replay.events_of_type("FunctionCall", 20);
    let seqs: Vec<u64> = calls.iter().map(|e| e.metadata().sequence_number).collect();
    assert_eq!(seqs, vec![1, 3]);
    assert_eq!(replay.events_of_type("FunctionCall", 2).len(), 1);
    assert!(replay.events_of_type("Syscall", 20).is_empty());
    assert_eq!(replay.first_event_with_sequence(3).unwrap().event_type(), "FunctionCall");
    assert!(replay.first_event_with_sequence(4).is_none());
}
