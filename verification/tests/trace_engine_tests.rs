use aevum::event::{Event, EventMetadata, ProcessId, ThreadId, TraceId, VectorClock};
use aevum::replay::ReplayEngine;
use aevum::trace_log::TraceLog;
use aevum::TraceEngine;
use tempfile::tempdir;

type CallFields = (u128, u32, u64, u64, u64, String, String, Vec<u8>, u32);

/// The bytes stored for a function call: its fields, in bincode.
fn serialize_call(event: &Event) -> Vec<u8> {
    match event {
        Event::FunctionCall { metadata, function_name, module, args, stack_depth } => {
            let fields: CallFields = (
                metadata.trace_id.0,
                metadata.process_id.0,
                metadata.thread_id.0,
                metadata.timestamp_ns,
                metadata.sequence_number,
                function_name.clone(),
                module.clone(),
                args.clone(),
                *stack_depth,
            );
            bincode::serialize(&fields).unwrap()
        },
        _ => panic!("only function calls are stored here"),
    }
}

fn deserialize_call(bytes: &[u8]) -> Event {
    let f: CallFields = bincode::deserialize(bytes).unwrap();
    Event::FunctionCall {
        metadata: EventMetadata {
            trace_id: TraceId(f.0),
            process_id: ProcessId(f.1),
            thread_id: ThreadId(f.2),
            timestamp_ns: f.3,
            vector_clock: VectorClock::new(),
            sequence_number: f.4,
        },
        function_name: f.5,
        module: f.6,
        args: f.7,
        stack_depth: f.8,
    }
}

fn function_call(trace_id: TraceId, i: u64, name: String, module: &str, args: Vec<u8>) -> Event {
    Event::FunctionCall {
        metadata: EventMetadata {
            trace_id,
            process_id: ProcessId(1),
            thread_id: ThreadId(1),
            timestamp_ns: 1000 + i,
            vector_clock: VectorClock::new(),
            sequence_number: i + 1,
        },
        function_name: name,
        module: module.to_string(),
        args,
        stack_depth: 1,
    }
}

/// Appends an event to a log whose file is `file`.
fn append(log: &mut TraceLog, file: &mut Vec<u8>, event: &Event) -> u64 {
    let frame = log.encode_event(&serialize_call(event)).unwrap();
    file.extend_from_slice(&frame);
    log.record_appended()
}

#[test]
fn test_trace_log_create_and_append() {
    let dir = tempdir().unwrap();
    let log_path = dir.path().join("test.trace");
    let mut log = TraceLog::create(log_path.to_str().unwrap().to_string(), true);
    let mut file = Vec::new();

    let event = function_call(TraceId::new(), 0, "test_function".to_string(), "test_module", vec![1, 2, 3]);

    let event_id = append(&mut log, &mut file, &event);
    assert_eq!(event_id, 1);
    assert_eq!(log.event_count(), 1);
}

#[test]
fn test_trace_log_read_all() {
    let dir = tempdir().unwrap();
    let log_path = dir.path().join("test.trace");
    let mut log = TraceLog::create(log_path.to_str().unwrap().to_string(), true);
    let mut file = Vec::new();

    let trace_id = TraceId::new();
    for i in 0..10 {
        let event = function_call(trace_id, i, format!("function_{}", i), "test_module", vec![]);
        append(&mut log, &mut file, &event);
    }

    let decoded = TraceLog::decode_events(&file);
    assert_eq!(decoded.error, None);
    let events: Vec<Event> = decoded.payloads.iter().map(|p| deserialize_call(p)).collect();
    assert_eq!(events.len(), 10);
    match &events[3] {
        Event::FunctionCall { function_name, .. } => assert_eq!(function_name, "function_3"),
        _ => panic!("expected a function call"),
    }
}

#[test]
fn test_trace_engine_creation() {
    let dir = tempdir().unwrap();
    let engine = TraceEngine::new(dir.path().to_str().unwrap(), true, 100);
    assert_eq!(engine.event_count(), 0);
}

#[test]
fn test_replay_engine() {
    let dir = tempdir().unwrap();

    // Create a trace
    let mut engine = TraceEngine::new(dir.path().to_str().unwrap(), true, 100);
    let mut file = Vec::new();
    for i in 0..10 {
        let event = function_call(engine.trace_id(), i, format!("func_{}", i), "test", vec![]);
        let frame = engine.prepare_record(&serialize_call(&event)).unwrap();
        file.extend_from_slice(&frame);
        engine.commit_record();
    }

    // Load for replay
    let trace_path = TraceEngine::trace_log_path(dir.path().to_str().unwrap(), engine.trace_id());
    assert_eq!(trace_path, engine.trace_log().path());
    let decoded = TraceLog::decode_events(&file);
    assert_eq!(decoded.error, None);
    let events: Vec<Event> = decoded.payloads.iter().map(|p| deserialize_call(p)).collect();
    let mut replay = ReplayEngine::from_events(TraceLog::open(trace_path, &file), events);

    assert_eq!(replay.total_events(), 10);
    assert_eq!(replay.current_position(), 0);

    // Step forward
    let event = replay.next_event().unwrap();
    assert_eq!(event.metadata().sequence_number, 1);

    // Step backward
    let event = replay.previous_event().unwrap();
    assert_eq!(event.metadata().sequence_number, 1);
}
