use aevum::engine::TraceEngine;
use aevum::event::TraceId;
use aevum::text::{hex_string, join_path, uuid_string};

#[test]
fn hex_text() {
    assert_eq!(hex_string(0xbeef, 4), "beef");
    assert_eq!(hex_string(0xbeef, 6), "00beef");
    assert_eq!(hex_string(0xbeef, 2), "ef");
    assert_eq!(hex_string(5, 0), "");
}

#[test]
fn uuid_text_matches_uuid_display() {
    for v in [0u128, 1, 0x0123_4567_89ab_cdef_0011_2233_4455_6677, u128::MAX] {
        assert_eq!(uuid_string(v), uuid::Uuid::from_u128(v).to_string());
    }
    let id = TraceId::new();
    assert_eq!(uuid_string(id.0), uuid::Uuid::from_u128(id.0).to_string());
}

#[test]
fn path_joining() {
    assert_eq!(join_path("/tmp", "a.log"), "/tmp/a.log");
    assert_eq!(join_path("/tmp/", "a.log"), "/tmp/a.log");
    assert_eq!(join_path("", "a.log"), "a.log");
    assert_eq!(join_path(".", "a.log"), std::path::Path::new(".").join("a.log").to_str().unwrap());
}

#[test]
fn engine_paths_and_counts() {
    let mut engine = TraceEngine::new("/traces", true, 2);
    let id = uuid::Uuid::from_u128(engine.trace_id().0);
    assert_eq!(engine.trace_log().path(), format!("/traces/trace_{}.log", id));
    assert_eq!(TraceEngine::snapshot_dir_path("/traces", engine.trace_id()), format!("/traces/snapshots_{}", id));
    assert_eq!(engine.event_count(), 0);
    assert_eq!(engine.snapshot_manager().snapshot_count(), 0);
    let frame = engine.prepare_record(&[1, 2, 3]).unwrap();
    assert_eq!(frame[4], 1);
    assert_eq!(engine.commit_record(), (1, false));
    assert_eq!(engine.commit_record(), (2, true));
    assert_eq!(engine.event_count(), 2);
}
