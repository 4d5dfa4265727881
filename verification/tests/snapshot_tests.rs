use aevum::event::ProcessId;
use aevum::snapshot::{MemoryDiff, Snapshot, SnapshotManager, SnapshotType};
use aevum::trace_log::LogError;
use std::collections::HashMap;
use tempfile::tempdir;

#[test]
fn test_snapshot_manager_creation() {
    let dir = tempdir().unwrap();
    let manager = SnapshotManager::new(dir.path().to_str().unwrap().to_string(), 100);
    assert_eq!(manager.snapshot_count(), 0);
}

#[test]
fn test_should_snapshot() {
    let dir = tempdir().unwrap();
    let manager = SnapshotManager::new(dir.path().to_str().unwrap().to_string(), 100);

    assert!(!manager.should_snapshot(50));
    assert!(manager.should_snapshot(100));
    assert!(manager.should_snapshot(200));
}

#[test]
fn test_compute_memory_diff() {
    let old = vec![1, 2, 3, 4, 5, 6, 7, 8];
    let new = vec![1, 2, 9, 10, 5, 6, 11, 8];

    let diffs = SnapshotManager::compute_memory_diff(&old, &new, 0x1000);

    assert_eq!(diffs.len(), 2);
    assert_eq!(diffs[0].address, 0x1002);
    assert_eq!(diffs[0].old_value, vec![3, 4]);
    assert_eq!(diffs[0].new_value, vec![9, 10]);
    assert_eq!(diffs[1].address, 0x1006);
    assert_eq!(diffs[1].old_value, vec![7]);
    assert_eq!(diffs[1].new_value, vec![11]);
}

fn apply(image: &mut Vec<u8>, diffs: &[MemoryDiff], base: u64, forward: bool) {
    for d in diffs {
        let bytes = if forward { &d.new_value } else { &d.old_value };
        let start = (d.address - base) as usize;
        image[start..start + bytes.len()].copy_from_slice(bytes);
    }
}

#[test]
fn memory_diff_edges() {
    assert!(SnapshotManager::compute_memory_diff(&[], &[1, 2], 0).is_empty());
    assert!(SnapshotManager::compute_memory_diff(&[1, 2, 3], &[1, 2, 3], 0).is_empty());
    // Only the common prefix is compared.
    let diffs = SnapshotManager::compute_memory_diff(&[1, 2, 3, 4], &[0, 2], 10);
    assert_eq!(diffs.len(), 1);
    assert_eq!(diffs[0].address, 10);
    assert_eq!(diffs[0].old_value, vec![1]);
    // A change that runs to the end of the common part.
    let diffs = SnapshotManager::compute_memory_diff(&[5, 6, 7], &[5, 0, 0, 9], 0);
    assert_eq!(diffs.len(), 1);
    assert_eq!(diffs[0].address, 1);
    assert_eq!(diffs[0].old_value, vec![6, 7]);
    assert_eq!(diffs[0].new_value, vec![0, 0]);
}

#[test]
fn memory_diff_patches_old_into_new_and_back() {
    let old: Vec<u8> = (0..64u32).map(|i| (i * 7 % 13) as u8).collect();
    let mut new = old.clone();
    for i in [0usize, 1, 2, 10, 30, 31, 63] {
        new[i] = new[i].wrapping_add(1);
    }
    let diffs = SnapshotManager::compute_memory_diff(&old, &new, 0x4000);
    assert_eq!(diffs.len(), 4);
    let mut image = old.clone();
    apply(&mut image, &diffs, 0x4000, true);
    assert_eq!(image, new);
    apply(&mut image, &diffs, 0x4000, false);
    assert_eq!(image, old);
}

fn snapshot(sequence_number: u64) -> Snapshot {
    Snapshot {
        sequence_number,
        timestamp_ns: 10 * sequence_number,
        process_id: ProcessId(1),
        snapshot_type: SnapshotType::Delta {
            base_sequence: 0,
            memory_diffs: vec![],
            register_diffs: vec![],
            thread_state_changes: HashMap::new(),
        },
    }
}

#[test]
fn memory_diff_ignores_bytes_past_the_shorter_image() {
    let old = [1u8, 2, 3, 4, 7, 7, 7];
    let new = [1u8, 9, 3, 0];
    let whole = SnapshotManager::compute_memory_diff(&old, &new, 100);
    let common = SnapshotManager::compute_memory_diff(&old[..4], &new[..4], 100);
    assert_eq!(whole.len(), 2);
    assert_eq!(whole.len(), common.len());
    for (a, b) in whole.iter().zip(common.iter()) {
        assert_eq!(a.address, b.address);
        assert_eq!(a.old_value, b.old_value);
        assert_eq!(a.new_value, b.new_value);
    }
    assert_eq!(whole[1].address, 103);
    assert!(SnapshotManager::compute_memory_diff(&[4, 5], &[4, 5, 6, 7], 0).is_empty());
}

#[test]
fn get_snapshot_picks_closest_at_or_before() {
    let mut manager = SnapshotManager::new("snaps".to_string(), 10);
    assert!(manager.get_snapshot(100).is_none());
    manager.record_snapshot(snapshot(10));
    manager.record_snapshot(snapshot(20));
    manager.record_snapshot(snapshot(30));
    assert_eq!(manager.snapshot_count(), 3);
    assert!(manager.get_snapshot(9).is_none());
    assert_eq!(manager.get_snapshot(10).unwrap().sequence_number, 10);
    assert_eq!(manager.get_snapshot(25).unwrap().sequence_number, 20);
    assert_eq!(manager.get_snapshot(1000).unwrap().sequence_number, 30);
}

#[test]
fn get_snapshot_ignores_recording_order() {
    let mut manager = SnapshotManager::new("snaps".to_string(), 10);
    manager.record_snapshot(snapshot(5));
    manager.record_snapshot(snapshot(3));
    manager.record_snapshot(snapshot(12));
    assert_eq!(manager.get_snapshot(10).unwrap().sequence_number, 5);
    assert_eq!(manager.get_snapshot(4).unwrap().sequence_number, 3);
    assert_eq!(manager.get_snapshot(12).unwrap().sequence_number, 12);
    assert!(manager.get_snapshot(2).is_none());
}

#[test]
fn get_snapshot_prefers_the_later_of_equal_sequence_numbers() {
    let mut manager = SnapshotManager::new("snaps".to_string(), 10);
    let mut first = snapshot(5);
    first.timestamp_ns = 1;
    let mut second = snapshot(5);
    second.timestamp_ns = 2;
    manager.record_snapshot(first);
    manager.record_snapshot(snapshot(3));
    assert_eq!(manager.get_snapshot(5).unwrap().timestamp_ns, 1);
    manager.record_snapshot(second);
    assert_eq!(manager.get_snapshot(5).unwrap().timestamp_ns, 2);
    assert_eq!(manager.get_snapshot(9).unwrap().timestamp_ns, 2);
    assert_eq!(manager.get_snapshot(4).unwrap().sequence_number, 3);
}

#[test]
fn snapshot_path_format() {
    let manager = SnapshotManager::new("/tmp/snaps".to_string(), 10);
    assert_eq!(manager.snapshot_path(255), "/tmp/snaps/snapshot_00000000000000ff.snap");
    let manager = SnapshotManager::new("dir/".to_string(), 10);
    assert_eq!(manager.snapshot_path(u64::MAX), "dir/snapshot_ffffffffffffffff.snap");
    let manager = SnapshotManager::new(String::new(), 10);
    assert_eq!(manager.snapshot_path(0), "snapshot_0000000000000000.snap");
    let expected = std::path::Path::new("/a/b").join(format!("snapshot_{:016x}.snap", 48879u64));
    let manager = SnapshotManager::new("/a/b".to_string(), 10);
    assert_eq!(manager.snapshot_path(48879), expected.to_str().unwrap());
}

#[test]
fn snapshot_compression_roundtrip() {
    let data: Vec<u8> = (0..500u32).map(|i| (i % 17) as u8).collect();
    let stored = SnapshotManager::compress_snapshot(&data).unwrap();
    assert_ne!(stored, data);
    assert_eq!(SnapshotManager::decompress_snapshot(&stored).unwrap(), data);
    assert_eq!(SnapshotManager::decompress_snapshot(&[1, 2, 3]).unwrap_err(), LogError::Decompress);
}

#[test]
fn compression_always_succeeds() {
    let empty = SnapshotManager::compress_snapshot(&[]).unwrap();
    assert_eq!(SnapshotManager::decompress_snapshot(&empty).unwrap(), Vec::<u8>::new());
    let noise: Vec<u8> = (0..4096u32).map(|i| (i.wrapping_mul(2654435761) >> 13) as u8).collect();
    let stored = SnapshotManager::compress_snapshot(&noise).unwrap();
    assert_eq!(SnapshotManager::decompress_snapshot(&stored).unwrap(), noise);
    let log = aevum::trace_log::TraceLog::create("t.log".to_string(), true);
    let frame = log.encode_event(&noise).unwrap();
    assert_eq!(frame[4], 1);
    let decoded = aevum::trace_log::TraceLog::decode_events(&frame);
    assert_eq!(decoded.payloads, vec![noise]);
}
