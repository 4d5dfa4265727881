use aevum::trace_log::{count_records, encode_frame, scan_frames, LogError, TraceLog};

#[test]
fn frame_layout() {
    let f = encode_frame(&[9, 8, 7], false);
    assert_eq!(f, vec![3, 0, 0, 0, 0, 9, 8, 7]);
    let f = encode_frame(&[], true);
    assert_eq!(f, vec![0, 0, 0, 0, 1]);
    let payload = vec![0xabu8; 300];
    let f = encode_frame(&payload, false);
    assert_eq!(&f[..5], &[44, 1, 0, 0, 0]);
    assert_eq!(f.len(), 305);
}

#[test]
fn frames_read_back() {
    let mut bytes = encode_frame(&[1, 2], false);
    bytes.extend(encode_frame(&[], true));
    bytes.extend(encode_frame(&[3; 70], false));
    let scan = scan_frames(&bytes);
    assert_eq!(scan.error, None);
    assert_eq!(scan.frames.len(), 3);
    assert_eq!(scan.frames[0].data, vec![1, 2]);
    assert!(!scan.frames[0].compressed);
    assert!(scan.frames[1].compressed);
    assert!(scan.frames[1].data.is_empty());
    assert_eq!(scan.frames[2].data, vec![3; 70]);
    assert_eq!(count_records(&bytes), 3);
}

#[test]
fn frame_reading_errors() {
    let good = encode_frame(&[1, 2, 3], false);
    // A partial length ends the log quietly.
    let mut bytes = good.clone();
    bytes.extend([5, 0]);
    let scan = scan_frames(&bytes);
    assert_eq!(scan.error, None);
    assert_eq!(scan.frames.len(), 1);
    assert_eq!(count_records(&bytes), 1);
    // A length with no flag byte.
    let mut bytes = good.clone();
    bytes.extend([5, 0, 0, 0]);
    let scan = scan_frames(&bytes);
    assert_eq!(scan.error, Some(LogError::MissingFlag));
    assert_eq!(scan.frames.len(), 1);
    assert_eq!(count_records(&bytes), 2);
    // A payload shorter than its length.
    let mut bytes = good.clone();
    bytes.extend([5, 0, 0, 0, 0, 1, 2]);
    let scan = scan_frames(&bytes);
    assert_eq!(scan.error, Some(LogError::TruncatedData));
    assert_eq!(scan.frames.len(), 1);
    assert_eq!(count_records(&bytes), 2);
    assert_eq!(count_records(&[]), 0);
}

#[test]
fn log_reads_back_appended_events() {
    for compress in [false, true] {
        let mut log = TraceLog::create("trace.log".to_string(), compress);
        let events: Vec<Vec<u8>> = vec![vec![1, 2, 3], vec![], (0..200u32).map(|i| (i % 5) as u8).collect()];
        let mut file = Vec::new();
        for (k, e) in events.iter().enumerate() {
            let frame = log.encode_event(e).unwrap();
            file.extend(frame);
            assert_eq!(log.record_appended(), k as u64 + 1);
        }
        assert_eq!(log.event_count(), 3);
        let decoded = TraceLog::decode_events(&file);
        assert_eq!(decoded.error, None);
        assert_eq!(decoded.payloads, events);
        let reopened = TraceLog::open("trace.log".to_string(), &file);
        assert_eq!(reopened.event_count(), 3);
        assert!(reopened.compress());
        assert_eq!(reopened.path(), "trace.log");
    }
}

#[test]
fn log_decompression_error_keeps_earlier_events() {
    let mut file = encode_frame(&[4, 4], false);
    file.extend(encode_frame(&[1, 2, 3], true));
    file.extend(encode_frame(&[5], false));
    let decoded = TraceLog::decode_events(&file);
    assert_eq!(decoded.payloads, vec![vec![4, 4]]);
    assert_eq!(decoded.error, Some(LogError::Decompress));
    assert_eq!(LogError::Decompress.message(), "Failed to decompress event");
}
