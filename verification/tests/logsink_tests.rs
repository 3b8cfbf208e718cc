use dozer_core::logsink::{frame_message, read_frame, LogProgress, LogSinkSettings};

#[test]
fn test_frame_layout() {
    let framed = frame_message(&vec![1, 2, 3]);
    assert_eq!(framed, vec![3, 0, 0, 0, 0, 0, 0, 0, 1, 2, 3]);
}

#[test]
fn test_frame_round_trip() {
    let framed = frame_message(&vec![9, 9, 9, 9]);
    let (payload, next) = read_frame(&framed, 0).unwrap();
    assert_eq!(payload, vec![9, 9, 9, 9]);
    assert_eq!(next, 12);
}

#[test]
fn test_read_two_frames() {
    let mut buf = frame_message(&vec![1]);
    buf.extend_from_slice(&frame_message(&vec![2, 3]));
    let (p1, pos) = read_frame(&buf, 0).unwrap();
    assert_eq!(p1, vec![1]);
    let (p2, end) = read_frame(&buf, pos).unwrap();
    assert_eq!(p2, vec![2, 3]);
    assert_eq!(end, buf.len());
    assert!(read_frame(&buf, end).is_none());
}

#[test]
fn test_read_frame_truncated() {
    // too short for a length prefix
    assert!(read_frame(&vec![1, 2, 3], 0).is_none());
    // the length promises more bytes than the buffer holds
    let mut framed = frame_message(&vec![5, 5, 5]);
    framed.pop();
    assert!(read_frame(&framed, 0).is_none());
}

#[test]
fn test_progress_notifies_every_thousand() {
    let mut p = LogProgress::new();
    let mut notified = 0;
    for _ in 0..2000 {
        if p.record_op() {
            notified += 1;
        }
    }
    assert_eq!(p.counter, 2000);
    assert_eq!(notified, 2);
}

#[test]
fn test_settings_hold_capacity() {
    let s = LogSinkSettings { file_buffer_capacity: 4096 };
    assert_eq!(s.clone().file_buffer_capacity, 4096);
}
