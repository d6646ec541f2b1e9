use std::time::Instant;
use ternary_reassembly::{Duration, FragmentBuffer, FragmentStatus};

fn wait_at_least(d: std::time::Duration) {
    let start = Instant::now();
    while start.elapsed() < d {}
}

#[test]
fn test_create_message_and_initial_status() {
    let mut buf = FragmentBuffer::new(Duration::from_secs(60));
    buf.create_message(1, 4);
    assert_eq!(buf.message_status(1), Some(FragmentStatus::Pending));
    let prog = buf.progress(1).unwrap();
    assert_eq!(prog.complete_count, 0);
    assert_eq!(prog.pending_count, 4);
    assert_eq!(prog.missing_count, 0);
}

#[test]
fn test_complete_all_fragments() {
    let mut buf = FragmentBuffer::new(Duration::from_secs(60));
    buf.create_message(10, 3);
    buf.mark_fragment_complete(10, 0, vec![1]).unwrap();
    buf.mark_fragment_complete(10, 1, vec![2]).unwrap();
    buf.mark_fragment_complete(10, 2, vec![3]).unwrap();
    assert_eq!(buf.message_status(10), Some(FragmentStatus::Complete));
    let data = buf.finalize(10).unwrap();
    assert_eq!(data, vec![1, 2, 3]);
}

#[test]
fn test_mark_missing_and_gaps() {
    let mut buf = FragmentBuffer::new(Duration::from_secs(60));
    buf.create_message(20, 5);
    buf.mark_fragment_complete(20, 0, vec![0xA]).unwrap();
    buf.mark_fragment_missing(20, 2).unwrap();
    buf.mark_fragment_missing(20, 4).unwrap();
    let gaps = buf.gaps(20).unwrap();
    assert_eq!(gaps, vec![2, 4]);
    assert_eq!(buf.message_status(20), Some(FragmentStatus::Missing));
}

#[test]
fn test_forward_progress_contiguous() {
    let mut buf = FragmentBuffer::new(Duration::from_secs(60));
    buf.create_message(30, 6);
    buf.mark_fragment_complete(30, 0, vec![1]).unwrap();
    buf.mark_fragment_complete(30, 1, vec![2]).unwrap();
    buf.mark_fragment_complete(30, 2, vec![3]).unwrap();
    // index 3 is still pending, so contiguous breaks
    let prog = buf.progress(30).unwrap();
    assert_eq!(prog.contiguous_front, 3);
    assert_eq!(prog.complete_count, 3);
    assert_eq!(prog.pending_count, 3);
}

#[test]
fn test_forward_progress_non_contiguous() {
    let mut buf = FragmentBuffer::new(Duration::from_secs(60));
    buf.create_message(31, 4);
    buf.mark_fragment_complete(31, 0, vec![1]).unwrap();
    buf.mark_fragment_complete(31, 3, vec![4]).unwrap(); // gap at 1,2
    let prog = buf.progress(31).unwrap();
    assert_eq!(prog.contiguous_front, 1); // only index 0 is contiguous
    assert_eq!(prog.complete_count, 2);
}

#[test]
fn test_ttl_expiry() {
    let ttl = Duration::from_millis(50);
    let mut buf = FragmentBuffer::new(ttl);
    buf.create_message_with_ttl(40, 3, ttl);
    buf.mark_fragment_complete(40, 0, vec![1]).unwrap();
    wait_at_least(std::time::Duration::from_millis(80));
    let expired = buf.expire();
    assert_eq!(expired, vec![40]);
    assert!(buf.message_status(40).is_none());
    assert_eq!(buf.active_count(), 0);
}

#[test]
fn test_statistics() {
    let mut buf = FragmentBuffer::new(Duration::from_secs(60));
    // Complete one message.
    buf.create_message(50, 2);
    buf.mark_fragment_complete(50, 0, vec![1]).unwrap();
    buf.mark_fragment_complete(50, 1, vec![2]).unwrap();
    buf.finalize(50);
    // Expire one message.
    buf.create_message_with_ttl(51, 2, Duration::from_millis(10));
    buf.mark_fragment_complete(51, 0, vec![1]).unwrap();
    wait_at_least(std::time::Duration::from_millis(30));
    buf.expire();

    let stats = buf.stats();
    assert_eq!(stats.total_messages, 2);
    assert_eq!(stats.completed_messages, 1);
    assert_eq!(stats.expired_messages, 1);
    let completion_rate = stats.completed_messages as f64 / stats.total_messages as f64;
    assert!((completion_rate - 0.5).abs() < f64::EPSILON);
}

#[test]
fn test_out_of_range_fragment() {
    let mut buf = FragmentBuffer::new(Duration::from_secs(60));
    buf.create_message(60, 3);
    assert!(buf.mark_fragment_complete(60, 5, vec![1]).is_err());
    assert!(buf.mark_fragment_missing(60, 99).is_err());
}

#[test]
fn test_partial_reassemble_returns_none() {
    let mut buf = FragmentBuffer::new(Duration::from_secs(60));
    buf.create_message(70, 3);
    buf.mark_fragment_complete(70, 0, vec![1]).unwrap();
    buf.mark_fragment_complete(70, 2, vec![3]).unwrap();
    // Not all complete; reassemble returns None
    let msg = buf.message(70).unwrap();
    assert!(msg.reassemble().is_none());
}
