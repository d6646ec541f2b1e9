use std::time::Instant;
use ternary_reassembly::{Duration, FragmentBuffer, FragmentStatus, MessageBuffer};

fn wait_at_least(d: std::time::Duration) {
    let start = Instant::now();
    while start.elapsed() < d {}
}

#[test]
fn status_values_are_ternary() {
    assert_eq!(FragmentStatus::Complete.value(), 1);
    assert_eq!(FragmentStatus::Pending.value(), 0);
    assert_eq!(FragmentStatus::Missing.value(), -1);
}

#[test]
fn duration_constructors() {
    assert_eq!(Duration::from_secs(2).as_nanos(), 2_000_000_000);
    assert_eq!(Duration::from_millis(3).as_nanos(), 3_000_000);
    assert_eq!(Duration::from_nanos(7).as_nanos(), 7);
    assert_eq!(Duration::zero().as_nanos(), 0);
    assert_eq!(Duration::from_secs(u64::MAX).as_nanos(), (u64::MAX as u128) * 1_000_000_000);
}

#[test]
fn new_message_is_pending_and_numbered() {
    let m = MessageBuffer::new(9, 3, Duration::from_secs(1));
    assert_eq!(m.message_id, 9);
    assert_eq!(m.total_fragments, 3);
    assert_eq!(m.fragments.len(), 3);
    for (i, f) in m.fragments.iter().enumerate() {
        assert_eq!(f.index, i);
        assert_eq!(f.status, FragmentStatus::Pending);
        assert!(f.data.is_none());
        assert_eq!(f.last_updated, Duration::zero());
    }
    assert!(m.completed_at.is_none());
    assert_eq!(m.ternary_status(), FragmentStatus::Pending);
    assert_eq!(m.pending_indices(), vec![0, 1, 2]);
    assert!(m.gaps().is_empty());
}

#[test]
fn empty_message_is_complete_and_reassembles_to_nothing() {
    let m = MessageBuffer::new(1, 0, Duration::from_secs(1));
    assert!(m.is_complete());
    assert_eq!(m.ternary_status(), FragmentStatus::Complete);
    assert_eq!(m.reassemble(), Some(vec![]));
    let p = m.progress();
    assert_eq!(p.contiguous_front, 0);
    assert_eq!(p.complete_count, 0);
}

#[test]
fn mark_complete_at_records_time_and_completion() {
    let mut m = MessageBuffer::new(5, 2, Duration::from_secs(1));
    m.mark_complete_at(1, vec![2, 3], Duration::from_nanos(10)).unwrap();
    assert_eq!(m.fragments[1].status, FragmentStatus::Complete);
    assert_eq!(m.fragments[1].data, Some(vec![2, 3]));
    assert_eq!(m.fragments[1].last_updated, Duration::from_nanos(10));
    assert!(m.completed_at.is_none());
    m.mark_complete_at(0, vec![1], Duration::from_nanos(25)).unwrap();
    assert_eq!(m.completed_at, Some(Duration::from_nanos(25)));
    assert_eq!(m.reassemble(), Some(vec![1, 2, 3]));
}

#[test]
fn out_of_range_errors_name_the_cause() {
    let mut m = MessageBuffer::new(5, 2, Duration::from_secs(1));
    assert_eq!(m.mark_complete(2, vec![1]), Err("fragment index out of range"));
    assert_eq!(m.mark_missing(7), Err("fragment index out of range"));
    assert_eq!(m.mark_complete_at(2, vec![1], Duration::zero()), Err("fragment index out of range"));
    assert_eq!(m.mark_missing_at(2, Duration::zero()), Err("fragment index out of range"));
    assert_eq!(m.ternary_status(), FragmentStatus::Pending);
    let mut buf = FragmentBuffer::new(Duration::from_secs(1));
    assert_eq!(buf.mark_fragment_complete(3, 0, vec![1]), Err("message not found"));
    assert_eq!(buf.mark_fragment_missing(3, 0), Err("message not found"));
    buf.create_message(3, 1);
    assert_eq!(buf.mark_fragment_complete(3, 1, vec![1]), Err("fragment index out of range"));
    assert_eq!(buf.mark_fragment_missing(3, 1), Err("fragment index out of range"));
}

#[test]
fn missing_fragment_keeps_its_data_and_can_arrive_again() {
    let mut m = MessageBuffer::new(5, 2, Duration::from_secs(1));
    m.mark_complete_at(0, vec![4], Duration::from_nanos(1)).unwrap();
    m.mark_missing_at(0, Duration::from_nanos(2)).unwrap();
    assert_eq!(m.fragments[0].status, FragmentStatus::Missing);
    assert_eq!(m.fragments[0].data, Some(vec![4]));
    assert_eq!(m.fragments[0].last_updated, Duration::from_nanos(2));
    assert_eq!(m.ternary_status(), FragmentStatus::Missing);
    assert_eq!(m.gaps(), vec![0]);
    m.mark_complete_at(0, vec![5], Duration::from_nanos(3)).unwrap();
    m.mark_complete_at(1, vec![6], Duration::from_nanos(4)).unwrap();
    assert_eq!(m.reassemble(), Some(vec![5, 6]));
}

#[test]
fn completion_time_is_kept_after_a_later_missing_report() {
    let mut m = MessageBuffer::new(5, 1, Duration::zero());
    m.mark_complete_at(0, vec![1], Duration::from_nanos(8)).unwrap();
    assert!(!m.is_expired_after(Duration::from_secs(100)));
    m.mark_missing_at(0, Duration::from_nanos(9)).unwrap();
    assert_eq!(m.completed_at, Some(Duration::from_nanos(8)));
    assert_eq!(m.ternary_status(), FragmentStatus::Missing);
    // Incomplete again, so past its time to live it expires.
    assert!(m.is_expired_after(Duration::from_secs(100)));
    wait_at_least(std::time::Duration::from_millis(2));
    assert!(m.is_expired());
}

#[test]
fn a_message_without_fragments_never_expires() {
    let m = MessageBuffer::new(5, 0, Duration::zero());
    assert!(!m.is_expired_after(Duration::from_secs(100)));
    wait_at_least(std::time::Duration::from_millis(2));
    assert!(!m.is_expired());
}

#[test]
fn expiry_after_an_elapsed_time() {
    let m = MessageBuffer::new(5, 1, Duration::from_nanos(100));
    assert!(!m.is_expired_after(Duration::from_nanos(100)));
    assert!(m.is_expired_after(Duration::from_nanos(101)));
}

#[test]
fn the_clock_moves_between_creation_and_marking() {
    let mut m = MessageBuffer::new(5, 2, Duration::zero());
    wait_at_least(std::time::Duration::from_millis(5));
    assert!(m.is_expired());
    m.mark_complete(0, vec![1]).unwrap();
    assert!(m.fragments[0].last_updated.as_nanos() >= 5_000_000);
    m.mark_missing(1).unwrap();
    assert!(m.fragments[1].last_updated.as_nanos() >= 5_000_000);
}

#[test]
fn counts_partition_the_fragments() {
    let mut m = MessageBuffer::new(5, 6, Duration::from_secs(1));
    m.mark_complete_at(0, vec![0], Duration::zero()).unwrap();
    m.mark_complete_at(1, vec![1], Duration::zero()).unwrap();
    m.mark_complete_at(4, vec![4], Duration::zero()).unwrap();
    m.mark_missing_at(2, Duration::zero()).unwrap();
    m.mark_missing_at(5, Duration::zero()).unwrap();
    let p = m.progress();
    assert_eq!(p.contiguous_front, 2);
    assert_eq!(p.complete_count, 3);
    assert_eq!(p.pending_count, 1);
    assert_eq!(p.missing_count, 2);
    assert_eq!(p.complete_count + p.pending_count + p.missing_count, m.total_fragments);
    assert!(p.contiguous_front <= p.complete_count);
    assert_eq!(m.gaps(), vec![2, 5]);
    assert_eq!(m.pending_indices(), vec![3]);
}

#[test]
fn arrivals_out_of_order_reassemble_in_index_order() {
    let mut buf = FragmentBuffer::new(Duration::from_secs(60));
    assert_eq!(buf.active_count(), 0);
    buf.create_message(42, 4);
    assert_eq!(buf.active_count(), 1);
    assert_eq!(buf.message_status(42), Some(FragmentStatus::Pending));
    buf.mark_fragment_complete(42, 0, vec![0xDE]).unwrap();
    buf.mark_fragment_complete(42, 2, vec![0xAD]).unwrap();
    buf.mark_fragment_missing(42, 1).unwrap();
    let prog = buf.progress(42).unwrap();
    assert_eq!(prog.contiguous_front, 1);
    assert_eq!(prog.complete_count, 2);
    assert_eq!(prog.missing_count, 1);
    assert_eq!(buf.finalize(42), None);
    buf.mark_fragment_complete(42, 1, vec![0xBE]).unwrap();
    buf.mark_fragment_complete(42, 3, vec![0xEF]).unwrap();
    let data = buf.finalize(42).unwrap();
    assert_eq!(data, vec![0xDE, 0xBE, 0xAD, 0xEF]);
    assert_eq!(buf.active_count(), 0);
    assert_eq!(buf.finalize(42), None);
}

#[test]
fn create_message_keeps_an_existing_message() {
    let mut buf = FragmentBuffer::new(Duration::from_secs(60));
    let first = buf.create_message(7, 2);
    assert_eq!(first.total_fragments, 2);
    assert_eq!(first.ttl, Duration::from_secs(60));
    buf.mark_fragment_complete(7, 0, vec![1]).unwrap();
    let again = buf.create_message_with_ttl(7, 5, Duration::from_secs(1));
    assert_eq!(again.total_fragments, 2);
    assert_eq!(again.ttl, Duration::from_secs(60));
    assert_eq!(again.fragments[0].status, FragmentStatus::Complete);
    assert_eq!(buf.active_count(), 1);
}

#[test]
fn queries_on_unknown_messages_give_none() {
    let buf = FragmentBuffer::new(Duration::from_secs(60));
    assert!(buf.message_status(1).is_none());
    assert!(buf.gaps(1).is_none());
    assert!(buf.progress(1).is_none());
    assert!(buf.message(1).is_none());
    assert_eq!(buf.active_count(), 0);
}

#[test]
fn expire_with_given_elapsed_times() {
    let mut buf = FragmentBuffer::new(Duration::from_nanos(100));
    buf.create_message(1, 2);
    buf.create_message(2, 2);
    buf.create_message(3, 1);
    buf.mark_fragment_complete(2, 0, vec![9]).unwrap();
    buf.mark_fragment_complete(3, 0, vec![9]).unwrap();
    let readings = vec![
        (1, Duration::from_nanos(150)),
        (2, Duration::from_nanos(250)),
        (3, Duration::from_nanos(500)),
        (4, Duration::from_nanos(900)),
        (1, Duration::from_nanos(160)),
    ];
    let expired = buf.expire_with_elapsed(&readings);
    assert_eq!(expired, vec![1, 2]);
    assert_eq!(buf.active_count(), 1);
    assert!(buf.expire_with_elapsed(&readings).is_empty());
    assert_eq!(buf.active_count(), 1);
    assert_eq!(buf.message_status(3), Some(FragmentStatus::Complete));
    let stats = buf.stats();
    assert_eq!(stats.total_messages, 2);
    assert_eq!(stats.completed_messages, 0);
    assert_eq!(stats.expired_messages, 2);
    assert_eq!(stats.average_reassembly_time, Duration::zero());
}

#[test]
fn expire_leaves_fresh_messages_alone() {
    let mut buf = FragmentBuffer::new(Duration::from_secs(600));
    buf.create_message(1, 2);
    assert!(buf.expire().is_empty());
    assert_eq!(buf.active_count(), 1);
}

#[test]
fn expire_never_gives_up_a_complete_message() {
    let mut buf = FragmentBuffer::new(Duration::zero());
    buf.create_message(1, 1);
    buf.create_message(2, 1);
    buf.mark_fragment_complete(1, 0, vec![1]).unwrap();
    wait_at_least(std::time::Duration::from_millis(2));
    assert_eq!(buf.expire(), vec![2]);
    assert_eq!(buf.active_count(), 1);
    assert_eq!(buf.finalize(1), Some(vec![1]));
}

#[test]
fn stats_average_is_taken_over_finished_messages() {
    let mut buf = FragmentBuffer::new(Duration::from_secs(60));
    let empty = buf.stats();
    assert_eq!(empty.total_messages, 0);
    assert_eq!(empty.average_reassembly_time, Duration::zero());
    buf.create_message(1, 1);
    buf.create_message(2, 1);
    buf.create_message(3, 1);
    buf.mark_fragment_complete(1, 0, vec![1]).unwrap();
    buf.mark_fragment_complete(2, 0, vec![2]).unwrap();
    let t1 = buf.message(1).unwrap().completed_at.unwrap();
    let t2 = buf.message(2).unwrap().completed_at.unwrap();
    buf.finalize(1).unwrap();
    buf.finalize(2).unwrap();
    buf.expire_with_elapsed(&vec![(3, Duration::from_secs(61))]);
    let stats = buf.stats();
    assert_eq!(stats.total_messages, 3);
    assert_eq!(stats.completed_messages, 2);
    assert_eq!(stats.expired_messages, 1);
    assert_eq!(stats.average_reassembly_time.as_nanos(), (t1.as_nanos() + t2.as_nanos()) / 2);
}

#[test]
fn messages_without_fragments_finalize_at_once() {
    let mut buf = FragmentBuffer::new(Duration::from_secs(60));
    for id in 0..3u64 {
        buf.create_message(id, 0);
        buf.finalize(id).unwrap();
    }
    let stats = buf.stats();
    assert_eq!(stats.completed_messages, 3);
    assert!(stats.average_reassembly_time.as_nanos() < 60_000_000_000);
}
