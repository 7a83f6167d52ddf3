use bytes::Bytes;
use rumq_broker::codec::{Publish, QoS};
use rumq_broker::router::{CommitLog, Segment};

fn publish(topic: &str, qos: QoS, payload: Vec<u8>) -> Publish {
    Publish::new(topic, qos, payload)
}

#[test]
fn filled_segment_returns_correct_offset() {
    let mut segment = Segment::new(0, 1024 * 3).unwrap();
    let payload = vec![0; 1024];

    let publish = publish("hello/world", QoS::AtLeastOnce, payload);

    assert!(segment.fill(publish.clone()).is_none());
    assert!(segment.fill(publish.clone()).is_none());

    match segment.fill(publish.clone()) {
        Some(offset) => assert_eq!(2, offset),
        None => panic!("Segment should've been full by now"),
    }
}

#[test]
fn commit_log_fills_correctly() {
    // 10 segments. Each segment size = 10K
    let mut commitlog = CommitLog::new(10 * 1024, 10).unwrap();

    let payload = vec![0; 1024];
    let publish = publish("hello/world", QoS::AtLeastOnce, payload);

    // fill 1000 1k publishes
    for _ in 0..1000 {
        commitlog.fill(publish.clone()).unwrap()
    }

    assert_eq!(commitlog.segment_count("hello/world"), Some(10));
}

#[test]
fn commitlog_returns_data_and_offset_correctly() {
    // max 10 segments. Each segment size = 10K. Max 100KB in total
    let mut commitlog = CommitLog::new(10 * 1024, 10).unwrap();

    let o = commitlog.get("hello/world", 0, 0, 10);
    assert!(o.is_none());

    let payload = vec![0; 1024];
    let publish = publish("hello/world", QoS::AtLeastOnce, payload);

    // fill 100 1k publishes. distibuted as 10 segments with size 10K each
    // deletes segment 0 when segment 9 is completely full and inserts an empty segment 10.
    // So segments 1..10 from indexes 0..9
    for _ in 0..100 {
        commitlog.fill(publish.clone()).unwrap()
    }

    // go past the segments boundary
    let o = commitlog.get("hello/world", 12, 0, 10);
    assert!(o.is_none());

    let o = commitlog.get("hello/world", 0, 0, 10).unwrap();
    assert_eq!(o.segment_id, 1);
    assert_eq!(o.log_offset, 9);

    let o = commitlog.get("hello/world", o.segment_id, o.log_offset + 1, 10).unwrap();
    assert_eq!(o.segment_id, 2);
    assert_eq!(o.log_offset, 9);

    // cross the boundary
    let o = commitlog.get("hello/world", o.segment_id, o.log_offset + 1, 15).unwrap();
    assert_eq!(o.segment_id, 4);
    assert_eq!(o.log_offset, 4);

    // go to the end
    let o = commitlog.get("hello/world", o.segment_id, o.log_offset + 1, 1000).unwrap();
    assert_eq!(o.segment_id, 9);
    assert_eq!(o.log_offset, 9);
}

#[test]
fn segment_at_a_given_time_is_empty() {
    let segment = Segment::at(7, 100, 1234);
    assert_eq!(segment.id, 7);
    assert_eq!(segment.max_size, 100);
    assert_eq!(segment.current_size, 0);
    assert_eq!(segment.timestamp, 1234);
    assert!(segment.packets.is_empty());
}

#[test]
fn segment_made_now_carries_the_time_since_the_epoch() {
    let segment = Segment::new(3, 10).unwrap();
    // later than the first of January 2020, in milliseconds
    assert!(segment.timestamp > 1_577_836_800_000);
    assert_eq!(segment.id, 3);
}

#[test]
fn all_publishes_are_read_back_in_order() {
    let mut commitlog = CommitLog::new(4, 1000).unwrap();
    for i in 0..50u8 {
        commitlog.fill_at(publish("t", QoS::AtMostOnce, vec![i, i]), 5).unwrap();
    }
    // every second publish fills a segment of four bytes: 25 full ones, and the
    // empty one that was started after the last of them
    assert_eq!(commitlog.segment_count("t"), Some(26));
    let all = commitlog.get("t", 0, 0, 50).unwrap();
    assert_eq!(all.packets.len(), 50);
    for (i, p) in all.packets.iter().enumerate() {
        assert_eq!(p.payload, Bytes::from(vec![i as u8, i as u8]));
    }
    assert_eq!((all.segment_id, all.log_offset), (24, 1));
    assert!(commitlog.get("t", 24, 2, 50).is_none());
    assert!(commitlog.get("t", 25, 0, 50).is_none());
    assert!(commitlog.get("t", 0, 0, 0).is_none());
}

#[test]
fn reading_goes_on_where_the_last_batch_ended() {
    let mut commitlog = CommitLog::new(3, 1000).unwrap();
    for i in 0..20u8 {
        commitlog.fill_at(publish("t", QoS::AtMostOnce, vec![i]), 5).unwrap();
    }
    let mut cursor = (0u64, 0usize);
    let mut seen = Vec::new();
    while let Some(batch) = commitlog.get("t", cursor.0, cursor.1, 7) {
        assert!(batch.packets.len() <= 7);
        seen.extend(batch.packets.iter().map(|p| p.payload[0]));
        cursor = (batch.segment_id, batch.log_offset + 1);
    }
    assert_eq!(seen, (0..20u8).collect::<Vec<u8>>());
}

#[test]
fn the_oldest_segment_leaves_and_the_tail_stays() {
    let mut commitlog = CommitLog::new(2, 3).unwrap();
    for i in 0..10u8 {
        commitlog.fill_at(publish("t", QoS::AtMostOnce, vec![i]), 5).unwrap();
    }
    // segments of two publishes each: 0..=4 were full, three are kept
    assert_eq!(commitlog.segment_count("t"), Some(3));
    let rest = commitlog.get("t", 0, 0, 100).unwrap();
    let payloads: Vec<u8> = rest.packets.iter().map(|p| p.payload[0]).collect();
    assert_eq!(payloads, vec![6, 7, 8, 9]);
    assert_eq!((rest.segment_id, rest.log_offset), (4, 1));
    // a cursor into a segment that is gone reads from the first that is left
    let stale = commitlog.get("t", 1, 1, 2).unwrap();
    let payloads: Vec<u8> = stale.packets.iter().map(|p| p.payload[0]).collect();
    assert_eq!(payloads, vec![6, 7]);
    assert_eq!((stale.segment_id, stale.log_offset), (3, 1));
}

#[test]
fn segment_ids_are_shared_by_the_topics() {
    let mut commitlog = CommitLog::new(1, 10).unwrap();
    commitlog.fill_at(publish("x", QoS::AtMostOnce, vec![1]), 5).unwrap();
    commitlog.fill_at(publish("y", QoS::AtMostOnce, vec![2]), 5).unwrap();
    commitlog.fill_at(publish("x", QoS::AtMostOnce, vec![3]), 5).unwrap();
    assert_eq!(commitlog.current_segment_id, 3);
    // x holds the segments 0, 1 and 3, of which 3 is empty; y holds 0 and 2
    assert_eq!(commitlog.segment_count("x"), Some(3));
    assert_eq!(commitlog.segment_count("y"), Some(2));
    let batch = commitlog.get("x", 1, 0, 10).unwrap();
    assert_eq!(batch.packets.len(), 1);
    assert_eq!(batch.packets[0].payload, Bytes::from(vec![3]));
    assert_eq!((batch.segment_id, batch.log_offset), (1, 0));
    // a cursor at the id 2, which x never had, reads from segment 3 on
    assert!(commitlog.get("x", 2, 0, 10).is_none());
    assert!(commitlog.get("z", 0, 0, 10).is_none());
}

#[test]
fn retained_publish_is_kept_replaced_and_cleared() {
    let mut commitlog = CommitLog::new(100, 10).unwrap();
    let mut first = publish("t", QoS::AtMostOnce, vec![1]);
    first.retain = true;
    commitlog.fill_at(first, 5).unwrap();
    commitlog.fill_at(publish("t", QoS::AtMostOnce, vec![2]), 5).unwrap();
    assert_eq!(commitlog.retained.entries.len(), 1);
    assert_eq!(commitlog.retained.entries[0].1.payload, Bytes::from(vec![1]));

    let mut second = publish("t", QoS::AtMostOnce, vec![3]);
    second.retain = true;
    commitlog.fill_at(second, 5).unwrap();
    assert_eq!(commitlog.retained.entries.len(), 1);
    assert_eq!(commitlog.retained.entries[0].1.payload, Bytes::from(vec![3]));

    let mut clear = publish("t", QoS::AtMostOnce, vec![]);
    clear.retain = true;
    commitlog.fill_at(clear, 5).unwrap();
    assert!(commitlog.retained.entries.is_empty());
    // the log itself holds all four
    assert_eq!(commitlog.get("t", 0, 0, 10).unwrap().packets.len(), 4);
}

#[test]
fn exhausted_segment_ids_refuse_the_publish() {
    let mut commitlog = CommitLog::new(100, 10).unwrap();
    commitlog.current_segment_id = u64::MAX;
    let refused = commitlog.fill_at(publish("t", QoS::AtMostOnce, vec![1]), 5);
    assert!(matches!(refused, Err(rumq_broker::router::commitlog::Error::SegmentIds)));
    assert_eq!(commitlog.segment_count("t"), None);
}

#[test]
fn log_without_segment_ids_left_refuses_whatever_the_clock_says() {
    let mut commitlog = CommitLog::new(100, 10).unwrap();
    commitlog.fill(publish("t", QoS::AtMostOnce, vec![1])).unwrap();
    commitlog.current_segment_id = u64::MAX;
    let refused = commitlog.fill(publish("t", QoS::AtMostOnce, vec![2]));
    assert!(matches!(refused, Err(rumq_broker::router::commitlog::Error::SegmentIds)));
    assert_eq!(commitlog.get("t", 0, 0, 10).unwrap().packets.len(), 1);
    assert_eq!(commitlog.current_segment_id, u64::MAX);
}

#[test]
fn publish_starts_a_segment_on_a_new_topic_or_a_full_segment() {
    let mut commitlog = CommitLog::new(10, 4).unwrap();
    let small = publish("t", QoS::AtMostOnce, vec![0; 4]);
    assert!(commitlog.starts_segment(&small));
    commitlog.fill(small.clone()).unwrap();
    assert_eq!(commitlog.segment_count("t"), Some(1));
    // 4 + 4 bytes are under the size of a segment, 8 + 4 are not
    assert!(!commitlog.starts_segment(&small));
    commitlog.fill(small.clone()).unwrap();
    assert_eq!(commitlog.segment_count("t"), Some(1));
    assert!(commitlog.starts_segment(&small));
    assert!(!commitlog.starts_segment(&publish("t", QoS::AtMostOnce, vec![0; 1])));
    assert!(commitlog.starts_segment(&publish("u", QoS::AtMostOnce, vec![])));
    commitlog.fill(small.clone()).unwrap();
    assert_eq!(commitlog.segment_count("t"), Some(2));
    assert!(!commitlog.starts_segment(&small));
    assert_eq!(commitlog.get("t", 0, 0, 10).unwrap().packets.len(), 3);
}

#[test]
fn publish_that_starts_no_segment_leaves_the_times_of_the_segments() {
    let mut commitlog = CommitLog::new(1024, 4).unwrap();
    commitlog.fill(publish("t", QoS::AtMostOnce, vec![1])).unwrap();
    let made = commitlog.partitions.entries[0].1[0].timestamp;
    commitlog.fill(publish("t", QoS::AtMostOnce, vec![2])).unwrap();
    assert_eq!(commitlog.partitions.entries[0].1.len(), 1);
    assert_eq!(commitlog.partitions.entries[0].1[0].timestamp, made);
    assert_eq!(commitlog.partitions.entries[0].1[0].packets.len(), 2);
    assert_eq!(commitlog.partitions.entries[0].1[0].current_size, 2);
}
