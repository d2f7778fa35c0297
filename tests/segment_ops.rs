use qdrant_segment::filter::{Filter, MatchValue, Range};
use qdrant_segment::payload::{Payload, PayloadType};
use qdrant_segment::segment::{Segment, SKIP_VERSION_CHECK};
use qdrant_segment::types::{
    Distance, Indexes, OperationError, ScoredPoint, SegmentConfig, StorageType,
};
use qdrant_segment::update_handler::{LogEntry, Operation};

fn config(dim: usize, distance: Distance) -> SegmentConfig {
    SegmentConfig {
        vector_size: dim,
        index: Indexes::Plain,
        payload_index: None,
        distance,
        storage_type: StorageType::InMemory,
    }
}

fn keyword(s: &str) -> PayloadType {
    PayloadType::Keyword(vec![s.to_string()])
}

#[test]
fn upsert_then_vector_round_trip() {
    let mut s = Segment::new(config(3, Distance::Dot));
    let v = vec![5, -7, 11];
    assert!(matches!(s.upsert_point(1, 42, &v), Ok(true)));
    assert_eq!(s.vector(42).unwrap(), v);
    assert!(s.has_point(42));
}

#[test]
fn upsert_same_version_is_noop() {
    let mut s = Segment::new(config(2, Distance::Dot));
    assert!(matches!(s.upsert_point(5, 1, &vec![1, 2]), Ok(true)));
    assert!(matches!(s.upsert_point(5, 1, &vec![3, 4]), Ok(false)));
    assert_eq!(s.vector(1).unwrap(), vec![1, 2]);
    assert!(matches!(s.upsert_point(6, 1, &vec![3, 4]), Ok(true)));
    assert_eq!(s.vector(1).unwrap(), vec![3, 4]);
}

#[test]
fn older_version_is_noop() {
    let mut s = Segment::new(config(2, Distance::Dot));
    assert!(matches!(s.upsert_point(9, 1, &vec![1, 2]), Ok(true)));
    assert!(matches!(s.upsert_point(3, 1, &vec![7, 7]), Ok(false)));
    assert_eq!(s.vector(1).unwrap(), vec![1, 2]);
}

#[test]
fn skip_version_check_always_applies() {
    let mut s = Segment::new(config(1, Distance::Dot));
    assert!(matches!(s.upsert_point(SKIP_VERSION_CHECK, 1, &vec![1]), Ok(true)));
    assert!(matches!(s.upsert_point(SKIP_VERSION_CHECK, 1, &vec![2]), Ok(true)));
    assert_eq!(s.vector(1).unwrap(), vec![2]);
    assert!(matches!(s.upsert_point(1, 1, &vec![3]), Ok(true)));
    assert_eq!(s.vector(1).unwrap(), vec![3]);
}

#[test]
fn wrong_dimension_is_refused() {
    let mut s = Segment::new(config(4, Distance::Dot));
    match s.upsert_point(1, 1, &vec![1, 2, 3]) {
        Err(OperationError::WrongVector { expected_dim, received_dim }) => {
            assert_eq!(expected_dim, 4);
            assert_eq!(received_dim, 3);
        }
        _ => panic!("expected a dimension error"),
    }
    assert!(!s.has_point(1));
    assert!(matches!(
        s.search(&vec![1, 2], None, 3, None),
        Err(OperationError::WrongVector { expected_dim: 4, received_dim: 2 })
    ));
}

#[test]
fn delete_frees_offset() {
    let mut s = Segment::new(config(1, Distance::Dot));
    assert!(matches!(s.upsert_point(1, 10, &vec![1]), Ok(true)));
    assert!(matches!(s.upsert_point(2, 20, &vec![1]), Ok(true)));
    let mut p = Payload::new();
    p.insert("k".to_string(), keyword("v"));
    assert!(matches!(s.set_full_payload(3, 10, p), Ok(true)));
    assert!(matches!(s.delete_point(4, 10), Ok(true)));
    assert!(matches!(s.payload(10), Err(OperationError::PointIdError { missed_point_id: 10 })));
    assert!(matches!(s.vector(10), Err(OperationError::PointIdError { missed_point_id: 10 })));
    // the new point takes the freed offset 0, so it ranks before point 20
    // (offset 1) on an equal score, and it starts without a payload
    assert!(matches!(s.upsert_point(5, 30, &vec![1]), Ok(true)));
    let hits = s.search(&vec![1], None, 10, None).unwrap();
    assert_eq!(hits, vec![ScoredPoint { id: 30, score: 1 }, ScoredPoint { id: 20, score: 1 }]);
    assert_eq!(s.payload(30).unwrap().len(), 0);
}

#[test]
fn delete_unknown_and_stale() {
    let mut s = Segment::new(config(1, Distance::Dot));
    assert!(matches!(s.delete_point(1, 99), Ok(false)));
    assert!(matches!(s.upsert_point(5, 1, &vec![1]), Ok(true)));
    assert!(matches!(s.delete_point(5, 1), Ok(false)));
    assert!(s.has_point(1));
    assert!(matches!(s.delete_point(6, 1), Ok(true)));
    // the deletion's version is kept: an older upsert does not bring it back
    assert!(matches!(s.upsert_point(6, 1, &vec![2]), Ok(false)));
    assert!(!s.has_point(1));
}

#[test]
fn payload_operations() {
    let mut s = Segment::new(config(1, Distance::Dot));
    let mut p = Payload::new();
    p.insert("a".to_string(), keyword("x"));
    assert!(matches!(
        s.set_full_payload(1, 5, p),
        Err(OperationError::PointIdError { missed_point_id: 5 })
    ));
    assert!(matches!(s.upsert_point(1, 5, &vec![0]), Ok(true)));
    let mut p = Payload::new();
    p.insert("a".to_string(), keyword("x"));
    p.insert("b".to_string(), PayloadType::Integer(vec![1, 2]));
    assert!(matches!(s.set_full_payload(2, 5, p), Ok(true)));
    let got = s.payload(5).unwrap();
    assert_eq!(got.len(), 2);
    assert!(matches!(got.get(&"b".to_string()), Some(PayloadType::Integer(v)) if *v == vec![1, 2]));
    assert!(matches!(s.delete_payload_key(3, 5, &"a".to_string()), Ok(true)));
    let got = s.payload(5).unwrap();
    assert_eq!(got.len(), 1);
    assert!(got.get(&"a".to_string()).is_none());
    assert!(matches!(s.delete_payload_key(3, 5, &"b".to_string()), Ok(false)));
    assert!(matches!(s.clear_payload(4, 5), Ok(true)));
    assert_eq!(s.payload(5).unwrap().len(), 0);
}

#[test]
fn end_to_end_dot_search() {
    let mut s = Segment::new(config(4, Distance::Dot));
    assert!(matches!(s.upsert_point(1, 1, &vec![1, 0, 0, 0]), Ok(true)));
    assert!(matches!(s.upsert_point(2, 2, &vec![0, 1, 0, 0]), Ok(true)));
    let hits = s.search(&vec![1, 0, 0, 0], None, 2, None).unwrap();
    assert_eq!(hits, vec![ScoredPoint { id: 1, score: 1 }, ScoredPoint { id: 2, score: 0 }]);
}

#[test]
fn search_top_is_prefix_of_longer_search() {
    let mut s = Segment::new(config(2, Distance::Dot));
    let vectors = [vec![1, 1], vec![3, 0], vec![0, 2], vec![2, 1], vec![1, 0]];
    for (i, v) in vectors.iter().enumerate() {
        assert!(matches!(s.upsert_point(1, i as u64 + 100, v), Ok(true)));
    }
    let all = s.search(&vec![1, 1], None, 5, None).unwrap();
    let scores: Vec<i128> = all.iter().map(|h| h.score).collect();
    assert_eq!(scores, vec![3, 3, 2, 2, 1]);
    // equal scores keep offset order
    let ids: Vec<u64> = all.iter().map(|h| h.id).collect();
    assert_eq!(ids, vec![101, 103, 100, 102, 104]);
    for k in 0..=5 {
        let top = s.search(&vec![1, 1], None, k, None).unwrap();
        assert_eq!(top, all[..k].to_vec());
    }
    assert!(s.search(&vec![1, 1], None, 0, None).unwrap().is_empty());
}

#[test]
fn empty_segment_search_is_empty() {
    let s = Segment::new(config(2, Distance::Euclid));
    assert!(s.search(&vec![1, 1], None, 3, None).unwrap().is_empty());
}

#[test]
fn euclid_scores_are_negated_squared_distances() {
    let mut s = Segment::new(config(2, Distance::Euclid));
    assert!(matches!(s.upsert_point(1, 1, &vec![4, 6]), Ok(true)));
    assert!(matches!(s.upsert_point(1, 2, &vec![1, 3]), Ok(true)));
    let hits = s.search(&vec![1, 2], None, 2, None).unwrap();
    assert_eq!(hits, vec![ScoredPoint { id: 2, score: -1 }, ScoredPoint { id: 1, score: -25 }]);
}

#[test]
fn filtered_search_only_returns_matches() {
    let mut s = Segment::new(config(1, Distance::Dot));
    for id in 1..=4u64 {
        assert!(matches!(s.upsert_point(1, id, &vec![id as i32]), Ok(true)));
        let mut p = Payload::new();
        p.insert("parity".to_string(), PayloadType::Integer(vec![(id % 2) as i64]));
        assert!(matches!(s.set_full_payload(2, id, p), Ok(true)));
    }
    let even = Filter::Match { key: "parity".to_string(), value: MatchValue::Integer(0) };
    let hits = s.search(&vec![1], Some(&even), 10, None).unwrap();
    assert_eq!(hits, vec![ScoredPoint { id: 4, score: 4 }, ScoredPoint { id: 2, score: 2 }]);
    let hits = s.search(&vec![1], Some(&even), 1, None).unwrap();
    assert_eq!(hits, vec![ScoredPoint { id: 4, score: 4 }]);
    let none = Filter::Match { key: "parity".to_string(), value: MatchValue::Integer(7) };
    assert!(s.search(&vec![1], Some(&none), 10, None).unwrap().is_empty());
    let not_even = Filter::Not(Box::new(Filter::Match {
        key: "parity".to_string(),
        value: MatchValue::Integer(0),
    }));
    let hits = s.search(&vec![1], Some(&not_even), 10, None).unwrap();
    assert_eq!(hits, vec![ScoredPoint { id: 3, score: 3 }, ScoredPoint { id: 1, score: 1 }]);
    let range = Filter::Range {
        key: "parity".to_string(),
        range: Range { lt: None, gt: Some(0), gte: None, lte: None },
    };
    let hits = s.search(&vec![1], Some(&range), 10, None).unwrap();
    assert_eq!(hits.len(), 2);
}

fn upsert_entry(op_num: u64, point_id: u64, vector: Vec<i32>) -> LogEntry {
    LogEntry { op_num, operation: Operation::UpsertPoint { point_id, vector } }
}

fn snapshot(s: &Segment) -> Vec<ScoredPoint> {
    s.search(&vec![1, 1], None, 100, None).unwrap()
}

#[test]
fn replay_twice_gives_same_state() {
    let log = vec![
        upsert_entry(5, 7, vec![1, 2]),
        upsert_entry(5, 7, vec![1, 2]),
        upsert_entry(6, 8, vec![3, 1]),
        LogEntry { op_num: 7, operation: Operation::DeletePoint { point_id: 8 } },
        upsert_entry(8, 9, vec![0, 4]),
    ];
    let mut once = Segment::new(config(2, Distance::Dot));
    assert_eq!(once.replay(&log), 4);
    let first = snapshot(&once);
    assert_eq!(first, vec![ScoredPoint { id: 9, score: 4 }, ScoredPoint { id: 7, score: 3 }]);
    assert_eq!(once.replay(&log), 0);
    assert_eq!(snapshot(&once), first);
    let mut fresh = Segment::new(config(2, Distance::Dot));
    fresh.replay(&log);
    fresh.replay(&log);
    assert_eq!(snapshot(&fresh), first);
    assert_eq!(fresh.vector(7).unwrap(), vec![1, 2]);
    assert!(!fresh.has_point(8));
}

#[test]
fn replay_applies_payload_entries() {
    let mut p = Payload::new();
    p.insert("tag".to_string(), keyword("red"));
    let log = vec![
        upsert_entry(1, 3, vec![1]),
        LogEntry { op_num: 2, operation: Operation::SetFullPayload { point_id: 3, payload: p } },
        LogEntry {
            op_num: 3,
            operation: Operation::DeletePayloadKey { point_id: 3, key: "tag".to_string() },
        },
        LogEntry { op_num: 4, operation: Operation::ClearPayload { point_id: 4 } },
    ];
    let mut s = Segment::new(config(1, Distance::Cosine));
    assert_eq!(s.replay(&log), 3);
    assert_eq!(s.payload(3).unwrap().len(), 0);
}
