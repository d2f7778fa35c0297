use qdrant_segment::filter::{Filter, MatchValue, Range, check_payload};
use qdrant_segment::json::{JsonValue, extract_payloads};
use qdrant_segment::payload::{Payload, PayloadSchemaType, PayloadType};
use qdrant_segment::payload_storage::{ConditionChecker, SimplePayloadStorage};
use qdrant_segment::plain_index::{PlainIndex, PlainPayloadIndex};
use qdrant_segment::types::{
    Distance, HnswConfig, Indexes, OperationError, PayloadIndexType, StorageType,
    distance_from_code, payload_index_type_from_code, storage_type_from_code,
    vector_index_from_code,
};
use qdrant_segment::vector_storage::{SimpleVectorStorage, dot_product, squared_distance};

fn obj(fields: Vec<(&str, JsonValue)>) -> JsonValue {
    JsonValue::Object(fields.into_iter().map(|(k, v)| (k.to_string(), v)).collect())
}

#[test]
fn flattening_nested_objects() {
    let doc = vec![(
        "a".to_string(),
        obj(vec![("b", JsonValue::Number(Some(1))), ("c", JsonValue::String("x".to_string()))]),
    )];
    let mut storage = SimplePayloadStorage::new();
    assert!(storage.assign_all_with_value(0, &doc).is_ok());
    let p = storage.payload(0);
    assert_eq!(p.len(), 2);
    assert!(matches!(p.get(&"a__b".to_string()), Some(PayloadType::Integer(v)) if *v == vec![1]));
    assert!(
        matches!(p.get(&"a__c".to_string()), Some(PayloadType::Keyword(v)) if *v == vec!["x".to_string()])
    );
}

#[test]
fn flattening_drops_arrays_and_nulls() {
    let doc = vec![
        ("list".to_string(), JsonValue::Array(vec![JsonValue::Number(Some(1))])),
        ("nothing".to_string(), JsonValue::Null),
        ("flag".to_string(), JsonValue::Bool(true)),
    ];
    let flat = extract_payloads(&doc, None).unwrap();
    assert_eq!(flat.len(), 2);
    assert_eq!(flat[0].0, "nothing");
    assert!(flat[0].1.is_none());
    let mut storage = SimplePayloadStorage::new();
    assert!(storage.assign_all_with_value(3, &doc).is_ok());
    let p = storage.payload(3);
    assert_eq!(p.len(), 1);
    assert!(
        matches!(p.get(&"flag".to_string()), Some(PayloadType::Keyword(v)) if *v == vec!["true".to_string()])
    );
}

#[test]
fn flattening_refuses_non_integer_numbers() {
    let doc = vec![("x".to_string(), obj(vec![("y", JsonValue::Number(None))]))];
    let mut storage = SimplePayloadStorage::new();
    storage.assign(0, &"keep".to_string(), PayloadType::Integer(vec![1]));
    match storage.assign_all_with_value(0, &doc) {
        Err(OperationError::TypeError { field_name, .. }) => assert_eq!(field_name, "x__y"),
        _ => panic!("expected a type error"),
    }
    assert_eq!(storage.payload(0).len(), 1);
}

#[test]
fn payload_storage_operations() {
    let mut storage = SimplePayloadStorage::new();
    assert_eq!(storage.payload(4).len(), 0);
    storage.assign(4, &"a".to_string(), PayloadType::Integer(vec![1]));
    storage.assign(4, &"a".to_string(), PayloadType::Float(vec![0x3ff0_0000_0000_0000]));
    storage.assign(1, &"b".to_string(), PayloadType::Keyword(vec!["z".to_string()]));
    assert_eq!(storage.iter_ids(), vec![1, 4]);
    let p = storage.payload(4);
    assert_eq!(p.len(), 1);
    assert_eq!(p.get(&"a".to_string()).unwrap().schema_type(), PayloadSchemaType::Float);
    assert!(matches!(storage.delete(4, &"a".to_string()), Some(PayloadType::Float(_))));
    assert!(storage.delete(4, &"a".to_string()).is_none());
    assert_eq!(storage.iter_ids(), vec![1]);
    assert!(storage.drop(1).is_some());
    assert!(storage.drop(1).is_none());
    storage.assign(2, &"c".to_string(), PayloadType::Integer(vec![3]));
    storage.wipe();
    assert!(storage.iter_ids().is_empty());
}

#[test]
fn condition_checks() {
    let mut p = Payload::new();
    p.insert("color".to_string(), PayloadType::Keyword(vec!["red".to_string(), "blue".to_string()]));
    p.insert("size".to_string(), PayloadType::Integer(vec![3, 10]));
    let blue = Filter::Match { key: "color".to_string(), value: MatchValue::Keyword("blue".to_string()) };
    let green = Filter::Match { key: "color".to_string(), value: MatchValue::Keyword("green".to_string()) };
    let small = Filter::Range {
        key: "size".to_string(),
        range: Range { lt: Some(4), gt: None, gte: Some(3), lte: None },
    };
    let absent = Filter::HasKey { key: "weight".to_string() };
    assert!(check_payload(&blue, &p));
    assert!(!check_payload(&green, &p));
    assert!(check_payload(&small, &p));
    assert!(!check_payload(&absent, &p));
    assert!(check_payload(&Filter::HasKey { key: "size".to_string() }, &p));
    assert!(check_payload(&Filter::And(vec![]), &p));
    assert!(!check_payload(&Filter::Or(vec![]), &p));
    let both = Filter::And(vec![blue, Filter::Not(Box::new(green))]);
    assert!(check_payload(&both, &p));
    let either = Filter::Or(vec![absent, small]);
    assert!(check_payload(&either, &p));
    let wrong_type =
        Filter::Match { key: "size".to_string(), value: MatchValue::Keyword("3".to_string()) };
    assert!(!check_payload(&wrong_type, &p));
}

fn storages() -> (SimpleVectorStorage, SimplePayloadStorage) {
    let mut vectors = SimpleVectorStorage::new(2, Distance::Dot);
    let mut payloads = SimplePayloadStorage::new();
    for i in 0..5usize {
        assert!(vectors.put(i, vec![i as i32, 1]).is_ok());
        payloads.assign(i, &"group".to_string(), PayloadType::Integer(vec![(i % 2) as i64]));
    }
    vectors.delete(2);
    (vectors, payloads)
}

#[test]
fn plain_payload_index_queries() {
    let (vectors, payloads) = storages();
    let index = PlainPayloadIndex::new(&payloads, &vectors);
    let even = Filter::Match { key: "group".to_string(), value: MatchValue::Integer(0) };
    // offset 2 is even but deleted
    assert_eq!(index.query_points(&even), vec![0, 4]);
    assert_eq!(index.estimate_cardinality(&even), (2, 2));
    for o in 0..5usize {
        let listed = index.query_points(&even).contains(&o);
        assert_eq!(listed, !vectors.is_deleted(o) && payloads.check(o, &even));
    }
    let nothing = Filter::HasKey { key: "missing".to_string() };
    assert!(index.query_points(&nothing).is_empty());
    assert_eq!(index.estimate_cardinality(&nothing), (0, 0));
}

#[test]
fn plain_index_search() {
    let (vectors, payloads) = storages();
    let payload_index = PlainPayloadIndex::new(&payloads, &vectors);
    let index = PlainIndex::new(&vectors, &payload_index);
    let all = index.search(&vec![1, 0], None, 10);
    assert_eq!(all, vec![(4, 4), (3, 3), (1, 1), (0, 0)]);
    assert_eq!(index.search(&vec![1, 0], None, 2), vec![(4, 4), (3, 3)]);
    assert_eq!(vectors.score_all(&vec![1, 0], 2), vec![(4, 4), (3, 3)]);
    let odd = Filter::Match { key: "group".to_string(), value: MatchValue::Integer(1) };
    let filtered = index.search(&vec![1, 0], Some(&odd), 10);
    assert_eq!(filtered, vec![(3, 3), (1, 1)]);
    let candidates = payload_index.query_points(&odd);
    assert_eq!(vectors.score_points(&vec![1, 0], &candidates, 10), filtered);
    assert!(index.search(&vec![1, 0], Some(&odd), 0).is_empty());
}

#[test]
fn score_points_skips_deleted_and_repeated() {
    let (vectors, _) = storages();
    let hits = vectors.score_points(&vec![0, 1], &vec![2, 3, 3, 9, 1], 10);
    assert_eq!(hits, vec![(1, 1), (3, 1)]);
}

#[test]
fn vector_storage_counts_and_errors() {
    let (mut vectors, _) = storages();
    assert_eq!(vectors.total_vector_count(), 5);
    assert_eq!(vectors.vector_count(), 4);
    assert!(vectors.get(2).is_none());
    assert_eq!(vectors.get(3).unwrap(), &vec![3, 1]);
    assert!(matches!(
        vectors.put(1, vec![1, 2, 3]),
        Err(OperationError::WrongVector { expected_dim: 2, received_dim: 3 })
    ));
    assert!(vectors.put(2, vec![9, 9]).is_ok());
    assert_eq!(vectors.vector_count(), 5);
}

#[test]
fn exact_distances() {
    assert_eq!(dot_product(&vec![1, 2, 3], &vec![4, -5, 6]), 12);
    assert_eq!(squared_distance(&vec![1, 2], &vec![4, 6]), 25);
    let big = vec![i32::MIN, i32::MIN];
    assert_eq!(dot_product(&big, &big), 2 * (1i128 << 62));
    assert_eq!(squared_distance(&vec![i32::MIN], &vec![i32::MAX]), ((1i128 << 32) - 1).pow(2));
}

#[test]
fn codes_select_kinds() {
    assert_eq!(distance_from_code(0), Some(Distance::Cosine));
    assert_eq!(distance_from_code(2), Some(Distance::Euclid));
    assert_eq!(distance_from_code(3), None);
    assert_eq!(storage_type_from_code(1), Some(StorageType::Mmap));
    assert_eq!(storage_type_from_code(2), None);
    assert_eq!(payload_index_type_from_code(1), Some(PayloadIndexType::Struct));
    assert_eq!(payload_index_type_from_code(5), None);
    let hnsw = HnswConfig { m: 16, ef_construct: 100, full_scan_threshold: 10 };
    assert_eq!(vector_index_from_code(0, None), Some(Indexes::Plain));
    assert_eq!(vector_index_from_code(1, Some(hnsw)), Some(Indexes::Hnsw(hnsw)));
    assert_eq!(vector_index_from_code(1, None), None);
    assert_eq!(vector_index_from_code(7, Some(hnsw)), None);
}
