use qdrant_segment::document::{
    document_payload, payload_document, Document, DocumentContent, TagValue,
};
use qdrant_segment::filter::{check_payload, filter_from_clauses, Filter, MatchValue};
use qdrant_segment::payload::{
    payload_from_input, payload_from_inputs, Payload, PayloadInput, PayloadSchemaType, PayloadType,
};
use qdrant_segment::json::JsonValue;
use qdrant_segment::payload_storage::{PayloadStorage, SimplePayloadStorage};
use qdrant_segment::types::OperationError;

fn sample_document() -> Document {
    Document {
        id: "doc-1".to_string(),
        parent_id: "root".to_string(),
        mime_type: "text/plain".to_string(),
        modality: "text".to_string(),
        content_hash: "abc".to_string(),
        granularity: 2,
        adjacency: 1,
        siblings: 4,
        offset: 3,
        weight: 1.5f64.to_bits(),
        content: DocumentContent::Text("hello".to_string()),
        tags: Some(vec![
            ("lang".to_string(), TagValue::Text("en".to_string())),
            ("year".to_string(), TagValue::Number(2021)),
            ("flag".to_string(), TagValue::Other),
        ]),
    }
}

fn keyword_of(p: &Payload, k: &str) -> Option<Vec<String>> {
    match p.get(&k.to_string()) {
        Some(PayloadType::Keyword(v)) => Some(v.clone()),
        _ => None,
    }
}

fn integer_of(p: &Payload, k: &str) -> Option<Vec<i64>> {
    match p.get(&k.to_string()) {
        Some(PayloadType::Integer(v)) => Some(v.clone()),
        _ => None,
    }
}

#[test]
fn document_becomes_payload() {
    let p = document_payload(&sample_document());
    assert_eq!(p.len(), 14);
    assert_eq!(keyword_of(&p, "id"), Some(vec!["doc-1".to_string()]));
    assert_eq!(keyword_of(&p, "content"), Some(vec!["hello".to_string()]));
    assert_eq!(keyword_of(&p, "text"), Some(vec!["hello".to_string()]));
    assert_eq!(integer_of(&p, "offset"), Some(vec![3]));
    assert_eq!(integer_of(&p, "year"), Some(vec![2021]));
    assert_eq!(keyword_of(&p, "lang"), Some(vec!["en".to_string()]));
    assert!(p.get(&"flag".to_string()).is_none());
    assert!(p.get(&"uri".to_string()).is_none());
    assert!(matches!(p.get(&"weight".to_string()), Some(PayloadType::Float(w)) if *w == vec![1.5f64.to_bits()]));
}

#[test]
fn payload_becomes_document() {
    let p = document_payload(&sample_document());
    let d = payload_document(&p).unwrap();
    assert_eq!(d.id, "doc-1");
    assert_eq!(d.parent_id, "root");
    assert_eq!(d.granularity, 2);
    assert_eq!(d.siblings, 4);
    assert_eq!(d.weight, 1.5f64.to_bits());
    assert!(matches!(d.content, DocumentContent::Text(ref t) if t == "hello"));
    assert_eq!(d.tags.len(), 2);
    let names: Vec<&str> = d.tags.iter().map(|(k, _)| k.as_str()).collect();
    assert!(names.contains(&"lang") && names.contains(&"year"));
}

#[test]
fn payload_document_joins_keywords_and_prefers_uri() {
    let mut p = Payload::new();
    p.insert("id".to_string(), PayloadType::Keyword(vec!["a".to_string(), "b".to_string()]));
    p.insert("text".to_string(), PayloadType::Keyword(vec!["t".to_string()]));
    p.insert("uri".to_string(), PayloadType::Keyword(vec!["u".to_string()]));
    p.insert("score".to_string(), PayloadType::Integer(vec![7, 8]));
    p.insert("empty".to_string(), PayloadType::Integer(vec![]));
    let d = payload_document(&p).unwrap();
    assert_eq!(d.id, "ab");
    assert_eq!(d.granularity, 0);
    assert_eq!(d.weight, 0);
    assert!(matches!(d.content, DocumentContent::Uri(ref u) if u == "u"));
    assert_eq!(d.tags.len(), 1);
    assert_eq!(d.tags[0].0, "score");
    assert!(matches!(&d.tags[0].1, PayloadType::Integer(v) if *v == vec![7]));
}

#[test]
fn payload_document_refuses_wrong_types() {
    let mut p = Payload::new();
    p.insert("granularity".to_string(), PayloadType::Keyword(vec!["x".to_string()]));
    match payload_document(&p) {
        Err(OperationError::TypeError { field_name, .. }) => assert_eq!(field_name, "granularity"),
        _ => panic!("expected a type error"),
    }
    let mut p = Payload::new();
    p.insert("id".to_string(), PayloadType::Integer(vec![1]));
    assert!(matches!(payload_document(&p), Err(OperationError::TypeError { .. })));
}

#[test]
fn client_values_become_collections() {
    assert!(matches!(payload_from_input(PayloadInput::Integer(4)), PayloadType::Integer(v) if v == vec![4]));
    assert!(matches!(
        payload_from_input(PayloadInput::KeywordVec(vec!["a".to_string(), "b".to_string()])),
        PayloadType::Keyword(v) if v.len() == 2
    ));
    let p = payload_from_inputs(vec![
        ("k".to_string(), PayloadInput::Keyword("first".to_string())),
        ("n".to_string(), PayloadInput::FloatVec(vec![1, 2])),
        ("k".to_string(), PayloadInput::Keyword("second".to_string())),
    ]);
    assert_eq!(p.len(), 2);
    assert_eq!(keyword_of(&p, "k"), Some(vec!["first".to_string()]));
}

#[test]
fn clauses_build_filters() {
    let mut p = Payload::new();
    p.insert("city".to_string(), PayloadType::Keyword(vec!["London".to_string()]));
    p.insert("rooms".to_string(), PayloadType::Integer(vec![3]));
    let london = || Filter::Match { key: "city".to_string(), value: MatchValue::Keyword("London".to_string()) };
    let three = || Filter::Match { key: "rooms".to_string(), value: MatchValue::Integer(3) };
    let four = || Filter::Match { key: "rooms".to_string(), value: MatchValue::Integer(4) };
    assert!(check_payload(&filter_from_clauses(None, None, None), &p));
    assert!(check_payload(&filter_from_clauses(Some(vec![four(), three()]), Some(vec![london()]), None), &p));
    assert!(!check_payload(&filter_from_clauses(Some(vec![four()]), Some(vec![london()]), None), &p));
    assert!(!check_payload(&filter_from_clauses(None, None, Some(vec![three()])), &p));
    assert!(check_payload(&filter_from_clauses(None, Some(vec![]), Some(vec![four()])), &p));
}

#[test]
fn schema_reports_field_types() {
    let mut storage = SimplePayloadStorage::new();
    storage.assign(0, &"a".to_string(), PayloadType::Integer(vec![1]));
    storage.assign(0, &"b".to_string(), PayloadType::Keyword(vec!["x".to_string()]));
    storage.assign(2, &"a".to_string(), PayloadType::Float(vec![0]));
    let mut schema = storage.schema();
    schema.sort_by(|x, y| x.0.cmp(&y.0));
    assert_eq!(
        schema,
        vec![("a".to_string(), PayloadSchemaType::Float), ("b".to_string(), PayloadSchemaType::Keyword)]
    );
    assert!(SimplePayloadStorage::new().schema().is_empty());
}

#[test]
fn storage_trait_defaults() {
    let mut storage = SimplePayloadStorage::new();
    let mut p = Payload::new();
    p.insert("a".to_string(), PayloadType::Integer(vec![1]));
    p.insert("b".to_string(), PayloadType::Keyword(vec!["x".to_string()]));
    PayloadStorage::assign(&mut storage, 1, &"old".to_string(), PayloadType::Integer(vec![0])).unwrap();
    PayloadStorage::assign_all(&mut storage, 1, p).unwrap();
    let got = PayloadStorage::payload(&storage, 1);
    assert_eq!(got.len(), 2);
    assert!(got.get(&"old".to_string()).is_none());
    let doc = vec![
        ("n".to_string(), JsonValue::Number(Some(5))),
        ("o".to_string(), JsonValue::Object(vec![("p".to_string(), JsonValue::Bool(false))])),
    ];
    PayloadStorage::assign_all_with_value(&mut storage, 1, &doc).unwrap();
    let got = PayloadStorage::payload(&storage, 1);
    assert_eq!(got.len(), 2);
    assert!(matches!(got.get(&"o__p".to_string()), Some(PayloadType::Keyword(v)) if *v == vec!["false".to_string()]));
    let bad = vec![("n".to_string(), JsonValue::Number(None))];
    assert!(PayloadStorage::assign_all_with_value(&mut storage, 1, &bad).is_err());
    assert_eq!(PayloadStorage::payload(&storage, 1).len(), 2);
    assert!(matches!(PayloadStorage::delete(&mut storage, 1, &"n".to_string()), Ok(Some(_))));
    assert_eq!(PayloadStorage::iter_ids(&storage), vec![1]);
    assert!(PayloadStorage::flush(&storage).is_ok());
    assert!(matches!(PayloadStorage::drop(&mut storage, 1), Ok(Some(_))));
    PayloadStorage::wipe(&mut storage).unwrap();
    assert!(PayloadStorage::iter_ids(&storage).is_empty());
}
