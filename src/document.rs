use vstd::prelude::*;

use crate::payload::{Payload, PayloadMap, PayloadType, PayloadValue, entries_view, strings_view};
use crate::types::OperationError;

verus! {

/// Content of a document, as far as payloads keep it: text and URIs are
/// stored, raw buffers and blobs are not.
#[derive(Debug)]
pub enum DocumentContent {
    Empty,
    Buffer,
    Blob,
    Text(String),
    Uri(String),
}

/// A tag value of a document. Numbers arrive already truncated to an
/// integer; other kinds are not stored.
#[derive(Debug)]
pub enum TagValue {
    Number(i64),
    Text(String),
    Other,
}

/// The fields of a document that become its payload.
#[derive(Debug)]
pub struct Document {
    pub id: String,
    pub parent_id: String,
    pub mime_type: String,
    pub modality: String,
    pub content_hash: String,
    pub granularity: u32,
    pub adjacency: u32,
    pub siblings: u32,
    pub offset: u32,
    /// IEEE-754 binary64 bit pattern of the weight.
    pub weight: u64,
    pub content: DocumentContent,
    pub tags: Option<Vec<(String, TagValue)>>,
}

pub open spec fn kw(s: Seq<char>) -> PayloadValue {
    PayloadValue::Keyword(seq![s])
}

pub open spec fn counter(x: u32) -> PayloadValue {
    PayloadValue::Integer(seq![x as i64])
}

/// Payload of the document's fixed fields and content.
pub open spec fn document_fields_map(d: Document) -> PayloadMap {
    let m = Map::<Seq<char>, PayloadValue>::empty()
        .insert("id"@, kw(d.id@))
        .insert("parent_id"@, kw(d.parent_id@))
        .insert("mime_type"@, kw(d.mime_type@))
        .insert("modality"@, kw(d.modality@))
        .insert("content_hash"@, kw(d.content_hash@))
        .insert("granularity"@, counter(d.granularity))
        .insert("adjacency"@, counter(d.adjacency))
        .insert("siblings"@, counter(d.siblings))
        .insert("offset"@, counter(d.offset))
        .insert("weight"@, PayloadValue::Float(seq![d.weight]));
    match d.content {
        DocumentContent::Text(t) => m.insert("content"@, kw(t@)).insert("text"@, kw(t@)),
        DocumentContent::Uri(u) => m.insert("content"@, kw(u@)).insert("uri"@, kw(u@)),
        _ => m,
    }
}

/// Tags set in order on top of a payload; a later tag replaces an earlier
/// field of the same name.
pub open spec fn with_tags(m: PayloadMap, tags: Seq<(String, TagValue)>) -> PayloadMap
    decreases tags.len(),
{
    if tags.len() == 0 {
        m
    } else {
        let before = with_tags(m, tags.drop_last());
        let t = tags.last();
        match t.1 {
            TagValue::Number(x) => before.insert(t.0@, PayloadValue::Integer(seq![x])),
            TagValue::Text(s) => before.insert(t.0@, kw(s@)),
            TagValue::Other => before,
        }
    }
}

/// The payload a document is stored as.
pub open spec fn document_map(d: Document) -> PayloadMap {
    match d.tags {
        Some(tags) => with_tags(document_fields_map(d), tags@),
        None => document_fields_map(d),
    }
}

fn keyword_of(s: &String) -> (r: PayloadType)
    ensures
        r@ == kw(s@),
{
    let mut v: Vec<String> = Vec::new();
    v.push(s.clone());
    assert(strings_view(v@) =~= seq![s@]);
    PayloadType::Keyword(v)
}

fn integer_of(x: i64) -> (r: PayloadType)
    ensures
        r@ == PayloadValue::Integer(seq![x]),
{
    let mut v: Vec<i64> = Vec::new();
    v.push(x);
    assert(v@ =~= seq![x]);
    PayloadType::Integer(v)
}

fn key(s: &str) -> (r: String)
    ensures
        r@ == s@,
{
    String::from_str(s)
}

/// The payload a document is stored as: its text fields as keywords, its
/// counters as integers, its weight as a float, its text or URI content
/// under `content` and `text` or `uri`, and its number and text tags.
pub fn document_payload(doc: &Document) -> (r: Payload)
    ensures
        r@ == document_map(*doc),
{
    let mut payload = Payload::new();
    payload.insert(key("id"), keyword_of(&doc.id));
    payload.insert(key("parent_id"), keyword_of(&doc.parent_id));
    payload.insert(key("mime_type"), keyword_of(&doc.mime_type));
    payload.insert(key("modality"), keyword_of(&doc.modality));
    payload.insert(key("content_hash"), keyword_of(&doc.content_hash));
    payload.insert(key("granularity"), integer_of(doc.granularity as i64));
    payload.insert(key("adjacency"), integer_of(doc.adjacency as i64));
    payload.insert(key("siblings"), integer_of(doc.siblings as i64));
    payload.insert(key("offset"), integer_of(doc.offset as i64));
    let mut weight: Vec<u64> = Vec::new();
    weight.push(doc.weight);
    assert(weight@ =~= seq![doc.weight]);
    payload.insert(key("weight"), PayloadType::Float(weight));
    match &doc.content {
        DocumentContent::Text(text) => {
            payload.insert(key("content"), keyword_of(text));
            payload.insert(key("text"), keyword_of(text));
        },
        DocumentContent::Uri(uri) => {
            payload.insert(key("content"), keyword_of(uri));
            payload.insert(key("uri"), keyword_of(uri));
        },
        _ => {},
    }
    assert(payload@ == document_fields_map(*doc));
    match &doc.tags {
        Some(tags) => {
            let mut i: usize = 0;
            while i < tags.len()
                invariant
                    i <= tags@.len(),
                    doc.tags == Some(*tags),
                    payload@ == with_tags(document_fields_map(*doc), tags@.take(i as int)),
                decreases tags.len() - i,
            {
                proof {
                    assert(tags@.take(i + 1).drop_last() =~= tags@.take(i as int));
                }
                match &tags[i].1 {
                    TagValue::Number(x) => payload.insert(tags[i].0.clone(), integer_of(*x)),
                    TagValue::Text(s) => payload.insert(tags[i].0.clone(), keyword_of(s)),
                    TagValue::Other => {},
                }
                i += 1;
            }
            assert(tags@.take(i as int) =~= tags@);
        },
        None => {},
    }
    payload
}

/// A document rebuilt from a payload.
#[derive(Debug)]
pub struct DocumentExport {
    pub id: String,
    pub parent_id: String,
    pub mime_type: String,
    pub modality: String,
    pub content_hash: String,
    pub granularity: u32,
    pub adjacency: u32,
    pub siblings: u32,
    pub offset: u32,
    /// IEEE-754 binary64 bit pattern of the weight; zero when absent.
    pub weight: u64,
    pub content: DocumentContent,
    /// Remaining fields, each with the first of its values, in storage order.
    pub tags: Vec<(String, PayloadType)>,
}

/// The keywords of a field joined without separator.
pub open spec fn joined(ws: Seq<Seq<char>>) -> Seq<char>
    decreases ws.len(),
{
    if ws.len() == 0 {
        Seq::empty()
    } else {
        joined(ws.drop_last()) + ws.last()
    }
}

/// Fields that a document keeps in its own slots rather than as tags.
pub open spec fn is_document_field(k: Seq<char>) -> bool {
    ||| k == "id"@
    ||| k == "parent_id"@
    ||| k == "mime_type"@
    ||| k == "modality"@
    ||| k == "content_hash"@
    ||| k == "granularity"@
    ||| k == "adjacency"@
    ||| k == "siblings"@
    ||| k == "offset"@
    ||| k == "weight"@
    ||| k == "chunks"@
    ||| k == "matches"@
    ||| k == "evaluations"@
    ||| k == "blob"@
    ||| k == "buffer"@
    ||| k == "content"@
    ||| k == "text"@
    ||| k == "uri"@
}

/// The first value of a collection, as a collection of one.
pub open spec fn first_value(v: PayloadValue) -> Option<PayloadValue> {
    match v {
        PayloadValue::Keyword(ws) => if ws.len() > 0 {
            Some(PayloadValue::Keyword(seq![ws[0]]))
        } else {
            None
        },
        PayloadValue::Integer(xs) => if xs.len() > 0 {
            Some(PayloadValue::Integer(seq![xs[0]]))
        } else {
            None
        },
        PayloadValue::Float(xs) => if xs.len() > 0 {
            Some(PayloadValue::Float(seq![xs[0]]))
        } else {
            None
        },
    }
}

/// Tags of a document rebuilt from payload entries: every field that is
/// not a document field and holds a value, with its first value.
pub open spec fn tags_of(entries: Seq<(Seq<char>, PayloadValue)>) -> Seq<(Seq<char>, PayloadValue)>
    decreases entries.len(),
{
    if entries.len() == 0 {
        Seq::empty()
    } else {
        let before = tags_of(entries.drop_last());
        let e = entries.last();
        if !is_document_field(e.0) && first_value(e.1) is Some {
            before.push((e.0, first_value(e.1)->Some_0))
        } else {
            before
        }
    }
}

/// A keyword field: absent gives the empty text.
pub open spec fn keyword_field_ok(p: PayloadMap, k: Seq<char>) -> bool {
    !p.contains_key(k) || p[k] is Keyword
}

pub open spec fn keyword_field_value(p: PayloadMap, k: Seq<char>) -> Seq<char> {
    if p.contains_key(k) {
        joined(p[k]->Keyword_0)
    } else {
        Seq::empty()
    }
}

/// A counter field: absent gives zero; present, its first integer.
pub open spec fn counter_field_ok(p: PayloadMap, k: Seq<char>) -> bool {
    !p.contains_key(k) || (p[k] is Integer && p[k]->Integer_0.len() > 0)
}

pub open spec fn counter_field_value(p: PayloadMap, k: Seq<char>) -> u32 {
    if p.contains_key(k) {
        p[k]->Integer_0[0] as u32
    } else {
        0
    }
}

pub open spec fn weight_ok(p: PayloadMap) -> bool {
    !p.contains_key("weight"@) || (p["weight"@] is Float && p["weight"@]->Float_0.len() > 0)
}

pub open spec fn weight_value(p: PayloadMap) -> u64 {
    if p.contains_key("weight"@) {
        p["weight"@]->Float_0[0]
    } else {
        0
    }
}

/// Text content, where the payload holds a keyword `uri` or `text`; a URI
/// wins over a text.
pub open spec fn content_is(p: PayloadMap, c: DocumentContent) -> bool {
    if p.contains_key("uri"@) && p["uri"@] is Keyword {
        c matches DocumentContent::Uri(u) && u@ == joined(p["uri"@]->Keyword_0)
    } else if p.contains_key("text"@) && p["text"@] is Keyword {
        c matches DocumentContent::Text(t) && t@ == joined(p["text"@]->Keyword_0)
    } else {
        c is Empty
    }
}

pub open spec fn keyword_fields() -> Seq<Seq<char>> {
    seq!["id"@, "mime_type"@, "modality"@, "parent_id"@, "content_hash"@]
}

pub open spec fn counter_fields() -> Seq<Seq<char>> {
    seq!["granularity"@, "adjacency"@, "siblings"@, "offset"@]
}

/// Every document field of the payload has the type its slot takes.
pub open spec fn export_ok(p: PayloadMap) -> bool {
    &&& forall|i: int| 0 <= i < keyword_fields().len() ==> keyword_field_ok(p, #[trigger] keyword_fields()[i])
    &&& forall|i: int| 0 <= i < counter_fields().len() ==> counter_field_ok(p, #[trigger] counter_fields()[i])
    &&& weight_ok(p)
}

fn joined_keywords(ws: &Vec<String>) -> (r: String)
    ensures
        r@ == joined(strings_view(ws@)),
{
    let mut r = String::new();
    let mut i: usize = 0;
    while i < ws.len()
        invariant
            i <= ws@.len(),
            r@ == joined(strings_view(ws@).take(i as int)),
        decreases ws.len() - i,
    {
        proof {
            assert(strings_view(ws@).take(i + 1).drop_last() =~= strings_view(ws@).take(i as int));
        }
        r.append(ws[i].as_str());
        i += 1;
    }
    assert(strings_view(ws@).take(i as int) =~= strings_view(ws@));
    r
}

fn type_error(k: &str, expected: &str) -> (r: OperationError)
    ensures
        r matches OperationError::TypeError { field_name, .. } && field_name@ == k@,
{
    OperationError::TypeError { field_name: String::from_str(k), expected_type: String::from_str(expected) }
}

fn keyword_field(p: &Payload, k: &str) -> (r: Result<String, OperationError>)
    ensures
        keyword_field_ok(p@, k@) ==> r is Ok && r->Ok_0@ == keyword_field_value(p@, k@),
        !keyword_field_ok(p@, k@) ==> (r matches Err(OperationError::TypeError { field_name, .. })
            && field_name@ == k@),
{
    match p.get(&String::from_str(k)) {
        None => Ok(String::new()),
        Some(PayloadType::Keyword(ws)) => Ok(joined_keywords(ws)),
        Some(_) => Err(type_error(k, "keyword")),
    }
}

fn counter_field(p: &Payload, k: &str) -> (r: Result<u32, OperationError>)
    ensures
        counter_field_ok(p@, k@) ==> r == Ok::<u32, OperationError>(counter_field_value(p@, k@)),
        !counter_field_ok(p@, k@) ==> (r matches Err(OperationError::TypeError { field_name, .. })
            && field_name@ == k@),
{
    match p.get(&String::from_str(k)) {
        None => Ok(0),
        Some(PayloadType::Integer(xs)) => {
            if xs.len() > 0 {
                Ok(xs[0] as u32)
            } else {
                Err(type_error(k, "integer"))
            }
        },
        Some(_) => Err(type_error(k, "integer")),
    }
}

fn text_content(p: &Payload) -> (r: DocumentContent)
    ensures
        content_is(p@, r),
{
    match p.get(&String::from_str("uri")) {
        Some(PayloadType::Keyword(ws)) => {
            return DocumentContent::Uri(joined_keywords(ws));
        },
        _ => {},
    }
    match p.get(&String::from_str("text")) {
        Some(PayloadType::Keyword(ws)) => DocumentContent::Text(joined_keywords(ws)),
        _ => DocumentContent::Empty,
    }
}

fn first_of(v: &PayloadType) -> (r: Option<PayloadType>)
    ensures
        match first_value(v@) {
            Some(f) => r is Some && r->Some_0@ == f,
            None => r is None,
        },
{
    match v {
        PayloadType::Keyword(ws) => {
            if ws.len() > 0 {
                Some(keyword_of(&ws[0]))
            } else {
                None
            }
        },
        PayloadType::Integer(xs) => {
            if xs.len() > 0 {
                Some(integer_of(xs[0]))
            } else {
                None
            }
        },
        PayloadType::Float(xs) => {
            if xs.len() > 0 {
                let mut f: Vec<u64> = Vec::new();
                f.push(xs[0]);
                assert(f@ =~= seq![xs@[0]]);
                Some(PayloadType::Float(f))
            } else {
                None
            }
        },
    }
}

fn is_document_field_exec(k: &String) -> (r: bool)
    ensures
        r == is_document_field(k@),
{
    let names = [
        "id", "parent_id", "mime_type", "modality", "content_hash", "granularity", "adjacency",
        "siblings", "offset", "weight", "chunks", "matches", "evaluations", "blob", "buffer",
        "content", "text", "uri",
    ];
    let mut i: usize = 0;
    while i < 18
        invariant
            i <= 18,
            names@ == seq![
                "id", "parent_id", "mime_type", "modality", "content_hash", "granularity", "adjacency",
                "siblings", "offset", "weight", "chunks", "matches", "evaluations", "blob", "buffer",
                "content", "text", "uri",
            ],
            forall|j: int| 0 <= j < i ==> k@ != (#[trigger] names@[j])@,
        decreases 18 - i,
    {
        if *k == String::from_str(names[i]) {
            return true;
        }
        i += 1;
    }
    false
}

pub open spec fn tags_view(tags: Seq<(String, PayloadType)>) -> Seq<(Seq<char>, PayloadValue)> {
    entries_view(tags)
}

/// Rebuilds a document from a payload: text fields from keywords (all
/// values joined), counters from the first integer, the weight from the
/// first float, the content from `uri` or else `text`, and every other
/// field with a value as a tag. A document field of another type is a
/// type error.
pub fn payload_document(p: &Payload) -> (r: Result<DocumentExport, OperationError>)
    ensures
        export_ok(p@) <==> r is Ok,
        r matches Ok(d) ==> {
            &&& d.id@ == keyword_field_value(p@, "id"@)
            &&& d.mime_type@ == keyword_field_value(p@, "mime_type"@)
            &&& d.modality@ == keyword_field_value(p@, "modality"@)
            &&& d.parent_id@ == keyword_field_value(p@, "parent_id"@)
            &&& d.content_hash@ == keyword_field_value(p@, "content_hash"@)
            &&& d.granularity == counter_field_value(p@, "granularity"@)
            &&& d.adjacency == counter_field_value(p@, "adjacency"@)
            &&& d.siblings == counter_field_value(p@, "siblings"@)
            &&& d.offset == counter_field_value(p@, "offset"@)
            &&& d.weight == weight_value(p@)
            &&& content_is(p@, d.content)
            &&& tags_view(d.tags@) == tags_of(p.entry_list())
        },
        r matches Err(e) ==> e is TypeError,
{
    let id = match keyword_field(p, "id") {
        Ok(v) => v,
        Err(e) => {
            assert(keyword_fields()[0] == "id"@);
            return Err(e);
        },
    };
    let mime_type = match keyword_field(p, "mime_type") {
        Ok(v) => v,
        Err(e) => {
            assert(keyword_fields()[1] == "mime_type"@);
            return Err(e);
        },
    };
    let modality = match keyword_field(p, "modality") {
        Ok(v) => v,
        Err(e) => {
            assert(keyword_fields()[2] == "modality"@);
            return Err(e);
        },
    };
    let parent_id = match keyword_field(p, "parent_id") {
        Ok(v) => v,
        Err(e) => {
            assert(keyword_fields()[3] == "parent_id"@);
            return Err(e);
        },
    };
    let content_hash = match keyword_field(p, "content_hash") {
        Ok(v) => v,
        Err(e) => {
            assert(keyword_fields()[4] == "content_hash"@);
            return Err(e);
        },
    };
    let granularity = match counter_field(p, "granularity") {
        Ok(v) => v,
        Err(e) => {
            assert(counter_fields()[0] == "granularity"@);
            return Err(e);
        },
    };
    let adjacency = match counter_field(p, "adjacency") {
        Ok(v) => v,
        Err(e) => {
            assert(counter_fields()[1] == "adjacency"@);
            return Err(e);
        },
    };
    let siblings = match counter_field(p, "siblings") {
        Ok(v) => v,
        Err(e) => {
            assert(counter_fields()[2] == "siblings"@);
            return Err(e);
        },
    };
    let offset = match counter_field(p, "offset") {
        Ok(v) => v,
        Err(e) => {
            assert(counter_fields()[3] == "offset"@);
            return Err(e);
        },
    };
    let weight = match p.get(&String::from_str("weight")) {
        None => 0,
        Some(PayloadType::Float(xs)) => {
            if xs.len() > 0 {
                xs[0]
            } else {
                return Err(type_error("weight", "float"));
            }
        },
        Some(_) => {
            return Err(type_error("weight", "float"));
        },
    };
    proof {
        assert forall|i: int| 0 <= i < keyword_fields().len() implies keyword_field_ok(
            p@,
            #[trigger] keyword_fields()[i],
        ) by {
            assert(keyword_fields()[0] == "id"@);
            assert(keyword_fields()[1] == "mime_type"@);
            assert(keyword_fields()[2] == "modality"@);
            assert(keyword_fields()[3] == "parent_id"@);
            assert(keyword_fields()[4] == "content_hash"@);
        }
        assert forall|i: int| 0 <= i < counter_fields().len() implies counter_field_ok(
            p@,
            #[trigger] counter_fields()[i],
        ) by {
            assert(counter_fields()[0] == "granularity"@);
            assert(counter_fields()[1] == "adjacency"@);
            assert(counter_fields()[2] == "siblings"@);
            assert(counter_fields()[3] == "offset"@);
        }
        assert(export_ok(p@));
    }
    let content = text_content(p);
    let entries = p.entries();
    let mut tags: Vec<(String, PayloadType)> = Vec::new();
    let mut i: usize = 0;
    while i < entries.len()
        invariant
            i <= entries@.len(),
            entries_view(entries@) == p.entry_list(),
            tags_view(tags@) == tags_of(p.entry_list().take(i as int)),
        decreases entries.len() - i,
    {
        proof {
            assert(p.entry_list().take(i + 1).drop_last() =~= p.entry_list().take(i as int));
            assert(p.entry_list()[i as int] == (entries@[i as int].0@, entries@[i as int].1@));
        }
        if !is_document_field_exec(&entries[i].0) {
            match first_of(&entries[i].1) {
                Some(v) => {
                    let t = (entries[i].0.clone(), v);
                    proof {
                        assert(tags_view(tags@.push(t)) =~= tags_view(tags@).push((t.0@, t.1@)));
                    }
                    tags.push(t);
                },
                None => {},
            }
        }
        i += 1;
    }
    proof {
        assert(p.entry_list().take(i as int) =~= p.entry_list());
    }
    Ok(
        DocumentExport {
            id,
            parent_id,
            mime_type,
            modality,
            content_hash,
            granularity,
            adjacency,
            siblings,
            offset,
            weight,
            content,
            tags,
        },
    )
}

} // verus!
