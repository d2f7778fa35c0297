use vstd::prelude::*;

use crate::payload::{PayloadKeyType, PayloadType, PayloadValue, strings_view};
use crate::types::{OperationError, OperationResult};

verus! {

/// A structured value tree, as read from a structured-text document.
#[derive(Debug)]
pub enum JsonValue {
    Null,
    Bool(bool),
    /// A number: `Some` when it is an integer that fits `i64`, `None` otherwise.
    Number(Option<i64>),
    String(String),
    Array(Vec<JsonValue>),
    /// Fields of an object, in document order.
    Object(Vec<(String, JsonValue)>),
}

/// A flattened field: its joined name and its value, `None` for a null.
pub type FlatField = (Seq<char>, Option<PayloadValue>);

pub open spec fn bool_text(b: bool) -> Seq<char> {
    if b {
        seq!['t', 'r', 'u', 'e']
    } else {
        seq!['f', 'a', 'l', 's', 'e']
    }
}

/// Name of a nested field: the parent's name, `__`, then its own.
pub open spec fn nested_key(prefix: Option<Seq<char>>, k: Seq<char>) -> Seq<char> {
    match prefix {
        None => k,
        Some(p) => p + seq!['_', '_'] + k,
    }
}

/// Fields that a value contributes under the name `key`; `None` when it holds
/// a number that is not an `i64`.
pub open spec fn flatten_value(key: Seq<char>, v: JsonValue) -> Option<Seq<FlatField>>
    decreases v, 0int,
{
    match v {
        JsonValue::Null => Some(seq![(key, None)]),
        JsonValue::Bool(b) => Some(seq![(key, Some(PayloadValue::Keyword(seq![bool_text(b)])))]),
        JsonValue::Number(Some(i)) => Some(seq![(key, Some(PayloadValue::Integer(seq![i])))]),
        JsonValue::Number(None) => None,
        JsonValue::String(s) => Some(seq![(key, Some(PayloadValue::Keyword(seq![s@])))]),
        JsonValue::Array(_) => Some(Seq::empty()),
        JsonValue::Object(fields) => flatten_fields(fields@, Some(key)),
    }
}

/// Fields that the members of an object contribute, in order.
pub open spec fn flatten_fields(fields: Seq<(String, JsonValue)>, prefix: Option<Seq<char>>) -> Option<
    Seq<FlatField>,
>
    decreases fields, 1int,
{
    if fields.len() == 0 {
        Some(Seq::empty())
    } else {
        let last = fields[fields.len() - 1];
        match flatten_fields(fields.drop_last(), prefix) {
            None => None,
            Some(a) => match flatten_value(nested_key(prefix, last.0@), last.1) {
                None => None,
                Some(b) => Some(a + b),
            },
        }
    }
}

pub open spec fn flat_view(r: Seq<(PayloadKeyType, Option<PayloadType>)>) -> Seq<FlatField> {
    r.map_values(
        |e: (PayloadKeyType, Option<PayloadType>)|
            (
                e.0@,
                match e.1 {
                    Some(v) => Some(v@),
                    None => None,
                },
            ),
    )
}

fn single(key: String, value: Option<PayloadType>) -> (r: Vec<(PayloadKeyType, Option<PayloadType>)>)
    ensures
        flat_view(r@) == seq![
            (
                key@,
                match value {
                    Some(v) => Some(v@),
                    None => None,
                },
            ),
        ],
{
    let mut r: Vec<(PayloadKeyType, Option<PayloadType>)> = Vec::new();
    r.push((key, value));
    assert(flat_view(r@) =~= seq![
        (
            key@,
            match value {
                Some(v) => Some(v@),
                None => None,
            },
        ),
    ]);
    r
}

fn key_under(prefix: Option<&String>, k: &String) -> (r: String)
    ensures
        r@ == nested_key(
            match prefix {
                Some(p) => Some(p@),
                None => None,
            },
            k@,
        ),
{
    match prefix {
        None => k.clone(),
        Some(p) => {
            let sep = String::from_str("__");
            proof {
                reveal_strlit("__");
            }
            let mut key = p.clone();
            key.append(sep.as_str());
            key.append(k.as_str());
            key
        },
    }
}

/// Flattens the fields of an object into payload fields: a nested object's
/// fields are named `parent__child`, booleans and strings become keywords,
/// integers become integers, nulls stay as `None` and arrays are left out.
/// A number that is not an `i64` is a type error.
pub fn extract_payloads(payload: &Vec<(PayloadKeyType, JsonValue)>, prefix_key: Option<&PayloadKeyType>) -> (r:
    OperationResult<Vec<(PayloadKeyType, Option<PayloadType>)>>)
    ensures
        match flatten_fields(
            payload@,
            match prefix_key {
                Some(p) => Some(p@),
                None => None,
            },
        ) {
            Some(f) => r is Ok && flat_view(r->Ok_0@) == f,
            None => r is Err && r->Err_0 is TypeError,
        },
    decreases payload, 1int,
{
    let ghost prefix = match prefix_key {
        Some(p) => Some(p@),
        None => None,
    };
    let mut out: Vec<(PayloadKeyType, Option<PayloadType>)> = Vec::new();
    let mut i: usize = 0;
    while i < payload.len()
        invariant
            i <= payload@.len(),
            prefix == match prefix_key {
                Some(p) => Some(p@),
                None => None,
            },
            flatten_fields(payload@.take(i as int), prefix) == Some(flat_view(out@)),
        decreases payload.len() - i,
    {
        proof {
            assert(payload@.take(i + 1).drop_last() =~= payload@.take(i as int));
            assert(decreases_to!(payload => payload@[i as int].1));
        }
        let key = key_under(prefix_key, &payload[i].0);
        let part = extract_value(key, &payload[i].1);
        match part {
            Err(e) => {
                proof {
                    assert(flatten_fields(payload@.take(i + 1), prefix) is None);
                    lemma_flatten_prefix_none(payload@, prefix, i + 1);
                    assert(payload@.take(payload@.len() as int) =~= payload@);
                }
                return Err(e);
            },
            Ok(mut part) => {
                proof {
                    assert(flat_view(out@ + part@) =~= flat_view(out@) + flat_view(part@));
                }
                out.append(&mut part);
                i += 1;
            },
        }
    }
    assert(payload@.take(payload@.len() as int) =~= payload@);
    Ok(out)
}

proof fn lemma_flatten_prefix_none(fields: Seq<(String, JsonValue)>, prefix: Option<Seq<char>>, n: int)
    requires
        0 < n <= fields.len(),
        flatten_fields(fields.take(n), prefix) is None,
    ensures
        flatten_fields(fields, prefix) is None,
    decreases fields.len() - n,
{
    if n < fields.len() {
        assert(fields.take(n + 1).drop_last() =~= fields.take(n));
        lemma_flatten_prefix_none(fields, prefix, n + 1);
    } else {
        assert(fields.take(n) =~= fields);
    }
}

/// Fields that one value contributes under the given name.
fn extract_value(key: PayloadKeyType, value: &JsonValue) -> (r: OperationResult<
    Vec<(PayloadKeyType, Option<PayloadType>)>,
>)
    ensures
        match flatten_value(key@, *value) {
            Some(f) => r is Ok && flat_view(r->Ok_0@) == f,
            None => r is Err && r->Err_0 is TypeError,
        },
    decreases *value, 0int,
{
    match value {
        JsonValue::Null => Ok(single(key, None)),
        JsonValue::Bool(b) => {
            let text = if *b {
                let t = String::from_str("true");
                proof {
                    reveal_strlit("true");
                    assert(t@ =~= bool_text(true));
                }
                t
            } else {
                let t = String::from_str("false");
                proof {
                    reveal_strlit("false");
                    assert(t@ =~= bool_text(false));
                }
                t
            };
            let mut words: Vec<String> = Vec::new();
            words.push(text);
            assert(strings_view(words@) =~= seq![bool_text(*b)]);
            Ok(single(key, Some(PayloadType::Keyword(words))))
        },
        JsonValue::Number(Some(x)) => {
            let mut ints: Vec<i64> = Vec::new();
            ints.push(*x);
            assert(ints@ =~= seq![*x]);
            Ok(single(key, Some(PayloadType::Integer(ints))))
        },
        JsonValue::Number(None) => {
            proof {
                reveal_strlit("integer");
            }
            Err(OperationError::TypeError { field_name: key, expected_type: String::from_str("integer") })
        },
        JsonValue::String(s) => {
            let mut words: Vec<String> = Vec::new();
            words.push(s.clone());
            assert(strings_view(words@) =~= seq![s@]);
            Ok(single(key, Some(PayloadType::Keyword(words))))
        },
        JsonValue::Array(_) => {
            let r: Vec<(PayloadKeyType, Option<PayloadType>)> = Vec::new();
            assert(flat_view(r@) =~= Seq::<FlatField>::empty());
            Ok(r)
        },
        JsonValue::Object(fields) => extract_payloads(fields, Some(&key)),
    }
}

} // verus!
