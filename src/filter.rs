use vstd::prelude::*;

use crate::payload::{Payload, PayloadMap, PayloadType, PayloadValue, strings_view};

verus! {

/// Value that a field must hold for a match condition.
#[derive(Debug)]
pub enum MatchValue {
    Keyword(String),
    Integer(i64),
}

/// Bounds on an integer field; an absent bound does not restrict.
#[derive(Clone, Copy, Debug, PartialEq, Eq, Structural)]
pub struct Range {
    pub lt: Option<i64>,
    pub gt: Option<i64>,
    pub gte: Option<i64>,
    pub lte: Option<i64>,
}

/// Boolean expression over the payload of one point.
#[derive(Debug)]
pub enum Filter {
    /// The field holds the value among its values.
    Match { key: String, value: MatchValue },
    /// The field is an integer field with a value inside the bounds.
    Range { key: String, range: Range },
    /// The field is present.
    HasKey { key: String },
    /// Every sub-filter holds (true when there is none).
    And(Vec<Filter>),
    /// Some sub-filter holds (false when there is none).
    Or(Vec<Filter>),
    /// The sub-filter does not hold.
    Not(Box<Filter>),
}

pub open spec fn in_range(r: Range, x: i64) -> bool {
    &&& (r.lt matches Some(b) ==> x < b)
    &&& (r.gt matches Some(b) ==> x > b)
    &&& (r.gte matches Some(b) ==> x >= b)
    &&& (r.lte matches Some(b) ==> x <= b)
}

pub open spec fn value_matches(m: MatchValue, v: PayloadValue) -> bool {
    match (m, v) {
        (MatchValue::Keyword(s), PayloadValue::Keyword(ks)) => ks.contains(s@),
        (MatchValue::Integer(i), PayloadValue::Integer(ints)) => ints.contains(i),
        _ => false,
    }
}

pub open spec fn value_in_range(r: Range, v: PayloadValue) -> bool {
    &&& v is Integer
    &&& exists|j: int| 0 <= j < v->Integer_0.len() && in_range(r, #[trigger] v->Integer_0[j])
}

/// Whether a payload satisfies a filter; an absent field satisfies no field
/// condition.
pub open spec fn satisfies(f: Filter, p: PayloadMap) -> bool
    decreases f,
{
    match f {
        Filter::Match { key, value } => p.contains_key(key@) && value_matches(value, p[key@]),
        Filter::Range { key, range } => p.contains_key(key@) && value_in_range(range, p[key@]),
        Filter::HasKey { key } => p.contains_key(key@),
        Filter::And(fs) => forall|i: int| 0 <= i < fs@.len() ==> satisfies(#[trigger] fs@[i], p),
        Filter::Or(fs) => exists|i: int| 0 <= i < fs@.len() && satisfies(#[trigger] fs@[i], p),
        Filter::Not(g) => !satisfies(*g, p),
    }
}

fn value_matches_exec(m: &MatchValue, v: &PayloadType) -> (r: bool)
    ensures
        r == value_matches(*m, v@),
{
    match (m, v) {
        (MatchValue::Keyword(s), PayloadType::Keyword(ks)) => {
            let mut i: usize = 0;
            while i < ks.len()
                invariant
                    i <= ks@.len(),
                    forall|j: int| 0 <= j < i ==> ks@[j]@ != s@,
                    *m == MatchValue::Keyword(*s),
                    *v == PayloadType::Keyword(*ks),
                decreases ks.len() - i,
            {
                if ks[i] == *s {
                    assert(strings_view(ks@)[i as int] == s@);
                    assert(strings_view(ks@).contains(s@));
                    return true;
                }
                i += 1;
            }
            proof {
                if strings_view(ks@).contains(s@) {
                    let j = choose|j: int|
                        0 <= j < strings_view(ks@).len() && strings_view(ks@)[j] == s@;
                    assert(ks@[j]@ == s@);
                }
            }
            false
        },
        (MatchValue::Integer(x), PayloadType::Integer(ints)) => {
            let mut i: usize = 0;
            while i < ints.len()
                invariant
                    i <= ints@.len(),
                    forall|j: int| 0 <= j < i ==> ints@[j] != *x,
                    *m == MatchValue::Integer(*x),
                    *v == PayloadType::Integer(*ints),
                decreases ints.len() - i,
            {
                if ints[i] == *x {
                    assert(ints@[i as int] == *x);
                    assert(ints@.contains(*x));
                    return true;
                }
                i += 1;
            }
            false
        },
        _ => false,
    }
}

fn in_range_exec(r: &Range, x: i64) -> (b: bool)
    ensures
        b == in_range(*r, x),
{
    let lt_ok = match r.lt {
        Some(b) => x < b,
        None => true,
    };
    let gt_ok = match r.gt {
        Some(b) => x > b,
        None => true,
    };
    let gte_ok = match r.gte {
        Some(b) => x >= b,
        None => true,
    };
    let lte_ok = match r.lte {
        Some(b) => x <= b,
        None => true,
    };
    lt_ok && gt_ok && gte_ok && lte_ok
}

fn value_in_range_exec(r: &Range, v: &PayloadType) -> (b: bool)
    ensures
        b == value_in_range(*r, v@),
{
    match v {
        PayloadType::Integer(ints) => {
            let mut i: usize = 0;
            while i < ints.len()
                invariant
                    i <= ints@.len(),
                    forall|j: int| 0 <= j < i ==> !in_range(*r, #[trigger] ints@[j]),
                    *v == PayloadType::Integer(*ints),
                decreases ints.len() - i,
            {
                if in_range_exec(r, ints[i]) {
                    assert(in_range(*r, ints@[i as int]));
                    assert(v@->Integer_0 == ints@);
                    return true;
                }
                i += 1;
            }
            false
        },
        _ => false,
    }
}

/// Evaluates a filter on one payload.
pub fn check_payload(f: &Filter, p: &Payload) -> (r: bool)
    ensures
        r == satisfies(*f, p@),
    decreases f,
{
    match f {
        Filter::Match { key, value } => match p.get(key) {
            Some(v) => value_matches_exec(value, v),
            None => false,
        },
        Filter::Range { key, range } => match p.get(key) {
            Some(v) => value_in_range_exec(range, v),
            None => false,
        },
        Filter::HasKey { key } => p.get(key).is_some(),
        Filter::And(fs) => {
            let mut i: usize = 0;
            while i < fs.len()
                invariant
                    i <= fs@.len(),
                    forall|j: int| 0 <= j < i ==> satisfies(#[trigger] fs@[j], p@),
                    *f == Filter::And(*fs),
                decreases fs.len() - i,
            {
                proof {
                    assert(decreases_to!(*f => (*f)->And_0));
                    assert(decreases_to!((*f)->And_0 => (*f)->And_0@));
                    assert(decreases_to!(fs@ => fs@[i as int]));
                }
                if !check_payload(&fs[i], p) {
                    assert(!satisfies(fs@[i as int], p@));
                    assert(!satisfies(*f, p@));
                    return false;
                }
                i += 1;
            }
            true
        },
        Filter::Or(fs) => {
            let mut i: usize = 0;
            while i < fs.len()
                invariant
                    i <= fs@.len(),
                    forall|j: int| 0 <= j < i ==> !satisfies(#[trigger] fs@[j], p@),
                    *f == Filter::Or(*fs),
                decreases fs.len() - i,
            {
                proof {
                    assert(decreases_to!(*f => (*f)->Or_0));
                    assert(decreases_to!((*f)->Or_0 => (*f)->Or_0@));
                    assert(decreases_to!(fs@ => fs@[i as int]));
                }
                if check_payload(&fs[i], p) {
                    assert(satisfies(fs@[i as int], p@));
                    assert(satisfies(*f, p@));
                    return true;
                }
                i += 1;
            }
            false
        },
        Filter::Not(g) => !check_payload(g, p),
    }
}

/// Some filter of the list holds.
pub open spec fn any_of(fs: Seq<Filter>, p: PayloadMap) -> bool {
    exists|i: int| 0 <= i < fs.len() && satisfies(#[trigger] fs[i], p)
}

/// Every filter of the list holds.
pub open spec fn all_of(fs: Seq<Filter>, p: PayloadMap) -> bool {
    forall|i: int| 0 <= i < fs.len() ==> satisfies(#[trigger] fs[i], p)
}

/// Meaning of a filter given as clauses: some `should` holds, every `must`
/// holds, no `must_not` holds; an absent clause does not restrict.
pub open spec fn clauses_hold(
    should: Option<Vec<Filter>>,
    must: Option<Vec<Filter>>,
    must_not: Option<Vec<Filter>>,
    p: PayloadMap,
) -> bool {
    &&& (should matches Some(s) ==> any_of(s@, p))
    &&& (must matches Some(m) ==> all_of(m@, p))
    &&& (must_not matches Some(n) ==> !any_of(n@, p))
}

/// The filter that the three clause lists describe.
pub fn filter_from_clauses(
    should: Option<Vec<Filter>>,
    must: Option<Vec<Filter>>,
    must_not: Option<Vec<Filter>>,
) -> (r: Filter)
    ensures
        forall|p: PayloadMap| #[trigger] satisfies(r, p) == clauses_hold(should, must, must_not, p),
{
    let ghost (s0, m0, n0) = (should, must, must_not);
    let mut parts: Vec<Filter> = Vec::new();
    match should {
        Some(s) => {
            parts.push(Filter::Or(s));
        },
        None => {},
    }
    let ghost n_should = parts@.len();
    match must {
        Some(m) => {
            parts.push(Filter::And(m));
        },
        None => {},
    }
    let ghost n_must = parts@.len();
    match must_not {
        Some(n) => {
            parts.push(Filter::Not(Box::new(Filter::Or(n))));
        },
        None => {},
    }
    let r = Filter::And(parts);
    proof {
        assert forall|p: PayloadMap| #[trigger] satisfies(r, p) == clauses_hold(s0, m0, n0, p) by {
            let ps = r->And_0@;
            if s0 is Some {
                assert(ps[0] == Filter::Or(s0->Some_0));
                assert(ps[0]->Or_0 == s0->Some_0);
                assert(satisfies(ps[0], p) == any_of(s0->Some_0@, p));
            }
            if m0 is Some {
                let k = n_should as int;
                assert(ps[k] == Filter::And(m0->Some_0));
                assert(ps[k]->And_0 == m0->Some_0);
                assert(satisfies(ps[k], p) == all_of(m0->Some_0@, p));
            }
            if n0 is Some {
                let k = n_must as int;
                let inner = Filter::Or(n0->Some_0);
                assert(inner->Or_0 == n0->Some_0);
                assert(ps[k] == Filter::Not(Box::new(inner)));
                assert(satisfies(inner, p) == any_of(n0->Some_0@, p));
                assert(satisfies(ps[k], p) == !any_of(n0->Some_0@, p));
            }
        }
    }
    r
}

} // verus!
