use vstd::prelude::*;

use crate::types::{OperationError, OperationResult};

verus! {

/// Name of a payload field; nested fields are joined with `__`.
pub type PayloadKeyType = String;

/// Abstract value of a payload field: always a collection of one scalar kind.
pub enum PayloadValue {
    Keyword(Seq<Seq<char>>),
    Integer(Seq<i64>),
    Float(Seq<u64>),
}

/// Abstract payload of a point: field name to value.
pub type PayloadMap = Map<Seq<char>, PayloadValue>;

/// Value of a payload field. Floats are kept as their IEEE-754 binary64 bit
/// patterns: the library stores and compares them but does no arithmetic.
#[derive(Debug)]
pub enum PayloadType {
    Keyword(Vec<String>),
    Integer(Vec<i64>),
    Float(Vec<u64>),
}

/// Type of a payload field, as reported by a storage schema.
#[derive(Clone, Copy, Debug, PartialEq, Eq, Structural)]
pub enum PayloadSchemaType {
    Keyword,
    Integer,
    Float,
}

pub open spec fn strings_view(v: Seq<String>) -> Seq<Seq<char>> {
    v.map_values(|s: String| s@)
}

impl View for PayloadType {
    type V = PayloadValue;

    open spec fn view(&self) -> PayloadValue {
        match self {
            PayloadType::Keyword(v) => PayloadValue::Keyword(strings_view(v@)),
            PayloadType::Integer(v) => PayloadValue::Integer(v@),
            PayloadType::Float(v) => PayloadValue::Float(v@),
        }
    }
}

pub open spec fn schema_type_of(v: PayloadValue) -> PayloadSchemaType {
    match v {
        PayloadValue::Keyword(_) => PayloadSchemaType::Keyword,
        PayloadValue::Integer(_) => PayloadSchemaType::Integer,
        PayloadValue::Float(_) => PayloadSchemaType::Float,
    }
}

fn clone_strings(v: &Vec<String>) -> (r: Vec<String>)
    ensures
        strings_view(r@) == strings_view(v@),
{
    let mut r: Vec<String> = Vec::new();
    let mut i: usize = 0;
    while i < v.len()
        invariant
            i <= v.len(),
            strings_view(r@) == strings_view(v@.take(i as int)),
        decreases v.len() - i,
    {
        let c = v[i].clone();
        proof {
            assert(v@.take(i + 1) == v@.take(i as int).push(v@[i as int]));
            assert(strings_view(r@.push(c)) =~= strings_view(r@).push(c@));
            assert(strings_view(v@.take(i + 1)) =~= strings_view(v@.take(i as int)).push(
                v@[i as int]@,
            ));
        }
        r.push(c);
        i += 1;
    }
    assert(v@.take(v.len() as int) == v@);
    r
}

impl PayloadType {
    /// A copy with the same abstract value.
    pub fn clone_value(&self) -> (r: PayloadType)
        ensures
            r@ == self@,
    {
        match self {
            PayloadType::Keyword(v) => PayloadType::Keyword(clone_strings(v)),
            PayloadType::Integer(v) => {
                let c = v.clone();
                assert(c@ =~= v@);
                PayloadType::Integer(c)
            },
            PayloadType::Float(v) => {
                let c = v.clone();
                assert(c@ =~= v@);
                PayloadType::Float(c)
            },
        }
    }

    /// The schema type of this value.
    pub fn schema_type(&self) -> (r: PayloadSchemaType)
        ensures
            r == schema_type_of(self@),
    {
        match self {
            PayloadType::Keyword(_) => PayloadSchemaType::Keyword,
            PayloadType::Integer(_) => PayloadSchemaType::Integer,
            PayloadType::Float(_) => PayloadSchemaType::Float,
        }
    }
}

/// Abstract entries of a payload, in storage order.
pub open spec fn entries_view(s: Seq<(String, PayloadType)>) -> Seq<(Seq<char>, PayloadValue)> {
    s.map_values(|e: (String, PayloadType)| (e.0@, e.1@))
}

/// No field name occurs twice.
pub open spec fn keys_distinct(s: Seq<(Seq<char>, PayloadValue)>) -> bool {
    forall|i: int, j: int| 0 <= i < s.len() && 0 <= j < s.len() && i != j ==> s[i].0 != s[j].0
}

pub open spec fn has_key(s: Seq<(Seq<char>, PayloadValue)>, k: Seq<char>) -> bool {
    exists|i: int| 0 <= i < s.len() && s[i].0 == k
}

/// The map that a list of entries with distinct names stands for.
pub open spec fn entries_map(s: Seq<(Seq<char>, PayloadValue)>) -> PayloadMap {
    Map::new(
        |k: Seq<char>| has_key(s, k),
        |k: Seq<char>| s[choose|i: int| 0 <= i < s.len() && s[i].0 == k].1,
    )
}

proof fn lemma_entries_map_at(s: Seq<(Seq<char>, PayloadValue)>, i: int)
    requires
        keys_distinct(s),
        0 <= i < s.len(),
    ensures
        entries_map(s).contains_key(s[i].0),
        entries_map(s)[s[i].0] == s[i].1,
{
    let k = s[i].0;
    assert(has_key(s, k));
    let j = choose|j: int| 0 <= j < s.len() && s[j].0 == k;
    assert(j == i);
}

/// Structured payload of one point: a map from field name to value.
#[derive(Debug)]
pub struct Payload {
    entries: Vec<(String, PayloadType)>,
}

impl View for Payload {
    type V = PayloadMap;

    closed spec fn view(&self) -> PayloadMap {
        entries_map(entries_view(self.entries@))
    }
}

impl Payload {
    /// Field names are distinct.
    #[verifier::type_invariant]
    pub closed spec fn wf(&self) -> bool {
        keys_distinct(entries_view(self.entries@))
    }

    pub closed spec fn entry_list(&self) -> Seq<(Seq<char>, PayloadValue)> {
        entries_view(self.entries@)
    }

    /// The listed entries are exactly those of the map.
    pub proof fn lemma_entry_list(&self)
        requires
            self.wf(),
        ensures
            keys_distinct(self.entry_list()),
            self@ == entries_map(self.entry_list()),
            self@.dom().finite(),
            self@.dom().len() == self.entry_list().len(),
            forall|i: int|
                0 <= i < self.entry_list().len() ==> #[trigger] self@.contains_key(
                    self.entry_list()[i].0,
                ) && self@[self.entry_list()[i].0] == self.entry_list()[i].1,
    {
        let s = self.entry_list();
        assert forall|i: int| 0 <= i < s.len() implies #[trigger] self@.contains_key(s[i].0)
            && self@[s[i].0] == s[i].1 by {
            lemma_entries_map_at(s, i);
        }
        let keys = s.map_values(|e: (Seq<char>, PayloadValue)| e.0);
        assert(keys.no_duplicates());
        keys.unique_seq_to_set();
        assert forall|k: Seq<char>| self@.dom().contains(k) <==> keys.to_set().contains(k) by {
            if has_key(s, k) {
                let j = choose|j: int| 0 <= j < s.len() && s[j].0 == k;
                assert(keys[j] == k);
            }
            if keys.contains(k) {
                let j = choose|j: int| 0 <= j < keys.len() && keys[j] == k;
                assert(s[j].0 == k);
            }
        }
        assert(self@.dom() =~= keys.to_set());
    }

    /// Setting the listed fields one by one on an empty payload gives the
    /// payload itself.
    pub proof fn lemma_entries_prefix(&self, i: int)
        requires
            self.wf(),
            0 <= i < self.entry_list().len(),
        ensures
            entries_map(self.entry_list().take(i + 1)) == entries_map(self.entry_list().take(i)).insert(
                self.entry_list()[i].0,
                self.entry_list()[i].1,
            ),
            entries_map(self.entry_list().take(0)) == Map::<Seq<char>, PayloadValue>::empty(),
            entries_map(self.entry_list().take(self.entry_list().len() as int)) == self@,
    {
        let s = self.entry_list();
        let a = s.take(i);
        let b = s.take(i + 1);
        assert(keys_distinct(a));
        assert(keys_distinct(b));
        let k = s[i].0;
        assert forall|kk: Seq<char>| has_key(b, kk) <==> has_key(a, kk) || kk == k by {
            if has_key(b, kk) {
                let j = choose|j: int| 0 <= j < b.len() && b[j].0 == kk;
                if j < i {
                    assert(a[j].0 == kk);
                }
            }
            if has_key(a, kk) {
                let j = choose|j: int| 0 <= j < a.len() && a[j].0 == kk;
                assert(b[j].0 == kk);
            }
            if kk == k {
                assert(b[i].0 == kk);
            }
        }
        assert forall|kk: Seq<char>| #[trigger] entries_map(b).contains_key(kk) implies entries_map(b)[kk]
            == entries_map(a).insert(k, s[i].1)[kk] by {
            let j = choose|j: int| 0 <= j < b.len() && b[j].0 == kk;
            lemma_entries_map_at(b, j);
            if j < i {
                lemma_entries_map_at(a, j);
            }
        }
        assert(entries_map(b) =~= entries_map(a).insert(k, s[i].1));
        assert(entries_map(s.take(0)) =~= Map::<Seq<char>, PayloadValue>::empty());
        assert(s.take(s.len() as int) =~= s);
    }

    /// An empty payload.
    pub fn new() -> (r: Payload)
        ensures
            r.wf(),
            r@ == Map::<Seq<char>, PayloadValue>::empty(),
    {
        let r = Payload { entries: Vec::new() };
        assert(r@ =~= Map::<Seq<char>, PayloadValue>::empty());
        r
    }

    /// Number of fields.
    pub fn len(&self) -> (r: usize)
        ensures
            r == self@.dom().len(),
    {
        proof {
            use_type_invariant(self);
            self.lemma_entry_list();
        }
        self.entries.len()
    }

    /// The fields, each once, in storage order.
    pub fn entries(&self) -> (r: &Vec<(String, PayloadType)>)
        ensures
            entries_view(r@) == self.entry_list(),
    {
        &self.entries
    }

    fn find(&self, key: &String) -> (r: Option<usize>)
        ensures
            match r {
                Some(i) => i < self.entries@.len() && self.entries@[i as int].0@ == key@,
                None => !has_key(entries_view(self.entries@), key@),
            },
    {
        let mut i: usize = 0;
        while i < self.entries.len()
            invariant
                i <= self.entries@.len(),
                forall|j: int| 0 <= j < i ==> self.entries@[j].0@ != key@,
            decreases self.entries.len() - i,
        {
            if self.entries[i].0 == *key {
                return Some(i);
            }
            i += 1;
        }
        proof {
            let s = entries_view(self.entries@);
            if has_key(s, key@) {
                let j = choose|j: int| 0 <= j < s.len() && s[j].0 == key@;
                assert(self.entries@[j].0@ == key@);
            }
        }
        None
    }

    /// The value of a field, if present.
    pub fn get(&self, key: &String) -> (r: Option<&PayloadType>)
        ensures
            match r {
                Some(v) => self@.contains_key(key@) && self@[key@] == v@,
                None => !self@.contains_key(key@),
            },
    {
        proof {
            use_type_invariant(self);
        }
        match self.find(key) {
            Some(i) => {
                proof {
                    lemma_entries_map_at(entries_view(self.entries@), i as int);
                }
                Some(&self.entries[i].1)
            },
            None => None,
        }
    }

    /// Sets a field, replacing any value it had.
    pub fn insert(&mut self, key: String, value: PayloadType)
        ensures
            final(self).wf(),
            final(self)@ == old(self)@.insert(key@, value@),
    {
        let ghost k = key@;
        let ghost v = value@;
        let ghost old_s = entries_view(self.entries@);
        proof {
            use_type_invariant(&*self);
        }
        let found = self.find(&key);
        let mut taken = Payload::new();
        std::mem::swap(self, &mut taken);
        let Payload { entries } = taken;
        let mut entries = entries;
        match found {
            Some(i) => {
                proof {
                    assert(old_s[i as int].0 == k);
                }
                entries.set(i, (key, value));
                proof {
                    let s = entries_view(entries@);
                    assert(s =~= old_s.update(i as int, (k, v)));
                    assert(keys_distinct(s));
                    assert(s =~= old_s.update(i as int, (k, v)));
                    assert forall|kk: Seq<char>| has_key(s, kk) <==> has_key(old_s, kk) || kk == k by {
                        assert(s[i as int].0 == k);
                        if has_key(old_s, kk) {
                            let j = choose|j: int| 0 <= j < old_s.len() && old_s[j].0 == kk;
                            assert(s[j].0 == kk);
                        }
                        if has_key(s, kk) {
                            let j = choose|j: int| 0 <= j < s.len() && s[j].0 == kk;
                            if j != i {
                                assert(old_s[j].0 == kk);
                            }
                        }
                    }
                    assert forall|kk: Seq<char>| #[trigger]
                        entries_map(s).contains_key(kk) implies entries_map(s)[kk] == entries_map(
                        old_s,
                    ).insert(k, v)[kk] by {
                        let j = choose|j: int| 0 <= j < s.len() && s[j].0 == kk;
                        lemma_entries_map_at(s, j);
                        if j != i {
                            lemma_entries_map_at(old_s, j);
                        }
                    }
                    assert(entries_map(s) =~= entries_map(old_s).insert(k, v));
                }
            },
            None => {
                entries.push((key, value));
                proof {
                    let s = old_s.push((k, v));
                    assert(entries_view(entries@) =~= s);
                    assert forall|a: int, b: int|
                        0 <= a < s.len() && 0 <= b < s.len() && a != b implies s[a].0 != s[b].0 by {
                        if a == old_s.len() {
                            assert(!has_key(old_s, s[b].0) || s[b].0 != k);
                        } else if b == old_s.len() {
                            assert(!has_key(old_s, s[a].0) || s[a].0 != k);
                        }
                    }
                }
                proof {
                    let s = entries_view(entries@);
                    assert(s =~= old_s.push((k, v)));
                    assert forall|kk: Seq<char>| has_key(s, kk) <==> has_key(old_s, kk) || kk == k by {
                        if has_key(old_s, kk) {
                            let j = choose|j: int| 0 <= j < old_s.len() && old_s[j].0 == kk;
                            assert(s[j].0 == kk);
                        }
                        if kk == k {
                            assert(s[old_s.len() as int].0 == kk);
                        }
                        if has_key(s, kk) {
                            let j = choose|j: int| 0 <= j < s.len() && s[j].0 == kk;
                            if j < old_s.len() {
                                assert(old_s[j].0 == kk);
                            }
                        }
                    }
                    assert forall|kk: Seq<char>| #[trigger]
                        entries_map(s).contains_key(kk) implies entries_map(s)[kk] == entries_map(
                        old_s,
                    ).insert(k, v)[kk] by {
                        let j = choose|j: int| 0 <= j < s.len() && s[j].0 == kk;
                        lemma_entries_map_at(s, j);
                        if j < old_s.len() {
                            lemma_entries_map_at(old_s, j);
                        }
                    }
                    assert(entries_map(s) =~= entries_map(old_s).insert(k, v));
                }
            },
        }
        *self = Payload { entries };
    }

    /// Removes a field, returning the value it had.
    pub fn remove(&mut self, key: &String) -> (r: Option<PayloadType>)
        ensures
            final(self).wf(),
            final(self)@ == old(self)@.remove(key@),
            match r {
                Some(v) => old(self)@.contains_key(key@) && old(self)@[key@] == v@,
                None => !old(self)@.contains_key(key@),
            },
    {
        let ghost k = key@;
        let ghost old_s = entries_view(self.entries@);
        proof {
            use_type_invariant(&*self);
        }
        match self.find(key) {
            Some(i) => {
                let mut taken = Payload::new();
                std::mem::swap(self, &mut taken);
                let Payload { entries } = taken;
                let mut entries = entries;
                proof {
                    lemma_entries_map_at(old_s, i as int);
                    let s = old_s.remove(i as int);
                    assert forall|a: int, b: int|
                        0 <= a < s.len() && 0 <= b < s.len() && a != b implies s[a].0 != s[b].0 by {
                        let a2 = if a < i { a } else { a + 1 };
                        let b2 = if b < i { b } else { b + 1 };
                        assert(s[a] == old_s[a2] && s[b] == old_s[b2]);
                    }
                }
                let (_, v) = entries.remove(i);
                proof {
                    let s = entries_view(entries@);
                    assert(s =~= old_s.remove(i as int));
                    assert forall|kk: Seq<char>| has_key(s, kk) <==> has_key(old_s, kk) && kk != k by {
                        if has_key(old_s, kk) && kk != k {
                            let j = choose|j: int| 0 <= j < old_s.len() && old_s[j].0 == kk;
                            if j < i {
                                assert(s[j].0 == kk);
                            } else {
                                assert(s[j - 1].0 == kk);
                            }
                        }
                        if has_key(s, kk) {
                            let j = choose|j: int| 0 <= j < s.len() && s[j].0 == kk;
                            if j < i {
                                assert(old_s[j].0 == kk);
                            } else {
                                assert(old_s[j + 1].0 == kk);
                            }
                        }
                    }
                    assert forall|kk: Seq<char>| #[trigger]
                        entries_map(s).contains_key(kk) implies entries_map(s)[kk] == entries_map(
                        old_s,
                    )[kk] by {
                        let j = choose|j: int| 0 <= j < s.len() && s[j].0 == kk;
                        lemma_entries_map_at(s, j);
                        if j < i {
                            lemma_entries_map_at(old_s, j);
                        } else {
                            lemma_entries_map_at(old_s, j + 1);
                        }
                    }
                    assert(entries_map(s) =~= entries_map(old_s).remove(k));
                }
                *self = Payload { entries };
                Some(v)
            },
            None => {
                assert(entries_map(old_s) =~= entries_map(old_s).remove(k));
                None
            },
        }
    }

    /// A copy with the same fields.
    pub fn clone_payload(&self) -> (r: Payload)
        ensures
            r.wf(),
            r@ == self@,
            r.entry_list() == self.entry_list(),
    {
        proof {
            use_type_invariant(self);
        }
        let mut entries: Vec<(String, PayloadType)> = Vec::new();
        let mut i: usize = 0;
        while i < self.entries.len()
            invariant
                i <= self.entries@.len(),
                entries_view(entries@) == entries_view(self.entries@).take(i as int),
            decreases self.entries.len() - i,
        {
            let e = (self.entries[i].0.clone(), self.entries[i].1.clone_value());
            proof {
                assert(entries_view(entries@.push(e)) =~= entries_view(entries@).push((e.0@, e.1@)));
                assert(entries_view(self.entries@).take(i + 1) =~= entries_view(self.entries@).take(
                    i as int,
                ).push(entries_view(self.entries@)[i as int]));
            }
            entries.push(e);
            i += 1;
        }
        assert(entries_view(self.entries@).take(i as int) =~= entries_view(self.entries@));
        Payload { entries }
    }
}

/// A field value as a client sends it: one value or a list of values.
#[derive(Debug)]
pub enum PayloadInput {
    Keyword(String),
    Integer(i64),
    /// IEEE-754 binary64 bit pattern.
    Float(u64),
    KeywordVec(Vec<String>),
    IntegerVec(Vec<i64>),
    FloatVec(Vec<u64>),
}

/// A single value becomes a collection of one; a list is kept as it is.
pub open spec fn input_value(v: PayloadInput) -> PayloadValue {
    match v {
        PayloadInput::Keyword(s) => PayloadValue::Keyword(seq![s@]),
        PayloadInput::Integer(x) => PayloadValue::Integer(seq![x]),
        PayloadInput::Float(x) => PayloadValue::Float(seq![x]),
        PayloadInput::KeywordVec(v) => PayloadValue::Keyword(strings_view(v@)),
        PayloadInput::IntegerVec(v) => PayloadValue::Integer(v@),
        PayloadInput::FloatVec(v) => PayloadValue::Float(v@),
    }
}

/// The payload of client fields; where a name repeats, its first value wins.
pub open spec fn inputs_map(s: Seq<(String, PayloadInput)>) -> PayloadMap
    decreases s.len(),
{
    if s.len() == 0 {
        Map::empty()
    } else {
        inputs_map(s.subrange(1, s.len() as int)).insert(s[0].0@, input_value(s[0].1))
    }
}

/// Stores a client value: a single value as a collection of one.
pub fn payload_from_input(v: PayloadInput) -> (r: PayloadType)
    ensures
        r@ == input_value(v),
{
    match v {
        PayloadInput::Keyword(s) => {
            let ghost sv = s@;
            let mut w: Vec<String> = Vec::new();
            w.push(s);
            assert(strings_view(w@) =~= seq![sv]);
            PayloadType::Keyword(w)
        },
        PayloadInput::Integer(x) => {
            let mut w: Vec<i64> = Vec::new();
            w.push(x);
            assert(w@ =~= seq![x]);
            PayloadType::Integer(w)
        },
        PayloadInput::Float(x) => {
            let mut w: Vec<u64> = Vec::new();
            w.push(x);
            assert(w@ =~= seq![x]);
            PayloadType::Float(w)
        },
        PayloadInput::KeywordVec(v) => PayloadType::Keyword(v),
        PayloadInput::IntegerVec(v) => PayloadType::Integer(v),
        PayloadInput::FloatVec(v) => PayloadType::Float(v),
    }
}

/// The payload of a list of client fields.
pub fn payload_from_inputs(fields: Vec<(String, PayloadInput)>) -> (r: Payload)
    ensures
        r@ == inputs_map(fields@),
{
    let ghost all = fields@;
    let mut fields = fields;
    let mut payload = Payload::new();
    assert(all.subrange(all.len() as int, all.len() as int) =~= Seq::<(String, PayloadInput)>::empty());
    while fields.len() > 0
        invariant
            fields@.len() <= all.len(),
            fields@ == all.subrange(0, fields@.len() as int),
            payload@ == inputs_map(all.subrange(fields@.len() as int, all.len() as int)),
        decreases fields.len(),
    {
        let ghost n = fields@.len() as int;
        let ghost before = fields@;
        let (k, v) = fields.pop().unwrap();
        proof {
            assert(before[n - 1] == (k, v));
            assert(all[n - 1] == before[n - 1]);
            let rest = all.subrange(n - 1, all.len() as int);
            assert(rest.subrange(1, rest.len() as int) =~= all.subrange(n, all.len() as int));
            assert(rest[0] == (k, v));
            assert(fields@ =~= all.subrange(0, n - 1));
        }
        payload.insert(k, payload_from_input(v));
    }
    assert(all.subrange(0, all.len() as int) =~= all);
    payload
}

} // verus!
