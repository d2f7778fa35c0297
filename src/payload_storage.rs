use vstd::prelude::*;

use crate::filter::{Filter, check_payload, satisfies};
use crate::json::{FlatField, JsonValue, extract_payloads, flat_view};
use crate::types::OperationError;
use crate::payload::{
    Payload,
    PayloadKeyType,
    PayloadMap,
    PayloadSchemaType,
    PayloadType,
    PayloadValue,
    entries_view,
    schema_type_of,
};
use crate::types::{OperationResult, PointOffsetType};

verus! {

/// The payload that a list of flattened fields sets on an empty point, in
/// order: a later field replaces an earlier one of the same name, a null is
/// skipped.
pub open spec fn assignments_map(fields: Seq<FlatField>) -> PayloadMap
    decreases fields.len(),
{
    if fields.len() == 0 {
        Map::empty()
    } else {
        let m = assignments_map(fields.drop_last());
        match fields.last().1 {
            Some(v) => m.insert(fields.last().0, v),
            None => m,
        }
    }
}

/// Schema after the given fields, in order: each name takes the type of its
/// last value.
pub open spec fn schema_insert_all(
    m: Map<Seq<char>, PayloadSchemaType>,
    es: Seq<(Seq<char>, PayloadValue)>,
) -> Map<Seq<char>, PayloadSchemaType>
    decreases es.len(),
{
    if es.len() == 0 {
        m
    } else {
        schema_insert_all(m, es.drop_last()).insert(es.last().0, schema_type_of(es.last().1))
    }
}

/// Schema of the first `n` payloads, in offset order.
pub open spec fn schema_of(ps: Seq<Payload>, n: int) -> Map<Seq<char>, PayloadSchemaType>
    decreases n,
{
    if n <= 0 {
        Map::empty()
    } else {
        schema_insert_all(schema_of(ps, n - 1), ps[n - 1].entry_list())
    }
}

/// The list holds each name of the map once, with its type.
pub open spec fn lists_schema(r: Seq<(PayloadKeyType, PayloadSchemaType)>, m: Map<Seq<char>, PayloadSchemaType>) -> bool {
    &&& forall|i: int, j: int| 0 <= i < r.len() && 0 <= j < r.len() && i != j ==> r[i].0@ != r[j].0@
    &&& forall|i: int| 0 <= i < r.len() ==> m.contains_key(#[trigger] r[i].0@) && m[r[i].0@] == r[i].1
    &&& forall|k: Seq<char>| #[trigger] m.contains_key(k) ==> exists|i: int| 0 <= i < r.len() && r[i].0@ == k
}

fn schema_set(r: &mut Vec<(PayloadKeyType, PayloadSchemaType)>, key: &PayloadKeyType, t: PayloadSchemaType, Ghost(
    m,
): Ghost<Map<Seq<char>, PayloadSchemaType>>)
    requires
        lists_schema(old(r)@, m),
    ensures
        lists_schema(final(r)@, m.insert(key@, t)),
{
    let ghost s = r@;
    let mut i: usize = 0;
    while i < r.len()
        invariant
            r@ == s,
            lists_schema(s, m),
            i <= s.len(),
            forall|j: int| 0 <= j < i ==> s[j].0@ != key@,
        decreases r.len() - i,
    {
        if r[i].0 == *key {
            r.set(i, (key.clone(), t));
            proof {
                let n = m.insert(key@, t);
                assert forall|a: int, b: int| 0 <= a < r@.len() && 0 <= b < r@.len() && a != b implies r@[a].0@
                    != r@[b].0@ by {
                    assert(s[a].0@ != s[b].0@);
                }
                assert forall|a: int| 0 <= a < r@.len() implies n.contains_key(#[trigger] r@[a].0@) && n[r@[a].0@]
                    == r@[a].1 by {
                    if a != i {
                        assert(r@[a] == s[a]);
                        assert(s[a].0@ != s[i as int].0@);
                    }
                }
                assert forall|k: Seq<char>| #[trigger] n.contains_key(k) implies exists|a: int|
                    0 <= a < r@.len() && r@[a].0@ == k by {
                    if k == key@ {
                        assert(r@[i as int].0@ == k);
                    } else {
                        let a = choose|a: int| 0 <= a < s.len() && s[a].0@ == k;
                        assert(r@[a].0@ == k);
                    }
                }
            }
            return;
        }
        i += 1;
    }
    r.push((key.clone(), t));
    proof {
        let n = m.insert(key@, t);
        assert forall|a: int, b: int| 0 <= a < r@.len() && 0 <= b < r@.len() && a != b implies r@[a].0@
            != r@[b].0@ by {
            if a < s.len() && b < s.len() {
                assert(s[a].0@ != s[b].0@);
            }
        }
        assert forall|a: int| 0 <= a < r@.len() implies n.contains_key(#[trigger] r@[a].0@) && n[r@[a].0@]
            == r@[a].1 by {
            if a < s.len() {
                assert(r@[a] == s[a]);
            }
        }
        assert forall|k: Seq<char>| #[trigger] n.contains_key(k) implies exists|a: int|
            0 <= a < r@.len() && r@[a].0@ == k by {
            if k == key@ {
                assert(r@[s.len() as int].0@ == k);
            } else {
                let a = choose|a: int| 0 <= a < s.len() && s[a].0@ == k;
                assert(r@[a].0@ == k);
            }
        }
    }
}

/// Evaluates a filter against the payload of a point.
pub trait ConditionChecker {
    /// The checker is in a consistent state.
    spec fn inv(&self) -> bool;

    /// Whether the point satisfies the filter.
    spec fn holds(&self, point_id: PointOffsetType, query: Filter) -> bool;

    /// Check if point satisfies filter condition.
    fn check(&self, point_id: PointOffsetType, query: &Filter) -> (r: bool)
        requires
            self.inv(),
        ensures
            r == self.holds(point_id, *query),
    ;
}

/// In-memory payload storage, addressed by point offset.
pub struct SimplePayloadStorage {
    payloads: Vec<Payload>,
}

impl SimplePayloadStorage {
    pub closed spec fn wf(&self) -> bool {
        forall|i: int| 0 <= i < self.payloads@.len() ==> #[trigger] self.payloads@[i].wf()
    }

    /// Payload of a point; a point never written has an empty one.
    pub closed spec fn payload_of(&self, point: PointOffsetType) -> PayloadMap {
        if point < self.payloads@.len() {
            self.payloads@[point as int]@
        } else {
            Map::empty()
        }
    }

    /// Only the given point's payload differs between the two storages.
    pub open spec fn others_unchanged(&self, other: &SimplePayloadStorage, point: PointOffsetType) -> bool {
        forall|q: PointOffsetType| q != point ==> #[trigger] self.payload_of(q) == other.payload_of(q)
    }

    /// An empty storage.
    pub fn new() -> (r: SimplePayloadStorage)
        ensures
            r.wf(),
            forall|q: PointOffsetType| #[trigger] r.payload_of(q) == Map::<Seq<char>, PayloadValue>::empty(),
    {
        SimplePayloadStorage { payloads: Vec::new() }
    }

    /// Makes room for the point's slot.
    fn reserve(&mut self, point: PointOffsetType)
        requires
            old(self).wf(),
            point < usize::MAX,
        ensures
            final(self).wf(),
            point < final(self).payloads@.len(),
            forall|q: PointOffsetType| #[trigger] final(self).payload_of(q) == old(self).payload_of(q),
    {
        while self.payloads.len() <= point
            invariant
                self.wf(),
                point < usize::MAX,
                self.payloads@.len() >= old(self).payloads@.len(),
                forall|q: PointOffsetType| #[trigger] self.payload_of(q) == old(self).payload_of(q),
            decreases point + 1 - self.payloads@.len(),
        {
            let ghost before = *self;
            let e = Payload::new();
            self.payloads.push(e);
            proof {
                assert forall|q: PointOffsetType| #[trigger] self.payload_of(q) == before.payload_of(q) by {
                    if q < before.payloads@.len() {
                        assert(self.payloads@[q as int] == before.payloads@[q as int]);
                    }
                }
            }
        }
    }

    /// Sets one field of a point, replacing any value under that name.
    pub fn assign(&mut self, point_id: PointOffsetType, key: &PayloadKeyType, payload: PayloadType)
        requires
            old(self).wf(),
            point_id < usize::MAX,
        ensures
            final(self).wf(),
            final(self).payload_of(point_id) == old(self).payload_of(point_id).insert(key@, payload@),
            final(self).others_unchanged(old(self), point_id),
    {
        self.reserve(point_id);
        let ghost mid = *self;
        let mut p = Payload::new();
        std::mem::swap(&mut p, &mut self.payloads[point_id]);
        assert(p@ == mid.payload_of(point_id));
        p.insert(key.clone(), payload);
        self.payloads.set(point_id, p);
        proof {
            assert forall|q: PointOffsetType| q != point_id implies #[trigger] self.payload_of(q)
                == mid.payload_of(q) by {
                if q < self.payloads@.len() {
                    assert(self.payloads@[q as int] == mid.payloads@[q as int]);
                }
            }
        }
    }

    /// Replaces the whole payload of a point.
    pub fn assign_all(&mut self, point_id: PointOffsetType, payload: Payload)
        requires
            old(self).wf(),
            point_id < usize::MAX,
        ensures
            final(self).wf(),
            final(self).payload_of(point_id) == payload@,
            final(self).others_unchanged(old(self), point_id),
    {
        proof {
            use_type_invariant(&payload);
        }
        self.reserve(point_id);
        let ghost mid = *self;
        self.payloads.set(point_id, payload);
        proof {
            assert forall|q: PointOffsetType| q != point_id implies #[trigger] self.payload_of(q)
                == mid.payload_of(q) by {
                if q < self.payloads@.len() {
                    assert(self.payloads@[q as int] == mid.payloads@[q as int]);
                }
            }
        }
    }

    /// Replaces the whole payload of a point from a structured value: nested
    /// objects are flattened, nulls and arrays are skipped. A number that is
    /// not an `i64` is refused and the storage is left as it was.
    pub fn assign_all_with_value(
        &mut self,
        point_id: PointOffsetType,
        payload: &Vec<(PayloadKeyType, JsonValue)>,
    ) -> (r: OperationResult<()>)
        requires
            old(self).wf(),
            point_id < usize::MAX,
        ensures
            final(self).wf(),
            match crate::json::flatten_fields(payload@, None) {
                Some(f) => r is Ok && final(self).payload_of(point_id) == assignments_map(f)
                    && final(self).others_unchanged(old(self), point_id),
                None => r is Err && r->Err_0 is TypeError && *final(self) == *old(self),
            },
    {
        let fields = extract_payloads(payload, None)?;
        let mut p = Payload::new();
        let mut i: usize = 0;
        while i < fields.len()
            invariant
                i <= fields@.len(),
                p@ == assignments_map(flat_view(fields@).take(i as int)),
            decreases fields.len() - i,
        {
            proof {
                assert(flat_view(fields@).take(i + 1).drop_last() =~= flat_view(fields@).take(i as int));
            }
            match &fields[i].1 {
                Some(v) => p.insert(fields[i].0.clone(), v.clone_value()),
                None => {},
            }
            i += 1;
        }
        proof {
            assert(flat_view(fields@).take(i as int) =~= flat_view(fields@));
        }
        self.assign_all(point_id, p);
        Ok(())
    }

    /// A copy of the payload of a point; empty when it has none.
    pub fn payload(&self, point_id: PointOffsetType) -> (r: Payload)
        requires
            self.wf(),
        ensures
            r.wf(),
            r@ == self.payload_of(point_id),
    {
        if point_id < self.payloads.len() {
            self.payloads[point_id].clone_payload()
        } else {
            Payload::new()
        }
    }

    /// Removes one field of a point, returning its value.
    pub fn delete(&mut self, point_id: PointOffsetType, key: &PayloadKeyType) -> (r: Option<PayloadType>)
        requires
            old(self).wf(),
        ensures
            final(self).wf(),
            final(self).payload_of(point_id) == old(self).payload_of(point_id).remove(key@),
            final(self).others_unchanged(old(self), point_id),
            match r {
                Some(v) => old(self).payload_of(point_id).contains_key(key@) && old(self).payload_of(
                    point_id,
                )[key@] == v@,
                None => !old(self).payload_of(point_id).contains_key(key@),
            },
    {
        if point_id >= self.payloads.len() {
            assert(old(self).payload_of(point_id) =~= old(self).payload_of(point_id).remove(key@));
            return None;
        }
        let ghost mid = *self;
        let mut p = Payload::new();
        std::mem::swap(&mut p, &mut self.payloads[point_id]);
        let r = p.remove(key);
        self.payloads.set(point_id, p);
        proof {
            assert forall|q: PointOffsetType| q != point_id implies #[trigger] self.payload_of(q)
                == mid.payload_of(q) by {
                if q < self.payloads@.len() {
                    assert(self.payloads@[q as int] == mid.payloads@[q as int]);
                }
            }
        }
        r
    }

    /// Removes the whole payload of a point, returning it when it was not empty.
    pub fn drop(&mut self, point_id: PointOffsetType) -> (r: Option<Payload>)
        requires
            old(self).wf(),
        ensures
            final(self).wf(),
            final(self).payload_of(point_id) == Map::<Seq<char>, PayloadValue>::empty(),
            final(self).others_unchanged(old(self), point_id),
            match r {
                Some(p) => p.wf() && p@ == old(self).payload_of(point_id) && p@.dom().len() > 0,
                None => old(self).payload_of(point_id) == Map::<Seq<char>, PayloadValue>::empty(),
            },
    {
        if point_id >= self.payloads.len() {
            return None;
        }
        let ghost mid = *self;
        let mut p = Payload::new();
        std::mem::swap(&mut p, &mut self.payloads[point_id]);
        proof {
            assert forall|q: PointOffsetType| q != point_id implies #[trigger] self.payload_of(q)
                == mid.payload_of(q) by {
                if q < self.payloads@.len() {
                    assert(self.payloads@[q as int] == mid.payloads@[q as int]);
                }
            }
            p.lemma_entry_list();
        }
        if p.len() == 0 {
            assert(p@ =~= Map::<Seq<char>, PayloadValue>::empty());
            None
        } else {
            Some(p)
        }
    }

    /// Removes the payload of every point.
    pub fn wipe(&mut self)
        ensures
            final(self).wf(),
            forall|q: PointOffsetType| #[trigger] final(self).payload_of(q) == Map::<Seq<char>, PayloadValue>::empty(),
    {
        self.payloads = Vec::new();
    }

    /// Offsets of the points that have a non-empty payload, in increasing order.
    pub fn iter_ids(&self) -> (r: Vec<PointOffsetType>)
        requires
            self.wf(),
        ensures
            forall|i: int, j: int| 0 <= i < j < r@.len() ==> r@[i] < r@[j],
            forall|q: PointOffsetType| r@.contains(q) <==> #[trigger] self.payload_of(q).dom().len() > 0,
    {
        let mut r: Vec<PointOffsetType> = Vec::new();
        let mut i: usize = 0;
        while i < self.payloads.len()
            invariant
                self.wf(),
                i <= self.payloads@.len(),
                forall|a: int, b: int| 0 <= a < b < r@.len() ==> r@[a] < r@[b],
                forall|k: int| 0 <= k < r@.len() ==> r@[k] < i,
                forall|q: PointOffsetType|
                    r@.contains(q) <==> q < i && #[trigger] self.payload_of(q).dom().len() > 0,
            decreases self.payloads.len() - i,
        {
            proof {
                self.payloads@[i as int].lemma_entry_list();
            }
            if self.payloads[i].len() > 0 {
                let ghost before = r@;
                r.push(i);
                proof {
                    assert forall|q: PointOffsetType| r@.contains(q) <==> before.contains(q) || q == i by {
                        if r@.contains(q) {
                            let k = choose|k: int| 0 <= k < r@.len() && r@[k] == q;
                            if k < before.len() {
                                assert(before[k] == q);
                            }
                        }
                        if before.contains(q) {
                            let k = choose|k: int| 0 <= k < before.len() && before[k] == q;
                            assert(r@[k] == q);
                        }
                        if q == i {
                            assert(r@[before.len() as int] == q);
                        }
                    }
                }
            }
            i += 1;
        }
        proof {
            assert forall|q: PointOffsetType| #[trigger] self.payload_of(q).dom().len() > 0 implies q < i by {
                if q >= self.payloads@.len() {
                    assert(self.payload_of(q).dom() =~= Set::<Seq<char>>::empty());
                }
            }
        }
        r
    }
}

impl SimplePayloadStorage {
    /// The schema of all stored payloads, in offset order.
    pub closed spec fn schema_view(&self) -> Map<Seq<char>, PayloadSchemaType> {
        schema_of(self.payloads@, self.payloads@.len() as int)
    }

    /// Type of every field name in use, each name once; where points
    /// disagree, the point with the highest offset decides.
    pub fn schema(&self) -> (r: Vec<(PayloadKeyType, PayloadSchemaType)>)
        ensures
            lists_schema(r@, self.schema_view()),
    {
        let mut r: Vec<(PayloadKeyType, PayloadSchemaType)> = Vec::new();
        let mut i: usize = 0;
        while i < self.payloads.len()
            invariant
                i <= self.payloads@.len(),
                lists_schema(r@, schema_of(self.payloads@, i as int)),
            decreases self.payloads.len() - i,
        {
            let entries = self.payloads[i].entries();
            let ghost before = schema_of(self.payloads@, i as int);
            let mut j: usize = 0;
            while j < entries.len()
                invariant
                    j <= entries@.len(),
                    entries_view(entries@) == self.payloads@[i as int].entry_list(),
                    lists_schema(r@, schema_insert_all(before, entries_view(entries@).take(j as int))),
                decreases entries.len() - j,
            {
                proof {
                    assert(entries_view(entries@).take(j + 1).drop_last() =~= entries_view(entries@).take(
                        j as int,
                    ));
                    assert(entries_view(entries@)[j as int] == (entries@[j as int].0@, entries@[j as int].1@));
                }
                schema_set(
                    &mut r,
                    &entries[j].0,
                    entries[j].1.schema_type(),
                    Ghost(schema_insert_all(before, entries_view(entries@).take(j as int))),
                );
                j += 1;
            }
            proof {
                assert(entries_view(entries@).take(j as int) =~= entries_view(entries@));
            }
            i += 1;
        }
        r
    }
}

/// Storage of the payloads of a segment's points, addressed by offset. A
/// backend may fail, a persistent one on I/O; an operation that succeeds has
/// the stated effect on the point and leaves every other point as it was.
pub trait PayloadStorage: Sized {
    /// The storage is in a consistent state.
    spec fn storage_inv(&self) -> bool;

    /// Payload of a point; empty when it has none.
    spec fn payload_map(&self, point_id: PointOffsetType) -> PayloadMap;

    /// Assign payload to a concrete point with a concrete payload value
    fn assign(&mut self, point_id: PointOffsetType, key: &PayloadKeyType, payload: PayloadType) -> (r:
        OperationResult<()>)
        requires
            old(self).storage_inv(),
            point_id < usize::MAX,
        ensures
            final(self).storage_inv(),
            r is Ok ==> final(self).payload_map(point_id) == old(self).payload_map(point_id).insert(key@, payload@),
            r is Ok ==> forall|q: PointOffsetType|
                q != point_id ==> #[trigger] final(self).payload_map(q) == old(self).payload_map(q),
    ;

    /// Get payload for point
    fn payload(&self, point_id: PointOffsetType) -> (r: Payload)
        requires
            self.storage_inv(),
        ensures
            r@ == self.payload_map(point_id),
    ;

    /// Delete payload by key
    fn delete(&mut self, point_id: PointOffsetType, key: &PayloadKeyType) -> (r: OperationResult<Option<PayloadType>>)
        requires
            old(self).storage_inv(),
        ensures
            final(self).storage_inv(),
            r is Ok ==> final(self).payload_map(point_id) == old(self).payload_map(point_id).remove(key@),
            r is Ok ==> forall|q: PointOffsetType|
                q != point_id ==> #[trigger] final(self).payload_map(q) == old(self).payload_map(q),
            r matches Ok(Some(v)) ==> old(self).payload_map(point_id).contains_key(key@) && old(self).payload_map(
                point_id,
            )[key@] == v@,
            r matches Ok(None) ==> !old(self).payload_map(point_id).contains_key(key@),
    ;

    /// Drop all payload of the point
    fn drop(&mut self, point_id: PointOffsetType) -> (r: OperationResult<Option<Payload>>)
        requires
            old(self).storage_inv(),
        ensures
            final(self).storage_inv(),
            r is Ok ==> final(self).payload_map(point_id) == Map::<Seq<char>, PayloadValue>::empty(),
            r is Ok ==> forall|q: PointOffsetType|
                q != point_id ==> #[trigger] final(self).payload_map(q) == old(self).payload_map(q),
            r matches Ok(Some(p)) ==> p@ == old(self).payload_map(point_id),
            r matches Ok(None) ==> old(self).payload_map(point_id) == Map::<Seq<char>, PayloadValue>::empty(),
    ;

    /// Completely drop payload. Pufff!
    fn wipe(&mut self) -> (r: OperationResult<()>)
        requires
            old(self).storage_inv(),
        ensures
            final(self).storage_inv(),
            r is Ok ==> forall|q: PointOffsetType|
                #[trigger] final(self).payload_map(q) == Map::<Seq<char>, PayloadValue>::empty(),
    ;

    /// Force persistence of current storage state.
    fn flush(&self) -> (r: OperationResult<()>)
        requires
            self.storage_inv(),
    ;

    /// Offsets of the points with a non-empty payload, in increasing order.
    fn iter_ids(&self) -> (r: Vec<PointOffsetType>)
        requires
            self.storage_inv(),
        ensures
            forall|i: int, j: int| 0 <= i < j < r@.len() ==> r@[i] < r@[j],
            forall|q: PointOffsetType| r@.contains(q) <==> #[trigger] self.payload_map(q).dom().len() > 0,
    ;

    /// Assign same payload to each given point
    fn assign_all(&mut self, point_id: PointOffsetType, payload: Payload) -> (r: OperationResult<()>)
        requires
            old(self).storage_inv(),
            point_id < usize::MAX,
        ensures
            final(self).storage_inv(),
            r is Ok ==> final(self).payload_map(point_id) == payload@,
            r is Ok ==> forall|q: PointOffsetType|
                q != point_id ==> #[trigger] final(self).payload_map(q) == old(self).payload_map(q),
    {
        proof {
            use_type_invariant(&payload);
        }
        let _ = self.drop(point_id)?;
        let ghost cleared = *self;
        let entries = payload.entries();
        let mut i: usize = 0;
        while i < entries.len()
            invariant
                self.storage_inv(),
                point_id < usize::MAX,
                payload.wf(),
                i <= entries@.len(),
                entries_view(entries@) == payload.entry_list(),
                self.payload_map(point_id) == crate::payload::entries_map(payload.entry_list().take(i as int)),
                forall|q: PointOffsetType|
                    q != point_id ==> #[trigger] self.payload_map(q) == cleared.payload_map(q),
            decreases entries.len() - i,
        {
            proof {
                payload.lemma_entries_prefix(i as int);
                assert(payload.entry_list()[i as int] == (entries@[i as int].0@, entries@[i as int].1@));
            }
            self.assign(point_id, &entries[i].0, entries[i].1.clone_value())?;
            i += 1;
        }
        proof {
            if entries@.len() > 0 {
                payload.lemma_entries_prefix(0);
            } else {
                payload.lemma_entry_list();
                assert(payload.entry_list().take(0) =~= payload.entry_list());
            }
        }
        Ok(())
    }

    /// Replaces the whole payload of a point from a structured value: nested
    /// objects are flattened, nulls and arrays are skipped. A number that is
    /// not an `i64` is refused before anything is changed.
    fn assign_all_with_value(&mut self, point_id: PointOffsetType, payload: &Vec<(PayloadKeyType, JsonValue)>) -> (r:
        OperationResult<()>)
        requires
            old(self).storage_inv(),
            point_id < usize::MAX,
        ensures
            final(self).storage_inv(),
            crate::json::flatten_fields(payload@, None) is None ==> (r matches Err(
                OperationError::TypeError { .. },
            ) && *final(self) == *old(self)),
            r is Ok ==> crate::json::flatten_fields(payload@, None) is Some && final(self).payload_map(point_id)
                == assignments_map(crate::json::flatten_fields(payload@, None)->Some_0),
            r is Ok ==> forall|q: PointOffsetType|
                q != point_id ==> #[trigger] final(self).payload_map(q) == old(self).payload_map(q),
    {
        let fields = extract_payloads(payload, None)?;
        let _ = self.drop(point_id)?;
        let ghost cleared = *self;
        proof {
            assert(flat_view(fields@).take(0) =~= Seq::<FlatField>::empty());
        }
        let mut i: usize = 0;
        while i < fields.len()
            invariant
                self.storage_inv(),
                point_id < usize::MAX,
                i <= fields@.len(),
                crate::json::flatten_fields(payload@, None) == Some(flat_view(fields@)),
                self.payload_map(point_id) == assignments_map(flat_view(fields@).take(i as int)),
                forall|q: PointOffsetType|
                    q != point_id ==> #[trigger] self.payload_map(q) == cleared.payload_map(q),
            decreases fields.len() - i,
        {
            proof {
                assert(flat_view(fields@).take(i + 1).drop_last() =~= flat_view(fields@).take(i as int));
            }
            match &fields[i].1 {
                Some(v) => {
                    self.assign(point_id, &fields[i].0, v.clone_value())?;
                },
                None => {},
            }
            i += 1;
        }
        proof {
            assert(flat_view(fields@).take(i as int) =~= flat_view(fields@));
        }
        Ok(())
    }
}

impl PayloadStorage for SimplePayloadStorage {
    open spec fn storage_inv(&self) -> bool {
        self.wf()
    }

    open spec fn payload_map(&self, point_id: PointOffsetType) -> PayloadMap {
        self.payload_of(point_id)
    }

    fn assign(&mut self, point_id: PointOffsetType, key: &PayloadKeyType, payload: PayloadType) -> (r:
        OperationResult<()>) {
        SimplePayloadStorage::assign(self, point_id, key, payload);
        Ok(())
    }

    fn payload(&self, point_id: PointOffsetType) -> (r: Payload) {
        SimplePayloadStorage::payload(self, point_id)
    }

    fn delete(&mut self, point_id: PointOffsetType, key: &PayloadKeyType) -> (r: OperationResult<Option<PayloadType>>) {
        Ok(SimplePayloadStorage::delete(self, point_id, key))
    }

    fn drop(&mut self, point_id: PointOffsetType) -> (r: OperationResult<Option<Payload>>) {
        Ok(SimplePayloadStorage::drop(self, point_id))
    }

    fn wipe(&mut self) -> (r: OperationResult<()>) {
        SimplePayloadStorage::wipe(self);
        Ok(())
    }

    /// Nothing is pending in memory.
    fn flush(&self) -> (r: OperationResult<()>) {
        Ok(())
    }

    fn iter_ids(&self) -> (r: Vec<PointOffsetType>) {
        SimplePayloadStorage::iter_ids(self)
    }
}

impl ConditionChecker for SimplePayloadStorage {
    open spec fn inv(&self) -> bool {
        self.wf()
    }

    open spec fn holds(&self, point_id: PointOffsetType, query: Filter) -> bool {
        satisfies(query, self.payload_of(point_id))
    }

    fn check(&self, point_id: PointOffsetType, query: &Filter) -> (r: bool) {
        if point_id < self.payloads.len() {
            check_payload(query, &self.payloads[point_id])
        } else {
            let empty = Payload::new();
            check_payload(query, &empty)
        }
    }
}

} // verus!
