use vstd::prelude::*;
use std::collections::HashMap;

use crate::filter::{Filter, satisfies};
use crate::payload::{Payload, PayloadKeyType, PayloadMap, PayloadType, PayloadValue};
use crate::payload_storage::SimplePayloadStorage;
use crate::plain_index::{PlainIndex, PlainPayloadIndex, lemma_matching_offsets};
use crate::types::{
    OperationError,
    OperationResult,
    PointIdType,
    PointOffsetType,
    ScoreType,
    ScoredPoint,
    SearchParams,
    SegmentConfig,
    SeqNumberType,
    VectorElementType,
};
use crate::vector_storage::{SimpleVectorStorage, is_top, lemma_is_top_congruent, similarity};

verus! {

broadcast use vstd::std_specs::hash::group_hash_axioms;

/// Version that bypasses the staleness check and is not recorded: for
/// trusted bulk loads only.
pub const SKIP_VERSION_CHECK: SeqNumberType = 0xffff_ffff_ffff_ffff;

/// Abstract state of a segment.
pub struct SegmentModel {
    pub dim: nat,
    pub config: SegmentConfig,
    /// Offset of each live point id.
    pub ids: Map<PointIdType, PointOffsetType>,
    /// Point id at each offset; `None` for a free offset.
    pub offsets: Seq<Option<PointIdType>>,
    /// Vector at each offset; a free offset keeps its last vector.
    pub vectors: Seq<Seq<VectorElementType>>,
    /// Payload at each offset; empty for a free offset.
    pub payloads: Seq<PayloadMap>,
    /// Free offsets; the last one is reused first.
    pub free: Seq<PointOffsetType>,
    /// Last applied version of each point id, kept after its deletion.
    pub versions: Map<PointIdType, SeqNumberType>,
}

impl SegmentModel {
    pub open spec fn wf(&self) -> bool {
        &&& self.offsets.len() == self.vectors.len()
        &&& self.payloads.len() == self.offsets.len()
        &&& self.offsets.len() <= usize::MAX
        &&& self.dim == self.config.vector_size
        &&& self.dim <= isize::MAX
        &&& forall|o: int| 0 <= o < self.vectors.len() ==> (#[trigger] self.vectors[o]).len() == self.dim
        &&& forall|id: PointIdType| #[trigger]
            self.ids.contains_key(id) ==> self.ids[id] < self.offsets.len() && self.offsets[self.ids[id] as int]
                == Some(id)
        &&& forall|o: int|
            0 <= o < self.offsets.len() && (#[trigger] self.offsets[o]) is Some ==> self.ids.contains_key(
                self.offsets[o]->Some_0,
            ) && self.ids[self.offsets[o]->Some_0] == o
        &&& forall|j: int|
            0 <= j < self.free.len() ==> #[trigger] self.free[j] < self.offsets.len() && self.offsets[self.free[j] as int]
                is None
        &&& forall|o: int|
            0 <= o < self.offsets.len() && (#[trigger] self.offsets[o]) is None ==> self.free.contains(
                o as PointOffsetType,
            ) && self.payloads[o] == Map::<Seq<char>, PayloadValue>::empty()
        &&& self.free.no_duplicates()
    }

    /// An operation of this version on this point was already applied.
    pub open spec fn is_stale(&self, version: SeqNumberType, id: PointIdType) -> bool {
        version != SKIP_VERSION_CHECK && self.versions.contains_key(id) && version <= self.versions[id]
    }

    pub open spec fn record(&self, version: SeqNumberType, id: PointIdType) -> Map<PointIdType, SeqNumberType> {
        if version == SKIP_VERSION_CHECK {
            self.versions
        } else {
            self.versions.insert(id, version)
        }
    }

    pub open spec fn has_point(&self, id: PointIdType) -> bool {
        self.ids.contains_key(id)
    }

    /// Vector of a live point.
    pub open spec fn vector(&self, id: PointIdType) -> Option<Seq<VectorElementType>> {
        if self.ids.contains_key(id) {
            Some(self.vectors[self.ids[id] as int])
        } else {
            None
        }
    }

    /// Payload of a live point.
    pub open spec fn payload(&self, id: PointIdType) -> Option<PayloadMap> {
        if self.ids.contains_key(id) {
            Some(self.payloads[self.ids[id] as int])
        } else {
            None
        }
    }

    /// Offset a new point takes: the last freed one, else a fresh one.
    pub open spec fn next_offset(&self) -> PointOffsetType {
        if self.free.len() > 0 {
            self.free.last()
        } else {
            self.offsets.len() as PointOffsetType
        }
    }

    /// Writes a vector: overwrites a live point's, or adds a new point.
    pub open spec fn upsert(self, version: SeqNumberType, id: PointIdType, vector: Seq<VectorElementType>) -> SegmentModel {
        if vector.len() != self.dim || self.is_stale(version, id) {
            self
        } else if self.ids.contains_key(id) {
            SegmentModel {
                vectors: self.vectors.update(self.ids[id] as int, vector),
                versions: self.record(version, id),
                ..self
            }
        } else if self.free.len() > 0 {
            let o = self.free.last();
            SegmentModel {
                ids: self.ids.insert(id, o),
                offsets: self.offsets.update(o as int, Some(id)),
                vectors: self.vectors.update(o as int, vector),
                free: self.free.drop_last(),
                versions: self.record(version, id),
                ..self
            }
        } else {
            SegmentModel {
                ids: self.ids.insert(id, self.offsets.len() as PointOffsetType),
                offsets: self.offsets.push(Some(id)),
                vectors: self.vectors.push(vector),
                payloads: self.payloads.push(Map::empty()),
                versions: self.record(version, id),
                ..self
            }
        }
    }

    /// Applies a payload change to a live point, unless stale.
    pub open spec fn with_payload(self, version: SeqNumberType, id: PointIdType, p: PayloadMap) -> SegmentModel {
        if self.is_stale(version, id) || !self.ids.contains_key(id) {
            self
        } else {
            SegmentModel {
                payloads: self.payloads.update(self.ids[id] as int, p),
                versions: self.record(version, id),
                ..self
            }
        }
    }

    pub open spec fn set_full_payload(self, version: SeqNumberType, id: PointIdType, p: PayloadMap) -> SegmentModel {
        self.with_payload(version, id, p)
    }

    pub open spec fn delete_payload_key(self, version: SeqNumberType, id: PointIdType, key: Seq<char>) -> SegmentModel {
        self.with_payload(version, id, self.payloads[self.ids[id] as int].remove(key))
    }

    pub open spec fn clear_payload(self, version: SeqNumberType, id: PointIdType) -> SegmentModel {
        self.with_payload(version, id, Map::empty())
    }

    /// Removes a live point and frees its offset, unless stale.
    pub open spec fn delete_point(self, version: SeqNumberType, id: PointIdType) -> SegmentModel {
        if self.is_stale(version, id) || !self.ids.contains_key(id) {
            self
        } else {
            let o = self.ids[id];
            SegmentModel {
                ids: self.ids.remove(id),
                offsets: self.offsets.update(o as int, None),
                payloads: self.payloads.update(o as int, Map::empty()),
                free: self.free.push(o),
                versions: self.record(version, id),
                ..self
            }
        }
    }

    /// Whether the offset holds a live point.
    pub open spec fn is_live(&self, o: PointOffsetType) -> bool {
        o < self.offsets.len() && self.offsets[o as int] is Some
    }

    /// Score of the vector at an offset against a query.
    pub open spec fn score(&self, query: Seq<VectorElementType>, o: PointOffsetType) -> ScoreType {
        similarity(self.config.distance, query, self.vectors[o as int]) as ScoreType
    }

    /// Whether the point at an offset is a search candidate.
    pub open spec fn is_candidate(&self, filter: Option<Filter>, o: PointOffsetType) -> bool {
        self.is_live(o) && match filter {
            None => true,
            Some(f) => satisfies(f, self.payloads[o as int]),
        }
    }

    /// Search hits of the `top` best candidates, best first, with ids.
    pub open spec fn hits_of(&self, hits: Seq<(PointOffsetType, ScoreType)>) -> Seq<ScoredPoint> {
        hits.map_values(
            |h: (PointOffsetType, ScoreType)| ScoredPoint { id: self.offsets[h.0 as int]->Some_0, score: h.1 },
        )
    }
}

/// Every operation keeps the model well formed.
pub proof fn lemma_upsert_wf(m: SegmentModel, version: SeqNumberType, id: PointIdType, vector: Seq<VectorElementType>)
    requires
        m.wf(),
        m.offsets.len() < usize::MAX || m.free.len() > 0 || m.ids.contains_key(id),
    ensures
        m.upsert(version, id, vector).wf(),
{
    let n = m.upsert(version, id, vector);
    if vector.len() != m.dim || m.is_stale(version, id) {
    } else if m.ids.contains_key(id) {
        assert forall|o: int| 0 <= o < n.vectors.len() implies (#[trigger] n.vectors[o]).len() == n.dim by {
            if o != m.ids[id] {
                assert(n.vectors[o] == m.vectors[o]);
            }
        }
    } else if m.free.len() > 0 {
        let o = m.free.last();
        let last = m.free.len() - 1;
        assert(m.free[last] == o);
        assert(m.offsets[o as int] is None);
        assert forall|o2: int| 0 <= o2 < n.vectors.len() implies (#[trigger] n.vectors[o2]).len() == n.dim by {
            if o2 != o {
                assert(n.vectors[o2] == m.vectors[o2]);
            }
        }
        assert forall|id2: PointIdType| #[trigger] n.ids.contains_key(id2) implies n.ids[id2] < n.offsets.len()
            && n.offsets[n.ids[id2] as int] == Some(id2) by {
            if id2 != id {
                assert(m.ids.contains_key(id2));
                assert(m.offsets[m.ids[id2] as int] == Some(id2));
            }
        }
        assert forall|o2: int|
            0 <= o2 < n.offsets.len() && (#[trigger] n.offsets[o2]) is Some implies n.ids.contains_key(
            n.offsets[o2]->Some_0,
        ) && n.ids[n.offsets[o2]->Some_0] == o2 by {
            if o2 != o {
                assert(n.offsets[o2] == m.offsets[o2]);
                assert(m.ids.contains_key(m.offsets[o2]->Some_0));
                assert(m.offsets[o2]->Some_0 != id);
            }
        }
        assert forall|j: int| 0 <= j < n.free.len() implies #[trigger] n.free[j] < n.offsets.len()
            && n.offsets[n.free[j] as int] is None by {
            assert(n.free[j] == m.free[j]);
            assert(m.free[j] != m.free[last]);
        }
        assert forall|o2: int|
            0 <= o2 < n.offsets.len() && (#[trigger] n.offsets[o2]) is None implies n.free.contains(
            o2 as PointOffsetType,
        ) && n.payloads[o2] == Map::<Seq<char>, PayloadValue>::empty() by {
            assert(o2 != o);
            assert(m.offsets[o2] is None);
            assert(m.free.contains(o2 as PointOffsetType));
            let j = choose|j: int| 0 <= j < m.free.len() && m.free[j] == o2 as PointOffsetType;
            assert(j != last);
            assert(n.free[j] == o2 as PointOffsetType);
        }
        assert(n.free.no_duplicates()) by {
            assert forall|a: int, b: int| 0 <= a < n.free.len() && 0 <= b < n.free.len() && a != b implies n.free[a]
                != n.free[b] by {
                assert(n.free[a] == m.free[a] && n.free[b] == m.free[b]);
            }
        }
    } else {
        let o = m.offsets.len() as PointOffsetType;
        assert forall|o2: int| 0 <= o2 < n.vectors.len() implies (#[trigger] n.vectors[o2]).len() == n.dim by {
            if o2 != o {
                assert(n.vectors[o2] == m.vectors[o2]);
            }
        }
        assert forall|id2: PointIdType| #[trigger] n.ids.contains_key(id2) implies n.ids[id2] < n.offsets.len()
            && n.offsets[n.ids[id2] as int] == Some(id2) by {
            if id2 != id {
                assert(m.ids.contains_key(id2));
                assert(m.offsets[m.ids[id2] as int] == Some(id2));
            }
        }
        assert forall|o2: int|
            0 <= o2 < n.offsets.len() && (#[trigger] n.offsets[o2]) is Some implies n.ids.contains_key(
            n.offsets[o2]->Some_0,
        ) && n.ids[n.offsets[o2]->Some_0] == o2 by {
            if o2 != o {
                assert(n.offsets[o2] == m.offsets[o2]);
                assert(m.ids.contains_key(m.offsets[o2]->Some_0));
                assert(m.offsets[o2]->Some_0 != id);
            }
        }
        assert forall|j: int| 0 <= j < n.free.len() implies #[trigger] n.free[j] < n.offsets.len()
            && n.offsets[n.free[j] as int] is None by {
            assert(m.free[j] < m.offsets.len());
        }
        assert forall|o2: int|
            0 <= o2 < n.offsets.len() && (#[trigger] n.offsets[o2]) is None implies n.free.contains(
            o2 as PointOffsetType,
        ) && n.payloads[o2] == Map::<Seq<char>, PayloadValue>::empty() by {
            assert(o2 != o);
            assert(m.offsets[o2] is None);
        }
    }
}

pub proof fn lemma_with_payload_wf(m: SegmentModel, version: SeqNumberType, id: PointIdType, p: PayloadMap)
    requires
        m.wf(),
    ensures
        m.with_payload(version, id, p).wf(),
{
    let n = m.with_payload(version, id, p);
    if !(m.is_stale(version, id) || !m.ids.contains_key(id)) {
        assert forall|o2: int|
            0 <= o2 < n.offsets.len() && (#[trigger] n.offsets[o2]) is None implies n.free.contains(
            o2 as PointOffsetType,
        ) && n.payloads[o2] == Map::<Seq<char>, PayloadValue>::empty() by {
            assert(o2 != m.ids[id]);
        }
    }
}

pub proof fn lemma_delete_point_wf(m: SegmentModel, version: SeqNumberType, id: PointIdType)
    requires
        m.wf(),
    ensures
        m.delete_point(version, id).wf(),
{
    let n = m.delete_point(version, id);
    if !(m.is_stale(version, id) || !m.ids.contains_key(id)) {
        let o = m.ids[id];
        assert(m.offsets[o as int] == Some(id));
        assert forall|id2: PointIdType| #[trigger] n.ids.contains_key(id2) implies n.ids[id2] < n.offsets.len()
            && n.offsets[n.ids[id2] as int] == Some(id2) by {
            assert(m.ids.contains_key(id2));
            assert(m.offsets[m.ids[id2] as int] == Some(id2));
            assert(m.ids[id2] != o);
        }
        assert forall|o2: int|
            0 <= o2 < n.offsets.len() && (#[trigger] n.offsets[o2]) is Some implies n.ids.contains_key(
            n.offsets[o2]->Some_0,
        ) && n.ids[n.offsets[o2]->Some_0] == o2 by {
            assert(n.offsets[o2] == m.offsets[o2]);
            assert(m.ids.contains_key(m.offsets[o2]->Some_0));
        }
        assert forall|j: int| 0 <= j < n.free.len() implies #[trigger] n.free[j] < n.offsets.len()
            && n.offsets[n.free[j] as int] is None by {
            if j < m.free.len() {
                assert(n.free[j] == m.free[j]);
            }
        }
        assert forall|o2: int|
            0 <= o2 < n.offsets.len() && (#[trigger] n.offsets[o2]) is None implies n.free.contains(
            o2 as PointOffsetType,
        ) && n.payloads[o2] == Map::<Seq<char>, PayloadValue>::empty() by {
            if o2 == o {
                assert(n.free[m.free.len() as int] == o);
            } else {
                assert(m.offsets[o2] is None);
                let j = choose|j: int| 0 <= j < m.free.len() && m.free[j] == o2 as PointOffsetType;
                assert(n.free[j] == o2 as PointOffsetType);
            }
        }
        assert(n.free.no_duplicates()) by {
            assert forall|a: int, b: int| 0 <= a < n.free.len() && 0 <= b < n.free.len() && a != b implies n.free[a]
                != n.free[b] by {
                if a == m.free.len() {
                    assert(m.offsets[m.free[b] as int] is None);
                } else if b == m.free.len() {
                    assert(m.offsets[m.free[a] as int] is None);
                }
            }
        }
    }
}

/// Writing a vector of the right dimension with a newer version, then
/// reading the point back, gives that vector.
pub proof fn lemma_upsert_then_vector(m: SegmentModel, version: SeqNumberType, id: PointIdType, vector: Seq<VectorElementType>)
    requires
        m.wf(),
        vector.len() == m.dim,
        !m.is_stale(version, id),
    ensures
        m.upsert(version, id, vector).vector(id) == Some(vector),
{
    if m.free.len() > 0 && !m.ids.contains_key(id) {
        assert(m.free[m.free.len() - 1] < m.offsets.len());
    }
}

/// A second write with the same version is a no-op that keeps the first
/// vector; a write with the next version replaces it.
pub proof fn lemma_upsert_same_version(
    m: SegmentModel,
    version: SeqNumberType,
    id: PointIdType,
    v1: Seq<VectorElementType>,
    v2: Seq<VectorElementType>,
)
    requires
        m.wf(),
        v1.len() == m.dim,
        v2.len() == m.dim,
        !m.is_stale(version, id),
        version < SKIP_VERSION_CHECK - 1,
    ensures
        m.upsert(version, id, v1).upsert(version, id, v2) == m.upsert(version, id, v1),
        m.upsert(version, id, v1).upsert(version, id, v2).vector(id) == Some(v1),
        m.upsert(version, id, v1).upsert((version + 1) as SeqNumberType, id, v2).vector(id) == Some(v2),
{
    let m1 = m.upsert(version, id, v1);
    lemma_upsert_then_vector(m, version, id, v1);
    assert(m1.is_stale(version, id));
    if m.offsets.len() < usize::MAX || m.free.len() > 0 || m.ids.contains_key(id) {
        lemma_upsert_wf(m, version, id, v1);
    }
    assert(m1.ids.contains_key(id));
    assert(!m1.is_stale((version + 1) as SeqNumberType, id));
}

/// Deleting a point makes it unknown to both reads, frees its offset, and
/// the next new point takes that offset without meeting any live point.
pub proof fn lemma_delete_frees_offset(
    m: SegmentModel,
    version: SeqNumberType,
    id: PointIdType,
    next_version: SeqNumberType,
    next_id: PointIdType,
    vector: Seq<VectorElementType>,
)
    requires
        m.wf(),
        m.has_point(id),
        !m.is_stale(version, id),
        !m.delete_point(version, id).has_point(next_id),
        !m.delete_point(version, id).is_stale(next_version, next_id),
        vector.len() == m.dim,
    ensures
        m.delete_point(version, id).payload(id) is None,
        m.delete_point(version, id).vector(id) is None,
        m.delete_point(version, id).next_offset() == m.ids[id],
        forall|other: PointIdType| #[trigger]
            m.delete_point(version, id).ids.contains_key(other) ==> m.delete_point(version, id).ids[other]
                != m.ids[id],
        m.delete_point(version, id).upsert(next_version, next_id, vector).ids[next_id] == m.ids[id],
        m.delete_point(version, id).upsert(next_version, next_id, vector).wf(),
{
    let m1 = m.delete_point(version, id);
    lemma_delete_point_wf(m, version, id);
    assert(m1.free.len() > 0);
    lemma_upsert_wf(m1, next_version, next_id, vector);
    assert forall|other: PointIdType| #[trigger] m1.ids.contains_key(other) implies m1.ids[other] != m.ids[id] by {
        assert(m1.offsets[m1.ids[other] as int] == Some(other));
        assert(m1.offsets[m.ids[id] as int] is None);
    }
}

/// A self-contained shard: vectors, payloads, the id mapping, and the
/// version of every point, under versioned, idempotent operations. Queries
/// go through the plain index, whatever index kind the configuration
/// records; every other index must return the same results.
pub struct Segment {
    config: SegmentConfig,
    vector_storage: SimpleVectorStorage,
    payload_storage: SimplePayloadStorage,
    id_to_offset: HashMap<PointIdType, PointOffsetType>,
    offset_to_id: Vec<Option<PointIdType>>,
    free_offsets: Vec<PointOffsetType>,
    versions: HashMap<PointIdType, SeqNumberType>,
}

impl View for Segment {
    type V = SegmentModel;

    closed spec fn view(&self) -> SegmentModel {
        SegmentModel {
            dim: self.vector_storage.spec_dim(),
            config: self.config,
            ids: self.id_to_offset@,
            offsets: self.offset_to_id@,
            vectors: self.vector_storage.vectors_view(),
            payloads: Seq::new(self.offset_to_id@.len(), |o: int| self.payload_storage.payload_of(o as PointOffsetType)),
            free: self.free_offsets@,
            versions: self.versions@,
        }
    }
}

impl Segment {
    pub closed spec fn wf(&self) -> bool {
        &&& self.vector_storage.wf()
        &&& self.payload_storage.wf()
        &&& self@.wf()
        &&& self.vector_storage.spec_total() == self.offset_to_id@.len()
        &&& self.vector_storage.spec_distance() == self.config.distance
        &&& forall|o: int|
            0 <= o < self.offset_to_id@.len() ==> #[trigger] self.vector_storage.deleted_view()[o] == (
            self.offset_to_id@[o] is None)
        &&& forall|o: PointOffsetType|
            o >= self.offset_to_id@.len() ==> #[trigger] self.payload_storage.payload_of(o) == Map::<
                Seq<char>,
                PayloadValue,
            >::empty()
    }

    /// An empty segment.
    pub fn new(config: SegmentConfig) -> (r: Segment)
        requires
            config.vector_size <= isize::MAX,
        ensures
            r.wf(),
            r@.wf(),
            r@.dim == config.vector_size,
            r@.config == config,
            r@.ids == Map::<PointIdType, PointOffsetType>::empty(),
            r@.offsets.len() == 0,
            r@.free.len() == 0,
            r@.versions == Map::<PointIdType, SeqNumberType>::empty(),
    {
        let r = Segment {
            config,
            vector_storage: SimpleVectorStorage::new(config.vector_size, config.distance),
            payload_storage: SimplePayloadStorage::new(),
            id_to_offset: HashMap::new(),
            offset_to_id: Vec::new(),
            free_offsets: Vec::new(),
            versions: HashMap::new(),
        };
        proof {
            r.vector_storage.lemma_wf();
            assert(r@.free.no_duplicates());
        }
        r
    }

    /// The abstract state of a well-formed segment is well formed.
    pub proof fn lemma_view_wf(&self)
        requires
            self.wf(),
        ensures
            self@.wf(),
    {
    }

    pub fn config(&self) -> (r: SegmentConfig)
        ensures
            r == self@.config,
    {
        self.config
    }

    /// Whether the point id is live.
    pub fn has_point(&self, point_id: PointIdType) -> (r: bool)
        ensures
            r == self@.has_point(point_id),
    {
        self.id_to_offset.contains_key(&point_id)
    }

    fn is_stale(&self, version: SeqNumberType, point_id: PointIdType) -> (r: bool)
        ensures
            r == self@.is_stale(version, point_id),
    {
        if version == SKIP_VERSION_CHECK {
            return false;
        }
        match self.versions.get(&point_id) {
            Some(v) => version <= *v,
            None => false,
        }
    }

    fn record_version(&mut self, version: SeqNumberType, point_id: PointIdType)
        ensures
            final(self).versions@ == old(self)@.record(version, point_id),
            final(self).config == old(self).config,
            final(self).vector_storage == old(self).vector_storage,
            final(self).payload_storage == old(self).payload_storage,
            final(self).id_to_offset == old(self).id_to_offset,
            final(self).offset_to_id == old(self).offset_to_id,
            final(self).free_offsets == old(self).free_offsets,
    {
        if version != SKIP_VERSION_CHECK {
            self.versions.insert(point_id, version);
        }
    }

    /// Writes the vector of a point: a new id gets the last freed offset or
    /// a fresh one, a live id is overwritten in place. A stale version does
    /// nothing and returns `Ok(false)`; a vector of the wrong dimension is
    /// refused.
    pub fn upsert_point(&mut self, op_num: SeqNumberType, point_id: PointIdType, vector: &Vec<VectorElementType>) -> (r:
        OperationResult<bool>)
        requires
            old(self).wf(),
        ensures
            final(self).wf(),
            final(self)@.wf(),
            final(self)@ == old(self)@.upsert(op_num, point_id, vector@),
            vector@.len() != old(self)@.dim ==> r == Err::<bool, OperationError>(
                OperationError::WrongVector {
                    expected_dim: old(self)@.dim as usize,
                    received_dim: vector@.len() as usize,
                },
            ),
            vector@.len() == old(self)@.dim ==> r == Ok::<bool, OperationError>(
                !old(self)@.is_stale(op_num, point_id),
            ),
    {
        proof {
            self.vector_storage.lemma_wf();
        }
        if vector.len() != self.vector_storage.dim() {
            return Err(
                OperationError::WrongVector { expected_dim: self.vector_storage.dim(), received_dim: vector.len() },
            );
        }
        if self.is_stale(op_num, point_id) {
            return Ok(false);
        }
        let ghost m = self@;
        let v = vector.clone();
        assert(v@ =~= vector@);
        match self.id_to_offset.get(&point_id) {
            Some(o) => {
                let o = *o;
                let _ = self.vector_storage.put(o, v);
            },
            None => {
                if self.free_offsets.len() > 0 {
                    let o = self.free_offsets.pop().unwrap();
                    proof {
                        assert(m.free[m.free.len() - 1] == o);
                    }
                    let _ = self.vector_storage.put(o, v);
                    self.offset_to_id.set(o, Some(point_id));
                    self.id_to_offset.insert(point_id, o);
                } else {
                    let o = self.offset_to_id.len();
                    let _ = self.vector_storage.put(o, v);
                    self.offset_to_id.push(Some(point_id));
                    let grown = self.offset_to_id.len();
                    assert(grown == o + 1);
                    self.id_to_offset.insert(point_id, o);
                }
            },
        }
        self.record_version(op_num, point_id);
        proof {
            self.vector_storage.lemma_wf();
            let t = m.upsert(op_num, point_id, vector@);
            assert(m.offsets.len() < usize::MAX || m.free.len() > 0 || m.ids.contains_key(point_id));
            lemma_upsert_wf(m, op_num, point_id, vector@);
            assert(self@.vectors =~= t.vectors);
            assert(self@.offsets =~= t.offsets);
            assert(self@.ids =~= t.ids);
            assert(self@.free =~= t.free);
            assert(self@.versions =~= t.versions);
            assert(self@.payloads =~= t.payloads);
            assert(self@ == t);
            assert forall|o: int| 0 <= o < self.offset_to_id@.len() implies #[trigger] self.vector_storage.deleted_view()[o]
                == (self.offset_to_id@[o] is None) by {
                if o < m.offsets.len() {
                    assert(m.offsets[o] == old(self).offset_to_id@[o]);
                    assert(old(self).vector_storage.deleted_view()[o] == (m.offsets[o] is None));
                }
            }
        }
        Ok(true)
    }

    /// Outcome of a payload change on a point: nothing for a stale version,
    /// an error for an unknown point, else applied.
    pub open spec fn payload_outcome(m: SegmentModel, op_num: SeqNumberType, point_id: PointIdType) -> OperationResult<
        bool,
    > {
        if m.is_stale(op_num, point_id) {
            Ok(false)
        } else if !m.ids.contains_key(point_id) {
            Err(OperationError::PointIdError { missed_point_id: point_id })
        } else {
            Ok(true)
        }
    }

    /// The offset of a live point, or the outcome that ends a payload change.
    fn payload_target(&self, op_num: SeqNumberType, point_id: PointIdType) -> (r: Result<
        PointOffsetType,
        OperationResult<bool>,
    >)
        requires
            self.wf(),
        ensures
            match r {
                Ok(o) => Self::payload_outcome(self@, op_num, point_id) == Ok::<bool, OperationError>(true)
                    && self@.ids.contains_key(point_id) && self@.ids[point_id] == o && o < self@.offsets.len(),
                Err(e) => e == Self::payload_outcome(self@, op_num, point_id) && e != Ok::<
                    bool,
                    OperationError,
                >(true),
            },
    {
        if self.is_stale(op_num, point_id) {
            return Err(Ok(false));
        }
        match self.id_to_offset.get(&point_id) {
            Some(o) => Ok(*o),
            None => Err(Err(OperationError::PointIdError { missed_point_id: point_id })),
        }
    }

    proof fn lemma_payload_changed(
        &self,
        before: &Segment,
        op_num: SeqNumberType,
        point_id: PointIdType,
        p: PayloadMap,
    )
        requires
            before.wf(),
            !before@.is_stale(op_num, point_id),
            before@.ids.contains_key(point_id),
            self.payload_storage.wf(),
            self.payload_storage.payload_of(before@.ids[point_id]) == p,
            self.payload_storage.others_unchanged(&before.payload_storage, before@.ids[point_id]),
            self.versions@ == before@.record(op_num, point_id),
            self.config == before.config,
            self.vector_storage == before.vector_storage,
            self.id_to_offset == before.id_to_offset,
            self.offset_to_id == before.offset_to_id,
            self.free_offsets == before.free_offsets,
        ensures
            self.wf(),
            self@ == before@.with_payload(op_num, point_id, p),
    {
        let t = before@.with_payload(op_num, point_id, p);
        lemma_with_payload_wf(before@, op_num, point_id, p);
        assert(self@.payloads =~= t.payloads);
        assert(self@ == t);
        assert forall|o: PointOffsetType| o >= self.offset_to_id@.len() implies #[trigger] self.payload_storage.payload_of(
            o,
        ) == Map::<Seq<char>, PayloadValue>::empty() by {
            assert(before.payload_storage.payload_of(o) == Map::<Seq<char>, PayloadValue>::empty());
        }
    }

    /// Replaces the whole payload of a live point.
    pub fn set_full_payload(&mut self, op_num: SeqNumberType, point_id: PointIdType, full_payload: Payload) -> (r:
        OperationResult<bool>)
        requires
            old(self).wf(),
        ensures
            final(self).wf(),
            final(self)@.wf(),
            final(self)@ == old(self)@.set_full_payload(op_num, point_id, full_payload@),
            r == Self::payload_outcome(old(self)@, op_num, point_id),
    {
        let o = match self.payload_target(op_num, point_id) {
            Ok(o) => o,
            Err(e) => return e,
        };
        let ghost before = *self;
        let ghost p = full_payload@;
        self.payload_storage.assign_all(o, full_payload);
        self.record_version(op_num, point_id);
        proof {
            self.lemma_payload_changed(&before, op_num, point_id, p);
        }
        Ok(true)
    }

    /// Removes one field of a live point's payload.
    pub fn delete_payload_key(&mut self, op_num: SeqNumberType, point_id: PointIdType, key: &PayloadKeyType) -> (r:
        OperationResult<bool>)
        requires
            old(self).wf(),
        ensures
            final(self).wf(),
            final(self)@.wf(),
            final(self)@ == old(self)@.delete_payload_key(op_num, point_id, key@),
            r == Self::payload_outcome(old(self)@, op_num, point_id),
    {
        let o = match self.payload_target(op_num, point_id) {
            Ok(o) => o,
            Err(e) => return e,
        };
        let ghost before = *self;
        let _ = self.payload_storage.delete(o, key);
        self.record_version(op_num, point_id);
        proof {
            self.lemma_payload_changed(&before, op_num, point_id, before@.payloads[o as int].remove(key@));
        }
        Ok(true)
    }

    /// Removes the whole payload of a live point.
    pub fn clear_payload(&mut self, op_num: SeqNumberType, point_id: PointIdType) -> (r: OperationResult<bool>)
        requires
            old(self).wf(),
        ensures
            final(self).wf(),
            final(self)@.wf(),
            final(self)@ == old(self)@.clear_payload(op_num, point_id),
            r == Self::payload_outcome(old(self)@, op_num, point_id),
    {
        let o = match self.payload_target(op_num, point_id) {
            Ok(o) => o,
            Err(e) => return e,
        };
        let ghost before = *self;
        let _ = self.payload_storage.drop(o);
        self.record_version(op_num, point_id);
        proof {
            self.lemma_payload_changed(&before, op_num, point_id, Map::empty());
        }
        Ok(true)
    }

    /// Removes a live point: its id is released, its offset freed, its
    /// payload dropped. A stale version or an unknown id does nothing and
    /// returns `Ok(false)`.
    pub fn delete_point(&mut self, op_num: SeqNumberType, point_id: PointIdType) -> (r: OperationResult<bool>)
        requires
            old(self).wf(),
        ensures
            final(self).wf(),
            final(self)@.wf(),
            final(self)@ == old(self)@.delete_point(op_num, point_id),
            r == Ok::<bool, OperationError>(
                !old(self)@.is_stale(op_num, point_id) && old(self)@.ids.contains_key(point_id),
            ),
    {
        if self.is_stale(op_num, point_id) {
            return Ok(false);
        }
        let o = match self.id_to_offset.get(&point_id) {
            Some(o) => *o,
            None => return Ok(false),
        };
        let ghost m = self@;
        let ghost before = *self;
        self.id_to_offset.remove(&point_id);
        self.offset_to_id.set(o, None);
        self.free_offsets.push(o);
        self.vector_storage.delete(o);
        let _ = self.payload_storage.drop(o);
        self.record_version(op_num, point_id);
        proof {
            self.vector_storage.lemma_wf();
            let t = m.delete_point(op_num, point_id);
            lemma_delete_point_wf(m, op_num, point_id);
            assert(self@.offsets =~= t.offsets);
            assert(self@.ids =~= t.ids);
            assert(self@.free =~= t.free);
            assert(self@.payloads =~= t.payloads);
            assert(self@.vectors =~= t.vectors);
            assert(self@ == t);
            assert forall|o2: int| 0 <= o2 < self.offset_to_id@.len() implies #[trigger] self.vector_storage.deleted_view()[o2]
                == (self.offset_to_id@[o2] is None) by {
                before.vector_storage.lemma_wf();
                assert(o < before.vector_storage.spec_total());
                assert(self.vector_storage.deleted_view() == before.vector_storage.deleted_view().update(o as int, true));
                if o2 == o {
                    assert(self.offset_to_id@[o2] is None);
                } else {
                    assert(self.offset_to_id@[o2] == before.offset_to_id@[o2]);
                    assert(before.vector_storage.deleted_view()[o2] == (before.offset_to_id@[o2] is None));
                }
            }
            assert forall|o2: PointOffsetType| o2 >= self.offset_to_id@.len() implies #[trigger] self.payload_storage.payload_of(
                o2,
            ) == Map::<Seq<char>, PayloadValue>::empty() by {
                assert(before.payload_storage.payload_of(o2) == Map::<Seq<char>, PayloadValue>::empty());
            }
        }
        Ok(true)
    }

    /// The payload of a live point.
    pub fn payload(&self, point_id: PointIdType) -> (r: OperationResult<Payload>)
        requires
            self.wf(),
        ensures
            match self@.payload(point_id) {
                Some(p) => r is Ok && r->Ok_0.wf() && r->Ok_0@ == p,
                None => r is Err && r->Err_0 == (OperationError::PointIdError { missed_point_id: point_id }),
            },
    {
        match self.id_to_offset.get(&point_id) {
            Some(o) => Ok(self.payload_storage.payload(*o)),
            None => Err(OperationError::PointIdError { missed_point_id: point_id }),
        }
    }

    /// The vector of a live point.
    pub fn vector(&self, point_id: PointIdType) -> (r: OperationResult<Vec<VectorElementType>>)
        requires
            self.wf(),
        ensures
            match self@.vector(point_id) {
                Some(v) => r is Ok && r->Ok_0@ == v,
                None => r is Err && r->Err_0 == (OperationError::PointIdError { missed_point_id: point_id }),
            },
    {
        proof {
            self.vector_storage.lemma_wf();
        }
        match self.id_to_offset.get(&point_id) {
            Some(o) => {
                let o = *o;
                proof {
                    assert(self.vector_storage.is_live(o));
                }
                match self.vector_storage.get(o) {
                    Some(v) => {
                        let c = v.clone();
                        assert(c@ =~= v@);
                        Ok(c)
                    },
                    None => Err(OperationError::PointIdError { missed_point_id: point_id }),
                }
            },
            None => Err(OperationError::PointIdError { missed_point_id: point_id }),
        }
    }

    /// The `top` best live points for the query, best first, ties broken by
    /// lower offset, with their external ids; with a filter, only the points
    /// whose payload satisfies it. A query of the wrong dimension is refused.
    /// Search parameters tune accelerated indexes; the plain index scores
    /// every candidate and has none to tune.
    pub fn search(
        &self,
        vector: &Vec<VectorElementType>,
        filter: Option<&Filter>,
        top: usize,
        params: Option<&SearchParams>,
    ) -> (r: OperationResult<Vec<ScoredPoint>>)
        requires
            self.wf(),
        ensures
            vector@.len() != self@.dim ==> r == Err::<Vec<ScoredPoint>, OperationError>(
                OperationError::WrongVector {
                    expected_dim: self@.dim as usize,
                    received_dim: vector@.len() as usize,
                },
            ),
            vector@.len() == self@.dim ==> r is Ok && exists|hits: Seq<(PointOffsetType, ScoreType)>|
                is_top(
                    hits,
                    |o: PointOffsetType| self@.is_candidate(filter_view(filter), o),
                    |o: PointOffsetType| self@.score(vector@, o),
                    top as nat,
                ) && r->Ok_0@ == self@.hits_of(hits),
    {
        proof {
            self.vector_storage.lemma_wf();
        }
        if vector.len() != self.vector_storage.dim() {
            return Err(
                OperationError::WrongVector { expected_dim: self.vector_storage.dim(), received_dim: vector.len() },
            );
        }
        let payload_index = PlainPayloadIndex::new(&self.payload_storage, &self.vector_storage);
        let index = PlainIndex::new(&self.vector_storage, &payload_index);
        let hits = index.search(vector, filter, top);
        let ghost m = self@;
        proof {
            let cand = |o: PointOffsetType| m.is_candidate(filter_view(filter), o);
            let score = |o: PointOffsetType| m.score(vector@, o);
            let vs = &self.vector_storage;
            assert forall|o: PointOffsetType| #[trigger] vs.is_live(o) == m.is_live(o) by {
                if o < m.offsets.len() {
                    assert(vs.deleted_view()[o as int] == (m.offsets[o as int] is None));
                }
            }
            match filter {
                None => {
                    lemma_is_top_congruent(
                        hits@,
                        |o: PointOffsetType| vs.is_live(o),
                        |o: PointOffsetType| vs.score_of(vector@, o),
                        cand,
                        score,
                        top as nat,
                    );
                },
                Some(f) => {
                    lemma_matching_offsets(&self.payload_storage, vs, *f, vs.spec_total() as int);
                    assert forall|o: PointOffsetType|
                        (#[trigger] payload_index.matching(*f).contains(o) && vs.is_live(o)) == cand(o) by {
                        if o < m.offsets.len() {
                            assert(self.payload_storage.payload_of(o) == m.payloads[o as int]);
                        }
                    }
                    lemma_is_top_congruent(
                        hits@,
                        |o: PointOffsetType| payload_index.matching(*f).contains(o) && vs.is_live(o),
                        |o: PointOffsetType| vs.score_of(vector@, o),
                        cand,
                        score,
                        top as nat,
                    );
                },
            }
            assert forall|k: int| 0 <= k < hits@.len() implies m.is_live(#[trigger] hits@[k].0) by {
                assert(cand(hits@[k].0));
            }
        }
        let mut out: Vec<ScoredPoint> = Vec::new();
        let mut i: usize = 0;
        while i < hits.len()
            invariant
                self.wf(),
                m == self@,
                i <= hits@.len(),
                forall|k: int| 0 <= k < hits@.len() ==> m.is_live(#[trigger] hits@[k].0),
                out@ == m.hits_of(hits@.take(i as int)),
            decreases hits.len() - i,
        {
            let (o, score) = hits[i];
            proof {
                assert(m.is_live(o));
            }
            match self.offset_to_id[o] {
                Some(id) => {
                    out.push(ScoredPoint { id, score });
                },
                None => {
                    assert(false);
                },
            }
            proof {
                assert(m.hits_of(hits@.take(i + 1)) =~= m.hits_of(hits@.take(i as int)).push(
                    ScoredPoint { id: m.offsets[o as int]->Some_0, score },
                ));
            }
            i += 1;
        }
        proof {
            assert(hits@.take(i as int) =~= hits@);
        }
        Ok(out)
    }
}

/// The filter a query carries, as a value.
pub open spec fn filter_view(filter: Option<&Filter>) -> Option<Filter> {
    match filter {
        Some(f) => Some(*f),
        None => None,
    }
}

} // verus!
