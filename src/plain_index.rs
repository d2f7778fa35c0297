use vstd::prelude::*;

use crate::filter::Filter;
use crate::payload_storage::ConditionChecker;
use crate::types::{PointOffsetType, ScoreType, VectorElementType};
use crate::vector_storage::{SimpleVectorStorage, is_top, lemma_top_unique};

verus! {

/// Payload index without any structure: answers a filter by checking every
/// live point.
pub struct PlainPayloadIndex<'s, C: ConditionChecker> {
    condition_checker: &'s C,
    vector_storage: &'s SimpleVectorStorage,
}

/// The offsets below `n` whose point is live and satisfies the filter, in
/// increasing order.
pub open spec fn matching_offsets<C: ConditionChecker>(
    checker: &C,
    storage: &SimpleVectorStorage,
    query: Filter,
    n: int,
) -> Seq<PointOffsetType>
    decreases n,
{
    if n <= 0 {
        Seq::empty()
    } else {
        let before = matching_offsets(checker, storage, query, n - 1);
        if storage.is_live((n - 1) as PointOffsetType) && checker.holds((n - 1) as PointOffsetType, query) {
            before.push((n - 1) as PointOffsetType)
        } else {
            before
        }
    }
}

/// The matching offsets are increasing and are exactly the live points below
/// `n` that satisfy the filter.
pub proof fn lemma_matching_offsets<C: ConditionChecker>(
    checker: &C,
    storage: &SimpleVectorStorage,
    query: Filter,
    n: int,
)
    requires
        0 <= n <= usize::MAX,
    ensures
        forall|i: int, j: int|
            0 <= i < j < matching_offsets(checker, storage, query, n).len() ==> matching_offsets(
                checker,
                storage,
                query,
                n,
            )[i] < matching_offsets(checker, storage, query, n)[j],
        forall|k: int|
            0 <= k < matching_offsets(checker, storage, query, n).len() ==> matching_offsets(
                checker,
                storage,
                query,
                n,
            )[k] < n,
        forall|o: PointOffsetType|
            #[trigger] matching_offsets(checker, storage, query, n).contains(o) <==> o < n && storage.is_live(o)
                && checker.holds(o, query),
    decreases n,
{
    if n > 0 {
        lemma_matching_offsets(checker, storage, query, n - 1);
        let before = matching_offsets(checker, storage, query, n - 1);
        let now = matching_offsets(checker, storage, query, n);
        let last = (n - 1) as PointOffsetType;
        let pushed = storage.is_live(last) && checker.holds(last, query);
        if pushed {
            assert(now == before.push(last));
        } else {
            assert(now == before);
        }
        assert forall|o: PointOffsetType| #[trigger] now.contains(o) <==> o < n && storage.is_live(o)
            && checker.holds(o, query) by {
            if now.contains(o) {
                let k = choose|k: int| 0 <= k < now.len() && now[k] == o;
                if k < before.len() {
                    assert(before[k] == o);
                    assert(before.contains(o));
                } else {
                    assert(pushed && o == last);
                }
            }
            if o < n && storage.is_live(o) && checker.holds(o, query) {
                if o == last {
                    assert(now[now.len() - 1] == o);
                } else {
                    assert(before.contains(o));
                    let k = choose|k: int| 0 <= k < before.len() && before[k] == o;
                    assert(now[k] == o);
                }
            }
        }
    }
}

impl<'s, C: ConditionChecker> PlainPayloadIndex<'s, C> {
    pub closed spec fn checker(&self) -> &'s C {
        self.condition_checker
    }

    pub closed spec fn storage(&self) -> &'s SimpleVectorStorage {
        self.vector_storage
    }

    /// The offsets of the live points that satisfy the filter, in increasing order.
    pub open spec fn matching(&self, query: Filter) -> Seq<PointOffsetType> {
        matching_offsets(self.checker(), self.storage(), query, self.storage().spec_total() as int)
    }

    pub fn new(condition_checker: &'s C, vector_storage: &'s SimpleVectorStorage) -> (r: PlainPayloadIndex<'s, C>)
        ensures
            r.checker() == condition_checker,
            r.storage() == vector_storage,
    {
        PlainPayloadIndex { condition_checker, vector_storage }
    }

    /// Exact number of matching points, given as both the lower and the upper
    /// estimate.
    pub fn estimate_cardinality(&self, query: &Filter) -> (r: (usize, usize))
        requires
            self.checker().inv(),
            self.storage().wf(),
        ensures
            r.0 == self.matching(*query).len(),
            r.1 == self.matching(*query).len(),
    {
        let mut matched_points: usize = 0;
        let mut i: usize = 0;
        while i < self.vector_storage.total_vector_count()
            invariant
                self.checker().inv(),
                self.storage().wf(),
                i <= self.storage().spec_total(),
                matched_points == matching_offsets(self.checker(), self.storage(), *query, i as int).len(),
                matched_points <= i,
            decreases self.storage().spec_total() - i,
        {
            if !self.vector_storage.is_deleted(i) && self.condition_checker.check(i, query) {
                matched_points += 1;
            }
            i += 1;
        }
        (matched_points, matched_points)
    }

    /// The offsets of the live points that satisfy the filter, in increasing order.
    pub fn query_points(&self, query: &Filter) -> (r: Vec<PointOffsetType>)
        requires
            self.checker().inv(),
            self.storage().wf(),
        ensures
            r@ == self.matching(*query),
    {
        let mut matched_points: Vec<PointOffsetType> = Vec::new();
        let mut i: usize = 0;
        while i < self.vector_storage.total_vector_count()
            invariant
                self.checker().inv(),
                self.storage().wf(),
                i <= self.storage().spec_total(),
                matched_points@ == matching_offsets(self.checker(), self.storage(), *query, i as int),
            decreases self.storage().spec_total() - i,
        {
            if !self.vector_storage.is_deleted(i) && self.condition_checker.check(i, query) {
                matched_points.push(i);
            }
            i += 1;
        }
        matched_points
    }
}

/// Vector index without any structure: scores every candidate.
pub struct PlainIndex<'s, C: ConditionChecker> {
    vector_matcher: &'s SimpleVectorStorage,
    payload_index: &'s PlainPayloadIndex<'s, C>,
}

impl<'s, C: ConditionChecker> PlainIndex<'s, C> {
    pub closed spec fn matcher(&self) -> &'s SimpleVectorStorage {
        self.vector_matcher
    }

    pub closed spec fn filter_index(&self) -> &'s PlainPayloadIndex<'s, C> {
        self.payload_index
    }

    pub fn new(vector_matcher: &'s SimpleVectorStorage, condition_filter: &'s PlainPayloadIndex<'s, C>) -> (r:
        PlainIndex<'s, C>)
        ensures
            r.matcher() == vector_matcher,
            r.filter_index() == condition_filter,
    {
        PlainIndex { vector_matcher, payload_index: condition_filter }
    }

    /// The `top` best live points for the query, best first, ties broken by
    /// lower offset; with a filter, only the points that satisfy it.
    pub fn search(&self, vector: &Vec<VectorElementType>, filter: Option<&Filter>, top: usize) -> (r: Vec<
        (PointOffsetType, ScoreType),
    >)
        requires
            self.matcher().wf(),
            vector@.len() == self.matcher().spec_dim(),
            self.filter_index().checker().inv(),
            self.filter_index().storage().wf(),
        ensures
            match filter {
                None => is_top(
                    r@,
                    |o: PointOffsetType| self.matcher().is_live(o),
                    |o: PointOffsetType| self.matcher().score_of(vector@, o),
                    top as nat,
                ),
                Some(f) => is_top(
                    r@,
                    |o: PointOffsetType| self.filter_index().matching(*f).contains(o) && self.matcher().is_live(o),
                    |o: PointOffsetType| self.matcher().score_of(vector@, o),
                    top as nat,
                ),
            },
    {
        match filter {
            Some(filter) => {
                let filtered_ids = self.payload_index.query_points(filter);
                self.vector_matcher.score_points(vector, &filtered_ids, top)
            },
            None => self.vector_matcher.score_all(vector, top),
        }
    }
}

/// A filtered search returns exactly what scoring only the points that match
/// the filter returns.
pub proof fn lemma_filtered_search_scores_matches<'s, C: ConditionChecker>(
    index: &PlainIndex<'s, C>,
    query: Filter,
    vector: Seq<VectorElementType>,
    matched: Seq<PointOffsetType>,
    by_search: Seq<(PointOffsetType, ScoreType)>,
    by_scoring: Seq<(PointOffsetType, ScoreType)>,
    top: nat,
)
    requires
        matched == index.filter_index().matching(query),
        is_top(
            by_search,
            |o: PointOffsetType| index.filter_index().matching(query).contains(o) && index.matcher().is_live(o),
            |o: PointOffsetType| index.matcher().score_of(vector, o),
            top,
        ),
        is_top(
            by_scoring,
            |o: PointOffsetType| matched.contains(o) && index.matcher().is_live(o),
            |o: PointOffsetType| index.matcher().score_of(vector, o),
            top,
        ),
    ensures
        by_search == by_scoring,
{
    let c1 = |o: PointOffsetType| index.filter_index().matching(query).contains(o) && index.matcher().is_live(o);
    let c2 = |o: PointOffsetType| matched.contains(o) && index.matcher().is_live(o);
    assert(c1 =~= c2);
    lemma_top_unique(by_search, by_scoring, c2, |o: PointOffsetType| index.matcher().score_of(vector, o), top);
}

} // verus!
