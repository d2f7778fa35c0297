use vstd::prelude::*;

use crate::types::{Distance, OperationError, OperationResult, PointOffsetType, ScoreType, VectorElementType};

verus! {

/// Dot product of the first `n` elements.
pub open spec fn dot_prefix(a: Seq<i32>, b: Seq<i32>, n: int) -> int
    decreases n,
{
    if n <= 0 {
        0
    } else {
        dot_prefix(a, b, n - 1) + a[n - 1] * b[n - 1]
    }
}

/// Squared Euclidean distance of the first `n` elements.
pub open spec fn sq_dist_prefix(a: Seq<i32>, b: Seq<i32>, n: int) -> int
    decreases n,
{
    if n <= 0 {
        0
    } else {
        sq_dist_prefix(a, b, n - 1) + (a[n - 1] - b[n - 1]) * (a[n - 1] - b[n - 1])
    }
}

/// Similarity of two vectors of equal length; higher is closer.
pub open spec fn similarity(d: Distance, a: Seq<i32>, b: Seq<i32>) -> int {
    match d {
        Distance::Euclid => -sq_dist_prefix(a, b, a.len() as int),
        _ => dot_prefix(a, b, a.len() as int),
    }
}

/// `a` ranks before `b`: a higher score, or an equal score and a lower offset.
pub open spec fn better(a: (PointOffsetType, ScoreType), b: (PointOffsetType, ScoreType)) -> bool {
    a.1 > b.1 || (a.1 == b.1 && a.0 < b.0)
}

/// Strictly ordered best first; so no offset occurs twice.
pub open spec fn sorted_best_first(r: Seq<(PointOffsetType, ScoreType)>) -> bool {
    forall|i: int, j: int| 0 <= i < j < r.len() ==> better(#[trigger] r[i], #[trigger] r[j])
}

pub open spec fn offsets_of(r: Seq<(PointOffsetType, ScoreType)>) -> Seq<PointOffsetType> {
    r.map_values(|p: (PointOffsetType, ScoreType)| p.0)
}

pub open spec fn beats_all(r: Seq<(PointOffsetType, ScoreType)>, x: (PointOffsetType, ScoreType)) -> bool {
    forall|i: int| 0 <= i < r.len() ==> better(#[trigger] r[i], x)
}

/// `r` is the `top` best candidates with their scores, best first: every
/// candidate left out ranks after all of them, and then `r` is full.
pub open spec fn is_top(
    r: Seq<(PointOffsetType, ScoreType)>,
    candidate: spec_fn(PointOffsetType) -> bool,
    score: spec_fn(PointOffsetType) -> ScoreType,
    top: nat,
) -> bool {
    &&& r.len() <= top
    &&& sorted_best_first(r)
    &&& forall|i: int| 0 <= i < r.len() ==> (#[trigger] candidate(r[i].0) && r[i].1 == score(r[i].0))
    &&& forall|o: PointOffsetType|
        #[trigger] candidate(o) && !offsets_of(r).contains(o) ==> r.len() == top && beats_all(
            r,
            (o, score(o)),
        )
}

/// `is_top` depends on the candidates and scores only through their values.
pub proof fn lemma_is_top_congruent(
    r: Seq<(PointOffsetType, ScoreType)>,
    c1: spec_fn(PointOffsetType) -> bool,
    s1: spec_fn(PointOffsetType) -> ScoreType,
    c2: spec_fn(PointOffsetType) -> bool,
    s2: spec_fn(PointOffsetType) -> ScoreType,
    top: nat,
)
    requires
        is_top(r, c1, s1, top),
        forall|o: PointOffsetType| #[trigger] c1(o) == c2(o),
        forall|o: PointOffsetType| c1(o) ==> #[trigger] s1(o) == s2(o),
    ensures
        is_top(r, c2, s2, top),
{
    assert forall|o: PointOffsetType| #[trigger] c2(o) && !offsets_of(r).contains(o) implies r.len() == top
        && beats_all(r, (o, s2(o))) by {
        assert(c1(o));
    }
    assert forall|i: int| 0 <= i < r.len() implies #[trigger] c2(r[i].0) && r[i].1 == s2(r[i].0) by {
        assert(c1(r[i].0));
    }
}

proof fn lemma_top_entry(
    r: Seq<(PointOffsetType, ScoreType)>,
    candidate: spec_fn(PointOffsetType) -> bool,
    score: spec_fn(PointOffsetType) -> ScoreType,
    top: nat,
    i: int,
)
    requires
        is_top(r, candidate, score, top),
        0 <= i < r.len(),
    ensures
        candidate(r[i].0),
        r[i].1 == score(r[i].0),
{
    assert(candidate(r[i].0) && r[i].1 == score(r[i].0));
}

proof fn lemma_top_agree_upto(
    r1: Seq<(PointOffsetType, ScoreType)>,
    r2: Seq<(PointOffsetType, ScoreType)>,
    candidate: spec_fn(PointOffsetType) -> bool,
    score: spec_fn(PointOffsetType) -> ScoreType,
    top1: nat,
    top2: nat,
    n: int,
)
    requires
        is_top(r1, candidate, score, top1),
        is_top(r2, candidate, score, top2),
        0 <= n <= r1.len(),
        n <= r2.len(),
    ensures
        forall|i: int| 0 <= i < n ==> r1[i] == r2[i],
    decreases n,
{
    if n > 0 {
        lemma_top_agree_upto(r1, r2, candidate, score, top1, top2, n - 1);
        let i = n - 1;
        let x = r1[i];
        let y = r2[i];
        lemma_top_entry(r1, candidate, score, top1, i);
        lemma_top_entry(r2, candidate, score, top2, i);
        if x != y {
            if better(x, y) {
                if offsets_of(r2).contains(x.0) {
                    let p = choose|p: int| 0 <= p < r2.len() && offsets_of(r2)[p] == x.0;
                    assert(r2[p].0 == x.0);
                    assert(candidate(r2[p].0));
                    if p < i {
                        assert(r1[p] == r2[p]);
                        assert(better(r1[p], r1[i]));
                    } else if p > i {
                        assert(better(r2[i], r2[p]));
                    }
                } else {
                    assert(beats_all(r2, (x.0, score(x.0))));
                    assert(better(r2[i], x));
                }
            } else {
                assert(better(y, x));
                if offsets_of(r1).contains(y.0) {
                    let p = choose|p: int| 0 <= p < r1.len() && offsets_of(r1)[p] == y.0;
                    assert(r1[p].0 == y.0);
                    assert(candidate(r1[p].0));
                    if p < i {
                        assert(r1[p] == r2[p]);
                        assert(better(r2[p], r2[i]));
                    } else if p > i {
                        assert(better(r1[i], r1[p]));
                    }
                } else {
                    assert(beats_all(r1, (y.0, score(y.0))));
                    assert(better(r1[i], y));
                }
            }
        }
    }
}

/// The best `top1` are the first entries of the best `top2` for any larger
/// `top2`: a longer search only extends a shorter one.
pub proof fn lemma_top_prefix(
    r1: Seq<(PointOffsetType, ScoreType)>,
    r2: Seq<(PointOffsetType, ScoreType)>,
    candidate: spec_fn(PointOffsetType) -> bool,
    score: spec_fn(PointOffsetType) -> ScoreType,
    top1: nat,
    top2: nat,
)
    requires
        is_top(r1, candidate, score, top1),
        is_top(r2, candidate, score, top2),
        top1 <= top2,
    ensures
        r1.len() <= r2.len(),
        r1 == r2.take(r1.len() as int),
{
    if r2.len() < r1.len() {
        lemma_top_agree_upto(r1, r2, candidate, score, top1, top2, r2.len() as int);
        let x = r1[r2.len() as int];
        assert(candidate(x.0));
        if offsets_of(r2).contains(x.0) {
            let p = choose|p: int| 0 <= p < r2.len() && offsets_of(r2)[p] == x.0;
            assert(r2[p].0 == x.0);
            assert(r1[p] == r2[p]);
            assert(better(r1[p], r1[r2.len() as int]));
        }
    }
    lemma_top_agree_upto(r1, r2, candidate, score, top1, top2, r1.len() as int);
    assert(r1 =~= r2.take(r1.len() as int));
}

/// The best `top` candidates are a single list: two results for the same
/// candidates, scores and `top` are equal.
pub proof fn lemma_top_unique(
    r1: Seq<(PointOffsetType, ScoreType)>,
    r2: Seq<(PointOffsetType, ScoreType)>,
    candidate: spec_fn(PointOffsetType) -> bool,
    score: spec_fn(PointOffsetType) -> ScoreType,
    top: nat,
)
    requires
        is_top(r1, candidate, score, top),
        is_top(r2, candidate, score, top),
    ensures
        r1 == r2,
{
    lemma_top_prefix(r1, r2, candidate, score, top, top);
    lemma_top_prefix(r2, r1, candidate, score, top, top);
}

proof fn lemma_mul_bound(x: int, y: int)
    requires
        -0x8000_0000 <= x <= 0x8000_0000,
        -0x8000_0000 <= y <= 0x8000_0000,
    ensures
        -0x4000_0000_0000_0000 <= x * y <= 0x4000_0000_0000_0000,
        x == y ==> 0 <= x * y,
{
    assert(-0x4000_0000_0000_0000 <= x * y <= 0x4000_0000_0000_0000) by (nonlinear_arith)
        requires
            -0x8000_0000 <= x <= 0x8000_0000,
            -0x8000_0000 <= y <= 0x8000_0000,
    ;
    assert(x == y ==> 0 <= x * y) by (nonlinear_arith);
}

proof fn lemma_sq_bound(d: int)
    requires
        -0x1_0000_0000 <= d <= 0x1_0000_0000,
    ensures
        0 <= d * d <= 0x1_0000_0000_0000_0000,
{
    assert(0 <= d * d <= 0x1_0000_0000_0000_0000) by (nonlinear_arith)
        requires
            -0x1_0000_0000 <= d <= 0x1_0000_0000,
    ;
}

/// Dot product, exact.
pub fn dot_product(a: &Vec<VectorElementType>, b: &Vec<VectorElementType>) -> (r: ScoreType)
    requires
        a.len() == b.len(),
        a.len() <= isize::MAX,
    ensures
        r == dot_prefix(a@, b@, a.len() as int),
{
    let mut sum: i128 = 0;
    let mut i: usize = 0;
    while i < a.len()
        invariant
            a.len() == b.len(),
            a.len() <= isize::MAX,
            i <= a.len(),
            sum == dot_prefix(a@, b@, i as int),
            -(i as int) * 0x4000_0000_0000_0000 <= sum <= (i as int) * 0x4000_0000_0000_0000,
        decreases a.len() - i,
    {
        let x = a[i] as i128;
        let y = b[i] as i128;
        proof {
            lemma_mul_bound(x as int, y as int);
        }
        sum = sum + x * y;
        i += 1;
    }
    sum
}

/// Squared Euclidean distance, exact.
pub fn squared_distance(a: &Vec<VectorElementType>, b: &Vec<VectorElementType>) -> (r: ScoreType)
    requires
        a.len() == b.len(),
        a.len() <= isize::MAX,
    ensures
        r == sq_dist_prefix(a@, b@, a.len() as int),
        r >= 0,
{
    let mut sum: i128 = 0;
    let mut i: usize = 0;
    while i < a.len()
        invariant
            a.len() == b.len(),
            a.len() <= isize::MAX,
            i <= a.len(),
            sum == sq_dist_prefix(a@, b@, i as int),
            0 <= sum <= (i as int) * 0x1_0000_0000_0000_0000,
        decreases a.len() - i,
    {
        let d = a[i] as i128 - b[i] as i128;
        proof {
            lemma_sq_bound(d as int);
        }
        sum = sum + d * d;
        i += 1;
    }
    sum
}

/// Similarity score under the given distance; higher is closer.
pub fn similarity_score(distance: Distance, a: &Vec<VectorElementType>, b: &Vec<VectorElementType>) -> (r:
    ScoreType)
    requires
        a.len() == b.len(),
        a.len() <= isize::MAX,
    ensures
        r == similarity(distance, a@, b@),
{
    match distance {
        Distance::Euclid => -squared_distance(a, b),
        _ => dot_product(a, b),
    }
}

fn ranks_before(a: (PointOffsetType, ScoreType), b: (PointOffsetType, ScoreType)) -> (r: bool)
    ensures
        r == better(a, b),
{
    a.1 > b.1 || (a.1 == b.1 && a.0 < b.0)
}

/// Puts a candidate into a best-first list of at most `top` entries.
fn insert_top(r: &mut Vec<(PointOffsetType, ScoreType)>, c: (PointOffsetType, ScoreType), top: usize)
    requires
        sorted_best_first(old(r)@),
        old(r)@.len() <= top,
        !offsets_of(old(r)@).contains(c.0),
    ensures
        sorted_best_first(final(r)@),
        final(r)@.len() <= top,
        forall|i: int|
            0 <= i < final(r)@.len() ==> old(r)@.contains(#[trigger] final(r)@[i]) || final(r)@[i] == c,
        final(r)@.contains(c) || (final(r)@.len() == top && beats_all(final(r)@, c)),
        forall|i: int|
            0 <= i < old(r)@.len() ==> final(r)@.contains(#[trigger] old(r)@[i]) || (final(r)@.len()
                == top && beats_all(final(r)@, old(r)@[i])),
        forall|x: (PointOffsetType, ScoreType)|
            old(r)@.len() == top && #[trigger] beats_all(old(r)@, x) ==> final(r)@.len() == top
                && beats_all(final(r)@, x),
{
    let ghost s = r@;
    let mut pos: usize = 0;
    while pos < r.len() && !ranks_before(c, r[pos])
        invariant
            r@ == s,
            pos <= s.len(),
            !offsets_of(s).contains(c.0),
            forall|j: int| 0 <= j < pos ==> better(#[trigger] s[j], c),
        decreases r.len() - pos,
    {
        proof {
            assert(offsets_of(s)[pos as int] == s[pos as int].0);
        }
        pos += 1;
    }
    if pos == r.len() && pos == top {
        assert(beats_all(s, c));
        return;
    }
    r.insert(pos, c);
    proof {
        let t = r@;
        assert(t =~= s.insert(pos as int, c));
        assert forall|i: int, j: int| 0 <= i < j < t.len() implies better(#[trigger] t[i], #[trigger] t[j]) by {
            if j < pos {
                assert(t[i] == s[i] && t[j] == s[j]);
            } else if j == pos {
                assert(t[i] == s[i]);
            } else if i < pos {
                assert(t[i] == s[i] && t[j] == s[j - 1]);
                if pos < s.len() {
                    assert(better(c, s[pos as int]));
                }
            } else if i == pos {
                assert(t[j] == s[j - 1]);
                assert(better(c, s[pos as int]));
            } else {
                assert(t[i] == s[i - 1] && t[j] == s[j - 1]);
            }
        }
        assert(t[pos as int] == c);
        assert forall|i: int| 0 <= i < s.len() implies t.contains(#[trigger] s[i]) by {
            if i < pos {
                assert(t[i] == s[i]);
            } else {
                assert(t[i + 1] == s[i]);
            }
        }
        assert forall|i: int| 0 <= i < t.len() implies s.contains(#[trigger] t[i]) || t[i] == c by {
            if i < pos {
                assert(t[i] == s[i]);
            } else if i > pos {
                assert(t[i] == s[i - 1]);
            }
        }
    }
    if r.len() > top {
        let ghost t = r@;
        let dropped = r.pop();
        proof {
            let u = r@;
            assert(u =~= t.drop_last());
            let d = t[t.len() - 1];
            assert(pos < top);
            assert(u.contains(c)) by {
                assert(u[pos as int] == c);
            }
            assert(beats_all(u, d)) by {
                assert forall|i: int| 0 <= i < u.len() implies better(#[trigger] u[i], d) by {
                    assert(u[i] == t[i]);
                }
            }
            assert forall|i: int| 0 <= i < s.len() implies u.contains(#[trigger] s[i]) || (u.len()
                == top && beats_all(u, s[i])) by {
                let j = choose|j: int| 0 <= j < t.len() && t[j] == s[i];
                if j < u.len() {
                    assert(u[j] == s[i]);
                } else {
                    assert(s[i] == d);
                }
            }
            assert forall|i: int| 0 <= i < u.len() implies s.contains(#[trigger] u[i]) || u[i] == c by {
                assert(u[i] == t[i]);
            }
            assert forall|x: (PointOffsetType, ScoreType)|
                s.len() == top && #[trigger] beats_all(s, x) implies u.len() == top && beats_all(u, x) by {
                assert forall|i: int| 0 <= i < u.len() implies better(#[trigger] u[i], x) by {
                    assert(u[i] == t[i]);
                    if i < pos {
                        assert(t[i] == s[i]);
                    } else if i == pos {
                        assert(better(c, s[pos as int]));
                        assert(better(s[pos as int], x));
                    } else {
                        assert(t[i] == s[i - 1]);
                    }
                }
            }
        }
    } else {
        proof {
            let t = r@;
            assert forall|x: (PointOffsetType, ScoreType)|
                s.len() == top && #[trigger] beats_all(s, x) implies t.len() == top && beats_all(t, x) by {
                assert(t.len() == s.len() + 1);
            }
        }
    }
}

/// Live vectors among the first `n` offsets.
pub open spec fn live_count(deleted: Seq<bool>, n: int) -> nat
    decreases n,
{
    if n <= 0 {
        0
    } else {
        live_count(deleted, n - 1) + if deleted[n - 1] {
            0nat
        } else {
            1nat
        }
    }
}

/// In-memory store of fixed-dimension vectors, addressed by offset. A deleted
/// offset keeps its slot until it is written again.
pub struct SimpleVectorStorage {
    dim: usize,
    distance: Distance,
    vectors: Vec<Vec<VectorElementType>>,
    deleted: Vec<bool>,
}

impl SimpleVectorStorage {
    pub closed spec fn wf(&self) -> bool {
        &&& self.vectors@.len() == self.deleted@.len()
        &&& self.dim <= isize::MAX
        &&& forall|i: int| 0 <= i < self.vectors@.len() ==> #[trigger] self.vectors@[i]@.len() == self.dim
    }

    pub closed spec fn spec_dim(&self) -> nat {
        self.dim as nat
    }

    pub closed spec fn spec_distance(&self) -> Distance {
        self.distance
    }

    /// Number of offsets, live or deleted.
    pub closed spec fn spec_total(&self) -> nat {
        self.vectors@.len()
    }

    /// The vector at each offset, live or deleted.
    pub closed spec fn vectors_view(&self) -> Seq<Seq<VectorElementType>> {
        self.vectors@.map_values(|v: Vec<VectorElementType>| v@)
    }

    /// Whether each offset is deleted.
    pub closed spec fn deleted_view(&self) -> Seq<bool> {
        self.deleted@
    }

    pub open spec fn is_live(&self, o: PointOffsetType) -> bool {
        o < self.spec_total() && !self.deleted_view()[o as int]
    }

    /// Score of the vector at an offset against a query.
    pub open spec fn score_of(&self, query: Seq<VectorElementType>, o: PointOffsetType) -> ScoreType {
        similarity(self.spec_distance(), query, self.vectors_view()[o as int]) as ScoreType
    }

    pub proof fn lemma_wf(&self)
        requires
            self.wf(),
        ensures
            self.vectors_view().len() == self.spec_total(),
            self.deleted_view().len() == self.spec_total(),
            self.spec_dim() <= isize::MAX,
            forall|i: int| 0 <= i < self.spec_total() ==> #[trigger] self.vectors_view()[i].len() == self.spec_dim(),
    {
    }

    /// An empty storage for vectors of `dim` elements.
    pub fn new(dim: usize, distance: Distance) -> (r: SimpleVectorStorage)
        requires
            dim <= isize::MAX,
        ensures
            r.wf(),
            r.spec_dim() == dim,
            r.spec_distance() == distance,
            r.spec_total() == 0,
    {
        SimpleVectorStorage { dim, distance, vectors: Vec::new(), deleted: Vec::new() }
    }

    pub fn dim(&self) -> (r: usize)
        ensures
            r == self.spec_dim(),
    {
        self.dim
    }

    pub fn distance(&self) -> (r: Distance)
        ensures
            r == self.spec_distance(),
    {
        self.distance
    }

    /// Number of offsets ever used, live or deleted.
    pub fn total_vector_count(&self) -> (r: usize)
        ensures
            r == self.spec_total(),
    {
        self.vectors.len()
    }

    /// Number of live vectors.
    pub fn vector_count(&self) -> (r: usize)
        requires
            self.wf(),
        ensures
            r == live_count(self.deleted_view(), self.spec_total() as int),
    {
        let mut n: usize = 0;
        let mut i: usize = 0;
        while i < self.deleted.len()
            invariant
                i <= self.deleted@.len(),
                n == live_count(self.deleted@, i as int),
                n <= i,
            decreases self.deleted.len() - i,
        {
            if !self.deleted[i] {
                n += 1;
            }
            i += 1;
        }
        n
    }

    /// Whether the offset holds no live vector.
    pub fn is_deleted(&self, o: PointOffsetType) -> (r: bool)
        requires
            self.wf(),
        ensures
            r == !self.is_live(o),
    {
        o >= self.deleted.len() || self.deleted[o]
    }

    /// The live vector at an offset.
    pub fn get(&self, o: PointOffsetType) -> (r: Option<&Vec<VectorElementType>>)
        requires
            self.wf(),
        ensures
            self.is_live(o) ==> r is Some && r->Some_0@ == self.vectors_view()[o as int],
            !self.is_live(o) ==> r is None,
    {
        if o < self.vectors.len() && !self.deleted[o] {
            Some(&self.vectors[o])
        } else {
            None
        }
    }

    /// Writes a vector at an offset: overwrites it, revives a deleted one, or
    /// appends at the end. A vector of another dimension is refused.
    pub fn put(&mut self, o: PointOffsetType, vector: Vec<VectorElementType>) -> (r: OperationResult<()>)
        requires
            old(self).wf(),
            o <= old(self).spec_total(),
        ensures
            final(self).wf(),
            final(self).spec_dim() == old(self).spec_dim(),
            final(self).spec_distance() == old(self).spec_distance(),
            vector@.len() != old(self).spec_dim() ==> r is Err && r->Err_0 == (OperationError::WrongVector {
                expected_dim: old(self).spec_dim() as usize,
                received_dim: vector@.len() as usize,
            }) && *final(self) == *old(self),
            vector@.len() == old(self).spec_dim() ==> r is Ok && (if o < old(self).spec_total() {
                &&& final(self).spec_total() == old(self).spec_total()
                &&& final(self).vectors_view() == old(self).vectors_view().update(o as int, vector@)
                &&& final(self).deleted_view() == old(self).deleted_view().update(o as int, false)
            } else {
                &&& final(self).spec_total() == old(self).spec_total() + 1
                &&& final(self).vectors_view() == old(self).vectors_view().push(vector@)
                &&& final(self).deleted_view() == old(self).deleted_view().push(false)
            }),
    {
        if vector.len() != self.dim {
            return Err(OperationError::WrongVector { expected_dim: self.dim, received_dim: vector.len() });
        }
        let ghost vv = vector@;
        if o < self.vectors.len() {
            self.vectors.set(o, vector);
            self.deleted.set(o, false);
            proof {
                assert(self.vectors_view() =~= old(self).vectors_view().update(o as int, vv));
            }
        } else {
            self.vectors.push(vector);
            self.deleted.push(false);
            proof {
                assert(self.vectors_view() =~= old(self).vectors_view().push(vv));
            }
        }
        proof {
            assert forall|i: int| 0 <= i < self.vectors@.len() implies #[trigger] self.vectors@[i]@.len()
                == self.dim by {
                if i != o {
                    assert(self.vectors@[i] == old(self).vectors@[i]);
                }
            }
        }
        Ok(())
    }

    /// Marks an offset deleted; its vector is no longer scored or returned.
    pub fn delete(&mut self, o: PointOffsetType)
        requires
            old(self).wf(),
        ensures
            final(self).wf(),
            final(self).spec_dim() == old(self).spec_dim(),
            final(self).spec_distance() == old(self).spec_distance(),
            final(self).spec_total() == old(self).spec_total(),
            final(self).vectors_view() == old(self).vectors_view(),
            final(self).deleted_view() == if o < old(self).spec_total() {
                old(self).deleted_view().update(o as int, true)
            } else {
                old(self).deleted_view()
            },
    {
        if o < self.deleted.len() {
            self.deleted.set(o, true);
        }
    }

    /// Scores every live vector against the query and returns the `top` best,
    /// best first, ties broken by lower offset.
    pub fn score_all(&self, query: &Vec<VectorElementType>, top: usize) -> (r: Vec<(PointOffsetType, ScoreType)>)
        requires
            self.wf(),
            query@.len() == self.spec_dim(),
        ensures
            is_top(r@, |o: PointOffsetType| self.is_live(o), |o: PointOffsetType| self.score_of(query@, o), top as nat),
    {
        let mut r: Vec<(PointOffsetType, ScoreType)> = Vec::new();
        let mut i: usize = 0;
        while i < self.vectors.len()
            invariant
                self.wf(),
                query@.len() == self.spec_dim(),
                i <= self.vectors@.len(),
                r@.len() <= top,
                sorted_best_first(r@),
                forall|k: int|
                    0 <= k < r@.len() ==> #[trigger] r@[k].0 < i && self.is_live(r@[k].0) && r@[k].1
                        == self.score_of(query@, r@[k].0),
                forall|o: PointOffsetType|
                    o < i && #[trigger] self.is_live(o) ==> offsets_of(r@).contains(o) || (r@.len() == top
                        && beats_all(r@, (o, self.score_of(query@, o)))),
            decreases self.vectors.len() - i,
        {
            if !self.deleted[i] {
                let s = similarity_score(self.distance, query, &self.vectors[i]);
                let ghost old_r = r@;
                proof {
                    assert(self.vectors@[i as int]@ == self.vectors_view()[i as int]);
                    if offsets_of(old_r).contains(i) {
                        let k = choose|k: int| 0 <= k < old_r.len() && offsets_of(old_r)[k] == i;
                        assert(old_r[k].0 == i);
                    }
                }
                insert_top(&mut r, (i, s), top);
                proof {
                    lemma_top_step(
                        |o: PointOffsetType| self.score_of(query@, o),
                        |o: PointOffsetType| o < i + 1 && self.is_live(o),
                        |o: PointOffsetType| o < i && self.is_live(o),
                        old_r,
                        r@,
                        i,
                        s,
                        top as nat,
                    );
                }
            }
            i += 1;
        }
        r
    }

    /// Scores the live vectors at the given offsets against the query and
    /// returns the `top` best, best first, ties broken by lower offset.
    /// Offsets that are deleted, out of range or repeated count once or not
    /// at all.
    pub fn score_points(&self, query: &Vec<VectorElementType>, points: &Vec<PointOffsetType>, top: usize) -> (r:
        Vec<(PointOffsetType, ScoreType)>)
        requires
            self.wf(),
            query@.len() == self.spec_dim(),
        ensures
            is_top(
                r@,
                |o: PointOffsetType| points@.contains(o) && self.is_live(o),
                |o: PointOffsetType| self.score_of(query@, o),
                top as nat,
            ),
    {
        let ghost score = |o: PointOffsetType| self.score_of(query@, o);
        let mut r: Vec<(PointOffsetType, ScoreType)> = Vec::new();
        let mut j: usize = 0;
        while j < points.len()
            invariant
                self.wf(),
                query@.len() == self.spec_dim(),
                score == |o: PointOffsetType| self.score_of(query@, o),
                j <= points@.len(),
                r@.len() <= top,
                sorted_best_first(r@),
                forall|k: int|
                    0 <= k < r@.len() ==> points@.contains(#[trigger] r@[k].0) && self.is_live(r@[k].0)
                        && r@[k].1 == score(r@[k].0),
                forall|o: PointOffsetType|
                    #[trigger] points@.take(j as int).contains(o) && self.is_live(o) ==> offsets_of(r@).contains(o)
                        || (r@.len() == top && beats_all(r@, (o, score(o)))),
            decreases points.len() - j,
        {
            let o = points[j];
            proof {
                assert forall|x: PointOffsetType| #[trigger] points@.take(j + 1).contains(x) <==> points@.take(
                    j as int,
                ).contains(x) || x == o by {
                    let a = points@.take(j as int);
                    let b = points@.take(j + 1);
                    assert(b =~= a.push(o));
                    if b.contains(x) {
                        let k = choose|k: int| 0 <= k < b.len() && b[k] == x;
                        if k < j {
                            assert(a[k] == x);
                        }
                    }
                    if a.contains(x) {
                        let k = choose|k: int| 0 <= k < a.len() && a[k] == x;
                        assert(b[k] == x);
                    }
                    if x == o {
                        assert(b[j as int] == x);
                    }
                }
                assert(points@.contains(o)) by {
                    assert(points@[j as int] == o);
                }
            }
            if o < self.vectors.len() && !self.deleted[o] && !contains_offset(&r, o) {
                let s = similarity_score(self.distance, query, &self.vectors[o]);
                let ghost old_r = r@;
                proof {
                    assert(self.vectors@[o as int]@ == self.vectors_view()[o as int]);
                }
                insert_top(&mut r, (o, s), top);
                proof {
                    lemma_top_step(
                        score,
                        |x: PointOffsetType| points@.contains(x) && self.is_live(x),
                        |x: PointOffsetType| points@.take(j as int).contains(x) && self.is_live(x),
                        old_r,
                        r@,
                        o,
                        s,
                        top as nat,
                    );
                }
            }
            j += 1;
        }
        proof {
            assert(points@.take(j as int) =~= points@);
        }
        r
    }
}

fn contains_offset(r: &Vec<(PointOffsetType, ScoreType)>, o: PointOffsetType) -> (b: bool)
    ensures
        b == offsets_of(r@).contains(o),
{
    let mut i: usize = 0;
    while i < r.len()
        invariant
            i <= r@.len(),
            forall|k: int| 0 <= k < i ==> r@[k].0 != o,
        decreases r.len() - i,
    {
        if r[i].0 == o {
            assert(offsets_of(r@)[i as int] == o);
            return true;
        }
        i += 1;
    }
    proof {
        if offsets_of(r@).contains(o) {
            let k = choose|k: int| 0 <= k < r@.len() && offsets_of(r@)[k] == o;
            assert(r@[k].0 == o);
        }
    }
    false
}

/// One candidate more: what `insert_top` guarantees keeps the list the best
/// of all candidates seen so far.
proof fn lemma_top_step(
    score: spec_fn(PointOffsetType) -> ScoreType,
    allowed: spec_fn(PointOffsetType) -> bool,
    seen: spec_fn(PointOffsetType) -> bool,
    old_r: Seq<(PointOffsetType, ScoreType)>,
    r: Seq<(PointOffsetType, ScoreType)>,
    i: PointOffsetType,
    s: ScoreType,
    top: nat,
)
    requires
        s == score(i),
        allowed(i),
        !offsets_of(old_r).contains(i),
        forall|k: int| 0 <= k < old_r.len() ==> #[trigger] allowed(old_r[k].0) && old_r[k].1 == score(old_r[k].0),
        forall|o: PointOffsetType|
            #[trigger] seen(o) ==> offsets_of(old_r).contains(o) || (old_r.len() == top && beats_all(
                old_r,
                (o, score(o)),
            )),
        forall|k: int| 0 <= k < r.len() ==> old_r.contains(#[trigger] r[k]) || r[k] == (i, s),
        r.contains((i, s)) || (r.len() == top && beats_all(r, (i, s))),
        forall|k: int|
            0 <= k < old_r.len() ==> r.contains(#[trigger] old_r[k]) || (r.len() == top && beats_all(r, old_r[k])),
        forall|x: (PointOffsetType, ScoreType)|
            old_r.len() == top && #[trigger] beats_all(old_r, x) ==> r.len() == top && beats_all(r, x),
    ensures
        forall|k: int| 0 <= k < r.len() ==> #[trigger] allowed(r[k].0) && r[k].1 == score(r[k].0),
        forall|o: PointOffsetType|
            seen(o) || o == i ==> offsets_of(r).contains(o) || (r.len() == top && beats_all(r, (o, score(o)))),
{
    assert forall|k: int| 0 <= k < r.len() implies #[trigger] allowed(r[k].0) && r[k].1 == score(r[k].0) by {
        if r[k] != (i, s) {
            let j = choose|j: int| 0 <= j < old_r.len() && old_r[j] == r[k];
            assert(allowed(old_r[j].0));
        }
    }
    assert forall|o: PointOffsetType| seen(o) || o == i implies offsets_of(r).contains(o) || (r.len() == top
        && beats_all(r, (o, score(o)))) by {
        if o == i {
            if r.contains((i, s)) {
                let k = choose|k: int| 0 <= k < r.len() && r[k] == (i, s);
                assert(offsets_of(r)[k] == o);
            }
        } else if offsets_of(old_r).contains(o) {
            let j = choose|j: int| 0 <= j < old_r.len() && offsets_of(old_r)[j] == o;
            assert(old_r[j].0 == o);
            assert(allowed(old_r[j].0));
            if r.contains(old_r[j]) {
                let k = choose|k: int| 0 <= k < r.len() && r[k] == old_r[j];
                assert(offsets_of(r)[k] == o);
            }
        } else {
            assert(seen(o));
        }
    }
}

} // verus!
