//! The classifier: labelled training points, neighbour ranking and the vote.
//!
//! Neighbours are ordered by squared distance to the query, and points at the
//! same distance by their position in the training set, so every point has a
//! distinct rank. The `k` points of rank below `k` vote. The winning label is
//! the one with the most votes; among labels with equal votes, the one whose
//! nearest voting point has the lowest rank wins.
use vstd::prelude::*;

use crate::distance::{sq_dist, squared_distance};
use crate::KnnError;

verus! {

/// A feature vector with its label, as stored by the classifier.
pub struct DataPoint {
    pub features: Vec<i32>,
    pub label: String,
}

impl DataPoint {
    /// The point as mathematical values: its features and its label.
    pub open spec fn model(&self) -> (Seq<i32>, Seq<char>) {
        (self.features@, self.label@)
    }
}

/// Every stored point has the dimension of the first one.
pub open spec fn same_dimension(pts: Seq<(Seq<i32>, Seq<char>)>) -> bool {
    forall|i: int| 0 <= i < pts.len() ==> #[trigger] pts[i].0.len() == pts[0].0.len()
}

/// A point with features `f` may join `pts`.
pub open spec fn accepts(pts: Seq<(Seq<i32>, Seq<char>)>, f: Seq<i32>) -> bool {
    pts.len() == 0 || f.len() == pts[0].0.len()
}

/// Squared distance from the `i`-th point to the query `q`.
pub open spec fn dist_of(pts: Seq<(Seq<i32>, Seq<char>)>, q: Seq<i32>, i: int) -> int {
    sq_dist(pts[i].0, q)
}

/// Point `j` comes before point `i` in the neighbour order.
pub open spec fn closer(pts: Seq<(Seq<i32>, Seq<char>)>, q: Seq<i32>, j: int, i: int) -> bool {
    dist_of(pts, q, j) < dist_of(pts, q, i) || (dist_of(pts, q, j) == dist_of(pts, q, i) && j
        < i)
}

/// How many of the first `m` points come before point `i`.
pub open spec fn count_closer(pts: Seq<(Seq<i32>, Seq<char>)>, q: Seq<i32>, i: int, m: nat) -> nat
    decreases m,
{
    if m == 0 {
        0
    } else {
        count_closer(pts, q, i, (m - 1) as nat) + if closer(pts, q, m - 1, i) {
            1nat
        } else {
            0nat
        }
    }
}

/// Position of point `i` in the neighbour order, from 0.
pub open spec fn rank(pts: Seq<(Seq<i32>, Seq<char>)>, q: Seq<i32>, i: int) -> nat {
    count_closer(pts, q, i, pts.len())
}

/// Point `i` is one of the `k` nearest neighbours of `q`.
pub open spec fn is_neighbor(pts: Seq<(Seq<i32>, Seq<char>)>, q: Seq<i32>, k: nat, i: int) -> bool {
    0 <= i < pts.len() && rank(pts, q, i) < k
}

/// How many of the first `m` points are neighbours labelled `l`.
pub open spec fn count_votes(
    pts: Seq<(Seq<i32>, Seq<char>)>,
    q: Seq<i32>,
    k: nat,
    l: Seq<char>,
    m: nat,
) -> nat
    decreases m,
{
    if m == 0 {
        0
    } else {
        count_votes(pts, q, k, l, (m - 1) as nat) + if is_neighbor(pts, q, k, m - 1) && pts[m
            - 1].1 == l {
            1nat
        } else {
            0nat
        }
    }
}

/// Number of neighbours labelled `l`.
pub open spec fn votes(pts: Seq<(Seq<i32>, Seq<char>)>, q: Seq<i32>, k: nat, l: Seq<char>) -> nat {
    count_votes(pts, q, k, l, pts.len())
}

/// The label of point `w` beats the label of point `i`: it has more votes, or
/// as many and `w` is not further down the neighbour order.
pub open spec fn outranks(
    pts: Seq<(Seq<i32>, Seq<char>)>,
    q: Seq<i32>,
    k: nat,
    w: int,
    i: int,
) -> bool {
    let vw = votes(pts, q, k, pts[w].1);
    let vi = votes(pts, q, k, pts[i].1);
    vw > vi || (vw == vi && rank(pts, q, w) <= rank(pts, q, i))
}

/// Point `w` is the neighbour whose label is predicted.
pub open spec fn is_winner(pts: Seq<(Seq<i32>, Seq<char>)>, q: Seq<i32>, k: nat, w: int) -> bool {
    &&& is_neighbor(pts, q, k, w)
    &&& forall|i: int| #[trigger] is_neighbor(pts, q, k, i) ==> outranks(pts, q, k, w, i)
}

/// The label predicted for `q` from the `k` nearest points of `pts`.
pub open spec fn predicted_label(pts: Seq<(Seq<i32>, Seq<char>)>, q: Seq<i32>, k: nat) -> Seq<
    char,
> {
    pts[choose|w: int| is_winner(pts, q, k, w)].1
}


proof fn lemma_count_closer_zero(pts: Seq<(Seq<i32>, Seq<char>)>, q: Seq<i32>, a: int, m: nat)
    requires
        forall|j: int| 0 <= j < m ==> !closer(pts, q, j, a),
    ensures
        count_closer(pts, q, a, m) == 0,
    decreases m,
{
    if m > 0 {
        lemma_count_closer_zero(pts, q, a, (m - 1) as nat);
    }
}

/// Some point among the first `m` has no point of those before it.
proof fn lemma_nearest_exists(pts: Seq<(Seq<i32>, Seq<char>)>, q: Seq<i32>, m: nat) -> (a: int)
    requires
        1 <= m,
    ensures
        0 <= a < m,
        forall|j: int| 0 <= j < m ==> !closer(pts, q, j, a),
    decreases m,
{
    if m == 1 {
        0
    } else {
        let b = lemma_nearest_exists(pts, q, (m - 1) as nat);
        let x = m - 1;
        if closer(pts, q, x, b) {
            assert forall|j: int| 0 <= j < m implies !closer(pts, q, j, x) by {
                if j < x && closer(pts, q, j, x) {
                    assert(closer(pts, q, j, b));
                }
            }
            x
        } else {
            b
        }
    }
}

proof fn lemma_count_closer_monotone(
    pts: Seq<(Seq<i32>, Seq<char>)>,
    q: Seq<i32>,
    a: int,
    b: int,
    m: nat,
)
    requires
        closer(pts, q, a, b),
    ensures
        count_closer(pts, q, b, m) >= count_closer(pts, q, a, m) + if 0 <= a < m {
            1int
        } else {
            0int
        },
    decreases m,
{
    if m > 0 {
        lemma_count_closer_monotone(pts, q, a, b, (m - 1) as nat);
    }
}

/// Distinct points have distinct ranks.
proof fn lemma_rank_injective(pts: Seq<(Seq<i32>, Seq<char>)>, q: Seq<i32>, a: int, b: int)
    requires
        0 <= a < pts.len(),
        0 <= b < pts.len(),
        a != b,
    ensures
        rank(pts, q, a) != rank(pts, q, b),
{
    if closer(pts, q, a, b) {
        lemma_count_closer_monotone(pts, q, a, b, pts.len());
    } else {
        lemma_count_closer_monotone(pts, q, b, a, pts.len());
    }
}

/// The predicted point is unique: a training set, a neighbour count and a
/// query determine the prediction, whatever the votes.
pub proof fn lemma_winner_unique(
    pts: Seq<(Seq<i32>, Seq<char>)>,
    q: Seq<i32>,
    k: nat,
    w1: int,
    w2: int,
)
    requires
        is_winner(pts, q, k, w1),
        is_winner(pts, q, k, w2),
    ensures
        w1 == w2,
{
    assert(outranks(pts, q, k, w1, w2));
    assert(outranks(pts, q, k, w2, w1));
    if w1 != w2 {
        lemma_rank_injective(pts, q, w1, w2);
    }
}

/// Among the first `m` points, some neighbour outranks every neighbour.
proof fn lemma_best_upto(pts: Seq<(Seq<i32>, Seq<char>)>, q: Seq<i32>, k: nat, m: nat) -> (w: int)
    requires
        0 < k,
        0 < pts.len(),
        m <= pts.len(),
    ensures
        is_neighbor(pts, q, k, w),
        forall|i: int| 0 <= i < m && #[trigger] is_neighbor(pts, q, k, i) ==> outranks(pts, q, k, w, i),
    decreases m,
{
    if m == 0 {
        let a = lemma_nearest_exists(pts, q, pts.len());
        lemma_count_closer_zero(pts, q, a, pts.len());
        a
    } else {
        let b = lemma_best_upto(pts, q, k, (m - 1) as nat);
        let x = m - 1;
        if is_neighbor(pts, q, k, x) && !outranks(pts, q, k, b, x) {
            x
        } else {
            b
        }
    }
}

/// A winner exists whenever at least one neighbour votes.
proof fn lemma_winner_exists(pts: Seq<(Seq<i32>, Seq<char>)>, q: Seq<i32>, k: nat) -> (w: int)
    requires
        0 < k,
        0 < pts.len(),
    ensures
        is_winner(pts, q, k, w),
        predicted_label(pts, q, k) == pts[w].1,
{
    let w = lemma_best_upto(pts, q, k, pts.len());
    assert(is_winner(pts, q, k, w));
    let c = choose|c: int| is_winner(pts, q, k, c);
    lemma_winner_unique(pts, q, k, w, c);
    w
}

/// A label that gets strictly more votes than every other label among the
/// neighbours is the predicted label, whatever rule breaks ties.
pub proof fn lemma_majority_label(
    pts: Seq<(Seq<i32>, Seq<char>)>,
    q: Seq<i32>,
    k: nat,
    l: Seq<char>,
)
    requires
        exists|i: int| is_neighbor(pts, q, k, i) && pts[i].1 == l,
        forall|i: int|
            #[trigger] is_neighbor(pts, q, k, i) && pts[i].1 != l ==> votes(pts, q, k, pts[i].1)
                < votes(pts, q, k, l),
    ensures
        predicted_label(pts, q, k) == l,
{
    let i = choose|i: int| is_neighbor(pts, q, k, i) && pts[i].1 == l;
    let w = lemma_winner_exists(pts, q, k);
    assert(outranks(pts, q, k, w, i));
}

/// A k-nearest-neighbours classifier: the neighbour count `k` and the
/// training points in insertion order, all of one dimension.
pub struct KNNClassifier {
    k: usize,
    data: Vec<DataPoint>,
}

impl KNNClassifier {
    /// The neighbour count.
    pub closed spec fn spec_k(&self) -> nat {
        self.k as nat
    }

    /// The training points in insertion order.
    pub closed spec fn points(&self) -> Seq<(Seq<i32>, Seq<char>)> {
        self.data@.map_values(|p: DataPoint| p.model())
    }

    /// All stored points share one dimension.
    pub open spec fn wf(&self) -> bool {
        same_dimension(self.points())
    }

    /// An empty classifier that will consult `k` neighbours.
    pub fn new(k: usize) -> (r: KNNClassifier)
        ensures
            r.wf(),
            r.spec_k() == k,
            r.points() == Seq::<(Seq<i32>, Seq<char>)>::empty(),
    {
        let r = KNNClassifier { k, data: Vec::new() };
        assert(r.points() =~= Seq::<(Seq<i32>, Seq<char>)>::empty());
        r
    }

    /// Appends a training point. A point whose dimension differs from the
    /// stored points' is refused with `DimensionMismatch`, and nothing changes.
    pub fn add_data(&mut self, features: Vec<i32>, label: &str) -> (r: Result<(), KnnError>)
        requires
            old(self).wf(),
        ensures
            final(self).wf(),
            final(self).spec_k() == old(self).spec_k(),
            accepts(old(self).points(), features@) ==> (r is Ok && final(self).points()
                == old(self).points().push((features@, label@))),
            !accepts(old(self).points(), features@) ==> (r == Err::<(), KnnError>(
                KnnError::DimensionMismatch) && final(self).points() == old(self).points()),
    {
        if self.data.len() > 0 && features.len() != self.data[0].features.len() {
            return Err(KnnError::DimensionMismatch);
        }
        let ghost pts = self.points();
        self.data.push(DataPoint { features, label: label.to_owned() });
        assert(self.points() =~= pts.push((features@, label@)));
        Ok(())
    }

    /// Predicts the label of `features` by a vote of the `k` nearest
    /// training points. Fails with `NoPrediction` when `k` is zero, with
    /// `InsufficientData` when fewer than `k` points are stored, and with
    /// `DimensionMismatch` when `features` differs in length from them.
    pub fn predict(&self, features: Vec<i32>) -> (r: Result<String, KnnError>)
        requires
            self.wf(),
        ensures
            self.spec_k() == 0 ==> r == Err::<String, KnnError>(KnnError::NoPrediction),
            0 < self.spec_k() && self.points().len() < self.spec_k() ==> r == Err::<
                String,
                KnnError,
            >(KnnError::InsufficientData),
            0 < self.spec_k() <= self.points().len() && features@.len()
                != self.points()[0].0.len() ==> r == Err::<String, KnnError>(
                KnnError::DimensionMismatch),
            0 < self.spec_k() <= self.points().len() && features@.len()
                == self.points()[0].0.len() ==> (r is Ok && r->Ok_0@ == predicted_label(
                self.points(),
                features@,
                self.spec_k(),
            )),
    {
        let n = self.data.len();
        if self.k == 0 {
            return Err(KnnError::NoPrediction);
        }
        if self.k > n {
            return Err(KnnError::InsufficientData);
        }
        if features.len() != self.data[0].features.len() {
            return Err(KnnError::DimensionMismatch);
        }
        let ghost pts = self.points();
        let ghost q = features@;
        let ghost k = self.spec_k();
        assert(forall|j: int|
            0 <= j < n ==> #[trigger] pts[j] == (self.data@[j].features@, self.data@[j].label@));
        let mut dists: Vec<u128> = Vec::new();
        let mut i: usize = 0;
        while i < n
            invariant
                n == self.data@.len(),
                pts == self.points(),
                same_dimension(pts),
                0 < n,
                q == features@,
                q.len() == pts[0].0.len(),
                forall|j: int| 0 <= j < n ==> #[trigger] pts[j] == (self.data@[j].features@, self.data@[j].label@),
                i <= n,
                dists@.len() == i,
                forall|j: int| 0 <= j < i ==> dists@[j] as int == dist_of(pts, q, j),
            decreases n - i,
        {
            assert(pts[i as int].0.len() == pts[0].0.len());
            match squared_distance(self.data[i].features.as_slice(), features.as_slice()) {
                Ok(d) => dists.push(d),
                Err(e) => return Err(e),
            }
            i = i + 1;
        }
        let mut ranks: Vec<usize> = Vec::new();
        i = 0;
        while i < n
            invariant
                n == self.data@.len(),
                n == pts.len(),
                i <= n,
                dists@.len() == n,
                forall|j: int| 0 <= j < n ==> dists@[j] as int == dist_of(pts, q, j),
                ranks@.len() == i,
                forall|j: int| 0 <= j < i ==> ranks@[j] as int == rank(pts, q, j),
            decreases n - i,
        {
            let mut c: usize = 0;
            let mut j: usize = 0;
            while j < n
                invariant
                    n == pts.len(),
                    i < n,
                    j <= n,
                    c <= j,
                    dists@.len() == n,
                    forall|j: int| 0 <= j < n ==> dists@[j] as int == dist_of(pts, q, j),
                    c == count_closer(pts, q, i as int, j as nat),
                decreases n - j,
            {
                if dists[j] < dists[i] || (dists[j] == dists[i] && j < i) {
                    c = c + 1;
                }
                j = j + 1;
            }
            ranks.push(c);
            i = i + 1;
        }
        let mut best: usize = 0;
        let mut best_votes: usize = 0;
        let mut found = false;
        i = 0;
        while i < n
            invariant
                n == self.data@.len(),
                n == pts.len(),
                k == self.k,
                i <= n,
                best < n,
                ranks@.len() == n,
                forall|j: int| 0 <= j < n ==> ranks@[j] as int == rank(pts, q, j),
                forall|j: int| 0 <= j < n ==> #[trigger] pts[j] == (self.data@[j].features@, self.data@[j].label@),
                found ==> is_neighbor(pts, q, k, best as int),
                found ==> best_votes == votes(pts, q, k, pts[best as int].1),
                found ==> forall|j: int|
                    0 <= j < i && #[trigger] is_neighbor(pts, q, k, j) ==> outranks(pts, q, k, best as int, j),
                !found ==> forall|j: int| 0 <= j < i ==> !#[trigger] is_neighbor(pts, q, k, j),
            decreases n - i,
        {
            if ranks[i] < self.k {
                let mut v: usize = 0;
                let mut j: usize = 0;
                while j < n
                    invariant
                        n == self.data@.len(),
                        n == pts.len(),
                        k == self.k,
                        i < n,
                        j <= n,
                        v <= j,
                        ranks@.len() == n,
                        forall|j: int| 0 <= j < n ==> ranks@[j] as int == rank(pts, q, j),
                        forall|j: int| 0 <= j < n ==> #[trigger] pts[j] == (self.data@[j].features@, self.data@[j].label@),
                        v == count_votes(pts, q, k, pts[i as int].1, j as nat),
                    decreases n - j,
                {
                    if ranks[j] < self.k && self.data[j].label == self.data[i].label {
                        v = v + 1;
                    }
                    j = j + 1;
                }
                if !found || v > best_votes || (v == best_votes && ranks[i] < ranks[best]) {
                    best = i;
                    best_votes = v;
                    found = true;
                }
            }
            i = i + 1;
        }
        proof {
            if !found {
                let a = lemma_nearest_exists(pts, q, n as nat);
                lemma_count_closer_zero(pts, q, a, n as nat);
                assert(is_neighbor(pts, q, k, a));
            }
            let w = lemma_winner_exists(pts, q, k);
            lemma_winner_unique(pts, q, k, w, best as int);
        }
        Ok(self.data[best].label.clone())
    }

    /// Number of stored training points.
    pub fn len(&self) -> (r: usize)
        ensures
            r == self.points().len(),
    {
        self.data.len()
    }

    /// The neighbour count.
    pub fn k(&self) -> (r: usize)
        ensures
            r == self.spec_k(),
    {
        self.k
    }

    /// The `i`-th stored training point.
    pub fn point(&self, i: usize) -> (r: &DataPoint)
        requires
            i < self.points().len(),
        ensures
            r.model() == self.points()[i as int],
    {
        &self.data[i]
    }
}

} // verus!
