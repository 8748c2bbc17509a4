//! The k-nearest-neighbours classifier: a lazy learner that stores its
//! training set verbatim and, at prediction time, lets the k stored
//! examples closest to the query vote on its label.

use vstd::prelude::*;

use crate::util::{
    counter_of, counter_winner, lemma_counter_of_len, sq_dist, squared_distance, Counter, Label,
};

verus! {

// ---------------------------------------------------------------------------
// The candidate-selection model
//
// Prediction scans the training set once, keeping up to k candidate
// neighbours as (index, squared distance) pairs.  The first k points are
// admitted unconditionally; each later point replaces the first candidate
// whose distance exceeds its own, if there is one.  The spec below mirrors
// that scan exactly, because the candidate set it produces - and hence the
// vote - is observable through the prediction.
// ---------------------------------------------------------------------------

/// Position of the first candidate whose distance exceeds `d`, if any.
pub open spec fn first_exceeding(cands: Seq<(int, int)>, d: int) -> Option<int>
    decreases cands.len(),
{
    if cands.len() == 0 {
        None
    } else if cands[0].1 > d {
        Some(0int)
    } else {
        match first_exceeding(cands.drop_first(), d) {
            Some(j) => Some(j + 1),
            None => None,
        }
    }
}

/// The candidate set after one more training point, with index `i` at
/// squared distance `d`: admitted unconditionally while fewer than `k`
/// candidates are held, otherwise put in the place of the first candidate
/// whose distance exceeds `d`, if one exists.
pub open spec fn select_step(cands: Seq<(int, int)>, i: int, d: int, k: nat) -> Seq<(int, int)> {
    if cands.len() < k {
        cands.push((i, d))
    } else {
        match first_exceeding(cands, d) {
            Some(j) => cands.update(j, (i, d)),
            None => cands,
        }
    }
}

/// The candidate set after scanning the first `n` training points.
pub open spec fn select_rec(data: Seq<Seq<i16>>, x: Seq<i16>, k: nat, n: int) -> Seq<(int, int)>
    decreases n,
{
    if n <= 0 {
        Seq::empty()
    } else {
        select_step(select_rec(data, x, k, n - 1), n - 1, sq_dist(x, data[n - 1]), k)
    }
}

/// The up-to-k candidate neighbours of `x` among `data`.
pub open spec fn selected(data: Seq<Seq<i16>>, x: Seq<i16>, k: nat) -> Seq<(int, int)> {
    select_rec(data, x, k, data.len() as int)
}

/// The labels of the selected neighbours of `x`, in candidate order.
pub open spec fn votes<L>(data: Seq<Seq<i16>>, labels: Seq<L>, k: nat, x: Seq<i16>) -> Seq<L> {
    selected(data, x, k).map(|q: int, p: (int, int)| labels[p.0])
}

/// The label predicted for `x`: the most frequent label among the selected
/// neighbours, ties resolved by the counter's first-encountered-maximum
/// rule.  An empty candidate set yields no label.
pub open spec fn knn_label<L>(data: Seq<Seq<i16>>, labels: Seq<L>, k: nat, x: Seq<i16>) -> Option<
    L,
> {
    let ctr = counter_of(votes(data, labels, k, x));
    if ctr.len() == 0 {
        None
    } else {
        Some(ctr[counter_winner(ctr)].0)
    }
}

/// `first_exceeding` finds exactly the first candidate beyond `d`.
pub proof fn lemma_first_exceeding(cands: Seq<(int, int)>, d: int)
    ensures
        match first_exceeding(cands, d) {
            Some(j) => 0 <= j < cands.len() && cands[j].1 > d && (forall|t: int|
                0 <= t < j ==> cands[t].1 <= d),
            None => forall|t: int| 0 <= t < cands.len() ==> cands[t].1 <= d,
        },
    decreases cands.len(),
{
    if cands.len() > 0 && !(cands[0].1 > d) {
        lemma_first_exceeding(cands.drop_first(), d);
        match first_exceeding(cands.drop_first(), d) {
            Some(j) => {
                assert(cands.drop_first()[j] == cands[j + 1]);
                assert forall|t: int| 0 <= t < j + 1 implies cands[t].1 <= d by {
                    if t > 0 {
                        assert(cands.drop_first()[t - 1] == cands[t]);
                    }
                }
            },
            None => {
                assert forall|t: int| 0 <= t < cands.len() implies cands[t].1 <= d by {
                    if t > 0 {
                        assert(cands.drop_first()[t - 1] == cands[t]);
                    }
                }
            },
        }
    }
}

/// A first candidate beyond `d` makes `first_exceeding` answer there.
proof fn lemma_first_exceeding_at(cands: Seq<(int, int)>, d: int, j: int)
    requires
        0 <= j < cands.len(),
        cands[j].1 > d,
        forall|t: int| 0 <= t < j ==> cands[t].1 <= d,
    ensures
        first_exceeding(cands, d) == Some(j),
{
    lemma_first_exceeding(cands, d);
    match first_exceeding(cands, d) {
        Some(j2) => {
            if j2 < j {
                assert(cands[j2].1 <= d);
            }
            if j2 > j {
                assert(cands[j].1 <= d);
            }
        },
        None => {
            assert(cands[j].1 <= d);
        },
    }
}

/// With no candidate beyond `d`, `first_exceeding` answers nothing.
proof fn lemma_first_exceeding_none(cands: Seq<(int, int)>, d: int)
    requires
        forall|t: int| 0 <= t < cands.len() ==> cands[t].1 <= d,
    ensures
        first_exceeding(cands, d) is None,
{
    lemma_first_exceeding(cands, d);
    match first_exceeding(cands, d) {
        Some(j2) => {
            assert(cands[j2].1 <= d);
        },
        None => {},
    }
}

/// The candidate set after `n` points holds `min(k, n)` candidates, each a
/// distinct training index below `n` paired with its squared distance to
/// the query.
pub proof fn lemma_select_rec_props(data: Seq<Seq<i16>>, x: Seq<i16>, k: nat, n: int)
    requires
        0 <= n <= data.len(),
    ensures
        ({
            let sel = select_rec(data, x, k, n);
            &&& sel.len() == if n <= k {
                n
            } else {
                k as int
            }
            &&& forall|q: int|
                0 <= q < sel.len() ==> 0 <= #[trigger] sel[q].0 < n && sel[q].1 == sq_dist(
                    x,
                    data[sel[q].0],
                )
        }),
    decreases n,
{
    if n > 0 {
        lemma_select_rec_props(data, x, k, n - 1);
        let prev = select_rec(data, x, k, n - 1);
        let d = sq_dist(x, data[n - 1]);
        if prev.len() >= k {
            lemma_first_exceeding(prev, d);
        }
    }
}

/// The candidate pairs held by the two parallel working vectors of the
/// prediction scan.
pub open spec fn cand_pairs(neigh: Seq<usize>, dists: Seq<i128>) -> Seq<(int, int)> {
    Seq::new(neigh.len(), |q: int| (neigh[q] as int, dists[q] as int))
}

/// Replace the first candidate whose distance exceeds `dist` - if there is
/// one - by the new candidate `(i, dist)`.
#[verifier::loop_isolation(false)]
fn replace_first(neigh: &mut Vec<usize>, dists: &mut Vec<i128>, i: usize, dist: i128)
    requires
        old(neigh)@.len() == old(dists)@.len(),
    ensures
        final(neigh)@.len() == old(neigh)@.len(),
        final(dists)@.len() == old(dists)@.len(),
        ({
            let cands = cand_pairs(old(neigh)@, old(dists)@);
            cand_pairs(final(neigh)@, final(dists)@) == (match first_exceeding(
                cands,
                dist as int,
            ) {
                Some(j) => cands.update(j, (i as int, dist as int)),
                None => cands,
            })
        }),
{
    let n = dists.len();
    let mut j: usize = 0;
    while j < n
        invariant
            j <= n,
            neigh@ == old(neigh)@,
            dists@ == old(dists)@,
            forall|t: int| 0 <= t < j ==> old(dists)@[t] <= dist,
        decreases n - j,
    {
        if dist < dists[j] {
            dists[j] = dist;
            neigh[j] = i;
            proof {
                let cands = cand_pairs(old(neigh)@, old(dists)@);
                lemma_first_exceeding_at(cands, dist as int, j as int);
                assert(cand_pairs(neigh@, dists@) =~= cands.update(
                    j as int,
                    (i as int, dist as int),
                ));
            }
            return ;
        }
        j = j + 1;
    }
    proof {
        lemma_first_exceeding_none(cand_pairs(old(neigh)@, old(dists)@), dist as int);
    }
}

/// With a non-empty training set and a positive neighbour count, every
/// query receives a label.
pub proof fn lemma_knn_label_some<L>(data: Seq<Seq<i16>>, labels: Seq<L>, k: nat, x: Seq<i16>)
    requires
        k > 0,
        data.len() > 0,
    ensures
        knn_label(data, labels, k, x) is Some,
{
    lemma_select_rec_props(data, x, k, data.len() as int);
    lemma_counter_of_len(votes(data, labels, k, x));
}

/// A K-Nearest Neighbours classifier over integer feature vectors.  It is
/// constructed untrained with a fixed neighbour count, stores its training
/// set verbatim when fitted, and predicts by majority vote among the up to
/// k stored examples closest to the query by squared distance.
pub struct KNNClassifier<T: Label> {
    k: usize,
    data: Option<Vec<Vec<i16>>>,
    labels: Option<Vec<T>>,
}

impl<T: Label> KNNClassifier<T> {
    /// Either nothing is stored, or examples and labels are stored
    /// together, aligned index by index.
    #[verifier::type_invariant]
    spec fn wf(self) -> bool {
        match (self.data, self.labels) {
            (Some(d), Some(l)) => d@.len() == l@.len(),
            (None, None) => true,
            _ => false,
        }
    }

    /// The stored training examples, as mathematical sequences.
    pub closed spec fn spec_data(&self) -> Option<Seq<Seq<i16>>> {
        match self.data {
            Some(d) => Some(d.deep_view()),
            None => None,
        }
    }

    /// The views of the stored training labels.
    pub closed spec fn spec_labels(&self) -> Option<Seq<<T as DeepView>::V>> {
        match self.labels {
            Some(l) => Some(l.deep_view()),
            None => None,
        }
    }

    /// The configured neighbour count.
    pub closed spec fn spec_k(&self) -> nat {
        self.k as nat
    }

    /// Whether `fit` has been called.
    pub open spec fn is_trained(&self) -> bool {
        self.spec_data() is Some
    }

    /// The label predicted for the query `x` in the current state: nothing
    /// before training, or when the candidate set comes up empty.
    pub open spec fn spec_predict_one(&self, x: Seq<i16>) -> Option<<T as DeepView>::V> {
        match (self.spec_data(), self.spec_labels()) {
            (Some(d), Some(l)) => knn_label(d, l, self.spec_k(), x),
            _ => None,
        }
    }

    /// Every query can be answered: the classifier is trained, wants at
    /// least one neighbour, and stores at least one example.
    pub open spec fn can_answer(&self) -> bool {
        &&& self.spec_k() > 0
        &&& match self.spec_data() {
            Some(d) => d.len() > 0,
            None => false,
        }
    }

    /// Construct a new, untrained classifier with neighbour count `k`.
    pub fn new(k: usize) -> (r: KNNClassifier<T>)
        ensures
            r.spec_k() == k,
            !r.is_trained(),
            r.spec_data() is None,
            r.spec_labels() is None,
    {
        KNNClassifier::<T> { k: k, data: None, labels: None }
    }

    /// Train the classifier with examples and their labels, replacing any
    /// previous training set.  A KNN classifier does no work while
    /// training - it is a lazy learner - beyond storing the data.  The
    /// examples and the labels must be aligned index by index.
    pub fn fit(&mut self, data: Vec<Vec<i16>>, labels: Vec<T>)
        requires
            data@.len() == labels@.len(),
        ensures
            final(self).spec_k() == old(self).spec_k(),
            final(self).spec_data() == Some(data.deep_view()),
            final(self).spec_labels() == Some(labels.deep_view()),
    {
        let k = self.k;
        *self = KNNClassifier::<T> { k: k, data: Some(data), labels: Some(labels) };
    }

    /// The stored training examples, if any.
    pub fn training_data(&self) -> (r: Option<&Vec<Vec<i16>>>)
        ensures
            match r {
                Some(d) => self.spec_data() == Some(d.deep_view()),
                None => self.spec_data() is None,
            },
            r is Some <==> self.is_trained(),
    {
        self.data.as_ref()
    }

    /// The stored training labels, if any.
    pub fn training_labels(&self) -> (r: Option<&Vec<T>>)
        ensures
            match r {
                Some(l) => self.spec_labels() == Some(l.deep_view()),
                None => self.spec_labels() is None,
            },
            r is Some <==> self.is_trained(),
    {
        proof {
            use_type_invariant(self);
        }
        self.labels.as_ref()
    }

    /// Predict the label for one data point: nothing before training,
    /// otherwise the majority label among the up to k stored examples
    /// closest to `x` by squared distance.  With a neighbour count of zero
    /// or an empty training set there are no candidates, and no label.
    #[verifier::loop_isolation(false)]
    pub fn predict_one(&self, x: &Vec<i16>) -> (r: Option<T>)
        ensures
            !self.is_trained() ==> r is None,
            match r {
                Some(lab) => self.spec_predict_one(x@) == Some(lab.deep_view()),
                None => self.spec_predict_one(x@) is None,
            },
    {
        proof {
            use_type_invariant(self);
        }
        match (&self.data, &self.labels) {
            (Some(data), Some(labels)) => {
                let ghost ddv = data.deep_view();
                let ghost ldv = labels.deep_view();
                let ghost kk = self.spec_k();
                let n = data.len();
                let mut best_neigh: Vec<usize> = Vec::new();
                let mut best_dists: Vec<i128> = Vec::new();
                proof {
                    assert(cand_pairs(best_neigh@, best_dists@) =~= select_rec(ddv, x@, kk, 0));
                }
                let mut i: usize = 0;
                while i < n
                    invariant
                        i <= n,
                        best_neigh@.len() == best_dists@.len(),
                        cand_pairs(best_neigh@, best_dists@) == select_rec(ddv, x@, kk, i as int),
                    decreases n - i,
                {
                    proof {
                        assert(ddv[i as int] =~= data@[i as int]@);
                    }
                    let dist = squared_distance(x, &data[i]);
                    if best_neigh.len() < self.k {
                        best_neigh.push(i);
                        best_dists.push(dist);
                        proof {
                            assert(cand_pairs(best_neigh@, best_dists@) =~= select_rec(
                                ddv,
                                x@,
                                kk,
                                i as int + 1,
                            ));
                        }
                    } else {
                        replace_first(&mut best_neigh, &mut best_dists, i, dist);
                        proof {
                            assert(cand_pairs(best_neigh@, best_dists@) == select_rec(
                                ddv,
                                x@,
                                kk,
                                i as int + 1,
                            ));
                        }
                    }
                    i = i + 1;
                }
                proof {
                    lemma_select_rec_props(ddv, x@, kk, n as int);
                }
                let ghost vs = votes(ddv, ldv, kk, x@);
                let kn = best_neigh.len();
                let mut label_votes: Vec<T> = Vec::new();
                proof {
                    assert(label_votes.deep_view() =~= vs.take(0));
                }
                let mut t: usize = 0;
                while t < kn
                    invariant
                        t <= kn,
                        label_votes.deep_view() == vs.take(t as int),
                    decreases kn - t,
                {
                    let idx = best_neigh[t];
                    proof {
                        assert(selected(ddv, x@, kk)[t as int].0 == idx as int);
                    }
                    label_votes.push(labels[idx].dup());
                    proof {
                        assert(label_votes.deep_view() =~= vs.take(t as int + 1));
                    }
                    t = t + 1;
                }
                proof {
                    assert(vs.take(kn as int) =~= vs);
                }
                let ctr = Counter::with_iterator(label_votes);
                match ctr.most_frequent() {
                    Some((lab, _freq)) => Some(lab.dup()),
                    None => None,
                }
            },
            _ => None,
        }
    }

    /// Predict the labels of a batch of data points: nothing before
    /// training, otherwise exactly one label per query, in query order,
    /// each predicted independently as `predict_one` does.  A non-empty
    /// batch asks that the classifier can answer, i.e. that its neighbour
    /// count and its training set are not empty.
    #[verifier::loop_isolation(false)]
    pub fn predict(&self, data: &Vec<Vec<i16>>) -> (r: Option<Vec<T>>)
        requires
            self.is_trained() && data@.len() > 0 ==> self.can_answer(),
        ensures
            r is Some <==> self.is_trained(),
            match r {
                Some(out) => out@.len() == data@.len() && (forall|q: int|
                    0 <= q < data@.len() ==> self.spec_predict_one(data@[q]@) == Some(
                        out.deep_view()[q],
                    )),
                None => !self.is_trained(),
            },
    {
        proof {
            use_type_invariant(self);
        }
        if self.data.is_none() {
            return None;
        }
        let n = data.len();
        let mut ret: Vec<T> = Vec::new();
        let mut i: usize = 0;
        while i < n
            invariant
                i <= n,
                ret@.len() == i,
                forall|q: int|
                    0 <= q < i ==> self.spec_predict_one(data@[q]@) == Some(ret.deep_view()[q]),
            decreases n - i,
        {
            let ghost v0 = ret@;
            let ghost dv0 = ret.deep_view();
            match self.predict_one(&data[i]) {
                Some(lab) => {
                    let ghost lv = lab.deep_view();
                    ret.push(lab);
                    proof {
                        assert forall|q: int|
                            0 <= q < i + 1 implies self.spec_predict_one(data@[q]@) == Some(
                            ret.deep_view()[q],
                        ) by {
                            if q < i {
                                assert(ret@[q] == v0[q]);
                                assert(ret.deep_view()[q] == v0[q].deep_view());
                                assert(dv0[q] == v0[q].deep_view());
                            } else {
                                assert(ret.deep_view()[q] == lv);
                            }
                        }
                    }
                },
                None => {
                    proof {
                        match (self.spec_data(), self.spec_labels()) {
                            (Some(d), Some(l)) => {
                                lemma_knn_label_some(d, l, self.spec_k(), data@[i as int]@);
                            },
                            _ => {},
                        }
                        assert(false);
                    }
                },
            }
            i = i + 1;
        }
        Some(ret)
    }
}

} // verus!
