//! Vector arithmetic over integer feature vectors, and a frequency counter
//! with a deterministic, insertion-ordered tie-break.

use vstd::prelude::*;

verus! {

// ---------------------------------------------------------------------------
// Vector arithmetic
//
// Feature vectors are sequences of `i16` coordinates.  All arithmetic is done
// exactly, accumulating into `i128`: a product of two coordinates is bounded
// by `2^30`, a squared difference by `2^32`, and a vector holds fewer than
// `2^64` coordinates, so no sum can reach the `i128` limits.
// ---------------------------------------------------------------------------

/// Length of the overlapping prefix of two vectors: pairwise operations use
/// zip semantics, silently ignoring the tail of the longer vector.
pub open spec fn zip_len(v1: Seq<i16>, v2: Seq<i16>) -> int {
    if v1.len() <= v2.len() {
        v1.len() as int
    } else {
        v2.len() as int
    }
}

/// Sum of the first `n` pairwise products of `v1` and `v2`.
pub open spec fn dot_to(v1: Seq<i16>, v2: Seq<i16>, n: int) -> int
    decreases n,
{
    if n <= 0 {
        0
    } else {
        dot_to(v1, v2, n - 1) + v1[n - 1] * v2[n - 1]
    }
}

/// The dot product of two vectors, over their overlapping prefix.
pub open spec fn dot(v1: Seq<i16>, v2: Seq<i16>) -> int {
    dot_to(v1, v2, zip_len(v1, v2))
}

/// Sum of the squares of the first `n` coordinates of `v`.
pub open spec fn sum_sq_to(v: Seq<i16>, n: int) -> int
    decreases n,
{
    if n <= 0 {
        0
    } else {
        sum_sq_to(v, n - 1) + v[n - 1] * v[n - 1]
    }
}

/// Sum of the squares of the coordinates of `v`.
pub open spec fn sum_sq(v: Seq<i16>) -> int {
    sum_sq_to(v, v.len() as int)
}

/// Sum of the first `n` squared coordinate differences of `v1` and `v2`.
pub open spec fn sq_dist_to(v1: Seq<i16>, v2: Seq<i16>, n: int) -> int
    decreases n,
{
    if n <= 0 {
        0
    } else {
        sq_dist_to(v1, v2, n - 1) + (v1[n - 1] - v2[n - 1]) * (v1[n - 1] - v2[n - 1])
    }
}

/// The squared Euclidean distance between two vectors, i.e. the dot product
/// of their coordinatewise difference with itself, over the overlapping
/// prefix.
pub open spec fn sq_dist(v1: Seq<i16>, v2: Seq<i16>) -> int {
    sq_dist_to(v1, v2, zip_len(v1, v2))
}

/// Compute the dot product of two vectors.  Vectors of unequal length are
/// handled permissively: only the overlapping prefix contributes.
pub fn dot_product(v1: &Vec<i16>, v2: &Vec<i16>) -> (r: i128)
    ensures
        r == dot(v1@, v2@),
{
    let n = if v1.len() <= v2.len() {
        v1.len()
    } else {
        v2.len()
    };
    let mut acc: i128 = 0;
    let mut i: usize = 0;
    while i < n
        invariant
            n == zip_len(v1@, v2@),
            i <= n,
            acc == dot_to(v1@, v2@, i as int),
            -0x4000_0000 * (i as int) <= acc <= 0x4000_0000 * (i as int),
        decreases n - i,
    {
        proof {
            let a = v1@[i as int] as int;
            let b = v2@[i as int] as int;
            assert(-0x4000_0000 <= a * b <= 0x4000_0000) by (nonlinear_arith)
                requires
                    -0x8000 <= a <= 0x7fff,
                    -0x8000 <= b <= 0x7fff,
            ;
        }
        let prod: i128 = (v1[i] as i128) * (v2[i] as i128);
        acc = acc + prod;
        i = i + 1;
    }
    acc
}

/// Compute the squared norm of the coordinatewise difference of `v1` and
/// `v2`.  The result is never negative.
pub fn squared_distance(v1: &Vec<i16>, v2: &Vec<i16>) -> (r: i128)
    ensures
        r == sq_dist(v1@, v2@),
        r >= 0,
{
    let n = if v1.len() <= v2.len() {
        v1.len()
    } else {
        v2.len()
    };
    let mut acc: i128 = 0;
    let mut i: usize = 0;
    while i < n
        invariant
            n == zip_len(v1@, v2@),
            i <= n,
            acc == sq_dist_to(v1@, v2@, i as int),
            0 <= acc <= 0x1_0000_0000 * (i as int),
        decreases n - i,
    {
        let d: i128 = (v1[i] as i128) - (v2[i] as i128);
        proof {
            let dd = (v1@[i as int] - v2@[i as int]) as int;
            assert(0 <= dd * dd <= 0x1_0000_0000) by (nonlinear_arith)
                requires
                    -0x10000 <= dd <= 0x10000,
            ;
        }
        acc = acc + d * d;
        i = i + 1;
    }
    acc
}

proof fn lemma_dot_self_to(v: Seq<i16>, n: int)
    ensures
        dot_to(v, v, n) == sum_sq_to(v, n),
        sum_sq_to(v, n) >= 0,
    decreases n,
{
    if n > 0 {
        lemma_dot_self_to(v, n - 1);
        let a = v[n - 1] as int;
        assert(a * a >= 0) by (nonlinear_arith);
    }
}

/// The dot product of a vector with itself equals the sum of the squares of
/// its coordinates, and is therefore never negative.
pub proof fn lemma_dot_self(v: Seq<i16>)
    ensures
        dot(v, v) == sum_sq(v),
        dot(v, v) >= 0,
{
    lemma_dot_self_to(v, v.len() as int);
}

proof fn lemma_sq_dist_self_to(v: Seq<i16>, n: int)
    ensures
        sq_dist_to(v, v, n) == 0,
    decreases n,
{
    if n > 0 {
        lemma_sq_dist_self_to(v, n - 1);
    }
}

/// A vector is at squared distance zero from itself.
pub proof fn lemma_squared_distance_self(v: Seq<i16>)
    ensures
        sq_dist(v, v) == 0,
{
    lemma_sq_dist_self_to(v, v.len() as int);
}

// ---------------------------------------------------------------------------
// Labels
// ---------------------------------------------------------------------------

/// A value that can serve as a key of the frequency counter, and hence as a
/// classification label: it can be duplicated, and equality of values can be
/// decided and agrees with equality of their mathematical (deep) views.
pub trait Label: DeepView + Sized {
    /// Decide whether two labels are equal.
    fn label_eq(&self, other: &Self) -> (r: bool)
        ensures
            r <==> self.deep_view() == other.deep_view(),
    ;

    /// An owned duplicate of the label.
    fn dup(&self) -> (r: Self)
        ensures
            r.deep_view() == self.deep_view(),
    ;
}

impl Label for bool {
    fn label_eq(&self, other: &Self) -> (r: bool)
        ensures
            r <==> self.deep_view() == other.deep_view(),
    {
        *self == *other
    }

    fn dup(&self) -> (r: Self)
        ensures
            r.deep_view() == self.deep_view(),
    {
        *self
    }
}

impl Label for u64 {
    fn label_eq(&self, other: &Self) -> (r: bool)
        ensures
            r <==> self.deep_view() == other.deep_view(),
    {
        *self == *other
    }

    fn dup(&self) -> (r: Self)
        ensures
            r.deep_view() == self.deep_view(),
    {
        *self
    }
}

impl Label for i64 {
    fn label_eq(&self, other: &Self) -> (r: bool)
        ensures
            r <==> self.deep_view() == other.deep_view(),
    {
        *self == *other
    }

    fn dup(&self) -> (r: Self)
        ensures
            r.deep_view() == self.deep_view(),
    {
        *self
    }
}

impl Label for usize {
    fn label_eq(&self, other: &Self) -> (r: bool)
        ensures
            r <==> self.deep_view() == other.deep_view(),
    {
        *self == *other
    }

    fn dup(&self) -> (r: Self)
        ensures
            r.deep_view() == self.deep_view(),
    {
        *self
    }
}

impl Label for String {
    fn label_eq(&self, other: &Self) -> (r: bool)
        ensures
            r <==> self.deep_view() == other.deep_view(),
    {
        *self == *other
    }

    fn dup(&self) -> (r: Self)
        ensures
            r.deep_view() == self.deep_view(),
    {
        self.clone()
    }
}

// ---------------------------------------------------------------------------
// The frequency counter
//
// The counter is a multiset of label values.  It keeps one entry per distinct
// key, in the order in which the keys were first inserted, so that every
// query - in particular the tie-break of `most_frequent` - is deterministic.
// Its mathematical model is the sequence of (key view, count) pairs.
// ---------------------------------------------------------------------------

/// Position of `key` among the entries `s`, if present.
pub open spec fn find_key<K>(s: Seq<(K, u64)>, key: K) -> Option<int>
    decreases s.len(),
{
    if s.len() == 0 {
        None
    } else if s[0].0 == key {
        Some(0int)
    } else {
        match find_key(s.drop_first(), key) {
            Some(j) => Some(j + 1),
            None => None,
        }
    }
}

/// The count recorded for `key` among the entries `s`: absent keys have no
/// count at all, not a zero count.
pub open spec fn spec_count<K>(s: Seq<(K, u64)>, key: K) -> Option<u64> {
    match find_key(s, key) {
        Some(j) => Some(s[j].1),
        None => None,
    }
}

/// The entries after one more occurrence of `key`: an existing entry is
/// incremented in place, a new key is appended with count one.
pub open spec fn spec_insert<K>(s: Seq<(K, u64)>, key: K) -> Seq<(K, u64)> {
    match find_key(s, key) {
        Some(j) => s.update(j, (key, (s[j].1 + 1) as u64)),
        None => s.push((key, 1u64)),
    }
}

/// The entries of a counter fed the items of `items`, in order.
pub open spec fn counter_of<K>(items: Seq<K>) -> Seq<(K, u64)>
    decreases items.len(),
{
    if items.len() == 0 {
        Seq::empty()
    } else {
        spec_insert(counter_of(items.drop_last()), items.last())
    }
}

/// Well-formed counter entries: distinct keys, every count at least one.
pub open spec fn counter_wf<K>(s: Seq<(K, u64)>) -> bool {
    &&& forall|i: int, j: int| 0 <= i < j < s.len() ==> s[i].0 != s[j].0
    &&& forall|i: int| 0 <= i < s.len() ==> s[i].1 >= 1
}

/// Index of the winning entry of the scan of the first `n` entries: the
/// entry with the greatest count, the earliest such entry on a tie.
pub open spec fn winner_to<K>(s: Seq<(K, u64)>, n: int) -> int
    decreases n,
{
    if n <= 1 {
        0
    } else {
        let w = winner_to(s, n - 1);
        if s[n - 1].1 > s[w].1 {
            n - 1
        } else {
            w
        }
    }
}

/// Index of the most frequent entry of `s`, ties broken towards the key
/// first inserted.
pub open spec fn counter_winner<K>(s: Seq<(K, u64)>) -> int {
    winner_to(s, s.len() as int)
}

/// Number of occurrences of `key` among `items`.
pub open spec fn occ<K>(items: Seq<K>, key: K) -> nat
    decreases items.len(),
{
    if items.len() == 0 {
        0
    } else {
        occ(items.drop_last(), key) + (if items.last() == key {
            1nat
        } else {
            0nat
        })
    }
}

/// `find_key` finds exactly the first entry whose key matches.
pub proof fn lemma_find_key<K>(s: Seq<(K, u64)>, key: K)
    ensures
        match find_key(s, key) {
            Some(j) => 0 <= j < s.len() && s[j].0 == key && (forall|t: int|
                0 <= t < j ==> s[t].0 != key),
            None => forall|t: int| 0 <= t < s.len() ==> s[t].0 != key,
        },
    decreases s.len(),
{
    if s.len() > 0 && s[0].0 != key {
        lemma_find_key(s.drop_first(), key);
        match find_key(s.drop_first(), key) {
            Some(j) => {
                assert(find_key(s, key) == Some(j + 1));
                assert(s.drop_first()[j] == s[j + 1]);
                assert forall|t: int| 0 <= t < j + 1 implies s[t].0 != key by {
                    if t > 0 {
                        assert(s.drop_first()[t - 1] == s[t]);
                    }
                }
            },
            None => {
                assert(find_key(s, key) is None);
                assert forall|t: int| 0 <= t < s.len() implies s[t].0 != key by {
                    if t > 0 {
                        assert(s.drop_first()[t - 1] == s[t]);
                    }
                }
            },
        }
    }
}

/// An item counter, similar to a hash-based multiset, but with a fixed,
/// insertion-ordered iteration order.
pub struct Counter<T: Label> {
    keys: Vec<T>,
    counts: Vec<u64>,
}

impl<T: Label> View for Counter<T> {
    type V = Seq<(<T as DeepView>::V, u64)>;

    closed spec fn view(&self) -> Seq<(<T as DeepView>::V, u64)> {
        Seq::new(self.keys@.len(), |i: int| (self.keys@[i].deep_view(), self.counts@[i]))
    }
}

impl<T: Label> Counter<T> {
    /// The counter's entries are well formed, with one entry per key.
    pub closed spec fn wf(&self) -> bool {
        &&& self.keys@.len() == self.counts@.len()
        &&& counter_wf(self@)
    }

    /// Construct an empty Counter.
    pub fn new() -> (r: Counter<T>)
        ensures
            r.wf(),
            r@ == Seq::<(<T as DeepView>::V, u64)>::empty(),
    {
        let r = Counter::<T> { keys: Vec::new(), counts: Vec::new() };
        proof {
            assert(r@ =~= Seq::<(<T as DeepView>::V, u64)>::empty());
        }
        r
    }

    /// Insert an item in the counter, increasing its count by one.
    #[verifier::loop_isolation(false)]
    pub fn insert(&mut self, item: T)
        requires
            old(self).wf(),
            spec_count(old(self)@, item.deep_view()) != Some(u64::MAX),
        ensures
            final(self).wf(),
            final(self)@ == spec_insert(old(self)@, item.deep_view()),
    {
        let n = self.keys.len();
        let mut j: usize = 0;
        while j < n
            invariant
                self == old(self),
                n == self.keys@.len(),
                self.wf(),
                j <= n,
                forall|t: int| 0 <= t < j ==> self@[t].0 != item.deep_view(),
            decreases n - j,
        {
            if self.keys[j].label_eq(&item) {
                proof {
                    assert(self@[j as int].0 == item.deep_view());
                    lemma_find_key(self@, item.deep_view());
                    match find_key(self@, item.deep_view()) {
                        Some(j2) => {
                            if j2 < j as int {
                                assert(self@[j2].0 != item.deep_view());
                            }
                            if j2 > j as int {
                                assert(self@[j as int].0 != item.deep_view());
                            }
                        },
                        None => {
                            assert(self@[j as int].0 != item.deep_view());
                        },
                    }
                    assert(find_key(self@, item.deep_view()) == Some(j as int));
                }
                let c = self.counts[j];
                self.counts[j] = c + 1;
                proof {
                    assert(self@ =~= spec_insert(old(self)@, item.deep_view()));
                }
                return ;
            }
            j = j + 1;
        }
        proof {
            lemma_find_key(self@, item.deep_view());
            match find_key(self@, item.deep_view()) {
                Some(j2) => {
                    assert(self@[j2].0 != item.deep_view());
                },
                None => {},
            }
            assert(find_key(self@, item.deep_view()) is None);
        }
        self.keys.push(item);
        self.counts.push(1);
        proof {
            assert(self@ =~= spec_insert(old(self)@, item.deep_view()));
        }
    }

    /// Get the count of an item, or nothing if it was never inserted.
    #[verifier::loop_isolation(false)]
    pub fn get(&self, item: &T) -> (r: Option<u64>)
        requires
            self.wf(),
        ensures
            r == spec_count(self@, item.deep_view()),
            (r matches Some(c) ==> c >= 1),
    {
        let n = self.keys.len();
        let mut j: usize = 0;
        while j < n
            invariant
                n == self.keys@.len(),
                self.wf(),
                j <= n,
                forall|t: int| 0 <= t < j ==> self@[t].0 != item.deep_view(),
            decreases n - j,
        {
            if self.keys[j].label_eq(item) {
                proof {
                    assert(self@[j as int].0 == item.deep_view());
                    lemma_find_key(self@, item.deep_view());
                    match find_key(self@, item.deep_view()) {
                        Some(j2) => {
                            if j2 < j as int {
                                assert(self@[j2].0 != item.deep_view());
                            }
                            if j2 > j as int {
                                assert(self@[j as int].0 != item.deep_view());
                            }
                        },
                        None => {
                            assert(self@[j as int].0 != item.deep_view());
                        },
                    }
                    assert(find_key(self@, item.deep_view()) == Some(j as int));
                }
                return Some(self.counts[j]);
            }
            j = j + 1;
        }
        proof {
            lemma_find_key(self@, item.deep_view());
            match find_key(self@, item.deep_view()) {
                Some(j2) => {
                    assert(self@[j2].0 != item.deep_view());
                },
                None => {},
            }
        }
        None
    }

    /// Get the most frequent item and its count.  The winner is the entry
    /// with the strictly greatest count seen while scanning in insertion
    /// order, so on a tie the key first inserted wins.  An empty counter has
    /// no most frequent item.
    #[verifier::loop_isolation(false)]
    pub fn most_frequent(&self) -> (r: Option<(&T, u64)>)
        requires
            self.wf(),
        ensures
            (r is None <==> self@.len() == 0),
            (r matches Some(p) ==> ({
                let w = counter_winner(self@);
                &&& 0 <= w < self@.len()
                &&& p.0.deep_view() == self@[w].0
                &&& p.1 == self@[w].1
            })),
    {
        let n = self.keys.len();
        if n == 0 {
            return None;
        }
        let mut ridx: usize = 0;
        let mut rfreq: u64 = self.counts[0];
        let mut i: usize = 1;
        while i < n
            invariant
                1 <= i <= n,
                ridx < i,
                ridx as int == winner_to(self@, i as int),
                rfreq == self@[ridx as int].1,
            decreases n - i,
        {
            if self.counts[i] > rfreq {
                ridx = i;
                rfreq = self.counts[i];
            }
            i = i + 1;
        }
        Some((&self.keys[ridx], rfreq))
    }

    /// The counter's entries, one pair per distinct key, in insertion order.
    #[verifier::loop_isolation(false)]
    pub fn iter(&self) -> (r: Vec<(T, u64)>)
        requires
            self.wf(),
        ensures
            r.deep_view() == self@,
    {
        let mut r: Vec<(T, u64)> = Vec::new();
        let n = self.keys.len();
        let mut i: usize = 0;
        while i < n
            invariant
                i <= n,
                r@.len() == i,
                r.deep_view() == self@.take(i as int),
            decreases n - i,
        {
            r.push((self.keys[i].dup(), self.counts[i]));
            proof {
                assert(r.deep_view() =~= self@.take(i as int + 1));
            }
            i = i + 1;
        }
        proof {
            assert(self@.take(n as int) =~= self@);
        }
        r
    }

    /// Construct a Counter from a sequence of items, consumed eagerly: each
    /// element is inserted in sequence order.
    #[verifier::loop_isolation(false)]
    pub fn with_iterator(items: Vec<T>) -> (r: Counter<T>)
        ensures
            r.wf(),
            r@ == counter_of(items.deep_view()),
    {
        let mut ctr = Counter::new();
        let n = items.len();
        proof {
            assert(items.deep_view().take(0) =~= Seq::<<T as DeepView>::V>::empty());
        }
        let mut i: usize = 0;
        while i < n
            invariant
                i <= n,
                ctr.wf(),
                ctr@ == counter_of(items.deep_view().take(i as int)),
            decreases n - i,
        {
            proof {
                let dv = items.deep_view();
                lemma_counter_count_bound(dv.take(i as int));
                lemma_find_key(ctr@, dv[i as int]);
                match find_key(ctr@, dv[i as int]) {
                    Some(j) => {
                        assert(ctr@[j].1 <= i);
                    },
                    None => {},
                }
            }
            let item = items[i].dup();
            ctr.insert(item);
            proof {
                let dv = items.deep_view();
                assert(dv.take(i as int + 1).drop_last() =~= dv.take(i as int));
                assert(dv.take(i as int + 1).last() == dv[i as int]);
            }
            i = i + 1;
        }
        proof {
            assert(items.deep_view().take(n as int) =~= items.deep_view());
        }
        ctr
    }
}

/// Every count of a counter built from `items` is at most the number of
/// items inserted.
pub proof fn lemma_counter_count_bound<K>(items: Seq<K>)
    ensures
        forall|j: int|
            0 <= j < counter_of(items).len() ==> counter_of(items)[j].1 <= items.len(),
    decreases items.len(),
{
    if items.len() > 0 {
        lemma_counter_count_bound(items.drop_last());
        let s = counter_of(items.drop_last());
        let key = items.last();
        lemma_find_key(s, key);
    }
}

/// Exactly the items inserted have an entry, and the counter never shrinks
/// to nothing.
pub proof fn lemma_counter_of_len<K>(items: Seq<K>)
    ensures
        counter_of(items).len() == 0 <==> items.len() == 0,
    decreases items.len(),
{
    if items.len() > 0 {
        let s = counter_of(items.drop_last());
        lemma_find_key(s, items.last());
    }
}

/// A first match makes `find_key` answer exactly there.
proof fn lemma_find_key_at<K>(s: Seq<(K, u64)>, key: K, j: int)
    requires
        0 <= j < s.len(),
        s[j].0 == key,
        forall|t: int| 0 <= t < j ==> s[t].0 != key,
    ensures
        find_key(s, key) == Some(j),
{
    lemma_find_key(s, key);
    match find_key(s, key) {
        Some(j2) => {
            if j2 < j {
                assert(s[j2].0 != key);
            }
            if j2 > j {
                assert(s[j].0 != key);
            }
        },
        None => {
            assert(s[j].0 != key);
        },
    }
}

/// Without a matching entry, `find_key` answers nothing.
proof fn lemma_find_key_absent<K>(s: Seq<(K, u64)>, key: K)
    requires
        forall|t: int| 0 <= t < s.len() ==> s[t].0 != key,
    ensures
        find_key(s, key) is None,
{
    lemma_find_key(s, key);
    match find_key(s, key) {
        Some(j2) => {
            assert(s[j2].0 != key);
        },
        None => {},
    }
}

/// No item occurs more often than the sequence is long.
pub proof fn lemma_occ_bound<K>(items: Seq<K>, key: K)
    ensures
        occ(items, key) <= items.len(),
    decreases items.len(),
{
    if items.len() > 0 {
        lemma_occ_bound(items.drop_last(), key);
    }
}

/// A counter built from at most `u64::MAX` items is well formed: one entry
/// per key, every count at least one.
pub proof fn lemma_counter_of_wf<K>(items: Seq<K>)
    requires
        items.len() <= u64::MAX,
    ensures
        counter_wf(counter_of(items)),
    decreases items.len(),
{
    if items.len() > 0 {
        let dl = items.drop_last();
        let key = items.last();
        let s = counter_of(dl);
        let s2 = counter_of(items);
        lemma_counter_of_wf(dl);
        lemma_counter_count_bound(dl);
        lemma_find_key(s, key);
        match find_key(s, key) {
            Some(j) => {
                assert(s2 == s.update(j, (key, (s[j].1 + 1) as u64)));
                assert(s[j].1 + 1 <= items.len());
                assert forall|a: int, b: int| 0 <= a < b < s2.len() implies s2[a].0 != s2[b].0 by {
                    assert(s2[a].0 == s[a].0);
                    assert(s2[b].0 == s[b].0);
                }
            },
            None => {
                assert(s2 == s.push((key, 1u64)));
                assert forall|a: int, b: int| 0 <= a < b < s2.len() implies s2[a].0 != s2[b].0 by {
                    if b < s.len() {
                        assert(s2[a].0 == s[a].0 && s2[b].0 == s[b].0);
                    } else {
                        assert(s2[b].0 == key && s2[a].0 == s[a].0);
                    }
                }
            },
        }
    }
}

/// A counter built from `items` records exactly the occurrence counts of
/// `items`: a never-inserted key has no entry at all - not a zero count -
/// and an inserted key's entry holds precisely its number of occurrences.
pub proof fn lemma_counter_of_counts<K>(items: Seq<K>, key: K)
    requires
        items.len() <= u64::MAX,
    ensures
        (spec_count(counter_of(items), key) is None <==> occ(items, key) == 0),
        occ(items, key) > 0 ==> spec_count(counter_of(items), key) == Some(
            occ(items, key) as u64,
        ),
    decreases items.len(),
{
    if items.len() > 0 {
        let dl = items.drop_last();
        let k2 = items.last();
        let s = counter_of(dl);
        let s2 = counter_of(items);
        lemma_counter_of_counts(dl, key);
        lemma_counter_of_counts(dl, k2);
        lemma_occ_bound(dl, key);
        lemma_find_key(s, k2);
        lemma_find_key(s, key);
        if key == k2 {
            match find_key(s, k2) {
                Some(j) => {
                    assert(s2 == s.update(j, (k2, (s[j].1 + 1) as u64)));
                    assert forall|t: int| 0 <= t < j implies s2[t].0 != key by {
                        assert(s2[t] == s[t]);
                    }
                    lemma_find_key_at(s2, key, j);
                },
                None => {
                    assert(s2 == s.push((k2, 1u64)));
                    assert forall|t: int| 0 <= t < s.len() implies s2[t].0 != key by {
                        assert(s2[t] == s[t]);
                    }
                    lemma_find_key_at(s2, key, s.len() as int);
                },
            }
        } else {
            match find_key(s, k2) {
                Some(j2) => {
                    assert(s2 == s.update(j2, (k2, (s[j2].1 + 1) as u64)));
                    match find_key(s, key) {
                        Some(j) => {
                            assert(j != j2);
                            assert(s2[j] == s[j]);
                            assert forall|t: int| 0 <= t < j implies s2[t].0 != key by {
                                if t != j2 {
                                    assert(s2[t] == s[t]);
                                }
                            }
                            lemma_find_key_at(s2, key, j);
                        },
                        None => {
                            assert forall|t: int| 0 <= t < s2.len() implies s2[t].0 != key by {
                                if t != j2 {
                                    assert(s2[t] == s[t]);
                                }
                            }
                            lemma_find_key_absent(s2, key);
                        },
                    }
                },
                None => {
                    assert(s2 == s.push((k2, 1u64)));
                    match find_key(s, key) {
                        Some(j) => {
                            assert(s2[j] == s[j]);
                            assert forall|t: int| 0 <= t < j implies s2[t].0 != key by {
                                assert(s2[t] == s[t]);
                            }
                            lemma_find_key_at(s2, key, j);
                        },
                        None => {
                            assert forall|t: int| 0 <= t < s2.len() implies s2[t].0 != key by {
                                if t < s.len() {
                                    assert(s2[t] == s[t]);
                                }
                            }
                            lemma_find_key_absent(s2, key);
                        },
                    }
                },
            }
        }
    }
}

proof fn lemma_winner_to_props<K>(s: Seq<(K, u64)>, n: int)
    requires
        1 <= n <= s.len(),
    ensures
        ({
            let w = winner_to(s, n);
            &&& 0 <= w < n
            &&& forall|j: int| 0 <= j < n ==> s[j].1 <= s[w].1
            &&& forall|j: int| 0 <= j < w ==> s[j].1 < s[w].1
        }),
    decreases n,
{
    if n > 1 {
        lemma_winner_to_props(s, n - 1);
    }
}

/// The elected entry of a non-empty counter holds the greatest count, and
/// every earlier entry's count is strictly smaller: the first entry that
/// reaches the maximum wins, and is not displaced by a later tie.
pub proof fn lemma_winner_is_first_max<K>(s: Seq<(K, u64)>)
    requires
        s.len() > 0,
    ensures
        ({
            let w = counter_winner(s);
            &&& 0 <= w < s.len()
            &&& forall|j: int| 0 <= j < s.len() ==> s[j].1 <= s[w].1
            &&& forall|j: int| 0 <= j < w ==> s[j].1 < s[w].1
        }),
{
    lemma_winner_to_props(s, s.len() as int);
}

/// Majority vote: if `x` occurs in `items` strictly more often than every
/// other item does, the counter built from `items` elects `x`, together
/// with its exact occurrence count.
pub proof fn lemma_counter_majority<K>(items: Seq<K>, x: K)
    requires
        items.len() <= u64::MAX,
        occ(items, x) > 0,
        forall|y: K| y != x ==> occ(items, y) < occ(items, x),
    ensures
        ({
            let s = counter_of(items);
            let w = counter_winner(s);
            &&& 0 <= w < s.len()
            &&& s[w].0 == x
            &&& s[w].1 == occ(items, x)
        }),
{
    let s = counter_of(items);
    lemma_counter_of_counts(items, x);
    lemma_counter_of_wf(items);
    lemma_occ_bound(items, x);
    lemma_find_key(s, x);
    match find_key(s, x) {
        Some(ix) => {
            assert(s[ix].1 == occ(items, x) as u64);
            lemma_winner_is_first_max(s);
            let w = counter_winner(s);
            if w != ix {
                let y = s[w].0;
                if w < ix {
                    assert(s[w].0 != s[ix].0);
                } else {
                    assert(s[ix].0 != s[w].0);
                }
                assert(y != x);
                lemma_counter_of_counts(items, y);
                lemma_occ_bound(items, y);
                assert forall|t: int| 0 <= t < w implies s[t].0 != y by {
                    assert(s[t].0 != s[w].0);
                }
                lemma_find_key_at(s, y, w);
                assert(spec_count(s, y) == Some(s[w].1));
                assert(occ(items, y) > 0);
                assert(s[w].1 == occ(items, y) as u64);
                assert(s[w].1 < s[ix].1);
                assert(s[ix].1 <= s[w].1);
                assert(false);
            }
        },
        None => {
            assert(false);
        },
    }
}

} // verus!
