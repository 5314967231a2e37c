//! The nearest features seen so far, kept by their distance to the query.
//!
//! The heap has one row per distance `0..=128`. Up to its capacity it keeps
//! every feature it is offered; from then on a feature that is nearer than the
//! farthest one kept takes that one's place. So it always keeps the nearest
//! of what it was offered. A search tells the heap up to which distance it has
//! looked at every feature there is (the watermark); the heap counts what it
//! was offered within that distance, and the search is done once the count
//! reaches the capacity.
use crate::bits::{distance, hamming};
use vstd::multiset::Multiset;
use vstd::prelude::*;

verus! {

/// The first `n` rows, one after the other.
pub open spec fn joined(rows: Seq<Seq<u128>>, n: nat) -> Seq<u128>
    decreases n,
{
    if n == 0 {
        Seq::empty()
    } else {
        joined(rows, (n - 1) as nat) + rows[n - 1]
    }
}

/// More rows joined are no shorter.
pub proof fn lemma_joined_grows(rows: Seq<Seq<u128>>, a: nat, b: nat)
    requires
        a <= b,
    ensures
        joined(rows, a).len() <= joined(rows, b).len(),
    decreases b,
{
    if a < b {
        lemma_joined_grows(rows, a, (b - 1) as nat);
    }
}

/// Element `j` of row `d` stands in the joined rows behind the rows before `d`.
pub proof fn lemma_joined_at(rows: Seq<Seq<u128>>, d: nat, j: int, n: nat)
    requires
        d < n,
        0 <= j < rows[d as int].len(),
    ensures
        joined(rows, d).len() + j < joined(rows, n).len(),
        joined(rows, n)[joined(rows, d).len() + j] == rows[d as int][j],
    decreases n,
{
    if n - 1 > d {
        lemma_joined_at(rows, d, j, (n - 1) as nat);
    }
}

/// Every element of the joined rows comes from one of the rows.
pub proof fn lemma_joined_find(rows: Seq<Seq<u128>>, n: nat, i: int) -> (r: (nat, int))
    requires
        0 <= i < joined(rows, n).len(),
    ensures
        r.0 < n,
        0 <= r.1 < rows[r.0 as int].len(),
        joined(rows, r.0).len() + r.1 == i,
        joined(rows, n)[i] == rows[r.0 as int][r.1],
    decreases n,
{
    if i < joined(rows, (n - 1) as nat).len() {
        lemma_joined_find(rows, (n - 1) as nat, i)
    } else {
        ((n - 1) as nat, i - joined(rows, (n - 1) as nat).len())
    }
}

/// Rows that are the same join to the same.
pub proof fn lemma_joined_same(a: Seq<Seq<u128>>, b: Seq<Seq<u128>>, n: nat)
    requires
        forall|d: int| 0 <= d < n ==> a[d] == b[d],
    ensures
        joined(a, n) == joined(b, n),
    decreases n,
{
    if n > 0 {
        lemma_joined_same(a, b, (n - 1) as nat);
    }
}

/// Empty rows add nothing to the rows joined.
pub proof fn lemma_joined_empty(rows: Seq<Seq<u128>>, a: nat, n: nat)
    requires
        a <= n,
        forall|d: int| a <= d < n ==> (#[trigger] rows[d]).len() == 0,
    ensures
        joined(rows, n) == joined(rows, a),
    decreases n,
{
    if a < n {
        lemma_joined_empty(rows, a, (n - 1) as nat);
        assert(rows[n - 1].len() == 0);
        assert(joined(rows, (n - 1) as nat) + rows[n - 1] =~= joined(rows, (n - 1) as nat));
    }
}

/// Where the joined rows are no longer than their first `a` rows, the rows
/// from `a` on are empty.
pub proof fn lemma_joined_tail_empty(rows: Seq<Seq<u128>>, a: nat, n: nat, d: int)
    requires
        a <= d < n,
        joined(rows, n).len() <= joined(rows, a).len(),
    ensures
        rows[d].len() == 0,
    decreases n,
{
    lemma_joined_grows(rows, a, (n - 1) as nat);
    if d < n - 1 {
        lemma_joined_tail_empty(rows, a, (n - 1) as nat, d);
    }
}

/// Adding `f` at the end of row `d` inserts it into the joined rows behind
/// that row.
pub proof fn lemma_joined_push(rows: Seq<Seq<u128>>, d: nat, f: u128, n: nat)
    requires
        d < rows.len(),
        n <= rows.len(),
    ensures
        n <= d ==> joined(rows.update(d as int, rows[d as int].push(f)), n) == joined(rows, n),
        n > d ==> joined(rows.update(d as int, rows[d as int].push(f)), n) == joined(
            rows,
            n,
        ).insert(joined(rows, d + 1).len() as int, f),
        n > d ==> joined(rows, d + 1).len() <= joined(rows, n).len(),
    decreases n,
{
    let after = rows.update(d as int, rows[d as int].push(f));
    if n <= d {
        lemma_joined_same(after, rows, n);
    } else {
        lemma_joined_push(rows, d, f, (n - 1) as nat);
        lemma_joined_grows(rows, d + 1, n);
        assert(joined(after, n) == joined(after, (n - 1) as nat) + after[n - 1]);
        assert(joined(rows, n) == joined(rows, (n - 1) as nat) + rows[n - 1]);
        if n - 1 == d {
            assert(n == d + 1);
            assert(joined(after, n) =~= joined(rows, n).insert(
                joined(rows, d + 1).len() as int,
                f,
            ));
        } else {
            lemma_joined_grows(rows, d + 1, (n - 1) as nat);
            assert(joined(after, n) =~= joined(rows, n).insert(
                joined(rows, d + 1).len() as int,
                f,
            ));
        }
    }
}

/// Taking the last element of row `d` removes it from the joined rows.
pub proof fn lemma_joined_pop(rows: Seq<Seq<u128>>, d: nat, n: nat)
    requires
        d < rows.len(),
        n <= rows.len(),
        rows[d as int].len() > 0,
    ensures
        n <= d ==> joined(rows.update(d as int, rows[d as int].drop_last()), n) == joined(rows, n),
        n > d ==> joined(rows.update(d as int, rows[d as int].drop_last()), n) == joined(
            rows,
            n,
        ).remove(joined(rows, d + 1).len() - 1),
        n > d ==> 0 < joined(rows, d + 1).len() <= joined(rows, n).len(),
        n > d ==> joined(rows, n)[joined(rows, d + 1).len() - 1] == rows[d as int].last(),
    decreases n,
{
    let after = rows.update(d as int, rows[d as int].drop_last());
    if n <= d {
        lemma_joined_same(after, rows, n);
    } else {
        lemma_joined_pop(rows, d, (n - 1) as nat);
        lemma_joined_grows(rows, d + 1, n);
        assert(joined(after, n) == joined(after, (n - 1) as nat) + after[n - 1]);
        assert(joined(rows, n) == joined(rows, (n - 1) as nat) + rows[n - 1]);
        if n - 1 == d {
            assert(n == d + 1);
            assert(joined(after, n) =~= joined(rows, n).remove(joined(rows, d + 1).len() - 1));
        } else {
            lemma_joined_grows(rows, d + 1, (n - 1) as nat);
            assert(joined(after, n) =~= joined(rows, n).remove(joined(rows, d + 1).len() - 1));
        }
    }
}

/// What is inserted into a sequence is inserted into what it holds.
pub proof fn lemma_insert_multiset(s: Seq<u128>, i: int, f: u128)
    requires
        0 <= i <= s.len(),
    ensures
        s.insert(i, f).to_multiset() =~= s.to_multiset().insert(f),
{
    broadcast use vstd::seq_lib::group_to_multiset_ensures;

    let t = s.insert(i, f);
    assert(t.remove(i) =~= s);
    assert(t[i] == f);
    assert(t.remove(i).to_multiset() =~= t.to_multiset().remove(t[i]));
    assert(t.contains(f));
    assert(t.to_multiset().count(f) > 0);
}

/// An empty sequence holds nothing.
pub proof fn lemma_nothing_held(s: Seq<u128>)
    requires
        s.len() == 0,
    ensures
        s.to_multiset() =~= Multiset::<u128>::empty(),
{
    broadcast use vstd::seq_lib::group_to_multiset_ensures;
    broadcast use vstd::multiset::lemma_multiset_empty_len;

    assert(s.to_multiset().len() == 0);
}

/// What is removed from a sequence is removed from what it holds.
pub proof fn lemma_remove_multiset(s: Seq<u128>, i: int)
    requires
        0 <= i < s.len(),
    ensures
        s.remove(i).to_multiset() =~= s.to_multiset().remove(s[i]),
        s.to_multiset().count(s[i]) > 0,
{
    broadcast use vstd::seq_lib::group_to_multiset_ensures;

    assert(s.contains(s[i]));
}

/// The nearest features offered since the last reset, at most `cap()` of them.
pub struct FeatureHeap {
    cap: usize,
    size: usize,
    in_search: usize,
    search_distance: u32,
    search: u128,
    worst: u32,
    features: Vec<Vec<u128>>,
    offered: Ghost<Multiset<u128>>,
}

impl FeatureHeap {
    /// The features kept, one row per distance to the query, each row in the
    /// order in which its features came.
    pub closed spec fn rows(&self) -> Seq<Seq<u128>> {
        Seq::new(self.features@.len(), |d: int| self.features@[d]@)
    }

    /// The features kept, nearest first.
    pub open spec fn held(&self) -> Seq<u128> {
        joined(self.rows(), 129)
    }

    /// How many of the features kept lie within `d` of the query.
    pub open spec fn within(&self, d: nat) -> nat {
        joined(self.rows(), d + 1).len()
    }

    /// How many features the heap keeps at most.
    pub closed spec fn cap(&self) -> nat {
        self.cap as nat
    }

    /// The feature that distances are measured to.
    pub closed spec fn query(&self) -> u128 {
        self.search
    }

    /// The distance up to which the search has offered everything there is.
    pub closed spec fn watermark(&self) -> nat {
        self.search_distance as nat
    }

    /// How many features were counted as lying within the watermark.
    pub closed spec fn counted(&self) -> nat {
        self.in_search as nat
    }

    /// Everything offered since the last reset.
    pub closed spec fn offered(&self) -> Multiset<u128> {
        self.offered@
    }

    /// Once the heap is full, the greatest distance of a feature kept; 128 before.
    pub closed spec fn worst(&self) -> nat {
        self.worst as nat
    }

    /// The size kept is the number of features held.
    pub closed spec fn size_kept(&self) -> bool {
        self.size == self.held().len()
    }

    /// Each feature kept stands in the row of its distance; the features kept
    /// are the nearest of those offered, as many as the capacity allows; the
    /// count of features within the watermark reaches the capacity only when
    /// as many of the features kept lie within it.
    pub open spec fn wf(&self) -> bool {
        &&& self.size_kept()
        &&& self.rows().len() == 129
        &&& self.watermark() <= 128
        &&& self.worst() <= 128
        &&& self.offered().len() <= usize::MAX
        &&& forall|d: int, i: int|
            0 <= d < 129 && 0 <= i < self.rows()[d].len() ==> hamming(
                #[trigger] self.rows()[d][i],
                self.query(),
            ) == d
        &&& self.held().len() <= self.cap()
        &&& self.held().len() == self.cap() || self.held().len() == self.offered().len()
        &&& self.held().to_multiset().subset_of(self.offered())
        &&& forall|g: u128|
            self.held().to_multiset().count(g) < #[trigger] self.offered().count(g) ==> {
                &&& self.held().len() == self.cap()
                &&& forall|d: int|
                    hamming(g, self.query()) < d < 129 ==> (#[trigger] self.rows()[d]).len() == 0
            }
        &&& self.held().len() < self.cap() ==> self.worst() == 128
        &&& self.held().len() == self.cap() && self.cap() > 0 ==> {
            &&& self.rows()[self.worst() as int].len() > 0
            &&& forall|d: int| self.worst() < d < 129 ==> (#[trigger] self.rows()[d]).len() == 0
        }
        &&& self.counted() <= self.within(self.watermark()) || self.within(self.watermark())
            >= self.cap()
        &&& self.counted() + self.held().len() <= self.within(self.watermark())
            + self.offered().len()
    }

    /// A heap without capacity: `reset` gives it one.
    pub fn new() -> (h: Self)
        ensures
            h.wf(),
            h.cap() == 0,
            h.held().len() == 0,
            h.offered() == Multiset::<u128>::empty(),
    {
        let mut features: Vec<Vec<u128>> = Vec::new();
        let mut d: usize = 0;
        while d < 129
            invariant
                d <= 129,
                features@.len() == d,
                forall|i: int| 0 <= i < d ==> (#[trigger] features@[i])@.len() == 0,
            decreases 129 - d,
        {
            features.push(Vec::new());
            d = d + 1;
        }
        let h = FeatureHeap {
            cap: 0,
            size: 0,
            in_search: 0,
            search_distance: 0,
            search: 0,
            worst: 128,
            features,
            offered: Ghost(Multiset::empty()),
        };
        proof {
            lemma_joined_empty(h.rows(), 0, 129);
            lemma_joined_empty(h.rows(), 0, 1);
            lemma_nothing_held(h.held());
        }
        h
    }

    /// Empties the heap, keeps what it has allocated, and sets the capacity
    /// and the query of the next search.
    pub fn reset(&mut self, cap: usize, search: u128)
        requires
            old(self).wf(),
            cap != 0,
        ensures
            final(self).wf(),
            final(self).cap() == cap,
            final(self).query() == search,
            final(self).watermark() == 0,
            final(self).counted() == 0,
            final(self).held().len() == 0,
            final(self).offered() == Multiset::<u128>::empty(),
    {
        self.cap = cap;
        self.size = 0;
        self.in_search = 0;
        self.search_distance = 0;
        self.search = search;
        self.worst = 128;
        let mut d: usize = 0;
        while d < 129
            invariant
                d <= 129,
                self.features@.len() == 129,
                forall|i: int| 0 <= i < d ==> (#[trigger] self.features@[i])@.len() == 0,
                self.cap == cap,
                self.size == 0,
                self.in_search == 0,
                self.search_distance == 0,
                self.search == search,
                self.worst == 128,
            decreases 129 - d,
        {
            self.features[d].clear();
            d = d + 1;
        }
        self.offered = Ghost(Multiset::empty());
        proof {
            lemma_joined_empty(self.rows(), 0, 129);
            lemma_joined_empty(self.rows(), 0, 1);
            lemma_nothing_held(self.held());
        }
    }

    /// Moves the watermark up to `distance` and counts the features kept that
    /// it passes.
    pub fn search_distance(&mut self, distance: u32)
        requires
            old(self).wf(),
            old(self).watermark() <= distance <= 128,
        ensures
            final(self).wf(),
            final(self).watermark() == distance,
            final(self).counted() == old(self).counted() + old(self).within(distance as nat)
                - old(self).within(old(self).watermark()),
            final(self).rows() == old(self).rows(),
            final(self).cap() == old(self).cap(),
            final(self).query() == old(self).query(),
            final(self).offered() == old(self).offered(),
            final(self).worst() == old(self).worst(),
    {
        let mut d: u32 = self.search_distance;
        proof {
            lemma_joined_grows(self.rows(), self.watermark() + 1, 129);
        }
        while d < distance
            invariant
                old(self).watermark() <= d <= distance <= 128,
                self.features == old(self).features,
                self.cap == old(self).cap,
                self.size == old(self).size,
                self.search == old(self).search,
                self.search_distance == old(self).search_distance,
                self.worst == old(self).worst,
                self.offered == old(self).offered,
                old(self).wf(),
                self.in_search == old(self).in_search + old(self).within(d as nat) - old(
                    self,
                ).within(old(self).watermark()),
                old(self).within(d as nat) <= old(self).held().len(),
            decreases distance - d,
        {
            proof {
                lemma_joined_grows(self.rows(), (d + 2) as nat, 129);
            }
            d = d + 1;
            self.in_search = self.in_search + self.features[d as usize].len();
        }
        self.search_distance = distance;
        proof {
            lemma_joined_grows(self.rows(), old(self).watermark() + 1, (distance + 1) as nat);
        }
    }

    /// Offers a feature. Below the capacity it is kept. At the capacity it is
    /// kept if it is nearer to the query than the farthest feature kept, and
    /// the one added last among the farthest leaves. It is counted if it lies
    /// within the watermark.
    pub fn add(&mut self, feature: u128)
        requires
            old(self).wf(),
            old(self).cap() > 0,
            old(self).offered().len() < usize::MAX,
        ensures
            final(self).wf(),
            final(self).cap() == old(self).cap(),
            final(self).query() == old(self).query(),
            final(self).watermark() == old(self).watermark(),
            final(self).offered() == old(self).offered().insert(feature),
            final(self).counted() == old(self).counted() + if hamming(feature, old(self).query())
                <= old(self).watermark() {
                1nat
            } else {
                0nat
            },
            final(self).rows() == ({
                let d = hamming(feature, old(self).query()) as int;
                let w = old(self).worst() as int;
                let rows = old(self).rows();
                let more = rows.update(d, rows[d].push(feature));
                if old(self).held().len() < old(self).cap() {
                    more
                } else if d < w {
                    more.update(w, more[w].drop_last())
                } else {
                    rows
                }
            }),
    {
        let d: u32 = distance(feature, self.search);
        let ghost rows = self.rows();
        let ghost more = rows.update(d as int, rows[d as int].push(feature));
        let ghost sd = self.watermark();
        proof {
            lemma_joined_push(rows, d as nat, feature, 129);
            lemma_joined_push(rows, d as nat, feature, sd + 1);
            lemma_insert_multiset(joined(rows, 129), joined(rows, (d + 1) as nat).len() as int, feature);
            lemma_joined_grows(rows, sd + 1, 129);
            broadcast use vstd::seq_lib::group_to_multiset_ensures;

        }
        if d <= self.search_distance {
            self.in_search = self.in_search + 1;
        }
        if self.size != self.cap {
            self.features[d as usize].push(feature);
            self.size = self.size + 1;
            self.offered = Ghost(self.offered@.insert(feature));
            assert(self.rows() =~= more);
            proof {
                assert forall|g: u128|
                    self.held().to_multiset().count(g) < #[trigger] self.offered().count(
                        g,
                    ) implies false by {
                    assert(old(self).held().to_multiset().count(g) < old(self).offered().count(g));
                }
            }
            if self.size == self.cap {
                self.update_worst();
            }
        } else if d < self.worst {
            let ghost w = self.worst;
            self.features[d as usize].push(feature);
            assert(self.rows() =~= more);
            self.remove_worst();
            let ghost last = more.update(w as int, more[w as int].drop_last());
            assert(self.rows() =~= last);
            self.offered = Ghost(self.offered@.insert(feature));
            proof {
                lemma_joined_pop(more, w as nat, 129);
                lemma_joined_pop(more, w as nat, sd + 1);
                lemma_remove_multiset(joined(more, 129), joined(more, (w + 1) as nat).len() - 1);
                let x = more[w as int].last();
                assert(hamming(x, self.query()) == w);
                assert(self.held().to_multiset() =~= old(self).held().to_multiset().insert(
                    feature,
                ).remove(x));
                assert forall|g: u128|
                    self.held().to_multiset().count(g) < #[trigger] self.offered().count(
                        g,
                    ) implies {
                    &&& self.held().len() == self.cap()
                    &&& forall|e: int|
                        hamming(g, self.query()) < e < 129 ==> (#[trigger] self.rows()[e]).len()
                            == 0
                } by {
                    if old(self).held().to_multiset().count(g) < old(self).offered().count(g) {
                        assert forall|e: int| hamming(g, self.query()) < e < 129 implies (
                        #[trigger] self.rows()[e]).len() == 0 by {
                            assert(rows[e].len() == 0);
                            assert(rows[w as int].len() > 0);
                        }
                    } else {
                        assert(g == x);
                    }
                }
                assert(self.rows()[d as int].len() > 0);
                if sd >= w {
                    lemma_joined_empty(rows, (w + 1) as nat, 129);
                    lemma_joined_grows(rows, (w + 1) as nat, sd + 1);
                }
            }
        } else {
            self.offered = Ghost(self.offered@.insert(feature));
            proof {
                assert(old(self).rows()[self.worst() as int].len() > 0);
                if d <= sd {
                    lemma_joined_empty(rows, (self.worst + 1) as nat, 129);
                    lemma_joined_grows(rows, (self.worst + 1) as nat, sd + 1);
                }
            }
        }
    }

    /// Takes out the feature added last among the farthest kept, and moves
    /// `worst` down to the greatest distance at which a feature is kept then.
    fn remove_worst(&mut self)
        requires
            old(self).rows().len() == 129,
            old(self).worst() <= 128,
            old(self).rows()[old(self).worst() as int].len() > 0,
            old(self).held().len() >= 2,
            forall|d: int| old(self).worst() < d < 129 ==> (#[trigger] old(self).rows()[d]).len() == 0,
        ensures
            final(self).rows() == old(self).rows().update(
                old(self).worst() as int,
                old(self).rows()[old(self).worst() as int].drop_last(),
            ),
            final(self).rows()[final(self).worst() as int].len() > 0,
            forall|d: int|
                final(self).worst() < d < 129 ==> (#[trigger] final(self).rows()[d]).len() == 0,
            final(self).worst() <= old(self).worst(),
            final(self).cap == old(self).cap,
            final(self).size == old(self).size,
            final(self).in_search == old(self).in_search,
            final(self).search_distance == old(self).search_distance,
            final(self).search == old(self).search,
            final(self).offered == old(self).offered,
    {
        let ghost rows = self.rows();
        let ghost w = self.worst;
        self.features[self.worst as usize].pop();
        proof {
            assert(self.rows() =~= rows.update(w as int, rows[w as int].drop_last()));
            lemma_joined_pop(rows, w as nat, 129);
        }
        self.update_worst();
    }

    /// Moves `worst` down to the greatest distance at which a feature is kept.
    fn update_worst(&mut self)
        requires
            old(self).rows().len() == 129,
            old(self).worst() <= 128,
            old(self).held().len() > 0,
            forall|d: int| old(self).worst() < d < 129 ==> (#[trigger] old(self).rows()[d]).len() == 0,
        ensures
            final(self).rows()[final(self).worst() as int].len() > 0,
            forall|d: int|
                final(self).worst() < d < 129 ==> (#[trigger] final(self).rows()[d]).len() == 0,
            final(self).worst() <= old(self).worst(),
            final(self).features == old(self).features,
            final(self).cap == old(self).cap,
            final(self).size == old(self).size,
            final(self).in_search == old(self).in_search,
            final(self).search_distance == old(self).search_distance,
            final(self).search == old(self).search,
            final(self).offered == old(self).offered,
    {
        while self.features[self.worst as usize].is_empty()
            invariant
                self.worst <= 128,
                self.features == old(self).features,
                self.cap == old(self).cap,
                self.size == old(self).size,
                self.in_search == old(self).in_search,
                self.search_distance == old(self).search_distance,
                self.search == old(self).search,
                self.offered == old(self).offered,
                self.worst <= old(self).worst,
                self.rows().len() == 129,
                self.held().len() > 0,
                forall|d: int| self.worst() < d < 129 ==> (#[trigger] self.rows()[d]).len() == 0,
            decreases self.worst,
        {
            proof {
                if self.worst == 0 {
                    assert forall|d: int| 0 <= d < 129 implies (#[trigger] self.rows()[d]).len()
                        == 0 by {}
                    lemma_joined_empty(self.rows(), 0, 129);
                }
            }
            self.worst = self.worst - 1;
        }
    }

    /// Whether as many features as the capacity were counted within the
    /// watermark. Then the heap is full, and every feature kept lies within
    /// the watermark.
    pub fn done(&self) -> (r: bool)
        requires
            self.wf(),
        ensures
            r == (self.counted() >= self.cap()),
            r ==> self.held().len() == self.cap(),
            r ==> forall|i: int|
                0 <= i < self.held().len() ==> hamming(#[trigger] self.held()[i], self.query())
                    <= self.watermark(),
    {
        proof {
            if self.counted() >= self.cap() {
                lemma_joined_grows(self.rows(), self.watermark() + 1, 129);
                assert forall|i: int| 0 <= i < self.held().len() implies hamming(
                    #[trigger] self.held()[i],
                    self.query(),
                ) <= self.watermark() by {
                    let (d, j) = lemma_joined_find(self.rows(), 129, i);
                    if d > self.watermark() {
                        lemma_joined_tail_empty(self.rows(), self.watermark() + 1, 129, d as int);
                    }
                }
            }
        }
        self.in_search >= self.cap
    }

    /// Copies the features kept, nearest first, into the front of `s`, as
    /// many as fit, and returns the part of `s` that was filled.
    pub fn fill_slice<'a>(&self, s: &'a mut [u128]) -> (r: &'a mut [u128])
        requires
            self.wf(),
        ensures
            r@.len() == if old(s)@.len() <= self.held().len() {
                old(s)@.len()
            } else {
                self.held().len()
            },
            r@ == self.held().take(r@.len() as int),
            final(s)@ == final(r)@ + old(s)@.skip(r@.len() as int),
            forall|i: int, j: int|
                0 <= i <= j < r@.len() ==> hamming(#[trigger] r@[i], self.query()) <= hamming(
                    #[trigger] r@[j],
                    self.query(),
                ),
    {
        let total_fill: usize = if s.len() <= self.size { s.len() } else { self.size };
        let mut d: usize = 0;
        let mut j: usize = 0;
        let mut ix: usize = 0;
        while ix < total_fill
            invariant
                self.wf(),
                total_fill <= self.held().len(),
                total_fill <= s@.len(),
                s@.len() == old(s)@.len(),
                d < 129,
                j <= self.rows()[d as int].len(),
                ix == joined(self.rows(), d as nat).len() + j,
                ix <= total_fill,
                s@.take(ix as int) == self.held().take(ix as int),
                s@.skip(total_fill as int) == old(s)@.skip(total_fill as int),
            decreases total_fill - ix, 129 - d,
        {
            if j < self.features[d].len() {
                proof {
                    lemma_joined_at(self.rows(), d as nat, j as int, 129);
                }
                let ghost before = s@;
                s[ix] = self.features[d][j];
                proof {
                    assert(s@.take(ix + 1) =~= before.take(ix as int).push(self.held()[ix as int]));
                    assert(self.held().take(ix + 1) =~= self.held().take(ix as int).push(
                        self.held()[ix as int],
                    ));
                    assert(s@.skip(total_fill as int) =~= before.skip(total_fill as int));
                }
                ix = ix + 1;
                j = j + 1;
            } else {
                proof {
                    assert(joined(self.rows(), (d + 1) as nat).len() == ix);
                    if d + 1 == 129 {
                        assert(false);
                    }
                }
                d = d + 1;
                j = 0;
            }
        }
        let (front, back) = s.split_at_mut(total_fill);
        proof {
            assert(front@ =~= self.held().take(total_fill as int));
            assert forall|i: int, j: int| 0 <= i <= j < front@.len() implies hamming(
                #[trigger] front@[i],
                self.query(),
            ) <= hamming(#[trigger] front@[j], self.query()) by {
                let (di, ji) = lemma_joined_find(self.rows(), 129, i);
                let (dj, jj) = lemma_joined_find(self.rows(), 129, j);
                if di > dj {
                    lemma_joined_grows(self.rows(), dj + 1, di);
                }
            }
        }
        front
    }
}

impl Default for FeatureHeap {
    /// A heap without capacity.
    fn default() -> (h: Self)
        ensures
            h.wf(),
            h.cap() == 0,
            h.held().len() == 0,
            h.offered() == Multiset::<u128>::empty(),
    {
        FeatureHeap::new()
    }
}

} // verus!
