//! The search for the nearest features.
//!
//! The search goes through the distances `0, 1, 2, ..` in turn. A table node
//! waits in the queue at the least distance that one of its children not yet
//! looked at can have: the distance of a child's index word to the query's
//! is a lower bound for every feature below the child, and it never shrinks
//! on the way down. So when the search has reached a distance, every feature
//! nearer than that has been offered to the heap.
use crate::bits::{distance, hamming, lemma_hamming_bound};
use crate::chf::{chf, lemma_chf_distance_grows, lemma_pack_chf, width};
use crate::feature_heap::{lemma_joined_find, FeatureHeap};
use crate::hamming_queue::NodeQueue;
use crate::hwt::{on_path, Hwt, Internal};
use crate::indices::{indices128, pack_ones};
use crate::search::exact::{hit_at, search_exact_at, words_of};
use vstd::multiset::Multiset;
use vstd::prelude::*;

verus! {

/// How far a search has come.
///
/// Of every table node that the search has reached, `thr` says below which
/// distance its children have been looked at, and `slot` where in its row of
/// the queue the node waits. `extra` holds the children looked at so far of
/// the node that is being expanded.
pub struct Frontier {
    pub thr: Seq<int>,
    pub slot: Seq<int>,
    pub extra: Set<int>,
}

/// What `nearest` returns: `found` are features of `held`, nearest first,
/// at most `k`; and every feature that `held` has more often than `found`
/// lies beyond `max_weight`, or `found` is full and its last feature lies at
/// most `max_error` farther from the query than that one.
pub open spec fn nearest_of(
    held: Multiset<u128>,
    query: u128,
    max_weight: int,
    max_error: int,
    k: int,
    found: Seq<u128>,
) -> bool {
    &&& found.len() <= k
    &&& found.to_multiset().subset_of(held)
    &&& forall|i: int, j: int|
        0 <= i <= j < found.len() ==> hamming(#[trigger] found[i], query) <= hamming(
            #[trigger] found[j],
            query,
        )
    &&& forall|g: u128|
        found.to_multiset().count(g) < #[trigger] held.count(g) ==> hamming(g, query) > max_weight
            || (found.len() == k && hamming(found.last(), query) <= hamming(g, query) + max_error)
}

/// With no allowance and room for every distance, the one feature found is
/// as near to the query as any feature held.
pub proof fn lemma_nearest_exact(held: Multiset<u128>, query: u128, found: Seq<u128>, g: u128)
    requires
        nearest_of(held, query, 128, 0, 1, found),
        held.count(g) > 0,
    ensures
        found.len() == 1,
        held.count(found[0]) > 0,
        hamming(found[0], query) <= hamming(g, query),
{
    lemma_nearest_within(held, query, 0, found, g);
}

/// With room for every distance, the one feature found is at most the
/// allowance farther from the query than any feature held.
pub proof fn lemma_nearest_within(
    held: Multiset<u128>,
    query: u128,
    max_error: int,
    found: Seq<u128>,
    g: u128,
)
    requires
        nearest_of(held, query, 128, max_error, 1, found),
        max_error >= 0,
        held.count(g) > 0,
    ensures
        found.len() == 1,
        held.count(found[0]) > 0,
        hamming(found[0], query) <= hamming(g, query) + max_error,
{
    broadcast use vstd::seq_lib::group_to_multiset_ensures;

    lemma_hamming_bound(g, query);
    if found.len() == 0 {
        assert(found.to_multiset().len() == 0);
        assert(found.to_multiset().count(g) == 0) by {
            if found.to_multiset().count(g) > 0 {
                assert(found.contains(g));
            }
        }
    }
    assert(found.contains(found[0]));
    assert(found.to_multiset().count(found[0]) > 0);
    if found[0] != g {
        if found.to_multiset().count(g) > 0 {
            assert(found.contains(g));
            let i = choose|i: int| 0 <= i < found.len() && found[i] == g;
            assert(i == 0);
        }
    }
}

impl Hwt {
    /// The distance of the index word that leads to node `c` to the query's
    /// index word of that level.
    pub(super) closed spec fn key_sod(&self, q: u128, c: int) -> int {
        hamming(self.path(c).last(), chf(q, (self.path(c).len() - 1) as nat)) as int
    }

    /// Whether the search has looked at node `c`: at all nodes above it, and
    /// at `c` as a child of its parent.
    pub(super) closed spec fn reached(&self, q: u128, fr: Frontier, c: int) -> bool
        decreases c,
    {
        if c <= 0 {
            c == 0
        } else {
            let p = self.parent(c);
            0 <= p < c && self.reached(q, fr, p) && (self.key_sod(q, c) < fr.thr[p]
                || fr.extra.contains(c))
        }
    }

    /// Whether the table `a` is searched by going through all its children.
    pub(super) closed spec fn brute(&self, a: int) -> bool {
        self.table(a).len() < self.table_tau
    }

    /// What holds of an entry of the queue.
    pub(super) closed spec fn entry_ok(
        &self,
        q: u128,
        fr: Frontier,
        expanding: int,
        e: int,
        x: int,
        entry: (u32, u8),
    ) -> bool {
        let a = entry.0 as int;
        &&& 0 < a < self.internals@.len()
        &&& !self.leaf(a)
        &&& entry.1 + 1 == self.path(a).len()
        &&& self.reached(q, fr, a)
        &&& fr.thr[a] == e
        &&& fr.slot[a] == x
        &&& self.key_sod(q, a) <= e
        &&& (self.brute(a) ==> e == self.key_sod(q, a))
        &&& a != expanding
    }

    /// What holds during a search that has come to the distance `d`: the
    /// queue holds the tables reached that still have children to look at,
    /// each once and at the distance from which on they are to be looked at,
    /// none below `d`; and the heap was offered the features of the buckets
    /// reached, and no others.
    pub(super) closed spec fn searching(
        &self,
        q: u128,
        fr: Frontier,
        rows: Seq<Seq<(u32, u8)>>,
        offered: Multiset<u128>,
        d: int,
        expanding: int,
    ) -> bool {
        &&& fr.thr.len() == self.internals@.len()
        &&& fr.slot.len() == self.internals@.len()
        &&& rows.len() == 129
        &&& forall|e: int, x: int|
            0 <= e < 129 && 0 <= x < rows[e].len() ==> self.entry_ok(
                q,
                fr,
                expanding,
                e,
                x,
                #[trigger] rows[e][x],
            )
        &&& forall|a: int|
            0 < a < self.internals@.len() && !self.leaf(a) && #[trigger] self.reached(q, fr, a)
                && a != expanding && fr.thr[a] <= 128 ==> 0 <= fr.thr[a] && 0 <= fr.slot[a]
                < rows[fr.thr[a]].len() && rows[fr.thr[a]][fr.slot[a]].0 == a
        &&& forall|a: int|
            0 <= a < self.internals@.len() && !self.leaf(a) && #[trigger] self.reached(q, fr, a)
                ==> fr.thr[a] >= d
        &&& offered.subset_of(self.contents@)
        &&& forall|l: int, g: u128|
            0 <= l < self.internals@.len() && self.leaf(l) && #[trigger] on_path(g, self.paths@[l])
                ==> offered.count(g) == if self.reached(q, fr, l) {
                self.contents@.count(g)
            } else {
                0
            }
        &&& forall|c: int| #[trigger]
            fr.extra.contains(c) ==> 0 < c < self.internals@.len() && self.parent(c) == expanding
    }

    /// The path of a node is the path of its parent and the node's index word.
    pub(super) proof fn lemma_parent(&self, c: int)
        requires
            self.shape(),
            0 < c < self.internals@.len(),
        ensures
            0 <= self.parent(c) < c,
            !self.leaf(self.parent(c)),
            self.path(self.parent(c)).len() < 8,
            self.path(c) == self.path(self.parent(c)).push(self.path(c).last()),
            self.path(c).len() == self.path(self.parent(c)).len() + 1,
            self.table(self.parent(c)).contains_key(self.path(c).last()),
            self.table(self.parent(c))[self.path(c).last()] == c,
            forall|g: u128|
                on_path(g, self.path(c)) ==> on_path(g, self.path(self.parent(c)))
                    && self.path(c).last() == chf(g, self.path(self.parent(c)).len()),
    {
        let p = self.parents@[c];
        let k = self.path(c).last();
        assert(self.table(p).contains_key(k));
        assert(self.paths@[p].len() <= 8);
        assert forall|g: u128| on_path(g, self.path(c)) implies on_path(g, self.path(p))
            && self.path(c).last() == chf(g, self.path(p).len()) by {
            assert forall|t: int| 0 <= t < self.path(p).len() implies #[trigger] self.path(p)[t]
                == chf(g, t as nat) by {
                assert(self.path(c)[t] == self.path(p)[t]);
            }
            assert(self.path(c)[self.path(c).len() - 1] == k);
        }
    }

    /// The distance of a node's index word to the query's is at most 128, at
    /// most the distance of any feature below the node, and at least the
    /// distance of its parent's index word.
    pub(super) proof fn lemma_key_sod(&self, q: u128, c: int)
        requires
            self.shape(),
            0 < c < self.internals@.len(),
        ensures
            0 <= self.key_sod(q, c) <= 128,
            self.parent(c) > 0 ==> self.key_sod(q, self.parent(c)) <= self.key_sod(q, c),
            forall|g: u128| on_path(g, self.path(c)) ==> self.key_sod(q, c) <= hamming(g, q),
    {
        self.lemma_parent(c);
        let p = self.parent(c);
        let depth = self.path(p).len();
        lemma_hamming_bound(self.path(c).last(), chf(q, depth));
        assert forall|g: u128| on_path(g, self.path(c)) implies self.key_sod(q, c) <= hamming(
            g,
            q,
        ) by {
            lemma_chf_distance_grows(g, q, depth);
        }
        if p > 0 {
            let w = self.witness@[c];
            assert(on_path(w, self.path(c)));
            self.lemma_parent(p);
            assert(self.path(p).last() == chf(w, (depth - 1) as nat));
            lemma_chf_distance_grows(w, q, (depth - 1) as nat);
        }
    }

    /// A feature of the tree lies in a bucket on its path.
    pub(super) proof fn lemma_home(&self, g: u128, node: int) -> (l: int)
        requires
            self.shape(),
            self.filled(),
            0 <= node < self.internals@.len(),
            on_path(g, self.path(node)),
            self.contents@.count(g) > 0,
        ensures
            0 <= l < self.internals@.len(),
            self.leaf(l),
            on_path(g, self.path(l)),
        decreases 8 - self.path(node).len(),
    {
        assert(self.paths@[node].len() <= 8);
        assert(on_path(g, self.paths@[node]));
        if self.leaf(node) {
            node
        } else {
            let depth = self.path(node).len();
            let k = chf(g, depth);
            assert(self.table(node).contains_key(k));
            let c = self.table(node)[k] as int;
            assert(self.path(c) == self.path(node).push(k));
            assert forall|t: int| 0 <= t < self.path(c).len() implies #[trigger] self.path(c)[t]
                == chf(g, t as nat) by {
                if t < depth {
                    assert(self.path(c)[t] == self.path(node)[t]);
                }
            }
            self.lemma_home(g, c)
        }
    }

    /// What the search has not reached lies at the distance it has come to,
    /// or farther.
    pub(super) proof fn lemma_unreached(&self, q: u128, fr: Frontier, d: int, g: u128, c: int)
        requires
            self.shape(),
            fr.thr.len() == self.internals@.len(),
            forall|a: int|
                0 <= a < self.internals@.len() && !self.leaf(a) && #[trigger] self.reached(
                    q,
                    fr,
                    a,
                ) ==> fr.thr[a] >= d,
            0 <= c < self.internals@.len(),
            on_path(g, self.path(c)),
            !self.reached(q, fr, c),
        ensures
            hamming(g, q) >= d,
        decreases c,
    {
        self.lemma_parent(c);
        self.lemma_key_sod(q, c);
        let p = self.parent(c);
        if !self.reached(q, fr, p) {
            self.lemma_unreached(q, fr, d, g, p);
        }
    }

    /// Looking at one more child `c` of the node that is being expanded
    /// changes nothing for the other nodes, if nothing below `c` counts as
    /// looked at.
    pub(super) proof fn lemma_one_more(&self, q: u128, fr: Frontier, to: Frontier, c: int, x: int)
        requires
            self.shape(),
            0 < c < self.internals@.len(),
            0 <= x < self.internals@.len(),
            fr.thr.len() == self.internals@.len(),
            to.thr.len() == self.internals@.len(),
            to.extra == fr.extra.insert(c),
            forall|a: int| 0 <= a < self.internals@.len() && a != c ==> to.thr[a] == fr.thr[a],
            !self.reached(q, fr, c),
            self.reached(q, fr, self.parent(c)),
            forall|y: int|
                0 < y < self.internals@.len() && self.parent(y) == c ==> !(self.key_sod(q, y)
                    < to.thr[c]) && !fr.extra.contains(y),
        ensures
            x != c ==> self.reached(q, to, x) == self.reached(q, fr, x),
            x == c ==> self.reached(q, to, x),
        decreases x,
    {
        if x > 0 {
            self.lemma_parent(x);
            let p = self.parent(x);
            self.lemma_one_more(q, fr, to, c, p);
            if x == c {
                assert(to.extra.contains(c));
            } else if p == c {
                assert(!self.reached(q, fr, x));
                assert(!to.extra.contains(x));
            } else {
                assert(to.extra.contains(x) == fr.extra.contains(x));
            }
        }
    }

    /// Where for every node it comes to the same whether it counts as looked
    /// at as a child of its parent, the same nodes are reached.
    pub(super) proof fn lemma_same_reach(&self, q: u128, fr: Frontier, to: Frontier, x: int)
        requires
            self.shape(),
            0 <= x < self.internals@.len(),
            forall|y: int|
                0 < y < self.internals@.len() ==> (self.key_sod(q, y) < fr.thr[self.parent(y)]
                    || fr.extra.contains(y)) == (self.key_sod(q, y) < to.thr[self.parent(y)]
                    || to.extra.contains(y)),
        ensures
            self.reached(q, to, x) == self.reached(q, fr, x),
        decreases x,
    {
        if x > 0 {
            self.lemma_parent(x);
            self.lemma_same_reach(q, fr, to, self.parent(x));
        }
    }

    /// Offers the heap every feature of the bucket `node`.
    fn offer_all(&self, node: usize, feature_heap: &mut FeatureHeap)
        requires
            self.wf(),
            node < self.internals@.len(),
            self.leaf(node as int),
            old(feature_heap).wf(),
            old(feature_heap).cap() > 0,
            old(feature_heap).offered().add(self.bucket(node as int).to_multiset()).subset_of(
                self.contents@,
            ),
        ensures
            final(feature_heap).wf(),
            final(feature_heap).cap() == old(feature_heap).cap(),
            final(feature_heap).query() == old(feature_heap).query(),
            final(feature_heap).watermark() == old(feature_heap).watermark(),
            final(feature_heap).offered() == old(feature_heap).offered().add(
                self.bucket(node as int).to_multiset(),
            ),
    {
        match &self.internals[node] {
            Internal::Bucket(v) => {
                let ghost start = feature_heap.offered();
                proof {
                    broadcast use vstd::seq_lib::group_to_multiset_ensures;
                    broadcast use vstd::multiset::axiom_len_add;
                    broadcast use vstd::multiset::axiom_len_sub;

                    assert(v@.take(0) =~= Seq::<u128>::empty());
                    crate::feature_heap::lemma_nothing_held(v@.take(0));
                    assert(start.add(v@.take(0).to_multiset()) =~= start);
                    let all = start.add(v@.to_multiset());
                    assert(self.contents@.sub(all).len() == self.contents@.len() - all.len());
                    assert(all.len() == start.len() + v@.len());
                }
                let mut j: usize = 0;
                while j < v.len()
                    invariant
                        j <= v@.len(),
                        feature_heap.wf(),
                        feature_heap.cap() == old(feature_heap).cap(),
                        feature_heap.cap() > 0,
                        feature_heap.query() == old(feature_heap).query(),
                        feature_heap.watermark() == old(feature_heap).watermark(),
                        feature_heap.offered() == start.add(v@.take(j as int).to_multiset()),
                        start.len() + v@.len() <= usize::MAX,
                    decreases v@.len() - j,
                {
                    proof {
                        broadcast use vstd::seq_lib::group_to_multiset_ensures;
                        broadcast use vstd::multiset::axiom_len_add;

                        assert(v@.take(j as int).len() == j);
                        assert(v@.take(j + 1) =~= v@.take(j as int).push(v@[j as int]));
                        assert(start.add(v@.take(j as int).to_multiset()).insert(v@[j as int])
                            =~= start.add(v@.take(j + 1).to_multiset()));
                    }
                    feature_heap.add(v[j]);
                    j = j + 1;
                }
                proof {
                    assert(v@.take(v@.len() as int) =~= v@);
                }
            },
            Internal::Table(_) => {},
        }
    }

    /// Looks at `child`, a child of the node that is being expanded: offers
    /// its features to the heap if it is a bucket, and lets it wait in the
    /// queue at its distance if it is a table. Says whether it was a bucket.
    fn visit(
        &self,
        q: u128,
        child: u32,
        child_distance: u32,
        level: u8,
        node_queue: &mut NodeQueue,
        feature_heap: &mut FeatureHeap,
        Ghost(fr): Ghost<Frontier>,
        Ghost(d): Ghost<int>,
    ) -> (r: (bool, Ghost<Frontier>))
        requires
            self.wf(),
            old(node_queue).wf(),
            old(feature_heap).wf(),
            old(feature_heap).cap() > 0,
            self.searching(
                q,
                fr,
                old(node_queue)@,
                old(feature_heap).offered(),
                d,
                self.parent(child as int),
            ),
            0 < child < self.internals@.len(),
            self.reached(q, fr, self.parent(child as int)),
            !self.reached(q, fr, child as int),
            child_distance == self.key_sod(q, child as int),
            level + 1 == self.path(child as int).len(),
            old(node_queue).lowest() <= child_distance,
            d <= child_distance,
        ensures
            final(node_queue).wf(),
            final(node_queue).lowest() == old(node_queue).lowest(),
            final(feature_heap).wf(),
            final(feature_heap).cap() == old(feature_heap).cap(),
            final(feature_heap).query() == old(feature_heap).query(),
            final(feature_heap).watermark() == old(feature_heap).watermark(),
            self.searching(
                q,
                r.1@,
                final(node_queue)@,
                final(feature_heap).offered(),
                d,
                self.parent(child as int),
            ),
            r.1@.extra == fr.extra.insert(child as int),
            forall|a: int|
                0 <= a < self.internals@.len() && a != child ==> r.1@.thr[a] == fr.thr[a],
            forall|x: int|
                0 <= x < self.internals@.len() && x != child ==> self.reached(q, r.1@, x)
                    == self.reached(q, fr, x),
            self.reached(q, r.1@, child as int),
            r.0 == self.leaf(child as int),
    {
        let ghost c = child as int;
        let ghost up = self.parent(c);
        let ghost rows = node_queue@;
        let ghost offered = feature_heap.offered();
        proof {
            self.lemma_parent(c);
            self.lemma_key_sod(q, c);
        }
        match &self.internals[child as usize] {
            Internal::Bucket(v) => {
                let ghost to = Frontier { thr: fr.thr, slot: fr.slot, extra: fr.extra.insert(c) };
                proof {
                    broadcast use vstd::seq_lib::group_to_multiset_ensures;

                    assert(self.bucket(c) == v@);
                    assert forall|g: u128|
                        offered.add(v@.to_multiset()).count(g) <= self.contents@.count(g) by {
                        if v@.to_multiset().count(g) > 0 {
                            assert(v@.contains(g));
                            let t = choose|t: int| 0 <= t < v@.len() && v@[t] == g;
                            assert(on_path(self.bucket(c)[t], self.path(c)));
                            assert(on_path(g, self.paths@[c]));
                        }
                    }
                }
                self.offer_all(child as usize, feature_heap);
                proof {
                    broadcast use vstd::seq_lib::group_to_multiset_ensures;

                    assert forall|y: int|
                        0 < y < self.internals@.len() && self.parent(y) == c implies !(
                    self.key_sod(q, y) < to.thr[c]) && !fr.extra.contains(y) by {
                        self.lemma_parent(y);
                    }
                    assert forall|x: int| 0 <= x < self.internals@.len() implies (x != c
                        ==> self.reached(q, to, x) == self.reached(q, fr, x)) && (x == c
                        ==> self.reached(q, to, x)) by {
                        self.lemma_one_more(q, fr, to, c, x);
                    }
                    assert forall|x: int| #[trigger] to.extra.contains(x) implies 0 < x
                        < self.internals@.len() && self.parent(x) == up by {
                        if x != c {
                            assert(fr.extra.contains(x));
                        }
                    }
                    assert forall|e: int, x: int|
                        0 <= e < 129 && 0 <= x < rows[e].len() implies self.entry_ok(
                        q,
                        to,
                        up,
                        e,
                        x,
                        #[trigger] rows[e][x],
                    ) by {
                        assert(self.entry_ok(q, fr, up, e, x, rows[e][x]));
                    }
                    assert forall|a: int|
                        0 < a < self.internals@.len() && !self.leaf(a) && #[trigger] self.reached(
                            q,
                            to,
                            a,
                        ) && a != up && to.thr[a] <= 128 implies 0 <= to.thr[a] && 0
                        <= to.slot[a] < rows[to.thr[a]].len() && rows[to.thr[a]][to.slot[a]].0
                        == a by {
                        assert(self.reached(q, fr, a));
                    }
                    assert forall|a: int|
                        0 <= a < self.internals@.len() && !self.leaf(a) && #[trigger] self.reached(
                            q,
                            to,
                            a,
                        ) implies to.thr[a] >= d by {
                        assert(self.reached(q, fr, a));
                    }
                    assert forall|l: int, g: u128|
                        0 <= l < self.internals@.len() && self.leaf(l) && #[trigger] on_path(
                            g,
                            self.paths@[l],
                        ) implies feature_heap.offered().count(g) == if self.reached(q, to, l) {
                        self.contents@.count(g)
                    } else {
                        0
                    } by {
                        if l != c {
                            if v@.to_multiset().count(g) > 0 {
                                assert(v@.contains(g));
                                let t = choose|t: int| 0 <= t < v@.len() && v@[t] == g;
                                assert(on_path(self.bucket(c)[t], self.path(c)));
                                self.lemma_one_leaf(g, c, l);
                            }
                        }
                    }
                }
                (true, Ghost(to))
            },
            Internal::Table(_) => {
                let ghost at = rows[child_distance as int].len() as int;
                let ghost to = Frontier {
                    thr: fr.thr.update(c, child_distance as int),
                    slot: fr.slot.update(c, at),
                    extra: fr.extra.insert(c),
                };
                node_queue.add_one((child_distance, child, level));
                proof {
                    let after = node_queue@;
                    assert forall|y: int|
                        0 < y < self.internals@.len() && self.parent(y) == c implies !(
                    self.key_sod(q, y) < to.thr[c]) && !fr.extra.contains(y) by {
                        self.lemma_parent(y);
                        self.lemma_key_sod(q, y);
                    }
                    assert forall|x: int| 0 <= x < self.internals@.len() implies (x != c
                        ==> self.reached(q, to, x) == self.reached(q, fr, x)) && (x == c
                        ==> self.reached(q, to, x)) by {
                        self.lemma_one_more(q, fr, to, c, x);
                    }
                    assert forall|x: int| #[trigger] to.extra.contains(x) implies 0 < x
                        < self.internals@.len() && self.parent(x) == up by {
                        if x != c {
                            assert(fr.extra.contains(x));
                        }
                    }
                    assert forall|e: int, x: int|
                        0 <= e < 129 && 0 <= x < after[e].len() implies self.entry_ok(
                        q,
                        to,
                        up,
                        e,
                        x,
                        #[trigger] after[e][x],
                    ) by {
                        if e == child_distance && x == at {
                        } else {
                            assert(after[e][x] == rows[e][x]);
                            assert(self.entry_ok(q, fr, up, e, x, rows[e][x]));
                        }
                    }
                    assert forall|a: int|
                        0 < a < self.internals@.len() && !self.leaf(a) && #[trigger] self.reached(
                            q,
                            to,
                            a,
                        ) && a != up && to.thr[a] <= 128 implies 0 <= to.thr[a] && 0
                        <= to.slot[a] < after[to.thr[a]].len() && after[to.thr[a]][to.slot[a]].0
                        == a by {
                        if a != c {
                            assert(self.reached(q, fr, a));
                            assert(after[fr.thr[a]][fr.slot[a]] == rows[fr.thr[a]][fr.slot[a]]);
                        }
                    }
                    assert forall|a: int|
                        0 <= a < self.internals@.len() && !self.leaf(a) && #[trigger] self.reached(
                            q,
                            to,
                            a,
                        ) implies to.thr[a] >= d by {
                        if a != c {
                            assert(self.reached(q, fr, a));
                        }
                    }
                    assert forall|l: int, g: u128|
                        0 <= l < self.internals@.len() && self.leaf(l) && #[trigger] on_path(
                            g,
                            self.paths@[l],
                        ) implies feature_heap.offered().count(g) == if self.reached(q, to, l) {
                        self.contents@.count(g)
                    } else {
                        0
                    } by {}
                }
                (false, Ghost(to))
            },
        }
    }

    /// What node `i` still has the search do at the distance `d`: two for a
    /// node not reached, one for a table that waits at `d`.
    pub(super) closed spec fn load(&self, q: u128, fr: Frontier, d: int, i: int) -> nat {
        if !self.reached(q, fr, i) {
            2
        } else if !self.leaf(i) && fr.thr[i] <= d {
            1
        } else {
            0
        }
    }

    /// What the first `n` nodes still have the search do at the distance `d`.
    pub(super) closed spec fn load_below(&self, q: u128, fr: Frontier, d: int, n: int) -> nat
        decreases n,
    {
        if n <= 0 {
            0
        } else {
            self.load_below(q, fr, d, n - 1) + self.load(q, fr, d, n - 1)
        }
    }

    /// A search that has no more to do at any node has no more to do in all,
    /// and less if it has less to do at one node.
    pub(super) proof fn lemma_load(&self, q: u128, fr: Frontier, to: Frontier, d: int, n: int, x: int)
        requires
            forall|i: int| 0 <= i < n ==> self.load(q, to, d, i) <= self.load(q, fr, d, i),
        ensures
            self.load_below(q, to, d, n) <= self.load_below(q, fr, d, n),
            0 <= x < n && self.load(q, to, d, x) < self.load(q, fr, d, x) ==> self.load_below(
                q,
                to,
                d,
                n,
            ) < self.load_below(q, fr, d, n),
        decreases n,
    {
        if n > 0 {
            self.lemma_load(q, fr, to, d, n - 1, x);
        }
    }

    /// What the heap keeps is what `nearest` is to find, if the search has
    /// come beyond `max_weight`, or if the heap is full and keeps nothing
    /// farther than `max_error` beyond the distance that the search has come
    /// to.
    pub(super) proof fn lemma_result(
        &self,
        q: u128,
        fr: Frontier,
        rows: Seq<Seq<(u32, u8)>>,
        heap: &FeatureHeap,
        d: int,
        expanding: int,
        max_weight: int,
        max_error: int,
    )
        requires
            self.wf(),
            heap.wf(),
            heap.query() == q,
            heap.cap() > 0,
            self.searching(q, fr, rows, heap.offered(), d, expanding),
            max_error >= 0,
            d > max_weight || (heap.held().len() == heap.cap() && forall|i: int|
                0 <= i < heap.held().len() ==> hamming(#[trigger] heap.held()[i], q) <= d
                    + max_error),
        ensures
            nearest_of(self@, q, max_weight, max_error, heap.cap() as int, heap.held()),
    {
        let held = heap.held();
        assert forall|i: int, j: int| 0 <= i <= j < held.len() implies hamming(
            #[trigger] held[i],
            q,
        ) <= hamming(#[trigger] held[j], q) by {
            let (di, ji) = lemma_joined_find(heap.rows(), 129, i);
            let (dj, jj) = lemma_joined_find(heap.rows(), 129, j);
            if di > dj {
                crate::feature_heap::lemma_joined_grows(heap.rows(), dj + 1, di);
            }
        }
        assert forall|g: u128|
            held.to_multiset().count(g) < #[trigger] self@.count(g) implies hamming(g, q)
            > max_weight || (held.len() == heap.cap() && hamming(held.last(), q) <= hamming(g, q)
            + max_error) by {
            if held.to_multiset().count(g) < heap.offered().count(g) {
                let (dl, jl) = lemma_joined_find(heap.rows(), 129, held.len() - 1);
                assert(heap.rows()[dl as int].len() > 0);
                assert(hamming(heap.rows()[dl as int][jl], q) == dl);
            } else {
                assert(on_path(g, self.path(0)));
                let l = self.lemma_home(g, 0);
                assert(on_path(g, self.paths@[l]));
                assert(!self.reached(q, fr, l));
                self.lemma_unreached(q, fr, d, g, l);
                if d <= max_weight {
                    assert(hamming(held[held.len() - 1], q) <= d + max_error);
                }
            }
        }
    }

    /// Copies what the heap keeps into `dest`.
    fn conclude<'a>(
        &self,
        q: u128,
        feature_heap: &FeatureHeap,
        dest: &'a mut [u128],
        Ghost(fr): Ghost<Frontier>,
        Ghost(rows): Ghost<Seq<Seq<(u32, u8)>>>,
        Ghost(d): Ghost<int>,
        Ghost(expanding): Ghost<int>,
        Ghost(max_weight): Ghost<int>,
        Ghost(max_error): Ghost<int>,
    ) -> (r: &'a mut [u128])
        requires
            self.wf(),
            feature_heap.wf(),
            feature_heap.query() == q,
            feature_heap.cap() > 0,
            feature_heap.cap() == old(dest)@.len(),
            self.searching(q, fr, rows, feature_heap.offered(), d, expanding),
            max_error >= 0,
            d > max_weight || (feature_heap.held().len() == feature_heap.cap() && forall|i: int|
                0 <= i < feature_heap.held().len() ==> hamming(
                    #[trigger] feature_heap.held()[i],
                    q,
                ) <= d + max_error),
        ensures
            nearest_of(self@, q, max_weight, max_error, old(dest)@.len() as int, r@),
            final(dest)@ == final(r)@ + old(dest)@.skip(r@.len() as int),
    {
        proof {
            self.lemma_result(q, fr, rows, feature_heap, d, expanding, max_weight, max_error);
        }
        let r = feature_heap.fill_slice(dest);
        proof {
            assert(r@ =~= feature_heap.held());
        }
        r
    }

    /// Looks at the children of the root that lie within `max_weight`. Says
    /// whether the heap is done.
    fn expand_root(
        &self,
        q: u128,
        indices: &[u128; 8],
        max_weight: u32,
        node_queue: &mut NodeQueue,
        feature_heap: &mut FeatureHeap,
        Ghost(from): Ghost<Frontier>,
    ) -> (r: (bool, Ghost<Frontier>))
        requires
            self.wf(),
            !self.leaf(0),
            old(node_queue).wf(),
            old(node_queue).lowest() == 0,
            old(feature_heap).wf(),
            old(feature_heap).cap() > 0,
            old(feature_heap).query() == q,
            max_weight <= 128,
            forall|level: int| 0 <= level < 8 ==> indices[level] == chf(q, level as nat),
            self.searching(q, from, old(node_queue)@, old(feature_heap).offered(), 0, 0),
            from.thr[0] == 0,
            from.extra == Set::<int>::empty(),
        ensures
            final(node_queue).wf(),
            final(node_queue).lowest() == 0,
            final(feature_heap).wf(),
            final(feature_heap).cap() == old(feature_heap).cap(),
            final(feature_heap).query() == q,
            final(feature_heap).watermark() == old(feature_heap).watermark(),
            r.0 ==> self.searching(q, r.1@, final(node_queue)@, final(feature_heap).offered(), 0, 0)
                && final(feature_heap).held().len() == final(feature_heap).cap() && forall|i: int|
                0 <= i < final(feature_heap).held().len() ==> hamming(
                    #[trigger] final(feature_heap).held()[i],
                    q,
                ) <= final(feature_heap).watermark(),
            !r.0 ==> self.searching(
                q,
                r.1@,
                final(node_queue)@,
                final(feature_heap).offered(),
                0,
                -1,
            ) && r.1@.thr[0] == max_weight + 1 && r.1@.extra == Set::<int>::empty(),
    {
        let ghost mut fr = from;
        match &self.internals[0] {
            Internal::Bucket(_) => (false, Ghost(fr)),
            Internal::Table(t) => {
                let items = crate::table::table_items(t);
                let mut i: usize = 0;
                while i < items.len()
                    invariant
                        self.wf(),
                        !self.leaf(0),
                        i <= items@.len(),
                        max_weight <= 128,
                        node_queue.wf(),
                        node_queue.lowest() == 0,
                        feature_heap.wf(),
                        feature_heap.cap() == old(feature_heap).cap(),
                        feature_heap.cap() > 0,
                        feature_heap.query() == q,
                        feature_heap.watermark() == old(feature_heap).watermark(),
                        forall|level: int|
                            0 <= level < 8 ==> indices[level] == chf(q, level as nat),
                        forall|x: int|
                            0 <= x < items@.len() ==> self.table(0).contains_pair(
                                (#[trigger] items@[x]).0,
                                items@[x].1,
                            ),
                        forall|x: int, y: int|
                            0 <= x < y < items@.len() ==> (#[trigger] items@[x]).0 != (
                            #[trigger] items@[y]).0,
                        forall|key: u128| #[trigger]
                            self.table(0).contains_key(key) ==> exists|x: int|
                                0 <= x < items@.len() && (#[trigger] items@[x]).0 == key,
                        self.searching(q, fr, node_queue@, feature_heap.offered(), 0, 0),
                        fr.thr[0] == 0,
                        forall|c: int| #[trigger]
                            fr.extra.contains(c) ==> self.key_sod(q, c) <= max_weight && exists|
                                j: int,
                            |
                                0 <= j < i && (#[trigger] items@[j]).1 == c,
                        forall|j: int|
                            0 <= j < i && hamming((#[trigger] items@[j]).0, chf(q, 0))
                                <= max_weight ==> fr.extra.contains(items@[j].1 as int),
                    decreases items@.len() - i,
                {
                    let (key, child) = items[i];
                    let child_distance: u32 = distance(key, indices[0]);
                    proof {
                        assert(self.table(0).contains_pair(items@[i as int].0, items@[i as int].1));
                        assert(self.table(0).contains_key(key));
                        self.lemma_parent(child as int);
                        self.lemma_key_sod(q, child as int);
                        assert(self.path(child as int) == self.path(0).push(key));
                        assert(self.path(child as int).last() == key);
                        if fr.extra.contains(child as int) {
                            let j = choose|j: int| 0 <= j < i && (#[trigger] items@[j]).1 == child;
                            assert(self.table(0).contains_pair(items@[j].0, items@[j].1));
                            assert(self.table(0).contains_key(items@[j].0));
                            assert(self.path(child as int) == self.path(0).push(items@[j].0));
                            assert(self.path(0).push(items@[j].0).last() == items@[j].0);
                        }
                    }
                    if child_distance <= max_weight {
                        let ghost before = fr;
                        let (was_leaf, Ghost(to)) = self.visit(
                            q,
                            child,
                            child_distance,
                            0,
                            node_queue,
                            feature_heap,
                            Ghost(fr),
                            Ghost(0int),
                        );
                        proof {
                            fr = to;
                            assert forall|c: int| #[trigger] fr.extra.contains(c) implies self.key_sod(
                                q,
                                c,
                            ) <= max_weight && exists|j: int|
                                0 <= j < i + 1 && (#[trigger] items@[j]).1 == c by {
                                if c == child {
                                    assert(items@[i as int].1 == c);
                                } else {
                                    assert(before.extra.contains(c));
                                    let j = choose|j: int|
                                        0 <= j < i && (#[trigger] items@[j]).1 == c;
                                    assert(items@[j].1 == c);
                                }
                            }
                        }
                        if was_leaf && feature_heap.done() {
                            return (true, Ghost(fr));
                        }
                    } else {
                        proof {
                            assert forall|c: int| #[trigger] fr.extra.contains(c) implies self.key_sod(
                                q,
                                c,
                            ) <= max_weight && exists|j: int|
                                0 <= j < i + 1 && (#[trigger] items@[j]).1 == c by {
                                let j = choose|j: int| 0 <= j < i && (#[trigger] items@[j]).1 == c;
                                assert(items@[j].1 == c);
                            }
                        }
                    }
                    i = i + 1;
                }
                let ghost to = Frontier {
                    thr: fr.thr.update(0, max_weight + 1),
                    slot: fr.slot,
                    extra: Set::empty(),
                };
                proof {
                    let rows = node_queue@;
                    assert forall|y: int| 0 < y < self.internals@.len() implies (self.key_sod(q, y)
                        < fr.thr[self.parent(y)] || fr.extra.contains(y)) == (self.key_sod(q, y)
                        < to.thr[self.parent(y)] || to.extra.contains(y)) by {
                        self.lemma_parent(y);
                        self.lemma_key_sod(q, y);
                        if self.parent(y) == 0 {
                            let ky = self.path(y).last();
                            assert(self.path(y) == self.path(0).push(ky));
                            if self.key_sod(q, y) <= max_weight {
                                let x = choose|x: int|
                                    0 <= x < items@.len() && (#[trigger] items@[x]).0 == ky;
                                assert(self.table(0).contains_pair(items@[x].0, items@[x].1));
                                assert(fr.extra.contains(items@[x].1 as int));
                            }
                        }
                    }
                    assert forall|x: int| 0 <= x < self.internals@.len() implies self.reached(
                        q,
                        to,
                        x,
                    ) == self.reached(q, fr, x) by {
                        self.lemma_same_reach(q, fr, to, x);
                    }
                    assert forall|e: int, x: int|
                        0 <= e < 129 && 0 <= x < rows[e].len() implies self.entry_ok(
                        q,
                        to,
                        -1,
                        e,
                        x,
                        #[trigger] rows[e][x],
                    ) by {
                        assert(self.entry_ok(q, fr, 0, e, x, rows[e][x]));
                    }
                    assert forall|a: int|
                        0 < a < self.internals@.len() && !self.leaf(a) && #[trigger] self.reached(
                            q,
                            to,
                            a,
                        ) && a != -1 && to.thr[a] <= 128 implies 0 <= to.thr[a] && 0
                        <= to.slot[a] < rows[to.thr[a]].len() && rows[to.thr[a]][to.slot[a]].0
                        == a by {
                        assert(self.reached(q, fr, a));
                    }
                    assert forall|a: int|
                        0 <= a < self.internals@.len() && !self.leaf(a) && #[trigger] self.reached(
                            q,
                            to,
                            a,
                        ) implies to.thr[a] >= 0 by {
                        assert(self.reached(q, fr, a));
                    }
                    assert forall|l: int, g: u128|
                        0 <= l < self.internals@.len() && self.leaf(l) && #[trigger] on_path(
                            g,
                            self.paths@[l],
                        ) implies feature_heap.offered().count(g) == if self.reached(q, to, l) {
                        self.contents@.count(g)
                    } else {
                        0
                    } by {}
                }
                (false, Ghost(to))
            },
        }
    }

    /// Looks at every child of the table `node`, which waited at the
    /// distance `d` of its own index word. Says whether the heap is done.
    fn expand_all(
        &self,
        q: u128,
        indices: &[u128; 8],
        d: u32,
        node: u32,
        level: u8,
        node_queue: &mut NodeQueue,
        feature_heap: &mut FeatureHeap,
        Ghost(from): Ghost<Frontier>,
    ) -> (r: (bool, Ghost<Frontier>))
        requires
            self.wf(),
            0 < node < self.internals@.len(),
            !self.leaf(node as int),
            level + 1 == self.path(node as int).len(),
            old(node_queue).wf(),
            old(node_queue).lowest() <= d,
            d <= 128,
            old(feature_heap).wf(),
            old(feature_heap).cap() > 0,
            old(feature_heap).query() == q,
            forall|level: int| 0 <= level < 8 ==> indices[level] == chf(q, level as nat),
            self.searching(q, from, old(node_queue)@, old(feature_heap).offered(), d as int, node as int),
            self.reached(q, from, node as int),
            from.thr[node as int] == d,
            self.key_sod(q, node as int) <= d,
            self.key_sod(q, node as int) == d,
            from.extra == Set::<int>::empty(),
        ensures
            final(node_queue).wf(),
            final(node_queue).lowest() == old(node_queue).lowest(),
            final(feature_heap).wf(),
            final(feature_heap).cap() == old(feature_heap).cap(),
            final(feature_heap).query() == q,
            final(feature_heap).watermark() == old(feature_heap).watermark(),
            r.0 ==> self.searching(
                q,
                r.1@,
                final(node_queue)@,
                final(feature_heap).offered(),
                d as int,
                node as int,
            ) && final(feature_heap).held().len() == final(feature_heap).cap() && forall|i: int|
                0 <= i < final(feature_heap).held().len() ==> hamming(
                    #[trigger] final(feature_heap).held()[i],
                    q,
                ) <= final(feature_heap).watermark(),
            !r.0 ==> self.searching(
                q,
                r.1@,
                final(node_queue)@,
                final(feature_heap).offered(),
                d as int,
                -1,
            ) && r.1@.extra == Set::<int>::empty() && r.1@.thr[0] == from.thr[0]
                && self.load_below(q, r.1@, d as int, self.internals@.len() as int)
                < self.load_below(q, from, d as int, self.internals@.len() as int),
    {
        let ghost mut fr = from;
        proof {
            assert(self.paths@[node as int].len() <= 8);
        }
        match &self.internals[node as usize] {
            Internal::Bucket(_) => (true, Ghost(fr)),
            Internal::Table(t) => {
                let items = crate::table::table_items(t);
                let mut i: usize = 0;
                while i < items.len()
                    invariant
                        self.wf(),
                        0 < node < self.internals@.len(),
                        !self.leaf(node as int),
                        level + 1 == self.path(node as int).len(),
                        level < 7,
                        d <= 128,
                        node_queue.wf(),
                        node_queue.lowest() == old(node_queue).lowest(),
                        node_queue.lowest() <= d,
                        feature_heap.wf(),
                        feature_heap.cap() == old(feature_heap).cap(),
                        feature_heap.cap() > 0,
                        feature_heap.query() == q,
                        feature_heap.watermark() == old(feature_heap).watermark(),
                        forall|level: int|
                            0 <= level < 8 ==> indices[level] == chf(q, level as nat),
                        self.searching(
                            q,
                            fr,
                            node_queue@,
                            feature_heap.offered(),
                            d as int,
                            node as int,
                        ),
                        self.reached(q, fr, node as int),
                        fr.thr[node as int] == d,
                        fr.thr[0] == from.thr[0],
                        from.thr[node as int] == d,
                        self.reached(q, from, node as int),
                        self.key_sod(q, node as int) <= d,
                        forall|x: int|
                            0 <= x < self.internals@.len() ==> self.load(q, fr, d as int, x)
                                <= self.load(q, from, d as int, x),
                        i <= items@.len(),
                        self.key_sod(q, node as int) == d,
                        forall|x: int|
                            0 <= x < items@.len() ==> self.table(node as int).contains_pair(
                                (#[trigger] items@[x]).0,
                                items@[x].1,
                            ),
                        forall|x: int, y: int|
                            0 <= x < y < items@.len() ==> (#[trigger] items@[x]).0 != (
                            #[trigger] items@[y]).0,
                        forall|key: u128| #[trigger]
                            self.table(node as int).contains_key(key) ==> exists|x: int|
                                0 <= x < items@.len() && (#[trigger] items@[x]).0 == key,
                        forall|c: int| #[trigger]
                            fr.extra.contains(c) ==> exists|j: int|
                                0 <= j < i && (#[trigger] items@[j]).1 == c,
                        forall|j: int|
                            0 <= j < i ==> fr.extra.contains((#[trigger] items@[j]).1 as int),
                    decreases items@.len() - i,
                {
                    let (key, child) = items[i];
                    let child_distance: u32 = distance(key, indices[(level + 1) as usize]);
                    proof {
                        let nn = node as int;
                        assert(self.table(nn).contains_pair(items@[i as int].0, items@[i as int].1));
                        assert(self.table(nn).contains_key(key));
                        self.lemma_parent(child as int);
                        self.lemma_key_sod(q, child as int);
                        assert(self.path(child as int) == self.path(nn).push(key));
                        assert(self.path(child as int).last() == key);
                        if fr.extra.contains(child as int) {
                            let j = choose|j: int| 0 <= j < i && (#[trigger] items@[j]).1 == child;
                            assert(self.table(nn).contains_pair(items@[j].0, items@[j].1));
                            assert(self.table(nn).contains_key(items@[j].0));
                            assert(self.path(child as int) == self.path(nn).push(items@[j].0));
                            assert(self.path(nn).push(items@[j].0).last() == items@[j].0);
                        }
                    }
                    {
                        let ghost before = fr;
                        let (was_leaf, Ghost(to)) = self.visit(
                            q,
                            child,
                            child_distance,
                            level + 1,
                            node_queue,
                            feature_heap,
                            Ghost(fr),
                            Ghost(d as int),
                        );
                        proof {
                            fr = to;
                            assert forall|x: int| 0 <= x < self.internals@.len() implies self.load(
                                q,
                                fr,
                                d as int,
                                x,
                            ) <= self.load(q, from, d as int, x) by {
                                assert(self.load(q, before, d as int, x) <= self.load(
                                    q,
                                    from,
                                    d as int,
                                    x,
                                ));
                                if x != child {
                                    assert(self.reached(q, to, x) == self.reached(q, before, x));
                                    assert(to.thr[x] == before.thr[x]);
                                }
                            }
                            assert forall|c: int| #[trigger] fr.extra.contains(c) implies exists|j: int|
                                0 <= j < i + 1 && (#[trigger] items@[j]).1 == c by {
                                if c == child {
                                    assert(items@[i as int].1 == c);
                                } else {
                                    assert(before.extra.contains(c));
                                    let j = choose|j: int|
                                        0 <= j < i && (#[trigger] items@[j]).1 == c;
                                    assert(items@[j].1 == c);
                                }
                            }
                            assert forall|j: int| 0 <= j < i + 1 implies fr.extra.contains(
                                (#[trigger] items@[j]).1 as int,
                            ) by {
                                if j < i {
                                    assert(before.extra.contains(items@[j].1 as int));
                                }
                            }
                        }
                        if was_leaf && feature_heap.done() {
                            return (true, Ghost(fr));
                        }
                    }
                    i = i + 1;
                }
                let ghost to = Frontier {
                    thr: fr.thr.update(node as int, 129),
                    slot: fr.slot,
                    extra: Set::empty(),
                };
                let ghost before_rows = node_queue@;
                proof {
                    let nn = node as int;
                    assert forall|y: int| 0 < y < self.internals@.len() implies (self.key_sod(q, y)
                        < fr.thr[self.parent(y)] || fr.extra.contains(y)) == (self.key_sod(q, y)
                        < to.thr[self.parent(y)] || to.extra.contains(y)) by {
                        self.lemma_parent(y);
                        self.lemma_key_sod(q, y);
                        if self.parent(y) == nn {
                            let ky = self.path(y).last();
                            let x = choose|x: int|
                                0 <= x < items@.len() && (#[trigger] items@[x]).0 == ky;
                            assert(self.table(nn).contains_pair(items@[x].0, items@[x].1));
                            assert(fr.extra.contains(items@[x].1 as int));
                        } else if fr.extra.contains(y) {
                        }
                    }
                }
                proof {
                    let rows = node_queue@;
                    let nn = node as int;
                    assert forall|x: int| 0 <= x < self.internals@.len() implies self.reached(
                        q,
                        to,
                        x,
                    ) == self.reached(q, fr, x) by {
                        self.lemma_same_reach(q, fr, to, x);
                    }
                    assert forall|e: int, x: int|
                        0 <= e < 129 && 0 <= x < rows[e].len() implies self.entry_ok(
                        q,
                        to,
                        -1,
                        e,
                        x,
                        #[trigger] rows[e][x],
                    ) by {
                        assert(self.entry_ok(q, fr, nn, e, x, rows[e][x]));
                    }
                    assert forall|a: int|
                        0 < a < self.internals@.len() && !self.leaf(a) && #[trigger] self.reached(
                            q,
                            to,
                            a,
                        ) && a != -1 && to.thr[a] <= 128 implies 0 <= to.thr[a] && 0
                        <= to.slot[a] < rows[to.thr[a]].len() && rows[to.thr[a]][to.slot[a]].0
                        == a by {
                        if a != nn {
                            assert(self.reached(q, fr, a));
                            assert(rows[fr.thr[a]][fr.slot[a]] == before_rows[fr.thr[a]][fr.slot[a]]);
                        }
                    }
                    assert forall|a: int|
                        0 <= a < self.internals@.len() && !self.leaf(a) && #[trigger] self.reached(
                            q,
                            to,
                            a,
                        ) implies to.thr[a] >= d by {
                        assert(self.reached(q, fr, a));
                    }
                    assert forall|l: int, g: u128|
                        0 <= l < self.internals@.len() && self.leaf(l) && #[trigger] on_path(
                            g,
                            self.paths@[l],
                        ) implies feature_heap.offered().count(g) == if self.reached(q, to, l) {
                        self.contents@.count(g)
                    } else {
                        0
                    } by {}
                    assert forall|x: int| 0 <= x < self.internals@.len() implies self.load(
                        q,
                        to,
                        d as int,
                        x,
                    ) <= self.load(q, from, d as int, x) by {
                        assert(self.load(q, fr, d as int, x) <= self.load(q, from, d as int, x));
                    }
                    assert(self.load(q, to, d as int, nn) < self.load(q, from, d as int, nn));
                    self.lemma_load(q, from, to, d as int, self.internals@.len() as int, nn);
                }
                (false, Ghost(to))
            },
        }
    }

    /// Looks at the children of the table `node` whose index word lies at
    /// the distance `d` exactly, and lets the table wait at the next
    /// distance. Says whether the heap is done.
    fn expand_exact(
        &self,
        q: u128,
        indices: &[u128; 8],
        d: u32,
        node: u32,
        level: u8,
        node_queue: &mut NodeQueue,
        feature_heap: &mut FeatureHeap,
        Ghost(from): Ghost<Frontier>,
    ) -> (r: (bool, Ghost<Frontier>))
        requires
            self.wf(),
            0 < node < self.internals@.len(),
            !self.leaf(node as int),
            level + 1 == self.path(node as int).len(),
            old(node_queue).wf(),
            old(node_queue).lowest() <= d,
            d <= 128,
            old(feature_heap).wf(),
            old(feature_heap).cap() > 0,
            old(feature_heap).query() == q,
            forall|level: int| 0 <= level < 8 ==> indices[level] == chf(q, level as nat),
            self.searching(q, from, old(node_queue)@, old(feature_heap).offered(), d as int, node as int),
            self.reached(q, from, node as int),
            from.thr[node as int] == d,
            self.key_sod(q, node as int) <= d,
            !self.brute(node as int),
            from.extra == Set::<int>::empty(),
        ensures
            final(node_queue).wf(),
            final(node_queue).lowest() == old(node_queue).lowest(),
            final(feature_heap).wf(),
            final(feature_heap).cap() == old(feature_heap).cap(),
            final(feature_heap).query() == q,
            final(feature_heap).watermark() == old(feature_heap).watermark(),
            r.0 ==> self.searching(
                q,
                r.1@,
                final(node_queue)@,
                final(feature_heap).offered(),
                d as int,
                node as int,
            ) && final(feature_heap).held().len() == final(feature_heap).cap() && forall|i: int|
                0 <= i < final(feature_heap).held().len() ==> hamming(
                    #[trigger] final(feature_heap).held()[i],
                    q,
                ) <= final(feature_heap).watermark(),
            !r.0 ==> self.searching(
                q,
                r.1@,
                final(node_queue)@,
                final(feature_heap).offered(),
                d as int,
                -1,
            ) && r.1@.extra == Set::<int>::empty() && r.1@.thr[0] == from.thr[0]
                && self.load_below(q, r.1@, d as int, self.internals@.len() as int)
                < self.load_below(q, from, d as int, self.internals@.len() as int),
    {
        let ghost mut fr = from;
        proof {
            assert(self.paths@[node as int].len() <= 8);
        }
        match &self.internals[node as usize] {
            Internal::Bucket(_) => (true, Ghost(fr)),
            Internal::Table(t) => {
                let any = crate::table::table_any(t);
                let tp: u128 = match any {
                    Some((key, _)) => pack_ones(key, level_width(level)),
                    None => 0,
                };
                proof {
                    let nn = node as int;
                    self.lemma_parent(nn);
                    match any {
                        Some((key, first)) => {
                            assert(self.table(nn).contains_key(key));
                            let y = first as int;
                            self.lemma_parent(y);
                            assert(self.path(y) == self.path(nn).push(key));
                            assert(on_path(self.witness@[y], self.path(y)));
                            assert(self.path(y)[level + 1] == chf(
                                self.witness@[y],
                                level as nat + 1,
                            ));
                            assert(self.path(y)[level as int] == self.path(nn)[level as int]);
                            lemma_pack_chf(self.witness@[y], level as nat);
                            assert(tp == self.path(nn).last());
                        },
                        None => {
                            let k0 = choose|k: u128| self.table(nn).contains_key(k);
                            assert(self.table(nn).contains_key(k0));
                        },
                    }
                }
                let sc: u128 = indices[(level + 1) as usize];
                let cand = search_exact_at(level, indices[level as usize], sc, tp, d);
                proof {
                    let nn = node as int;
                    assert(words_of(q, level as nat, indices[level as int], sc));
                    assert forall|x: int| 0 <= x < cand@.len() implies hamming(
                        #[trigger] cand@[x],
                        sc,
                    ) == d by {}
                    self.lemma_parent(nn);
                    assert forall|y: int|
                        0 < y < self.internals@.len() && self.parent(y) == nn implies self.path(
                        nn,
                    ).last() == chf(self.witness@[y], level as nat) && self.path(y).last() == chf(
                        self.witness@[y],
                        level as nat + 1,
                    ) by {
                        self.lemma_parent(y);
                        assert(on_path(self.witness@[y], self.path(y)));
                        assert(self.path(y)[level + 1] == chf(self.witness@[y], level as nat + 1));
                        assert(self.path(y)[level as int] == self.path(nn)[level as int]);
                    }
                }
                let mut i: usize = 0;
                while i < cand.len()
                    invariant
                        self.wf(),
                        0 < node < self.internals@.len(),
                        !self.leaf(node as int),
                        level + 1 == self.path(node as int).len(),
                        level < 7,
                        d <= 128,
                        node_queue.wf(),
                        node_queue.lowest() == old(node_queue).lowest(),
                        node_queue.lowest() <= d,
                        feature_heap.wf(),
                        feature_heap.cap() == old(feature_heap).cap(),
                        feature_heap.cap() > 0,
                        feature_heap.query() == q,
                        feature_heap.watermark() == old(feature_heap).watermark(),
                        forall|level: int|
                            0 <= level < 8 ==> indices[level] == chf(q, level as nat),
                        self.searching(
                            q,
                            fr,
                            node_queue@,
                            feature_heap.offered(),
                            d as int,
                            node as int,
                        ),
                        self.reached(q, fr, node as int),
                        fr.thr[node as int] == d,
                        fr.thr[0] == from.thr[0],
                        from.thr[node as int] == d,
                        self.reached(q, from, node as int),
                        self.key_sod(q, node as int) <= d,
                        forall|x: int|
                            0 <= x < self.internals@.len() ==> self.load(q, fr, d as int, x)
                                <= self.load(q, from, d as int, x),
                        i <= cand@.len(),
                        !self.brute(node as int),
                        sc == chf(q, level as nat + 1),
                        self.table(node as int) == crate::table::table_entries(*t),
                        tp == self.path(node as int).last(),
                        forall|x: int, y: int|
                            0 <= x < y < cand@.len() ==> cand@[x] != cand@[y],
                        forall|x: int|
                            0 <= x < cand@.len() ==> hamming(#[trigger] cand@[x], sc) == d,
                        forall|c: int| #[trigger]
                            fr.extra.contains(c) ==> self.key_sod(q, c) == d && exists|j: int|
                                0 <= j < i && #[trigger] cand@[j] == self.path(c).last(),
                        forall|j: int|
                            0 <= j < i && self.table(node as int).contains_key(#[trigger] cand@[j])
                                && hamming(cand@[j], sc) == d ==> fr.extra.contains(
                                self.table(node as int)[cand@[j]] as int,
                            ),
                    decreases cand@.len() - i,
                {
                    let tc: u128 = cand[i];
                    let found = crate::table::table_get(t, tc);
                    let child_distance: u32 = distance(tc, sc);
                    match found {
                        Some(child) => {
                            proof {
                                let nn = node as int;
                                assert(hamming(cand@[i as int], sc) == d);
                                assert(self.table(nn).contains_key(tc));
                                self.lemma_parent(child as int);
                                self.lemma_key_sod(q, child as int);
                                assert(self.path(child as int) == self.path(nn).push(tc));
                                assert(self.path(child as int).last() == tc);
                                if fr.extra.contains(child as int) {
                                    let j = choose|j: int|
                                        0 <= j < i && #[trigger] cand@[j] == self.path(
                                            child as int,
                                        ).last();
                                    assert(cand@[j] != cand@[i as int]);
                                }
                            }
                            let ghost before = fr;
                            let (was_leaf, Ghost(to)) = self.visit(
                                q,
                                child,
                                child_distance,
                                level + 1,
                                node_queue,
                                feature_heap,
                                Ghost(fr),
                                Ghost(d as int),
                            );
                            proof {
                                fr = to;
                                assert forall|x: int| 0 <= x < self.internals@.len() implies self.load(
                                    q,
                                    fr,
                                    d as int,
                                    x,
                                ) <= self.load(q, from, d as int, x) by {
                                    assert(self.load(q, before, d as int, x) <= self.load(
                                        q,
                                        from,
                                        d as int,
                                        x,
                                    ));
                                    if x != child {
                                        assert(self.reached(q, to, x) == self.reached(q, before, x));
                                        assert(to.thr[x] == before.thr[x]);
                                    }
                                }
                                assert forall|c: int| #[trigger] fr.extra.contains(c) implies self.key_sod(
                                    q,
                                    c,
                                ) == d && exists|j: int|
                                    0 <= j < i + 1 && #[trigger] cand@[j] == self.path(c).last() by {
                                    if c == child {
                                        assert(cand@[i as int] == self.path(c).last());
                                    } else {
                                        assert(before.extra.contains(c));
                                        let j = choose|j: int|
                                            0 <= j < i && #[trigger] cand@[j] == self.path(c).last();
                                        assert(cand@[j] == self.path(c).last());
                                    }
                                }
                                assert forall|j: int|
                                    0 <= j < i + 1 && self.table(node as int).contains_key(
                                        #[trigger] cand@[j],
                                    ) && hamming(cand@[j], sc) == d implies fr.extra.contains(
                                    self.table(node as int)[cand@[j]] as int,
                                ) by {
                                    if j < i {
                                        assert(before.extra.contains(
                                            self.table(node as int)[cand@[j]] as int,
                                        ));
                                    }
                                }
                            }
                            if was_leaf && feature_heap.done() {
                                return (true, Ghost(fr));
                            }
                        },
                        None => {},
                    }
                    i = i + 1;
                }
                let ghost before_rows = node_queue@;
                let ghost at = if d < 128 {
                    before_rows[d + 1].len() as int
                } else {
                    0
                };
                let ghost to = Frontier {
                    thr: fr.thr.update(node as int, d + 1),
                    slot: if d < 128 {
                        fr.slot.update(node as int, at)
                    } else {
                        fr.slot
                    },
                    extra: Set::empty(),
                };
                proof {
                    let nn = node as int;
                    assert forall|y: int| 0 < y < self.internals@.len() implies (self.key_sod(q, y)
                        < fr.thr[self.parent(y)] || fr.extra.contains(y)) == (self.key_sod(q, y)
                        < to.thr[self.parent(y)] || to.extra.contains(y)) by {
                        self.lemma_parent(y);
                        self.lemma_key_sod(q, y);
                        if self.parent(y) == nn {
                            let ky = self.path(y).last();
                            assert(self.path(y) == self.path(nn).push(ky));
                            if self.key_sod(q, y) == d {
                                assert(hit_at(
                                    q,
                                    self.witness@[y],
                                    level as nat,
                                    indices[level as int],
                                    sc,
                                    tp,
                                    d as nat,
                                ));
                                assert(cand@.contains(ky));
                                let j = choose|j: int| 0 <= j < cand@.len() && cand@[j] == ky;
                                assert(self.table(nn).contains_key(cand@[j]));
                                assert(fr.extra.contains(self.table(nn)[cand@[j]] as int));
                            }
                        } else if fr.extra.contains(y) {
                        }
                    }
                }
                if d != 128 {
                    node_queue.add_one((d + 1, node, level));
                }
                proof {
                    let rows = node_queue@;
                    let nn = node as int;
                    assert forall|x: int| 0 <= x < self.internals@.len() implies self.reached(
                        q,
                        to,
                        x,
                    ) == self.reached(q, fr, x) by {
                        self.lemma_same_reach(q, fr, to, x);
                    }
                    assert forall|e: int, x: int|
                        0 <= e < 129 && 0 <= x < rows[e].len() implies self.entry_ok(
                        q,
                        to,
                        -1,
                        e,
                        x,
                        #[trigger] rows[e][x],
                    ) by {
                        if e == d + 1 && x == at && d < 128 {
                        } else {
                            assert(rows[e][x] == before_rows[e][x]);
                            assert(self.entry_ok(q, fr, nn, e, x, before_rows[e][x]));
                        }
                    }
                    assert forall|a: int|
                        0 < a < self.internals@.len() && !self.leaf(a) && #[trigger] self.reached(
                            q,
                            to,
                            a,
                        ) && a != -1 && to.thr[a] <= 128 implies 0 <= to.thr[a] && 0
                        <= to.slot[a] < rows[to.thr[a]].len() && rows[to.thr[a]][to.slot[a]].0
                        == a by {
                        if a != nn {
                            assert(self.reached(q, fr, a));
                            assert(rows[fr.thr[a]][fr.slot[a]] == before_rows[fr.thr[a]][fr.slot[a]]);
                        }
                    }
                    assert forall|a: int|
                        0 <= a < self.internals@.len() && !self.leaf(a) && #[trigger] self.reached(
                            q,
                            to,
                            a,
                        ) implies to.thr[a] >= d by {
                        assert(self.reached(q, fr, a));
                    }
                    assert forall|l: int, g: u128|
                        0 <= l < self.internals@.len() && self.leaf(l) && #[trigger] on_path(
                            g,
                            self.paths@[l],
                        ) implies feature_heap.offered().count(g) == if self.reached(q, to, l) {
                        self.contents@.count(g)
                    } else {
                        0
                    } by {}
                    assert forall|x: int| 0 <= x < self.internals@.len() implies self.load(
                        q,
                        to,
                        d as int,
                        x,
                    ) <= self.load(q, from, d as int, x) by {
                        assert(self.load(q, fr, d as int, x) <= self.load(q, from, d as int, x));
                    }
                    assert(self.load(q, to, d as int, nn) < self.load(q, from, d as int, nn));
                    self.lemma_load(q, from, to, d as int, self.internals@.len() as int, nn);
                }
                (false, Ghost(to))
            },
        }
    }

    /// Finds the features nearest to `feature`: as many as `dest` has room
    /// for, nearest first. Returns the part of `dest` that holds them.
    ///
    /// Only features within `max_weight` are looked for; one that lies
    /// farther may still be found. The search ends as soon as `dest` can be
    /// filled with features that lie at most `max_error` farther than any
    /// feature not found; with `max_error` 0 the features found are the
    /// nearest there are.
    ///
    /// The queue and the heap are emptied first; they are the caller's, so
    /// that one allocation serves many searches.
    pub fn nearest<'a>(
        &self,
        feature: u128,
        max_weight: u32,
        max_error: u32,
        node_queue: &mut NodeQueue,
        feature_heap: &mut FeatureHeap,
        dest: &'a mut [u128],
    ) -> (r: &'a mut [u128])
        requires
            self.wf(),
            old(node_queue).wf(),
            old(feature_heap).wf(),
            old(dest)@.len() > 0,
            max_weight <= 128,
            max_error <= 128,
        ensures
            nearest_of(
                self@,
                feature,
                max_weight as int,
                max_error as int,
                old(dest)@.len() as int,
                r@,
            ),
            final(dest)@ == final(r)@ + old(dest)@.skip(r@.len() as int),
            final(node_queue).wf(),
            final(feature_heap).wf(),
    {
        let indices = indices128(feature);
        node_queue.clear();
        feature_heap.reset(dest.len(), feature);
        let ghost n = self.internals@.len() as int;
        let root_is_leaf: bool = match &self.internals[0] {
            Internal::Bucket(_) => true,
            Internal::Table(_) => false,
        };
        if root_is_leaf {
            let ghost fr = Frontier {
                thr: Seq::new(n as nat, |i: int| 129int),
                slot: Seq::new(n as nat, |i: int| 0int),
                extra: Set::empty(),
            };
            proof {
                assert forall|g: u128|
                    feature_heap.offered().add(self.bucket(0).to_multiset()).count(g)
                        <= self.contents@.count(g) by {
                    assert(on_path(g, self.paths@[0]));
                }
            }
            self.offer_all(0, feature_heap);
            proof {
                let rows = node_queue@;
                assert forall|l: int, g: u128|
                    0 <= l < self.internals@.len() && self.leaf(l) && #[trigger] on_path(
                        g,
                        self.paths@[l],
                    ) implies feature_heap.offered().count(g) == if self.reached(feature, fr, l) {
                    self.contents@.count(g)
                } else {
                    0
                } by {
                    assert(on_path(g, self.paths@[0]));
                    if l != 0 {
                        self.lemma_one_leaf(g, 0, l);
                    }
                }
                assert forall|a: int|
                    0 <= a < self.internals@.len() && !self.leaf(a) && #[trigger] self.reached(
                        feature,
                        fr,
                        a,
                    ) implies fr.thr[a] >= max_weight + 1 by {}
            }
            return self.conclude(
                feature,
                feature_heap,
                dest,
                Ghost(fr),
                Ghost(node_queue@),
                Ghost(max_weight + 1),
                Ghost(-1),
                Ghost(max_weight as int),
                Ghost(max_error as int),
            );
        }
        let ghost start = Frontier {
            thr: Seq::new(n as nat, |i: int| 0int),
            slot: Seq::new(n as nat, |i: int| 0int),
            extra: Set::empty(),
        };
        proof {
            assert forall|a: int| 0 < a < self.internals@.len() implies !self.reached(
                feature,
                start,
                a,
            ) by {
                self.lemma_parent(a);
                self.lemma_key_sod(feature, a);
            }
            assert forall|l: int, g: u128|
                0 <= l < self.internals@.len() && self.leaf(l) && #[trigger] on_path(
                    g,
                    self.paths@[l],
                ) implies feature_heap.offered().count(g) == if self.reached(feature, start, l) {
                self.contents@.count(g)
            } else {
                0
            } by {}
        }
        let (done, Ghost(first)) = self.expand_root(
            feature,
            &indices,
            max_weight,
            node_queue,
            feature_heap,
            Ghost(start),
        );
        if done {
            return self.conclude(
                feature,
                feature_heap,
                dest,
                Ghost(first),
                Ghost(node_queue@),
                Ghost(0),
                Ghost(0),
                Ghost(max_weight as int),
                Ghost(max_error as int),
            );
        }
        let ghost mut fr = first;
        let mut d: u32 = 0;
        while d <= max_weight
            invariant
                self.wf(),
                max_weight <= 128,
                max_error <= 128,
                d <= max_weight + 1,
                n == self.internals@.len(),
                node_queue.wf(),
                node_queue.lowest() <= d,
                feature_heap.wf(),
                feature_heap.cap() == old(dest)@.len(),
                dest@.len() == old(dest)@.len(),
                dest@ == old(dest)@,
                feature_heap.cap() > 0,
                feature_heap.query() == feature,
                feature_heap.watermark() <= d + max_error,
                feature_heap.watermark() <= 128,
                forall|level: int| 0 <= level < 8 ==> indices[level] == chf(feature, level as nat),
                self.searching(feature, fr, node_queue@, feature_heap.offered(), d as int, -1),
                fr.extra == Set::<int>::empty(),
                fr.thr[0] == max_weight + 1,
            decreases max_weight + 1 - d,
        {
            let mark: u32 = if d + max_error < 128 { d + max_error } else { 128 };
            feature_heap.search_distance(mark);
            if feature_heap.done() {
                return self.conclude(
                    feature,
                    feature_heap,
                    dest,
                    Ghost(fr),
                    Ghost(node_queue@),
                    Ghost(d as int),
                    Ghost(-1),
                    Ghost(max_weight as int),
                    Ghost(max_error as int),
                );
            }
            loop
                invariant
                    self.wf(),
                    max_weight <= 128,
                    max_error <= 128,
                    d <= max_weight,
                    n == self.internals@.len(),
                    node_queue.wf(),
                    node_queue.lowest() <= d,
                    feature_heap.wf(),
                    feature_heap.cap() == old(dest)@.len(),
                    dest@ == old(dest)@,
                    feature_heap.cap() > 0,
                    feature_heap.query() == feature,
                    feature_heap.watermark() <= d + max_error,
                    feature_heap.watermark() <= 128,
                    forall|level: int|
                        0 <= level < 8 ==> indices[level] == chf(feature, level as nat),
                    self.searching(feature, fr, node_queue@, feature_heap.offered(), d as int, -1),
                    fr.extra == Set::<int>::empty(),
                    fr.thr[0] == max_weight + 1,
                ensures
                    self.searching(
                        feature,
                        fr,
                        node_queue@,
                        feature_heap.offered(),
                        d as int + 1,
                        -1,
                    ),
                    node_queue.wf(),
                    node_queue.lowest() <= d + 1,
                    feature_heap.wf(),
                    feature_heap.cap() == old(dest)@.len(),
                    dest@ == old(dest)@,
                    feature_heap.cap() > 0,
                    feature_heap.query() == feature,
                    feature_heap.watermark() <= d + max_error,
                    feature_heap.watermark() <= 128,
                    fr.extra == Set::<int>::empty(),
                    fr.thr[0] == max_weight + 1,
                decreases self.load_below(feature, fr, d as int, n),
            {
                let next = node_queue.distance();
                let due: bool = match next {
                    Some(x) => x == d,
                    None => false,
                };
                if !due {
                    proof {
                        let rows = node_queue@;
                        match next {
                            Some(x) => {
                                assert(self.entry_ok(feature, fr, -1, x as int, 0, rows[x as int][0]));
                                let first = rows[x as int][0].0 as int;
                                assert(self.reached(feature, fr, first));
                                assert(fr.thr[first] >= d);
                                assert(rows[d as int].len() == 0);
                            },
                            None => {
                                assert(rows[d as int].len() == 0);
                            },
                        }
                        assert forall|a: int|
                            0 <= a < self.internals@.len() && !self.leaf(a)
                                && #[trigger] self.reached(feature, fr, a) implies fr.thr[a] >= d
                            + 1 by {
                            assert(fr.thr[a] >= d);
                            if a > 0 && fr.thr[a] <= 128 {
                                assert(rows[fr.thr[a]][fr.slot[a]].0 == a);
                                assert(rows[fr.thr[a]].len() > 0);
                            }
                        }
                    }
                    break ;
                }
                let ghost before_rows = node_queue@;
                match node_queue.pop() {
                    Some((_, node, level)) => {
                        let ghost rows = node_queue@;
                        proof {
                            let nn = node as int;
                            let last = before_rows[d as int].len() - 1;
                            assert(before_rows[d as int][last] == (node, level));
                            assert(self.entry_ok(
                                feature,
                                fr,
                                -1,
                                d as int,
                                last,
                                before_rows[d as int][last],
                            ));
                            assert forall|e: int, x: int|
                                0 <= e < 129 && 0 <= x < rows[e].len() implies self.entry_ok(
                                feature,
                                fr,
                                nn,
                                e,
                                x,
                                #[trigger] rows[e][x],
                            ) by {
                                assert(rows[e][x] == before_rows[e][x]);
                                assert(self.entry_ok(feature, fr, -1, e, x, before_rows[e][x]));
                            }
                            assert forall|a: int|
                                0 < a < self.internals@.len() && !self.leaf(a)
                                    && #[trigger] self.reached(feature, fr, a) && a != nn
                                    && fr.thr[a] <= 128 implies 0 <= fr.thr[a] && 0 <= fr.slot[a]
                                < rows[fr.thr[a]].len() && rows[fr.thr[a]][fr.slot[a]].0 == a by {
                                assert(before_rows[fr.thr[a]][fr.slot[a]].0 == a);
                            }
                        }
                        let small: bool = match &self.internals[node as usize] {
                            Internal::Table(t) => crate::table::table_len(t) < self.table_tau,
                            Internal::Bucket(_) => true,
                        };
                        let (done, Ghost(to)) = if small {
                            self.expand_all(
                                feature,
                                &indices,
                                d,
                                node,
                                level,
                                node_queue,
                                feature_heap,
                                Ghost(fr),
                            )
                        } else {
                            self.expand_exact(
                                feature,
                                &indices,
                                d,
                                node,
                                level,
                                node_queue,
                                feature_heap,
                                Ghost(fr),
                            )
                        };
                        if done {
                            return self.conclude(
                                feature,
                                feature_heap,
                                dest,
                                Ghost(to),
                                Ghost(node_queue@),
                                Ghost(d as int),
                                Ghost(node as int),
                                Ghost(max_weight as int),
                                Ghost(max_error as int),
                            );
                        }
                        proof {
                            fr = to;
                        }
                    },
                    None => {},
                }
            }
            d = d + 1;
        }
        self.conclude(
            feature,
            feature_heap,
            dest,
            Ghost(fr),
            Ghost(node_queue@),
            Ghost(d as int),
            Ghost(-1),
            Ghost(max_weight as int),
            Ghost(max_error as int),
        )
    }
}

/// The width of the substrings at `level`.
pub fn level_width(level: u8) -> (w: u32)
    requires
        level <= 7,
    ensures
        w == width(level as nat),
        w == 1 || w == 2 || w == 4 || w == 8 || w == 16 || w == 32 || w == 64 || w == 128,
{
    match level {
        0 => 128,
        1 => 64,
        2 => 32,
        3 => 16,
        4 => 8,
        5 => 4,
        6 => 2,
        _ => 1,
    }
}

} // verus!
