//! The Hamming weight tree.
//!
//! The tree is a trie over the index words of the features it holds. Its
//! nodes lie in one vector and name each other by their place in it; the
//! root is node 0. A node is a leaf bucket of features or a table from index
//! word to child. A node at depth `d` is reached from the root by `d` index
//! words, its path; a table at depth `d` is keyed by the index word of level
//! `d`. Every feature in a bucket has the bucket's path as the first index
//! words of its own.
//!
//! A bucket that grows beyond the leaf capacity becomes a table, and its
//! features move into new buckets by their next index word. At depth 8 the
//! path holds the feature itself; there a bucket stays a bucket.
use crate::bits::{distance, hamming};
use crate::chf::{chf, lemma_chf_distance_grows};
use crate::indices::indices128;
use crate::table::{table_entries, table_get, table_insert, table_items, table_new, KeyTable};
use vstd::multiset::Multiset;
use vstd::prelude::*;

mod nearest;

pub use nearest::{lemma_nearest_exact, lemma_nearest_within, nearest_of};

verus! {

/// The leaf capacity of a tree made by `Hwt::new`.
pub const TAU: usize = 65536;

/// How much room a new bucket is given at once.
pub const INITIAL_CAPACITY: usize = 16;

enum Internal {
    /// A leaf bucket of features.
    Bucket(Vec<u128>),
    /// The children by their index word.
    Table(KeyTable),
}

/// Whether `path` holds the first index words of `g`.
pub open spec fn on_path(g: u128, path: Seq<u128>) -> bool {
    forall|j: int| 0 <= j < path.len() ==> #[trigger] path[j] == chf(g, j as nat)
}

/// A set of 128-bit features that answers which of them lie near a given one.
pub struct Hwt {
    internals: Vec<Internal>,
    count: usize,
    tau: usize,
    table_tau: usize,
    paths: Ghost<Seq<Seq<u128>>>,
    parents: Ghost<Seq<int>>,
    witness: Ghost<Seq<u128>>,
    contents: Ghost<Multiset<u128>>,
}

impl Hwt {
    /// The features held, each as often as it was inserted.
    pub closed spec fn view(&self) -> Multiset<u128> {
        self.contents@
    }

    /// The number of nodes.
    pub closed spec fn nodes(&self) -> nat {
        self.internals@.len()
    }

    /// The number of features counted.
    pub closed spec fn counted(&self) -> nat {
        self.count as nat
    }

    /// The leaf capacity: a bucket at a depth below 8 that grows beyond it
    /// becomes a table.
    pub closed spec fn tau(&self) -> nat {
        self.tau as nat
    }

    /// The number of children from which on a table is searched by listing
    /// the index words that can match, and below which by going through all
    /// its children.
    pub closed spec fn table_tau(&self) -> nat {
        self.table_tau as nat
    }

    /// Whether node `i` is a bucket.
    spec fn leaf(&self, i: int) -> bool {
        self.internals@[i] is Bucket
    }

    /// The features of the bucket `i`.
    spec fn bucket(&self, i: int) -> Seq<u128> {
        self.internals@[i]->Bucket_0@
    }

    /// The entries of the table `i`.
    spec fn table(&self, i: int) -> Map<u128, u32> {
        table_entries(self.internals@[i]->Table_0)
    }

    /// The index words that lead from the root to node `i`.
    spec fn path(&self, i: int) -> Seq<u128> {
        self.paths@[i]
    }

    /// The table in which node `i` is entered.
    spec fn parent(&self, i: int) -> int {
        self.parents@[i]
    }

    /// The nodes form a tree under the root: every table entry names a later
    /// node whose path is the table's path and the entry's key, and every
    /// node but the root is entered in the table of its parent.
    spec fn shape(&self) -> bool {
        &&& 1 <= self.internals@.len() <= u32::MAX
        &&& self.paths@.len() == self.internals@.len()
        &&& self.parents@.len() == self.internals@.len()
        &&& self.witness@.len() == self.internals@.len()
        &&& self.path(0).len() == 0
        &&& forall|c: int|
            0 <= c < self.internals@.len() ==> on_path(#[trigger] self.witness@[c], self.path(c))
        &&& forall|i: int|
            0 <= i < self.internals@.len() ==> (#[trigger] self.paths@[i]).len() <= 8 && (
            !self.leaf(i) ==> self.paths@[i].len() < 8)
        &&& forall|i: int, k: u128|
            0 <= i < self.internals@.len() && !self.leaf(i) && #[trigger] self.table(
                i,
            ).contains_key(k) ==> {
                &&& i < self.table(i)[k] < self.internals@.len()
                &&& self.parent(self.table(i)[k] as int) == i
                &&& self.path(self.table(i)[k] as int) == self.path(i).push(k)
            }
        &&& forall|c: int|
            0 < c < self.internals@.len() ==> {
                &&& 0 <= #[trigger] self.parents@[c] < c
                &&& !self.leaf(self.parent(c))
                &&& self.path(c).len() > 0
                &&& self.table(self.parent(c)).contains_key(self.path(c).last())
                &&& self.table(self.parent(c))[self.path(c).last()] == c
            }
    }

    /// Every feature in a bucket has the bucket's path; a bucket holds a
    /// feature with its path as often as the tree does; a table has an entry
    /// for every feature of the tree with its path.
    spec fn filled(&self) -> bool {
        &&& forall|i: int, j: int|
            0 <= i < self.internals@.len() && self.leaf(i) && 0 <= j < self.bucket(i).len()
                ==> on_path(#[trigger] self.bucket(i)[j], self.path(i))
        &&& forall|i: int, g: u128|
            0 <= i < self.internals@.len() && self.leaf(i) && #[trigger] on_path(g, self.paths@[i])
                ==> self.bucket(i).to_multiset().count(g) == self.contents@.count(g)
        &&& forall|i: int, g: u128|
            0 <= i < self.internals@.len() && !self.leaf(i) && #[trigger] on_path(
                g,
                self.paths@[i],
            ) && self.contents@.count(g) > 0 ==> self.table(i).contains_key(
                chf(g, self.path(i).len()),
            )
        &&& forall|i: int|
            0 <= i < self.internals@.len() && self.leaf(i) ==> (#[trigger] self.bucket(i)).len()
                <= self.count
    }

    /// No table is empty.
    spec fn branching(&self) -> bool {
        forall|i: int|
            0 <= i < self.internals@.len() && !#[trigger] self.leaf(i) ==> exists|k: u128|
                self.table(i).contains_key(k)
    }

    /// The tree is sound: its nodes form a trie over the index words of the
    /// features it holds, and it counts them.
    pub closed spec fn wf(&self) -> bool {
        &&& self.shape()
        &&& self.filled()
        &&& self.branching()
        &&& self.count == self.contents@.len()
    }

    /// Two nodes of the same depth on the path of one feature are one node.
    proof fn lemma_same_depth(&self, g: u128, i: int, j: int)
        requires
            self.shape(),
            0 <= i < self.internals@.len(),
            0 <= j < self.internals@.len(),
            on_path(g, self.path(i)),
            on_path(g, self.path(j)),
            self.path(i).len() == self.path(j).len(),
        ensures
            i == j,
        decreases self.path(i).len(),
    {
        if i == 0 || j == 0 {
            if i != 0 {
                assert(self.parents@[i] < i);
            }
            if j != 0 {
                assert(self.parents@[j] < j);
            }
        } else {
            let pi = self.parents@[i];
            let pj = self.parents@[j];
            let ki = self.path(i).last();
            let kj = self.path(j).last();
            assert(self.table(pi).contains_key(ki));
            assert(self.table(pj).contains_key(kj));
            assert(self.path(i) == self.path(pi).push(ki));
            assert(self.path(j) == self.path(pj).push(kj));
            assert forall|t: int| 0 <= t < self.path(pi).len() implies #[trigger] self.path(pi)[t]
                == chf(g, t as nat) by {
                assert(self.path(i)[t] == self.path(pi)[t]);
            }
            assert forall|t: int| 0 <= t < self.path(pj).len() implies #[trigger] self.path(pj)[t]
                == chf(g, t as nat) by {
                assert(self.path(j)[t] == self.path(pj)[t]);
            }
            self.lemma_same_depth(g, pi, pj);
            assert(ki == self.path(i)[self.path(i).len() - 1]);
            assert(kj == self.path(j)[self.path(j).len() - 1]);
        }
    }

    /// A node on the path of a feature, above another one on it, has an
    /// entry for the feature.
    proof fn lemma_above(&self, g: u128, i: int, j: int)
        requires
            self.shape(),
            0 <= i < self.internals@.len(),
            0 <= j < self.internals@.len(),
            on_path(g, self.path(i)),
            on_path(g, self.path(j)),
            self.path(i).len() < self.path(j).len(),
        ensures
            !self.leaf(i),
            self.table(i).contains_key(chf(g, self.path(i).len())),
        decreases self.path(j).len(),
    {
        assert(self.parents@[j] < j);
        let pj = self.parents@[j];
        let kj = self.path(j).last();
        assert(self.table(pj).contains_key(kj));
        assert(self.path(j) == self.path(pj).push(kj));
        assert forall|t: int| 0 <= t < self.path(pj).len() implies #[trigger] self.path(pj)[t]
            == chf(g, t as nat) by {
            assert(self.path(j)[t] == self.path(pj)[t]);
        }
        if self.path(pj).len() == self.path(i).len() {
            self.lemma_same_depth(g, i, pj);
            assert(kj == self.path(j)[self.path(j).len() - 1]);
        } else {
            self.lemma_above(g, i, pj);
        }
    }

    /// A bucket on the path of a feature is the only bucket on it, and the
    /// tables on it lie above the bucket.
    proof fn lemma_one_leaf(&self, g: u128, i: int, j: int)
        requires
            self.shape(),
            0 <= i < self.internals@.len(),
            0 <= j < self.internals@.len(),
            self.leaf(i),
            on_path(g, self.path(i)),
            on_path(g, self.path(j)),
            i != j,
        ensures
            !self.leaf(j),
            self.path(j).len() < self.path(i).len(),
            self.table(j).contains_key(chf(g, self.path(j).len())),
    {
        if self.path(i).len() == self.path(j).len() {
            self.lemma_same_depth(g, i, j);
        } else if self.path(i).len() < self.path(j).len() {
            self.lemma_above(g, i, j);
        } else {
            self.lemma_above(g, j, i);
        }
    }

    /// An empty tree with the leaf capacity `TAU`, which searches every
    /// table by listing the index words that can match.
    pub fn new() -> (hwt: Self)
        ensures
            hwt.wf(),
            hwt@ == Multiset::<u128>::empty(),
            hwt.counted() == 0,
            hwt.nodes() == 1,
            hwt.tau() == TAU,
            hwt.table_tau() == 0,
    {
        Hwt::with_thresholds(TAU, 0)
    }

    /// An empty tree with the leaf capacity `tau`. A table with fewer than
    /// `table_tau` children is searched by going through all of them, a
    /// larger one by listing the index words that can match. Neither number
    /// changes what a search finds.
    pub fn with_thresholds(tau: usize, table_tau: usize) -> (hwt: Self)
        ensures
            hwt.wf(),
            hwt@ == Multiset::<u128>::empty(),
            hwt.counted() == 0,
            hwt.nodes() == 1,
            hwt.tau() == tau,
            hwt.table_tau() == table_tau,
    {
        let mut internals: Vec<Internal> = Vec::new();
        internals.push(Internal::Bucket(Vec::with_capacity(INITIAL_CAPACITY)));
        let hwt = Hwt {
            internals,
            count: 0,
            tau,
            table_tau,
            paths: Ghost(Seq::<Seq<u128>>::empty().push(Seq::<u128>::empty())),
            parents: Ghost(Seq::<int>::empty().push(0int)),
            witness: Ghost(Seq::<u128>::empty().push(0u128)),
            contents: Ghost(Multiset::empty()),
        };
        proof {
            broadcast use vstd::seq_lib::group_to_multiset_ensures;

            assert(hwt.bucket(0) =~= Seq::<u128>::empty());
            assert(hwt.bucket(0).to_multiset().len() == 0);
            assert forall|i: int, g: u128|
                0 <= i < hwt.internals@.len() && hwt.leaf(i) && #[trigger] on_path(
                    g,
                    hwt.paths@[i],
                ) implies hwt.bucket(i).to_multiset().count(g) == hwt.contents@.count(g) by {
                assert(!hwt.bucket(0).contains(g));
            }
        }
        hwt
    }

    /// The number of features held.
    pub fn len(&self) -> (n: usize)
        requires
            self.wf(),
        ensures
            n == self@.len(),
            n == self.counted(),
    {
        self.count
    }

    /// Whether the tree holds no feature.
    pub fn is_empty(&self) -> (r: bool)
        requires
            self.wf(),
        ensures
            r == (self@.len() == 0),
    {
        self.len() == 0
    }

    /// Adds `g` to the bucket `node`, which lies on its path.
    fn push_leaf(&mut self, node: usize, g: u128)
        requires
            old(self).shape(),
            old(self).filled(),
            node < old(self).internals@.len(),
            old(self).leaf(node as int),
            on_path(g, old(self).path(node as int)),
            old(self).bucket(node as int).len() < old(self).count,
        ensures
            final(self).shape(),
            final(self).filled(),
            final(self).contents@ == old(self).contents@.insert(g),
            final(self).internals@.len() == old(self).internals@.len(),
            final(self).paths == old(self).paths,
            final(self).parents == old(self).parents,
            final(self).witness == old(self).witness,
            final(self).count == old(self).count,
            final(self).tau == old(self).tau,
            final(self).table_tau == old(self).table_tau,
            final(self).leaf(node as int),
            final(self).bucket(node as int) == old(self).bucket(node as int).push(g),
            forall|i: int|
                0 <= i < old(self).internals@.len() && i != node ==> final(self).internals@[i]
                    == old(self).internals@[i],
            old(self).branching() ==> final(self).branching(),
    {
        match &mut self.internals[node] {
            Internal::Bucket(v) => {
                v.push(g);
            },
            Internal::Table(_) => {},
        }
        self.contents = Ghost(self.contents@.insert(g));
        proof {
            broadcast use vstd::seq_lib::group_to_multiset_ensures;

            let n = node as int;
            if old(self).branching() {
                assert forall|x: int|
                    0 <= x < self.internals@.len() && !#[trigger] self.leaf(x) implies exists|
                    k: u128,
                | self.table(x).contains_key(k) by {
                    assert(self.internals@[x] == old(self).internals@[x]);
                    assert(!old(self).leaf(x));
                    let k = choose|k: u128| old(self).table(x).contains_key(k);
                    assert(self.table(x).contains_key(k));
                }
            }
            assert(self.bucket(n) == old(self).bucket(n).push(g));
            assert forall|i: int| 0 <= i < self.internals@.len() implies self.leaf(i) == old(
                self,
            ).leaf(i) && (!self.leaf(i) ==> self.table(i) == old(self).table(i)) && (self.leaf(i)
                && i != n ==> self.bucket(i) == old(self).bucket(i)) by {}
            assert forall|i: int, j: int|
                0 <= i < self.internals@.len() && self.leaf(i) && 0 <= j < self.bucket(
                    i,
                ).len() implies on_path(#[trigger] self.bucket(i)[j], self.path(i)) by {
                if i == n {
                    if j < old(self).bucket(n).len() {
                        assert(self.bucket(i)[j] == old(self).bucket(i)[j]);
                    }
                } else {
                    assert(self.bucket(i)[j] == old(self).bucket(i)[j]);
                }
            }
            assert forall|i: int, h: u128|
                0 <= i < self.internals@.len() && self.leaf(i) && #[trigger] on_path(
                    h,
                    self.paths@[i],
                ) implies self.bucket(i).to_multiset().count(h) == self.contents@.count(h) by {
                assert(on_path(h, old(self).paths@[i]));
                if i != n && h == g {
                    old(self).lemma_one_leaf(g, n, i);
                }
            }
            assert forall|i: int, h: u128|
                0 <= i < self.internals@.len() && !self.leaf(i) && #[trigger] on_path(
                    h,
                    self.paths@[i],
                ) && self.contents@.count(h) > 0 implies self.table(i).contains_key(
                chf(h, self.path(i).len()),
            ) by {
                assert(on_path(h, old(self).paths@[i]));
                if h == g {
                    old(self).lemma_one_leaf(g, n, i);
                }
            }
            assert forall|i: int| 0 <= i < self.internals@.len() && self.leaf(i) implies (
            #[trigger] self.bucket(i)).len() <= self.count by {
                if i != n {
                    assert(self.bucket(i) == old(self).bucket(i));
                }
            }
            assert forall|i: int, k: u128|
                0 <= i < self.internals@.len() && !self.leaf(i) && #[trigger] self.table(
                    i,
                ).contains_key(k) implies {
                &&& i < self.table(i)[k] < self.internals@.len()
                &&& self.parent(self.table(i)[k] as int) == i
                &&& self.path(self.table(i)[k] as int) == self.path(i).push(k)
            } by {
                assert(old(self).table(i).contains_key(k));
            }
            assert forall|c: int| 0 < c < self.internals@.len() implies {
                &&& 0 <= #[trigger] self.parents@[c] < c
                &&& !self.leaf(self.parent(c))
                &&& self.path(c).len() > 0
                &&& self.table(self.parent(c)).contains_key(self.path(c).last())
                &&& self.table(self.parent(c))[self.path(c).last()] == c
            } by {
                assert(0 <= old(self).parents@[c] < c);
            }
        }
    }

    /// Gives the table `node` a new bucket for `key` that holds `g`, whose
    /// next index word `key` is.
    fn attach(&mut self, node: usize, key: u128, g: u128)
        requires
            old(self).shape(),
            old(self).filled(),
            node < old(self).internals@.len(),
            !old(self).leaf(node as int),
            on_path(g, old(self).path(node as int)),
            key == chf(g, old(self).path(node as int).len()),
            !old(self).table(node as int).contains_key(key),
            old(self).internals@.len() < u32::MAX,
            old(self).count >= 1,
        ensures
            final(self).shape(),
            final(self).filled(),
            final(self).contents@ == old(self).contents@.insert(g),
            final(self).internals@.len() == old(self).internals@.len() + 1,
            final(self).paths@ == old(self).paths@.push(old(self).path(node as int).push(key)),
            final(self).parents@ == old(self).parents@.push(node as int),
            final(self).witness@ == old(self).witness@.push(g),
            final(self).count == old(self).count,
            final(self).tau == old(self).tau,
            final(self).table_tau == old(self).table_tau,
            !final(self).leaf(node as int),
            final(self).table(node as int) == old(self).table(node as int).insert(
                key,
                old(self).internals@.len() as u32,
            ),
            final(self).leaf(old(self).internals@.len() as int),
            final(self).bucket(old(self).internals@.len() as int) == seq![g],
            forall|i: int|
                0 <= i < old(self).internals@.len() && i != node ==> final(self).internals@[i]
                    == old(self).internals@[i],
            old(self).branching() ==> final(self).branching(),
    {
        let child: u32 = self.internals.len() as u32;
        let mut v: Vec<u128> = Vec::with_capacity(INITIAL_CAPACITY);
        v.push(g);
        self.internals.push(Internal::Bucket(v));
        match &mut self.internals[node] {
            Internal::Table(t) => {
                table_insert(t, key, child);
            },
            Internal::Bucket(_) => {},
        }
        self.paths = Ghost(self.paths@.push(self.paths@[node as int].push(key)));
        self.parents = Ghost(self.parents@.push(node as int));
        self.witness = Ghost(self.witness@.push(g));
        self.contents = Ghost(self.contents@.insert(g));
        proof {
            broadcast use vstd::seq_lib::group_to_multiset_ensures;

            let n = node as int;
            let c = child as int;
            let depth = old(self).path(n).len();
            if old(self).branching() {
                assert forall|x: int|
                    0 <= x < self.internals@.len() && !#[trigger] self.leaf(x) implies exists|
                    k: u128,
                | self.table(x).contains_key(k) by {
                    if x == n {
                        assert(self.table(x).contains_key(key));
                    } else {
                        assert(self.internals@[x] == old(self).internals@[x]);
                        assert(!old(self).leaf(x));
                        let k = choose|k: u128| old(self).table(x).contains_key(k);
                        assert(self.table(x).contains_key(k));
                    }
                }
            }
            assert(self.bucket(c) =~= seq![g]);
            assert(seq![g] =~= Seq::<u128>::empty().push(g));
            assert(self.path(c) == old(self).path(n).push(key));
            assert forall|i: int| 0 <= i < old(self).internals@.len() implies self.leaf(i) == old(
                self,
            ).leaf(i) && self.path(i) == old(self).path(i) && (!self.leaf(i) && i != n
                ==> self.table(i) == old(self).table(i)) && (self.leaf(i) ==> self.bucket(i)
                == old(self).bucket(i)) by {}
            assert(on_path(g, self.path(c))) by {
                assert forall|t: int| 0 <= t < self.path(c).len() implies #[trigger] self.path(
                    c,
                )[t] == chf(g, t as nat) by {
                    if t < depth {
                        assert(self.path(c)[t] == old(self).path(n)[t]);
                    }
                }
            }
            assert forall|i: int|
                0 <= i < self.internals@.len() implies (#[trigger] self.paths@[i]).len() <= 8 && (
            !self.leaf(i) ==> self.paths@[i].len() < 8) by {
                if i < c {
                    assert(old(self).paths@[i].len() <= 8);
                } else {
                    assert(old(self).paths@[n].len() < 8);
                }
            }
            assert forall|i: int, k: u128|
                0 <= i < self.internals@.len() && !self.leaf(i) && #[trigger] self.table(
                    i,
                ).contains_key(k) implies {
                &&& i < self.table(i)[k] < self.internals@.len()
                &&& self.parent(self.table(i)[k] as int) == i
                &&& self.path(self.table(i)[k] as int) == self.path(i).push(k)
            } by {
                if i == n && k == key {
                } else {
                    assert(old(self).table(i).contains_key(k));
                }
            }
            assert forall|x: int| 0 < x < self.internals@.len() implies {
                &&& 0 <= #[trigger] self.parents@[x] < x
                &&& !self.leaf(self.parent(x))
                &&& self.path(x).len() > 0
                &&& self.table(self.parent(x)).contains_key(self.path(x).last())
                &&& self.table(self.parent(x))[self.path(x).last()] == x
            } by {
                if x < c {
                    assert(0 <= old(self).parents@[x] < x);
                    assert(old(self).table(old(self).parent(x)).contains_key(
                        old(self).path(x).last(),
                    ));
                }
            }
            assert forall|i: int, j: int|
                0 <= i < self.internals@.len() && self.leaf(i) && 0 <= j < self.bucket(
                    i,
                ).len() implies on_path(#[trigger] self.bucket(i)[j], self.path(i)) by {
                if i < c {
                    assert(self.bucket(i)[j] == old(self).bucket(i)[j]);
                }
            }
            assert forall|i: int, h: u128|
                0 <= i < self.internals@.len() && self.leaf(i) && #[trigger] on_path(
                    h,
                    self.paths@[i],
                ) implies self.bucket(i).to_multiset().count(h) == self.contents@.count(h) by {
                if i < c {
                    assert(on_path(h, old(self).paths@[i]));
                    if h == g {
                        old(self).lemma_one_leaf(g, i, n);
                    }
                } else {
                    assert forall|t: int| 0 <= t < old(self).path(n).len() implies #[trigger] old(
                        self,
                    ).path(n)[t] == chf(h, t as nat) by {
                        assert(self.path(c)[t] == old(self).path(n)[t]);
                    }
                    assert(on_path(h, old(self).paths@[n]));
                    assert(self.path(c)[depth as int] == key);
                    assert(chf(h, depth) == key);
                    assert(old(self).contents@.count(h) == 0);
                }
            }
            assert forall|i: int, h: u128|
                0 <= i < self.internals@.len() && !self.leaf(i) && #[trigger] on_path(
                    h,
                    self.paths@[i],
                ) && self.contents@.count(h) > 0 implies self.table(i).contains_key(
                chf(h, self.path(i).len()),
            ) by {
                assert(on_path(h, old(self).paths@[i]));
                if h == g {
                    if i != n {
                        if old(self).path(i).len() < depth {
                            old(self).lemma_above(g, i, n);
                        } else if old(self).path(i).len() == depth {
                            old(self).lemma_same_depth(g, i, n);
                        } else {
                            old(self).lemma_above(g, n, i);
                        }
                    }
                } else {
                    assert(old(self).contents@.count(h) > 0);
                }
            }
            assert forall|i: int| 0 <= i < self.internals@.len() && self.leaf(i) implies (
            #[trigger] self.bucket(i)).len() <= self.count by {
                if i < c {
                    assert(self.bucket(i) == old(self).bucket(i));
                }
            }
        }
    }

    /// The number of nodes.
    pub fn node_count(&self) -> (n: usize)
        ensures
            n == self.nodes(),
    {
        self.internals.len()
    }

    /// Turns the bucket `node` into an empty table, takes its features out
    /// of the tree, and returns them.
    fn empty_out(&mut self, node: usize) -> (v: Vec<u128>)
        requires
            old(self).shape(),
            old(self).filled(),
            old(self).branching(),
            node < old(self).internals@.len(),
            old(self).leaf(node as int),
            old(self).path(node as int).len() < 8,
        ensures
            final(self).shape(),
            final(self).filled(),
            v@ == old(self).bucket(node as int),
            final(self).contents@ == old(self).contents@.sub(v@.to_multiset()),
            v@.to_multiset().subset_of(old(self).contents@),
            final(self).internals@.len() == old(self).internals@.len(),
            final(self).paths == old(self).paths,
            final(self).parents == old(self).parents,
            final(self).witness == old(self).witness,
            final(self).count == old(self).count,
            final(self).tau == old(self).tau,
            final(self).table_tau == old(self).table_tau,
            !final(self).leaf(node as int),
            forall|k: u128| !final(self).table(node as int).contains_key(k),
            forall|i: int|
                0 <= i < old(self).internals@.len() && i != node ==> final(self).internals@[i]
                    == old(self).internals@[i],
    {
        let mut taken = Internal::Table(table_new());
        core::mem::swap(&mut self.internals[node], &mut taken);
        let v = match taken {
            Internal::Bucket(v) => v,
            Internal::Table(_) => Vec::new(),
        };
        self.contents = Ghost(self.contents@.sub(v@.to_multiset()));
        proof {
            broadcast use vstd::seq_lib::group_to_multiset_ensures;

            let n = node as int;
            assert forall|i: int| 0 <= i < self.internals@.len() && i != n implies self.leaf(i)
                == old(self).leaf(i) && (!self.leaf(i) ==> self.table(i) == old(self).table(i))
                && (self.leaf(i) ==> self.bucket(i) == old(self).bucket(i)) by {}
            assert forall|h: u128| v@.to_multiset().count(h) <= old(self).contents@.count(h) by {
                if v@.to_multiset().count(h) > 0 {
                    assert(v@.contains(h));
                    let j = choose|j: int| 0 <= j < v@.len() && v@[j] == h;
                    assert(on_path(old(self).bucket(n)[j], old(self).path(n)));
                    assert(on_path(h, old(self).paths@[n]));
                }
            }
            assert forall|i: int, k: u128|
                0 <= i < self.internals@.len() && !self.leaf(i) && #[trigger] self.table(
                    i,
                ).contains_key(k) implies {
                &&& i < self.table(i)[k] < self.internals@.len()
                &&& self.parent(self.table(i)[k] as int) == i
                &&& self.path(self.table(i)[k] as int) == self.path(i).push(k)
            } by {
                assert(old(self).table(i).contains_key(k));
            }
            assert forall|c: int| 0 < c < self.internals@.len() implies {
                &&& 0 <= #[trigger] self.parents@[c] < c
                &&& !self.leaf(self.parent(c))
                &&& self.path(c).len() > 0
                &&& self.table(self.parent(c)).contains_key(self.path(c).last())
                &&& self.table(self.parent(c))[self.path(c).last()] == c
            } by {
                assert(0 <= old(self).parents@[c] < c);
                assert(!old(self).leaf(old(self).parent(c)));
            }
            assert forall|i: int|
                0 <= i < self.internals@.len() implies (#[trigger] self.paths@[i]).len() <= 8 && (
            !self.leaf(i) ==> self.paths@[i].len() < 8) by {
                assert(old(self).paths@[i].len() <= 8);
            }
            assert forall|i: int, j: int|
                0 <= i < self.internals@.len() && self.leaf(i) && 0 <= j < self.bucket(
                    i,
                ).len() implies on_path(#[trigger] self.bucket(i)[j], self.path(i)) by {
                assert(self.bucket(i)[j] == old(self).bucket(i)[j]);
            }
            assert forall|i: int, h: u128|
                0 <= i < self.internals@.len() && self.leaf(i) && #[trigger] on_path(
                    h,
                    self.paths@[i],
                ) implies self.bucket(i).to_multiset().count(h) == self.contents@.count(h) by {
                assert(on_path(h, old(self).paths@[i]));
                if v@.to_multiset().count(h) > 0 {
                    assert(v@.contains(h));
                    let j = choose|j: int| 0 <= j < v@.len() && v@[j] == h;
                    assert(on_path(old(self).bucket(n)[j], old(self).path(n)));
                    old(self).lemma_one_leaf(h, n, i);
                }
            }
            assert forall|i: int, h: u128|
                0 <= i < self.internals@.len() && !self.leaf(i) && #[trigger] on_path(
                    h,
                    self.paths@[i],
                ) && self.contents@.count(h) > 0 implies self.table(i).contains_key(
                chf(h, self.path(i).len()),
            ) by {
                assert(on_path(h, old(self).paths@[i]));
            }
            assert forall|i: int| 0 <= i < self.internals@.len() && self.leaf(i) implies (
            #[trigger] self.bucket(i)).len() <= self.count by {
                assert(self.bucket(i) == old(self).bucket(i));
            }
        }
        v
    }

    /// Turns the bucket `node` at `depth` into a table, and moves each of
    /// its features into the bucket of the feature's index word of that
    /// level.
    ///
    /// The buckets are new nodes, children of `node`, one for each index word
    /// that a feature of the bucket has, and none of them empty. The other
    /// nodes stay as they are.
    fn convert(&mut self, node: usize, depth: usize)
        requires
            old(self).shape(),
            old(self).filled(),
            old(self).branching(),
            node < old(self).internals@.len(),
            old(self).leaf(node as int),
            old(self).path(node as int).len() == depth,
            depth < 8,
            old(self).bucket(node as int).len() > 0,
            old(self).internals@.len() + old(self).bucket(node as int).len() <= u32::MAX,
        ensures
            final(self).shape(),
            final(self).filled(),
            final(self).branching(),
            final(self).contents@ == old(self).contents@,
            final(self).count == old(self).count,
            final(self).tau == old(self).tau,
            final(self).table_tau == old(self).table_tau,
            old(self).internals@.len() <= final(self).internals@.len() <= old(self).internals@.len()
                + old(self).bucket(node as int).len(),
            !final(self).leaf(node as int),
            forall|i: int|
                0 <= i < old(self).internals@.len() ==> (#[trigger] final(self).paths@[i])
                    == old(self).paths@[i],
            forall|i: int|
                0 <= i < old(self).internals@.len() && i != node ==> (
                #[trigger] final(self).internals@[i]) == old(self).internals@[i],
            forall|i: int|
                old(self).internals@.len() <= i < final(self).internals@.len() ==> final(self).leaf(
                    i,
                ) && (#[trigger] final(self).parents@[i]) == node && final(self).bucket(
                    i,
                ).len() > 0,
            forall|k: u128| #[trigger]
                final(self).table(node as int).contains_key(k) ==> old(self).internals@.len()
                    <= final(self).table(node as int)[k],
            forall|j: int|
                0 <= j < old(self).bucket(node as int).len() ==> {
                    let g = #[trigger] old(self).bucket(node as int)[j];
                    let c = final(self).table(node as int)[chf(g, depth as nat)] as int;
                    &&& final(self).table(node as int).contains_key(chf(g, depth as nat))
                    &&& final(self).leaf(c)
                    &&& final(self).bucket(c).to_multiset().count(g) == old(self).bucket(
                        node as int,
                    ).to_multiset().count(g)
                },
    {
        let v = self.empty_out(node);
        let ghost base = self.contents@;
        proof {
            broadcast use vstd::seq_lib::group_to_multiset_ensures;

            assert(v@.take(0) =~= Seq::<u128>::empty());
            assert(v@.take(0).to_multiset().len() == 0);
            assert(base.add(v@.take(0).to_multiset()) =~= base);
            assert forall|x: int|
                0 <= x < self.internals@.len() && x != node && !#[trigger] self.leaf(
                    x,
                ) implies exists|k: u128| self.table(x).contains_key(k) by {
                assert(!old(self).leaf(x));
                let k = choose|k: u128| old(self).table(x).contains_key(k);
                assert(self.table(x).contains_key(k));
            }
        }
        let mut i: usize = 0;
        while i < v.len()
            invariant
                self.shape(),
                self.filled(),
                i <= v@.len(),
                v@ == old(self).bucket(node as int),
                v@.len() <= self.count,
                node < self.internals@.len(),
                !self.leaf(node as int),
                self.path(node as int) == old(self).path(node as int),
                self.path(node as int).len() == depth,
                depth < 8,
                self.contents@ == base.add(v@.take(i as int).to_multiset()),
                old(self).internals@.len() <= self.internals@.len() <= old(self).internals@.len()
                    + i,
                old(self).internals@.len() + v@.len() <= u32::MAX,
                self.count == old(self).count,
                self.tau == old(self).tau,
                self.table_tau == old(self).table_tau,
                forall|k: u128| #[trigger]
                    self.table(node as int).contains_key(k) ==> self.leaf(
                        self.table(node as int)[k] as int,
                    ) && self.bucket(self.table(node as int)[k] as int).len() <= i,
                forall|x: int|
                    0 <= x < self.internals@.len() && x != node && !#[trigger] self.leaf(x)
                        ==> exists|k: u128| self.table(x).contains_key(k),
                i > 0 ==> exists|k: u128| self.table(node as int).contains_key(k),
                forall|j: int| 0 <= j < v@.len() ==> on_path(#[trigger] v@[j], self.path(node as int)),
                forall|x: int|
                    0 <= x < old(self).internals@.len() ==> (#[trigger] self.paths@[x]) == old(
                        self,
                    ).paths@[x],
                forall|x: int|
                    0 <= x < old(self).internals@.len() && x != node ==> (#[trigger] self.internals@[x])
                        == old(self).internals@[x],
                forall|x: int|
                    old(self).internals@.len() <= x < self.internals@.len() ==> (
                    #[trigger] self.parents@[x]) == node,
                forall|x: int|
                    old(self).internals@.len() <= x < self.internals@.len() ==> #[trigger] self.leaf(
                        x,
                    ),
                forall|x: int|
                    old(self).internals@.len() <= x < self.internals@.len() ==> (
                    #[trigger] self.bucket(x)).len() > 0,
                forall|k: u128| #[trigger]
                    self.table(node as int).contains_key(k) ==> old(self).internals@.len()
                        <= self.table(node as int)[k],
            decreases v@.len() - i,
        {
            let g: u128 = v[i];
            let indices = indices128(g);
            let key: u128 = indices[depth];
            let found = match &self.internals[node] {
                Internal::Table(t) => table_get(t, key),
                Internal::Bucket(_) => None,
            };
            let ghost prev = *self;
            proof {
                assert(on_path(v@[i as int], self.path(node as int)));
            }
            match found {
                Some(c) => {
                    proof {
                        assert(self.table(node as int).contains_key(key));
                        let p = self.path(c as int);
                        assert(p == self.path(node as int).push(key));
                        assert forall|t: int| 0 <= t < p.len() implies #[trigger] p[t] == chf(
                            g,
                            t as nat,
                        ) by {
                            if t < depth {
                                assert(p[t] == self.path(node as int)[t]);
                            }
                        }
                    }
                    self.push_leaf(c as usize, g);
                    proof {
                        assert(node != c);
                        assert(self.table(node as int) == prev.table(node as int));
                        assert(old(self).internals@.len() <= c);
                        assert forall|x: int|
                            old(self).internals@.len() <= x < self.internals@.len() implies (
                        #[trigger] self.parents@[x]) == node by {
                            assert(prev.parents@[x] == node);
                        }
                        assert forall|x: int|
                            old(self).internals@.len() <= x
                                < self.internals@.len() implies #[trigger] self.leaf(x) by {
                            assert(prev.leaf(x));
                            if x != c {
                                assert(self.internals@[x] == prev.internals@[x]);
                            }
                        }
                        assert forall|x: int|
                            old(self).internals@.len() <= x < self.internals@.len() implies (
                        #[trigger] self.bucket(x)).len() > 0 by {
                            assert(prev.bucket(x).len() > 0);
                            if x != c {
                                assert(self.internals@[x] == prev.internals@[x]);
                            }
                        }
                        assert forall|x: int|
                            0 <= x < old(self).internals@.len() && x != node implies (
                        #[trigger] self.internals@[x]) == old(self).internals@[x] by {
                            assert(self.internals@[x] == prev.internals@[x]);
                        }
                        assert forall|k: u128| #[trigger]
                            self.table(node as int).contains_key(k) implies self.leaf(
                            self.table(node as int)[k] as int,
                        ) && self.bucket(self.table(node as int)[k] as int).len() <= i + 1 by {
                            assert(prev.table(node as int).contains_key(k));
                            let x = prev.table(node as int)[k] as int;
                            if x != c {
                                assert(self.internals@[x] == prev.internals@[x]);
                            }
                        }
                        assert forall|x: int|
                            0 <= x < self.internals@.len() && x != node && !#[trigger] self.leaf(
                                x,
                            ) implies exists|k: u128| self.table(x).contains_key(k) by {
                            assert(!prev.leaf(x));
                            let k = choose|k: u128| prev.table(x).contains_key(k);
                            assert(self.internals@[x] == prev.internals@[x]);
                            assert(self.table(x).contains_key(k));
                        }
                    }
                },
                None => {
                    self.attach(node, key, g);
                    proof {
                        assert(self.table(node as int).contains_key(key));
                        assert forall|x: int|
                            old(self).internals@.len() <= x < self.internals@.len() implies (
                        #[trigger] self.parents@[x]) == node by {
                            if x < prev.internals@.len() {
                                assert(prev.parents@[x] == node);
                            }
                        }
                        assert forall|x: int|
                            old(self).internals@.len() <= x
                                < self.internals@.len() implies #[trigger] self.leaf(x) by {
                            if x < prev.internals@.len() {
                                assert(prev.leaf(x));
                                assert(self.internals@[x] == prev.internals@[x]);
                            }
                        }
                        assert forall|x: int|
                            old(self).internals@.len() <= x < self.internals@.len() implies (
                        #[trigger] self.bucket(x)).len() > 0 by {
                            if x < prev.internals@.len() {
                                assert(prev.bucket(x).len() > 0);
                                assert(self.internals@[x] == prev.internals@[x]);
                            }
                        }
                        assert forall|x: int|
                            0 <= x < old(self).internals@.len() && x != node implies (
                        #[trigger] self.internals@[x]) == old(self).internals@[x] by {
                            assert(self.internals@[x] == prev.internals@[x]);
                        }
                        assert forall|x: int|
                            0 <= x < old(self).internals@.len() implies (
                        #[trigger] self.paths@[x]) == old(self).paths@[x] by {
                            assert(self.paths@[x] == prev.paths@[x]);
                        }
                        assert forall|k: u128| #[trigger]
                            self.table(node as int).contains_key(k) implies old(
                            self,
                        ).internals@.len() <= self.table(node as int)[k] by {
                            if k != key {
                                assert(prev.table(node as int).contains_key(k));
                            }
                        }
                        assert forall|k: u128| #[trigger]
                            self.table(node as int).contains_key(k) implies self.leaf(
                            self.table(node as int)[k] as int,
                        ) && self.bucket(self.table(node as int)[k] as int).len() <= i + 1 by {
                            if k != key {
                                assert(prev.table(node as int).contains_key(k));
                                let x = prev.table(node as int)[k] as int;
                                assert(self.internals@[x] == prev.internals@[x]);
                            }
                        }
                        assert forall|x: int|
                            0 <= x < self.internals@.len() && x != node && !#[trigger] self.leaf(
                                x,
                            ) implies exists|k: u128| self.table(x).contains_key(k) by {
                            assert(x < prev.internals@.len());
                            assert(self.internals@[x] == prev.internals@[x]);
                            assert(!prev.leaf(x));
                            let k = choose|k: u128| prev.table(x).contains_key(k);
                            assert(self.table(x).contains_key(k));
                        }
                    }
                },
            }
            proof {
                broadcast use vstd::seq_lib::group_to_multiset_ensures;

                assert(v@.take(i + 1) =~= v@.take(i as int).push(g));
                assert(base.add(v@.take(i as int).to_multiset()).insert(g) =~= base.add(
                    v@.take(i + 1).to_multiset(),
                ));
            }
            i = i + 1;
        }
        proof {
            assert(v@.take(v@.len() as int) =~= v@);
            assert(base.add(v@.to_multiset()) =~= old(self).contents@);
            assert forall|x: int|
                0 <= x < self.internals@.len() && !#[trigger] self.leaf(x) implies exists|
                k: u128,
            | self.table(x).contains_key(k) by {}
            assert forall|j: int| 0 <= j < old(self).bucket(node as int).len() implies {
                let g = #[trigger] old(self).bucket(node as int)[j];
                let c = self.table(node as int)[chf(g, depth as nat)] as int;
                &&& self.table(node as int).contains_key(chf(g, depth as nat))
                &&& self.leaf(c)
                &&& self.bucket(c).to_multiset().count(g) == old(self).bucket(
                    node as int,
                ).to_multiset().count(g)
            } by {
                broadcast use vstd::seq_lib::group_to_multiset_ensures;

                let g = old(self).bucket(node as int)[j];
                let k = chf(g, depth as nat);
                assert(v@[j] == g);
                assert(v@.contains(g));
                assert(on_path(v@[j], self.path(node as int)));
                assert(on_path(g, old(self).paths@[node as int]));
                assert(on_path(g, self.paths@[node as int]));
                assert(self.contents@.count(g) > 0);
                assert(self.table(node as int).contains_key(k));
                let c = self.table(node as int)[k] as int;
                let p = self.path(c);
                assert(p == self.path(node as int).push(k));
                assert forall|t: int| 0 <= t < p.len() implies #[trigger] p[t] == chf(
                    g,
                    t as nat,
                ) by {
                    if t < depth {
                        assert(p[t] == self.path(node as int)[t]);
                    }
                }
                assert(on_path(g, self.paths@[c]));
            }
        }
    }

    /// Counts one feature more.
    fn count_one(&mut self)
        requires
            old(self).shape(),
            old(self).filled(),
            old(self).branching(),
            old(self).count < usize::MAX,
        ensures
            final(self).shape(),
            final(self).filled(),
            final(self).branching(),
            final(self).internals == old(self).internals,
            final(self).paths == old(self).paths,
            final(self).parents == old(self).parents,
            final(self).witness == old(self).witness,
            final(self).contents == old(self).contents,
            final(self).tau == old(self).tau,
            final(self).table_tau == old(self).table_tau,
            final(self).count == old(self).count + 1,
            forall|i: int|
                0 <= i < final(self).internals@.len() && final(self).leaf(i) ==> (
                #[trigger] final(self).bucket(i)).len() < final(self).count,
    {
        self.count = self.count + 1;
        proof {
            assert forall|i: int| 0 <= i < self.internals@.len() implies self.leaf(i) == old(
                self,
            ).leaf(i) && self.table(i) == old(self).table(i) && self.bucket(i) == old(
                self,
            ).bucket(i) && self.path(i) == old(self).path(i) by {}
            assert forall|i: int, k: u128|
                0 <= i < self.internals@.len() && !self.leaf(i) && #[trigger] self.table(
                    i,
                ).contains_key(k) implies {
                &&& i < self.table(i)[k] < self.internals@.len()
                &&& self.parent(self.table(i)[k] as int) == i
                &&& self.path(self.table(i)[k] as int) == self.path(i).push(k)
            } by {
                assert(old(self).table(i).contains_key(k));
            }
            assert forall|c: int| 0 < c < self.internals@.len() implies {
                &&& 0 <= #[trigger] self.parents@[c] < c
                &&& !self.leaf(self.parent(c))
                &&& self.path(c).len() > 0
                &&& self.table(self.parent(c)).contains_key(self.path(c).last())
                &&& self.table(self.parent(c))[self.path(c).last()] == c
            } by {
                assert(0 <= old(self).parents@[c] < c);
            }
            assert forall|i: int, j: int|
                0 <= i < self.internals@.len() && self.leaf(i) && 0 <= j < self.bucket(
                    i,
                ).len() implies on_path(#[trigger] self.bucket(i)[j], self.path(i)) by {
                assert(self.bucket(i)[j] == old(self).bucket(i)[j]);
            }
            assert forall|i: int, h: u128|
                0 <= i < self.internals@.len() && self.leaf(i) && #[trigger] on_path(
                    h,
                    self.paths@[i],
                ) implies self.bucket(i).to_multiset().count(h) == self.contents@.count(h) by {
                assert(on_path(h, old(self).paths@[i]));
            }
            assert forall|i: int, h: u128|
                0 <= i < self.internals@.len() && !self.leaf(i) && #[trigger] on_path(
                    h,
                    self.paths@[i],
                ) && self.contents@.count(h) > 0 implies self.table(i).contains_key(
                chf(h, self.path(i).len()),
            ) by {
                assert(on_path(h, old(self).paths@[i]));
            }
            assert forall|i: int| 0 <= i < self.internals@.len() && self.leaf(i) implies (
            #[trigger] self.bucket(i)).len() <= self.count by {
                assert(old(self).bucket(i).len() <= old(self).count);
            }
            assert forall|x: int|
                0 <= x < self.internals@.len() && !#[trigger] self.leaf(x) implies exists|
                k: u128,
            | self.table(x).contains_key(k) by {
                assert(!old(self).leaf(x));
                let k = choose|k: u128| old(self).table(x).contains_key(k);
                assert(self.table(x).contains_key(k));
            }
        }
    }

    /// Adds a feature to the tree.
    ///
    /// The feature goes into the bucket that its index words lead to, a new
    /// bucket if a table on the way has no entry for it. A bucket at a depth
    /// below 8 that has grown beyond the leaf capacity becomes a table.
    ///
    /// Nodes are named by 32-bit numbers: there must be room for as many new
    /// nodes as the tree holds features, and no more nodes are made than that.
    pub fn insert(&mut self, feature: u128)
        requires
            old(self).wf(),
            old(self).nodes() + old(self).counted() + 1 < u32::MAX,
        ensures
            final(self).wf(),
            final(self)@ == old(self)@.insert(feature),
            final(self).counted() == old(self).counted() + 1,
            old(self).nodes() <= final(self).nodes() <= old(self).nodes() + old(self).counted() + 1,
            final(self).tau() == old(self).tau(),
            final(self).table_tau() == old(self).table_tau(),
    {
        self.count_one();
        let indices = indices128(feature);
        let mut bucket: usize = 0;
        let mut depth: usize = 0;
        loop
            invariant
                self.shape(),
                self.filled(),
                self.branching(),
                self.internals == old(self).internals,
                self.paths == old(self).paths,
                self.parents == old(self).parents,
                self.witness == old(self).witness,
                self.contents == old(self).contents,
                self.tau == old(self).tau,
                self.table_tau == old(self).table_tau,
                self.count == old(self).count + 1,
                old(self).count == old(self).contents@.len(),
                old(self).internals@.len() + old(self).count + 1 < u32::MAX,
                bucket < self.internals@.len(),
                self.path(bucket as int).len() == depth,
                on_path(feature, self.path(bucket as int)),
                forall|level: int| 0 <= level < 8 ==> indices[level] == chf(feature, level as nat),
                forall|i: int|
                    0 <= i < self.internals@.len() && self.leaf(i) ==> (#[trigger] self.bucket(
                        i,
                    )).len() < self.count,
            decreases 8 - depth,
        {
            proof {
                assert(self.paths@[bucket as int].len() <= 8);
            }
            let found = match &self.internals[bucket] {
                Internal::Bucket(_) => None,
                Internal::Table(t) => Some(table_get(t, indices[depth])),
            };
            match found {
                None => {
                    proof {
                        assert(self.leaf(bucket as int));
                        assert(self.bucket(bucket as int).len() < self.count);
                    }
                    self.push_leaf(bucket, feature);
                    let size: usize = match &self.internals[bucket] {
                        Internal::Bucket(v) => v.len(),
                        Internal::Table(_) => 0,
                    };
                    if size > self.tau && depth < 8 {
                        self.convert(bucket, depth);
                    }
                    return ;
                },
                Some(None) => {
                    self.attach(bucket, indices[depth], feature);
                    return ;
                },
                Some(Some(child)) => {
                    proof {
                        let key = indices[depth as int];
                        assert(self.table(bucket as int).contains_key(key));
                        let p = self.path(child as int);
                        assert(p == self.path(bucket as int).push(key));
                        assert forall|t: int| 0 <= t < p.len() implies #[trigger] p[t] == chf(
                            feature,
                            t as nat,
                        ) by {
                            if t < depth {
                                assert(p[t] == self.path(bucket as int)[t]);
                            }
                        }
                    }
                    bucket = child as usize;
                    depth = depth + 1;
                },
            }
        }
    }

    /// Whether the tree holds `feature`.
    pub fn contains(&self, feature: u128) -> (r: bool)
        requires
            self.wf(),
        ensures
            r == (self@.count(feature) > 0),
    {
        let indices = indices128(feature);
        let mut bucket: usize = 0;
        let mut depth: usize = 0;
        loop
            invariant
                self.wf(),
                bucket < self.internals@.len(),
                self.path(bucket as int).len() == depth,
                on_path(feature, self.path(bucket as int)),
                forall|level: int| 0 <= level < 8 ==> indices[level] == chf(feature, level as nat),
            decreases 8 - depth,
        {
            proof {
                assert(self.paths@[bucket as int].len() <= 8);
                assert(on_path(feature, self.paths@[bucket as int]));
            }
            match &self.internals[bucket] {
                Internal::Bucket(v) => {
                    proof {
                        assert(self.leaf(bucket as int));
                        assert(self.bucket(bucket as int) == v@);
                    }
                    let mut j: usize = 0;
                    while j < v.len()
                        invariant
                            j <= v@.len(),
                            forall|t: int| 0 <= t < j ==> v@[t] != feature,
                            v@.to_multiset().count(feature) == self@.count(feature),
                        decreases v@.len() - j,
                    {
                        if v[j] == feature {
                            proof {
                                broadcast use vstd::seq_lib::group_to_multiset_ensures;

                                assert(v@.contains(feature));
                            }
                            return true;
                        }
                        j = j + 1;
                    }
                    proof {
                        broadcast use vstd::seq_lib::group_to_multiset_ensures;

                        assert(!v@.contains(feature));
                    }
                    return false;
                },
                Internal::Table(t) => {
                    match table_get(t, indices[depth]) {
                        Some(child) => {
                            proof {
                                let key = indices[depth as int];
                                assert(self.table(bucket as int).contains_key(key));
                                let p = self.path(child as int);
                                assert(p == self.path(bucket as int).push(key));
                                assert forall|t: int| 0 <= t < p.len() implies #[trigger] p[t]
                                    == chf(feature, t as nat) by {
                                    if t < depth {
                                        assert(p[t] == self.path(bucket as int)[t]);
                                    }
                                }
                            }
                            bucket = child as usize;
                            depth = depth + 1;
                        },
                        None => {
                            return false;
                        },
                    }
                },
            }
        }
    }

    /// Adds to `out` the features within `radius` of `feature` that lie
    /// under `node`.
    fn scan_radius(
        &self,
        radius: u32,
        feature: u128,
        indices: &[u128; 8],
        node: usize,
        depth: usize,
        out: &mut Vec<u128>,
    )
        requires
            self.wf(),
            node < self.internals@.len(),
            self.path(node as int).len() == depth,
            forall|level: int| 0 <= level < 8 ==> indices[level] == chf(feature, level as nat),
        ensures
            forall|g: u128| #[trigger]
                final(out)@.to_multiset().count(g) == old(out)@.to_multiset().count(g) + (if on_path(
                    g,
                    self.path(node as int),
                ) && hamming(g, feature) <= radius {
                    self@.count(g)
                } else {
                    0
                }),
        decreases 8 - depth,
    {
        proof {
            assert(self.paths@[node as int].len() <= 8);
        }
        match &self.internals[node] {
            Internal::Bucket(v) => {
                proof {
                    assert(self.leaf(node as int));
                    assert(self.bucket(node as int) == v@);
                    assert(v@.take(0) =~= Seq::<u128>::empty());
                    crate::feature_heap::lemma_nothing_held(v@.take(0));
                }
                let mut j: usize = 0;
                while j < v.len()
                    invariant
                        j <= v@.len(),
                        forall|g: u128| #[trigger]
                            out@.to_multiset().count(g) == old(out)@.to_multiset().count(g) + (
                            if hamming(g, feature) <= radius {
                                v@.take(j as int).to_multiset().count(g)
                            } else {
                                0
                            }),
                    decreases v@.len() - j,
                {
                    let x: u128 = v[j];
                    let ghost before = out@;
                    let near: bool = distance(x, feature) <= radius;
                    if near {
                        out.push(x);
                    }
                    proof {
                        broadcast use vstd::seq_lib::group_to_multiset_ensures;

                        assert(v@.take(j + 1) =~= v@.take(j as int).push(x));
                        assert forall|g: u128| #[trigger]
                            out@.to_multiset().count(g) == old(out)@.to_multiset().count(g) + (
                            if hamming(g, feature) <= radius {
                                v@.take(j + 1).to_multiset().count(g)
                            } else {
                                0
                            }) by {
                            assert(before.to_multiset().count(g) == old(out)@.to_multiset().count(g)
                                + (if hamming(g, feature) <= radius {
                                v@.take(j as int).to_multiset().count(g)
                            } else {
                                0
                            }));
                        }
                    }
                    j = j + 1;
                }
                proof {
                    broadcast use vstd::seq_lib::group_to_multiset_ensures;

                    assert(v@.take(v@.len() as int) =~= v@);
                    assert forall|g: u128| #[trigger]
                        out@.to_multiset().count(g) == old(out)@.to_multiset().count(g) + (
                        if on_path(g, self.path(node as int)) && hamming(g, feature) <= radius {
                            self@.count(g)
                        } else {
                            0
                        }) by {
                        if on_path(g, self.paths@[node as int]) {
                        } else if v@.to_multiset().count(g) > 0 {
                            assert(v@.contains(g));
                            let t = choose|t: int| 0 <= t < v@.len() && v@[t] == g;
                            assert(on_path(self.bucket(node as int)[t], self.path(node as int)));
                        }
                    }
                }
            },
            Internal::Table(t) => {
                let items = table_items(t);
                let mut i: usize = 0;
                while i < items.len()
                    invariant
                        self.wf(),
                        i <= items@.len(),
                        node < self.internals@.len(),
                        !self.leaf(node as int),
                        self.path(node as int).len() == depth,
                        depth < 8,
                        forall|level: int|
                            0 <= level < 8 ==> indices[level] == chf(feature, level as nat),
                        forall|x: int|
                            0 <= x < items@.len() ==> self.table(node as int).contains_pair(
                                (#[trigger] items@[x]).0,
                                items@[x].1,
                            ),
                        forall|x: int, y: int|
                            0 <= x < y < items@.len() ==> (#[trigger] items@[x]).0 != (
                            #[trigger] items@[y]).0,
                        forall|g: u128| #[trigger]
                            out@.to_multiset().count(g) == old(out)@.to_multiset().count(g) + (
                            if on_path(g, self.path(node as int)) && hamming(g, feature) <= radius
                                && listed(items@, i as int, chf(g, depth as nat)) {
                                self@.count(g)
                            } else {
                                0
                            }),
                    decreases items@.len() - i,
                {
                    let (key, child) = items[i];
                    let ghost before = out@;
                    proof {
                        assert(self.table(node as int).contains_pair(
                            items@[i as int].0,
                            items@[i as int].1,
                        ));
                        assert(self.table(node as int).contains_key(key));
                    }
                    let near: bool = distance(key, indices[depth]) <= radius;
                    if near {
                        self.scan_radius(radius, feature, indices, child as usize, depth + 1, out);
                    }
                    proof {
                        let p = self.path(node as int);
                        let q = self.path(child as int);
                        assert(q == p.push(key));
                        assert forall|g: u128| #[trigger]
                            out@.to_multiset().count(g) == old(out)@.to_multiset().count(g) + (
                            if on_path(g, self.path(node as int)) && hamming(g, feature) <= radius
                                && listed(items@, i + 1, chf(g, depth as nat)) {
                                self@.count(g)
                            } else {
                                0
                            }) by {
                            let w = chf(g, depth as nat);
                            assert(before.to_multiset().count(g) == old(out)@.to_multiset().count(
                                g,
                            ) + (if on_path(g, p) && hamming(g, feature) <= radius && listed(
                                items@,
                                i as int,
                                w,
                            ) {
                                self@.count(g)
                            } else {
                                0
                            }));
                            if on_path(g, q) {
                                assert forall|x: int| 0 <= x < p.len() implies #[trigger] p[x]
                                    == chf(g, x as nat) by {
                                    assert(q[x] == p[x]);
                                }
                                assert(q[depth as int] == key);
                            }
                            if on_path(g, p) && w == key {
                                assert forall|x: int| 0 <= x < q.len() implies #[trigger] q[x]
                                    == chf(g, x as nat) by {
                                    if x < depth {
                                        assert(q[x] == p[x]);
                                    }
                                }
                                lemma_chf_distance_grows(g, feature, depth as nat);
                            }
                            if w == key {
                                assert(items@[i as int].0 == w);
                                assert(listed(items@, i + 1, w));
                                if listed(items@, i as int, w) {
                                    let y = choose|y: int|
                                        0 <= y < i && (#[trigger] items@[y]).0 == w;
                                    assert(items@[y].0 != items@[i as int].0);
                                }
                            } else {
                                if listed(items@, i + 1, w) {
                                    let y = choose|y: int|
                                        0 <= y < i + 1 && (#[trigger] items@[y]).0 == w;
                                    assert(y < i);
                                    assert(listed(items@, i as int, w));
                                }
                                if listed(items@, i as int, w) {
                                    let y = choose|y: int|
                                        0 <= y < i && (#[trigger] items@[y]).0 == w;
                                    assert(listed(items@, i + 1, w));
                                }
                            }
                        }
                    }
                    i = i + 1;
                }
                proof {
                    assert forall|g: u128| #[trigger]
                        out@.to_multiset().count(g) == old(out)@.to_multiset().count(g) + (
                        if on_path(g, self.path(node as int)) && hamming(g, feature) <= radius {
                            self@.count(g)
                        } else {
                            0
                        }) by {
                        let w = chf(g, depth as nat);
                        if on_path(g, self.paths@[node as int]) && self@.count(g) > 0 {
                            assert(self.table(node as int).contains_key(w));
                            let x = choose|x: int|
                                0 <= x < items@.len() && (#[trigger] items@[x]).0 == w;
                            assert(listed(items@, items@.len() as int, w));
                        }
                    }
                }
            },
        }
    }

    /// The features of the tree within the Hamming distance `radius` of
    /// `feature`, each as often as the tree holds it, in no particular order.
    pub fn search_radius(&self, radius: u32, feature: u128) -> (out: Vec<u128>)
        requires
            self.wf(),
        ensures
            forall|g: u128| #[trigger]
                out@.to_multiset().count(g) == if hamming(g, feature) <= radius {
                    self@.count(g)
                } else {
                    0
                },
    {
        let indices = indices128(feature);
        let mut out: Vec<u128> = Vec::new();
        proof {
            crate::feature_heap::lemma_nothing_held(out@);
        }
        self.scan_radius(radius, feature, &indices, 0, 0, &mut out);
        out
    }
}

/// Whether one of the first `n` items has the key.
pub open spec fn listed(items: Seq<(u128, u32)>, n: int, key: u128) -> bool {
    exists|j: int| 0 <= j < n && (#[trigger] items[j]).0 == key
}

impl Default for Hwt {
    /// An empty tree, as `Hwt::new` makes it.
    fn default() -> (hwt: Self)
        ensures
            hwt.wf(),
            hwt@ == Multiset::<u128>::empty(),
            hwt.counted() == 0,
            hwt.nodes() == 1,
            hwt.tau() == TAU,
            hwt.table_tau() == 0,
    {
        Hwt::new()
    }
}

/// What a tree holds that was empty and into which `fs` were inserted one
/// after the other.
pub open spec fn held_after(fs: Seq<u128>) -> Multiset<u128>
    decreases fs.len(),
{
    if fs.len() == 0 {
        Multiset::empty()
    } else {
        held_after(fs.drop_last()).insert(fs.last())
    }
}

/// A tree holds as many features as were inserted, and every one of them.
pub proof fn lemma_inserts(fs: Seq<u128>, i: int)
    requires
        0 <= i < fs.len(),
    ensures
        held_after(fs).len() == fs.len(),
        held_after(fs).count(fs[i]) > 0,
{
    lemma_inserts_len(fs);
    lemma_inserts_count(fs, i);
}

/// A tree holds as many features as were inserted.
pub proof fn lemma_inserts_len(fs: Seq<u128>)
    ensures
        held_after(fs).len() == fs.len(),
    decreases fs.len(),
{
    if fs.len() > 0 {
        lemma_inserts_len(fs.drop_last());
    }
}

/// A tree holds every feature that was inserted.
pub proof fn lemma_inserts_count(fs: Seq<u128>, i: int)
    requires
        0 <= i < fs.len(),
    ensures
        held_after(fs).count(fs[i]) > 0,
    decreases fs.len(),
{
    if i < fs.len() - 1 {
        lemma_inserts_count(fs.drop_last(), i);
    }
}

} // verus!
