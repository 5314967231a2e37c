//! Priority queues over the distances `0..=128`.
//!
//! A queue keeps one vector per distance and the least distance at which
//! anything may still wait. The sum of distances of a node's children is
//! never below the node's own, so a search that expands what it takes only
//! adds at or above the distance it took from, and the least distance only
//! moves up: taking an entry is constant time but for that movement.
use vstd::prelude::*;

verus! {

/// The map nodes still to be expanded, by the distance at which each is due.
#[derive(Clone, Debug)]
pub struct NodeQueue {
    distances: Vec<Vec<(u32, u8)>>,
    lowest: usize,
}

impl NodeQueue {
    /// The entries waiting at each distance `0..=128`, each a map node's index and
    /// its level, in the order in which they were added.
    pub closed spec fn view(&self) -> Seq<Seq<(u32, u8)>> {
        Seq::new(self.distances@.len(), |d: int| self.distances@[d]@)
    }

    /// The distance below which nothing waits any more.
    pub closed spec fn lowest(&self) -> nat {
        self.lowest as nat
    }

    /// There are 129 distances, and nothing waits below `lowest`.
    pub open spec fn wf(&self) -> bool {
        &&& self@.len() == 129
        &&& self.lowest() <= 128
        &&& forall|d: int| 0 <= d < self.lowest() ==> (#[trigger] self@[d]).len() == 0
    }

    /// Nothing waits at any distance.
    pub open spec fn drained(&self) -> bool {
        forall|d: int| 0 <= d < self@.len() ==> (#[trigger] self@[d]).len() == 0
    }

    /// An empty queue.
    pub fn new() -> (q: Self)
        ensures
            q.wf(),
            q.drained(),
            q.lowest() == 0,
    {
        let mut distances: Vec<Vec<(u32, u8)>> = Vec::new();
        let mut d: usize = 0;
        while d < 129
            invariant
                d <= 129,
                distances@.len() == d,
                forall|i: int| 0 <= i < d ==> (#[trigger] distances@[i])@.len() == 0,
            decreases 129 - d,
        {
            distances.push(Vec::new());
            d = d + 1;
        }
        NodeQueue { distances, lowest: 0 }
    }

    /// Empties the queue and keeps what it has allocated.
    pub fn clear(&mut self)
        requires
            old(self).wf(),
        ensures
            final(self).wf(),
            final(self).drained(),
            final(self).lowest() == 0,
    {
        let mut d: usize = 0;
        while d < 129
            invariant
                d <= 129,
                self.distances@.len() == 129,
                forall|i: int| 0 <= i < d ==> (#[trigger] self.distances@[i])@.len() == 0,
            decreases 129 - d,
        {
            self.distances[d].clear();
            d = d + 1;
        }
        self.lowest = 0;
    }

    /// Takes the entry added last among those at the least distance at which
    /// anything waits, and returns it with that distance; `None` when nothing
    /// waits. `lowest` moves up to that distance, or to 128.
    pub fn pop(&mut self) -> (r: Option<(u32, u32, u8)>)
        requires
            old(self).wf(),
        ensures
            final(self).wf(),
            match r {
                Some((distance, node, level)) => {
                    &&& old(self).lowest() <= distance <= 128
                    &&& old(self)@[distance as int].len() > 0
                    &&& forall|d: int| 0 <= d < distance ==> (#[trigger] old(self)@[d]).len() == 0
                    &&& (node, level) == old(self)@[distance as int].last()
                    &&& final(self)@ == old(self)@.update(
                        distance as int,
                        old(self)@[distance as int].drop_last(),
                    )
                    &&& final(self).lowest() == distance
                },
                None => {
                    &&& old(self).drained()
                    &&& final(self)@ == old(self)@
                    &&& final(self).lowest() == 128
                },
            },
    {
        loop
            invariant
                self.wf(),
                self@ == old(self)@,
                old(self).lowest() <= self.lowest(),
            decreases 128 - self.lowest,
        {
            let ghost before = self@;
            match self.distances[self.lowest].pop() {
                Some((node, level)) => {
                    assert(self@ =~= before.update(
                        self.lowest as int,
                        before[self.lowest as int].drop_last(),
                    ));
                    return Some((self.lowest as u32, node, level));
                },
                None => {
                    assert(self@ =~= before);
                    if self.lowest == 128 {
                        return None;
                    } else {
                        self.lowest = self.lowest + 1;
                    }
                },
            }
        }
    }

    /// Adds the entry `(distance, map node's, level)`. The distance must not lie
    /// below `lowest`: what was added there would never be taken.
    pub fn add_one(&mut self, entry: (u32, u32, u8))
        requires
            old(self).wf(),
            old(self).lowest() <= entry.0 <= 128,
        ensures
            final(self).wf(),
            final(self).lowest() == old(self).lowest(),
            final(self)@ == old(self)@.update(
                entry.0 as int,
                old(self)@[entry.0 as int].push((entry.1, entry.2)),
            ),
    {
        let (distance, node, level) = entry;
        self.distances[distance as usize].push((node, level));
        assert(self@ =~= old(self)@.update(
            entry.0 as int,
            old(self)@[entry.0 as int].push((entry.1, entry.2)),
        ));
    }

    /// Whether the queue has been taken from until nothing was left: `lowest`
    /// stands at 128 and nothing waits there. Then nothing waits anywhere.
    pub fn is_empty(&self) -> (r: bool)
        requires
            self.wf(),
        ensures
            r == (self.lowest() == 128 && self@[128].len() == 0),
            r ==> self.drained(),
    {
        self.lowest == 128 && self.distances[self.lowest].is_empty()
    }

    /// The least distance at which anything waits, `None` when nothing waits.
    pub fn distance(&self) -> (r: Option<u32>)
        requires
            self.wf(),
        ensures
            match r {
                Some(distance) => {
                    &&& self.lowest() <= distance <= 128
                    &&& self@[distance as int].len() > 0
                    &&& forall|d: int| 0 <= d < distance ==> (#[trigger] self@[d]).len() == 0
                },
                None => self.drained(),
            },
    {
        let mut d: usize = self.lowest;
        while d < 129
            invariant
                self.wf(),
                self.lowest() <= d <= 129,
                forall|i: int| 0 <= i < d ==> (#[trigger] self@[i]).len() == 0,
            decreases 129 - d,
        {
            if !self.distances[d].is_empty() {
                return Some(d as u32);
            }
            d = d + 1;
        }
        None
    }
}

impl Default for NodeQueue {
    /// An empty queue.
    fn default() -> (q: Self)
        ensures
            q.wf(),
            q.drained(),
            q.lowest() == 0,
    {
        NodeQueue::new()
    }
}

/// The leaf buckets still to be scanned, by the distance at which each is due.
#[derive(Clone, Debug)]
pub struct LeafQueue {
    distances: Vec<Vec<(u32, u8)>>,
    lowest: usize,
}

impl LeafQueue {
    /// The entries waiting at each distance `0..=128`, each a leaf bucket's index and
    /// its level, in the order in which they were added.
    pub closed spec fn view(&self) -> Seq<Seq<(u32, u8)>> {
        Seq::new(self.distances@.len(), |d: int| self.distances@[d]@)
    }

    /// The distance below which nothing waits any more.
    pub closed spec fn lowest(&self) -> nat {
        self.lowest as nat
    }

    /// There are 129 distances, and nothing waits below `lowest`.
    pub open spec fn wf(&self) -> bool {
        &&& self@.len() == 129
        &&& self.lowest() <= 128
        &&& forall|d: int| 0 <= d < self.lowest() ==> (#[trigger] self@[d]).len() == 0
    }

    /// Nothing waits at any distance.
    pub open spec fn drained(&self) -> bool {
        forall|d: int| 0 <= d < self@.len() ==> (#[trigger] self@[d]).len() == 0
    }

    /// An empty queue.
    pub fn new() -> (q: Self)
        ensures
            q.wf(),
            q.drained(),
            q.lowest() == 0,
    {
        let mut distances: Vec<Vec<(u32, u8)>> = Vec::new();
        let mut d: usize = 0;
        while d < 129
            invariant
                d <= 129,
                distances@.len() == d,
                forall|i: int| 0 <= i < d ==> (#[trigger] distances@[i])@.len() == 0,
            decreases 129 - d,
        {
            distances.push(Vec::new());
            d = d + 1;
        }
        LeafQueue { distances, lowest: 0 }
    }

    /// Empties the queue and keeps what it has allocated.
    pub fn clear(&mut self)
        requires
            old(self).wf(),
        ensures
            final(self).wf(),
            final(self).drained(),
            final(self).lowest() == 0,
    {
        let mut d: usize = 0;
        while d < 129
            invariant
                d <= 129,
                self.distances@.len() == 129,
                forall|i: int| 0 <= i < d ==> (#[trigger] self.distances@[i])@.len() == 0,
            decreases 129 - d,
        {
            self.distances[d].clear();
            d = d + 1;
        }
        self.lowest = 0;
    }

    /// Takes the entry added last among those at the least distance at which
    /// anything waits, and returns it with that distance; `None` when nothing
    /// waits. `lowest` moves up to that distance, or to 128.
    pub fn pop(&mut self) -> (r: Option<(u32, u32, u8)>)
        requires
            old(self).wf(),
        ensures
            final(self).wf(),
            match r {
                Some((distance, node, level)) => {
                    &&& old(self).lowest() <= distance <= 128
                    &&& old(self)@[distance as int].len() > 0
                    &&& forall|d: int| 0 <= d < distance ==> (#[trigger] old(self)@[d]).len() == 0
                    &&& (node, level) == old(self)@[distance as int].last()
                    &&& final(self)@ == old(self)@.update(
                        distance as int,
                        old(self)@[distance as int].drop_last(),
                    )
                    &&& final(self).lowest() == distance
                },
                None => {
                    &&& old(self).drained()
                    &&& final(self)@ == old(self)@
                    &&& final(self).lowest() == 128
                },
            },
    {
        loop
            invariant
                self.wf(),
                self@ == old(self)@,
                old(self).lowest() <= self.lowest(),
            decreases 128 - self.lowest,
        {
            let ghost before = self@;
            match self.distances[self.lowest].pop() {
                Some((node, level)) => {
                    assert(self@ =~= before.update(
                        self.lowest as int,
                        before[self.lowest as int].drop_last(),
                    ));
                    return Some((self.lowest as u32, node, level));
                },
                None => {
                    assert(self@ =~= before);
                    if self.lowest == 128 {
                        return None;
                    } else {
                        self.lowest = self.lowest + 1;
                    }
                },
            }
        }
    }

    /// Adds the entry `(distance, leaf bucket's, level)`. The distance must not lie
    /// below `lowest`: what was added there would never be taken.
    pub fn add_one(&mut self, entry: (u32, u32, u8))
        requires
            old(self).wf(),
            old(self).lowest() <= entry.0 <= 128,
        ensures
            final(self).wf(),
            final(self).lowest() == old(self).lowest(),
            final(self)@ == old(self)@.update(
                entry.0 as int,
                old(self)@[entry.0 as int].push((entry.1, entry.2)),
            ),
    {
        let (distance, node, level) = entry;
        self.distances[distance as usize].push((node, level));
        assert(self@ =~= old(self)@.update(
            entry.0 as int,
            old(self)@[entry.0 as int].push((entry.1, entry.2)),
        ));
    }

    /// Whether the queue has been taken from until nothing was left: `lowest`
    /// stands at 128 and nothing waits there. Then nothing waits anywhere.
    pub fn is_empty(&self) -> (r: bool)
        requires
            self.wf(),
        ensures
            r == (self.lowest() == 128 && self@[128].len() == 0),
            r ==> self.drained(),
    {
        self.lowest == 128 && self.distances[self.lowest].is_empty()
    }

    /// The least distance at which anything waits, `None` when nothing waits.
    pub fn distance(&self) -> (r: Option<u32>)
        requires
            self.wf(),
        ensures
            match r {
                Some(distance) => {
                    &&& self.lowest() <= distance <= 128
                    &&& self@[distance as int].len() > 0
                    &&& forall|d: int| 0 <= d < distance ==> (#[trigger] self@[d]).len() == 0
                },
                None => self.drained(),
            },
    {
        let mut d: usize = self.lowest;
        while d < 129
            invariant
                self.wf(),
                self.lowest() <= d <= 129,
                forall|i: int| 0 <= i < d ==> (#[trigger] self@[i]).len() == 0,
            decreases 129 - d,
        {
            if !self.distances[d].is_empty() {
                return Some(d as u32);
            }
            d = d + 1;
        }
        None
    }
}

impl Default for LeafQueue {
    /// An empty queue.
    fn default() -> (q: Self)
        ensures
            q.wf(),
            q.drained(),
            q.lowest() == 0,
    {
        LeafQueue::new()
    }
}

} // verus!
