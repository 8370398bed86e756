//! An approximate index of nearest neighbours.
//!
//! Vectors are the nodes of a graph whose links lead to near vectors. A search walks the
//! graph from an entry point and keeps the nearest vectors it has met. Distances are numbers
//! that the caller computes; they are handed over as integers that run the same way.

use vstd::prelude::*;

use super::node::NodeId;
use super::vector::DistanceMetric;
use crate::order::{order_by, ordered, precedes, Direction};
use crate::text::{copy_str, decimal, push_decimal, push_str};

verus! {

/// Number of near vectors that an insertion looks for.
pub const EF_CONSTRUCTION: usize = 100;

/// A vector whose dimension is not that of the index.
#[derive(Debug, Clone, Copy, PartialEq, Eq, Structural)]
pub enum VectorIndexError {
    /// A vector to be inserted.
    Vector {
        /// Dimension of the index.
        expected: usize,
        /// Dimension of the vector.
        got: usize,
    },
    /// A vector to be searched for.
    Query {
        /// Dimension of the index.
        expected: usize,
        /// Dimension of the vector.
        got: usize,
    },
}

impl VectorIndexError {
    /// The message of the error.
    pub open spec fn text(&self) -> Seq<char> {
        match *self {
            VectorIndexError::Vector { expected, got } => "Vector dimension mismatch: expected "@
                + decimal(expected as nat) + ", got "@ + decimal(got as nat),
            VectorIndexError::Query { expected, got } => "Query dimension mismatch: expected "@
                + decimal(expected as nat) + ", got "@ + decimal(got as nat),
        }
    }

    /// The message of the error.
    pub fn message(&self) -> (r: String)
        ensures
            r@ == self.text(),
    {
        let (start, expected, got) = match self {
            VectorIndexError::Vector { expected, got } => (
                "Vector dimension mismatch: expected ",
                *expected,
                *got,
            ),
            VectorIndexError::Query { expected, got } => (
                "Query dimension mismatch: expected ",
                *expected,
                *got,
            ),
        };
        let mut m = copy_str(start);
        push_decimal(&mut m, expected as u64);
        push_str(&mut m, ", got ");
        push_decimal(&mut m, got as u64);
        m
    }
}

/// A vector in the graph.
#[derive(Debug)]
pub struct VectorEntry {
    /// The vector, each component by its bits.
    pub vector: Vec<u32>,
    /// Slots of the linked vectors, layer by layer.
    pub neighbors: Vec<Vec<usize>>,
}

/// Whether a slot holds a vector.
pub open spec fn occupied(g: Seq<Option<VectorEntry>>, a: int) -> bool {
    0 <= a < g.len() && g[a] is Some
}

/// Whether the vector at one slot is linked to another that is there.
pub open spec fn linked(g: Seq<Option<VectorEntry>>, a: int, b: int) -> bool {
    &&& occupied(g, a)
    &&& occupied(g, b)
    &&& exists|l: int, i: int| #![trigger g[a]->0.neighbors@[l]@[i]]
        0 <= l < g[a]->0.neighbors@.len() && 0 <= i < g[a]->0.neighbors@[l]@.len()
            && g[a]->0.neighbors@[l]@[i] == b
}

/// Slots one after the other, each linked to the next.
pub open spec fn is_path(g: Seq<Option<VectorEntry>>, p: Seq<int>) -> bool {
    &&& p.len() > 0
    &&& forall|i: int| #![trigger p[i]] 0 <= i < p.len() - 1 ==> linked(g, p[i], p[i + 1])
}

/// Whether links lead from one slot to another.
pub open spec fn reaches(g: Seq<Option<VectorEntry>>, a: int, b: int) -> bool {
    exists|p: Seq<int>| #[trigger] is_path(g, p) && p[0] == a && p.last() == b
}

/// A walk through the graph in search of near vectors.
#[derive(Debug)]
pub struct LayerSearch {
    entry: usize,
    ef: usize,
    known: Vec<Option<i64>>,
    candidates: Vec<usize>,
    results: Vec<usize>,
    current: Option<usize>,
    todo: Vec<usize>,
    at: usize,
    pending: Option<usize>,
    done: bool,
}

/// Whether the distance of a slot is known.
pub open spec fn met(known: Seq<Option<i64>>, v: int) -> bool {
    0 <= v < known.len() && known[v] is Some
}

/// What a search has found: slots with their distances, nearest first. They are the nearest
/// of all slots that were met; all of these can be reached from the entry point, and whatever
/// a found slot links to was met.
pub open spec fn searched(
    g: Seq<Option<VectorEntry>>,
    entry: int,
    ef: nat,
    known: Seq<Option<i64>>,
    found: Seq<(usize, i64)>,
) -> bool {
    &&& known.len() == g.len()
    &&& met(known, entry)
    &&& 0 < found.len() <= ef
    &&& forall|i: int|
        0 <= i < found.len() ==> occupied(g, (#[trigger] found[i]).0 as int) && met(
            known,
            found[i].0 as int,
        ) && known[found[i].0 as int] == Some(found[i].1)
    &&& forall|i: int, j: int|
        0 <= i < j < found.len() ==> (#[trigger] found[i]).0 != (#[trigger] found[j]).0
            && found[i].1 <= found[j].1
    &&& forall|v: int|
        #[trigger] met(known, v) && !(exists|i: int|
            0 <= i < found.len() && (#[trigger] found[i]).0 == v) ==> found.len() == ef
            && found.last().1 <= known[v]->0
    &&& forall|i: int, b: int|
        0 <= i < found.len() && #[trigger] linked(g, (#[trigger] found[i]).0 as int, b) ==> met(
            known,
            b,
        )
    &&& forall|v: int| #[trigger] met(known, v) ==> occupied(g, v) && reaches(g, entry, v)
}

impl LayerSearch {
    /// The distances that are known, slot by slot.
    pub closed spec fn distances(&self) -> Seq<Option<i64>> {
        self.known@
    }

    /// The slot at which the walk began.
    pub closed spec fn start(&self) -> int {
        self.entry as int
    }

    /// How many slots are kept at most.
    pub closed spec fn width(&self) -> nat {
        self.ef as nat
    }

    /// The slot whose distance is wanted.
    pub closed spec fn wanted(&self) -> Option<usize> {
        self.pending
    }

    /// Whether the walk is over.
    pub closed spec fn finished(&self) -> bool {
        self.done
    }

    spec fn nearest_kept(&self) -> bool {
        &&& self.results@.len() <= self.ef
        &&& forall|i: int|
            0 <= i < self.results@.len() ==> met(
                self.known@,
                #[trigger] self.results@[i] as int,
            )
        &&& forall|i: int, j: int|
            0 <= i < j < self.results@.len() ==> #[trigger] self.results@[i]
                != #[trigger] self.results@[j]
        &&& forall|v: usize|
            #[trigger] met(self.known@, v as int) && !self.results@.contains(v)
                ==> self.results@.len() == self.ef && forall|i: int|
                0 <= i < self.results@.len() ==> self.known@[#[trigger] self.results@[i] as int]->0
                    <= self.known@[v as int]->0
    }

    spec fn explored(&self, g: Seq<Option<VectorEntry>>) -> bool {
        forall|v: usize, b: int|
            self.results@.contains(v) && !self.candidates@.contains(v) && self.current != Some(v)
                && #[trigger] linked(g, v as int, b) ==> met(self.known@, b)
    }

    spec fn exploring(&self, g: Seq<Option<VectorEntry>>) -> bool {
        match self.current {
            Some(c) => {
                &&& met(self.known@, c as int)
                &&& self.at <= self.todo@.len()
                &&& forall|b: int| #[trigger]
                    linked(g, c as int, b) ==> met(self.known@, b) || exists|j: int|
                        self.at <= j < self.todo@.len() && #[trigger] self.todo@[j] == b
                &&& forall|j: int|
                    0 <= j < self.todo@.len() && occupied(g, #[trigger] self.todo@[j] as int)
                        ==> linked(g, c as int, self.todo@[j] as int)
                &&& self.pending matches Some(p) ==> self.at < self.todo@.len()
                    && self.todo@[self.at as int] == p && occupied(g, p as int) && !met(
                    self.known@,
                    p as int,
                )
            },
            None => self.pending is None,
        }
    }

    /// Whether the walk belongs to a graph.
    pub closed spec fn wf(&self, g: Seq<Option<VectorEntry>>) -> bool {
        &&& self.ef > 0
        &&& self.known@.len() == g.len()
        &&& met(self.known@, self.entry as int)
        &&& self.results@.len() > 0
        &&& self.nearest_kept()
        &&& forall|i: int|
            0 <= i < self.candidates@.len() ==> met(
                self.known@,
                #[trigger] self.candidates@[i] as int,
            )
        &&& self.exploring(g)
        &&& !self.done ==> self.explored(g)
        &&& self.done ==> self.current is None && forall|v: usize, b: int|
            self.results@.contains(v) && #[trigger] linked(g, v as int, b) ==> met(self.known@, b)
        &&& forall|v: int| #[trigger]
            met(self.known@, v) ==> occupied(g, v) && reaches(g, self.entry as int, v)
    }

    /// Begins a walk at an occupied slot with a known distance.
    pub fn new(index: &VectorIndex, entry: usize, distance: i64, ef: usize) -> (r: Self)
        requires
            occupied(index.graph(), entry as int),
            ef > 0,
        ensures
            r.wf(index.graph()),
            r.start() == entry,
            r.width() == ef,
            !r.finished(),
            r.wanted() is None,
            r.distances() == Seq::new(
                index.graph().len(),
                |i: int|
                    if i == entry {
                        Some(distance)
                    } else {
                        None
                    },
            ),
    {
        let n: usize = index.slots.len();
        let mut known: Vec<Option<i64>> = Vec::new();
        let mut i: usize = 0;
        while i < n
            invariant
                i <= n,
                known@.len() == i,
                forall|j: int| 0 <= j < i ==> #[trigger] known@[j] is None,
            decreases n - i,
        {
            known.push(None);
            i = i + 1;
        }
        known.set(entry, Some(distance));
        let mut candidates: Vec<usize> = Vec::new();
        candidates.push(entry);
        let mut results: Vec<usize> = Vec::new();
        results.push(entry);
        let r = LayerSearch {
            entry,
            ef,
            known,
            candidates,
            results,
            current: None,
            todo: Vec::new(),
            at: 0,
            pending: None,
            done: false,
        };
        proof {
            let g = index.graph();
            assert(r.results@[0] == entry && r.candidates@[0] == entry);
            assert(r.results@.contains(entry));
            assert(r.candidates@.contains(entry));
            assert forall|v: int| #[trigger] met(r.known@, v) implies v == entry && occupied(g, v)
                && reaches(g, r.entry as int, v) by {
                if v != entry {
                    assert(r.known@[v] is None);
                }
                let p = seq![v];
                assert(is_path(g, p));
                assert(p[0] == v && p.last() == v);
            }
            assert forall|v: usize| #[trigger] met(r.known@, v as int) && !r.results@.contains(
                v,
            ) implies false by {}
            assert(r.distances() =~= Seq::new(
                g.len(),
                |i: int|
                    if i == entry {
                        Some(distance)
                    } else {
                        None
                    },
            ));
        }
        r
    }

    /// Largest distance among the results.
    fn worst(&self) -> (r: (usize, i64))
        requires
            self.results@.len() > 0,
            forall|i: int|
                0 <= i < self.results@.len() ==> met(
                    self.known@,
                    #[trigger] self.results@[i] as int,
                ),
        ensures
            r.0 < self.results@.len(),
            r.1 == self.known@[self.results@[r.0 as int] as int]->0,
            forall|i: int|
                0 <= i < self.results@.len() ==> self.known@[#[trigger] self.results@[i] as int]->0
                    <= r.1,
    {
        let mut best: usize = 0;
        let mut value: i64 = self.distance_of(self.results[0]);
        let mut i: usize = 1;
        while i < self.results.len()
            invariant
                i <= self.results@.len(),
                best < self.results@.len(),
                forall|k: int|
                    0 <= k < self.results@.len() ==> met(
                        self.known@,
                        #[trigger] self.results@[k] as int,
                    ),
                value == self.known@[self.results@[best as int] as int]->0,
                forall|k: int|
                    0 <= k < i ==> self.known@[#[trigger] self.results@[k] as int]->0 <= value,
            decreases self.results@.len() - i,
        {
            let d: i64 = self.distance_of(self.results[i]);
            if d > value {
                best = i;
                value = d;
            }
            i = i + 1;
        }
        (best, value)
    }

    fn distance_of(&self, v: usize) -> (r: i64)
        requires
            met(self.known@, v as int),
        ensures
            self.known@[v as int] == Some(r),
    {
        match self.known[v] {
            Some(d) => d,
            None => 0,
        }
    }

    /// Takes the nearest candidate out.
    fn pop_candidate(&mut self) -> (r: Option<usize>)
        requires
            forall|i: int|
                0 <= i < old(self).candidates@.len() ==> met(
                    old(self).known@,
                    #[trigger] old(self).candidates@[i] as int,
                ),
        ensures
            match r {
                Some(c) => {
                    &&& old(self).candidates@.contains(c)
                    &&& final(self).candidates@.len() < old(self).candidates@.len()
                    &&& forall|v: usize|
                        old(self).candidates@.contains(v) ==> v == c || #[trigger] final(self).candidates@.contains(v)
                    &&& forall|i: int|
                        0 <= i < final(self).candidates@.len() ==> old(self).candidates@.contains(
                            #[trigger] final(self).candidates@[i],
                        ) && old(self).known@[c as int]->0 <= old(self).known@[final(self).candidates@[i] as int]->0
                },
                None => old(self).candidates@.len() == 0 && final(self).candidates@.len() == 0,
            },
            *final(self) == (LayerSearch { candidates: final(self).candidates, ..*old(self) }),
    {
        if self.candidates.len() == 0 {
            return None;
        }
        let mut best: usize = 0;
        let mut value: i64 = self.distance_of(self.candidates[0]);
        let mut i: usize = 1;
        while i < self.candidates.len()
            invariant
                *self == *old(self),
                i <= self.candidates@.len(),
                best < self.candidates@.len(),
                forall|k: int|
                    0 <= k < self.candidates@.len() ==> met(
                        self.known@,
                        #[trigger] self.candidates@[k] as int,
                    ),
                value == self.known@[self.candidates@[best as int] as int]->0,
                forall|k: int|
                    0 <= k < i ==> value <= self.known@[#[trigger] self.candidates@[k] as int]->0,
            decreases self.candidates@.len() - i,
        {
            let d: i64 = self.distance_of(self.candidates[i]);
            if d < value {
                best = i;
                value = d;
            }
            i = i + 1;
        }
        let ghost was = self.candidates@;
        let c: usize = self.candidates.remove(best);
        proof {
            let now = self.candidates@;
            assert(was[best as int] == c);
            assert forall|k: int| 0 <= k < now.len() implies was.contains(#[trigger] now[k])
                && self.known@[c as int]->0 <= self.known@[now[k] as int]->0 by {
                if k < best {
                    assert(now[k] == was[k]);
                } else {
                    assert(now[k] == was[k + 1]);
                }
            }
            assert forall|v: usize| was.contains(v) implies v == c || #[trigger] now.contains(v) by {
                let k = choose|k: int| 0 <= k < was.len() && was[k] == v;
                if k < best {
                    assert(now[k] == v);
                } else if k > best {
                    assert(now[k - 1] == v);
                }
            }
        }
        Some(c)
    }

    /// The next slot whose distance is wanted, or nothing once the walk is over.
    pub fn next(&mut self, index: &VectorIndex) -> (r: Option<usize>)
        requires
            old(self).wf(index.graph()),
        ensures
            final(self).wf(index.graph()),
            final(self).start() == old(self).start(),
            final(self).width() == old(self).width(),
            final(self).distances() == old(self).distances(),
            r == final(self).wanted(),
            match r {
                Some(v) => !final(self).finished() && occupied(index.graph(), v as int) && !met(
                    final(self).distances(),
                    v as int,
                ),
                None => final(self).finished(),
            },
    {
        let ghost g = index.graph();
        if self.done {
            return None;
        }
        loop
            invariant
                self.wf(g),
                g == index.graph(),
                self.entry == old(self).entry,
                self.ef == old(self).ef,
                self.known == old(self).known,
                !self.done,
            decreases
                self.candidates@.len(),
                if self.current is Some {
                    1int
                } else {
                    0int
                },
                self.todo@.len() - self.at,
        {
            if let Some(c) = self.current {
                if self.pending.is_some() {
                    return self.pending;
                }
                if self.at < self.todo.len() {
                    let b: usize = self.todo[self.at];
                    if b < index.slots.len() && index.slots[b].is_some() && self.known[b].is_none() {
                        self.pending = Some(b);
                        return Some(b);
                    }
                    let ghost before = *self;
                    self.at = self.at + 1;
                    proof {
                        assert forall|x: int| #[trigger] linked(g, c as int, x) implies met(
                            self.known@,
                            x,
                        ) || exists|j: int|
                            self.at <= j < self.todo@.len() && #[trigger] self.todo@[j] == x by {
                            if !met(self.known@, x) {
                                let j = choose|j: int|
                                    before.at <= j < before.todo@.len() && #[trigger] before.todo@[j]
                                        == x;
                                assert(j != before.at);
                                assert(self.todo@[j] == x);
                            }
                        }
                        assert(self.explored(g));
                    }
                } else {
                    self.current = None;
                    proof {
                        assert forall|v: usize, b: int|
                            self.results@.contains(v) && !self.candidates@.contains(v)
                                && self.current != Some(v) && #[trigger] linked(
                                g,
                                v as int,
                                b,
                            ) implies met(self.known@, b) by {
                            if v == c {
                                assert(linked(g, c as int, b));
                            }
                        }
                    }
                }
            } else {
                let ghost before = *self;
                match self.pop_candidate() {
                    None => {
                        self.done = true;
                        proof {
                            assert forall|v: usize, b: int|
                                self.results@.contains(v) && #[trigger] linked(
                                    g,
                                    v as int,
                                    b,
                                ) implies met(self.known@, b) by {
                                assert(!before.candidates@.contains(v));
                            }
                        }
                        return None;
                    },
                    Some(c) => {
                        let (_, worst) = self.worst();
                        let d: i64 = self.distance_of(c);
                        if d > worst && self.results.len() >= self.ef {
                            self.done = true;
                            proof {
                                assert forall|v: usize, b: int|
                                    self.results@.contains(v) && #[trigger] linked(
                                        g,
                                        v as int,
                                        b,
                                    ) implies met(self.known@, b) by {
                                    let i = choose|i: int|
                                        0 <= i < self.results@.len() && self.results@[i] == v;
                                    assert(self.known@[self.results@[i] as int]->0 <= worst);
                                    if before.candidates@.contains(v) {
                                        assert(v == c || self.candidates@.contains(v));
                                        if v != c {
                                            let k = choose|k: int|
                                                0 <= k < self.candidates@.len()
                                                    && self.candidates@[k] == v;
                                            assert(d <= self.known@[self.candidates@[k] as int]->0);
                                        }
                                    }
                                    assert(linked(g, v as int, b));
                                }
                            }
                            return None;
                        }
                        assert(occupied(g, c as int)) by {
                            assert(met(self.known@, c as int));
                        }
                        self.todo = index.links(c);
                        self.at = 0;
                        self.current = Some(c);
                        proof {
                            assert forall|v: usize, b: int|
                                self.results@.contains(v) && !self.candidates@.contains(v)
                                    && self.current != Some(v) && #[trigger] linked(
                                    g,
                                    v as int,
                                    b,
                                ) implies met(self.known@, b) by {
                                assert(!before.candidates@.contains(v));
                            }
                        }
                    },
                }
            }
        }
    }

    /// Takes the distance of the slot that was wanted.
    pub fn note(&mut self, index: &VectorIndex, distance: i64)
        requires
            old(self).wf(index.graph()),
            old(self).wanted() is Some,
        ensures
            final(self).wf(index.graph()),
            final(self).start() == old(self).start(),
            final(self).width() == old(self).width(),
            final(self).wanted() is None,
            final(self).finished() == old(self).finished(),
            final(self).distances() == old(self).distances().update(
                old(self).wanted()->0 as int,
                Some(distance),
            ),
    {
        let ghost g = index.graph();
        let ghost before = *self;
        if let Some(p) = self.pending {
            let (at, worst) = self.worst();
            let full: bool = self.results.len() >= self.ef;
            let ghost c = self.current->0;
            proof {
                assert(self.current is Some);
                assert(!self.done);
                if self.results@.contains(p) {
                    let i = choose|i: int| 0 <= i < self.results@.len() && self.results@[i] == p;
                    assert(met(self.known@, self.results@[i] as int));
                }
                lemma_reach_step(g, self.entry as int, c as int, p as int);
            }
            let todo: usize = self.todo.len();
            assert(self.at < todo);
            self.known.set(p, Some(distance));
            self.pending = None;
            self.at = self.at + 1;
            if distance < worst || !full {
                self.candidates.push(p);
                if full {
                    self.results.set(at, p);
                } else {
                    self.results.push(p);
                }
            }
            proof {
                lemma_noted(before, *self, g, p, distance, at as int, worst);
            }
        }
    }

    /// The slots that were found, nearest first, with their distances.
    pub fn finish(self, index: &VectorIndex) -> (r: Vec<(usize, i64)>)
        requires
            self.wf(index.graph()),
            self.finished(),
        ensures
            searched(index.graph(), self.start(), self.width(), self.distances(), r@),
    {
        let ghost g = index.graph();
        let mut keys: Vec<i64> = Vec::new();
        let mut i: usize = 0;
        while i < self.results.len()
            invariant
                i <= self.results@.len(),
                keys@.len() == i,
                self.nearest_kept(),
                forall|k: int|
                    0 <= k < i ==> self.known@[self.results@[k] as int] == Some(
                        #[trigger] keys@[k],
                    ),
            decreases self.results@.len() - i,
        {
            keys.push(self.distance_of(self.results[i]));
            i = i + 1;
        }
        let order = order_by(keys.as_slice(), Direction::Ascending);
        let mut out: Vec<(usize, i64)> = Vec::new();
        let mut j: usize = 0;
        while j < order.len()
            invariant
                j <= order@.len(),
                order@.len() == keys@.len() == self.results@.len(),
                forall|k: int| 0 <= k < order@.len() ==> (#[trigger] order@[k]) < keys@.len(),
                out@.len() == j,
                forall|k: int|
                    0 <= k < j ==> #[trigger] out@[k] == (
                        self.results@[order@[k] as int],
                        keys@[order@[k] as int],
                    ),
            decreases order@.len() - j,
        {
            out.push((self.results[order[j]], keys[order[j]]));
            j = j + 1;
        }
        let slots: usize = self.known.len();
        assert(slots == self.known@.len());
        proof {
            lemma_finished(self, g, keys@, order@, out@);
        }
        out
    }
}

/// One more link leads on.
proof fn lemma_reach_step(g: Seq<Option<VectorEntry>>, a: int, b: int, c: int)
    requires
        reaches(g, a, b),
        linked(g, b, c),
    ensures
        reaches(g, a, c),
{
    let p = choose|p: Seq<int>| #[trigger] is_path(g, p) && p[0] == a && p.last() == b;
    let q = p.push(c);
    assert forall|i: int| #![trigger q[i]] 0 <= i < q.len() - 1 implies linked(
        g,
        q[i],
        q[i + 1],
    ) by {
        if i < p.len() - 1 {
            assert(q[i] == p[i] && q[i + 1] == p[i + 1]);
        } else {
            assert(q[i] == p.last());
        }
    }
    assert(is_path(g, q));
    assert(q[0] == a && q.last() == c);
}

proof fn lemma_noted(
    before: LayerSearch,
    after: LayerSearch,
    g: Seq<Option<VectorEntry>>,
    p: usize,
    distance: i64,
    at: int,
    worst: i64,
)
    requires
        before.wf(g),
        before.pending == Some(p),
        before.current is Some,
        !before.done,
        !before.results@.contains(p),
        reaches(g, before.entry as int, p as int),
        0 <= at < before.results@.len(),
        worst == before.known@[before.results@[at] as int]->0,
        forall|i: int|
            0 <= i < before.results@.len() ==> before.known@[#[trigger] before.results@[i] as int]->0
                <= worst,
        ({
            let full = before.results@.len() >= before.ef;
            let better = distance < worst || !full;
            &&& after.entry == before.entry && after.ef == before.ef
            &&& after.known@ == before.known@.update(p as int, Some(distance))
            &&& after.pending is None && after.at == before.at + 1
            &&& after.todo == before.todo && after.current == before.current
            &&& after.done == before.done
            &&& after.candidates@ == (if better {
                before.candidates@.push(p)
            } else {
                before.candidates@
            })
            &&& after.results@ == (if !better {
                before.results@
            } else if full {
                before.results@.update(at, p)
            } else {
                before.results@.push(p)
            })
        }),
    ensures
        after.wf(g),
{
    let full = before.results@.len() >= before.ef;
    let better = distance < worst || !full;
    let c = before.current->0;
    assert(after.known@.len() == before.known@.len());
    assert forall|v: int| #[trigger] met(before.known@, v) implies met(after.known@, v)
        && after.known@[v] == before.known@[v] by {
        assert(v != p);
    }
    assert forall|v: int| #[trigger] met(after.known@, v) implies v == p || met(before.known@, v) by {
        if v != p {
            assert(after.known@[v] == before.known@[v]);
        }
    }
    // The results are the nearest of what was met.
    assert(after.nearest_kept()) by {
        assert forall|i: int| 0 <= i < after.results@.len() implies met(
            after.known@,
            #[trigger] after.results@[i] as int,
        ) by {
            if i < before.results@.len() && after.results@[i] == before.results@[i] {
                assert(met(before.known@, before.results@[i] as int));
            }
        }
        assert forall|i: int, j: int| 0 <= i < j < after.results@.len() implies #[trigger]
        after.results@[i] != #[trigger] after.results@[j] by {
            if i < before.results@.len() {
                assert(before.results@.contains(before.results@[i]));
            }
            if j < before.results@.len() {
                assert(before.results@.contains(before.results@[j]));
            }
        }
        assert forall|v: usize|
            #[trigger] met(after.known@, v as int) && !after.results@.contains(
                v,
            ) implies after.results@.len() == after.ef && forall|i: int|
            0 <= i < after.results@.len() ==> after.known@[#[trigger] after.results@[i] as int]->0
                <= after.known@[v as int]->0 by {
            if v == p {
                if better {
                    if full {
                        assert(after.results@[at] == p);
                    } else {
                        assert(after.results@[before.results@.len() as int] == p);
                    }
                    assert(false);
                }
                assert forall|i: int| 0 <= i < after.results@.len() implies after.known@[
                #[trigger] after.results@[i] as int]->0 <= after.known@[v as int]->0 by {
                    assert(met(before.known@, before.results@[i] as int));
                    assert(before.known@[before.results@[i] as int]->0 <= worst);
                }
            } else {
                assert(met(before.known@, v as int));
                if before.results@.contains(v) {
                    let k = choose|k: int| 0 <= k < before.results@.len() && before.results@[k] == v;
                    if !better {
                        assert(after.results@[k] == v);
                    } else if !full {
                        assert(after.results@[k] == v);
                    } else if k != at {
                        assert(after.results@[k] == v);
                    }
                    assert(better && full && k == at);
                    assert forall|i: int| 0 <= i < after.results@.len() implies after.known@[
                    #[trigger] after.results@[i] as int]->0 <= after.known@[v as int]->0 by {
                        if i != at {
                            assert(met(before.known@, before.results@[i] as int));
                            assert(before.known@[before.results@[i] as int]->0 <= worst);
                        }
                    }
                } else {
                    assert(full);
                    assert forall|i: int| 0 <= i < after.results@.len() implies after.known@[
                    #[trigger] after.results@[i] as int]->0 <= after.known@[v as int]->0 by {
                        if better && i == at {
                            assert(before.known@[before.results@[at] as int]->0
                                <= before.known@[v as int]->0);
                        } else {
                            assert(met(before.known@, before.results@[i] as int));
                            assert(before.known@[before.results@[i] as int]->0
                                <= before.known@[v as int]->0);
                        }
                    }
                }
            }
        }
    }
    // Candidates were met.
    assert forall|i: int| 0 <= i < after.candidates@.len() implies met(
        after.known@,
        #[trigger] after.candidates@[i] as int,
    ) by {
        if i < before.candidates@.len() {
            assert(after.candidates@[i] == before.candidates@[i]);
            assert(met(before.known@, before.candidates@[i] as int));
        }
    }
    // The node under exploration has one link less to follow.
    assert(after.exploring(g)) by {
        assert(met(before.known@, c as int));
        assert forall|b: int| #[trigger] linked(g, c as int, b) implies met(after.known@, b)
            || exists|j: int| after.at <= j < after.todo@.len() && #[trigger] after.todo@[j] == b by {
            if !met(before.known@, b) {
                let j = choose|j: int|
                    before.at <= j < before.todo@.len() && #[trigger] before.todo@[j] == b;
                if j == before.at {
                    assert(b == p);
                } else {
                    assert(after.todo@[j] == b);
                }
            }
        }
    }
    assert(after.explored(g)) by {
        assert forall|v: usize, b: int|
            after.results@.contains(v) && !after.candidates@.contains(v) && after.current != Some(v)
                && #[trigger] linked(g, v as int, b) implies met(after.known@, b) by {
            if better {
                assert(after.candidates@[before.candidates@.len() as int] == p);
            }
            let k = choose|k: int| 0 <= k < after.results@.len() && after.results@[k] == v;
            assert(v != p) by {
                if v == p {
                    assert(better);
                    assert(after.candidates@.contains(p));
                }
            }
            assert(k < before.results@.len() && before.results@[k] == v);
            assert(before.results@.contains(v));
            if before.candidates@.contains(v) {
                let m = choose|m: int| 0 <= m < before.candidates@.len() && before.candidates@[m] == v;
                assert(after.candidates@[m] == v);
            }
            assert(met(before.known@, b));
        }
    }
    assert forall|v: int| #[trigger] met(after.known@, v) implies occupied(g, v) && reaches(
        g,
        after.entry as int,
        v,
    ) by {
        if v != p {
            assert(met(before.known@, v));
        }
    }
    assert(met(before.known@, before.entry as int));
}

proof fn lemma_finished(
    s: LayerSearch,
    g: Seq<Option<VectorEntry>>,
    keys: Seq<i64>,
    order: Seq<usize>,
    out: Seq<(usize, i64)>,
)
    requires
        s.wf(g),
        s.done,
        s.known@.len() <= usize::MAX,
        keys.len() == s.results@.len(),
        forall|k: int|
            0 <= k < keys.len() ==> s.known@[s.results@[k] as int] == Some(#[trigger] keys[k]),
        ordered(keys, Direction::Ascending, order),
        out.len() == order.len(),
        forall|k: int|
            0 <= k < out.len() ==> #[trigger] out[k] == (
                s.results@[order[k] as int],
                keys[order[k] as int],
            ),
    ensures
        searched(g, s.entry as int, s.ef as nat, s.known@, out),
{
    assert forall|i: int| 0 <= i < out.len() implies occupied(g, (#[trigger] out[i]).0 as int)
        && met(s.known@, out[i].0 as int) && s.known@[out[i].0 as int] == Some(out[i].1) by {
        let k = order[i] as int;
        assert(met(s.known@, s.results@[k] as int));
        assert(s.known@[s.results@[k] as int] == Some(keys[k]));
    }
    assert forall|i: int, j: int| 0 <= i < j < out.len() implies (#[trigger] out[i]).0 != (
    #[trigger] out[j]).0 && out[i].1 <= out[j].1 by {
        assert(precedes(keys, Direction::Ascending, order[i] as int, order[j] as int));
        let a = order[i] as int;
        let b = order[j] as int;
        if a < b {
            assert(s.results@[a] != s.results@[b]);
        } else {
            assert(s.results@[b] != s.results@[a]);
        }
    }
    assert forall|v: int|
        #[trigger] met(s.known@, v) && !(exists|i: int|
            0 <= i < out.len() && (#[trigger] out[i]).0 == v) implies out.len() == s.ef
        && out.last().1 <= s.known@[v]->0 by {
        let u = v as usize;
        assert(u == v);
        if s.results@.contains(u) {
            let k = choose|k: int| 0 <= k < s.results@.len() && s.results@[k] == u;
            crate::order::lemma_ordered_is_complete(keys, Direction::Ascending, order, k);
            let i = choose|i: int| 0 <= i < order.len() && #[trigger] order[i] == k;
            assert(out[i].0 == v);
        }
        assert(met(s.known@, u as int));
        let last = order[out.len() - 1] as int;
        assert(out[out.len() - 1] == (s.results@[last], keys[last]));
        assert(s.known@[s.results@[last] as int]->0 <= s.known@[u as int]->0);
        assert(s.known@[s.results@[last] as int] == Some(keys[last]));
    }
    assert forall|i: int, b: int|
        0 <= i < out.len() && #[trigger] linked(g, (#[trigger] out[i]).0 as int, b) implies met(
        s.known@,
        b,
    ) by {
        let k = order[i] as int;
        assert(s.results@.contains(s.results@[k]));
    }
}

/// A vector in the graph, with its lists as sequences.
#[verifier::ext_equal]
pub struct EntryView {
    /// The vector.
    pub vector: Seq<u32>,
    /// Slots of the linked vectors, layer by layer.
    pub neighbors: Seq<Seq<usize>>,
}

impl View for VectorEntry {
    type V = EntryView;

    open spec fn view(&self) -> EntryView {
        EntryView {
            vector: self.vector@,
            neighbors: self.neighbors@.map_values(|l: Vec<usize>| l@),
        }
    }
}

/// A vector that may be there.
pub open spec fn entry_view(e: Option<VectorEntry>) -> Option<EntryView> {
    match e {
        Some(x) => Some(x@),
        None => None,
    }
}

/// The graph with its lists as sequences.
pub open spec fn graph_view(g: Seq<Option<VectorEntry>>) -> Seq<Option<EntryView>> {
    g.map_values(|e: Option<VectorEntry>| entry_view(e))
}

/// Statistics of an index.
#[derive(Debug, Clone, Copy, PartialEq, Eq, Structural)]
pub struct IndexStats {
    /// Number of vectors.
    pub num_vectors: usize,
    /// Dimension of the vectors.
    pub dimension: usize,
    /// Number of links.
    pub total_connections: usize,
    /// Largest number of links of one vector.
    pub max_connections: usize,
    /// Largest number of layers.
    pub max_layers: usize,
}

/// An index of vectors.
///
/// A vector keeps its slot when it is replaced, and a slot that was given up is kept for the
/// identifier that had it.
#[derive(Debug)]
pub struct VectorIndex {
    ids: Vec<NodeId>,
    slots: Vec<Option<VectorEntry>>,
    dimension: usize,
    max_connections: usize,
    max_layers: usize,
    entry_point: Option<usize>,
    metric: DistanceMetric,
}

/// Number of links of a vector.
pub open spec fn link_count(e: EntryView) -> nat {
    layer_total(e.neighbors)
}

/// Number of slots in some lists.
pub open spec fn layer_total(layers: Seq<Seq<usize>>) -> nat
    decreases layers.len(),
{
    if layers.len() == 0 {
        0
    } else {
        layer_total(layers.drop_last()) + layers.last().len()
    }
}

/// Number of vectors in a graph.
pub open spec fn live(g: Seq<Option<EntryView>>) -> nat
    decreases g.len(),
{
    if g.len() == 0 {
        0
    } else {
        live(g.drop_last()) + (if g.last() is Some {
            1nat
        } else {
            0nat
        })
    }
}

/// Number of links in a graph.
pub open spec fn link_total(g: Seq<Option<EntryView>>) -> nat
    decreases g.len(),
{
    if g.len() == 0 {
        0
    } else {
        link_total(g.drop_last()) + (match g.last() {
            Some(e) => link_count(e),
            None => 0nat,
        })
    }
}

/// Largest number of links of one vector in a graph.
pub open spec fn link_max(g: Seq<Option<EntryView>>) -> nat
    decreases g.len(),
{
    if g.len() == 0 {
        0
    } else {
        let head = link_max(g.drop_last());
        match g.last() {
            Some(e) => if link_count(e) > head {
                link_count(e)
            } else {
                head
            },
            None => head,
        }
    }
}

/// First occupied slot from `i` on.
pub open spec fn first_occupied(g: Seq<Option<EntryView>>, i: int) -> Option<usize>
    decreases g.len() - i,
{
    if i >= g.len() {
        None
    } else if g[i] is Some {
        Some(i as usize)
    } else {
        first_occupied(g, i + 1)
    }
}

/// A vector with one more link in its first layer, unless that is full.
pub open spec fn with_link(e: EntryView, slot: usize, max: nat) -> EntryView {
    if e.neighbors[0].len() < max {
        EntryView { neighbors: e.neighbors.update(0, e.neighbors[0].push(slot)), ..e }
    } else {
        e
    }
}

/// A graph in which the vector at one slot links to another, as far as it is there and has
/// room.
pub open spec fn link_added(
    g: Seq<Option<EntryView>>,
    from: usize,
    slot: usize,
    max: nat,
) -> Seq<Option<EntryView>> {
    if from < g.len() && g[from as int] is Some {
        g.update(from as int, Some(with_link(g[from as int]->0, slot, max)))
    } else {
        g
    }
}

/// A graph in which the vectors at some slots link to another.
pub open spec fn links_added(
    g: Seq<Option<EntryView>>,
    near: Seq<usize>,
    slot: usize,
    max: nat,
) -> Seq<Option<EntryView>>
    decreases near.len(),
{
    if near.len() == 0 {
        g
    } else {
        link_added(links_added(g, near.drop_last(), slot, max), near.last(), slot, max)
    }
}

/// The first of some slots, as many as a vector has room for.
pub open spec fn chosen(near: Seq<(usize, i64)>, max: nat) -> Seq<usize> {
    let all = near.map_values(|n: (usize, i64)| n.0);
    if all.len() <= max {
        all
    } else {
        all.take(max as int)
    }
}

/// A vector that was just inserted: it links to the chosen slots in its first layer, and to
/// none in the layers above.
pub open spec fn new_entry(vector: Seq<u32>, layer: nat, near: Seq<usize>) -> EntryView {
    EntryView {
        vector,
        neighbors: Seq::new(
            (layer + 1) as nat,
            |l: int|
                if l == 0 {
                    near
                } else {
                    Seq::empty()
                },
        ),
    }
}

/// The slot of an identifier, or the number of slots where it has none.
pub open spec fn slot_of(ids: Seq<NodeId>, id: Seq<u8>) -> int
    decreases ids.len(),
{
    if ids.len() == 0 {
        0
    } else {
        let s = slot_of(ids.drop_last(), id);
        if s < ids.len() - 1 || ids.last()@ == id {
            s
        } else {
            ids.len() as int
        }
    }
}

/// Slots other than a given one.
pub open spec fn other_slots(l: Seq<usize>, slot: usize) -> Seq<usize> {
    l.filter(|x: usize| x != slot)
}

/// A vector without the links to a slot.
pub open spec fn without_links(e: EntryView, slot: usize) -> EntryView {
    EntryView { neighbors: e.neighbors.map_values(|l: Seq<usize>| other_slots(l, slot)), ..e }
}

/// Whether a vector links to a slot.
pub open spec fn links_to(e: EntryView, slot: int) -> bool {
    exists|l: int, i: int| #![trigger e.neighbors[l][i]]
        0 <= l < e.neighbors.len() && 0 <= i < e.neighbors[l].len() && e.neighbors[l][i] == slot
}

/// A graph without the vector at a slot. The vectors that it linked to no longer link to it.
pub open spec fn vector_removed(g: Seq<Option<EntryView>>, slot: int) -> Seq<Option<EntryView>> {
    Seq::new(
        g.len(),
        |j: int|
            if j == slot {
                None
            } else if g[j] is Some && links_to(g[slot]->0, j) {
                Some(without_links(g[j]->0, slot as usize))
            } else {
                g[j]
            },
    )
}

proof fn lemma_slot_of(ids: Seq<NodeId>, id: Seq<u8>)
    ensures
        0 <= slot_of(ids, id) <= ids.len(),
        slot_of(ids, id) < ids.len() ==> ids[slot_of(ids, id)]@ == id,
        forall|i: int| 0 <= i < slot_of(ids, id) ==> (#[trigger] ids[i])@ != id,
    decreases ids.len(),
{
    if ids.len() > 0 {
        let head = ids.drop_last();
        lemma_slot_of(head, id);
        assert forall|i: int| 0 <= i < slot_of(ids, id) implies (#[trigger] ids[i])@ != id by {
            if i < head.len() {
                assert(head[i] == ids[i]);
            }
        }
    }
}

impl VectorIndex {
    /// The vectors by slot.
    pub closed spec fn graph(&self) -> Seq<Option<VectorEntry>> {
        self.slots@
    }

    /// The identifiers by slot.
    pub closed spec fn id_list(&self) -> Seq<NodeId> {
        self.ids@
    }

    /// The slot at which searches begin.
    pub closed spec fn start(&self) -> Option<usize> {
        self.entry_point
    }

    /// Dimension of the vectors.
    pub closed spec fn width(&self) -> usize {
        self.dimension
    }

    /// Largest number of links in a layer.
    pub closed spec fn room(&self) -> usize {
        self.max_connections
    }

    /// Largest number of layers.
    pub closed spec fn layers(&self) -> usize {
        self.max_layers
    }

    /// How distances are measured.
    pub closed spec fn measure(&self) -> DistanceMetric {
        self.metric
    }

    /// Every slot has its own identifier; searches begin at an occupied slot unless there is
    /// none; every vector has a first layer, with no more links than there is room for.
    pub open spec fn wf(&self) -> bool {
        let g = self.graph();
        &&& self.id_list().len() == g.len()
        &&& forall|i: int, j: int|
            0 <= i < j < g.len() ==> (#[trigger] self.id_list()[i])@ != (
            #[trigger] self.id_list()[j])@
        &&& match self.start() {
            Some(e) => occupied(g, e as int),
            None => forall|i: int| !(#[trigger] occupied(g, i)),
        }
        &&& forall|i: int| #[trigger]
            occupied(g, i) ==> g[i]->0@.neighbors.len() > 0 && g[i]->0@.neighbors[0].len()
                <= self.room()
    }

    /// Creates an index with the usual parameters.
    pub fn new(dimension: usize) -> (r: Self)
        ensures
            r.wf(),
            r.graph().len() == 0,
            r.width() == dimension,
            r.room() == 16,
            r.layers() == 4,
            r.measure() == DistanceMetric::Cosine,
    {
        VectorIndex::with_params(dimension, 16, 4, DistanceMetric::Cosine)
    }

    /// Creates an index.
    pub fn with_params(
        dimension: usize,
        max_connections: usize,
        max_layers: usize,
        metric: DistanceMetric,
    ) -> (r: Self)
        ensures
            r.wf(),
            r.graph().len() == 0,
            r.width() == dimension,
            r.room() == max_connections,
            r.layers() == max_layers,
            r.measure() == metric,
    {
        VectorIndex {
            ids: Vec::new(),
            slots: Vec::new(),
            dimension,
            max_connections,
            max_layers,
            entry_point: None,
            metric,
        }
    }

    /// A copy of all links of a slot, layer after layer.
    fn links(&self, c: usize) -> (r: Vec<usize>)
        requires
            occupied(self.graph(), c as int),
        ensures
            forall|b: int| #[trigger]
                linked(self.graph(), c as int, b) ==> exists|j: int|
                    0 <= j < r@.len() && #[trigger] r@[j] == b,
            forall|j: int|
                0 <= j < r@.len() && occupied(self.graph(), #[trigger] r@[j] as int) ==> linked(
                    self.graph(),
                    c as int,
                    r@[j] as int,
                ),
    {
        let ghost g = self.graph();
        let mut out: Vec<usize> = Vec::new();
        if let Some(entry) = &self.slots[c] {
            let mut l: usize = 0;
            while l < entry.neighbors.len()
                invariant
                    l <= entry.neighbors@.len(),
                    g == self.graph(),
                    occupied(g, c as int),
                    g[c as int] == Some(*entry),
                    forall|m: int, i: int| #![trigger entry.neighbors@[m]@[i]]
                        0 <= m < l && 0 <= i < entry.neighbors@[m]@.len() ==> out@.contains(
                            entry.neighbors@[m]@[i],
                        ),
                    forall|j: int|
                        0 <= j < out@.len() && occupied(g, #[trigger] out@[j] as int) ==> linked(
                            g,
                            c as int,
                            out@[j] as int,
                        ),
                decreases entry.neighbors@.len() - l,
            {
                let layer = &entry.neighbors[l];
                let mut i: usize = 0;
                while i < layer.len()
                    invariant
                        i <= layer@.len(),
                        l < entry.neighbors@.len(),
                        *layer == entry.neighbors@[l as int],
                        g == self.graph(),
                        occupied(g, c as int),
                        g[c as int] == Some(*entry),
                        forall|m: int, k: int| #![trigger entry.neighbors@[m]@[k]]
                            0 <= m < l && 0 <= k < entry.neighbors@[m]@.len() ==> out@.contains(
                                entry.neighbors@[m]@[k],
                            ),
                        forall|k: int|
                            0 <= k < i ==> out@.contains(#[trigger] layer@[k]),
                        forall|j: int|
                            0 <= j < out@.len() && occupied(g, #[trigger] out@[j] as int)
                                ==> linked(g, c as int, out@[j] as int),
                    decreases layer@.len() - i,
                {
                    let ghost was = out@;
                    out.push(layer[i]);
                    proof {
                        assert(out@[was.len() as int] == layer@[i as int]);
                        assert forall|x: usize| was.contains(x) implies out@.contains(x) by {
                            let k = choose|k: int| 0 <= k < was.len() && was[k] == x;
                            assert(out@[k] == x);
                        }
                        assert(g[c as int]->0.neighbors@[l as int]@[i as int] == layer@[i as int]);
                    }
                    i = i + 1;
                }
                l = l + 1;
            }
        }
        proof {
            assert forall|b: int| #[trigger] linked(g, c as int, b) implies exists|j: int|
                0 <= j < out@.len() && #[trigger] out@[j] == b by {
                let (l, i) = choose|l: int, i: int| #![trigger g[c as int]->0.neighbors@[l]@[i]]
                    0 <= l < g[c as int]->0.neighbors@.len() && 0 <= i < g[c as
                    int]->0.neighbors@[l]@.len() && g[c as int]->0.neighbors@[l]@[i] == b;
                assert(out@.contains(g[c as int]->0.neighbors@[l]@[i]));
            }
        }
        out
    }

    /// Number of vectors.
    pub fn len(&self) -> (r: usize)
        ensures
            r == live(graph_view(self.graph())),
    {
        let ghost g = graph_view(self.graph());
        let mut n: usize = 0;
        let mut i: usize = 0;
        while i < self.slots.len()
            invariant
                i <= self.slots@.len(),
                g == graph_view(self.slots@),
                n == live(g.take(i as int)),
                n <= i,
            decreases self.slots@.len() - i,
        {
            proof {
                assert(g.take(i + 1).drop_last() =~= g.take(i as int));
                assert(g.take(i + 1).last() == entry_view(self.slots@[i as int]));
            }
            if self.slots[i].is_some() {
                n = n + 1;
            }
            i = i + 1;
        }
        assert(g.take(i as int) =~= g);
        n
    }

    /// Whether there is no vector.
    pub fn is_empty(&self) -> (r: bool)
        requires
            self.wf(),
        ensures
            r == (live(graph_view(self.graph())) == 0),
    {
        let ghost g = graph_view(self.graph());
        match self.entry_point {
            Some(e) => {
                proof {
                    assert(g[e as int] is Some);
                    lemma_live_some(g, e as int);
                }
                false
            },
            None => {
                proof {
                    assert forall|i: int| 0 <= i < g.len() implies (#[trigger] g[i]) is None by {
                        assert(!occupied(self.graph(), i));
                    }
                    lemma_live_none(g);
                }
                true
            },
        }
    }

    /// Dimension of the vectors.
    pub fn dimension(&self) -> (r: usize)
        ensures
            r == self.width(),
    {
        self.dimension
    }

    /// Largest number of links of a vector in a layer.
    pub fn max_connections(&self) -> (r: usize)
        ensures
            r == self.room(),
    {
        self.max_connections
    }

    /// How distances are measured.
    pub fn metric(&self) -> (r: DistanceMetric)
        ensures
            r == self.measure(),
    {
        self.metric
    }

    /// The vector at an occupied slot.
    pub fn vector(&self, slot: usize) -> (r: Option<&[u32]>)
        ensures
            match r {
                Some(v) => occupied(self.graph(), slot as int) && v@
                    == self.graph()[slot as int]->0@.vector,
                None => !occupied(self.graph(), slot as int),
            },
    {
        if slot < self.slots.len() {
            match &self.slots[slot] {
                Some(e) => Some(e.vector.as_slice()),
                None => None,
            }
        } else {
            None
        }
    }

    /// The layer of a new vector: a level, cut to the layers that there are.
    pub fn cut_layer(&self, level: usize) -> (r: usize)
        requires
            self.layers() > 0,
        ensures
            r == (if level < self.layers() {
                level
            } else {
                (self.layers() - 1) as usize
            }),
    {
        if level < self.max_layers {
            level
        } else {
            self.max_layers - 1
        }
    }

    /// Where an insertion begins to look for near vectors: nowhere in an empty index. Fails
    /// where the dimension does not fit.
    pub fn begin_insert(&self, dimension: usize) -> (r: Result<Option<usize>, VectorIndexError>)
        ensures
            r == (if dimension != self.width() {
                Err::<Option<usize>, VectorIndexError>(
                    VectorIndexError::Vector { expected: self.width(), got: dimension },
                )
            } else {
                Ok(self.start())
            }),
    {
        if dimension != self.dimension {
            return Err(VectorIndexError::Vector { expected: self.dimension, got: dimension });
        }
        Ok(self.entry_point)
    }

    /// Where a search begins and how many near vectors it keeps: nowhere in an empty index.
    /// Fails where the dimension does not fit.
    pub fn search(&self, dimension: usize, k: usize) -> (r: Result<
        Option<(usize, usize)>,
        VectorIndexError,
    >)
        ensures
            r == (if dimension != self.width() {
                Err::<Option<(usize, usize)>, VectorIndexError>(
                    VectorIndexError::Query { expected: self.width(), got: dimension },
                )
            } else {
                match self.start() {
                    Some(e) => Ok(
                        Some(
                            (
                                e,
                                if k > EF_CONSTRUCTION {
                                    k
                                } else {
                                    EF_CONSTRUCTION
                                },
                            ),
                        ),
                    ),
                    None => Ok(None),
                }
            }),
    {
        if dimension != self.dimension {
            return Err(VectorIndexError::Query { expected: self.dimension, got: dimension });
        }
        match self.entry_point {
            Some(e) => {
                let ef: usize = if k > EF_CONSTRUCTION {
                    k
                } else {
                    EF_CONSTRUCTION
                };
                Ok(Some((e, ef)))
            },
            None => Ok(None),
        }
    }

    /// The nearest of the vectors that a search found, by identifier.
    pub fn nearest(&self, found: &[(usize, i64)], k: usize) -> (r: Vec<(NodeId, i64)>)
        requires
            forall|i: int|
                0 <= i < found@.len() ==> (#[trigger] found@[i]).0 < self.id_list().len(),
        ensures
            r@ == Seq::new(
                if k < found@.len() {
                    k as nat
                } else {
                    found@.len()
                },
                |i: int| (self.id_list()[found@[i].0 as int], found@[i].1),
            ),
    {
        let n: usize = if k < found.len() {
            k
        } else {
            found.len()
        };
        let mut out: Vec<(NodeId, i64)> = Vec::new();
        let mut i: usize = 0;
        while i < n
            invariant
                i <= n <= found@.len(),
                forall|j: int|
                    0 <= j < found@.len() ==> (#[trigger] found@[j]).0 < self.id_list().len(),
                out@.len() == i,
                forall|j: int|
                    0 <= j < i ==> #[trigger] out@[j] == (
                        self.id_list()[found@[j].0 as int],
                        found@[j].1,
                    ),
            decreases n - i,
        {
            out.push((self.ids[found[i].0], found[i].1));
            i = i + 1;
        }
        out
    }

    fn find_slot(&self, id: &NodeId) -> (r: usize)
        ensures
            r == slot_of(self.ids@, id@),
    {
        proof {
            lemma_slot_of(self.ids@, id@);
        }
        let mut i: usize = 0;
        while i < self.ids.len()
            invariant
                i <= self.ids@.len(),
                forall|j: int| 0 <= j < i ==> (#[trigger] self.ids@[j])@ != id@,
                0 <= slot_of(self.ids@, id@) <= self.ids@.len(),
                slot_of(self.ids@, id@) < self.ids@.len() ==> self.ids@[slot_of(
                    self.ids@,
                    id@,
                )]@ == id@,
                forall|j: int|
                    0 <= j < slot_of(self.ids@, id@) ==> (#[trigger] self.ids@[j])@ != id@,
            decreases self.ids@.len() - i,
        {
            if self.ids[i].same(id) {
                assert(self.ids@[i as int]@ == id@);
                return i;
            }
            i = i + 1;
        }
        i
    }

    /// Inserts a vector that links to near vectors, and lets these link back where they have
    /// room. Searches then begin at the new vector if it is the first, or lies in a layer
    /// above the lowest.
    pub fn insert(&mut self, id: NodeId, vector: Vec<u32>, layer: usize, near: &[(usize, i64)])
        requires
            old(self).wf(),
            layer < usize::MAX,
        ensures
            final(self).wf(),
            final(self).width() == old(self).width(),
            final(self).room() == old(self).room(),
            final(self).layers() == old(self).layers(),
            final(self).measure() == old(self).measure(),
            ({
                let s = slot_of(old(self).id_list(), id@);
                let links = chosen(near@, old(self).room() as nat);
                let fresh = s == old(self).id_list().len();
                let g = graph_view(old(self).graph());
                let base = if fresh {
                    g.push(None)
                } else {
                    g
                };
                &&& final(self).id_list() == (if fresh {
                    old(self).id_list().push(id)
                } else {
                    old(self).id_list()
                })
                &&& graph_view(final(self).graph()) == links_added(
                    base,
                    links,
                    s as usize,
                    old(self).room() as nat,
                ).update(s, Some(new_entry(vector@, layer as nat, links)))
                &&& final(self).start() == (if old(self).start() is None || layer > 0 {
                    Some(s as usize)
                } else {
                    old(self).start()
                })
            }),
            inserted(*old(self), *final(self), id, vector@, layer as nat, near@),
            exists|s: int|
                0 <= s < final(self).id_list().len() && (#[trigger] final(self).id_list()[s])@
                    == id@ && occupied(final(self).graph(), s)
                    && final(self).graph()[s]->0.vector@ == vector@ && forall|k: int|
                    0 <= k < near@.len() && k < old(self).room() && occupied(
                        old(self).graph(),
                        near@[k].0 as int,
                    ) && near@[k].0 != s ==> {
                        let from = (#[trigger] near@[k]).0 as int;
                        &&& linked(final(self).graph(), s, from)
                        &&& old(self).graph()[from]->0.neighbors@[0]@.len() < old(self).room()
                            ==> linked(final(self).graph(), from, s)
                    },
    {
        let s: usize = self.find_slot(&id);
        proof {
            lemma_slot_of(self.ids@, id@);
        }
        let ghost g = graph_view(self.slots@);
        let ghost old_ids = self.ids@;
        let ghost max = self.max_connections as nat;
        let fresh: bool = s == self.ids.len();
        if fresh {
            self.ids.push(id);
            self.slots.push(None);
        }
        let ghost base = if fresh {
            g.push(None)
        } else {
            g
        };
        let ghost links = chosen(near@, max);
        let n: usize = if near.len() <= self.max_connections {
            near.len()
        } else {
            self.max_connections
        };
        let mut own: Vec<usize> = Vec::new();
        let ghost ids = self.ids@;
        let ghost frame = *self;
        proof {
            assert(graph_view(self.slots@) =~= base);
            assert(links.take(0) =~= Seq::<usize>::empty());
            assert(own@ =~= links.take(0));
            assert forall|i: int| #[trigger] occupied(self.slots@, i) implies first_layer_fits(
                self.slots@[i],
                max,
            ) by {
                assert(occupied(old(self).slots@, i));
                assert(self.slots@[i] == old(self).slots@[i]);
            }
        }
        let mut i: usize = 0;
        while i < n
            invariant
                i <= n <= near@.len(),
                n == links.len(),
                n <= max,
                max == self.max_connections,
                links == chosen(near@, max),
                own@ == links.take(i as int),
                self.ids@ == ids,
                self.slots@.len() == base.len(),
                s < self.slots@.len(),
                graph_view(self.slots@) == links_added(base, links.take(i as int), s, max),
                forall|j: int| #[trigger]
                    occupied(self.slots@, j) ==> first_layer_fits(self.slots@[j], max),
                self.dimension == frame.dimension,
                self.max_layers == frame.max_layers,
                self.entry_point == frame.entry_point,
                self.metric == frame.metric,
                self.max_connections == frame.max_connections,
            decreases n - i,
        {
            let from: usize = near[i].0;
            proof {
                assert(links[i as int] == from);
                assert(links.take(i + 1).drop_last() =~= links.take(i as int));
                assert(links.take(i + 1).last() == from);
                assert(links.take(i + 1) =~= links.take(i as int).push(from));
            }
            own.push(from);
            self.link_back(from, s);
            i = i + 1;
        }
        assert(links.take(n as int) =~= links);
        let entry = make_entry(vector, own, layer);
        let ghost linked_slots = self.slots@;
        self.slots.set(s, Some(entry));
        if self.entry_point.is_none() || layer > 0 {
            self.entry_point = Some(s);
        }
        proof {
            let added = links_added(base, links, s, max);
            lemma_links_keep(base, links, s, max);
            assert(graph_view(self.slots@) =~= added.update(s as int, Some(entry@)));
            assert forall|i: int| #[trigger] occupied(
                self.slots@,
                i,
            ) implies self.slots@[i]->0@.neighbors.len() > 0
                && self.slots@[i]->0@.neighbors[0].len() <= max by {
                if i == s {
                    assert(self.slots@[i] == Some(entry));
                } else {
                    assert(self.slots@[i] == linked_slots[i]);
                    assert(occupied(linked_slots, i));
                }
            }
            assert forall|i: int, j: int| 0 <= i < j < self.ids@.len() implies (
            #[trigger] self.ids@[i])@ != (#[trigger] self.ids@[j])@ by {
                if j < old_ids.len() {
                    assert(old(self).id_list()[i]@ != old(self).id_list()[j]@);
                } else {
                    assert(old_ids[i]@ != id@);
                }
            }
            match self.entry_point {
                Some(e) => {
                    if e != s {
                        assert(old(self).start() == Some(e));
                        assert(occupied(old(self).graph(), e as int));
                        assert(base[e as int] is Some);
                        assert(added[e as int] is Some);
                        assert(graph_view(self.slots@)[e as int] is Some);
                    }
                },
                None => {},
            }
            assert(inserted(*old(self), *self, id, vector@, layer as nat, near@));
            assert(self.ids@[s as int]@ == id@);
            assert(self.slots.len() == self.slots@.len());
            law_insertion_links_both_ways(
                *old(self),
                *self,
                id,
                vector@,
                layer as nat,
                near@,
                s as int,
            );
            assert forall|k: int|
                0 <= k < near@.len() && k < old(self).room() && occupied(
                    old(self).graph(),
                    near@[k].0 as int,
                ) && near@[k].0 != s implies {
                let from = (#[trigger] near@[k]).0 as int;
                &&& linked(self.graph(), s as int, from)
                &&& old(self).graph()[from]->0.neighbors@[0]@.len() < old(self).room() ==> linked(
                    self.graph(),
                    from,
                    s as int,
                )
            } by {
                assert(occupied(old(self).graph(), near@[k].0 as int));
                assert(self.graph()[s as int]->0.neighbors@[0]@[k] == near@[k].0);
            }
            assert(self.id_list()[s as int]@ == id@);
        }
    }

    fn link_back(&mut self, from: usize, slot: usize)
        requires
            forall|j: int| #[trigger]
                occupied(old(self).slots@, j) ==> first_layer_fits(
                    old(self).slots@[j],
                    old(self).max_connections as nat,
                ),
        ensures
            graph_view(final(self).slots@) == link_added(
                graph_view(old(self).slots@),
                from,
                slot,
                old(self).max_connections as nat,
            ),
            forall|j: int| #[trigger]
                occupied(final(self).slots@, j) ==> first_layer_fits(
                    final(self).slots@[j],
                    old(self).max_connections as nat,
                ),
            *final(self) == (VectorIndex { slots: final(self).slots, ..*old(self) }),
            final(self).slots@.len() == old(self).slots@.len(),
    {
        let ghost was = self.slots@;
        let max: usize = self.max_connections;
        if from < self.slots.len() {
            let mut taken: Option<VectorEntry> = None;
            std::mem::swap(&mut taken, &mut self.slots[from]);
            if let Some(entry) = taken {
                let mut entry = entry;
                let ghost before = entry;
                proof {
                    assert(occupied(was, from as int));
                    assert(was[from as int] == Some(entry));
                }
                if entry.neighbors[0].len() < max {
                    entry.neighbors[0].push(slot);
                    proof {
                        assert(entry@.neighbors =~= before@.neighbors.update(
                            0,
                            before@.neighbors[0].push(slot),
                        ));
                    }
                }
                assert(entry@ == with_link(before@, slot, max as nat));
                self.slots.set(from, Some(entry));
            }
            proof {
                let want = link_added(graph_view(was), from, slot, max as nat);
                assert(graph_view(self.slots@) =~= want) by {
                    assert forall|j: int| 0 <= j < want.len() implies graph_view(self.slots@)[j]
                        == want[j] by {
                        if j != from {
                            assert(self.slots@[j] == was[j]);
                        }
                    }
                }
                assert forall|j: int| #[trigger] occupied(
                    self.slots@,
                    j,
                ) implies first_layer_fits(self.slots@[j], max as nat) by {
                    if j != from {
                        assert(self.slots@[j] == was[j]);
                        assert(occupied(was, j));
                    }
                }
            }
        }
    }
}

impl VectorIndex {
    /// Removes a vector. The vectors that it linked to no longer link to it; where searches
    /// began at it, they begin at the first slot that is left.
    pub fn remove(&mut self, id: &NodeId) -> (r: bool)
        requires
            old(self).wf(),
        ensures
            final(self).wf(),
            r == occupied(old(self).graph(), slot_of(old(self).id_list(), id@)),
            !r ==> *final(self) == *old(self),
            r ==> {
                let s = slot_of(old(self).id_list(), id@);
                &&& final(self).width() == old(self).width()
                &&& final(self).room() == old(self).room()
                &&& final(self).layers() == old(self).layers()
                &&& final(self).measure() == old(self).measure()
                &&& final(self).id_list() == old(self).id_list()
                &&& graph_view(final(self).graph()) == vector_removed(
                    graph_view(old(self).graph()),
                    s,
                )
                &&& final(self).start() == (if old(self).start() == Some(s as usize) {
                    first_occupied(graph_view(final(self).graph()), 0)
                } else {
                    old(self).start()
                })
            },
    {
        let s: usize = self.find_slot(id);
        if s >= self.slots.len() || self.slots[s].is_none() {
            return false;
        }
        let ghost g = graph_view(self.slots@);
        let links = self.links_of(s);
        let slots: usize = self.slots.len();
        let ghost base = g.update(s as int, None);
        self.slots.set(s, None);
        let ghost frame = *self;
        let mut i: usize = 0;
        proof {
            assert(graph_view(self.slots@) =~= base);
            assert(unlinked(base, links@.take(0), s) =~= base);
        }
        while i < links.len()
            invariant
                i <= links@.len(),
                base.len() == slots,
                graph_view(self.slots@) == unlinked(base, links@.take(i as int), s),
                *self == (VectorIndex { slots: self.slots, ..frame }),
            decreases links@.len() - i,
        {
            let ghost done = links@.take(i as int);
            proof {
                assert(links@.take(i + 1) =~= done.push(links@[i as int]));
                lemma_unlinked_push(base, done, links@[i as int], s);
            }
            self.unlink(links[i], s);
            i = i + 1;
        }
        assert(links@.take(i as int) =~= links@);
        let ghost unlinked_slots = self.slots@;
        proof {
            assert(graph_view(self.slots@) =~= vector_removed(g, s as int)) by {
                let u = unlinked(base, links@, s);
                let w = vector_removed(g, s as int);
                assert forall|j: int| 0 <= j < w.len() implies u[j] == w[j] by {
                    if j != s {
                        assert(base[j] == g[j]);
                        if links@.contains(j as usize) {
                            assert(links_to(g[s as int]->0, j));
                        }
                    }
                }
            }
        }
        let moved: bool = match self.entry_point {
            Some(e) => e == s,
            None => false,
        };
        if moved {
            self.entry_point = self.first_slot();
        }
        proof {
            let now = graph_view(self.slots@);
            assert forall|j: int| #[trigger] occupied(
                self.slots@,
                j,
            ) implies self.slots@[j]->0@.neighbors.len() > 0
                && self.slots@[j]->0@.neighbors[0].len() <= self.max_connections by {
                assert(now[j] is Some);
                assert(g[j] is Some);
                assert(occupied(old(self).graph(), j));
                if links_to(g[s as int]->0, j) {
                    let e = g[j]->0;
                    assert(now[j]->0 == without_links(e, s));
                    lemma_other_slots(e.neighbors[0], s);
                }
            }
            if !moved {
                match self.entry_point {
                    Some(e) => {
                        assert(occupied(old(self).graph(), e as int));
                        assert(now[e as int] is Some);
                    },
                    None => {
                        assert(!occupied(old(self).graph(), s as int));
                    },
                }
            }
        }
        true
    }

    fn first_slot(&self) -> (r: Option<usize>)
        ensures
            r == first_occupied(graph_view(self.slots@), 0),
            match r {
                Some(e) => occupied(self.slots@, e as int),
                None => forall|i: int| !(#[trigger] occupied(self.slots@, i)),
            },
    {
        let ghost g = graph_view(self.slots@);
        let mut i: usize = 0;
        while i < self.slots.len()
            invariant
                i <= self.slots@.len(),
                g == graph_view(self.slots@),
                first_occupied(g, 0) == first_occupied(g, i as int),
                forall|j: int| 0 <= j < i ==> (#[trigger] self.slots@[j]) is None,
            decreases self.slots@.len() - i,
        {
            assert(g[i as int] == entry_view(self.slots@[i as int]));
            if self.slots[i].is_some() {
                return Some(i);
            }
            i = i + 1;
        }
        None
    }

    fn links_of(&self, s: usize) -> (r: Vec<usize>)
        requires
            s < self.slots@.len(),
            self.slots@[s as int] is Some,
        ensures
            forall|j: usize|
                r@.contains(j) <==> links_to(
                    #[trigger] graph_view(self.slots@)[s as int]->0,
                    j as int,
                ),
    {
        let ghost e = graph_view(self.slots@)[s as int]->0;
        let mut out: Vec<usize> = Vec::new();
        if let Some(entry) = &self.slots[s] {
            assert(e == entry@);
            let mut l: usize = 0;
            while l < entry.neighbors.len()
                invariant
                    l <= entry.neighbors@.len(),
                    e == entry@,
                    forall|m: int, i: int| #![trigger e.neighbors[m][i]]
                        0 <= m < l && 0 <= i < e.neighbors[m].len() ==> out@.contains(
                            e.neighbors[m][i],
                        ),
                    forall|j: int|
                        0 <= j < out@.len() ==> links_to(e, #[trigger] out@[j] as int),
                decreases entry.neighbors@.len() - l,
            {
                let layer = &entry.neighbors[l];
                assert(e.neighbors[l as int] == layer@);
                let mut i: usize = 0;
                while i < layer.len()
                    invariant
                        i <= layer@.len(),
                        l < entry.neighbors@.len(),
                        e == entry@,
                        e.neighbors[l as int] == layer@,
                        forall|m: int, k: int| #![trigger e.neighbors[m][k]]
                            0 <= m < l && 0 <= k < e.neighbors[m].len() ==> out@.contains(
                                e.neighbors[m][k],
                            ),
                        forall|k: int| 0 <= k < i ==> out@.contains(#[trigger] layer@[k]),
                        forall|j: int|
                            0 <= j < out@.len() ==> links_to(e, #[trigger] out@[j] as int),
                    decreases layer@.len() - i,
                {
                    let ghost was = out@;
                    out.push(layer[i]);
                    proof {
                        assert(out@[was.len() as int] == layer@[i as int]);
                        assert forall|x: usize| was.contains(x) implies out@.contains(x) by {
                            let k = choose|k: int| 0 <= k < was.len() && was[k] == x;
                            assert(out@[k] == x);
                        }
                        assert(e.neighbors[l as int][i as int] == layer@[i as int]);
                        assert forall|j: int| 0 <= j < out@.len() implies links_to(
                            e,
                            #[trigger] out@[j] as int,
                        ) by {
                            if j < was.len() {
                                assert(was[j] == out@[j]);
                            }
                        }
                    }
                    i = i + 1;
                }
                l = l + 1;
            }
            proof {
                assert forall|j: usize| links_to(e, j as int) implies out@.contains(j) by {
                    let (m, i) = choose|m: int, i: int| #![trigger e.neighbors[m][i]]
                        0 <= m < e.neighbors.len() && 0 <= i < e.neighbors[m].len()
                            && e.neighbors[m][i] == j;
                    assert(out@.contains(e.neighbors[m][i]));
                }
                assert forall|j: usize| out@.contains(j) implies links_to(e, j as int) by {
                    let k = choose|k: int| 0 <= k < out@.len() && out@[k] == j;
                    assert(links_to(e, out@[k] as int));
                }
            }
        }
        out
    }

    fn unlink(&mut self, from: usize, slot: usize)
        ensures
            graph_view(final(self).slots@) == link_removed(
                graph_view(old(self).slots@),
                from,
                slot,
            ),
            *final(self) == (VectorIndex { slots: final(self).slots, ..*old(self) }),
    {
        let ghost was = self.slots@;
        if from < self.slots.len() {
            let mut taken: Option<VectorEntry> = None;
            std::mem::swap(&mut taken, &mut self.slots[from]);
            if let Some(entry) = taken {
                let VectorEntry { vector, neighbors } = entry;
                let mut layers: Vec<Vec<usize>> = Vec::new();
                let mut l: usize = 0;
                while l < neighbors.len()
                    invariant
                        l <= neighbors@.len(),
                        layers@.len() == l,
                        forall|k: int|
                            0 <= k < l ==> (#[trigger] layers@[k])@ == other_slots(
                                neighbors@[k]@,
                                slot,
                            ),
                    decreases neighbors@.len() - l,
                {
                    layers.push(without(&neighbors[l], slot));
                    l = l + 1;
                }
                let cut = VectorEntry { vector, neighbors: layers };
                proof {
                    assert(was[from as int]->0 == entry);
                    assert(cut@.neighbors =~= without_links(entry@, slot).neighbors);
                }
                self.slots.set(from, Some(cut));
            }
            proof {
                let want = link_removed(graph_view(was), from, slot);
                assert forall|j: int| 0 <= j < want.len() implies graph_view(self.slots@)[j]
                    == want[j] by {
                    if j != from {
                        assert(self.slots@[j] == was[j]);
                    }
                }
                assert(graph_view(self.slots@) =~= want);
            }
        }
    }

    /// Statistics of the index.
    pub fn stats(&self) -> (r: IndexStats)
        requires
            link_total(graph_view(self.graph())) <= usize::MAX,
        ensures
            r == (IndexStats {
                num_vectors: live(graph_view(self.graph())) as usize,
                dimension: self.width(),
                total_connections: link_total(graph_view(self.graph())) as usize,
                max_connections: link_max(graph_view(self.graph())) as usize,
                max_layers: self.layers(),
            }),
    {
        let ghost g = graph_view(self.graph());
        let mut total: usize = 0;
        let mut max: usize = 0;
        let mut i: usize = 0;
        while i < self.slots.len()
            invariant
                i <= self.slots@.len(),
                g == graph_view(self.slots@),
                link_total(g) <= usize::MAX,
                total == link_total(g.take(i as int)),
                max == link_max(g.take(i as int)),
            decreases self.slots@.len() - i,
        {
            proof {
                assert(g.take(i + 1).drop_last() =~= g.take(i as int));
                assert(g.take(i + 1).last() == entry_view(self.slots@[i as int]));
                lemma_link_total_take(g, i + 1);
            }
            if let Some(entry) = &self.slots[i] {
                let n: usize = count_links(&entry.neighbors, Ghost(entry@.neighbors));
                total = total + n;
                if n > max {
                    max = n;
                }
            }
            i = i + 1;
        }
        assert(g.take(i as int) =~= g);
        IndexStats {
            num_vectors: self.len(),
            dimension: self.dimension,
            total_connections: total,
            max_connections: max,
            max_layers: self.max_layers,
        }
    }
}

fn count_links(neighbors: &Vec<Vec<usize>>, Ghost(layers): Ghost<Seq<Seq<usize>>>) -> (r: usize)
    requires
        layers == neighbors@.map_values(|l: Vec<usize>| l@),
        layer_total(layers) <= usize::MAX,
    ensures
        r == layer_total(layers),
{
    let mut n: usize = 0;
    let mut l: usize = 0;
    while l < neighbors.len()
        invariant
            l <= neighbors@.len(),
            layers == neighbors@.map_values(|l: Vec<usize>| l@),
            layer_total(layers) <= usize::MAX,
            n == layer_total(layers.take(l as int)),
        decreases neighbors@.len() - l,
    {
        proof {
            assert(layers.take(l + 1).drop_last() =~= layers.take(l as int));
            assert(layers.take(l + 1).last() == neighbors@[l as int]@);
            lemma_layer_total_take(layers, l + 1);
        }
        n = n + neighbors[l].len();
        l = l + 1;
    }
    assert(layers.take(l as int) =~= layers);
    n
}

proof fn lemma_layer_total_take(layers: Seq<Seq<usize>>, n: int)
    requires
        0 <= n <= layers.len(),
    ensures
        layer_total(layers.take(n)) <= layer_total(layers),
    decreases layers.len() - n,
{
    if n < layers.len() {
        lemma_layer_total_take(layers, n + 1);
        assert(layers.take(n + 1).drop_last() =~= layers.take(n));
    } else {
        assert(layers.take(n) =~= layers);
    }
}

proof fn lemma_link_total_take(g: Seq<Option<EntryView>>, n: int)
    requires
        0 <= n <= g.len(),
    ensures
        link_total(g.take(n)) <= link_total(g),
    decreases g.len() - n,
{
    if n < g.len() {
        lemma_link_total_take(g, n + 1);
        assert(g.take(n + 1).drop_last() =~= g.take(n));
    } else {
        assert(g.take(n) =~= g);
    }
}

fn without(list: &Vec<usize>, slot: usize) -> (r: Vec<usize>)
    ensures
        r@ == other_slots(list@, slot),
{
    let mut out: Vec<usize> = Vec::new();
    let mut i: usize = 0;
    assert(other_slots(list@.take(0), slot) =~= Seq::<usize>::empty()) by {
        reveal(Seq::filter);
    }
    while i < list.len()
        invariant
            i <= list@.len(),
            out@ == other_slots(list@.take(i as int), slot),
        decreases list@.len() - i,
    {
        proof {
            assert(list@.take(i + 1) =~= list@.take(i as int).push(list@[i as int]));
            lemma_other_slots_push(list@.take(i as int), list@[i as int], slot);
        }
        if list[i] != slot {
            out.push(list[i]);
        }
        i = i + 1;
    }
    assert(list@.take(i as int) =~= list@);
    out
}

/// A graph in which the vector at one slot has no link to another.
pub open spec fn link_removed(
    g: Seq<Option<EntryView>>,
    from: usize,
    slot: usize,
) -> Seq<Option<EntryView>> {
    if from < g.len() && g[from as int] is Some {
        g.update(from as int, Some(without_links(g[from as int]->0, slot)))
    } else {
        g
    }
}

spec fn unlinked(g: Seq<Option<EntryView>>, from: Seq<usize>, slot: usize) -> Seq<
    Option<EntryView>,
> {
    Seq::new(
        g.len(),
        |j: int|
            if g[j] is Some && from.contains(j as usize) {
                Some(without_links(g[j]->0, slot))
            } else {
                g[j]
            },
    )
}

proof fn lemma_other_slots_push(l: Seq<usize>, x: usize, slot: usize)
    ensures
        other_slots(l.push(x), slot) == (if x != slot {
            other_slots(l, slot).push(x)
        } else {
            other_slots(l, slot)
        }),
{
    reveal(Seq::filter);
    assert(l.push(x).drop_last() =~= l);
}

proof fn lemma_other_slots(l: Seq<usize>, slot: usize)
    ensures
        other_slots(l, slot).len() <= l.len(),
        other_slots(other_slots(l, slot), slot) == other_slots(l, slot),
    decreases l.len(),
{
    reveal(Seq::filter);
    if l.len() > 0 {
        let head = l.drop_last();
        lemma_other_slots(head, slot);
        assert(head.push(l.last()) =~= l);
        lemma_other_slots_push(head, l.last(), slot);
        lemma_other_slots_push(other_slots(head, slot), l.last(), slot);
    }
}

proof fn lemma_unlinked_push(
    g: Seq<Option<EntryView>>,
    done: Seq<usize>,
    from: usize,
    slot: usize,
)
    requires
        g.len() <= usize::MAX,
    ensures
        link_removed(unlinked(g, done, slot), from, slot) == unlinked(g, done.push(from), slot),
{
    let u = unlinked(g, done, slot);
    let a = link_removed(u, from, slot);
    let b = unlinked(g, done.push(from), slot);
    assert forall|j: int| 0 <= j < g.len() implies a[j] == b[j] by {
        let x = j as usize;
        assert(x == j);
        if done.contains(x) {
            let k = choose|k: int| 0 <= k < done.len() && done[k] == x;
            assert(done.push(from)[k] == x);
        }
        if done.push(from).contains(x) && x != from {
            let k = choose|k: int| 0 <= k < done.push(from).len() && done.push(from)[k] == x;
            assert(done[k] == x);
        }
        if j == from {
            assert(done.push(from)[done.len() as int] == from);
            if g[j] is Some && done.contains(x) {
                let e = g[j]->0;
                let once = without_links(e, slot);
                let twice = without_links(once, slot);
                assert forall|l: int| 0 <= l < e.neighbors.len() implies twice.neighbors[l]
                    == once.neighbors[l] by {
                    lemma_other_slots(e.neighbors[l], slot);
                }
                assert(twice.neighbors =~= once.neighbors);
            }
        }
    }
    assert(a =~= b);
}

/// Whether a vector has a first layer, with no more links than there is room for.
spec fn first_layer_fits(e: Option<VectorEntry>, max: nat) -> bool {
    e is Some && e->0@.neighbors.len() > 0 && e->0@.neighbors[0].len() <= max
}

fn make_entry(vector: Vec<u32>, links: Vec<usize>, layer: usize) -> (r: VectorEntry)
    requires
        layer < usize::MAX,
    ensures
        r@ == new_entry(vector@, layer as nat, links@),
{
    let ghost own = links@;
    let mut neighbors: Vec<Vec<usize>> = Vec::new();
    neighbors.push(links);
    let mut l: usize = 0;
    while l < layer
        invariant
            l <= layer < usize::MAX,
            neighbors@.len() == l + 1,
            neighbors@[0]@ == own,
            forall|k: int|
                1 <= k < neighbors@.len() ==> (#[trigger] neighbors@[k])@ == Seq::<usize>::empty(),
        decreases layer - l,
    {
        let above: Vec<usize> = Vec::new();
        neighbors.push(above);
        l = l + 1;
    }
    let r = VectorEntry { vector, neighbors };
    assert(r@.neighbors =~= new_entry(vector@, layer as nat, own).neighbors);
    r
}

/// Links that are added take no vector away and add none.
proof fn lemma_links_keep(g: Seq<Option<EntryView>>, near: Seq<usize>, slot: usize, max: nat)
    ensures
        links_added(g, near, slot, max).len() == g.len(),
        forall|j: int|
            0 <= j < g.len() ==> (#[trigger] links_added(g, near, slot, max)[j] is Some)
                == (g[j] is Some),
        forall|j: int|
            0 <= j < g.len() && g[j] is Some ==> (#[trigger] links_added(
                g,
                near,
                slot,
                max,
            )[j])->0.vector == g[j]->0.vector,
    decreases near.len(),
{
    if near.len() > 0 {
        lemma_links_keep(g, near.drop_last(), slot, max);
    }
}

proof fn lemma_live_some(g: Seq<Option<EntryView>>, i: int)
    requires
        0 <= i < g.len(),
        g[i] is Some,
    ensures
        live(g) > 0,
    decreases g.len(),
{
    if i < g.len() - 1 {
        lemma_live_some(g.drop_last(), i);
    }
}

proof fn lemma_live_none(g: Seq<Option<EntryView>>)
    requires
        forall|i: int| 0 <= i < g.len() ==> (#[trigger] g[i]) is None,
    ensures
        live(g) == 0,
    decreases g.len(),
{
    if g.len() > 0 {
        lemma_live_none(g.drop_last());
    }
}

/// A search that finds fewer vectors than it keeps has found every vector that can be reached
/// from its entry point.
pub proof fn law_wide_search_is_exact(
    g: Seq<Option<VectorEntry>>,
    entry: int,
    ef: nat,
    known: Seq<Option<i64>>,
    found: Seq<(usize, i64)>,
    v: int,
)
    requires
        searched(g, entry, ef, known, found),
        found.len() < ef,
        reaches(g, entry, v),
    ensures
        exists|i: int| 0 <= i < found.len() && (#[trigger] found[i]).0 == v,
{
    let p = choose|p: Seq<int>| #[trigger] is_path(g, p) && p[0] == entry && p.last() == v;
    lemma_path_is_found(g, entry, ef, known, found, p, p.len() - 1);
}

proof fn lemma_path_is_found(
    g: Seq<Option<VectorEntry>>,
    entry: int,
    ef: nat,
    known: Seq<Option<i64>>,
    found: Seq<(usize, i64)>,
    p: Seq<int>,
    n: int,
)
    requires
        searched(g, entry, ef, known, found),
        found.len() < ef,
        is_path(g, p),
        p[0] == entry,
        0 <= n < p.len(),
    ensures
        exists|i: int| 0 <= i < found.len() && (#[trigger] found[i]).0 == p[n],
    decreases n,
{
    if n > 0 {
        lemma_path_is_found(g, entry, ef, known, found, p, n - 1);
        let i = choose|i: int| 0 <= i < found.len() && (#[trigger] found[i]).0 == p[n - 1];
        assert(linked(g, p[n - 1], p[n - 1 + 1]));
        assert(linked(g, found[i].0 as int, p[n]));
        assert(met(known, p[n]));
    } else {
        assert(met(known, entry));
    }
}

/// An inserted vector is at its identifier's slot with its links; the other vectors stay what
/// they were, and none comes or goes.
pub proof fn law_insert_keeps_other_vectors(
    g: Seq<Option<EntryView>>,
    near: Seq<usize>,
    slot: usize,
    max: nat,
    entry: EntryView,
    j: int,
)
    requires
        slot < g.len(),
        0 <= j < g.len(),
        j != slot,
    ensures
        ({
            let after = links_added(g, near, slot, max).update(slot as int, Some(entry));
            &&& after.len() == g.len()
            &&& after[slot as int] == Some(entry)
            &&& (after[j] is Some) == (g[j] is Some)
            &&& g[j] is Some ==> after[j]->0.vector == g[j]->0.vector
        }),
{
    lemma_links_keep(g, near, slot, max);
}

/// A removed vector is gone; the others stay what they were, no vector that it linked to links
/// back, and all other links stay.
pub proof fn law_removed_vector_is_gone(g: Seq<Option<EntryView>>, slot: int, j: int)
    requires
        0 <= slot < g.len() <= usize::MAX,
        g[slot] is Some,
        0 <= j < g.len(),
        j != slot,
    ensures
        ({
            let after = vector_removed(g, slot);
            &&& after[slot] is None
            &&& (after[j] is Some) == (g[j] is Some)
            &&& g[j] is Some ==> after[j]->0.vector == g[j]->0.vector
            &&& g[j] is Some && links_to(g[slot]->0, j) ==> !links_to(after[j]->0, slot)
            &&& g[j] is Some && !links_to(g[slot]->0, j) ==> after[j] == g[j]
            &&& g[j] is Some && links_to(g[slot]->0, j) ==> after[j]->0.neighbors.len()
                == g[j]->0.neighbors.len() && forall|l: int, x: usize|
                0 <= l < g[j]->0.neighbors.len() && x != slot
                    ==> #[trigger] after[j]->0.neighbors[l].contains(x)
                    == g[j]->0.neighbors[l].contains(x)
        }),
{
    let after = vector_removed(g, slot);
    if g[j] is Some && links_to(g[slot]->0, j) {
        let e = g[j]->0;
        let w = after[j]->0;
        if links_to(w, slot) {
            let (l, i) = choose|l: int, i: int| #![trigger w.neighbors[l][i]]
                0 <= l < w.neighbors.len() && 0 <= i < w.neighbors[l].len() && w.neighbors[l][i]
                    == slot;
            assert(w.neighbors[l] == other_slots(e.neighbors[l], slot as usize));
            crate::facts::lemma_filter_member(
                e.neighbors[l],
                |x: usize| x != slot as usize,
                i,
            );
        }
        assert forall|l: int, x: usize|
            0 <= l < e.neighbors.len() && x != slot implies #[trigger] w.neighbors[l].contains(x)
            == e.neighbors[l].contains(x) by {
            assert(w.neighbors[l] == other_slots(e.neighbors[l], slot as usize));
            lemma_other_slots_stay(e.neighbors[l], slot as usize, x);
        }
    }
}

/// Leaving out a slot leaves out no other.
proof fn lemma_other_slots_stay(l: Seq<usize>, slot: usize, x: usize)
    requires
        x != slot,
    ensures
        other_slots(l, slot).contains(x) == l.contains(x),
    decreases l.len(),
{
    reveal(Seq::filter);
    if l.len() > 0 {
        let head = l.drop_last();
        let kept = other_slots(head, slot);
        lemma_other_slots_stay(head, slot, x);
        assert(other_slots(l, slot) == if l.last() != slot {
            kept.push(l.last())
        } else {
            kept
        });
        assert(l == head.push(l.last()));
        lemma_push_contains(head, l.last(), x);
        lemma_push_contains(kept, l.last(), x);
    }
}

/// A sequence with an item behind it holds that item and what it held.
proof fn lemma_push_contains(l: Seq<usize>, y: usize, x: usize)
    ensures
        l.push(y).contains(x) == (l.contains(x) || x == y),
{
    assert(l.push(y)[l.len() as int] == y);
    if l.contains(x) {
        let i = choose|i: int| 0 <= i < l.len() && l[i] == x;
        assert(l.push(y)[i] == x);
    }
}

/// Whether an index comes from another by the insertion of a vector.
pub open spec fn inserted(
    before: VectorIndex,
    after: VectorIndex,
    id: NodeId,
    vector: Seq<u32>,
    layer: nat,
    near: Seq<(usize, i64)>,
) -> bool {
    let s = slot_of(before.id_list(), id@);
    let links = chosen(near, before.room() as nat);
    let fresh = s == before.id_list().len();
    let g = graph_view(before.graph());
    let base = if fresh {
        g.push(None)
    } else {
        g
    };
    &&& after.room() == before.room()
    &&& after.id_list() == (if fresh {
        before.id_list().push(id)
    } else {
        before.id_list()
    })
    &&& graph_view(after.graph()) == links_added(
        base,
        links,
        s as usize,
        before.room() as nat,
    ).update(s, Some(new_entry(vector, layer, links)))
    &&& after.start() == (if before.start() is None || layer > 0 {
        Some(s as usize)
    } else {
        before.start()
    })
}

/// Links that are added to a vector stand behind those of its first layer and lead to the new
/// slot; a vector gets one where it is among the near ones and has room.
proof fn lemma_link_back(
    g: Seq<Option<EntryView>>,
    near: Seq<usize>,
    slot: usize,
    max: nat,
    j: int,
)
    requires
        0 <= j < g.len() <= usize::MAX,
        g[j] is Some,
        g[j]->0.neighbors.len() > 0,
    ensures
        ({
            let e = g[j]->0;
            let a = links_added(g, near, slot, max)[j]->0;
            let n = e.neighbors[0].len();
            &&& links_added(g, near, slot, max).len() == g.len()
            &&& links_added(g, near, slot, max)[j] is Some
            &&& a.vector == e.vector
            &&& a.neighbors.len() == e.neighbors.len()
            &&& forall|l: int| 1 <= l < e.neighbors.len() ==> a.neighbors[l] == e.neighbors[l]
            &&& n <= a.neighbors[0].len()
            &&& a.neighbors[0].take(n as int) == e.neighbors[0]
            &&& forall|i: int|
                n <= i < a.neighbors[0].len() ==> #[trigger] a.neighbors[0][i] == slot
            &&& near.contains(j as usize) && n < max ==> n < a.neighbors[0].len()
            &&& !near.contains(j as usize) || n >= max ==> a == e
            &&& near.no_duplicates() ==> a.neighbors[0].len() <= n + 1
        }),
    decreases near.len(),
{
    let e = g[j]->0;
    let n = e.neighbors[0].len();
    if near.len() == 0 {
        assert(e.neighbors[0].take(n as int) =~= e.neighbors[0]);
    } else {
        let head = near.drop_last();
        lemma_link_back(g, head, slot, max, j);
        let b = links_added(g, head, slot, max)[j]->0;
        let a = links_added(g, near, slot, max)[j]->0;
        if head.contains(j as usize) {
            let k = choose|k: int| 0 <= k < head.len() && head[k] == j as usize;
            assert(near[k] == j as usize);
        }
        if near.contains(j as usize) && near.last() != j as usize {
            let k = choose|k: int| 0 <= k < near.len() && near[k] == j as usize;
            assert(head[k] == j as usize);
        }
        if near.last() == j as usize {
            assert(near[near.len() - 1] == j as usize);
            if near.no_duplicates() {
                assert(head.no_duplicates()) by {
                    assert forall|x: int, y: int|
                        0 <= x < head.len() && 0 <= y < head.len() && x != y implies head[x]
                        != head[y] by {
                        assert(near[x] != near[y]);
                    }
                }
                assert(!head.contains(j as usize)) by {
                    if head.contains(j as usize) {
                        let k = choose|k: int| 0 <= k < head.len() && head[k] == j as usize;
                        assert(near[k] != near[near.len() - 1]);
                    }
                }
            }
            if b.neighbors[0].len() < max {
                assert(a.neighbors[0] == b.neighbors[0].push(slot));
                assert(a.neighbors[0].take(n as int) =~= b.neighbors[0].take(n as int));
            }
        } else if near.no_duplicates() {
            assert(head.no_duplicates()) by {
                assert forall|x: int, y: int|
                    0 <= x < head.len() && 0 <= y < head.len() && x != y implies head[x]
                    != head[y] by {
                    assert(near[x] != near[y]);
                }
            }
        }
    }
}

/// What an insertion does to the vectors, slot by slot. `s` is the slot of the identifier.
///
/// The new vector links, in its first layer and in order, to as many of the near slots as it
/// has room for. Every other vector stays, and keeps its links. It gets links to the new slot,
/// behind the links of its first layer, exactly where it is one of these near slots and has
/// room; where the near slots are different ones, it gets one.
pub proof fn law_insertion_links_both_ways(
    before: VectorIndex,
    after: VectorIndex,
    id: NodeId,
    vector: Seq<u32>,
    layer: nat,
    near: Seq<(usize, i64)>,
    s: int,
)
    requires
        before.wf(),
        after.wf(),
        after.graph().len() <= usize::MAX,
        inserted(before, after, id, vector, layer, near),
        0 <= s < after.id_list().len(),
        after.id_list()[s]@ == id@,
    ensures
        ({
            let n = if near.len() < before.room() {
                near.len() as int
            } else {
                before.room() as int
            };
            let own = after.graph()[s]->0;
            &&& occupied(after.graph(), s)
            &&& own.vector@ == vector
            &&& own.neighbors@.len() == layer + 1
            &&& own.neighbors@[0]@.len() == n
            &&& forall|k: int| 0 <= k < n ==> own.neighbors@[0]@[k] == (#[trigger] near[k]).0
            &&& forall|l: int| 1 <= l <= layer ==> (#[trigger] own.neighbors@[l])@.len() == 0
            &&& forall|j: int|
                #[trigger] occupied(before.graph(), j) && j != s ==> {
                    let was = before.graph()[j]->0;
                    let now = after.graph()[j]->0;
                    let m = was.neighbors@[0]@.len();
                    &&& occupied(after.graph(), j)
                    &&& now.vector@ == was.vector@
                    &&& now.neighbors@.len() == was.neighbors@.len()
                    &&& forall|l: int|
                        1 <= l < was.neighbors@.len() ==> (#[trigger] now.neighbors@[l])@
                            == was.neighbors@[l]@
                    &&& m <= now.neighbors@[0]@.len()
                    &&& now.neighbors@[0]@.take(m as int) == was.neighbors@[0]@
                    &&& forall|i: int|
                        m <= i < now.neighbors@[0]@.len() ==> #[trigger] now.neighbors@[0]@[i] == s
                    &&& m < now.neighbors@[0]@.len() <==> m < before.room() && exists|k: int|
                        0 <= k < n && (#[trigger] near[k]).0 == j
                    &&& (forall|x: int, y: int|
                        0 <= x < y < n ==> (#[trigger] near[x]).0 != (#[trigger] near[y]).0)
                        ==> now.neighbors@[0]@.len() <= m + 1
                }
            &&& forall|k: int|
                0 <= k < n && occupied(before.graph(), near[k].0 as int) && near[k].0 != s
                    && before.graph()[near[k].0 as int]->0.neighbors@[0]@.len() < before.room()
                    ==> linked(after.graph(), (#[trigger] near[k]).0 as int, s)
            &&& forall|j: int|
                #[trigger] occupied(after.graph(), j) && j != s ==> occupied(before.graph(), j)
        }),
{
    let max = before.room() as nat;
    let links = chosen(near, max);
    let g = graph_view(before.graph());
    let at = slot_of(before.id_list(), id@);
    lemma_slot_of(before.id_list(), id@);
    let base = if at == before.id_list().len() {
        g.push(None)
    } else {
        g
    };
    assert(after.id_list()[at]@ == id@);
    assert(at == s) by {
        if at < s {
            assert(after.id_list()[at]@ != after.id_list()[s]@);
        } else if s < at {
            assert(after.id_list()[s]@ != after.id_list()[at]@);
        }
    }
    let n = links.len() as int;
    let entry = new_entry(vector, layer, links);
    let added = links_added(base, links, s as usize, max);
    lemma_links_keep(base, links, s as usize, max);
    let h = graph_view(after.graph());
    assert(h[s] == Some(entry));
    assert(h[s] == entry_view(after.graph()[s]));
    let own = after.graph()[s]->0;
    assert(own@ == entry);
    assert(own.neighbors@.len() == own@.neighbors.len());
    assert forall|l: int| 0 <= l <= layer implies (#[trigger] own.neighbors@[l])@
        == entry.neighbors[l] by {
        assert(own@.neighbors[l] == own.neighbors@[l]@);
    }
    assert forall|k: int| 0 <= k < n implies own.neighbors@[0]@[k] == (#[trigger] near[k]).0 by {
        assert(links[k] == near[k].0);
    }
    assert forall|j: int| #[trigger] occupied(before.graph(), j) && j != s implies {
        let was = before.graph()[j]->0;
        let now = after.graph()[j]->0;
        let m = was.neighbors@[0]@.len();
        &&& occupied(after.graph(), j)
        &&& now.vector@ == was.vector@
        &&& now.neighbors@.len() == was.neighbors@.len()
        &&& forall|l: int|
            1 <= l < was.neighbors@.len() ==> (#[trigger] now.neighbors@[l])@
                == was.neighbors@[l]@
        &&& m <= now.neighbors@[0]@.len()
        &&& now.neighbors@[0]@.take(m as int) == was.neighbors@[0]@
        &&& forall|i: int|
            m <= i < now.neighbors@[0]@.len() ==> #[trigger] now.neighbors@[0]@[i] == s
        &&& m < now.neighbors@[0]@.len() <==> m < before.room() && exists|k: int|
            0 <= k < n && (#[trigger] near[k]).0 == j
        &&& (forall|x: int, y: int|
            0 <= x < y < n ==> (#[trigger] near[x]).0 != (#[trigger] near[y]).0)
            ==> now.neighbors@[0]@.len() <= m + 1
    } by {
        let was = before.graph()[j]->0;
        assert(g[j] == Some(was@));
        assert(base[j] == g[j]);
        assert(was.neighbors@.len() == was@.neighbors.len());
        lemma_link_back(base, links, s as usize, max, j);
        assert(h[j] == added[j]);
        assert(h[j] == entry_view(after.graph()[j]));
        let now = after.graph()[j]->0;
        assert(h[j] == Some(now@));
        assert(now.neighbors@.len() == now@.neighbors.len());
        assert forall|l: int| 0 <= l < was.neighbors@.len() implies (#[trigger] now.neighbors@[l])@
            == now@.neighbors[l] && was.neighbors@[l]@ == was@.neighbors[l] by {
        }
        assert(now.neighbors@[0]@ == now@.neighbors[0]);
        assert(was.neighbors@[0]@ == was@.neighbors[0]);
        if links.contains(j as usize) {
            let k = choose|k: int| 0 <= k < links.len() && links[k] == j as usize;
            assert(links[k] == near[k].0);
        }
        if exists|k: int| 0 <= k < n && (#[trigger] near[k]).0 == j {
            let k = choose|k: int| 0 <= k < n && (#[trigger] near[k]).0 == j;
            assert(links[k] == near[k].0);
            assert(links.contains(j as usize));
        }
        if forall|x: int, y: int|
            0 <= x < y < n ==> (#[trigger] near[x]).0 != (#[trigger] near[y]).0 {
            assert forall|x: int, y: int|
                0 <= x < links.len() && 0 <= y < links.len() && x != y implies links[x]
                != links[y] by {
                assert(links[x] == near[x].0 && links[y] == near[y].0);
            }
            assert(links.no_duplicates());
        }
    }
    assert forall|k: int|
        0 <= k < n && occupied(before.graph(), near[k].0 as int) && near[k].0 != s
            && before.graph()[near[k].0 as int]->0.neighbors@[0]@.len()
            < before.room() implies linked(after.graph(), (#[trigger] near[k]).0 as int, s) by {
        let j = near[k].0 as int;
        assert(occupied(before.graph(), j));
        let m = before.graph()[j]->0.neighbors@[0]@.len() as int;
        assert(near[k].0 == j);
        assert(m < after.graph()[j]->0.neighbors@[0]@.len());
        assert(after.graph()[j]->0.neighbors@[0]@[m] == s);
    }
    assert forall|j: int| #[trigger] occupied(after.graph(), j) && j != s implies occupied(
        before.graph(),
        j,
    ) by {
        assert(h[j] == entry_view(after.graph()[j]));
        assert(h[j] == added[j]);
        assert(base[j] is Some);
        assert(g[j] == entry_view(before.graph()[j]));
    }
}

/// Where links lead to a slot, they lead there in every graph that keeps the links of all other
/// slots.
proof fn lemma_reach_kept(
    g: Seq<Option<VectorEntry>>,
    h: Seq<Option<VectorEntry>>,
    p: Seq<int>,
    s: int,
    n: int,
)
    requires
        is_path(g, p),
        0 <= n < p.len(),
        occupied(h, s),
        forall|a: int, b: int| a != s && #[trigger] linked(g, a, b) ==> linked(h, a, b),
    ensures
        reaches(h, p[0], p[n]) || reaches(h, p[0], s),
    decreases n,
{
    if n == 0 {
        let q = seq![p[0]];
        assert(is_path(h, q));
        assert(q[0] == p[0] && q.last() == p[0]);
    } else {
        lemma_reach_kept(g, h, p, s, n - 1);
        assert(linked(g, p[n - 1], p[n - 1 + 1]));
        if !reaches(h, p[0], s) {
            assert(p[n - 1] != s);
            assert(linked(h, p[n - 1], p[n]));
            lemma_reach_step(h, p[0], p[n - 1], p[n]);
        }
    }
}

/// An inserted vector can be reached where a near vector with room could be, and where searches
/// begin at it. A search that keeps more vectors than there are slots finds it then.
pub proof fn law_inserted_vector_is_found(
    before: VectorIndex,
    after: VectorIndex,
    id: NodeId,
    vector: Seq<u32>,
    layer: nat,
    near: Seq<(usize, i64)>,
    s: int,
    k: int,
)
    requires
        before.wf(),
        after.wf(),
        after.graph().len() <= usize::MAX,
        inserted(before, after, id, vector, layer, near),
        0 <= s < after.id_list().len(),
        after.id_list()[s]@ == id@,
        layer > 0 || before.start() is None || {
            &&& 0 <= k < near.len()
            &&& k < before.room()
            &&& occupied(before.graph(), near[k].0 as int)
            &&& before.graph()[near[k].0 as int]->0.neighbors@[0]@.len() < before.room()
            &&& reaches(before.graph(), before.start()->0 as int, near[k].0 as int)
        },
    ensures
        after.start() is Some,
        reaches(after.graph(), after.start()->0 as int, s),
        forall|ef: nat, known: Seq<Option<i64>>, found: Seq<(usize, i64)>| #[trigger]
            searched(after.graph(), after.start()->0 as int, ef, known, found) && ef
                > after.graph().len() ==> exists|i: int|
                0 <= i < found.len() && (#[trigger] found[i]).0 == s,
{
    let g = before.graph();
    let h = after.graph();
    law_insertion_links_both_ways(before, after, id, vector, layer, near, s);
    lemma_slot_of(before.id_list(), id@);
    let at = slot_of(before.id_list(), id@);
    assert(after.id_list()[at]@ == id@);
    assert(at == s) by {
        if at < s {
            assert(after.id_list()[at]@ != after.id_list()[s]@);
        } else if s < at {
            assert(after.id_list()[s]@ != after.id_list()[at]@);
        }
    }
    if layer > 0 || before.start() is None {
        let q = seq![s];
        assert(is_path(h, q));
        assert(q[0] == s && q.last() == s);
    } else {
        let a = near[k].0 as int;
        let e = before.start()->0 as int;
        assert forall|x: int, y: int| x != s && #[trigger] linked(g, x, y) implies linked(
            h,
            x,
            y,
        ) by {
            let (l, i) = choose|l: int, i: int| #![trigger g[x]->0.neighbors@[l]@[i]]
                0 <= l < g[x]->0.neighbors@.len() && 0 <= i < g[x]->0.neighbors@[l]@.len()
                    && g[x]->0.neighbors@[l]@[i] == y;
            assert(occupied(g, x) && occupied(g, y));
            let m = g[x]->0.neighbors@[0]@.len() as int;
            if l == 0 {
                assert(h[x]->0.neighbors@[0]@.take(m)[i] == h[x]->0.neighbors@[0]@[i]);
            }
            assert(h[x]->0.neighbors@[l]@[i] == y);
            assert(occupied(h, y));
        }
        let p = choose|p: Seq<int>| #[trigger] is_path(g, p) && p[0] == e && p.last() == a;
        lemma_reach_kept(g, h, p, s, p.len() - 1);
        if !reaches(h, e, s) {
            assert(a != s);
            assert(linked(h, near[k].0 as int, s));
            lemma_reach_step(h, e, a, s);
        }
    }
    assert forall|ef: nat, known: Seq<Option<i64>>, found: Seq<(usize, i64)>| #[trigger]
        searched(h, after.start()->0 as int, ef, known, found) && ef > h.len() implies exists|i: int|
        0 <= i < found.len() && (#[trigger] found[i]).0 == s by {
        let slots = found.map_values(|f: (usize, i64)| f.0 as int);
        assert forall|x: int, y: int|
            0 <= x < slots.len() && 0 <= y < slots.len() && x != y implies slots[x] != slots[y] by {
            if x < y {
                assert(found[x].0 != found[y].0);
            } else {
                assert(found[y].0 != found[x].0);
            }
        }
        assert forall|x: int| 0 <= x < slots.len() implies 0 <= #[trigger] slots[x] < h.len() by {
            assert(occupied(h, found[x].0 as int));
        }
        crate::facts::lemma_distinct_below(slots, h.len());
        law_wide_search_is_exact(h, after.start()->0 as int, ef, known, found, s);
    }
}

/// The number of vectors is the number of slots that hold one.
pub proof fn law_live(g: Seq<Option<EntryView>>)
    ensures
        live(g) == g.filter(|e: Option<EntryView>| e is Some).len(),
    decreases g.len(),
{
    reveal(Seq::filter);
    if g.len() > 0 {
        law_live(g.drop_last());
    }
}

/// The links of a vector are those of its layers together; those of a graph are those of its
/// vectors together; the largest number of links of one vector is reached by a vector, and
/// exceeded by none.
pub proof fn law_link_counts(
    g: Seq<Option<EntryView>>,
    e: EntryView,
    layers: Seq<Seq<usize>>,
    layer: Seq<usize>,
)
    ensures
        layer_total(Seq::<Seq<usize>>::empty()) == 0,
        layer_total(layers.push(layer)) == layer_total(layers) + layer.len(),
        link_total(Seq::<Option<EntryView>>::empty()) == 0,
        link_total(g.push(None)) == link_total(g),
        link_total(g.push(Some(e))) == link_total(g) + layer_total(e.neighbors),
        forall|i: int|
            0 <= i < g.len() && (#[trigger] g[i]) is Some ==> layer_total(g[i]->0.neighbors)
                <= link_max(g),
        link_max(g) > 0 ==> exists|i: int|
            0 <= i < g.len() && (#[trigger] g[i]) is Some && layer_total(g[i]->0.neighbors)
                == link_max(g),
    decreases g.len(),
{
    assert(layers.push(layer).drop_last() =~= layers);
    assert(g.push(None).drop_last() =~= g);
    assert(g.push(Some(e)).drop_last() =~= g);
    if g.len() > 0 {
        let head = g.drop_last();
        law_link_counts(head, e, layers, layer);
        assert forall|i: int| 0 <= i < g.len() && (#[trigger] g[i]) is Some implies layer_total(
            g[i]->0.neighbors,
        ) <= link_max(g) by {
            if i < head.len() {
                assert(head[i] == g[i]);
            }
        }
        if link_max(g) > 0 {
            if link_max(g) == link_max(head) {
                let i = choose|i: int|
                    0 <= i < head.len() && (#[trigger] head[i]) is Some && layer_total(
                        head[i]->0.neighbors,
                    ) == link_max(head);
                assert(g[i] == head[i]);
            } else {
                assert(g[g.len() - 1] is Some);
            }
        }
    }
}

/// Where searches began at a vector that is removed, they begin at the first slot that still
/// holds one.
pub proof fn law_first_occupied(g: Seq<Option<EntryView>>, i: int)
    requires
        0 <= i <= g.len() <= usize::MAX,
    ensures
        match first_occupied(g, i) {
            Some(s) => i <= s < g.len() && g[s as int] is Some && forall|j: int|
                i <= j < s ==> (#[trigger] g[j]) is None,
            None => forall|j: int| i <= j < g.len() ==> (#[trigger] g[j]) is None,
        },
    decreases g.len() - i,
{
    if i < g.len() && g[i] is None {
        law_first_occupied(g, i + 1);
    }
}

} // verus!
