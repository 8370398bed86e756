//! Similarity search over the vectors of nodes.
//!
//! Scores and distances are numbers that the caller computes; they are handed over as
//! integers that run the same way, with nothing where two vectors cannot be compared.

use vstd::prelude::*;

use super::graph::{Node, NodeView};
use super::node::{NodeId, Timestamp};
use super::value::{PropertyMap, Value, ValueView};
use crate::order::{lemma_ordered_is_complete, order_by, ordered, precedes, Direction};
use crate::text::copy_str;

verus! {

/// How the distance of two vectors is measured.
#[derive(Debug, Clone, Copy, PartialEq, Eq, Structural)]
pub enum DistanceMetric {
    /// One minus the cosine of the angle.
    Cosine,
    /// Euclidean distance.
    Euclidean,
    /// Negated inner product.
    DotProduct,
    /// Sum of the absolute differences.
    Manhattan,
}

/// The positions at which there is a key that is within a bound, if there is a bound.
pub open spec fn positions(keys: Seq<Option<i64>>, bound: Option<i64>) -> Seq<usize>
    decreases keys.len(),
{
    if keys.len() == 0 {
        Seq::empty()
    } else {
        let head = positions(keys.drop_last(), bound);
        if counts(keys.last(), bound) {
            head.push((keys.len() - 1) as usize)
        } else {
            head
        }
    }
}

/// Whether there is a key and it is within a bound, if there is a bound.
pub open spec fn counts(key: Option<i64>, bound: Option<i64>) -> bool {
    match key {
        Some(k) => match bound {
            Some(b) => k <= b,
            None => true,
        },
        None => false,
    }
}

/// The keys at some positions.
pub open spec fn keys_at(keys: Seq<Option<i64>>, at: Seq<usize>) -> Seq<i64> {
    at.map_values(|i: usize| keys[i as int]->0)
}

/// The first of the positions that count, in the order of their keys, up to a limit.
pub open spec fn ranked(
    keys: Seq<Option<i64>>,
    bound: Option<i64>,
    way: Direction,
    limit: Option<usize>,
    r: Seq<usize>,
) -> bool {
    let at = positions(keys, bound);
    exists|o: Seq<usize>| #[trigger]
        ordered(keys_at(keys, at), way, o) && r == Seq::new(
            match limit {
                Some(k) if k < o.len() => k as nat,
                _ => o.len(),
            },
            |i: int| at[o[i] as int],
        )
}

fn rank(
    keys: &[Option<i64>],
    bound: Option<i64>,
    way: Direction,
    limit: Option<usize>,
) -> (r: Vec<usize>)
    ensures
        ranked(keys@, bound, way, limit, r@),
{
    let ghost at = positions(keys@, bound);
    let mut places: Vec<usize> = Vec::new();
    let mut values: Vec<i64> = Vec::new();
    let mut i: usize = 0;
    assert(values@ =~= keys_at(keys@, places@));
    while i < keys.len()
        invariant
            i <= keys@.len(),
            places@ == positions(keys@.take(i as int), bound),
            values@ == keys_at(keys@, places@),
        decreases keys@.len() - i,
    {
        proof {
            assert(keys@.take(i + 1).drop_last() =~= keys@.take(i as int));
            assert(keys@.take(i + 1).last() == keys@[i as int]);
        }
        if let Some(k) = keys[i] {
            let within: bool = match bound {
                Some(b) => k <= b,
                None => true,
            };
            if within {
                let ghost was = places@;
                places.push(i);
                values.push(k);
                assert(values@ =~= keys_at(keys@, was.push(i)));
            }
        }
        i = i + 1;
    }
    assert(keys@.take(i as int) =~= keys@);
    let order = order_by(values.as_slice(), way);
    let n: usize = match limit {
        Some(k) => if k < order.len() {
            k
        } else {
            order.len()
        },
        None => order.len(),
    };
    let mut out: Vec<usize> = Vec::new();
    let mut j: usize = 0;
    while j < n
        invariant
            j <= n <= order@.len(),
            forall|k: int| 0 <= k < order@.len() ==> (#[trigger] order@[k]) < places@.len(),
            out@.len() == j,
            forall|k: int| 0 <= k < j ==> #[trigger] out@[k] == places@[order@[k] as int],
        decreases n - j,
    {
        out.push(places[order[j]]);
        j = j + 1;
    }
    proof {
        let o = order@;
        assert(ordered(keys_at(keys@, at), way, o));
        assert(out@ =~= Seq::new(
            match limit {
                Some(k) if k < o.len() => k as nat,
                _ => o.len(),
            },
            |i: int| at[o[i] as int],
        ));
    }
    out
}

/// The positions of the nodes that have a vector in a field.
pub open spec fn with_vectors(nodes: Seq<Node>, field: Seq<char>) -> Seq<usize>
    decreases nodes.len(),
{
    if nodes.len() == 0 {
        Seq::empty()
    } else {
        let head = with_vectors(nodes.drop_last(), field);
        if has_vector(nodes.last()@, field) {
            head.push((nodes.len() - 1) as usize)
        } else {
            head
        }
    }
}

/// Whether a node has a vector in a field.
pub open spec fn has_vector(n: NodeView, field: Seq<char>) -> bool {
    n.properties.dom().contains(field) && n.properties[field] is Vector
}

/// Similarity search with a way to measure distances.
#[derive(Debug, Clone, Copy)]
pub struct VectorSearch {
    /// How distances are measured.
    pub metric: DistanceMetric,
}

impl VectorSearch {
    /// Creates a search.
    pub fn new(metric: DistanceMetric) -> (r: Self)
        ensures
            r.metric == metric,
    {
        VectorSearch { metric }
    }

    /// The positions of the nodes that have a vector in a field.
    pub fn candidates(nodes: &[Node], vector_field: &str) -> (r: Vec<usize>)
        ensures
            r@ == with_vectors(nodes@, vector_field@),
    {
        let mut out: Vec<usize> = Vec::new();
        let mut i: usize = 0;
        while i < nodes.len()
            invariant
                i <= nodes@.len(),
                out@ == with_vectors(nodes@.take(i as int), vector_field@),
            decreases nodes@.len() - i,
        {
            proof {
                assert(nodes@.take(i + 1).drop_last() =~= nodes@.take(i as int));
                assert(nodes@.take(i + 1).last() == nodes@[i as int]);
            }
            if let Some(Value::Vector(_)) = nodes[i].get(vector_field) {
                out.push(i);
            }
            i = i + 1;
        }
        assert(nodes@.take(i as int) =~= nodes@);
        out
    }

    /// The positions of the `k` highest scores, highest first.
    pub fn search(scores: &[Option<i64>], k: usize) -> (r: Vec<usize>)
        ensures
            ranked(scores@, None, Direction::Descending, Some(k), r@),
    {
        rank(scores, None, Direction::Descending, Some(k))
    }

    /// The positions of the distances up to a largest one, nearest first.
    pub fn search_radius(distances: &[Option<i64>], max_distance: i64) -> (r: Vec<usize>)
        ensures
            ranked(distances@, Some(max_distance), Direction::Ascending, None, r@),
    {
        rank(distances, Some(max_distance), Direction::Ascending, None)
    }
}

/// A builder of nodes with vectors.
#[derive(Debug)]
pub struct VectorNodeBuilder {
    node_type: String,
    properties: PropertyMap,
}

impl VectorNodeBuilder {
    /// The type of the node.
    pub closed spec fn kind(&self) -> Seq<char> {
        self.node_type@
    }

    /// The properties so far.
    pub closed spec fn map(&self) -> Map<Seq<char>, ValueView> {
        self.properties.map()
    }

    /// Begins a node of a type.
    pub fn new(node_type: &str) -> (r: Self)
        ensures
            r.kind() == node_type@,
            r.map() == Map::<Seq<char>, ValueView>::empty(),
    {
        VectorNodeBuilder { node_type: copy_str(node_type), properties: PropertyMap::new() }
    }

    /// Adds a property.
    pub fn property(self, key: &str, value: Value) -> (r: Self)
        ensures
            r.kind() == self.kind(),
            r.map() == self.map().insert(key@, value@),
    {
        let mut properties = self.properties;
        properties.insert(key, value);
        VectorNodeBuilder { node_type: self.node_type, properties }
    }

    /// Adds a text.
    pub fn text(self, key: &str, value: &str) -> (r: Self)
        ensures
            r.kind() == self.kind(),
            r.map() == self.map().insert(key@, ValueView::Text(value@)),
    {
        self.property(key, Value::String(copy_str(value)))
    }

    /// Adds a vector, each component by its bits.
    pub fn embedding(self, key: &str, vector: Vec<u32>) -> (r: Self)
        ensures
            r.kind() == self.kind(),
            r.map() == self.map().insert(key@, ValueView::Vector(vector@)),
    {
        self.property(key, Value::Vector(vector))
    }

    /// The node, with a random identifier and the current time.
    pub fn build(self) -> (r: Node)
        ensures
            r@.node_type == self.kind(),
            r@.properties == self.map(),
            r@.updated_at == r@.created_at,
    {
        Node::with_id(NodeId::new(), self.node_type.as_str(), self.properties)
    }

    /// The node, with a given identifier and time.
    pub fn build_at(self, id: NodeId, now: Timestamp) -> (r: Node)
        ensures
            r@ == (NodeView {
                id: id@,
                node_type: self.kind(),
                properties: self.map(),
                created_at: now,
                updated_at: now,
            }),
    {
        Node {
            id,
            node_type: self.node_type,
            properties: self.properties,
            created_at: now,
            updated_at: now,
        }
    }
}

/// A position counts exactly where it is listed.
proof fn lemma_positions(keys: Seq<Option<i64>>, bound: Option<i64>)
    requires
        keys.len() <= usize::MAX,
    ensures
        forall|k: int|
            0 <= k < positions(keys, bound).len() ==> (#[trigger] positions(keys, bound)[k])
                < keys.len() && counts(keys[positions(keys, bound)[k] as int], bound),
        forall|p: int|
            0 <= p < keys.len() && counts(#[trigger] keys[p], bound) ==> positions(
                keys,
                bound,
            ).contains(p as usize),
    decreases keys.len(),
{
    if keys.len() > 0 {
        let head = keys.drop_last();
        lemma_positions(head, bound);
        let a = positions(keys, bound);
        let b = positions(head, bound);
        assert forall|k: int| 0 <= k < a.len() implies (#[trigger] a[k]) < keys.len() && counts(
            keys[a[k] as int],
            bound,
        ) by {
            if k < b.len() {
                assert(a[k] == b[k]);
                assert(head[b[k] as int] == keys[b[k] as int]);
            }
        }
        assert forall|p: int| 0 <= p < keys.len() && counts(
            #[trigger] keys[p],
            bound,
        ) implies a.contains(p as usize) by {
            if p < head.len() {
                assert(head[p] == keys[p]);
                let k = choose|k: int| 0 <= k < b.len() && b[k] == p as usize;
                assert(a[k] == p as usize);
            } else {
                assert(a[b.len() as int] == p as usize);
            }
        }
    }
}

/// A search finds the highest scores: what is not among the results scores no higher than any
/// of them, and is left out only where there are as many results as asked for.
pub proof fn law_search_finds_the_best(scores: Seq<Option<i64>>, k: usize, r: Seq<usize>, p: int)
    requires
        scores.len() <= usize::MAX,
        ranked(scores, None, Direction::Descending, Some(k), r),
        0 <= p < scores.len(),
        scores[p] is Some,
        !r.contains(p as usize),
    ensures
        r.len() == k,
        forall|i: int|
            0 <= i < r.len() ==> scores[p]->0 <= scores[#[trigger] r[i] as int]->0,
{
    let at = positions(scores, None);
    let keys = keys_at(scores, at);
    lemma_positions(scores, None);
    let o = choose|o: Seq<usize>| #[trigger]
        ordered(keys, Direction::Descending, o) && r == Seq::new(
            match Some(k) {
                Some(k) if k < o.len() => k as nat,
                _ => o.len(),
            },
            |i: int| at[o[i] as int],
        );
    assert(counts(scores[p], None));
    let q = choose|q: int| 0 <= q < at.len() && at[q] == p as usize;
    lemma_ordered_is_complete(keys, Direction::Descending, o, q);
    let j = choose|j: int| 0 <= j < o.len() && #[trigger] o[j] == q;
    if j < r.len() {
        assert(r[j] == p as usize);
    }
    assert forall|i: int| 0 <= i < r.len() implies scores[p]->0 <= scores[
    #[trigger] r[i] as int]->0 by {
        assert(precedes(keys, Direction::Descending, o[i] as int, o[j] as int));
        assert(keys[o[i] as int] == scores[r[i] as int]->0);
        assert(keys[o[j] as int] == scores[p]->0);
    }
}

/// A radius search finds exactly what is within the radius, nearest first.
pub proof fn law_radius_search_is_exact(
    distances: Seq<Option<i64>>,
    max: i64,
    r: Seq<usize>,
    p: int,
)
    requires
        distances.len() <= usize::MAX,
        ranked(distances, Some(max), Direction::Ascending, None, r),
        0 <= p < distances.len(),
    ensures
        r.contains(p as usize) <==> (distances[p] matches Some(d) && d <= max),
        forall|i: int, j: int|
            0 <= i < j < r.len() ==> distances[#[trigger] r[i] as int]->0
                <= distances[#[trigger] r[j] as int]->0,
{
    let at = positions(distances, Some(max));
    let keys = keys_at(distances, at);
    lemma_positions(distances, Some(max));
    let none: Option<usize> = None;
    let o = choose|o: Seq<usize>| #[trigger]
        ordered(keys, Direction::Ascending, o) && r == Seq::new(
            match none {
                Some(k) if k < o.len() => k as nat,
                _ => o.len(),
            },
            |i: int| at[o[i] as int],
        );
    if counts(distances[p], Some(max)) {
        let q = choose|q: int| 0 <= q < at.len() && at[q] == p as usize;
        lemma_ordered_is_complete(keys, Direction::Ascending, o, q);
        let j = choose|j: int| 0 <= j < o.len() && #[trigger] o[j] == q;
        assert(r[j] == p as usize);
    }
    if r.contains(p as usize) {
        let i = choose|i: int| 0 <= i < r.len() && r[i] == p as usize;
        assert(at[o[i] as int] == p as usize);
    }
    assert forall|i: int, j: int| 0 <= i < j < r.len() implies distances[
    #[trigger] r[i] as int]->0 <= distances[#[trigger] r[j] as int]->0 by {
        assert(precedes(keys, Direction::Ascending, o[i] as int, o[j] as int));
        assert(keys[o[i] as int] == distances[r[i] as int]->0);
        assert(keys[o[j] as int] == distances[r[j] as int]->0);
    }
}

/// The results of a search have a score, each stands once, none has a higher score than one
/// before it, and there are as many as asked for or as have a score.
pub proof fn law_search_runs_down(scores: Seq<Option<i64>>, k: usize, r: Seq<usize>)
    requires
        scores.len() <= usize::MAX,
        ranked(scores, None, Direction::Descending, Some(k), r),
    ensures
        r.len() <= k,
        r.no_duplicates(),
        forall|i: int|
            0 <= i < r.len() ==> (#[trigger] r[i]) < scores.len() && scores[r[i] as int] is Some,
        forall|i: int, j: int|
            0 <= i < j < r.len() ==> scores[#[trigger] r[i] as int]->0 >= scores[
                #[trigger] r[j] as int]->0,
{
    let at = positions(scores, None);
    let keys = keys_at(scores, at);
    lemma_positions(scores, None);
    lemma_positions_rise(scores, None);
    let o = choose|o: Seq<usize>| #[trigger]
        ordered(keys, Direction::Descending, o) && r == Seq::new(
            match Some(k) {
                Some(k) if k < o.len() => k as nat,
                _ => o.len(),
            },
            |i: int| at[o[i] as int],
        );
    if o.len() > 0 {
        lemma_ordered_is_complete(keys, Direction::Descending, o, 0);
    }
    assert forall|i: int| 0 <= i < r.len() implies (#[trigger] r[i]) < scores.len() && scores[
    r[i] as int] is Some by {
        assert(r[i] == at[o[i] as int]);
        assert(counts(scores[at[o[i] as int] as int], None));
    }
    assert forall|i: int, j: int| 0 <= i < r.len() && 0 <= j < r.len() && i != j implies r[i]
        != r[j] by {
        assert(o[i] != o[j]);
        let a = o[i] as int;
        let b = o[j] as int;
        if a < b {
            assert(at[a] < at[b]);
        } else {
            assert(at[b] < at[a]);
        }
    }
    assert forall|i: int, j: int| 0 <= i < j < r.len() implies scores[#[trigger] r[i] as int]->0
        >= scores[#[trigger] r[j] as int]->0 by {
        assert(precedes(keys, Direction::Descending, o[i] as int, o[j] as int));
        assert(keys[o[i] as int] == scores[r[i] as int]->0);
        assert(keys[o[j] as int] == scores[r[j] as int]->0);
    }
}

proof fn lemma_positions_rise(keys: Seq<Option<i64>>, bound: Option<i64>)
    requires
        keys.len() <= usize::MAX,
    ensures
        forall|i: int, j: int|
            0 <= i < j < positions(keys, bound).len() ==> #[trigger] positions(keys, bound)[i]
                < #[trigger] positions(keys, bound)[j],
    decreases keys.len(),
{
    if keys.len() > 0 {
        let head = keys.drop_last();
        lemma_positions_rise(head, bound);
        lemma_positions(head, bound);
        let a = positions(keys, bound);
        let b = positions(head, bound);
        assert forall|i: int, j: int| 0 <= i < j < a.len() implies #[trigger] a[i]
            < #[trigger] a[j] by {
            assert(a[i] == b[i]);
            if j < b.len() {
                assert(a[j] == b[j]);
            }
        }
    }
}

/// The nodes that a search compares are exactly those with a vector in the field, in order.
pub proof fn law_candidates(nodes: Seq<Node>, field: Seq<char>)
    requires
        nodes.len() <= usize::MAX,
    ensures
        ({
            let r = with_vectors(nodes, field);
            &&& forall|k: int| 0 <= k < r.len() ==> (#[trigger] r[k]) < nodes.len()
            &&& forall|j: int, k: int| 0 <= j < k < r.len() ==> #[trigger] r[j] < #[trigger] r[k]
            &&& forall|i: int|
                0 <= i < nodes.len() ==> (r.contains(i as usize) <==> (#[trigger] nodes[
                    i]@).properties.dom().contains(field) && nodes[i]@.properties[field] is Vector)
        }),
    decreases nodes.len(),
{
    if nodes.len() > 0 {
        let head = nodes.drop_last();
        law_candidates(head, field);
        let b = with_vectors(head, field);
        let r = with_vectors(nodes, field);
        let n = nodes.len() - 1;
        assert forall|i: int| 0 <= i < nodes.len() implies (r.contains(i as usize) <==> (
        #[trigger] nodes[i]@).properties.dom().contains(field)
            && nodes[i]@.properties[field] is Vector) by {
            if i < n {
                assert(head[i] == nodes[i]);
                if b.contains(i as usize) {
                    let k = choose|k: int| 0 <= k < b.len() && b[k] == i as usize;
                    assert(r[k] == i as usize);
                }
                if r.contains(i as usize) {
                    let k = choose|k: int| 0 <= k < r.len() && r[k] == i as usize;
                    assert(b[k] == i as usize);
                }
            } else {
                if r.contains(i as usize) {
                    let k = choose|k: int| 0 <= k < r.len() && r[k] == i as usize;
                    if k < b.len() {
                        assert(b[k] < head.len());
                    }
                }
                if has_vector(nodes[n]@, field) {
                    assert(r[b.len() as int] == n as usize);
                }
            }
        }
        assert forall|j: int, k: int| 0 <= j < k < r.len() implies #[trigger] r[j]
            < #[trigger] r[k] by {
            assert(r[j] == b[j]);
            if k < b.len() {
                assert(r[k] == b[k]);
            }
        }
        assert forall|k: int| 0 <= k < r.len() implies (#[trigger] r[k]) < nodes.len() by {
            if k < b.len() {
                assert(r[k] == b[k]);
            }
        }
    }
}

} // verus!
