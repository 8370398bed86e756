//! Sharding: keys are spread over shards by a ring of hashes, so that a shard that joins
//! or leaves moves only its own share of the keys.

use vstd::prelude::*;
use vstd::string::*;
use vstd::utf8::encode_utf8;

use crate::distributed::bloom::{cells, BloomFilter};
use crate::storage::{EdgeId, NodeId};
use crate::text::{copy_str, decimal, push_decimal};

verus! {

/// The 64-bit XXH3 hash of `data`, as `xxhash_rust::xxh3::xxh3_64` computes it.
pub uninterp spec fn xxh3(data: Seq<u8>) -> u64;

/// Calls `xxhash_rust::xxh3::xxh3_64`, whose seed and secret are fixed: a function of the
/// bytes, named [`xxh3`].
#[verifier::external_body]
fn hash64(data: &[u8]) -> (r: u64)
    ensures
        r == xxh3(data@),
{
    xxhash_rust::xxh3::xxh3_64(data)
}

/// Configuration of a sharded database.
#[derive(Debug, Clone)]
pub struct ShardConfig {
    /// Number of shards.
    pub num_shards: usize,
    /// Number of points per shard on the ring.
    pub virtual_nodes: usize,
    /// Directory that holds the shards.
    pub base_path: String,
}

impl Default for ShardConfig {
    fn default() -> (r: Self)
        ensures
            r.num_shards == 16,
            r.virtual_nodes == 150,
            r.base_path@ == "."@,
    {
        ShardConfig { num_shards: 16, virtual_nodes: 150, base_path: copy_str(".") }
    }
}

/// Name of the directory of a shard: the number has at least four digits.
pub open spec fn shard_dir(id: nat) -> Seq<char> {
    "shard_"@ + (if id < 10 {
        seq!['0', '0', '0']
    } else if id < 100 {
        seq!['0', '0']
    } else if id < 1000 {
        seq!['0']
    } else {
        Seq::empty()
    }) + decimal(id)
}

/// Name of the directory of a shard.
pub fn shard_directory(id: usize) -> (r: String)
    ensures
        r@ == shard_dir(id as nat),
{
    let mut s = copy_str("shard_");
    let ghost head = s@;
    if id < 1000 {
        s.push('0');
    }
    if id < 100 {
        s.push('0');
    }
    if id < 10 {
        s.push('0');
    }
    assert(s@ =~= head + (if id < 10 {
        seq!['0', '0', '0']
    } else if id < 100 {
        seq!['0', '0']
    } else if id < 1000 {
        seq!['0']
    } else {
        Seq::empty()
    }));
    push_decimal(&mut s, id as u64);
    s
}

/// Name of the `i`-th point of a node on the ring.
pub open spec fn point_name(node: nat, i: nat) -> Seq<char> {
    "node_"@ + decimal(node) + "_"@ + decimal(i)
}

/// Place of the `i`-th point of a node on the ring.
pub open spec fn point(node: nat, i: nat) -> u64 {
    xxh3(encode_utf8(point_name(node, i)))
}

/// The first `k` places of a node on the ring.
pub open spec fn points(node: nat, k: nat) -> Set<u64> {
    Set::new(|h: u64| exists|i: nat| i < k && h == #[trigger] point(node, i))
}

/// Place `p` answers for hash `h`: it is the first place at or behind `h`, or the first
/// place of all where none lies behind.
pub open spec fn answers(ring: Map<u64, usize>, h: u64, p: u64) -> bool {
    &&& ring.dom().contains(p)
    &&& if p >= h {
        forall|q: u64| #[trigger] ring.dom().contains(q) && q >= h ==> q >= p
    } else {
        forall|q: u64| #[trigger] ring.dom().contains(q) ==> q < h && q >= p
    }
}

/// The node that owns hash `h`: that of the answering place, and 0 on an empty ring.
pub open spec fn owner(ring: Map<u64, usize>, h: u64) -> usize {
    if exists|p: u64| answers(ring, h, p) {
        ring[choose|p: u64| answers(ring, h, p)]
    } else {
        0
    }
}

/// At most one place answers for a hash.
pub proof fn lemma_one_answer(ring: Map<u64, usize>, h: u64, p: u64, q: u64)
    requires
        answers(ring, h, p),
        answers(ring, h, q),
    ensures
        p == q,
{
}

/// The answering place decides the owner.
pub proof fn lemma_owner(ring: Map<u64, usize>, h: u64, p: u64)
    requires
        answers(ring, h, p),
    ensures
        owner(ring, h) == ring[p],
{
    lemma_one_answer(ring, h, p, choose|q: u64| answers(ring, h, q));
}

/// The ring with the points of a node added.
pub open spec fn with_node(ring: Map<u64, usize>, node: usize, k: nat) -> Map<u64, usize> {
    Map::new(
        |h: u64| ring.dom().contains(h) || points(node as nat, k).contains(h),
        |h: u64|
            if points(node as nat, k).contains(h) {
                node
            } else {
                ring[h]
            },
    )
}

/// The ring with the points of a node taken off.
pub open spec fn without_node(ring: Map<u64, usize>, node: usize, k: nat) -> Map<u64, usize> {
    Map::new(
        |h: u64| ring.dom().contains(h) && !points(node as nat, k).contains(h),
        |h: u64| ring[h],
    )
}

/// Consistent hash ring: places in ascending order, each with the node it belongs to.
pub struct ConsistentHashRing {
    virtual_nodes: usize,
    ring: Vec<(u64, usize)>,
}

/// The places of the ring as a map.
pub open spec fn ring_map(v: Seq<(u64, usize)>) -> Map<u64, usize> {
    Map::new(
        |h: u64| exists|i: int| 0 <= i < v.len() && (#[trigger] v[i]).0 == h,
        |h: u64| v[choose|i: int| 0 <= i < v.len() && (#[trigger] v[i]).0 == h].1,
    )
}

/// Places in strictly ascending order.
pub open spec fn ascending(v: Seq<(u64, usize)>) -> bool {
    forall|i: int, j: int| 0 <= i < j < v.len() ==> (#[trigger] v[i]).0 < (#[trigger] v[j]).0
}

proof fn lemma_ring_map_at(v: Seq<(u64, usize)>, i: int)
    requires
        ascending(v),
        0 <= i < v.len(),
    ensures
        ring_map(v).dom().contains(v[i].0),
        ring_map(v)[v[i].0] == v[i].1,
{
    let h = v[i].0;
    let j = choose|j: int| 0 <= j < v.len() && (#[trigger] v[j]).0 == h;
    if j < i {
        assert(v[j].0 < v[i].0);
    } else if i < j {
        assert(v[i].0 < v[j].0);
    }
}

impl ConsistentHashRing {
    /// The places of the ring.
    pub closed spec fn places(&self) -> Map<u64, usize> {
        ring_map(self.ring@)
    }

    /// Number of points per node.
    pub closed spec fn spec_virtual_nodes(&self) -> nat {
        self.virtual_nodes as nat
    }

    /// The places stand in ascending order.
    pub closed spec fn wf(&self) -> bool {
        ascending(self.ring@)
    }

    /// Creates an empty ring with a number of points per node.
    pub fn new(virtual_nodes: usize) -> (r: Self)
        ensures
            r.wf(),
            r.spec_virtual_nodes() == virtual_nodes,
            r.places() == Map::<u64, usize>::empty(),
    {
        let r = ConsistentHashRing { virtual_nodes, ring: Vec::new() };
        assert(r.places() =~= Map::<u64, usize>::empty());
        r
    }

    /// First index whose place is at or behind `h`.
    fn lower_bound(&self, h: u64) -> (r: usize)
        requires
            self.wf(),
        ensures
            r <= self.ring@.len(),
            forall|i: int| 0 <= i < r ==> (#[trigger] self.ring@[i]).0 < h,
            forall|i: int| r <= i < self.ring@.len() ==> (#[trigger] self.ring@[i]).0 >= h,
    {
        let mut lo: usize = 0;
        let mut hi: usize = self.ring.len();
        while lo < hi
            invariant
                self.wf(),
                lo <= hi <= self.ring@.len(),
                forall|i: int| 0 <= i < lo ==> (#[trigger] self.ring@[i]).0 < h,
                forall|i: int| hi <= i < self.ring@.len() ==> (#[trigger] self.ring@[i]).0 >= h,
            decreases hi - lo,
        {
            let mid: usize = lo + (hi - lo) / 2;
            if self.ring[mid].0 < h {
                assert forall|i: int| 0 <= i < mid + 1 implies (#[trigger] self.ring@[i]).0 < h by {
                    if i < mid {
                        assert(self.ring@[i].0 < self.ring@[mid as int].0);
                    }
                }
                lo = mid + 1;
            } else {
                assert forall|i: int| mid <= i < self.ring@.len() implies (#[trigger] self.ring@[i]).0
                    >= h by {
                    if mid < i {
                        assert(self.ring@[mid as int].0 < self.ring@[i].0);
                    }
                }
                hi = mid;
            }
        }
        lo
    }

    fn put(&mut self, h: u64, node: usize)
        requires
            old(self).wf(),
        ensures
            final(self).wf(),
            final(self).virtual_nodes == old(self).virtual_nodes,
            final(self).places() == old(self).places().insert(h, node),
    {
        let at: usize = self.lower_bound(h);
        let ghost before = self.ring@;
        if at < self.ring.len() && self.ring[at].0 == h {
            self.ring.set(at, (h, node));
        } else {
            self.ring.insert(at, (h, node));
        }
        proof {
            let after = self.ring@;
            assert(ascending(after)) by {
                if before.len() == after.len() {
                    assert forall|i: int, j: int| 0 <= i < j < after.len() implies (
                    #[trigger] after[i]).0 < (#[trigger] after[j]).0 by {
                        assert(before[i].0 < before[j].0);
                    }
                } else {
                    assert forall|i: int, j: int| 0 <= i < j < after.len() implies (
                    #[trigger] after[i]).0 < (#[trigger] after[j]).0 by {
                        if j < at {
                            assert(before[i].0 < before[j].0);
                        } else if j == at {
                            assert(after[i] == before[i]);
                        } else if i < at {
                            assert(after[i] == before[i] && after[j] == before[j - 1]);
                        } else if i == at {
                            assert(after[j] == before[j - 1]);
                            if j - 1 > at {
                                assert(before[at as int].0 < before[j - 1].0);
                            }
                        } else {
                            assert(before[i - 1].0 < before[j - 1].0);
                        }
                    }
                }
            }
            let want = ring_map(before).insert(h, node);
            let shift = after.len() - before.len();
            assert forall|q: u64| ring_map(after).dom().contains(q) <==> want.dom().contains(q) by {
                if ring_map(after).dom().contains(q) {
                    let i = choose|i: int| 0 <= i < after.len() && (#[trigger] after[i]).0 == q;
                    if q != h {
                        let k = if i < at {
                            i
                        } else {
                            i - shift
                        };
                        assert(before[k].0 == q);
                    }
                }
                if q == h {
                    assert(after[at as int].0 == h);
                } else if ring_map(before).dom().contains(q) {
                    let i = choose|i: int| 0 <= i < before.len() && (#[trigger] before[i]).0 == q;
                    let k = if i < at {
                        i
                    } else {
                        i + shift
                    };
                    assert(after[k].0 == q);
                }
            }
            assert forall|q: u64| want.dom().contains(q) implies ring_map(after)[q] == want[q] by {
                let i = choose|i: int| 0 <= i < after.len() && (#[trigger] after[i]).0 == q;
                lemma_ring_map_at(after, i);
                if q != h {
                    let k = if i < at {
                        i
                    } else {
                        i - shift
                    };
                    assert(before[k] == after[i]);
                    lemma_ring_map_at(before, k);
                } else {
                    lemma_ring_map_at(after, at as int);
                }
            }
            assert(ring_map(after) =~= want);
        }
    }

    fn take_off(&mut self, h: u64)
        requires
            old(self).wf(),
        ensures
            final(self).wf(),
            final(self).virtual_nodes == old(self).virtual_nodes,
            final(self).places() == old(self).places().remove(h),
    {
        let at: usize = self.lower_bound(h);
        let ghost before = self.ring@;
        if at < self.ring.len() && self.ring[at].0 == h {
            self.ring.remove(at);
            proof {
                let after = self.ring@;
                assert forall|i: int, j: int| 0 <= i < j < after.len() implies (
                #[trigger] after[i]).0 < (#[trigger] after[j]).0 by {
                    let a = if i < at {
                        i
                    } else {
                        i + 1
                    };
                    let b = if j < at {
                        j
                    } else {
                        j + 1
                    };
                    assert(before[a].0 < before[b].0);
                }
                let want = ring_map(before).remove(h);
                assert forall|q: u64|
                    ring_map(after).dom().contains(q) <==> want.dom().contains(q) by {
                    if ring_map(after).dom().contains(q) {
                        let i = choose|i: int| 0 <= i < after.len() && (#[trigger] after[i]).0 == q;
                        let k = if i < at {
                            i
                        } else {
                            i + 1
                        };
                        assert(before[k].0 == q);
                        if k < at {
                            assert(before[k].0 < before[at as int].0);
                        } else {
                            assert(before[at as int].0 < before[k].0);
                        }
                    }
                    if want.dom().contains(q) {
                        let i = choose|i: int|
                            0 <= i < before.len() && (#[trigger] before[i]).0 == q;
                        let k = if i < at {
                            i
                        } else {
                            i - 1
                        };
                        assert(after[k].0 == q);
                    }
                }
                assert forall|q: u64| want.dom().contains(q) implies ring_map(after)[q]
                    == want[q] by {
                    let i = choose|i: int| 0 <= i < after.len() && (#[trigger] after[i]).0 == q;
                    let k = if i < at {
                        i
                    } else {
                        i + 1
                    };
                    lemma_ring_map_at(after, i);
                    lemma_ring_map_at(before, k);
                }
                assert(ring_map(after) =~= want);
            }
        } else {
            proof {
                assert(!ring_map(before).dom().contains(h)) by {
                    if ring_map(before).dom().contains(h) {
                        let i = choose|i: int|
                            0 <= i < before.len() && (#[trigger] before[i]).0 == h;
                        if i > at {
                            assert(before[at as int].0 < before[i].0);
                        }
                    }
                }
                assert(self.places() =~= ring_map(before).remove(h));
            }
        }
    }

    fn point_hash(node: usize, i: usize) -> (h: u64)
        ensures
            h == point(node as nat, i as nat),
    {
        let mut name = copy_str("node_");
        push_decimal(&mut name, node as u64);
        crate::text::push_str(&mut name, "_");
        push_decimal(&mut name, i as u64);
        hash64(name.as_str().as_bytes())
    }

    /// Adds a node: its points now belong to it.
    pub fn add_node(&mut self, node_id: usize)
        requires
            old(self).wf(),
        ensures
            final(self).wf(),
            final(self).spec_virtual_nodes() == old(self).spec_virtual_nodes(),
            final(self).places() == with_node(
                old(self).places(),
                node_id,
                old(self).spec_virtual_nodes(),
            ),
    {
        let ghost start = self.places();
        let mut i: usize = 0;
        proof {
            assert(self.places() =~= with_node(start, node_id, 0));
        }
        while i < self.virtual_nodes
            invariant
                i <= self.virtual_nodes,
                self.wf(),
                self.virtual_nodes == old(self).virtual_nodes,
                self.places() == with_node(start, node_id, i as nat),
            decreases self.virtual_nodes - i,
        {
            let ghost had = self.places();
            let h: u64 = ConsistentHashRing::point_hash(node_id, i);
            self.put(h, node_id);
            proof {
                lemma_points_step(node_id as nat, i as nat);
                assert(had.insert(h, node_id) =~= with_node(start, node_id, (i + 1) as nat));
            }
            i = i + 1;
        }
    }

    /// Takes the points of a node off the ring.
    pub fn remove_node(&mut self, node_id: usize)
        requires
            old(self).wf(),
        ensures
            final(self).wf(),
            final(self).spec_virtual_nodes() == old(self).spec_virtual_nodes(),
            final(self).places() == without_node(
                old(self).places(),
                node_id,
                old(self).spec_virtual_nodes(),
            ),
    {
        let ghost start = self.places();
        let mut i: usize = 0;
        proof {
            assert(self.places() =~= without_node(start, node_id, 0));
        }
        while i < self.virtual_nodes
            invariant
                i <= self.virtual_nodes,
                self.wf(),
                self.virtual_nodes == old(self).virtual_nodes,
                self.places() == without_node(start, node_id, i as nat),
            decreases self.virtual_nodes - i,
        {
            let ghost had = self.places();
            let h: u64 = ConsistentHashRing::point_hash(node_id, i);
            self.take_off(h);
            proof {
                lemma_points_step(node_id as nat, i as nat);
                assert(had.remove(h) =~= without_node(start, node_id, (i + 1) as nat));
            }
            i = i + 1;
        }
    }

    /// The node that owns a key.
    pub fn get_node(&self, key: &[u8]) -> (r: usize)
        requires
            self.wf(),
        ensures
            r == owner(self.places(), xxh3(key@)),
    {
        let ghost m = self.places();
        if self.ring.len() == 0 {
            assert(forall|p: u64| !m.dom().contains(p));
            return 0;
        }
        let h: u64 = hash64(key);
        let at: usize = self.lower_bound(h);
        let pick: usize = if at < self.ring.len() {
            at
        } else {
            0
        };
        proof {
            let p = self.ring@[pick as int].0;
            lemma_ring_map_at(self.ring@, pick as int);
            assert(answers(m, h, p)) by {
                assert forall|q: u64| #[trigger] m.dom().contains(q) implies (if p >= h {
                    q >= h ==> q >= p
                } else {
                    q < h && q >= p
                }) by {
                    let i = choose|i: int|
                        0 <= i < self.ring@.len() && (#[trigger] self.ring@[i]).0 == q;
                    if pick < i {
                        assert(self.ring@[pick as int].0 < self.ring@[i].0);
                    }
                }
            }
            lemma_owner(m, h, p);
        }
        self.ring[pick].1
    }
}

proof fn lemma_points_step(node: nat, i: nat)
    ensures
        forall|h: u64|
            points(node, i + 1).contains(h) <==> points(node, i).contains(h) || h == point(node, i),
{
    assert forall|h: u64|
        points(node, i + 1).contains(h) <==> points(node, i).contains(h) || h == point(
            node,
            i,
        ) by {
        if points(node, i + 1).contains(h) {
            let j = choose|j: nat| j < i + 1 && h == #[trigger] point(node, j);
            if j < i {
                assert(h == point(node, j));
            }
        }
        if points(node, i).contains(h) {
            let j = choose|j: nat| j < i && h == #[trigger] point(node, j);
            assert(h == point(node, j));
        }
        if h == point(node, i) {
            assert(points(node, i + 1).contains(h));
        }
    }
}

proof fn lemma_least(s: Set<u64>, lo: u64, x: u64) -> (m: u64)
    requires
        s.contains(x),
        lo <= x,
    ensures
        s.contains(m),
        lo <= m,
        forall|q: u64| #[trigger] s.contains(q) && q >= lo ==> q >= m,
    decreases x - lo,
{
    if s.contains(lo) {
        lo
    } else {
        let m = lemma_least(s, (lo + 1) as u64, x);
        assert forall|q: u64| #[trigger] s.contains(q) && q >= lo implies q >= m by {}
        m
    }
}

/// On a ring with a place, some place answers for every hash.
pub proof fn lemma_some_answer(ring: Map<u64, usize>, h: u64, x: u64) -> (p: u64)
    requires
        ring.dom().contains(x),
    ensures
        answers(ring, h, p),
{
    if exists|y: u64| #[trigger] ring.dom().contains(y) && y >= h {
        let y = choose|y: u64| #[trigger] ring.dom().contains(y) && y >= h;
        lemma_least(ring.dom(), h, y)
    } else {
        lemma_least(ring.dom(), 0, x)
    }
}

/// A node that joins takes keys only for itself: every key keeps its owner or goes to the
/// new node.
pub proof fn law_joining_node_takes_only_its_share(
    ring: Map<u64, usize>,
    node: usize,
    k: nat,
    h: u64,
)
    ensures
        owner(with_node(ring, node, k), h) == owner(ring, h) || owner(with_node(ring, node, k), h)
            == node,
{
    let after = with_node(ring, node, k);
    if exists|x: u64| #[trigger] ring.dom().contains(x) {
        let x = choose|x: u64| #[trigger] ring.dom().contains(x);
        let p = lemma_some_answer(ring, h, x);
        assert(after.dom().contains(x));
        let q = lemma_some_answer(after, h, x);
        lemma_owner(ring, h, p);
        lemma_owner(after, h, q);
        assert(after.dom().contains(p));
        if !points(node as nat, k).contains(q) {
            assert(ring.dom().contains(q));
        }
    } else if exists|p: u64| answers(after, h, p) {
        let q = choose|p: u64| answers(after, h, p);
        lemma_owner(after, h, q);
        assert(points(node as nat, k).contains(q));
    }
}

/// A node that leaves moves only the keys that its points answered for.
pub proof fn law_leaving_node_gives_up_only_its_share(
    ring: Map<u64, usize>,
    node: usize,
    k: nat,
    h: u64,
    p: u64,
)
    requires
        answers(ring, h, p),
        !points(node as nat, k).contains(p),
    ensures
        owner(without_node(ring, node, k), h) == owner(ring, h),
{
    let after = without_node(ring, node, k);
    assert(answers(after, h, p));
    lemma_owner(ring, h, p);
    lemma_owner(after, h, p);
}

/// Whatever owns a key was put on the ring, if anything was: a ring whose places belong to
/// the nodes below `n` sends every key to one of them.
pub proof fn law_owner_is_a_node(ring: Map<u64, usize>, n: usize, h: u64)
    requires
        n > 0,
        forall|p: u64| #[trigger] ring.dom().contains(p) ==> ring[p] < n,
    ensures
        owner(ring, h) < n,
{
}

/// The ring of the nodes below `n` with `k` points each.
pub open spec fn ring_of(n: nat, k: nat) -> Map<u64, usize>
    decreases n,
{
    if n == 0 {
        Map::empty()
    } else {
        with_node(ring_of((n - 1) as nat, k), (n - 1) as usize, k)
    }
}

proof fn lemma_ring_of_nodes(n: nat, k: nat)
    requires
        n <= usize::MAX,
    ensures
        forall|p: u64| #[trigger] ring_of(n, k).dom().contains(p) ==> ring_of(n, k)[p] < n,
    decreases n,
{
    if n > 0 {
        lemma_ring_of_nodes((n - 1) as nat, k);
        let before = ring_of((n - 1) as nat, k);
        assert forall|p: u64| #[trigger] ring_of(n, k).dom().contains(p) implies ring_of(n, k)[p]
            < n by {
            if !points((n - 1) as nat, k).contains(p) {
                assert(before.dom().contains(p));
            }
        }
    }
}

/// Routing of a sharded database: which shard a key belongs to, and which keys a shard may
/// hold.
pub struct ShardManager {
    config: ShardConfig,
    ring: ConsistentHashRing,
    filters: Vec<BloomFilter>,
}

impl ShardManager {
    /// Number of shards.
    pub closed spec fn shard_count(&self) -> nat {
        self.config.num_shards as nat
    }

    /// Number of points per shard.
    pub closed spec fn points_per_shard(&self) -> nat {
        self.config.virtual_nodes as nat
    }

    /// The Bloom filters of the shards.
    pub closed spec fn filter(&self, shard: int) -> BloomFilter {
        self.filters@[shard]
    }

    /// The ring holds all shards, and every shard has a usable filter.
    pub closed spec fn wf(&self) -> bool {
        &&& self.config.num_shards > 0
        &&& self.ring.wf()
        &&& self.ring.places() == ring_of(self.shard_count(), self.points_per_shard())
        &&& self.filters@.len() == self.shard_count()
        &&& forall|i: int| 0 <= i < self.filters@.len() ==> (#[trigger] self.filters@[i]).usable()
    }

    /// The shard that owns a key.
    pub open spec fn home(&self, key: Seq<u8>) -> usize {
        owner(ring_of(self.shard_count(), self.points_per_shard()), xxh3(key))
    }

    /// A shard number by plain remainder, for callers without a ring.
    pub fn shard_for_key(key: &[u8], num_shards: u32) -> (r: u32)
        requires
            num_shards > 0,
        ensures
            r == xxh3(key@) as int % num_shards as int,
            r < num_shards,
    {
        let h: u64 = hash64(key);
        (h % (num_shards as u64)) as u32
    }

    /// Sets up the routing over empty filters of the given size.
    pub fn new(config: ShardConfig, filter_bits: usize, filter_hashes: u32) -> (r: Self)
        requires
            config.num_shards > 0,
            filter_bits > 0 || filter_hashes == 0,
        ensures
            r.wf(),
            r.shard_count() == config.num_shards,
            r.points_per_shard() == config.virtual_nodes,
            forall|i: int|
                0 <= i < config.num_shards ==> {
                    &&& (#[trigger] r.filter(i)).marks() == Set::<int>::empty()
                    &&& r.filter(i).spec_num_bits() == filter_bits
                    &&& r.filter(i).spec_num_hashes() == filter_hashes
                    &&& r.filter(i).spec_count() == 0
                },
    {
        let mut ring = ConsistentHashRing::new(config.virtual_nodes);
        let mut filters: Vec<BloomFilter> = Vec::new();
        let mut i: usize = 0;
        while i < config.num_shards
            invariant
                i <= config.num_shards,
                filter_bits > 0 || filter_hashes == 0,
                ring.wf(),
                ring.spec_virtual_nodes() == config.virtual_nodes,
                ring.places() == ring_of(i as nat, config.virtual_nodes as nat),
                filters@.len() == i,
                forall|j: int|
                    0 <= j < i ==> {
                        &&& (#[trigger] filters@[j]).usable()
                        &&& filters@[j].marks() == Set::<int>::empty()
                        &&& filters@[j].spec_num_bits() == filter_bits
                        &&& filters@[j].spec_num_hashes() == filter_hashes
                        &&& filters@[j].spec_count() == 0
                    },
            decreases config.num_shards - i,
        {
            ring.add_node(i);
            filters.push(BloomFilter::with_params(filter_bits, filter_hashes));
            i = i + 1;
        }
        ShardManager { config, ring, filters }
    }

    /// Whether the filters mark exactly some stored nodes, given by shard.
    pub open spec fn marks_stored(&self, stored: Seq<Vec<NodeId>>) -> bool {
        forall|i: int|
            0 <= i < stored.len() ==> (#[trigger] self.filter(i)).marks() == marked(
                stored[i]@,
                self.filter(i).spec_num_hashes(),
                self.filter(i).spec_num_bits(),
            ) && self.filter(i).spec_count() == stored[i]@.len()
    }

    /// Sets up the routing over shards that hold nodes already: the filter of each shard marks
    /// the nodes that the shard holds.
    pub fn open(
        config: ShardConfig,
        filter_bits: usize,
        filter_hashes: u32,
        stored: &[Vec<NodeId>],
    ) -> (r: Self)
        requires
            config.num_shards > 0,
            filter_bits > 0 || filter_hashes == 0,
            stored@.len() == config.num_shards,
        ensures
            r.wf(),
            r.shard_count() == config.num_shards,
            r.points_per_shard() == config.virtual_nodes,
            forall|i: int|
                0 <= i < config.num_shards ==> {
                    &&& (#[trigger] r.filter(i)).spec_num_bits() == filter_bits
                    &&& r.filter(i).spec_num_hashes() == filter_hashes
                },
            r.marks_stored(stored@),
            forall|i: int, j: int|
                #![trigger stored@[i]@[j]]
                0 <= i < stored@.len() && 0 <= j < stored@[i]@.len() ==> r.filter(i).admits(
                    stored@[i]@[j]@,
                ),
    {
        let ghost shards = config.num_shards as nat;
        let ghost per_shard = config.virtual_nodes as nat;
        let mut manager = ShardManager::new(config, filter_bits, filter_hashes);
        let ghost k = filter_hashes as int;
        let ghost n = filter_bits as int;
        let mut i: usize = 0;
        while i < stored.len()
            invariant
                i <= stored@.len(),
                stored@.len() == shards,
                k == filter_hashes,
                n == filter_bits,
                manager.wf(),
                manager.shard_count() == shards,
                manager.points_per_shard() == per_shard,
                forall|a: int|
                    0 <= a < shards ==> {
                        &&& (#[trigger] manager.filter(a)).spec_num_bits() == n
                        &&& manager.filter(a).spec_num_hashes() == k
                        &&& a < i ==> manager.filter(a).marks() == marked(stored@[a]@, k, n)
                            && manager.filter(a).spec_count() == stored@[a]@.len()
                        &&& a >= i ==> manager.filter(a).marks() == Set::<int>::empty()
                            && manager.filter(a).spec_count() == 0
                    },
            decreases stored@.len() - i,
        {
            let ids = &stored[i];
            let mut j: usize = 0;
            proof {
                assert(manager.filter(i as int).marks() == Set::<int>::empty());
                assert(marked(ids@.take(0), k, n) =~= Set::<int>::empty());
            }
            while j < ids.len()
                invariant
                    i < stored@.len(),
                    *ids == stored@[i as int],
                    j <= ids@.len(),
                    stored@.len() == shards,
                    k == filter_hashes,
                    n == filter_bits,
                    manager.wf(),
                    manager.shard_count() == shards,
                    manager.points_per_shard() == per_shard,
                    manager.filter(i as int).marks() == marked(ids@.take(j as int), k, n),
                    manager.filter(i as int).spec_count() == j,
                    forall|a: int|
                        0 <= a < shards ==> {
                            &&& (#[trigger] manager.filter(a)).spec_num_bits() == n
                            &&& manager.filter(a).spec_num_hashes() == k
                            &&& a < i ==> manager.filter(a).marks() == marked(stored@[a]@, k, n)
                                && manager.filter(a).spec_count() == stored@[a]@.len()
                            &&& a > i ==> manager.filter(a).marks() == Set::<int>::empty()
                                && manager.filter(a).spec_count() == 0
                        },
                decreases ids@.len() - j,
            {
                let ghost before = manager;
                manager.mark(i, ids[j].uuid.as_slice());
                proof {
                    assert(before.filter(i as int).spec_num_bits() == n);
                    lemma_marked_step(ids@, j as int, k, n);
                    assert forall|a: int| 0 <= a < shards && a != i implies #[trigger] manager.filter(
                        a,
                    ) == before.filter(a) by {}
                }
                j = j + 1;
            }
            assert(ids@.take(j as int) =~= ids@);
            i = i + 1;
        }
        proof {
            assert forall|a: int, b: int|
                #![trigger stored@[a]@[b]]
                0 <= a < stored@.len() && 0 <= b < stored@[a]@.len() implies manager.filter(
                a,
            ).admits(stored@[a]@[b]@) by {
                lemma_marked_admits(manager.filter(a), stored@[a]@, b);
            }
        }
        manager
    }

    /// The shard of a key.
    pub fn get_shard(&self, key: &[u8]) -> (r: usize)
        requires
            self.wf(),
        ensures
            r == self.home(key@),
            r < self.shard_count(),
    {
        proof {
            lemma_ring_of_nodes(self.shard_count(), self.points_per_shard());
            law_owner_is_a_node(self.ring.places(), self.config.num_shards, xxh3(key@));
        }
        self.ring.get_node(key)
    }

    /// The shard of a node, and of the edges that start there.
    pub fn get_shard_for_node(&self, id: &NodeId) -> (r: usize)
        requires
            self.wf(),
        ensures
            r == self.home(id@),
            r < self.shard_count(),
    {
        self.get_shard(id.uuid.as_slice())
    }

    fn mark(&mut self, shard: usize, key: &[u8])
        requires
            old(self).wf(),
            shard < old(self).shard_count(),
            old(self).filter(shard as int).spec_count() < usize::MAX,
        ensures
            final(self).wf(),
            final(self).shard_count() == old(self).shard_count(),
            final(self).points_per_shard() == old(self).points_per_shard(),
            final(self).filter(shard as int).same_shape(&old(self).filter(shard as int)),
            final(self).filter(shard as int).spec_count() == old(self).filter(
                shard as int,
            ).spec_count() + 1,
            final(self).filter(shard as int).marks() == old(self).filter(
                shard as int,
            ).marks().union(old(self).filter(shard as int).marks_of(key@)),
            forall|i: int|
                0 <= i < old(self).shard_count() && i != shard ==> #[trigger] final(self).filter(i)
                    == old(self).filter(i),
    {
        self.filters[shard].insert(key);
    }

    /// Routes a new node: its key goes into the filter of its shard.
    pub fn insert_node(&mut self, id: &NodeId) -> (r: usize)
        requires
            old(self).wf(),
            forall|i: int|
                0 <= i < old(self).shard_count() ==> (#[trigger] old(self).filter(
                    i,
                )).spec_count() < usize::MAX,
        ensures
            final(self).wf(),
            r == old(self).home(id@),
            routed(*old(self), *final(self), r, id@),
    {
        let shard: usize = self.get_shard_for_node(id);
        self.mark(shard, id.uuid.as_slice());
        shard
    }

    /// Where to look for a node: its shard, or nowhere if the shard's filter rules it out.
    pub fn get_node(&self, id: &NodeId) -> (r: Option<usize>)
        requires
            self.wf(),
        ensures
            r == (if self.filter(self.home(id@) as int).admits(id@) {
                Some(self.home(id@))
            } else {
                None
            }),
    {
        let shard: usize = self.get_shard_for_node(id);
        if self.filters[shard].may_contain(id.uuid.as_slice()) {
            Some(shard)
        } else {
            None
        }
    }

    /// Routes a new edge to the shard of its source; its key goes into that shard's filter.
    pub fn insert_edge(&mut self, from: &NodeId, id: &EdgeId) -> (r: usize)
        requires
            old(self).wf(),
            forall|i: int|
                0 <= i < old(self).shard_count() ==> (#[trigger] old(self).filter(
                    i,
                )).spec_count() < usize::MAX,
        ensures
            final(self).wf(),
            r == old(self).home(from@),
            routed(*old(self), *final(self), r, id@),
    {
        let shard: usize = self.get_shard_for_node(from);
        self.mark(shard, id.uuid.as_slice());
        shard
    }

    /// How many nodes to ask each shard for: an equal part of the limit, at least one.
    pub fn per_shard_limit(&self, limit: Option<usize>) -> (r: Option<usize>)
        requires
            self.wf(),
        ensures
            match limit {
                None => r is None,
                Some(l) => r == Some(
                    if l as int / self.shard_count() as int >= 1 {
                        (l as int / self.shard_count() as int) as usize
                    } else {
                        1
                    },
                ),
            },
    {
        match limit {
            None => None,
            Some(l) => {
                let part: usize = l / self.config.num_shards;
                Some(
                    if part >= 1 {
                        part
                    } else {
                        1
                    },
                )
            },
        }
    }
}

/// The bits that some nodes need in a filter.
pub open spec fn marked(ids: Seq<NodeId>, num_hashes: int, num_bits: int) -> Set<int> {
    Set::new(
        |p: int|
            exists|j: int|
                0 <= j < ids.len() && cells(#[trigger] ids[j]@, num_hashes, num_bits).contains(p),
    )
}

proof fn lemma_marked_step(ids: Seq<NodeId>, j: int, k: int, n: int)
    requires
        0 <= j < ids.len(),
    ensures
        marked(ids.take(j + 1), k, n) == marked(ids.take(j), k, n).union(cells(ids[j]@, k, n)),
{
    let before = ids.take(j);
    let after = ids.take(j + 1);
    assert forall|p: int|
        marked(after, k, n).contains(p) <==> marked(before, k, n).union(
            cells(ids[j]@, k, n),
        ).contains(p) by {
        if marked(after, k, n).contains(p) {
            let a = choose|a: int|
                0 <= a < after.len() && cells(#[trigger] after[a]@, k, n).contains(p);
            if a < j {
                assert(before[a] == after[a]);
            }
        }
        if marked(before, k, n).contains(p) {
            let a = choose|a: int|
                0 <= a < before.len() && cells(#[trigger] before[a]@, k, n).contains(p);
            assert(after[a] == before[a]);
        }
        if cells(ids[j]@, k, n).contains(p) {
            assert(after[j] == ids[j]);
        }
    }
    assert(marked(after, k, n) =~= marked(before, k, n).union(cells(ids[j]@, k, n)));
}

proof fn lemma_marked_admits(filter: BloomFilter, ids: Seq<NodeId>, j: int)
    requires
        0 <= j < ids.len(),
        filter.marks() == marked(ids, filter.spec_num_hashes(), filter.spec_num_bits()),
    ensures
        filter.admits(ids[j]@),
{
    assert forall|p: int| filter.marks_of(ids[j]@).contains(p) implies filter.marks().contains(
        p,
    ) by {
        assert(cells(ids[j]@, filter.spec_num_hashes(), filter.spec_num_bits()).contains(p));
    }
}

/// A node that its shard held when the shards were opened is found in that shard: the filter
/// admits it, so that `get_node` leads to its shard.
pub proof fn law_stored_node_is_found(manager: ShardManager, stored: Seq<Vec<NodeId>>, id: NodeId)
    requires
        manager.marks_stored(stored),
        (manager.home(id@) as int) < stored.len(),
        stored[manager.home(id@) as int]@.contains(id),
    ensures
        manager.filter(manager.home(id@) as int).admits(id@),
{
    let home = manager.home(id@) as int;
    let ids = stored[home]@;
    let j = choose|j: int| 0 <= j < ids.len() && ids[j] == id;
    lemma_marked_admits(manager.filter(home), ids, j);
}

/// A key was marked in the filter of one shard, and nothing else changed.
pub open spec fn routed(before: ShardManager, after: ShardManager, shard: usize, key: Seq<u8>) -> bool {
    &&& after.shard_count() == before.shard_count()
    &&& after.points_per_shard() == before.points_per_shard()
    &&& after.filter(shard as int).same_shape(&before.filter(shard as int))
    &&& after.filter(shard as int).marks() == before.filter(shard as int).marks().union(
        before.filter(shard as int).marks_of(key),
    )
    &&& forall|i: int|
        0 <= i < before.shard_count() && i != shard ==> #[trigger] after.filter(i) == before.filter(
            i,
        )
}

/// A node that was routed is found again in its shard.
pub proof fn law_routed_node_is_found(before: ShardManager, after: ShardManager, key: Seq<u8>)
    requires
        routed(before, after, before.home(key), key),
    ensures
        after.home(key) == before.home(key),
        after.filter(after.home(key) as int).admits(key),
{
    let s = before.home(key) as int;
    crate::distributed::bloom::law_no_false_negatives(before.filter(s), after.filter(s), key);
}

/// Routing one key loses no other: what was found before is found afterwards.
pub proof fn law_routing_loses_nothing(
    before: ShardManager,
    after: ShardManager,
    shard: usize,
    key: Seq<u8>,
    other: Seq<u8>,
)
    requires
        before.wf(),
        routed(before, after, shard, key),
        before.filter(before.home(other) as int).admits(other),
    ensures
        after.home(other) == before.home(other),
        after.filter(after.home(other) as int).admits(other),
{
    lemma_ring_of_nodes(before.shard_count(), before.points_per_shard());
    law_owner_is_a_node(
        ring_of(before.shard_count(), before.points_per_shard()),
        before.config.num_shards,
        xxh3(other),
    );
    let h = before.home(other) as int;
    assert(0 <= h < before.shard_count());
    if h != shard {
        assert(after.filter(h) == before.filter(h));
    }
}

/// Adds the nodes of one shard to those collected so far, up to the limit. Returns whether
/// the limit is reached, so that no further shard need be asked.
pub fn collect_limited<T>(all: &mut Vec<T>, more: Vec<T>, limit: Option<usize>) -> (done: bool)
    ensures
        match limit {
            None => !done && final(all)@ == old(all)@ + more@,
            Some(l) => {
                &&& done == (old(all)@.len() + more@.len() >= l)
                &&& final(all)@ == (if done {
                    (old(all)@ + more@).take(l as int)
                } else {
                    old(all)@ + more@
                })
            },
        },
{
    let mut extra = more;
    all.append(&mut extra);
    match limit {
        None => false,
        Some(l) => {
            if all.len() >= l {
                all.truncate(l);
                assert(all@ =~= (old(all)@ + more@).take(l as int));
                true
            } else {
                false
            }
        },
    }
}

/// Statistics of one shard.
#[derive(Debug, Clone, Copy)]
pub struct SingleShardStats {
    /// Shard number.
    pub id: usize,
    /// Number of nodes.
    pub node_count: u64,
    /// Number of edges.
    pub edge_count: u64,
    /// Size in bytes.
    pub size_bytes: u64,
}

/// Statistics of all shards.
#[derive(Debug, Clone)]
pub struct ShardStats {
    /// Number of shards.
    pub num_shards: usize,
    /// Number of nodes.
    pub total_nodes: u64,
    /// Number of edges.
    pub total_edges: u64,
    /// Size in bytes.
    pub total_size: u64,
    /// The shards one by one.
    pub shards: Vec<SingleShardStats>,
}

/// The sums of the counts of some shards.
pub open spec fn totals(s: Seq<SingleShardStats>) -> (int, int, int)
    decreases s.len(),
{
    if s.len() == 0 {
        (0, 0, 0)
    } else {
        let t = totals(s.drop_last());
        (t.0 + s.last().node_count, t.1 + s.last().edge_count, t.2 + s.last().size_bytes)
    }
}

proof fn lemma_totals_prefix(s: Seq<SingleShardStats>, k: int)
    requires
        0 <= k <= s.len(),
    ensures
        0 <= totals(s.take(k)).0 <= totals(s).0,
        0 <= totals(s.take(k)).1 <= totals(s).1,
        0 <= totals(s.take(k)).2 <= totals(s).2,
    decreases s.len(), s.len() - k,
{
    if k == s.len() {
        assert(s.take(k) =~= s);
        if s.len() > 0 {
            lemma_totals_prefix(s.drop_last(), s.len() - 1);
            assert(s.drop_last().take(s.len() - 1) =~= s.drop_last());
        }
    } else {
        lemma_totals_prefix(s.drop_last(), k);
        assert(s.drop_last().take(k) =~= s.take(k));
    }
}

impl ShardStats {
    /// Sums up the statistics of the shards.
    pub fn combine(shards: Vec<SingleShardStats>) -> (r: Self)
        requires
            totals(shards@).0 <= u64::MAX,
            totals(shards@).1 <= u64::MAX,
            totals(shards@).2 <= u64::MAX,
        ensures
            r.num_shards == shards@.len(),
            (r.total_nodes as int, r.total_edges as int, r.total_size as int) == totals(shards@),
            r.shards@ == shards@,
    {
        let mut total_nodes: u64 = 0;
        let mut total_edges: u64 = 0;
        let mut total_size: u64 = 0;
        let mut i: usize = 0;
        while i < shards.len()
            invariant
                i <= shards@.len(),
                totals(shards@).0 <= u64::MAX,
                totals(shards@).1 <= u64::MAX,
                totals(shards@).2 <= u64::MAX,
                (total_nodes as int, total_edges as int, total_size as int) == totals(
                    shards@.take(i as int),
                ),
            decreases shards@.len() - i,
        {
            proof {
                lemma_totals_prefix(shards@, i + 1);
                assert(shards@.take(i + 1).drop_last() =~= shards@.take(i as int));
            }
            let one = shards[i];
            total_nodes = total_nodes + one.node_count;
            total_edges = total_edges + one.edge_count;
            total_size = total_size + one.size_bytes;
            i = i + 1;
        }
        assert(shards@.take(i as int) =~= shards@);
        ShardStats { num_shards: shards.len(), total_nodes, total_edges, total_size, shards }
    }
}

/// The node that owns a hash is that of the first place of the ring at or behind the hash; where
/// none lies there, that of the first place of all.
pub proof fn law_owner_is_next_on_the_ring(ring: Map<u64, usize>, h: u64, p: u64)
    requires
        ring.dom().contains(p),
    ensures
        p >= h && (forall|q: u64| h <= q < p ==> !#[trigger] ring.dom().contains(q)) ==> owner(
            ring,
            h,
        ) == ring[p],
        (forall|q: u64| q >= h ==> !#[trigger] ring.dom().contains(q)) && (forall|q: u64|
            q < p ==> !#[trigger] ring.dom().contains(q)) ==> owner(ring, h) == ring[p],
        (forall|q: u64| !#[trigger] ring.dom().contains(q)) ==> owner(ring, h) == 0,
{
    if p >= h && (forall|q: u64| h <= q < p ==> !#[trigger] ring.dom().contains(q)) {
        assert(answers(ring, h, p));
        let r = choose|r: u64| answers(ring, h, r);
        assert(answers(ring, h, r));
        assert(r == p);
    }
    if (forall|q: u64| q >= h ==> !#[trigger] ring.dom().contains(q)) && (forall|q: u64|
        q < p ==> !#[trigger] ring.dom().contains(q)) {
        assert(answers(ring, h, p)) by {
            assert(p < h);
            assert forall|q: u64| #[trigger] ring.dom().contains(q) implies q < h && q >= p by {}
        }
        let r = choose|r: u64| answers(ring, h, r);
        assert(answers(ring, h, r));
        assert(r == p);
    }
}

/// A ring has all points of all its nodes, and no others. A point is that of its node, or of a
/// later node that has a point at the same place.
pub proof fn law_ring_has_all_points(n: nat, k: nat)
    requires
        n <= usize::MAX,
    ensures
        forall|node: nat, i: nat|
            node < n && i < k ==> ring_of(n, k).dom().contains(#[trigger] point(node, i))
                && ring_of(n, k)[point(node, i)] >= node,
        forall|h: u64| #[trigger]
            ring_of(n, k).dom().contains(h) ==> ring_of(n, k)[h] < n && exists|i: nat|
                i < k && h == #[trigger] point(ring_of(n, k)[h] as nat, i),
    decreases n,
{
    if n > 0 {
        let m = (n - 1) as nat;
        law_ring_has_all_points(m, k);
        let small = ring_of(m, k);
        let ring = ring_of(n, k);
        assert forall|node: nat, i: nat| node < n && i < k implies ring.dom().contains(
            #[trigger] point(node, i),
        ) && ring[point(node, i)] >= node by {
            if node < m {
                assert(small.dom().contains(point(node, i)));
            } else {
                assert(points(m, k).contains(point(node, i)));
            }
        }
        assert forall|h: u64| #[trigger] ring.dom().contains(h) implies ring[h] < n
            && exists|i: nat| i < k && h == #[trigger] point(ring[h] as nat, i) by {
            if points(m, k).contains(h) {
                let i = choose|i: nat| i < k && h == #[trigger] point(m, i);
                assert(h == point(ring[h] as nat, i));
            } else {
                assert(small.dom().contains(h));
                let i = choose|i: nat| i < k && h == #[trigger] point(small[h] as nat, i);
                assert(h == point(ring[h] as nat, i));
            }
        }
    }
}

/// The sums of the counts of two runs of shards are the sums of both; those of one shard are its
/// counts.
pub proof fn law_totals(a: Seq<SingleShardStats>, b: Seq<SingleShardStats>)
    ensures
        totals(a + b).0 == totals(a).0 + totals(b).0,
        totals(a + b).1 == totals(a).1 + totals(b).1,
        totals(a + b).2 == totals(a).2 + totals(b).2,
        b.len() == 1 ==> totals(b) == (
            b[0].node_count as int,
            b[0].edge_count as int,
            b[0].size_bytes as int,
        ),
    decreases b.len(),
{
    if b.len() == 0 {
        assert(a + b =~= a);
    } else {
        assert((a + b).drop_last() =~= a + b.drop_last());
        law_totals(a, b.drop_last());
        if b.len() == 1 {
            assert(totals(b.drop_last()) == (0int, 0int, 0int));
        }
    }
}

/// The directory of a shard is named by its number, with at least four digits; different shards
/// have different directories.
pub proof fn law_shard_directory(id: nat)
    ensures
        shard_dir(id).len() >= 10,
        shard_dir(id).take(6) == seq!['s', 'h', 'a', 'r', 'd', '_'],
        forall|i: int| 6 <= i < shard_dir(id).len() ==> '0' <= #[trigger] shard_dir(id)[i] <= '9',
        crate::text::digits_value(shard_dir(id).skip(6)) == id,
        shard_dir(id).len() > 10 ==> id >= 10000,
{
    reveal_strlit("shard_");
    crate::text::law_decimal(id);
    let d = decimal(id);
    let zeros = if id < 10 {
        seq!['0', '0', '0']
    } else if id < 100 {
        seq!['0', '0']
    } else if id < 1000 {
        seq!['0']
    } else {
        Seq::<char>::empty()
    };
    let s = shard_dir(id);
    assert(s =~= "shard_"@ + zeros + d);
    assert(s.take(6) =~= seq!['s', 'h', 'a', 'r', 'd', '_']);
    assert(s.skip(6) =~= zeros + d);
    lemma_leading_zeros(zeros, d);
    lemma_decimal_length(id);
    assert forall|i: int| 6 <= i < s.len() implies '0' <= #[trigger] s[i] <= '9' by {
        if i >= 6 + zeros.len() {
            assert(s[i] == decimal(id)[i - 6 - zeros.len()]);
        }
    }
}

proof fn lemma_leading_zeros(zeros: Seq<char>, d: Seq<char>)
    requires
        forall|i: int| 0 <= i < zeros.len() ==> #[trigger] zeros[i] == '0',
    ensures
        crate::text::digits_value(zeros + d) == crate::text::digits_value(d),
    decreases d.len(), zeros.len(),
{
    if d.len() > 0 {
        assert((zeros + d).drop_last() =~= zeros + d.drop_last());
        lemma_leading_zeros(zeros, d.drop_last());
    } else if zeros.len() > 0 {
        assert((zeros + d) =~= zeros);
        assert(zeros.drop_last() + d =~= zeros.drop_last());
        lemma_leading_zeros(zeros.drop_last(), d);
    } else {
        assert(zeros + d =~= d);
    }
}

proof fn lemma_decimal_length(n: nat)
    ensures
        n < 10 ==> decimal(n).len() == 1,
        10 <= n < 100 ==> decimal(n).len() == 2,
        100 <= n < 1000 ==> decimal(n).len() == 3,
        1000 <= n < 10000 ==> decimal(n).len() == 4,
        n >= 10000 ==> decimal(n).len() > 4,
{
    reveal_with_fuel(decimal, 6);
}

/// Points of the ring have different names where the nodes or the numbers differ.
pub proof fn law_point_names(a: nat, i: nat, b: nat, j: nat)
    ensures
        point_name(a, i) == point_name(b, j) ==> a == b && i == j,
{
    reveal_strlit("node_");
    reveal_strlit("_");
    crate::text::law_decimal(a);
    crate::text::law_decimal(b);
    crate::text::law_decimal(i);
    crate::text::law_decimal(j);
    let x = point_name(a, i);
    let y = point_name(b, j);
    if x == y {
        let m = decimal(a).len() as int;
        let n = decimal(b).len() as int;
        assert(x[5 + m] == '_');
        assert(y[5 + n] == '_');
        if m < n {
            assert(y[5 + m] == decimal(b)[m]);
        } else if n < m {
            assert(x[5 + n] == decimal(a)[n]);
        }
        assert(x.subrange(5, 5 + m) =~= decimal(a));
        assert(y.subrange(5, 5 + n) =~= decimal(b));
        assert(x.skip(6 + m) =~= decimal(i));
        assert(y.skip(6 + n) =~= decimal(j));
    }
}

} // verus!
