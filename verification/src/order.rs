//! Putting things in the order of their keys.

use vstd::prelude::*;
use vstd::set_lib::{lemma_int_range, lemma_subset_equality, set_int_range};

verus! {

/// Which way keys run.
#[derive(Debug, Clone, Copy, PartialEq, Eq, Structural)]
pub enum Direction {
    /// Smallest key first.
    Ascending,
    /// Largest key first.
    Descending,
}

/// Whether the thing at one index comes before that at another: by its key, or, where the
/// keys are equal, by its index.
pub open spec fn precedes(keys: Seq<i64>, way: Direction, a: int, b: int) -> bool {
    ||| keys[a] == keys[b] && a < b
    ||| way == Direction::Ascending && keys[a] < keys[b]
    ||| way == Direction::Descending && keys[a] > keys[b]
}

/// Indices in strict order.
pub open spec fn in_order(keys: Seq<i64>, way: Direction, r: Seq<usize>) -> bool {
    forall|i: int, j: int|
        0 <= i < j < r.len() ==> precedes(
            keys,
            way,
            #[trigger] r[i] as int,
            #[trigger] r[j] as int,
        )
}

/// The indices of all keys, in the order of the keys.
pub open spec fn ordered(keys: Seq<i64>, way: Direction, r: Seq<usize>) -> bool {
    &&& r.len() == keys.len()
    &&& forall|i: int| 0 <= i < r.len() ==> (#[trigger] r[i]) < keys.len()
    &&& in_order(keys, way, r)
}

fn first_is_left(keys: &[i64], way: Direction, a: usize, b: usize) -> (r: bool)
    requires
        a < b < keys@.len(),
    ensures
        r == precedes(keys@, way, a as int, b as int),
        !r ==> precedes(keys@, way, b as int, a as int),
{
    match way {
        Direction::Ascending => keys[a] <= keys[b],
        Direction::Descending => keys[a] >= keys[b],
    }
}

fn merge(
    keys: &[i64],
    way: Direction,
    left: &[usize],
    right: &[usize],
    Ghost(lo): Ghost<int>,
    Ghost(mid): Ghost<int>,
    Ghost(hi): Ghost<int>,
) -> (r: Vec<usize>)
    requires
        0 <= lo <= mid <= hi <= keys@.len(),
        left@.len() == mid - lo,
        right@.len() == hi - mid,
        forall|i: int| 0 <= i < left@.len() ==> lo <= #[trigger] left@[i] < mid,
        forall|i: int| 0 <= i < right@.len() ==> mid <= #[trigger] right@[i] < hi,
        in_order(keys@, way, left@),
        in_order(keys@, way, right@),
    ensures
        r@.len() == hi - lo,
        forall|i: int| 0 <= i < r@.len() ==> lo <= #[trigger] r@[i] < hi,
        in_order(keys@, way, r@),
{
    let mut out: Vec<usize> = Vec::new();
    let mut i: usize = 0;
    let mut j: usize = 0;
    while i < left.len() || j < right.len()
        invariant
            0 <= lo <= mid <= hi <= keys@.len(),
            left@.len() == mid - lo,
            right@.len() == hi - mid,
            forall|k: int| 0 <= k < left@.len() ==> lo <= #[trigger] left@[k] < mid,
            forall|k: int| 0 <= k < right@.len() ==> mid <= #[trigger] right@[k] < hi,
            in_order(keys@, way, left@),
            in_order(keys@, way, right@),
            i <= left@.len(),
            j <= right@.len(),
            out@.len() == i + j,
            forall|k: int| 0 <= k < out@.len() ==> lo <= #[trigger] out@[k] < hi,
            in_order(keys@, way, out@),
            forall|k: int, l: int|
                0 <= k < out@.len() && i <= l < left@.len() ==> precedes(
                    keys@,
                    way,
                    #[trigger] out@[k] as int,
                    #[trigger] left@[l] as int,
                ),
            forall|k: int, l: int|
                0 <= k < out@.len() && j <= l < right@.len() ==> precedes(
                    keys@,
                    way,
                    #[trigger] out@[k] as int,
                    #[trigger] right@[l] as int,
                ),
        decreases left@.len() - i + right@.len() - j,
    {
        let take_left: bool = if i >= left.len() {
            false
        } else if j >= right.len() {
            true
        } else {
            first_is_left(keys, way, left[i], right[j])
        };
        let ghost was = out@;
        if take_left {
            out.push(left[i]);
            proof {
                assert forall|l: int| j <= l < right@.len() implies precedes(
                    keys@,
                    way,
                    left@[i as int] as int,
                    #[trigger] right@[l] as int,
                ) by {
                    if l > j {
                        assert(precedes(keys@, way, right@[j as int] as int, right@[l] as int));
                    }
                }
            }
            i = i + 1;
        } else {
            out.push(right[j]);
            proof {
                assert forall|l: int| i <= l < left@.len() implies precedes(
                    keys@,
                    way,
                    right@[j as int] as int,
                    #[trigger] left@[l] as int,
                ) by {
                    if l > i {
                        assert(precedes(keys@, way, left@[i as int] as int, left@[l] as int));
                    }
                }
            }
            j = j + 1;
        }
        assert(in_order(keys@, way, out@)) by {
            assert forall|a: int, b: int| 0 <= a < b < out@.len() implies precedes(
                keys@,
                way,
                #[trigger] out@[a] as int,
                #[trigger] out@[b] as int,
            ) by {
                if b < was.len() {
                    assert(was[a] == out@[a] && was[b] == out@[b]);
                } else {
                    assert(was[a] == out@[a]);
                }
            }
        }
    }
    out
}

fn sort_range(keys: &[i64], way: Direction, lo: usize, hi: usize) -> (r: Vec<usize>)
    requires
        lo <= hi <= keys@.len(),
    ensures
        r@.len() == hi - lo,
        forall|i: int| 0 <= i < r@.len() ==> lo <= #[trigger] r@[i] < hi,
        in_order(keys@, way, r@),
    decreases hi - lo,
{
    if hi - lo <= 1 {
        let mut out: Vec<usize> = Vec::new();
        if lo < hi {
            out.push(lo);
        }
        return out;
    }
    let mid: usize = lo + (hi - lo) / 2;
    let left = sort_range(keys, way, lo, mid);
    let right = sort_range(keys, way, mid, hi);
    merge(
        keys,
        way,
        left.as_slice(),
        right.as_slice(),
        Ghost(lo as int),
        Ghost(mid as int),
        Ghost(hi as int),
    )
}

/// The indices of all keys, in the order of the keys; equal keys keep their order.
pub fn order_by(keys: &[i64], way: Direction) -> (r: Vec<usize>)
    ensures
        ordered(keys@, way, r@),
{
    sort_range(keys, way, 0, keys.len())
}

/// An order names every index exactly once.
pub proof fn lemma_ordered_is_complete(keys: Seq<i64>, way: Direction, r: Seq<usize>, i: int)
    requires
        ordered(keys, way, r),
        0 <= i < keys.len(),
    ensures
        exists|j: int| 0 <= j < r.len() && #[trigger] r[j] == i,
        r.no_duplicates(),
{
    let n = keys.len() as int;
    let s = r.map_values(|x: usize| x as int);
    assert(r.no_duplicates()) by {
        assert forall|a: int, b: int| 0 <= a < r.len() && 0 <= b < r.len() && a != b implies r[a]
            != r[b] by {
            if a < b {
                assert(precedes(keys, way, r[a] as int, r[b] as int));
            } else {
                assert(precedes(keys, way, r[b] as int, r[a] as int));
            }
        }
    }
    assert(s.no_duplicates()) by {
        assert forall|a: int, b: int| 0 <= a < s.len() && 0 <= b < s.len() && a != b implies s[a]
            != s[b] by {
            assert(r[a] != r[b]);
        }
    }
    s.unique_seq_to_set();
    lemma_int_range(0, n);
    let all = set_int_range(0, n);
    assert(s.to_set().subset_of(all)) by {
        assert forall|x: int| s.to_set().contains(x) implies all.contains(x) by {
            let k = choose|k: int| 0 <= k < s.len() && s[k] == x;
            assert(r[k] < keys.len());
        }
    }
    lemma_subset_equality(s.to_set(), all);
    assert(s.to_set().contains(i));
    let j = choose|j: int| 0 <= j < s.len() && s[j] == i;
    assert(r[j] == i);
}

/// There is one order only.
pub proof fn law_order_is_unique(keys: Seq<i64>, way: Direction, r: Seq<usize>, s: Seq<usize>)
    requires
        ordered(keys, way, r),
        ordered(keys, way, s),
    ensures
        r == s,
{
    lemma_same_prefix(keys, way, r, s, r.len() as int);
    assert(r =~= s);
}

proof fn lemma_same_prefix(
    keys: Seq<i64>,
    way: Direction,
    r: Seq<usize>,
    s: Seq<usize>,
    n: int,
)
    requires
        ordered(keys, way, r),
        ordered(keys, way, s),
        0 <= n <= r.len(),
    ensures
        forall|i: int| 0 <= i < n ==> #[trigger] r[i] == s[i],
    decreases n,
{
    if n > 0 {
        lemma_same_prefix(keys, way, r, s, n - 1);
        let a = r[n - 1] as int;
        let b = s[n - 1] as int;
        if a != b {
            lemma_ordered_is_complete(keys, way, s, a);
            lemma_ordered_is_complete(keys, way, r, b);
            let j = choose|j: int| 0 <= j < s.len() && #[trigger] s[j] == a;
            let k = choose|k: int| 0 <= k < r.len() && #[trigger] r[k] == b;
            if j < n - 1 {
                assert(r[j] == s[j]);
                assert(precedes(keys, way, r[j] as int, r[n - 1] as int));
            }
            if k < n - 1 {
                assert(r[k] == s[k]);
                assert(precedes(keys, way, s[k] as int, s[n - 1] as int));
            }
            assert(precedes(keys, way, s[n - 1] as int, s[j] as int));
            assert(precedes(keys, way, r[n - 1] as int, r[k] as int));
        }
    }
}

/// Things in the order of their keys are the same things, each as often.
pub proof fn lemma_arranged_multiset<A>(keys: Seq<i64>, way: Direction, o: Seq<usize>, s: Seq<A>)
    requires
        ordered(keys, way, o),
        s.len() == keys.len(),
    ensures
        o.map_values(|i: usize| s[i as int]).to_multiset() == s.to_multiset(),
{
    let r = o.map_values(|i: usize| s[i as int]);
    if o.len() > 0 {
        lemma_ordered_is_complete(keys, way, o, 0);
    }
    assert forall|i: usize| i < s.len() implies #[trigger] o.contains(i) by {
        lemma_ordered_is_complete(keys, way, o, i as int);
        let j = choose|j: int| 0 <= j < o.len() && #[trigger] o[j] == i as int;
        assert(o[j] == i);
    }
    lemma_picked_multiset(o, s);
}

proof fn lemma_picked_multiset<A>(o: Seq<usize>, s: Seq<A>)
    requires
        o.len() == s.len(),
        o.len() > 0 ==> o.no_duplicates(),
        forall|k: int| 0 <= k < o.len() ==> (#[trigger] o[k]) < s.len(),
        forall|i: usize| i < s.len() ==> #[trigger] o.contains(i),
    ensures
        o.map_values(|i: usize| s[i as int]).to_multiset() == s.to_multiset(),
    decreases s.len(),
{
    broadcast use vstd::seq_lib::group_to_multiset_ensures;

    let r = o.map_values(|i: usize| s[i as int]);
    if s.len() == 0 {
        assert(r =~= s);
    } else {
        let n = s.len() - 1;
        assert(n as usize == n) by {
            crate::facts::lemma_distinct_usizes(o);
        }
        assert(o.contains(n as usize));
        let j = choose|j: int| 0 <= j < o.len() && o[j] == n as usize;
        let p = o.remove(j);
        let t = s.drop_last();
        assert forall|k: int| 0 <= k < p.len() implies (#[trigger] p[k]) < t.len() by {
            if k < j {
                assert(p[k] == o[k]);
                assert(o[k] != o[j]);
            } else {
                assert(p[k] == o[k + 1]);
                assert(o[k + 1] != o[j]);
            }
        }
        assert forall|a: int, b: int| 0 <= a < p.len() && 0 <= b < p.len() && a != b implies p[a]
            != p[b] by {
            let x = if a < j {
                a
            } else {
                a + 1
            };
            let y = if b < j {
                b
            } else {
                b + 1
            };
            assert(o[x] != o[y]);
        }
        assert forall|i: usize| i < t.len() implies #[trigger] p.contains(i) by {
            assert(o.contains(i));
            let k = choose|k: int| 0 <= k < o.len() && o[k] == i;
            if k < j {
                assert(p[k] == i);
            } else {
                assert(p[k - 1] == i);
            }
        }
        lemma_picked_multiset(p, t);
        let q = p.map_values(|i: usize| t[i as int]);
        assert(q =~= r.remove(j));
        assert(r[j] == s.last());
        assert(r.remove(j).insert(j, s.last()) =~= r);
        assert(t.push(s.last()) =~= s);
        assert(r.to_multiset() == r.remove(j).to_multiset().insert(s.last()));
        assert(s.to_multiset() == t.to_multiset().insert(s.last()));
    }
}

/// An order has every index once. Keys run up or down as asked, and where keys are equal, the
/// indices run up.
pub proof fn law_order(keys: Seq<i64>, way: Direction, r: Seq<usize>)
    requires
        ordered(keys, way, r),
    ensures
        forall|i: int, j: int|
            0 <= i < j < r.len() ==> {
                let a = (#[trigger] r[i]) as int;
                let b = (#[trigger] r[j]) as int;
                &&& a != b
                &&& way == Direction::Ascending ==> keys[a] <= keys[b]
                &&& way == Direction::Descending ==> keys[a] >= keys[b]
                &&& keys[a] == keys[b] ==> a < b
            },
        forall|x: usize| x < keys.len() ==> #[trigger] r.contains(x),
        r.len() == keys.len(),
{
    assert forall|x: usize| x < keys.len() implies #[trigger] r.contains(x) by {
        lemma_ordered_is_complete(keys, way, r, x as int);
    }
}

} // verus!
