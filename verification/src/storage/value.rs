//! Property values and property maps.
//!
//! Floating-point numbers are held by their bits: 64 for a number, 32 for the components of
//! an embedding.

use vstd::arithmetic::power2::{lemma2_to64, lemma_pow2_pos, lemma_pow2_unfold, pow2};
use vstd::prelude::*;

use crate::text::{
    before, copy_str, decimal, lemma_before_irreflexive, lemma_before_total,
    lemma_before_transitive, same_text, signed_decimal, text_before,
};

verus! {

/// A value of any kind.
#[derive(Debug)]
pub enum Value {
    /// Nothing.
    Null,
    /// Boolean.
    Bool(bool),
    /// Signed integer.
    Int(i64),
    /// Floating-point number, by its bits.
    Float(u64),
    /// Text.
    String(String),
    /// Binary data.
    Bytes(Vec<u8>),
    /// Embedding, each component by its bits.
    Vector(Vec<u32>),
    /// List of values.
    Array(Vec<Value>),
    /// Values under sorted keys.
    Object(PropertyMap),
}

/// Values under keys, in ascending order of the keys.
#[derive(Debug)]
pub struct PropertyMap {
    entries: Vec<(String, Value)>,
}

/// A value with its texts and lists as sequences.
pub enum ValueView {
    /// Nothing.
    Null,
    /// Boolean.
    Bool(bool),
    /// Signed integer.
    Int(i64),
    /// Floating-point number, by its bits.
    Float(u64),
    /// Text.
    Text(Seq<char>),
    /// Binary data.
    Bytes(Seq<u8>),
    /// Embedding, by the bits of its components.
    Vector(Seq<u32>),
    /// List of values.
    Array(Seq<ValueView>),
    /// Values under keys, in ascending order of the keys.
    Object(Seq<(Seq<char>, ValueView)>),
}

/// The view of a value.
pub open spec fn value_view(v: Value) -> ValueView
    decreases v,
{
    match v {
        Value::Null => ValueView::Null,
        Value::Bool(b) => ValueView::Bool(b),
        Value::Int(i) => ValueView::Int(i),
        Value::Float(f) => ValueView::Float(f),
        Value::String(s) => ValueView::Text(s@),
        Value::Bytes(b) => ValueView::Bytes(b@),
        Value::Vector(x) => ValueView::Vector(x@),
        Value::Array(a) => ValueView::Array(list_view(a@)),
        Value::Object(m) => ValueView::Object(map_view(m)),
    }
}

/// The views of some values.
pub open spec fn list_view(s: Seq<Value>) -> Seq<ValueView>
    decreases s,
{
    if s.len() == 0 {
        Seq::empty()
    } else {
        list_view(s.drop_last()).push(value_view(s.last()))
    }
}

/// The view of a property map.
pub closed spec fn map_view(m: PropertyMap) -> Seq<(Seq<char>, ValueView)>
    decreases m,
{
    entries_view(m.entries@)
}

/// The views of some entries.
pub open spec fn entries_view(s: Seq<(String, Value)>) -> Seq<(Seq<char>, ValueView)>
    decreases s,
{
    if s.len() == 0 {
        Seq::empty()
    } else {
        entries_view(s.drop_last()).push((s.last().0@, value_view(s.last().1)))
    }
}

/// The view of a list holds the views of its elements.
pub proof fn lemma_list_view(s: Seq<Value>)
    ensures
        list_view(s).len() == s.len(),
        forall|i: int| 0 <= i < s.len() ==> #[trigger] list_view(s)[i] == value_view(s[i]),
    decreases s,
{
    if s.len() > 0 {
        lemma_list_view(s.drop_last());
    }
}

/// The view of entries holds the views of the keys and values.
pub proof fn lemma_entries_view(s: Seq<(String, Value)>)
    ensures
        entries_view(s).len() == s.len(),
        forall|i: int|
            0 <= i < s.len() ==> #[trigger] entries_view(s)[i] == (s[i].0@, value_view(s[i].1)),
    decreases s,
{
    if s.len() > 0 {
        lemma_entries_view(s.drop_last());
    }
}

impl View for Value {
    type V = ValueView;

    open spec fn view(&self) -> ValueView {
        value_view(*self)
    }
}

impl View for PropertyMap {
    type V = Seq<(Seq<char>, ValueView)>;

    open spec fn view(&self) -> Seq<(Seq<char>, ValueView)> {
        map_view(*self)
    }
}

/// Keys in strictly ascending order.
pub open spec fn sorted(p: Seq<(Seq<char>, ValueView)>) -> bool {
    forall|i: int, j: int|
        0 <= i < j < p.len() ==> before((#[trigger] p[i]).0, (#[trigger] p[j]).0)
}

/// Entries as a map.
pub open spec fn pair_map(p: Seq<(Seq<char>, ValueView)>) -> Map<Seq<char>, ValueView> {
    Map::new(
        |k: Seq<char>| exists|i: int| 0 <= i < p.len() && (#[trigger] p[i]).0 == k,
        |k: Seq<char>| p[choose|i: int| 0 <= i < p.len() && (#[trigger] p[i]).0 == k].1,
    )
}

/// An entry of a sorted list is what the map holds under its key.
pub proof fn lemma_pair_map_at(p: Seq<(Seq<char>, ValueView)>, i: int)
    requires
        sorted(p),
        0 <= i < p.len(),
    ensures
        pair_map(p).dom().contains(p[i].0),
        pair_map(p)[p[i].0] == p[i].1,
{
    let k = p[i].0;
    let j = choose|j: int| 0 <= j < p.len() && (#[trigger] p[j]).0 == k;
    lemma_before_irreflexive(k);
    if j < i {
        assert(before(p[j].0, p[i].0));
    } else if i < j {
        assert(before(p[i].0, p[j].0));
    }
}

/// Sorted entries are determined by their map.
pub proof fn lemma_sorted_entries_unique(
    p: Seq<(Seq<char>, ValueView)>,
    q: Seq<(Seq<char>, ValueView)>,
)
    requires
        sorted(p),
        sorted(q),
        pair_map(p) == pair_map(q),
    ensures
        p == q,
    decreases p.len(),
{
    if p.len() == 0 {
        if q.len() > 0 {
            lemma_pair_map_at(q, 0);
        }
        assert(p =~= q);
    } else {
        lemma_pair_map_at(p, p.len() - 1);
        let kp = p.last().0;
        assert(pair_map(q).dom().contains(kp));
        let j = choose|j: int| 0 <= j < q.len() && (#[trigger] q[j]).0 == kp;
        lemma_pair_map_at(q, q.len() - 1);
        let kq = q.last().0;
        assert(pair_map(p).dom().contains(kq));
        let i = choose|i: int| 0 <= i < p.len() && (#[trigger] p[i]).0 == kq;
        assert(kp == kq) by {
            lemma_before_irreflexive(kp);
            lemma_before_irreflexive(kq);
            if j < q.len() - 1 && i < p.len() - 1 {
                assert(before(q[j].0, q[q.len() - 1].0));
                assert(before(p[i].0, p[p.len() - 1].0));
                lemma_before_transitive(kp, kq, kp);
            }
        }
        lemma_pair_map_at(p, p.len() - 1);
        lemma_pair_map_at(q, q.len() - 1);
        let p1 = p.drop_last();
        let q1 = q.drop_last();
        assert(sorted(p1)) by {
            assert forall|a: int, b: int| 0 <= a < b < p1.len() implies before(
                (#[trigger] p1[a]).0,
                (#[trigger] p1[b]).0,
            ) by {
                assert(before(p[a].0, p[b].0));
            }
        }
        assert(sorted(q1)) by {
            assert forall|a: int, b: int| 0 <= a < b < q1.len() implies before(
                (#[trigger] q1[a]).0,
                (#[trigger] q1[b]).0,
            ) by {
                assert(before(q[a].0, q[b].0));
            }
        }
        lemma_pair_map_drop_last(p);
        lemma_pair_map_drop_last(q);
        lemma_sorted_entries_unique(p1, q1);
        assert(p =~= p1.push(p.last()));
        assert(q =~= q1.push(q.last()));
    }
}

/// Leaving out the last entry leaves out its key.
pub proof fn lemma_pair_map_drop_last(p: Seq<(Seq<char>, ValueView)>)
    requires
        sorted(p),
        p.len() > 0,
    ensures
        pair_map(p.drop_last()) == pair_map(p).remove(p.last().0),
{
    let p1 = p.drop_last();
    assert(sorted(p1)) by {
        assert forall|a: int, b: int| 0 <= a < b < p1.len() implies before(
            (#[trigger] p1[a]).0,
            (#[trigger] p1[b]).0,
        ) by {
            assert(before(p[a].0, p[b].0));
        }
    }
    let want = pair_map(p).remove(p.last().0);
    lemma_before_irreflexive(p.last().0);
    assert forall|k: Seq<char>| pair_map(p1).dom().contains(k) <==> want.dom().contains(k) by {
        if pair_map(p1).dom().contains(k) {
            let i = choose|i: int| 0 <= i < p1.len() && (#[trigger] p1[i]).0 == k;
            assert(p[i].0 == k);
            assert(before(p[i].0, p[p.len() - 1].0));
        }
        if want.dom().contains(k) {
            let i = choose|i: int| 0 <= i < p.len() && (#[trigger] p[i]).0 == k;
            assert(p1[i].0 == k);
        }
    }
    assert forall|k: Seq<char>| want.dom().contains(k) implies pair_map(p1)[k] == want[k] by {
        let i = choose|i: int| 0 <= i < p1.len() && (#[trigger] p1[i]).0 == k;
        lemma_pair_map_at(p1, i);
        lemma_pair_map_at(p, i);
    }
    assert(pair_map(p1) =~= want);
}

impl PropertyMap {
    /// The values under their keys.
    pub open spec fn map(&self) -> Map<Seq<char>, ValueView> {
        pair_map(self@)
    }

    #[verifier::type_invariant]
    spec fn keys_ascend(self) -> bool {
        sorted(entries_view(self.entries@))
    }

    /// Creates an empty map.
    pub fn new() -> (r: Self)
        ensures
            r@ == Seq::<(Seq<char>, ValueView)>::empty(),
            r.map() == Map::<Seq<char>, ValueView>::empty(),
    {
        let r = PropertyMap { entries: Vec::new() };
        assert(r@ =~= Seq::<(Seq<char>, ValueView)>::empty());
        assert(r.map() =~= Map::<Seq<char>, ValueView>::empty());
        r
    }

    /// Number of entries.
    pub fn len(&self) -> (r: usize)
        ensures
            r == self@.len(),
            sorted(self@),
    {
        proof {
            use_type_invariant(self);
            lemma_entries_view(self.entries@);
        }
        self.entries.len()
    }

    /// Whether there is no entry.
    pub fn is_empty(&self) -> (r: bool)
        ensures
            r == (self@.len() == 0),
            sorted(self@),
    {
        self.len() == 0
    }

    /// Key of the `i`-th entry.
    pub fn key_at(&self, i: usize) -> (r: &str)
        requires
            i < self@.len(),
        ensures
            r@ == self@[i as int].0,
    {
        proof {
            lemma_entries_view(self.entries@);
        }
        self.entries[i].0.as_str()
    }

    /// Value of the `i`-th entry.
    pub fn value_at(&self, i: usize) -> (r: &Value)
        requires
            i < self@.len(),
        ensures
            r@ == self@[i as int].1,
    {
        proof {
            lemma_entries_view(self.entries@);
        }
        &self.entries[i].1
    }

    /// Value of the `i`-th entry, which is smaller than the map as a structure.
    pub(crate) fn value_below(&self, i: usize) -> (r: &Value)
        requires
            i < self@.len(),
        ensures
            r@ == self@[i as int].1,
            decreases_to!(*self => *r),
    {
        proof {
            lemma_entries_view(self.entries@);
            assert(decreases_to!(*self => self.entries));
            assert(decreases_to!(self.entries => self.entries@));
            assert(decreases_to!(self.entries@ => self.entries@[i as int]));
            assert(decreases_to!(self.entries@[i as int] => self.entries@[i as int].1));
        }
        &self.entries[i].1
    }

    /// First index whose key does not come before `key`.
    fn place_of(&self, key: &str) -> (r: usize)
        ensures
            r <= self@.len(),
            forall|i: int| 0 <= i < r ==> before((#[trigger] self@[i]).0, key@),
            forall|i: int| r <= i < self@.len() ==> !before((#[trigger] self@[i]).0, key@),
            sorted(self@),
    {
        proof {
            use_type_invariant(self);
            lemma_entries_view(self.entries@);
        }
        let mut lo: usize = 0;
        let mut hi: usize = self.entries.len();
        while lo < hi
            invariant
                lo <= hi <= self@.len(),
                self@.len() == self.entries@.len(),
                sorted(self@),
                forall|i: int| 0 <= i < lo ==> before((#[trigger] self@[i]).0, key@),
                forall|i: int| hi <= i < self@.len() ==> !before((#[trigger] self@[i]).0, key@),
            decreases hi - lo,
        {
            let mid: usize = lo + (hi - lo) / 2;
            if text_before(self.key_at(mid), key) {
                assert forall|i: int| 0 <= i < mid + 1 implies before(
                    (#[trigger] self@[i]).0,
                    key@,
                ) by {
                    if i < mid {
                        assert(before(self@[i].0, self@[mid as int].0));
                        lemma_before_transitive(self@[i].0, self@[mid as int].0, key@);
                    }
                }
                lo = mid + 1;
            } else {
                assert forall|i: int| mid <= i < self@.len() implies !before(
                    (#[trigger] self@[i]).0,
                    key@,
                ) by {
                    if mid < i && before(self@[i].0, key@) {
                        assert(before(self@[mid as int].0, self@[i].0));
                        lemma_before_transitive(self@[mid as int].0, self@[i].0, key@);
                    }
                }
                hi = mid;
            }
        }
        lo
    }

    /// The value under a key.
    pub fn get(&self, key: &str) -> (r: Option<&Value>)
        ensures
            match r {
                Some(v) => self.map().dom().contains(key@) && v@ == self.map()[key@],
                None => !self.map().dom().contains(key@),
            },
            sorted(self@),
    {
        let at: usize = self.place_of(key);
        if at < self.len() && same_text(self.key_at(at), key) {
            proof {
                lemma_pair_map_at(self@, at as int);
            }
            Some(self.value_at(at))
        } else {
            proof {
                if self.map().dom().contains(key@) {
                    let i = choose|i: int| 0 <= i < self@.len() && (#[trigger] self@[i]).0 == key@;
                    lemma_before_irreflexive(key@);
                    if i > at {
                        assert(before(self@[at as int].0, self@[i].0));
                    }
                }
            }
            None
        }
    }

    /// Puts a value under a key, in place of any value that was there.
    pub fn insert(&mut self, key: &str, value: Value)
        ensures
            final(self).map() == old(self).map().insert(key@, value@),
            sorted(final(self)@),
    {
        let at: usize = self.place_of(key);
        let present: bool = at < self.len() && same_text(self.key_at(at), key);
        let ghost p = self@;
        let mut entries: Vec<(String, Value)> = Vec::new();
        proof {
            lemma_entries_view(self.entries@);
            assert(entries_view(entries@) =~= Seq::<(Seq<char>, ValueView)>::empty());
        }
        std::mem::swap(&mut entries, &mut self.entries);
        let ghost e = entries@;
        let ghost pair = (key@, value@);
        if present {
            entries.set(at, (copy_str(key), value));
        } else {
            entries.insert(at, (copy_str(key), value));
        }
        proof {
            let q = entries_view(entries@);
            lemma_entries_view(entries@);
            if present {
                assert(q =~= p.update(at as int, pair));
            } else {
                assert(q =~= p.insert(at as int, pair));
            }
            lemma_insert_sorted(p, at as int, pair, present, q);
        }
        self.entries = entries;
    }

    /// Takes the value under a key out.
    pub fn remove(&mut self, key: &str) -> (r: Option<Value>)
        ensures
            match r {
                Some(v) => old(self).map().dom().contains(key@) && v@ == old(self).map()[key@],
                None => !old(self).map().dom().contains(key@),
            },
            final(self).map() == old(self).map().remove(key@),
            sorted(final(self)@),
    {
        let at: usize = self.place_of(key);
        let present: bool = at < self.len() && same_text(self.key_at(at), key);
        let ghost p = self@;
        if !present {
            proof {
                if self.map().dom().contains(key@) {
                    let i = choose|i: int| 0 <= i < self@.len() && (#[trigger] self@[i]).0 == key@;
                    lemma_before_irreflexive(key@);
                    if i > at {
                        assert(before(self@[at as int].0, self@[i].0));
                    }
                }
                assert(self.map() =~= self.map().remove(key@));
            }
            return None;
        }
        let mut entries: Vec<(String, Value)> = Vec::new();
        proof {
            lemma_entries_view(self.entries@);
            lemma_pair_map_at(p, at as int);
            assert(entries_view(entries@) =~= Seq::<(Seq<char>, ValueView)>::empty());
        }
        std::mem::swap(&mut entries, &mut self.entries);
        let (_, value) = entries.remove(at);
        proof {
            let q = entries_view(entries@);
            lemma_entries_view(entries@);
            assert(q =~= p.remove(at as int));
            lemma_remove_sorted(p, at as int, q);
        }
        self.entries = entries;
        Some(value)
    }

    /// The keys in ascending order.
    pub fn keys(&self) -> (r: Vec<String>)
        ensures
            r@.len() == self@.len(),
            forall|i: int| 0 <= i < r@.len() ==> (#[trigger] r@[i])@ == self@[i].0,
            sorted(self@),
    {
        let n: usize = self.len();
        let mut out: Vec<String> = Vec::new();
        let mut i: usize = 0;
        while i < n
            invariant
                i <= n,
                n == self@.len(),
                out@.len() == i,
                forall|j: int| 0 <= j < i ==> (#[trigger] out@[j])@ == self@[j].0,
            decreases n - i,
        {
            out.push(copy_str(self.key_at(i)));
            i = i + 1;
        }
        out
    }

    /// A copy of the map.
    pub fn copy(&self) -> (r: Self)
        ensures
            r@ == self@,
            sorted(self@),
        decreases self,
    {
        proof {
            use_type_invariant(self);
            lemma_entries_view(self.entries@);
        }
        let n: usize = self.entries.len();
        let mut entries: Vec<(String, Value)> = Vec::new();
        let mut i: usize = 0;
        while i < n
            invariant
                i <= n,
                n == self.entries@.len(),
                entries@.len() == i,
                forall|j: int|
                    0 <= j < i ==> (#[trigger] entries@[j]).0@ == self.entries@[j].0@
                        && entries@[j].1@ == self.entries@[j].1@,
            decreases n - i,
        {
            let e = &self.entries[i];
            assert(decreases_to!(*self => self.entries@));
            assert(decreases_to!(self.entries@ => self.entries@[i as int]));
            assert(decreases_to!(self.entries@[i as int] => self.entries@[i as int].1));
            entries.push((copy_str(e.0.as_str()), e.1.copy()));
            i = i + 1;
        }
        proof {
            lemma_entries_view(entries@);
            assert(entries_view(entries@) =~= entries_view(self.entries@));
        }
        PropertyMap { entries }
    }
}

proof fn lemma_insert_sorted(
    p: Seq<(Seq<char>, ValueView)>,
    at: int,
    pair: (Seq<char>, ValueView),
    present: bool,
    q: Seq<(Seq<char>, ValueView)>,
)
    requires
        sorted(p),
        0 <= at <= p.len(),
        forall|i: int| 0 <= i < at ==> before((#[trigger] p[i]).0, pair.0),
        forall|i: int| at <= i < p.len() ==> !before((#[trigger] p[i]).0, pair.0),
        present == (at < p.len() && p[at].0 == pair.0),
        q == (if present {
            p.update(at, pair)
        } else {
            p.insert(at, pair)
        }),
    ensures
        sorted(q),
        pair_map(q) == pair_map(p).insert(pair.0, pair.1),
{
    assert forall|i: int, j: int| 0 <= i < j < q.len() implies before(
        (#[trigger] q[i]).0,
        (#[trigger] q[j]).0,
    ) by {
        if present {
            assert(before(p[i].0, p[j].0));
        } else {
            let a = if i < at {
                i
            } else {
                i - 1
            };
            let b = if j < at {
                j
            } else {
                j - 1
            };
            if i != at && j != at {
                assert(before(p[a].0, p[b].0));
            } else if j == at {
                assert(before(p[i].0, pair.0));
            } else {
                // i == at
                lemma_before_total(p[b].0, pair.0);
                if p[b].0 == pair.0 && b > at {
                    assert(before(p[at].0, p[b].0));
                }
            }
        }
    }
    let shift = q.len() - p.len();
    let want = pair_map(p).insert(pair.0, pair.1);
    assert forall|k: Seq<char>| pair_map(q).dom().contains(k) <==> want.dom().contains(k) by {
        if pair_map(q).dom().contains(k) {
            let i = choose|i: int| 0 <= i < q.len() && (#[trigger] q[i]).0 == k;
            if k != pair.0 {
                let a = if i < at {
                    i
                } else {
                    i - shift
                };
                assert(p[a].0 == k);
            }
        }
        if k == pair.0 {
            assert(q[at].0 == k);
        } else if pair_map(p).dom().contains(k) {
            let i = choose|i: int| 0 <= i < p.len() && (#[trigger] p[i]).0 == k;
            let a = if i < at {
                i
            } else {
                i + shift
            };
            assert(q[a].0 == k);
        }
    }
    assert forall|k: Seq<char>| want.dom().contains(k) implies pair_map(q)[k] == want[k] by {
        if k == pair.0 {
            lemma_pair_map_at(q, at);
        } else {
            let i = choose|i: int| 0 <= i < p.len() && (#[trigger] p[i]).0 == k;
            let a = if i < at {
                i
            } else {
                i + shift
            };
            assert(q[a] == p[i]);
            lemma_pair_map_at(q, a);
            lemma_pair_map_at(p, i);
        }
    }
    assert(pair_map(q) =~= want);
}

proof fn lemma_remove_sorted(
    p: Seq<(Seq<char>, ValueView)>,
    at: int,
    q: Seq<(Seq<char>, ValueView)>,
)
    requires
        sorted(p),
        0 <= at < p.len(),
        q == p.remove(at),
    ensures
        sorted(q),
        pair_map(q) == pair_map(p).remove(p[at].0),
{
    assert forall|i: int, j: int| 0 <= i < j < q.len() implies before(
        (#[trigger] q[i]).0,
        (#[trigger] q[j]).0,
    ) by {
        let a = if i < at {
            i
        } else {
            i + 1
        };
        let b = if j < at {
            j
        } else {
            j + 1
        };
        assert(before(p[a].0, p[b].0));
    }
    let want = pair_map(p).remove(p[at].0);
    lemma_before_irreflexive(p[at].0);
    assert forall|k: Seq<char>| pair_map(q).dom().contains(k) <==> want.dom().contains(k) by {
        if pair_map(q).dom().contains(k) {
            let i = choose|i: int| 0 <= i < q.len() && (#[trigger] q[i]).0 == k;
            let a = if i < at {
                i
            } else {
                i + 1
            };
            assert(p[a].0 == k);
            if a < at {
                assert(before(p[a].0, p[at].0));
            } else {
                assert(before(p[at].0, p[a].0));
            }
        }
        if want.dom().contains(k) {
            let i = choose|i: int| 0 <= i < p.len() && (#[trigger] p[i]).0 == k;
            let a = if i < at {
                i
            } else {
                i - 1
            };
            assert(q[a].0 == k);
        }
    }
    assert forall|k: Seq<char>| want.dom().contains(k) implies pair_map(q)[k] == want[k] by {
        let i = choose|i: int| 0 <= i < q.len() && (#[trigger] q[i]).0 == k;
        let a = if i < at {
            i
        } else {
            i + 1
        };
        lemma_pair_map_at(q, i);
        lemma_pair_map_at(p, a);
    }
    assert(pair_map(q) =~= want);
}

impl Value {
    /// A copy of the value.
    pub fn copy(&self) -> (r: Self)
        ensures
            r@ == self@,
        decreases self,
    {
        match self {
            Value::Null => Value::Null,
            Value::Bool(b) => Value::Bool(*b),
            Value::Int(i) => Value::Int(*i),
            Value::Float(f) => Value::Float(*f),
            Value::String(s) => Value::String(copy_str(s.as_str())),
            Value::Bytes(b) => {
                let c = crate::codec::copy_range(b.as_slice(), 0, b.len());
                assert(c@ =~= b@);
                Value::Bytes(c)
            },
            Value::Vector(v) => Value::Vector(copy_components(v)),
            Value::Array(a) => {
                let mut out: Vec<Value> = Vec::new();
                let n: usize = a.len();
                let mut i: usize = 0;
                while i < n
                    invariant
                        i <= n,
                        n == a@.len(),
                        *self == Value::Array(*a),
                        out@.len() == i,
                        forall|j: int| 0 <= j < i ==> (#[trigger] out@[j])@ == a@[j]@,
                    decreases n - i,
                {
                    assert(decreases_to!(*self => self->Array_0));
                    assert(decreases_to!(self->Array_0 => self->Array_0@));
                    assert(decreases_to!(a@ => a@[i as int]));
                    out.push(a[i].copy());
                    i = i + 1;
                }
                proof {
                    lemma_list_view(out@);
                    lemma_list_view(a@);
                    assert(list_view(out@) =~= list_view(a@));
                }
                Value::Array(out)
            },
            Value::Object(m) => Value::Object(m.copy()),
        }
    }
}

fn copy_components(v: &Vec<u32>) -> (r: Vec<u32>)
    ensures
        r@ == v@,
{
    let mut out: Vec<u32> = Vec::new();
    let mut i: usize = 0;
    while i < v.len()
        invariant
            i <= v@.len(),
            out@ == v@.take(i as int),
        decreases v@.len() - i,
    {
        out.push(v[i]);
        i = i + 1;
        assert(out@ =~= v@.take(i as int));
    }
    assert(out@ =~= v@);
    out
}

impl Value {
    /// The text of a string.
    pub fn as_str(&self) -> (r: Option<&str>)
        ensures
            match self@ {
                ValueView::Text(t) => r matches Some(s) && s@ == t,
                _ => r is None,
            },
    {
        match self {
            Value::String(s) => Some(s.as_str()),
            _ => None,
        }
    }

    /// The truth of a boolean.
    pub fn as_bool(&self) -> (r: Option<bool>)
        ensures
            r == (match self@ {
                ValueView::Bool(b) => Some(b),
                _ => None,
            }),
    {
        match self {
            Value::Bool(b) => Some(*b),
            _ => None,
        }
    }

    /// A number as an integer; a floating-point number is cut at its decimal point.
    pub fn as_int(&self) -> (r: Option<i64>)
        ensures
            r == (match self@ {
                ValueView::Int(i) => Some(i),
                ValueView::Float(f) => Some(float_to_int(f)),
                _ => None,
            }),
    {
        match self {
            Value::Int(i) => Some(*i),
            Value::Float(f) => Some(cut_float(*f)),
            _ => None,
        }
    }

    /// A number as a floating-point number: its bits, or the integer that is to be widened.
    pub fn as_float(&self) -> (r: Option<Real>)
        ensures
            r == (match self@ {
                ValueView::Float(f) => Some(Real::Bits(f)),
                ValueView::Int(i) => Some(Real::Whole(i)),
                _ => None,
            }),
    {
        match self {
            Value::Float(f) => Some(Real::Bits(*f)),
            Value::Int(i) => Some(Real::Whole(*i)),
            _ => None,
        }
    }

    /// A field of an object.
    pub fn get(&self, key: &str) -> (r: Option<&Value>)
        ensures
            match self@ {
                ValueView::Object(p) => match r {
                    Some(v) => pair_map(p).dom().contains(key@) && v@ == pair_map(p)[key@],
                    None => !pair_map(p).dom().contains(key@),
                },
                _ => r is None,
            },
    {
        match self {
            Value::Object(m) => m.get(key),
            _ => None,
        }
    }

    /// Whether the value is nothing.
    pub fn is_null(&self) -> (r: bool)
        ensures
            r == (self@ is Null),
    {
        match self {
            Value::Null => true,
            _ => false,
        }
    }

    /// Whether the value is an embedding.
    pub fn is_vector(&self) -> (r: bool)
        ensures
            r == (self@ is Vector),
    {
        match self {
            Value::Vector(_) => true,
            _ => false,
        }
    }

    /// The components of an embedding, by their bits.
    pub fn as_vector(&self) -> (r: Option<&[u32]>)
        ensures
            match self@ {
                ValueView::Vector(x) => r matches Some(v) && v@ == x,
                _ => r is None,
            },
    {
        match self {
            Value::Vector(v) => Some(v.as_slice()),
            _ => None,
        }
    }

    /// An embedding.
    pub fn vector(data: Vec<u32>) -> (r: Self)
        ensures
            r@ == ValueView::Vector(data@),
    {
        Value::Vector(data)
    }

    /// An embedding.
    pub fn from_vector(data: Vec<u32>) -> (r: Self)
        ensures
            r@ == ValueView::Vector(data@),
    {
        Value::Vector(data)
    }

    /// An embedding with a copy of the components.
    pub fn from_vector_slice(data: &[u32]) -> (r: Self)
        ensures
            r@ == ValueView::Vector(data@),
    {
        let mut out: Vec<u32> = Vec::new();
        out.extend_from_slice(data);
        assert(out@ =~= data@);
        Value::Vector(out)
    }

    /// Number of components of an embedding.
    pub fn vector_dimension(&self) -> (r: Option<usize>)
        ensures
            match self@ {
                ValueView::Vector(x) => r matches Some(n) && n == x.len(),
                _ => r is None,
            },
    {
        match self {
            Value::Vector(v) => Some(v.len()),
            _ => None,
        }
    }

    /// The text of the value, with the places of floating-point numbers left open.
    pub fn display(&self) -> (r: Vec<Segment>)
        ensures
            segment_views(r@) == displayed(self@),
        decreases self,
    {
        let mut out: Vec<Segment> = Vec::new();
        match self {
            Value::Null => push_text(&mut out, copy_str("null")),
            Value::Bool(b) => {
                if *b {
                    push_text(&mut out, copy_str("true"));
                } else {
                    push_text(&mut out, copy_str("false"));
                }
            },
            Value::Int(i) => {
                let mut s = String::new();
                crate::text::push_signed(&mut s, *i);
                assert(s@ =~= signed_decimal(*i as int));
                push_text(&mut out, s);
            },
            Value::Float(f) => {
                out.push(Segment::Float(*f));
                assert(segment_views(out@) =~= displayed(self@));
            },
            Value::String(t) => {
                let mut s = copy_str("\"");
                crate::text::push_str(&mut s, t.as_str());
                crate::text::push_str(&mut s, "\"");
                push_text(&mut out, s);
            },
            Value::Bytes(b) => {
                let mut s = copy_str("<");
                crate::text::push_decimal(&mut s, b.len() as u64);
                crate::text::push_str(&mut s, " bytes>");
                push_text(&mut out, s);
            },
            Value::Vector(v) => {
                let mut s = copy_str("<vector dim=");
                crate::text::push_decimal(&mut s, v.len() as u64);
                crate::text::push_str(&mut s, ">");
                push_text(&mut out, s);
            },
            Value::Array(a) => {
                push_text(&mut out, copy_str("["));
                let n: usize = a.len();
                let mut i: usize = 0;
                let ghost l = list_view(a@);
                proof {
                    lemma_list_view(a@);
                    assert(l.take(0) =~= Seq::<ValueView>::empty());
                    assert(segment_views(out@) =~= seq![SegmentView::Text("["@)] + displayed_list(
                        l.take(0),
                    ));
                }
                while i < n
                    invariant
                        i <= n,
                        n == a@.len(),
                        *self == Value::Array(*a),
                        l == list_view(a@),
                        l.len() == a@.len(),
                        forall|j: int| 0 <= j < a@.len() ==> #[trigger] l[j] == a@[j]@,
                        segment_views(out@) == seq![SegmentView::Text("["@)] + displayed_list(
                            l.take(i as int),
                        ),
                    decreases n - i,
                {
                    assert(decreases_to!(*self => self->Array_0));
                    assert(decreases_to!(self->Array_0 => self->Array_0@));
                    assert(decreases_to!(a@ => a@[i as int]));
                    let ghost sofar = segment_views(out@);
                    if i > 0 {
                        push_text(&mut out, copy_str(", "));
                    }
                    let mut more = a[i].display();
                    let ghost m = segment_views(more@);
                    let ghost o = segment_views(out@);
                    let ghost os = out@;
                    out.append(&mut more);
                    proof {
                        assert(segment_views(out@) =~= o + m);
                        let t = l.take(i + 1);
                        assert(t.drop_last() =~= l.take(i as int));
                        assert(t.last() == l[i as int]);
                        assert(segment_views(out@) =~= seq![SegmentView::Text("["@)]
                            + displayed_list(t));
                    }
                    i = i + 1;
                }
                assert(l.take(i as int) =~= l);
                push_text(&mut out, copy_str("]"));
            },
            Value::Object(m) => {
                push_text(&mut out, copy_str("{"));
                let n: usize = m.len();
                let mut i: usize = 0;
                let ghost p = m@;
                proof {
                    lemma_entries_view(m.entries@);
                    assert(p.take(0) =~= Seq::<(Seq<char>, ValueView)>::empty());
                    assert(segment_views(out@) =~= seq![SegmentView::Text("{"@)]
                        + displayed_entries(p.take(0)));
                }
                while i < n
                    invariant
                        i <= n,
                        n == p.len(),
                        p == m@,
                        *self == Value::Object(*m),
                        p.len() == m.entries@.len(),
                        forall|j: int|
                            0 <= j < p.len() ==> #[trigger] p[j] == (
                                m.entries@[j].0@,
                                m.entries@[j].1@,
                            ),
                        segment_views(out@) == seq![SegmentView::Text("{"@)] + displayed_entries(
                            p.take(i as int),
                        ),
                    decreases n - i,
                {
                    assert(decreases_to!(*self => self->Object_0));
                    assert(decreases_to!(self->Object_0 => self->Object_0.entries@));
                    assert(decreases_to!(m.entries@ => m.entries@[i as int]));
                    assert(decreases_to!(m.entries@[i as int] => m.entries@[i as int].1));
                    if i > 0 {
                        push_text(&mut out, copy_str(", "));
                    }
                    let mut s = copy_str("\"");
                    crate::text::push_str(&mut s, m.entries[i].0.as_str());
                    crate::text::push_str(&mut s, "\": ");
                    push_text(&mut out, s);
                    let mut more = m.entries[i].1.display();
                    let ghost mv = segment_views(more@);
                    let ghost o = segment_views(out@);
                    out.append(&mut more);
                    proof {
                        assert(segment_views(out@) =~= o + mv);
                        let t = p.take(i + 1);
                        assert(t.drop_last() =~= p.take(i as int));
                        assert(t.last() == p[i as int]);
                        assert(segment_views(out@) =~= seq![SegmentView::Text("{"@)]
                            + displayed_entries(t));
                    }
                    i = i + 1;
                }
                assert(p.take(i as int) =~= p);
                push_text(&mut out, copy_str("}"));
            },
        }
        out
    }
}

/// A floating-point number that is asked for: its bits, or an integer to be widened.
#[derive(Debug, Clone, Copy, PartialEq, Eq, Structural)]
pub enum Real {
    /// The bits of a 64-bit number.
    Bits(u64),
    /// An integer.
    Whole(i64),
}

/// A part of the text of a value.
#[derive(Debug)]
pub enum Segment {
    /// Text as it stands.
    Text(String),
    /// A floating-point number, by its bits.
    Float(u64),
}

/// A part of the text of a value, as a sequence.
pub enum SegmentView {
    /// Text as it stands.
    Text(Seq<char>),
    /// A floating-point number, by its bits.
    Float(u64),
}

impl View for Segment {
    type V = SegmentView;

    open spec fn view(&self) -> SegmentView {
        match *self {
            Segment::Text(s) => SegmentView::Text(s@),
            Segment::Float(f) => SegmentView::Float(f),
        }
    }
}

/// The views of some segments.
pub open spec fn segment_views(v: Seq<Segment>) -> Seq<SegmentView> {
    v.map_values(|s: Segment| s@)
}

fn push_text(out: &mut Vec<Segment>, s: String)
    ensures
        segment_views(final(out)@) == segment_views(old(out)@).push(SegmentView::Text(s@)),
{
    out.push(Segment::Text(s));
    assert(segment_views(out@) =~= segment_views(old(out)@).push(SegmentView::Text(s@)));
}

/// The text of a value: JSON-like, with bytes and embeddings only by their size.
pub open spec fn displayed(v: ValueView) -> Seq<SegmentView>
    decreases v,
{
    match v {
        ValueView::Null => seq![SegmentView::Text("null"@)],
        ValueView::Bool(b) => seq![
            SegmentView::Text(
                if b {
                    "true"@
                } else {
                    "false"@
                },
            ),
        ],
        ValueView::Int(i) => seq![SegmentView::Text(signed_decimal(i as int))],
        ValueView::Float(f) => seq![SegmentView::Float(f)],
        ValueView::Text(t) => seq![SegmentView::Text("\""@ + t + "\""@)],
        ValueView::Bytes(b) => seq![SegmentView::Text("<"@ + decimal(b.len()) + " bytes>"@)],
        ValueView::Vector(x) => seq![
            SegmentView::Text("<vector dim="@ + decimal(x.len()) + ">"@),
        ],
        ValueView::Array(a) => (seq![SegmentView::Text("["@)] + displayed_list(a)).push(
            SegmentView::Text("]"@),
        ),
        ValueView::Object(p) => (seq![SegmentView::Text("{"@)] + displayed_entries(p)).push(
            SegmentView::Text("}"@),
        ),
    }
}

/// The texts of some values, separated by commas.
pub open spec fn displayed_list(a: Seq<ValueView>) -> Seq<SegmentView>
    decreases a,
{
    if a.len() == 0 {
        Seq::empty()
    } else {
        let head = displayed_list(a.drop_last());
        (if a.len() > 1 {
            head.push(SegmentView::Text(", "@))
        } else {
            head
        }) + displayed(a.last())
    }
}

/// The texts of some entries, separated by commas.
pub open spec fn displayed_entries(p: Seq<(Seq<char>, ValueView)>) -> Seq<SegmentView>
    decreases p,
{
    if p.len() == 0 {
        Seq::empty()
    } else {
        let head = displayed_entries(p.drop_last());
        (if p.len() > 1 {
            head.push(SegmentView::Text(", "@))
        } else {
            head
        }).push(SegmentView::Text("\""@ + p.last().0 + "\": "@)) + displayed(p.last().1)
    }
}

/// Exponent field of a 64-bit floating-point number.
pub open spec fn exponent_field(bits: u64) -> int {
    (bits as int / 0x10_0000_0000_0000) % 0x800
}

/// Fraction field of a 64-bit floating-point number.
pub open spec fn fraction_field(bits: u64) -> int {
    bits as int % 0x10_0000_0000_0000
}

/// Sign of a 64-bit floating-point number.
pub open spec fn sign_field(bits: u64) -> bool {
    bits >= 0x8000_0000_0000_0000
}

/// A number that is neither infinite nor undefined.
pub open spec fn is_finite(bits: u64) -> bool {
    exponent_field(bits) != 0x7ff
}

/// The absolute value of a finite number from 1 to below 2^63, cut at its decimal point:
/// the significand, moved by the exponent.
pub open spec fn whole_part(bits: u64) -> int {
    let e = exponent_field(bits);
    let m = 0x10_0000_0000_0000 + fraction_field(bits);
    if e >= 1075 {
        m * pow2((e - 1075) as nat)
    } else {
        m / (pow2((1075 - e) as nat) as int)
    }
}

/// The integer that a floating-point number is cut to: towards zero, at most the largest and
/// at least the smallest integer of 64 bits, and 0 for what is not a number.
pub open spec fn float_to_int(bits: u64) -> i64 {
    let e = exponent_field(bits);
    if e == 0x7ff && fraction_field(bits) != 0 {
        0
    } else if e < 1023 {
        0
    } else if e >= 1023 + 63 {
        if sign_field(bits) {
            i64::MIN
        } else {
            i64::MAX
        }
    } else if sign_field(bits) {
        (-whole_part(bits)) as i64
    } else {
        whole_part(bits) as i64
    }
}

fn cut_float(bits: u64) -> (r: i64)
    ensures
        r == float_to_int(bits),
{
    let e: u64 = (bits / 0x10_0000_0000_0000) % 0x800;
    let fraction: u64 = bits % 0x10_0000_0000_0000;
    let negative: bool = bits >= 0x8000_0000_0000_0000;
    if e == 0x7ff && fraction != 0 {
        return 0;
    }
    if e < 1023 {
        return 0;
    }
    if e >= 1023 + 63 {
        return if negative {
            i64::MIN
        } else {
            i64::MAX
        };
    }
    let m: u64 = 0x10_0000_0000_0000 + fraction;
    let mut whole: u64 = m;
    if e >= 1075 {
        let mut k: u64 = 1075;
        proof {
            lemma2_to64();
            assert(m * pow2(0) == m) by (nonlinear_arith)
                requires
                    pow2(0) == 1,
            ;
        }
        while k < e
            invariant
                1075 <= k <= e < 1086,
                m < 0x20_0000_0000_0000,
                whole == m * pow2((k - 1075) as nat),
                pow2((k - 1075) as nat) <= 1024,
                whole < 0x20_0000_0000_0000 * 1024,
            decreases e - k,
        {
            proof {
                lemma2_to64();
                lemma_pow2_unfold((k - 1075 + 1) as nat);
                let a = pow2((k - 1075) as nat) as int;
                assert((m as int) * (2 * a) == 2 * ((m as int) * a)) by (nonlinear_arith);
                if k - 1075 == 10 {
                    assert(false);
                }
                assert(a <= 512) by {
                    lemma_pow2_small((k - 1075) as nat, 9);
                }
                assert((m as int) * a < 0x20_0000_0000_0000 * 512) by (nonlinear_arith)
                    requires
                        m < 0x20_0000_0000_0000,
                        0 <= a <= 512,
                ;
            }
            whole = whole * 2;
            k = k + 1;
        }
    } else {
        let mut k: u64 = 1075;
        proof {
            lemma2_to64();
            assert(m as int / pow2(0) as int == m) by (nonlinear_arith)
                requires
                    pow2(0) == 1,
            ;
        }
        while k > e
            invariant
                1023 <= e <= k <= 1075,
                whole == m as int / pow2((1075 - k) as nat) as int,
                whole <= m,
                m < 0x20_0000_0000_0000,
            decreases k - e,
        {
            proof {
                lemma_pow2_unfold((1075 - k + 1) as nat);
                lemma_pow2_pos((1075 - k) as nat);
                let a = pow2((1075 - k) as nat) as int;
                vstd::arithmetic::div_mod::lemma_div_denominator(m as int, a, 2);
                assert(a * 2 == 2 * a);
            }
            whole = whole / 2;
            k = k - 1;
        }
    }
    assert(whole == whole_part(bits));
    assert(whole <= i64::MAX);
    if negative {
        -(whole as i64)
    } else {
        whole as i64
    }
}

proof fn lemma_pow2_small(k: nat, n: nat)
    requires
        k <= n,
        n <= 9,
    ensures
        pow2(k) <= 512,
{
    lemma2_to64();
    if k < n {
        vstd::arithmetic::power2::lemma_pow2_strictly_increases(k, n);
    }
    if n < 9 {
        vstd::arithmetic::power2::lemma_pow2_strictly_increases(n, 9);
    }
}

/// A number is finite exactly where, sign aside, its bits are below those of infinity.
pub proof fn law_finite(bits: u64)
    ensures
        is_finite(bits) <==> bits as int % 0x8000_0000_0000_0000 < 0x7ff0_0000_0000_0000,
{
}

/// A number is cut towards zero: the whole part is the largest whole number that the absolute
/// value reaches, and the sign is kept. Numbers below one are cut to zero, numbers beyond the
/// integers to the outermost of them, and what is no number to zero.
pub proof fn law_float_to_int(bits: u64)
    ensures
        ({
            let size = bits as int % 0x8000_0000_0000_0000;
            let e = size / 0x10_0000_0000_0000;
            let m = 0x10_0000_0000_0000 + size % 0x10_0000_0000_0000;
            let negative = bits >= 0x8000_0000_0000_0000;
            let r = float_to_int(bits);
            &&& size > 0x7ff0_0000_0000_0000 ==> r == 0
            &&& e < 1023 ==> r == 0
            &&& 1086 <= e && size <= 0x7ff0_0000_0000_0000 ==> r == (if negative {
                i64::MIN
            } else {
                i64::MAX
            })
            &&& 1023 <= e < 1075 ==> {
                let unit = pow2((1075 - e) as nat) as int;
                let whole = m / unit;
                &&& whole * unit <= m < (whole + 1) * unit
                &&& r == (if negative {
                    -whole
                } else {
                    whole
                })
            }
        }),
{
    let size = bits as int % 0x8000_0000_0000_0000;
    let e = size / 0x10_0000_0000_0000;
    let m = 0x10_0000_0000_0000 + size % 0x10_0000_0000_0000;
    assert(e == exponent_field(bits));
    assert(size % 0x10_0000_0000_0000 == fraction_field(bits));
    if 1023 <= e < 1075 {
        let unit = pow2((1075 - e) as nat) as int;
        vstd::arithmetic::power2::lemma_pow2_pos((1075 - e) as nat);
        vstd::arithmetic::div_mod::lemma_fundamental_div_mod(m, unit);
        vstd::arithmetic::div_mod::lemma_mod_bound(m, unit);
        let whole = m / unit;
        assert(whole * unit == unit * whole) by (nonlinear_arith);
        assert((whole + 1) * unit == whole * unit + unit) by (nonlinear_arith);
        assert(0 <= whole <= m) by (nonlinear_arith)
            requires
                unit >= 1,
                m >= 0,
                whole == m / unit,
        ;
    }
}

} // verus!
