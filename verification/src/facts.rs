//! Facts about sequences that several modules use.

use vstd::prelude::*;

verus! {

/// Filtering a sequence treats its first element on its own.
pub proof fn lemma_filter_front<A>(e: A, tail: Seq<A>, keep: spec_fn(A) -> bool)
    ensures
        (seq![e] + tail).filter(keep) == (if keep(e) {
            seq![e] + tail.filter(keep)
        } else {
            tail.filter(keep)
        }),
    decreases tail.len(),
{
    reveal(Seq::filter);
    let s = seq![e] + tail;
    let want = if keep(e) {
        seq![e] + tail.filter(keep)
    } else {
        tail.filter(keep)
    };
    if tail.len() == 0 {
        assert(s =~= seq![e]);
        assert(seq![e].drop_last() =~= Seq::<A>::empty());
        assert(Seq::<A>::empty().filter(keep) =~= Seq::<A>::empty());
        assert(s.filter(keep) =~= want);
    } else {
        lemma_filter_front(e, tail.drop_last(), keep);
        assert(s.drop_last() =~= seq![e] + tail.drop_last());
        assert(s.filter(keep) =~= want);
    }
}

/// Filtering a sequence treats its last element on its own.
pub proof fn lemma_filter_push<A>(head: Seq<A>, e: A, keep: spec_fn(A) -> bool)
    ensures
        head.push(e).filter(keep) == (if keep(e) {
            head.filter(keep).push(e)
        } else {
            head.filter(keep)
        }),
{
    reveal(Seq::filter);
    assert(head.push(e).drop_last() =~= head);
}

/// Each element of a filtered sequence satisfies the predicate and occurs in the sequence.
pub proof fn lemma_filter_member<A>(s: Seq<A>, keep: spec_fn(A) -> bool, i: int)
    requires
        0 <= i < s.filter(keep).len(),
    ensures
        keep(s.filter(keep)[i]),
        s.contains(s.filter(keep)[i]),
    decreases s.len(),
{
    reveal(Seq::filter);
    let f = s.filter(keep);
    let head = s.drop_last();
    if keep(s.last()) && i == f.len() - 1 {
        assert(s[s.len() - 1] == f[i]);
    } else {
        lemma_filter_member(head, keep, i);
        let j = choose|j: int| 0 <= j < head.len() && head[j] == head.filter(keep)[i];
        assert(s[j] == f[i]);
    }
}

/// There are no more different numbers below a bound than the bound.
pub proof fn lemma_distinct_below(s: Seq<int>, n: nat)
    requires
        s.no_duplicates(),
        forall|i: int| 0 <= i < s.len() ==> 0 <= #[trigger] s[i] < n,
    ensures
        s.len() <= n,
{
    s.unique_seq_to_set();
    let all = vstd::set_lib::set_int_range(0, n as int);
    vstd::set_lib::lemma_int_range(0, n as int);
    assert(s.to_set().subset_of(all)) by {
        assert forall|x: int| s.to_set().contains(x) implies all.contains(x) by {
            let i = choose|i: int| 0 <= i < s.len() && s[i] == x;
            assert(s[i] == x);
        }
    }
    vstd::set_lib::lemma_len_subset(s.to_set(), all);
}

/// There are no more different numbers of a machine word than it can hold.
pub proof fn lemma_distinct_usizes(s: Seq<usize>)
    requires
        s.no_duplicates(),
    ensures
        s.len() <= usize::MAX + 1,
{
    let t = s.map_values(|x: usize| x as int);
    assert forall|i: int, j: int| 0 <= i < t.len() && 0 <= j < t.len() && i != j implies t[i]
        != t[j] by {
        assert(s[i] != s[j]);
    }
    lemma_distinct_below(t, (usize::MAX + 1) as nat);
}

/// What satisfies the predicate stays in a filtered sequence.
pub proof fn lemma_filter_keeps<A>(s: Seq<A>, keep: spec_fn(A) -> bool, i: int)
    requires
        0 <= i < s.len(),
        keep(s[i]),
    ensures
        s.filter(keep).contains(s[i]),
    decreases s.len(),
{
    reveal(Seq::filter);
    let head = s.drop_last();
    if i < head.len() {
        lemma_filter_keeps(head, keep, i);
        let f = head.filter(keep);
        let k = choose|k: int| 0 <= k < f.len() && f[k] == head[i];
        assert(s.filter(keep)[k] == s[i]);
    } else {
        let f = head.filter(keep);
        assert(s.filter(keep)[f.len() as int] == s[i]);
    }
}

} // verus!
