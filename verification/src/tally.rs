//! Counting how often texts occur.

use vstd::prelude::*;

use crate::text::{copy_str, same_text, texts};

verus! {

/// Texts with how often each occurs, in the order of their first occurrence.
pub open spec fn counted(tokens: Seq<Seq<char>>) -> Seq<(Seq<char>, nat)>
    decreases tokens.len(),
{
    if tokens.len() == 0 {
        Seq::empty()
    } else {
        bumped(counted(tokens.drop_last()), tokens.last())
    }
}

/// Position of a text among counts, or their number where it is not there.
pub open spec fn place(counts: Seq<(Seq<char>, nat)>, token: Seq<char>) -> int
    decreases counts.len(),
{
    if counts.len() == 0 {
        0
    } else {
        let k = place(counts.drop_last(), token);
        if k < counts.len() - 1 || counts.last().0 == token {
            k
        } else {
            counts.len() as int
        }
    }
}

/// Counts after one more text.
pub open spec fn bumped(counts: Seq<(Seq<char>, nat)>, token: Seq<char>) -> Seq<(Seq<char>, nat)> {
    let k = place(counts, token);
    if k < counts.len() {
        counts.update(k, (token, counts[k].1 + 1))
    } else {
        counts.push((token, 1))
    }
}

/// How often a text occurs among others.
pub open spec fn occurrences(tokens: Seq<Seq<char>>, token: Seq<char>) -> nat
    decreases tokens.len(),
{
    if tokens.len() == 0 {
        0
    } else {
        occurrences(tokens.drop_last(), token) + (if tokens.last() == token {
            1nat
        } else {
            0nat
        })
    }
}

/// Counts with their texts as sequences.
pub open spec fn tally_views(v: Seq<(String, usize)>) -> Seq<(Seq<char>, nat)> {
    v.map_values(|p: (String, usize)| (p.0@, p.1 as nat))
}

/// Where a text stands among counts.
pub proof fn lemma_place(counts: Seq<(Seq<char>, nat)>, token: Seq<char>)
    ensures
        0 <= place(counts, token) <= counts.len(),
        place(counts, token) < counts.len() ==> counts[place(counts, token)].0 == token,
        forall|i: int|
            0 <= i < place(counts, token) ==> (#[trigger] counts[i]).0 != token,
    decreases counts.len(),
{
    if counts.len() > 0 {
        let head = counts.drop_last();
        lemma_place(head, token);
        assert forall|i: int| 0 <= i < place(counts, token) implies (#[trigger] counts[i]).0
            != token by {
            if i < head.len() {
                assert(head[i] == counts[i]);
            }
        }
    }
}

/// Counts are equal to others where all texts and numbers are.
pub proof fn lemma_tally(v: Seq<(String, usize)>, c: Seq<(Seq<char>, nat)>)
    ensures
        tally_views(v) == c <==> v.len() == c.len() && forall|k: int|
            0 <= k < v.len() ==> (#[trigger] v[k]).0@ == c[k].0 && v[k].1 == c[k].1,
{
    let x = tally_views(v);
    if x == c {
        assert forall|k: int| 0 <= k < v.len() implies (#[trigger] v[k]).0@ == c[k].0 && v[k].1
            == c[k].1 by {
            assert(x[k] == c[k]);
        }
    }
    if v.len() == c.len() && forall|k: int|
        0 <= k < v.len() ==> (#[trigger] v[k]).0@ == c[k].0 && v[k].1 == c[k].1 {
        assert(x =~= c);
    }
}

/// Only no texts have no counts.
pub proof fn lemma_counted_empty(words: Seq<Seq<char>>)
    ensures
        counted(words).len() == 0 <==> words.len() == 0,
    decreases words.len(),
{
    if words.len() > 0 {
        lemma_place(counted(words.drop_last()), words.last());
    }
}

/// Counts how often each of some texts occurs, in the order of their first occurrence.
pub fn tally(words: &[String]) -> (r: Vec<(String, usize)>)
    ensures
        tally_views(r@) == counted(texts(words@)),
        forall|i: int| 0 <= i < r@.len() ==> (#[trigger] r@[i]).1 <= words@.len(),
{
    let ghost all = texts(words@);
    let mut counts: Vec<(String, usize)> = Vec::new();
    let mut i: usize = 0;
    assert(tally_views(counts@) =~= counted(all.take(0)));
    while i < words.len()
        invariant
            i <= words@.len(),
            all == texts(words@),
            tally_views(counts@) == counted(all.take(i as int)),
            forall|k: int| 0 <= k < counts@.len() ==> (#[trigger] counts@[k]).1 <= i,
        decreases words@.len() - i,
    {
        let ghost c = counted(all.take(i as int));
        let token = words[i].as_str();
        let ghost was = counts@;
        proof {
            assert(all.take(i + 1).drop_last() =~= all.take(i as int));
            assert(all.take(i + 1).last() == token@);
            lemma_place(c, token@);
            lemma_tally(was, c);
        }
        let mut k: usize = 0;
        while k < counts.len() && !same_text(counts[k].0.as_str(), token)
            invariant
                k <= counts@.len(),
                counts@ == was,
                forall|j: int| 0 <= j < k ==> (#[trigger] was[j]).0@ != token@,
            decreases counts@.len() - k,
        {
            k = k + 1;
        }
        proof {
            let at = place(c, token@);
            if at < c.len() {
                assert(was[at].0@ == token@);
            }
            if k < was.len() {
                assert(was[k as int].0@ == token@);
                assert(c[k as int].0 == token@);
            }
            assert(at == k);
        }
        if k < counts.len() {
            let n: usize = counts[k].1;
            counts.set(k, (copy_str(token), n + 1));
        } else {
            counts.push((copy_str(token), 1));
        }
        proof {
            let d = bumped(c, token@);
            assert forall|j: int| 0 <= j < counts@.len() implies (#[trigger] counts@[j]).0@
                == d[j].0 && counts@[j].1 == d[j].1 && counts@[j].1 <= i + 1 by {
                if j < was.len() && j != k {
                    assert(was[j] == counts@[j]);
                    assert(d[j] == c[j]);
                }
                if j < was.len() {
                    assert(was[j].1 <= i);
                }
            }
            lemma_tally(counts@, d);
        }
        i = i + 1;
    }
    assert(all.take(i as int) =~= all);
    counts
}

/// Each text is counted as often as it occurs, and is listed exactly where it occurs.
pub proof fn law_counts_are_occurrences(words: Seq<Seq<char>>, token: Seq<char>)
    ensures
        ({
            let c = counted(words);
            let k = place(c, token);
            &&& k < c.len() <==> occurrences(words, token) > 0
            &&& k < c.len() ==> c[k] == (token, occurrences(words, token))
        }),
    decreases words.len(),
{
    if words.len() > 0 {
        let head = words.drop_last();
        let w = words.last();
        law_counts_are_occurrences(head, token);
        law_counts_are_occurrences(head, w);
        let c = counted(head);
        let d = counted(words);
        lemma_place(c, token);
        lemma_place(c, w);
        lemma_place(d, token);
        let k = place(c, token);
        if k < c.len() {
            assert(d[k].0 == token);
            if place(d, token) < k {
                assert(c[place(d, token)].0 == d[place(d, token)].0);
            }
            assert(place(d, token) == k);
        } else if token == w {
            assert(d == c.push((token, 1nat)));
            assert(d[c.len() as int].0 == token);
            if place(d, token) < c.len() {
                assert(c[place(d, token)] == d[place(d, token)]);
            }
        } else {
            if place(d, token) < d.len() {
                let j = place(d, token);
                if j < c.len() {
                    assert(c[j].0 == token);
                }
            }
        }
    }
}

/// No text is listed twice, and each has the number of its occurrences.
pub proof fn lemma_counted(words: Seq<Seq<char>>)
    ensures
        forall|i: int, j: int|
            0 <= i < j < counted(words).len() ==> (#[trigger] counted(words)[i]).0 != (
            #[trigger] counted(words)[j]).0,
        forall|i: int|
            0 <= i < counted(words).len() ==> (#[trigger] counted(words)[i]).1 == occurrences(
                words,
                counted(words)[i].0,
            ) && 0 < counted(words)[i].1 <= words.len(),
    decreases words.len(),
{
    if words.len() > 0 {
        let head = words.drop_last();
        let w = words.last();
        let c = counted(head);
        let d = counted(words);
        lemma_counted(head);
        lemma_place(c, w);
        law_counts_are_occurrences(head, w);
        assert forall|i: int, j: int| 0 <= i < j < d.len() implies (#[trigger] d[i]).0 != (
        #[trigger] d[j]).0 by {
            if j < c.len() {
                assert(c[i].0 != c[j].0);
                assert(d[i].0 == c[i].0 && d[j].0 == c[j].0);
            } else {
                assert(c[i].0 == d[i].0);
            }
        }
        assert forall|i: int| 0 <= i < d.len() implies (#[trigger] d[i]).1 == occurrences(
            words,
            d[i].0,
        ) && 0 < d[i].1 <= words.len() by {
            if i < c.len() {
                assert(c[i].1 == occurrences(head, c[i].0));
                assert(d[i].0 == c[i].0);
                if c[i].0 == w {
                    assert(place(c, w) <= i);
                    if place(c, w) < i {
                        assert(c[place(c, w)].0 != c[i].0);
                    }
                }
            }
        }
    }
}

/// What is among texts occurs.
pub proof fn lemma_occurs(words: Seq<Seq<char>>, i: int)
    requires
        0 <= i < words.len(),
    ensures
        occurrences(words, words[i]) > 0,
    decreases words.len(),
{
    if i < words.len() - 1 {
        lemma_occurs(words.drop_last(), i);
    }
}

/// A text occurs among others as often as there are places at which it stands.
pub proof fn law_occurrences(words: Seq<Seq<char>>, word: Seq<char>)
    ensures
        occurrences(words, word) == words.filter(|w: Seq<char>| w == word).len(),
    decreases words.len(),
{
    reveal(Seq::filter);
    if words.len() > 0 {
        law_occurrences(words.drop_last(), word);
    }
}

/// Whether a text is among counts.
pub open spec fn is_listed(counts: Seq<(Seq<char>, nat)>, word: Seq<char>) -> bool {
    exists|k: int| 0 <= k < counts.len() && (#[trigger] counts[k]).0 == word
}

/// Whether `at` gives the place of the first occurrence of each text that is counted.
pub open spec fn first_places(
    words: Seq<Seq<char>>,
    counts: Seq<(Seq<char>, nat)>,
    at: Seq<int>,
) -> bool {
    &&& at.len() == counts.len()
    &&& forall|k: int|
        0 <= k < at.len() ==> 0 <= #[trigger] at[k] < words.len() && words[at[k]] == counts[k].0
    &&& forall|k: int, i: int|
        0 <= k < at.len() && 0 <= i < at[k] ==> #[trigger] words[i] != (#[trigger] counts[k]).0
    &&& forall|j: int, k: int| 0 <= j < k < at.len() ==> #[trigger] at[j] < #[trigger] at[k]
    &&& forall|i: int| 0 <= i < words.len() ==> #[trigger] is_listed(counts, words[i])
}

/// Texts are counted in the order of their first occurrence, each once, and all of them, with the
/// number of their occurrences.
pub proof fn law_counted(words: Seq<Seq<char>>) -> (at: Seq<int>)
    ensures
        first_places(words, counted(words), at),
        forall|k: int|
            0 <= k < counted(words).len() ==> (#[trigger] counted(words)[k]).1 == occurrences(
                words,
                counted(words)[k].0,
            ),
    decreases words.len(),
{
    let d = counted(words);
    lemma_counted(words);
    if words.len() == 0 {
        Seq::empty()
    } else {
        let head = words.drop_last();
        let w = words.last();
        let c = counted(head);
        let n = words.len() - 1;
        let a = law_counted(head);
        lemma_place(c, w);
        let at = if place(c, w) < c.len() {
            a
        } else {
            a.push(n)
        };
        assert forall|k: int| 0 <= k < at.len() implies 0 <= #[trigger] at[k] < words.len()
            && words[at[k]] == d[k].0 by {
            if k < a.len() {
                assert(at[k] == a[k]);
                assert(head[a[k]] == words[a[k]]);
                assert(d[k].0 == c[k].0);
            }
        }
        assert forall|k: int, i: int| 0 <= k < at.len() && 0 <= i < at[k] implies #[trigger] words[i]
            != (#[trigger] d[k]).0 by {
            if k < a.len() {
                assert(at[k] == a[k]);
                assert(head[i] == words[i]);
                assert(d[k].0 == c[k].0);
                assert(head[i] != c[k].0);
            } else {
                assert(head[i] == words[i]);
                assert(is_listed(c, head[i]));
                let m = choose|m: int| 0 <= m < c.len() && (#[trigger] c[m]).0 == head[i];
                assert(c[m].0 != w);
            }
        }
        assert forall|j: int, k: int| 0 <= j < k < at.len() implies #[trigger] at[j]
            < #[trigger] at[k] by {
            assert(at[j] == a[j]);
            if k < a.len() {
                assert(at[k] == a[k]);
            }
        }
        assert forall|i: int| 0 <= i < words.len() implies #[trigger] is_listed(d, words[i]) by {
            if i < n {
                assert(head[i] == words[i]);
                assert(is_listed(c, head[i]));
                let m = choose|m: int| 0 <= m < c.len() && (#[trigger] c[m]).0 == head[i];
                assert(d[m].0 == c[m].0);
            } else {
                let m = place(c, w);
                assert(d[m].0 == w);
            }
        }
        at
    }
}

} // verus!
