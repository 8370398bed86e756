//! Hybrid search: keyword and vector results, fused by their ranks.

use vstd::prelude::*;

use super::context::{count_held, frequencies, term_frequencies, words_held};
use crate::order::{order_by, ordered, Direction};
use crate::storage::node::NodeId;
use crate::storage::vector::DistanceMetric;
use crate::text::{
    copy_str, holds, law_match_count, lowercase, split_words, texts, to_lower, words,
};

verus! {

/// Configuration of a hybrid search. Weights are floating-point numbers by their bits.
#[derive(Debug, Clone, Copy, PartialEq, Eq, Structural)]
pub struct HybridSearchConfig {
    /// Weight of the keyword results.
    pub keyword_weight: u64,
    /// Weight of the vector results.
    pub vector_weight: u64,
    /// The constant that is added to every rank.
    pub rrf_k: u64,
    /// Smallest number of words that a text must hold.
    pub min_keyword_matches: usize,
    /// How distances are measured.
    pub metric: DistanceMetric,
}

/// The bits of one half.
pub const HALF: u64 = 0x3fe0_0000_0000_0000;

/// The bits of the number nearest to seven tenths.
pub const SEVEN_TENTHS: u64 = 0x3fe6_6666_6666_6666;

/// The bits of the number nearest to three tenths.
pub const THREE_TENTHS: u64 = 0x3fd3_3333_3333_3333;

/// The bits of sixty.
pub const SIXTY: u64 = 0x404e_0000_0000_0000;

impl Default for HybridSearchConfig {
    fn default() -> (r: Self)
        ensures
            r == (HybridSearchConfig {
                keyword_weight: HALF,
                vector_weight: HALF,
                rrf_k: SIXTY,
                min_keyword_matches: 1,
                metric: DistanceMetric::Cosine,
            }),
    {
        HybridSearchConfig {
            keyword_weight: HALF,
            vector_weight: HALF,
            rrf_k: SIXTY,
            min_keyword_matches: 1,
            metric: DistanceMetric::Cosine,
        }
    }
}

impl HybridSearchConfig {
    /// A configuration that gives keywords more weight.
    pub fn keyword_focused() -> (r: Self)
        ensures
            r == (HybridSearchConfig {
                keyword_weight: SEVEN_TENTHS,
                vector_weight: THREE_TENTHS,
                rrf_k: SIXTY,
                min_keyword_matches: 1,
                metric: DistanceMetric::Cosine,
            }),
    {
        HybridSearchConfig {
            keyword_weight: SEVEN_TENTHS,
            vector_weight: THREE_TENTHS,
            ..HybridSearchConfig::default()
        }
    }

    /// A configuration that gives vectors more weight.
    pub fn vector_focused() -> (r: Self)
        ensures
            r == (HybridSearchConfig {
                keyword_weight: THREE_TENTHS,
                vector_weight: SEVEN_TENTHS,
                rrf_k: SIXTY,
                min_keyword_matches: 1,
                metric: DistanceMetric::Cosine,
            }),
    {
        HybridSearchConfig {
            keyword_weight: THREE_TENTHS,
            vector_weight: SEVEN_TENTHS,
            ..HybridSearchConfig::default()
        }
    }
}

/// How a text answers a keyword query.
#[derive(Debug)]
pub struct KeywordProfile {
    /// How often the text holds each word of the query.
    pub frequencies: Vec<usize>,
    /// Number of characters of the text.
    pub length: usize,
    /// Whether the text counts: it holds as many words as are asked for, and at least one.
    pub counts: bool,
}

/// Number of words that a text holds at least once.
pub open spec fn held(f: Seq<nat>) -> nat
    decreases f.len(),
{
    if f.len() == 0 {
        0
    } else {
        held(f.drop_last()) + (if f.last() > 0 {
            1nat
        } else {
            0nat
        })
    }
}

/// Hybrid search with a configuration.
#[derive(Debug, Clone, Copy)]
pub struct HybridSearch {
    /// The configuration.
    pub config: HybridSearchConfig,
}

/// A node with its ranks among the keyword and the vector results, each from one on.
#[derive(Debug, Clone, Copy)]
pub struct FusedRank {
    /// Identifier of the node.
    pub id: NodeId,
    /// Rank among the keyword results.
    pub keyword_rank: Option<usize>,
    /// Rank among the vector results.
    pub vector_rank: Option<usize>,
}

/// Position of an identifier, or the length where it is not there.
pub open spec fn index_in(ids: Seq<NodeId>, id: Seq<u8>, i: int) -> int
    decreases ids.len() - i,
{
    if i >= ids.len() || ids[i]@ == id {
        i
    } else {
        index_in(ids, id, i + 1)
    }
}

/// The rank of an identifier, from one on, where it is there.
pub open spec fn rank_in(ids: Seq<NodeId>, id: Seq<u8>) -> Option<usize> {
    let k = index_in(ids, id, 0);
    if k < ids.len() {
        Some((k + 1) as usize)
    } else {
        None
    }
}

/// Whether no identifier occurs twice.
pub open spec fn distinct(ids: Seq<NodeId>) -> bool {
    forall|i: int, j: int|
        0 <= i < j < ids.len() ==> (#[trigger] ids[i])@ != (#[trigger] ids[j])@
}

/// Identifiers that are not among others, in order.
pub open spec fn not_among(ids: Seq<NodeId>, others: Seq<NodeId>) -> Seq<NodeId>
    decreases ids.len(),
{
    if ids.len() == 0 {
        Seq::empty()
    } else {
        let head = not_among(ids.drop_last(), others);
        if rank_in(others, ids.last()@) is None {
            head.push(ids.last())
        } else {
            head
        }
    }
}

/// The ranks of some nodes.
pub open spec fn ranks(
    ids: Seq<NodeId>,
    keyword: Seq<NodeId>,
    vector: Seq<NodeId>,
) -> Seq<FusedRank> {
    ids.map_values(
        |id: NodeId|
            FusedRank {
                id,
                keyword_rank: rank_in(keyword, id@),
                vector_rank: rank_in(vector, id@),
            },
    )
}

fn find_rank(ids: &[NodeId], id: &NodeId) -> (r: Option<usize>)
    ensures
        r == rank_in(ids@, id@),
{
    let n: usize = ids.len();
    let mut i: usize = 0;
    while i < n
        invariant
            n == ids@.len(),
            i <= n,
            index_in(ids@, id@, 0) == index_in(ids@, id@, i as int),
        decreases n - i,
    {
        if ids[i].same(id) {
            return Some(i + 1);
        }
        i = i + 1;
    }
    None
}

impl HybridSearch {
    /// A search with the usual configuration.
    pub fn new() -> (r: Self)
        ensures
            r.config == (HybridSearchConfig {
                keyword_weight: HALF,
                vector_weight: HALF,
                rrf_k: SIXTY,
                min_keyword_matches: 1,
                metric: DistanceMetric::Cosine,
            }),
    {
        HybridSearch { config: HybridSearchConfig::default() }
    }

    /// A search with a configuration.
    pub fn with_config(config: HybridSearchConfig) -> (r: Self)
        ensures
            r.config == config,
    {
        HybridSearch { config }
    }

    /// How many results either search is asked for: three times as many as are wanted.
    pub fn candidate_count(k: usize) -> (r: usize)
        requires
            k * 3 <= usize::MAX,
        ensures
            r == k * 3,
    {
        k * 3
    }

    /// The words of a keyword query, in lower case.
    pub fn keyword_terms(query: &str) -> (r: Vec<String>)
        ensures
            texts(r@) == words(lowercase(query@)),
            forall|i: int| 0 <= i < r@.len() ==> (#[trigger] r@[i])@.len() > 0,
    {
        split_words(to_lower(query).as_str())
    }

    /// How a text answers a keyword query, letter case aside.
    pub fn bm25_score(&self, terms: &[String], content: &str) -> (r: KeywordProfile)
        requires
            forall|i: int| 0 <= i < terms@.len() ==> (#[trigger] terms@[i])@.len() > 0,
        ensures
            ({
                let f = frequencies(texts(terms@), lowercase(content@));
                &&& r.frequencies@.map_values(|n: usize| n as nat) == f
                &&& r.length == content@.len()
                &&& r.counts == (held(f) > 0 && held(f) >= self.config.min_keyword_matches)
            }),
            ({
                let content = lowercase(content@);
                let matches = texts(terms@).filter(
                    |t: Seq<char>|
                        exists|i: int|
                            0 <= i <= content.len() - t.len() && #[trigger] content.subrange(
                                i,
                                i + t.len(),
                            ) == t,
                ).len();
                r.counts == (matches > 0 && matches >= self.config.min_keyword_matches)
            }),
    {
        let text = to_lower(content);
        let found = term_frequencies(terms, text.as_str());
        let ghost f = found@.map_values(|n: usize| n as nat);
        let mut n: usize = 0;
        let mut i: usize = 0;
        while i < found.len()
            invariant
                i <= found@.len(),
                f == found@.map_values(|n: usize| n as nat),
                n == held(f.take(i as int)),
                n <= i,
            decreases found@.len() - i,
        {
            proof {
                assert(f.take(i + 1).drop_last() =~= f.take(i as int));
                assert(f.take(i + 1).last() == found@[i as int] as nat);
            }
            if found[i] > 0 {
                n = n + 1;
            }
            i = i + 1;
        }
        assert(f.take(i as int) =~= f);
        proof {
            let all = texts(terms@);
            assert forall|k: int| 0 <= k < all.len() implies (#[trigger] all[k]).len() > 0 by {
                assert(terms@[k]@.len() > 0);
            }
            law_text_counts_by_its_words(all, lowercase(content@));
        }
        KeywordProfile {
            frequencies: found,
            length: content.unicode_len(),
            counts: n > 0 && n >= self.config.min_keyword_matches,
        }
    }

    /// The positions of the best keyword results, by keys that run as their scores.
    pub fn keyword_search(scores: &[i64], k: usize) -> (r: Vec<usize>)
        ensures
            best(scores@, k, r@),
    {
        best_of(scores, k)
    }

    /// The nodes of either list with their ranks in both: first those of the keyword list,
    /// then the others of the vector list.
    pub fn reciprocal_rank_fusion(keyword: &[NodeId], vector: &[NodeId]) -> (r: Vec<FusedRank>)
        requires
            distinct(keyword@),
            distinct(vector@),
        ensures
            r@ == ranks(keyword@ + not_among(vector@, keyword@), keyword@, vector@),
    {
        let mut ids: Vec<NodeId> = Vec::new();
        let mut i: usize = 0;
        while i < keyword.len()
            invariant
                i <= keyword@.len(),
                ids@ == keyword@.take(i as int),
            decreases keyword@.len() - i,
        {
            ids.push(keyword[i]);
            i = i + 1;
            assert(ids@ =~= keyword@.take(i as int));
        }
        assert(keyword@.take(i as int) =~= keyword@);
        let mut j: usize = 0;
        assert(ids@ =~= keyword@ + not_among(vector@.take(0), keyword@));
        while j < vector.len()
            invariant
                j <= vector@.len(),
                ids@ == keyword@ + not_among(vector@.take(j as int), keyword@),
            decreases vector@.len() - j,
        {
            proof {
                assert(vector@.take(j + 1).drop_last() =~= vector@.take(j as int));
                assert(vector@.take(j + 1).last() == vector@[j as int]);
            }
            if find_rank(keyword, &vector[j]).is_none() {
                ids.push(vector[j]);
                assert(ids@ =~= keyword@ + not_among(vector@.take(j + 1), keyword@));
            }
            j = j + 1;
        }
        assert(vector@.take(j as int) =~= vector@);
        let mut out: Vec<FusedRank> = Vec::new();
        let mut n: usize = 0;
        while n < ids.len()
            invariant
                n <= ids@.len(),
                out@ == ranks(ids@.take(n as int), keyword@, vector@),
            decreases ids@.len() - n,
        {
            let id = ids[n];
            out.push(
                FusedRank {
                    id,
                    keyword_rank: find_rank(keyword, &id),
                    vector_rank: find_rank(vector, &id),
                },
            );
            n = n + 1;
            assert(out@ =~= ranks(ids@.take(n as int), keyword@, vector@));
        }
        assert(ids@.take(n as int) =~= ids@);
        out
    }

    /// The positions of the best fused results, by keys that run as their scores.
    pub fn search(scores: &[i64], k: usize) -> (r: Vec<usize>)
        ensures
            best(scores@, k, r@),
    {
        best_of(scores, k)
    }
}

/// The positions of the highest keys, highest first, up to a limit.
pub open spec fn best(keys: Seq<i64>, k: usize, r: Seq<usize>) -> bool {
    exists|o: Seq<usize>| #[trigger]
        ordered(keys, Direction::Descending, o) && r == o.take(
            if k < o.len() {
                k as int
            } else {
                o.len() as int
            },
        )
}

fn best_of(keys: &[i64], k: usize) -> (r: Vec<usize>)
    ensures
        best(keys@, k, r@),
{
    let mut order = order_by(keys, Direction::Descending);
    let ghost o = order@;
    if k < order.len() {
        order.truncate(k);
    } else {
        assert(o.take(o.len() as int) =~= o);
    }
    assert(ordered(keys@, Direction::Descending, o));
    order
}

/// A document with the number of words of the query that it holds.
#[derive(Debug)]
pub struct KeywordHit {
    /// Identifier of the document.
    pub id: String,
    /// Number of words that it holds.
    pub matches: usize,
}

/// The positions of the documents that hold a word of a query.
pub open spec fn matching(terms: Seq<Seq<char>>, documents: Seq<(String, String)>) -> Seq<int>
    decreases documents.len(),
{
    if documents.len() == 0 {
        Seq::empty()
    } else {
        let head = matching(terms, documents.drop_last());
        if words_held(terms, lowercase(documents.last().1@)) > 0 {
            head.push(documents.len() - 1)
        } else {
            head
        }
    }
}

/// How many words of a query documents hold, as keys.
pub open spec fn match_keys(
    terms: Seq<Seq<char>>,
    documents: Seq<(String, String)>,
    at: Seq<int>,
) -> Seq<i64> {
    at.map_values(|i: int| cut_count(words_held(terms, lowercase(documents[i].1@))))
}

/// A count as a key.
pub open spec fn cut_count(n: nat) -> i64 {
    if n <= i64::MAX {
        n as i64
    } else {
        i64::MAX
    }
}

/// Searches documents for the words of a query, letter case aside: those that hold a word,
/// most words first, with the number of words of the query.
pub fn keyword_search_sync(query: &str, documents: &[(String, String)]) -> (r: (
    Vec<KeywordHit>,
    usize,
))
    ensures
        ({
            let terms = words(lowercase(query@));
            let at = matching(terms, documents@);
            &&& r.1 == terms.len()
            &&& exists|o: Seq<usize>| #[trigger]
                ordered(match_keys(terms, documents@, at), Direction::Descending, o)
                    && r.0@.len() == o.len() && forall|i: int|
                    0 <= i < o.len() ==> (#[trigger] r.0@[i]).id@ == documents@[at[o[i] as
                        int]].0@ && r.0@[i].matches == words_held(
                        terms,
                        lowercase(documents@[at[o[i] as int]].1@),
                    )
        }),
        forall|i: int, j: int|
            0 <= i < j < r.0@.len() && (#[trigger] r.0@[i]).matches < i64::MAX ==> r.0@[i].matches
                >= (#[trigger] r.0@[j]).matches,
{
    let terms = HybridSearch::keyword_terms(query);
    let ghost t = texts(terms@);
    let ghost at = matching(t, documents@);
    let mut found: Vec<(usize, usize)> = Vec::new();
    let mut keys: Vec<i64> = Vec::new();
    let mut i: usize = 0;
    assert(keys@ =~= match_keys(t, documents@, matching(t, documents@.take(0))));
    while i < documents.len()
        invariant
            i <= documents@.len(),
            t == texts(terms@),
            ({
                let m = matching(t, documents@.take(i as int));
                &&& keys@ == match_keys(t, documents@, m)
                &&& found@.len() == m.len()
                &&& forall|k: int|
                    0 <= k < m.len() ==> (#[trigger] found@[k]).0 == m[k] && m[k] < i
                        && found@[k].1 == words_held(t, lowercase(documents@[m[k]].1@))
            }),
        decreases documents@.len() - i,
    {
        let ghost m = matching(t, documents@.take(i as int));
        proof {
            assert(documents@.take(i + 1).drop_last() =~= documents@.take(i as int));
            assert(documents@.take(i + 1).last() == documents@[i as int]);
        }
        let text = to_lower(documents[i].1.as_str());
        let n: usize = count_held(terms.as_slice(), text.as_str());
        if n > 0 {
            found.push((i, n));
            let key: i64 = if (n as u64) <= 0x7fff_ffff_ffff_ffff {
                n as i64
            } else {
                i64::MAX
            };
            keys.push(key);
            proof {
                assert(keys@ =~= match_keys(t, documents@, m.push(i as int)));
            }
        }
        i = i + 1;
    }
    assert(documents@.take(i as int) =~= documents@);
    let order = order_by(keys.as_slice(), Direction::Descending);
    let mut out: Vec<KeywordHit> = Vec::new();
    let mut j: usize = 0;
    while j < order.len()
        invariant
            j <= order@.len(),
            order@.len() == found@.len() == at.len(),
            forall|k: int| 0 <= k < order@.len() ==> (#[trigger] order@[k]) < found@.len(),
            forall|k: int|
                0 <= k < at.len() ==> (#[trigger] found@[k]).0 == at[k] && at[k]
                    < documents@.len() && found@[k].1 == words_held(
                    t,
                    lowercase(documents@[at[k]].1@),
                ),
            out@.len() == j,
            forall|k: int|
                0 <= k < j ==> (#[trigger] out@[k]).id@ == documents@[at[order@[k] as int]].0@
                    && out@[k].matches == words_held(
                    t,
                    lowercase(documents@[at[order@[k] as int]].1@),
                ),
        decreases order@.len() - j,
    {
        let (d, n) = found[order[j]];
        out.push(KeywordHit { id: copy_str(documents[d].0.as_str()), matches: n });
        j = j + 1;
    }
    let ghost ranked = match_keys(t, documents@, at);
    assert(ordered(ranked, Direction::Descending, order@));
    assert(t.len() == terms@.len());
    proof {
        assert forall|i: int, j: int|
            0 <= i < j < out@.len() && (#[trigger] out@[i]).matches < i64::MAX implies out@[i].matches
            >= (#[trigger] out@[j]).matches by {
            let a = order@[i] as int;
            let b = order@[j] as int;
            assert(crate::order::precedes(ranked, Direction::Descending, a, b));
            assert(ranked[a] == cut_count(out@[i].matches as nat));
            assert(ranked[b] == cut_count(out@[j].matches as nat));
        }
    }
    (out, terms.len())
}

/// Fusion loses nothing and repeats nothing: every node of either list occurs, with its rank
/// in each list that it is in.
pub proof fn law_fusion_covers_both_lists(keyword: Seq<NodeId>, vector: Seq<NodeId>, i: int)
    requires
        distinct(keyword),
        distinct(vector),
        keyword.len() <= usize::MAX - 1,
        vector.len() <= usize::MAX - 1,
    ensures
        ({
            let r = ranks(keyword + not_among(vector, keyword), keyword, vector);
            &&& 0 <= i < keyword.len() ==> exists|k: int|
                0 <= k < r.len() && (#[trigger] r[k]).id@ == keyword[i]@ && r[k].keyword_rank
                    == Some((i + 1) as usize)
            &&& 0 <= i < vector.len() ==> exists|k: int|
                0 <= k < r.len() && (#[trigger] r[k]).id@ == vector[i]@ && r[k].vector_rank
                    == Some((i + 1) as usize)
        }),
{
    let rest = not_among(vector, keyword);
    let ids = keyword + rest;
    let r = ranks(ids, keyword, vector);
    if 0 <= i < keyword.len() {
        lemma_index_in(keyword, i, 0);
        assert(ids[i] == keyword[i]);
        assert(r[i].id@ == keyword[i]@);
    }
    if 0 <= i < vector.len() {
        lemma_index_in(vector, i, 0);
        lemma_index_bounds(keyword, vector[i]@, 0);
        let k = index_in(keyword, vector[i]@, 0);
        if k < keyword.len() {
            assert(ids[k] == keyword[k]);
            assert(r[k].id@ == vector[i]@);
        } else {
            lemma_not_among(vector, keyword, i);
            let m = choose|m: int| 0 <= m < rest.len() && rest[m] == vector[i];
            assert(ids[keyword.len() + m] == vector[i]);
            assert(r[keyword.len() + m].id@ == vector[i]@);
        }
    }
}

proof fn lemma_index_bounds(ids: Seq<NodeId>, id: Seq<u8>, from: int)
    requires
        0 <= from <= ids.len(),
    ensures
        from <= index_in(ids, id, from) <= ids.len(),
        index_in(ids, id, from) < ids.len() ==> ids[index_in(ids, id, from)]@ == id,
    decreases ids.len() - from,
{
    if from < ids.len() && ids[from]@ != id {
        lemma_index_bounds(ids, id, from + 1);
    }
}

proof fn lemma_index_in(ids: Seq<NodeId>, i: int, from: int)
    requires
        distinct(ids),
        0 <= from <= i < ids.len(),
    ensures
        index_in(ids, ids[i]@, from) == i,
    decreases i - from,
{
    if from < i {
        assert(ids[from]@ != ids[i]@);
        lemma_index_in(ids, i, from + 1);
    }
}

proof fn lemma_not_among(ids: Seq<NodeId>, others: Seq<NodeId>, i: int)
    requires
        0 <= i < ids.len(),
        rank_in(others, ids[i]@) is None,
    ensures
        not_among(ids, others).contains(ids[i]),
    decreases ids.len(),
{
    let head = ids.drop_last();
    let a = not_among(ids, others);
    let b = not_among(head, others);
    if i < head.len() {
        lemma_not_among(head, others, i);
        let k = choose|k: int| 0 <= k < b.len() && b[k] == ids[i];
        assert(a[k] == ids[i]);
    } else {
        assert(a[b.len() as int] == ids[i]);
    }
}

/// The number of words that a text holds is the number of frequencies that are not zero.
pub proof fn law_held_counts_what_occurs(f: Seq<nat>)
    ensures
        held(f) == f.filter(|n: nat| n != 0).len(),
        held(f) > 0 <==> exists|i: int| 0 <= i < f.len() && #[trigger] f[i] != 0,
    decreases f.len(),
{
    reveal(Seq::filter);
    if f.len() > 0 {
        let head = f.drop_last();
        law_held_counts_what_occurs(head);
        if held(head) > 0 {
            let i = choose|i: int| 0 <= i < head.len() && #[trigger] head[i] != 0;
            assert(f[i] != 0);
        }
        if f.last() > 0 {
            assert(f[f.len() - 1] != 0);
        }
        if exists|i: int| 0 <= i < f.len() && #[trigger] f[i] != 0 {
            let i = choose|i: int| 0 <= i < f.len() && #[trigger] f[i] != 0;
            if i < head.len() {
                assert(head[i] != 0);
            }
        }
    }
}

/// A text holds as many words of a query as there are places of the query with a word that
/// stands somewhere in the text: where one match is asked for, a text counts exactly where some
/// word of the query stands in it.
pub proof fn law_text_counts_by_its_words(terms: Seq<Seq<char>>, content: Seq<char>)
    requires
        forall|i: int| 0 <= i < terms.len() ==> (#[trigger] terms[i]).len() > 0,
    ensures
        held(frequencies(terms, content)) == terms.filter(
            |t: Seq<char>|
                exists|i: int|
                    0 <= i <= content.len() - t.len() && #[trigger] content.subrange(
                        i,
                        i + t.len(),
                    ) == t,
        ).len(),
        held(frequencies(terms, content)) > 0 <==> exists|k: int, i: int|
            0 <= k < terms.len() && 0 <= i <= content.len() - terms[k].len()
                && #[trigger] content.subrange(i, i + (#[trigger] terms[k]).len()) == terms[k],
    decreases terms.len(),
{
    reveal(Seq::filter);
    let f = frequencies(terms, content);
    if terms.len() > 0 {
        let head = terms.drop_last();
        assert forall|i: int| 0 <= i < head.len() implies (#[trigger] head[i]).len() > 0 by {
            assert(terms[i].len() > 0);
        }
        law_text_counts_by_its_words(head, content);
        assert(f.drop_last() =~= frequencies(head, content));
        assert(terms.last() == terms[terms.len() - 1]);
        law_match_count(content, terms.last());
    }
    law_held_counts_what_occurs(f);
    if held(f) > 0 {
        let k = choose|k: int| 0 <= k < f.len() && #[trigger] f[k] != 0;
        assert(f[k] == crate::text::match_count(content, terms[k], 0));
        law_match_count(content, terms[k]);
        let i = choose|i: int|
            0 <= i <= content.len() - terms[k].len() && #[trigger] content.subrange(
                i,
                i + terms[k].len(),
            ) == terms[k];
        assert(content.subrange(i, i + terms[k].len()) == terms[k]);
    }
    if exists|k: int, i: int|
        0 <= k < terms.len() && 0 <= i <= content.len() - terms[k].len()
            && #[trigger] content.subrange(i, i + (#[trigger] terms[k]).len()) == terms[k] {
        let (k, i) = choose|k: int, i: int|
            0 <= k < terms.len() && 0 <= i <= content.len() - terms[k].len()
                && #[trigger] content.subrange(i, i + (#[trigger] terms[k]).len()) == terms[k];
        law_match_count(content, terms[k]);
        assert(f[k] == crate::text::match_count(content, terms[k], 0));
        assert(f[k] != 0);
    }
}

/// The documents that match are exactly those in which some word of the query stands, in order.
pub proof fn law_matching(terms: Seq<Seq<char>>, documents: Seq<(String, String)>)
    ensures
        ({
            let at = matching(terms, documents);
            &&& forall|a: int, b: int| 0 <= a < b < at.len() ==> #[trigger] at[a] < #[trigger] at[b]
            &&& forall|k: int| 0 <= k < at.len() ==> 0 <= #[trigger] at[k] < documents.len()
            &&& forall|d: int|
                0 <= d < documents.len() ==> (at.contains(d) <==> exists|k: int|
                    0 <= k < terms.len() && holds(
                        lowercase((#[trigger] documents[d]).1@),
                        #[trigger] terms[k],
                    ))
        }),
    decreases documents.len(),
{
    let at = matching(terms, documents);
    if documents.len() > 0 {
        let head = documents.drop_last();
        law_matching(terms, head);
        let b = matching(terms, head);
        lemma_words_held_some(terms, lowercase(documents.last().1@));
        let n = documents.len() - 1;
        assert forall|d: int| 0 <= d < documents.len() implies (at.contains(d) <==> exists|k: int|
            0 <= k < terms.len() && holds(
                lowercase((#[trigger] documents[d]).1@),
                #[trigger] terms[k],
            )) by {
            if d < n {
                assert(head[d] == documents[d]);
                if b.contains(d) {
                    let k = choose|k: int| 0 <= k < b.len() && b[k] == d;
                    assert(at[k] == d);
                }
                if at.contains(d) {
                    let k = choose|k: int| 0 <= k < at.len() && at[k] == d;
                    assert(b[k] == d);
                }
            } else {
                if at.contains(d) {
                    let k = choose|k: int| 0 <= k < at.len() && at[k] == d;
                    if k < b.len() {
                        assert(b[k] < head.len());
                    }
                }
                if words_held(terms, lowercase(documents.last().1@)) > 0 {
                    assert(at[b.len() as int] == n);
                }
            }
        }
        assert forall|x: int, y: int| 0 <= x < y < at.len() implies #[trigger] at[x]
            < #[trigger] at[y] by {
            assert(at[x] == b[x]);
            if y < b.len() {
                assert(at[y] == b[y]);
            }
        }
        assert forall|k: int| 0 <= k < at.len() implies 0 <= #[trigger] at[k] < documents.len() by {
            if k < b.len() {
                assert(at[k] == b[k]);
            }
        }
    }
}

proof fn lemma_words_held_some(terms: Seq<Seq<char>>, content: Seq<char>)
    ensures
        words_held(terms, content) > 0 <==> exists|k: int|
            0 <= k < terms.len() && holds(content, #[trigger] terms[k]),
    decreases terms.len(),
{
    if terms.len() > 0 {
        let head = terms.drop_last();
        lemma_words_held_some(head, content);
        if words_held(head, content) > 0 {
            let k = choose|k: int| 0 <= k < head.len() && holds(content, #[trigger] head[k]);
            assert(terms[k] == head[k]);
        }
        if holds(content, terms.last()) {
            assert(terms[terms.len() - 1] == terms.last());
        }
        if exists|k: int| 0 <= k < terms.len() && holds(content, #[trigger] terms[k]) {
            let k = choose|k: int| 0 <= k < terms.len() && holds(content, #[trigger] terms[k]);
            if k < head.len() {
                assert(head[k] == terms[k]);
            }
        }
    }
}

/// The best positions are the highest: as many as are asked for, or all; each once; no key is
/// higher than one before it, and none that is left out is higher than one that is taken.
pub proof fn law_best_are_highest(keys: Seq<i64>, k: usize, r: Seq<usize>)
    requires
        best(keys, k, r),
    ensures
        r.len() == (if k < keys.len() {
            k as nat
        } else {
            keys.len()
        }),
        r.no_duplicates(),
        forall|i: int| 0 <= i < r.len() ==> (#[trigger] r[i]) < keys.len(),
        forall|i: int, j: int|
            0 <= i < j < r.len() ==> keys[#[trigger] r[i] as int] >= keys[#[trigger] r[j] as int],
        forall|i: int, j: int|
            0 <= i < r.len() && 0 <= j < keys.len() && !r.contains(j as usize) ==> keys[
                #[trigger] r[i] as int] >= #[trigger] keys[j],
{
    let o = choose|o: Seq<usize>| #[trigger]
        ordered(keys, Direction::Descending, o) && r == o.take(
            if k < o.len() {
                k as int
            } else {
                o.len() as int
            },
        );
    if o.len() > 0 {
        crate::order::lemma_ordered_is_complete(keys, Direction::Descending, o, 0);
    }
    assert forall|i: int, j: int| 0 <= i < j < o.len() implies keys[#[trigger] o[i] as int]
        >= keys[#[trigger] o[j] as int] by {
        assert(crate::order::precedes(keys, Direction::Descending, o[i] as int, o[j] as int));
    }
    assert forall|i: int, j: int|
        0 <= i < r.len() && 0 <= j < keys.len() && !r.contains(j as usize) implies keys[
        #[trigger] r[i] as int] >= #[trigger] keys[j] by {
        crate::order::lemma_ordered_is_complete(keys, Direction::Descending, o, j);
        let m = choose|m: int| 0 <= m < o.len() && #[trigger] o[m] == j;
        if m < r.len() {
            assert(r[m] == j as usize);
        }
        assert(o[i] == r[i]);
    }
    assert forall|i: int, j: int|
        0 <= i < r.len() && 0 <= j < r.len() && i != j implies r[i] != r[j] by {
        assert(o[i] != o[j]);
    }
}

/// Fusion repeats nothing and invents nothing: every node of the result is in one of the lists
/// and occurs once, and it has a rank in a list exactly where it is in the list, one more than
/// its position there. The nodes of the keyword list come first, in their order, and the others
/// behind them, in theirs.
pub proof fn law_fusion_is_exact(keyword: Seq<NodeId>, vector: Seq<NodeId>)
    requires
        distinct(keyword),
        distinct(vector),
        keyword.len() <= usize::MAX - 1,
        vector.len() <= usize::MAX - 1,
    ensures
        ({
            let r = ranks(keyword + not_among(vector, keyword), keyword, vector);
            &&& keyword.len() <= r.len()
            &&& forall|k: int| 0 <= k < keyword.len() ==> (#[trigger] r[k]).id == keyword[k]
            &&& forall|k: int|
                keyword.len() <= k < r.len() ==> (#[trigger] r[k]).keyword_rank is None
                    && r[k].vector_rank is Some
            &&& forall|j: int, k: int|
                0 <= j < k < r.len() ==> (#[trigger] r[j]).id@ != (#[trigger] r[k]).id@
            &&& forall|j: int, k: int|
                keyword.len() <= j < k < r.len() ==> (#[trigger] r[j]).vector_rank->0 < (
                #[trigger] r[k]).vector_rank->0
            &&& forall|k: int|
                0 <= k < r.len() ==> {
                    &&& (#[trigger] r[k]).keyword_rank matches Some(n) ==> 1 <= n <= keyword.len()
                        && keyword[n - 1]@ == r[k].id@
                    &&& r[k].vector_rank matches Some(n) ==> 1 <= n <= vector.len() && vector[n
                        - 1]@ == r[k].id@
                    &&& r[k].keyword_rank is None ==> forall|i: int|
                        0 <= i < keyword.len() ==> (#[trigger] keyword[i])@ != r[k].id@
                    &&& r[k].vector_rank is None ==> forall|i: int|
                        0 <= i < vector.len() ==> (#[trigger] vector[i])@ != r[k].id@
                }
        }),
{
    let rest = not_among(vector, keyword);
    let ids = keyword + rest;
    let r = ranks(ids, keyword, vector);
    lemma_not_among_places(vector, keyword);
    assert forall|k: int| 0 <= k < r.len() implies {
        &&& (#[trigger] r[k]).keyword_rank matches Some(n) ==> 1 <= n <= keyword.len() && keyword[n
            - 1]@ == r[k].id@
        &&& r[k].vector_rank matches Some(n) ==> 1 <= n <= vector.len() && vector[n - 1]@
            == r[k].id@
        &&& r[k].keyword_rank is None ==> forall|i: int|
            0 <= i < keyword.len() ==> (#[trigger] keyword[i])@ != r[k].id@
        &&& r[k].vector_rank is None ==> forall|i: int|
            0 <= i < vector.len() ==> (#[trigger] vector[i])@ != r[k].id@
    } by {
        lemma_index_bounds(keyword, ids[k]@, 0);
        lemma_index_bounds(vector, ids[k]@, 0);
        if r[k].keyword_rank is None {
            lemma_index_none(keyword, ids[k]@, 0);
        }
        if r[k].vector_rank is None {
            lemma_index_none(vector, ids[k]@, 0);
        }
    }
    let at = choose|at: Seq<int>| #[trigger] places_in(vector, keyword, rest, at);
    assert forall|k: int| keyword.len() <= k < r.len() implies (#[trigger] r[k]).keyword_rank is None
        && r[k].vector_rank == Some((at[k - keyword.len()] + 1) as usize) by {
        let m = k - keyword.len();
        assert(ids[k] == rest[m]);
        assert(rest[m] == vector[at[m]]);
        lemma_index_in(vector, at[m], 0);
    }
    assert forall|k: int| 0 <= k < keyword.len() implies (#[trigger] r[k]).id == keyword[k] by {
        assert(ids[k] == keyword[k]);
    }
    assert forall|j: int, k: int| keyword.len() <= j < k < r.len() implies (
    #[trigger] r[j]).vector_rank->0 < (#[trigger] r[k]).vector_rank->0 by {
        assert(at[j - keyword.len()] < at[k - keyword.len()]);
    }
    assert forall|j: int, k: int| 0 <= j < k < r.len() implies (#[trigger] r[j]).id@ != (
    #[trigger] r[k]).id@ by {
        if k < keyword.len() {
            assert(keyword[j]@ != keyword[k]@);
        } else if j < keyword.len() {
            assert(r[k].keyword_rank is None);
            assert(r[j].id == keyword[j]);
            assert(keyword[j]@ != r[k].id@);
        } else {
            let x = at[j - keyword.len()];
            let y = at[k - keyword.len()];
            assert(x < y);
            assert(ids[j] == rest[j - keyword.len()]);
            assert(ids[k] == rest[k - keyword.len()]);
            assert(vector[x]@ != vector[y]@);
        }
    }
}

/// Whether identifiers stand at some places of a list, in order, and are not among others.
spec fn places_in(
    ids: Seq<NodeId>,
    others: Seq<NodeId>,
    rest: Seq<NodeId>,
    at: Seq<int>,
) -> bool {
    &&& at.len() == rest.len()
    &&& forall|k: int|
        0 <= k < at.len() ==> 0 <= #[trigger] at[k] < ids.len() && rest[k] == ids[at[k]] && rank_in(
            others,
            rest[k]@,
        ) is None
    &&& forall|j: int, k: int| 0 <= j < k < at.len() ==> #[trigger] at[j] < #[trigger] at[k]
}

proof fn lemma_not_among_places(ids: Seq<NodeId>, others: Seq<NodeId>)
    ensures
        exists|at: Seq<int>| #[trigger] places_in(ids, others, not_among(ids, others), at),
    decreases ids.len(),
{
    let rest = not_among(ids, others);
    if ids.len() == 0 {
        assert(places_in(ids, others, rest, Seq::empty()));
    } else {
        let head = ids.drop_last();
        lemma_not_among_places(head, others);
        let part = not_among(head, others);
        let at = choose|at: Seq<int>| #[trigger] places_in(head, others, part, at);
        let next = if rank_in(others, ids.last()@) is None {
            at.push(ids.len() - 1)
        } else {
            at
        };
        assert forall|k: int| 0 <= k < next.len() implies 0 <= #[trigger] next[k] < ids.len()
            && rest[k] == ids[next[k]] && rank_in(others, rest[k]@) is None by {
            if k < at.len() {
                assert(next[k] == at[k]);
                assert(rest[k] == part[k]);
                assert(head[at[k]] == ids[at[k]]);
            }
        }
        assert forall|j: int, k: int| 0 <= j < k < next.len() implies #[trigger] next[j]
            < #[trigger] next[k] by {
            assert(next[j] == at[j]);
            if k < at.len() {
                assert(next[k] == at[k]);
            }
        }
        assert(places_in(ids, others, rest, next));
    }
}

proof fn lemma_index_none(ids: Seq<NodeId>, id: Seq<u8>, from: int)
    requires
        0 <= from <= ids.len(),
        index_in(ids, id, from) >= ids.len(),
    ensures
        forall|i: int| from <= i < ids.len() ==> (#[trigger] ids[i])@ != id,
    decreases ids.len() - from,
{
    if from < ids.len() {
        lemma_index_none(ids, id, from + 1);
    }
}

} // verus!
