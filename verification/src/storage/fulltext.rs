//! Full-text indexes: tokens of text properties, and the documents under each token.

use vstd::prelude::*;
use vstd::utf8::encode_utf8;

use super::local::{LocalStorage, StoreError};
use super::node::NodeId;
use super::property_index::{
    fields_of, make_registry_key, make_scoped_key, pair_views, registry_key, scoped_key,
    split_keys, ScannedNode,
};
use super::tables::{count_views, lemma_run_push, run, TableOp, Tables};
use super::value::{PropertyMap, Value, ValueView};
use crate::codec::append_bytes;
use crate::order::{order_by, ordered, Direction};
use crate::tally::{
    counted, law_counts_are_occurrences, lemma_counted_empty, lemma_occurs, lemma_place,
    lemma_tally, occurrences, place, tally,
};
use crate::text::{
    alphanumeric, byte_len, bytes, copy_str, from_chars, is_alphanumeric, lemma_runs_end,
    lemma_runs_front, lists_runs, lowercase, same_text, texts, to_chars, to_lower,
};

verus! {

broadcast use lemma_run_push;

/// Words that are left out of an index.
pub open spec fn stop_words() -> Seq<Seq<char>> {
    seq![
        "a"@, "an"@, "the"@, "and"@, "or"@, "but"@, "in"@, "on"@, "at"@, "to"@, "for"@,
        "of"@, "with"@, "by"@, "is"@, "are"@, "was"@, "were"@, "be"@, "been"@, "being"@,
        "have"@, "has"@, "had"@, "do"@, "does"@, "did"@, "will"@, "would"@, "could"@,
        "should"@, "may"@, "might"@, "shall"@, "can"@, "it"@, "its"@, "this"@, "that"@,
        "these"@, "those"@, "i"@, "me"@, "my"@, "we"@, "our"@, "you"@, "your"@, "he"@,
        "she"@, "they"@, "them"@, "their"@, "not"@, "no"@, "so"@, "if"@, "as"@,
    ]
}

fn stop_word_list() -> (r: Vec<&'static str>)
    ensures
        r@.map_values(|s: &'static str| s@) == stop_words(),
{
    let words = vec![
        "a", "an", "the", "and", "or", "but", "in", "on", "at", "to", "for", "of", "with",
        "by", "is", "are", "was", "were", "be", "been", "being", "have", "has", "had", "do",
        "does", "did", "will", "would", "could", "should", "may", "might", "shall", "can",
        "it", "its", "this", "that", "these", "those", "i", "me", "my", "we", "our", "you",
        "your", "he", "she", "they", "them", "their", "not", "no", "so", "if", "as",
    ];
    assert(words@.map_values(|s: &'static str| s@) =~= stop_words());
    words
}

fn is_stop_word(word: &str) -> (r: bool)
    ensures
        r == stop_words().contains(word@),
{
    let words = stop_word_list();
    let ghost views = words@.map_values(|s: &'static str| s@);
    let mut i: usize = 0;
    while i < words.len()
        invariant
            i <= words@.len(),
            views == words@.map_values(|s: &'static str| s@),
            views == stop_words(),
            forall|k: int| 0 <= k < i ==> views[k] != word@,
        decreases words@.len() - i,
    {
        if same_text(words[i], word) {
            assert(views[i as int] == word@);
            return true;
        }
        assert(views[i as int] == words@[i as int]@);
        i = i + 1;
    }
    false
}

/// The token of a run of letters and digits: the run in lower case, unless it is a single
/// byte or a stop word.
pub open spec fn kept(run: Seq<char>) -> Seq<Seq<char>> {
    if bytes(run) > 1 && !stop_words().contains(lowercase(run)) {
        seq![lowercase(run)]
    } else {
        Seq::empty()
    }
}

/// The tokens of a text from position `i` on, where the present run began at `start`.
pub open spec fn tokens_from(s: Seq<char>, start: int, i: int) -> Seq<Seq<char>>
    decreases s.len() - i,
{
    if i >= s.len() {
        kept(s.subrange(start, s.len() as int))
    } else if alphanumeric(s[i]) {
        tokens_from(s, start, i + 1)
    } else {
        kept(s.subrange(start, i)) + tokens_from(s, i + 1, i + 1)
    }
}

/// The tokens of a text.
pub open spec fn tokens(s: Seq<char>) -> Seq<Seq<char>> {
    tokens_from(s, 0, 0)
}

/// Counts as they are stored.
pub open spec fn stored_counts(counts: Seq<(Seq<char>, nat)>) -> Seq<(Seq<char>, u32)> {
    counts.map_values(|c: (Seq<char>, nat)| (c.0, c.1 as u32))
}

/// The key under which a document's counts are stored: its identifier, NUL, the type, NUL and
/// the field.
pub open spec fn document_key(id: Seq<u8>, node_type: Seq<char>, field: Seq<char>) -> Seq<u8> {
    id.push(0u8) + encode_utf8(node_type).push(0u8) + encode_utf8(field)
}

/// The tokens of a text: runs of letters and digits in lower case, without single bytes and
/// stop words.
pub fn tokenize(text: &str) -> (r: Vec<String>)
    ensures
        texts(r@) == tokens(text@),
        r@.len() <= text@.len() + 1,
{
    let chars = to_chars(text);
    let ghost s = chars@;
    let mut out: Vec<String> = Vec::new();
    let mut start: usize = 0;
    let mut i: usize = 0;
    assert(texts(out@) + tokens_from(s, 0, 0) =~= tokens(s));
    while i < chars.len()
        invariant
            s == chars@,
            start <= i <= s.len(),
            texts(out@) + tokens_from(s, start as int, i as int) == tokens(s),
            out@.len() <= start,
        decreases s.len() - i,
    {
        if !is_alphanumeric(chars[i]) {
            let ghost was = texts(out@);
            push_kept(&mut out, chars.as_slice(), start, i);
            assert(was + (kept(s.subrange(start as int, i as int)) + tokens_from(
                s,
                i + 1,
                i + 1,
            )) =~= was + kept(s.subrange(start as int, i as int)) + tokens_from(s, i + 1, i + 1));
            start = i + 1;
        }
        i = i + 1;
    }
    push_kept(&mut out, chars.as_slice(), start, chars.len());
    out
}

fn push_kept(out: &mut Vec<String>, chars: &[char], start: usize, end: usize)
    requires
        start <= end <= chars@.len(),
    ensures
        texts(final(out)@) == texts(old(out)@) + kept(chars@.subrange(start as int, end as int)),
        final(out)@.len() <= old(out)@.len() + 1,
{
    let run = from_chars(chars, start, end);
    let ghost was = out@;
    if byte_len(run.as_str()) > 1 {
        let word = to_lower(run.as_str());
        if !is_stop_word(word.as_str()) {
            out.push(word);
            assert(texts(out@) =~= texts(was) + seq![word@]);
            return;
        }
    }
    assert(texts(was) + Seq::<Seq<char>>::empty() =~= texts(was));
}

/// The tokens of a text with how often each occurs, in the order of their first occurrence.
pub fn tokenize_and_count(text: &str) -> (r: Vec<(String, u32)>)
    requires
        tokens(text@).len() <= u32::MAX,
    ensures
        count_views(r@) == stored_counts(counted(tokens(text@))),
{
    let words = tokenize(text);
    assert(texts(words@).len() == words@.len());
    let found = tally(words.as_slice());
    let ghost c = counted(tokens(text@));
    let mut counts: Vec<(String, u32)> = Vec::new();
    let mut i: usize = 0;
    proof {
        lemma_tally(found@, c);
    }
    while i < found.len()
        invariant
            i <= found@.len(),
            words@.len() <= u32::MAX,
            found@.len() == c.len(),
            forall|k: int|
                0 <= k < c.len() ==> (#[trigger] found@[k]).0@ == c[k].0 && found@[k].1 == c[k].1
                    && found@[k].1 <= words@.len(),
            counts@.len() == i,
            forall|k: int|
                0 <= k < i ==> (#[trigger] counts@[k]).0@ == c[k].0 && counts@[k].1
                    == c[k].1 as u32,
        decreases found@.len() - i,
    {
        assert(found@[i as int].1 <= words@.len());
        counts.push((copy_str(found[i].0.as_str()), found[i].1 as u32));
        i = i + 1;
    }
    assert(count_views(counts@) =~= stored_counts(c));
    counts
}

/// The key of a token under an index.
pub fn make_fulltext_key(node_type: &str, field: &str, token: &str) -> (r: Vec<u8>)
    ensures
        r@ == scoped_key(node_type@, field@, token@),
{
    make_scoped_key(node_type, field, token)
}

/// The key under which a document's counts are stored.
pub fn make_doc_freq_key(id: &NodeId, node_type: &str, field: &str) -> (r: Vec<u8>)
    ensures
        r@ == document_key(id@, node_type@, field@),
{
    let mut key: Vec<u8> = Vec::new();
    append_bytes(&mut key, &id.uuid);
    key.push(0u8);
    append_bytes(&mut key, node_type.as_bytes());
    key.push(0u8);
    append_bytes(&mut key, field.as_bytes());
    assert(key@ =~= document_key(id@, node_type@, field@));
    key
}

/// The token keys of a document.
pub open spec fn token_entries(
    counts: Seq<(Seq<char>, nat)>,
    node_type: Seq<char>,
    field: Seq<char>,
    id: Seq<u8>,
) -> Set<(Seq<u8>, Seq<u8>)> {
    Set::new(
        |p: (Seq<u8>, Seq<u8>)|
            p.1 == id && exists|i: int|
                0 <= i < counts.len() && p.0 == scoped_key(
                    node_type,
                    field,
                    (#[trigger] counts[i]).0,
                ),
    )
}

/// The tables with a document entered under its tokens and its counts stored.
pub open spec fn document_indexed(
    t: Tables,
    id: Seq<u8>,
    node_type: Seq<char>,
    field: Seq<char>,
    text: Seq<char>,
) -> Tables {
    let counts = counted(tokens(text));
    Tables {
        tokens: t.tokens.union(token_entries(counts, node_type, field, id)),
        term_counts: t.term_counts.insert(
            document_key(id, node_type, field),
            stored_counts(counts),
        ),
        ..t
    }
}

/// The text of a scanned node's field, where it has one.
pub open spec fn scanned_text(n: ScannedNode, field: Seq<char>) -> Option<Seq<char>> {
    match n.value(field) {
        Some(ValueView::Text(s)) => Some(s),
        _ => None,
    }
}

/// The tables with those of some nodes indexed that have a text with a token in it.
pub open spec fn nodes_indexed(
    t: Tables,
    nodes: Seq<ScannedNode>,
    node_type: Seq<char>,
    field: Seq<char>,
) -> Tables
    decreases nodes.len(),
{
    if nodes.len() == 0 {
        t
    } else {
        let u = nodes_indexed(t, nodes.drop_last(), node_type, field);
        match scanned_text(nodes.last(), field) {
            Some(s) => if tokens(s).len() > 0 {
                document_indexed(u, nodes.last().id@, node_type, field, s)
            } else {
                u
            },
            None => u,
        }
    }
}

/// How many of some nodes have a text with a token in it.
pub open spec fn indexable(nodes: Seq<ScannedNode>, field: Seq<char>) -> nat
    decreases nodes.len(),
{
    if nodes.len() == 0 {
        0
    } else {
        indexable(nodes.drop_last(), field) + (match scanned_text(nodes.last(), field) {
            Some(s) => if tokens(s).len() > 0 {
                1nat
            } else {
                0nat
            },
            None => 0nat,
        })
    }
}

/// Whether the tokens in the texts of some nodes' fields can be counted in 32 bits.
pub open spec fn countable(nodes: Seq<ScannedNode>, field: Seq<char>) -> bool {
    forall|i: int|
        0 <= i < nodes.len() ==> (#[trigger] scanned_text(nodes[i], field) matches Some(s)
            ==> tokens(s).len() <= u32::MAX)
}

/// Whether the tokens in the texts of some fields can be counted in 32 bits.
pub open spec fn texts_countable(
    fields: Seq<String>,
    properties: Map<Seq<char>, ValueView>,
) -> bool {
    forall|i: int|
        0 <= i < fields.len() && properties.dom().contains((#[trigger] fields[i])@) ==> (
        properties[fields[i]@] matches ValueView::Text(s) ==> tokens(s).len() <= u32::MAX)
}

/// The tables with the texts of some fields of one node indexed.
pub open spec fn fields_indexed(
    t: Tables,
    id: Seq<u8>,
    node_type: Seq<char>,
    fields: Seq<String>,
    properties: Map<Seq<char>, ValueView>,
) -> Tables
    decreases fields.len(),
{
    if fields.len() == 0 {
        t
    } else {
        let u = fields_indexed(t, id, node_type, fields.drop_last(), properties);
        let field = fields.last()@;
        if properties.dom().contains(field) {
            match properties[field] {
                ValueView::Text(s) => document_indexed(u, id, node_type, field, s),
                _ => u,
            }
        } else {
            u
        }
    }
}

impl LocalStorage {
    fn push_document(
        ops: &mut Vec<TableOp>,
        id: NodeId,
        node_type: &str,
        field: &str,
        counts: Vec<(String, u32)>,
        Ghost(text): Ghost<Seq<char>>,
    )
        requires
            count_views(counts@) == stored_counts(counted(tokens(text))),
        ensures
            forall|t: Tables| #[trigger]
                run(t, final(ops)@) == document_indexed(
                    run(t, old(ops)@),
                    id@,
                    node_type@,
                    field@,
                    text,
                ),
    {
        let ghost start = ops@;
        let ghost c = counted(tokens(text));
        let mut i: usize = 0;
        proof {
            assert(count_views(counts@).len() == stored_counts(c).len());
            assert forall|t: Tables| #[trigger] run(t, ops@) == with_tokens(
                run(t, start),
                token_entries(c.take(0), node_type@, field@, id@),
            ) by {
                assert(run(t, start).tokens.union(
                    token_entries(c.take(0), node_type@, field@, id@),
                ) =~= run(t, start).tokens);
            }
        }
        while i < counts.len()
            invariant
                i <= counts@.len(),
                counts@.len() == c.len(),
                count_views(counts@) == stored_counts(c),
                forall|t: Tables| #[trigger]
                    run(t, ops@) == with_tokens(
                        run(t, start),
                        token_entries(c.take(i as int), node_type@, field@, id@),
                    ),
            decreases counts@.len() - i,
        {
            let ghost before = ops@;
            let key = make_fulltext_key(node_type, field, counts[i].0.as_str());
            let ghost pair = (key@, id@);
            ops.push(TableOp::LinkToken(key, id));
            proof {
                assert(count_views(counts@)[i as int] == stored_counts(c)[i as int]);
                assert(c[i as int].0 == counts@[i as int].0@);
                lemma_token_entries_push(c, i as int, node_type@, field@, id@);
                let small = token_entries(c.take(i as int), node_type@, field@, id@);
                let large = token_entries(c.take(i + 1), node_type@, field@, id@);
                assert forall|t: Tables| #[trigger] run(t, ops@) == with_tokens(
                    run(t, start),
                    large,
                ) by {
                    assert(run(t, before) == with_tokens(run(t, start), small));
                    assert(run(t, start).tokens.union(small).insert(pair) =~= run(
                        t,
                        start,
                    ).tokens.union(large));
                }
            }
            i = i + 1;
        }
        assert(c.take(i as int) =~= c);
        ops.push(TableOp::PutTermCounts(make_doc_freq_key(&id, node_type, field), counts));
    }

    /// Builds a full-text index on a field from the nodes of the type, unless it is
    /// registered already. Returns how many documents were indexed.
    pub fn create_fulltext_index(
        registered: bool,
        node_type: &str,
        field: &str,
        nodes: &[ScannedNode],
    ) -> (r: (u64, Vec<TableOp>))
        requires
            countable(nodes@, field@),
        ensures
            registered ==> r.0 == 0 && r.1@.len() == 0,
            !registered ==> r.0 == indexable(nodes@, field@) && forall|t: Tables| #[trigger]
                run(t, r.1@) == ({
                    let u = nodes_indexed(t, nodes@, node_type@, field@);
                    Tables {
                        fulltext_registry: u.fulltext_registry.insert(
                            registry_key(node_type@, field@),
                        ),
                        ..u
                    }
                }),
    {
        let mut ops: Vec<TableOp> = Vec::new();
        if registered {
            return (0, ops);
        }
        let mut count: u64 = 0;
        let mut i: usize = 0;
        while i < nodes.len()
            invariant
                i <= nodes@.len(),
                countable(nodes@, field@),
                count == indexable(nodes@.take(i as int), field@),
                count <= i,
                forall|t: Tables| #[trigger]
                    run(t, ops@) == nodes_indexed(
                        t,
                        nodes@.take(i as int),
                        node_type@,
                        field@,
                    ),
            decreases nodes@.len() - i,
        {
            let node = &nodes[i];
            let ghost before = ops@;
            proof {
                assert(nodes@.take(i + 1).drop_last() =~= nodes@.take(i as int));
                assert(nodes@.take(i + 1).last() == *node);
                assert(scanned_text(nodes@[i as int], field@) matches Some(s) ==> tokens(s).len()
                    <= u32::MAX);
            }
            if node.indexed {
                if let Some(properties) = &node.properties {
                    if let Some(Value::String(text)) = properties.get(field) {
                        let counts = tokenize_and_count(text.as_str());
                        proof {
                            assert(scanned_text(*node, field@) == Some(text@));
                            lemma_counted_empty(tokens(text@));
                            assert(count_views(counts@).len() == stored_counts(
                                counted(tokens(text@)),
                            ).len());
                        }
                        if counts.len() > 0 {
                            LocalStorage::push_document(
                                &mut ops,
                                node.id,
                                node_type,
                                field,
                                counts,
                                Ghost(text@),
                            );
                            count = count + 1;
                        }
                    }
                }
            }
            proof {
                assert forall|t: Tables| #[trigger] run(t, ops@) == nodes_indexed(
                    t,
                    nodes@.take(i + 1),
                    node_type@,
                    field@,
                ) by {
                    assert(run(t, before) == nodes_indexed(
                        t,
                        nodes@.take(i as int),
                        node_type@,
                        field@,
                    ));
                }
            }
            i = i + 1;
        }
        assert(nodes@.take(i as int) =~= nodes@);
        ops.push(TableOp::RegisterFulltext(make_registry_key(node_type, field)));
        (count, ops)
    }

    /// Enters a node under the tokens of its indexed text fields. Entries of earlier texts
    /// stay.
    pub fn update_fulltext_index(
        id: NodeId,
        node_type: &str,
        fields: &[String],
        properties: &PropertyMap,
    ) -> (r: Vec<TableOp>)
        requires
            texts_countable(fields@, properties.map()),
        ensures
            forall|t: Tables| #[trigger]
                run(t, r@) == fields_indexed(t, id@, node_type@, fields@, properties.map()),
    {
        let mut ops: Vec<TableOp> = Vec::new();
        let ghost m = properties.map();
        let mut i: usize = 0;
        while i < fields.len()
            invariant
                i <= fields@.len(),
                m == properties.map(),
                texts_countable(fields@, m),
                forall|t: Tables| #[trigger]
                    run(t, ops@) == fields_indexed(
                        t,
                        id@,
                        node_type@,
                        fields@.take(i as int),
                        m,
                    ),
            decreases fields@.len() - i,
        {
            let ghost before = ops@;
            let field = fields[i].as_str();
            proof {
                assert(fields@.take(i + 1).drop_last() =~= fields@.take(i as int));
                assert(fields@.take(i + 1).last() == fields@[i as int]);
            }
            if let Some(Value::String(text)) = properties.get(field) {
                let counts = tokenize_and_count(text.as_str());
                LocalStorage::push_document(
                    &mut ops,
                    id,
                    node_type,
                    field,
                    counts,
                    Ghost(text@),
                );
            }
            proof {
                assert forall|t: Tables| #[trigger] run(t, ops@) == fields_indexed(
                    t,
                    id@,
                    node_type@,
                    fields@.take(i + 1),
                    m,
                ) by {
                    assert(run(t, before) == fields_indexed(
                        t,
                        id@,
                        node_type@,
                        fields@.take(i as int),
                        m,
                    ));
                }
            }
            i = i + 1;
        }
        assert(fields@.take(i as int) =~= fields@);
        ops
    }

    /// The tokens to look up for a query; there are none where the query holds none. Fails
    /// where there is no index.
    pub fn fulltext_search(
        registered: bool,
        node_type: &str,
        field: &str,
        query: &str,
    ) -> (r: Result<Vec<String>, StoreError>)
        ensures
            match r {
                Ok(words) => registered && texts(words@) == tokens(query@),
                Err(e) => !registered && (e matches StoreError::NoFulltextIndex(t, f) && t@
                    == node_type@ && f@ == field@),
            },
    {
        if !registered {
            return Err(StoreError::NoFulltextIndex(copy_str(node_type), copy_str(field)));
        }
        Ok(tokenize(query))
    }

    /// How often a token occurs in a document, from its counts; a document without counts has
    /// no occurrence.
    pub fn term_frequency(counts: Option<&[(String, u32)]>, token: &str) -> (r: u32)
        ensures
            r == (match counts {
                Some(c) => frequency(count_views(c@), token@),
                None => 0u32,
            }),
    {
        if let Some(c) = counts {
            let ghost views = count_views(c@);
            let mut i: usize = c.len();
            assert(views.take(i as int) =~= views);
            while i > 0
                invariant
                    i <= c@.len(),
                    counts == Some(c),
                    views == count_views(c@),
                    frequency(views, token@) == frequency(views.take(i as int), token@),
                decreases i,
            {
                let ghost head = views.take(i as int);
                i = i - 1;
                assert(head.drop_last() =~= views.take(i as int));
                assert(head.last() == (c@[i as int].0@, c@[i as int].1));
                if same_text(c[i].0.as_str(), token) {
                    return c[i].1;
                }
            }
        }
        0
    }

    /// The documents that hold a token of the query, in the order in which they are met: each
    /// with, for every token that it holds, the number of documents that hold the token and
    /// how often it occurs in this one.
    pub fn fulltext_hits(postings: &[Vec<(NodeId, u32)>]) -> (r: Vec<DocumentHits>)
        ensures
            hit_views(r@) == hits(postings@),
            exists|ws: Seq<Seq<(int, int)>>|
                hits_at(postings@, (postings@.len() as int, 0int), hit_views(r@), ws),
    {
        let mut out: Vec<DocumentHits> = Vec::new();
        let mut i: usize = 0;
        assert(hit_views(out@) =~= hits(postings@.take(0)));
        while i < postings.len()
            invariant
                i <= postings@.len(),
                hit_views(out@) == hits(postings@.take(i as int)),
            decreases postings@.len() - i,
        {
            let posting = &postings[i];
            let ghost start = hit_views(out@);
            proof {
                assert(postings@.take(i + 1).drop_last() =~= postings@.take(i as int));
                assert(postings@.take(i + 1).last() == *posting);
            }
            let df: u64 = posting.len() as u64;
            let mut j: usize = 0;
            while j < posting.len()
                invariant
                    j <= posting@.len(),
                    df == posting@.len(),
                    hit_views(out@) == posting_hits(start, posting@.take(j as int), df),
                decreases posting@.len() - j,
            {
                let ghost done = posting@.take(j as int);
                proof {
                    assert(posting@.take(j + 1).drop_last() =~= done);
                    assert(posting@.take(j + 1).last() == posting@[j as int]);
                }
                add_hit(&mut out, posting[j].0, df, posting[j].1);
                j = j + 1;
            }
            assert(posting@.take(j as int) =~= posting@);
            i = i + 1;
        }
        assert(postings@.take(i as int) =~= postings@);
        proof {
            law_hits_hold_every_occurrence(postings@);
        }
        out
    }

    /// The best documents, up to a limit, by keys that run as their scores.
    pub fn fulltext_rank(scores: &[i64], limit: usize) -> (r: Vec<usize>)
        ensures
            exists|o: Seq<usize>| #[trigger]
                ordered(scores@, Direction::Descending, o) && r@ == o.take(
                    if limit < o.len() {
                        limit as int
                    } else {
                        o.len() as int
                    },
                ),
    {
        let mut order = order_by(scores, Direction::Descending);
        let ghost o = order@;
        if limit < order.len() {
            order.truncate(limit);
        } else {
            assert(o.take(o.len() as int) =~= o);
        }
        assert(ordered(scores@, Direction::Descending, o));
        order
    }

    /// The fields of a type that have a full-text index, from the registry keys.
    pub fn get_fulltext_fields_for_type(keys: &[String], node_type: &str) -> (r: Vec<String>)
        ensures
            texts(r@) == fields_of(keys@, node_type@),
    {
        LocalStorage::get_indexed_fields_for_type(keys, node_type)
    }

    /// The types and fields of the registered full-text indexes.
    pub fn list_fulltext_indexes(keys: &[String]) -> (r: Vec<(String, String)>)
        ensures
            pair_views(r@) == split_keys(keys@),
    {
        LocalStorage::list_indexes(keys)
    }
}

spec fn with_tokens(t: Tables, entries: Set<(Seq<u8>, Seq<u8>)>) -> Tables {
    Tables { tokens: t.tokens.union(entries), ..t }
}

proof fn lemma_token_entries_push(
    counts: Seq<(Seq<char>, nat)>,
    i: int,
    node_type: Seq<char>,
    field: Seq<char>,
    id: Seq<u8>,
)
    requires
        0 <= i < counts.len(),
    ensures
        token_entries(counts.take(i + 1), node_type, field, id) == token_entries(
            counts.take(i),
            node_type,
            field,
            id,
        ).insert((scoped_key(node_type, field, counts[i].0), id)),
{
    let done = counts.take(i);
    let more = counts.take(i + 1);
    let small = token_entries(done, node_type, field, id);
    let large = token_entries(more, node_type, field, id);
    let pair = (scoped_key(node_type, field, counts[i].0), id);
    assert(more[i] == counts[i]);
    assert forall|p: (Seq<u8>, Seq<u8>)| large.contains(p) <==> small.insert(pair).contains(p) by {
        if large.contains(p) {
            let k = choose|k: int|
                0 <= k < more.len() && p.0 == scoped_key(node_type, field, (#[trigger] more[k]).0);
            if k < i {
                assert(done[k] == more[k]);
            }
        }
        if small.contains(p) {
            let k = choose|k: int|
                0 <= k < done.len() && p.0 == scoped_key(node_type, field, (#[trigger] done[k]).0);
            assert(more[k] == done[k]);
        }
    }
    assert(large =~= small.insert(pair));
}

/// The count that counts give a token: the last one, or zero.
pub open spec fn frequency(counts: Seq<(Seq<char>, u32)>, token: Seq<char>) -> u32
    decreases counts.len(),
{
    if counts.len() == 0 {
        0
    } else if counts.last().0 == token {
        counts.last().1
    } else {
        frequency(counts.drop_last(), token)
    }
}

/// A document that holds tokens of a query.
#[derive(Debug)]
pub struct DocumentHits {
    /// Identifier of the document.
    pub id: NodeId,
    /// For each token that it holds: in how many documents the token occurs, and how often in
    /// this one.
    pub terms: Vec<(u64, u32)>,
}

/// Documents that hold tokens of a query, as sequences.
pub open spec fn hit_views(v: Seq<DocumentHits>) -> Seq<(Seq<u8>, Seq<(u64, u32)>)> {
    v.map_values(|h: DocumentHits| (h.id@, h.terms@))
}

/// Position of a document among hits, or their number where it is not there.
pub open spec fn hit_place(hits: Seq<(Seq<u8>, Seq<(u64, u32)>)>, id: Seq<u8>, i: int) -> int
    decreases hits.len() - i,
{
    if i >= hits.len() || hits[i].0 == id {
        i
    } else {
        hit_place(hits, id, i + 1)
    }
}

/// Hits after one more token of a document.
pub open spec fn hit_added(
    hits: Seq<(Seq<u8>, Seq<(u64, u32)>)>,
    id: Seq<u8>,
    df: u64,
    tf: u32,
) -> Seq<(Seq<u8>, Seq<(u64, u32)>)> {
    let k = hit_place(hits, id, 0);
    if k < hits.len() {
        hits.update(k, (id, hits[k].1.push((df, tf))))
    } else {
        hits.push((id, seq![(df, tf)]))
    }
}

/// Hits after the documents of one more token.
pub open spec fn posting_hits(
    hits: Seq<(Seq<u8>, Seq<(u64, u32)>)>,
    posting: Seq<(NodeId, u32)>,
    df: u64,
) -> Seq<(Seq<u8>, Seq<(u64, u32)>)>
    decreases posting.len(),
{
    if posting.len() == 0 {
        hits
    } else {
        hit_added(
            posting_hits(hits, posting.drop_last(), df),
            posting.last().0@,
            df,
            posting.last().1,
        )
    }
}

/// The hits of the documents of some tokens.
pub open spec fn hits(postings: Seq<Vec<(NodeId, u32)>>) -> Seq<(Seq<u8>, Seq<(u64, u32)>)>
    decreases postings.len(),
{
    if postings.len() == 0 {
        Seq::empty()
    } else {
        posting_hits(
            hits(postings.drop_last()),
            postings.last()@,
            postings.last()@.len() as u64,
        )
    }
}

fn add_hit(out: &mut Vec<DocumentHits>, id: NodeId, df: u64, tf: u32)
    ensures
        hit_views(final(out)@) == hit_added(hit_views(old(out)@), id@, df, tf),
{
    let ghost was = out@;
    let ghost v = hit_views(was);
    let mut k: usize = 0;
    while k < out.len() && !out[k].id.same(&id)
        invariant
            k <= out@.len(),
            out@ == was,
            v == hit_views(was),
            hit_place(v, id@, 0) == hit_place(v, id@, k as int),
        decreases out@.len() - k,
    {
        assert(v[k as int].0 == was[k as int].id@);
        k = k + 1;
    }
    if k < out.len() {
        assert(v[k as int] == (was[k as int].id@, was[k as int].terms@));
        out[k].terms.push((df, tf));
        assert(hit_views(out@) =~= hit_added(v, id@, df, tf));
    } else {
        let mut terms: Vec<(u64, u32)> = Vec::new();
        terms.push((df, tf));
        assert(terms@ =~= seq![(df, tf)]);
        out.push(DocumentHits { id, terms });
        assert(hit_views(out@) =~= hit_added(v, id@, df, tf));
    }
}

/// An indexed document is listed under every token of its text, with the number of its
/// occurrences.
pub proof fn law_document_is_found_by_its_tokens(
    t: Tables,
    id: Seq<u8>,
    node_type: Seq<char>,
    field: Seq<char>,
    text: Seq<char>,
    i: int,
)
    requires
        0 <= i < tokens(text).len(),
    ensures
        ({
            let u = document_indexed(t, id, node_type, field, text);
            let token = tokens(text)[i];
            let key = document_key(id, node_type, field);
            &&& u.tokens.contains((scoped_key(node_type, field, token), id))
            &&& u.term_counts.dom().contains(key)
            &&& exists|k: int|
                0 <= k < u.term_counts[key].len() && #[trigger] u.term_counts[key][k] == (
                    token,
                    occurrences(tokens(text), token) as u32,
                )
            &&& occurrences(tokens(text), token) > 0
        }),
{
    let words = tokens(text);
    let token = words[i];
    let c = counted(words);
    lemma_occurs(words, i);
    law_counts_are_occurrences(words, token);
    let k = place(c, token);
    lemma_place(c, token);
    assert(c[k].0 == token);
    let u = document_indexed(t, id, node_type, field, text);
    let key = document_key(id, node_type, field);
    assert(u.term_counts[key][k] == (token, occurrences(words, token) as u32));
}

/// Whether one place in some postings comes before another: in an earlier posting, or earlier in
/// the same one.
pub open spec fn earlier(a: (int, int), b: (int, int)) -> bool {
    a.0 < b.0 || (a.0 == b.0 && a.1 < b.1)
}

/// Whether postings have an entry at a place.
pub open spec fn has_place(postings: Seq<Vec<(NodeId, u32)>>, p: (int, int)) -> bool {
    0 <= p.0 < postings.len() && 0 <= p.1 < postings[p.0]@.len()
}

/// Whether `w` lists, in order, all places before `end` at which a document stands.
pub open spec fn lists_places(
    postings: Seq<Vec<(NodeId, u32)>>,
    id: Seq<u8>,
    end: (int, int),
    w: Seq<(int, int)>,
) -> bool {
    &&& forall|n: int|
        0 <= n < w.len() ==> has_place(postings, #[trigger] w[n]) && earlier(w[n], end)
            && postings[w[n].0]@[w[n].1].0@ == id
    &&& forall|m: int, n: int| 0 <= m < n < w.len() ==> earlier(#[trigger] w[m], #[trigger] w[n])
    &&& forall|p: (int, int)| #[trigger]
        has_place(postings, p) && earlier(p, end) && postings[p.0]@[p.1].0@ == id ==> w.contains(p)
}

/// Whether hits are those of all places before `end`: every document that stands there once, in
/// the order in which they are met, each with one term for every place at which it stands, in
/// order, which is the number of entries of the posting and the frequency at the place.
pub open spec fn hits_at(
    postings: Seq<Vec<(NodeId, u32)>>,
    end: (int, int),
    h: Seq<(Seq<u8>, Seq<(u64, u32)>)>,
    ws: Seq<Seq<(int, int)>>,
) -> bool {
    &&& ws.len() == h.len()
    &&& forall|k: int|
        0 <= k < h.len() ==> {
            &&& lists_places(postings, (#[trigger] h[k]).0, end, ws[k])
            &&& 0 < ws[k].len() == h[k].1.len()
            &&& forall|n: int|
                0 <= n < ws[k].len() ==> #[trigger] h[k].1[n] == (
                    postings[ws[k][n].0]@.len() as u64,
                    postings[ws[k][n].0]@[ws[k][n].1].1,
                )
        }
    &&& forall|k: int, m: int|
        0 <= k < m < h.len() ==> (#[trigger] h[k]).0 != (#[trigger] h[m]).0 && earlier(
            ws[k][0],
            ws[m][0],
        )
    &&& forall|p: (int, int)| #[trigger]
        has_place(postings, p) && earlier(p, end) ==> exists|k: int|
            0 <= k < h.len() && (#[trigger] h[k]).0 == postings[p.0]@[p.1].0@
}

proof fn lemma_hit_place(h: Seq<(Seq<u8>, Seq<(u64, u32)>)>, id: Seq<u8>, i: int)
    requires
        0 <= i <= h.len(),
    ensures
        i <= hit_place(h, id, i) <= h.len(),
        hit_place(h, id, i) < h.len() ==> h[hit_place(h, id, i)].0 == id,
        forall|k: int| i <= k < hit_place(h, id, i) ==> (#[trigger] h[k]).0 != id,
    decreases h.len() - i,
{
    if i < h.len() && h[i].0 != id {
        lemma_hit_place(h, id, i + 1);
    }
}

proof fn lemma_hit_step(
    postings: Seq<Vec<(NodeId, u32)>>,
    p: int,
    q: int,
    h: Seq<(Seq<u8>, Seq<(u64, u32)>)>,
    ws: Seq<Seq<(int, int)>>,
) -> (out: Seq<Seq<(int, int)>>)
    requires
        has_place(postings, (p, q)),
        hits_at(postings, (p, q), h, ws),
    ensures
        hits_at(
            postings,
            (p, q + 1),
            hit_added(
                h,
                postings[p]@[q].0@,
                postings[p]@.len() as u64,
                postings[p]@[q].1,
            ),
            out,
        ),
{
    let here = (p, q);
    let end = (p, q + 1);
    let id = postings[p]@[q].0@;
    let term = (postings[p]@.len() as u64, postings[p]@[q].1);
    let g = hit_added(h, id, term.0, term.1);
    let at = hit_place(h, id, 0);
    lemma_hit_place(h, id, 0);
    let out = if at < h.len() {
        ws.update(at, ws[at].push(here))
    } else {
        ws.push(seq![here])
    };
    assert forall|x: (int, int)| #[trigger] earlier(x, end) && has_place(
        postings,
        x,
    ) implies earlier(x, here) || x == here by {}
    assert forall|k: int| 0 <= k < g.len() implies {
        &&& lists_places(postings, (#[trigger] g[k]).0, end, out[k])
        &&& 0 < out[k].len() == g[k].1.len()
        &&& forall|n: int|
            0 <= n < out[k].len() ==> #[trigger] g[k].1[n] == (
                postings[out[k][n].0]@.len() as u64,
                postings[out[k][n].0]@[out[k][n].1].1,
            )
    } by {
        let w = out[k];
        if k == at {
            if at < h.len() {
                assert(lists_places(postings, h[at].0, here, ws[at]));
                assert forall|x: (int, int)| #[trigger]
                    has_place(postings, x) && earlier(x, end) && postings[x.0]@[x.1].0@
                        == id implies w.contains(x) by {
                    if x == here {
                        assert(w[ws[at].len() as int] == here);
                    } else {
                        assert(ws[at].contains(x));
                        let n = choose|n: int| 0 <= n < ws[at].len() && ws[at][n] == x;
                        assert(w[n] == x);
                    }
                }
                assert forall|m: int, n: int| 0 <= m < n < w.len() implies earlier(
                    #[trigger] w[m],
                    #[trigger] w[n],
                ) by {
                    assert(w[m] == ws[at][m]);
                    if n < ws[at].len() {
                        assert(w[n] == ws[at][n]);
                    }
                }
                assert forall|n: int| 0 <= n < w.len() implies has_place(postings, #[trigger] w[n])
                    && earlier(w[n], end) && postings[w[n].0]@[w[n].1].0@ == id by {
                    if n < ws[at].len() {
                        assert(w[n] == ws[at][n]);
                    }
                }
                assert forall|n: int| 0 <= n < w.len() implies #[trigger] g[k].1[n] == (
                    postings[w[n].0]@.len() as u64,
                    postings[w[n].0]@[w[n].1].1,
                ) by {
                    if n < ws[at].len() {
                        assert(g[k].1[n] == h[at].1[n]);
                        assert(w[n] == ws[at][n]);
                    }
                }
            } else {
                assert forall|x: (int, int)| #[trigger]
                    has_place(postings, x) && earlier(x, end) && postings[x.0]@[x.1].0@
                        == id implies w.contains(x) by {
                    if x == here {
                        assert(w[0] == here);
                    } else {
                        let m = choose|m: int|
                            0 <= m < h.len() && (#[trigger] h[m]).0 == postings[x.0]@[x.1].0@;
                        assert(h[m].0 != id);
                    }
                }
            }
        } else {
            assert(g[k] == h[k]);
            assert(out[k] == ws[k]);
            assert(lists_places(postings, h[k].0, here, ws[k]));
            assert(g[k].0 != id) by {
                if at < h.len() {
                    if k < at {
                        assert(h[k].0 != h[at].0);
                    } else {
                        assert(h[at].0 != h[k].0);
                    }
                }
            }
            assert forall|x: (int, int)| #[trigger]
                has_place(postings, x) && earlier(x, end) && postings[x.0]@[x.1].0@
                    == g[k].0 implies w.contains(x) by {
                assert(x != here);
            }
        }
    }
    assert forall|k: int, m: int| 0 <= k < m < g.len() implies (#[trigger] g[k]).0
        != (#[trigger] g[m]).0 && earlier(out[k][0], out[m][0]) by {
        assert(k < h.len());
        assert(g[k].0 == h[k].0);
        assert(out[k][0] == ws[k][0]) by {
            assert(ws[k].len() > 0);
        }
        if m < h.len() {
            assert(g[m].0 == h[m].0);
            assert(ws[m].len() > 0);
            assert(out[m][0] == ws[m][0]);
        } else {
            assert(h[k].0 != id);
            assert(out[m][0] == here);
            assert(earlier(ws[k][0], here));
        }
    }
    assert forall|x: (int, int)| #[trigger] has_place(postings, x) && earlier(
        x,
        end,
    ) implies exists|k: int| 0 <= k < g.len() && (#[trigger] g[k]).0 == postings[x.0]@[x.1].0@ by {
        if x == here {
            assert(g[at].0 == id);
        } else {
            let k = choose|k: int|
                0 <= k < h.len() && (#[trigger] h[k]).0 == postings[x.0]@[x.1].0@;
            assert(g[k].0 == h[k].0);
        }
    }
    out
}

proof fn lemma_hits(postings: Seq<Vec<(NodeId, u32)>>, p: int, q: int) -> (ws: Seq<
    Seq<(int, int)>,
>)
    requires
        0 <= p <= postings.len(),
        0 <= q,
        q > 0 ==> p < postings.len() && q <= postings[p]@.len(),
    ensures
        hits_at(
            postings,
            (p, q),
            if q > 0 {
                posting_hits(
                    hits(postings.take(p)),
                    postings[p]@.take(q),
                    postings[p]@.len() as u64,
                )
            } else {
                hits(postings.take(p))
            },
            ws,
        ),
    decreases p, q,
{
    if q > 0 {
        let ws = lemma_hits(postings, p, q - 1);
        let done = postings[p]@.take(q);
        assert(done.drop_last() =~= postings[p]@.take(q - 1));
        assert(done.last() == postings[p]@[q - 1]);
        let df = postings[p]@.len() as u64;
        let h = posting_hits(hits(postings.take(p)), postings[p]@.take(q - 1), df);
        if q == 1 {
            assert(postings[p]@.take(0).len() == 0);
        }
        let out = lemma_hit_step(postings, p, q - 1, h, ws);
        assert(hits_at(postings, (p, q), posting_hits(hits(postings.take(p)), done, df), out));
        out
    } else if p > 0 {
        let n = postings[p - 1]@.len() as int;
        let ws = lemma_hits(postings, p - 1, n);
        let part = postings.take(p);
        assert(part.drop_last() =~= postings.take(p - 1));
        assert(part.last() == postings[p - 1]);
        assert(postings[p - 1]@.take(n) =~= postings[p - 1]@);
        let h = hits(part);
        if n == 0 {
            assert(h == hits(postings.take(p - 1)));
        }
        let old_end = (p - 1, n);
        let end = (p, 0int);
        assert(hits_at(postings, old_end, h, ws));
        assert forall|x: (int, int)| #[trigger] has_place(postings, x) implies earlier(x, old_end)
            == earlier(x, end) by {}
        assert forall|k: int| 0 <= k < h.len() implies lists_places(
            postings,
            (#[trigger] h[k]).0,
            end,
            ws[k],
        ) by {
            assert(lists_places(postings, h[k].0, old_end, ws[k]));
        }
        assert forall|x: (int, int)| #[trigger] has_place(postings, x) && earlier(
            x,
            end,
        ) implies exists|k: int|
            0 <= k < h.len() && (#[trigger] h[k]).0 == postings[x.0]@[x.1].0@ by {
            assert(earlier(x, old_end));
        }
        assert(hits_at(postings, end, h, ws));
        ws
    } else {
        assert(postings.take(0).len() == 0);
        let ws: Seq<Seq<(int, int)>> = Seq::empty();
        assert(hits_at(postings, (p, q), Seq::empty(), ws));
        ws
    }
}

/// The hits of a query hold every occurrence of its tokens: every document of every posting is
/// among them once, in the order in which the documents are met, and has one term for each of
/// its occurrences in the postings, in the order of the tokens. The term is the number of
/// documents of the posting, with the document's frequency in it.
pub proof fn law_hits_hold_every_occurrence(postings: Seq<Vec<(NodeId, u32)>>)
    ensures
        exists|ws: Seq<Seq<(int, int)>>|
            hits_at(postings, (postings.len() as int, 0int), hits(postings), ws),
{
    let ws = lemma_hits(postings, postings.len() as int, 0);
    assert(postings.take(postings.len() as int) =~= postings);
    assert(hits_at(postings, (postings.len() as int, 0int), hits(postings), ws));
}

/// Letters and digits.
pub open spec fn letters_and_digits() -> spec_fn(char) -> bool {
    |c: char| alphanumeric(c)
}

/// Runs of more than one byte that are no stop words, letter case aside.
pub open spec fn worth_finding() -> spec_fn(Seq<char>) -> bool {
    |run: Seq<char>|
        encode_utf8(run).len() > 1 && !(exists|i: int|
            0 <= i < stop_words().len() && #[trigger] stop_words()[i] == lowercase(run))
}

proof fn lemma_kept(run: Seq<char>)
    ensures
        kept(run) == (if run.len() > 0 && worth_finding()(run) {
            seq![lowercase(run)]
        } else {
            Seq::empty()
        }),
{
    if run.len() == 0 {
        assert(run =~= Seq::<char>::empty());
        assert(encode_utf8(run).len() == 0);
    }
    if stop_words().contains(lowercase(run)) {
        let i = choose|i: int|
            0 <= i < stop_words().len() && stop_words()[i] == lowercase(run);
        assert(stop_words()[i] == lowercase(run));
    }
}

proof fn lemma_tokens(s: Seq<char>, start: int, i: int) -> (w: Seq<(int, int)>)
    requires
        0 <= start <= i <= s.len(),
        start == 0 || !alphanumeric(s[start - 1]),
        forall|k: int| start <= k < i ==> alphanumeric(#[trigger] s[k]),
    ensures
        lists_runs(s, letters_and_digits(), worth_finding(), start, w),
        tokens_from(s, start, i) == w.map_values(
            |r: (int, int)| lowercase(s.subrange(r.0, r.1)),
        ),
    decreases s.len() - i,
{
    let kind = letters_and_digits();
    let wanted = worth_finding();
    let f = |r: (int, int)| lowercase(s.subrange(r.0, r.1));
    if i >= s.len() {
        let rest: Seq<(int, int)> = Seq::empty();
        lemma_runs_end(s, kind, wanted, i + 1);
        let w = lemma_runs_front(s, kind, wanted, start, i, rest);
        lemma_kept(s.subrange(start, i));
        assert(tokens_from(s, start, i) =~= w.map_values(f));
        w
    } else if alphanumeric(s[i]) {
        lemma_tokens(s, start, i + 1)
    } else {
        let rest = lemma_tokens(s, i + 1, i + 1);
        let w = lemma_runs_front(s, kind, wanted, start, i, rest);
        lemma_kept(s.subrange(start, i));
        assert(tokens_from(s, start, i) =~= w.map_values(f));
        w
    }
}

/// The tokens of a text are its whole runs of letters and digits in lower case, in order, all
/// but those of a single byte and the stop words.
pub proof fn law_tokens(s: Seq<char>)
    ensures
        exists|w: Seq<(int, int)>|
            #[trigger] lists_runs(s, letters_and_digits(), worth_finding(), 0, w) && tokens(s)
                == w.map_values(|r: (int, int)| lowercase(s.subrange(r.0, r.1))),
{
    let w = lemma_tokens(s, 0, 0);
    assert(lists_runs(s, letters_and_digits(), worth_finding(), 0, w));
}

/// The frequency of a token is the count that stands beside it, where it stands among the counts
/// once, and zero where it does not stand there.
pub proof fn law_frequency(counts: Seq<(Seq<char>, u32)>, token: Seq<char>, i: int)
    requires
        forall|j: int, k: int|
            0 <= j < k < counts.len() ==> (#[trigger] counts[j]).0 != (#[trigger] counts[k]).0,
    ensures
        0 <= i < counts.len() && counts[i].0 == token ==> frequency(counts, token) == counts[i].1,
        (forall|k: int| 0 <= k < counts.len() ==> (#[trigger] counts[k]).0 != token) ==> frequency(
            counts,
            token,
        ) == 0,
    decreases counts.len(),
{
    if counts.len() > 0 {
        let head = counts.drop_last();
        assert forall|j: int, k: int| 0 <= j < k < head.len() implies (#[trigger] head[j]).0 != (
        #[trigger] head[k]).0 by {
            assert(counts[j].0 != counts[k].0);
        }
        law_frequency(head, token, i);
        if 0 <= i < head.len() && counts[i].0 == token {
            assert(head[i] == counts[i]);
            assert(counts[i].0 != counts[counts.len() - 1].0);
        }
        if forall|k: int| 0 <= k < counts.len() ==> (#[trigger] counts[k]).0 != token {
            assert(counts[counts.len() - 1].0 != token);
            assert forall|k: int| 0 <= k < head.len() implies (#[trigger] head[k]).0 != token by {
                assert(counts[k].0 != token);
            }
        }
    }
}

/// Indexing the nodes of a type enters every node that has a text with a token in the field: it
/// is listed under each of its tokens. Nothing that was listed goes, and a node is listed anew
/// only under a token of its text. As many nodes are counted as have such a text.
pub proof fn law_indexed_nodes_are_found(
    t: Tables,
    nodes: Seq<ScannedNode>,
    node_type: Seq<char>,
    field: Seq<char>,
)
    ensures
        ({
            let u = nodes_indexed(t, nodes, node_type, field);
            &&& forall|i: int, k: int| #![trigger tokens(scanned_text(nodes[i], field)->0)[k]]
                0 <= i < nodes.len() && scanned_text(nodes[i], field) is Some && 0 <= k < tokens(
                    scanned_text(nodes[i], field)->0,
                ).len() ==> u.tokens.contains(
                    (
                        scoped_key(
                            node_type,
                            field,
                            tokens(scanned_text(nodes[i], field)->0)[k],
                        ),
                        nodes[i].id@,
                    ),
                )
            &&& forall|p: (Seq<u8>, Seq<u8>)| t.tokens.contains(p) ==> #[trigger] u.tokens.contains(p)
            &&& forall|p: (Seq<u8>, Seq<u8>)| #[trigger]
                u.tokens.contains(p) && !t.tokens.contains(p) ==> exists|i: int, k: int|
                    #![trigger tokens(scanned_text(nodes[i], field)->0)[k]]
                    0 <= i < nodes.len() && scanned_text(nodes[i], field) is Some && 0 <= k
                        < tokens(scanned_text(nodes[i], field)->0).len() && p == (
                        scoped_key(
                            node_type,
                            field,
                            tokens(scanned_text(nodes[i], field)->0)[k],
                        ),
                        nodes[i].id@,
                    )
            &&& u == (Tables { tokens: u.tokens, term_counts: u.term_counts, ..t })
            &&& indexable(nodes, field) == nodes.filter(
                |n: ScannedNode| scanned_text(n, field) is Some && tokens(
                    scanned_text(n, field)->0,
                ).len() > 0,
            ).len()
        }),
    decreases nodes.len(),
{
    reveal(Seq::filter);
    if nodes.len() > 0 {
        let head = nodes.drop_last();
        let last = nodes.last();
        law_indexed_nodes_are_found(t, head, node_type, field);
        let h = nodes_indexed(t, head, node_type, field);
        let u = nodes_indexed(t, nodes, node_type, field);
        let n = nodes.len() - 1;
        assert(nodes[n] == last);
        assert forall|i: int, k: int| #![trigger tokens(scanned_text(nodes[i], field)->0)[k]]
            0 <= i < nodes.len() && scanned_text(nodes[i], field) is Some && 0 <= k < tokens(
                scanned_text(nodes[i], field)->0,
            ).len() implies u.tokens.contains(
            (
                scoped_key(node_type, field, tokens(scanned_text(nodes[i], field)->0)[k]),
                nodes[i].id@,
            ),
        ) by {
            if i < n {
                assert(head[i] == nodes[i]);
                assert(h.tokens.contains(
                    (
                        scoped_key(node_type, field, tokens(scanned_text(head[i], field)->0)[k]),
                        head[i].id@,
                    ),
                ));
            } else {
                law_document_is_found_by_its_tokens(
                    h,
                    last.id@,
                    node_type,
                    field,
                    scanned_text(last, field)->0,
                    k,
                );
            }
        }
        assert forall|p: (Seq<u8>, Seq<u8>)| #[trigger]
            u.tokens.contains(p) && !t.tokens.contains(p) implies exists|i: int, k: int|
            #![trigger tokens(scanned_text(nodes[i], field)->0)[k]]
            0 <= i < nodes.len() && scanned_text(nodes[i], field) is Some && 0 <= k < tokens(
                scanned_text(nodes[i], field)->0,
            ).len() && p == (
                scoped_key(node_type, field, tokens(scanned_text(nodes[i], field)->0)[k]),
                nodes[i].id@,
            ) by {
            if h.tokens.contains(p) {
                let (i, k) = choose|i: int, k: int|
                    #![trigger tokens(scanned_text(head[i], field)->0)[k]]
                    0 <= i < head.len() && scanned_text(head[i], field) is Some && 0 <= k < tokens(
                        scanned_text(head[i], field)->0,
                    ).len() && p == (
                        scoped_key(node_type, field, tokens(scanned_text(head[i], field)->0)[k]),
                        head[i].id@,
                    );
                assert(tokens(scanned_text(nodes[i], field)->0)[k] == tokens(
                    scanned_text(head[i], field)->0,
                )[k]);
            } else {
                let words = tokens(scanned_text(last, field)->0);
                let c = counted(words);
                let m = choose|m: int|
                    0 <= m < c.len() && p.0 == scoped_key(
                        node_type,
                        field,
                        (#[trigger] c[m]).0,
                    );
                lemma_counted_word(words, m);
                let k = choose|k: int| 0 <= k < words.len() && words[k] == c[m].0;
                assert(tokens(scanned_text(nodes[n], field)->0)[k] == c[m].0);
            }
        }
        assert forall|p: (Seq<u8>, Seq<u8>)| t.tokens.contains(
            p,
        ) implies #[trigger] u.tokens.contains(p) by {
            assert(h.tokens.contains(p));
        }
    }
}

/// A word that is counted occurs.
proof fn lemma_counted_word(words: Seq<Seq<char>>, m: int)
    requires
        0 <= m < counted(words).len(),
    ensures
        words.contains(counted(words)[m].0),
    decreases words.len(),
{
    let c = counted(words);
    if words.len() > 0 {
        let head = words.drop_last();
        let b = counted(head);
        lemma_place(b, words.last());
        if m < b.len() && b[m].0 == c[m].0 {
            lemma_counted_word(head, m);
            let k = choose|k: int| 0 <= k < head.len() && head[k] == b[m].0;
            assert(words[k] == c[m].0);
        } else {
            assert(words[words.len() - 1] == c[m].0);
        }
    }
}

/// The stop words, by their characters.
pub proof fn law_stop_words(w: Seq<char>)
    ensures
        stop_words().contains(w) <==> {
            ||| w == seq!['a']
            ||| w == seq!['i']
            ||| w == seq!['a', 'n']
            ||| w == seq!['o', 'r']
            ||| w == seq!['i', 'n']
            ||| w == seq!['o', 'n']
            ||| w == seq!['a', 't']
            ||| w == seq!['t', 'o']
            ||| w == seq!['o', 'f']
            ||| w == seq!['b', 'y']
            ||| w == seq!['i', 's']
            ||| w == seq!['b', 'e']
            ||| w == seq!['d', 'o']
            ||| w == seq!['i', 't']
            ||| w == seq!['m', 'e']
            ||| w == seq!['m', 'y']
            ||| w == seq!['w', 'e']
            ||| w == seq!['h', 'e']
            ||| w == seq!['n', 'o']
            ||| w == seq!['s', 'o']
            ||| w == seq!['i', 'f']
            ||| w == seq!['a', 's']
            ||| w == seq!['t', 'h', 'e']
            ||| w == seq!['a', 'n', 'd']
            ||| w == seq!['b', 'u', 't']
            ||| w == seq!['f', 'o', 'r']
            ||| w == seq!['a', 'r', 'e']
            ||| w == seq!['w', 'a', 's']
            ||| w == seq!['h', 'a', 's']
            ||| w == seq!['h', 'a', 'd']
            ||| w == seq!['d', 'i', 'd']
            ||| w == seq!['m', 'a', 'y']
            ||| w == seq!['c', 'a', 'n']
            ||| w == seq!['i', 't', 's']
            ||| w == seq!['o', 'u', 'r']
            ||| w == seq!['y', 'o', 'u']
            ||| w == seq!['s', 'h', 'e']
            ||| w == seq!['n', 'o', 't']
            ||| w == seq!['w', 'i', 't', 'h']
            ||| w == seq!['w', 'e', 'r', 'e']
            ||| w == seq!['b', 'e', 'e', 'n']
            ||| w == seq!['h', 'a', 'v', 'e']
            ||| w == seq!['d', 'o', 'e', 's']
            ||| w == seq!['w', 'i', 'l', 'l']
            ||| w == seq!['t', 'h', 'i', 's']
            ||| w == seq!['t', 'h', 'a', 't']
            ||| w == seq!['y', 'o', 'u', 'r']
            ||| w == seq!['t', 'h', 'e', 'y']
            ||| w == seq!['t', 'h', 'e', 'm']
            ||| w == seq!['b', 'e', 'i', 'n', 'g']
            ||| w == seq!['w', 'o', 'u', 'l', 'd']
            ||| w == seq!['c', 'o', 'u', 'l', 'd']
            ||| w == seq!['m', 'i', 'g', 'h', 't']
            ||| w == seq!['s', 'h', 'a', 'l', 'l']
            ||| w == seq!['t', 'h', 'e', 's', 'e']
            ||| w == seq!['t', 'h', 'o', 's', 'e']
            ||| w == seq!['t', 'h', 'e', 'i', 'r']
            ||| w == seq!['s', 'h', 'o', 'u', 'l', 'd']
        },
{
    reveal_strlit("a");
    reveal_strlit("an");
    reveal_strlit("the");
    reveal_strlit("and");
    reveal_strlit("or");
    reveal_strlit("but");
    reveal_strlit("in");
    reveal_strlit("on");
    reveal_strlit("at");
    reveal_strlit("to");
    reveal_strlit("for");
    reveal_strlit("of");
    reveal_strlit("with");
    reveal_strlit("by");
    reveal_strlit("is");
    reveal_strlit("are");
    reveal_strlit("was");
    reveal_strlit("were");
    reveal_strlit("be");
    reveal_strlit("been");
    reveal_strlit("being");
    reveal_strlit("have");
    reveal_strlit("has");
    reveal_strlit("had");
    reveal_strlit("do");
    reveal_strlit("does");
    reveal_strlit("did");
    reveal_strlit("will");
    reveal_strlit("would");
    reveal_strlit("could");
    reveal_strlit("should");
    reveal_strlit("may");
    reveal_strlit("might");
    reveal_strlit("shall");
    reveal_strlit("can");
    reveal_strlit("it");
    reveal_strlit("its");
    reveal_strlit("this");
    reveal_strlit("that");
    reveal_strlit("these");
    reveal_strlit("those");
    reveal_strlit("i");
    reveal_strlit("me");
    reveal_strlit("my");
    reveal_strlit("we");
    reveal_strlit("our");
    reveal_strlit("you");
    reveal_strlit("your");
    reveal_strlit("he");
    reveal_strlit("she");
    reveal_strlit("they");
    reveal_strlit("them");
    reveal_strlit("their");
    reveal_strlit("not");
    reveal_strlit("no");
    reveal_strlit("so");
    reveal_strlit("if");
    reveal_strlit("as");
    let l = stop_words();
    assert(l.len() == 58);
    assert(l[0] =~= seq!['a']);
    assert(l[1] =~= seq!['a', 'n']);
    assert(l[2] =~= seq!['t', 'h', 'e']);
    assert(l[3] =~= seq!['a', 'n', 'd']);
    assert(l[4] =~= seq!['o', 'r']);
    assert(l[5] =~= seq!['b', 'u', 't']);
    assert(l[6] =~= seq!['i', 'n']);
    assert(l[7] =~= seq!['o', 'n']);
    assert(l[8] =~= seq!['a', 't']);
    assert(l[9] =~= seq!['t', 'o']);
    assert(l[10] =~= seq!['f', 'o', 'r']);
    assert(l[11] =~= seq!['o', 'f']);
    assert(l[12] =~= seq!['w', 'i', 't', 'h']);
    assert(l[13] =~= seq!['b', 'y']);
    assert(l[14] =~= seq!['i', 's']);
    assert(l[15] =~= seq!['a', 'r', 'e']);
    assert(l[16] =~= seq!['w', 'a', 's']);
    assert(l[17] =~= seq!['w', 'e', 'r', 'e']);
    assert(l[18] =~= seq!['b', 'e']);
    assert(l[19] =~= seq!['b', 'e', 'e', 'n']);
    assert(l[20] =~= seq!['b', 'e', 'i', 'n', 'g']);
    assert(l[21] =~= seq!['h', 'a', 'v', 'e']);
    assert(l[22] =~= seq!['h', 'a', 's']);
    assert(l[23] =~= seq!['h', 'a', 'd']);
    assert(l[24] =~= seq!['d', 'o']);
    assert(l[25] =~= seq!['d', 'o', 'e', 's']);
    assert(l[26] =~= seq!['d', 'i', 'd']);
    assert(l[27] =~= seq!['w', 'i', 'l', 'l']);
    assert(l[28] =~= seq!['w', 'o', 'u', 'l', 'd']);
    assert(l[29] =~= seq!['c', 'o', 'u', 'l', 'd']);
    assert(l[30] =~= seq!['s', 'h', 'o', 'u', 'l', 'd']);
    assert(l[31] =~= seq!['m', 'a', 'y']);
    assert(l[32] =~= seq!['m', 'i', 'g', 'h', 't']);
    assert(l[33] =~= seq!['s', 'h', 'a', 'l', 'l']);
    assert(l[34] =~= seq!['c', 'a', 'n']);
    assert(l[35] =~= seq!['i', 't']);
    assert(l[36] =~= seq!['i', 't', 's']);
    assert(l[37] =~= seq!['t', 'h', 'i', 's']);
    assert(l[38] =~= seq!['t', 'h', 'a', 't']);
    assert(l[39] =~= seq!['t', 'h', 'e', 's', 'e']);
    assert(l[40] =~= seq!['t', 'h', 'o', 's', 'e']);
    assert(l[41] =~= seq!['i']);
    assert(l[42] =~= seq!['m', 'e']);
    assert(l[43] =~= seq!['m', 'y']);
    assert(l[44] =~= seq!['w', 'e']);
    assert(l[45] =~= seq!['o', 'u', 'r']);
    assert(l[46] =~= seq!['y', 'o', 'u']);
    assert(l[47] =~= seq!['y', 'o', 'u', 'r']);
    assert(l[48] =~= seq!['h', 'e']);
    assert(l[49] =~= seq!['s', 'h', 'e']);
    assert(l[50] =~= seq!['t', 'h', 'e', 'y']);
    assert(l[51] =~= seq!['t', 'h', 'e', 'm']);
    assert(l[52] =~= seq!['t', 'h', 'e', 'i', 'r']);
    assert(l[53] =~= seq!['n', 'o', 't']);
    assert(l[54] =~= seq!['n', 'o']);
    assert(l[55] =~= seq!['s', 'o']);
    assert(l[56] =~= seq!['i', 'f']);
    assert(l[57] =~= seq!['a', 's']);
    if l.contains(w) {
        let i = choose|i: int| 0 <= i < l.len() && l[i] == w;
        assert(l[i] == w);
    }
}

/// Indexing the text fields of a node lists it under every token of every such text. Nothing that
/// was listed goes.
pub proof fn law_indexed_fields_are_found(
    t: Tables,
    id: Seq<u8>,
    node_type: Seq<char>,
    fields: Seq<String>,
    properties: Map<Seq<char>, ValueView>,
)
    ensures
        ({
            let u = fields_indexed(t, id, node_type, fields, properties);
            &&& forall|i: int, k: int| #![trigger tokens(properties[fields[i]@]->Text_0)[k]]
                0 <= i < fields.len() && properties.dom().contains(fields[i]@)
                    && properties[fields[i]@] is Text && 0 <= k < tokens(
                    properties[fields[i]@]->Text_0,
                ).len() ==> u.tokens.contains(
                    (
                        scoped_key(
                            node_type,
                            fields[i]@,
                            tokens(properties[fields[i]@]->Text_0)[k],
                        ),
                        id,
                    ),
                )
            &&& forall|p: (Seq<u8>, Seq<u8>)|
                t.tokens.contains(p) ==> #[trigger] u.tokens.contains(p)
            &&& u == (Tables { tokens: u.tokens, term_counts: u.term_counts, ..t })
        }),
    decreases fields.len(),
{
    if fields.len() > 0 {
        let head = fields.drop_last();
        let n = fields.len() - 1;
        law_indexed_fields_are_found(t, id, node_type, head, properties);
        let h = fields_indexed(t, id, node_type, head, properties);
        let u = fields_indexed(t, id, node_type, fields, properties);
        assert forall|i: int, k: int| #![trigger tokens(properties[fields[i]@]->Text_0)[k]]
            0 <= i < fields.len() && properties.dom().contains(fields[i]@)
                && properties[fields[i]@] is Text && 0 <= k < tokens(
                properties[fields[i]@]->Text_0,
            ).len() implies u.tokens.contains(
            (
                scoped_key(node_type, fields[i]@, tokens(properties[fields[i]@]->Text_0)[k]),
                id,
            ),
        ) by {
            if i < n {
                assert(head[i] == fields[i]);
                assert(h.tokens.contains(
                    (
                        scoped_key(node_type, head[i]@, tokens(properties[head[i]@]->Text_0)[k]),
                        id,
                    ),
                ));
            } else {
                law_document_is_found_by_its_tokens(
                    h,
                    id,
                    node_type,
                    fields[n]@,
                    properties[fields[n]@]->Text_0,
                    k,
                );
            }
        }
        assert forall|p: (Seq<u8>, Seq<u8>)| t.tokens.contains(
            p,
        ) implies #[trigger] u.tokens.contains(p) by {
            assert(h.tokens.contains(p));
        }
    }
}

/// The best documents are the highest: as many as are asked for, or all, each once; no score is
/// higher than one before it, and none that is left out is higher than one that is taken.
pub proof fn law_best_documents(scores: Seq<i64>, limit: usize, o: Seq<usize>)
    requires
        ordered(scores, Direction::Descending, o),
    ensures
        ({
            let r = o.take(
                if limit < o.len() {
                    limit as int
                } else {
                    o.len() as int
                },
            );
            &&& r.no_duplicates()
            &&& forall|i: int, j: int|
                0 <= i < j < r.len() ==> scores[#[trigger] r[i] as int] >= scores[
                    #[trigger] r[j] as int]
            &&& forall|i: int, j: int|
                0 <= i < r.len() && 0 <= j < scores.len() && !r.contains(j as usize) ==> scores[
                    #[trigger] r[i] as int] >= #[trigger] scores[j]
        }),
{
    let r = o.take(
        if limit < o.len() {
            limit as int
        } else {
            o.len() as int
        },
    );
    assert(crate::rag::hybrid::best(scores, limit, r));
    crate::rag::hybrid::law_best_are_highest(scores, limit, r);
}

/// The counts of different documents, types and fields are stored under different keys.
pub proof fn law_document_keys_are_distinct(
    id1: Seq<u8>,
    type1: Seq<char>,
    field1: Seq<char>,
    id2: Seq<u8>,
    type2: Seq<char>,
    field2: Seq<char>,
)
    requires
        id1.len() == id2.len(),
        !type1.contains('\0'),
        !type2.contains('\0'),
        !field1.contains('\0'),
        !field2.contains('\0'),
        document_key(id1, type1, field1) == document_key(id2, type2, field2),
    ensures
        id1 == id2,
        type1 == type2,
        field1 == field2,
{
    let a = document_key(id1, type1, field1);
    let b = document_key(id2, type2, field2);
    let n = id1.len() as int;
    assert(a.take(n) =~= id1);
    assert(b.take(n) =~= id2);
    let x = encode_utf8(type1).push(0u8) + encode_utf8(field1);
    let y = encode_utf8(type2).push(0u8) + encode_utf8(field2);
    assert(a.skip(n + 1) =~= x);
    assert(b.skip(n + 1) =~= y);
    let zero = Seq::<char>::empty().push('\0');
    crate::text::lemma_encode_concat(type1, zero);
    crate::text::lemma_encode_concat(type2, zero);
    crate::text::lemma_encode_concat(type1.push('\0'), field1);
    crate::text::lemma_encode_concat(type2.push('\0'), field2);
    assert(type1 + zero =~= type1.push('\0'));
    assert(type2 + zero =~= type2.push('\0'));
    lemma_encode_nul();
    assert(x =~= encode_utf8(type1.push('\0') + field1));
    assert(y =~= encode_utf8(type2.push('\0') + field2));
    let none = Seq::<char>::empty();
    let one = type1.push('\0') + field1;
    let two = type2.push('\0') + field2;
    crate::text::lemma_encode_injective(one, two);
    super::property_index::law_registry_key_splits(type1, field1);
    super::property_index::law_registry_key_splits(type2, field2);
    assert(registry_key(type1, field1) == one);
    assert(registry_key(type2, field2) == two);
}

proof fn lemma_encode_nul()
    ensures
        encode_utf8(Seq::<char>::empty().push('\0')) == seq![0u8],
{
    let s = Seq::<char>::empty().push('\0');
    reveal_with_fuel(encode_utf8, 2);
    assert(s.drop_first() =~= Seq::<char>::empty());
    assert(vstd::utf8::encode_scalar('\0' as u32) =~= seq![0u8]) by {
        assert(0u32 & 0x7F == 0u32) by (bit_vector);
    }
    assert(encode_utf8(s) =~= seq![0u8]);
}

} // verus!
