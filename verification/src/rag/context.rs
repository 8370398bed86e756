//! Retrieval of context: what of the search results goes into the context, and how the
//! context is written out.

use vstd::prelude::*;

use crate::float::{float_key, float_less, order_key, smaller};
use crate::order::{order_by, ordered, Direction};
use crate::storage::graph::{Node, NodeView};
use crate::storage::json::{to_json, Json, NumberForm};
use crate::storage::node::{uuid_text, NodeId};
use crate::storage::value::{float_to_int, ValueView};
use crate::storage::vector::DistanceMetric;
use crate::text::{
    contains_text, copy_str, count_matches, decimal, holds, lowercase, match_count, push_decimal,
    push_str, split_words, to_chars, to_lower, words,
};

verus! {

/// A piece of retrieved context. Score and distance are floating-point numbers by their bits.
#[derive(Debug)]
pub struct ContextChunk {
    /// Text of the node's identifier.
    pub node_id: String,
    /// The text.
    pub content: String,
    /// Similarity to the query.
    pub score: u64,
    /// Distance from the query.
    pub distance: u64,
    /// The document that the chunk belongs to.
    pub document_id: Option<String>,
    /// Index of the chunk in its document.
    pub chunk_index: Option<u64>,
    /// Further data as JSON.
    pub metadata: Option<Json<NumberForm>>,
}

/// Retrieved context.
#[derive(Debug)]
pub struct RetrievedContext {
    /// The pieces, best first.
    pub chunks: Vec<ContextChunk>,
    /// Estimated number of tokens.
    pub estimated_tokens: usize,
    /// The query.
    pub query: String,
}

/// The heading of a piece: its number, its document if it has one, and its relevance.
pub open spec fn heading(i: int, chunk: ContextChunk, relevance: Seq<char>) -> Seq<char> {
    let source = "[Source "@ + decimal((i + 1) as nat) + "] "@;
    let document = match chunk.document_id {
        Some(d) => "(Doc: "@ + d@ + ") "@,
        None => Seq::empty(),
    };
    source + document + "(Relevance: "@ + relevance + ")\n"@
}

/// The first pieces of a context, each with its heading, with a line between neighbours.
pub open spec fn written(chunks: Seq<ContextChunk>, relevance: Seq<String>, n: int) -> Seq<char>
    decreases n,
{
    if n <= 0 {
        Seq::empty()
    } else {
        let before = written(chunks, relevance, n - 1);
        let line = if n > 1 {
            "\n\n---\n\n"@
        } else {
            Seq::empty()
        };
        before + line + heading(n - 1, chunks[n - 1], relevance[n - 1]@) + chunks[n - 1].content@
    }
}

/// The texts of the first pieces, with an empty line between neighbours.
pub open spec fn plain(chunks: Seq<ContextChunk>, n: int) -> Seq<char>
    decreases n,
{
    if n <= 0 {
        Seq::empty()
    } else {
        let line = if n > 1 {
            "\n\n"@
        } else {
            Seq::empty()
        };
        plain(chunks, n - 1) + line + chunks[n - 1].content@
    }
}

impl RetrievedContext {
    /// The context as one text for a language model. `relevance` holds the scores as texts
    /// with two decimal places.
    pub fn format_for_llm(&self, relevance: &[String]) -> (r: String)
        requires
            relevance@.len() == self.chunks@.len(),
        ensures
            r@ == written(self.chunks@, relevance@, self.chunks@.len() as int),
    {
        let mut out = String::new();
        let mut i: usize = 0;
        assert(out@ =~= written(self.chunks@, relevance@, 0));
        while i < self.chunks.len()
            invariant
                i <= self.chunks@.len(),
                relevance@.len() == self.chunks@.len(),
                out@ == written(self.chunks@, relevance@, i as int),
            decreases self.chunks@.len() - i,
        {
            let chunk = &self.chunks[i];
            let ghost start = out@;
            if i > 0 {
                push_str(&mut out, "\n\n---\n\n");
            }
            let ghost lined = out@;
            push_str(&mut out, "[Source ");
            push_decimal(&mut out, (i as u64) + 1);
            push_str(&mut out, "] ");
            if let Some(d) = &chunk.document_id {
                push_str(&mut out, "(Doc: ");
                push_str(&mut out, d.as_str());
                push_str(&mut out, ") ");
            }
            push_str(&mut out, "(Relevance: ");
            push_str(&mut out, relevance[i].as_str());
            push_str(&mut out, ")\n");
            assert(out@ =~= lined + heading(i as int, *chunk, relevance@[i as int]@));
            push_str(&mut out, chunk.content.as_str());
            assert(out@ =~= written(self.chunks@, relevance@, i + 1));
            i = i + 1;
        }
        out
    }

    /// The texts of all pieces.
    pub fn text_only(&self) -> (r: String)
        ensures
            r@ == plain(self.chunks@, self.chunks@.len() as int),
    {
        let mut out = String::new();
        let mut i: usize = 0;
        assert(out@ =~= plain(self.chunks@, 0));
        while i < self.chunks.len()
            invariant
                i <= self.chunks@.len(),
                out@ == plain(self.chunks@, i as int),
            decreases self.chunks@.len() - i,
        {
            if i > 0 {
                push_str(&mut out, "\n\n");
            }
            push_str(&mut out, self.chunks[i].content.as_str());
            assert(out@ =~= plain(self.chunks@, i + 1));
            i = i + 1;
        }
        out
    }
}

/// Estimated number of tokens of a text: one for four characters.
pub fn estimate_tokens(text: &str) -> (r: usize)
    ensures
        r == text@.len() as int / 4,
{
    text.unicode_len() / 4
}

/// A result of a similarity search, with the node where it is still there.
#[derive(Debug)]
pub struct Candidate {
    /// Identifier of the node.
    pub id: NodeId,
    /// Similarity to the query.
    pub score: u64,
    /// Distance from the query.
    pub distance: u64,
    /// The node.
    pub node: Option<Node>,
}

/// The text of a node in a field.
pub open spec fn content_of(n: NodeView, field: Seq<char>) -> Seq<char> {
    match text_of(n, field) {
        Some(s) => s,
        None => Seq::empty(),
    }
}

/// The text of a node in a field, where it has one.
pub open spec fn text_of(n: NodeView, field: Seq<char>) -> Option<Seq<char>> {
    if n.properties.dom().contains(field) {
        match n.properties[field] {
            ValueView::Text(s) => Some(s),
            _ => None,
        }
    } else {
        None
    }
}

/// An integer read as an unsigned one: negative ones count from the largest down.
pub open spec fn unsigned(i: i64) -> u64 {
    if i >= 0 {
        i as u64
    } else {
        (i + 0x1_0000_0000_0000_0000) as u64
    }
}

/// The number of a node in a field, where it has one.
pub open spec fn number_of(n: NodeView, field: Seq<char>) -> Option<u64> {
    if n.properties.dom().contains(field) {
        match n.properties[field] {
            ValueView::Int(i) => Some(unsigned(i)),
            ValueView::Float(f) => Some(unsigned(float_to_int(f))),
            _ => None,
        }
    } else {
        None
    }
}

/// Whether a piece is that of a node.
pub open spec fn piece_of(
    c: ContextChunk,
    id: Seq<u8>,
    n: NodeView,
    field: Seq<char>,
    score: u64,
    distance: u64,
) -> bool {
    &&& c.node_id@ == uuid_text(id)
    &&& c.content@ == content_of(n, field)
    &&& c.score == score
    &&& c.distance == distance
    &&& match c.document_id {
        Some(d) => text_of(n, "document_id"@) == Some(d@),
        None => text_of(n, "document_id"@) is None,
    }
    &&& c.chunk_index == number_of(n, "chunk_index"@)
    &&& match c.metadata {
        Some(j) => n.properties.dom().contains("metadata"@) && j@ == to_json(
            n.properties["metadata"@],
        ),
        None => !n.properties.dom().contains("metadata"@),
    }
}

/// The positions of the candidates that go into the context, from position `i` on, where
/// `used` tokens are used: those with a node and a score that is high enough, up to the first
/// that does not fit.
pub open spec fn fitting(
    all: Seq<Candidate>,
    field: Seq<char>,
    min_score: u64,
    max_tokens: int,
    i: int,
    used: int,
) -> Seq<int>
    decreases all.len() - i,
{
    if i >= all.len() {
        Seq::empty()
    } else if smaller(all[i].score, min_score) || all[i].node is None {
        fitting(all, field, min_score, max_tokens, i + 1, used)
    } else {
        let tokens = content_of(all[i].node->0@, field).len() as int / 4;
        if used + tokens > max_tokens {
            Seq::empty()
        } else {
            seq![i] + fitting(all, field, min_score, max_tokens, i + 1, used + tokens)
        }
    }
}

/// Number of tokens of the texts of some pieces.
pub open spec fn tokens_of(chunks: Seq<ContextChunk>) -> int
    decreases chunks.len(),
{
    if chunks.len() == 0 {
        0
    } else {
        tokens_of(chunks.drop_last()) + chunks.last().content@.len() as int / 4
    }
}

/// How many of some pieces fit into a number of tokens, one after the other, up to the first
/// that does not.
pub open spec fn fit_count(chunks: Seq<ContextChunk>, max_tokens: int, i: int, used: int) -> int
    decreases chunks.len() - i,
{
    if i >= chunks.len() {
        i
    } else {
        let tokens = chunks[i].content@.len() as int / 4;
        if used + tokens > max_tokens {
            i
        } else {
            fit_count(chunks, max_tokens, i + 1, used + tokens)
        }
    }
}

/// A retriever of context.
#[derive(Debug)]
pub struct ContextRetriever {
    /// Type of the nodes to search.
    pub node_type: String,
    /// Field with the vectors.
    pub embedding_field: String,
    /// Field with the texts.
    pub content_field: String,
    /// Largest number of tokens.
    pub max_tokens: usize,
    /// Smallest score, by its bits.
    pub min_score: u64,
    /// How distances are measured.
    pub metric: DistanceMetric,
}

impl ContextRetriever {
    /// A retriever with the usual settings.
    pub fn new() -> (r: Self)
        ensures
            r.node_type@ == "chunk"@,
            r.embedding_field@ == "embedding"@,
            r.content_field@ == "content"@,
            r.max_tokens == 4096,
            r.min_score == 0,
            r.metric == DistanceMetric::Cosine,
    {
        ContextRetriever {
            node_type: copy_str("chunk"),
            embedding_field: copy_str("embedding"),
            content_field: copy_str("content"),
            max_tokens: 4096,
            min_score: 0,
            metric: DistanceMetric::Cosine,
        }
    }

    /// Sets the type of the nodes to search.
    pub fn node_type(self, node_type: &str) -> (r: Self)
        ensures
            r.node_type@ == node_type@,
            r == (ContextRetriever { node_type: r.node_type, ..self }),
    {
        ContextRetriever { node_type: copy_str(node_type), ..self }
    }

    /// Sets the field with the vectors.
    pub fn embedding_field(self, field: &str) -> (r: Self)
        ensures
            r.embedding_field@ == field@,
            r == (ContextRetriever { embedding_field: r.embedding_field, ..self }),
    {
        ContextRetriever { embedding_field: copy_str(field), ..self }
    }

    /// Sets the field with the texts.
    pub fn content_field(self, field: &str) -> (r: Self)
        ensures
            r.content_field@ == field@,
            r == (ContextRetriever { content_field: r.content_field, ..self }),
    {
        ContextRetriever { content_field: copy_str(field), ..self }
    }

    /// Sets the largest number of tokens.
    pub fn max_tokens(self, tokens: usize) -> (r: Self)
        ensures
            r == (ContextRetriever { max_tokens: tokens, ..self }),
    {
        ContextRetriever { max_tokens: tokens, ..self }
    }

    /// Sets the smallest score, by its bits.
    pub fn min_score(self, score: u64) -> (r: Self)
        ensures
            r == (ContextRetriever { min_score: score, ..self }),
    {
        ContextRetriever { min_score: score, ..self }
    }

    /// Sets how distances are measured.
    pub fn metric(self, metric: DistanceMetric) -> (r: Self)
        ensures
            r == (ContextRetriever { metric, ..self }),
    {
        ContextRetriever { metric, ..self }
    }

    /// How many results a search asks for: one for a hundred tokens, at least ten and at most
    /// a hundred.
    pub fn search_width(&self) -> (r: usize)
        ensures
            r == (if self.max_tokens / 100 < 10 {
                10
            } else if self.max_tokens / 100 > 100 {
                100
            } else {
                self.max_tokens / 100
            }),
    {
        let k: usize = self.max_tokens / 100;
        if k < 10 {
            10
        } else if k > 100 {
            100
        } else {
            k
        }
    }

    /// How many results a search asks for whose results are put into a new order: one for
    /// fifty tokens, at least twenty and at most two hundred.
    pub fn reranking_width(&self) -> (r: usize)
        ensures
            r == (if self.max_tokens / 50 < 20 {
                20
            } else if self.max_tokens / 50 > 200 {
                200
            } else {
                self.max_tokens / 50
            }),
    {
        let k: usize = self.max_tokens / 50;
        if k < 20 {
            20
        } else if k > 200 {
            200
        } else {
            k
        }
    }

    /// Whether a score is too low.
    pub fn too_low(&self, score: u64) -> (r: bool)
        ensures
            r == smaller(score, self.min_score),
    {
        float_less(score, self.min_score)
    }

    fn extract_content(&self, node: &Node) -> (r: String)
        ensures
            r@ == content_of(node@, self.content_field@),
    {
        match text_property(node, self.content_field.as_str()) {
            Some(s) => s,
            None => String::new(),
        }
    }

    /// The piece of a node.
    pub fn chunk(&self, id: &NodeId, node: &Node, score: u64, distance: u64) -> (r: ContextChunk)
        ensures
            piece_of(r, id@, node@, self.content_field@, score, distance),
    {
        let index = match node.get("chunk_index") {
            Some(v) => match v.as_int() {
                Some(i) => Some(to_unsigned(i)),
                None => None,
            },
            None => None,
        };
        let metadata = match node.get("metadata") {
            Some(v) => Some(v.to_json()),
            None => None,
        };
        ContextChunk {
            node_id: id.to_string(),
            content: self.extract_content(node),
            score,
            distance,
            document_id: text_property(node, "document_id"),
            chunk_index: index,
            metadata,
        }
    }

    /// The context from the results of a search, best first.
    pub fn retrieve(&self, candidates: &[Candidate], query: &str) -> (r: RetrievedContext)
        ensures
            r.query@ == query@,
            r.estimated_tokens == tokens_of(r.chunks@),
            ({
                let at = fitting(
                    candidates@,
                    self.content_field@,
                    self.min_score,
                    self.max_tokens as int,
                    0,
                    0,
                );
                &&& r.chunks@.len() == at.len()
                &&& forall|i: int|
                    0 <= i < at.len() ==> 0 <= #[trigger] at[i] < candidates@.len()
                        && candidates@[at[i]].node is Some && piece_of(
                        r.chunks@[i],
                        candidates@[at[i]].id@,
                        candidates@[at[i]].node->0@,
                        self.content_field@,
                        candidates@[at[i]].score,
                        candidates@[at[i]].distance,
                    )
            }),
            exists|end: int, at: Seq<int>| #[trigger]
                is_context(
                    candidates@,
                    self.content_field@,
                    self.min_score,
                    self.max_tokens as int,
                    end,
                    at,
                ) && at.len() == r.chunks@.len() && forall|i: int|
                    0 <= i < at.len() ==> piece_of(
                        r.chunks@[i],
                        candidates@[#[trigger] at[i]].id@,
                        candidates@[at[i]].node->0@,
                        self.content_field@,
                        candidates@[at[i]].score,
                        candidates@[at[i]].distance,
                    ),
    {
        let ghost field = self.content_field@;
        let ghost max = self.max_tokens as int;
        let ghost all = fitting(candidates@, field, self.min_score, max, 0, 0);
        let mut chunks: Vec<ContextChunk> = Vec::new();
        let mut used: usize = 0;
        let mut i: usize = 0;
        let ghost mut done: Seq<int> = Seq::empty();
        assert(done + all =~= all);
        while i < candidates.len()
            invariant_except_break
                done + fitting(
                    candidates@,
                    field,
                    self.min_score,
                    max,
                    i as int,
                    used as int,
                ) == all,
            invariant
                i <= candidates@.len(),
                field == self.content_field@,
                max == self.max_tokens,
                used <= self.max_tokens,
                used == tokens_of(chunks@),
                chunks@.len() == done.len(),
                forall|k: int|
                    0 <= k < done.len() ==> 0 <= #[trigger] done[k] < candidates@.len()
                        && candidates@[done[k]].node is Some && piece_of(
                        chunks@[k],
                        candidates@[done[k]].id@,
                        candidates@[done[k]].node->0@,
                        field,
                        candidates@[done[k]].score,
                        candidates@[done[k]].distance,
                    ),
            ensures
                done == all,
            decreases candidates@.len() - i,
        {
            let c = &candidates[i];
            if !self.too_low(c.score) {
                if let Some(node) = &c.node {
                    let chunk = self.chunk(&c.id, node, c.score, c.distance);
                    let tokens: usize = estimate_tokens(chunk.content.as_str());
                    if tokens > self.max_tokens - used {
                        assert(done + Seq::<int>::empty() =~= done);
                        break;
                    }
                    let ghost was = chunks@;
                    let ghost rest = fitting(
                        candidates@,
                        field,
                        self.min_score,
                        max,
                        i + 1,
                        used + tokens,
                    );
                    used = used + tokens;
                    chunks.push(chunk);
                    proof {
                        assert(chunks@.drop_last() =~= was);
                        assert(done + (seq![i as int] + rest) =~= done.push(i as int) + rest);
                        done = done.push(i as int);
                    }
                }
            }
            i = i + 1;
            proof {
                if i == candidates@.len() {
                    assert(done + Seq::<int>::empty() =~= done);
                }
            }
        }
        proof {
            let end = law_context_leaves_out_none(candidates@, field, self.min_score, max, 0, 0);
            assert(is_context(candidates@, field, self.min_score, max, end, all));
        }
        RetrievedContext { chunks, estimated_tokens: used, query: copy_str(query) }
    }

    /// The positions of the results that get a new score: those with a node and a score that is
    /// high enough, in their order.
    pub fn reranking_candidates(&self, found: &[Candidate]) -> (r: Vec<usize>)
        ensures
            r@ == eligible(found@, self.min_score),
    {
        let mut out: Vec<usize> = Vec::new();
        let mut i: usize = 0;
        assert(out@ =~= eligible(found@.take(0), self.min_score));
        while i < found.len()
            invariant
                i <= found@.len(),
                out@ == eligible(found@.take(i as int), self.min_score),
            decreases found@.len() - i,
        {
            proof {
                assert(found@.take(i + 1).drop_last() =~= found@.take(i as int));
                assert(found@.take(i + 1).last() == found@[i as int]);
            }
            if !self.too_low(found[i].score) && found[i].node.is_some() {
                out.push(i);
            }
            i = i + 1;
        }
        assert(found@.take(i as int) =~= found@);
        out
    }

    /// The context from pieces that have new scores: best first, up to the first that does not
    /// fit.
    pub fn retrieve_with_reranking(&self, chunks: Vec<ContextChunk>, query: &str) -> (r:
        RetrievedContext)
        ensures
            r.query@ == query@,
            r.estimated_tokens == tokens_of(r.chunks@),
            exists|o: Seq<usize>| #[trigger]
                ordered(score_keys(chunks@), Direction::Descending, o) && r.chunks@
                    == arranged(chunks@, o).take(
                    fit_count(arranged(chunks@, o), self.max_tokens as int, 0, 0),
                ) && r.estimated_tokens <= self.max_tokens && (r.chunks@.len() < chunks@.len()
                    ==> r.estimated_tokens + chunks@[o[r.chunks@.len() as int] as int].content@.len()
                    as int / 4 > self.max_tokens),
    {
        let ghost all = chunks@;
        let mut keys: Vec<i64> = Vec::new();
        let mut i: usize = 0;
        while i < chunks.len()
            invariant
                i <= chunks@.len(),
                chunks@ == all,
                keys@ == score_keys(all.take(i as int)),
            decreases chunks@.len() - i,
        {
            keys.push(float_key(chunks[i].score));
            assert(keys@ =~= score_keys(all.take(i + 1)));
            i = i + 1;
        }
        assert(all.take(i as int) =~= all);
        let order = order_by(keys.as_slice(), Direction::Descending);
        let sorted = arrange(chunks, order.as_slice(), Ghost(keys@));
        let ghost s = sorted@;
        let mut used: usize = 0;
        let mut n: usize = 0;
        assert(tokens_of(s.take(0)) == 0);
        while n < sorted.len()
            invariant_except_break
                fit_count(s, self.max_tokens as int, 0, 0) == fit_count(
                    s,
                    self.max_tokens as int,
                    n as int,
                    used as int,
                ),
            invariant
                sorted@ == s,
                n <= s.len(),
                used <= self.max_tokens,
                used == tokens_of(s.take(n as int)),
            ensures
                fit_count(s, self.max_tokens as int, 0, 0) == n,
            decreases s.len() - n,
        {
            let tokens: usize = estimate_tokens(sorted[n].content.as_str());
            if tokens > self.max_tokens - used {
                break;
            }
            proof {
                assert(s.take(n + 1).drop_last() =~= s.take(n as int));
                assert(s.take(n + 1).last() == s[n as int]);
            }
            used = used + tokens;
            n = n + 1;
        }
        proof {
            law_as_many_pieces_as_fit(s, self.max_tokens as int);
            if n < s.len() {
                assert(s.take(n + 1).drop_last() =~= s.take(n as int));
                assert(s.take(n + 1).last() == s[n as int]);
            }
        }
        let mut kept = sorted;
        kept.truncate(n);
        assert(kept@ =~= s.take(n as int));
        assert(ordered(score_keys(all), Direction::Descending, order@));
        RetrievedContext { chunks: kept, estimated_tokens: used, query: copy_str(query) }
    }
}

/// The positions of the results that have a node and a score that is high enough, in order.
pub open spec fn eligible(found: Seq<Candidate>, min_score: u64) -> Seq<usize>
    decreases found.len(),
{
    if found.len() == 0 {
        Seq::empty()
    } else {
        let head = eligible(found.drop_last(), min_score);
        if !smaller(found.last().score, min_score) && found.last().node is Some {
            head.push((found.len() - 1) as usize)
        } else {
            head
        }
    }
}

/// A result is put into a new order exactly where it has a node and a score that is high
/// enough, and the results keep their order until then.
pub proof fn law_reranking_takes_the_eligible(found: Seq<Candidate>, min_score: u64)
    requires
        found.len() <= usize::MAX,
    ensures
        ({
            let r = eligible(found, min_score);
            &&& forall|k: int|
                0 <= k < r.len() ==> (#[trigger] r[k]) < found.len() && !smaller(
                    found[r[k] as int].score,
                    min_score,
                ) && found[r[k] as int].node is Some
            &&& forall|a: int, b: int| 0 <= a < b < r.len() ==> #[trigger] r[a] < #[trigger] r[b]
            &&& forall|i: int|
                0 <= i < found.len() && !smaller((#[trigger] found[i]).score, min_score)
                    && found[i].node is Some ==> r.contains(i as usize)
        }),
    decreases found.len(),
{
    if found.len() > 0 {
        let head = found.drop_last();
        law_reranking_takes_the_eligible(head, min_score);
        let q = eligible(head, min_score);
        let r = eligible(found, min_score);
        assert forall|k: int| 0 <= k < r.len() implies (#[trigger] r[k]) < found.len() && !smaller(
            found[r[k] as int].score,
            min_score,
        ) && found[r[k] as int].node is Some by {
            if k < q.len() {
                assert(r[k] == q[k]);
                assert(head[q[k] as int] == found[q[k] as int]);
            }
        }
        assert forall|a: int, b: int| 0 <= a < b < r.len() implies #[trigger] r[a]
            < #[trigger] r[b] by {
            assert(r[a] == q[a]);
            if b < q.len() {
                assert(r[b] == q[b]);
            }
        }
        assert forall|i: int|
            0 <= i < found.len() && !smaller((#[trigger] found[i]).score, min_score)
                && found[i].node is Some implies r.contains(i as usize) by {
            if i < head.len() {
                assert(head[i] == found[i]);
                let k = choose|k: int| 0 <= k < q.len() && q[k] == i as usize;
                assert(r[k] == q[k]);
            } else {
                assert(r[q.len() as int] == i as usize);
            }
        }
    }
}

/// Keys that run as the scores of some pieces.
pub open spec fn score_keys(chunks: Seq<ContextChunk>) -> Seq<i64> {
    chunks.map_values(|c: ContextChunk| order_key(c.score) as i64)
}

/// Pieces in a new order.
pub open spec fn arranged(chunks: Seq<ContextChunk>, order: Seq<usize>) -> Seq<ContextChunk> {
    order.map_values(|i: usize| chunks[i as int])
}

fn arrange(
    chunks: Vec<ContextChunk>,
    order: &[usize],
    Ghost(keys): Ghost<Seq<i64>>,
) -> (r: Vec<ContextChunk>)
    requires
        keys.len() == chunks@.len(),
        ordered(keys, Direction::Descending, order@),
    ensures
        r@ == arranged(chunks@, order@),
{
    let ghost all = chunks@;
    let mut slots: Vec<Option<ContextChunk>> = Vec::new();
    for c in it: chunks.into_iter()
        invariant
            it.seq() == all,
            slots@.len() == it.index(),
            forall|i: int| 0 <= i < slots@.len() ==> #[trigger] slots@[i] == Some(all[i]),
    {
        slots.push(Some(c));
    }
    let mut out: Vec<ContextChunk> = Vec::new();
    let mut i: usize = 0;
    proof {
        if order@.len() > 0 {
            crate::order::lemma_ordered_is_complete(keys, Direction::Descending, order@, 0);
        }
    }
    while i < order.len()
        invariant
            i <= order@.len(),
            order@.len() == all.len(),
            slots@.len() == all.len(),
            order@.len() > 0 ==> order@.no_duplicates(),
            forall|k: int| 0 <= k < order@.len() ==> (#[trigger] order@[k]) < all.len(),
            forall|k: int|
                i <= k < order@.len() ==> slots@[(#[trigger] order@[k]) as int] == Some(
                    all[order@[k] as int],
                ),
            out@.len() == i,
            forall|k: int| 0 <= k < i ==> #[trigger] out@[k] == all[order@[k] as int],
        decreases order@.len() - i,
    {
        let at: usize = order[i];
        let mut taken: Option<ContextChunk> = None;
        let ghost before = slots@;
        std::mem::swap(&mut taken, &mut slots[at]);
        proof {
            assert forall|k: int| i + 1 <= k < order@.len() implies slots@[(
            #[trigger] order@[k]) as int] == Some(all[order@[k] as int]) by {
                assert(order@[k] != order@[i as int]);
                assert(before[order@[k] as int] == Some(all[order@[k] as int]));
            }
        }
        if let Some(c) = taken {
            out.push(c);
        }
        i = i + 1;
    }
    assert(out@ =~= arranged(all, order@));
    out
}

fn text_property(node: &Node, field: &str) -> (r: Option<String>)
    ensures
        match r {
            Some(s) => text_of(node@, field@) == Some(s@),
            None => text_of(node@, field@) is None,
        },
{
    match node.get(field) {
        Some(v) => match v.as_str() {
            Some(s) => Some(copy_str(s)),
            None => None,
        },
        None => None,
    }
}

fn to_unsigned(i: i64) -> (r: u64)
    ensures
        r == unsigned(i),
{
    if i >= 0 {
        i as u64
    } else {
        let down: u64 = (-(i + 1)) as u64;
        u64::MAX - down
    }
}

/// How many of some words a text holds.
pub open spec fn words_held(terms: Seq<Seq<char>>, content: Seq<char>) -> nat
    decreases terms.len(),
{
    if terms.len() == 0 {
        0
    } else {
        words_held(terms.drop_last(), content) + (if holds(content, terms.last()) {
            1nat
        } else {
            0nat
        })
    }
}

/// How many of some words a text holds.
pub fn count_held(terms: &[String], content: &str) -> (r: usize)
    ensures
        r == words_held(crate::text::texts(terms@), content@),
        r <= terms@.len(),
{
    let chars = to_chars(content);
    let ghost all = crate::text::texts(terms@);
    let mut n: usize = 0;
    let mut i: usize = 0;
    while i < terms.len()
        invariant
            i <= terms@.len(),
            chars@ == content@,
            all == crate::text::texts(terms@),
            n == words_held(all.take(i as int), content@),
            n <= i,
        decreases terms@.len() - i,
    {
        proof {
            assert(all.take(i + 1).drop_last() =~= all.take(i as int));
            assert(all.take(i + 1).last() == terms@[i as int]@);
        }
        if contains_text(chars.as_slice(), terms[i].as_str()) {
            n = n + 1;
        }
        i = i + 1;
    }
    assert(all.take(i as int) =~= all);
    n
}

/// How many words of a query a text holds, and how many words the query has, letter case
/// aside.
pub fn keyword_reranker(query: &str, content: &str) -> (r: (usize, usize))
    ensures
        r.0 == words_held(words(lowercase(query@)), lowercase(content@)),
        r.1 == words(lowercase(query@)).len(),
{
    let terms = split_words(to_lower(query).as_str());
    let text = to_lower(content);
    let n: usize = count_held(terms.as_slice(), text.as_str());
    assert(crate::text::texts(terms@).len() == terms@.len());
    (n, terms.len())
}

/// How often a text holds each of some words.
pub open spec fn frequencies(terms: Seq<Seq<char>>, content: Seq<char>) -> Seq<nat> {
    terms.map_values(|t: Seq<char>| match_count(content, t, 0))
}

/// How often a text holds each of some words that are not empty.
pub fn term_frequencies(terms: &[String], content: &str) -> (r: Vec<usize>)
    requires
        forall|i: int| 0 <= i < terms@.len() ==> (#[trigger] terms@[i])@.len() > 0,
    ensures
        r@.map_values(|n: usize| n as nat) == frequencies(
            crate::text::texts(terms@),
            content@,
        ),
{
    let chars = to_chars(content);
    let mut out: Vec<usize> = Vec::new();
    let mut i: usize = 0;
    while i < terms.len()
        invariant
            i <= terms@.len(),
            chars@ == content@,
            out@.len() == i,
            forall|k: int| 0 <= k < terms@.len() ==> (#[trigger] terms@[k])@.len() > 0,
            forall|k: int|
                0 <= k < i ==> #[trigger] out@[k] == match_count(content@, terms@[k]@, 0),
        decreases terms@.len() - i,
    {
        out.push(count_matches(chars.as_slice(), terms[i].as_str()));
        i = i + 1;
    }
    assert(out@.map_values(|n: usize| n as nat) =~= frequencies(
        crate::text::texts(terms@),
        content@,
    ));
    out
}

/// How often a text holds each word of a query, letter case aside, and how many characters
/// the text has.
pub fn bm25_reranker(query: &str, content: &str) -> (r: (Vec<usize>, usize))
    ensures
        r.0@.map_values(|n: usize| n as nat) == frequencies(
            words(lowercase(query@)),
            lowercase(content@),
        ),
        r.1 == content@.len(),
{
    let terms = split_words(to_lower(query).as_str());
    let text = to_lower(content);
    (term_frequencies(terms.as_slice(), text.as_str()), content.unicode_len())
}

/// A context has room for its pieces: the positions that fit use no more tokens than allowed.
pub proof fn law_context_fits(
    all: Seq<Candidate>,
    field: Seq<char>,
    min_score: u64,
    max_tokens: int,
    i: int,
    used: int,
)
    requires
        0 <= used <= max_tokens,
        0 <= i,
    ensures
        ({
            let at = fitting(all, field, min_score, max_tokens, i, used);
            &&& used + picked_tokens(all, field, at) <= max_tokens
            &&& forall|k: int|
                0 <= k < at.len() ==> i <= #[trigger] at[k] < all.len() && !smaller(
                    all[at[k]].score,
                    min_score,
                )
        }),
    decreases all.len() - i,
{
    if i < all.len() {
        if smaller(all[i].score, min_score) || all[i].node is None {
            law_context_fits(all, field, min_score, max_tokens, i + 1, used);
        } else {
            let tokens = content_of(all[i].node->0@, field).len() as int / 4;
            if used + tokens <= max_tokens {
                law_context_fits(all, field, min_score, max_tokens, i + 1, used + tokens);
                let rest = fitting(all, field, min_score, max_tokens, i + 1, used + tokens);
                assert((seq![i] + rest).drop_first() =~= rest);
            }
        }
    }
}

/// Number of tokens of the texts at some positions.
pub open spec fn picked_tokens(all: Seq<Candidate>, field: Seq<char>, at: Seq<int>) -> int
    decreases at.len(),
{
    if at.len() == 0 {
        0
    } else {
        content_of(all[at[0]].node->0@, field).len() as int / 4 + picked_tokens(
            all,
            field,
            at.drop_first(),
        )
    }
}

/// Whether a context that ends at a position holds exactly the results at some positions: those
/// before the end that have a node and a score that is high enough, in order. They fit together,
/// and the result at the end, which has a node and a score that is high enough, would not fit
/// any more.
pub open spec fn is_context(
    all: Seq<Candidate>,
    field: Seq<char>,
    min_score: u64,
    max_tokens: int,
    end: int,
    at: Seq<int>,
) -> bool {
    &&& 0 <= end <= all.len()
    &&& forall|k: int|
        0 <= k < at.len() ==> 0 <= #[trigger] at[k] < end && all[at[k]].node is Some && !smaller(
            all[at[k]].score,
            min_score,
        )
    &&& forall|a: int, b: int| 0 <= a < b < at.len() ==> #[trigger] at[a] < #[trigger] at[b]
    &&& forall|k: int|
        0 <= k < end && (#[trigger] all[k]).node is Some && !smaller(all[k].score, min_score)
            ==> at.contains(k)
    &&& picked_tokens(all, field, at) <= max_tokens
    &&& end < all.len() ==> {
        &&& all[end].node is Some
        &&& !smaller(all[end].score, min_score)
        &&& picked_tokens(all, field, at) + content_of(all[end].node->0@, field).len() as int / 4
            > max_tokens
    }
}

/// The context ends at the first result that does not fit, or with the last result, and leaves
/// out none before: the positions that go into it are exactly those before the end that have a
/// node and a score that is high enough, in order.
pub proof fn law_context_leaves_out_none(
    all: Seq<Candidate>,
    field: Seq<char>,
    min_score: u64,
    max_tokens: int,
    i: int,
    used: int,
) -> (end: int)
    requires
        0 <= i <= all.len(),
        0 <= used <= max_tokens,
    ensures
        ({
            let at = fitting(all, field, min_score, max_tokens, i, used);
            &&& i <= end <= all.len()
            &&& forall|k: int|
                0 <= k < at.len() ==> i <= #[trigger] at[k] < end && all[at[k]].node is Some
                    && !smaller(all[at[k]].score, min_score)
            &&& forall|a: int, b: int| 0 <= a < b < at.len() ==> #[trigger] at[a] < #[trigger] at[b]
            &&& forall|k: int|
                i <= k < end && (#[trigger] all[k]).node is Some && !smaller(
                    all[k].score,
                    min_score,
                ) ==> at.contains(k)
            &&& used + picked_tokens(all, field, at) <= max_tokens
            &&& end < all.len() ==> {
                &&& all[end].node is Some
                &&& !smaller(all[end].score, min_score)
                &&& used + picked_tokens(all, field, at) + content_of(
                    all[end].node->0@,
                    field,
                ).len() as int / 4 > max_tokens
            }
        }),
    decreases all.len() - i,
{
    let at = fitting(all, field, min_score, max_tokens, i, used);
    if i >= all.len() {
        i
    } else if smaller(all[i].score, min_score) || all[i].node is None {
        law_context_leaves_out_none(all, field, min_score, max_tokens, i + 1, used)
    } else {
        let tokens = content_of(all[i].node->0@, field).len() as int / 4;
        if used + tokens > max_tokens {
            i
        } else {
            let end = law_context_leaves_out_none(
                all,
                field,
                min_score,
                max_tokens,
                i + 1,
                used + tokens,
            );
            let rest = fitting(all, field, min_score, max_tokens, i + 1, used + tokens);
            assert(at.drop_first() =~= rest);
            assert forall|k: int| 0 <= k < at.len() implies i <= #[trigger] at[k] < end
                && all[at[k]].node is Some && !smaller(all[at[k]].score, min_score) by {
                if k > 0 {
                    assert(at[k] == rest[k - 1]);
                }
            }
            assert forall|a: int, b: int| 0 <= a < b < at.len() implies #[trigger] at[a]
                < #[trigger] at[b] by {
                assert(at[b] == rest[b - 1]);
                if a > 0 {
                    assert(at[a] == rest[a - 1]);
                }
            }
            assert forall|k: int|
                i <= k < end && (#[trigger] all[k]).node is Some && !smaller(
                    all[k].score,
                    min_score,
                ) implies at.contains(k) by {
                if k == i {
                    assert(at[0] == i);
                } else {
                    assert(rest.contains(k));
                    let m = choose|m: int| 0 <= m < rest.len() && rest[m] == k;
                    assert(at[m + 1] == k);
                }
            }
            end
        }
    }
}

/// The tokens of some positions are the sum of those of two parts, one for four characters of a
/// text.
pub proof fn law_picked_tokens(all: Seq<Candidate>, field: Seq<char>, a: Seq<int>, b: Seq<int>)
    ensures
        picked_tokens(all, field, a + b) == picked_tokens(all, field, a) + picked_tokens(
            all,
            field,
            b,
        ),
        a.len() == 1 ==> 4 * picked_tokens(all, field, a) <= content_of(
            all[a[0]].node->0@,
            field,
        ).len() < 4 * picked_tokens(all, field, a) + 4,
    decreases a.len(),
{
    if a.len() == 0 {
        assert(a + b =~= b);
    } else {
        assert((a + b).drop_first() =~= a.drop_first() + b);
        law_picked_tokens(all, field, a.drop_first(), b);
        if a.len() == 1 {
            assert(picked_tokens(all, field, a.drop_first()) == 0);
        }
    }
}

/// The tokens of some pieces are the sum of those of two parts, one for four characters of a
/// text.
pub proof fn law_tokens_of(a: Seq<ContextChunk>, b: Seq<ContextChunk>)
    ensures
        tokens_of(a + b) == tokens_of(a) + tokens_of(b),
        b.len() == 1 ==> 4 * tokens_of(b) <= b[0].content@.len() < 4 * tokens_of(b) + 4,
        0 <= tokens_of(b),
    decreases b.len(),
{
    if b.len() == 0 {
        assert(a + b =~= a);
    } else {
        assert((a + b).drop_last() =~= a + b.drop_last());
        law_tokens_of(a, b.drop_last());
        if b.len() == 1 {
            assert(tokens_of(b.drop_last()) == 0);
        }
    }
}

proof fn lemma_fit_count(chunks: Seq<ContextChunk>, max_tokens: int, i: int, used: int)
    requires
        0 <= i <= chunks.len(),
        used == tokens_of(chunks.take(i)),
        used <= max_tokens,
    ensures
        ({
            let n = fit_count(chunks, max_tokens, i, used);
            &&& i <= n <= chunks.len()
            &&& tokens_of(chunks.take(n)) <= max_tokens
            &&& n < chunks.len() ==> tokens_of(chunks.take(n + 1)) > max_tokens
        }),
    decreases chunks.len() - i,
{
    if i < chunks.len() {
        assert(chunks.take(i + 1).drop_last() =~= chunks.take(i));
        assert(chunks.take(i + 1).last() == chunks[i]);
        let tokens = chunks[i].content@.len() as int / 4;
        if used + tokens <= max_tokens {
            lemma_fit_count(chunks, max_tokens, i + 1, used + tokens);
        }
    }
}

/// As many pieces are kept as fit: they fit together, and with the next one they would not.
pub proof fn law_as_many_pieces_as_fit(chunks: Seq<ContextChunk>, max_tokens: int)
    requires
        max_tokens >= 0,
    ensures
        ({
            let n = fit_count(chunks, max_tokens, 0, 0);
            &&& 0 <= n <= chunks.len()
            &&& tokens_of(chunks.take(n)) <= max_tokens
            &&& n < chunks.len() ==> tokens_of(chunks.take(n + 1)) > max_tokens
        }),
{
    assert(tokens_of(chunks.take(0)) == 0);
    lemma_fit_count(chunks, max_tokens, 0, 0);
}

/// The pieces that have new scores come with the highest first: no score that is a number is
/// smaller than one that comes later. All pieces come, each at one place.
pub proof fn law_reranked_pieces_run_down(chunks: Seq<ContextChunk>, o: Seq<usize>)
    requires
        ordered(score_keys(chunks), Direction::Descending, o),
    ensures
        ({
            let r = arranged(chunks, o);
            &&& r.len() == chunks.len()
            &&& r.to_multiset() == chunks.to_multiset()
            &&& forall|i: int, j: int|
                0 <= i < j < r.len() ==> !smaller((#[trigger] r[i]).score, (#[trigger] r[j]).score)
        }),
{
    let keys = score_keys(chunks);
    let r = arranged(chunks, o);
    assert forall|i: int, j: int| 0 <= i < j < r.len() implies !smaller(
        (#[trigger] r[i]).score,
        (#[trigger] r[j]).score,
    ) by {
        assert(crate::order::precedes(keys, Direction::Descending, o[i] as int, o[j] as int));
        assert(keys[o[i] as int] == order_key(r[i].score) as i64);
        assert(keys[o[j] as int] == order_key(r[j].score) as i64);
    }
    crate::order::lemma_arranged_multiset(keys, Direction::Descending, o, chunks);
}

/// A text holds as many words of a list as there are places of the list with a word that stands
/// somewhere in the text.
pub proof fn law_words_held(terms: Seq<Seq<char>>, content: Seq<char>)
    ensures
        words_held(terms, content) == terms.filter(
            |t: Seq<char>|
                exists|i: int|
                    0 <= i <= content.len() - t.len() && #[trigger] content.subrange(
                        i,
                        i + t.len(),
                    ) == t,
        ).len(),
    decreases terms.len(),
{
    reveal(Seq::filter);
    if terms.len() > 0 {
        law_words_held(terms.drop_last(), content);
    }
}

/// The text of a list of pieces, without their headings: the texts joined by empty lines.
pub proof fn law_plain_joins_the_texts(chunks: Seq<ContextChunk>, n: int)
    requires
        0 <= n <= chunks.len(),
    ensures
        plain(chunks, n) == crate::text::joined(
            chunks.take(n).map_values(|c: ContextChunk| c.content@),
            "\n\n"@,
        ),
    decreases n,
{
    let parts = chunks.take(n).map_values(|c: ContextChunk| c.content@);
    if n > 0 {
        law_plain_joins_the_texts(chunks, n - 1);
        let head = chunks.take(n - 1).map_values(|c: ContextChunk| c.content@);
        assert(parts.drop_last() =~= head);
        assert(parts.last() == chunks[n - 1].content@);
        if n == 1 {
            assert(plain(chunks, 0) =~= Seq::<char>::empty());
            assert(plain(chunks, 1) =~= parts[0]);
        }
    }
}

/// Whether positions are all those from `i` on with a node and a score that is high enough, in
/// order.
pub open spec fn all_eligible(all: Seq<Candidate>, min_score: u64, i: int, e: Seq<int>) -> bool {
    &&& forall|k: int|
        0 <= k < e.len() ==> i <= #[trigger] e[k] < all.len() && all[e[k]].node is Some && !smaller(
            all[e[k]].score,
            min_score,
        )
    &&& forall|a: int, b: int| 0 <= a < b < e.len() ==> #[trigger] e[a] < #[trigger] e[b]
    &&& forall|k: int|
        i <= k < all.len() && (#[trigger] all[k]).node is Some && !smaller(all[k].score, min_score)
            ==> e.contains(k)
}

proof fn lemma_picked_tokens(all: Seq<Candidate>, field: Seq<char>, at: Seq<int>)
    ensures
        picked_tokens(all, field, at) >= 0,
    decreases at.len(),
{
    if at.len() > 0 {
        lemma_picked_tokens(all, field, at.drop_first());
    }
}

/// Where all results with a node and a score that is high enough fit together, all of them go
/// into the context.
pub proof fn law_context_takes_all_that_fit(
    all: Seq<Candidate>,
    field: Seq<char>,
    min_score: u64,
    max_tokens: int,
    i: int,
    used: int,
    e: Seq<int>,
)
    requires
        0 <= i <= all.len(),
        all_eligible(all, min_score, i, e),
        used + picked_tokens(all, field, e) <= max_tokens,
    ensures
        fitting(all, field, min_score, max_tokens, i, used) == e,
    decreases all.len() - i,
{
    if i >= all.len() {
        if e.len() > 0 {
            assert(i <= e[0] < all.len());
        }
        assert(e =~= Seq::<int>::empty());
    } else if smaller(all[i].score, min_score) || all[i].node is None {
        assert forall|k: int| 0 <= k < e.len() implies i + 1 <= #[trigger] e[k] by {
            assert(e[k] != i);
        }
        law_context_takes_all_that_fit(all, field, min_score, max_tokens, i + 1, used, e);
    } else {
        assert(e.contains(i));
        let m = choose|m: int| 0 <= m < e.len() && e[m] == i;
        assert(m == 0) by {
            if m > 0 {
                assert(e[0] < e[m]);
            }
        }
        let rest = e.drop_first();
        let tokens = content_of(all[i].node->0@, field).len() as int / 4;
        lemma_picked_tokens(all, field, rest);
        assert forall|k: int| 0 <= k < rest.len() implies i + 1 <= #[trigger] rest[k] < all.len()
            && all[rest[k]].node is Some && !smaller(all[rest[k]].score, min_score) by {
            assert(rest[k] == e[k + 1]);
            assert(e[0] < e[k + 1]);
        }
        assert forall|a: int, b: int| 0 <= a < b < rest.len() implies #[trigger] rest[a]
            < #[trigger] rest[b] by {
            assert(e[a + 1] < e[b + 1]);
        }
        assert forall|k: int|
            i + 1 <= k < all.len() && (#[trigger] all[k]).node is Some && !smaller(
                all[k].score,
                min_score,
            ) implies rest.contains(k) by {
            assert(e.contains(k));
            let x = choose|x: int| 0 <= x < e.len() && e[x] == k;
            assert(rest[x - 1] == k);
        }
        law_context_takes_all_that_fit(
            all,
            field,
            min_score,
            max_tokens,
            i + 1,
            used + tokens,
            rest,
        );
        assert(seq![i] + rest =~= e);
    }
}

/// A piece has the text of its node in the field, where it has a text there, and none else; its
/// document is the text under "document_id", and its number the one under "chunk_index".
pub proof fn law_piece(
    c: ContextChunk,
    id: Seq<u8>,
    n: NodeView,
    field: Seq<char>,
    score: u64,
    distance: u64,
)
    requires
        piece_of(c, id, n, field, score, distance),
    ensures
        n.properties.dom().contains(field) && n.properties[field] is Text ==> c.content@
            == n.properties[field]->Text_0,
        !(n.properties.dom().contains(field) && n.properties[field] is Text) ==> c.content@.len()
            == 0,
        c.score == score,
        c.distance == distance,
        c.node_id@ == uuid_text(id),
        c.document_id is Some <==> n.properties.dom().contains("document_id"@)
            && n.properties["document_id"@] is Text,
        c.document_id matches Some(d) ==> d@ == n.properties["document_id"@]->Text_0,
        n.properties.dom().contains("chunk_index"@) && (
        n.properties["chunk_index"@] matches ValueView::Int(i) && i >= 0) ==> (
        c.chunk_index matches Some(k) && k == n.properties["chunk_index"@]->Int_0),
        !n.properties.dom().contains("chunk_index"@) ==> c.chunk_index is None,
        c.metadata is Some <==> n.properties.dom().contains("metadata"@),
{
}

/// A context as one text holds each piece behind a heading, which has its number from one on, its
/// document if it has one, and its relevance; a line of three dashes stands between neighbours.
pub proof fn law_written(chunks: Seq<ContextChunk>, relevance: Seq<String>, n: int)
    requires
        0 <= n < chunks.len(),
    ensures
        written(chunks, relevance, 0).len() == 0,
        ({
            let line = if n > 0 {
                seq!['\n', '\n', '-', '-', '-', '\n', '\n']
            } else {
                Seq::empty()
            };
            let document = match chunks[n].document_id {
                Some(d) => seq!['(', 'D', 'o', 'c', ':', ' '] + d@ + seq![')', ' '],
                None => Seq::empty(),
            };
            let heading = seq!['[', 'S', 'o', 'u', 'r', 'c', 'e', ' '] + decimal((n + 1) as nat)
                + seq![']', ' '] + document + seq![
                '(', 'R', 'e', 'l', 'e', 'v', 'a', 'n', 'c', 'e', ':', ' ',
            ] + relevance[n]@ + seq![')', '\n'];
            written(chunks, relevance, n + 1) == written(chunks, relevance, n) + line + heading
                + chunks[n].content@
        }),
{
    reveal_strlit("\n\n---\n\n");
    reveal_strlit("[Source ");
    reveal_strlit("] ");
    reveal_strlit("(Doc: ");
    reveal_strlit(") ");
    reveal_strlit("(Relevance: ");
    reveal_strlit(")\n");
    assert("\n\n---\n\n"@ =~= seq!['\n', '\n', '-', '-', '-', '\n', '\n']);
    assert("[Source "@ =~= seq!['[', 'S', 'o', 'u', 'r', 'c', 'e', ' ']);
    assert("] "@ =~= seq![']', ' ']);
    assert("(Doc: "@ =~= seq!['(', 'D', 'o', 'c', ':', ' ']);
    assert(") "@ =~= seq![')', ' ']);
    assert("(Relevance: "@ =~= seq!['(', 'R', 'e', 'l', 'e', 'v', 'a', 'n', 'c', 'e', ':', ' ']);
    assert(")\n"@ =~= seq![')', '\n']);
    assert(written(chunks, relevance, n + 1 - 1) == written(chunks, relevance, n));
}

} // verus!
