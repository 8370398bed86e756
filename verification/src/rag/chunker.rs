//! Splitting documents into chunks for embedding and retrieval.

use vstd::arithmetic::div_mod::{lemma_basic_div, lemma_div_minus_one};
use vstd::prelude::*;
use vstd::string::*;
use vstd::utf8::{encode_utf8, is_char_boundary};

use crate::text::{
    begins_with, blank, byte_len, bytes, copy_str, decimal, from_chars, is_white, is_whitespace,
    joined, lemma_bytes_subrange, lemma_encode_concat, lemma_joined_front, lemma_white_end,
    lemma_white_start, push_decimal, push_str, starts_with, texts, to_chars, trim,
    trimmed, white_end, white_start,
};

verus! {

/// A chunk of a document.
#[derive(Debug, Clone)]
pub struct DocumentChunk {
    /// Identifier of the chunk: document and index.
    pub id: String,
    /// Document that the chunk came from.
    pub document_id: String,
    /// Text of the chunk.
    pub content: String,
    /// Index of the chunk in the document, from 0.
    pub chunk_index: usize,
    /// Number of chunks of the document.
    pub total_chunks: usize,
    /// Offset of the chunk's start in the document, in bytes.
    pub start_offset: usize,
    /// Offset of the chunk's end in the document, in bytes.
    pub end_offset: usize,
    /// Metadata as JSON text.
    pub metadata: Option<String>,
}

/// A chunk with its texts as sequences.
pub struct ChunkView {
    /// Identifier of the chunk.
    pub id: Seq<char>,
    /// Document that the chunk came from.
    pub document_id: Seq<char>,
    /// Text of the chunk.
    pub content: Seq<char>,
    /// Index of the chunk.
    pub chunk_index: int,
    /// Number of chunks of the document.
    pub total_chunks: int,
    /// Offset of the start, in bytes.
    pub start_offset: int,
    /// Offset of the end, in bytes.
    pub end_offset: int,
    /// Metadata as JSON text.
    pub metadata: Option<Seq<char>>,
}

impl View for DocumentChunk {
    type V = ChunkView;

    open spec fn view(&self) -> ChunkView {
        ChunkView {
            id: self.id@,
            document_id: self.document_id@,
            content: self.content@,
            chunk_index: self.chunk_index as int,
            total_chunks: self.total_chunks as int,
            start_offset: self.start_offset as int,
            end_offset: self.end_offset as int,
            metadata: match self.metadata {
                Some(m) => Some(m@),
                None => None,
            },
        }
    }
}

/// How documents are split.
#[derive(Debug, Clone, Copy, PartialEq, Eq, Structural)]
pub enum ChunkStrategy {
    /// Chunks of one size, with overlap.
    FixedSize {
        /// Largest number of characters per chunk.
        chunk_size: usize,
        /// Number of characters that neighbouring chunks share.
        overlap: usize,
    },
    /// Whole sentences, up to a number of tokens.
    Sentence {
        /// Largest number of tokens per chunk.
        max_tokens: usize,
    },
    /// Whole paragraphs, up to a size.
    Paragraph {
        /// Largest number of characters per chunk.
        max_size: usize,
    },
    /// Sections under headers.
    Semantic {
        /// Largest number of characters per section; larger ones are cut.
        max_size: usize,
    },
}

impl Default for ChunkStrategy {
    fn default() -> (r: Self)
        ensures
            r == (ChunkStrategy::FixedSize { chunk_size: 512, overlap: 50 }),
    {
        ChunkStrategy::FixedSize { chunk_size: 512, overlap: 50 }
    }
}

/// A piece of a document: its text and its place.
pub struct Piece {
    /// Text of the piece.
    pub content: Seq<char>,
    /// Offset of the start in the document, in bytes.
    pub start: int,
    /// Offset of the end in the document, in bytes.
    pub end: int,
}

/// A text made from a stretch of a document, which is given by the positions of its
/// characters.
pub struct Extract {
    /// The text.
    pub text: Seq<char>,
    /// Position of the first character.
    pub from: int,
    /// Position behind the last character.
    pub to: int,
}

/// Character ranges of fixed-size pieces from `start` on: each begins `step` behind the one
/// before, and the first that reaches the end is the last.
pub open spec fn fixed_ranges(len: int, size: int, step: int, start: int) -> Seq<(int, int)>
    decreases len - start,
{
    if start >= len || step < 1 {
        Seq::empty()
    } else if start + size >= len {
        seq![(start, len)]
    } else if start + step >= len {
        seq![(start, start + size)]
    } else {
        seq![(start, start + size)] + fixed_ranges(len, size, step, start + step)
    }
}

/// Distance between the starts of neighbouring pieces: the size less the overlap, at least 1.
pub open spec fn step_of(size: int, overlap: int) -> int {
    if size - overlap >= 1 {
        size - overlap
    } else {
        1
    }
}

/// Fixed-size extracts of `s`.
pub open spec fn fixed_extracts(s: Seq<char>, size: int, overlap: int) -> Seq<Extract> {
    fixed_ranges(s.len() as int, size, step_of(size, overlap), 0).map_values(
        |r: (int, int)| Extract { text: s.subrange(r.0, r.1), from: r.0, to: r.1 },
    )
}

/// What stands from `a` to `b`, without white space around it.
pub open spec fn trimmed_range(s: Seq<char>, a: int, b: int) -> (int, int) {
    (white_end(s, a), white_start(s, b))
}

/// What stands from `a` to `b`, without white space around it, unless it is blank.
pub open spec fn kept_range(s: Seq<char>, a: int, b: int) -> Seq<(int, int)> {
    if blank(s.subrange(a, b)) {
        Seq::empty()
    } else {
        seq![trimmed_range(s, a, b)]
    }
}

/// The texts at some places.
pub open spec fn part_texts(s: Seq<char>, parts: Seq<(int, int)>) -> Seq<Seq<char>> {
    parts.map_values(|p: (int, int)| s.subrange(p.0, p.1))
}

/// A sentence ends at `i`: a stop, followed by white space or the end.
pub open spec fn stops_at(s: Seq<char>, i: int) -> bool {
    &&& 0 <= i < s.len()
    &&& s[i] == '.' || s[i] == '!' || s[i] == '?'
    &&& i + 1 == s.len() || is_white(s[i + 1])
}

/// The first end of a sentence from `i` on, or the end of the text.
pub open spec fn next_stop(s: Seq<char>, i: int) -> int
    decreases s.len() - i,
{
    if 0 <= i < s.len() && !stops_at(s, i) {
        next_stop(s, i + 1)
    } else {
        i
    }
}

/// Searching for a stop goes forwards and stays in the text.
pub proof fn lemma_next_stop(s: Seq<char>, i: int)
    requires
        0 <= i <= s.len(),
    ensures
        i <= next_stop(s, i) <= s.len(),
        next_stop(s, i) < s.len() ==> stops_at(s, next_stop(s, i)),
        forall|k: int| i <= k < next_stop(s, i) ==> !#[trigger] stops_at(s, k),
    decreases s.len() - i,
{
    if i < s.len() && !stops_at(s, i) {
        lemma_next_stop(s, i + 1);
    }
}

/// The places of the sentences of `s` from `start` on, without white space around them. What
/// follows the last stop counts as one, unless it is blank.
pub open spec fn sentence_ranges(s: Seq<char>, start: int) -> Seq<(int, int)>
    decreases s.len() - start,
{
    if 0 <= start < s.len() {
        let k = next_stop(s, start);
        if k < s.len() {
            proof {
                lemma_next_stop(s, start);
                lemma_white_end(s, k + 1);
            }
            seq![trimmed_range(s, start, k + 1)] + sentence_ranges(s, white_end(s, k + 1))
        } else {
            kept_range(s, start, s.len() as int)
        }
    } else {
        Seq::empty()
    }
}

/// First position from `i` on that holds a newline, or the end.
pub open spec fn next_newline(s: Seq<char>, i: int) -> int
    decreases s.len() - i,
{
    if 0 <= i < s.len() && s[i] != '\n' {
        next_newline(s, i + 1)
    } else {
        i
    }
}

/// Searching for a newline goes forwards and stays in the text.
pub proof fn lemma_next_newline(s: Seq<char>, i: int)
    requires
        0 <= i <= s.len(),
    ensures
        i <= next_newline(s, i) <= s.len(),
        next_newline(s, i) < s.len() ==> s[next_newline(s, i)] == '\n',
        forall|k: int| i <= k < next_newline(s, i) ==> #[trigger] s[k] != '\n',
    decreases s.len() - i,
{
    if i < s.len() && s[i] != '\n' {
        lemma_next_newline(s, i + 1);
    }
}

/// The end of a line that begins at `start` and whose newline is at `k`: before the newline,
/// and before a carriage return in front of it.
pub open spec fn line_end(s: Seq<char>, start: int, k: int) -> int {
    if start < k && s[k - 1] == '\r' {
        k - 1
    } else {
        k
    }
}

/// The places of the lines of `s` from `start` on, without their endings; a line ending at the
/// end of the text opens no further line.
pub open spec fn line_ranges(s: Seq<char>, start: int) -> Seq<(int, int)>
    decreases s.len() - start,
{
    if 0 <= start < s.len() {
        let k = next_newline(s, start);
        if k < s.len() {
            proof {
                lemma_next_newline(s, start);
            }
            seq![(start, line_end(s, start, k))] + line_ranges(s, k + 1)
        } else {
            seq![(start, s.len() as int)]
        }
    } else {
        Seq::empty()
    }
}

/// First position from `i` on at which two newlines stand, or the end.
pub open spec fn next_gap(s: Seq<char>, i: int) -> int
    decreases s.len() - i,
{
    if 0 <= i < s.len() && !(s[i] == '\n' && i + 1 < s.len() && s[i + 1] == '\n') {
        next_gap(s, i + 1)
    } else {
        i
    }
}

/// Searching for an empty line goes forwards and stays in the text.
pub proof fn lemma_next_gap(s: Seq<char>, i: int)
    requires
        0 <= i <= s.len(),
    ensures
        i <= next_gap(s, i) <= s.len(),
        next_gap(s, i) < s.len() ==> next_gap(s, i) + 1 < s.len() && s[next_gap(s, i)] == '\n'
            && s[next_gap(s, i) + 1] == '\n',
    decreases s.len() - i,
{
    if i < s.len() && !(s[i] == '\n' && i + 1 < s.len() && s[i + 1] == '\n') {
        lemma_next_gap(s, i + 1);
    }
}

/// The places of the paragraphs of `s` from `start` on: what double newlines separate, without
/// white space around it, and without blank ones.
pub open spec fn paragraph_ranges(s: Seq<char>, start: int) -> Seq<(int, int)>
    decreases s.len() - start,
{
    if 0 <= start <= s.len() {
        let k = next_gap(s, start);
        if k < s.len() {
            proof {
                lemma_next_gap(s, start);
            }
            kept_range(s, start, k) + paragraph_ranges(s, k + 2)
        } else {
            kept_range(s, start, s.len() as int)
        }
    } else {
        Seq::empty()
    }
}

/// A line that opens a section.
pub open spec fn is_header(line: Seq<char>) -> bool {
    ||| begins_with(line, "# "@)
    ||| begins_with(line, "## "@)
    ||| begins_with(line, "### "@)
    ||| begins_with(line, "#### "@)
    ||| begins_with(line, "---"@)
    ||| begins_with(line, "***"@)
    ||| begins_with(line, "==="@)
}

/// How parts are gathered into groups.
#[derive(Debug, Clone, Copy, PartialEq, Eq, Structural)]
pub enum GroupRule {
    /// Sentences, up to a number of tokens, joined by a space.
    Sentences(usize),
    /// Paragraphs, up to a number of characters, joined by an empty line.
    Paragraphs(usize),
    /// Lines, up to a header, joined by a newline.
    Sections,
}

impl GroupRule {
    /// What stands between two parts of a group.
    pub open spec fn joint(self) -> Seq<char> {
        match self {
            GroupRule::Sentences(_) => " "@,
            GroupRule::Paragraphs(_) => "\n\n"@,
            GroupRule::Sections => "\n"@,
        }
    }

    /// Whether `part` begins a new group behind `group`: it would not fit, or it is a header.
    pub open spec fn breaks(self, group: Seq<char>, part: Seq<char>) -> bool {
        let joined = group + self.joint() + part;
        match self {
            GroupRule::Sentences(max) => joined.len() / 4 > max,
            GroupRule::Paragraphs(max) => joined.len() > max,
            GroupRule::Sections => is_header(part),
        }
    }
}

/// The part of `s` at a place.
pub open spec fn part_at(s: Seq<char>, p: (int, int)) -> Extract {
    Extract { text: s.subrange(p.0, p.1), from: p.0, to: p.1 }
}

/// No group.
pub open spec fn no_group() -> Extract {
    Extract { text: Seq::empty(), from: 0, to: 0 }
}

/// The groups that a rule makes of some parts of `s`, behind an open group. A group begins where
/// its first part does, and ends where its last does.
pub open spec fn grouped(
    rule: GroupRule,
    s: Seq<char>,
    parts: Seq<(int, int)>,
    group: Extract,
) -> Seq<Extract>
    decreases parts.len(),
{
    if parts.len() == 0 {
        if group.text.len() == 0 {
            Seq::empty()
        } else {
            seq![group]
        }
    } else {
        let p = part_at(s, parts[0]);
        let rest = parts.skip(1);
        if group.text.len() == 0 {
            grouped(rule, s, rest, p)
        } else if rule.breaks(group.text, p.text) {
            seq![group] + grouped(rule, s, rest, p)
        } else {
            grouped(
                rule,
                s,
                rest,
                Extract { text: group.text + rule.joint() + p.text, from: group.from, to: p.to },
            )
        }
    }
}

/// Groups without white space around their text.
pub open spec fn trimmed_groups(groups: Seq<Extract>) -> Seq<Extract> {
    groups.map_values(|g: Extract| Extract { text: trimmed(g.text), ..g })
}

/// The position in `s` that lies `n` characters behind `at`, where a carriage return and the
/// newline behind it count as one.
pub open spec fn walked(s: Seq<char>, at: int, n: int) -> int
    decreases n,
{
    if n <= 0 || at < 0 || at >= s.len() {
        at
    } else if s[at] == '\r' && at + 1 < s.len() && s[at + 1] == '\n' {
        walked(s, at + 2, n - 1)
    } else {
        walked(s, at + 1, n - 1)
    }
}

/// The extracts of a section: itself if it fits, else fixed-size ones with an overlap of 50.
pub open spec fn section_extracts(s: Seq<char>, section: Extract, max_size: int) -> Seq<Extract> {
    if section.text.len() <= max_size {
        trimmed_groups(seq![section])
    } else {
        fixed_extracts(section.text, max_size, 50).map_values(
            |x: Extract|
                Extract {
                    text: x.text,
                    from: walked(s, section.from, x.from),
                    to: walked(s, section.from, x.to),
                },
        )
    }
}

/// The extracts of some sections.
pub open spec fn sections_extracts(s: Seq<char>, sections: Seq<Extract>, max_size: int) -> Seq<
    Extract,
>
    decreases sections.len(),
{
    if sections.len() == 0 {
        Seq::empty()
    } else {
        sections_extracts(s, sections.drop_last(), max_size) + section_extracts(
            s,
            sections.last(),
            max_size,
        )
    }
}

/// The extracts into which a strategy splits a text.
pub open spec fn extracts(strategy: ChunkStrategy, s: Seq<char>) -> Seq<Extract> {
    match strategy {
        ChunkStrategy::FixedSize { chunk_size, overlap } => fixed_extracts(
            s,
            chunk_size as int,
            overlap as int,
        ),
        ChunkStrategy::Sentence { max_tokens } => trimmed_groups(
            grouped(GroupRule::Sentences(max_tokens), s, sentence_ranges(s, 0), no_group()),
        ),
        ChunkStrategy::Paragraph { max_size } => trimmed_groups(
            grouped(GroupRule::Paragraphs(max_size), s, paragraph_ranges(s, 0), no_group()),
        ),
        ChunkStrategy::Semantic { max_size } => sections_extracts(
            s,
            grouped(GroupRule::Sections, s, line_ranges(s, 0), no_group()),
            max_size as int,
        ),
    }
}

/// Extracts of `s` as pieces, with their places in bytes.
pub open spec fn placed(s: Seq<char>, extracts: Seq<Extract>) -> Seq<Piece> {
    extracts.map_values(
        |x: Extract|
            Piece {
                content: x.text,
                start: bytes(s.take(x.from)) as int,
                end: bytes(s.take(x.to)) as int,
            },
    )
}

/// The pieces into which a strategy splits a text.
pub open spec fn pieces(strategy: ChunkStrategy, s: Seq<char>) -> Seq<Piece> {
    placed(s, extracts(strategy, s))
}

/// Identifier of the `i`-th chunk of a document.
pub open spec fn chunk_id(document: Seq<char>, i: nat) -> Seq<char> {
    document.push('_') + decimal(i)
}

/// The chunks of a document, given its pieces: numbered in order, each with the total.
pub open spec fn numbered(document: Seq<char>, pieces: Seq<Piece>) -> Seq<ChunkView> {
    Seq::new(
        pieces.len(),
        |i: int|
            ChunkView {
                id: chunk_id(document, i as nat),
                document_id: document,
                content: pieces[i].content,
                chunk_index: i,
                total_chunks: pieces.len() as int,
                start_offset: pieces[i].start,
                end_offset: pieces[i].end,
                metadata: None,
            },
    )
}

/// The views of some chunks.
pub open spec fn chunk_views(v: Seq<DocumentChunk>) -> Seq<ChunkView> {
    v.map_values(|c: DocumentChunk| c@)
}

/// The texts of some chunks.
pub open spec fn chunk_texts(v: Seq<DocumentChunk>) -> Seq<Seq<char>> {
    v.map_values(|c: DocumentChunk| c@.content)
}

proof fn lemma_chunk_texts(v: Seq<DocumentChunk>, document: Seq<char>, pieces: Seq<Piece>)
    requires
        chunk_views(v) == numbered(document, pieces),
    ensures
        v.len() == pieces.len(),
        chunk_texts(v) == piece_texts(pieces),
{
    assert(chunk_views(v).len() == v.len());
    assert forall|i: int| 0 <= i < v.len() implies chunk_texts(v)[i] == piece_texts(pieces)[i] by {
        assert(chunk_views(v)[i] == v[i]@);
        assert(numbered(document, pieces)[i].content == pieces[i].content);
    }
    assert(chunk_texts(v) =~= piece_texts(pieces));
}

/// A text made from a stretch of a document.
struct RawExtract {
    text: String,
    from: usize,
    to: usize,
}

impl View for RawExtract {
    type V = Extract;

    closed spec fn view(&self) -> Extract {
        Extract { text: self.text@, from: self.from as int, to: self.to as int }
    }
}

spec fn raw_views(v: Seq<RawExtract>) -> Seq<Extract> {
    v.map_values(|x: RawExtract| x@)
}

spec fn range_views(v: Seq<(usize, usize)>) -> Seq<(int, int)> {
    v.map_values(|r: (usize, usize)| (r.0 as int, r.1 as int))
}

/// Whether extracts lie within a text of a given length.
spec fn within(v: Seq<Extract>, len: int) -> bool {
    forall|i: int| 0 <= i < v.len() ==> 0 <= (#[trigger] v[i]).from <= len && 0 <= v[i].to <= len
}

/// Whether places lie within a text of a given length.
spec fn ranges_within(v: Seq<(int, int)>, len: int) -> bool {
    forall|i: int| 0 <= i < v.len() ==> 0 <= (#[trigger] v[i]).0 <= v[i].1 <= len
}

proof fn lemma_kept_range(s: Seq<char>, a: int, b: int)
    requires
        0 <= a <= b <= s.len(),
    ensures
        blank(s.subrange(a, b)) <==> white_end(s, a) >= b,
        !blank(s.subrange(a, b)) ==> a <= white_end(s, a) < white_start(s, b) <= b,
{
    lemma_white_end(s, a);
    lemma_white_start(s, b);
    let t = s.subrange(a, b);
    if white_end(s, a) < b {
        assert(t[white_end(s, a) - a] == s[white_end(s, a)]);
        assert(!is_white(t[white_end(s, a) - a]));
    } else {
        assert forall|i: int| 0 <= i < t.len() implies is_white(#[trigger] t[i]) by {
            assert(is_white(s[a + i]));
        }
    }
}

proof fn lemma_walked(s: Seq<char>, at: int, n: int)
    requires
        0 <= at <= s.len(),
    ensures
        at <= walked(s, at, n) <= s.len(),
    decreases n,
{
    if n > 0 && at < s.len() {
        if s[at] == '\r' && at + 1 < s.len() && s[at + 1] == '\n' {
            lemma_walked(s, at + 2, n - 1);
        } else {
            lemma_walked(s, at + 1, n - 1);
        }
    }
}

/// Document chunker.
pub struct Chunker {
    strategy: ChunkStrategy,
}

impl Chunker {
    /// The strategy of the chunker.
    pub closed spec fn spec_strategy(&self) -> ChunkStrategy {
        self.strategy
    }

    /// Creates a chunker with a strategy.
    pub fn new(strategy: ChunkStrategy) -> (r: Self)
        ensures
            r.spec_strategy() == strategy,
    {
        Chunker { strategy }
    }

    /// Creates a chunker with the default strategy: 512 characters, 50 shared.
    pub fn default_chunker() -> (r: Self)
        ensures
            r.spec_strategy() == (ChunkStrategy::FixedSize { chunk_size: 512, overlap: 50 }),
    {
        Chunker::new(ChunkStrategy::default())
    }

    /// Creates a chunker that keeps sentences whole.
    pub fn sentence_chunker(max_tokens: usize) -> (r: Self)
        ensures
            r.spec_strategy() == (ChunkStrategy::Sentence { max_tokens }),
    {
        Chunker::new(ChunkStrategy::Sentence { max_tokens })
    }

    /// Creates a chunker that keeps paragraphs whole.
    pub fn paragraph_chunker(max_size: usize) -> (r: Self)
        ensures
            r.spec_strategy() == (ChunkStrategy::Paragraph { max_size }),
    {
        Chunker::new(ChunkStrategy::Paragraph { max_size })
    }

    /// Splits a document into chunks.
    pub fn chunk(&self, document_id: &str, content: &str) -> (r: Vec<DocumentChunk>)
        ensures
            chunk_views(r@) == numbered(document_id@, pieces(self.spec_strategy(), content@)),
    {
        match self.strategy {
            ChunkStrategy::FixedSize { chunk_size, overlap } => self.chunk_fixed_size(
                document_id,
                content,
                chunk_size,
                overlap,
            ),
            ChunkStrategy::Sentence { max_tokens } => self.chunk_by_sentence(
                document_id,
                content,
                max_tokens,
            ),
            ChunkStrategy::Paragraph { max_size } => self.chunk_by_paragraph(
                document_id,
                content,
                max_size,
            ),
            ChunkStrategy::Semantic { max_size } => self.chunk_semantic(
                document_id,
                content,
                max_size,
            ),
        }
    }

    fn number(document_id: &str, content: &str, raw: Vec<RawExtract>) -> (r: Vec<DocumentChunk>)
        requires
            within(raw_views(raw@), content@.len() as int),
        ensures
            chunk_views(r@) == numbered(document_id@, placed(content@, raw_views(raw@))),
    {
        let _limit: usize = byte_len(content);
        let chars = to_chars(content);
        let total: usize = raw.len();
        let ghost all = raw@;
        let ghost want = numbered(document_id@, placed(content@, raw_views(all)));
        let mut out: Vec<DocumentChunk> = Vec::new();
        for x in it: raw.into_iter()
            invariant
                it.seq() == all,
                total == all.len(),
                chars@ == content@,
                bytes(content@) <= usize::MAX,
                within(raw_views(all), content@.len() as int),
                want == numbered(document_id@, placed(content@, raw_views(all))),
                out@.len() == it.index(),
                forall|i: int| 0 <= i < out@.len() ==> (#[trigger] out@[i])@ == want[i],
        {
            let i: usize = out.len();
            assert(raw_views(all)[i as int] == x@);
            let mut id = copy_str(document_id);
            id.push('_');
            push_decimal(&mut id, i as u64);
            let start_offset: usize = Chunker::offset(chars.as_slice(), x.from);
            let end_offset: usize = Chunker::offset(chars.as_slice(), x.to);
            out.push(
                DocumentChunk {
                    id,
                    document_id: copy_str(document_id),
                    content: x.text,
                    chunk_index: i,
                    total_chunks: total,
                    start_offset,
                    end_offset,
                    metadata: None,
                },
            );
        }
        assert(chunk_views(out@) =~= want);
        out
    }

    /// Number of bytes before a position.
    fn offset(chars: &[char], i: usize) -> (r: usize)
        requires
            i <= chars@.len(),
            bytes(chars@) <= usize::MAX,
        ensures
            r == bytes(chars@.take(i as int)),
    {
        proof {
            lemma_bytes_subrange(chars@, 0, i as int);
            assert(chars@.subrange(0, i as int) =~= chars@.take(i as int));
        }
        let head = from_chars(chars, 0, i);
        byte_len(head.as_str())
    }

    fn fixed(chars: &[char], size: usize, overlap: usize) -> (r: Vec<RawExtract>)
        ensures
            raw_views(r@) == fixed_extracts(chars@, size as int, overlap as int),
            within(raw_views(r@), chars@.len() as int),
    {
        let len: usize = chars.len();
        let step: usize = if size > overlap {
            size - overlap
        } else {
            1
        };
        let ghost ranges = fixed_ranges(len as int, size as int, step as int, 0);
        let ghost f = |r: (int, int)|
            Extract { text: chars@.subrange(r.0, r.1), from: r.0, to: r.1 };
        let mut out: Vec<RawExtract> = Vec::new();
        let mut start: usize = 0;
        let mut open: bool = true;
        proof {
            assert(raw_views(out@) + ranges.map_values(f) =~= ranges.map_values(f));
        }
        while open && start < len
            invariant
                len == chars@.len(),
                step >= 1,
                step == step_of(size as int, overlap as int),
                f == (|r: (int, int)|
                    Extract { text: chars@.subrange(r.0, r.1), from: r.0, to: r.1 }),
                start <= len,
                within(raw_views(out@), len as int),
                open ==> raw_views(out@) + fixed_ranges(
                    len as int,
                    size as int,
                    step as int,
                    start as int,
                ).map_values(f) == ranges.map_values(f),
                !open ==> raw_views(out@) == ranges.map_values(f),
            decreases len - start, open as int,
        {
            let last: bool = size >= len - start;
            let end: usize = if last {
                len
            } else {
                start + size
            };
            let ghost tail = fixed_ranges(len as int, size as int, step as int, start as int);
            let ghost before = raw_views(out@);
            let x = RawExtract { text: from_chars(chars, start, end), from: start, to: end };
            let ghost view = x@;
            assert(view == f((start as int, end as int)));
            out.push(x);
            proof {
                assert(raw_views(out@) =~= before.push(view));
            }
            if last || step >= len - start {
                proof {
                    assert(tail =~= seq![(start as int, end as int)]);
                    assert(tail.map_values(f) =~= seq![view]);
                    assert(before + seq![view] =~= raw_views(out@));
                }
                open = false;
            } else {
                proof {
                    let more = fixed_ranges(len as int, size as int, step as int, start + step);
                    assert(tail =~= seq![(start as int, end as int)] + more);
                    assert(tail.map_values(f) =~= seq![view] + more.map_values(f));
                    assert(before + (seq![view] + more.map_values(f)) =~= raw_views(out@)
                        + more.map_values(f));
                }
                start = start + step;
            }
        }
        proof {
            if open {
                let tail = fixed_ranges(len as int, size as int, step as int, start as int);
                assert(tail =~= Seq::<(int, int)>::empty());
                assert(raw_views(out@) + tail.map_values(f) =~= raw_views(out@));
            }
        }
        out
    }

    /// Cuts a document into chunks of one size. Each chunk begins one step behind the one before
    /// and holds the characters from there on, up to the size or the end of the document.
    pub fn chunk_fixed_size(
        &self,
        document_id: &str,
        content: &str,
        chunk_size: usize,
        overlap: usize,
    ) -> (r: Vec<DocumentChunk>)
        ensures
            chunk_views(r@) == numbered(
                document_id@,
                placed(content@, fixed_extracts(content@, chunk_size as int, overlap as int)),
            ),
            content@.len() > 0 && chunk_size > 0 ==> {
                let n = content@.len() as int;
                let step = step_of(chunk_size as int, overlap as int);
                &&& r@.len() == 1 + pieces_behind(n - chunk_size, step)
                &&& forall|i: int|
                    0 <= i < r@.len() ==> (#[trigger] r@[i])@.content == content@.subrange(
                        i * step,
                        if i * step + chunk_size < n {
                            i * step + chunk_size
                        } else {
                            n
                        },
                    )
            },
    {
        let chars = to_chars(content);
        let raw = Chunker::fixed(chars.as_slice(), chunk_size, overlap);
        let out = Chunker::number(document_id, content, raw);
        proof {
            let x = fixed_extracts(content@, chunk_size as int, overlap as int);
            lemma_chunk_texts(out@, document_id@, placed(content@, x));
            if content@.len() > 0 && chunk_size > 0 {
                law_fixed_chunks_cover(content@, chunk_size as int, overlap as int);
                assert forall|i: int| 0 <= i < out@.len() implies (#[trigger] out@[i])@.content
                    == x[i].text by {
                    assert(chunk_texts(out@)[i] == piece_texts(placed(content@, x))[i]);
                }
            }
        }
        out
    }

    fn breaks(rule: GroupRule, group: &String, part: &String) -> (r: bool)
        ensures
            r == rule.breaks(group@, part@),
    {
        proof {
            reveal_strlit(" ");
            reveal_strlit("\n\n");
        }
        let both: u128 = group.as_str().unicode_len() as u128 + part.as_str().unicode_len() as u128;
        match rule {
            GroupRule::Sentences(max) => (both + 1) / 4 > max as u128,
            GroupRule::Paragraphs(max) => both + 2 > max as u128,
            GroupRule::Sections => Chunker::opens_section(part.as_str()),
        }
    }

    fn opens_section(line: &str) -> (r: bool)
        ensures
            r == is_header(line@),
    {
        let c = to_chars(line);
        let s = c.as_slice();
        starts_with(s, "# ") || starts_with(s, "## ") || starts_with(s, "### ") || starts_with(
            s,
            "#### ",
        ) || starts_with(s, "---") || starts_with(s, "***") || starts_with(s, "===")
    }

    /// Gathers parts into groups.
    fn group(rule: GroupRule, chars: &[char], parts: &Vec<(usize, usize)>) -> (r: Vec<RawExtract>)
        requires
            ranges_within(range_views(parts@), chars@.len() as int),
        ensures
            raw_views(r@) == grouped(rule, chars@, range_views(parts@), no_group()),
            within(raw_views(r@), chars@.len() as int),
    {
        let ghost s = chars@;
        let ghost all = range_views(parts@);
        let ghost want = grouped(rule, s, all, no_group());
        let mut out: Vec<RawExtract> = Vec::new();
        let mut group = RawExtract { text: String::new(), from: 0, to: 0 };
        let mut i: usize = 0;
        proof {
            assert(all.skip(0) =~= all);
            assert(group.text@ =~= Seq::<char>::empty());
            assert(group@ == no_group());
            assert(raw_views(out@) + want =~= want);
        }
        while i < parts.len()
            invariant
                i <= parts@.len(),
                s == chars@,
                all == range_views(parts@),
                ranges_within(all, s.len() as int),
                group.from <= s.len(),
                group.to <= s.len(),
                within(raw_views(out@), s.len() as int),
                raw_views(out@) + grouped(rule, s, all.skip(i as int), group@) == want,
            decreases parts@.len() - i,
        {
            let (from, to) = parts[i];
            proof {
                assert(all[i as int] == (from as int, to as int));
                assert(all.skip(i as int)[0] == all[i as int]);
                assert(all.skip(i as int).skip(1) =~= all.skip(i + 1));
            }
            let text = from_chars(chars, from, to);
            let ghost part = part_at(s, all[i as int]);
            assert(text@ == part.text);
            if group.text.as_str().is_empty() {
                group = RawExtract { text, from, to };
            } else if Chunker::breaks(rule, &group.text, &text) {
                let ghost before = raw_views(out@);
                let ghost g = group@;
                out.push(group);
                group = RawExtract { text, from, to };
                proof {
                    assert(raw_views(out@) =~= before.push(g));
                    let more = grouped(rule, s, all.skip(i + 1), part);
                    assert(before + (seq![g] + more) =~= raw_views(out@) + more);
                }
            } else {
                let mut more = group.text;
                match rule {
                    GroupRule::Sentences(_) => push_str(&mut more, " "),
                    GroupRule::Paragraphs(_) => push_str(&mut more, "\n\n"),
                    GroupRule::Sections => push_str(&mut more, "\n"),
                }
                push_str(&mut more, text.as_str());
                group = RawExtract { text: more, from: group.from, to };
            }
            i = i + 1;
        }
        proof {
            assert(all.skip(i as int) =~= Seq::<(int, int)>::empty());
        }
        let ghost before = raw_views(out@);
        if !group.text.as_str().is_empty() {
            let ghost g = group@;
            out.push(group);
            assert(raw_views(out@) =~= before.push(g));
            assert(before + seq![g] =~= raw_views(out@));
        } else {
            assert(before + Seq::<Extract>::empty() =~= before);
        }
        out
    }

    fn trim_groups(groups: Vec<RawExtract>) -> (r: Vec<RawExtract>)
        ensures
            raw_views(r@) == trimmed_groups(raw_views(groups@)),
    {
        let mut out: Vec<RawExtract> = Vec::new();
        let mut i: usize = 0;
        while i < groups.len()
            invariant
                i <= groups@.len(),
                out@.len() == i,
                forall|j: int|
                    0 <= j < i ==> (#[trigger] out@[j])@ == trimmed_groups(raw_views(groups@))[j],
            decreases groups@.len() - i,
        {
            let g = &groups[i];
            out.push(RawExtract { text: trim(g.text.as_str()), from: g.from, to: g.to });
            i = i + 1;
        }
        assert(raw_views(out@) =~= trimmed_groups(raw_views(groups@)));
        out
    }

    /// Gathers the sentences of a document into chunks: joined by spaces, the chunks are the
    /// sentences joined by spaces. No chunk is empty.
    pub fn chunk_by_sentence(&self, document_id: &str, content: &str, max_tokens: usize) -> (r: Vec<
        DocumentChunk,
    >)
        ensures
            chunk_views(r@) == numbered(
                document_id@,
                placed(
                    content@,
                    trimmed_groups(
                        grouped(
                            GroupRule::Sentences(max_tokens),
                            content@,
                            sentence_ranges(content@, 0),
                            no_group(),
                        ),
                    ),
                ),
            ),
            joined(chunk_texts(r@), " "@) == joined(
                part_texts(content@, sentence_ranges(content@, 0)),
                " "@,
            ),
            forall|i: int| 0 <= i < r@.len() ==> (#[trigger] r@[i])@.content.len() > 0,
            r@.len() == 0 <==> sentence_ranges(content@, 0).len() == 0,
    {
        let chars = to_chars(content);
        let parts = Chunker::sentence_places(chars.as_slice());
        let rule = GroupRule::Sentences(max_tokens);
        let groups = Chunker::group(rule, chars.as_slice(), &parts);
        let raw = Chunker::trim_groups(groups);
        let out = Chunker::number(document_id, content, raw);
        proof {
            let strategy = ChunkStrategy::Sentence { max_tokens };
            lemma_chunk_texts(out@, document_id@, pieces(strategy, content@));
            law_chunks_join_to_the_parts(strategy, content@);
            assert forall|i: int| 0 <= i < out@.len() implies (#[trigger] out@[i])@.content.len()
                > 0 by {
                law_no_empty_chunks(strategy, content@, i);
                assert(chunk_texts(out@)[i] == piece_texts(pieces(strategy, content@))[i]);
            }
        }
        out
    }

    /// Gathers the paragraphs of a document into chunks: joined by empty lines, the chunks are
    /// the paragraphs joined by empty lines. No chunk is empty.
    pub fn chunk_by_paragraph(&self, document_id: &str, content: &str, max_size: usize) -> (r: Vec<
        DocumentChunk,
    >)
        ensures
            chunk_views(r@) == numbered(
                document_id@,
                placed(
                    content@,
                    trimmed_groups(
                        grouped(
                            GroupRule::Paragraphs(max_size),
                            content@,
                            paragraph_ranges(content@, 0),
                            no_group(),
                        ),
                    ),
                ),
            ),
            joined(chunk_texts(r@), "\n\n"@) == joined(
                part_texts(content@, paragraph_ranges(content@, 0)),
                "\n\n"@,
            ),
            forall|i: int| 0 <= i < r@.len() ==> (#[trigger] r@[i])@.content.len() > 0,
            r@.len() == 0 <==> paragraph_ranges(content@, 0).len() == 0,
    {
        let chars = to_chars(content);
        let parts = Chunker::paragraph_places(chars.as_slice());
        let rule = GroupRule::Paragraphs(max_size);
        let groups = Chunker::group(rule, chars.as_slice(), &parts);
        let raw = Chunker::trim_groups(groups);
        let out = Chunker::number(document_id, content, raw);
        proof {
            let strategy = ChunkStrategy::Paragraph { max_size };
            lemma_chunk_texts(out@, document_id@, pieces(strategy, content@));
            law_chunks_join_to_the_parts(strategy, content@);
            assert forall|i: int| 0 <= i < out@.len() implies (#[trigger] out@[i])@.content.len()
                > 0 by {
                law_no_empty_chunks(strategy, content@, i);
                assert(chunk_texts(out@)[i] == piece_texts(pieces(strategy, content@))[i]);
            }
        }
        out
    }

    /// The position some characters behind another.
    fn walk(chars: &[char], at: usize, n: usize) -> (r: usize)
        requires
            at <= chars@.len(),
        ensures
            r == walked(chars@, at as int, n as int),
            r <= chars@.len(),
    {
        let mut p: usize = at;
        let mut left: usize = n;
        while left > 0 && p < chars.len()
            invariant
                p <= chars@.len(),
                walked(chars@, p as int, left as int) == walked(chars@, at as int, n as int),
            decreases left,
        {
            if chars[p] == '\r' && p + 1 < chars.len() && chars[p + 1] == '\n' {
                p = p + 2;
            } else {
                p = p + 1;
            }
            left = left - 1;
        }
        p
    }

    fn cut_section(chars: &[char], section: &RawExtract, max_size: usize) -> (r: Vec<RawExtract>)
        requires
            section@.from <= chars@.len(),
            section@.to <= chars@.len(),
        ensures
            raw_views(r@) == section_extracts(chars@, section@, max_size as int),
            within(raw_views(r@), chars@.len() as int),
    {
        let ghost want = section_extracts(chars@, section@, max_size as int);
        let mut out: Vec<RawExtract> = Vec::new();
        if section.text.as_str().unicode_len() <= max_size {
            out.push(
                RawExtract {
                    text: trim(section.text.as_str()),
                    from: section.from,
                    to: section.to,
                },
            );
            assert(raw_views(out@) =~= want);
            return out;
        }
        let text = to_chars(section.text.as_str());
        let cut = Chunker::fixed(text.as_slice(), max_size, 50);
        let ghost all = cut@;
        for x in it: cut.into_iter()
            invariant
                it.seq() == all,
                section.from <= chars@.len(),
                want == raw_views(all).map_values(
                    |x: Extract|
                        Extract {
                            text: x.text,
                            from: walked(chars@, section@.from, x.from),
                            to: walked(chars@, section@.from, x.to),
                        },
                ),
                out@.len() == it.index(),
                within(raw_views(out@), chars@.len() as int),
                forall|i: int| 0 <= i < out@.len() ==> (#[trigger] out@[i])@ == want[i],
        {
            assert(raw_views(all)[it.index()] == x@);
            let from: usize = Chunker::walk(chars, section.from, x.from);
            let to: usize = Chunker::walk(chars, section.from, x.to);
            let ghost before = raw_views(out@);
            let y = RawExtract { text: x.text, from, to };
            let ghost view = y@;
            out.push(y);
            assert(raw_views(out@) =~= before.push(view));
        }
        assert(raw_views(out@) =~= want);
        out
    }

    /// Cuts a document into its sections.
    pub fn chunk_semantic(&self, document_id: &str, content: &str, max_size: usize) -> (r: Vec<
        DocumentChunk,
    >)
        ensures
            chunk_views(r@) == numbered(
                document_id@,
                placed(
                    content@,
                    sections_extracts(
                        content@,
                        grouped(
                            GroupRule::Sections,
                            content@,
                            line_ranges(content@, 0),
                            no_group(),
                        ),
                        max_size as int,
                    ),
                ),
            ),
    {
        let chars = to_chars(content);
        let parts = Chunker::line_places(chars.as_slice());
        let sections = Chunker::group(GroupRule::Sections, chars.as_slice(), &parts);
        let ghost all = raw_views(sections@);
        let mut raw: Vec<RawExtract> = Vec::new();
        let mut i: usize = 0;
        proof {
            assert(all.take(0) =~= Seq::<Extract>::empty());
            assert(raw_views(raw@) =~= Seq::<Extract>::empty());
        }
        while i < sections.len()
            invariant
                i <= sections@.len(),
                chars@ == content@,
                all == raw_views(sections@),
                within(all, content@.len() as int),
                within(raw_views(raw@), content@.len() as int),
                raw_views(raw@) == sections_extracts(
                    content@,
                    all.take(i as int),
                    max_size as int,
                ),
            decreases sections@.len() - i,
        {
            let ghost before = raw_views(raw@);
            assert(all[i as int] == sections@[i as int]@);
            let mut more = Chunker::cut_section(chars.as_slice(), &sections[i], max_size);
            let ghost added = raw_views(more@);
            raw.append(&mut more);
            proof {
                assert(raw_views(raw@) =~= before + added);
                assert(all.take(i + 1).drop_last() =~= all.take(i as int));
                assert(all.take(i + 1).last() == all[i as int]);
            }
            i = i + 1;
        }
        assert(all.take(i as int) =~= all);
        Chunker::number(document_id, content, raw)
    }

    /// Splits a text into sentences.
    pub fn split_sentences(text: &str) -> (r: Vec<String>)
        ensures
            texts(r@) == part_texts(text@, sentence_ranges(text@, 0)),
    {
        let v = to_chars(text);
        let places = Chunker::sentence_places(v.as_slice());
        let ghost all = range_views(places@);
        let mut out: Vec<String> = Vec::new();
        let mut i: usize = 0;
        while i < places.len()
            invariant
                i <= places@.len(),
                v@ == text@,
                all == range_views(places@),
                ranges_within(all, v@.len() as int),
                out@.len() == i,
                forall|j: int| 0 <= j < i ==> (#[trigger] out@[j])@ == part_texts(text@, all)[j],
            decreases places@.len() - i,
        {
            let (from, to) = places[i];
            assert(all[i as int] == (from as int, to as int));
            out.push(from_chars(v.as_slice(), from, to));
            i = i + 1;
        }
        assert(texts(out@) =~= part_texts(text@, all));
        out
    }

    fn skip_white(v: &[char], from: usize) -> (r: usize)
        requires
            from <= v@.len(),
        ensures
            r == white_end(v@, from as int),
            from <= r <= v@.len(),
    {
        let mut a: usize = from;
        while a < v.len() && is_whitespace(v[a])
            invariant
                from <= a <= v@.len(),
                white_end(v@, a as int) == white_end(v@, from as int),
            decreases v@.len() - a,
        {
            a = a + 1;
        }
        a
    }

    fn skip_white_back(v: &[char], to: usize) -> (r: usize)
        requires
            to <= v@.len(),
        ensures
            r == white_start(v@, to as int),
            r <= to,
    {
        let mut b: usize = to;
        while b > 0 && is_whitespace(v[b - 1])
            invariant
                b <= to <= v@.len(),
                white_start(v@, b as int) == white_start(v@, to as int),
            decreases b,
        {
            b = b - 1;
        }
        b
    }

    /// Adds what stands at a place, without white space around it, unless it is blank.
    fn keep(out: &mut Vec<(usize, usize)>, v: &[char], from: usize, to: usize)
        requires
            from <= to <= v@.len(),
            ranges_within(range_views(old(out)@), v@.len() as int),
        ensures
            range_views(final(out)@) == range_views(old(out)@) + kept_range(
                v@,
                from as int,
                to as int,
            ),
            ranges_within(range_views(final(out)@), v@.len() as int),
    {
        let ghost before = range_views(out@);
        proof {
            lemma_kept_range(v@, from as int, to as int);
        }
        let a: usize = Chunker::skip_white(v, from);
        if a < to {
            let b: usize = Chunker::skip_white_back(v, to);
            out.push((a, b));
            assert(range_views(out@) =~= before.push((a as int, b as int)));
            assert(range_views(out@) =~= before + kept_range(v@, from as int, to as int));
        } else {
            assert(range_views(out@) =~= before + kept_range(v@, from as int, to as int));
        }
    }

    fn sentence_places(v: &[char]) -> (r: Vec<(usize, usize)>)
        ensures
            range_views(r@) == sentence_ranges(v@, 0),
            ranges_within(range_views(r@), v@.len() as int),
    {
        let ghost s = v@;
        let len: usize = v.len();
        let mut out: Vec<(usize, usize)> = Vec::new();
        let mut start: usize = 0;
        let ghost want = sentence_ranges(s, 0);
        proof {
            assert(range_views(out@) + want =~= want);
        }
        while start < len
            invariant
                v@ == s,
                len == s.len(),
                start <= len,
                ranges_within(range_views(out@), len as int),
                range_views(out@) + sentence_ranges(s, start as int) == want,
            decreases len - start,
        {
            let mut k: usize = start;
            while k < len && !Chunker::is_stop(v, k)
                invariant
                    v@ == s,
                    len == s.len(),
                    start <= k <= len,
                    next_stop(s, k as int) == next_stop(s, start as int),
                decreases len - k,
            {
                k = k + 1;
            }
            assert(next_stop(s, start as int) == k);
            let ghost before = range_views(out@);
            if k < len {
                proof {
                    assert(!is_white(s.subrange(start as int, k + 1)[k - start]));
                }
                Chunker::keep(&mut out, v, start, k + 1);
                let next: usize = Chunker::skip_white(v, k + 1);
                proof {
                    let more = sentence_ranges(s, next as int);
                    let one = seq![trimmed_range(s, start as int, k + 1)];
                    assert(before + (one + more) =~= range_views(out@) + more);
                }
                start = next;
            } else {
                Chunker::keep(&mut out, v, start, len);
                start = len;
                assert(range_views(out@) + sentence_ranges(s, start as int) =~= range_views(out@));
            }
        }
        assert(range_views(out@) + sentence_ranges(s, start as int) =~= range_views(out@));
        out
    }

    fn is_stop(v: &[char], i: usize) -> (r: bool)
        requires
            i < v@.len(),
        ensures
            r == stops_at(v@, i as int),
    {
        (v[i] == '.' || v[i] == '!' || v[i] == '?') && (i + 1 == v.len() || is_whitespace(v[i + 1]))
    }

    fn line_places(v: &[char]) -> (r: Vec<(usize, usize)>)
        ensures
            range_views(r@) == line_ranges(v@, 0),
            ranges_within(range_views(r@), v@.len() as int),
    {
        let ghost s = v@;
        let len: usize = v.len();
        let mut out: Vec<(usize, usize)> = Vec::new();
        let mut start: usize = 0;
        let ghost want = line_ranges(s, 0);
        proof {
            assert(range_views(out@) + want =~= want);
        }
        while start < len
            invariant
                v@ == s,
                len == s.len(),
                start <= len,
                ranges_within(range_views(out@), len as int),
                range_views(out@) + line_ranges(s, start as int) == want,
            decreases len - start,
        {
            let mut k: usize = start;
            while k < len && v[k] != '\n'
                invariant
                    v@ == s,
                    len == s.len(),
                    start <= k <= len,
                    next_newline(s, k as int) == next_newline(s, start as int),
                decreases len - k,
            {
                k = k + 1;
            }
            assert(next_newline(s, start as int) == k);
            let end: usize = if k < len && k > start && v[k - 1] == '\r' {
                k - 1
            } else {
                k
            };
            let ghost before = range_views(out@);
            let ghost t = (start as int, end as int);
            out.push((start, end));
            proof {
                assert(range_views(out@) =~= before.push(t));
                if k < len {
                    let more = line_ranges(s, k + 1);
                    assert(before + (seq![t] + more) =~= range_views(out@) + more);
                } else {
                    assert(before + seq![t] =~= range_views(out@));
                    assert(range_views(out@) + line_ranges(s, len as int) =~= range_views(out@));
                }
            }
            start = if k < len {
                k + 1
            } else {
                len
            };
        }
        assert(range_views(out@) + line_ranges(s, start as int) =~= range_views(out@));
        out
    }

    fn paragraph_places(v: &[char]) -> (r: Vec<(usize, usize)>)
        ensures
            range_views(r@) == paragraph_ranges(v@, 0),
            ranges_within(range_views(r@), v@.len() as int),
    {
        let ghost s = v@;
        let len: usize = v.len();
        let mut out: Vec<(usize, usize)> = Vec::new();
        let mut start: usize = 0;
        let mut open: bool = true;
        let ghost want = paragraph_ranges(s, 0);
        proof {
            assert(range_views(out@) + want =~= want);
        }
        while open
            invariant
                v@ == s,
                len == s.len(),
                start <= len,
                ranges_within(range_views(out@), len as int),
                open ==> range_views(out@) + paragraph_ranges(s, start as int) == want,
                !open ==> range_views(out@) == want,
            decreases len - start, open as int,
        {
            let mut k: usize = start;
            while k < len && !(v[k] == '\n' && k + 1 < len && v[k + 1] == '\n')
                invariant
                    v@ == s,
                    len == s.len(),
                    start <= k <= len,
                    next_gap(s, k as int) == next_gap(s, start as int),
                decreases len - k,
            {
                k = k + 1;
            }
            assert(next_gap(s, start as int) == k);
            let ghost before = range_views(out@);
            Chunker::keep(&mut out, v, start, k);
            if k < len {
                proof {
                    let more = paragraph_ranges(s, k + 2);
                    let one = kept_range(s, start as int, k as int);
                    assert(before + (one + more) =~= range_views(out@) + more);
                }
                start = k + 2;
            } else {
                open = false;
            }
        }
        out
    }

    /// Estimated number of tokens: a quarter of the characters.
    pub fn estimate_tokens(text: &str) -> (r: usize)
        ensures
            r == text@.len() as int / 4,
    {
        text.unicode_len() / 4
    }

    /// The text around a chunk: `context` bytes more on either side, within the document.
    /// Both ends must fall between characters.
    pub fn get_context_window(&self, content: &str, chunk: &DocumentChunk, context: usize) -> (r:
        String)
        requires
            chunk.end_offset + context <= usize::MAX,
            window_start(chunk@, context as int) <= window_end(content@, chunk@, context as int),
            is_char_boundary(encode_utf8(content@), window_start(chunk@, context as int)),
            is_char_boundary(encode_utf8(content@), window_end(content@, chunk@, context as int)),
        ensures
            encode_utf8(r@) == encode_utf8(content@).subrange(
                window_start(chunk@, context as int),
                window_end(content@, chunk@, context as int),
            ),
    {
        let start: usize = chunk.start_offset.saturating_sub(context);
        let len: usize = byte_len(content);
        let end: usize = if chunk.end_offset + context < len {
            chunk.end_offset + context
        } else {
            len
        };
        let ghost b = encode_utf8(content@);
        let (upto, _) = content.split_at(end);
        proof {
            vstd::utf8::encode_utf8_valid_utf8(content@);
            vstd::utf8::encode_utf8_valid_utf8(upto@);
            if start < end {
                vstd::utf8::is_char_boundary_iff_not_is_continuation_byte(b, start as int);
                vstd::utf8::is_char_boundary_iff_not_is_continuation_byte(
                    encode_utf8(upto@),
                    start as int,
                );
            }
            vstd::utf8::is_char_boundary_start_end_of_seq(encode_utf8(upto@));
        }
        let (_, window) = upto.split_at(start);
        assert(encode_utf8(window@) =~= b.subrange(start as int, end as int));
        copy_str(window)
    }
}

/// Start of the window around a chunk.
pub open spec fn window_start(chunk: ChunkView, context: int) -> int {
    if chunk.start_offset > context {
        chunk.start_offset - context
    } else {
        0
    }
}

/// End of the window around a chunk.
pub open spec fn window_end(content: Seq<char>, chunk: ChunkView, context: int) -> int {
    if chunk.end_offset + context < bytes(content) {
        chunk.end_offset + context
    } else {
        bytes(content) as int
    }
}

/// The characters of `s` that are no white space.
pub open spec fn ink(s: Seq<char>) -> Seq<char> {
    s.filter(|c: char| !is_white(c))
}

/// The ink of some texts, one after the other.
pub open spec fn ink_of_all(parts: Seq<Seq<char>>) -> Seq<char>
    decreases parts.len(),
{
    if parts.len() == 0 {
        Seq::empty()
    } else {
        ink(parts[0]) + ink_of_all(parts.skip(1))
    }
}

proof fn lemma_ink_concat(a: Seq<char>, b: Seq<char>)
    ensures
        ink(a + b) == ink(a) + ink(b),
    decreases b.len(),
{
    reveal(Seq::filter);
    if b.len() == 0 {
        assert(a + b =~= a);
        assert(ink(a) + ink(b) =~= ink(a));
    } else {
        lemma_ink_concat(a, b.drop_last());
        assert((a + b).drop_last() =~= a + b.drop_last());
        assert(ink(a + b) =~= ink(a) + ink(b));
    }
}

proof fn lemma_ink_blank(s: Seq<char>)
    requires
        blank(s),
    ensures
        ink(s) == Seq::<char>::empty(),
    decreases s.len(),
{
    reveal(Seq::filter);
    if s.len() > 0 {
        assert(is_white(s[s.len() - 1]));
        assert(blank(s.drop_last())) by {
            assert forall|i: int| 0 <= i < s.drop_last().len() implies is_white(
                #[trigger] s.drop_last()[i],
            ) by {
                assert(is_white(s[i]));
            }
        }
        lemma_ink_blank(s.drop_last());
    }
}

proof fn lemma_ink_trimmed(s: Seq<char>)
    ensures
        ink(trimmed(s)) == ink(s),
{
    lemma_white_end(s, 0);
    lemma_white_start(s, s.len() as int);
    let a = white_end(s, 0);
    let b = white_start(s, s.len() as int);
    if a <= b {
        let head = s.take(a);
        let mid = s.subrange(a, b);
        let tail = s.skip(b);
        assert(blank(head)) by {
            assert forall|i: int| 0 <= i < head.len() implies is_white(#[trigger] head[i]) by {
                assert(is_white(s[i]));
            }
        }
        assert(blank(tail)) by {
            assert forall|i: int| 0 <= i < tail.len() implies is_white(#[trigger] tail[i]) by {
                assert(is_white(s[b + i]));
            }
        }
        lemma_ink_blank(head);
        lemma_ink_blank(tail);
        lemma_ink_concat(head, mid);
        lemma_ink_concat(head + mid, tail);
        assert(head + mid + tail =~= s);
        assert(Seq::<char>::empty() + ink(mid) =~= ink(mid));
        assert(ink(mid) + Seq::<char>::empty() =~= ink(mid));
    } else {
        assert(blank(s)) by {
            assert forall|i: int| 0 <= i < s.len() implies is_white(#[trigger] s[i]) by {}
        }
        lemma_ink_blank(s);
        lemma_ink_blank(Seq::empty());
    }
}

proof fn lemma_ink_of_all_front(p: Seq<char>, rest: Seq<Seq<char>>)
    ensures
        ink_of_all(seq![p] + rest) == ink(p) + ink_of_all(rest),
{
    assert((seq![p] + rest).skip(1) =~= rest);
}

/// What stands before, between and behind some places is white space, and they lie one behind
/// the other from `from` on.
pub open spec fn spread_out(s: Seq<char>, parts: Seq<(int, int)>, from: int) -> bool
    decreases parts.len(),
{
    if parts.len() == 0 {
        0 <= from <= s.len() && blank(s.skip(from))
    } else {
        &&& 0 <= from <= parts[0].0 <= parts[0].1 <= s.len()
        &&& blank(s.subrange(from, parts[0].0))
        &&& spread_out(s, parts.skip(1), parts[0].1)
    }
}

proof fn lemma_spread_front(
    s: Seq<char>,
    from: int,
    p: (int, int),
    next: int,
    rest: Seq<(int, int)>,
)
    requires
        0 <= from <= p.0 <= p.1 <= next <= s.len(),
        blank(s.subrange(from, p.0)),
        blank(s.subrange(p.1, next)),
        spread_out(s, rest, next),
    ensures
        spread_out(s, seq![p] + rest, from),
{
    assert((seq![p] + rest).skip(1) =~= rest);
    lemma_spread_earlier(s, p.1, next, rest);
}

proof fn lemma_spread_earlier(s: Seq<char>, from: int, next: int, rest: Seq<(int, int)>)
    requires
        0 <= from <= next <= s.len(),
        blank(s.subrange(from, next)),
        spread_out(s, rest, next),
    ensures
        spread_out(s, rest, from),
{
    let gap = s.subrange(from, next);
    let end = if rest.len() == 0 {
        s.len() as int
    } else {
        rest[0].0
    };
    let more = s.subrange(next, end);
    let all = s.subrange(from, end);
    assert(s.skip(next) =~= s.subrange(next, s.len() as int));
    assert(s.skip(from) =~= s.subrange(from, s.len() as int));
    assert(all =~= gap + more);
    assert(blank(all)) by {
        assert forall|i: int| 0 <= i < all.len() implies is_white(#[trigger] all[i]) by {
            if i < gap.len() {
                assert(all[i] == gap[i]);
            } else {
                assert(all[i] == more[i - gap.len()]);
            }
        }
    }
}

proof fn lemma_spread(s: Seq<char>, parts: Seq<(int, int)>, from: int)
    requires
        spread_out(s, parts, from),
    ensures
        0 <= from <= s.len(),
        ranges_within(parts, s.len() as int),
        forall|i: int| 0 <= i < parts.len() ==> from <= (#[trigger] parts[i]).0,
        forall|i: int, j: int|
            0 <= i < j < parts.len() ==> (#[trigger] parts[i]).1 <= (#[trigger] parts[j]).0,
        forall|i: int, k: int|
            0 <= i < parts.len() - 1 && (#[trigger] parts[i]).1 <= k < parts[i + 1].0 ==> is_white(
                #[trigger] s[k],
            ),
        parts.len() > 0 ==> blank(s.skip(parts.last().1)),
        ink_of_all(part_texts(s, parts)) == ink(s.skip(from)),
    decreases parts.len(),
{
    if parts.len() == 0 {
        lemma_ink_blank(s.skip(from));
        assert(part_texts(s, parts) =~= Seq::<Seq<char>>::empty());
    } else {
        let p = parts[0];
        let rest = parts.skip(1);
        lemma_spread(s, rest, p.1);
        assert(spread_out(s, rest, p.1));
        assert forall|i: int| 0 <= i < parts.len() implies 0 <= (#[trigger] parts[i]).0
            <= parts[i].1 <= s.len() && from <= parts[i].0 by {
            if i > 0 {
                assert(rest[i - 1] == parts[i]);
            }
        }
        assert forall|i: int, j: int| 0 <= i < j < parts.len() implies (#[trigger] parts[i]).1 <= (
        #[trigger] parts[j]).0 by {
            assert(rest[j - 1] == parts[j]);
            if i > 0 {
                assert(rest[i - 1] == parts[i]);
            }
        }
        assert forall|i: int, k: int|
            0 <= i < parts.len() - 1 && (#[trigger] parts[i]).1 <= k < parts[i + 1].0 implies is_white(
            #[trigger] s[k],
        ) by {
            assert(rest[i] == parts[i + 1]);
            if i > 0 {
                assert(rest[i - 1] == parts[i]);
            } else {
                let gap = s.subrange(p.1, rest[0].0);
                assert(spread_out(s, rest, p.1));
                assert(blank(gap));
                assert(gap[k - p.1] == s[k]);
            }
        }
        assert(parts.last() == if rest.len() > 0 {
            rest.last()
        } else {
            p
        });
        let gap = s.subrange(from, p.0);
        let text = s.subrange(p.0, p.1);
        lemma_ink_blank(gap);
        lemma_ink_concat(gap, text);
        lemma_ink_concat(gap + text, s.skip(p.1));
        assert(gap + text + s.skip(p.1) =~= s.skip(from));
        assert(Seq::<char>::empty() + ink(text) =~= ink(text));
        assert(part_texts(s, parts) =~= seq![text] + part_texts(s, rest));
        lemma_ink_of_all_front(text, part_texts(s, rest));
    }
}

/// Whether a part begins and ends with no white space.
pub open spec fn tight(s: Seq<char>, p: (int, int)) -> bool {
    0 <= p.0 < p.1 <= s.len() && !is_white(s[p.0]) && !is_white(s[p.1 - 1])
}

/// Whether all parts begin and end with no white space.
pub open spec fn all_tight(s: Seq<char>, parts: Seq<(int, int)>) -> bool {
    forall|i: int| 0 <= i < parts.len() ==> tight(s, #[trigger] parts[i])
}

proof fn lemma_kept_range_spread(s: Seq<char>, a: int, b: int, next: int, rest: Seq<(int, int)>)
    requires
        0 <= a <= b <= next <= s.len(),
        blank(s.subrange(b, next)),
        spread_out(s, rest, next),
        all_tight(s, rest),
    ensures
        spread_out(s, kept_range(s, a, b) + rest, a),
        all_tight(s, kept_range(s, a, b) + rest),
{
    lemma_kept_range(s, a, b);
    lemma_white_end(s, a);
    lemma_white_start(s, b);
    let one = kept_range(s, a, b);
    let all = one + rest;
    if blank(s.subrange(a, b)) {
        assert(all =~= rest);
        let both = s.subrange(a, next);
        assert(both =~= s.subrange(a, b) + s.subrange(b, next));
        assert(blank(both)) by {
            assert forall|i: int| 0 <= i < both.len() implies is_white(#[trigger] both[i]) by {
                if i < b - a {
                    assert(both[i] == s.subrange(a, b)[i]);
                } else {
                    assert(both[i] == s.subrange(b, next)[i - (b - a)]);
                }
            }
        }
        lemma_spread_earlier(s, a, next, rest);
    } else {
        let p = trimmed_range(s, a, b);
        let gap = s.subrange(p.1, next);
        assert(blank(gap)) by {
            assert forall|i: int| 0 <= i < gap.len() implies is_white(#[trigger] gap[i]) by {
                if p.1 + i < b {
                    assert(is_white(s[p.1 + i]));
                } else {
                    assert(gap[i] == s.subrange(b, next)[p.1 + i - b]);
                }
            }
        }
        assert(blank(s.subrange(a, p.0))) by {
            assert forall|i: int| 0 <= i < p.0 - a implies is_white(
                #[trigger] s.subrange(a, p.0)[i],
            ) by {
                assert(is_white(s[a + i]));
            }
        }
        lemma_spread_front(s, a, p, next, rest);
        assert forall|i: int| 0 <= i < all.len() implies tight(s, #[trigger] all[i]) by {
            if i > 0 {
                assert(all[i] == rest[i - 1]);
            }
        }
    }
}

/// Whether no sentence ends inside a part.
pub open spec fn no_stop_inside(s: Seq<char>, p: (int, int)) -> bool {
    forall|k: int| p.0 <= k < p.1 - 1 ==> !#[trigger] stops_at(s, k)
}

proof fn lemma_sentences(s: Seq<char>, start: int)
    requires
        0 <= start <= s.len(),
    ensures
        spread_out(s, sentence_ranges(s, start), start),
        all_tight(s, sentence_ranges(s, start)),
        forall|i: int|
            0 <= i < sentence_ranges(s, start).len() ==> no_stop_inside(
                s,
                #[trigger] sentence_ranges(s, start)[i],
            ),
        forall|i: int|
            0 <= i < sentence_ranges(s, start).len() - 1 ==> stops_at(
                s,
                (#[trigger] sentence_ranges(s, start)[i]).1 - 1,
            ),
    decreases s.len() - start,
{
    let parts = sentence_ranges(s, start);
    if start < s.len() {
        let k = next_stop(s, start);
        lemma_next_stop(s, start);
        if k < s.len() {
            let next = white_end(s, k + 1);
            lemma_white_end(s, k + 1);
            lemma_sentences(s, next);
            let more = sentence_ranges(s, next);
            assert(blank(s.subrange(k + 1, next))) by {
                assert forall|i: int| 0 <= i < next - (k + 1) implies is_white(
                    #[trigger] s.subrange(k + 1, next)[i],
                ) by {
                    assert(is_white(s[k + 1 + i]));
                }
            }
            assert(!is_white(s.subrange(start, k + 1)[k - start]));
            lemma_kept_range_spread(s, start, k + 1, next, more);
            lemma_kept_range(s, start, k + 1);
            assert(parts =~= kept_range(s, start, k + 1) + more);
            assert(white_start(s, k + 1) == k + 1);
            assert forall|i: int| 0 <= i < parts.len() implies no_stop_inside(
                s,
                #[trigger] parts[i],
            ) by {
                if i > 0 {
                    assert(parts[i] == more[i - 1]);
                }
            }
            assert forall|i: int| 0 <= i < parts.len() - 1 implies stops_at(
                s,
                (#[trigger] parts[i]).1 - 1,
            ) by {
                if i > 0 {
                    assert(parts[i] == more[i - 1]);
                }
            }
        } else {
            let none = Seq::<(int, int)>::empty();
            let end = s.len() as int;
            lemma_kept_range_spread(s, start, end, end, none);
            lemma_kept_range(s, start, end);
            assert(parts =~= kept_range(s, start, end) + none);
        }
    }
}

proof fn lemma_paragraphs(s: Seq<char>, start: int)
    requires
        0 <= start <= s.len(),
    ensures
        spread_out(s, paragraph_ranges(s, start), start),
        all_tight(s, paragraph_ranges(s, start)),
    decreases s.len() - start,
{
    let k = next_gap(s, start);
    lemma_next_gap(s, start);
    if k < s.len() {
        lemma_paragraphs(s, k + 2);
        assert(blank(s.subrange(k, k + 2)));
        lemma_kept_range_spread(s, start, k, k + 2, paragraph_ranges(s, k + 2));
    } else {
        let none = Seq::<(int, int)>::empty();
        let end = s.len() as int;
        lemma_kept_range_spread(s, start, end, end, none);
        assert(paragraph_ranges(s, start) =~= kept_range(s, start, end) + none);
    }
}

/// Sentences are pieces of the text, in its order, and nothing but white space is lost between
/// them. Each begins and ends with no white space, no sentence ends inside one, and each but
/// perhaps the last ends with a stop.
pub proof fn law_sentences(s: Seq<char>)
    ensures
        ({
            let p = sentence_ranges(s, 0);
            &&& forall|i: int|
                0 <= i < p.len() ==> tight(s, #[trigger] p[i]) && no_stop_inside(s, p[i])
            &&& forall|i: int| 0 <= i < p.len() - 1 ==> stops_at(s, (#[trigger] p[i]).1 - 1)
            &&& forall|i: int, j: int|
                0 <= i < j < p.len() ==> (#[trigger] p[i]).1 <= (#[trigger] p[j]).0
            &&& forall|i: int, k: int|
                0 <= i < p.len() - 1 && (#[trigger] p[i]).1 <= k < p[i + 1].0 ==> is_white(
                    #[trigger] s[k],
                )
            &&& p.len() > 0 ==> blank(s.take(p[0].0)) && blank(s.skip(p.last().1))
            &&& p.len() == 0 ==> blank(s)
            &&& ink_of_all(part_texts(s, p)) == ink(s)
            &&& forall|i: int, k: int|
                0 <= i < p.len() && (#[trigger] p[i]).0 <= k < p[i].1 - 1 && (#[trigger] s[k] == '.'
                    || s[k] == '!' || s[k] == '?') ==> !is_white(s[k + 1])
            &&& forall|i: int|
                0 <= i < p.len() - 1 ==> ({
                    let c = s[(#[trigger] p[i]).1 - 1];
                    c == '.' || c == '!' || c == '?'
                })
        }),
{
    lemma_sentences(s, 0);
    lemma_spread(s, sentence_ranges(s, 0), 0);
    assert(s.skip(0) =~= s);
    let p = sentence_ranges(s, 0);
    if p.len() > 0 {
        assert(s.take(p[0].0) =~= s.subrange(0, p[0].0));
    }
    assert forall|i: int, k: int|
        0 <= i < p.len() && (#[trigger] p[i]).0 <= k < p[i].1 - 1 && (#[trigger] s[k] == '.' || s[k]
            == '!' || s[k] == '?') implies !is_white(s[k + 1]) by {
        assert(tight(s, p[i]) && no_stop_inside(s, p[i]));
        assert(!stops_at(s, k));
    }
    assert forall|i: int| 0 <= i < p.len() - 1 implies ({
        let c = s[(#[trigger] p[i]).1 - 1];
        c == '.' || c == '!' || c == '?'
    }) by {
        assert(stops_at(s, p[i].1 - 1));
    }
}

/// The texts of some extracts.
pub open spec fn extract_texts(extracts: Seq<Extract>) -> Seq<Seq<char>> {
    extracts.map_values(|x: Extract| x.text)
}

/// The texts of some pieces.
pub open spec fn piece_texts(pieces: Seq<Piece>) -> Seq<Seq<char>> {
    pieces.map_values(|p: Piece| p.content)
}

proof fn lemma_joint_blank(rule: GroupRule)
    ensures
        blank(rule.joint()),
{
    reveal_strlit(" ");
    reveal_strlit("\n\n");
    reveal_strlit("\n");
}

/// Whether a group lies in the text, and holds the ink that stands at its place.
pub open spec fn in_place(s: Seq<char>, g: Extract) -> bool {
    0 <= g.from <= g.to <= s.len() && ink(g.text) == ink(s.subrange(g.from, g.to))
}

proof fn lemma_grouped(
    rule: GroupRule,
    s: Seq<char>,
    parts: Seq<(int, int)>,
    group: Extract,
    from: int,
)
    requires
        spread_out(s, parts, from),
        group.text.len() > 0 ==> in_place(s, group) && group.to == from,
    ensures
        ({
            let g = grouped(rule, s, parts, group);
            let first = if group.text.len() > 0 {
                group.from
            } else {
                from
            };
            &&& forall|i: int| 0 <= i < g.len() ==> in_place(s, #[trigger] g[i])
            &&& forall|i: int| 0 <= i < g.len() ==> first <= (#[trigger] g[i]).from
            &&& forall|i: int, j: int|
                0 <= i < j < g.len() ==> (#[trigger] g[i]).to <= (#[trigger] g[j]).from
            &&& ink_of_all(extract_texts(g)) == ink(group.text) + ink_of_all(
                part_texts(s, parts),
            )
        }),
    decreases parts.len(),
{
    let out = grouped(rule, s, parts, group);
    if group.text.len() == 0 {
        lemma_ink_blank(group.text);
    }
    if parts.len() == 0 {
        assert(part_texts(s, parts) =~= Seq::<Seq<char>>::empty());
        if group.text.len() == 0 {
            assert(extract_texts(out) =~= Seq::<Seq<char>>::empty());
        } else {
            lemma_ink_of_all_front(group.text, Seq::empty());
            assert(extract_texts(out) =~= seq![group.text] + Seq::<Seq<char>>::empty());
        }
    } else {
        let p = part_at(s, parts[0]);
        let rest = parts.skip(1);
        assert(part_texts(s, parts) =~= seq![p.text] + part_texts(s, rest));
        lemma_ink_of_all_front(p.text, part_texts(s, rest));
        lemma_spread(s, parts, from);
        if group.text.len() == 0 {
            lemma_grouped(rule, s, rest, p, p.to);
            assert(Seq::<char>::empty() + ink_of_all(part_texts(s, parts)) =~= ink_of_all(
                part_texts(s, parts),
            ));
        } else if rule.breaks(group.text, p.text) {
            let more = grouped(rule, s, rest, p);
            lemma_grouped(rule, s, rest, p, p.to);
            assert(out =~= seq![group] + more);
            assert(extract_texts(out) =~= seq![group.text] + extract_texts(more));
            lemma_ink_of_all_front(group.text, extract_texts(more));
            assert forall|i: int| 0 <= i < out.len() implies in_place(s, #[trigger] out[i])
                && group.from <= out[i].from by {
                if i > 0 {
                    assert(out[i] == more[i - 1]);
                }
            }
            assert forall|i: int, j: int| 0 <= i < j < out.len() implies (#[trigger] out[i]).to <= (
            #[trigger] out[j]).from by {
                assert(out[j] == more[j - 1]);
                if i > 0 {
                    assert(out[i] == more[i - 1]);
                }
            }
        } else {
            let both = Extract {
                text: group.text + rule.joint() + p.text,
                from: group.from,
                to: p.to,
            };
            lemma_joint_blank(rule);
            lemma_ink_blank(rule.joint());
            lemma_ink_concat(group.text, rule.joint());
            lemma_ink_concat(group.text + rule.joint(), p.text);
            assert(ink(group.text) + Seq::<char>::empty() =~= ink(group.text));
            let head = s.subrange(group.from, group.to);
            let gap = s.subrange(from, p.from);
            lemma_ink_blank(gap);
            lemma_ink_concat(head, gap);
            lemma_ink_concat(head + gap, p.text);
            assert(head + gap + p.text =~= s.subrange(group.from, p.to));
            assert(ink(head) + Seq::<char>::empty() =~= ink(head));
            assert(in_place(s, both));
            lemma_grouped(rule, s, rest, both, p.to);
            assert(ink(group.text) + ink(p.text) + ink_of_all(part_texts(s, rest)) =~= ink(
                group.text,
            ) + (ink(p.text) + ink_of_all(part_texts(s, rest))));
        }
    }
}

/// Whether a text begins and ends with no white space.
pub open spec fn tight_text(t: Seq<char>) -> bool {
    t.len() > 0 && !is_white(t[0]) && !is_white(t.last())
}

proof fn lemma_tight_text(t: Seq<char>)
    requires
        tight_text(t),
    ensures
        trimmed(t) == t,
{
    assert(white_end(t, 0) == 0);
    assert(white_start(t, t.len() as int) == t.len());
    assert(t.subrange(0, t.len() as int) =~= t);
}

/// The limit of a rule, where it has one.
pub open spec fn fits(rule: GroupRule, text: Seq<char>) -> bool {
    match rule {
        GroupRule::Sentences(max) => text.len() / 4 <= max,
        GroupRule::Paragraphs(max) => text.len() <= max,
        GroupRule::Sections => true,
    }
}

proof fn lemma_grouped_tight(
    rule: GroupRule,
    s: Seq<char>,
    parts: Seq<(int, int)>,
    group: Extract,
    all: Seq<Seq<char>>,
)
    requires
        all_tight(s, parts),
        group.text.len() > 0 ==> tight_text(group.text) && (fits(rule, group.text) || all.contains(
            group.text,
        )),
        forall|i: int| 0 <= i < parts.len() ==> all.contains(#[trigger] part_texts(s, parts)[i]),
    ensures
        ({
            let g = grouped(rule, s, parts, group);
            &&& forall|i: int|
                0 <= i < g.len() ==> tight_text((#[trigger] g[i]).text) && (fits(rule, g[i].text)
                    || all.contains(g[i].text))
            &&& joined(extract_texts(g), rule.joint()) == joined(
                if group.text.len() > 0 {
                    seq![group.text] + part_texts(s, parts)
                } else {
                    part_texts(s, parts)
                },
                rule.joint(),
            )
            &&& g.len() > 0 <==> group.text.len() > 0 || parts.len() > 0
        }),
    decreases parts.len(),
{
    let out = grouped(rule, s, parts, group);
    if parts.len() == 0 {
        assert(part_texts(s, parts) =~= Seq::<Seq<char>>::empty());
        if group.text.len() == 0 {
            assert(extract_texts(out) =~= Seq::<Seq<char>>::empty());
        } else {
            assert(extract_texts(out) =~= seq![group.text] + part_texts(s, parts));
        }
    } else {
        let p = part_at(s, parts[0]);
        let rest = parts.skip(1);
        let texts = part_texts(s, parts);
        let more_texts = part_texts(s, rest);
        assert(tight(s, parts[0]));
        assert(tight_text(p.text));
        assert(texts[0] == p.text);
        assert(texts =~= seq![p.text] + more_texts);
        assert forall|i: int| 0 <= i < rest.len() implies tight(s, #[trigger] rest[i]) by {
            assert(rest[i] == parts[i + 1]);
        }
        assert forall|i: int| 0 <= i < rest.len() implies all.contains(
            #[trigger] more_texts[i],
        ) by {
            assert(more_texts[i] == texts[i + 1]);
        }
        if group.text.len() == 0 {
            lemma_grouped_tight(rule, s, rest, p, all);
        } else if rule.breaks(group.text, p.text) {
            let more = grouped(rule, s, rest, p);
            lemma_grouped_tight(rule, s, rest, p, all);
            assert(out =~= seq![group] + more);
            assert(extract_texts(out) =~= seq![group.text] + extract_texts(more));
            assert forall|i: int| 0 <= i < out.len() implies tight_text((#[trigger] out[i]).text)
                && (fits(rule, out[i].text) || all.contains(out[i].text)) by {
                if i > 0 {
                    assert(out[i] == more[i - 1]);
                }
            }
            lemma_joined_front(group.text, extract_texts(more), rule.joint());
            lemma_joined_front(group.text, texts, rule.joint());
        } else {
            let text = group.text + rule.joint() + p.text;
            let both = Extract { text, from: group.from, to: p.to };
            assert(text[0] == group.text[0]);
            assert(text.last() == p.text.last());
            lemma_grouped_tight(rule, s, rest, both, all);
            lemma_joined_front(group.text, texts, rule.joint());
            let joint = rule.joint();
            if more_texts.len() > 0 {
                lemma_joined_front(text, more_texts, joint);
                lemma_joined_front(p.text, more_texts, joint);
                assert(text + joint + joined(more_texts, joint) =~= group.text + joint + (p.text
                    + joint + joined(more_texts, joint)));
            } else {
                assert(seq![text] + more_texts =~= seq![text]);
                assert(texts =~= seq![p.text]);
            }
        }
    }
}

/// The places of the parts that a strategy gathers.
pub open spec fn parts_of(strategy: ChunkStrategy, s: Seq<char>) -> Seq<(int, int)> {
    match strategy {
        ChunkStrategy::Sentence { .. } => sentence_ranges(s, 0),
        ChunkStrategy::Paragraph { .. } => paragraph_ranges(s, 0),
        _ => line_ranges(s, 0),
    }
}

/// The rule by which a strategy gathers parts.
pub open spec fn rule_of(strategy: ChunkStrategy) -> GroupRule {
    match strategy {
        ChunkStrategy::Sentence { max_tokens } => GroupRule::Sentences(max_tokens),
        ChunkStrategy::Paragraph { max_size } => GroupRule::Paragraphs(max_size),
        _ => GroupRule::Sections,
    }
}

proof fn lemma_gathered(strategy: ChunkStrategy, s: Seq<char>)
    requires
        strategy is Sentence || strategy is Paragraph,
    ensures
        ({
            let parts = parts_of(strategy, s);
            let rule = rule_of(strategy);
            let x = extracts(strategy, s);
            &&& spread_out(s, parts, 0)
            &&& all_tight(s, parts)
            &&& x == grouped(rule, s, parts, no_group())
            &&& forall|i: int|
                0 <= i < x.len() ==> tight_text((#[trigger] x[i]).text) && (fits(rule, x[i].text)
                    || part_texts(s, parts).contains(x[i].text))
            &&& joined(extract_texts(x), rule.joint()) == joined(
                part_texts(s, parts),
                rule.joint(),
            )
            &&& x.len() == 0 <==> parts.len() == 0
        }),
{
    let parts = parts_of(strategy, s);
    let rule = rule_of(strategy);
    let texts = part_texts(s, parts);
    lemma_sentences(s, 0);
    lemma_paragraphs(s, 0);
    let groups = grouped(rule, s, parts, no_group());
    assert forall|i: int| 0 <= i < parts.len() implies texts.contains(#[trigger] texts[i]) by {}
    lemma_grouped_tight(rule, s, parts, no_group(), texts);
    assert forall|i: int| 0 <= i < groups.len() implies trimmed((#[trigger] groups[i]).text)
        == groups[i].text by {
        lemma_tight_text(groups[i].text);
    }
    assert(trimmed_groups(groups) =~= groups);
}

proof fn lemma_placed_texts(s: Seq<char>, x: Seq<Extract>)
    ensures
        piece_texts(placed(s, x)) == extract_texts(x),
{
    assert(piece_texts(placed(s, x)) =~= extract_texts(x));
}

/// Chunking by sentences or by paragraphs loses no text: the chunks hold, in order, exactly
/// the characters of the document that are no white space.
pub proof fn law_grouping_loses_no_text(strategy: ChunkStrategy, s: Seq<char>)
    requires
        strategy is Sentence || strategy is Paragraph,
    ensures
        ink_of_all(piece_texts(pieces(strategy, s))) == ink(s),
{
    let parts = parts_of(strategy, s);
    lemma_gathered(strategy, s);
    lemma_grouped(rule_of(strategy), s, parts, no_group(), 0);
    lemma_spread(s, parts, 0);
    lemma_placed_texts(s, extracts(strategy, s));
    lemma_ink_blank(Seq::empty());
    assert(s.skip(0) =~= s);
    assert(Seq::<char>::empty() + ink(s) =~= ink(s));
}

/// The chunks of a document, joined as their parts are, are the parts joined: the sentences by
/// spaces, the paragraphs by empty lines. There is no chunk exactly where there is no part.
pub proof fn law_chunks_join_to_the_parts(strategy: ChunkStrategy, s: Seq<char>)
    requires
        strategy is Sentence || strategy is Paragraph,
    ensures
        joined(piece_texts(pieces(strategy, s)), rule_of(strategy).joint()) == joined(
            part_texts(s, parts_of(strategy, s)),
            rule_of(strategy).joint(),
        ),
        pieces(strategy, s).len() == 0 <==> parts_of(strategy, s).len() == 0,
{
    lemma_gathered(strategy, s);
    lemma_placed_texts(s, extracts(strategy, s));
}

/// Chunks of sentences or paragraphs keep to the limit, unless a single sentence or paragraph
/// is larger than it.
pub proof fn law_chunks_keep_the_limit(strategy: ChunkStrategy, s: Seq<char>, i: int)
    requires
        strategy is Sentence || strategy is Paragraph,
        0 <= i < pieces(strategy, s).len(),
    ensures
        fits(rule_of(strategy), pieces(strategy, s)[i].content) || part_texts(
            s,
            parts_of(strategy, s),
        ).contains(pieces(strategy, s)[i].content),
{
    lemma_gathered(strategy, s);
    assert(pieces(strategy, s)[i].content == extracts(strategy, s)[i].text);
}

/// Chunks that keep sentences or paragraphs whole are never empty.
pub proof fn law_no_empty_chunks(strategy: ChunkStrategy, s: Seq<char>, i: int)
    requires
        strategy is Sentence || strategy is Paragraph,
        0 <= i < pieces(strategy, s).len(),
    ensures
        pieces(strategy, s)[i].content.len() > 0,
{
    lemma_gathered(strategy, s);
    assert(pieces(strategy, s)[i].content == extracts(strategy, s)[i].text);
}

/// A chunk of sentences or paragraphs stands at its place in the document: what stands there
/// has the same characters but for white space, and chunks do not overlap.
pub proof fn law_chunks_are_in_place(strategy: ChunkStrategy, s: Seq<char>)
    requires
        strategy is Sentence || strategy is Paragraph,
    ensures
        forall|i: int|
            0 <= i < extracts(strategy, s).len() ==> in_place(
                s,
                #[trigger] extracts(strategy, s)[i],
            ),
        forall|i: int, j: int|
            0 <= i < j < extracts(strategy, s).len() ==> (#[trigger] extracts(strategy, s)[i]).to
                <= (#[trigger] extracts(strategy, s)[j]).from,
{
    lemma_gathered(strategy, s);
    lemma_grouped(rule_of(strategy), s, parts_of(strategy, s), no_group(), 0);
}

proof fn lemma_lines(s: Seq<char>, start: int)
    requires
        0 <= start <= s.len(),
    ensures
        spread_out(s, line_ranges(s, start), start),
        line_by_line(s, line_ranges(s, start), start),
    decreases s.len() - start,
{
    let parts = line_ranges(s, start);
    if start < s.len() {
        let k = next_newline(s, start);
        lemma_next_newline(s, start);
        if k < s.len() {
            lemma_lines(s, k + 1);
            let more = line_ranges(s, k + 1);
            let end = line_end(s, start, k);
            assert(blank(s.subrange(end, k + 1)));
            lemma_spread_front(s, start, (start, end), k + 1, more);
            lemma_walked_plain(s, start, end);
            assert(walked(s, end, 1) == k + 1) by {
                reveal_with_fuel(walked, 2);
            }
            assert(parts.skip(1) =~= more);
            assert(line_by_line(s, parts.skip(1), walked(s, end, 1)));
        } else {
            let end = s.len() as int;
            let none = Seq::<(int, int)>::empty();
            lemma_spread_front(s, start, (start, end), end, none);
            assert(seq![(start, end)] + none =~= parts);
            lemma_walked_plain(s, start, end);
            assert(parts.skip(1) =~= none);
            assert(line_by_line(s, none, walked(s, end, 1)));
        }
    }
}

/// Whether lines lie one behind the other from `start` on, so that walking over the text of one
/// leads to its end, and over the line ending to the next.
spec fn line_by_line(s: Seq<char>, parts: Seq<(int, int)>, start: int) -> bool
    decreases parts.len(),
{
    parts.len() > 0 ==> {
        &&& parts[0].0 == start
        &&& walked(s, start, parts[0].1 - start) == parts[0].1
        &&& line_by_line(s, parts.skip(1), walked(s, parts[0].1, 1))
    }
}

proof fn lemma_walked_plain(s: Seq<char>, a: int, b: int)
    requires
        0 <= a <= b <= s.len(),
        forall|k: int| a < k <= b && k < s.len() && s[k - 1] == '\r' ==> #[trigger] s[k] != '\n',
    ensures
        walked(s, a, b - a) == b,
    decreases b - a,
{
    if a < b {
        assert(!(s[a] == '\r' && a + 1 < s.len() && s[a + 1] == '\n')) by {
            if a + 1 < s.len() && s[a + 1 - 1] == '\r' {
                assert(s[a + 1] != '\n');
            }
        }
        lemma_walked_plain(s, a + 1, b);
    }
}

proof fn lemma_walked_on(s: Seq<char>, a: int, m: int, n: int)
    requires
        0 <= a <= s.len(),
        0 <= m,
        0 <= n,
    ensures
        walked(s, walked(s, a, m), n) == walked(s, a, m + n),
    decreases m,
{
    if m > 0 && a < s.len() {
        if s[a] == '\r' && a + 1 < s.len() && s[a + 1] == '\n' {
            lemma_walked_on(s, a + 2, m - 1, n);
        } else {
            lemma_walked_on(s, a + 1, m - 1, n);
        }
    }
}

proof fn lemma_walked_order(s: Seq<char>, a: int, m: int, n: int)
    requires
        0 <= a <= s.len(),
        0 <= m <= n,
    ensures
        walked(s, a, m) <= walked(s, a, n),
{
    lemma_walked(s, a, m);
    lemma_walked_on(s, a, m, n - m);
    lemma_walked(s, walked(s, a, m), n - m);
}

proof fn lemma_sections_walked(s: Seq<char>, parts: Seq<(int, int)>, group: Extract, start: int)
    requires
        0 <= start <= s.len(),
        ranges_within(parts, s.len() as int),
        line_by_line(s, parts, start),
        group.text.len() > 0 ==> {
            &&& 0 <= group.from <= s.len()
            &&& walked(s, group.from, group.text.len() as int) == group.to
            &&& walked(s, group.to, 1) == start
        },
    ensures
        forall|i: int|
            0 <= i < grouped(GroupRule::Sections, s, parts, group).len() ==> {
                let g = #[trigger] grouped(GroupRule::Sections, s, parts, group)[i];
                walked(s, g.from, g.text.len() as int) == g.to
            },
    decreases parts.len(),
{
    let out = grouped(GroupRule::Sections, s, parts, group);
    if parts.len() == 0 {
        assert forall|i: int| 0 <= i < out.len() implies walked(
            s,
            (#[trigger] out[i]).from,
            out[i].text.len() as int,
        ) == out[i].to by {
            assert(out[i] == group);
        }
    } else {
        let p = part_at(s, parts[0]);
        let rest = parts.skip(1);
        let next = walked(s, p.to, 1);
        lemma_walked(s, p.to, 1);
        assert forall|i: int| 0 <= i < rest.len() implies 0 <= (#[trigger] rest[i]).0 <= rest[i].1
            <= s.len() by {
            assert(rest[i] == parts[i + 1]);
        }
        if group.text.len() == 0 {
            lemma_sections_walked(s, rest, p, next);
            assert(out == grouped(GroupRule::Sections, s, rest, p));
        } else if is_header(p.text) {
            let more = grouped(GroupRule::Sections, s, rest, p);
            lemma_sections_walked(s, rest, p, next);
            assert(out =~= seq![group] + more);
            assert forall|i: int| 0 <= i < out.len() implies walked(
                s,
                (#[trigger] out[i]).from,
                out[i].text.len() as int,
            ) == out[i].to by {
                if i > 0 {
                    assert(out[i] == more[i - 1]);
                }
            }
        } else {
            reveal_strlit("\n");
            let n = group.text.len() as int;
            let text = group.text + GroupRule::Sections.joint() + p.text;
            lemma_walked_on(s, group.from, n, 1);
            lemma_walked_on(s, group.from, n + 1, p.to - p.from);
            assert(text.len() == n + 1 + (p.to - p.from));
            let both = Extract { text, from: group.from, to: p.to };
            lemma_sections_walked(s, rest, both, next);
            assert(out == grouped(GroupRule::Sections, s, rest, both));
        }
    }
}

/// Whether extracts lie in a stretch of the text, and begin one behind the other.
pub open spec fn in_order(x: Seq<Extract>, from: int, to: int) -> bool {
    &&& forall|i: int| 0 <= i < x.len() ==> from <= (#[trigger] x[i]).from <= x[i].to <= to
    &&& forall|i: int, j: int|
        0 <= i <= j < x.len() ==> (#[trigger] x[i]).from <= (#[trigger] x[j]).from
}

proof fn lemma_fixed_in_order(len: int, size: int, step: int, start: int)
    requires
        0 <= start,
        0 <= size,
        1 <= step,
    ensures
        ({
            let r = fixed_ranges(len, size, step, start);
            &&& forall|i: int| 0 <= i < r.len() ==> start <= (#[trigger] r[i]).0 <= r[i].1 <= len
            &&& forall|i: int, j: int|
                0 <= i <= j < r.len() ==> (#[trigger] r[i]).0 <= (#[trigger] r[j]).0
        }),
    decreases len - start,
{
    if start + size < len && start + step < len {
        let r = fixed_ranges(len, size, step, start);
        let more = fixed_ranges(len, size, step, start + step);
        lemma_fixed_in_order(len, size, step, start + step);
        assert(r =~= seq![(start, start + size)] + more);
        assert forall|i: int| 0 <= i < r.len() implies start <= (#[trigger] r[i]).0 <= r[i].1
            <= len by {
            if i > 0 {
                assert(r[i] == more[i - 1]);
            }
        }
        assert forall|i: int, j: int| 0 <= i <= j < r.len() implies (#[trigger] r[i]).0 <= (
        #[trigger] r[j]).0 by {
            if i > 0 {
                assert(r[i] == more[i - 1]);
                assert(r[j] == more[j - 1]);
            }
        }
    }
}

proof fn lemma_section_in_order(s: Seq<char>, section: Extract, max_size: int)
    requires
        0 <= section.from <= section.to <= s.len(),
        walked(s, section.from, section.text.len() as int) == section.to,
        0 <= max_size,
    ensures
        in_order(section_extracts(s, section, max_size), section.from, section.to),
{
    let x = section_extracts(s, section, max_size);
    if section.text.len() > max_size {
        let len = section.text.len() as int;
        let step = step_of(max_size, 50);
        let r = fixed_ranges(len, max_size, step, 0);
        lemma_fixed_in_order(len, max_size, step, 0);
        assert forall|i: int| 0 <= i < x.len() implies section.from <= (#[trigger] x[i]).from
            <= x[i].to <= section.to by {
            assert(0 <= r[i].0 <= r[i].1 <= len);
            lemma_walked(s, section.from, r[i].0);
            lemma_walked_order(s, section.from, r[i].0, r[i].1);
            lemma_walked_order(s, section.from, r[i].1, len);
        }
        assert forall|i: int, j: int| 0 <= i <= j < x.len() implies (#[trigger] x[i]).from <= (
        #[trigger] x[j]).from by {
            assert(r[i].0 <= r[j].0);
            lemma_walked_order(s, section.from, r[i].0, r[j].0);
        }
    }
}

proof fn lemma_sections_in_order(s: Seq<char>, sections: Seq<Extract>, max_size: int)
    requires
        0 <= max_size,
        forall|i: int|
            0 <= i < sections.len() ==> 0 <= (#[trigger] sections[i]).from <= sections[i].to
                <= s.len() && walked(s, sections[i].from, sections[i].text.len() as int)
                == sections[i].to,
        forall|i: int, j: int|
            0 <= i < j < sections.len() ==> (#[trigger] sections[i]).to <= (
            #[trigger] sections[j]).from,
    ensures
        in_order(
            sections_extracts(s, sections, max_size),
            0,
            if sections.len() == 0 {
                0
            } else {
                sections.last().to
            },
        ),
    decreases sections.len(),
{
    if sections.len() > 0 {
        let head = sections.drop_last();
        let last = sections.last();
        assert forall|i: int| 0 <= i < head.len() implies 0 <= (#[trigger] head[i]).from
            <= head[i].to <= s.len() && walked(s, head[i].from, head[i].text.len() as int)
            == head[i].to by {
            assert(head[i] == sections[i]);
        }
        lemma_sections_in_order(s, head, max_size);
        lemma_section_in_order(s, last, max_size);
        if head.len() > 0 {
            assert(head.last() == sections[sections.len() - 2]);
        }
        let a = sections_extracts(s, head, max_size);
        let b = section_extracts(s, last, max_size);
        let x = a + b;
        assert forall|i: int| 0 <= i < x.len() implies 0 <= (#[trigger] x[i]).from <= x[i].to
            <= last.to by {
            if i < a.len() {
                assert(x[i] == a[i]);
            } else {
                assert(x[i] == b[i - a.len()]);
            }
        }
        assert forall|i: int, j: int| 0 <= i <= j < x.len() implies (#[trigger] x[i]).from <= (
        #[trigger] x[j]).from by {
            if i < a.len() {
                assert(x[i] == a[i]);
            } else {
                assert(x[i] == b[i - a.len()]);
            }
            if j < a.len() {
                assert(x[j] == a[j]);
            } else {
                assert(x[j] == b[j - a.len()]);
            }
        }
    }
}

proof fn lemma_sections(s: Seq<char>)
    ensures
        ({
            let g = grouped(GroupRule::Sections, s, line_ranges(s, 0), no_group());
            &&& forall|i: int| 0 <= i < g.len() ==> in_place(s, #[trigger] g[i])
            &&& forall|i: int|
                0 <= i < g.len() ==> walked(s, (#[trigger] g[i]).from, g[i].text.len() as int)
                    == g[i].to
            &&& forall|i: int, j: int|
                0 <= i < j < g.len() ==> (#[trigger] g[i]).to <= (#[trigger] g[j]).from
            &&& ink_of_all(extract_texts(g)) == ink(s)
        }),
{
    let parts = line_ranges(s, 0);
    lemma_lines(s, 0);
    lemma_spread(s, parts, 0);
    lemma_grouped(GroupRule::Sections, s, parts, no_group(), 0);
    lemma_sections_walked(s, parts, no_group(), 0);
    lemma_ink_blank(Seq::empty());
    assert(s.skip(0) =~= s);
    assert(Seq::<char>::empty() + ink(s) =~= ink(s));
}

proof fn lemma_extracts_in_order(strategy: ChunkStrategy, s: Seq<char>)
    ensures
        in_order(extracts(strategy, s), 0, s.len() as int),
{
    match strategy {
        ChunkStrategy::FixedSize { chunk_size, overlap } => {
            let step = step_of(chunk_size as int, overlap as int);
            lemma_fixed_in_order(s.len() as int, chunk_size as int, step, 0);
            let r = fixed_ranges(s.len() as int, chunk_size as int, step, 0);
            let x = extracts(strategy, s);
            assert forall|i: int| 0 <= i < x.len() implies 0 <= (#[trigger] x[i]).from <= x[i].to
                <= s.len() by {
                assert(0 <= r[i].0 <= r[i].1 <= s.len());
            }
            assert forall|i: int, j: int| 0 <= i <= j < x.len() implies (#[trigger] x[i]).from <= (
            #[trigger] x[j]).from by {
                assert(r[i].0 <= r[j].0);
            }
        },
        ChunkStrategy::Semantic { max_size } => {
            lemma_sections(s);
            let g = grouped(GroupRule::Sections, s, line_ranges(s, 0), no_group());
            lemma_sections_in_order(s, g, max_size as int);
        },
        _ => {
            law_chunks_are_in_place(strategy, s);
        },
    }
}

proof fn lemma_bytes_order(s: Seq<char>, a: int, b: int)
    requires
        0 <= a <= b <= s.len(),
    ensures
        bytes(s.take(a)) <= bytes(s.take(b)) <= bytes(s),
{
    lemma_encode_concat(s.take(a), s.subrange(a, b));
    assert(s.take(a) + s.subrange(a, b) =~= s.take(b));
    lemma_encode_concat(s.take(b), s.skip(b));
    assert(s.take(b) + s.skip(b) =~= s);
}

/// The offsets of chunks lie in the document, a chunk does not end before it starts, and no
/// chunk starts before one that is in front of it.
pub proof fn law_offsets_in_order(strategy: ChunkStrategy, s: Seq<char>)
    ensures
        forall|i: int|
            0 <= i < pieces(strategy, s).len() ==> 0 <= (#[trigger] pieces(strategy, s)[i]).start
                <= pieces(strategy, s)[i].end <= bytes(s),
        forall|i: int, j: int|
            0 <= i <= j < pieces(strategy, s).len() ==> (#[trigger] pieces(strategy, s)[i]).start
                <= (#[trigger] pieces(strategy, s)[j]).start,
{
    lemma_extracts_in_order(strategy, s);
    let x = extracts(strategy, s);
    let p = pieces(strategy, s);
    assert forall|i: int| 0 <= i < p.len() implies 0 <= (#[trigger] p[i]).start <= p[i].end
        <= bytes(s) by {
        assert(x[i].from <= x[i].to);
        lemma_bytes_order(s, x[i].from, x[i].to);
    }
    assert forall|i: int, j: int| 0 <= i <= j < p.len() implies (#[trigger] p[i]).start <= (
    #[trigger] p[j]).start by {
        assert(x[i].from <= x[j].from);
        lemma_bytes_order(s, x[i].from, x[j].from);
    }
}

proof fn lemma_fitting_sections(s: Seq<char>, sections: Seq<Extract>, max_size: int)
    requires
        forall|i: int| 0 <= i < sections.len() ==> (#[trigger] sections[i]).text.len() <= max_size,
    ensures
        sections_extracts(s, sections, max_size) == trimmed_groups(sections),
    decreases sections.len(),
{
    if sections.len() > 0 {
        let head = sections.drop_last();
        assert forall|i: int| 0 <= i < head.len() implies (#[trigger] head[i]).text.len()
            <= max_size by {
            assert(head[i] == sections[i]);
        }
        lemma_fitting_sections(s, head, max_size);
        assert(sections.last() == sections[sections.len() - 1]);
    }
    assert(sections_extracts(s, sections, max_size) =~= trimmed_groups(sections));
}

proof fn lemma_trimmed_groups_ink(groups: Seq<Extract>)
    ensures
        ink_of_all(extract_texts(trimmed_groups(groups))) == ink_of_all(extract_texts(groups)),
    decreases groups.len(),
{
    if groups.len() > 0 {
        let rest = groups.skip(1);
        lemma_trimmed_groups_ink(rest);
        lemma_ink_trimmed(groups[0].text);
        assert(extract_texts(trimmed_groups(groups)).skip(1) =~= extract_texts(
            trimmed_groups(rest),
        ));
        assert(extract_texts(groups).skip(1) =~= extract_texts(rest));
    } else {
        assert(extract_texts(trimmed_groups(groups)) =~= extract_texts(groups));
    }
}

/// Chunking by sections loses no text where every section fits: the chunks hold, in order,
/// exactly the characters of the document that are no white space.
pub proof fn law_sections_lose_no_text(s: Seq<char>, max_size: usize)
    requires
        forall|i: int|
            0 <= i < grouped(GroupRule::Sections, s, line_ranges(s, 0), no_group()).len() ==> (
            #[trigger] grouped(GroupRule::Sections, s, line_ranges(s, 0), no_group())[i]).text.len()
                <= max_size,
    ensures
        ink_of_all(piece_texts(pieces(ChunkStrategy::Semantic { max_size }, s))) == ink(s),
{
    let sections = grouped(GroupRule::Sections, s, line_ranges(s, 0), no_group());
    lemma_sections(s);
    lemma_fitting_sections(s, sections, max_size as int);
    lemma_trimmed_groups_ink(sections);
    lemma_placed_texts(s, trimmed_groups(sections));
}

proof fn lemma_fixed_ranges(len: int, size: int, step: int, start: int)
    requires
        0 <= start < len,
        1 <= step <= size,
    ensures
        ({
            let r = fixed_ranges(len, size, step, start);
            &&& r.len() == 1 + pieces_behind(len - start - size, step)
            &&& r[0].0 == start
            &&& r.last().1 == len
            &&& forall|i: int|
                0 <= i < r.len() ==> (#[trigger] r[i]).0 == start + i * step && 0 <= r[i].0 < r[i].1
                    <= len && r[i].1 - r[i].0 <= size
            &&& forall|i: int|
                0 <= i < r.len() - 1 ==> (#[trigger] r[i]).1 == r[i].0 + size && r[i + 1].0 == r[i].0
                    + step && r[i].1 < len
        }),
    decreases len - start,
{
    assert(0 * step == 0) by (nonlinear_arith);
    if start + size < len {
        lemma_fixed_ranges(len, size, step, start + step);
        let more = fixed_ranges(len, size, step, start + step);
        let r = fixed_ranges(len, size, step, start);
        assert(r =~= seq![(start, start + size)] + more);
        assert forall|i: int| 0 <= i < r.len() - 1 implies (#[trigger] r[i]).1 == r[i].0 + size
            && r[i + 1].0 == r[i].0 + step && r[i].1 < len by {
            if i > 0 {
                assert(r[i] == more[i - 1]);
                assert(r[i + 1] == more[i]);
            } else {
                assert(r[1] == more[0]);
            }
        }
        assert forall|i: int| 0 <= i < r.len() implies (#[trigger] r[i]).0 == start + i * step && 0
            <= r[i].0 < r[i].1 <= len && r[i].1 - r[i].0 <= size by {
            if i > 0 {
                assert(r[i] == more[i - 1]);
                assert(step + (i - 1) * step == i * step) by (nonlinear_arith);
            }
        }
        assert(r.last() == more.last());
        let rest = len - start - size;
        lemma_div_minus_one(rest + step - 1, step);
        if rest <= step {
            lemma_basic_div(rest - 1, step);
        }
    }
}

/// Number of steps that it takes to come past a rest.
pub open spec fn pieces_behind(rest: int, step: int) -> int {
    if rest <= 0 {
        0
    } else {
        (rest + step - 1) / step
    }
}

/// Fixed-size chunks cover the document. Each begins one step behind the one before and holds
/// the characters from there on, up to the size or the end; only the last reaches the end. There
/// is one chunk, and one more for each step that it takes from the end of the first to the end
/// of the document. No chunk is empty, longer than the size or inside another, and where the
/// overlap is less than the size, neighbours share exactly the overlap.
pub proof fn law_fixed_chunks_cover(s: Seq<char>, size: int, overlap: int)
    requires
        s.len() > 0,
        size > 0,
        overlap >= 0,
    ensures
        ({
            let x = fixed_extracts(s, size, overlap);
            let step = step_of(size, overlap);
            let n = s.len() as int;
            &&& x.len() == 1 + pieces_behind(n - size, step)
            &&& forall|i: int|
                0 <= i < x.len() ==> {
                    &&& (#[trigger] x[i]).from == i * step
                    &&& x[i].to == (if i * step + size < n {
                        i * step + size
                    } else {
                        n
                    })
                    &&& x[i].to == n <==> i == x.len() - 1
                    &&& x[i].text == s.subrange(x[i].from, x[i].to)
                    &&& 0 < x[i].text.len() <= size
                }
            &&& forall|i: int, j: int|
                0 <= i < j < x.len() ==> (#[trigger] x[i]).from < (#[trigger] x[j]).from && x[i].to
                    < x[j].to
            &&& overlap < size ==> forall|i: int|
                0 <= i < x.len() - 1 ==> (#[trigger] x[i]).to - x[i + 1].from == overlap
        }),
{
    let step = step_of(size, overlap);
    let n = s.len() as int;
    let r = fixed_ranges(n, size, step, 0);
    let x = fixed_extracts(s, size, overlap);
    lemma_fixed_ranges(n, size, step, 0);
    assert forall|i: int| 0 <= i < x.len() implies {
        &&& (#[trigger] x[i]).from == i * step
        &&& x[i].to == (if i * step + size < n {
            i * step + size
        } else {
            n
        })
        &&& x[i].to == n <==> i == x.len() - 1
        &&& x[i].text == s.subrange(x[i].from, x[i].to)
        &&& 0 < x[i].text.len() <= size
    } by {
        assert(r[i].0 == i * step);
        if i < x.len() - 1 {
            assert(r[i].1 < n);
        } else {
            assert(r[i] == r.last());
        }
    }
    assert forall|i: int, j: int| 0 <= i < j < x.len() implies (#[trigger] x[i]).from < (
    #[trigger] x[j]).from && x[i].to < x[j].to by {
        assert(i * step < j * step) by (nonlinear_arith)
            requires
                i < j,
                step > 0,
        ;
        assert(r[i].1 == r[i].0 + size);
    }
    assert(overlap < size ==> forall|i: int|
        0 <= i < x.len() - 1 ==> (#[trigger] x[i]).to - x[i + 1].from == overlap) by {
        assert forall|i: int| 0 <= i < x.len() - 1 && overlap < size implies (#[trigger] x[i]).to
            - x[i + 1].from == overlap by {
            assert(r[i].1 == r[i].0 + size);
            assert(x[i + 1].from == r[i + 1].0);
        }
    }
}

/// Whether two newlines stand at a position.
pub open spec fn gap_at(s: Seq<char>, k: int) -> bool {
    0 <= k && k + 1 < s.len() && s[k] == '\n' && s[k + 1] == '\n'
}

/// Whether no two newlines stand inside a place.
pub open spec fn no_gap_inside(s: Seq<char>, p: (int, int)) -> bool {
    forall|k: int| p.0 <= k < p.1 - 1 ==> !#[trigger] gap_at(s, k)
}

/// Whether two newlines stand between two places.
pub open spec fn gap_between(s: Seq<char>, p: (int, int), q: (int, int)) -> bool {
    exists|k: int| p.1 <= k && k + 2 <= q.0 && #[trigger] gap_at(s, k)
}

proof fn lemma_no_gap_before(s: Seq<char>, i: int)
    requires
        0 <= i <= s.len(),
    ensures
        forall|k: int| i <= k < next_gap(s, i) ==> !#[trigger] gap_at(s, k),
    decreases s.len() - i,
{
    if i < s.len() && !gap_at(s, i) {
        lemma_no_gap_before(s, i + 1);
    }
}

proof fn lemma_paragraph_gaps(s: Seq<char>, start: int)
    requires
        0 <= start <= s.len(),
    ensures
        ({
            let p = paragraph_ranges(s, start);
            &&& forall|i: int|
                0 <= i < p.len() ==> start <= (#[trigger] p[i]).0 < p[i].1 <= s.len()
                    && no_gap_inside(s, p[i])
            &&& forall|i: int, j: int|
                0 <= i < j < p.len() ==> (#[trigger] p[i]).1 <= (#[trigger] p[j]).0
                    && gap_between(s, p[i], p[j])
        }),
    decreases s.len() - start,
{
    let p = paragraph_ranges(s, start);
    let k = next_gap(s, start);
    lemma_next_gap(s, start);
    lemma_no_gap_before(s, start);
    let end = if k < s.len() {
        k
    } else {
        s.len() as int
    };
    let one = kept_range(s, start, end);
    lemma_kept_range(s, start, end);
    lemma_white_end(s, start);
    lemma_white_start(s, end);
    let more = if k < s.len() {
        paragraph_ranges(s, k + 2)
    } else {
        Seq::empty()
    };
    assert(p =~= one + more);
    if k < s.len() {
        lemma_paragraph_gaps(s, k + 2);
        assert(gap_at(s, k));
    }
    assert forall|i: int| 0 <= i < p.len() implies start <= (#[trigger] p[i]).0 < p[i].1 <= s.len()
        && no_gap_inside(s, p[i]) by {
        if i < one.len() {
            assert(p[i] == one[0]);
        } else {
            assert(p[i] == more[i - one.len()]);
        }
    }
    assert forall|i: int, j: int| 0 <= i < j < p.len() implies (#[trigger] p[i]).1 <= (
    #[trigger] p[j]).0 && gap_between(s, p[i], p[j]) by {
        assert(p[j] == more[j - one.len()]);
        if i < one.len() {
            assert(p[i] == one[0]);
            assert(p[i].1 <= k && k + 2 <= p[j].0 && gap_at(s, k));
        } else {
            assert(p[i] == more[i - one.len()]);
        }
    }
}

/// Paragraphs are pieces of the text, in its order, and nothing but white space is lost between
/// them. Each begins and ends with no white space, holds no two newlines in a row, and stands
/// behind the one before with two newlines between them.
pub proof fn law_paragraphs(s: Seq<char>)
    ensures
        ({
            let p = paragraph_ranges(s, 0);
            &&& forall|i: int|
                0 <= i < p.len() ==> tight(s, #[trigger] p[i]) && no_gap_inside(s, p[i])
            &&& forall|i: int, j: int|
                0 <= i < j < p.len() ==> (#[trigger] p[i]).1 <= (#[trigger] p[j]).0 && gap_between(
                    s,
                    p[i],
                    p[j],
                )
            &&& forall|i: int, k: int|
                0 <= i < p.len() - 1 && (#[trigger] p[i]).1 <= k < p[i + 1].0 ==> is_white(
                    #[trigger] s[k],
                )
            &&& p.len() > 0 ==> blank(s.take(p[0].0)) && blank(s.skip(p.last().1))
            &&& p.len() == 0 ==> blank(s)
            &&& ink_of_all(part_texts(s, p)) == ink(s)
        }),
{
    lemma_paragraphs(s, 0);
    lemma_spread(s, paragraph_ranges(s, 0), 0);
    lemma_paragraph_gaps(s, 0);
    assert(s.skip(0) =~= s);
    let p = paragraph_ranges(s, 0);
    if p.len() > 0 {
        assert(s.take(p[0].0) =~= s.subrange(0, p[0].0));
    }
}

/// Whether a place is that of a line: it begins at the start of the text or behind a newline,
/// ends before the next newline or at the end of the text, and leaves out a carriage return in
/// front of the newline.
pub open spec fn is_line(s: Seq<char>, p: (int, int)) -> bool {
    &&& 0 <= p.0 <= p.1 <= s.len()
    &&& p.0 < s.len()
    &&& p.0 == 0 || s[p.0 - 1] == '\n'
    &&& forall|k: int| p.0 <= k < p.1 ==> #[trigger] s[k] != '\n'
    &&& {
        ||| p.1 == s.len()
        ||| s[p.1] == '\n' && (p.0 < p.1 ==> s[p.1 - 1] != '\r')
        ||| p.1 + 1 < s.len() && s[p.1] == '\r' && s[p.1 + 1] == '\n'
    }
}

/// The lines of a text are all its lines, in order.
pub proof fn law_lines(s: Seq<char>, start: int)
    requires
        0 <= start <= s.len(),
        start == 0 || s[start - 1] == '\n',
    ensures
        ({
            let p = line_ranges(s, start);
            &&& forall|i: int| 0 <= i < p.len() ==> is_line(s, #[trigger] p[i]) && start <= p[i].0
            &&& forall|i: int, j: int|
                0 <= i < j < p.len() ==> (#[trigger] p[i]).1 < (#[trigger] p[j]).0
            &&& forall|q: (int, int)| #[trigger] is_line(s, q) && start <= q.0 ==> p.contains(q)
        }),
    decreases s.len() - start,
{
    let p = line_ranges(s, start);
    if start < s.len() {
        let k = next_newline(s, start);
        lemma_next_newline(s, start);
        let first = if k < s.len() {
            (start, line_end(s, start, k))
        } else {
            (start, s.len() as int)
        };
        let more = if k < s.len() {
            line_ranges(s, k + 1)
        } else {
            Seq::empty()
        };
        if k < s.len() {
            law_lines(s, k + 1);
        }
        assert(p =~= seq![first] + more);
        assert(is_line(s, first));
        assert forall|i: int| 0 <= i < p.len() implies is_line(s, #[trigger] p[i]) && start
            <= p[i].0 by {
            if i > 0 {
                assert(p[i] == more[i - 1]);
            }
        }
        assert forall|i: int, j: int| 0 <= i < j < p.len() implies (#[trigger] p[i]).1 < (
        #[trigger] p[j]).0 by {
            assert(p[j] == more[j - 1]);
            if i > 0 {
                assert(p[i] == more[i - 1]);
            }
        }
        assert forall|q: (int, int)| #[trigger] is_line(s, q) && start <= q.0 implies p.contains(
            q,
        ) by {
            if q.0 > k {
                assert(more.contains(q));
                let m = choose|m: int| 0 <= m < more.len() && more[m] == q;
                assert(p[m + 1] == q);
            } else {
                assert(q.0 == start) by {
                    if q.0 > start {
                        assert(s[q.0 - 1] != '\n');
                    }
                }
                assert(q.1 == first.1) by {
                    if q.1 > k {
                        assert(s[k] != '\n');
                    }
                    if q.1 < s.len() {
                        if s[q.1] == '\n' {
                            assert(q.1 == k);
                        } else {
                            assert(q.1 + 1 == k) by {
                                if q.1 + 1 < k {
                                    assert(s[q.1 + 1] != '\n');
                                }
                            }
                        }
                    }
                }
                assert(p[0] == q);
            }
        }
    }
}

/// A group of the parts from `a` up to `b`, joined, in which no part breaks what stands before it.
#[verifier::opaque]
pub open spec fn one_group(
    rule: GroupRule,
    parts: Seq<Seq<char>>,
    text: Seq<char>,
    a: int,
    b: int,
) -> bool {
    &&& 0 <= a < b <= parts.len()
    &&& text == joined(parts.subrange(a, b), rule.joint())
    &&& forall|m: int|
        a < m < b ==> !rule.breaks(
            joined(parts.subrange(a, m), rule.joint()),
            #[trigger] parts[m],
        )
}

/// Whether the part at which a group begins breaks the group before.
#[verifier::opaque]
pub open spec fn breaks_off(
    rule: GroupRule,
    parts: Seq<Seq<char>>,
    groups: Seq<Seq<char>>,
    c: Seq<int>,
    k: int,
) -> bool {
    rule.breaks(groups[k - 1], parts[c[k]])
}

/// How groups divide the parts from `i` on: group `k` holds the parts from `c[k]` up to
/// `c[k + 1]`. Parts before the first group are empty.
pub open spec fn divides(
    rule: GroupRule,
    parts: Seq<Seq<char>>,
    i: int,
    groups: Seq<Seq<char>>,
    c: Seq<int>,
) -> bool {
    &&& c.len() == groups.len() + 1
    &&& i <= c[0] <= parts.len()
    &&& c.last() == parts.len()
    &&& forall|m: int| i <= m < c[0] ==> (#[trigger] parts[m]).len() == 0
    &&& forall|k: int|
        0 <= k < groups.len() ==> one_group(rule, parts, #[trigger] groups[k], c[k], c[k + 1])
    &&& forall|k: int| 0 < k < groups.len() ==> #[trigger] breaks_off(rule, parts, groups, c, k)
}

proof fn lemma_joined_grows(parts: Seq<Seq<char>>, a: int, m: int, joint: Seq<char>)
    requires
        0 <= a < m < parts.len(),
    ensures
        joined(parts.subrange(a, m + 1), joint) == joined(parts.subrange(a, m), joint) + joint
            + parts[m],
{
    let all = parts.subrange(a, m + 1);
    assert(all.drop_last() =~= parts.subrange(a, m));
    assert(all.last() == parts[m]);
}

/// A group in front of others that divide the parts behind it.
proof fn lemma_divides_front(
    rule: GroupRule,
    all: Seq<Seq<char>>,
    text: Seq<char>,
    a: int,
    i: int,
    more: Seq<Seq<char>>,
    d: Seq<int>,
)
    requires
        one_group(rule, all, text, a, i),
        divides(rule, all, i, more, d),
        d[0] == i,
        i < all.len(),
        rule.breaks(text, all[i]),
    ensures
        divides(rule, all, a, seq![text] + more, seq![a] + d),
{
    let groups = seq![text] + more;
    let c = seq![a] + d;
    assert(a <= all.len()) by {
        reveal(one_group);
    }
    assert(c[0] == a);
    assert(c[1] == i);
    assert forall|k: int| 0 <= k < groups.len() implies one_group(
        rule,
        all,
        #[trigger] groups[k],
        c[k],
        c[k + 1],
    ) by {
        if k > 0 {
            assert(groups[k] == more[k - 1]);
            assert(c[k] == d[k - 1]);
            assert(c[k + 1] == d[k - 1 + 1]);
        }
    }
    assert forall|k: int| 0 < k < groups.len() implies #[trigger] breaks_off(
        rule,
        all,
        groups,
        c,
        k,
    ) by {
        reveal(breaks_off);
        assert(c[k] == d[k - 1]);
        if k > 1 {
            assert(breaks_off(rule, all, more, d, k - 1));
            assert(groups[k - 1] == more[k - 2]);
        }
    }
    assert(c.last() == d.last());
}

proof fn lemma_one_part(rule: GroupRule, all: Seq<Seq<char>>, i: int)
    requires
        0 <= i < all.len(),
    ensures
        one_group(rule, all, all[i], i, i + 1),
{
    reveal(one_group);
    assert(all.subrange(i, i + 1) =~= seq![all[i]]);
    assert(joined(seq![all[i]], rule.joint()) == all[i]);
}

proof fn lemma_one_more_part(
    rule: GroupRule,
    all: Seq<Seq<char>>,
    text: Seq<char>,
    a: int,
    i: int,
)
    requires
        one_group(rule, all, text, a, i),
        i < all.len(),
        !rule.breaks(text, all[i]),
    ensures
        one_group(rule, all, text + rule.joint() + all[i], a, i + 1),
{
    reveal(one_group);
    lemma_joined_grows(all, a, i, rule.joint());
    assert forall|m: int| a < m < i + 1 implies !rule.breaks(
        joined(all.subrange(a, m), rule.joint()),
        #[trigger] all[m],
    ) by {
        if m == i {
            assert(text == joined(all.subrange(a, m), rule.joint()));
        }
    }
}

proof fn lemma_divides(
    rule: GroupRule,
    s: Seq<char>,
    parts: Seq<(int, int)>,
    a: int,
    i: int,
    group: Extract,
) -> (c: Seq<int>)
    requires
        0 <= a <= i <= parts.len(),
        a == i ==> group.text.len() == 0,
        a < i ==> group.text.len() > 0 && one_group(
            rule,
            part_texts(s, parts),
            group.text,
            a,
            i,
        ),
        rule is Sections || forall|m: int|
            0 <= m < parts.len() ==> (#[trigger] part_texts(s, parts)[m]).len() > 0,
    ensures
        divides(
            rule,
            part_texts(s, parts),
            a,
            extract_texts(grouped(rule, s, parts.skip(i), group)),
            c,
        ),
        a < i ==> c[0] == a,
    decreases parts.len() - i,
{
    let all = part_texts(s, parts);
    let rest = parts.skip(i);
    let g = grouped(rule, s, rest, group);
    let texts = extract_texts(g);
    if i == parts.len() {
        if a == i {
            let c = seq![i];
            assert(texts =~= Seq::<Seq<char>>::empty());
            c
        } else {
            let c = seq![a, i];
            assert(texts =~= seq![group.text]);
            assert(a <= all.len()) by {
                reveal(one_group);
            }
            assert(one_group(rule, all, texts[0], c[0], c[1]));
            c
        }
    } else {
        let p = part_at(s, parts[i]);
        assert(rest[0] == parts[i]);
        assert(rest.skip(1) =~= parts.skip(i + 1));
        assert(all[i] == p.text);
        lemma_one_part(rule, all, i);
        if a == i {
            assert(g == grouped(rule, s, parts.skip(i + 1), p));
            if p.text.len() == 0 {
                let c = lemma_divides(rule, s, parts, i + 1, i + 1, p);
                assert forall|m: int| i <= m < c[0] implies (#[trigger] all[m]).len() == 0 by {}
                c
            } else {
                lemma_divides(rule, s, parts, i, i + 1, p)
            }
        } else if rule.breaks(group.text, p.text) {
            assert(p.text.len() > 0) by {
                if rule is Sections && p.text.len() == 0 {
                    lemma_header(p.text);
                }
            }
            let d = lemma_divides(rule, s, parts, i, i + 1, p);
            let tail = grouped(rule, s, parts.skip(i + 1), p);
            assert(g == seq![group] + tail);
            assert(texts =~= seq![group.text] + extract_texts(tail));
            lemma_divides_front(rule, all, group.text, a, i, extract_texts(tail), d);
            seq![a] + d
        } else {
            let text = group.text + rule.joint() + p.text;
            let both = Extract { text, from: group.from, to: p.to };
            lemma_one_more_part(rule, all, group.text, a, i);
            assert(g == grouped(rule, s, parts.skip(i + 1), both));
            lemma_divides(rule, s, parts, a, i + 1, both)
        }
    }
}

/// A line that opens a section, by its characters: it begins with one to four number signs and a
/// space, or with three dashes, three stars or three equal signs.
pub open spec fn opens(line: Seq<char>) -> bool {
    ||| exists|n: int|
        1 <= n <= 4 && n < line.len() && #[trigger] line[n] == ' ' && forall|i: int|
            0 <= i < n ==> line[i] == '#'
    ||| line.len() >= 3 && line[0] == '-' && line[1] == '-' && line[2] == '-'
    ||| line.len() >= 3 && line[0] == '*' && line[1] == '*' && line[2] == '*'
    ||| line.len() >= 3 && line[0] == '=' && line[1] == '=' && line[2] == '='
}

proof fn lemma_header(line: Seq<char>)
    ensures
        is_header(line) == opens(line),
{
    reveal_strlit("# ");
    reveal_strlit("## ");
    reveal_strlit("### ");
    reveal_strlit("#### ");
    reveal_strlit("---");
    reveal_strlit("***");
    reveal_strlit("===");
    if line.len() >= 2 {
        assert(line.take(2)[0] == line[0] && line.take(2)[1] == line[1]);
    }
    if line.len() >= 3 {
        assert(line.take(3)[0] == line[0] && line.take(3)[1] == line[1] && line.take(3)[2]
            == line[2]);
    }
    if line.len() >= 4 {
        assert(line.take(4)[0] == line[0] && line.take(4)[1] == line[1] && line.take(4)[2]
            == line[2] && line.take(4)[3] == line[3]);
    }
    if line.len() >= 5 {
        assert(line.take(5)[0] == line[0] && line.take(5)[1] == line[1] && line.take(5)[2]
            == line[2] && line.take(5)[3] == line[3] && line.take(5)[4] == line[4]);
    }
    if opens(line) {
        if exists|n: int|
            1 <= n <= 4 && n < line.len() && #[trigger] line[n] == ' ' && forall|i: int|
                0 <= i < n ==> line[i] == '#' {
            let n = choose|n: int|
                1 <= n <= 4 && n < line.len() && #[trigger] line[n] == ' ' && forall|i: int|
                    0 <= i < n ==> line[i] == '#';
            assert(line[0] == '#');
            if n == 1 {
                assert(line.take(2) =~= "# "@);
            } else if n == 2 {
                assert(line[1] == '#');
                assert(line.take(3) =~= "## "@);
            } else if n == 3 {
                assert(line[1] == '#' && line[2] == '#');
                assert(line.take(4) =~= "### "@);
            } else {
                assert(line[1] == '#' && line[2] == '#' && line[3] == '#');
                assert(line.take(5) =~= "#### "@);
            }
        } else if line[0] == '-' {
            assert(line.take(3) =~= "---"@);
        } else if line[0] == '*' {
            assert(line.take(3) =~= "***"@);
        } else {
            assert(line.take(3) =~= "==="@);
        }
    }
    if begins_with(line, "# "@) {
        assert(line[1] == ' ');
    } else if begins_with(line, "## "@) {
        assert(line[2] == ' ');
    } else if begins_with(line, "### "@) {
        assert(line[3] == ' ');
    } else if begins_with(line, "#### "@) {
        assert(line[4] == ' ');
    }
}

/// Section `k` of a text: the lines from `c[k]` up to `c[k + 1]`, joined by newlines. None but the
/// first opens a section, and where it is not the first section, that one does.
pub open spec fn section_at(
    lines: Seq<Seq<char>>,
    sections: Seq<Seq<char>>,
    c: Seq<int>,
    k: int,
) -> bool {
    &&& 0 <= c[k] < c[k + 1] <= lines.len()
    &&& sections[k] == joined(lines.subrange(c[k], c[k + 1]), seq!['\n'])
    &&& k > 0 ==> opens(lines[c[k]])
    &&& forall|m: int| c[k] < m < c[k + 1] ==> !opens(#[trigger] lines[m])
}

proof fn lemma_section_at(
    lines: Seq<Seq<char>>,
    sections: Seq<Seq<char>>,
    c: Seq<int>,
    k: int,
)
    requires
        0 <= k < sections.len(),
        c.len() == sections.len() + 1,
        one_group(GroupRule::Sections, lines, sections[k], c[k], c[k + 1]),
        k > 0 ==> breaks_off(GroupRule::Sections, lines, sections, c, k),
    ensures
        section_at(lines, sections, c, k),
{
    reveal(one_group);
    reveal(breaks_off);
    reveal_strlit("\n");
    assert("\n"@ =~= seq!['\n']);
    lemma_header(lines[c[k]]);
    assert forall|m: int| c[k] < m < c[k + 1] implies !opens(#[trigger] lines[m]) by {
        lemma_header(lines[m]);
        let before = joined(lines.subrange(c[k], m), "\n"@);
        assert(!GroupRule::Sections.breaks(before, lines[m]));
    }
}

/// The sections of a text divide its lines: a section holds the lines from one that opens a
/// section up to the next such line, joined by newlines; the first begins with the first line
/// that is not empty. So every section but the first begins with a line that opens a section,
/// and no section holds such a line behind its first.
pub proof fn law_sections_begin_at_headers(s: Seq<char>) -> (c: Seq<int>)
    ensures
        ({
            let lines = part_texts(s, line_ranges(s, 0));
            let sections = extract_texts(
                grouped(GroupRule::Sections, s, line_ranges(s, 0), no_group()),
            );
            &&& c.len() == sections.len() + 1
            &&& 0 <= c[0] <= lines.len()
            &&& c.last() == lines.len()
            &&& forall|m: int| 0 <= m < c[0] ==> (#[trigger] lines[m]).len() == 0
            &&& forall|k: int|
                0 <= k < sections.len() ==> #[trigger] section_at(lines, sections, c, k)
        }),
{
    let rule = GroupRule::Sections;
    let parts = line_ranges(s, 0);
    let lines = part_texts(s, parts);
    let sections = extract_texts(grouped(rule, s, parts, no_group()));
    assert(parts.skip(0) =~= parts);
    let c = lemma_divides(rule, s, parts, 0, 0, no_group());
    assert forall|k: int| 0 <= k < sections.len() implies #[trigger] section_at(
        lines,
        sections,
        c,
        k,
    ) by {
        assert(one_group(rule, lines, sections[k], c[k], c[k + 1]));
        if k > 0 {
            assert(breaks_off(rule, lines, sections, c, k));
        }
        lemma_section_at(lines, sections, c, k);
    }
    c
}

/// Chunk `k` of a text by sentences: those from `c[k]` up to `c[k + 1]`, joined by spaces. More
/// than one has no more than the tokens allowed, one for four characters. The chunk before would
/// have more with the first of these.
pub open spec fn sentence_chunk_at(
    parts: Seq<Seq<char>>,
    x: Seq<Seq<char>>,
    c: Seq<int>,
    k: int,
    max_tokens: usize,
) -> bool {
    &&& 0 <= c[k] < c[k + 1] <= parts.len()
    &&& x[k] == joined(parts.subrange(c[k], c[k + 1]), seq![' '])
    &&& c[k] + 1 < c[k + 1] ==> x[k].len() / 4 <= max_tokens
    &&& k > 0 ==> (x[k - 1].len() + 1 + parts[c[k]].len()) / 4 > max_tokens
}

/// Chunk `k` of a text by paragraphs: those from `c[k]` up to `c[k + 1]`, joined by empty lines.
/// More than one has no more than the characters allowed. The chunk before would have more with
/// the first of these.
pub open spec fn paragraph_chunk_at(
    parts: Seq<Seq<char>>,
    x: Seq<Seq<char>>,
    c: Seq<int>,
    k: int,
    max_size: usize,
) -> bool {
    &&& 0 <= c[k] < c[k + 1] <= parts.len()
    &&& x[k] == joined(parts.subrange(c[k], c[k + 1]), seq!['\n', '\n'])
    &&& c[k] + 1 < c[k + 1] ==> x[k].len() <= max_size
    &&& k > 0 ==> x[k - 1].len() + 2 + parts[c[k]].len() > max_size
}

proof fn lemma_sentence_chunk_at(
    parts: Seq<Seq<char>>,
    x: Seq<Seq<char>>,
    c: Seq<int>,
    k: int,
    max_tokens: usize,
)
    requires
        0 <= k < x.len(),
        c.len() == x.len() + 1,
        one_group(GroupRule::Sentences(max_tokens), parts, x[k], c[k], c[k + 1]),
        k > 0 ==> breaks_off(GroupRule::Sentences(max_tokens), parts, x, c, k),
    ensures
        sentence_chunk_at(parts, x, c, k, max_tokens),
{
    let rule = GroupRule::Sentences(max_tokens);
    reveal(one_group);
    reveal(breaks_off);
    reveal_strlit(" ");
    assert(" "@ =~= seq![' ']);
    if c[k] + 1 < c[k + 1] {
        let m = c[k + 1] - 1;
        lemma_joined_grows(parts, c[k], m, " "@);
        assert(!rule.breaks(joined(parts.subrange(c[k], m), rule.joint()), parts[m]));
    }
}

proof fn lemma_paragraph_chunk_at(
    parts: Seq<Seq<char>>,
    x: Seq<Seq<char>>,
    c: Seq<int>,
    k: int,
    max_size: usize,
)
    requires
        0 <= k < x.len(),
        c.len() == x.len() + 1,
        one_group(GroupRule::Paragraphs(max_size), parts, x[k], c[k], c[k + 1]),
        k > 0 ==> breaks_off(GroupRule::Paragraphs(max_size), parts, x, c, k),
    ensures
        paragraph_chunk_at(parts, x, c, k, max_size),
{
    let rule = GroupRule::Paragraphs(max_size);
    reveal(one_group);
    reveal(breaks_off);
    reveal_strlit("\n\n");
    assert("\n\n"@ =~= seq!['\n', '\n']);
    if c[k] + 1 < c[k + 1] {
        let m = c[k + 1] - 1;
        lemma_joined_grows(parts, c[k], m, "\n\n"@);
        assert(!rule.breaks(joined(parts.subrange(c[k], m), rule.joint()), parts[m]));
    }
}

proof fn lemma_chunks_divide(strategy: ChunkStrategy, s: Seq<char>) -> (c: Seq<int>)
    requires
        strategy is Sentence || strategy is Paragraph,
    ensures
        divides(
            rule_of(strategy),
            part_texts(s, parts_of(strategy, s)),
            0,
            piece_texts(pieces(strategy, s)),
            c,
        ),
        c[0] == 0,
{
    let rule = rule_of(strategy);
    let ranges = parts_of(strategy, s);
    let parts = part_texts(s, ranges);
    lemma_gathered(strategy, s);
    lemma_placed_texts(s, extracts(strategy, s));
    assert forall|m: int| 0 <= m < ranges.len() implies (#[trigger] parts[m]).len() > 0 by {
        assert(tight(s, ranges[m]));
    }
    assert(ranges.skip(0) =~= ranges);
    let c = lemma_divides(rule, s, ranges, 0, 0, no_group());
    assert(c[0] == 0) by {
        if c[0] > 0 {
            assert(parts[0].len() == 0);
        }
    }
    c
}

/// Chunks of sentences take what fits, and all sentences, in order.
pub proof fn law_sentence_chunks_are_full(s: Seq<char>, max_tokens: usize) -> (c: Seq<int>)
    ensures
        ({
            let parts = part_texts(s, sentence_ranges(s, 0));
            let x = piece_texts(pieces(ChunkStrategy::Sentence { max_tokens }, s));
            &&& c.len() == x.len() + 1
            &&& c[0] == 0
            &&& c.last() == parts.len()
            &&& forall|k: int|
                0 <= k < x.len() ==> #[trigger] sentence_chunk_at(parts, x, c, k, max_tokens)
        }),
{
    let strategy = ChunkStrategy::Sentence { max_tokens };
    let rule = GroupRule::Sentences(max_tokens);
    let parts = part_texts(s, sentence_ranges(s, 0));
    let x = piece_texts(pieces(strategy, s));
    let c = lemma_chunks_divide(strategy, s);
    assert forall|k: int| 0 <= k < x.len() implies #[trigger] sentence_chunk_at(
        parts,
        x,
        c,
        k,
        max_tokens,
    ) by {
        assert(one_group(rule, parts, x[k], c[k], c[k + 1]));
        if k > 0 {
            assert(breaks_off(rule, parts, x, c, k));
        }
        lemma_sentence_chunk_at(parts, x, c, k, max_tokens);
    }
    c
}

/// Chunks of paragraphs take what fits, and all paragraphs, in order.
pub proof fn law_paragraph_chunks_are_full(s: Seq<char>, max_size: usize) -> (c: Seq<int>)
    ensures
        ({
            let parts = part_texts(s, paragraph_ranges(s, 0));
            let x = piece_texts(pieces(ChunkStrategy::Paragraph { max_size }, s));
            &&& c.len() == x.len() + 1
            &&& c[0] == 0
            &&& c.last() == parts.len()
            &&& forall|k: int|
                0 <= k < x.len() ==> #[trigger] paragraph_chunk_at(parts, x, c, k, max_size)
        }),
{
    let strategy = ChunkStrategy::Paragraph { max_size };
    let rule = GroupRule::Paragraphs(max_size);
    let parts = part_texts(s, paragraph_ranges(s, 0));
    let x = piece_texts(pieces(strategy, s));
    let c = lemma_chunks_divide(strategy, s);
    assert forall|k: int| 0 <= k < x.len() implies #[trigger] paragraph_chunk_at(
        parts,
        x,
        c,
        k,
        max_size,
    ) by {
        assert(one_group(rule, parts, x[k], c[k], c[k + 1]));
        if k > 0 {
            assert(breaks_off(rule, parts, x, c, k));
        }
        lemma_paragraph_chunk_at(parts, x, c, k, max_size);
    }
    c
}

/// A section becomes one chunk, without white space around it, where it is no longer than the
/// size. Else it is cut: chunk `i` of the section begins `i` steps into it and has the size, or
/// ends with the section; a step is fifty characters less than the size, at least one. The
/// chunks of several sections follow one another.
pub proof fn law_section_chunks(
    s: Seq<char>,
    sections: Seq<Extract>,
    section: Extract,
    max_size: int,
)
    requires
        max_size > 0,
    ensures
        ({
            let x = extract_texts(section_extracts(s, section, max_size));
            let t = section.text;
            let step = if max_size > 51 {
                max_size - 50
            } else {
                1
            };
            &&& t.len() <= max_size ==> x == seq![trimmed(t)]
            &&& t.len() > max_size ==> {
                &&& (x.len() - 1) * step + max_size >= t.len()
                &&& x.len() > 1
                &&& forall|i: int|
                    0 <= i < x.len() ==> #[trigger] x[i] == t.subrange(
                        i * step,
                        if i < x.len() - 1 {
                            i * step + max_size
                        } else {
                            t.len() as int
                        },
                    )
            }
            &&& extract_texts(sections_extracts(s, sections.push(section), max_size))
                == extract_texts(sections_extracts(s, sections, max_size)) + x
        }),
{
    let e = section_extracts(s, section, max_size);
    let x = extract_texts(e);
    let t = section.text;
    if t.len() <= max_size {
        assert(x =~= seq![trimmed(t)]);
    } else {
        law_fixed_chunks_cover(t, max_size, 50);
        let f = fixed_extracts(t, max_size, 50);
        let step = step_of(max_size, 50);
        assert forall|i: int| 0 <= i < x.len() implies #[trigger] x[i] == t.subrange(
            i * step,
            if i < x.len() - 1 {
                i * step + max_size
            } else {
                t.len() as int
            },
        ) by {
            assert(x[i] == f[i].text);
            assert(f[i].from == i * step);
        }
        let last = x.len() - 1;
        assert(f[last].from == last * step);
        assert(f[last].to == t.len());
        if x.len() == 1 {
            assert(0 * step == 0) by (nonlinear_arith);
        }
    }
    let all = sections.push(section);
    assert(all.drop_last() =~= sections);
    assert(extract_texts(sections_extracts(s, all, max_size)) =~= extract_texts(
        sections_extracts(s, sections, max_size),
    ) + x);
}

/// The chunks of a document are numbered from zero on, in order, and named after the document and
/// the number; each has the number of all chunks.
pub proof fn law_chunks_are_numbered(document: Seq<char>, p: Seq<Piece>)
    ensures
        ({
            let v = numbered(document, p);
            &&& v.len() == p.len()
            &&& forall|i: int|
                0 <= i < v.len() ==> {
                    &&& (#[trigger] v[i]).chunk_index == i
                    &&& v[i].total_chunks == p.len()
                    &&& v[i].document_id == document
                    &&& v[i].id == document + seq!['_'] + crate::text::decimal(i as nat)
                    &&& v[i].content == p[i].content
                    &&& v[i].start_offset == p[i].start
                    &&& v[i].end_offset == p[i].end
                }
        }),
{
    let v = numbered(document, p);
    assert forall|i: int| 0 <= i < v.len() implies (#[trigger] v[i]).id == document + seq!['_']
        + crate::text::decimal(i as nat) by {
        assert(document.push('_') =~= document + seq!['_']);
    }
}

/// The window around a chunk reaches as far to either side as is asked for, or to the end of the
/// document.
pub proof fn law_window(content: Seq<char>, chunk: ChunkView, context: int)
    requires
        0 <= context,
        0 <= chunk.start_offset,
        chunk.end_offset <= bytes(content),
    ensures
        ({
            let a = window_start(chunk, context);
            let b = window_end(content, chunk, context);
            &&& 0 <= a <= chunk.start_offset
            &&& chunk.start_offset - a <= context
            &&& a > 0 ==> chunk.start_offset - a == context
            &&& chunk.end_offset <= b <= encode_utf8(content).len()
            &&& b - chunk.end_offset <= context
            &&& b < encode_utf8(content).len() ==> b - chunk.end_offset == context
        }),
{
}

/// A chunk is placed by bytes: it starts behind as many bytes as the characters before it have,
/// and ends behind as many as those up to its end have.
pub proof fn law_offsets_count_bytes(s: Seq<char>, x: Seq<Extract>, i: int)
    requires
        0 <= i < x.len(),
    ensures
        placed(s, x).len() == x.len(),
        placed(s, x)[i].content == x[i].text,
        placed(s, x)[i].start == encode_utf8(s.take(x[i].from)).len(),
        placed(s, x)[i].end == encode_utf8(s.take(x[i].to)).len(),
{
}

/// The chunks of a document have different identifiers, each with that of the document in front.
pub proof fn law_chunk_ids_are_distinct(document: Seq<char>, i: nat, j: nat)
    ensures
        chunk_id(document, i) == chunk_id(document, j) ==> i == j,
        chunk_id(document, i).take(document.len() as int) == document,
        chunk_id(document, i)[document.len() as int] == '_',
{
    let a = chunk_id(document, i);
    let b = chunk_id(document, j);
    let n = document.len() + 1;
    assert(a.take(document.len() as int) =~= document);
    assert(a.skip(n as int) =~= decimal(i));
    assert(b.skip(n as int) =~= decimal(j));
    crate::text::law_decimal(i);
    crate::text::law_decimal(j);
}

} // verus!
