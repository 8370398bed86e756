//! What the commands decide, and what they report.

use vstd::prelude::*;

use crate::output::line::{
    add_line, line_views, plain, rule, rule_text, styled, Line, SpanView, Style,
};
use crate::rag::chunker::{
    chunk_views, numbered, pieces, ChunkStrategy, ChunkView, Chunker, DocumentChunk,
};
use crate::storage::json::{json_fields_view, json_view, lemma_json_fields_view, Json, JsonView};
use crate::storage::vector::DistanceMetric;
use crate::text::{
    copy_str, decimal, decimal_string, lowercase, parts_from, preview, previewable, previewed,
    push_decimal, push_str, same_text, split_at_char, texts, to_lower,
};

verus! {

/// How results are written.
#[derive(Debug, Clone, Copy, PartialEq, Eq, Structural)]
pub enum OutputFormat {
    /// For a reader.
    Table,
    /// As JSON.
    Json,
    /// As comma-separated values.
    Csv,
}

impl Default for OutputFormat {
    fn default() -> (r: Self)
        ensures
            r == OutputFormat::Table,
    {
        OutputFormat::Table
    }
}

/// How the data of a type is viewed.
#[derive(Debug, Clone, Copy, PartialEq, Eq, Structural)]
pub enum ViewMode {
    /// As rows.
    Table,
    /// As nodes and edges.
    Graph,
    /// As keys and values.
    Kv,
}

impl Default for ViewMode {
    fn default() -> (r: Self)
        ensures
            r == ViewMode::Table,
    {
        ViewMode::Table
    }
}

/// How retrieved context is written.
#[derive(Debug, Clone, Copy, PartialEq, Eq, Structural)]
pub enum ContextOutput {
    /// As JSON.
    Json,
    /// As text.
    Text,
    /// As a prompt.
    Llm,
}

/// Why a command cannot be run.
#[derive(Debug)]
pub enum CommandError {
    /// There is neither a text nor a file.
    NoContent,
    /// A file cannot be read, for a reason.
    Unreadable(String, String),
    /// There is no such strategy.
    UnknownStrategy(String),
    /// A vector cannot be parsed, for a reason.
    InvalidVector(String),
}

impl CommandError {
    /// The message of the error.
    pub open spec fn text(&self) -> Seq<char> {
        match *self {
            CommandError::NoContent => "Must provide --text or --file"@,
            CommandError::Unreadable(path, reason) => "Failed to read file "@ + path@ + ": "@
                + reason@,
            CommandError::UnknownStrategy(name) => "Unknown strategy: "@ + name@
                + ". Use: fixed, sentence, paragraph, semantic"@,
            CommandError::InvalidVector(reason) => "Invalid vector JSON: "@ + reason@
                + ". Expected format: [0.1, 0.2, ...]"@,
        }
    }

    /// The message of the error.
    pub fn message(&self) -> (r: String)
        ensures
            r@ == self.text(),
    {
        match self {
            CommandError::NoContent => copy_str("Must provide --text or --file"),
            CommandError::Unreadable(path, reason) => {
                let mut m = copy_str("Failed to read file ");
                push_str(&mut m, path.as_str());
                push_str(&mut m, ": ");
                push_str(&mut m, reason.as_str());
                m
            },
            CommandError::UnknownStrategy(name) => {
                let mut m = copy_str("Unknown strategy: ");
                push_str(&mut m, name.as_str());
                push_str(&mut m, ". Use: fixed, sentence, paragraph, semantic");
                m
            },
            CommandError::InvalidVector(reason) => {
                let mut m = copy_str("Invalid vector JSON: ");
                push_str(&mut m, reason.as_str());
                push_str(&mut m, ". Expected format: [0.1, 0.2, ...]");
                m
            },
        }
    }
}

/// Where the content of a document is.
#[derive(Debug)]
pub enum Source {
    /// In a text.
    Text(String),
    /// In a file.
    File(String),
}

/// Whether some content comes from where it was asked for: the text, or else the file.
pub open spec fn source_chosen(
    r: Result<Source, CommandError>,
    text: Option<&str>,
    file: Option<&str>,
) -> bool {
    match (text, file) {
        (Some(t), _) => r matches Ok(Source::Text(s)) && s@ == t@,
        (None, Some(f)) => r matches Ok(Source::File(s)) && s@ == f@,
        (None, None) => r == Err::<Source, CommandError>(CommandError::NoContent),
    }
}

/// Where the content of a document is to come from.
pub fn content_source(text: Option<&str>, file: Option<&str>) -> (r: Result<Source, CommandError>)
    ensures
        source_chosen(r, text, file),
{
    match text {
        Some(t) => Ok(Source::Text(copy_str(t))),
        None => match file {
            Some(f) => Ok(Source::File(copy_str(f))),
            None => Err(CommandError::NoContent),
        },
    }
}

/// The strategy with a name in lower case.
pub open spec fn strategy_named(lower: Seq<char>, size: usize, overlap: usize) -> Option<
    ChunkStrategy,
> {
    if lower == "fixed"@ {
        Some(ChunkStrategy::FixedSize { chunk_size: size, overlap })
    } else if lower == "sentence"@ {
        Some(ChunkStrategy::Sentence { max_tokens: size })
    } else if lower == "paragraph"@ {
        Some(ChunkStrategy::Paragraph { max_size: size })
    } else if lower == "semantic"@ {
        Some(ChunkStrategy::Semantic { max_size: size })
    } else {
        None
    }
}

/// The strategy with a name in lower case.
pub fn strategy_of(lower: &str, size: usize, overlap: usize) -> (r: Option<ChunkStrategy>)
    ensures
        r == strategy_named(lower@, size, overlap),
{
    if same_text(lower, "fixed") {
        Some(ChunkStrategy::FixedSize { chunk_size: size, overlap })
    } else if same_text(lower, "sentence") {
        Some(ChunkStrategy::Sentence { max_tokens: size })
    } else if same_text(lower, "paragraph") {
        Some(ChunkStrategy::Paragraph { max_size: size })
    } else if same_text(lower, "semantic") {
        Some(ChunkStrategy::Semantic { max_size: size })
    } else {
        None
    }
}

/// Splits a document by the strategy with a name, letter case aside.
pub fn chunk_document(
    document_id: &str,
    strategy: &str,
    size: usize,
    overlap: usize,
    content: &str,
) -> (r: Result<Vec<DocumentChunk>, CommandError>)
    ensures
        match strategy_named(lowercase(strategy@), size, overlap) {
            Some(s) => r matches Ok(chunks) && chunk_views(chunks@) == numbered(
                document_id@,
                pieces(s, content@),
            ),
            None => r matches Err(CommandError::UnknownStrategy(n)) && n@ == strategy@,
        },
{
    let lower = to_lower(strategy);
    match strategy_of(lower.as_str(), size, overlap) {
        Some(s) => Ok(Chunker::new(s).chunk(document_id, content)),
        None => Err(CommandError::UnknownStrategy(copy_str(strategy))),
    }
}

/// Splits a document for ingestion: into chunks of one size.
pub fn ingest_chunks(document_id: &str, chunk_size: usize, overlap: usize, content: &str) -> (r: Vec<
    DocumentChunk,
>)
    ensures
        chunk_views(r@) == numbered(
            document_id@,
            pieces(ChunkStrategy::FixedSize { chunk_size, overlap }, content@),
        ),
{
    Chunker::new(ChunkStrategy::FixedSize { chunk_size, overlap }).chunk(document_id, content)
}

/// How many chunks a document was split into.
pub open spec fn chunk_report(count: nat, strategy: Seq<char>) -> Seq<SpanView> {
    seq![
        styled(Style::Blue, "●"@),
        plain(" Split document into "@),
        styled(Style::Yellow, decimal(count)),
        plain(" chunks using "@),
        styled(Style::Cyan, strategy),
        plain(" strategy"@),
    ]
}

/// Reports how many chunks a document was split into.
pub fn report_chunks(count: usize, strategy: &str) -> (r: Line)
    ensures
        r@ == chunk_report(count as nat, strategy@),
{
    let mut r = Line::new();
    r.push(Style::Blue, "●");
    r.push(Style::Plain, " Split document into ");
    r.push(Style::Yellow, decimal_string(count as u64).as_str());
    r.push(Style::Plain, " chunks using ");
    r.push(Style::Cyan, strategy);
    r.push(Style::Plain, " strategy");
    assert(r@ =~= chunk_report(count as nat, strategy@));
    r
}

/// The heading of a chunk.
pub open spec fn heading(c: ChunkView) -> Seq<char> {
    rule_text(40) + " Chunk "@ + decimal((c.chunk_index + 1) as nat) + "/"@ + decimal(
        c.total_chunks as nat,
    ) + " (chars: "@ + decimal(c.start_offset as nat) + "-"@ + decimal(c.end_offset as nat)
        + ")"@
}

/// The lines that show a chunk: an empty one, its heading and the beginning of its text.
pub open spec fn chunk_shown(c: ChunkView) -> Seq<Seq<SpanView>> {
    seq![
        Seq::empty(),
        seq![plain(heading(c))],
        seq![styled(Style::White, previewed(c.content, 200, 200))],
    ]
}

/// The lines that show some chunks.
pub open spec fn chunks_shown(c: Seq<ChunkView>) -> Seq<Seq<SpanView>>
    decreases c.len(),
{
    if c.len() == 0 {
        Seq::empty()
    } else {
        chunks_shown(c.drop_last()) + chunk_shown(c.last())
    }
}

/// Shows some chunks. The text of a long chunk is cut behind its 200th byte, which must end
/// a character.
pub fn show_chunks(chunks: &[DocumentChunk]) -> (r: Vec<Line>)
    requires
        forall|i: int|
            0 <= i < chunks@.len() ==> previewable((#[trigger] chunks@[i]).content@, 200, 200)
                && chunks@[i].chunk_index < usize::MAX,
    ensures
        line_views(r@) == chunks_shown(chunk_views(chunks@)),
{
    let mut r: Vec<Line> = Vec::new();
    let mut i: usize = 0;
    assert(line_views(r@) =~= Seq::<Seq<SpanView>>::empty());
    while i < chunks.len()
        invariant
            i <= chunks@.len(),
            forall|j: int|
                0 <= j < chunks@.len() ==> previewable((#[trigger] chunks@[j]).content@, 200, 200)
                    && chunks@[j].chunk_index < usize::MAX,
            line_views(r@) == chunks_shown(chunk_views(chunks@.take(i as int))),
        decreases chunks@.len() - i,
    {
        let c = &chunks[i];
        let ghost so_far = line_views(r@);
        let mut text = rule(40);
        push_str(&mut text, " Chunk ");
        push_decimal(&mut text, (c.chunk_index + 1) as u64);
        push_str(&mut text, "/");
        push_decimal(&mut text, c.total_chunks as u64);
        push_str(&mut text, " (chars: ");
        push_decimal(&mut text, c.start_offset as u64);
        push_str(&mut text, "-");
        push_decimal(&mut text, c.end_offset as u64);
        push_str(&mut text, ")");
        assert(text@ =~= heading(c@));
        let mut head = Line::new();
        head.push(Style::Plain, text.as_str());
        let mut body = Line::new();
        body.push(Style::White, preview(c.content.as_str(), 200, 200).as_str());
        assert(head@ =~= seq![plain(heading(c@))]);
        assert(body@ =~= seq![styled(Style::White, previewed(c@.content, 200, 200))]);
        add_line(&mut r, Line::new());
        add_line(&mut r, head);
        add_line(&mut r, body);
        proof {
            let now = chunk_views(chunks@.take(i + 1));
            assert(now.drop_last() =~= chunk_views(chunks@.take(i as int)));
            assert(now.last() == c@);
            assert(line_views(r@) =~= so_far + chunk_shown(c@));
        }
        i = i + 1;
    }
    assert(chunks@.take(i as int) =~= chunks@);
    r
}

/// The value of a field that is stored with a chunk.
#[derive(Debug)]
pub enum FieldValue {
    /// A text.
    Text(String),
    /// A number.
    Count(u64),
}

/// The value of a field, as a sequence.
pub enum FieldView {
    /// A text.
    Text(Seq<char>),
    /// A number.
    Count(int),
}

impl View for FieldValue {
    type V = FieldView;

    open spec fn view(&self) -> FieldView {
        match *self {
            FieldValue::Text(t) => FieldView::Text(t@),
            FieldValue::Count(n) => FieldView::Count(n as int),
        }
    }
}

/// Names and values of some fields.
pub open spec fn field_views(v: Seq<(String, FieldValue)>) -> Seq<(Seq<char>, FieldView)> {
    v.map_values(|f: (String, FieldValue)| (f.0@, f.1@))
}

/// The fields that are stored with a chunk, with or without its offsets.
pub open spec fn chunk_field_views(c: ChunkView, offsets: bool) -> Seq<(Seq<char>, FieldView)> {
    let fields = seq![
        ("content"@, FieldView::Text(c.content)),
        ("document_id"@, FieldView::Text(c.document_id)),
        ("chunk_index"@, FieldView::Count(c.chunk_index)),
        ("total_chunks"@, FieldView::Count(c.total_chunks)),
    ];
    if offsets {
        fields.push(("start_offset"@, FieldView::Count(c.start_offset))).push(
            ("end_offset"@, FieldView::Count(c.end_offset)),
        )
    } else {
        fields
    }
}

/// The fields that are stored with a chunk, with or without its offsets.
pub fn chunk_fields(chunk: &DocumentChunk, offsets: bool) -> (r: Vec<(String, FieldValue)>)
    ensures
        field_views(r@) == chunk_field_views(chunk@, offsets),
{
    let mut r: Vec<(String, FieldValue)> = Vec::new();
    r.push((copy_str("content"), FieldValue::Text(copy_str(chunk.content.as_str()))));
    r.push((copy_str("document_id"), FieldValue::Text(copy_str(chunk.document_id.as_str()))));
    r.push((copy_str("chunk_index"), FieldValue::Count(chunk.chunk_index as u64)));
    r.push((copy_str("total_chunks"), FieldValue::Count(chunk.total_chunks as u64)));
    if offsets {
        r.push((copy_str("start_offset"), FieldValue::Count(chunk.start_offset as u64)));
        r.push((copy_str("end_offset"), FieldValue::Count(chunk.end_offset as u64)));
    }
    assert(field_views(r@) =~= chunk_field_views(chunk@, offsets));
    r
}

/// Position of the first field with a name, or the number of fields.
pub open spec fn field_place<N>(f: Seq<(Seq<char>, JsonView<N>)>, key: Seq<char>) -> int
    decreases f.len(),
{
    if f.len() == 0 {
        0
    } else {
        let p = field_place(f.drop_last(), key);
        if p < f.len() - 1 || f.last().0 == key {
            p
        } else {
            f.len() as int
        }
    }
}

/// Fields with one of them set.
pub open spec fn field_set<N>(
    f: Seq<(Seq<char>, JsonView<N>)>,
    key: Seq<char>,
    value: JsonView<N>,
) -> Seq<(Seq<char>, JsonView<N>)> {
    let p = field_place(f, key);
    if p < f.len() {
        f.update(p, (key, value))
    } else {
        f.push((key, value))
    }
}

/// Fields with some of them set, one after the other.
pub open spec fn fields_set<N>(
    f: Seq<(Seq<char>, JsonView<N>)>,
    more: Seq<(Seq<char>, JsonView<N>)>,
) -> Seq<(Seq<char>, JsonView<N>)>
    decreases more.len(),
{
    if more.len() == 0 {
        f
    } else {
        field_set(fields_set(f, more.drop_last()), more.last().0, more.last().1)
    }
}

/// JSON with some fields set, where it is an object.
pub open spec fn with_fields<N>(base: JsonView<N>, more: Seq<(Seq<char>, JsonView<N>)>) -> JsonView<
    N,
> {
    match base {
        JsonView::Object(f) => JsonView::Object(fields_set(f, more)),
        other => other,
    }
}

/// The first field with a name stands where its place is.
proof fn lemma_field_place<N>(f: Seq<(Seq<char>, JsonView<N>)>, key: Seq<char>, p: int)
    requires
        0 <= p <= f.len(),
        forall|i: int| 0 <= i < p ==> (#[trigger] f[i]).0 != key,
        p < f.len() ==> f[p].0 == key,
    ensures
        field_place(f, key) == p,
    decreases f.len(),
{
    if f.len() > 0 {
        if p < f.len() {
            lemma_field_place(f.drop_last(), key, p);
        } else {
            lemma_field_place(f.drop_last(), key, p - 1);
            assert(f[p - 1].0 != key);
        }
    }
}

/// What the place of a name says.
proof fn lemma_place_found<N>(f: Seq<(Seq<char>, JsonView<N>)>, key: Seq<char>)
    ensures
        0 <= field_place(f, key) <= f.len(),
        forall|i: int| 0 <= i < field_place(f, key) ==> (#[trigger] f[i]).0 != key,
        field_place(f, key) < f.len() ==> f[field_place(f, key)].0 == key,
    decreases f.len(),
{
    if f.len() > 0 {
        lemma_place_found(f.drop_last(), key);
        assert forall|i: int| 0 <= i < field_place(f, key) implies (#[trigger] f[i]).0 != key by {
            if i < f.len() - 1 {
                assert(f.drop_last()[i] == f[i]);
            }
        }
    }
}

/// The value of the first field with a name.
pub open spec fn field_value<N>(f: Seq<(Seq<char>, JsonView<N>)>, key: Seq<char>) -> Option<
    JsonView<N>,
> {
    if field_place(f, key) < f.len() {
        Some(f[field_place(f, key)].1)
    } else {
        None
    }
}

/// A field reads back as it was set, and the others keep their values.
pub proof fn law_set_field_reads_back<N>(
    f: Seq<(Seq<char>, JsonView<N>)>,
    key: Seq<char>,
    value: JsonView<N>,
    other: Seq<char>,
)
    ensures
        field_value(field_set(f, key, value), key) == Some(value),
        other != key ==> field_value(field_set(f, key, value), other) == field_value(f, other),
{
    let g = field_set(f, key, value);
    let p = field_place(f, key);
    lemma_place_found(f, key);
    lemma_field_place(g, key, p);
    if other != key {
        let q = field_place(f, other);
        lemma_place_found(f, other);
        if q < f.len() {
            lemma_field_place(g, other, q);
        } else {
            assert forall|i: int| 0 <= i < g.len() implies (#[trigger] g[i]).0 != other by {
                if i < f.len() {
                    assert(f[i].0 != other);
                }
            }
            lemma_field_place(g, other, g.len() as int);
        }
    }
}

fn set_field<N>(fields: &mut Vec<(String, Json<N>)>, key: String, value: Json<N>)
    ensures
        json_fields_view(final(fields)@) == field_set(
            json_fields_view(old(fields)@),
            key@,
            json_view(value),
        ),
{
    let ghost was = json_fields_view(fields@);
    proof {
        lemma_json_fields_view(fields@);
    }
    let mut p: usize = 0;
    while p < fields.len() && !same_text(fields[p].0.as_str(), key.as_str())
        invariant
            p <= fields@.len(),
            fields@ == old(fields)@,
            was == json_fields_view(fields@),
            was.len() == fields@.len(),
            forall|i: int| 0 <= i < was.len() ==> #[trigger] was[i] == (
                fields@[i].0@,
                json_view(fields@[i].1),
            ),
            forall|i: int| 0 <= i < p ==> (#[trigger] was[i]).0 != key@,
        decreases fields@.len() - p,
    {
        p = p + 1;
    }
    proof {
        lemma_field_place(was, key@, p as int);
    }
    if p < fields.len() {
        fields.set(p, (key, value));
    } else {
        fields.push((key, value));
    }
    proof {
        lemma_json_fields_view(fields@);
        assert(json_fields_view(fields@) =~= field_set(was, key@, json_view(value)));
    }
}

/// Sets fields of JSON, where it is an object.
pub fn set_fields<N>(base: Json<N>, more: Vec<(String, Json<N>)>) -> (r: Json<N>)
    ensures
        json_view(r) == with_fields(json_view(base), json_fields_view(more@)),
{
    match base {
        Json::Object(fields) => {
            let ghost start = json_fields_view(fields@);
            let ghost all = more@;
            let mut fields = fields;
            for f in it: more.into_iter()
                invariant
                    it.seq() == all,
                    json_fields_view(fields@) == fields_set(
                        start,
                        json_fields_view(all.take(it.index())),
                    ),
            {
                let ghost i = it.index();
                proof {
                    let now = json_fields_view(all.take(i + 1));
                    assert(all.take(i + 1).drop_last() =~= all.take(i));
                    assert(now.drop_last() =~= json_fields_view(all.take(i)));
                }
                set_field(&mut fields, f.0, f.1);
            }
            assert(all.take(all.len() as int) =~= all);
            Json::Object(fields)
        },
        other => other,
    }
}

/// Whether progress is shown once the chunk at a position is stored: every ten chunks, and at
/// the end.
pub fn progress_due(position: usize, total: usize) -> (r: bool)
    requires
        position < usize::MAX,
    ensures
        r == ((position + 1) % 10 == 0 || position + 1 == total),
{
    (position + 1) % 10 == 0 || position + 1 == total
}

/// The metric with a name in lower case.
pub open spec fn metric_named(lower: Seq<char>) -> Option<DistanceMetric> {
    if lower == "cosine"@ {
        Some(DistanceMetric::Cosine)
    } else if lower == "euclidean"@ || lower == "l2"@ {
        Some(DistanceMetric::Euclidean)
    } else if lower == "dot"@ || lower == "dotproduct"@ || lower == "inner"@ {
        Some(DistanceMetric::DotProduct)
    } else if lower == "manhattan"@ || lower == "l1"@ {
        Some(DistanceMetric::Manhattan)
    } else {
        None
    }
}

/// The metric with a name in lower case.
pub fn metric_of(lower: &str) -> (r: Option<DistanceMetric>)
    ensures
        r == metric_named(lower@),
{
    if same_text(lower, "cosine") {
        Some(DistanceMetric::Cosine)
    } else if same_text(lower, "euclidean") || same_text(lower, "l2") {
        Some(DistanceMetric::Euclidean)
    } else if same_text(lower, "dot") || same_text(lower, "dotproduct") || same_text(
        lower,
        "inner",
    ) {
        Some(DistanceMetric::DotProduct)
    } else if same_text(lower, "manhattan") || same_text(lower, "l1") {
        Some(DistanceMetric::Manhattan)
    } else {
        None
    }
}

/// The metric with a name, letter case aside, and whether there is one: where there is none,
/// it is the cosine.
pub fn parse_metric(name: &str) -> (r: (DistanceMetric, bool))
    ensures
        match metric_named(lowercase(name@)) {
            Some(m) => r == (m, true),
            None => r == (DistanceMetric::Cosine, false),
        },
{
    let lower = to_lower(name);
    match metric_of(lower.as_str()) {
        Some(m) => (m, true),
        None => (DistanceMetric::Cosine, false),
    }
}

/// The output with a name in lower case.
pub open spec fn output_named(lower: Seq<char>) -> ContextOutput {
    if lower == "json"@ {
        ContextOutput::Json
    } else if lower == "text"@ {
        ContextOutput::Text
    } else {
        ContextOutput::Llm
    }
}

/// The output with a name in lower case.
pub fn output_of(lower: &str) -> (r: ContextOutput)
    ensures
        r == output_named(lower@),
{
    if same_text(lower, "json") {
        ContextOutput::Json
    } else if same_text(lower, "text") {
        ContextOutput::Text
    } else {
        ContextOutput::Llm
    }
}

/// The output with a name, letter case aside.
pub fn parse_output(name: &str) -> (r: ContextOutput)
    ensures
        r == output_named(lowercase(name@)),
{
    let lower = to_lower(name);
    output_of(lower.as_str())
}

/// The types of edges that a list separated by commas names.
pub fn edge_types(edges: Option<&str>) -> (r: Option<Vec<String>>)
    ensures
        match edges {
            Some(e) => r matches Some(v) && texts(v@) == parts_from(e@, ',', 0, 0),
            None => r is None,
        },
{
    match edges {
        Some(e) => Some(split_at_char(e, ',')),
        None => None,
    }
}

/// The name of a new database: the one that was asked for, or else that of its directory.
pub open spec fn name_chosen(name: Option<&str>, directory: Option<&str>) -> Seq<char> {
    match (name, directory) {
        (Some(n), _) => n@,
        (None, Some(d)) => d@,
        (None, None) => "aresadb"@,
    }
}

/// The name of a new database.
pub fn database_name(name: Option<&str>, directory: Option<&str>) -> (r: String)
    ensures
        r@ == name_chosen(name, directory),
{
    match name {
        Some(n) => copy_str(n),
        None => match directory {
            Some(d) => copy_str(d),
            None => copy_str("aresadb"),
        },
    }
}

/// What was done to schemas.
#[derive(Debug)]
pub enum SchemaReport {
    /// A schema was created.
    Created(String),
    /// Two schemas were related.
    Linked(String, String),
    /// A schema was dropped.
    Dropped(String),
    /// So many migrations were applied.
    Migrated(usize),
}

/// The line that reports what was done to schemas.
pub open spec fn schema_reported(report: SchemaReport) -> Seq<SpanView> {
    seq![styled(Style::BoldGreen, "✓"@)] + match report {
        SchemaReport::Created(name) => seq![
            plain(" Created schema '"@),
            styled(Style::Yellow, name@),
            plain("'"@),
        ],
        SchemaReport::Linked(from, to) => seq![
            plain(" Created relationship "@),
            styled(Style::Cyan, from@),
            plain(" -> "@),
            styled(Style::Cyan, to@),
        ],
        SchemaReport::Dropped(name) => seq![
            plain(" Dropped schema '"@),
            styled(Style::Yellow, name@),
            plain("'"@),
        ],
        SchemaReport::Migrated(n) => seq![
            plain(" Applied "@),
            plain(decimal(n as nat)),
            plain(" migrations"@),
        ],
    }
}

/// Reports what was done to schemas.
pub fn report_schema(report: &SchemaReport) -> (r: Line)
    ensures
        r@ == schema_reported(*report),
{
    let mut r = Line::new();
    r.push(Style::BoldGreen, "✓");
    match report {
        SchemaReport::Created(name) => {
            r.push(Style::Plain, " Created schema '");
            r.push(Style::Yellow, name.as_str());
            r.push(Style::Plain, "'");
        },
        SchemaReport::Linked(from, to) => {
            r.push(Style::Plain, " Created relationship ");
            r.push(Style::Cyan, from.as_str());
            r.push(Style::Plain, " -> ");
            r.push(Style::Cyan, to.as_str());
        },
        SchemaReport::Dropped(name) => {
            r.push(Style::Plain, " Dropped schema '");
            r.push(Style::Yellow, name.as_str());
            r.push(Style::Plain, "'");
        },
        SchemaReport::Migrated(n) => {
            r.push(Style::Plain, " Applied ");
            r.push(Style::Plain, decimal_string(*n as u64).as_str());
            r.push(Style::Plain, " migrations");
        },
    }
    assert(r@ =~= schema_reported(*report));
    r
}

/// The names of the metrics, by their characters.
pub proof fn law_metric_names(lower: Seq<char>)
    ensures
        metric_named(lower) == Some(DistanceMetric::Cosine) <==> {
            ||| lower == seq!['c', 'o', 's', 'i', 'n', 'e']
        },
        metric_named(lower) == Some(DistanceMetric::Euclidean) <==> {
            ||| lower == seq!['e', 'u', 'c', 'l', 'i', 'd', 'e', 'a', 'n']
            ||| lower == seq!['l', '2']
        },
        metric_named(lower) == Some(DistanceMetric::DotProduct) <==> {
            ||| lower == seq!['d', 'o', 't']
            ||| lower == seq!['d', 'o', 't', 'p', 'r', 'o', 'd', 'u', 'c', 't']
            ||| lower == seq!['i', 'n', 'n', 'e', 'r']
        },
        metric_named(lower) == Some(DistanceMetric::Manhattan) <==> {
            ||| lower == seq!['m', 'a', 'n', 'h', 'a', 't', 't', 'a', 'n']
            ||| lower == seq!['l', '1']
        },
{
    reveal_strlit("cosine");
    assert("cosine"@ =~= seq!['c', 'o', 's', 'i', 'n', 'e']);
    reveal_strlit("euclidean");
    assert("euclidean"@ =~= seq!['e', 'u', 'c', 'l', 'i', 'd', 'e', 'a', 'n']);
    reveal_strlit("l2");
    assert("l2"@ =~= seq!['l', '2']);
    reveal_strlit("dot");
    assert("dot"@ =~= seq!['d', 'o', 't']);
    reveal_strlit("dotproduct");
    assert("dotproduct"@ =~= seq!['d', 'o', 't', 'p', 'r', 'o', 'd', 'u', 'c', 't']);
    reveal_strlit("inner");
    assert("inner"@ =~= seq!['i', 'n', 'n', 'e', 'r']);
    reveal_strlit("manhattan");
    assert("manhattan"@ =~= seq!['m', 'a', 'n', 'h', 'a', 't', 't', 'a', 'n']);
    reveal_strlit("l1");
    assert("l1"@ =~= seq!['l', '1']);
    assert(seq!['e', 'u', 'c', 'l', 'i', 'd', 'e', 'a', 'n'][0] != seq!['m', 'a', 'n', 'h', 'a', 't', 't', 'a', 'n'][0]);
    assert(seq!['l', '2'][1] != seq!['l', '1'][1]);
}

/// The names of the strategies, by their characters, and what the size stands for in each.
pub proof fn law_strategy_names(lower: Seq<char>, size: usize, overlap: usize)
    ensures
        strategy_named(lower, size, overlap) == Some(
            (ChunkStrategy::FixedSize { chunk_size: size, overlap }),
        ) <==> {
            ||| lower == seq!['f', 'i', 'x', 'e', 'd']
        },
        strategy_named(lower, size, overlap) == Some((ChunkStrategy::Sentence { max_tokens: size })) <==> {
            ||| lower == seq!['s', 'e', 'n', 't', 'e', 'n', 'c', 'e']
        },
        strategy_named(lower, size, overlap) == Some((ChunkStrategy::Paragraph { max_size: size })) <==> {
            ||| lower == seq!['p', 'a', 'r', 'a', 'g', 'r', 'a', 'p', 'h']
        },
        strategy_named(lower, size, overlap) == Some((ChunkStrategy::Semantic { max_size: size })) <==> {
            ||| lower == seq!['s', 'e', 'm', 'a', 'n', 't', 'i', 'c']
        },
{
    reveal_strlit("fixed");
    assert("fixed"@ =~= seq!['f', 'i', 'x', 'e', 'd']);
    reveal_strlit("sentence");
    assert("sentence"@ =~= seq!['s', 'e', 'n', 't', 'e', 'n', 'c', 'e']);
    reveal_strlit("paragraph");
    assert("paragraph"@ =~= seq!['p', 'a', 'r', 'a', 'g', 'r', 'a', 'p', 'h']);
    reveal_strlit("semantic");
    assert("semantic"@ =~= seq!['s', 'e', 'm', 'a', 'n', 't', 'i', 'c']);
    assert(seq!['s', 'e', 'n', 't', 'e', 'n', 'c', 'e'][2] != seq!['s', 'e', 'm', 'a', 'n', 't', 'i', 'c'][2]);
}

/// Fields that are set one after the other read back, each where it is the last with its name;
/// fields with other names keep their values.
pub proof fn law_set_fields_read_back<N>(
    f: Seq<(Seq<char>, JsonView<N>)>,
    more: Seq<(Seq<char>, JsonView<N>)>,
    i: int,
    other: Seq<char>,
)
    requires
        forall|j: int| 0 <= j < more.len() ==> (#[trigger] more[j]).0 != other,
    ensures
        field_value(fields_set(f, more), other) == field_value(f, other),
        0 <= i < more.len() && (forall|j: int|
            i < j < more.len() ==> (#[trigger] more[j]).0 != more[i].0) ==> field_value(
            fields_set(f, more),
            more[i].0,
        ) == Some(more[i].1),
    decreases more.len(),
{
    if more.len() > 0 {
        let head = more.drop_last();
        let n = more.len() - 1;
        assert forall|j: int| 0 <= j < head.len() implies (#[trigger] head[j]).0 != other by {
            assert(more[j].0 != other);
        }
        assert(more[n].0 != other);
        law_set_fields_read_back(f, head, i, other);
        let g = fields_set(f, head);
        law_set_field_reads_back(g, more[n].0, more[n].1, other);
        if 0 <= i < more.len() && (forall|j: int|
            i < j < more.len() ==> (#[trigger] more[j]).0 != more[i].0) {
            law_set_field_reads_back(g, more[n].0, more[n].1, more[i].0);
            if i < n {
                assert(more[n].0 != more[i].0);
                assert(head[i] == more[i]);
                assert forall|j: int| i < j < head.len() implies (#[trigger] head[j]).0
                    != head[i].0 by {
                    assert(more[j].0 != more[i].0);
                }
            }
        }
    }
}

} // verus!
