//! Rendering of nodes, schemas and results.

use vstd::prelude::*;

use super::line::{
    add_line, line_of, line_views, plain, plain_parts, rule, rule_text, styled, Line, SpanView,
    Style,
};
use crate::cli::commands::OutputFormat;
use crate::storage::database::KvView;
use crate::storage::graph::Node;
use crate::storage::node::uuid_text;
use crate::storage::value::{
    displayed, segment_views, PropertyMap, Segment, SegmentView, Value, ValueView,
};
use crate::text::{
    copy_str, decimal, decimal_string, join, joined, preview, previewable, previewed,
    push_decimal, push_str, texts, to_chars,
};

verus! {

/// What is to be shown.
#[derive(Debug)]
pub enum Output {
    /// Some lines.
    Lines(Vec<Line>),
    /// A table of the rows.
    Table,
    /// The rows as comma-separated values.
    Rows,
    /// A drawing of the graph.
    Drawing,
    /// JSON.
    Json,
}

/// Whether some lines are to be shown.
pub open spec fn shows(o: Output, lines: Seq<Seq<SpanView>>) -> bool {
    o matches Output::Lines(l) && line_views(l@) == lines
}

/// Whether a text has to be quoted among comma-separated values.
pub open spec fn needs_quotes(s: Seq<char>) -> bool {
    s.contains(',') || s.contains('"') || s.contains('\n')
}

/// A text with its quotation marks doubled.
pub open spec fn quotes_doubled(s: Seq<char>) -> Seq<char>
    decreases s.len(),
{
    if s.len() == 0 {
        Seq::empty()
    } else if s.last() == '"' {
        quotes_doubled(s.drop_last()).push('"').push('"')
    } else {
        quotes_doubled(s.drop_last()).push(s.last())
    }
}

/// A text as one of several comma-separated values.
pub open spec fn csv_text(s: Seq<char>) -> Seq<char> {
    if needs_quotes(s) {
        "\""@ + quotes_doubled(s) + "\""@
    } else {
        s
    }
}

/// A text as one of several comma-separated values: in quotation marks where it holds a comma,
/// a quotation mark or a newline.
pub fn csv_field(s: &str) -> (r: String)
    ensures
        r@ == csv_text(s@),
{
    let chars = to_chars(s);
    let mut quote: bool = false;
    let mut body = String::new();
    let mut i: usize = 0;
    while i < chars.len()
        invariant
            i <= chars@.len(),
            chars@ == s@,
            body@ == quotes_doubled(s@.take(i as int)),
            quote == exists|j: int|
                0 <= j < i && (s@[j] == ',' || s@[j] == '"' || s@[j] == '\n'),
        decreases chars@.len() - i,
    {
        let c: char = chars[i];
        assert(s@.take(i + 1).drop_last() =~= s@.take(i as int));
        assert(s@.take(i + 1).last() == c);
        if c == '"' {
            body.push('"');
        }
        body.push(c);
        if c == ',' || c == '"' || c == '\n' {
            quote = true;
        }
        i = i + 1;
    }
    assert(s@.take(i as int) =~= s@);
    proof {
        if needs_quotes(s@) {
            let c = if s@.contains(',') {
                ','
            } else if s@.contains('"') {
                '"'
            } else {
                '\n'
            };
            let j = choose|j: int| 0 <= j < s@.len() && s@[j] == c;
            assert(s@[j] == c);
        }
    }
    if quote {
        let mut r = copy_str("\"");
        push_str(&mut r, body.as_str());
        push_str(&mut r, "\"");
        r
    } else {
        copy_str(s)
    }
}

/// A row of comma-separated values.
pub open spec fn csv_row(fields: Seq<Seq<char>>) -> Seq<char> {
    joined(fields.map_values(|f: Seq<char>| csv_text(f)), ","@)
}

/// A row of comma-separated values.
pub fn csv_line(fields: &[String]) -> (r: String)
    ensures
        r@ == csv_row(texts(fields@)),
{
    let mut quoted: Vec<String> = Vec::new();
    let mut i: usize = 0;
    while i < fields.len()
        invariant
            i <= fields@.len(),
            texts(quoted@) == texts(fields@.take(i as int)).map_values(
                |f: Seq<char>| csv_text(f),
            ),
        decreases fields@.len() - i,
    {
        let ghost was = texts(quoted@);
        let q = csv_field(fields[i].as_str());
        quoted.push(q);
        assert(texts(quoted@) =~= was.push(q@));
        assert(texts(fields@.take(i + 1)) =~= texts(fields@.take(i as int)).push(
            fields@[i as int]@,
        ));
        assert(texts(quoted@) =~= texts(fields@.take(i + 1)).map_values(
            |f: Seq<char>| csv_text(f),
        ));
        i = i + 1;
    }
    assert(fields@.take(i as int) =~= fields@);
    let r = join(quoted.as_slice(), ",");
    assert(texts(quoted@) =~= texts(fields@).map_values(|f: Seq<char>| csv_text(f)));
    r
}

/// The texts of some rows.
pub open spec fn row_texts(rows: Seq<Vec<String>>) -> Seq<Seq<Seq<char>>> {
    rows.map_values(|r: Vec<String>| texts(r@))
}

/// The lines of comma-separated values: the names of the columns as they are, then the rows.
pub open spec fn csv_lines(columns: Seq<Seq<char>>, rows: Seq<Seq<Seq<char>>>) -> Seq<
    Seq<SpanView>,
> {
    seq![seq![plain(joined(columns, ","@))]] + rows.map_values(
        |r: Seq<Seq<char>>| seq![plain(csv_row(r))],
    )
}

/// A field of a schema.
#[derive(Debug)]
pub struct SchemaField {
    /// Name of the field.
    pub name: String,
    /// Name of the type of the field.
    pub field_type: String,
    /// Whether the field may be null.
    pub nullable: bool,
    /// Whether values must differ.
    pub unique: bool,
    /// Whether there is an index.
    pub indexed: bool,
    /// Value where none is given.
    pub default: Option<String>,
}

/// A schema.
#[derive(Debug)]
pub struct Schema {
    /// Name of the schema.
    pub name: String,
    /// The fields.
    pub fields: Vec<SchemaField>,
    /// Version of the schema.
    pub version: u64,
    /// The statement that creates the schema.
    pub sql: String,
}

/// A text where a condition holds.
pub open spec fn when(condition: bool, text: Seq<char>) -> Seq<Seq<char>> {
    if condition {
        seq![text]
    } else {
        Seq::empty()
    }
}

/// What is said of a field.
pub open spec fn attributes(f: SchemaField) -> Seq<Seq<char>> {
    when(!f.nullable, "NOT NULL"@) + when(f.unique, "UNIQUE"@) + when(f.indexed, "INDEXED"@)
        + match f.default {
        Some(d) => seq!["DEFAULT "@ + d@],
        None => Seq::empty(),
    }
}

/// What is said of a field, in brackets, where there is anything to say.
pub open spec fn attribute_text(f: SchemaField) -> Seq<char> {
    if attributes(f).len() == 0 {
        Seq::empty()
    } else {
        " ["@ + joined(attributes(f), ", "@) + "]"@
    }
}

/// The line of a field of a schema.
pub open spec fn field_line(f: SchemaField) -> Seq<SpanView> {
    seq![
        plain("  "@),
        styled(Style::Green, f.name@),
        plain(" "@),
        plain(f.field_type@),
        styled(Style::Gray, attribute_text(f)),
    ]
}

/// The text of a truth value.
pub open spec fn truth(b: bool) -> Seq<char> {
    if b {
        "true"@
    } else {
        "false"@
    }
}

/// The comma-separated values of a field of a schema.
pub open spec fn field_row(f: SchemaField) -> Seq<char> {
    f.name@ + ","@ + f.field_type@ + ","@ + truth(f.nullable) + ","@ + truth(f.unique) + ","@
        + truth(f.indexed) + ","@ + match f.default {
        Some(d) => d@,
        None => Seq::empty(),
    }
}

/// The lines that describe a schema.
pub open spec fn schema_lines(s: Schema) -> Seq<Seq<SpanView>> {
    seq![
        Seq::empty(),
        seq![styled(Style::BoldYellow, "Schema"@), plain(": "@), styled(Style::Cyan, s.name@)],
        seq![styled(Style::Cyan, "Version"@), plain(": "@), plain(decimal(s.version as nat))],
        Seq::empty(),
        seq![styled(Style::Yellow, "Fields:"@)],
        seq![plain(rule_text(60))],
    ] + s.fields@.map_values(|f: SchemaField| field_line(f)) + seq![
        Seq::empty(),
        seq![styled(Style::Yellow, "SQL:"@)],
        seq![styled(Style::Gray, s.sql@)],
        Seq::empty(),
    ]
}

/// The comma-separated values that describe a schema.
pub open spec fn schema_rows(s: Schema) -> Seq<Seq<SpanView>> {
    seq![seq![plain("field_name,field_type,nullable,unique,indexed,default"@)]]
        + s.fields@.map_values(|f: SchemaField| seq![plain(field_row(f))])
}

/// The line of a schema in a list.
pub open spec fn summary_line(s: Schema) -> Seq<SpanView> {
    seq![
        plain("  "@),
        styled(Style::Cyan, s.name@),
        plain(" ("@),
        plain(decimal(s.fields@.len())),
        plain(" fields, v"@),
        plain(decimal(s.version as nat)),
        plain(")"@),
    ]
}

/// The lines that list schemas.
pub open spec fn summary_lines(s: Seq<Schema>) -> Seq<Seq<SpanView>> {
    seq![
        Seq::empty(),
        seq![styled(Style::BoldYellow, "Schemas:"@)],
        seq![plain(rule_text(60))],
    ] + s.map_values(|x: Schema| summary_line(x)) + seq![Seq::empty()]
}

/// The comma-separated values of a schema in a list.
pub open spec fn summary_row(s: Schema) -> Seq<char> {
    s.name@ + ","@ + decimal(s.fields@.len()) + ","@ + decimal(s.version as nat)
}

/// The comma-separated values that list schemas.
pub open spec fn summary_rows(s: Seq<Schema>) -> Seq<Seq<SpanView>> {
    seq![seq![plain("name,field_count,version"@)]] + s.map_values(
        |x: Schema| seq![plain(summary_row(x))],
    )
}

/// The line of a property.
pub open spec fn property_line(key: Seq<char>, value: ValueView) -> Seq<SpanView> {
    seq![plain("  "@), styled(Style::Green, key), plain(": "@)] + plain_parts(displayed(value))
}

/// The lines that describe a node.
pub open spec fn node_lines(n: Node) -> Seq<Seq<SpanView>> {
    seq![
        Seq::empty(),
        seq![styled(Style::Cyan, "ID"@), plain(": "@), plain(uuid_text(n.id@))],
        seq![styled(Style::Cyan, "Type"@), plain(": "@), plain(n.node_type@)],
        seq![styled(Style::Cyan, "Properties:"@)],
    ] + n.properties@.map_values(|p: (Seq<char>, ValueView)| property_line(p.0, p.1)) + seq![
        seq![styled(Style::Cyan, "Created"@), plain(": "@), plain(n.created_at.text())],
        seq![styled(Style::Cyan, "Updated"@), plain(": "@), plain(n.updated_at.text())],
        Seq::empty(),
    ]
}

/// The line of a key and a value.
pub open spec fn entry_line(key: Seq<char>, value: ValueView) -> Seq<SpanView> {
    seq![styled(Style::Cyan, key), plain(": "@)] + plain_parts(displayed(value))
}

/// The lines of keys and values.
pub open spec fn entry_lines(kv: Seq<(String, Value)>) -> Seq<Seq<SpanView>> {
    seq![Seq::empty()] + kv.map_values(|e: (String, Value)| entry_line(e.0@, e.1@)) + seq![
        Seq::empty(),
    ]
}

/// The comma-separated values of a key and a value, as they are.
pub open spec fn entry_row(key: Seq<char>, value: ValueView) -> Seq<SpanView> {
    seq![plain(key), plain(","@)] + plain_parts(displayed(value))
}

/// The comma-separated values of keys and values.
pub open spec fn entry_rows(kv: Seq<(String, Value)>) -> Seq<Seq<SpanView>> {
    seq![seq![plain("key,value"@)]] + kv.map_values(|e: (String, Value)| entry_row(e.0@, e.1@))
}

/// The property that a search result shows.
pub open spec fn preview_value(p: Map<Seq<char>, ValueView>) -> Option<ValueView> {
    if p.dom().contains("content"@) {
        Some(p["content"@])
    } else if p.dom().contains("text"@) {
        Some(p["text"@])
    } else if p.dom().contains("title"@) {
        Some(p["title"@])
    } else {
        None
    }
}

/// The text of the property that a search result shows: "content", or else "text", or else
/// "title".
pub fn preview_property(properties: &PropertyMap) -> (r: Vec<Segment>)
    ensures
        segment_views(r@) == (match preview_value(properties.map()) {
            Some(v) => displayed(v),
            None => Seq::empty(),
        }),
{
    if let Some(v) = properties.get("content") {
        return v.display();
    }
    if let Some(v) = properties.get("text") {
        return v.display();
    }
    if let Some(v) = properties.get("title") {
        return v.display();
    }
    let r: Vec<Segment> = Vec::new();
    assert(segment_views(r@) =~= Seq::<SegmentView>::empty());
    r
}

/// The line below a search result: the beginning of its text, where there is any. A text of
/// more than 50 bytes is cut behind its 47th byte, which must end a character.
pub fn preview_line(text: &str) -> (r: Option<Line>)
    requires
        previewable(text@, 50, 47),
    ensures
        match r {
            Some(l) => previewed(text@, 50, 47).len() > 0 && l@ == seq![
                plain("       "@),
                styled(Style::Gray, previewed(text@, 50, 47)),
            ],
            None => previewed(text@, 50, 47).len() == 0,
        },
{
    let p = preview(text, 50, 47);
    if to_chars(p.as_str()).len() == 0 {
        return None;
    }
    let mut l = Line::new();
    l.push(Style::Plain, "       ");
    l.push(Style::Gray, p.as_str());
    assert(l@ =~= seq![plain("       "@), styled(Style::Gray, p@)]);
    Some(l)
}

/// A search result: the identifier of a node, and how near it is, in decimal places that the
/// format asks for.
#[derive(Debug)]
pub struct SimilarityRow {
    /// The identifier.
    pub node_id: String,
    /// The score.
    pub score: String,
    /// The distance.
    pub distance: String,
    /// The text of the node.
    pub content: String,
}

/// A text with blanks behind it up to a width.
pub open spec fn padded(s: Seq<char>, width: nat) -> Seq<char> {
    s + Seq::new(
        if s.len() < width {
            (width - s.len()) as nat
        } else {
            0
        },
        |i: int| ' ',
    )
}

/// A text with blanks behind it up to a width.
pub fn pad(s: &str, width: usize) -> (r: String)
    ensures
        r@ == padded(s@, width as nat),
{
    let mut n: usize = to_chars(s).len();
    let mut r = copy_str(s);
    assert(r@ =~= s@ + Seq::new(0, |i: int| ' '));
    while n < width
        invariant
            s@.len() <= n,
            n <= width || n == s@.len(),
            r@ == s@ + Seq::new((n - s@.len()) as nat, |i: int| ' '),
        decreases width - n,
    {
        r.push(' ');
        n = n + 1;
        assert(r@ =~= s@ + Seq::new((n - s@.len()) as nat, |i: int| ' '));
    }
    assert(r@ =~= padded(s@, width as nat));
    r
}

/// A row of the table of search results: four texts in columns, in given styles.
pub open spec fn columns_line(
    texts: (Seq<char>, Seq<char>, Seq<char>, Seq<char>),
    styles: (Style, Style, Style, Style),
) -> Seq<SpanView> {
    seq![
        plain("  "@),
        styled(styles.0, padded(texts.0, 4)),
        plain(" "@),
        styled(styles.1, padded(texts.1, 40)),
        plain(" "@),
        styled(styles.2, padded(texts.2, 12)),
        plain(" "@),
        styled(styles.3, padded(texts.3, 12)),
    ]
}

/// The lines of a search result at a position.
pub open spec fn similarity_lines(i: int, row: SimilarityRow) -> Seq<Seq<SpanView>> {
    let text = previewed(row.content@, 50, 47);
    seq![
        columns_line(
            (decimal((i + 1) as nat), row.node_id@, row.score@, row.distance@),
            (Style::Cyan, Style::White, Style::Plain, Style::Plain),
        ),
    ] + if text.len() > 0 {
        seq![seq![plain("       "@), styled(Style::Gray, text)]]
    } else {
        Seq::empty()
    }
}

/// The lines of some search results.
pub open spec fn similarity_table(rows: Seq<SimilarityRow>) -> Seq<Seq<SpanView>>
    decreases rows.len(),
{
    if rows.len() == 0 {
        seq![
            Seq::empty(),
            columns_line(
                ("#"@, "Node ID"@, "Score"@, "Distance"@),
                (Style::Yellow, Style::Yellow, Style::Yellow, Style::Yellow),
            ),
            seq![plain("  "@ + rule_text(70))],
        ]
    } else {
        similarity_table(rows.drop_last()) + similarity_lines(rows.len() - 1, rows.last())
    }
}

/// The comma-separated values of a search result at a position.
pub open spec fn similarity_row(i: int, row: SimilarityRow) -> Seq<char> {
    decimal((i + 1) as nat) + ","@ + row.node_id@ + ","@ + row.score@ + ","@ + row.distance@
}

/// The comma-separated values of some search results.
pub open spec fn similarity_rows(rows: Seq<SimilarityRow>) -> Seq<Seq<SpanView>> {
    seq![seq![plain("rank,node_id,score,distance"@)]] + Seq::new(
        rows.len(),
        |i: int| seq![plain(similarity_row(i, rows[i]))],
    )
}

fn write_columns(
    texts: (&str, &str, &str, &str),
    styles: (Style, Style, Style, Style),
) -> (r: Line)
    ensures
        r@ == columns_line((texts.0@, texts.1@, texts.2@, texts.3@), styles),
{
    let mut r = Line::new();
    r.push(Style::Plain, "  ");
    r.push(styles.0, pad(texts.0, 4).as_str());
    r.push(Style::Plain, " ");
    r.push(styles.1, pad(texts.1, 40).as_str());
    r.push(Style::Plain, " ");
    r.push(styles.2, pad(texts.2, 12).as_str());
    r.push(Style::Plain, " ");
    r.push(styles.3, pad(texts.3, 12).as_str());
    assert(r@ =~= columns_line((texts.0@, texts.1@, texts.2@, texts.3@), styles));
    r
}

/// The table of some search results.
fn write_similarity_table(rows: &[SimilarityRow]) -> (r: Vec<Line>)
    requires
        forall|i: int|
            0 <= i < rows@.len() ==> previewable((#[trigger] rows@[i]).content@, 50, 47),
    ensures
        line_views(r@) == similarity_table(rows@).push(Seq::empty()),
{
    let mut lines: Vec<Line> = Vec::new();
    let mut under = copy_str("  ");
    push_str(&mut under, rule(70).as_str());
    add_line(&mut lines, Line::new());
    add_line(
        &mut lines,
        write_columns(
            ("#", "Node ID", "Score", "Distance"),
            (Style::Yellow, Style::Yellow, Style::Yellow, Style::Yellow),
        ),
    );
    add_line(&mut lines, line_of(Style::Plain, under.as_str()));
    assert(rows@.take(0) =~= Seq::<SimilarityRow>::empty());
    assert(line_views(lines@) =~= similarity_table(rows@.take(0)));
    let n: usize = rows.len();
    let mut i: usize = 0;
    while i < n
        invariant
            i <= n,
            n == rows@.len(),
            forall|j: int|
                0 <= j < rows@.len() ==> previewable((#[trigger] rows@[j]).content@, 50, 47),
            line_views(lines@) == similarity_table(rows@.take(i as int)),
        decreases n - i,
    {
        let row = &rows[i];
        let ghost so_far = line_views(lines@);
        let rank = decimal_string((i + 1) as u64);
        add_line(
            &mut lines,
            write_columns(
                (
                    rank.as_str(),
                    row.node_id.as_str(),
                    row.score.as_str(),
                    row.distance.as_str(),
                ),
                (Style::Cyan, Style::White, Style::Plain, Style::Plain),
            ),
        );
        if let Some(l) = preview_line(row.content.as_str()) {
            add_line(&mut lines, l);
        }
        proof {
            assert(rows@.take(i + 1).drop_last() =~= rows@.take(i as int));
            assert(rows@.take(i + 1).last() == *row);
            assert(line_views(lines@) =~= so_far + similarity_lines(i as int, *row));
        }
        i = i + 1;
    }
    assert(rows@.take(i as int) =~= rows@);
    add_line(&mut lines, Line::new());
    lines
}

/// The comma-separated values of some search results.
fn write_similarity_rows(rows: &[SimilarityRow]) -> (r: Vec<Line>)
    ensures
        line_views(r@) == similarity_rows(rows@),
{
    let mut lines: Vec<Line> = Vec::new();
    add_line(&mut lines, line_of(Style::Plain, "rank,node_id,score,distance"));
    assert(line_views(lines@) =~= similarity_rows(rows@.take(0)));
    let n: usize = rows.len();
    let mut i: usize = 0;
    while i < n
        invariant
            i <= n,
            n == rows@.len(),
            line_views(lines@) == similarity_rows(rows@.take(i as int)),
        decreases n - i,
    {
        let row = &rows[i];
        let mut t = decimal_string((i + 1) as u64);
        push_str(&mut t, ",");
        push_str(&mut t, row.node_id.as_str());
        push_str(&mut t, ",");
        push_str(&mut t, row.score.as_str());
        push_str(&mut t, ",");
        push_str(&mut t, row.distance.as_str());
        add_line(&mut lines, line_of(Style::Plain, t.as_str()));
        assert(line_views(lines@) =~= similarity_rows(rows@.take(i + 1)));
        i = i + 1;
    }
    assert(rows@.take(i as int) =~= rows@);
    lines
}

/// What results are written as.
#[derive(Debug)]
pub struct Renderer {
    /// The format.
    pub format: OutputFormat,
}

impl Renderer {
    /// A renderer of a format.
    pub fn new(format: OutputFormat) -> (r: Self)
        ensures
            r.format == format,
    {
        Renderer { format }
    }

    /// Renders the result of a query, of which the values are given as texts.
    pub fn render_results(&self, columns: &[String], rows: &[Vec<String>]) -> (r: Output)
        ensures
            if rows@.len() == 0 {
                shows(r, seq![seq![styled(Style::Gray, "(no results)"@)]])
            } else {
                match self.format {
                    OutputFormat::Table => r is Table,
                    OutputFormat::Json => r is Json,
                    OutputFormat::Csv => shows(r, csv_lines(texts(columns@), row_texts(rows@))),
                }
            },
    {
        if rows.len() == 0 {
            let mut lines: Vec<Line> = Vec::new();
            add_line(&mut lines, line_of(Style::Gray, "(no results)"));
            assert(line_views(lines@) =~= seq![seq![styled(Style::Gray, "(no results)"@)]]);
            return Output::Lines(lines);
        }
        match self.format {
            OutputFormat::Table => Output::Table,
            OutputFormat::Json => Output::Json,
            OutputFormat::Csv => Output::Lines(render_csv(columns, rows)),
        }
    }

    /// Renders the result of a walk, of which the rows are given as texts.
    pub fn render_traversal(&self, columns: &[String], rows: &[Vec<String>]) -> (r: Output)
        ensures
            match self.format {
                OutputFormat::Table => r is Table,
                OutputFormat::Json => r is Json,
                OutputFormat::Csv => shows(r, csv_lines(texts(columns@), row_texts(rows@))),
            },
    {
        match self.format {
            OutputFormat::Table => Output::Table,
            OutputFormat::Json => Output::Json,
            OutputFormat::Csv => Output::Lines(render_csv(columns, rows)),
        }
    }

    /// Renders a node.
    pub fn render_node(&self, node: &Node) -> (r: Output)
        ensures
            match self.format {
                OutputFormat::Table => shows(r, node_lines(*node)),
                OutputFormat::Json => r is Json,
                OutputFormat::Csv => r is Rows,
            },
    {
        match self.format {
            OutputFormat::Table => {},
            OutputFormat::Json => return Output::Json,
            OutputFormat::Csv => return Output::Rows,
        }
        let mut lines: Vec<Line> = Vec::new();
        add_line(&mut lines, Line::new());
        add_line(&mut lines, labelled("ID", node.id.to_string().as_str()));
        add_line(&mut lines, labelled("Type", node.node_type.as_str()));
        add_line(&mut lines, line_of(Style::Cyan, "Properties:"));
        let ghost head = line_views(lines@);
        let ghost p = node.properties@;
        let n: usize = node.properties.len();
        let mut i: usize = 0;
        while i < n
            invariant
                i <= n,
                n == p.len(),
                p == node.properties@,
                line_views(lines@) == head + p.take(i as int).map_values(
                    |e: (Seq<char>, ValueView)| property_line(e.0, e.1),
                ),
            decreases n - i,
        {
            let ghost so_far = line_views(lines@);
            let mut l = Line::new();
            l.push(Style::Plain, "  ");
            l.push(Style::Green, node.properties.key_at(i));
            l.push(Style::Plain, ": ");
            assert(l@ =~= seq![plain("  "@), styled(Style::Green, p[i as int].0), plain(": "@)]);
            l.push_value(node.properties.value_at(i));
            assert(l@ == property_line(p[i as int].0, p[i as int].1));
            add_line(&mut lines, l);
            assert(line_views(lines@) =~= head + p.take(i + 1).map_values(
                |e: (Seq<char>, ValueView)| property_line(e.0, e.1),
            ));
            i = i + 1;
        }
        assert(p.take(i as int) =~= p);
        add_line(&mut lines, labelled("Created", node.created_at.to_string().as_str()));
        add_line(&mut lines, labelled("Updated", node.updated_at.to_string().as_str()));
        add_line(&mut lines, Line::new());
        assert(line_views(lines@) =~= node_lines(*node));
        Output::Lines(lines)
    }

    /// Renders nodes as rows, of which the values are given as texts.
    pub fn render_as_table(&self, columns: &[String], rows: &[Vec<String>]) -> (r: Output)
        ensures
            if rows@.len() == 0 {
                shows(r, seq![seq![styled(Style::Gray, "(no results)"@)]])
            } else {
                match self.format {
                    OutputFormat::Table => r is Table,
                    OutputFormat::Json => r is Json,
                    OutputFormat::Csv => shows(r, csv_lines(texts(columns@), row_texts(rows@))),
                }
            },
    {
        self.render_results(columns, rows)
    }

    /// Renders a graph.
    pub fn render_as_graph(&self) -> (r: Output)
        ensures
            r == (if self.format == OutputFormat::Json {
                Output::Json
            } else {
                Output::Drawing
            }),
    {
        match self.format {
            OutputFormat::Json => Output::Json,
            _ => Output::Drawing,
        }
    }

    /// Renders keys and values.
    pub fn render_as_kv(&self, kv: &KvView) -> (r: Output)
        ensures
            match self.format {
                OutputFormat::Table => shows(r, entry_lines(kv.entries@)),
                OutputFormat::Json => r is Json,
                OutputFormat::Csv => shows(r, entry_rows(kv.entries@)),
            },
    {
        let csv: bool = match self.format {
            OutputFormat::Table => false,
            OutputFormat::Json => return Output::Json,
            OutputFormat::Csv => true,
        };
        let mut lines: Vec<Line> = Vec::new();
        if csv {
            add_line(&mut lines, line_of(Style::Plain, "key,value"));
        } else {
            add_line(&mut lines, Line::new());
        }
        let ghost head = line_views(lines@);
        let ghost all = kv.entries@;
        let ghost one = |e: (String, Value)|
            if csv {
                entry_row(e.0@, e.1@)
            } else {
                entry_line(e.0@, e.1@)
            };
        let mut i: usize = 0;
        while i < kv.entries.len()
            invariant
                i <= all.len(),
                all == kv.entries@,
                forall|e: (String, Value)| #[trigger] one(e) == (if csv {
                    entry_row(e.0@, e.1@)
                } else {
                    entry_line(e.0@, e.1@)
                }),
                line_views(lines@) == head + all.take(i as int).map_values(one),
            decreases all.len() - i,
        {
            let e = &kv.entries[i];
            let mut l = Line::new();
            if csv {
                l.push(Style::Plain, e.0.as_str());
                l.push(Style::Plain, ",");
                assert(l@ =~= seq![plain(e.0@), plain(","@)]);
            } else {
                l.push(Style::Cyan, e.0.as_str());
                l.push(Style::Plain, ": ");
                assert(l@ =~= seq![styled(Style::Cyan, e.0@), plain(": "@)]);
            }
            l.push_value(&e.1);
            assert(l@ == one(all[i as int]));
            add_line(&mut lines, l);
            assert(line_views(lines@) =~= head + all.take(i + 1).map_values(one));
            i = i + 1;
        }
        assert(all.take(i as int) =~= all);
        if !csv {
            add_line(&mut lines, Line::new());
            assert(line_views(lines@) =~= entry_lines(all));
        } else {
            assert(line_views(lines@) =~= entry_rows(all));
        }
        Output::Lines(lines)
    }

    /// Renders a list of schemas.
    pub fn render_schemas(&self, schemas: &[Schema]) -> (r: Output)
        ensures
            match self.format {
                OutputFormat::Table => shows(r, summary_lines(schemas@)),
                OutputFormat::Json => r is Json,
                OutputFormat::Csv => shows(r, summary_rows(schemas@)),
            },
    {
        let csv: bool = match self.format {
            OutputFormat::Table => false,
            OutputFormat::Json => return Output::Json,
            OutputFormat::Csv => true,
        };
        let mut lines: Vec<Line> = Vec::new();
        if csv {
            add_line(&mut lines, line_of(Style::Plain, "name,field_count,version"));
        } else {
            add_line(&mut lines, Line::new());
            add_line(&mut lines, line_of(Style::BoldYellow, "Schemas:"));
            add_line(&mut lines, line_of(Style::Plain, rule(60).as_str()));
        }
        let ghost head = line_views(lines@);
        let ghost one = |s: Schema|
            if csv {
                seq![plain(summary_row(s))]
            } else {
                summary_line(s)
            };
        let mut i: usize = 0;
        while i < schemas.len()
            invariant
                i <= schemas@.len(),
                forall|s: Schema| #[trigger] one(s) == (if csv {
                    seq![plain(summary_row(s))]
                } else {
                    summary_line(s)
                }),
                line_views(lines@) == head + schemas@.take(i as int).map_values(one),
            decreases schemas@.len() - i,
        {
            let s = &schemas[i];
            let l = if csv {
                let mut t = copy_str(s.name.as_str());
                push_str(&mut t, ",");
                push_decimal(&mut t, s.fields.len() as u64);
                push_str(&mut t, ",");
                push_decimal(&mut t, s.version);
                line_of(Style::Plain, t.as_str())
            } else {
                let mut l = Line::new();
                l.push(Style::Plain, "  ");
                l.push(Style::Cyan, s.name.as_str());
                l.push(Style::Plain, " (");
                l.push(Style::Plain, decimal_string(s.fields.len() as u64).as_str());
                l.push(Style::Plain, " fields, v");
                l.push(Style::Plain, decimal_string(s.version).as_str());
                l.push(Style::Plain, ")");
                assert(l@ =~= summary_line(*s));
                l
            };
            assert(l@ == one(schemas@[i as int]));
            add_line(&mut lines, l);
            assert(line_views(lines@) =~= head + schemas@.take(i + 1).map_values(one));
            i = i + 1;
        }
        assert(schemas@.take(i as int) =~= schemas@);
        if !csv {
            add_line(&mut lines, Line::new());
            assert(line_views(lines@) =~= summary_lines(schemas@));
        } else {
            assert(line_views(lines@) =~= summary_rows(schemas@));
        }
        Output::Lines(lines)
    }

    /// Number of decimal places of the scores of search results.
    pub fn places(&self) -> (r: usize)
        ensures
            r == (if self.format == OutputFormat::Csv {
                6int
            } else {
                4
            }),
    {
        match self.format {
            OutputFormat::Csv => 6,
            _ => 4,
        }
    }

    /// Renders search results. In a table the content of a result that is longer than 50
    /// bytes is cut behind its 47th byte, which must end a character.
    pub fn render_similarity_results(&self, rows: &[SimilarityRow]) -> (r: Output)
        requires
            self.format == OutputFormat::Table ==> forall|i: int|
                0 <= i < rows@.len() ==> previewable((#[trigger] rows@[i]).content@, 50, 47),
        ensures
            match self.format {
                OutputFormat::Table => shows(r, similarity_table(rows@).push(Seq::empty())),
                OutputFormat::Json => r is Json,
                OutputFormat::Csv => shows(r, similarity_rows(rows@)),
            },
    {
        match self.format {
            OutputFormat::Table => Output::Lines(write_similarity_table(rows)),
            OutputFormat::Json => Output::Json,
            OutputFormat::Csv => Output::Lines(write_similarity_rows(rows)),
        }
    }

    /// Renders a schema.
    pub fn render_schema_details(&self, schema: &Schema) -> (r: Output)
        ensures
            match self.format {
                OutputFormat::Table => shows(r, schema_lines(*schema)),
                OutputFormat::Json => r is Json,
                OutputFormat::Csv => shows(r, schema_rows(*schema)),
            },
    {
        let csv: bool = match self.format {
            OutputFormat::Table => false,
            OutputFormat::Json => return Output::Json,
            OutputFormat::Csv => true,
        };
        let mut lines: Vec<Line> = Vec::new();
        if csv {
            add_line(
                &mut lines,
                line_of(Style::Plain, "field_name,field_type,nullable,unique,indexed,default"),
            );
        } else {
            let mut title = Line::new();
            title.push(Style::BoldYellow, "Schema");
            title.push(Style::Plain, ": ");
            title.push(Style::Cyan, schema.name.as_str());
            assert(title@ =~= seq![
                styled(Style::BoldYellow, "Schema"@),
                plain(": "@),
                styled(Style::Cyan, schema.name@),
            ]);
            add_line(&mut lines, Line::new());
            add_line(&mut lines, title);
            add_line(&mut lines, labelled("Version", decimal_string(schema.version).as_str()));
            add_line(&mut lines, Line::new());
            add_line(&mut lines, line_of(Style::Yellow, "Fields:"));
            add_line(&mut lines, line_of(Style::Plain, rule(60).as_str()));
        }
        let ghost head = line_views(lines@);
        let ghost all = schema.fields@;
        let ghost one = |f: SchemaField|
            if csv {
                seq![plain(field_row(f))]
            } else {
                field_line(f)
            };
        let mut i: usize = 0;
        while i < schema.fields.len()
            invariant
                i <= all.len(),
                all == schema.fields@,
                forall|f: SchemaField| #[trigger] one(f) == (if csv {
                    seq![plain(field_row(f))]
                } else {
                    field_line(f)
                }),
                line_views(lines@) == head + all.take(i as int).map_values(one),
            decreases all.len() - i,
        {
            let f = &schema.fields[i];
            let l = if csv {
                line_of(Style::Plain, write_field_row(f).as_str())
            } else {
                let mut l = Line::new();
                l.push(Style::Plain, "  ");
                l.push(Style::Green, f.name.as_str());
                l.push(Style::Plain, " ");
                l.push(Style::Plain, f.field_type.as_str());
                l.push(Style::Gray, write_attributes(f).as_str());
                assert(l@ =~= field_line(*f));
                l
            };
            assert(l@ == one(all[i as int]));
            add_line(&mut lines, l);
            assert(line_views(lines@) =~= head + all.take(i + 1).map_values(one));
            i = i + 1;
        }
        assert(all.take(i as int) =~= all);
        if csv {
            assert(line_views(lines@) =~= schema_rows(*schema));
        } else {
            add_line(&mut lines, Line::new());
            add_line(&mut lines, line_of(Style::Yellow, "SQL:"));
            add_line(&mut lines, line_of(Style::Gray, schema.sql.as_str()));
            add_line(&mut lines, Line::new());
            assert(line_views(lines@) =~= schema_lines(*schema));
        }
        Output::Lines(lines)
    }
}

/// A label and a text.
fn labelled(label: &str, text: &str) -> (r: Line)
    ensures
        r@ == seq![styled(Style::Cyan, label@), plain(": "@), plain(text@)],
{
    let mut r = Line::new();
    r.push(Style::Cyan, label);
    r.push(Style::Plain, ": ");
    r.push(Style::Plain, text);
    assert(r@ =~= seq![styled(Style::Cyan, label@), plain(": "@), plain(text@)]);
    r
}

/// The comma-separated values of columns and rows.
fn render_csv(columns: &[String], rows: &[Vec<String>]) -> (r: Vec<Line>)
    ensures
        line_views(r@) == csv_lines(texts(columns@), row_texts(rows@)),
{
    let mut lines: Vec<Line> = Vec::new();
    add_line(&mut lines, line_of(Style::Plain, join(columns, ",").as_str()));
    let ghost head = line_views(lines@);
    let mut i: usize = 0;
    while i < rows.len()
        invariant
            i <= rows@.len(),
            line_views(lines@) == head + row_texts(rows@.take(i as int)).map_values(
                |r: Seq<Seq<char>>| seq![plain(csv_row(r))],
            ),
        decreases rows@.len() - i,
    {
        add_line(&mut lines, line_of(Style::Plain, csv_line(rows[i].as_slice()).as_str()));
        assert(line_views(lines@) =~= head + row_texts(rows@.take(i + 1)).map_values(
            |r: Seq<Seq<char>>| seq![plain(csv_row(r))],
        ));
        i = i + 1;
    }
    assert(rows@.take(i as int) =~= rows@);
    assert(line_views(lines@) =~= csv_lines(texts(columns@), row_texts(rows@)));
    lines
}

/// What is said of a field, in brackets.
fn write_attributes(f: &SchemaField) -> (r: String)
    ensures
        r@ == attribute_text(*f),
{
    let mut parts: Vec<String> = Vec::new();
    if !f.nullable {
        parts.push(copy_str("NOT NULL"));
    }
    if f.unique {
        parts.push(copy_str("UNIQUE"));
    }
    if f.indexed {
        parts.push(copy_str("INDEXED"));
    }
    if let Some(d) = &f.default {
        let mut t = copy_str("DEFAULT ");
        push_str(&mut t, d.as_str());
        parts.push(t);
    }
    assert(texts(parts@) =~= attributes(*f));
    let mut r = String::new();
    if parts.len() > 0 {
        push_str(&mut r, " [");
        push_str(&mut r, join(parts.as_slice(), ", ").as_str());
        push_str(&mut r, "]");
    }
    assert(r@ =~= attribute_text(*f));
    r
}

fn push_truth(s: &mut String, b: bool)
    ensures
        final(s)@ == old(s)@ + truth(b),
{
    if b {
        push_str(s, "true");
    } else {
        push_str(s, "false");
    }
}

/// The comma-separated values of a field of a schema.
fn write_field_row(f: &SchemaField) -> (r: String)
    ensures
        r@ == field_row(*f),
{
    let mut r = copy_str(f.name.as_str());
    push_str(&mut r, ",");
    push_str(&mut r, f.field_type.as_str());
    push_str(&mut r, ",");
    push_truth(&mut r, f.nullable);
    push_str(&mut r, ",");
    push_truth(&mut r, f.unique);
    push_str(&mut r, ",");
    push_truth(&mut r, f.indexed);
    push_str(&mut r, ",");
    if let Some(d) = &f.default {
        push_str(&mut r, d.as_str());
    }
    assert(r@ =~= field_row(*f));
    r
}

/// Doubling the quotation marks of two texts gives the same only where they are the same.
proof fn lemma_doubled_distinct(a: Seq<char>, b: Seq<char>)
    requires
        quotes_doubled(a) == quotes_doubled(b),
    ensures
        a == b,
    decreases a.len() + b.len(),
{
    let x = quotes_doubled(a);
    let y = quotes_doubled(b);
    if a.len() == 0 {
        assert(x.len() == 0);
        if b.len() > 0 {
            assert(y.len() == quotes_doubled(b.drop_last()).len() + (if b.last() == '"' {
                2int
            } else {
                1int
            }));
        }
        assert(a =~= b);
    } else if b.len() == 0 {
        assert(y.len() == 0);
        assert(x.len() == quotes_doubled(a.drop_last()).len() + (if a.last() == '"' {
            2int
        } else {
            1int
        }));
    } else {
        let pa = quotes_doubled(a.drop_last());
        let pb = quotes_doubled(b.drop_last());
        assert(x.last() == a.last() && y.last() == b.last());
        if a.last() == '"' {
            assert(x.drop_last().drop_last() =~= pa);
            assert(y.drop_last().drop_last() =~= pb);
        } else {
            assert(x.drop_last() =~= pa);
            assert(y.drop_last() =~= pb);
        }
        lemma_doubled_distinct(a.drop_last(), b.drop_last());
        assert(a =~= a.drop_last().push(a.last()));
        assert(b =~= b.drop_last().push(b.last()));
    }
}

/// Different texts are different comma-separated values.
pub proof fn law_csv_values_are_distinct(a: Seq<char>, b: Seq<char>)
    requires
        csv_text(a) == csv_text(b),
    ensures
        a == b,
{
    reveal_strlit("\"");
    let x = csv_text(a);
    if needs_quotes(a) && needs_quotes(b) {
        assert(x.subrange(1, x.len() - 1) =~= quotes_doubled(a));
        assert(x.subrange(1, x.len() - 1) =~= quotes_doubled(b));
        lemma_doubled_distinct(a, b);
    } else if needs_quotes(a) {
        assert(b[0] == '"');
        assert(b.contains('"'));
    } else if needs_quotes(b) {
        assert(a[0] == '"');
        assert(a.contains('"'));
    }
}

/// A text among comma-separated values stands as it is where it holds no comma, quotation mark or
/// newline; else it stands between quotation marks, with its own quotation marks doubled and the
/// other characters as they are.
pub proof fn law_csv_quoting(s: Seq<char>)
    ensures
        ({
            let r = csv_text(s);
            &&& !s.contains(',') && !s.contains('"') && !s.contains('\n') ==> r == s
            &&& s.contains(',') || s.contains('"') || s.contains('\n') ==> {
                let inner = r.subrange(1, r.len() - 1);
                &&& r.len() >= 2 && r[0] == '"' && r.last() == '"'
                &&& inner.filter(|c: char| c != '"') == s.filter(|c: char| c != '"')
                &&& inner.filter(|c: char| c == '"').len() == 2 * s.filter(
                    |c: char| c == '"',
                ).len()
            }
        }),
{
    reveal_strlit("\"");
    let r = csv_text(s);
    if needs_quotes(s) {
        let d = quotes_doubled(s);
        assert(r.subrange(1, r.len() - 1) =~= d);
        lemma_quotes_doubled(s);
    }
}

proof fn lemma_quotes_doubled(s: Seq<char>)
    ensures
        quotes_doubled(s).filter(|c: char| c != '"') == s.filter(|c: char| c != '"'),
        quotes_doubled(s).filter(|c: char| c == '"').len() == 2 * s.filter(
            |c: char| c == '"',
        ).len(),
    decreases s.len(),
{
    let other = |c: char| c != '"';
    let mark = |c: char| c == '"';
    if s.len() == 0 {
        assert(quotes_doubled(s) =~= s);
        assert(s.filter(mark).len() == 0) by {
            reveal(Seq::filter);
        }
    } else {
        let head = s.drop_last();
        let d = quotes_doubled(head);
        let c = s.last();
        lemma_quotes_doubled(head);
        assert(head.push(c) =~= s);
        crate::facts::lemma_filter_push(head, c, other);
        crate::facts::lemma_filter_push(head, c, mark);
        crate::facts::lemma_filter_push(d, c, other);
        crate::facts::lemma_filter_push(d, c, mark);
        if c == '"' {
            crate::facts::lemma_filter_push(d.push(c), c, other);
            crate::facts::lemma_filter_push(d.push(c), c, mark);
        }
    }
}

/// A padded text begins with the text and goes on with blanks, as far as the width where the text
/// is shorter.
pub proof fn law_padded(s: Seq<char>, width: nat)
    ensures
        ({
            let r = padded(s, width);
            &&& s.len() <= width ==> r.len() == width
            &&& s.len() >= width ==> r == s
            &&& r.take(s.len() as int) == s
            &&& forall|i: int| s.len() <= i < r.len() ==> #[trigger] r[i] == ' '
        }),
{
    let r = padded(s, width);
    assert(r.take(s.len() as int) =~= s);
    if s.len() >= width {
        assert(r =~= s);
    }
}

/// A search result shows its content where it has one, else its text, else its title.
pub proof fn law_preview_value(p: Map<Seq<char>, ValueView>)
    ensures
        ({
            let content = seq!['c', 'o', 'n', 't', 'e', 'n', 't'];
            let text = seq!['t', 'e', 'x', 't'];
            let title = seq!['t', 'i', 't', 'l', 'e'];
            &&& p.dom().contains(content) ==> preview_value(p) == Some(p[content])
            &&& !p.dom().contains(content) && p.dom().contains(text) ==> preview_value(p) == Some(
                p[text],
            )
            &&& !p.dom().contains(content) && !p.dom().contains(text) && p.dom().contains(title)
                ==> preview_value(p) == Some(p[title])
            &&& preview_value(p) is None <==> !p.dom().contains(content) && !p.dom().contains(text)
                && !p.dom().contains(title)
        }),
{
    reveal_strlit("content");
    reveal_strlit("text");
    reveal_strlit("title");
    assert("content"@ =~= seq!['c', 'o', 'n', 't', 'e', 'n', 't']);
    assert("text"@ =~= seq!['t', 'e', 'x', 't']);
    assert("title"@ =~= seq!['t', 'i', 't', 'l', 'e']);
}

/// Of a field is said that it must not be null, that it is unique, that it is indexed and what
/// its default is, in this order, and each only where it holds.
pub proof fn law_attributes(f: SchemaField)
    ensures
        ({
            let a = attributes(f);
            let n: int = if f.nullable {
                0
            } else {
                1
            };
            let u: int = if f.unique {
                1
            } else {
                0
            };
            let i: int = if f.indexed {
                1
            } else {
                0
            };
            let d: int = if f.default is Some {
                1
            } else {
                0
            };
            &&& a.len() == n + u + i + d
            &&& !f.nullable ==> a[0] == "NOT NULL"@
            &&& f.unique ==> a[n] == "UNIQUE"@
            &&& f.indexed ==> a[n + u] == "INDEXED"@
            &&& f.default is Some ==> a[n + u + i] == "DEFAULT "@ + f.default->0@
        }),
{
}

/// Search results are numbered from one, in their order, and those without a text to show take
/// one line each.
pub proof fn law_results_are_numbered(rows: Seq<SimilarityRow>, i: int)
    requires
        0 <= i < rows.len(),
    ensures
        similarity_rows(rows).len() == rows.len() + 1,
        similarity_rows(rows)[i + 1] == seq![
            plain(
                decimal((i + 1) as nat) + ","@ + rows[i].node_id@ + ","@ + rows[i].score@ + ","@
                    + rows[i].distance@,
            ),
        ],
        similarity_lines(i, rows[i])[0][1] == styled(
            Style::Cyan,
            padded(decimal((i + 1) as nat), 4),
        ),
        rows[i].content@.len() == 0 ==> similarity_lines(i, rows[i]).len() == 1,
{
    if rows[i].content@.len() == 0 {
        crate::text::law_preview(rows[i].content@, 50, 47);
    }
}

} // verus!
