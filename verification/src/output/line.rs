//! Lines of styled text.

use vstd::prelude::*;

use crate::storage::value::{displayed, segment_views, Segment, SegmentView, Value};
use crate::text::copy_str;

verus! {

/// How a part of a line looks.
#[derive(Debug, Clone, Copy, PartialEq, Eq, Structural)]
pub enum Style {
    /// As the terminal has it.
    Plain,
    /// Bright blue.
    Blue,
    /// Bright cyan.
    Cyan,
    /// Bright green.
    Green,
    /// Bright green and bold.
    BoldGreen,
    /// Bright yellow.
    Yellow,
    /// Bright yellow and bold.
    BoldYellow,
    /// Bright black.
    Gray,
    /// Bright white.
    White,
}

/// A part of a line.
#[derive(Debug)]
pub struct Span {
    /// How it looks.
    pub style: Style,
    /// What it says.
    pub part: Segment,
}

/// A part of a line, as a sequence.
pub struct SpanView {
    /// How it looks.
    pub style: Style,
    /// What it says.
    pub part: SegmentView,
}

impl View for Span {
    type V = SpanView;

    open spec fn view(&self) -> SpanView {
        SpanView { style: self.style, part: self.part@ }
    }
}

/// A line.
#[derive(Debug)]
pub struct Line {
    /// The parts.
    pub spans: Vec<Span>,
}

impl View for Line {
    type V = Seq<SpanView>;

    open spec fn view(&self) -> Seq<SpanView> {
        self.spans@.map_values(|s: Span| s@)
    }
}

/// The views of some lines.
pub open spec fn line_views(v: Seq<Line>) -> Seq<Seq<SpanView>> {
    v.map_values(|l: Line| l@)
}

/// A text in a style.
pub open spec fn styled(style: Style, text: Seq<char>) -> SpanView {
    SpanView { style, part: SegmentView::Text(text) }
}

/// A text without a style.
pub open spec fn plain(text: Seq<char>) -> SpanView {
    styled(Style::Plain, text)
}

/// Parts of a text without a style.
pub open spec fn plain_parts(parts: Seq<SegmentView>) -> Seq<SpanView> {
    parts.map_values(|p: SegmentView| SpanView { style: Style::Plain, part: p })
}

impl Line {
    /// An empty line.
    pub fn new() -> (r: Self)
        ensures
            r@ == Seq::<SpanView>::empty(),
    {
        let r = Line { spans: Vec::new() };
        assert(r@ =~= Seq::<SpanView>::empty());
        r
    }

    /// Appends a text in a style.
    pub fn push(&mut self, style: Style, text: &str)
        ensures
            final(self)@ == old(self)@.push(styled(style, text@)),
    {
        self.spans.push(Span { style, part: Segment::Text(copy_str(text)) });
        assert(self@ =~= old(self)@.push(styled(style, text@)));
    }

    /// Appends the text of a value.
    pub fn push_value(&mut self, value: &Value)
        ensures
            final(self)@ == old(self)@ + plain_parts(displayed(value@)),
    {
        let parts = value.display();
        let ghost all = parts@;
        let ghost was = self@;
        for p in it: parts.into_iter()
            invariant
                it.seq() == all,
                self@ == was + plain_parts(segment_views(all.take(it.index()))),
        {
            let ghost i = it.index();
            assert(segment_views(all.take(i + 1)) =~= segment_views(all.take(i)).push(p@));
            let ghost before = self@;
            self.spans.push(Span { style: Style::Plain, part: p });
            assert(self@ =~= before.push(SpanView { style: Style::Plain, part: p@ }));
            assert(plain_parts(segment_views(all.take(i + 1))) =~= plain_parts(
                segment_views(all.take(i)),
            ).push(SpanView { style: Style::Plain, part: p@ }));
        }
        assert(all.take(all.len() as int) =~= all);
    }
}

/// Appends a line.
pub fn add_line(lines: &mut Vec<Line>, line: Line)
    ensures
        line_views(final(lines)@) == line_views(old(lines)@).push(line@),
{
    lines.push(line);
    assert(line_views(lines@) =~= line_views(old(lines)@).push(line@));
}

/// A line with one text in a style.
pub fn line_of(style: Style, text: &str) -> (r: Line)
    ensures
        r@ == seq![styled(style, text@)],
{
    let mut r = Line::new();
    r.push(style, text);
    assert(r@ =~= seq![styled(style, text@)]);
    r
}

/// A rule of some length.
pub open spec fn rule_text(n: nat) -> Seq<char> {
    Seq::new(n, |i: int| '─')
}

/// A rule of some length.
pub fn rule(n: usize) -> (r: String)
    ensures
        r@ == rule_text(n as nat),
{
    let mut r = String::new();
    let mut i: usize = 0;
    while i < n
        invariant
            i <= n,
            r@ == rule_text(i as nat),
        decreases n - i,
    {
        r.push('─');
        assert(r@ =~= rule_text((i + 1) as nat));
        i = i + 1;
    }
    r
}

} // verus!
