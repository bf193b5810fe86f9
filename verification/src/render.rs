//! Rendered Markdown as plain values: styled spans that know the source they
//! were rendered from.

use crate::style::Style;
use crate::text::{
    ascii_glyphs, glyph_chars, glyphs_wf, group_views, measure, plain_ascii, views, Glyph,
    GlyphModel,
};
use vstd::prelude::*;

verus! {

broadcast use group_views;

/// A range of the source text, in bytes and in characters.
#[derive(Debug, Clone, Copy, PartialEq, Eq, Structural)]
pub struct SourceRange {
    pub byte_start: usize,
    pub byte_end: usize,
    pub char_start: usize,
    pub char_end: usize,
}

/// A run of rendered text in one style. Text that stands for no source, such
/// as a list bullet, has no range.
#[derive(Debug, Clone)]
pub struct RenderedSpan {
    pub content: String,
    pub style: Style,
    pub source: Option<SourceRange>,
}

/// A rendered line, before it is wrapped.
#[derive(Debug, Clone)]
pub struct RenderedLine {
    pub spans: Vec<RenderedSpan>,
    pub source: Option<SourceRange>,
}

/// A rendered document.
#[derive(Debug, Clone)]
pub struct RenderedDocument {
    pub lines: Vec<RenderedLine>,
}

/// A rendered span whose graphemes have been measured.
#[derive(Debug, Clone)]
pub struct MeasuredSpan {
    pub glyphs: Vec<Glyph>,
    pub style: Style,
    pub source: Option<(usize, usize)>,
}

/// What a [`MeasuredSpan`] holds.
pub struct SpanMeasure {
    pub glyphs: Seq<GlyphModel>,
    pub style: Style,
    pub source: Option<(usize, usize)>,
}

impl View for MeasuredSpan {
    type V = SpanMeasure;

    open spec fn view(&self) -> SpanMeasure {
        SpanMeasure { glyphs: views(self.glyphs@), style: self.style, source: self.source }
    }
}

/// A rendered line whose graphemes have been measured.
#[derive(Debug, Clone)]
pub struct MeasuredLine {
    pub spans: Vec<MeasuredSpan>,
    pub source: Option<(usize, usize)>,
}

/// What a [`MeasuredLine`] holds.
pub struct LineMeasure {
    pub spans: Seq<SpanMeasure>,
    pub source: Option<(usize, usize)>,
}

impl View for MeasuredLine {
    type V = LineMeasure;

    open spec fn view(&self) -> LineMeasure {
        LineMeasure { spans: views(self.spans@), source: self.source }
    }
}

/// The characters of a source range.
pub open spec fn char_range(range: Option<SourceRange>) -> Option<(usize, usize)> {
    match range {
        Some(r) => Some((r.char_start, r.char_end)),
        None => None,
    }
}

fn chars_of(range: Option<SourceRange>) -> (chars: Option<(usize, usize)>)
    ensures
        chars == char_range(range),
{
    match range {
        Some(r) => Some((r.char_start, r.char_end)),
        None => None,
    }
}

/// A rendered span, measured.
pub open spec fn span_measure(span: RenderedSpan) -> SpanMeasure {
    SpanMeasure {
        glyphs: crate::text::glyphs_of(span.content@),
        style: span.style,
        source: char_range(span.source),
    }
}

/// A rendered line, measured.
pub open spec fn line_measure(line: RenderedLine) -> LineMeasure {
    LineMeasure {
        spans: Seq::new(line.spans@.len(), |i: int| span_measure(line.spans@[i])),
        source: char_range(line.source),
    }
}

/// Rendered lines, measured.
pub open spec fn lines_measure(lines: Seq<RenderedLine>) -> Seq<LineMeasure> {
    Seq::new(lines.len(), |i: int| line_measure(lines[i]))
}

/// A rendered document, measured.
pub open spec fn document_measure(doc: RenderedDocument) -> Seq<LineMeasure> {
    lines_measure(doc.lines@)
}

/// The text of rendered spans.
pub open spec fn contents_text(spans: Seq<RenderedSpan>) -> Seq<char>
    decreases spans.len(),
{
    if spans.len() == 0 {
        seq![]
    } else {
        contents_text(spans.drop_last()) + spans.last().content@
    }
}

/// The text of rendered lines.
pub open spec fn rendered_text(lines: Seq<RenderedLine>) -> Seq<char>
    decreases lines.len(),
{
    if lines.len() == 0 {
        seq![]
    } else {
        rendered_text(lines.drop_last()) + contents_text(lines.last().spans@)
    }
}

/// The glyphs of every span of a line cover its content.
pub open spec fn measures_all_of(line: RenderedLine) -> bool {
    forall|i: int|
        0 <= i < line.spans@.len() ==> {
            let glyphs = span_measure(#[trigger] line.spans@[i]).glyphs;
            glyphs_wf(glyphs) && glyph_chars(glyphs) == line.spans@[i].content@
        }
}

/// The glyphs of every span of a document cover its content.
pub open spec fn measures_all(lines: Seq<RenderedLine>) -> bool {
    forall|k: int| 0 <= k < lines.len() ==> measures_all_of(#[trigger] lines[k])
}

/// The ASCII spans of a line are measured as their characters, each with one
/// cell.
pub open spec fn measures_ascii_of(line: RenderedLine) -> bool {
    forall|i: int|
        0 <= i < line.spans@.len() && plain_ascii((#[trigger] line.spans@[i]).content@)
            ==> span_measure(line.spans@[i]).glyphs == ascii_glyphs(line.spans@[i].content@)
}

/// The ASCII spans of a document are measured as their characters, each with
/// one cell.
pub open spec fn measures_ascii(doc: RenderedDocument) -> bool {
    forall|k: int| 0 <= k < doc.lines@.len() ==> measures_ascii_of(#[trigger] doc.lines@[k])
}

/// The spans of a line that stand for source do so in order and inside the line,
/// and none has more characters than its range.
pub open spec fn spans_in_order(line: RenderedLine) -> bool {
    match char_range(line.source) {
        Some((low, high)) => {
            &&& low <= high
            &&& forall|i: int|
                0 <= i < line.spans@.len() ==> match char_range(
                    (#[trigger] line.spans@[i]).source,
                ) {
                    Some((start, end)) => low <= start && start + line.spans@[i].content@.len()
                        <= end <= high,
                    None => true,
                }
            &&& forall|i: int, j: int|
                0 <= i < j < line.spans@.len() ==> match (
                    char_range((#[trigger] line.spans@[i]).source),
                    char_range((#[trigger] line.spans@[j]).source),
                ) {
                    (Some((_, end)), Some((start, _))) => end <= start,
                    _ => true,
                }
        },
        None => forall|i: int|
            0 <= i < line.spans@.len() ==> char_range((#[trigger] line.spans@[i]).source) is None,
    }
}

/// The lines of a document stand for source in order, and so do their spans.
/// Decorations, which stand for none, may be anywhere.
pub open spec fn document_in_order(lines: Seq<RenderedLine>) -> bool {
    &&& forall|k: int| 0 <= k < lines.len() ==> spans_in_order(#[trigger] lines[k])
    &&& forall|j: int, k: int|
        0 <= j < k < lines.len() ==> match (
            char_range((#[trigger] lines[j]).source),
            char_range((#[trigger] lines[k]).source),
        ) {
            (Some((_, end)), Some((start, _))) => end <= start,
            _ => true,
        }
}

/// Measures the graphemes of a line.
pub fn measure_line(line: &RenderedLine) -> (measured: MeasuredLine)
    ensures
        measured@ == line_measure(*line),
        measures_all_of(*line),
        measures_ascii_of(*line),
{
    let mut spans: Vec<MeasuredSpan> = Vec::new();
    let mut i: usize = 0;
    while i < line.spans.len()
        invariant
            i <= line.spans@.len(),
            views(spans@) == line_measure(*line).spans.take(i as int),
            forall|j: int|
                0 <= j < i ==> {
                    let glyphs = span_measure(#[trigger] line.spans@[j]).glyphs;
                    glyphs_wf(glyphs) && glyph_chars(glyphs) == line.spans@[j].content@
                },
            forall|j: int|
                0 <= j < i && plain_ascii((#[trigger] line.spans@[j]).content@) ==> span_measure(
                    line.spans@[j],
                ).glyphs == ascii_glyphs(line.spans@[j].content@),
        decreases line.spans@.len() - i,
    {
        let span = &line.spans[i];
        let glyphs = measure(span.content.as_str());
        spans.push(MeasuredSpan { glyphs, style: span.style, source: chars_of(span.source) });
        proof {
            assert(line_measure(*line).spans.take(i + 1) =~= line_measure(*line).spans.take(
                i as int,
            ).push(span_measure(line.spans@[i as int])));
        }
        i = i + 1;
    }
    proof {
        assert(line_measure(*line).spans.take(i as int) =~= line_measure(*line).spans);
    }
    MeasuredLine { spans, source: chars_of(line.source) }
}

/// Measures the graphemes of a document.
pub fn measure_document(doc: &RenderedDocument) -> (measured: Vec<MeasuredLine>)
    ensures
        views(measured@) == document_measure(*doc),
        measures_all(doc.lines@),
        measures_ascii(*doc),
{
    let mut measured: Vec<MeasuredLine> = Vec::new();
    let mut i: usize = 0;
    while i < doc.lines.len()
        invariant
            i <= doc.lines@.len(),
            views(measured@) == document_measure(*doc).take(i as int),
            forall|k: int|
                0 <= k < i ==> measures_all_of(#[trigger] doc.lines@[k]) && measures_ascii_of(
                    doc.lines@[k],
                ),
        decreases doc.lines@.len() - i,
    {
        let line = measure_line(&doc.lines[i]);
        measured.push(line);
        proof {
            assert(document_measure(*doc).take(i + 1) =~= document_measure(*doc).take(
                i as int,
            ).push(line_measure(doc.lines@[i as int])));
        }
        i = i + 1;
    }
    proof {
        assert(document_measure(*doc).take(i as int) =~= document_measure(*doc));
    }
    measured
}

} // verus!
