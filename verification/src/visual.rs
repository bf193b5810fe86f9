//! The visual document: wrapped rows of styled text that know which source
//! character every display column stands for.

use crate::cells::{
    blank, cell_is_whitespace, push_run_cells, run_cells, some_visible, space_cell,
    trim_leading_spaces, without_leading_blanks, Cell, CellModel,
};
use crate::render::{
    document_in_order, document_measure, measure_document, measures_ascii, rendered_text,
    LineMeasure, MeasuredLine, MeasuredSpan, RenderedDocument, SpanMeasure,
};
use crate::style::{
    copy_spans, patched, plain, push_cell_span, push_span, spans_text, Line, Span, SpanModel,
    Style, Text,
};
use crate::text::{
    all_ascii, ascii, ascii_glyphs, from_chars, glyph_chars, glyphs_of, glyphs_wf, group_views,
    line_starts, lines, measure, plain_ascii, repeat_char, split_lines, to_chars, views, Glyph,
    GlyphModel,
};
use crate::wrap::{row_cells, wrap, wrapped, WrapMode};
use vstd::prelude::*;

verus! {

broadcast use group_views;

// ---------------------------------------------------------------------------
// Rows
// ---------------------------------------------------------------------------
/// A row of the visual document.
#[derive(Debug, Clone)]
pub struct VisualRow {
    /// The styled text of the row.
    pub spans: Vec<Span>,
    /// For each display column the source character that it stands for.
    pub col_sources: Vec<usize>,
    /// The source range of the row.
    pub source_start: usize,
    pub source_end: usize,
    /// Whether the row stands for source text at all.
    pub mapped: bool,
    /// The number of leading columns that are visual only, a synthetic indent.
    /// The cursor skips them; a click on them goes to the start of the line.
    pub prefix_width: usize,
}

/// What a [`VisualRow`] holds.
#[verifier::ext_equal]
pub struct RowModel {
    pub spans: Seq<SpanModel>,
    pub col_sources: Seq<usize>,
    pub source_start: usize,
    pub source_end: usize,
    pub mapped: bool,
    pub prefix_width: usize,
}

impl View for VisualRow {
    type V = RowModel;

    open spec fn view(&self) -> RowModel {
        RowModel {
            spans: views(self.spans@),
            col_sources: self.col_sources@,
            source_start: self.source_start,
            source_end: self.source_end,
            mapped: self.mapped,
            prefix_width: self.prefix_width,
        }
    }
}

impl RowModel {
    /// The synthetic indent is part of the row.
    pub open spec fn wf(self) -> bool {
        self.prefix_width <= self.col_sources.len()
    }

    /// The row stands for the source character at `pos`.
    pub open spec fn covers(self, pos: usize) -> bool {
        self.mapped && self.source_start <= pos < self.source_end
    }

    /// The row stands for source text that starts at or before `pos`.
    pub open spec fn starts_by(self, pos: usize) -> bool {
        self.mapped && self.source_start <= pos
    }
}

/// A row without text that stands for the given source range.
pub open spec fn blank_row(start: usize, end: usize) -> RowModel {
    RowModel {
        spans: seq![],
        col_sources: seq![],
        source_start: start,
        source_end: end,
        mapped: true,
        prefix_width: 0,
    }
}

/// A row without text that stands for no source.
pub open spec fn unmapped_row() -> RowModel {
    RowModel {
        spans: seq![],
        col_sources: seq![],
        source_start: 0,
        source_end: 0,
        mapped: false,
        prefix_width: 0,
    }
}

/// Where the first cell with a source starts.
pub open spec fn first_source(cells: Seq<CellModel>) -> Option<usize>
    decreases cells.len(),
{
    if cells.len() == 0 {
        None
    } else {
        match cells[0].source {
            Some((start, _)) => Some(start),
            None => first_source(cells.skip(1)),
        }
    }
}

/// Where the last cell with a source ends.
pub open spec fn last_source(cells: Seq<CellModel>) -> Option<usize>
    decreases cells.len(),
{
    if cells.len() == 0 {
        None
    } else {
        match cells.last().source {
            Some((_, end)) => Some(end),
            None => last_source(cells.drop_last()),
        }
    }
}

/// `a`, or `b`, or `default`.
pub open spec fn either(a: Option<usize>, b: Option<usize>, default: usize) -> usize {
    match a {
        Some(x) => x,
        None => match b {
            Some(y) => y,
            None => default,
        },
    }
}

/// The source of each display column: every column of a cell stands for the
/// character where the cell starts, and `default` is for cells without source.
pub open spec fn columns(cells: Seq<CellModel>, default: usize) -> Seq<usize>
    decreases cells.len(),
{
    if cells.len() == 0 {
        seq![]
    } else {
        let source = match cells.last().source {
            Some((start, _)) => start,
            None => default,
        };
        columns(cells.drop_last(), default) + Seq::new(
            cells.last().width as nat,
            |i: int| source,
        )
    }
}

/// The spans of some cells; neighbours of the same style share one.
pub open spec fn cell_spans(cells: Seq<CellModel>) -> Seq<SpanModel>
    decreases cells.len(),
{
    if cells.len() == 0 {
        seq![]
    } else {
        push_span(cell_spans(cells.drop_last()), cells.last().text, cells.last().style)
    }
}

/// The cells of a row that are shown: rendered text starts at its first
/// visible cell, if it has one.
pub open spec fn shown(cells: Seq<CellModel>, mode: WrapMode) -> Seq<CellModel> {
    if mode == WrapMode::Rendered && some_visible(cells) {
        without_leading_blanks(cells)
    } else {
        cells
    }
}

/// The row of some cells. `fallback` is where the line starts, for cells
/// without source.
pub open spec fn row_of(
    cells: Seq<CellModel>,
    mode: WrapMode,
    fallback: Option<usize>,
) -> RowModel {
    let kept = shown(cells, mode);
    if kept.len() == 0 {
        blank_row(either(fallback, None, 0), either(fallback, None, 0))
    } else {
        let start = either(first_source(kept), fallback, 0);
        RowModel {
            spans: cell_spans(kept),
            col_sources: columns(kept, start),
            source_start: start,
            source_end: either(last_source(kept), fallback, start),
            mapped: true,
            prefix_width: 0,
        }
    }
}

fn either_of(a: Option<usize>, b: Option<usize>, default: usize) -> (x: usize)
    ensures
        x == either(a, b, default),
{
    match a {
        Some(x) => x,
        None => match b {
            Some(y) => y,
            None => default,
        },
    }
}

fn find_first_source(cells: &Vec<Cell>) -> (source: Option<usize>)
    ensures
        source == first_source(views(cells@)),
{
    let mut i: usize = 0;
    proof {
        assert(views(cells@).skip(0) == views(cells@));
    }
    while i < cells.len()
        invariant
            i <= cells@.len(),
            first_source(views(cells@).skip(i as int)) == first_source(views(cells@)),
        decreases cells@.len() - i,
    {
        proof {
            assert(views(cells@).skip(i as int).skip(1) == views(cells@).skip(i + 1));
        }
        if let Some((start, _)) = cells[i].source {
            return Some(start);
        }
        i = i + 1;
    }
    None
}

fn find_last_source(cells: &Vec<Cell>) -> (source: Option<usize>)
    ensures
        source == last_source(views(cells@)),
{
    let mut n: usize = cells.len();
    proof {
        assert(views(cells@).take(n as int) == views(cells@));
    }
    while n > 0
        invariant
            n <= cells@.len(),
            last_source(views(cells@).take(n as int)) == last_source(views(cells@)),
        decreases n,
    {
        proof {
            assert(views(cells@).take(n as int).drop_last() == views(cells@).take(n - 1));
        }
        if let Some((_, end)) = cells[n - 1].source {
            return Some(end);
        }
        n = n - 1;
    }
    None
}

fn has_visible(cells: &Vec<Cell>) -> (b: bool)
    ensures
        b == some_visible(views(cells@)),
{
    let mut i: usize = 0;
    while i < cells.len()
        invariant
            i <= cells@.len(),
            forall|k: int| 0 <= k < i ==> blank(#[trigger] views(cells@)[k]),
        decreases cells@.len() - i,
    {
        if !cell_is_whitespace(&cells[i]) {
            proof {
                assert(!blank(views(cells@)[i as int]));
            }
            return true;
        }
        i = i + 1;
    }
    false
}

fn push_columns(cols: &mut Vec<usize>, source: usize, width: usize)
    ensures
        final(cols)@ == old(cols)@ + Seq::new(width as nat, |i: int| source),
{
    let mut k: usize = 0;
    let ghost before = cols@;
    proof {
        assert(before =~= before + Seq::new(0, |i: int| source));
    }
    while k < width
        invariant
            k <= width,
            cols@ == before + Seq::new(k as nat, |i: int| source),
        decreases width - k,
    {
        cols.push(source);
        k = k + 1;
        proof {
            assert(before + Seq::new(k as nat, |i: int| source) =~= (before + Seq::new(
                (k - 1) as nat,
                |i: int| source,
            )).push(source));
        }
    }
}

impl VisualRow {
    fn blank(source: usize) -> (row: VisualRow)
        ensures
            row@ == blank_row(source, source),
    {
        VisualRow::blank_range(source, source)
    }

    fn blank_range(source_start: usize, source_end: usize) -> (row: VisualRow)
        ensures
            row@ == blank_row(source_start, source_end),
    {
        let row = VisualRow {
            spans: Vec::new(),
            col_sources: Vec::new(),
            source_start,
            source_end,
            mapped: true,
            prefix_width: 0,
        };
        proof {
            assert(row@ =~= blank_row(source_start, source_end));
        }
        row
    }

    fn unmapped_blank() -> (row: VisualRow)
        ensures
            row@ == unmapped_row(),
    {
        let row = VisualRow {
            spans: Vec::new(),
            col_sources: Vec::new(),
            source_start: 0,
            source_end: 0,
            mapped: false,
            prefix_width: 0,
        };
        proof {
            assert(row@ =~= unmapped_row());
        }
        row
    }

    /// The row of `cells`.
    pub fn from_cells(cells: Vec<Cell>, mode: WrapMode, fallback_source: Option<usize>) -> (row:
        VisualRow)
        ensures
            row@ == row_of(views(cells@), mode, fallback_source),
    {
        let kept: Vec<Cell> = if mode == WrapMode::Rendered && has_visible(&cells) {
            trim_leading_spaces(cells)
        } else {
            cells
        };
        let ghost all = views(kept@);
        if kept.len() == 0 {
            return VisualRow::blank(either_of(fallback_source, None, 0));
        }
        let source_start = either_of(find_first_source(&kept), fallback_source, 0);
        let source_end = either_of(find_last_source(&kept), fallback_source, source_start);
        let mut spans: Vec<Span> = Vec::new();
        let mut col_sources: Vec<usize> = Vec::new();
        let mut i: usize = 0;
        proof {
            assert(views(spans@) =~= cell_spans(all.take(0)));
        }
        while i < kept.len()
            invariant
                i <= kept@.len(),
                all == views(kept@),
                views(spans@) == cell_spans(all.take(i as int)),
                col_sources@ == columns(all.take(i as int), source_start),
            decreases kept@.len() - i,
        {
            proof {
                assert(all.take(i + 1).drop_last() == all.take(i as int));
            }
            let cell = &kept[i];
            push_cell_span(&mut spans, cell.text.as_str(), cell.style);
            match cell.source {
                Some((start, _)) => {
                    push_columns(&mut col_sources, start, cell.width);
                },
                None => {
                    push_columns(&mut col_sources, source_start, cell.width);
                },
            }
            i = i + 1;
        }
        proof {
            assert(all.take(i as int) == all);
        }
        VisualRow {
            spans,
            col_sources,
            source_start,
            source_end,
            mapped: true,
            prefix_width: 0,
        }
    }

    fn include_source_start(&mut self, source: usize)
        ensures
            final(self)@ == (RowModel {
                source_start: if source < old(self).source_start {
                    source
                } else {
                    old(self).source_start
                },
                ..old(self)@
            }),
    {
        if source < self.source_start {
            self.source_start = source;
        }
    }

    fn include_source_end(&mut self, source: usize)
        ensures
            final(self)@ == (RowModel {
                source_end: if source > old(self).source_end {
                    source
                } else {
                    old(self).source_end
                },
                ..old(self)@
            }),
    {
        if source > self.source_end {
            self.source_end = source;
        }
    }
}

// ---------------------------------------------------------------------------
// Lines into rows
// ---------------------------------------------------------------------------
/// `row` stretched to the line that it belongs to: the first row of a line
/// starts no later than the line, the last one ends no earlier.
pub open spec fn stretched(
    row: RowModel,
    first: bool,
    last: bool,
    line: Option<(usize, usize)>,
) -> RowModel {
    match line {
        Some((start, end)) => RowModel {
            source_start: if first && start < row.source_start {
                start
            } else {
                row.source_start
            },
            source_end: if last && end > row.source_end {
                end
            } else {
                row.source_end
            },
            ..row
        },
        None => row,
    }
}

/// Where a line starts.
pub open spec fn line_start(line: Option<(usize, usize)>) -> Option<usize> {
    match line {
        Some((start, _)) => Some(start),
        None => None,
    }
}

/// The rows of a line with the given cells and source range.
pub open spec fn wrap_rows(
    cells: Seq<CellModel>,
    line: Option<(usize, usize)>,
    width: usize,
    mode: WrapMode,
) -> Seq<RowModel> {
    if cells.len() == 0 {
        match line {
            Some((start, end)) => seq![blank_row(start, end)],
            None => seq![unmapped_row()],
        }
    } else {
        let groups = wrapped(cells, width, mode);
        Seq::new(
            groups.len(),
            |i: int|
                stretched(
                    row_of(groups[i], mode, line_start(line)),
                    i == 0,
                    i == groups.len() - 1,
                    line,
                ),
        )
    }
}

/// Wraps the cells of a line into visual rows.
pub fn wrap_cells(
    cells: Vec<Cell>,
    line_source: Option<(usize, usize)>,
    width: usize,
    mode: WrapMode,
) -> (rows: Vec<VisualRow>)
    ensures
        views(rows@) == wrap_rows(views(cells@), line_source, width, mode),
{
    let mut rows: Vec<VisualRow> = Vec::new();
    let ghost target = wrap_rows(views(cells@), line_source, width, mode);
    if cells.len() == 0 {
        let row = match line_source {
            Some((start, end)) => VisualRow::blank_range(start, end),
            None => VisualRow::unmapped_blank(),
        };
        rows.push(row);
        proof {
            assert(views(rows@) =~= target);
        }
        return rows;
    }
    let fallback: Option<usize> = match line_source {
        Some((start, _)) => Some(start),
        None => None,
    };
    let groups = wrap(cells, width, mode);
    let n: usize = groups.len();
    let mut i: usize = 0;
    for group in it: groups
        invariant
            it.seq() == groups@,
            i == it.index(),
            n == groups@.len(),
            views(cells@).len() > 0,
            row_cells(groups@) == wrapped(views(cells@), width, mode),
            fallback == line_start(line_source),
            target == wrap_rows(views(cells@), line_source, width, mode),
            views(rows@) == target.take(i as int),
    {
        proof {
            assert(row_cells(groups@)[i as int] == views(group@));
        }
        let mut row = VisualRow::from_cells(group, mode, fallback);
        if let Some((start, end)) = line_source {
            if i == 0 {
                row.include_source_start(start);
            }
            if i == n - 1 {
                row.include_source_end(end);
            }
        }
        proof {
            assert(row@ == target[i as int]);
            assert(target.take(i + 1) =~= target.take(i as int).push(row@));
        }
        rows.push(row);
        i = i + 1;
    }
    proof {
        assert(target.take(i as int) =~= target);
    }
    rows
}

/// The cells of the spans of a line.
pub open spec fn span_cells(spans: Seq<SpanMeasure>) -> Seq<CellModel>
    decreases spans.len(),
{
    if spans.len() == 0 {
        seq![]
    } else {
        span_cells(spans.drop_last()) + run_cells(
            spans.last().glyphs,
            spans.last().style,
            spans.last().source,
        )
    }
}

/// One space for each source character of the line behind its last cell, so
/// that the cursor can stand there.
pub open spec fn tail_cells(
    cells: Seq<CellModel>,
    line: Option<(usize, usize)>,
) -> Seq<CellModel> {
    match (line, last_source(cells)) {
        (Some((_, end)), Some(last)) => if last < end {
            Seq::new(
                (end - last) as nat,
                |i: int|
                    space_cell(plain(), Some(((last + i) as usize, (last + i + 1) as usize))),
            )
        } else {
            seq![]
        },
        _ => seq![],
    }
}

/// The cells of a line.
pub open spec fn line_cells(line: LineMeasure) -> Seq<CellModel> {
    span_cells(line.spans) + tail_cells(span_cells(line.spans), line.source)
}

/// The cells of a line reach the end of its source: behind the last one with a
/// source there is one blank column for each character that is left, in order.
pub proof fn law_cells_reach_the_end_of_the_line(line: LineMeasure, i: int)
    requires
        line.source is Some,
        last_source(span_cells(line.spans)) is Some,
    ensures
        ({
            let own = span_cells(line.spans);
            let cells = line_cells(line);
            let last = last_source(own)->0;
            let end = line_end(line.source);
            let n = own.len() as int;
            &&& cells.take(n) == own
            &&& last < end ==> cells.len() == n + (end - last)
            &&& last >= end ==> cells.len() == n
            &&& n <= i < cells.len() ==> {
                &&& crate::cells::blank(cells[i]) && cells[i].width == 1
                &&& cells[i].source == Some(
                    ((last + (i - n)) as usize, (last + (i - n) + 1) as usize),
                )
            }
        }),
{
    let own = span_cells(line.spans);
    let cells = line_cells(line);
    assert(cells.take(own.len() as int) =~= own);
    if own.len() <= i < cells.len() {
        assert(cells[i].text[0] == ' ');
    }
}

/// Where a line ends.
pub open spec fn line_end(line: Option<(usize, usize)>) -> int {
    match line {
        Some((_, end)) => end as int,
        None => 0,
    }
}

/// The cells of the spans of a line.
pub fn rendered_line_cells(line: &MeasuredLine) -> (cells: Vec<Cell>)
    ensures
        views(cells@) == span_cells(line@.spans),
{
    let mut cells: Vec<Cell> = Vec::new();
    let mut i: usize = 0;
    proof {
        assert(views(cells@) =~= span_cells(line@.spans.take(0)));
    }
    while i < line.spans.len()
        invariant
            i <= line.spans@.len(),
            views(cells@) == span_cells(line@.spans.take(i as int)),
        decreases line.spans@.len() - i,
    {
        proof {
            assert(line@.spans.take(i + 1).drop_last() == line@.spans.take(i as int));
        }
        let span = &line.spans[i];
        push_run_cells(&mut cells, &span.glyphs, span.style, span.source);
        i = i + 1;
    }
    proof {
        assert(line@.spans.take(i as int) == line@.spans);
    }
    cells
}

fn push_tail_cells(cells: &mut Vec<Cell>, line: Option<(usize, usize)>)
    ensures
        views(final(cells)@) == views(old(cells)@) + tail_cells(views(old(cells)@), line),
{
    let ghost before = views(cells@);
    let last = find_last_source(cells);
    match (line, last) {
        (Some((_, end)), Some(last)) => {
            let mut pos: usize = last;
            let ghost target = tail_cells(before, line);
            proof {
                assert(views(cells@) =~= before + target.take(0));
            }
            while pos < end
                invariant
                    last <= pos,
                    last <= end ==> pos <= end,
                    last > end ==> pos == last,
                    last < end ==> target == Seq::new(
                        (end - last) as nat,
                        |i: int|
                            space_cell(
                                plain(),
                                Some(((last + i) as usize, (last + i + 1) as usize)),
                            ),
                    ),
                    views(cells@) == before + target.take(pos - last),
                decreases end - pos,
            {
                let text = repeat_char(' ', 1);
                proof {
                    assert(text@ =~= seq![' ']);
                }
                cells.push(
                    Cell { text, width: 1, style: Style::default(), source: Some((pos, pos + 1)) },
                );
                proof {
                    assert(before + target.take(pos - last + 1) =~= (before + target.take(
                        pos - last,
                    )).push(target[pos - last]));
                }
                pos = pos + 1;
            }
            proof {
                assert(target.take(pos - last) =~= target);
            }
        },
        _ => {
            proof {
                assert(views(cells@) =~= before + tail_cells(before, line));
            }
        },
    }
}

/// The rows of a line.
pub open spec fn line_rows(line: LineMeasure, width: usize, mode: WrapMode) -> Seq<RowModel> {
    wrap_rows(line_cells(line), line.source, width, mode)
}

/// The rows of some lines, one line after the other.
pub open spec fn all_rows(lines: Seq<LineMeasure>, width: usize, mode: WrapMode) -> Seq<RowModel>
    decreases lines.len(),
{
    if lines.len() == 0 {
        seq![]
    } else {
        all_rows(lines.drop_last(), width, mode) + line_rows(lines.last(), width, mode)
    }
}

/// The narrowest width that is wrapped to.
pub open spec fn at_least_one(width: usize) -> usize {
    if width == 0 {
        1
    } else {
        width
    }
}

/// The rows of a document. A document without rows is one blank row.
pub open spec fn document_rows(
    lines: Seq<LineMeasure>,
    width: usize,
    mode: WrapMode,
) -> Seq<RowModel> {
    let rows = all_rows(lines, at_least_one(width), mode);
    if rows.len() == 0 {
        seq![blank_row(0, 0)]
    } else {
        rows
    }
}

proof fn lemma_all_rows_add(
    a: Seq<LineMeasure>,
    b: Seq<LineMeasure>,
    width: usize,
    mode: WrapMode,
)
    ensures
        all_rows(a + b, width, mode) == all_rows(a, width, mode) + all_rows(b, width, mode),
    decreases b.len(),
{
    if b.len() == 0 {
        assert(a + b =~= a);
        assert(all_rows(b, width, mode) =~= seq![]);
        assert(all_rows(a, width, mode) + all_rows(b, width, mode) =~= all_rows(a, width, mode));
    } else {
        lemma_all_rows_add(a, b.drop_last(), width, mode);
        assert((a + b).drop_last() =~= a + b.drop_last());
        assert((a + b).last() == b.last());
        assert(all_rows(a + b, width, mode) =~= all_rows(a, width, mode) + all_rows(
            b,
            width,
            mode,
        ));
    }
}

/// A document goes line by line: the rows of one part and then those of the
/// other, however it is parted between lines.
pub proof fn law_documents_go_line_by_line(
    a: Seq<LineMeasure>,
    b: Seq<LineMeasure>,
    width: usize,
    mode: WrapMode,
)
    requires
        a.len() > 0,
        b.len() > 0,
    ensures
        document_rows(a + b, width, mode) == document_rows(a, width, mode) + document_rows(
            b,
            width,
            mode,
        ),
{
    let w = at_least_one(width);
    lemma_all_rows_add(a, b, w, mode);
    lemma_lines_have_rows(a, w, mode);
    lemma_lines_have_rows(b, w, mode);
}

proof fn lemma_lines_have_rows(lines: Seq<LineMeasure>, width: usize, mode: WrapMode)
    requires
        lines.len() > 0,
    ensures
        all_rows(lines, width, mode).len() > 0,
{
    let cells = line_cells(lines.last());
    crate::wrap::law_rows_fit_the_width(cells, width, mode);
}

/// The rows of a line stand for all of its source: the first starts no later than
/// the line, and the last ends no earlier.
pub proof fn law_rows_cover_their_line(line: LineMeasure, width: usize, mode: WrapMode)
    requires
        line.source is Some,
    ensures
        ({
            let rows = line_rows(line, width, mode);
            let (start, end) = line.source->0;
            &&& rows.len() > 0
            &&& rows[0].mapped && rows.last().mapped
            &&& rows[0].source_start <= start
            &&& rows.last().source_end >= end
        }),
{
    let cells = line_cells(line);
    crate::wrap::law_rows_fit_the_width(cells, width, mode);
}

/// A document without lines has one row all the same, where the cursor can stand
/// at its start.
pub proof fn law_empty_documents_have_a_row(width: usize, mode: WrapMode)
    ensures
        document_rows(Seq::<LineMeasure>::empty(), width, mode).len() == 1,
        display_of(document_rows(Seq::<LineMeasure>::empty(), width, mode), 0) == Some(
            (0int, 0int),
        ),
        source_of(document_rows(Seq::<LineMeasure>::empty(), width, mode), 0, 0) == Some(0usize),
{
    let rows = document_rows(Seq::<LineMeasure>::empty(), width, mode);
    assert(rows == seq![blank_row(0, 0)]);
    reveal_with_fuel(first_covering, 2);
    reveal_with_fuel(last_starting, 2);
}

/// A line that fits into the width is one row, in raw source and in rendered
/// text: it shows all its cells, and stands for all of its source.
pub proof fn law_short_lines_are_one_row(line: LineMeasure, width: usize, mode: WrapMode)
    requires
        crate::cells::total_width(line_cells(line)) <= width,
        line_cells(line).len() > 0,
    ensures
        document_rows(seq![line], width, mode).len() == 1,
        ({
            let row = document_rows(seq![line], width, mode)[0];
            &&& row.spans == cell_spans(shown(line_cells(line), mode))
            &&& line.source matches Some((start, end)) ==> row.source_start <= start
                && row.source_end >= end
        }),
{
    let w = at_least_one(width);
    let cells = line_cells(line);
    crate::wrap::law_short_lines_stay_whole(cells, w, mode);
    assert(seq![line].drop_last() =~= seq![]);
    assert(all_rows(seq![line].drop_last(), w, mode) =~= seq![]);
    let rows = line_rows(line, w, mode);
    assert(all_rows(seq![line], w, mode) =~= rows);
    lemma_shown_cells(cells, mode);
}

proof fn lemma_shown_cells(cells: Seq<CellModel>, mode: WrapMode)
    ensures
        cells.len() > 0 ==> shown(cells, mode).len() > 0,
        mode == WrapMode::Rendered && some_visible(cells) ==> !crate::cells::blank(
            shown(cells, mode)[0],
        ),
        exists|n: int|
            0 <= n <= cells.len() && shown(cells, mode) == #[trigger] cells.skip(n) && forall|i: int|
                0 <= i < n ==> crate::cells::blank(#[trigger] cells[i]),
{
    if mode == WrapMode::Rendered && some_visible(cells) {
        let n = lemma_leading_blanks(cells);
        assert(shown(cells, mode) == cells.skip(n));
        let v = choose|v: int| 0 <= v < cells.len() && !crate::cells::blank(#[trigger] cells[v]);
        assert(v >= n);
    } else {
        assert(cells.skip(0) =~= cells);
        assert(shown(cells, mode) == cells.skip(0));
    }
}

proof fn lemma_leading_blanks(cells: Seq<CellModel>) -> (n: int)
    ensures
        0 <= n <= cells.len(),
        without_leading_blanks(cells) == cells.skip(n),
        n < cells.len() ==> !crate::cells::blank(cells[n]),
        forall|i: int| 0 <= i < n ==> crate::cells::blank(#[trigger] cells[i]),
    decreases cells.len(),
{
    if cells.len() > 0 && crate::cells::blank(cells[0]) {
        let n = lemma_leading_blanks(cells.skip(1));
        assert(cells.skip(1).skip(n) =~= cells.skip(n + 1));
        assert forall|i: int| 0 <= i < n + 1 implies crate::cells::blank(#[trigger] cells[i]) by {
            if i > 0 {
                assert(cells[i] == cells.skip(1)[i - 1]);
            }
        }
        n + 1
    } else {
        assert(cells.skip(0) =~= cells);
        0
    }
}

/// Raw source keeps the blank cells at the start of a row. Rendered text starts
/// at the first visible cell of the row, and leaves out nothing else; a row of
/// nothing but blank cells stays as it is.
pub proof fn law_rendered_rows_start_with_text(cells: Seq<CellModel>) -> (n: int)
    ensures
        shown(cells, WrapMode::Source) == cells,
        0 <= n <= cells.len(),
        shown(cells, WrapMode::Rendered) == cells.skip(n),
        forall|i: int| 0 <= i < n ==> crate::cells::blank(#[trigger] cells[i]),
        n < cells.len() && !crate::cells::blank(cells[n]) || n == 0,
        (exists|i: int| 0 <= i < cells.len() && !crate::cells::blank(#[trigger] cells[i])) ==> n
            < cells.len() && !crate::cells::blank(cells[n]),
{
    if some_visible(cells) {
        let n = lemma_leading_blanks(cells);
        let v = choose|v: int| 0 <= v < cells.len() && !crate::cells::blank(#[trigger] cells[v]);
        assert(v >= n);
        n
    } else {
        assert(cells.skip(0) =~= cells);
        0
    }
}

/// Carriage returns at the end of a line are no part of it, however many; those
/// inside it are.
pub proof fn law_returns_end_a_line(line: Seq<char>, n: nat)
    requires
        line.len() > 0 ==> line.last() != '\r',
    ensures
        without_returns(line + crate::text::repeated('\r', n)) == line,
    decreases n,
{
    let all = line + crate::text::repeated('\r', n);
    if n == 0 {
        assert(all =~= line);
    } else {
        law_returns_end_a_line(line, (n - 1) as nat);
        assert(all.last() == '\r');
        assert(all.drop_last() =~= line + crate::text::repeated('\r', (n - 1) as nat));
    }
}

/// `line` without the carriage returns at its end.
pub open spec fn without_returns(line: Seq<char>) -> Seq<char>
    decreases line.len(),
{
    if line.len() > 0 && line.last() == '\r' {
        without_returns(line.drop_last())
    } else {
        line
    }
}

/// Line `k` of a text, as one span of the given glyphs.
pub open spec fn line_of_glyphs(
    text: Seq<char>,
    style: Style,
    k: int,
    glyphs: Seq<GlyphModel>,
) -> LineMeasure {
    let content = without_returns(lines(text)[k]);
    let start = line_starts(text)[k];
    let range = Some((start as usize, (start + content.len()) as usize));
    LineMeasure { spans: seq![SpanMeasure { glyphs, style, source: range }], source: range }
}

/// Line `k` of a text, as one span.
pub open spec fn source_line(text: Seq<char>, style: Style, k: int) -> LineMeasure {
    line_of_glyphs(text, style, k, glyphs_of(without_returns(lines(text)[k])))
}

/// Line `k` of a text, where that is ASCII: each character is a glyph.
pub open spec fn ascii_line(text: Seq<char>, style: Style, k: int) -> LineMeasure {
    line_of_glyphs(text, style, k, ascii_glyphs(without_returns(lines(text)[k])))
}

/// The lines of an ASCII text.
pub open spec fn ascii_lines(text: Seq<char>, style: Style) -> Seq<LineMeasure> {
    Seq::new(lines(text).len(), |k: int| ascii_line(text, style, k))
}

/// The lines of a text, each as one span.
pub open spec fn source_lines(text: Seq<char>, style: Style) -> Seq<LineMeasure> {
    Seq::new(lines(text).len(), |k: int| source_line(text, style, k))
}

pub proof fn lemma_without_returns(line: Seq<char>)
    ensures
        without_returns(line).len() <= line.len(),
        without_returns(line) == line.take(without_returns(line).len() as int),
        forall|i: int| without_returns(line).len() <= i < line.len() ==> line[i] == '\r',
    decreases line.len(),
{
    if line.len() > 0 && line.last() == '\r' {
        let t = line.drop_last();
        lemma_without_returns(t);
        assert(t.take(without_returns(t).len() as int) =~= line.take(
            without_returns(t).len() as int,
        ));
        assert forall|i: int| without_returns(line).len() <= i < line.len() implies line[i]
            == '\r' by {
            if i < t.len() {
                assert(t[i] == line[i]);
            }
        }
    } else {
        assert(line.take(line.len() as int) =~= line);
    }
}

/// `measured` are the lines of `text`, each as one span of graphemes that
/// together are its content.
pub open spec fn faithful(text: Seq<char>, measured: Seq<LineMeasure>) -> bool {
    &&& measured.len() == lines(text).len()
    &&& forall|k: int|
        0 <= k < measured.len() ==> {
            let content = without_returns(lines(text)[k]);
            let start = line_starts(text)[k];
            &&& (#[trigger] measured[k]).source == Some(
                (start as usize, (start + content.len()) as usize),
            )
            &&& measured[k].spans.len() == 1
            &&& measured[k].spans[0].source == measured[k].source
            &&& glyphs_wf(measured[k].spans[0].glyphs)
            &&& glyph_chars(measured[k].spans[0].glyphs) == content
        }
}

/// Where the content of a line ends that stands in `chars[start..end]`.
fn content_end(chars: &Vec<char>, start: usize, end: usize) -> (content: usize)
    requires
        start <= end <= chars@.len(),
    ensures
        start <= content <= end,
        chars@.subrange(start as int, content as int) == without_returns(
            chars@.subrange(start as int, end as int),
        ),
{
    let mut content: usize = end;
    while content > start && chars[content - 1] == '\r'
        invariant
            start <= content <= end <= chars@.len(),
            without_returns(chars@.subrange(start as int, content as int)) == without_returns(
                chars@.subrange(start as int, end as int),
            ),
        decreases content - start,
    {
        proof {
            assert(chars@.subrange(start as int, content as int).drop_last() == chars@.subrange(
                start as int,
                content - 1,
            ));
        }
        content = content - 1;
    }
    content
}

/// Splits a text into lines and measures their graphemes.
pub fn measure_source(input: &str, style: Style) -> (measured: Vec<MeasuredLine>)
    ensures
        views(measured@) == source_lines(input@, style),
        faithful(input@, views(measured@)),
        input@.len() <= usize::MAX,
        forall|k: int|
            0 <= k < lines(input@).len() && all_ascii(#[trigger] lines(input@)[k])
                ==> source_line(input@, style, k) == ascii_line(input@, style, k),
{
    let chars = to_chars(input);
    let bounds = split_lines(&chars);
    let mut measured: Vec<MeasuredLine> = Vec::new();
    let mut k: usize = 0;
    proof {
        assert(chars.len() == input@.len());
        crate::text::lemma_lines(input@);
        assert(views(measured@) =~= source_lines(input@, style).take(0));
    }
    while k < bounds.len()
        invariant
            k <= bounds@.len(),
            chars@ == input@,
            bounds@.len() == lines(input@).len(),
            forall|j: int|
                0 <= j < bounds@.len() ==> (
                (#[trigger] bounds@[j]).0 as int, bounds@[j].1 as int)
                    == crate::text::line_bounds(chars@, j),
            views(measured@) == source_lines(input@, style).take(k as int),
            forall|j: int|
                0 <= j < k && all_ascii(#[trigger] lines(input@)[j]) ==> source_line(
                    input@,
                    style,
                    j,
                ) == ascii_line(input@, style, j),
            forall|j: int|
                0 <= j < k ==> {
                    let glyphs = (#[trigger] measured@[j])@.spans[0].glyphs;
                    &&& glyphs_wf(glyphs)
                    &&& glyph_chars(glyphs) == without_returns(lines(input@)[j])
                },
        decreases bounds@.len() - k,
    {
        let (start, end) = bounds[k];
        proof {
            crate::text::lemma_lines(input@);
            assert((start as int, end as int) == crate::text::line_bounds(input@, k as int));
            assert(lines(input@)[k as int] == chars@.subrange(start as int, end as int));
        }
        let stop: usize = content_end(&chars, start, end);
        let content = from_chars(&chars, start, stop);
        let glyphs = measure(content.as_str());
        proof {
            let raw = lines(input@)[k as int];
            lemma_without_returns(raw);
            if all_ascii(raw) {
                assert(plain_ascii(content@)) by {
                    assert forall|i: int| 0 <= i < content@.len() implies ascii(
                        #[trigger] content@[i],
                    ) && content@[i] != '\n' by {
                        assert(content@[i] == raw[i]);
                        assert(raw.contains(raw[i]));
                    }
                }
            }
        }
        let mut spans: Vec<MeasuredSpan> = Vec::new();
        spans.push(MeasuredSpan { glyphs, style, source: Some((start, stop)) });
        let line = MeasuredLine { spans, source: Some((start, stop)) };
        proof {
            let target = source_lines(input@, style);
            assert(line@.spans =~= target[k as int].spans);
            assert(line@ == target[k as int]);
            assert(target.take(k + 1) =~= target.take(k as int).push(target[k as int]));
        }
        measured.push(line);
        k = k + 1;
    }
    proof {
        assert(source_lines(input@, style).take(k as int) =~= source_lines(input@, style));
        assert forall|j: int| 0 <= j < measured@.len() implies {
            let glyphs = (#[trigger] views(measured@)[j]).spans[0].glyphs;
            &&& glyphs_wf(glyphs)
            &&& glyph_chars(glyphs) == without_returns(lines(input@)[j])
        } by {
            assert(views(measured@)[j] == measured@[j]@);
        }
    }
    measured
}

// ---------------------------------------------------------------------------
// Documents
// ---------------------------------------------------------------------------
/// A document as it is shown: rows of styled text.
#[derive(Debug, Clone)]
pub struct VisualDocument {
    pub rows: Vec<VisualRow>,
}

impl View for VisualDocument {
    type V = Seq<RowModel>;

    open spec fn view(&self) -> Seq<RowModel> {
        views(self.rows@)
    }
}

impl VisualDocument {
    /// The document of measured lines.
    pub fn from_measured(lines: &Vec<MeasuredLine>, width: usize, mode: WrapMode) -> (doc:
        VisualDocument)
        ensures
            doc@ == document_rows(views(lines@), width, mode),
    {
        let width: usize = if width == 0 {
            1
        } else {
            width
        };
        let mut rows: Vec<VisualRow> = Vec::new();
        let mut i: usize = 0;
        proof {
            assert(views(rows@) =~= all_rows(views(lines@).take(0), width, mode));
        }
        while i < lines.len()
            invariant
                i <= lines@.len(),
                views(rows@) == all_rows(views(lines@).take(i as int), width, mode),
            decreases lines@.len() - i,
        {
            proof {
                assert(views(lines@).take(i + 1).drop_last() == views(lines@).take(i as int));
            }
            let line = &lines[i];
            let mut cells = rendered_line_cells(line);
            push_tail_cells(&mut cells, line.source);
            let mut more = wrap_cells(cells, line.source, width, mode);
            rows.append(&mut more);
            i = i + 1;
        }
        proof {
            assert(views(lines@).take(i as int) == views(lines@));
        }
        if rows.len() == 0 {
            rows.push(VisualRow::blank(0));
            proof {
                assert(views(rows@) =~= seq![blank_row(0, 0)]);
            }
        }
        VisualDocument { rows }
    }

    /// The document of raw source text. Its rows go through the text in order,
    /// from its first character on, and show all its visible characters.
    pub fn from_source(input: &str, width: usize, style: Style) -> (doc: VisualDocument)
        ensures
            doc@ == document_rows(source_lines(input@, style), width, WrapMode::Source),
            forall|k: int|
                0 <= k < lines(input@).len() && all_ascii(#[trigger] lines(input@)[k])
                    ==> source_line(input@, style, k) == ascii_line(input@, style, k),
            all_ascii(input@) ==> doc@ == document_rows(
                ascii_lines(input@, style),
                width,
                WrapMode::Source,
            ),
            crate::mapping::tidy(doc@),
            doc@.len() > 0 && doc@[0].starts_by(0),
            crate::mapping::visible(crate::mapping::rows_text(doc@)) == crate::mapping::visible(
                input@,
            ),
    {
        let measured = measure_source(input, style);
        proof {
            let shown = views(measured@);
            crate::mapping::law_source_documents_are_tidy(input@, shown, width);
            crate::mapping::law_source_documents_keep_visible_text(input@, shown, width);
            if all_ascii(input@) {
                crate::text::lemma_lines(input@);
                assert forall|k: int| 0 <= k < lines(input@).len() implies shown[k]
                    == #[trigger] ascii_lines(input@, style)[k] by {
                    let line = lines(input@)[k];
                    let start = line_starts(input@)[k];
                    assert forall|i: int| 0 <= i < line.len() implies ascii(
                        #[trigger] line[i],
                    ) by {
                        assert(line[i] == input@[start + i]);
                    }
                    assert(all_ascii(lines(input@)[k]));
                }
                assert(shown =~= ascii_lines(input@, style));
            }
        }
        VisualDocument::from_measured(&measured, width, WrapMode::Source)
    }

    /// The document of rendered text.
    pub fn from_rendered(rendered: &RenderedDocument, width: usize) -> (doc: VisualDocument)
        ensures
            doc@ == document_rows(document_measure(*rendered), width, WrapMode::Rendered),
            measures_ascii(*rendered),
            crate::mapping::visible(crate::mapping::rows_text(doc@)) == crate::mapping::visible(
                rendered_text(rendered.lines@),
            ),
            document_in_order(rendered.lines@) ==> crate::decorated::decorated_in_order(
                document_measure(*rendered),
            ),
    {
        let measured = measure_document(rendered);
        proof {
            crate::mapping::lemma_text_of_rendered(rendered.lines@);
            if document_in_order(rendered.lines@) {
                crate::decorated::law_rendered_documents_are_in_order(rendered.lines@);
            }
            crate::mapping::law_documents_keep_visible_text(
                document_measure(*rendered),
                width,
                WrapMode::Rendered,
            );
        }
        VisualDocument::from_measured(&measured, width, WrapMode::Rendered)
    }
}

// ---------------------------------------------------------------------------
// Between columns and source characters
// ---------------------------------------------------------------------------
/// The source character at column `col` of a row. Behind its last column a row
/// stands for its end.
pub open spec fn source_at(row: RowModel, col: int) -> Option<usize> {
    if !row.mapped {
        None
    } else if row.col_sources.len() == 0 {
        Some(row.source_start)
    } else if col < row.col_sources.len() {
        Some(row.col_sources[col])
    } else {
        Some(row.source_end)
    }
}

/// Behind its last column a row stands for its end, and a row without columns for
/// its start; a row that stands for no source text stands for none anywhere, nor
/// is there any below the last row.
pub proof fn law_behind_a_row_is_its_end(rows: Seq<RowModel>, row: int, col: int)
    requires
        0 <= row,
        0 <= col,
    ensures
        row < rows.len() && rows[row].mapped && 0 < rows[row].col_sources.len() <= col ==> source_of(
            rows,
            row,
            col,
        ) == Some(rows[row].source_end),
        row < rows.len() && rows[row].mapped && rows[row].col_sources.len() == 0 ==> source_of(
            rows,
            row,
            col,
        ) == Some(rows[row].source_start),
        row < rows.len() && !rows[row].mapped ==> source_of(rows, row, col) is None,
        row >= rows.len() ==> source_of(rows, row, col) is None,
{
}

/// The first column from `from` on whose source is not before `pos`, or the
/// number of columns.
pub open spec fn first_at_least(cols: Seq<usize>, from: int, pos: usize) -> int
    decreases cols.len() - from,
{
    if from >= cols.len() {
        cols.len() as int
    } else if cols[from] >= pos {
        from
    } else {
        first_at_least(cols, from + 1, pos)
    }
}

/// The first of the columns, from `low` to `col`, that stand for the same
/// character as `col` without a break.
pub open spec fn run_start(cols: Seq<usize>, low: int, col: int) -> int
    decreases col - low,
{
    if col > low && cols[col - 1] == cols[col] {
        run_start(cols, low, col - 1)
    } else {
        col
    }
}

/// The column of a row where the source character `pos` is shown: behind the
/// synthetic indent, where the character stands, or where the last character
/// before it starts.
pub open spec fn col_of(row: RowModel, pos: usize) -> int {
    let cols = row.col_sources;
    let low = row.prefix_width as int;
    let stop = first_at_least(cols, low, pos);
    if low >= cols.len() {
        low
    } else if stop < cols.len() && cols[stop] == pos {
        stop
    } else if stop > low {
        run_start(cols, low, stop - 1)
    } else {
        low
    }
}

/// The first row from `from` on that covers `pos`, or the number of rows.
pub open spec fn first_covering(rows: Seq<RowModel>, from: int, pos: usize) -> int
    decreases rows.len() - from,
{
    if from >= rows.len() {
        rows.len() as int
    } else if rows[from].covers(pos) {
        from
    } else {
        first_covering(rows, from + 1, pos)
    }
}

/// The last of the first `n` rows that starts at or before `pos`, or -1.
pub open spec fn last_starting(rows: Seq<RowModel>, n: int, pos: usize) -> int
    decreases n,
{
    if n <= 0 {
        -1
    } else if rows[n - 1].starts_by(pos) {
        n - 1
    } else {
        last_starting(rows, n - 1, pos)
    }
}

/// Where the source character `pos` is shown: in the first row that covers it,
/// else at the end of the last row that starts before it.
pub open spec fn display_of(rows: Seq<RowModel>, pos: usize) -> Option<(int, int)> {
    let row = first_covering(rows, 0, pos);
    let near = last_starting(rows, rows.len() as int, pos);
    if row < rows.len() {
        Some((row, col_of(rows[row], pos)))
    } else if near >= 0 {
        Some((near, rows[near].col_sources.len() as int))
    } else {
        None
    }
}

/// The source character shown at a row and column.
pub open spec fn source_of(rows: Seq<RowModel>, row: int, col: int) -> Option<usize> {
    if 0 <= row < rows.len() {
        source_at(rows[row], col)
    } else {
        None
    }
}

/// The last of the first `n` rows that stands for source text, or -1.
pub open spec fn last_mapped(rows: Seq<RowModel>, n: int) -> int
    decreases n,
{
    if n <= 0 {
        -1
    } else if rows[n - 1].mapped {
        n - 1
    } else {
        last_mapped(rows, n - 1)
    }
}

/// The end of the nearest row above `row` that stands for source text, if that
/// one is indented prose.
pub open spec fn prose_end_above(rows: Seq<RowModel>, row: int) -> Option<usize> {
    let above = last_mapped(
        rows,
        if row < rows.len() {
            row
        } else {
            rows.len() as int
        },
    );
    if above >= 0 && rows[above].prefix_width != 0 {
        Some(rows[above].source_end)
    } else {
        None
    }
}

impl VisualRow {
    /// The number of display columns.
    pub fn width(&self) -> (width: usize)
        ensures
            width == self@.col_sources.len(),
    {
        self.col_sources.len()
    }

    /// The source character at column `col`.
    pub fn source_at_col(&self, col: usize) -> (source: Option<usize>)
        ensures
            source == source_at(self@, col as int),
    {
        if !self.mapped {
            None
        } else if self.col_sources.len() == 0 {
            Some(self.source_start)
        } else if col < self.col_sources.len() {
            Some(self.col_sources[col])
        } else {
            Some(self.source_end)
        }
    }

    /// The column where the source character `char_pos` is shown.
    pub fn col_for_source(&self, char_pos: usize) -> (col: usize)
        ensures
            col == col_of(self@, char_pos),
    {
        let low: usize = self.prefix_width;
        let mut best: usize = low;
        let mut col: usize = low;
        while col < self.col_sources.len()
            invariant
                low == self.prefix_width,
                low <= col,
                low < self.col_sources@.len() ==> col <= self.col_sources@.len(),
                low >= self.col_sources@.len() ==> col == low,
                first_at_least(self.col_sources@, low as int, char_pos) == first_at_least(
                    self.col_sources@,
                    col as int,
                    char_pos,
                ),
                col == low ==> best == low,
                col > low ==> best == run_start(self.col_sources@, low as int, col - 1),
            decreases self.col_sources@.len() - col,
        {
            let source: usize = self.col_sources[col];
            if source == char_pos {
                return col;
            }
            if source > char_pos {
                return best;
            }
            if col == low || self.col_sources[col - 1] != source {
                best = col;
            }
            col = col + 1;
        }
        best
    }
}

impl VisualDocument {
    /// The source character shown at a row and column.
    pub fn display_to_source(&self, row: usize, col: usize) -> (source: Option<usize>)
        ensures
            source == source_of(self@, row as int, col as int),
    {
        if row < self.rows.len() {
            self.rows[row].source_at_col(col)
        } else {
            None
        }
    }

    /// The number of columns of a row.
    pub fn row_width(&self, row: usize) -> (width: Option<usize>)
        ensures
            match width {
                Some(w) => row < self@.len() && w == self@[row as int].col_sources.len(),
                None => row >= self@.len(),
            },
    {
        if row < self.rows.len() {
            Some(self.rows[row].width())
        } else {
            None
        }
    }

    /// The number of columns of the synthetic indent of a row.
    pub fn row_prefix_width(&self, row: usize) -> (width: Option<usize>)
        ensures
            match width {
                Some(w) => row < self@.len() && w == self@[row as int].prefix_width,
                None => row >= self@.len(),
            },
    {
        if row < self.rows.len() {
            Some(self.rows[row].prefix_width)
        } else {
            None
        }
    }

    /// The end of the nearest mapped row above `row`, if it is indented prose.
    pub fn prev_prose_row_end(&self, row: usize) -> (end: Option<usize>)
        ensures
            end == prose_end_above(self@, row as int),
    {
        let mut n: usize = if row < self.rows.len() {
            row
        } else {
            self.rows.len()
        };
        let ghost top = n as int;
        while n > 0
            invariant
                n <= self.rows@.len(),
                top == (if row < self.rows@.len() {
                    row as int
                } else {
                    self.rows@.len() as int
                }),
                last_mapped(self@, top) == last_mapped(self@, n as int),
            decreases n,
        {
            let above = &self.rows[n - 1];
            if above.mapped {
                proof {
                    assert(above@ == self@[n - 1]);
                }
                return if above.prefix_width == 0 {
                    None
                } else {
                    Some(above.source_end)
                };
            }
            proof {
                assert(above@ == self@[n - 1]);
            }
            n = n - 1;
        }
        None
    }

    /// Where the source character `char_pos` is shown, as row and column.
    pub fn source_to_display(&self, char_pos: usize) -> (at: Option<(usize, usize)>)
        ensures
            match at {
                Some((row, col)) => display_of(self@, char_pos) == Some((row as int, col as int)),
                None => display_of(self@, char_pos) is None,
            },
    {
        let mut closest: Option<(usize, usize)> = None;
        let mut i: usize = 0;
        while i < self.rows.len()
            invariant
                i <= self.rows@.len(),
                first_covering(self@, 0, char_pos) == first_covering(self@, i as int, char_pos),
                match closest {
                    Some((row, col)) => {
                        &&& row < i
                        &&& last_starting(self@, i as int, char_pos) == row
                        &&& col == self@[row as int].col_sources.len()
                    },
                    None => last_starting(self@, i as int, char_pos) == -1,
                },
            decreases self.rows@.len() - i,
        {
            let row = &self.rows[i];
            proof {
                assert(row@ == self@[i as int]);
            }
            if row.mapped && row.source_start <= char_pos {
                if char_pos < row.source_end {
                    return Some((i, row.col_for_source(char_pos)));
                }
                closest = Some((i, row.width()));
            }
            i = i + 1;
        }
        closest
    }
}

// ---------------------------------------------------------------------------
// Drawing rows
// ---------------------------------------------------------------------------
/// A measured grapheme with its style.
#[derive(Debug)]
pub struct StyledGlyph {
    pub glyph: Glyph,
    pub style: Style,
}

/// What a [`StyledGlyph`] holds.
pub struct StyledModel {
    pub glyph: GlyphModel,
    pub style: Style,
}

impl View for StyledGlyph {
    type V = StyledModel;

    open spec fn view(&self) -> StyledModel {
        StyledModel { glyph: self.glyph@, style: self.style }
    }
}

/// The graphemes of `text` in one style.
pub open spec fn styled(glyphs: Seq<GlyphModel>, style: Style) -> Seq<StyledModel> {
    Seq::new(glyphs.len(), |i: int| StyledModel { glyph: glyphs[i], style })
}

/// The graphemes of some spans, each with its style.
pub open spec fn styled_glyphs(spans: Seq<SpanModel>) -> Seq<StyledModel>
    decreases spans.len(),
{
    if spans.len() == 0 {
        seq![]
    } else {
        styled_glyphs(spans.drop_last()) + styled(
            glyphs_of(spans.last().content),
            spans.last().style,
        )
    }
}

/// The columns that some graphemes take.
pub open spec fn styled_width(glyphs: Seq<StyledModel>) -> nat
    decreases glyphs.len(),
{
    if glyphs.len() == 0 {
        0
    } else {
        styled_width(glyphs.drop_last()) + glyphs.last().glyph.width as nat
    }
}

/// One of the `width` columns from `col` on stands for a character of the
/// selection.
pub open spec fn touches_selection(
    cols: Seq<usize>,
    col: nat,
    width: nat,
    selection: (usize, usize),
) -> bool {
    exists|k: int|
        col <= k < col + width && k < cols.len() && selection.0 <= #[trigger] cols[k]
            < selection.1
}

/// The graphemes as spans, with `over` laid on those that the selection
/// touches.
pub open spec fn highlighted(
    glyphs: Seq<StyledModel>,
    cols: Seq<usize>,
    selection: (usize, usize),
    over: Style,
) -> Seq<SpanModel>
    decreases glyphs.len(),
{
    if glyphs.len() == 0 {
        seq![]
    } else {
        let last = glyphs.last();
        push_span(
            highlighted(glyphs.drop_last(), cols, selection, over),
            last.glyph.text,
            if touches_selection(
                cols,
                styled_width(glyphs.drop_last()),
                last.glyph.width as nat,
                selection,
            ) {
                patched(last.style, over)
            } else {
                last.style
            },
        )
    }
}

/// The line that is drawn for a row.
pub open spec fn row_line(
    row: RowModel,
    selection: Option<(usize, usize)>,
    over: Style,
) -> Seq<SpanModel> {
    match selection {
        Some(range) => if range.0 == range.1 {
            row.spans
        } else {
            highlighted(styled_glyphs(row.spans), row.col_sources, range, over)
        },
        None => row.spans,
    }
}

/// The grapheme at column `col`.
pub open spec fn glyph_at(glyphs: Seq<StyledModel>, col: int) -> Option<GlyphModel>
    decreases glyphs.len(),
{
    if glyphs.len() == 0 {
        None
    } else if col < glyphs[0].glyph.width {
        Some(glyphs[0].glyph)
    } else {
        glyph_at(glyphs.skip(1), col - glyphs[0].glyph.width)
    }
}

/// A text with a character that words are made of.
pub open spec fn has_word_char(text: Seq<char>) -> bool {
    exists|i: int| 0 <= i < text.len() && crate::text::word_char(#[trigger] text[i])
}

/// There is a word at column `col` of a row.
pub open spec fn word_at(glyphs: Seq<StyledModel>, col: int) -> bool {
    match glyph_at(glyphs, col) {
        Some(glyph) => has_word_char(glyph.text),
        None => false,
    }
}

/// The text of some graphemes.
pub open spec fn styled_text(glyphs: Seq<StyledModel>) -> Seq<char>
    decreases glyphs.len(),
{
    if glyphs.len() == 0 {
        seq![]
    } else {
        styled_text(glyphs.drop_last()) + glyphs.last().glyph.text
    }
}

proof fn lemma_styled_text_add(a: Seq<StyledModel>, b: Seq<StyledModel>)
    ensures
        styled_text(a + b) == styled_text(a) + styled_text(b),
    decreases b.len(),
{
    if b.len() == 0 {
        assert(a + b =~= a);
        assert(styled_text(a) + styled_text(b) =~= styled_text(a));
    } else {
        assert((a + b).drop_last() =~= a + b.drop_last());
        lemma_styled_text_add(a, b.drop_last());
        assert(styled_text(a + b) =~= styled_text(a) + styled_text(b));
    }
}

proof fn lemma_text_of_styled(glyphs: Seq<GlyphModel>, style: Style)
    ensures
        styled_text(styled(glyphs, style)) == glyph_chars(glyphs),
    decreases glyphs.len(),
{
    let all = styled(glyphs, style);
    if glyphs.len() > 0 {
        let n = glyphs.len() - 1;
        lemma_text_of_styled(glyphs.drop_last(), style);
        assert(all.drop_last() =~= styled(glyphs.drop_last(), style));
        crate::text::lemma_glyph_chars_push(glyphs, n);
        assert(glyphs.take(n) =~= glyphs.drop_last());
        assert(glyphs.take(n + 1) =~= glyphs);
    } else {
        assert(crate::text::glyph_texts(glyphs).len() == 0);
        assert(glyph_chars(glyphs) =~= styled_text(all));
    }
}

/// Highlighting changes styles, and no text.
pub proof fn law_highlighting_keeps_the_text(
    glyphs: Seq<StyledModel>,
    cols: Seq<usize>,
    selection: (usize, usize),
    over: Style,
)
    ensures
        spans_text(highlighted(glyphs, cols, selection, over)) == styled_text(glyphs),
    decreases glyphs.len(),
{
    if glyphs.len() > 0 {
        let above = glyphs.drop_last();
        let last = glyphs.last();
        law_highlighting_keeps_the_text(above, cols, selection, over);
        let touched = touches_selection(
            cols,
            styled_width(above),
            last.glyph.width as nat,
            selection,
        );
        crate::style::lemma_push_span_text(
            highlighted(above, cols, selection, over),
            last.glyph.text,
            if touched {
                patched(last.style, over)
            } else {
                last.style
            },
        );
    }
}

proof fn lemma_styled_text_parts(glyphs: Seq<StyledModel>, k: int)
    requires
        0 <= k < glyphs.len(),
    ensures
        styled_text(glyphs.take(k)).len() <= styled_text(glyphs.take(k + 1)).len() <= styled_text(
            glyphs,
        ).len(),
{
    assert(glyphs =~= glyphs.take(k + 1) + glyphs.skip(k + 1));
    lemma_styled_text_add(glyphs.take(k + 1), glyphs.skip(k + 1));
    assert(glyphs.take(k + 1).drop_last() =~= glyphs.take(k));
}

/// The selection is highlighted, and nothing else: a character has the style of
/// the selection laid on its own exactly where a column of its grapheme stands
/// for a selected source character.
pub proof fn law_the_selection_is_highlighted(
    glyphs: Seq<StyledModel>,
    cols: Seq<usize>,
    selection: (usize, usize),
    over: Style,
    k: int,
    i: int,
)
    requires
        0 <= k < glyphs.len(),
        styled_text(glyphs.take(k)).len() <= i < styled_text(glyphs.take(k + 1)).len(),
    ensures
        ({
            let from = styled_width(glyphs.take(k));
            let to = styled_width(glyphs.take(k + 1));
            let selected = exists|c: int|
                from <= c < to && c < cols.len() && selection.0 <= #[trigger] cols[c]
                    < selection.1;
            crate::style::style_at(highlighted(glyphs, cols, selection, over), i) == (if selected {
                patched(glyphs[k].style, over)
            } else {
                glyphs[k].style
            })
        }),
    decreases glyphs.len(),
{
    let above = glyphs.drop_last();
    let last = glyphs.last();
    let touched = touches_selection(cols, styled_width(above), last.glyph.width as nat, selection);
    law_highlighting_keeps_the_text(above, cols, selection, over);
    assert(glyphs.take(k + 1).drop_last() =~= glyphs.take(k));
    lemma_styled_text_parts(glyphs, k);
    assert(styled_text(glyphs) == styled_text(above) + last.glyph.text);
    crate::style::law_written_text_has_its_style(
        highlighted(above, cols, selection, over),
        last.glyph.text,
        if touched {
            patched(last.style, over)
        } else {
            last.style
        },
        i,
    );
    if k < above.len() {
        assert(above.take(k) =~= glyphs.take(k));
        assert(above.take(k + 1) =~= glyphs.take(k + 1));
        lemma_styled_text_parts(above, k);
        law_the_selection_is_highlighted(above, cols, selection, over, k, i);
    } else {
        assert(glyphs.take(k) =~= above);
        assert(glyphs.take(k + 1) =~= glyphs);
    }
}

/// Without a selection, or with one that holds nothing, a row is drawn as it is;
/// one that touches none of its columns changes no style either.
pub proof fn law_rows_outside_the_selection_stay(
    row: RowModel,
    selection: (usize, usize),
    over: Style,
    k: int,
    i: int,
)
    requires
        0 <= k < styled_glyphs(row.spans).len(),
        styled_text(styled_glyphs(row.spans).take(k)).len() <= i < styled_text(
            styled_glyphs(row.spans).take(k + 1),
        ).len(),
        forall|c: int|
            0 <= c < row.col_sources.len() ==> !(selection.0 <= #[trigger] row.col_sources[c]
                < selection.1),
    ensures
        row_line(row, None, over) == row.spans,
        row_line(row, Some((selection.0, selection.0)), over) == row.spans,
        selection.0 < selection.1 ==> crate::style::style_at(
            row_line(row, Some(selection), over),
            i,
        ) == styled_glyphs(row.spans)[k].style,
{
    law_the_selection_is_highlighted(
        styled_glyphs(row.spans),
        row.col_sources,
        selection,
        over,
        k,
        i,
    );
}

/// Every character of a row has the style of the cell that it comes from.
pub proof fn law_cells_keep_their_style(cells: Seq<CellModel>, k: int, i: int)
    requires
        0 <= k < cells.len(),
        crate::cells::cells_text(cells.take(k)).len() <= i < crate::cells::cells_text(
            cells.take(k + 1),
        ).len(),
    ensures
        spans_text(cell_spans(cells)) == crate::cells::cells_text(cells),
        i < crate::cells::cells_text(cells).len(),
        crate::style::style_at(cell_spans(cells), i) == cells[k].style,
    decreases cells.len(),
{
    let above = cells.drop_last();
    let last = cells.last();
    lemma_cell_spans_text(above);
    lemma_cell_spans_text(cells);
    assert(cells.take(k + 1).drop_last() =~= cells.take(k));
    if k < above.len() {
        assert(above.take(k) =~= cells.take(k));
        assert(above.take(k + 1) =~= cells.take(k + 1));
        law_cells_keep_their_style(above, k, i);
    } else {
        assert(cells.take(k) =~= above);
        assert(cells.take(k + 1) =~= cells);
    }
    crate::style::law_written_text_has_its_style(cell_spans(above), last.text, last.style, i);
}

proof fn lemma_cell_spans_text(cells: Seq<CellModel>)
    ensures
        spans_text(cell_spans(cells)) == crate::cells::cells_text(cells),
    decreases cells.len(),
{
    if cells.len() > 0 {
        lemma_cell_spans_text(cells.drop_last());
        crate::style::lemma_push_span_text(
            cell_spans(cells.drop_last()),
            cells.last().text,
            cells.last().style,
        );
    }
}

/// The grapheme at a column is the one whose columns it lies on: behind the
/// columns of all graphemes before it, and before their end with its own.
pub proof fn law_graphemes_lie_on_their_columns(glyphs: Seq<StyledModel>, k: int, col: int)
    requires
        0 <= k < glyphs.len(),
        styled_width(glyphs.take(k)) <= col < styled_width(glyphs.take(k + 1)),
    ensures
        glyph_at(glyphs, col) == Some(glyphs[k].glyph),
        word_at(glyphs, col) <==> exists|i: int|
            0 <= i < glyphs[k].glyph.text.len() && crate::text::word_char(
                #[trigger] glyphs[k].glyph.text[i],
            ),
    decreases glyphs.len(),
{
    let rest = glyphs.skip(1);
    let first = glyphs[0].glyph.width;
    assert(glyphs.take(k + 1).drop_last() =~= glyphs.take(k));
    if k == 0 {
        assert(glyphs.take(0).len() == 0);
        assert(glyphs.take(1).last() == glyphs[0]);
    } else {
        lemma_styled_width_first(glyphs.take(k));
        lemma_styled_width_first(glyphs.take(k + 1));
        assert(glyphs.take(k).skip(1) =~= rest.take(k - 1));
        assert(glyphs.take(k + 1).skip(1) =~= rest.take(k));
        law_graphemes_lie_on_their_columns(rest, k - 1, col - first);
    }
}

proof fn lemma_styled_width_first(glyphs: Seq<StyledModel>)
    requires
        glyphs.len() > 0,
    ensures
        styled_width(glyphs) == glyphs[0].glyph.width + styled_width(glyphs.skip(1)),
    decreases glyphs.len(),
{
    if glyphs.len() == 1 {
        assert(styled_width(glyphs.drop_last()) == 0);
        assert(styled_width(glyphs.skip(1)) == 0);
    } else {
        assert(glyphs.skip(1).last() == glyphs.last());
        lemma_styled_width_first(glyphs.drop_last());
        assert(glyphs.drop_last().skip(1) =~= glyphs.skip(1).drop_last());
    }
}

/// Measures the graphemes of some spans.
pub fn measure_spans(spans: &Vec<Span>) -> (glyphs: Vec<StyledGlyph>)
    ensures
        views(glyphs@) == styled_glyphs(views(spans@)),
        styled_text(views(glyphs@)) == spans_text(views(spans@)),
{
    let mut out: Vec<StyledGlyph> = Vec::new();
    let mut i: usize = 0;
    proof {
        assert(views(out@) =~= styled_glyphs(views(spans@).take(0)));
    }
    while i < spans.len()
        invariant
            i <= spans@.len(),
            views(out@) == styled_glyphs(views(spans@).take(i as int)),
            styled_text(views(out@)) == spans_text(views(spans@).take(i as int)),
        decreases spans@.len() - i,
    {
        let style = spans[i].style;
        let glyphs = measure(spans[i].content.as_str());
        let ghost before = views(out@);
        let ghost target = styled(views(glyphs@), style);
        proof {
            lemma_text_of_styled(views(glyphs@), style);
            assert(views(spans@).take(i + 1).drop_last() == views(spans@).take(i as int));
            assert(before =~= before + target.take(0));
        }
        for glyph in it: glyphs
            invariant
                it.seq() == glyphs@,
                target == styled(views(glyphs@), style),
                views(out@) == before + target.take(it.index() as int),
        {
            proof {
                assert(before + target.take(it.index() + 1) =~= (before + target.take(
                    it.index() as int,
                )).push(StyledModel { glyph: glyph@, style }));
            }
            out.push(StyledGlyph { glyph, style });
        }
        proof {
            assert(target.take(target.len() as int) =~= target);
            lemma_styled_text_add(before, target);
        }
        i = i + 1;
    }
    proof {
        assert(views(spans@).take(i as int) == views(spans@));
    }
    out
}

/// Whether the selection touches one of the `width` columns from `col` on.
pub fn cell_intersects_selection(
    cols: &Vec<usize>,
    col: usize,
    width: usize,
    selection: (usize, usize),
) -> (b: bool)
    ensures
        b == touches_selection(cols@, col as nat, width as nat, selection),
{
    let mut k: usize = col;
    while k < cols.len() && k - col < width
        invariant
            col <= k,
            forall|j: int|
                col <= j < k && j < cols@.len() ==> !(selection.0 <= #[trigger] cols@[j]
                    < selection.1),
        decreases cols@.len() - k,
    {
        if selection.0 <= cols[k] && cols[k] < selection.1 {
            proof {
                assert(selection.0 <= cols@[k as int] < selection.1);
            }
            return true;
        }
        k = k + 1;
    }
    false
}

/// The graphemes as spans, the selected ones highlighted.
pub fn highlight(
    glyphs: &Vec<StyledGlyph>,
    cols: &Vec<usize>,
    selection: (usize, usize),
    over: Style,
) -> (spans: Vec<Span>)
    ensures
        views(spans@) == highlighted(views(glyphs@), cols@, selection, over),
{
    let mut spans: Vec<Span> = Vec::new();
    let mut col: usize = 0;
    let mut i: usize = 0;
    proof {
        assert(views(spans@) =~= highlighted(views(glyphs@).take(0), cols@, selection, over));
    }
    while i < glyphs.len()
        invariant
            i <= glyphs@.len(),
            col == crate::cells::saturated(styled_width(views(glyphs@).take(i as int))),
            views(spans@) == highlighted(
                views(glyphs@).take(i as int),
                cols@,
                selection,
                over,
            ),
        decreases glyphs@.len() - i,
    {
        let ghost done = views(glyphs@).take(i as int);
        proof {
            assert(views(glyphs@).take(i + 1).drop_last() == done);
            assert(cols.len() <= usize::MAX);
        }
        let styled = &glyphs[i];
        let width: usize = styled.glyph.width;
        let selected = cell_intersects_selection(cols, col, width, selection);
        proof {
            let at = styled_width(done);
            if at > usize::MAX {
                assert(!touches_selection(cols@, at, width as nat, selection));
                assert(!touches_selection(cols@, col as nat, width as nat, selection));
            }
        }
        let style = if selected {
            styled.style.patch(over)
        } else {
            styled.style
        };
        push_cell_span(&mut spans, styled.glyph.text.as_str(), style);
        col = col.saturating_add(width);
        i = i + 1;
    }
    proof {
        assert(views(glyphs@).take(i as int) == views(glyphs@));
    }
    spans
}

/// Whether there is a word at column `col` of the given graphemes.
pub fn is_word_at_col(glyphs: &Vec<StyledGlyph>, col: usize) -> (b: bool)
    ensures
        b == word_at(views(glyphs@), col as int),
{
    let mut rest: usize = col;
    let mut i: usize = 0;
    proof {
        assert(views(glyphs@).skip(0) == views(glyphs@));
    }
    while i < glyphs.len()
        invariant
            i <= glyphs@.len(),
            word_at(views(glyphs@).skip(i as int), rest as int) == word_at(
                views(glyphs@),
                col as int,
            ),
        decreases glyphs@.len() - i,
    {
        proof {
            assert(views(glyphs@).skip(i as int).skip(1) == views(glyphs@).skip(i + 1));
        }
        let glyph = &glyphs[i].glyph;
        if rest < glyph.width {
            return contains_word_char(glyph.text.as_str());
        }
        rest = rest - glyph.width;
        i = i + 1;
    }
    false
}

fn contains_word_char(text: &str) -> (b: bool)
    ensures
        b == has_word_char(text@),
{
    let chars = to_chars(text);
    let mut i: usize = 0;
    while i < chars.len()
        invariant
            i <= chars@.len(),
            chars@ == text@,
            forall|k: int| 0 <= k < i ==> !crate::text::word_char(#[trigger] chars@[k]),
        decreases chars@.len() - i,
    {
        if crate::text::is_word_char(chars[i]) {
            proof {
                assert(crate::text::word_char(text@[i as int]));
            }
            return true;
        }
        i = i + 1;
    }
    false
}

impl VisualRow {
    /// The row as a line of styled text.
    pub fn to_line(&self) -> (line: Line)
        ensures
            line@ == self@.spans,
    {
        Line { spans: copy_spans(&self.spans) }
    }

    /// The row as a line of styled text, the selection highlighted.
    pub fn to_line_with_selection(
        &self,
        selection: Option<(usize, usize)>,
        selection_style: Style,
    ) -> (line: Line)
        ensures
            line@ == row_line(self@, selection, selection_style),
            spans_text(line@) == spans_text(self@.spans),
    {
        match selection {
            Some(range) => {
                if range.0 == range.1 {
                    return self.to_line();
                }
                let glyphs = measure_spans(&self.spans);
                proof {
                    law_highlighting_keeps_the_text(
                        views(glyphs@),
                        self.col_sources@,
                        range,
                        selection_style,
                    );
                }
                Line { spans: highlight(&glyphs, &self.col_sources, range, selection_style) }
            },
            None => self.to_line(),
        }
    }

    /// Whether there is a word at column `col`.
    pub fn is_word_at_display_col(&self, col: usize) -> (b: bool)
        ensures
            b == word_at(styled_glyphs(self@.spans), col as int),
    {
        let glyphs = measure_spans(&self.spans);
        is_word_at_col(&glyphs, col)
    }
}

/// The lines that are drawn for up to `height` rows from `scroll` on.
pub open spec fn text_of(
    rows: Seq<RowModel>,
    scroll: int,
    height: int,
    selection: Option<(usize, usize)>,
    over: Style,
) -> Seq<Seq<SpanModel>> {
    let left = if scroll < rows.len() {
        rows.len() - scroll
    } else {
        0
    };
    Seq::new(
        (if height < left {
            height
        } else {
            left
        }) as nat,
        |i: int| row_line(rows[scroll + i], selection, over),
    )
}

impl VisualDocument {
    /// Up to `height` rows from `scroll` on as styled text, the selection
    /// highlighted.
    pub fn to_text_with_selection(
        &self,
        scroll: usize,
        height: usize,
        selection: Option<(usize, usize)>,
        selection_style: Style,
    ) -> (text: Text)
        ensures
            text@ == text_of(self@, scroll as int, height as int, selection, selection_style),
            forall|i: int|
                0 <= i < text@.len() ==> spans_text(#[trigger] text@[i]) == spans_text(
                    self@[scroll + i].spans,
                ),
    {
        let mut drawn: Vec<Line> = Vec::new();
        let mut row: usize = scroll;
        let ghost target = text_of(
            self@,
            scroll as int,
            height as int,
            selection,
            selection_style,
        );
        proof {
            assert(views(drawn@) =~= target.take(0));
        }
        while row < self.rows.len() && row - scroll < height
            invariant
                scroll <= row,
                row - scroll <= target.len(),
                target == text_of(
                    self@,
                    scroll as int,
                    height as int,
                    selection,
                    selection_style,
                ),
                views(drawn@) == target.take(row - scroll),
                forall|i: int|
                    0 <= i < row - scroll ==> spans_text(#[trigger] target[i]) == spans_text(
                        self@[scroll + i].spans,
                    ),
            decreases self.rows@.len() - row,
        {
            let line = self.rows[row].to_line_with_selection(selection, selection_style);
            proof {
                assert(target[row - scroll] == line@);
                assert(target.take(row - scroll + 1) =~= target.take(row - scroll).push(line@));
            }
            drawn.push(line);
            row = row + 1;
        }
        proof {
            assert(target.take(row - scroll) =~= target);
        }
        Text { lines: drawn }
    }

    /// Whether there is a word at a row and column.
    pub fn is_word_at_display_col(&self, row: usize, col: usize) -> (b: bool)
        ensures
            b == (row < self@.len() && word_at(
                styled_glyphs(self@[row as int].spans),
                col as int,
            )),
    {
        row < self.rows.len() && self.rows[row].is_word_at_display_col(col)
    }
}

} // verus!
