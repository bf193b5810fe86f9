//! Laws of rendered documents: where their characters are shown, with bullets,
//! rules and other decorations among them that stand for no source.

use crate::cells::{blank, run_cells, total_width, CellModel};
use crate::indent::{gets_indent, indented, INDENT_WIDTH};
use crate::mapping::{
    begins, chained, ends, in_order, law_documents_have_no_indent_at_first, lemma_column_of_cell,
    lemma_columns_add, lemma_columns_len, lemma_first_at_least, lemma_first_covering,
    lemma_leading_blanks, lemma_run_chained, lemma_visible_cell_is_kept, line_begin,
    line_in_order, line_limit,
};
use crate::render::{
    char_range, document_in_order, lines_measure, measures_all, measures_all_of, span_measure,
    spans_in_order, LineMeasure, RenderedLine, SpanMeasure,
};
use crate::style::Style;
use crate::text::{glyph_chars, glyphs_wf, GlyphModel};
use crate::visual::{
    all_rows, at_least_one, col_of, columns, display_of, document_rows, first_at_least,
    first_covering, first_source, last_source, line_cells, line_rows, shown, source_of, span_cells,
    tail_cells, wrap_rows, RowModel,
};
use crate::wrap::{cut_at, law_wrapping_keeps_order, wrapped, WrapMode};
use vstd::prelude::*;

verus! {

// ---------------------------------------------------------------------------
// Columns that are found again
// ---------------------------------------------------------------------------
/// No column from `low` to `col` stands for a later character than `col` does.
pub open spec fn leads(cols: Seq<usize>, low: int, col: int) -> bool {
    forall|i: int| low <= i < col ==> #[trigger] cols[i] <= cols[col]
}

/// Looked for from its first column on, the row shows the character at `pos`.
pub open spec fn shows(row: RowModel, pos: usize) -> bool {
    exists|c: int|
        row.prefix_width <= c < row.col_sources.len() && #[trigger] row.col_sources[c] == pos
            && leads(row.col_sources, row.prefix_width as int, c)
}

/// The row starts by the character at `pos`, and has ended before it or shows
/// it. A row that stands for no characters is past all of them.
pub open spec fn past(row: RowModel, pos: usize) -> bool {
    ||| row.source_start == row.source_end
    ||| row.source_start <= pos && (row.source_end <= pos || shows(row, pos))
}

proof fn lemma_col_of_leading(row: RowModel, col: int)
    requires
        row.prefix_width <= col < row.col_sources.len(),
        leads(row.col_sources, row.prefix_width as int, col),
    ensures
        ({
            let pos = row.col_sources[col];
            &&& row.prefix_width <= col_of(row, pos) < row.col_sources.len()
            &&& row.col_sources[col_of(row, pos)] == pos
        }),
{
    let cols = row.col_sources;
    let low = row.prefix_width as int;
    let pos = cols[col];
    lemma_first_at_least(cols, low, pos);
    let stop = first_at_least(cols, low, pos);
    assert(stop <= col);
    if stop < col {
        assert(cols[stop] <= cols[col]);
    }
}

/// A column that no column before it in its row surpasses maps back: the
/// character that it stands for is shown at a position that stands for it, if
/// the rows above have ended before.
pub proof fn law_leading_columns_map_back(rows: Seq<RowModel>, row: int, col: int)
    requires
        0 <= row < rows.len(),
        rows[row].prefix_width <= col < rows[row].col_sources.len(),
        rows[row].covers(rows[row].col_sources[col]),
        leads(rows[row].col_sources, rows[row].prefix_width as int, col),
        forall|i: int|
            0 <= i < row && (#[trigger] rows[i]).mapped ==> past(
                rows[i],
                rows[row].col_sources[col],
            ),
    ensures
        ({
            let pos = rows[row].col_sources[col];
            &&& source_of(rows, row, col) == Some(pos)
            &&& display_of(rows, pos) matches Some((r, c)) && r <= row && source_of(rows, r, c)
                == Some(pos)
        }),
{
    let pos = rows[row].col_sources[col];
    lemma_first_covering(rows, 0, pos);
    let r = first_covering(rows, 0, pos);
    assert(r <= row);
    assert(rows[r].covers(pos));
    if r == row {
        lemma_col_of_leading(rows[r], col);
    } else {
        assert(past(rows[r], pos));
        assert(shows(rows[r], pos));
        let own = rows[r];
        let c = choose|c: int|
            own.prefix_width <= c < own.col_sources.len() && #[trigger] own.col_sources[c] == pos
                && leads(own.col_sources, own.prefix_width as int, c);
        lemma_col_of_leading(own, c);
    }
}

// ---------------------------------------------------------------------------
// Lines with decorations
// ---------------------------------------------------------------------------
/// The cells that stand for source go through it from `low` to `high`; cells
/// that stand for none may be anywhere among them.
pub open spec fn loosely_chained(cells: Seq<CellModel>, low: int, high: int) -> bool {
    &&& forall|i: int|
        0 <= i < cells.len() && (#[trigger] cells[i]).source is Some ==> low <= begins(cells[i])
            < ends(cells[i]) <= high
    &&& forall|i: int, j: int|
        0 <= i < j < cells.len() && (#[trigger] cells[i]).source is Some && (
        #[trigger] cells[j]).source is Some ==> {
            ||| ends(cells[i]) <= begins(cells[j])
            ||| {
                &&& cells[i].source == cells[j].source
                &&& ends(cells[i]) == begins(cells[i]) + 1
                &&& cells[i].width >= 1 && cells[j].width >= 1
            }
        }
}

/// A line whose cells go through the source range of the line, decorations
/// apart; one without a source range is all decoration.
pub open spec fn line_decorated_in_order(line: LineMeasure) -> bool {
    match line.source {
        Some((low, high)) => low <= high && loosely_chained(
            line_cells(line),
            low as int,
            high as int,
        ),
        None => forall|m: int|
            0 <= m < line_cells(line).len() ==> (#[trigger] line_cells(line)[m]).source is None,
    }
}

/// Lines that go through the source, one behind the other, decorations apart.
pub open spec fn decorated_in_order(measured: Seq<LineMeasure>) -> bool {
    &&& forall|k: int|
        0 <= k < measured.len() ==> line_decorated_in_order(#[trigger] measured[k])
    &&& forall|j: int, k: int|
        0 <= j < k < measured.len() && (#[trigger] measured[j]).source is Some && (
        #[trigger] measured[k]).source is Some ==> line_limit(measured[j]) <= line_begin(
            measured[k],
        )
}

/// A document without decorations that is in order is so with them apart.
pub proof fn law_order_allows_decorations(measured: Seq<LineMeasure>)
    requires
        in_order(measured),
    ensures
        decorated_in_order(measured),
{
    assert forall|k: int| 0 <= k < measured.len() implies line_decorated_in_order(
        #[trigger] measured[k],
    ) by {
        assert(line_in_order(measured[k]));
        if let Some((low, high)) = measured[k].source {
            let cells = line_cells(measured[k]);
            assert(chained(cells, low as int, high as int));
        }
    }
}

proof fn lemma_loose_sub(cells: Seq<CellModel>, low: int, high: int, from: int, to: int)
    requires
        loosely_chained(cells, low, high),
        0 <= from <= to <= cells.len(),
    ensures
        loosely_chained(cells.subrange(from, to), low, high),
{
    let part = cells.subrange(from, to);
    assert forall|i: int| 0 <= i < part.len() && (#[trigger] part[i]).source is Some implies low
        <= begins(part[i]) < ends(part[i]) <= high by {
        assert(part[i] == cells[from + i]);
    }
    assert forall|i: int, j: int|
        0 <= i < j < part.len() && (#[trigger] part[i]).source is Some && (
        #[trigger] part[j]).source is Some implies {
        ||| ends(part[i]) <= begins(part[j])
        ||| {
            &&& part[i].source == part[j].source
            &&& ends(part[i]) == begins(part[i]) + 1
            &&& part[i].width >= 1 && part[j].width >= 1
        }
    } by {
        assert(part[i] == cells[from + i]);
        assert(part[j] == cells[from + j]);
    }
}

/// The first cell that stands for source.
proof fn lemma_first_source(cells: Seq<CellModel>) -> (f: int)
    ensures
        match first_source(cells) {
            Some(start) => {
                &&& 0 <= f < cells.len()
                &&& cells[f].source is Some
                &&& start == begins(cells[f])
                &&& forall|i: int| 0 <= i < f ==> (#[trigger] cells[i]).source is None
            },
            None => forall|i: int| 0 <= i < cells.len() ==> (#[trigger] cells[i]).source is None,
        },
    decreases cells.len(),
{
    if cells.len() == 0 || cells[0].source is Some {
        0
    } else {
        let rest = cells.skip(1);
        let f = lemma_first_source(rest);
        assert forall|i: int| 1 <= i < cells.len() implies #[trigger] cells[i] == rest[i - 1] by {}
        f + 1
    }
}

/// The last cell that stands for source.
proof fn lemma_last_source(cells: Seq<CellModel>) -> (l: int)
    ensures
        match last_source(cells) {
            Some(end) => {
                &&& 0 <= l < cells.len()
                &&& cells[l].source is Some
                &&& end == ends(cells[l])
                &&& forall|i: int| l < i < cells.len() ==> (#[trigger] cells[i]).source is None
            },
            None => forall|i: int| 0 <= i < cells.len() ==> (#[trigger] cells[i]).source is None,
        },
    decreases cells.len(),
{
    if cells.len() == 0 || cells.last().source is Some {
        cells.len() - 1
    } else {
        let shorter = cells.drop_last();
        let l = lemma_last_source(shorter);
        assert forall|i: int| 0 <= i < cells.len() - 1 implies #[trigger] cells[i]
            == shorter[i] by {}
        l
    }
}

proof fn lemma_columns_between(cells: Seq<CellModel>, default: usize, low: int, high: int)
    requires
        low <= default <= high,
        forall|i: int|
            0 <= i < cells.len() && (#[trigger] cells[i]).source is Some ==> low <= begins(
                cells[i],
            ) <= high,
    ensures
        forall|c: int|
            0 <= c < columns(cells, default).len() ==> low <= #[trigger] columns(cells, default)[c]
                <= high,
    decreases cells.len(),
{
    if cells.len() > 0 {
        let shorter = cells.drop_last();
        assert forall|i: int|
            0 <= i < shorter.len() && (#[trigger] shorter[i]).source is Some implies low <= begins(
            shorter[i],
        ) <= high by {
            assert(shorter[i] == cells[i]);
        }
        lemma_columns_between(shorter, default, low, high);
        let last = cells[cells.len() - 1];
        assert(last.source is Some ==> low <= begins(last) <= high);
        let cols = columns(cells, default);
        let front = columns(shorter, default);
        assert forall|c: int| 0 <= c < cols.len() implies low <= #[trigger] cols[c] <= high by {
            if c < front.len() {
                assert(cols[c] == front[c]);
            }
        }
    }
}

/// The column of a cell that stands for source leads the row.
proof fn lemma_cell_leads(cells: Seq<CellModel>, low: int, high: int, default: usize, m: int)
    requires
        loosely_chained(cells, low, high),
        0 <= m < cells.len(),
        cells[m].source is Some,
        cells[m].width >= 1,
        default <= begins(cells[m]),
    ensures
        ({
            let cols = columns(cells, default);
            let c = total_width(cells.take(m)) as int;
            &&& 0 <= c < cols.len()
            &&& cols[c] == begins(cells[m])
            &&& leads(cols, 0, c)
        }),
{
    let head = cells.take(m);
    lemma_column_of_cell(cells, default, m);
    lemma_columns_add(head, cells.skip(m), default);
    assert(head + cells.skip(m) =~= cells);
    lemma_columns_len(head, default);
    assert forall|i: int| 0 <= i < head.len() && (#[trigger] head[i]).source is Some implies 0
        <= begins(head[i]) <= begins(cells[m]) by {
        assert(head[i] == cells[i]);
        assert(begins(cells[i]) < ends(cells[i]));
    }
    lemma_columns_between(head, default, 0, begins(cells[m]) as int);
}

/// Every column of a row leads it, or is one of the row's first character.
proof fn lemma_columns_lead(cells: Seq<CellModel>, low: int, high: int, default: usize)
    requires
        loosely_chained(cells, low, high),
        forall|i: int|
            0 <= i < cells.len() && (#[trigger] cells[i]).source is Some ==> default <= begins(
                cells[i],
            ),
    ensures
        forall|c: int|
            0 <= c < columns(cells, default).len() ==> #[trigger] columns(cells, default)[c]
                == default || leads(columns(cells, default), 0, c),
    decreases cells.len(),
{
    if cells.len() > 0 {
        let n = cells.len() - 1;
        let shorter = cells.drop_last();
        let last = cells[n];
        assert(shorter =~= cells.subrange(0, n));
        lemma_loose_sub(cells, low, high, 0, n);
        assert forall|i: int|
            0 <= i < shorter.len() && (#[trigger] shorter[i]).source is Some implies default
            <= begins(shorter[i]) && (last.source is Some ==> begins(shorter[i]) <= begins(
            last,
        )) by {
            assert(shorter[i] == cells[i]);
            assert(begins(cells[i]) < ends(cells[i]));
        }
        lemma_columns_lead(shorter, low, high, default);
        let cols = columns(cells, default);
        let front = columns(shorter, default);
        if last.source is Some {
            assert(default <= begins(last));
            lemma_columns_between(shorter, default, 0, begins(last) as int);
        }
        assert forall|c: int| 0 <= c < cols.len() implies #[trigger] cols[c] == default || leads(
            cols,
            0,
            c,
        ) by {
            if c < front.len() {
                assert(cols[c] == front[c]);
                if cols[c] != default {
                    assert(leads(front, 0, c));
                    assert forall|i: int| 0 <= i < c implies #[trigger] cols[i] <= cols[c] by {
                        assert(cols[i] == front[i]);
                    }
                }
            } else if last.source is Some {
                assert forall|i: int| 0 <= i < c implies #[trigger] cols[i] <= cols[c] by {
                    if i < front.len() {
                        assert(cols[i] == front[i]);
                    }
                }
            }
        }
    }
}

// ---------------------------------------------------------------------------
// Rendered documents
// ---------------------------------------------------------------------------
/// Where the source of a span begins.
spec fn span_begin(span: SpanMeasure) -> usize {
    match span.source {
        Some((start, _)) => start,
        None => 0,
    }
}

/// Where the source of a span ends.
spec fn span_limit(span: SpanMeasure) -> usize {
    match span.source {
        Some((_, end)) => end,
        None => 0,
    }
}

/// The glyphs of a span fit its source range, which lies between `low` and
/// `high`.
spec fn span_fits(span: SpanMeasure, low: int, high: int) -> bool {
    match span.source {
        Some((start, end)) => {
            &&& low <= start && start + glyph_chars(span.glyphs).len() <= end <= high
            &&& glyphs_wf(span.glyphs)
        },
        None => true,
    }
}

/// The spans fit their ranges, which are in order.
spec fn spans_fit(spans: Seq<SpanMeasure>, low: int, high: int) -> bool {
    &&& forall|i: int| 0 <= i < spans.len() ==> span_fits(#[trigger] spans[i], low, high)
    &&& forall|i: int, j: int|
        0 <= i < j < spans.len() && (#[trigger] spans[i]).source is Some && (
        #[trigger] spans[j]).source is Some ==> span_limit(spans[i]) <= span_begin(spans[j])
}

proof fn lemma_run_without_source(glyphs: Seq<GlyphModel>, style: Style)
    ensures
        forall|i: int|
            0 <= i < run_cells(glyphs, style, None).len() ==> (#[trigger] run_cells(
                glyphs,
                style,
                None,
            )[i]).source is None,
    decreases glyphs.len(),
{
    if glyphs.len() > 0 {
        lemma_run_without_source(glyphs.drop_last(), style);
        let cells = run_cells(glyphs, style, None);
        let head = run_cells(glyphs.drop_last(), style, None);
        assert forall|i: int| 0 <= i < cells.len() implies (#[trigger] cells[i]).source is None by {
            if i < head.len() {
                assert(cells[i] == head[i]);
            }
        }
    }
}

proof fn lemma_loose_add(a: Seq<CellModel>, b: Seq<CellModel>, low: int, high: int)
    requires
        loosely_chained(a, low, high),
        loosely_chained(b, low, high),
        forall|i: int, j: int|
            0 <= i < a.len() && 0 <= j < b.len() && (#[trigger] a[i]).source is Some && (
            #[trigger] b[j]).source is Some ==> ends(a[i]) <= begins(b[j]),
    ensures
        loosely_chained(a + b, low, high),
{
    let cells = a + b;
    let n = a.len() as int;
    assert forall|i: int| 0 <= i < cells.len() && (#[trigger] cells[i]).source is Some implies low
        <= begins(cells[i]) < ends(cells[i]) <= high by {
        assert(cells[i] == if i < n {
            a[i]
        } else {
            b[i - n]
        });
    }
    assert forall|i: int, j: int|
        0 <= i < j < cells.len() && (#[trigger] cells[i]).source is Some && (
        #[trigger] cells[j]).source is Some implies {
        ||| ends(cells[i]) <= begins(cells[j])
        ||| {
            &&& cells[i].source == cells[j].source
            &&& ends(cells[i]) == begins(cells[i]) + 1
            &&& cells[i].width >= 1 && cells[j].width >= 1
        }
    } by {
        if j < n {
            assert(cells[i] == a[i] && cells[j] == a[j]);
        } else if i < n {
            assert(cells[i] == a[i] && cells[j] == b[j - n]);
        } else {
            assert(cells[i] == b[i - n] && cells[j] == b[j - n]);
        }
    }
}

/// The cells of the first `n` spans are loosely chained, and end before the
/// spans behind them.
proof fn lemma_cells_of_spans(spans: Seq<SpanMeasure>, n: int, low: int, high: int)
    requires
        spans_fit(spans, low, high),
        0 <= n <= spans.len(),
    ensures
        loosely_chained(span_cells(spans.take(n)), low, high),
        forall|m: int, j: int|
            0 <= m < span_cells(spans.take(n)).len() && n <= j < spans.len() && (
            #[trigger] span_cells(spans.take(n))[m]).source is Some && (
            #[trigger] spans[j]).source is Some ==> ends(span_cells(spans.take(n))[m])
                <= span_begin(spans[j]),
    decreases n,
{
    if n == 0 {
        assert(spans.take(0).len() == 0);
    } else {
        lemma_cells_of_spans(spans, n - 1, low, high);
        let span = spans[n - 1];
        assert(spans.take(n).drop_last() =~= spans.take(n - 1));
        assert(spans.take(n).last() == span);
        let head = span_cells(spans.take(n - 1));
        let own = run_cells(span.glyphs, span.style, span.source);
        let cells = span_cells(spans.take(n));
        assert(cells == head + own);
        assert(span_fits(span, low, high));
        match span.source {
            Some((start, end)) => {
                lemma_run_chained(span.glyphs, span.style, start, end);
                assert(loosely_chained(own, low, high));
                assert forall|i: int, j: int|
                    0 <= i < head.len() && 0 <= j < own.len() && (#[trigger] head[i]).source is Some
                        && (#[trigger] own[j]).source is Some implies ends(head[i]) <= begins(
                    own[j],
                ) by {
                    assert(ends(head[i]) <= span_begin(spans[n - 1]));
                    assert(start <= begins(own[j]));
                }
            },
            None => {
                lemma_run_without_source(span.glyphs, span.style);
            },
        }
        lemma_loose_add(head, own, low, high);
        assert forall|m: int, j: int|
            0 <= m < cells.len() && n <= j < spans.len() && (#[trigger] cells[m]).source is Some
                && (#[trigger] spans[j]).source is Some implies ends(cells[m])
            <= span_begin(spans[j]) by {
            if m < head.len() {
                assert(cells[m] == head[m]);
            } else {
                let own_cell = own[m - head.len()];
                assert(cells[m] == own_cell);
                assert(own_cell.source is Some);
                assert(span.source is Some);
                assert(ends(own_cell) <= span_limit(span));
                assert(span_limit(spans[n - 1]) <= span_begin(spans[j]));
            }
        }
    }
}

/// The cells of a line whose spans fit are loosely chained, with the cells for
/// what the line has behind its spans.
proof fn lemma_cells_of_line(line: LineMeasure, low: usize, high: usize)
    requires
        line.source == Some((low, high)),
        low <= high,
        spans_fit(line.spans, low as int, high as int),
    ensures
        loosely_chained(line_cells(line), low as int, high as int),
{
    let n = line.spans.len() as int;
    lemma_cells_of_spans(line.spans, n, low as int, high as int);
    assert(line.spans.take(n) =~= line.spans);
    let cells = span_cells(line.spans);
    let tail = tail_cells(cells, line.source);
    let l = lemma_last_source(cells);
    if last_source(cells) is Some {
        let last = last_source(cells)->0;
        assert(cells[l].source is Some);
        assert forall|i: int, j: int|
            0 <= i < cells.len() && 0 <= j < tail.len() && (#[trigger] cells[i]).source is Some && (
            #[trigger] tail[j]).source is Some implies ends(cells[i]) <= begins(tail[j]) by {
            assert(i <= l);
            assert(begins(cells[l]) < ends(cells[l]));
            assert(begins(tail[j]) == last + j);
        }
    }
    lemma_loose_add(cells, tail, low as int, high as int);
}

proof fn lemma_cells_of_decoration(spans: Seq<SpanMeasure>)
    requires
        forall|i: int| 0 <= i < spans.len() ==> (#[trigger] spans[i]).source is None,
    ensures
        forall|m: int|
            0 <= m < span_cells(spans).len() ==> (#[trigger] span_cells(spans)[m]).source is None,
    decreases spans.len(),
{
    if spans.len() > 0 {
        let n = spans.len() - 1;
        let above = spans.drop_last();
        assert forall|i: int| 0 <= i < above.len() implies (#[trigger] above[i]).source is None by {
            assert(above[i] == spans[i]);
        }
        lemma_cells_of_decoration(above);
        assert(spans[n].source is None);
        lemma_run_without_source(spans[n].glyphs, spans[n].style);
        let cells = span_cells(spans);
        let head = span_cells(above);
        let own = run_cells(spans[n].glyphs, spans[n].style, spans[n].source);
        assert forall|m: int| 0 <= m < cells.len() implies (#[trigger] cells[m]).source is None by {
            if m < head.len() {
                assert(cells[m] == head[m]);
            } else {
                assert(cells[m] == own[m - head.len()]);
            }
        }
    }
}

/// A rendered document whose lines and spans stand for source in order goes
/// through it in order, decorations apart.
pub proof fn law_rendered_documents_are_in_order(lines: Seq<RenderedLine>)
    requires
        document_in_order(lines),
        measures_all(lines),
    ensures
        decorated_in_order(lines_measure(lines)),
{
    let measured = lines_measure(lines);
    assert forall|k: int| 0 <= k < measured.len() implies line_decorated_in_order(
        #[trigger] measured[k],
    ) by {
        let line = lines[k];
        assert(spans_in_order(line) && measures_all_of(line));
        let spans = measured[k].spans;
        assert forall|i: int| 0 <= i < spans.len() implies #[trigger] spans[i] == span_measure(
            line.spans@[i],
        ) by {}
        match measured[k].source {
            Some((low, high)) => {
                assert forall|i: int| 0 <= i < spans.len() implies span_fits(
                    #[trigger] spans[i],
                    low as int,
                    high as int,
                ) by {
                    assert(spans[i] == span_measure(line.spans@[i]));
                }
                lemma_cells_of_line(measured[k], low, high);
            },
            None => {
                assert forall|i: int| 0 <= i < spans.len() implies (
                #[trigger] spans[i]).source is None by {
                    assert(char_range(line.spans@[i].source) is None);
                }
                lemma_cells_of_decoration(spans);
                assert(tail_cells(span_cells(spans), measured[k].source) =~= seq![]);
                assert(line_cells(measured[k]) =~= span_cells(spans));
            },
        }
    }
    assert forall|j: int, k: int|
        0 <= j < k < measured.len() && (#[trigger] measured[j]).source is Some && (
        #[trigger] measured[k]).source is Some implies line_limit(measured[j]) <= line_begin(
        measured[k],
    ) by {
        assert(measured[j].source == char_range(lines[j].source));
        assert(measured[k].source == char_range(lines[k].source));
    }
}

// ---------------------------------------------------------------------------
// Rows of lines with decorations
// ---------------------------------------------------------------------------
/// The cells that row `i` of a line shows.
pub open spec fn row_shows(
    cells: Seq<CellModel>,
    width: usize,
    mode: WrapMode,
    i: int,
) -> Seq<CellModel> {
    shown(wrapped(cells, width, mode)[i], mode)
}

/// What a row shows of its range of the cells: all from `from` on, and before
/// that there are only blanks.
proof fn lemma_kept(
    cells: Seq<CellModel>,
    width: usize,
    mode: WrapMode,
    cuts: Seq<(int, int)>,
    i: int,
) -> (from: int)
    requires
        cut_at(cells, wrapped(cells, width, mode), cuts, cells.len() as int),
        0 <= i < cuts.len(),
    ensures
        cuts[i].0 <= from < cuts[i].1 <= cells.len(),
        row_shows(cells, width, mode, i) == cells.subrange(from, cuts[i].1),
        forall|j: int| cuts[i].0 <= j < from ==> blank(#[trigger] cells[j]),
{
    let group = wrapped(cells, width, mode)[i];
    let (start, end) = cuts[i];
    assert(group == cells.subrange(start, end));
    if mode == WrapMode::Rendered && crate::cells::some_visible(group) {
        let from = lemma_leading_blanks(group);
        assert(group.skip(from) =~= cells.subrange(start + from, end));
        assert forall|j: int| start <= j < start + from implies blank(#[trigger] cells[j]) by {
            assert(group[j - start] == cells[j]);
        }
        start + from
    } else {
        start
    }
}

/// What holds of a row of a line with decorations.
proof fn lemma_decorated_row(
    cells: Seq<CellModel>,
    low: usize,
    high: usize,
    width: usize,
    mode: WrapMode,
    cuts: Seq<(int, int)>,
    i: int,
)
    requires
        loosely_chained(cells, low as int, high as int),
        low <= high,
        cells.len() > 0,
        cut_at(cells, wrapped(cells, width, mode), cuts, cells.len() as int),
        0 <= i < cuts.len(),
    ensures
        ({
            let rows = wrap_rows(cells, Some((low, high)), width, mode);
            let row = rows[i];
            let kept = row_shows(cells, width, mode, i);
            &&& rows.len() == cuts.len()
            &&& row.mapped
            &&& row.prefix_width == 0
            &&& low <= row.source_start <= row.source_end <= high
            &&& match first_source(kept) {
                Some(first) => {
                    &&& row.source_start <= first
                    &&& row.col_sources == columns(kept, first)
                    &&& forall|c: int|
                        0 <= c < row.col_sources.len() ==> first <= #[trigger] row.col_sources[c]
                            < row.source_end
                    &&& i + 1 < rows.len() ==> last_source(kept) == Some(row.source_end)
                },
                None => {
                    &&& row.source_start == low
                    &&& row.col_sources == columns(kept, low)
                    &&& forall|c: int|
                        0 <= c < row.col_sources.len() ==> #[trigger] row.col_sources[c] == low
                    &&& i + 1 < rows.len() ==> row.source_end == low
                },
            }
        }),
{
    let rows = wrap_rows(cells, Some((low, high)), width, mode);
    let row = rows[i];
    let kept = row_shows(cells, width, mode, i);
    let from = lemma_kept(cells, width, mode, cuts, i);
    let to = cuts[i].1;
    assert(kept == cells.subrange(from, to));
    lemma_loose_sub(cells, low as int, high as int, from, to);
    let f = lemma_first_source(kept);
    let l = lemma_last_source(kept);
    if let Some(first) = first_source(kept) {
        assert(last_source(kept) is Some);
        assert(kept[f].source is Some && kept[l].source is Some);
        assert(begins(kept[l]) < ends(kept[l]));
        assert(f <= l);
        assert forall|j: int| 0 <= j < kept.len() && (#[trigger] kept[j]).source is Some implies
            first <= begins(kept[j]) <= ends(kept[l]) - 1 by {
            assert(begins(kept[j]) < ends(kept[j]));
            assert(begins(kept[f]) < ends(kept[f]));
            assert(f <= j <= l);
        }
        lemma_columns_between(kept, first, first as int, ends(kept[l]) - 1);
    } else {
        assert(last_source(kept) is None);
        lemma_columns_between(kept, low, low as int, low as int);
    }
}

/// The rows of a line above one that shows a character end before it.
proof fn lemma_rows_of_the_line(
    cells: Seq<CellModel>,
    low: usize,
    high: usize,
    width: usize,
    mode: WrapMode,
    cuts: Seq<(int, int)>,
    i: int,
    g: int,
    pos: usize,
)
    requires
        loosely_chained(cells, low as int, high as int),
        low <= high,
        cells.len() > 0,
        cut_at(cells, wrapped(cells, width, mode), cuts, cells.len() as int),
        0 <= i < g < cuts.len(),
        first_source(row_shows(cells, width, mode, g)) matches Some(first) && first <= pos,
    ensures
        past(wrap_rows(cells, Some((low, high)), width, mode)[i], pos),
{
    let row = wrap_rows(cells, Some((low, high)), width, mode)[i];
    lemma_decorated_row(cells, low, high, width, mode, cuts, i);
    let kept = row_shows(cells, width, mode, i);
    let below = row_shows(cells, width, mode, g);
    if first_source(kept) is Some {
        let first = first_source(kept)->0;
        let from = lemma_kept(cells, width, mode, cuts, i);
        let start = lemma_kept(cells, width, mode, cuts, g);
        assert(cuts[i].1 <= cuts[g].0);
        let f = lemma_first_source(kept);
        let l = lemma_last_source(kept);
        let b = lemma_first_source(below);
        let (x, y) = (from + l, start + b);
        assert(kept[l] == cells[x]);
        assert(below[b] == cells[y]);
        assert(x < y);
        assert(row.source_end == ends(cells[x]));
        if ends(cells[x]) > pos {
            assert(begins(cells[x]) == pos);
            lemma_loose_sub(cells, low as int, high as int, from, cuts[i].1);
            assert(first <= begins(kept[l])) by {
                assert(begins(kept[f]) < ends(kept[f]));
            }
            lemma_cell_leads(kept, low as int, high as int, first, l);
            let c = total_width(kept.take(l)) as int;
            assert(row.col_sources[c] == pos);
            assert(shows(row, pos));
        }
    }
}

/// The rows of a line that is all decoration stand for nothing.
proof fn lemma_rows_of_decoration(cells: Seq<CellModel>, width: usize, mode: WrapMode, i: int)
    requires
        forall|m: int| 0 <= m < cells.len() ==> (#[trigger] cells[m]).source is None,
        0 <= i < wrap_rows(cells, None, width, mode).len(),
    ensures
        wrap_rows(cells, None, width, mode)[i].source_start == wrap_rows(
            cells,
            None,
            width,
            mode,
        )[i].source_end,
{
    if cells.len() > 0 {
        let cuts = law_wrapping_keeps_order(cells, width, mode);
        let from = lemma_kept(cells, width, mode, cuts, i);
        let kept = row_shows(cells, width, mode, i);
        let f = lemma_first_source(kept);
        let l = lemma_last_source(kept);
        assert forall|m: int| 0 <= m < kept.len() implies (#[trigger] kept[m]).source is None by {
            assert(kept[m] == cells[from + m]);
        }
        assert(first_source(kept) is None);
        assert(last_source(kept) is None);
    }
}

// ---------------------------------------------------------------------------
// Documents with decorations
// ---------------------------------------------------------------------------
/// The rows of line `k` stand in the document behind those of the lines above.
proof fn lemma_rows_split(measured: Seq<LineMeasure>, width: usize, mode: WrapMode, k: int)
    requires
        0 <= k < measured.len(),
    ensures
        ({
            let rows = all_rows(measured, width, mode);
            let above = all_rows(measured.take(k), width, mode);
            let own = line_rows(measured[k], width, mode);
            &&& above.len() + own.len() <= rows.len()
            &&& forall|i: int| 0 <= i < above.len() ==> #[trigger] rows[i] == above[i]
            &&& forall|g: int| 0 <= g < own.len() ==> rows[above.len() + g] == #[trigger] own[g]
        }),
    decreases measured.len(),
{
    let shorter = measured.drop_last();
    let rows = all_rows(measured, width, mode);
    let front = all_rows(shorter, width, mode);
    if k == measured.len() - 1 {
        assert(measured.take(k) =~= shorter);
    } else {
        lemma_rows_split(shorter, width, mode, k);
        assert(shorter.take(k) =~= measured.take(k));
        let above = all_rows(measured.take(k), width, mode);
        let own = line_rows(measured[k], width, mode);
        assert forall|i: int| 0 <= i < above.len() implies #[trigger] rows[i] == above[i] by {
            assert(rows[i] == front[i]);
        }
        assert forall|g: int| 0 <= g < own.len() implies rows[above.len() + g]
            == #[trigger] own[g] by {
            assert(rows[above.len() + g] == front[above.len() + g]);
        }
    }
}

/// The rows of the first `n` lines end by `limit`, if the lines do.
proof fn lemma_rows_before(
    measured: Seq<LineMeasure>,
    n: int,
    width: usize,
    mode: WrapMode,
    limit: int,
)
    requires
        decorated_in_order(measured),
        0 <= n <= measured.len(),
        forall|j: int|
            0 <= j < n && (#[trigger] measured[j]).source is Some ==> line_limit(measured[j])
                <= limit,
    ensures
        ({
            let rows = all_rows(measured.take(n), width, mode);
            forall|i: int|
                0 <= i < rows.len() && (#[trigger] rows[i]).mapped ==> rows[i].source_start
                    == rows[i].source_end || rows[i].source_start <= rows[i].source_end <= limit
        }),
    decreases n,
{
    if n == 0 {
        assert(measured.take(0).len() == 0);
    } else {
        lemma_rows_before(measured, n - 1, width, mode, limit);
        assert(measured.take(n).drop_last() =~= measured.take(n - 1));
        let line = measured[n - 1];
        assert(measured.take(n).last() == line);
        assert(line_decorated_in_order(line));
        let rows = all_rows(measured.take(n), width, mode);
        let above = all_rows(measured.take(n - 1), width, mode);
        let own = line_rows(line, width, mode);
        assert(rows == above + own);
        let cells = line_cells(line);
        assert forall|i: int| 0 <= i < rows.len() && (#[trigger] rows[i]).mapped implies
            rows[i].source_start == rows[i].source_end || rows[i].source_start
            <= rows[i].source_end <= limit by {
            if i < above.len() {
                assert(rows[i] == above[i]);
            } else {
                let g = i - above.len();
                assert(rows[i] == own[g]);
                match line.source {
                    Some((low, high)) => {
                        assert(line_limit(line) <= limit);
                        if cells.len() > 0 {
                            let cuts = law_wrapping_keeps_order(cells, width, mode);
                            lemma_decorated_row(cells, low, high, width, mode, cuts, g);
                        }
                    },
                    None => {
                        lemma_rows_of_decoration(cells, width, mode, g);
                    },
                }
            }
        }
    }
}

/// Where row `g` of line `k` stands in the document.
pub open spec fn row_index(
    measured: Seq<LineMeasure>,
    width: usize,
    mode: WrapMode,
    k: int,
    g: int,
) -> int {
    all_rows(measured.take(k), at_least_one(width), mode).len() + g
}

/// Row `g` of line `k` stands for source: it is the first of its line, or shows
/// a cell that does.
pub open spec fn row_has_source(line: LineMeasure, width: usize, mode: WrapMode, g: int) -> bool {
    g == 0 || first_source(row_shows(line_cells(line), at_least_one(width), mode, g)) is Some
}

/// Where the characters start that row `g` of a line shows.
pub open spec fn row_anchor(line: LineMeasure, width: usize, mode: WrapMode, g: int) -> usize {
    match first_source(row_shows(line_cells(line), at_least_one(width), mode, g)) {
        Some(first) => first,
        None => line_begin(line),
    }
}

/// The rows above one that stands for source have ended before its characters.
proof fn lemma_rows_above_are_past(
    measured: Seq<LineMeasure>,
    width: usize,
    mode: WrapMode,
    k: int,
    g: int,
    pos: usize,
)
    requires
        decorated_in_order(measured),
        0 <= k < measured.len(),
        measured[k].source is Some,
        line_cells(measured[k]).len() > 0,
        0 <= g < line_rows(measured[k], at_least_one(width), mode).len(),
        row_has_source(measured[k], width, mode, g),
        row_anchor(measured[k], width, mode, g) <= pos,
    ensures
        ({
            let rows = document_rows(measured, width, mode);
            let r = row_index(measured, width, mode, k, g);
            &&& 0 <= r < rows.len()
            &&& rows[r] == line_rows(measured[k], at_least_one(width), mode)[g]
            &&& forall|i: int| 0 <= i < r && (#[trigger] rows[i]).mapped ==> past(rows[i], pos)
        }),
{
    let w = at_least_one(width);
    let rows = document_rows(measured, width, mode);
    let line = measured[k];
    let cells = line_cells(line);
    let own = line_rows(line, w, mode);
    let above = all_rows(measured.take(k), w, mode);
    let r = row_index(measured, width, mode, k, g);
    lemma_rows_split(measured, w, mode, k);
    assert(own[g] == all_rows(measured, w, mode)[r]);
    assert(line_decorated_in_order(line));
    let (low, high) = line.source->0;
    let cuts = law_wrapping_keeps_order(cells, w, mode);
    lemma_decorated_row(cells, low, high, w, mode, cuts, g);
    assert(low <= pos) by {
        let kept = row_shows(cells, w, mode, g);
        if first_source(kept) is Some {
            assert(low <= own[g].source_start);
        }
    }
    assert forall|j: int| 0 <= j < k && (#[trigger] measured[j]).source is Some implies line_limit(
        measured[j],
    ) <= low by {
        assert(line_limit(measured[j]) <= line_begin(line));
    }
    lemma_rows_before(measured, k, w, mode, low as int);
    assert forall|i: int| 0 <= i < r && (#[trigger] rows[i]).mapped implies past(
        rows[i],
        pos,
    ) by {
        if i < above.len() {
            assert(rows[i] == above[i]);
        } else {
            let h = i - above.len();
            assert(rows[i] == own[h]);
            lemma_rows_of_the_line(cells, low, high, w, mode, cuts, h, g, pos);
        }
    }
}

/// A click on a row of a rendered document that stands for source goes to a
/// character whose place on the display stands for that same character, on
/// every column: also on a decoration, which goes to the first character of the
/// row. Left out is the decoration of a row that starts with a grapheme without
/// width.
pub proof fn law_rendered_clicks_map_back(
    measured: Seq<LineMeasure>,
    width: usize,
    mode: WrapMode,
    k: int,
    g: int,
    col: int,
)
    requires
        decorated_in_order(measured),
        0 <= k < measured.len(),
        measured[k].source is Some,
        0 <= g < line_rows(measured[k], at_least_one(width), mode).len(),
        row_has_source(measured[k], width, mode, g),
        ({
            let row = line_rows(measured[k], at_least_one(width), mode)[g];
            &&& 0 <= col < row.col_sources.len()
            &&& row.covers(row.col_sources[col])
            &&& leads(row.col_sources, 0, col) || row.col_sources[0] == row.col_sources[col]
        }),
    ensures
        ({
            let rows = document_rows(measured, width, mode);
            let r = row_index(measured, width, mode, k, g);
            let pos = rows[r].col_sources[col];
            &&& rows[r] == line_rows(measured[k], at_least_one(width), mode)[g]
            &&& source_of(rows, r, col) == Some(pos)
            &&& display_of(rows, pos) matches Some((x, y)) && source_of(rows, x, y) == Some(pos)
        }),
{
    let w = at_least_one(width);
    let rows = document_rows(measured, width, mode);
    let line = measured[k];
    let cells = line_cells(line);
    let row = line_rows(line, w, mode)[g];
    let pos = row.col_sources[col];
    let r = row_index(measured, width, mode, k, g);
    assert(line_decorated_in_order(line));
    let (low, high) = line.source->0;
    assert(cells.len() > 0);
    let cuts = law_wrapping_keeps_order(cells, w, mode);
    lemma_decorated_row(cells, low, high, w, mode, cuts, g);
    lemma_rows_above_are_past(measured, width, mode, k, g, pos);
    let at = if leads(row.col_sources, 0, col) {
        col
    } else {
        0
    };
    law_leading_columns_map_back(rows, r, at);
}

/// Every column of a row of a rendered document that shows characters can be
/// clicked as [`law_rendered_clicks_map_back`] says, if its first column stands
/// for its first character.
pub proof fn law_rows_with_source_can_be_clicked(
    line: LineMeasure,
    width: usize,
    mode: WrapMode,
    g: int,
    col: int,
)
    requires
        line_decorated_in_order(line),
        line.source is Some,
        0 <= g < line_rows(line, at_least_one(width), mode).len(),
        first_source(row_shows(line_cells(line), at_least_one(width), mode, g)) is Some,
        0 <= col < line_rows(line, at_least_one(width), mode)[g].col_sources.len(),
    ensures
        ({
            let row = line_rows(line, at_least_one(width), mode)[g];
            &&& row.covers(row.col_sources[col])
            &&& row.col_sources[col] == row_anchor(line, width, mode, g) || leads(
                row.col_sources,
                0,
                col,
            )
        }),
{
    let w = at_least_one(width);
    let cells = line_cells(line);
    let row = line_rows(line, w, mode)[g];
    let (low, high) = line.source->0;
    let kept = row_shows(cells, w, mode, g);
    if cells.len() == 0 {
        assert(wrap_rows(cells, line.source, w, mode)[g].col_sources.len() == 0);
    }
    let cuts = law_wrapping_keeps_order(cells, w, mode);
    lemma_decorated_row(cells, low, high, w, mode, cuts, g);
    let from = lemma_kept(cells, w, mode, cuts, g);
    lemma_loose_sub(cells, low as int, high as int, from, cuts[g].1);
    let first = first_source(kept)->0;
    let f = lemma_first_source(kept);
    assert forall|i: int| 0 <= i < kept.len() && (#[trigger] kept[i]).source is Some implies first
        <= begins(kept[i]) by {
        assert(begins(kept[f]) < ends(kept[f]));
        assert(f <= i);
    }
    lemma_columns_lead(kept, low as int, high as int, first);
    assert(row.col_sources[col] == columns(kept, first)[col]);
}

/// Where a visible cell that stands for source is shown: the row of its line,
/// and the column.
proof fn lemma_place_of_cell(line: LineMeasure, width: usize, mode: WrapMode, m: int) -> (at: (
    int,
    int,
))
    requires
        line_decorated_in_order(line),
        0 <= m < line_cells(line).len(),
        line_cells(line)[m].source is Some,
        line_cells(line)[m].width >= 1,
        !blank(line_cells(line)[m]),
    ensures
        ({
            let own = line_rows(line, at_least_one(width), mode);
            let (g, c) = at;
            let row = own[g];
            let pos = begins(line_cells(line)[m]);
            &&& 0 <= g < own.len()
            &&& row_has_source(line, width, mode, g)
            &&& row_anchor(line, width, mode, g) <= pos
            &&& row.prefix_width == 0
            &&& 0 <= c < row.col_sources.len()
            &&& row.col_sources[c] == pos
            &&& row.covers(pos)
            &&& leads(row.col_sources, 0, c)
        }),
{
    let w = at_least_one(width);
    let cells = line_cells(line);
    let (low, high) = line.source->0;
    let cuts = law_wrapping_keeps_order(cells, w, mode);
    let g = lemma_visible_cell_is_kept(cells, wrapped(cells, w, mode), cuts, m);
    let from = lemma_kept(cells, w, mode, cuts, g);
    assert(from <= m);
    let kept = row_shows(cells, w, mode, g);
    let j = m - from;
    assert(kept[j] == cells[m]);
    lemma_decorated_row(cells, low, high, w, mode, cuts, g);
    lemma_loose_sub(cells, low as int, high as int, from, cuts[g].1);
    let f = lemma_first_source(kept);
    let first = first_source(kept)->0;
    assert(first <= begins(kept[j])) by {
        assert(kept[f].source is Some && begins(kept[f]) < ends(kept[f]));
        assert(f <= j);
    }
    lemma_cell_leads(kept, low as int, high as int, first, j);
    (g, total_width(kept.take(j)) as int)
}

/// Every visible grapheme of a rendered document that stands for source is
/// shown: the place of its first character on the display stands for that
/// character, whatever decorations stand around it.
pub proof fn law_rendered_characters_map_back(
    measured: Seq<LineMeasure>,
    width: usize,
    mode: WrapMode,
    k: int,
    m: int,
)
    requires
        decorated_in_order(measured),
        0 <= k < measured.len(),
        0 <= m < line_cells(measured[k]).len(),
        line_cells(measured[k])[m].source is Some,
        line_cells(measured[k])[m].width >= 1,
        !blank(line_cells(measured[k])[m]),
    ensures
        ({
            let rows = document_rows(measured, width, mode);
            let pos = begins(line_cells(measured[k])[m]);
            display_of(rows, pos) matches Some((r, c)) && source_of(rows, r, c) == Some(pos)
        }),
{
    let rows = document_rows(measured, width, mode);
    let line = measured[k];
    let pos = begins(line_cells(line)[m]);
    assert(line_decorated_in_order(line));
    let (g, c) = lemma_place_of_cell(line, width, mode, m);
    lemma_rows_above_are_past(measured, width, mode, k, g, pos);
    law_leading_columns_map_back(rows, row_index(measured, width, mode, k, g), c);
}

// ---------------------------------------------------------------------------
// With first-line indents
// ---------------------------------------------------------------------------
/// An indent keeps a row past a character.
proof fn lemma_indent_keeps_past(text: Seq<char>, rows: Seq<RowModel>, i: int, pos: usize)
    requires
        0 <= i < rows.len(),
        rows[i].mapped,
        rows[i].prefix_width == 0,
        past(rows[i], pos),
    ensures
        past(indented(text, rows)[i], pos),
{
    let row = rows[i];
    let after = indented(text, rows)[i];
    if gets_indent(text, rows, i) {
        assert(row.source_start != row.source_end);
        if row.source_end > pos {
            let c = choose|c: int|
                row.prefix_width <= c < row.col_sources.len() && #[trigger] row.col_sources[c]
                    == pos && leads(row.col_sources, row.prefix_width as int, c);
            lemma_indent_keeps_leads(text, rows, i, c);
            assert(after.col_sources[c + INDENT_WIDTH] == pos);
            assert(shows(after, pos));
        }
    }
}

/// An indent moves the columns of a row, and keeps what leads it.
proof fn lemma_indent_keeps_leads(text: Seq<char>, rows: Seq<RowModel>, i: int, c: int)
    requires
        0 <= i < rows.len(),
        rows[i].prefix_width == 0,
        gets_indent(text, rows, i),
        0 <= c < rows[i].col_sources.len(),
        leads(rows[i].col_sources, 0, c),
    ensures
        ({
            let after = indented(text, rows)[i];
            &&& after.prefix_width == INDENT_WIDTH
            &&& after.source_start <= rows[i].source_start
            &&& after.source_end == rows[i].source_end
            &&& after.mapped == rows[i].mapped
            &&& c + INDENT_WIDTH < after.col_sources.len()
            &&& after.col_sources[c + INDENT_WIDTH] == rows[i].col_sources[c]
            &&& leads(after.col_sources, INDENT_WIDTH as int, c + INDENT_WIDTH)
        }),
{
    let row = rows[i];
    let after = indented(text, rows)[i];
    let by = INDENT_WIDTH as int;
    assert forall|j: int| by <= j < after.col_sources.len() implies #[trigger] after.col_sources[j]
        == row.col_sources[j - by] by {}
    assert forall|j: int| by <= j < c + by implies #[trigger] after.col_sources[j]
        <= after.col_sources[c + by] by {
        assert(row.col_sources[j - by] <= row.col_sources[c]);
    }
}

/// Every visible grapheme of a rendered document that stands for source is
/// shown with first-line indents too: the place of its first character on the
/// display stands for that character.
pub proof fn law_indented_characters_map_back(
    text: Seq<char>,
    measured: Seq<LineMeasure>,
    width: usize,
    mode: WrapMode,
    k: int,
    m: int,
)
    requires
        decorated_in_order(measured),
        0 <= k < measured.len(),
        0 <= m < line_cells(measured[k]).len(),
        line_cells(measured[k])[m].source is Some,
        line_cells(measured[k])[m].width >= 1,
        !blank(line_cells(measured[k])[m]),
    ensures
        ({
            let rows = indented(text, document_rows(measured, width, mode));
            let pos = begins(line_cells(measured[k])[m]);
            display_of(rows, pos) matches Some((r, c)) && source_of(rows, r, c) == Some(pos)
        }),
{
    let before = document_rows(measured, width, mode);
    let rows = indented(text, before);
    let line = measured[k];
    let pos = begins(line_cells(line)[m]);
    assert(line_decorated_in_order(line));
    let (g, c) = lemma_place_of_cell(line, width, mode, m);
    let r = row_index(measured, width, mode, k, g);
    lemma_rows_above_are_past(measured, width, mode, k, g, pos);
    law_documents_have_no_indent_at_first(measured, width, mode);
    assert forall|i: int| 0 <= i < r && (#[trigger] rows[i]).mapped implies past(rows[i], pos) by {
        assert(before[i].mapped && before[i].prefix_width == 0);
        lemma_indent_keeps_past(text, before, i, pos);
    }
    if gets_indent(text, before, r) {
        lemma_indent_keeps_leads(text, before, r, c);
        law_leading_columns_map_back(rows, r, c + INDENT_WIDTH);
    } else {
        law_leading_columns_map_back(rows, r, c);
    }
}

/// A click on a row that stands for source goes to a character whose place on
/// the display stands for that same character with first-line indents too, as
/// [`law_rendered_clicks_map_back`] says. An indented row has the column two
/// further to the right.
pub proof fn law_indented_clicks_map_back(
    text: Seq<char>,
    measured: Seq<LineMeasure>,
    width: usize,
    mode: WrapMode,
    k: int,
    g: int,
    col: int,
)
    requires
        decorated_in_order(measured),
        0 <= k < measured.len(),
        measured[k].source is Some,
        0 <= g < line_rows(measured[k], at_least_one(width), mode).len(),
        row_has_source(measured[k], width, mode, g),
        ({
            let row = line_rows(measured[k], at_least_one(width), mode)[g];
            &&& 0 <= col < row.col_sources.len()
            &&& row.covers(row.col_sources[col])
            &&& leads(row.col_sources, 0, col) || row.col_sources[0] == row.col_sources[col]
        }),
    ensures
        ({
            let rows = indented(text, document_rows(measured, width, mode));
            let r = row_index(measured, width, mode, k, g);
            let at = rows[r].prefix_width + col;
            let pos = line_rows(measured[k], at_least_one(width), mode)[g].col_sources[col];
            &&& source_of(rows, r, at) == Some(pos)
            &&& display_of(rows, pos) matches Some((x, y)) && source_of(rows, x, y) == Some(pos)
        }),
{
    let w = at_least_one(width);
    let before = document_rows(measured, width, mode);
    let rows = indented(text, before);
    let line = measured[k];
    let cells = line_cells(line);
    let row = line_rows(line, w, mode)[g];
    let pos = row.col_sources[col];
    let r = row_index(measured, width, mode, k, g);
    assert(line_decorated_in_order(line));
    let (low, high) = line.source->0;
    assert(cells.len() > 0);
    let cuts = law_wrapping_keeps_order(cells, w, mode);
    lemma_decorated_row(cells, low, high, w, mode, cuts, g);
    lemma_rows_above_are_past(measured, width, mode, k, g, pos);
    law_documents_have_no_indent_at_first(measured, width, mode);
    assert forall|i: int| 0 <= i < r && (#[trigger] rows[i]).mapped implies past(rows[i], pos) by {
        assert(before[i].mapped && before[i].prefix_width == 0);
        lemma_indent_keeps_past(text, before, i, pos);
    }
    let at = if leads(row.col_sources, 0, col) {
        col
    } else {
        0
    };
    if gets_indent(text, before, r) {
        lemma_indent_keeps_leads(text, before, r, at);
        law_leading_columns_map_back(rows, r, at + INDENT_WIDTH);
        assert(rows[r].col_sources[col + INDENT_WIDTH] == pos);
    } else {
        law_leading_columns_map_back(rows, r, at);
    }
}

} // verus!
