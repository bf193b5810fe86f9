//! Laws of the visual document: what wrapping and the two mappings between
//! display positions and source characters keep.

use crate::cells::{
    blank, cells_text, clip_range, glyph_cells, run_cells, total_width, CellModel, TAB_WIDTH,
};
use crate::render::{
    contents_text, line_measure, lines_measure, measures_all, measures_all_of, rendered_text,
    span_measure, LineMeasure, RenderedLine, RenderedSpan, SpanMeasure,
};
use crate::style::{spans_text, SpanModel, Style};
use crate::text::{
    ascii_glyphs, glyph_chars, glyph_texts, glyphs_wf, lemma_ascii_chars, lemma_glyph_chars_push,
    lemma_lines, line_starts, lines, repeated, white_space, GlyphModel,
};
use crate::visual::{
    all_rows, ascii_line, at_least_one, cell_spans, col_of, columns, display_of, document_rows, faithful,
    first_at_least, first_covering, first_source, last_source, last_starting, lemma_without_returns,
    line_cells, line_rows, row_of, run_start, shown, source_at, source_of, span_cells, tail_cells,
    without_returns, wrap_rows, RowModel,
};
use crate::wrap::{cut_at, law_rows_fit_the_width, law_wrapping_keeps_order, wrapped, wrapping, WrapMode};
use vstd::prelude::*;

verus! {

// ---------------------------------------------------------------------------
// Rows in order
// ---------------------------------------------------------------------------
/// The columns of a row behind its indent go through the source in order, and
/// stand for characters that the row covers.
pub open spec fn ordered_row(row: RowModel) -> bool {
    &&& row.wf()
    &&& row.source_start <= row.source_end
    &&& forall|i: int, j: int|
        row.prefix_width <= i <= j < row.col_sources.len() ==> #[trigger] row.col_sources[i]
            <= #[trigger] row.col_sources[j]
    &&& forall|i: int|
        row.prefix_width <= i < row.col_sources.len() ==> row.source_start
            <= #[trigger] row.col_sources[i] < row.source_end
}

/// Row `b` stands behind row `a`: it starts where `a` has ended, or its first
/// column stands for the character that the last column of `a` stands for, when
/// a tab is split between the two.
pub open spec fn follows(a: RowModel, b: RowModel) -> bool {
    ||| a.source_end <= b.source_start
    ||| {
        &&& a.source_end == b.source_start + 1
        &&& a.col_sources.len() > a.prefix_width
        &&& a.col_sources.last() == b.source_start
        &&& b.col_sources.len() > b.prefix_width
        &&& b.col_sources[b.prefix_width as int] == b.source_start
    }
}

/// Rows that go through the source in order.
pub open spec fn tidy(rows: Seq<RowModel>) -> bool {
    &&& forall|i: int| 0 <= i < rows.len() && (#[trigger] rows[i]).mapped ==> ordered_row(rows[i])
    &&& forall|i: int, j: int|
        0 <= i < j < rows.len() && (#[trigger] rows[i]).mapped && (#[trigger] rows[j]).mapped
            ==> follows(rows[i], rows[j])
}

pub proof fn lemma_first_at_least(cols: Seq<usize>, from: int, pos: usize)
    requires
        0 <= from <= cols.len(),
    ensures
        from <= first_at_least(cols, from, pos) <= cols.len(),
        forall|i: int| from <= i < first_at_least(cols, from, pos) ==> #[trigger] cols[i] < pos,
        first_at_least(cols, from, pos) < cols.len() ==> cols[first_at_least(cols, from, pos)]
            >= pos,
    decreases cols.len() - from,
{
    if from < cols.len() && cols[from] < pos {
        lemma_first_at_least(cols, from + 1, pos);
    }
}

pub proof fn lemma_run_start(cols: Seq<usize>, low: int, col: int)
    requires
        0 <= low <= col < cols.len(),
    ensures
        low <= run_start(cols, low, col) <= col,
        cols[run_start(cols, low, col)] == cols[col],
        run_start(cols, low, col) > low ==> cols[run_start(cols, low, col) - 1] != cols[col],
    decreases col - low,
{
    if col > low && cols[col - 1] == cols[col] {
        lemma_run_start(cols, low, col - 1);
    }
}

pub proof fn lemma_first_covering(rows: Seq<RowModel>, from: int, pos: usize)
    requires
        0 <= from <= rows.len(),
    ensures
        from <= first_covering(rows, from, pos) <= rows.len(),
        first_covering(rows, from, pos) < rows.len() ==> rows[first_covering(
            rows,
            from,
            pos,
        )].covers(pos),
        forall|i: int|
            from <= i < first_covering(rows, from, pos) ==> !(#[trigger] rows[i]).covers(pos),
    decreases rows.len() - from,
{
    if from < rows.len() && !rows[from].covers(pos) {
        lemma_first_covering(rows, from + 1, pos);
    }
}

pub proof fn lemma_last_starting(rows: Seq<RowModel>, n: int, pos: usize)
    requires
        0 <= n <= rows.len(),
    ensures
        -1 <= last_starting(rows, n, pos) < n,
        last_starting(rows, n, pos) >= 0 ==> rows[last_starting(rows, n, pos)].starts_by(pos),
        forall|i: int|
            last_starting(rows, n, pos) < i < n ==> !(#[trigger] rows[i]).starts_by(pos),
    decreases n,
{
    if n > 0 && !rows[n - 1].starts_by(pos) {
        lemma_last_starting(rows, n - 1, pos);
    }
}

/// The cursor stands inside the row and behind its indent, wherever the
/// character that it is at is shown.
pub proof fn law_cursor_stays_in_the_text(rows: Seq<RowModel>, pos: usize)
    requires
        forall|i: int| 0 <= i < rows.len() ==> (#[trigger] rows[i]).wf(),
    ensures
        match display_of(rows, pos) {
            Some((row, col)) => {
                &&& 0 <= row < rows.len()
                &&& rows[row].prefix_width <= col <= rows[row].col_sources.len()
            },
            None => forall|i: int| 0 <= i < rows.len() ==> !(#[trigger] rows[i]).starts_by(pos),
        },
{
    lemma_first_covering(rows, 0, pos);
    lemma_last_starting(rows, rows.len() as int, pos);
    let row = first_covering(rows, 0, pos);
    if row < rows.len() {
        assert(rows[row].wf());
        lemma_col_in_row(rows[row], pos);
    } else {
        let near = last_starting(rows, rows.len() as int, pos);
        if near >= 0 {
            assert(rows[near].wf());
        }
    }
}

proof fn lemma_col_in_row(row: RowModel, pos: usize)
    requires
        row.wf(),
    ensures
        row.prefix_width <= col_of(row, pos) <= row.col_sources.len(),
        row.prefix_width < row.col_sources.len() ==> col_of(row, pos) < row.col_sources.len(),
{
    let cols = row.col_sources;
    let low = row.prefix_width as int;
    lemma_first_at_least(cols, low, pos);
    let stop = first_at_least(cols, low, pos);
    if low < cols.len() && stop > low {
        lemma_run_start(cols, low, stop - 1);
    }
}

/// In a row whose columns go through the source in order, the cursor stands on
/// the first column of the last grapheme at or before its character: it never
/// stands inside a grapheme. Where no grapheme of the row lies at or before
/// the character, it stands at the start of the text.
pub proof fn law_cursor_never_enters_a_grapheme(row: RowModel, pos: usize)
    requires
        ordered_row(row),
        row.prefix_width < row.col_sources.len(),
    ensures
        ({
            let col = col_of(row, pos);
            let cols = row.col_sources;
            &&& row.prefix_width <= col < cols.len()
            &&& col == row.prefix_width || cols[col - 1] < cols[col]
            &&& cols[col] <= pos || col == row.prefix_width
            &&& forall|j: int|
                row.prefix_width <= j < cols.len() && #[trigger] cols[j] <= pos ==> cols[j]
                    <= cols[col]
        }),
{
    let cols = row.col_sources;
    let low = row.prefix_width as int;
    lemma_first_at_least(cols, low, pos);
    lemma_col_in_row(row, pos);
    let stop = first_at_least(cols, low, pos);
    let col = col_of(row, pos);
    if stop < cols.len() && cols[stop] == pos {
        if stop > low {
            assert(cols[stop - 1] < pos);
        }
    } else if stop > low {
        lemma_run_start(cols, low, stop - 1);
        assert(cols[stop - 1] < pos);
        if col > low {
            assert(cols[col - 1] <= cols[col]);
        }
        assert forall|j: int| low <= j < cols.len() && #[trigger] cols[j] <= pos implies cols[j]
            <= cols[col] by {
            if j >= stop {
                assert(cols[stop] <= cols[j]);
            } else {
                assert(cols[j] <= cols[stop - 1]);
            }
        }
    } else {
        assert forall|j: int| low <= j < cols.len() && #[trigger] cols[j] <= pos implies cols[j]
            <= cols[col] by {
            assert(cols[low] <= cols[j]);
        }
    }
}

proof fn lemma_col_of_present(row: RowModel, at: int)
    requires
        ordered_row(row),
        row.prefix_width <= at < row.col_sources.len(),
    ensures
        ({
            let pos = row.col_sources[at];
            let col = col_of(row, pos);
            &&& row.prefix_width <= col <= at
            &&& row.col_sources[col] == pos
        }),
{
    let cols = row.col_sources;
    let low = row.prefix_width as int;
    let pos = cols[at];
    lemma_first_at_least(cols, low, pos);
    let stop = first_at_least(cols, low, pos);
    assert(stop <= at);
    assert(cols[stop] <= cols[at]);
}

/// Display positions and source characters agree: the character that a column
/// stands for is shown at a position that stands for that same character.
pub proof fn law_shown_characters_map_back(rows: Seq<RowModel>, row: int, col: int)
    requires
        tidy(rows),
        0 <= row < rows.len(),
        rows[row].mapped,
        rows[row].prefix_width <= col < rows[row].col_sources.len(),
    ensures
        ({
            let pos = rows[row].col_sources[col];
            &&& source_of(rows, row, col) == Some(pos)
            &&& display_of(rows, pos) matches Some((r, c)) && r <= row && source_of(rows, r, c)
                == Some(pos)
        }),
{
    let pos = rows[row].col_sources[col];
    assert(ordered_row(rows[row]));
    assert(rows[row].covers(pos));
    lemma_first_covering(rows, 0, pos);
    let r = first_covering(rows, 0, pos);
    assert(r <= row);
    assert(rows[r].covers(pos));
    assert(ordered_row(rows[r]));
    if r == row {
        lemma_col_of_present(rows[r], col);
    } else {
        assert(follows(rows[r], rows[row]));
        lemma_col_of_present(rows[r], rows[r].col_sources.len() - 1);
    }
}

/// A column of the row, behind its indent, stands for the character at `pos`;
/// or the row starts there and has no columns.
pub open spec fn stands_for(row: RowModel, pos: usize) -> bool {
    ||| exists|i: int|
        row.prefix_width <= i < row.col_sources.len() && #[trigger] row.col_sources[i] == pos
    ||| row.col_sources.len() == 0 && row.source_start == pos
}

/// No row covers the character at `pos` without a column for it. A grapheme
/// without width has no column.
pub open spec fn has_width_at(rows: Seq<RowModel>, pos: usize) -> bool {
    forall|i: int|
        0 <= i < rows.len() && (#[trigger] rows[i]).covers(pos) ==> stands_for(rows[i], pos)
}

/// A click goes to a character whose place on the display stands for that same
/// character, wherever it hits a row behind its indent: on a column, behind the
/// last one, or on a row without columns. Behind the last column a grapheme
/// without width that follows there is left out.
pub proof fn law_clicks_map_back(rows: Seq<RowModel>, row: int, col: int)
    requires
        tidy(rows),
        0 <= row < rows.len(),
        rows[row].mapped,
        rows[row].prefix_width <= col,
        rows[row].col_sources.len() <= col ==> has_width_at(rows, source_of(rows, row, col)->0),
    ensures
        match source_of(rows, row, col) {
            Some(pos) => display_of(rows, pos) matches Some((r, c)) && source_of(rows, r, c)
                == Some(pos),
            None => false,
        },
{
    let hit = rows[row];
    let pos = source_at(hit, col)->0;
    assert(ordered_row(hit));
    if hit.prefix_width <= col < hit.col_sources.len() {
        law_shown_characters_map_back(rows, row, col);
    } else {
        lemma_first_covering(rows, 0, pos);
        lemma_last_starting(rows, rows.len() as int, pos);
        let j = first_covering(rows, 0, pos);
        let near = last_starting(rows, rows.len() as int, pos);
        if j < rows.len() {
            assert(ordered_row(rows[j]));
            if j < row {
                assert(follows(rows[j], hit));
            } else if j > row {
                assert(follows(hit, rows[j]));
                assert(stands_for(rows[j], pos));
                lemma_col_of_standing(rows[j], pos);
            }
        } else {
            assert(hit.starts_by(pos));
            assert(near >= row);
            assert(ordered_row(rows[near]));
            assert(!rows[near].covers(pos));
            if near > row {
                assert(follows(hit, rows[near]));
            }
        }
    }
}

proof fn lemma_col_of_standing(row: RowModel, pos: usize)
    requires
        ordered_row(row),
        stands_for(row, pos),
        row.mapped,
    ensures
        source_at(row, col_of(row, pos)) == Some(pos),
{
    if row.col_sources.len() > 0 {
        let i = choose|i: int|
            row.prefix_width <= i < row.col_sources.len() && #[trigger] row.col_sources[i] == pos;
        lemma_col_of_present(row, i);
    }
}

// ---------------------------------------------------------------------------
// The cells of source lines
// ---------------------------------------------------------------------------
/// Where the source of a cell begins.
pub open spec fn begins(cell: CellModel) -> usize {
    match cell.source {
        Some((start, _)) => start,
        None => 0,
    }
}

/// Where the source of a cell ends.
pub open spec fn ends(cell: CellModel) -> usize {
    match cell.source {
        Some((_, end)) => end,
        None => 0,
    }
}

/// Cells that go through the source from `low` to `high`: each stands for some
/// characters, and two stand for the same ones only if they are columns of one
/// tab.
pub open spec fn chained(cells: Seq<CellModel>, low: int, high: int) -> bool {
    &&& forall|i: int|
        0 <= i < cells.len() ==> {
            &&& (#[trigger] cells[i]).source is Some
            &&& low <= begins(cells[i]) < ends(cells[i]) <= high
        }
    &&& forall|i: int, j: int|
        0 <= i < j < cells.len() ==> {
            ||| ends(#[trigger] cells[i]) <= begins(#[trigger] cells[j])
            ||| {
                &&& cells[i].source == cells[j].source
                &&& ends(cells[i]) == begins(cells[i]) + 1
                &&& cells[i].width >= 1 && cells[j].width >= 1
            }
        }
}

proof fn lemma_chained_sub(cells: Seq<CellModel>, low: int, high: int, from: int, to: int)
    requires
        chained(cells, low, high),
        0 <= from <= to <= cells.len(),
    ensures
        chained(cells.subrange(from, to), low, high),
{
    let part = cells.subrange(from, to);
    assert forall|i: int| 0 <= i < part.len() implies {
        &&& (#[trigger] part[i]).source is Some
        &&& low <= begins(part[i]) < ends(part[i]) <= high
    } by {
        assert(part[i] == cells[from + i]);
    }
    assert forall|i: int, j: int| 0 <= i < j < part.len() implies {
        ||| ends(#[trigger] part[i]) <= begins(#[trigger] part[j])
        ||| {
            &&& part[i].source == part[j].source
            &&& ends(part[i]) == begins(part[i]) + 1
            &&& part[i].width >= 1 && part[j].width >= 1
        }
    } by {
        assert(part[i] == cells[from + i]);
        assert(part[j] == cells[from + j]);
    }
}

/// The cells of glyphs that stand for `low` on go through the source from
/// there to the end of the glyphs.
pub proof fn lemma_run_chained(glyphs: Seq<GlyphModel>, style: Style, low: usize, high: usize)
    requires
        glyphs_wf(glyphs),
        low + glyph_chars(glyphs).len() <= high,
    ensures
        ({
            let cells = run_cells(glyphs, style, Some((low, high)));
            let end = low + glyph_chars(glyphs).len();
            &&& chained(cells, low as int, end)
            &&& glyphs.len() == 0 ==> cells.len() == 0
            &&& glyphs.len() > 0 ==> cells.len() > 0 && ends(cells.last()) == end
                && begins(cells[0]) == low
        }),
    decreases glyphs.len(),
{
    if glyphs.len() > 0 {
        let shorter = glyphs.drop_last();
        let glyph = glyphs.last();
        assert(glyphs.take(glyphs.len() as int) == glyphs);
        assert(glyphs.take(glyphs.len() - 1) == shorter);
        lemma_glyph_chars_push(glyphs, glyphs.len() - 1);
        assert(glyphs_wf(shorter)) by {
            assert forall|i: int| 0 <= i < shorter.len() implies {
                &&& (#[trigger] shorter[i]).text.len() > 0
                &&& shorter[i].text.contains('\t') ==> shorter[i].text == seq!['\t']
            } by {
                assert(shorter[i] == glyphs[i]);
            }
        }
        lemma_run_chained(shorter, style, low, high);
        assert(glyph.text.len() > 0) by {
            assert(glyphs[glyphs.len() - 1] == glyph);
        }
        let before = glyph_chars(shorter).len();
        let after = glyph_chars(glyphs).len();
        let range = Some((low, high));
        let source = clip_range(range, before, after);
        assert(source == Some(((low + before) as usize, (low + after) as usize)));
        let head = run_cells(shorter, style, range);
        let tail = glyph_cells(glyph, style, source);
        let cells = head + tail;
        assert(run_cells(glyphs, style, range) == cells);
        assert forall|i: int| 0 <= i < tail.len() implies (#[trigger] tail[i]).source
            == source by {}
        assert(tail.len() > 1 ==> glyph.text.len() == 1);
        assert(tail.len() > 1 ==> forall|i: int|
            0 <= i < tail.len() ==> (#[trigger] tail[i]).width == 1);
        assert forall|i: int| 0 <= i < cells.len() implies {
            &&& (#[trigger] cells[i]).source is Some
            &&& low <= begins(cells[i]) < ends(cells[i]) <= low + after
        } by {
            if i < head.len() {
                assert(cells[i] == head[i]);
            } else {
                assert(cells[i] == tail[i - head.len()]);
            }
        }
        assert forall|i: int, j: int| 0 <= i < j < cells.len() implies {
            ||| ends(#[trigger] cells[i]) <= begins(#[trigger] cells[j])
            ||| {
                &&& cells[i].source == cells[j].source
                &&& ends(cells[i]) == begins(cells[i]) + 1
                &&& cells[i].width >= 1 && cells[j].width >= 1
            }
        } by {
            if j < head.len() {
                assert(cells[i] == head[i]);
                assert(cells[j] == head[j]);
            } else {
                assert(cells[j] == tail[j - head.len()]);
                if i < head.len() {
                    assert(cells[i] == head[i]);
                } else {
                    assert(cells[i] == tail[i - head.len()]);
                }
            }
        }
        assert(cells.last() == tail.last());
        if head.len() > 0 {
            assert(cells[0] == head[0]);
        } else {
            assert(shorter.len() == 0);
            assert(glyph_texts(shorter) =~= seq![]);
            assert(cells[0] == tail[0]);
        }
    }
}

proof fn lemma_sources_of_chained(cells: Seq<CellModel>, low: int, high: int)
    requires
        chained(cells, low, high),
        cells.len() > 0,
    ensures
        first_source(cells) == Some(begins(cells[0])),
        last_source(cells) == Some(ends(cells.last())),
{
    assert(cells[0].source is Some);
    assert(cells.last().source is Some);
}

/// The columns of chained cells go through the source in order.
proof fn lemma_columns_of_chained(cells: Seq<CellModel>, low: int, high: int, default: usize)
    requires
        chained(cells, low, high),
        cells.len() > 0,
    ensures
        ({
            let cols = columns(cells, default);
            let first = begins(cells[0]);
            let last = begins(cells.last());
            &&& forall|i: int, j: int| 0 <= i <= j < cols.len() ==> cols[i] <= cols[j]
            &&& forall|i: int| 0 <= i < cols.len() ==> first <= #[trigger] cols[i] <= last
            &&& cells.last().width >= 1 ==> cols.len() > 0 && cols.last() == last
            &&& cells[0].width >= 1 ==> cols.len() > 0 && cols[0] == first
        }),
    decreases cells.len(),
{
    let cols = columns(cells, default);
    let last = cells.last();
    let shorter = cells.drop_last();
    let tail = Seq::new(last.width as nat, |i: int| begins(last));
    assert(last.source is Some);
    assert(cols == columns(shorter, default) + tail);
    if shorter.len() == 0 {
        assert(columns(shorter, default) =~= seq![]);
        assert(cols =~= tail);
    } else {
        assert(shorter == cells.subrange(0, cells.len() - 1));
        lemma_chained_sub(cells, low, high, 0, cells.len() - 1);
        lemma_columns_of_chained(shorter, low, high, default);
        assert(shorter.last() == cells[cells.len() - 2]);
        assert(shorter[0] == cells[0]);
        assert(begins(shorter.last()) <= begins(last)) by {
            let i = cells.len() - 2;
            let j = cells.len() - 1;
            assert(cells[i].source is Some && begins(cells[i]) < ends(cells[i]));
            assert(ends(cells[i]) <= begins(cells[j]) || cells[i].source
                == cells[j].source);
        }
    }
}

/// What is shown of chained cells is chained, and ends where they end.
proof fn lemma_shown_is_chained(cells: Seq<CellModel>, low: int, high: int, mode: WrapMode) -> (from:
    int)
    requires
        chained(cells, low, high),
        cells.len() > 0,
    ensures
        0 <= from < cells.len(),
        shown(cells, mode) == cells.skip(from),
        chained(shown(cells, mode), low, high),
{
    let n = cells.len() as int;
    if mode == WrapMode::Rendered && crate::cells::some_visible(cells) {
        let from = lemma_leading_blanks(cells);
        lemma_chained_sub(cells, low, high, from, n);
        assert(cells.skip(from) == cells.subrange(from, n));
        from
    } else {
        assert(cells.skip(0) == cells);
        0
    }
}

/// How many leading cells are blank.
pub proof fn lemma_leading_blanks(cells: Seq<CellModel>) -> (from: int)
    ensures
        0 <= from <= cells.len(),
        crate::cells::without_leading_blanks(cells) == cells.skip(from),
        crate::cells::some_visible(cells) ==> from < cells.len(),
        forall|i: int| 0 <= i < from ==> blank(#[trigger] cells[i]),
    decreases cells.len(),
{
    if cells.len() > 0 && blank(cells[0]) {
        let rest = cells.skip(1);
        let from = lemma_leading_blanks(rest);
        assert forall|i: int| 0 <= i < from + 1 implies blank(#[trigger] cells[i]) by {
            if i > 0 {
                assert(rest[i - 1] == cells[i]);
            }
        }
        assert(rest.skip(from) == cells.skip(from + 1));
        if crate::cells::some_visible(cells) {
            let i = choose|i: int| 0 <= i < cells.len() && !blank(#[trigger] cells[i]);
            assert(rest[i - 1] == cells[i]);
        }
        from + 1
    } else {
        assert(cells.skip(0) == cells);
        0
    }
}

/// What holds of the rows of a line whose cells go through its source.
proof fn lemma_chained_rows(
    cells: Seq<CellModel>,
    low: usize,
    high: usize,
    width: usize,
    mode: WrapMode,
)
    requires
        chained(cells, low as int, high as int),
        low <= high,
    ensures
        ({
            let rows = wrap_rows(cells, Some((low, high)), width, mode);
            &&& rows.len() > 0
            &&& rows[0].source_start == low
            &&& tidy(rows)
            &&& forall|i: int|
                0 <= i < rows.len() ==> {
                    &&& (#[trigger] rows[i]).mapped
                    &&& low <= rows[i].source_start
                    &&& rows[i].source_end <= high
                    &&& rows[i].prefix_width == 0
                    &&& rows.len() > 1 ==> rows[i].source_start < rows[i].source_end
                }
        }),
{
    let rows = wrap_rows(cells, Some((low, high)), width, mode);
    if cells.len() > 0 {
        let groups = wrapped(cells, width, mode);
        let cuts = law_wrapping_keeps_order(cells, width, mode);
        law_rows_fit_the_width(cells, width, mode);
        assert forall|i: int| 0 <= i < rows.len() implies {
            let kept = shown(groups[i], mode);
            &&& (#[trigger] rows[i]).mapped
            &&& low <= rows[i].source_start < rows[i].source_end <= high
            &&& ordered_row(rows[i])
            &&& kept.len() > 0
            &&& exists|k: int| cuts[i].0 <= k < cuts[i].1 && #[trigger] cells[k] == kept[0]
            &&& kept.last() == cells[cuts[i].1 - 1]
            &&& i > 0 ==> rows[i].source_start == begins(kept[0])
            &&& i < rows.len() - 1 ==> rows[i].source_end == ends(kept.last())
            &&& kept.last().width >= 1 ==> rows[i].col_sources.len() > 0
                && rows[i].col_sources.last() == begins(kept.last())
            &&& kept[0].width >= 1 ==> rows[i].col_sources.len() > 0 && rows[i].col_sources[0]
                == begins(kept[0])
            &&& rows[i].prefix_width == 0
        } by {
            let group = groups[i];
            assert(group == cells.subrange(cuts[i].0, cuts[i].1));
            lemma_chained_sub(cells, low as int, high as int, cuts[i].0, cuts[i].1);
            let from = lemma_shown_is_chained(group, low as int, high as int, mode);
            let kept = shown(group, mode);
            assert(kept[0] == cells[cuts[i].0 + from]);
            assert(kept.last() == cells[cuts[i].1 - 1]);
            lemma_sources_of_chained(kept, low as int, high as int);
            lemma_columns_of_chained(kept, low as int, high as int, begins(kept[0]));
            assert(kept[0].source is Some);
            let last = kept[kept.len() - 1];
            assert(last.source is Some && begins(last) < ends(last) <= high);
            assert(begins(kept[0]) <= begins(last)) by {
                if kept.len() > 1 {
                    assert(ends(kept[0]) <= begins(last) || kept[0].source == last.source);
                }
            }
        }
        assert forall|i: int, j: int|
            0 <= i < j < rows.len() && (#[trigger] rows[i]).mapped && (
            #[trigger] rows[j]).mapped implies follows(rows[i], rows[j]) by {
            let a = cuts[i].1 - 1;
            assert(shown(groups[i], mode).last() == cells[a]);
            let b = choose|k: int|
                cuts[j].0 <= k < cuts[j].1 && #[trigger] cells[k] == shown(groups[j], mode)[0];
            assert(cuts[i].1 <= cuts[j].0);
            assert(ends(cells[a]) <= begins(cells[b]) || (cells[a].source == cells[b].source
                && ends(cells[a]) == begins(cells[a]) + 1 && cells[a].width >= 1
                && cells[b].width >= 1));
        }
    }
}

// ---------------------------------------------------------------------------
// Documents in order
// ---------------------------------------------------------------------------
/// A line whose cells go through the source range of the line, or that shows
/// nothing and stands for nothing.
pub open spec fn line_in_order(line: LineMeasure) -> bool {
    match line.source {
        Some((low, high)) => low <= high && chained(line_cells(line), low as int, high as int),
        None => line_cells(line).len() == 0,
    }
}

/// Lines that go through the source, one behind the other.
pub open spec fn in_order(measured: Seq<LineMeasure>) -> bool {
    &&& forall|k: int| 0 <= k < measured.len() ==> line_in_order(#[trigger] measured[k])
    &&& forall|j: int, k: int|
        0 <= j < k < measured.len() && (#[trigger] measured[j]).source is Some && (
        #[trigger] measured[k]).source is Some ==> line_limit(measured[j]) <= line_begin(
            measured[k],
        )
}

/// Where the source of a line begins.
pub open spec fn line_begin(line: LineMeasure) -> usize {
    match line.source {
        Some((low, _)) => low,
        None => 0,
    }
}

/// Where the source of a line ends.
pub open spec fn line_limit(line: LineMeasure) -> usize {
    match line.source {
        Some((_, high)) => high,
        None => 0,
    }
}

proof fn lemma_rows_in_order(
    measured: Seq<LineMeasure>,
    n: int,
    width: usize,
    mode: WrapMode,
)
    requires
        in_order(measured),
        0 <= n <= measured.len(),
    ensures
        ({
            let rows = all_rows(measured.take(n), width, mode);
            &&& tidy(rows)
            &&& forall|i: int, k: int|
                0 <= i < rows.len() && (#[trigger] rows[i]).mapped && n <= k < measured.len() && (
                #[trigger] measured[k]).source is Some ==> rows[i].source_end <= line_begin(
                    measured[k],
                )
        }),
    decreases n,
{
    let rows = all_rows(measured.take(n), width, mode);
    if n == 0 {
        assert(measured.take(0).len() == 0);
    } else {
        lemma_rows_in_order(measured, n - 1, width, mode);
        assert(measured.take(n).drop_last() == measured.take(n - 1));
        assert(measured.take(n).last() == measured[n - 1]);
        let above = all_rows(measured.take(n - 1), width, mode);
        let line = measured[n - 1];
        let below = line_rows(line, width, mode);
        assert(rows == above + below);
        assert(line_in_order(line));
        if let Some((low, high)) = line.source {
            lemma_chained_rows(line_cells(line), low, high, width, mode);
        }
        assert forall|i: int| 0 <= i < rows.len() && (#[trigger] rows[i]).mapped implies
            ordered_row(rows[i]) by {
            if i < above.len() {
                assert(rows[i] == above[i]);
            } else {
                assert(rows[i] == below[i - above.len()]);
            }
        }
        assert forall|i: int, j: int|
            0 <= i < j < rows.len() && (#[trigger] rows[i]).mapped && (
            #[trigger] rows[j]).mapped implies follows(rows[i], rows[j]) by {
            if j < above.len() {
                assert(rows[i] == above[i]);
                assert(rows[j] == above[j]);
            } else {
                assert(rows[j] == below[j - above.len()]);
                if i < above.len() {
                    assert(rows[i] == above[i]);
                } else {
                    assert(rows[i] == below[i - above.len()]);
                }
            }
        }
        assert forall|i: int, k: int|
            0 <= i < rows.len() && (#[trigger] rows[i]).mapped && n <= k < measured.len() && (
            #[trigger] measured[k]).source is Some implies rows[i].source_end <= line_begin(
            measured[k],
        ) by {
            if i < above.len() {
                assert(rows[i] == above[i]);
            } else {
                assert(rows[i] == below[i - above.len()]);
                assert(line.source is Some);
                assert(line_limit(line) <= line_begin(measured[k]));
            }
        }
    }
}

/// A document whose lines go through the source in order, rendered or not, has
/// rows that do.
pub proof fn law_documents_in_order_are_tidy(
    measured: Seq<LineMeasure>,
    width: usize,
    mode: WrapMode,
)
    requires
        in_order(measured),
    ensures
        tidy(document_rows(measured, width, mode)),
{
    let n = measured.len() as int;
    lemma_rows_in_order(measured, n, at_least_one(width), mode);
    assert(measured.take(n) == measured);
}

// ---------------------------------------------------------------------------
// Documents of source text
// ---------------------------------------------------------------------------
/// The cells of a faithfully measured line go through its source.
proof fn lemma_source_line(text: Seq<char>, measured: Seq<LineMeasure>, k: int)
    requires
        faithful(text, measured),
        text.len() <= usize::MAX,
        0 <= k < measured.len(),
    ensures
        ({
            let cells = line_cells(measured[k]);
            let low = line_starts(text)[k];
            let high = low + without_returns(lines(text)[k]).len();
            &&& 0 <= low <= high <= text.len()
            &&& high <= low + lines(text)[k].len()
            &&& measured[k].source == Some((low as usize, high as usize))
            &&& cells == run_cells(
                measured[k].spans[0].glyphs,
                measured[k].spans[0].style,
                measured[k].source,
            )
            &&& chained(cells, low, high)
            &&& cells.len() > 0 ==> begins(cells[0]) == low && ends(cells.last()) == high
        }),
{
    lemma_lines(text);
    lemma_without_returns(lines(text)[k]);
    let line = measured[k];
    let low = line_starts(text)[k];
    let high = low + without_returns(lines(text)[k]).len();
    let span = line.spans[0];
    let cells = run_cells(span.glyphs, span.style, span.source);
    lemma_run_chained(span.glyphs, span.style, low as usize, high as usize);
    assert(line.spans.drop_last() =~= seq![]);
    assert(span_cells(line.spans.drop_last()) =~= seq![]);
    assert(span_cells(line.spans) =~= cells);
    if cells.len() > 0 {
        lemma_sources_of_chained(cells, low, high);
    }
    assert(tail_cells(cells, line.source) =~= seq![]);
    assert(line_cells(line) =~= cells);
}

/// A row that stands for no characters ends before the rows behind it start.
spec fn apart(rows: Seq<RowModel>) -> bool {
    forall|i: int, j: int|
        0 <= i < j < rows.len() ==> (#[trigger] rows[i]).source_start < rows[i].source_end
            || rows[i].source_end < (#[trigger] rows[j]).source_start
}

proof fn lemma_source_rows(text: Seq<char>, measured: Seq<LineMeasure>, n: int, width: usize)
    requires
        faithful(text, measured),
        text.len() <= usize::MAX,
        0 <= n <= measured.len(),
    ensures
        ({
            let rows = all_rows(measured.take(n), width, WrapMode::Source);
            &&& tidy(rows)
            &&& rows.len() >= n
            &&& n > 0 ==> rows[0].source_start == 0
            &&& apart(rows)
            &&& forall|i: int|
                0 <= i < rows.len() ==> {
                    &&& (#[trigger] rows[i]).mapped
                    &&& n < measured.len() ==> rows[i].source_end < line_starts(text)[n]
                    &&& rows[i].source_end <= text.len()
                    &&& rows[i].prefix_width == 0
                }
        }),
    decreases n,
{
    let rows = all_rows(measured.take(n), width, WrapMode::Source);
    if n == 0 {
        assert(measured.take(0).len() == 0);
    } else {
        lemma_source_rows(text, measured, n - 1, width);
        assert(measured.take(n).drop_last() == measured.take(n - 1));
        assert(measured.take(n).last() == measured[n - 1]);
        let above = all_rows(measured.take(n - 1), width, WrapMode::Source);
        let below = line_rows(measured[n - 1], width, WrapMode::Source);
        assert(rows == above + below);
        lemma_source_line(text, measured, n - 1);
        lemma_lines(text);
        let low = line_starts(text)[n - 1];
        let high = low + without_returns(lines(text)[n - 1]).len();
        lemma_chained_rows(
            line_cells(measured[n - 1]),
            low as usize,
            high as usize,
            width,
            WrapMode::Source,
        );
        if n < measured.len() {
            assert(line_starts(text)[n - 1] + lines(text)[n - 1].len() < line_starts(text)[n]);
        }
        assert forall|i: int| 0 <= i < rows.len() implies {
            &&& (#[trigger] rows[i]).mapped
            &&& n < measured.len() ==> rows[i].source_end < line_starts(text)[n]
            &&& rows[i].source_end <= text.len()
            &&& rows[i].prefix_width == 0
            &&& ordered_row(rows[i])
        } by {
            if i < above.len() {
                assert(rows[i] == above[i]);
            } else {
                assert(rows[i] == below[i - above.len()]);
            }
        }
        assert forall|i: int, j: int|
            0 <= i < j < rows.len() && (#[trigger] rows[i]).mapped && (
            #[trigger] rows[j]).mapped implies follows(rows[i], rows[j]) by {
            if j < above.len() {
                assert(rows[i] == above[i]);
                assert(rows[j] == above[j]);
            } else {
                assert(rows[j] == below[j - above.len()]);
                if i < above.len() {
                    assert(rows[i] == above[i]);
                } else {
                    assert(rows[i] == below[i - above.len()]);
                }
            }
        }
        assert forall|i: int, j: int| 0 <= i < j < rows.len() implies (
        #[trigger] rows[i]).source_start < rows[i].source_end || rows[i].source_end < (
        #[trigger] rows[j]).source_start by {
            if j < above.len() {
                assert(rows[i] == above[i]);
                assert(rows[j] == above[j]);
            } else {
                assert(rows[j] == below[j - above.len()]);
                if i < above.len() {
                    assert(rows[i] == above[i]);
                } else {
                    assert(rows[i] == below[i - above.len()]);
                }
            }
        }
        if n == 1 {
            assert(above.len() == 0) by {
                assert(measured.take(0).len() == 0);
            }
            assert(rows[0] == below[0]);
        } else {
            assert(rows[0] == above[0]);
        }
    }
}

/// A document of source text goes through the text in order, from its first
/// character on, and every row stands for a part of it.
pub proof fn law_source_documents_are_tidy(
    text: Seq<char>,
    measured: Seq<LineMeasure>,
    width: usize,
)
    requires
        faithful(text, measured),
        text.len() <= usize::MAX,
    ensures
        ({
            let rows = document_rows(measured, width, WrapMode::Source);
            &&& tidy(rows)
            &&& rows.len() > 0
            &&& rows[0].source_start == 0
            &&& forall|i: int|
                0 <= i < rows.len() ==> {
                    &&& (#[trigger] rows[i]).mapped
                    &&& rows[i].source_end <= text.len()
                    &&& rows[i].prefix_width == 0
                }
        }),
{
    let n = measured.len() as int;
    assert(measured.take(n) == measured);
    lemma_lines(text);
    lemma_source_rows(text, measured, n, at_least_one(width));
}

/// Every character position of a source text has a place on the display.
pub proof fn law_every_source_position_is_shown(
    text: Seq<char>,
    measured: Seq<LineMeasure>,
    width: usize,
    pos: usize,
)
    requires
        faithful(text, measured),
        text.len() <= usize::MAX,
    ensures
        display_of(document_rows(measured, width, WrapMode::Source), pos) is Some,
{
    law_source_documents_are_tidy(text, measured, width);
    let rows = document_rows(measured, width, WrapMode::Source);
    lemma_last_starting(rows, rows.len() as int, pos);
    assert(rows[0].starts_by(pos));
}

/// A click anywhere in a document of source text goes to a character whose
/// place on the display stands for that same character. Behind the last column
/// of a row a grapheme without width that follows there is left out.
pub proof fn law_source_clicks_map_back(
    text: Seq<char>,
    measured: Seq<LineMeasure>,
    width: usize,
    row: int,
    col: int,
)
    requires
        faithful(text, measured),
        text.len() <= usize::MAX,
        0 <= col,
        ({
            let rows = document_rows(measured, width, WrapMode::Source);
            &&& 0 <= row < rows.len()
            &&& 0 < rows[row].col_sources.len() <= col ==> has_width_at(rows, rows[row].source_end)
        }),
    ensures
        ({
            let rows = document_rows(measured, width, WrapMode::Source);
            match source_of(rows, row, col) {
                Some(pos) => pos <= text.len() && (display_of(rows, pos) matches Some((r, c))
                    && source_of(rows, r, c) == Some(pos)),
                None => false,
            }
        }),
{
    law_source_documents_are_tidy(text, measured, width);
    let rows = document_rows(measured, width, WrapMode::Source);
    let hit = rows[row];
    assert(hit.mapped && ordered_row(hit));
    if hit.col_sources.len() == 0 {
        let n = measured.len() as int;
        assert(measured.take(n) == measured);
        lemma_source_rows(text, measured, n, at_least_one(width));
        let pos = hit.source_start;
        assert forall|i: int| 0 <= i < rows.len() && (#[trigger] rows[i]).covers(
            pos,
        ) implies stands_for(rows[i], pos) by {
            if i < row {
                assert(follows(rows[i], hit));
            } else if i > row {
                assert(follows(hit, rows[i]));
            }
        }
    }
    law_clicks_map_back(rows, row, col);
}

// ---------------------------------------------------------------------------
// Every visible grapheme
// ---------------------------------------------------------------------------
/// The cell of a grapheme that is no tab.
proof fn lemma_cell_of_glyph(
    glyphs: Seq<GlyphModel>,
    style: Style,
    range: Option<(usize, usize)>,
    i: int,
) -> (m: int)
    requires
        0 <= i < glyphs.len(),
        glyphs[i].text != seq!['\t'],
    ensures
        0 <= m < run_cells(glyphs, style, range).len(),
        run_cells(glyphs, style, range)[m] == (CellModel {
            text: glyphs[i].text,
            width: glyphs[i].width,
            style,
            source: clip_range(
                range,
                glyph_chars(glyphs.take(i)).len(),
                glyph_chars(glyphs.take(i + 1)).len(),
            ),
        }),
    decreases glyphs.len(),
{
    let shorter = glyphs.drop_last();
    let head = run_cells(shorter, style, range);
    if i == glyphs.len() - 1 {
        assert(glyphs.take(i) == shorter);
        assert(glyphs.take(i + 1) == glyphs);
        head.len() as int
    } else {
        assert(shorter.take(i) == glyphs.take(i));
        assert(shorter.take(i + 1) == glyphs.take(i + 1));
        let m = lemma_cell_of_glyph(shorter, style, range, i);
        assert(run_cells(glyphs, style, range)[m] == head[m]);
        m
    }
}

/// A visible cell stands in some row.
pub proof fn lemma_visible_cell_is_kept(
    cells: Seq<CellModel>,
    rows: Seq<Seq<CellModel>>,
    cuts: Seq<(int, int)>,
    m: int,
) -> (g: int)
    requires
        cut_at(cells, rows, cuts, cells.len() as int),
        0 <= m < cells.len(),
        !blank(cells[m]),
    ensures
        0 <= g < cuts.len(),
        cuts[g].0 <= m < cuts[g].1,
{
    lemma_cut_below(cells, rows, cuts, m, cuts.len() as int)
}

proof fn lemma_cut_below(
    cells: Seq<CellModel>,
    rows: Seq<Seq<CellModel>>,
    cuts: Seq<(int, int)>,
    m: int,
    n: int,
) -> (g: int)
    requires
        cut_at(cells, rows, cuts, cells.len() as int),
        0 <= m < cells.len(),
        !blank(cells[m]),
        0 <= n <= cuts.len(),
        n < cuts.len() ==> m < cuts[n].0,
    ensures
        0 <= g < cuts.len(),
        cuts[g].0 <= m < cuts[g].1,
    decreases n,
{
    if n == 0 {
        if cuts.len() > 0 {
            assert(crate::wrap::gap_is_blank(cells, cuts, 0));
        }
        assert(false);
        0
    } else if m >= cuts[n - 1].1 {
        if n < cuts.len() {
            assert(crate::wrap::gap_is_blank(cells, cuts, n));
        }
        assert(false);
        0
    } else if m >= cuts[n - 1].0 {
        n - 1
    } else {
        lemma_cut_below(cells, rows, cuts, m, n - 1)
    }
}

/// A cell with a width has a column.
pub proof fn lemma_column_of_cell(cells: Seq<CellModel>, default: usize, m: int)
    requires
        0 <= m < cells.len(),
        cells[m].source is Some,
        cells[m].width >= 1,
    ensures
        total_width(cells.take(m)) < columns(cells, default).len(),
        columns(cells, default)[total_width(cells.take(m)) as int] == begins(cells[m]),
    decreases cells.len(),
{
    lemma_columns_len(cells.drop_last(), default);
    let shorter = cells.drop_last();
    if m == cells.len() - 1 {
        assert(cells.take(m) == shorter);
    } else {
        assert(shorter.take(m) == cells.take(m));
        assert(shorter[m] == cells[m]);
        lemma_column_of_cell(shorter, default, m);
    }
}

pub proof fn lemma_columns_len(cells: Seq<CellModel>, default: usize)
    ensures
        columns(cells, default).len() == total_width(cells),
    decreases cells.len(),
{
    if cells.len() > 0 {
        lemma_columns_len(cells.drop_last(), default);
    }
}

/// The rows of a line stand in the document.
proof fn lemma_rows_of_line(
    measured: Seq<LineMeasure>,
    width: usize,
    mode: WrapMode,
    k: int,
    i: int,
) -> (r: int)
    requires
        0 <= k < measured.len(),
        0 <= i < line_rows(measured[k], width, mode).len(),
    ensures
        0 <= r < all_rows(measured, width, mode).len(),
        all_rows(measured, width, mode)[r] == line_rows(measured[k], width, mode)[i],
    decreases measured.len(),
{
    let above = all_rows(measured.drop_last(), width, mode);
    if k == measured.len() - 1 {
        above.len() + i
    } else {
        let r = lemma_rows_of_line(measured.drop_last(), width, mode, k, i);
        assert(all_rows(measured, width, mode)[r] == above[r]);
        r
    }
}

/// A visible grapheme has a column in a row of its line.
proof fn lemma_column_of_visible(
    text: Seq<char>,
    measured: Seq<LineMeasure>,
    width: usize,
    k: int,
    i: int,
) -> (at: (int, int))
    requires
        faithful(text, measured),
        text.len() <= usize::MAX,
        width >= 1,
        0 <= k < measured.len(),
        0 <= i < measured[k].spans[0].glyphs.len(),
        measured[k].spans[0].glyphs[i].width >= 1,
        !crate::text::all_white(measured[k].spans[0].glyphs[i].text),
    ensures
        ({
            let line = line_rows(measured[k], width, WrapMode::Source);
            let glyphs = measured[k].spans[0].glyphs;
            let pos = (line_starts(text)[k] + glyph_chars(glyphs.take(i)).len()) as usize;
            &&& 0 <= at.0 < line.len()
            &&& 0 <= at.1 < line[at.0].col_sources.len()
            &&& line[at.0].col_sources[at.1] == pos
        }),
{
    let span = measured[k].spans[0];
    let glyphs = span.glyphs;
    lemma_source_line(text, measured, k);
    let low = line_starts(text)[k];
    let high = low + without_returns(lines(text)[k]).len();
    let cells = line_cells(measured[k]);
    lemma_glyph_chars_push(glyphs, i);
    if glyphs[i].text == seq!['\t'] {
        assert(crate::text::all_white(glyphs[i].text));
    }
    let m = lemma_cell_of_glyph(glyphs, span.style, span.source, i);
    let pos = (low + glyph_chars(glyphs.take(i)).len()) as usize;
    assert(begins(cells[m]) == pos);
    let groups = wrapped(cells, width, WrapMode::Source);
    let cuts = law_wrapping_keeps_order(cells, width, WrapMode::Source);
    let g = lemma_visible_cell_is_kept(cells, groups, cuts, m);
    let group = groups[g];
    assert(group == cells.subrange(cuts[g].0, cuts[g].1));
    let at = m - cuts[g].0;
    assert(group[at] == cells[m]);
    lemma_chained_sub(cells, low, high, cuts[g].0, cuts[g].1);
    lemma_sources_of_chained(group, low, high);
    assert(shown(group, WrapMode::Source) == group);
    lemma_column_of_cell(group, begins(group[0]), at);
    let line = line_rows(measured[k], width, WrapMode::Source);
    assert(line[g].col_sources == columns(group, begins(group[0])));
    (g, total_width(group.take(at)) as int)
}

/// Every visible grapheme of a source text is shown: the place of its first
/// character on the display stands for that character.
pub proof fn law_every_visible_grapheme_is_shown(
    text: Seq<char>,
    measured: Seq<LineMeasure>,
    width: usize,
    k: int,
    i: int,
)
    requires
        faithful(text, measured),
        text.len() <= usize::MAX,
        0 <= k < measured.len(),
        0 <= i < measured[k].spans[0].glyphs.len(),
        measured[k].spans[0].glyphs[i].width >= 1,
        !crate::text::all_white(measured[k].spans[0].glyphs[i].text),
    ensures
        ({
            let rows = document_rows(measured, width, WrapMode::Source);
            let glyphs = measured[k].spans[0].glyphs;
            let pos = (line_starts(text)[k] + glyph_chars(glyphs.take(i)).len()) as usize;
            match display_of(rows, pos) {
                Some((r, c)) => source_of(rows, r, c) == Some(pos),
                None => false,
            }
        }),
{
    let rows = document_rows(measured, width, WrapMode::Source);
    let w = at_least_one(width);
    let (g, col) = lemma_column_of_visible(text, measured, w, k, i);
    law_source_documents_are_tidy(text, measured, width);
    let r = lemma_rows_of_line(measured, w, WrapMode::Source, k, g);
    assert(rows[r].mapped && rows[r].prefix_width == 0);
    law_shown_characters_map_back(rows, r, col);
}

// ---------------------------------------------------------------------------
// Nothing visible is lost
// ---------------------------------------------------------------------------
/// The visible characters of a text, in order.
pub open spec fn visible(text: Seq<char>) -> Seq<char> {
    text.filter(|c: char| !white_space(c))
}

pub proof fn lemma_visible_add(a: Seq<char>, b: Seq<char>)
    ensures
        visible(a + b) == visible(a) + visible(b),
{
    Seq::filter_distributes_over_add(a, b, |c: char| !white_space(c));
}

pub proof fn lemma_white_is_invisible(text: Seq<char>)
    requires
        crate::text::all_white(text),
    ensures
        visible(text) == Seq::<char>::empty(),
    decreases text.len(),
{
    reveal(Seq::filter);
    if text.len() > 0 {
        let t = text.drop_last();
        assert forall|i: int| 0 <= i < t.len() implies white_space(#[trigger] t[i]) by {
            assert(t[i] == text[i]);
        }
        lemma_white_is_invisible(t);
        assert(white_space(text.last()));
    }
}

pub proof fn lemma_cells_text_add(a: Seq<CellModel>, b: Seq<CellModel>)
    ensures
        cells_text(a + b) == cells_text(a) + cells_text(b),
    decreases b.len(),
{
    if b.len() == 0 {
        assert(a + b == a);
        assert(cells_text(a) + cells_text(b) =~= cells_text(a));
    } else {
        assert((a + b).drop_last() == a + b.drop_last());
        lemma_cells_text_add(a, b.drop_last());
        assert(cells_text(a + b) =~= cells_text(a) + cells_text(b));
    }
}

proof fn lemma_blank_cells_are_invisible(cells: Seq<CellModel>)
    requires
        forall|i: int| 0 <= i < cells.len() ==> blank(#[trigger] cells[i]),
    ensures
        visible(cells_text(cells)) == Seq::<char>::empty(),
    decreases cells.len(),
{
    if cells.len() == 0 {
        lemma_white_is_invisible(cells_text(cells));
    } else {
        let t = cells.drop_last();
        assert forall|i: int| 0 <= i < t.len() implies blank(#[trigger] t[i]) by {
            assert(t[i] == cells[i]);
        }
        lemma_blank_cells_are_invisible(t);
        assert(blank(cells.last())) by {
            assert(blank(cells[cells.len() - 1]));
        }
        lemma_white_is_invisible(cells.last().text);
        lemma_visible_add(cells_text(t), cells.last().text);
        assert(visible(cells_text(cells)) =~= seq![]);
    }
}

/// The text of rows of cells.
pub open spec fn groups_text(groups: Seq<Seq<CellModel>>) -> Seq<char>
    decreases groups.len(),
{
    if groups.len() == 0 {
        seq![]
    } else {
        groups_text(groups.drop_last()) + cells_text(groups.last())
    }
}

proof fn lemma_blank_gap(cells: Seq<CellModel>, from: int, to: int)
    requires
        0 <= from <= to <= cells.len(),
        crate::wrap::blank_between(cells, from, to),
    ensures
        visible(cells_text(cells.take(to))) == visible(cells_text(cells.take(from))),
{
    let gap = cells.subrange(from, to);
    assert forall|i: int| 0 <= i < gap.len() implies blank(#[trigger] gap[i]) by {
        assert(gap[i] == cells[from + i]);
    }
    lemma_blank_cells_are_invisible(gap);
    assert(cells.take(to) == cells.take(from) + gap);
    lemma_cells_text_add(cells.take(from), gap);
    lemma_visible_add(cells_text(cells.take(from)), cells_text(gap));
    assert(visible(cells_text(cells.take(to))) =~= visible(cells_text(cells.take(from))));
}

proof fn lemma_cut_text(
    cells: Seq<CellModel>,
    rows: Seq<Seq<CellModel>>,
    cuts: Seq<(int, int)>,
    n: int,
)
    requires
        cut_at(cells, rows, cuts, cells.len() as int),
        0 <= n <= cuts.len(),
    ensures
        visible(groups_text(rows.take(n))) == visible(
            cells_text(
                cells.take(
                    if n == 0 {
                        0
                    } else {
                        cuts[n - 1].1
                    },
                ),
            ),
        ),
    decreases n,
{
    if n == 0 {
        assert(rows.take(0).len() == 0);
        assert(cells.take(0).len() == 0);
    } else {
        lemma_cut_text(cells, rows, cuts, n - 1);
        let before = if n == 1 {
            0
        } else {
            cuts[n - 2].1
        };
        let (from, to) = cuts[n - 1];
        assert(crate::wrap::gap_is_blank(cells, cuts, n - 1));
        if n > 1 {
            assert(cuts[n - 2].1 <= cuts[n - 1].0);
        }
        lemma_blank_gap(cells, before, from);
        assert(rows[n - 1] == cells.subrange(from, to));
        assert(rows.take(n).drop_last() == rows.take(n - 1));
        lemma_visible_add(groups_text(rows.take(n - 1)), cells_text(rows[n - 1]));
        assert(cells.take(to) == cells.take(from) + cells.subrange(from, to));
        lemma_cells_text_add(cells.take(from), cells.subrange(from, to));
        lemma_visible_add(cells_text(cells.take(from)), cells_text(cells.subrange(from, to)));
    }
}

/// Wrapping loses no visible character and keeps their order.
pub proof fn law_wrapping_keeps_visible_text(
    cells: Seq<CellModel>,
    width: usize,
    mode: WrapMode,
)
    ensures
        visible(groups_text(wrapped(cells, width, mode))) == visible(cells_text(cells)),
{
    let rows = wrapped(cells, width, mode);
    let cuts = law_wrapping_keeps_order(cells, width, mode);
    let n = cuts.len() as int;
    lemma_cut_text(cells, rows, cuts, n);
    assert(rows.take(n) == rows);
    let last = if n == 0 {
        0
    } else {
        cuts[n - 1].1
    };
    lemma_blank_gap(cells, last, cells.len() as int);
    assert(cells.take(cells.len() as int) == cells);
}

/// The text of rows.
pub open spec fn rows_text(rows: Seq<RowModel>) -> Seq<char>
    decreases rows.len(),
{
    if rows.len() == 0 {
        seq![]
    } else {
        rows_text(rows.drop_last()) + spans_text(rows.last().spans)
    }
}

pub proof fn lemma_rows_text_add(a: Seq<RowModel>, b: Seq<RowModel>)
    ensures
        rows_text(a + b) == rows_text(a) + rows_text(b),
    decreases b.len(),
{
    if b.len() == 0 {
        assert(a + b == a);
        assert(rows_text(a) + rows_text(b) =~= rows_text(a));
    } else {
        assert((a + b).drop_last() == a + b.drop_last());
        lemma_rows_text_add(a, b.drop_last());
        assert(rows_text(a + b) =~= rows_text(a) + rows_text(b));
    }
}

pub proof fn lemma_cell_spans_text(cells: Seq<CellModel>)
    ensures
        spans_text(cell_spans(cells)) == cells_text(cells),
    decreases cells.len(),
{
    if cells.len() > 0 {
        lemma_cell_spans_text(cells.drop_last());
        crate::style::lemma_push_span_text(
            cell_spans(cells.drop_last()),
            cells.last().text,
            cells.last().style,
        );
    }
}

proof fn lemma_shown_text(cells: Seq<CellModel>)
    ensures
        visible(cells_text(crate::cells::without_leading_blanks(cells))) == visible(
            cells_text(cells),
        ),
        crate::cells::some_visible(cells) ==> crate::cells::without_leading_blanks(cells).len() > 0,
    decreases cells.len(),
{
    if cells.len() > 0 && blank(cells[0]) {
        let rest = cells.skip(1);
        lemma_shown_text(rest);
        let head = cells.take(1);
        assert(head + rest == cells);
        lemma_cells_text_add(head, rest);
        lemma_visible_add(cells_text(head), cells_text(rest));
        assert forall|i: int| 0 <= i < head.len() implies blank(#[trigger] head[i]) by {
            assert(head[i] == cells[0]);
        }
        lemma_blank_cells_are_invisible(head);
        assert(visible(cells_text(cells)) =~= visible(cells_text(rest)));
        if crate::cells::some_visible(cells) {
            let i = choose|i: int| 0 <= i < cells.len() && !blank(#[trigger] cells[i]);
            assert(rest[i - 1] == cells[i]);
            assert(crate::cells::some_visible(rest));
        }
    }
}

proof fn lemma_row_text(cells: Seq<CellModel>, mode: WrapMode, fallback: Option<usize>)
    requires
        cells.len() > 0,
    ensures
        visible(spans_text(row_of(cells, mode, fallback).spans)) == visible(cells_text(cells)),
{
    let kept = shown(cells, mode);
    lemma_shown_text(cells);
    lemma_cell_spans_text(kept);
}

proof fn lemma_wrapped_text(
    rows: Seq<RowModel>,
    groups: Seq<Seq<CellModel>>,
    mode: WrapMode,
    fallback: Option<usize>,
)
    requires
        rows.len() == groups.len(),
        forall|i: int|
            0 <= i < groups.len() ==> {
                &&& (#[trigger] groups[i]).len() > 0
                &&& rows[i].spans == row_of(groups[i], mode, fallback).spans
            },
    ensures
        visible(rows_text(rows)) == visible(groups_text(groups)),
    decreases rows.len(),
{
    if rows.len() > 0 {
        let n = rows.len() - 1;
        let r = rows.drop_last();
        let g = groups.drop_last();
        assert forall|i: int| 0 <= i < g.len() implies {
            &&& (#[trigger] g[i]).len() > 0
            &&& r[i].spans == row_of(g[i], mode, fallback).spans
        } by {
            assert(g[i] == groups[i]);
            assert(r[i] == rows[i]);
        }
        lemma_wrapped_text(r, g, mode, fallback);
        assert(groups[n].len() > 0);
        lemma_row_text(groups[n], mode, fallback);
        lemma_visible_add(rows_text(r), spans_text(rows.last().spans));
        lemma_visible_add(groups_text(g), cells_text(groups.last()));
    }
}

proof fn lemma_line_text(
    cells: Seq<CellModel>,
    line: Option<(usize, usize)>,
    width: usize,
    mode: WrapMode,
)
    ensures
        visible(rows_text(wrap_rows(cells, line, width, mode))) == visible(cells_text(cells)),
{
    let rows = wrap_rows(cells, line, width, mode);
    if cells.len() == 0 {
        assert(rows.drop_last().len() == 0);
        assert(rows_text(rows.drop_last()) =~= seq![]);
        assert(rows_text(rows) =~= seq![]);
    } else {
        law_rows_fit_the_width(cells, width, mode);
        let groups = wrapped(cells, width, mode);
        lemma_wrapped_text(rows, groups, mode, crate::visual::line_start(line));
        law_wrapping_keeps_visible_text(cells, width, mode);
    }
}

/// The text of measured spans.
pub open spec fn measured_text(spans: Seq<SpanMeasure>) -> Seq<char>
    decreases spans.len(),
{
    if spans.len() == 0 {
        seq![]
    } else {
        measured_text(spans.drop_last()) + glyph_chars(spans.last().glyphs)
    }
}

/// The text of measured lines.
pub open spec fn document_text(measured: Seq<LineMeasure>) -> Seq<char>
    decreases measured.len(),
{
    if measured.len() == 0 {
        seq![]
    } else {
        document_text(measured.drop_last()) + measured_text(measured.last().spans)
    }
}

proof fn lemma_text_of_contents(spans: Seq<RenderedSpan>, measured: Seq<SpanMeasure>)
    requires
        measured.len() == spans.len(),
        forall|i: int|
            0 <= i < spans.len() ==> glyph_chars((#[trigger] measured[i]).glyphs)
                == spans[i].content@,
    ensures
        measured_text(measured) == contents_text(spans),
    decreases spans.len(),
{
    if spans.len() > 0 {
        let shorter = measured.drop_last();
        assert forall|i: int| 0 <= i < shorter.len() implies glyph_chars(
            (#[trigger] shorter[i]).glyphs,
        ) == spans.drop_last()[i].content@ by {
            assert(shorter[i] == measured[i]);
        }
        lemma_text_of_contents(spans.drop_last(), shorter);
        assert(glyph_chars(measured[spans.len() - 1].glyphs) == spans.last().content@);
    }
}

/// The text of measured lines is that of the rendered ones.
pub proof fn lemma_text_of_rendered(rendered: Seq<RenderedLine>)
    requires
        measures_all(rendered),
    ensures
        document_text(lines_measure(rendered)) == rendered_text(rendered),
    decreases rendered.len(),
{
    let measured = lines_measure(rendered);
    if rendered.len() > 0 {
        let n = rendered.len() - 1;
        let above = rendered.drop_last();
        assert forall|k: int| 0 <= k < above.len() implies measures_all_of(
            #[trigger] above[k],
        ) by {
            assert(above[k] == rendered[k]);
        }
        lemma_text_of_rendered(above);
        assert(measured.drop_last() =~= lines_measure(above));
        let line = rendered[n];
        assert(measures_all_of(line));
        let spans = line_measure(line).spans;
        assert forall|i: int| 0 <= i < spans.len() implies glyph_chars(
            (#[trigger] spans[i]).glyphs,
        ) == line.spans@[i].content@ by {
            assert(spans[i] == span_measure(line.spans@[i]));
        }
        lemma_text_of_contents(line.spans@, spans);
    }
}

proof fn lemma_glyph_cells_text(
    glyph: GlyphModel,
    style: Style,
    source: Option<(usize, usize)>,
)
    ensures
        visible(cells_text(glyph_cells(glyph, style, source))) == visible(glyph.text),
{
    let cells = glyph_cells(glyph, style, source);
    if glyph.text == seq!['\t'] {
        assert(crate::text::all_white(glyph.text));
        lemma_white_is_invisible(glyph.text);
        assert forall|i: int| 0 <= i < cells.len() implies blank(#[trigger] cells[i]) by {}
        lemma_blank_cells_are_invisible(cells);
    } else {
        assert(cells.drop_last() =~= seq![]);
        assert(cells_text(cells.drop_last()) =~= seq![]);
        assert(cells_text(cells) =~= glyph.text);
    }
}

proof fn lemma_run_text(glyphs: Seq<GlyphModel>, style: Style, range: Option<(usize, usize)>)
    ensures
        visible(cells_text(run_cells(glyphs, style, range))) == visible(glyph_chars(glyphs)),
    decreases glyphs.len(),
{
    if glyphs.len() == 0 {
        assert(glyph_texts(glyphs).len() == 0);
    } else {
        let shorter = glyphs.drop_last();
        lemma_run_text(shorter, style, range);
        let source = clip_range(range, glyph_chars(shorter).len(), glyph_chars(glyphs).len());
        lemma_glyph_cells_text(glyphs.last(), style, source);
        let head = run_cells(shorter, style, range);
        let tail = glyph_cells(glyphs.last(), style, source);
        lemma_cells_text_add(head, tail);
        lemma_visible_add(cells_text(head), cells_text(tail));
        assert(glyphs.take(glyphs.len() as int) == glyphs);
        assert(glyphs.take(glyphs.len() - 1) == shorter);
        lemma_glyph_chars_push(glyphs, glyphs.len() - 1);
        lemma_visible_add(glyph_chars(shorter), glyphs.last().text);
    }
}

proof fn lemma_span_cells_text(spans: Seq<SpanMeasure>)
    ensures
        visible(cells_text(span_cells(spans))) == visible(measured_text(spans)),
    decreases spans.len(),
{
    if spans.len() > 0 {
        lemma_span_cells_text(spans.drop_last());
        let last = spans.last();
        lemma_run_text(last.glyphs, last.style, last.source);
        let head = span_cells(spans.drop_last());
        let tail = run_cells(last.glyphs, last.style, last.source);
        lemma_cells_text_add(head, tail);
        lemma_visible_add(cells_text(head), cells_text(tail));
        lemma_visible_add(measured_text(spans.drop_last()), glyph_chars(last.glyphs));
    }
}

proof fn lemma_line_cells_text(line: LineMeasure)
    ensures
        visible(cells_text(line_cells(line))) == visible(measured_text(line.spans)),
{
    let cells = span_cells(line.spans);
    let tail = tail_cells(cells, line.source);
    lemma_span_cells_text(line.spans);
    assert forall|i: int| 0 <= i < tail.len() implies blank(#[trigger] tail[i]) by {}
    lemma_blank_cells_are_invisible(tail);
    lemma_cells_text_add(cells, tail);
    lemma_visible_add(cells_text(cells), cells_text(tail));
    assert(visible(cells_text(line_cells(line))) =~= visible(cells_text(cells)));
}

proof fn lemma_all_rows_text(measured: Seq<LineMeasure>, width: usize, mode: WrapMode)
    ensures
        visible(rows_text(all_rows(measured, width, mode))) == visible(document_text(measured)),
    decreases measured.len(),
{
    if measured.len() > 0 {
        let above = measured.drop_last();
        let line = measured.last();
        lemma_all_rows_text(above, width, mode);
        lemma_line_cells_text(line);
        lemma_line_text(line_cells(line), line.source, width, mode);
        let a = all_rows(above, width, mode);
        let b = line_rows(line, width, mode);
        lemma_rows_text_add(a, b);
        lemma_visible_add(rows_text(a), rows_text(b));
        lemma_visible_add(document_text(above), measured_text(line.spans));
    }
}

/// A document shows every visible character of its lines, in order, and no
/// others, whatever the width.
pub proof fn law_documents_keep_visible_text(
    measured: Seq<LineMeasure>,
    width: usize,
    mode: WrapMode,
)
    ensures
        visible(rows_text(document_rows(measured, width, mode))) == visible(
            document_text(measured),
        ),
{
    lemma_all_rows_text(measured, at_least_one(width), mode);
    let rows = document_rows(measured, width, mode);
    if all_rows(measured, at_least_one(width), mode).len() == 0 {
        assert(rows.drop_last().len() == 0);
        assert(rows_text(rows.drop_last()) =~= seq![]);
        assert(rows_text(rows) =~= seq![]);
    }
}

proof fn lemma_source_line_text(text: Seq<char>, measured: Seq<LineMeasure>, n: int)
    requires
        faithful(text, measured),
        0 <= n < measured.len(),
    ensures
        visible(document_text(measured.take(n + 1))) == visible(
            text.take(line_starts(text)[n] + lines(text)[n].len()),
        ),
    decreases n,
{
    lemma_lines(text);
    let line = lines(text)[n];
    let from = line_starts(text)[n];
    let content = without_returns(line);
    lemma_without_returns(line);
    assert(measured.take(n + 1).drop_last() == measured.take(n));
    assert(measured.take(n + 1).last() == measured[n]);
    let spans = measured[n].spans;
    assert(spans.drop_last() =~= seq![]);
    assert(measured_text(spans.drop_last()) =~= seq![]);
    assert(measured_text(spans) =~= content);
    lemma_visible_add(document_text(measured.take(n)), content);
    let rest = line.skip(content.len() as int);
    assert(crate::text::all_white(rest)) by {
        assert forall|i: int| 0 <= i < rest.len() implies white_space(#[trigger] rest[i]) by {
            assert(rest[i] == line[content.len() + i]);
        }
    }
    lemma_white_is_invisible(rest);
    assert(line =~= content + rest);
    lemma_visible_add(content, rest);
    assert(visible(line) =~= visible(content));
    assert(text.take(from + line.len()) =~= text.take(from) + line);
    lemma_visible_add(text.take(from), line);
    if n == 0 {
        assert(measured.take(0).len() == 0);
        assert(text.take(0) =~= seq![]);
        assert(document_text(measured.take(0)) =~= text.take(0));
    } else {
        lemma_source_line_text(text, measured, n - 1);
        crate::text::lemma_next_line(text, n);
        let newline = seq!['\n'];
        assert(text.take(from) =~= text.take(from - 1) + newline);
        lemma_visible_add(text.take(from - 1), newline);
        assert(crate::text::all_white(newline));
        lemma_white_is_invisible(newline);
        assert(visible(text.take(from)) =~= visible(text.take(from - 1)));
    }
}

/// A document of source text shows exactly the visible characters of the
/// text, in order.
pub proof fn law_source_documents_keep_visible_text(
    text: Seq<char>,
    measured: Seq<LineMeasure>,
    width: usize,
)
    requires
        faithful(text, measured),
    ensures
        visible(rows_text(document_rows(measured, width, WrapMode::Source))) == visible(text),
{
    law_documents_keep_visible_text(measured, width, WrapMode::Source);
    lemma_lines(text);
    let n = measured.len() - 1;
    lemma_source_line_text(text, measured, n);
    assert(measured.take(n + 1) == measured);
    assert(text.take(text.len() as int) == text);
}

// ---------------------------------------------------------------------------
// Widths
// ---------------------------------------------------------------------------
proof fn lemma_shown_width(cells: Seq<CellModel>)
    ensures
        total_width(crate::cells::without_leading_blanks(cells)) <= total_width(cells),
    decreases cells.len(),
{
    if cells.len() > 0 && blank(cells[0]) {
        lemma_shown_width(cells.skip(1));
        crate::wrap::lemma_total_width_parts(cells, 1, cells.len() as int);
        assert(cells.skip(1) == cells.subrange(1, cells.len() as int));
    }
}

proof fn lemma_wrapped_row_width(
    cells: Seq<CellModel>,
    line: Option<(usize, usize)>,
    width: usize,
    mode: WrapMode,
    i: int,
)
    requires
        forall|m: int| 0 <= m < cells.len() ==> (#[trigger] cells[m]).width <= width,
        0 <= i < wrap_rows(cells, line, width, mode).len(),
    ensures
        wrap_rows(cells, line, width, mode)[i].col_sources.len() <= width,
{
    if cells.len() > 0 {
        let groups = wrapped(cells, width, mode);
        law_rows_fit_the_width(cells, width, mode);
        let cuts = law_wrapping_keeps_order(cells, width, mode);
        let group = groups[i];
        if group.len() == 1 {
            assert(group == cells.subrange(cuts[i].0, cuts[i].1));
            assert(group[0] == cells[cuts[i].0]);
            assert(group.drop_last() =~= seq![]);
            assert(total_width(group.drop_last()) == 0);
            assert(total_width(group) <= width);
        }
        lemma_shown_width(group);
        let kept = shown(group, mode);
        let row = row_of(group, mode, crate::visual::line_start(line));
        if kept.len() > 0 {
            lemma_columns_len(kept, row.source_start);
        }
    }
}

/// No row of a document is wider than the width, if no single cell is.
pub proof fn law_rows_fit_the_surface(
    measured: Seq<LineMeasure>,
    width: usize,
    mode: WrapMode,
    r: int,
)
    requires
        forall|k: int, m: int|
            0 <= k < measured.len() && 0 <= m < line_cells(measured[k]).len() ==> (
            #[trigger] line_cells(measured[k])[m]).width <= width,
        0 <= r < document_rows(measured, width, mode).len(),
    ensures
        document_rows(measured, width, mode)[r].col_sources.len() <= at_least_one(width),
{
    if all_rows(measured, at_least_one(width), mode).len() > 0 {
        lemma_all_rows_width(measured, at_least_one(width), mode, r);
    }
}

proof fn lemma_all_rows_width(
    measured: Seq<LineMeasure>,
    width: usize,
    mode: WrapMode,
    r: int,
)
    requires
        forall|k: int, m: int|
            0 <= k < measured.len() && 0 <= m < line_cells(measured[k]).len() ==> (
            #[trigger] line_cells(measured[k])[m]).width <= width,
        0 <= r < all_rows(measured, width, mode).len(),
    ensures
        all_rows(measured, width, mode)[r].col_sources.len() <= width,
    decreases measured.len(),
{
    let above = measured.drop_last();
    let n = measured.len() - 1;
    let a = all_rows(above, width, mode);
    if r < a.len() {
        assert forall|k: int, m: int|
            0 <= k < above.len() && 0 <= m < line_cells(above[k]).len() implies (
        #[trigger] line_cells(above[k])[m]).width <= width by {
            assert(above[k] == measured[k]);
            assert(line_cells(measured[k])[m].width <= width);
        }
        lemma_all_rows_width(above, width, mode, r);
    } else {
        let line = measured[n];
        assert forall|m: int| 0 <= m < line_cells(line).len() implies (
        #[trigger] line_cells(line)[m]).width <= width by {
            assert(line_cells(measured[n])[m].width <= width);
        }
        lemma_wrapped_row_width(line_cells(line), line.source, width, mode, r - a.len());
    }
}

// ---------------------------------------------------------------------------
// Indents
// ---------------------------------------------------------------------------
/// A document has no indents before it is given them.
pub proof fn law_documents_have_no_indent_at_first(
    measured: Seq<LineMeasure>,
    width: usize,
    mode: WrapMode,
)
    ensures
        forall|i: int|
            0 <= i < document_rows(measured, width, mode).len() ==> (#[trigger] document_rows(
                measured,
                width,
                mode,
            )[i]).prefix_width == 0,
{
    lemma_no_indent(measured, at_least_one(width), mode);
}

proof fn lemma_no_indent(measured: Seq<LineMeasure>, width: usize, mode: WrapMode)
    ensures
        forall|i: int|
            0 <= i < all_rows(measured, width, mode).len() ==> (#[trigger] all_rows(
                measured,
                width,
                mode,
            )[i]).prefix_width == 0,
    decreases measured.len(),
{
    if measured.len() > 0 {
        let above = all_rows(measured.drop_last(), width, mode);
        let below = line_rows(measured.last(), width, mode);
        lemma_no_indent(measured.drop_last(), width, mode);
        assert forall|i: int| 0 <= i < all_rows(measured, width, mode).len() implies (
        #[trigger] all_rows(measured, width, mode)[i]).prefix_width == 0 by {
            if i < above.len() {
                assert(all_rows(measured, width, mode)[i] == above[i]);
            } else {
                assert(all_rows(measured, width, mode)[i] == below[i - above.len()]);
            }
        }
    }
}

proof fn lemma_first_at_least_shift(
    front: Seq<usize>,
    cols: Seq<usize>,
    from: int,
    pos: usize,
)
    requires
        0 <= from <= cols.len(),
    ensures
        first_at_least(front + cols, front.len() + from, pos) == front.len() + first_at_least(
            cols,
            from,
            pos,
        ),
    decreases cols.len() - from,
{
    if from < cols.len() && cols[from] < pos {
        lemma_first_at_least_shift(front, cols, from + 1, pos);
    }
}

proof fn lemma_run_start_shift(front: Seq<usize>, cols: Seq<usize>, low: int, col: int)
    requires
        0 <= low <= col < cols.len(),
    ensures
        run_start(front + cols, front.len() + low, front.len() + col) == front.len() + run_start(
            cols,
            low,
            col,
        ),
    decreases col - low,
{
    if col > low && cols[col - 1] == cols[col] {
        lemma_run_start_shift(front, cols, low, col - 1);
    }
}

/// An indent moves the text of a row, and the cursor with it, and nothing
/// else: every column behind it stands for what it stood for, the columns of
/// the indent stand for the start of the line, and the cursor never stands on
/// them.
pub proof fn law_indent_moves_the_text(row: RowModel, line_start: usize, pos: usize, col: int)
    requires
        row.wf(),
        row.mapped,
        row.col_sources.len() + crate::indent::INDENT_WIDTH <= usize::MAX,
        0 <= col < row.col_sources.len(),
    ensures
        ({
            let moved = crate::indent::with_indent(row, line_start);
            let by = crate::indent::INDENT_WIDTH as int;
            &&& moved.wf()
            &&& col_of(moved, pos) == col_of(row, pos) + by
            &&& crate::visual::source_at(moved, col + by) == crate::visual::source_at(row, col)
            &&& forall|i: int|
                0 <= i < by ==> #[trigger] crate::visual::source_at(moved, i) == Some(line_start)
            &&& moved.col_sources.len() == row.col_sources.len() + by
            &&& visible(spans_text(moved.spans)) == visible(spans_text(row.spans))
        }),
{
    let moved = crate::indent::with_indent(row, line_start);
    let by = crate::indent::INDENT_WIDTH as int;
    let front = Seq::new(by as nat, |i: int| line_start);
    let cols = row.col_sources;
    let low = row.prefix_width as int;
    assert(moved.col_sources == front + cols);
    lemma_first_at_least(cols, low, pos);
    lemma_first_at_least_shift(front, cols, low, pos);
    let stop = first_at_least(cols, low, pos);
    if low < cols.len() && stop > low {
        lemma_run_start_shift(front, cols, low, stop - 1);
    }
    lemma_front_span_text(moved.spans[0], row.spans);
    let prefix = crate::text::repeated(' ', by as nat);
    assert(crate::text::all_white(prefix));
    lemma_white_is_invisible(prefix);
    lemma_visible_add(prefix, spans_text(row.spans));
    assert(visible(spans_text(moved.spans)) =~= visible(spans_text(row.spans)));
}

proof fn lemma_front_span_text(span: SpanModel, spans: Seq<SpanModel>)
    ensures
        spans_text(seq![span] + spans) == span.content + spans_text(spans),
    decreases spans.len(),
{
    let all = seq![span] + spans;
    if spans.len() == 0 {
        assert(all.drop_last() =~= seq![]);
        assert(spans_text(all.drop_last()) =~= seq![]);
        assert(spans_text(all) =~= span.content + spans_text(spans));
    } else {
        lemma_front_span_text(span, spans.drop_last());
        assert(all.drop_last() =~= seq![span] + spans.drop_last());
        assert(spans_text(all) =~= span.content + spans_text(spans));
    }
}

/// Only the first row of a line can be indented: a row that continues the line
/// of the row above it stays as it is, and so do code, structure and blank
/// rows.
pub proof fn law_only_paragraph_starts_are_indented(
    text: Seq<char>,
    rows: Seq<RowModel>,
    i: int,
)
    requires
        0 <= i < rows.len(),
    ensures
        crate::indent::indented(text, rows).len() == rows.len(),
        ({
            let no = crate::indent::row_line_no(text, rows[i]);
            &&& no is None ==> crate::indent::indented(text, rows)[i] == rows[i]
            &&& i > 0 && crate::indent::row_line_no(text, rows[i - 1]) == no
                ==> crate::indent::indented(text, rows)[i] == rows[i]
            &&& no is Some && !crate::indent::prose_line(text, no->0)
                ==> crate::indent::indented(text, rows)[i] == rows[i]
        }),
{
}

/// Rows with indents fit the surface when the document was wrapped to two
/// columns less, and no single cell is wider than that.
pub proof fn law_indented_rows_fit_the_surface(
    text: Seq<char>,
    measured: Seq<LineMeasure>,
    width: usize,
    r: int,
)
    requires
        width > crate::indent::INDENT_WIDTH,
        forall|k: int, m: int|
            0 <= k < measured.len() && 0 <= m < line_cells(measured[k]).len() ==> (
            #[trigger] line_cells(measured[k])[m]).width <= width - crate::indent::INDENT_WIDTH,
        0 <= r < document_rows(
            measured,
            (width - crate::indent::INDENT_WIDTH) as usize,
            WrapMode::Rendered,
        ).len(),
    ensures
        crate::indent::indented(
            text,
            document_rows(
                measured,
                (width - crate::indent::INDENT_WIDTH) as usize,
                WrapMode::Rendered,
            ),
        )[r].col_sources.len() <= width,
{
    law_rows_fit_the_surface(
        measured,
        (width - crate::indent::INDENT_WIDTH) as usize,
        WrapMode::Rendered,
        r,
    );
}

/// Indents keep the rows of a document in order, if no row above an indented
/// one reaches into its line.
pub proof fn law_indents_keep_order(text: Seq<char>, rows: Seq<RowModel>)
    requires
        tidy(rows),
        forall|i: int|
            0 <= i < rows.len() ==> (#[trigger] rows[i]).col_sources.len()
                + crate::indent::INDENT_WIDTH <= usize::MAX,
        forall|i: int, j: int|
            0 <= i < j < rows.len() && (#[trigger] rows[i]).mapped && #[trigger]
                crate::indent::gets_indent(text, rows, j) ==> rows[i].source_end
                <= line_starts(text)[crate::indent::line_at(text, rows[j].source_start as int)],
    ensures
        tidy(crate::indent::indented(text, rows)),
{
    let after = crate::indent::indented(text, rows);
    let by = crate::indent::INDENT_WIDTH as int;
    assert forall|i: int| 0 <= i < rows.len() && (#[trigger] after[i]).mapped implies ordered_row(
        after[i],
    ) by {
        assert(ordered_row(rows[i]));
        if crate::indent::gets_indent(text, rows, i) {
            crate::indent::lemma_line_at(text, rows[i].source_start as int);
            let row = rows[i];
            let moved = after[i];
            assert forall|k: int| by <= k < moved.col_sources.len() implies
                #[trigger] moved.col_sources[k] == row.col_sources[k - by] by {}
            assert forall|k: int, m: int|
                moved.prefix_width <= k <= m < moved.col_sources.len() implies
                #[trigger] moved.col_sources[k] <= #[trigger] moved.col_sources[m] by {
                assert(row.col_sources[k - by] <= row.col_sources[m - by]);
            }
            assert forall|k: int| moved.prefix_width <= k < moved.col_sources.len() implies
                moved.source_start <= #[trigger] moved.col_sources[k] < moved.source_end by {
                assert(row.source_start <= row.col_sources[k - by] < row.source_end);
            }
        }
    }
    assert forall|i: int, j: int|
        0 <= i < j < rows.len() && (#[trigger] after[i]).mapped && (
        #[trigger] after[j]).mapped implies follows(after[i], after[j]) by {
        assert(rows[i].mapped && rows[j].mapped);
        assert(ordered_row(rows[i]));
        assert(follows(rows[i], rows[j]));
        if crate::indent::gets_indent(text, rows, j) {
            crate::indent::lemma_line_at(text, rows[j].source_start as int);
            assert(rows[i].source_end <= line_starts(text)[crate::indent::line_at(
                text,
                rows[j].source_start as int,
            )]);
        } else if rows[i].source_end > rows[j].source_start {
            let n = rows[i].col_sources.len() - 1;
            assert(after[i].col_sources.last() == rows[i].col_sources[n]) by {
                if crate::indent::gets_indent(text, rows, i) {
                    assert(after[i].col_sources[n + by] == rows[i].col_sources[n]);
                }
            }
        }
    }
}

// ---------------------------------------------------------------------------
// ASCII text
// ---------------------------------------------------------------------------
/// The columns that an ASCII character takes.
pub open spec fn ascii_width(c: char) -> nat {
    if c == '\t' {
        TAB_WIDTH as nat
    } else {
        1
    }
}

/// What the columns of an ASCII line stand for that starts at `start`: a
/// character has one column, and a tab three.
pub open spec fn ascii_columns(content: Seq<char>, start: usize) -> Seq<usize>
    decreases content.len(),
{
    if content.len() == 0 {
        seq![]
    } else {
        ascii_columns(content.drop_last(), start) + Seq::new(
            ascii_width(content.last()),
            |i: int| (start + content.len() - 1) as usize,
        )
    }
}

/// ASCII text as it is shown: a tab is as many blanks as it has columns.
pub open spec fn ascii_shown(content: Seq<char>) -> Seq<char>
    decreases content.len(),
{
    if content.len() == 0 {
        seq![]
    } else {
        ascii_shown(content.drop_last()) + (if content.last() == '\t' {
            repeated(' ', TAB_WIDTH as nat)
        } else {
            seq![content.last()]
        })
    }
}

pub proof fn lemma_columns_add(a: Seq<CellModel>, b: Seq<CellModel>, default: usize)
    ensures
        columns(a + b, default) == columns(a, default) + columns(b, default),
    decreases b.len(),
{
    if b.len() == 0 {
        assert(a + b =~= a);
        assert(columns(a, default) + columns(b, default) =~= columns(a, default));
    } else {
        assert((a + b).drop_last() =~= a + b.drop_last());
        lemma_columns_add(a, b.drop_last(), default);
        assert(columns(a + b, default) =~= columns(a, default) + columns(b, default));
    }
}

/// The cells of ASCII text: their columns, their text and their style.
proof fn lemma_ascii_cells(
    content: Seq<char>,
    style: Style,
    start: usize,
    end: usize,
    default: usize,
)
    requires
        start + content.len() <= end,
    ensures
        ({
            let cells = run_cells(ascii_glyphs(content), style, Some((start, end)));
            &&& columns(cells, default) == ascii_columns(content, start)
            &&& cells_text(cells) == ascii_shown(content)
            &&& forall|i: int| 0 <= i < cells.len() ==> (#[trigger] cells[i]).style == style
        }),
    decreases content.len(),
{
    let glyphs = ascii_glyphs(content);
    if content.len() > 0 {
        let n = content.len() as int;
        let shorter = content.drop_last();
        let c = content.last();
        lemma_ascii_cells(shorter, style, start, end, default);
        assert(glyphs.drop_last() =~= ascii_glyphs(shorter));
        lemma_ascii_chars(content, n);
        lemma_ascii_chars(content, n - 1);
        assert(content.take(n) =~= content);
        assert(content.take(n - 1) =~= shorter);
        let source = clip_range(Some((start, end)), shorter.len(), content.len());
        let head = run_cells(ascii_glyphs(shorter), style, Some((start, end)));
        let tail = glyph_cells(glyphs.last(), style, source);
        lemma_columns_add(head, tail, default);
        lemma_cells_text_add(head, tail);
        reveal_with_fuel(columns, 4);
        reveal_with_fuel(cells_text, 4);
        assert(seq![c][0] == c && seq!['\t'][0] == '\t');
        if c == '\t' {
            assert(glyphs.last().text =~= seq!['\t']);
        }
        assert(columns(tail, default) =~= Seq::new(
            ascii_width(c),
            |i: int| (start + content.len() - 1) as usize,
        ));
        assert(cells_text(tail) =~= (if c == '\t' {
            repeated(' ', TAB_WIDTH as nat)
        } else {
            seq![c]
        }));
    }
}

proof fn lemma_spans_of_one_style(cells: Seq<CellModel>, style: Style)
    requires
        cells.len() > 0,
        forall|i: int| 0 <= i < cells.len() ==> (#[trigger] cells[i]).style == style,
    ensures
        cell_spans(cells) == seq![SpanModel { content: cells_text(cells), style }],
    decreases cells.len(),
{
    let shorter = cells.drop_last();
    assert(cells[cells.len() - 1].style == style);
    if shorter.len() > 0 {
        assert forall|i: int| 0 <= i < shorter.len() implies (#[trigger] shorter[i]).style
            == style by {
            assert(shorter[i] == cells[i]);
        }
        lemma_spans_of_one_style(shorter, style);
        assert(cell_spans(cells) =~= seq![SpanModel { content: cells_text(cells), style }]);
    } else {
        assert(cell_spans(shorter) =~= seq![]);
        assert(cells_text(shorter) =~= seq![]);
        assert(cells_text(cells) =~= cells.last().text);
        assert(cell_spans(cells) =~= seq![SpanModel { content: cells_text(cells), style }]);
    }
}

proof fn lemma_short_line_stays_whole(cells: Seq<CellModel>, width: usize, mode: WrapMode)
    requires
        total_width(cells) <= width,
    ensures
        wrapping(cells, width, mode).done == Seq::<Seq<CellModel>>::empty(),
        wrapping(cells, width, mode).current == cells,
    decreases cells.len(),
{
    if cells.len() > 0 {
        lemma_short_line_stays_whole(cells.drop_last(), width, mode);
        assert(cells.drop_last().push(cells.last()) =~= cells);
    }
}

/// A line of ASCII text that is not wider than the display is one row of the
/// source view. It shows the line with its tabs as blanks, and its columns
/// stand for the characters of the line, one after the other: one column for a
/// character, three for a tab.
pub proof fn law_short_ascii_lines_are_one_row(
    text: Seq<char>,
    style: Style,
    k: int,
    width: usize,
)
    requires
        text.len() <= usize::MAX,
        0 <= k < lines(text).len(),
        without_returns(lines(text)[k]).len() > 0,
        ascii_columns(
            without_returns(lines(text)[k]),
            line_starts(text)[k] as usize,
        ).len() <= width,
    ensures
        ({
            let content = without_returns(lines(text)[k]);
            let start = line_starts(text)[k];
            line_rows(ascii_line(text, style, k), width, WrapMode::Source) == seq![
                RowModel {
                    spans: seq![SpanModel { content: ascii_shown(content), style }],
                    col_sources: ascii_columns(content, start as usize),
                    source_start: start as usize,
                    source_end: (start + content.len()) as usize,
                    mapped: true,
                    prefix_width: 0,
                },
            ]
        }),
{
    let content = without_returns(lines(text)[k]);
    lemma_lines(text);
    lemma_without_returns(lines(text)[k]);
    let low = line_starts(text)[k] as usize;
    let high = (low + content.len()) as usize;
    let line = ascii_line(text, style, k);
    let glyphs = ascii_glyphs(content);
    let cells = run_cells(glyphs, style, Some((low, high)));
    assert(glyphs_wf(glyphs)) by {
        assert forall|i: int| 0 <= i < glyphs.len() implies {
            &&& (#[trigger] glyphs[i]).text.len() > 0
            &&& glyphs[i].text.contains('\t') ==> glyphs[i].text == seq!['\t']
        } by {
            if glyphs[i].text.contains('\t') {
                assert(glyphs[i].text =~= seq!['\t']);
            }
        }
    }
    lemma_ascii_chars(content, content.len() as int);
    assert(content.take(content.len() as int) =~= content);
    lemma_run_chained(glyphs, style, low, high);
    lemma_sources_of_chained(cells, low as int, high as int);
    lemma_ascii_cells(content, style, low, high, low);
    lemma_columns_len(cells, low);
    lemma_spans_of_one_style(cells, style);
    lemma_short_line_stays_whole(cells, width, WrapMode::Source);
    assert(line.spans.drop_last() =~= seq![]);
    assert(span_cells(line.spans.drop_last()) =~= seq![]);
    assert(span_cells(line.spans) =~= cells);
    assert(tail_cells(cells, line.source) =~= seq![]);
    assert(line_cells(line) =~= cells);
    assert(wrapped(cells, width, WrapMode::Source) =~= seq![cells]);
    let rows = line_rows(line, width, WrapMode::Source);
    assert(rows.len() == 1);
    assert(shown(cells, WrapMode::Source) == cells);
    assert(rows =~= seq![rows[0]]);
}

} // verus!
