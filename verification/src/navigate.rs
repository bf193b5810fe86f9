//! Moving the cursor over a visual document.

use crate::text::{group_views, views};
use crate::visual::{
    display_of, is_word_at_col, last_mapped, measure_spans, source_of, styled_glyphs, word_at,
    RowModel, StyledGlyph, StyledModel, VisualDocument,
};
use vstd::prelude::*;

verus! {

broadcast use group_views;

// ---------------------------------------------------------------------------
// Rows that stand for source text
// ---------------------------------------------------------------------------
/// The first row from `from` on that stands for source text, or the number of
/// rows.
pub open spec fn first_mapped(rows: Seq<RowModel>, from: int) -> int
    decreases rows.len() - from,
{
    if from >= rows.len() {
        rows.len() as int
    } else if rows[from].mapped {
        from
    } else {
        first_mapped(rows, from + 1)
    }
}

/// The smaller of two numbers.
pub open spec fn smaller(a: int, b: int) -> int {
    if a < b {
        a
    } else {
        b
    }
}

/// The source character at column `col` of the first mapped row from `start`
/// on.
pub open spec fn mapped_below(rows: Seq<RowModel>, start: int, col: int) -> Option<usize> {
    source_of(rows, first_mapped(rows, start), col)
}

/// The source character at column `col` of the last mapped row up to `start`.
pub open spec fn mapped_above(rows: Seq<RowModel>, start: int, col: int) -> Option<usize> {
    source_of(rows, last_mapped(rows, smaller(start + 1, rows.len() as int)), col)
}

/// The source character near a row: in it, else in the nearest mapped row in
/// the direction of `delta`; at a border that stopped the movement, also in the
/// other direction.
pub open spec fn mapped_near(
    rows: Seq<RowModel>,
    row: int,
    col: int,
    delta: int,
    stopped: bool,
) -> Option<usize> {
    let here = source_of(rows, row, col);
    let above = mapped_above(rows, row, col);
    let below = mapped_below(rows, row, col);
    if here is Some || delta == 0 {
        here
    } else if delta < 0 {
        if above is Some || !stopped {
            above
        } else {
            below
        }
    } else {
        if below is Some || !stopped {
            below
        } else {
            above
        }
    }
}

fn find_first_mapped(visual: &VisualDocument, from: usize) -> (row: usize)
    ensures
        from <= visual@.len() ==> row == first_mapped(visual@, from as int),
        from > visual@.len() ==> row >= visual@.len(),
{
    let mut row: usize = from;
    while row < visual.rows.len() && !visual.rows[row].mapped
        invariant
            from <= row,
            from <= visual@.len() ==> row <= visual@.len(),
            from <= visual@.len() ==> first_mapped(visual@, from as int) == first_mapped(
                visual@,
                row as int,
            ),
        decreases visual@.len() - row,
    {
        proof {
            assert(visual@[row as int] == visual.rows@[row as int]@);
        }
        row = row + 1;
    }
    proof {
        if row < visual@.len() {
            assert(visual@[row as int] == visual.rows@[row as int]@);
        }
    }
    row
}

fn find_last_mapped(visual: &VisualDocument, n: usize) -> (row: Option<usize>)
    requires
        n <= visual@.len(),
    ensures
        match row {
            Some(r) => r == last_mapped(visual@, n as int) && r < n,
            None => last_mapped(visual@, n as int) == -1,
        },
{
    let mut k: usize = n;
    while k > 0
        invariant
            k <= n <= visual@.len(),
            last_mapped(visual@, n as int) == last_mapped(visual@, k as int),
        decreases k,
    {
        proof {
            assert(visual@[k - 1] == visual.rows@[k - 1]@);
        }
        if visual.rows[k - 1].mapped {
            return Some(k - 1);
        }
        k = k - 1;
    }
    None
}

/// The source character in the first mapped row from `start_row` on.
pub fn search_mapped_rows_forward(
    visual: &VisualDocument,
    start_row: usize,
    target_col: usize,
) -> (source: Option<usize>)
    ensures
        source == mapped_below(visual@, start_row as int, target_col as int),
{
    let row: usize = find_first_mapped(visual, start_row);
    proof {
        if start_row > visual@.len() {
            assert(first_mapped(visual@, start_row as int) == visual@.len());
        }
    }
    visual.display_to_source(row, target_col)
}

/// The source character in the last mapped row up to `start_row`.
pub fn search_mapped_rows_backward(
    visual: &VisualDocument,
    start_row: usize,
    target_col: usize,
) -> (source: Option<usize>)
    ensures
        source == mapped_above(visual@, start_row as int, target_col as int),
{
    let n: usize = if start_row < visual.rows.len() {
        start_row + 1
    } else {
        visual.rows.len()
    };
    match find_last_mapped(visual, n) {
        Some(row) => visual.display_to_source(row, target_col),
        None => None,
    }
}

/// The source character near a row, for a movement by `delta` rows.
pub fn mapped_char_near_visual_row(
    visual: &VisualDocument,
    target_row: usize,
    target_col: usize,
    delta: isize,
    clamped_to_boundary: bool,
) -> (source: Option<usize>)
    ensures
        source == mapped_near(
            visual@,
            target_row as int,
            target_col as int,
            delta as int,
            clamped_to_boundary,
        ),
{
    let here = visual.display_to_source(target_row, target_col);
    if here.is_some() || delta == 0 {
        return here;
    }
    if delta < 0 {
        let above = search_mapped_rows_backward(visual, target_row, target_col);
        if above.is_some() || !clamped_to_boundary {
            above
        } else {
            search_mapped_rows_forward(visual, target_row, target_col)
        }
    } else {
        let below = search_mapped_rows_forward(visual, target_row, target_col);
        if below.is_some() || !clamped_to_boundary {
            below
        } else {
            search_mapped_rows_backward(visual, target_row, target_col)
        }
    }
}

// ---------------------------------------------------------------------------
// Cells in reading order
// ---------------------------------------------------------------------------
/// The columns of a row.
pub open spec fn width_of(rows: Seq<RowModel>, row: int) -> int {
    rows[row].col_sources.len() as int
}

/// The position behind a position. Every row has one position more than it has
/// columns.
pub open spec fn next_cell(rows: Seq<RowModel>, row: int, col: int) -> Option<(int, int)> {
    if row >= rows.len() {
        None
    } else if col < width_of(rows, row) {
        Some((row, col + 1))
    } else if first_mapped(rows, row + 1) < rows.len() {
        Some((first_mapped(rows, row + 1), 0int))
    } else {
        None
    }
}

/// The position before a position.
pub open spec fn previous_cell(rows: Seq<RowModel>, row: int, col: int) -> Option<(int, int)> {
    let above = last_mapped(rows, smaller(row, rows.len() as int));
    if col > 0 {
        Some((row, col - 1))
    } else if above >= 0 {
        Some((above, width_of(rows, above)))
    } else {
        None
    }
}

pub proof fn lemma_first_mapped(rows: Seq<RowModel>, from: int)
    requires
        0 <= from <= rows.len(),
    ensures
        from <= first_mapped(rows, from) <= rows.len(),
        first_mapped(rows, from) < rows.len() ==> rows[first_mapped(rows, from)].mapped,
    decreases rows.len() - from,
{
    if from < rows.len() && !rows[from].mapped {
        lemma_first_mapped(rows, from + 1);
    }
}

pub proof fn lemma_last_mapped(rows: Seq<RowModel>, n: int)
    requires
        0 <= n <= rows.len(),
    ensures
        -1 <= last_mapped(rows, n) < n,
        last_mapped(rows, n) >= 0 ==> rows[last_mapped(rows, n)].mapped,
    decreases n,
{
    if n > 0 && !rows[n - 1].mapped {
        lemma_last_mapped(rows, n - 1);
    }
}

/// The position behind a position.
pub fn next_visual_cell(visual: &VisualDocument, row: usize, col: usize) -> (next: Option<
    (usize, usize),
>)
    ensures
        match next {
            Some((r, c)) => next_cell(visual@, row as int, col as int) == Some(
                (r as int, c as int),
            ),
            None => next_cell(visual@, row as int, col as int) is None,
        },
{
    if row >= visual.rows.len() {
        return None;
    }
    if col < visual.rows[row].width() {
        return Some((row, col + 1));
    }
    let below: usize = find_first_mapped(visual, row + 1);
    if below < visual.rows.len() {
        Some((below, 0))
    } else {
        None
    }
}

/// The position before a position.
pub fn previous_visual_cell(visual: &VisualDocument, row: usize, col: usize) -> (previous: Option<
    (usize, usize),
>)
    ensures
        match previous {
            Some((r, c)) => previous_cell(visual@, row as int, col as int) == Some(
                (r as int, c as int),
            ),
            None => previous_cell(visual@, row as int, col as int) is None,
        },
{
    if col > 0 {
        return Some((row, col - 1));
    }
    let n: usize = if row < visual.rows.len() {
        row
    } else {
        visual.rows.len()
    };
    match find_last_mapped(visual, n) {
        Some(above) => Some((above, visual.rows[above].width())),
        None => None,
    }
}

// ---------------------------------------------------------------------------
// Words
// ---------------------------------------------------------------------------
/// There is a word at a position, for the graphemes of each row.
pub open spec fn word_cell(glyphs: Seq<Seq<StyledModel>>, row: int, col: int) -> bool {
    0 <= row < glyphs.len() && word_at(glyphs[row], col)
}

/// The graphemes of every row.
pub open spec fn glyph_rows(rows: Seq<RowModel>) -> Seq<Seq<StyledModel>> {
    Seq::new(rows.len(), |i: int| styled_glyphs(rows[i].spans))
}

/// The first position from a position on where the text changes: from words to
/// what is no word, or back.
pub open spec fn skip_right(
    rows: Seq<RowModel>,
    glyphs: Seq<Seq<StyledModel>>,
    row: int,
    col: int,
    words: bool,
) -> (int, int)
    decreases rows.len() - row, width_of(rows, row) - col,
{
    match next_cell(rows, row, col) {
        Some((r, c)) => if word_cell(glyphs, row, col) == words {
            proof {
                if col >= width_of(rows, row) && 0 <= row + 1 {
                    lemma_first_mapped(rows, row + 1);
                }
            }
            if r > row || (r == row && c > col) {
                skip_right(rows, glyphs, r, c, words)
            } else {
                (row, col)
            }
        } else {
            (row, col)
        },
        None => (row, col),
    }
}

/// The last position before a position, or that position itself, where a word
/// is.
pub open spec fn back_to_word(
    rows: Seq<RowModel>,
    glyphs: Seq<Seq<StyledModel>>,
    row: int,
    col: int,
) -> (int, int)
    decreases row, col,
{
    match previous_cell(rows, row, col) {
        Some((r, c)) => if !word_cell(glyphs, row, col) && (0 <= r < row || (r == row && 0 <= c
            < col)) {
            back_to_word(rows, glyphs, r, c)
        } else {
            (row, col)
        },
        None => (row, col),
    }
}

/// The start of the word at a position.
pub open spec fn back_over_word(
    rows: Seq<RowModel>,
    glyphs: Seq<Seq<StyledModel>>,
    row: int,
    col: int,
) -> (int, int)
    decreases row, col,
{
    match previous_cell(rows, row, col) {
        Some((r, c)) => if word_cell(glyphs, r, c) && (0 <= r < row || (r == row && 0 <= c
            < col)) {
            back_over_word(rows, glyphs, r, c)
        } else {
            (row, col)
        },
        None => (row, col),
    }
}

/// The start of the next word: behind the word at the position, and behind what
/// is no word.
pub open spec fn word_right(
    rows: Seq<RowModel>,
    glyphs: Seq<Seq<StyledModel>>,
    row: int,
    col: int,
) -> Option<usize> {
    let end = skip_right(rows, glyphs, row, col, true);
    let start = skip_right(rows, glyphs, end.0, end.1, false);
    source_of(rows, start.0, start.1)
}

/// The start of the word before the position.
pub open spec fn word_left(
    rows: Seq<RowModel>,
    glyphs: Seq<Seq<StyledModel>>,
    row: int,
    col: int,
) -> Option<usize> {
    match previous_cell(rows, row, col) {
        Some((r, c)) => {
            let end = back_to_word(rows, glyphs, r, c);
            let start = back_over_word(rows, glyphs, end.0, end.1);
            source_of(rows, start.0, start.1)
        },
        None => None,
    }
}

/// The graphemes of every row, measured once for a walk over the document.
#[derive(Debug)]
pub struct MeasuredRow {
    pub glyphs: Vec<StyledGlyph>,
}

impl View for MeasuredRow {
    type V = Seq<StyledModel>;

    open spec fn view(&self) -> Seq<StyledModel> {
        views(self.glyphs@)
    }
}

/// Measures the graphemes of every row.
pub fn measure_rows(visual: &VisualDocument) -> (measured: Vec<MeasuredRow>)
    ensures
        views(measured@) == glyph_rows(visual@),
{
    let mut measured: Vec<MeasuredRow> = Vec::new();
    let mut i: usize = 0;
    while i < visual.rows.len()
        invariant
            i <= visual.rows@.len(),
            views(measured@) == glyph_rows(visual@).take(i as int),
        decreases visual.rows@.len() - i,
    {
        let glyphs = measure_spans(&visual.rows[i].spans);
        measured.push(MeasuredRow { glyphs });
        proof {
            let all = glyph_rows(visual@);
            assert(visual@[i as int] == visual.rows@[i as int]@);
            assert(all.take(i + 1) =~= all.take(i as int).push(all[i as int]));
        }
        i = i + 1;
    }
    proof {
        assert(glyph_rows(visual@).take(i as int) =~= glyph_rows(visual@));
    }
    measured
}

fn is_word_cell(measured: &Vec<MeasuredRow>, row: usize, col: usize) -> (b: bool)
    ensures
        b == word_cell(views(measured@), row as int, col as int),
{
    row < measured.len() && is_word_at_col(&measured[row].glyphs, col)
}

fn walk_right(
    visual: &VisualDocument,
    measured: &Vec<MeasuredRow>,
    start_row: usize,
    start_col: usize,
    words: bool,
) -> (at: (usize, usize))
    ensures
        (at.0 as int, at.1 as int) == skip_right(
            visual@,
            views(measured@),
            start_row as int,
            start_col as int,
            words,
        ),
{
    let mut row: usize = start_row;
    let mut col: usize = start_col;
    loop
        invariant
            skip_right(visual@, views(measured@), start_row as int, start_col as int, words)
                == skip_right(visual@, views(measured@), row as int, col as int, words),
        decreases visual@.len() - row, width_of(visual@, row as int) - col,
    {
        match next_visual_cell(visual, row, col) {
            Some((r, c)) => {
                if is_word_cell(measured, row, col) != words {
                    return (row, col);
                }
                proof {
                    lemma_first_mapped(visual@, row + 1);
                }
                row = r;
                col = c;
            },
            None => {
                return (row, col);
            },
        }
    }
}

/// The start of the next word, for the measured graphemes of every row.
pub fn word_boundary_right(
    visual: &VisualDocument,
    measured: &Vec<MeasuredRow>,
    start_row: usize,
    start_col: usize,
) -> (source: Option<usize>)
    ensures
        source == word_right(visual@, views(measured@), start_row as int, start_col as int),
{
    let end = walk_right(visual, measured, start_row, start_col, true);
    let start = walk_right(visual, measured, end.0, end.1, false);
    visual.display_to_source(start.0, start.1)
}

/// The start of the word before a position, for the measured graphemes of
/// every row.
pub fn word_boundary_left(
    visual: &VisualDocument,
    measured: &Vec<MeasuredRow>,
    start_row: usize,
    start_col: usize,
) -> (source: Option<usize>)
    ensures
        source == word_left(visual@, views(measured@), start_row as int, start_col as int),
{
    match previous_visual_cell(visual, start_row, start_col) {
        Some((row, col)) => {
            let end = walk_left_to_word(visual, measured, row, col);
            let start = walk_left_over_word(visual, measured, end.0, end.1);
            visual.display_to_source(start.0, start.1)
        },
        None => None,
    }
}

fn walk_left_to_word(
    visual: &VisualDocument,
    measured: &Vec<MeasuredRow>,
    start_row: usize,
    start_col: usize,
) -> (at: (usize, usize))
    ensures
        (at.0 as int, at.1 as int) == back_to_word(
            visual@,
            views(measured@),
            start_row as int,
            start_col as int,
        ),
{
    let mut row: usize = start_row;
    let mut col: usize = start_col;
    loop
        invariant
            back_to_word(visual@, views(measured@), start_row as int, start_col as int)
                == back_to_word(visual@, views(measured@), row as int, col as int),
        decreases row, col,
    {
        match previous_visual_cell(visual, row, col) {
            Some((r, c)) => {
                if is_word_cell(measured, row, col) {
                    return (row, col);
                }
                proof {
                    lemma_last_mapped(visual@, smaller(row as int, visual@.len() as int));
                }
                row = r;
                col = c;
            },
            None => {
                return (row, col);
            },
        }
    }
}

fn walk_left_over_word(
    visual: &VisualDocument,
    measured: &Vec<MeasuredRow>,
    start_row: usize,
    start_col: usize,
) -> (at: (usize, usize))
    ensures
        (at.0 as int, at.1 as int) == back_over_word(
            visual@,
            views(measured@),
            start_row as int,
            start_col as int,
        ),
{
    let mut row: usize = start_row;
    let mut col: usize = start_col;
    loop
        invariant
            back_over_word(visual@, views(measured@), start_row as int, start_col as int)
                == back_over_word(visual@, views(measured@), row as int, col as int),
        decreases row, col,
    {
        match previous_visual_cell(visual, row, col) {
            Some((r, c)) => {
                if !is_word_cell(measured, r, c) {
                    return (row, col);
                }
                proof {
                    lemma_last_mapped(visual@, smaller(row as int, visual@.len() as int));
                }
                row = r;
                col = c;
            },
            None => {
                return (row, col);
            },
        }
    }
}

/// The start of the next word.
pub fn visual_word_boundary_right(
    visual: &VisualDocument,
    start_row: usize,
    start_col: usize,
) -> (source: Option<usize>)
    ensures
        source == word_right(visual@, glyph_rows(visual@), start_row as int, start_col as int),
{
    let measured = measure_rows(visual);
    word_boundary_right(visual, &measured, start_row, start_col)
}

/// The start of the word before a position.
pub fn visual_word_boundary_left(
    visual: &VisualDocument,
    start_row: usize,
    start_col: usize,
) -> (source: Option<usize>)
    ensures
        source == word_left(visual@, glyph_rows(visual@), start_row as int, start_col as int),
{
    let measured = measure_rows(visual);
    word_boundary_left(visual, &measured, start_row, start_col)
}

// ---------------------------------------------------------------------------
// Steps
// ---------------------------------------------------------------------------
/// The first source character behind `current`, from a position on.
pub open spec fn source_from(rows: Seq<RowModel>, row: int, col: int, current: usize) -> Option<
    usize,
>
    decreases rows.len() - row, width_of(rows, row) - col,
{
    let here = source_of(rows, row, col);
    if row >= rows.len() {
        None
    } else if here is Some && here->0 > current {
        here
    } else if col < width_of(rows, row) {
        source_from(rows, row, col + 1, current)
    } else {
        source_from(rows, row + 1, 0, current)
    }
}

/// The first source character behind `current` that is shown behind a position.
pub open spec fn source_after(rows: Seq<RowModel>, row: int, col: int, current: usize) -> Option<
    usize,
> {
    if row >= rows.len() {
        None
    } else if col < width_of(rows, row) {
        source_from(rows, row, col + 1, current)
    } else {
        source_from(rows, row + 1, 0, current)
    }
}

/// The first source character behind `current` that is shown behind a position.
pub fn next_visual_source_after(
    visual: &VisualDocument,
    start_row: usize,
    start_col: usize,
    current: usize,
) -> (source: Option<usize>)
    ensures
        source == source_after(visual@, start_row as int, start_col as int, current),
{
    let mut row: usize = start_row;
    let mut col: usize = start_col;
    while row < visual.rows.len()
        invariant
            source_after(visual@, start_row as int, start_col as int, current) == source_after(
                visual@,
                row as int,
                col as int,
                current,
            ),
        decreases visual@.len() - row, width_of(visual@, row as int) - col,
    {
        if col < visual.rows[row].width() {
            col = col + 1;
        } else {
            row = row + 1;
            col = 0;
        }
        if let Some(source) = visual.display_to_source(row, col) {
            if source > current {
                return Some(source);
            }
        }
    }
    None
}

/// Where the cursor goes for one step to the left (`delta < 0`) or right.
pub open spec fn horizontal_target(rows: Seq<RowModel>, current: usize, delta: int) -> Option<
    usize,
> {
    match display_of(rows, current) {
        Some((row, col)) => {
            if delta < 0 {
                if col > rows[row].prefix_width {
                    source_of(rows, row, col - 1)
                } else {
                    source_of(rows, row - 1, usize::MAX as int)
                }
            } else if delta == 0 {
                Some(current)
            } else {
                match source_of(rows, row, col) {
                    Some(source) => if current < source {
                        Some(source)
                    } else {
                        source_after(rows, row, col, current)
                    },
                    None => source_after(rows, row, col, current),
                }
            }
        },
        None => None,
    }
}

/// Where the cursor goes for a step over a word; `None` if it stays.
pub open spec fn word_target(
    rows: Seq<RowModel>,
    glyphs: Seq<Seq<StyledModel>>,
    current: usize,
    delta: int,
) -> Option<usize> {
    match display_of(rows, current) {
        Some((row, col)) => {
            let target = if delta < 0 {
                word_left(rows, glyphs, row, col)
            } else if delta == 0 {
                None
            } else {
                word_right(rows, glyphs, row, col)
            };
            if target == Some(current) {
                None
            } else {
                target
            }
        },
        None => None,
    }
}

/// Where the cursor goes for the start or the end of its row.
pub open spec fn boundary_target(rows: Seq<RowModel>, current: usize, end: bool) -> Option<usize> {
    match display_of(rows, current) {
        Some((row, _)) => source_of(
            rows,
            row,
            if end {
                width_of(rows, row)
            } else {
                rows[row].prefix_width as int
            },
        ),
        None => None,
    }
}

/// The row that lies `delta` rows away, held inside the document where `clamp`
/// says so.
pub open spec fn row_away(rows: Seq<RowModel>, row: int, delta: int, clamp: bool) -> Option<int> {
    let target = row + delta;
    if clamp {
        Some(
            if target < 0 {
                0
            } else {
                smaller(target, rows.len() - 1)
            },
        )
    } else if 0 <= target < rows.len() {
        Some(target)
    } else {
        None
    }
}

/// A movement by `delta` rows reaches the border of the document.
pub open spec fn reaches_border(rows: Seq<RowModel>, row: int, delta: int) -> bool {
    (delta < 0 && row + delta < 0) || (delta > 0 && row + delta >= rows.len() - 1)
}

/// Where the cursor goes for a movement by rows, and the column that it keeps
/// to.
pub open spec fn rows_target(
    rows: Seq<RowModel>,
    current: usize,
    desired: Option<usize>,
    delta: int,
    clamp: bool,
) -> Option<(usize, usize)> {
    match display_of(rows, current) {
        Some((row, col)) => {
            let keep = match desired {
                Some(d) => d,
                None => col as usize,
            };
            match row_away(rows, row, delta, clamp) {
                Some(target) => match mapped_near(
                    rows,
                    target,
                    keep as int,
                    delta,
                    clamp && reaches_border(rows, row, delta),
                ) {
                    Some(pos) => Some((pos, keep)),
                    None => None,
                },
                None => None,
            }
        },
        None => None,
    }
}

proof fn lemma_display_in_rows(rows: Seq<RowModel>, pos: usize)
    ensures
        match display_of(rows, pos) {
            Some((row, col)) => 0 <= row < rows.len(),
            None => true,
        },
{
    crate::mapping::lemma_first_covering(rows, 0, pos);
    crate::mapping::lemma_last_starting(rows, rows.len() as int, pos);
}

/// Where the cursor goes for one step to the left or right.
pub fn move_horizontal(visual: &VisualDocument, current: usize, delta: isize) -> (target: Option<
    usize,
>)
    ensures
        target == horizontal_target(visual@, current, delta as int),
{
    proof {
        lemma_display_in_rows(visual@, current);
    }
    match visual.source_to_display(current) {
        Some((row, col)) => {
            if delta < 0 {
                if col > visual.rows[row].prefix_width {
                    visual.display_to_source(row, col - 1)
                } else if row > 0 {
                    visual.display_to_source(row - 1, usize::MAX)
                } else {
                    None
                }
            } else if delta == 0 {
                Some(current)
            } else {
                if let Some(source) = visual.display_to_source(row, col) {
                    if current < source {
                        return Some(source);
                    }
                }
                next_visual_source_after(visual, row, col, current)
            }
        },
        None => None,
    }
}

/// Where the cursor goes for a step over a word, for the measured graphemes of
/// every row.
pub fn move_word_measured(
    visual: &VisualDocument,
    measured: &Vec<MeasuredRow>,
    current: usize,
    delta: isize,
) -> (target: Option<usize>)
    ensures
        target == word_target(visual@, views(measured@), current, delta as int),
{
    match visual.source_to_display(current) {
        Some((row, col)) => {
            let target = if delta < 0 {
                word_boundary_left(visual, measured, row, col)
            } else if delta == 0 {
                None
            } else {
                word_boundary_right(visual, measured, row, col)
            };
            match target {
                Some(pos) => if pos == current {
                    None
                } else {
                    Some(pos)
                },
                None => None,
            }
        },
        None => None,
    }
}

/// Where the cursor goes for a step over a word.
pub fn move_word(visual: &VisualDocument, current: usize, delta: isize) -> (target: Option<usize>)
    ensures
        target == word_target(visual@, glyph_rows(visual@), current, delta as int),
{
    let measured = measure_rows(visual);
    move_word_measured(visual, &measured, current, delta)
}

/// Where the cursor goes for the start or the end of its row.
pub fn move_line_boundary(visual: &VisualDocument, current: usize, end: bool) -> (target: Option<
    usize,
>)
    ensures
        target == boundary_target(visual@, current, end),
{
    proof {
        lemma_display_in_rows(visual@, current);
    }
    match visual.source_to_display(current) {
        Some((row, _)) => {
            let col: usize = if end {
                visual.rows[row].width()
            } else {
                visual.rows[row].prefix_width
            };
            visual.display_to_source(row, col)
        },
        None => None,
    }
}

/// Where the cursor goes for a movement by rows, and the column that it keeps
/// to.
pub fn move_rows(
    visual: &VisualDocument,
    current: usize,
    desired: Option<usize>,
    delta: isize,
    clamp: bool,
) -> (target: Option<(usize, usize)>)
    ensures
        target == rows_target(visual@, current, desired, delta as int, clamp),
{
    proof {
        lemma_display_in_rows(visual@, current);
    }
    let (row, col) = match visual.source_to_display(current) {
        Some(at) => at,
        None => {
            return None;
        },
    };
    let keep: usize = match desired {
        Some(d) => d,
        None => col,
    };
    let last: usize = visual.rows.len() - 1;
    let mut target: usize = row;
    let mut stopped = false;
    if delta < 0 {
        let up: usize = (-(delta + 1)) as usize + 1;
        if up <= row {
            target = row - up;
        } else if clamp {
            target = 0;
            stopped = true;
        } else {
            return None;
        }
    } else if delta > 0 {
        let down: usize = delta as usize;
        if down < last - row {
            target = row + down;
        } else if clamp {
            target = last;
            stopped = true;
        } else if down == last - row {
            target = last;
        } else {
            return None;
        }
    }
    match mapped_char_near_visual_row(visual, target, keep, delta, stopped) {
        Some(pos) => Some((pos, keep)),
        None => None,
    }
}

// ---------------------------------------------------------------------------
// Laws
// ---------------------------------------------------------------------------
/// A position that the cursor can be at: on a column of a row that stands for
/// source text, or behind its last one.
pub open spec fn on_row(rows: Seq<RowModel>, at: (int, int)) -> bool {
    &&& 0 <= at.0 < rows.len()
    &&& rows[at.0].mapped
    &&& 0 <= at.1 <= width_of(rows, at.0)
}

proof fn lemma_no_rows_between(rows: Seq<RowModel>, from: int, to: int)
    requires
        0 <= from <= to <= rows.len(),
        forall|k: int| from <= k < to ==> !(#[trigger] rows[k]).mapped,
    ensures
        first_mapped(rows, from) == first_mapped(rows, to),
        last_mapped(rows, from) == last_mapped(rows, to),
    decreases to - from,
{
    if from < to {
        assert(!rows[from].mapped);
        assert(!rows[to - 1].mapped);
        lemma_no_rows_between(rows, from + 1, to);
        assert(last_mapped(rows, from + 1) == last_mapped(rows, from));
    }
}

proof fn lemma_first_mapped_is_first(rows: Seq<RowModel>, from: int)
    requires
        0 <= from <= rows.len(),
    ensures
        forall|k: int| from <= k < first_mapped(rows, from) ==> !(#[trigger] rows[k]).mapped,
    decreases rows.len() - from,
{
    if from < rows.len() && !rows[from].mapped {
        lemma_first_mapped_is_first(rows, from + 1);
    }
}

proof fn lemma_last_mapped_is_last(rows: Seq<RowModel>, n: int)
    requires
        0 <= n <= rows.len(),
    ensures
        forall|k: int| last_mapped(rows, n) < k < n ==> !(#[trigger] rows[k]).mapped,
    decreases n,
{
    if n > 0 && !rows[n - 1].mapped {
        lemma_last_mapped_is_last(rows, n - 1);
    }
}

/// The position before the next one is the position itself.
pub proof fn law_previous_undoes_next(rows: Seq<RowModel>, at: (int, int))
    requires
        on_row(rows, at),
    ensures
        match next_cell(rows, at.0, at.1) {
            Some(next) => {
                &&& on_row(rows, next)
                &&& previous_cell(rows, next.0, next.1) == Some(at)
            },
            None => forall|k: int| at.0 < k < rows.len() ==> !(#[trigger] rows[k]).mapped,
        },
{
    let (row, col) = at;
    if col >= width_of(rows, row) {
        let below = first_mapped(rows, row + 1);
        lemma_first_mapped(rows, row + 1);
        lemma_first_mapped_is_first(rows, row + 1);
        lemma_no_rows_between(rows, row + 1, below);
    }
}

/// The position behind the previous one is the position itself.
pub proof fn law_next_undoes_previous(rows: Seq<RowModel>, at: (int, int))
    requires
        on_row(rows, at),
    ensures
        match previous_cell(rows, at.0, at.1) {
            Some(previous) => {
                &&& on_row(rows, previous)
                &&& next_cell(rows, previous.0, previous.1) == Some(at)
                &&& previous.0 < at.0 || (previous.0 == at.0 && previous.1 < at.1)
            },
            None => at.1 == 0 && forall|k: int| 0 <= k < at.0 ==> !(#[trigger] rows[k]).mapped,
        },
{
    let (row, col) = at;
    if col == 0 {
        let above = last_mapped(rows, row);
        lemma_last_mapped(rows, row);
        lemma_last_mapped_is_last(rows, row);
        if above >= 0 {
            lemma_no_rows_between(rows, above + 1, row);
        }
    }
}

/// Every position of `walk` but the first is the one behind the position before
/// it.
pub open spec fn steps_on(rows: Seq<RowModel>, walk: Seq<(int, int)>) -> bool {
    forall|i: int|
        0 <= i < walk.len() - 1 ==> next_cell(rows, (#[trigger] walk[i]).0, walk[i].1) == Some(
            walk[i + 1],
        )
}

/// The positions of `walk` from `from` to `to` are all on words, or all on none.
pub open spec fn all_words(
    glyphs: Seq<Seq<StyledModel>>,
    walk: Seq<(int, int)>,
    from: int,
    to: int,
    words: bool,
) -> bool {
    forall|i: int|
        from <= i < to ==> word_cell(glyphs, (#[trigger] walk[i]).0, walk[i].1) == words
}

proof fn lemma_back_to_word(
    rows: Seq<RowModel>,
    glyphs: Seq<Seq<StyledModel>>,
    at: (int, int),
) -> (walk: Seq<(int, int)>)
    requires
        on_row(rows, at),
    ensures
        walk.len() > 0,
        walk[0] == back_to_word(rows, glyphs, at.0, at.1),
        walk.last() == at,
        steps_on(rows, walk),
        all_words(glyphs, walk, 1, walk.len() as int, false),
        on_row(rows, walk[0]),
        word_cell(glyphs, walk[0].0, walk[0].1) || previous_cell(
            rows,
            walk[0].0,
            walk[0].1,
        ) is None,
    decreases at.0, at.1,
{
    law_next_undoes_previous(rows, at);
    match previous_cell(rows, at.0, at.1) {
        Some(previous) => if word_cell(glyphs, at.0, at.1) {
            seq![at]
        } else {
            let before = lemma_back_to_word(rows, glyphs, previous);
            let walk = before.push(at);
            assert forall|i: int| 0 <= i < walk.len() - 1 implies next_cell(
                rows,
                (#[trigger] walk[i]).0,
                walk[i].1,
            ) == Some(walk[i + 1]) by {
                assert(walk[i] == before[i]);
            }
            assert forall|i: int| 1 <= i < walk.len() implies word_cell(
                glyphs,
                (#[trigger] walk[i]).0,
                walk[i].1,
            ) == false by {
                if i < before.len() {
                    assert(walk[i] == before[i]);
                }
            }
            walk
        },
        None => seq![at],
    }
}

proof fn lemma_back_over_word(
    rows: Seq<RowModel>,
    glyphs: Seq<Seq<StyledModel>>,
    at: (int, int),
) -> (walk: Seq<(int, int)>)
    requires
        on_row(rows, at),
    ensures
        walk.len() > 0,
        walk[0] == back_over_word(rows, glyphs, at.0, at.1),
        walk.last() == at,
        steps_on(rows, walk),
        all_words(glyphs, walk, 0, walk.len() - 1, true),
        on_row(rows, walk[0]),
        previous_cell(rows, at.0, at.1) is None ==> walk.len() == 1,
        match previous_cell(rows, walk[0].0, walk[0].1) {
            Some((r, c)) => !word_cell(glyphs, r, c),
            None => true,
        },
    decreases at.0, at.1,
{
    law_next_undoes_previous(rows, at);
    match previous_cell(rows, at.0, at.1) {
        Some(previous) => if word_cell(glyphs, previous.0, previous.1) {
            let before = lemma_back_over_word(rows, glyphs, previous);
            let walk = before.push(at);
            assert forall|i: int| 0 <= i < walk.len() - 1 implies {
                &&& next_cell(rows, (#[trigger] walk[i]).0, walk[i].1) == Some(walk[i + 1])
                &&& word_cell(glyphs, walk[i].0, walk[i].1)
            } by {
                assert(walk[i] == before[i]);
            }
            walk
        } else {
            seq![at]
        },
        None => seq![at],
    }
}

/// A step to the left over a word goes to the start of the nearest word before
/// the position. On the way from there to the position lie the positions of
/// that one word, `n` of them, and then none of any word; and no word reaches
/// up to the start from the left. Where no word lies before the position, the
/// step goes to the first position of the document.
pub proof fn law_word_left_goes_to_the_start_of_one_word(
    rows: Seq<RowModel>,
    glyphs: Seq<Seq<StyledModel>>,
    at: (int, int),
) -> (way: (Seq<(int, int)>, int))
    requires
        on_row(rows, at),
        previous_cell(rows, at.0, at.1) is Some,
    ensures
        ({
            let (walk, n) = way;
            &&& walk.len() >= 2
            &&& walk.last() == at
            &&& steps_on(rows, walk)
            &&& word_left(rows, glyphs, at.0, at.1) == source_of(rows, walk[0].0, walk[0].1)
            &&& 0 <= n < walk.len()
            &&& all_words(glyphs, walk, 0, n, true)
            &&& all_words(glyphs, walk, n, walk.len() - 1, false)
            &&& match previous_cell(rows, walk[0].0, walk[0].1) {
                Some((r, c)) => n > 0 && !word_cell(glyphs, r, c),
                None => true,
            }
        }),
{
    law_next_undoes_previous(rows, at);
    let previous = previous_cell(rows, at.0, at.1)->0;
    let to = lemma_back_to_word(rows, glyphs, previous);
    let over = lemma_back_over_word(rows, glyphs, to[0]);
    let walk = over + to.skip(1).push(at);
    let m = over.len() - 1;
    assert forall|i: int| 0 <= i < walk.len() implies #[trigger] walk[i] == if i <= m {
        over[i]
    } else if i - m < to.len() {
        to[i - m]
    } else {
        at
    } by {}
    assert(over[m] == to[0]);
    assert forall|i: int| 0 <= i < walk.len() - 1 implies next_cell(
        rows,
        (#[trigger] walk[i]).0,
        walk[i].1,
    ) == Some(walk[i + 1]) by {
        if i < m {
            assert(walk[i] == over[i]);
        } else {
            assert(walk[i] == to[i - m]);
            if i - m + 1 < to.len() {
                assert(walk[i + 1] == to[i - m + 1]);
            }
        }
    }
    let n = if word_cell(glyphs, to[0].0, to[0].1) {
        m + 1
    } else {
        0
    };
    assert forall|i: int| 0 <= i < n implies word_cell(glyphs, (#[trigger] walk[i]).0, walk[i].1)
        == true by {
        if i < m {
            assert(walk[i] == over[i]);
        }
    }
    assert forall|i: int| n <= i < walk.len() - 1 implies word_cell(
        glyphs,
        (#[trigger] walk[i]).0,
        walk[i].1,
    ) == false by {
        assert(walk[i] == to[i - m]);
    }
    (walk, n)
}

proof fn lemma_skip_right(
    rows: Seq<RowModel>,
    glyphs: Seq<Seq<StyledModel>>,
    at: (int, int),
    words: bool,
) -> (walk: Seq<(int, int)>)
    requires
        on_row(rows, at),
    ensures
        walk.len() > 0,
        walk[0] == at,
        walk.last() == skip_right(rows, glyphs, at.0, at.1, words),
        steps_on(rows, walk),
        all_words(glyphs, walk, 0, walk.len() - 1, words),
        on_row(rows, walk.last()),
        word_cell(glyphs, walk.last().0, walk.last().1) != words || next_cell(
            rows,
            walk.last().0,
            walk.last().1,
        ) is None,
    decreases rows.len() - at.0, width_of(rows, at.0) - at.1,
{
    law_previous_undoes_next(rows, at);
    match next_cell(rows, at.0, at.1) {
        Some(next) => if word_cell(glyphs, at.0, at.1) == words {
            if at.1 >= width_of(rows, at.0) {
                lemma_first_mapped(rows, at.0 + 1);
            }
            let behind = lemma_skip_right(rows, glyphs, next, words);
            let walk = seq![at] + behind;
            assert forall|i: int| 0 <= i < walk.len() - 1 implies {
                &&& next_cell(rows, (#[trigger] walk[i]).0, walk[i].1) == Some(walk[i + 1])
                &&& word_cell(glyphs, walk[i].0, walk[i].1) == words
            } by {
                if i > 0 {
                    assert(walk[i] == behind[i - 1]);
                }
            }
            walk
        } else {
            seq![at]
        },
        None => seq![at],
    }
}

/// A step to the right over a word goes to the start of the next word: on the
/// way lie what is left of the word at the position, `n` positions of it, and
/// then positions of no word, up to one that is on a word or the last of the
/// document.
pub proof fn law_word_right_goes_to_the_next_word(
    rows: Seq<RowModel>,
    glyphs: Seq<Seq<StyledModel>>,
    at: (int, int),
) -> (way: (Seq<(int, int)>, int))
    requires
        on_row(rows, at),
    ensures
        ({
            let (walk, n) = way;
            let target = walk.last();
            &&& walk.len() > 0
            &&& walk[0] == at
            &&& steps_on(rows, walk)
            &&& word_right(rows, glyphs, at.0, at.1) == source_of(rows, target.0, target.1)
            &&& 0 <= n < walk.len()
            &&& all_words(glyphs, walk, 0, n, true)
            &&& all_words(glyphs, walk, n, walk.len() - 1, false)
            &&& next_cell(rows, target.0, target.1) is None || (word_cell(
                glyphs,
                target.0,
                target.1,
            ) && (n == 0 || n < walk.len() - 1))
        }),
{
    let over = lemma_skip_right(rows, glyphs, at, true);
    let n = over.len() - 1;
    let to = lemma_skip_right(rows, glyphs, over.last(), false);
    let walk = over + to.skip(1);
    assert forall|i: int| 0 <= i < walk.len() implies #[trigger] walk[i] == if i <= n {
        over[i]
    } else {
        to[i - n]
    } by {}
    assert(over[n] == to[0]);
    assert forall|i: int| 0 <= i < walk.len() - 1 implies {
        &&& next_cell(rows, (#[trigger] walk[i]).0, walk[i].1) == Some(walk[i + 1])
        &&& word_cell(glyphs, walk[i].0, walk[i].1) == (i < n)
    } by {
        if i < n {
            assert(walk[i] == over[i]);
        } else {
            assert(walk[i] == to[i - n]);
            assert(walk[i + 1] == to[i - n + 1]);
        }
    }
    assert(walk.last() == to.last()) by {
        if to.len() == 1 {
            assert(walk.last() == over[n]);
        } else {
            assert(walk[walk.len() - 1] == to[to.len() - 1]);
        }
    }
    (walk, n)
}

proof fn lemma_source_from_is_behind(rows: Seq<RowModel>, row: int, col: int, current: usize)
    ensures
        source_from(rows, row, col, current) is Some ==> source_from(rows, row, col, current)->0
            > current,
    decreases rows.len() - row, width_of(rows, row) - col,
{
    let here = source_of(rows, row, col);
    if row < rows.len() && !(here is Some && here->0 > current) {
        if col < width_of(rows, row) {
            lemma_source_from_is_behind(rows, row, col + 1, current);
        } else {
            lemma_source_from_is_behind(rows, row + 1, 0, current);
        }
    }
}

/// A step to the right always goes forward in the source.
pub proof fn law_right_goes_forward(rows: Seq<RowModel>, current: usize)
    ensures
        horizontal_target(rows, current, 1) is Some ==> horizontal_target(rows, current, 1)->0
            > current,
{
    if let Some((row, col)) = display_of(rows, current) {
        lemma_source_from_is_behind(rows, row, col + 1, current);
        lemma_source_from_is_behind(rows, row + 1, 0, current);
    }
}

/// A step to the left never goes forward in the source, in a document that
/// goes through the source in order.
pub proof fn law_left_never_goes_forward(rows: Seq<RowModel>, current: usize)
    requires
        crate::mapping::tidy(rows),
    ensures
        horizontal_target(rows, current, -1) is Some ==> horizontal_target(rows, current, -1)->0
            <= current,
{
    crate::mapping::lemma_first_covering(rows, 0, current);
    crate::mapping::lemma_last_starting(rows, rows.len() as int, current);
    if let Some((row, col)) = display_of(rows, current) {
        let r = rows[row];
        assert(crate::mapping::ordered_row(r));
        if col > r.prefix_width {
            if r.covers(current) {
                crate::mapping::law_cursor_never_enters_a_grapheme(r, current);
                assert(r.col_sources[col - 1] < r.col_sources[col]);
            } else {
                assert(r.col_sources[col - 1] < r.source_end);
            }
        } else if row > 0 && rows[row - 1].mapped {
            let above = rows[row - 1];
            assert(crate::mapping::ordered_row(above));
            assert(crate::mapping::follows(above, r));
            if above.source_end > r.source_start {
                assert(above.source_start <= r.source_start) by {
                    let n = above.col_sources.len() - 1;
                    assert(above.source_start <= above.col_sources[n]);
                }
                if current == r.source_start {
                    assert(above.covers(current));
                }
            }
        }
    }
}

/// Position `a` lies before position `b`.
pub open spec fn lies_before(a: (int, int), b: (int, int)) -> bool {
    a.0 < b.0 || (a.0 == b.0 && a.1 < b.1)
}

/// A position that stands for a source character behind `current`.
pub open spec fn shows_later(rows: Seq<RowModel>, at: (int, int), current: usize) -> bool {
    source_of(rows, at.0, at.1) matches Some(pos) && pos > current
}

proof fn lemma_source_from_is_first(
    rows: Seq<RowModel>,
    row: int,
    col: int,
    current: usize,
) -> (at: (int, int))
    requires
        0 <= row,
        0 <= col,
    ensures
        match source_from(rows, row, col, current) {
            Some(pos) => {
                &&& source_of(rows, at.0, at.1) == Some(pos)
                &&& shows_later(rows, at, current)
                &&& !lies_before(at, (row, col))
                &&& forall|r: int, c: int|
                    !lies_before((r, c), (row, col)) && lies_before((r, c), at) && 0 <= c
                        <= width_of(rows, r) ==> !#[trigger] shows_later(rows, (r, c), current)
            },
            None => forall|r: int, c: int|
                !lies_before((r, c), (row, col)) && 0 <= c <= width_of(rows, r)
                    ==> !#[trigger] shows_later(rows, (r, c), current),
        },
    decreases rows.len() - row, width_of(rows, row) - col,
{
    let here = source_of(rows, row, col);
    if row >= rows.len() {
        (row, col)
    } else if here is Some && here->0 > current {
        (row, col)
    } else if col < width_of(rows, row) {
        lemma_source_from_is_first(rows, row, col + 1, current)
    } else {
        lemma_source_from_is_first(rows, row + 1, 0, current)
    }
}

/// A step to the right skips nothing: it goes to the first position behind the
/// cursor that stands for a later character, and stays only where none does.
pub proof fn law_right_goes_to_the_first_later_character(rows: Seq<RowModel>, current: usize) -> (at:
    (int, int))
    requires
        display_of(rows, current) matches Some((row, col)) && 0 <= row < rows.len() && 0 <= col
            <= width_of(rows, row),
    ensures
        ({
            let from = display_of(rows, current)->0;
            match horizontal_target(rows, current, 1) {
                Some(pos) => {
                    &&& source_of(rows, at.0, at.1) == Some(pos)
                    &&& !lies_before(at, from)
                    &&& shows_later(rows, at, current)
                    &&& forall|r: int, c: int|
                        !lies_before((r, c), from) && lies_before((r, c), at) && 0 <= c
                            <= width_of(rows, r) ==> !#[trigger] shows_later(
                            rows,
                            (r, c),
                            current,
                        )
                },
                None => forall|r: int, c: int|
                    !lies_before((r, c), from) && 0 <= c <= width_of(rows, r)
                        ==> !#[trigger] shows_later(rows, (r, c), current),
            }
        }),
{
    let (row, col) = display_of(rows, current)->0;
    if shows_later(rows, (row, col), current) {
        (row, col)
    } else if col < width_of(rows, row) {
        lemma_source_from_is_first(rows, row, col + 1, current)
    } else {
        lemma_source_from_is_first(rows, row + 1, 0, current)
    }
}

/// Inside a row, a step to the left undoes a step to the right.
pub proof fn law_left_undoes_right(rows: Seq<RowModel>, current: usize, row: int, col: int)
    requires
        crate::mapping::tidy(rows),
        0 <= row < rows.len(),
        rows[row].mapped,
        rows[row].prefix_width <= col < width_of(rows, row),
        display_of(rows, current) == Some((row, col)),
        source_of(rows, row, col) == Some(current),
        horizontal_target(rows, current, 1) is Some,
        display_of(rows, horizontal_target(rows, current, 1)->0) matches Some((r, c)) && r == row
            && c < width_of(rows, row) && source_of(rows, r, c) == horizontal_target(
            rows,
            current,
            1,
        ),
    ensures
        horizontal_target(rows, horizontal_target(rows, current, 1)->0, -1) == Some(current),
{
    let r = rows[row];
    let next = horizontal_target(rows, current, 1)->0;
    let at = law_right_goes_to_the_first_later_character(rows, current);
    let c = (display_of(rows, next)->0).1;
    assert(crate::mapping::ordered_row(r));
    law_right_goes_forward(rows, current);
    crate::mapping::lemma_first_covering(rows, 0, next);
    crate::mapping::lemma_last_starting(rows, rows.len() as int, next);
    assert(r.covers(next));
    crate::mapping::law_cursor_never_enters_a_grapheme(r, next);
    assert(r.col_sources[c] == next);
    assert(c > col) by {
        if c <= col {
            assert(r.col_sources[c] <= r.col_sources[col]);
        }
    }
    assert(r.col_sources[c - 1] < next);
    assert(r.col_sources[col] <= r.col_sources[c - 1]);
    if at.0 == row && at.1 < c {
        assert(at.1 >= col);
        assert(r.col_sources[at.1] <= r.col_sources[c - 1]);
    }
    assert(!lies_before((row, c - 1), (row, col)));
    assert(lies_before((row, c - 1), at));
    assert(!shows_later(rows, (row, c - 1), current));
}

/// Moving down and then up by as many rows comes back: the column that is kept
/// to is that of the start, however short the row between is.
pub proof fn law_up_undoes_down(
    rows: Seq<RowModel>,
    current: usize,
    row: int,
    col: int,
    delta: int,
    clamp: bool,
)
    requires
        delta != 0,
        0 <= row < rows.len(),
        0 <= col <= usize::MAX,
        0 <= row + delta < rows.len(),
        rows[row + delta].mapped,
        display_of(rows, current) == Some((row, col)),
        source_of(rows, row, col) == Some(current),
        display_of(rows, source_of(rows, row + delta, col)->0) matches Some((r, _)) && r == row
            + delta,
    ensures
        ({
            let there = source_of(rows, row + delta, col)->0;
            let keep = col as usize;
            &&& rows_target(rows, current, None, delta, clamp) == Some((there, keep))
            &&& rows_target(rows, there, Some(keep), -delta, clamp) == Some((current, keep))
        }),
{
}

/// Moving by rows goes to the nearest row that stands for source text, in the
/// direction of the movement from where it leads, and to the column that is
/// kept to; without such a row the cursor stays.
pub proof fn law_rows_without_source_are_skipped(
    rows: Seq<RowModel>,
    current: usize,
    desired: Option<usize>,
    delta: int,
) -> (to: int)
    requires
        delta != 0,
        display_of(rows, current) matches Some((row, col)) && 0 <= row < rows.len() && 0 <= col
            <= usize::MAX,
    ensures
        ({
            let (row, col) = display_of(rows, current)->0;
            let target = row + delta;
            match rows_target(rows, current, desired, delta, false) {
                Some((pos, keep)) => {
                    &&& 0 <= to < rows.len() && rows[to].mapped
                    &&& source_of(rows, to, keep as int) == Some(pos)
                    &&& keep == match desired {
                        Some(d) => d,
                        None => col as usize,
                    }
                    &&& if delta > 0 {
                        &&& target <= to
                        &&& forall|k: int| target <= k < to ==> !(#[trigger] rows[k]).mapped
                    } else {
                        &&& to <= target
                        &&& forall|k: int| to < k <= target ==> !(#[trigger] rows[k]).mapped
                    }
                },
                None => forall|k: int|
                    0 <= k < rows.len() && (if delta > 0 {
                        target <= k
                    } else {
                        k <= target
                    }) ==> !(#[trigger] rows[k]).mapped,
            }
        }),
{
    let (row, col) = display_of(rows, current)->0;
    let target = row + delta;
    if 0 <= target < rows.len() {
        lemma_first_mapped(rows, target);
        lemma_first_mapped_is_first(rows, target);
        lemma_last_mapped(rows, target + 1);
        lemma_last_mapped_is_last(rows, target + 1);
        if delta > 0 {
            first_mapped(rows, target)
        } else {
            last_mapped(rows, target + 1)
        }
    } else {
        0
    }
}

/// A page that would go over the border of the document goes to the row there,
/// where that stands for source text.
pub proof fn law_pages_stop_at_the_border(
    rows: Seq<RowModel>,
    current: usize,
    desired: Option<usize>,
    delta: int,
)
    requires
        display_of(rows, current) matches Some((row, col)) && 0 <= row < rows.len() && 0 <= col
            <= usize::MAX,
    ensures
        ({
            let (row, col) = display_of(rows, current)->0;
            let keep = match desired {
                Some(d) => d,
                None => col as usize,
            };
            let last = rows.len() - 1;
            &&& delta > 0 && row + delta >= last && rows[last].mapped ==> rows_target(
                rows,
                current,
                desired,
                delta,
                true,
            ) == Some((source_of(rows, last, keep as int)->0, keep))
            &&& delta < 0 && row + delta <= 0 && rows[0].mapped ==> rows_target(
                rows,
                current,
                desired,
                delta,
                true,
            ) == Some((source_of(rows, 0, keep as int)->0, keep))
        }),
{
}

/// Home and End go to the borders of the row that the cursor is in: to the
/// first character of its text and behind its last one, and no character of it
/// lies outside.
pub proof fn law_home_and_end_bound_the_row(rows: Seq<RowModel>, current: usize, col: int)
    requires
        crate::mapping::tidy(rows),
        display_of(rows, current) matches Some((row, _)) && 0 <= row < rows.len()
            && rows[row].mapped && rows[row].prefix_width <= col < width_of(rows, row),
    ensures
        ({
            let row = rows[(display_of(rows, current)->0).0];
            let home = boundary_target(rows, current, false);
            let end = boundary_target(rows, current, true);
            &&& home matches Some(first) && first <= row.col_sources[col] && exists|k: int|
                row.prefix_width <= k < row.col_sources.len() && #[trigger] row.col_sources[k]
                    == first
            &&& end == Some(row.source_end) && row.col_sources[col] < row.source_end
        }),
{
    let row = rows[(display_of(rows, current)->0).0];
    assert(crate::mapping::ordered_row(row));
    let k = row.prefix_width as int;
    assert(row.col_sources[k] <= row.col_sources[col]);
}

/// A movement that the border of the document stops finds a row wherever any row
/// stands for source text.
pub proof fn law_pages_find_a_row_at_the_border(
    rows: Seq<RowModel>,
    current: usize,
    desired: Option<usize>,
    delta: int,
    some: int,
)
    requires
        display_of(rows, current) matches Some((row, col)) && 0 <= row < rows.len() && 0 <= col
            <= usize::MAX && (row + delta < 0 || row + delta >= rows.len() - 1),
        delta != 0,
        0 <= some < rows.len(),
        rows[some].mapped,
    ensures
        delta > 0 && (display_of(rows, current)->0).0 + delta >= rows.len() - 1 ==> rows_target(
            rows,
            current,
            desired,
            delta,
            true,
        ) is Some,
        delta < 0 && (display_of(rows, current)->0).0 + delta < 0 ==> rows_target(
            rows,
            current,
            desired,
            delta,
            true,
        ) is Some,
{
    let last = rows.len() - 1;
    lemma_first_mapped(rows, 0);
    lemma_first_mapped_is_first(rows, 0);
    lemma_last_mapped(rows, last + 1);
    lemma_last_mapped_is_last(rows, last + 1);
}

/// From the start of the text of a row, a step to the left goes to the end of the
/// row above it.
pub proof fn law_left_goes_to_the_end_of_the_row_above(
    rows: Seq<RowModel>,
    current: usize,
    row: int,
)
    requires
        0 < row < rows.len(),
        display_of(rows, current) == Some((row, rows[row].prefix_width as int)),
        rows[row - 1].mapped,
        0 < width_of(rows, row - 1) <= usize::MAX,
    ensures
        horizontal_target(rows, current, -1) == Some(rows[row - 1].source_end),
{
}

} // verus!
