//! Wrapping: how the cells of one line fall into rows.

use crate::cells::{
    blank, cell_is_whitespace, last_blank, total_width, trim_trailing_spaces,
    without_trailing_blanks, Cell, CellModel,
};
use crate::text::{group_views, views};
use vstd::prelude::*;

verus! {

broadcast use group_views;

/// What becomes of a blank cell that does not fit on its row: raw source drops
/// it, rendered text keeps it at the start of the next row, where the cursor
/// can reach it.
#[derive(Debug, Clone, Copy, PartialEq, Eq, Structural)]
pub enum WrapMode {
    Source,
    Rendered,
}

/// Wrapping in progress: the rows that are complete, and the row that is being
/// filled.
pub struct Wrapping {
    pub done: Seq<Seq<CellModel>>,
    pub current: Seq<CellModel>,
}

/// `done` with `row` behind it, unless that is empty.
pub open spec fn with_row(done: Seq<Seq<CellModel>>, row: Seq<CellModel>) -> Seq<Seq<CellModel>> {
    if row.len() == 0 {
        done
    } else {
        done.push(row)
    }
}

/// A cell fits on a row: the row is empty, or stays within the width.
pub open spec fn fits(row: Seq<CellModel>, cell: CellModel, width: usize) -> bool {
    row.len() == 0 || total_width(row) + cell.width <= width
}

/// Puts `cell` on the current row if it fits there, else on a new one.
pub open spec fn extend_or_break(state: Wrapping, cell: CellModel, width: usize) -> Wrapping {
    if fits(state.current, cell, width) {
        Wrapping { current: state.current.push(cell), ..state }
    } else {
        Wrapping { done: with_row(state.done, state.current), current: seq![cell] }
    }
}

/// One more cell. Where it does not fit, the row breaks: at a blank cell right
/// there; a visible cell takes the word that it belongs to along, so that the
/// row breaks at its last blank; a row without one breaks before the cell.
pub open spec fn wrap_step(
    state: Wrapping,
    cell: CellModel,
    width: usize,
    mode: WrapMode,
) -> Wrapping {
    let at = last_blank(state.current);
    if fits(state.current, cell, width) {
        Wrapping { current: state.current.push(cell), ..state }
    } else if blank(cell) {
        Wrapping {
            done: with_row(state.done, state.current),
            current: match mode {
                WrapMode::Source => seq![],
                WrapMode::Rendered => seq![cell],
            },
        }
    } else if at > 0 {
        extend_or_break(
            Wrapping {
                done: with_row(state.done, without_trailing_blanks(state.current.take(at))),
                current: state.current.skip(at + 1),
            },
            cell,
            width,
        )
    } else {
        Wrapping { done: with_row(state.done, state.current), current: seq![cell] }
    }
}

/// All cells of a line.
pub open spec fn wrapping(cells: Seq<CellModel>, width: usize, mode: WrapMode) -> Wrapping
    decreases cells.len(),
{
    if cells.len() == 0 {
        Wrapping { done: seq![], current: seq![] }
    } else {
        wrap_step(wrapping(cells.drop_last(), width, mode), cells.last(), width, mode)
    }
}

/// The rows that the cells of a line fall into.
pub open spec fn wrapped(
    cells: Seq<CellModel>,
    width: usize,
    mode: WrapMode,
) -> Seq<Seq<CellModel>> {
    let end = wrapping(cells, width, mode);
    with_row(end.done, end.current)
}

// ---------------------------------------------------------------------------
// Widths
// ---------------------------------------------------------------------------
pub proof fn lemma_total_width_push(cells: Seq<CellModel>, cell: CellModel)
    ensures
        total_width(cells.push(cell)) == total_width(cells) + cell.width,
{
    assert(cells.push(cell).drop_last() == cells);
}

pub proof fn lemma_total_width_add(a: Seq<CellModel>, b: Seq<CellModel>)
    ensures
        total_width(a + b) == total_width(a) + total_width(b),
    decreases b.len(),
{
    if b.len() == 0 {
        assert(a + b == a);
    } else {
        assert((a + b).drop_last() == a + b.drop_last());
        lemma_total_width_add(a, b.drop_last());
    }
}

pub proof fn lemma_total_width_parts(cells: Seq<CellModel>, from: int, to: int)
    requires
        0 <= from <= to <= cells.len(),
    ensures
        total_width(cells.subrange(from, to)) <= total_width(cells),
{
    lemma_total_width_add(cells.take(from), cells.subrange(from, to));
    lemma_total_width_add(cells.take(to), cells.skip(to));
    assert(cells.take(from) + cells.subrange(from, to) == cells.take(to));
    assert(cells.take(to) + cells.skip(to) == cells);
}

pub proof fn lemma_without_trailing_blanks(cells: Seq<CellModel>) -> (n: int)
    ensures
        0 <= n <= cells.len(),
        without_trailing_blanks(cells) == cells.take(n),
        forall|i: int| n <= i < cells.len() ==> blank(#[trigger] cells[i]),
        n > 0 ==> !blank(cells[n - 1]),
    decreases cells.len(),
{
    if cells.len() > 0 && blank(cells.last()) {
        let n = lemma_without_trailing_blanks(cells.drop_last());
        assert(cells.drop_last().take(n) == cells.take(n));
        assert forall|i: int| n <= i < cells.len() implies blank(#[trigger] cells[i]) by {
            if i < cells.len() - 1 {
                assert(cells[i] == cells.drop_last()[i]);
            }
        }
        n
    } else {
        assert(cells.take(cells.len() as int) == cells);
        cells.len() as int
    }
}

pub proof fn lemma_last_blank(cells: Seq<CellModel>)
    ensures
        -1 <= last_blank(cells) < cells.len(),
        last_blank(cells) >= 0 ==> blank(cells[last_blank(cells)]),
        forall|i: int| last_blank(cells) < i < cells.len() ==> !blank(#[trigger] cells[i]),
    decreases cells.len(),
{
    if cells.len() > 0 && !blank(cells.last()) {
        let shorter = cells.drop_last();
        lemma_last_blank(shorter);
        assert forall|i: int| last_blank(cells) < i < cells.len() implies !blank(
            #[trigger] cells[i],
        ) by {
            if i < cells.len() - 1 {
                assert(cells[i] == shorter[i]);
            }
        }
    }
}

/// A row holds at most one cell or keeps within the width.
pub open spec fn row_fits(row: Seq<CellModel>, width: usize) -> bool {
    row.len() <= 1 || total_width(row) <= width
}

proof fn lemma_step_fits(state: Wrapping, cell: CellModel, width: usize, mode: WrapMode)
    requires
        row_fits(state.current, width),
        forall|i: int|
            0 <= i < state.done.len() ==> {
                &&& row_fits(#[trigger] state.done[i], width)
                &&& state.done[i].len() > 0
            },
    ensures
        ({
            let next = wrap_step(state, cell, width, mode);
            &&& row_fits(next.current, width)
            &&& next.done.len() > 0 || next.current.len() > 0
            &&& forall|i: int|
                0 <= i < next.done.len() ==> {
                    &&& row_fits(#[trigger] next.done[i], width)
                    &&& next.done[i].len() > 0
                }
        }),
{
    lemma_total_width_push(state.current, cell);
    lemma_last_blank(state.current);
    let at = last_blank(state.current);
    if at > 0 {
        let n = lemma_without_trailing_blanks(state.current.take(at));
        assert(state.current.take(at).take(n) == state.current.subrange(0, n));
        lemma_total_width_parts(state.current, 0, n);
        lemma_total_width_parts(state.current, at + 1, state.current.len() as int);
        assert(state.current.skip(at + 1) == state.current.subrange(
            at + 1,
            state.current.len() as int,
        ));
        lemma_total_width_push(state.current.skip(at + 1), cell);
    }
}

pub proof fn lemma_wrapping_fits(cells: Seq<CellModel>, width: usize, mode: WrapMode)
    ensures
        ({
            let state = wrapping(cells, width, mode);
            &&& row_fits(state.current, width)
            &&& cells.len() > 0 ==> state.done.len() > 0 || state.current.len() > 0
            &&& forall|i: int|
                0 <= i < state.done.len() ==> {
                    &&& row_fits(#[trigger] state.done[i], width)
                    &&& state.done[i].len() > 0
                }
        }),
    decreases cells.len(),
{
    if cells.len() > 0 {
        lemma_wrapping_fits(cells.drop_last(), width, mode);
        lemma_step_fits(wrapping(cells.drop_last(), width, mode), cells.last(), width, mode);
    }
}

/// Every row keeps within the width, unless a single cell is wider than that;
/// no row is empty; and a line with cells has rows.
pub proof fn law_rows_fit_the_width(cells: Seq<CellModel>, width: usize, mode: WrapMode)
    ensures
        cells.len() > 0 ==> wrapped(cells, width, mode).len() > 0,
        forall|i: int|
            0 <= i < wrapped(cells, width, mode).len() ==> {
                &&& (#[trigger] wrapped(cells, width, mode)[i]).len() > 0
                &&& wrapped(cells, width, mode)[i].len() == 1 || total_width(
                    wrapped(cells, width, mode)[i],
                ) <= width
            },
{
    lemma_wrapping_fits(cells, width, mode);
}

// ---------------------------------------------------------------------------
// Order
// ---------------------------------------------------------------------------
/// Every cell from `from` to `to` is blank.
pub open spec fn blank_between(cells: Seq<CellModel>, from: int, to: int) -> bool {
    forall|i: int| from <= i < to ==> blank(#[trigger] cells[i])
}

/// The cells between cut `i` and the one before it are blank.
pub open spec fn gap_is_blank(cells: Seq<CellModel>, cuts: Seq<(int, int)>, i: int) -> bool {
    blank_between(
        cells,
        if i == 0 {
            0
        } else {
            cuts[i - 1].1
        },
        cuts[i].0,
    )
}

/// `rows` are the ranges `cuts` of `cells`, in order, and what lies before
/// them, between them and behind them, up to `end`, is blank.
pub open spec fn cut_at(
    cells: Seq<CellModel>,
    rows: Seq<Seq<CellModel>>,
    cuts: Seq<(int, int)>,
    end: int,
) -> bool {
    &&& cuts.len() == rows.len()
    &&& end <= cells.len()
    &&& forall|i: int|
        0 <= i < cuts.len() ==> {
            &&& 0 <= (#[trigger] cuts[i]).0 < cuts[i].1 <= end
            &&& rows[i] == cells.subrange(cuts[i].0, cuts[i].1)
        }
    &&& forall|i: int| 0 <= i < cuts.len() ==> #[trigger] gap_is_blank(cells, cuts, i)
    &&& forall|i: int, j: int|
        0 <= i < j < cuts.len() ==> (#[trigger] cuts[i]).1 <= (#[trigger] cuts[j]).0
    &&& blank_between(
        cells,
        if cuts.len() == 0 {
            0
        } else {
            cuts.last().1
        },
        end,
    )
}

/// Every cell from `from` to `to` is visible.
pub open spec fn visible_between(cells: Seq<CellModel>, from: int, to: int) -> bool {
    forall|i: int| from <= i < to ==> !blank(#[trigger] cells[i])
}

/// There is no word that starts at `next` or behind it and still fits on a row
/// from `from` on, whole and with all that lies before it.
pub open spec fn full_row(cells: Seq<CellModel>, from: int, next: int, width: usize) -> bool {
    forall|e: int|
        next < e <= cells.len() && (e == cells.len() || blank(cells[e])) ==> total_width(
            #[trigger] cells.subrange(from, e),
        ) > width
}

/// The row `cut` may end where it does, with the cells from `next` on left for
/// the rows behind it.
/// - It ends inside a word only if that word fills the row, but for a blank
///   first cell.
/// - It had no room for the word that follows.
/// - It ends in a visible cell, unless the cell behind it did not fit.
/// - Blank cells are left out only up to a word. A blank cell that does not fit
///   starts the next row, or is the one that raw source leaves out.
pub open spec fn ends_well(
    cells: Seq<CellModel>,
    cut: (int, int),
    next: int,
    width: usize,
    mode: WrapMode,
) -> bool {
    let (from, to) = cut;
    &&& to <= next <= cells.len()
    &&& to < cells.len() && !blank(cells[to]) ==> next == to && visible_between(cells, from + 1, to)
    &&& full_row(cells, from, next, width)
    &&& !blank(cells[to - 1]) || (to < cells.len() && total_width(cells.subrange(from, to + 1))
        > width)
    &&& (next < cells.len() && !blank(cells[next])) || (total_width(cells.subrange(from, to + 1))
        > width && next == match mode {
        WrapMode::Rendered => to,
        WrapMode::Source => to + 1,
    })
}

/// Where the row behind cut `i` starts; the cells from `start` on are no row
/// yet.
pub open spec fn next_start(cuts: Seq<(int, int)>, i: int, start: int) -> int {
    if i + 1 < cuts.len() {
        cuts[i + 1].0
    } else {
        start
    }
}

/// All rows end where they may.
pub open spec fn all_end_well(
    cells: Seq<CellModel>,
    cuts: Seq<(int, int)>,
    start: int,
    width: usize,
    mode: WrapMode,
) -> bool {
    forall|i: int|
        0 <= i < cuts.len() ==> ends_well(
            cells,
            #[trigger] cuts[i],
            next_start(cuts, i, start),
            width,
            mode,
        )
}

proof fn lemma_full_row(cells: Seq<CellModel>, from: int, reach: int, next: int, width: usize)
    requires
        0 <= from <= reach < cells.len(),
        from <= next,
        total_width(cells.subrange(from, reach + 1)) > width,
        next >= reach || visible_between(cells, next, reach + 1),
    ensures
        full_row(cells, from, next, width),
{
    assert forall|e: int|
        next < e <= cells.len() && (e == cells.len() || blank(cells[e])) implies total_width(
        #[trigger] cells.subrange(from, e),
    ) > width by {
        let row = cells.subrange(from, e);
        assert(e > reach);
        lemma_total_width_parts(row, 0, reach + 1 - from);
        assert(row.subrange(0, reach + 1 - from) =~= cells.subrange(from, reach + 1));
    }
}

/// One more row that ends well.
proof fn lemma_end_push(
    cells: Seq<CellModel>,
    cuts: Seq<(int, int)>,
    from: int,
    to: int,
    next: int,
    width: usize,
    mode: WrapMode,
)
    requires
        all_end_well(cells, cuts, from, width, mode),
        ends_well(cells, (from, to), next, width, mode),
    ensures
        all_end_well(cells, cuts.push((from, to)), next, width, mode),
{
    let more = cuts.push((from, to));
    assert forall|i: int| 0 <= i < more.len() implies ends_well(
        cells,
        #[trigger] more[i],
        next_start(more, i, next),
        width,
        mode,
    ) by {
        if i < cuts.len() {
            assert(more[i] == cuts[i]);
            assert(next_start(more, i, next) == next_start(cuts, i, from));
        }
    }
}

/// Blank cells before a word are left out.
proof fn lemma_end_skip(
    cells: Seq<CellModel>,
    cuts: Seq<(int, int)>,
    start: int,
    next: int,
    width: usize,
    mode: WrapMode,
)
    requires
        all_end_well(cells, cuts, start, width, mode),
        0 <= start < next < cells.len(),
        blank(cells[start]),
        !blank(cells[next]),
    ensures
        all_end_well(cells, cuts, next, width, mode),
{
    assert forall|i: int| 0 <= i < cuts.len() implies ends_well(
        cells,
        #[trigger] cuts[i],
        next_start(cuts, i, next),
        width,
        mode,
    ) by {
        assert(ends_well(cells, cuts[i], next_start(cuts, i, start), width, mode));
    }
}

proof fn lemma_cut_push(
    cells: Seq<CellModel>,
    rows: Seq<Seq<CellModel>>,
    cuts: Seq<(int, int)>,
    end: int,
    from: int,
    to: int,
    next: int,
) -> (more: Seq<(int, int)>)
    requires
        cut_at(cells, rows, cuts, end),
        0 <= end <= from <= to <= next <= cells.len(),
        cuts.len() == 0 || cuts.last().1 <= end,
        blank_between(cells, end, from),
        blank_between(cells, to, next),
    ensures
        cut_at(cells, with_row(rows, cells.subrange(from, to)), more, next),
        more.len() == 0 || more.last().1 <= next,
        more == if from == to {
            cuts
        } else {
            cuts.push((from, to))
        },
{
    if from == to {
        assert(cells.subrange(from, to).len() == 0);
        cuts
    } else {
        let more = cuts.push((from, to));
        let row = cells.subrange(from, to);
        let all = rows.push(row);
        assert(with_row(rows, row) == all);
        assert forall|i: int| 0 <= i < more.len() implies {
            &&& 0 <= (#[trigger] more[i]).0 < more[i].1 <= next
            &&& all[i] == cells.subrange(more[i].0, more[i].1)
        } by {
            if i < cuts.len() {
                assert(more[i] == cuts[i]);
            }
        }
        assert forall|i: int| 0 <= i < more.len() implies #[trigger] gap_is_blank(
            cells,
            more,
            i,
        ) by {
            if i < cuts.len() {
                assert(more[i] == cuts[i]);
                assert(i > 0 ==> more[i - 1] == cuts[i - 1]);
                assert(gap_is_blank(cells, cuts, i));
            } else {
                let last_end = if cuts.len() == 0 {
                    0
                } else {
                    cuts.last().1
                };
                assert(blank_between(cells, last_end, end));
                assert forall|k: int| last_end <= k < from implies blank(#[trigger] cells[k]) by {
                    if k >= end {
                        assert(blank_between(cells, end, from));
                    }
                }
            }
        }
        assert forall|i: int, j: int| 0 <= i < j < more.len() implies (#[trigger] more[i]).1 <= (
        #[trigger] more[j]).0 by {
            assert(more[i] == cuts[i]);
            if j < cuts.len() {
                assert(more[j] == cuts[j]);
            }
        }
        more
    }
}

/// The state after `n` cells: the complete rows are cut from the cells before
/// `start`, and the current row is the cells from there on.
pub open spec fn cut_state(
    cells: Seq<CellModel>,
    state: Wrapping,
    cuts: Seq<(int, int)>,
    start: int,
    n: int,
) -> bool {
    &&& 0 <= start <= n <= cells.len()
    &&& cut_at(cells, state.done, cuts, start)
    &&& state.current == cells.subrange(start, n)
}

proof fn lemma_cut_step(
    cells: Seq<CellModel>,
    state: Wrapping,
    cuts: Seq<(int, int)>,
    start: int,
    n: int,
    width: usize,
    mode: WrapMode,
) -> (next: (Seq<(int, int)>, int))
    requires
        cut_state(cells, state, cuts, start, n),
        all_end_well(cells, cuts, start, width, mode),
        n < cells.len(),
    ensures
        cut_state(cells, wrap_step(state, cells[n], width, mode), next.0, next.1, n + 1),
        all_end_well(cells, next.0, next.1, width, mode),
{
    let cell = cells[n];
    let at = last_blank(state.current);
    lemma_last_blank(state.current);
    assert(cuts.len() > 0 ==> cuts.last().1 <= start);
    assert(cells.subrange(start, n + 1) == state.current.push(cell));
    assert(cells.subrange(n, n + 1) == seq![cell]);
    assert(cells.subrange(n + 1, n + 1) == Seq::<CellModel>::empty());
    lemma_total_width_push(state.current, cell);
    assert forall|k: int| start + at < k < n implies !blank(#[trigger] cells[k]) by {
        assert(cells[k] == state.current[k - start]);
    }
    if fits(state.current, cell, width) {
        (cuts, start)
    } else if blank(cell) {
        match mode {
            WrapMode::Source => {
                lemma_full_row(cells, start, n, n + 1, width);
                lemma_end_push(cells, cuts, start, n, n + 1, width, mode);
                let more = lemma_cut_push(cells, state.done, cuts, start, start, n, n + 1);
                (more, n + 1)
            },
            WrapMode::Rendered => {
                lemma_full_row(cells, start, n, n, width);
                lemma_end_push(cells, cuts, start, n, n, width, mode);
                let more = lemma_cut_push(cells, state.done, cuts, start, start, n, n);
                (more, n)
            },
        }
    } else if at > 0 {
        let head = state.current.take(at);
        let h = lemma_without_trailing_blanks(head);
        assert(without_trailing_blanks(head) == cells.subrange(start, start + h));
        assert forall|i: int| start + h <= i < start + at + 1 implies blank(
            #[trigger] cells[i],
        ) by {
            assert(cells[i] == state.current[i - start]);
            if i < start + at {
                assert(cells[i] == head[i - start]);
            }
        }
        let rest = start + at + 1;
        let more = lemma_cut_push(cells, state.done, cuts, start, start, start + h, rest);
        assert(state.current.skip(at + 1) == cells.subrange(rest, n));
        if h > 0 {
            assert(cells[start + h - 1] == head[h - 1]);
            lemma_full_row(cells, start, n, rest, width);
            lemma_end_push(cells, cuts, start, start + h, rest, width, mode);
        } else {
            lemma_end_skip(cells, cuts, start, rest, width, mode);
        }
        let mid = Wrapping {
            done: with_row(state.done, without_trailing_blanks(head)),
            current: state.current.skip(at + 1),
        };
        if fits(mid.current, cell, width) {
            assert(cells.subrange(rest, n + 1) == mid.current.push(cell));
            (more, rest)
        } else {
            lemma_total_width_push(mid.current, cell);
            assert(cells.subrange(rest, n + 1) == mid.current.push(cell));
            lemma_full_row(cells, rest, n, n, width);
            lemma_end_push(cells, more, rest, n, n, width, mode);
            let most = lemma_cut_push(cells, mid.done, more, rest, rest, n, n);
            (most, n)
        }
    } else {
        lemma_full_row(cells, start, n, n, width);
        lemma_end_push(cells, cuts, start, n, n, width, mode);
        let more = lemma_cut_push(cells, state.done, cuts, start, start, n, n);
        (more, n)
    }
}

proof fn lemma_cut_wrapping(cells: Seq<CellModel>, n: int, width: usize, mode: WrapMode) -> (cut: (
    Seq<(int, int)>,
    int,
))
    requires
        0 <= n <= cells.len(),
    ensures
        cut_state(cells, wrapping(cells.take(n), width, mode), cut.0, cut.1, n),
        all_end_well(cells, cut.0, cut.1, width, mode),
    decreases n,
{
    if n == 0 {
        assert(cells.subrange(0, 0) == Seq::<CellModel>::empty());
        assert(cells.take(0).len() == 0);
        (seq![], 0)
    } else {
        let before = lemma_cut_wrapping(cells, n - 1, width, mode);
        assert(cells.take(n).drop_last() == cells.take(n - 1));
        assert(cells.take(n).last() == cells[n - 1]);
        lemma_cut_step(
            cells,
            wrapping(cells.take(n - 1), width, mode),
            before.0,
            before.1,
            n - 1,
            width,
            mode,
        )
    }
}

/// Wrapping cuts a line into consecutive ranges of its cells. It keeps their
/// order, and what it leaves out is blank.
pub proof fn law_wrapping_keeps_order(
    cells: Seq<CellModel>,
    width: usize,
    mode: WrapMode,
) -> (cuts: Seq<(int, int)>)
    ensures
        cut_at(cells, wrapped(cells, width, mode), cuts, cells.len() as int),
{
    let n = cells.len() as int;
    let cut = lemma_cut_wrapping(cells, n, width, mode);
    assert(cells.take(n) == cells);
    lemma_cut_push(cells, wrapping(cells, width, mode).done, cut.0, cut.1, cut.1, n, n)
}

/// Wrapping keeps words whole and rows full, and the cells that it leaves out
/// stand at the end of a row: for every row but the last, it ends where it may.
/// The last row goes on to the end of the line, but for one blank cell that raw
/// source leaves out where it does not fit.
pub proof fn law_rows_break_between_words(
    cells: Seq<CellModel>,
    width: usize,
    mode: WrapMode,
) -> (cuts: Seq<(int, int)>)
    ensures
        cut_at(cells, wrapped(cells, width, mode), cuts, cells.len() as int),
        forall|i: int|
            0 <= i < cuts.len() - 1 ==> ends_well(
                cells,
                #[trigger] cuts[i],
                cuts[i + 1].0,
                width,
                mode,
            ),
        cuts.len() > 0 ==> {
            let (from, to) = cuts.last();
            to == cells.len() || (mode == WrapMode::Source && to + 1 == cells.len() && total_width(
                cells.subrange(from, to + 1),
            ) > width)
        },
{
    let n = cells.len() as int;
    let cut = lemma_cut_wrapping(cells, n, width, mode);
    assert(cells.take(n) == cells);
    let cuts = lemma_cut_push(
        cells,
        wrapping(cells, width, mode).done,
        cut.0,
        cut.1,
        cut.1,
        n,
        n,
    );
    assert forall|i: int| 0 <= i < cuts.len() - 1 implies ends_well(
        cells,
        #[trigger] cuts[i],
        cuts[i + 1].0,
        width,
        mode,
    ) by {
        assert(cuts[i] == cut.0[i]);
        assert(next_start(cut.0, i, cut.1) == cuts[i + 1].0);
    }
    cuts
}

/// A line that is no wider than the display is one row of all its cells.
pub proof fn law_short_lines_stay_whole(cells: Seq<CellModel>, width: usize, mode: WrapMode)
    requires
        cells.len() > 0,
        total_width(cells) <= width,
    ensures
        wrapped(cells, width, mode) == seq![cells],
{
    lemma_short_wrapping(cells, width, mode);
    assert(wrapped(cells, width, mode) =~= seq![cells]);
}

proof fn lemma_short_wrapping(cells: Seq<CellModel>, width: usize, mode: WrapMode)
    requires
        total_width(cells) <= width,
    ensures
        wrapping(cells, width, mode).done == Seq::<Seq<CellModel>>::empty(),
        wrapping(cells, width, mode).current == cells,
    decreases cells.len(),
{
    if cells.len() > 0 {
        lemma_short_wrapping(cells.drop_last(), width, mode);
        assert(cells.drop_last().push(cells.last()) =~= cells);
    }
}

// ---------------------------------------------------------------------------
// The wrapper
// ---------------------------------------------------------------------------
/// What rows of cells hold.
pub open spec fn row_cells(rows: Seq<Vec<Cell>>) -> Seq<Seq<CellModel>> {
    Seq::new(rows.len(), |i: int| views(rows[i]@))
}

proof fn lemma_row_cells_push(rows: Seq<Vec<Cell>>, row: Vec<Cell>)
    ensures
        row_cells(rows.push(row)) == row_cells(rows).push(views(row@)),
{
    assert(row_cells(rows.push(row)) =~= row_cells(rows).push(views(row@)));
}

/// Takes the cells of a line one by one and gathers them into rows.
struct CellWrapper {
    width: usize,
    mode: WrapMode,
    rows: Vec<Vec<Cell>>,
    current: Vec<Cell>,
    current_width: usize,
}

impl CellWrapper {
    spec fn state(&self) -> Wrapping {
        Wrapping { done: row_cells(self.rows@), current: views(self.current@) }
    }

    spec fn wf(&self) -> bool {
        &&& self.current_width == total_width(views(self.current@))
        &&& row_fits(views(self.current@), self.width)
    }

    fn new(width: usize, mode: WrapMode) -> (wrapper: CellWrapper)
        ensures
            wrapper.wf(),
            wrapper.width == width,
            wrapper.mode == mode,
            wrapper.state() == (Wrapping { done: seq![], current: seq![] }),
    {
        let wrapper = CellWrapper {
            width,
            mode,
            rows: Vec::new(),
            current: Vec::new(),
            current_width: 0,
        };
        proof {
            assert(wrapper.state().done =~= seq![]);
            assert(wrapper.state().current =~= seq![]);
        }
        wrapper
    }

    fn cell_fits(&self, cell: &Cell) -> (b: bool)
        requires
            self.wf(),
        ensures
            b == fits(self.state().current, cell@, self.width),
    {
        self.current.len() == 0 || (cell.width <= self.width && self.current_width <= self.width
            - cell.width)
    }

    fn push_unchecked(&mut self, cell: Cell)
        requires
            old(self).wf(),
            fits(old(self).state().current, cell@, old(self).width),
        ensures
            final(self).wf(),
            final(self).width == old(self).width,
            final(self).mode == old(self).mode,
            final(self).state() == (Wrapping {
                done: old(self).state().done,
                current: old(self).state().current.push(cell@),
            }),
    {
        proof {
            lemma_total_width_push(views(self.current@), cell@);
        }
        self.current_width = self.current_width + cell.width;
        self.current.push(cell);
    }

    fn flush_current(&mut self)
        requires
            old(self).wf(),
        ensures
            final(self).wf(),
            final(self).width == old(self).width,
            final(self).mode == old(self).mode,
            final(self).state() == (Wrapping {
                done: with_row(old(self).state().done, old(self).state().current),
                current: seq![],
            }),
    {
        let mut row: Vec<Cell> = Vec::new();
        std::mem::swap(&mut row, &mut self.current);
        if row.len() > 0 {
            proof {
                lemma_row_cells_push(self.rows@, row);
            }
            self.rows.push(row);
        }
        self.current_width = 0;
        proof {
            assert(views(self.current@) =~= seq![]);
        }
    }

    fn recompute_width(&mut self)
        requires
            row_fits(views(old(self).current@), old(self).width),
        ensures
            final(self).wf(),
            final(self).width == old(self).width,
            final(self).mode == old(self).mode,
            final(self).state() == old(self).state(),
    {
        let mut sum: usize = 0;
        let mut i: usize = 0;
        while i < self.current.len()
            invariant
                i <= self.current@.len(),
                row_fits(views(self.current@), self.width),
                sum == total_width(views(self.current@).take(i as int)),
            decreases self.current@.len() - i,
        {
            proof {
                let all = views(self.current@);
                assert(all.take(i + 1).drop_last() == all.take(i as int));
                lemma_total_width_parts(all, 0, i + 1);
                assert(all.subrange(0, i + 1) == all.take(i + 1));
                assert(all.len() == 1 ==> i == 0);
            }
            sum = sum + self.current[i].width;
            i = i + 1;
        }
        proof {
            assert(views(self.current@).take(i as int) == views(self.current@));
        }
        self.current_width = sum;
    }

    fn last_blank_index(&self) -> (at: Option<usize>)
        ensures
            match at {
                Some(i) => i == last_blank(self.state().current),
                None => last_blank(self.state().current) == -1,
            },
    {
        let mut n: usize = self.current.len();
        proof {
            assert(views(self.current@).take(n as int) == views(self.current@));
        }
        while n > 0
            invariant
                n <= self.current@.len(),
                last_blank(views(self.current@).take(n as int)) == last_blank(
                    views(self.current@),
                ),
            decreases n,
        {
            proof {
                assert(views(self.current@).take(n as int).drop_last() == views(
                    self.current@,
                ).take(n - 1));
            }
            if cell_is_whitespace(&self.current[n - 1]) {
                return Some(n - 1);
            }
            n = n - 1;
        }
        None
    }

    /// Takes one more cell.
    fn push(&mut self, cell: Cell)
        requires
            old(self).wf(),
        ensures
            final(self).wf(),
            final(self).width == old(self).width,
            final(self).mode == old(self).mode,
            final(self).state() == wrap_step(
                old(self).state(),
                cell@,
                old(self).width,
                old(self).mode,
            ),
    {
        if self.cell_fits(&cell) {
            self.push_unchecked(cell);
            return ;
        }
        if cell_is_whitespace(&cell) {
            self.flush_current();
            match self.mode {
                WrapMode::Rendered => {
                    self.push_unchecked(cell);
                    proof {
                        assert(self.state().current =~= seq![cell@]);
                    }
                },
                WrapMode::Source => {},
            }
            return ;
        }
        match self.last_blank_index() {
            Some(at) if at > 0 => {
                let ghost all = views(self.current@);
                let ghost before = self.state();
                proof {
                    lemma_last_blank(all);
                    assert(at < self.current.len());
                }
                let carry = self.current.split_off(at + 1);
                self.current.pop();
                proof {
                    assert(views(self.current@) =~= all.take(at as int));
                    assert(views(carry@) =~= all.skip(at + 1));
                    let h = lemma_without_trailing_blanks(all.take(at as int));
                    assert(all.take(at as int).take(h) == all.subrange(0, h));
                    lemma_total_width_parts(all, 0, h);
                    lemma_total_width_parts(all, at + 1, all.len() as int);
                    assert(all.skip(at + 1) == all.subrange(at + 1, all.len() as int));
                }
                trim_trailing_spaces(&mut self.current);
                self.recompute_width();
                self.flush_current();
                self.current = carry;
                self.recompute_width();
                if !self.cell_fits(&cell) {
                    self.flush_current();
                    self.push_unchecked(cell);
                    proof {
                        assert(self.state().current =~= seq![cell@]);
                    }
                } else {
                    self.push_unchecked(cell);
                }
            },
            _ => {
                self.flush_current();
                self.push_unchecked(cell);
                proof {
                    assert(self.state().current =~= seq![cell@]);
                }
            },
        }
    }
}

/// Wraps the cells of a line into rows.
pub fn wrap(cells: Vec<Cell>, width: usize, mode: WrapMode) -> (rows: Vec<Vec<Cell>>)
    ensures
        row_cells(rows@) == wrapped(views(cells@), width, mode),
{
    let mut wrapper = CellWrapper::new(width, mode);
    let ghost all = views(cells@);
    proof {
        assert(all.take(0) =~= seq![]);
    }
    for cell in it: cells
        invariant
            it.seq() == cells@,
            all == views(cells@),
            wrapper.wf(),
            wrapper.width == width,
            wrapper.mode == mode,
            wrapper.state() == wrapping(all.take(it.index() as int), width, mode),
    {
        proof {
            assert(all.take(it.index() + 1).drop_last() == all.take(it.index() as int));
        }
        wrapper.push(cell);
    }
    proof {
        assert(all.take(all.len() as int) == all);
    }
    wrapper.flush_current();
    wrapper.rows
}

} // verus!
