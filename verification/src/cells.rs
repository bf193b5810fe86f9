//! Display cells: what a grapheme becomes on the writing surface.

use crate::style::Style;
use crate::text::{
    glyph_chars, group_views, is_white_space, lemma_glyph_chars_push, repeat_char, repeated,
    same_text, views, Glyph, GlyphModel,
};
use vstd::prelude::*;

verus! {

broadcast use group_views;

/// How many cells of white space a tab takes.
pub const TAB_WIDTH: usize = 3;

/// A piece of text that is drawn as one, with its width in terminal cells and
/// the range of source characters that it stands for.
#[derive(Debug, Clone)]
pub struct Cell {
    pub text: String,
    pub width: usize,
    pub style: Style,
    pub source: Option<(usize, usize)>,
}

/// What a [`Cell`] holds.
pub struct CellModel {
    pub text: Seq<char>,
    pub width: usize,
    pub style: Style,
    pub source: Option<(usize, usize)>,
}

impl View for Cell {
    type V = CellModel;

    open spec fn view(&self) -> CellModel {
        CellModel { text: self.text@, width: self.width, style: self.style, source: self.source }
    }
}

/// A cell that shows nothing but white space.
pub open spec fn blank(cell: CellModel) -> bool {
    crate::text::all_white(cell.text)
}

/// A cell is blank exactly where every part of its text is white space: a cell of
/// one character if that is, and a longer one if both its parts are.
pub proof fn law_blank_cells_are_white_space(
    cell: CellModel,
    c: char,
    a: Seq<char>,
    b: Seq<char>,
)
    ensures
        blank(CellModel { text: seq![], ..cell }),
        blank(CellModel { text: seq![c], ..cell }) <==> crate::text::white_space(c),
        blank(CellModel { text: a + b, ..cell }) <==> blank(CellModel { text: a, ..cell }) && blank(
            CellModel { text: b, ..cell },
        ),
{
    assert(seq![c][0] == c);
    if blank(CellModel { text: a + b, ..cell }) {
        assert forall|i: int| 0 <= i < a.len() implies crate::text::white_space(#[trigger] a[i]) by {
            assert((a + b)[i] == a[i]);
        }
        assert forall|i: int| 0 <= i < b.len() implies crate::text::white_space(#[trigger] b[i]) by {
            assert((a + b)[a.len() + i] == b[i]);
        }
    }
}

/// The width of some cells together.
pub open spec fn total_width(cells: Seq<CellModel>) -> nat
    decreases cells.len(),
{
    if cells.len() == 0 {
        0
    } else {
        total_width(cells.drop_last()) + cells.last().width as nat
    }
}

/// The index of the last blank cell, or -1.
pub open spec fn last_blank(cells: Seq<CellModel>) -> int
    decreases cells.len(),
{
    if cells.len() == 0 {
        -1
    } else if blank(cells.last()) {
        cells.len() - 1
    } else {
        last_blank(cells.drop_last())
    }
}

/// `cells` without the blank cells at its end.
pub open spec fn without_trailing_blanks(cells: Seq<CellModel>) -> Seq<CellModel>
    decreases cells.len(),
{
    if cells.len() > 0 && blank(cells.last()) {
        without_trailing_blanks(cells.drop_last())
    } else {
        cells
    }
}

/// `cells` without the blank cells at its start.
pub open spec fn without_leading_blanks(cells: Seq<CellModel>) -> Seq<CellModel>
    decreases cells.len(),
{
    if cells.len() > 0 && blank(cells[0]) {
        without_leading_blanks(cells.skip(1))
    } else {
        cells
    }
}

/// Some cell is not blank.
pub open spec fn some_visible(cells: Seq<CellModel>) -> bool {
    exists|i: int| 0 <= i < cells.len() && !blank(#[trigger] cells[i])
}

/// The text of some cells.
pub open spec fn cells_text(cells: Seq<CellModel>) -> Seq<char>
    decreases cells.len(),
{
    if cells.len() == 0 {
        seq![]
    } else {
        cells_text(cells.drop_last()) + cells.last().text
    }
}

/// Whether `cell` is blank.
pub fn cell_is_whitespace(cell: &Cell) -> (b: bool)
    ensures
        b == blank(cell@),
{
    let chars = crate::text::to_chars(cell.text.as_str());
    let mut i: usize = 0;
    while i < chars.len()
        invariant
            i <= chars@.len(),
            forall|k: int| 0 <= k < i ==> crate::text::white_space(#[trigger] chars@[k]),
            chars@ == cell.text@,
        decreases chars@.len() - i,
    {
        if !is_white_space(chars[i]) {
            proof {
                assert(!crate::text::white_space(cell@.text[i as int]));
            }
            return false;
        }
        i = i + 1;
    }
    true
}

/// Drops the blank cells at the start.
pub fn trim_leading_spaces(cells: Vec<Cell>) -> (kept: Vec<Cell>)
    ensures
        views(kept@) == without_leading_blanks(views(cells@)),
{
    let mut cells = cells;
    let ghost whole = views(cells@);
    let mut from: usize = 0;
    proof {
        assert(whole.skip(0) == whole);
    }
    while from < cells.len() && cell_is_whitespace(&cells[from])
        invariant
            from <= cells@.len(),
            views(cells@) == whole,
            without_leading_blanks(whole.skip(from as int)) == without_leading_blanks(whole),
        decreases cells@.len() - from,
    {
        proof {
            assert(whole.skip(from as int).skip(1) == whole.skip(from + 1));
        }
        from = from + 1;
    }
    let kept = cells.split_off(from);
    proof {
        assert(views(kept@) == whole.skip(from as int));
    }
    kept
}

/// Drops the blank cells at the end.
pub fn trim_trailing_spaces(cells: &mut Vec<Cell>)
    ensures
        views(final(cells)@) == without_trailing_blanks(views(old(cells)@)),
{
    while cells.len() > 0 && cell_is_whitespace(&cells[cells.len() - 1])
        invariant
            without_trailing_blanks(views(cells@)) == without_trailing_blanks(views(old(cells)@)),
        decreases cells@.len(),
    {
        proof {
            assert(views(cells@.drop_last()) == views(cells@).drop_last());
        }
        cells.pop();
    }
}

// ---------------------------------------------------------------------------
// From glyphs to cells
// ---------------------------------------------------------------------------
/// A cell of one space.
pub open spec fn space_cell(style: Style, source: Option<(usize, usize)>) -> CellModel {
    CellModel { text: seq![' '], width: 1, style, source }
}

/// The source position `offset` characters into `range`, or its end.
pub open spec fn clip(range: (usize, usize), offset: nat) -> usize {
    if range.0 + offset <= range.1 {
        (range.0 + offset) as usize
    } else {
        range.1
    }
}

/// The source range of the characters from `from` to `to` of a run.
pub open spec fn clip_range(
    range: Option<(usize, usize)>,
    from: nat,
    to: nat,
) -> Option<(usize, usize)> {
    match range {
        Some(r) => Some((clip(r, from), clip(r, to))),
        None => None,
    }
}

/// The cells of a glyph. A tab becomes white space: one cell for each column,
/// all of them with its source, or a single wide cell where it has none.
pub open spec fn glyph_cells(
    glyph: GlyphModel,
    style: Style,
    source: Option<(usize, usize)>,
) -> Seq<CellModel> {
    if glyph.text == seq!['\t'] {
        if source is Some {
            Seq::new(TAB_WIDTH as nat, |i: int| space_cell(style, source))
        } else {
            seq![
                CellModel {
                    text: repeated(' ', TAB_WIDTH as nat),
                    width: TAB_WIDTH,
                    style,
                    source,
                },
            ]
        }
    } else {
        seq![CellModel { text: glyph.text, width: glyph.width, style, source }]
    }
}

/// A tab takes three columns of white space, and any other grapheme is one cell
/// of its own text and width. All cells of a grapheme stand for the same source.
pub proof fn law_tabs_take_three_columns(
    glyph: GlyphModel,
    style: Style,
    source: Option<(usize, usize)>,
    i: int,
)
    requires
        0 <= i < glyph_cells(glyph, style, source).len(),
    ensures
        ({
            let cells = glyph_cells(glyph, style, source);
            &&& cells[i].source == source && cells[i].style == style
            &&& glyph.text == seq!['\t'] ==> total_width(cells) == 3 && blank(cells[i])
            &&& glyph.text == seq!['\t'] && source is Some ==> cells.len() == 3 && cells[i].width
                == 1
            &&& glyph.text != seq!['\t'] ==> cells.len() == 1 && cells[i].text == glyph.text
                && cells[i].width == glyph.width
        }),
{
    let cells = glyph_cells(glyph, style, source);
    reveal_with_fuel(total_width, 4);
    if glyph.text == seq!['\t'] {
        if source is Some {
            assert(cells.drop_last().drop_last().drop_last().len() == 0);
            assert(cells[i].text[0] == ' ');
        } else {
            assert(cells.drop_last().len() == 0);
        }
    }
}

/// The cells of a run of glyphs in one style, whose characters stand for
/// `range`.
pub open spec fn run_cells(
    glyphs: Seq<GlyphModel>,
    style: Style,
    range: Option<(usize, usize)>,
) -> Seq<CellModel>
    decreases glyphs.len(),
{
    if glyphs.len() == 0 {
        seq![]
    } else {
        run_cells(glyphs.drop_last(), style, range) + glyph_cells(
            glyphs.last(),
            style,
            clip_range(range, glyph_chars(glyphs.drop_last()).len(), glyph_chars(glyphs).len()),
        )
    }
}

/// The largest machine number that is at most `n`.
pub open spec fn saturated(n: nat) -> usize {
    if n <= usize::MAX {
        n as usize
    } else {
        usize::MAX
    }
}

fn clipped(
    range: Option<(usize, usize)>,
    from: usize,
    to: usize,
    Ghost(f): Ghost<nat>,
    Ghost(t): Ghost<nat>,
) -> (source: Option<(usize, usize)>)
    requires
        from == saturated(f),
        to == saturated(t),
    ensures
        source == clip_range(range, f, t),
{
    match range {
        Some(r) => {
            let start: usize = r.0.saturating_add(from);
            let end: usize = r.0.saturating_add(to);
            Some(
                (
                    if start <= r.1 {
                        start
                    } else {
                        r.1
                    },
                    if end <= r.1 {
                        end
                    } else {
                        r.1
                    },
                ),
            )
        },
        None => None,
    }
}

/// Writes the cells of `glyphs` behind `cells`.
pub fn push_run_cells(
    cells: &mut Vec<Cell>,
    glyphs: &Vec<Glyph>,
    style: Style,
    range: Option<(usize, usize)>,
)
    ensures
        views(final(cells)@) == views(old(cells)@) + run_cells(views(glyphs@), style, range),
{
    let ghost before = views(cells@);
    let mut offset: usize = 0;
    let mut i: usize = 0;
    proof {
        assert(views(cells@) == before + run_cells(views(glyphs@).take(0), style, range));
    }
    while i < glyphs.len()
        invariant
            i <= glyphs@.len(),
            offset == saturated(glyph_chars(views(glyphs@).take(i as int)).len()),
            views(cells@) == before + run_cells(views(glyphs@).take(i as int), style, range),
        decreases glyphs@.len() - i,
    {
        let ghost done = views(glyphs@).take(i as int);
        let ghost next = views(glyphs@).take(i + 1);
        proof {
            lemma_glyph_chars_push(views(glyphs@), i as int);
            assert(next.drop_last() == done);
        }
        let glyph = &glyphs[i];
        let len: usize = glyph.text.as_str().unicode_len();
        let end: usize = offset.saturating_add(len);
        let source = clipped(
            range,
            offset,
            end,
            Ghost(glyph_chars(done).len()),
            Ghost(glyph_chars(next).len()),
        );
        let ghost earlier = views(cells@);
        push_glyph_cells(cells, glyph, style, source);
        proof {
            assert(before + run_cells(next, style, range) =~= earlier + glyph_cells(
                glyph@,
                style,
                source,
            ));
        }
        offset = end;
        i = i + 1;
    }
    proof {
        assert(views(glyphs@).take(i as int) == views(glyphs@));
    }
}

/// Writes the cells of one glyph behind `cells`.
fn push_glyph_cells(
    cells: &mut Vec<Cell>,
    glyph: &Glyph,
    style: Style,
    source: Option<(usize, usize)>,
)
    ensures
        views(final(cells)@) == views(old(cells)@) + glyph_cells(glyph@, style, source),
{
    let ghost before = views(cells@);
    proof {
        reveal_strlit("\t");
        assert("\t"@ =~= seq!['\t']);
    }
    if same_text(glyph.text.as_str(), "\t") {
        if source.is_some() {
            let mut k: usize = 0;
            proof {
                assert(before =~= before + Seq::new(0, |i: int| space_cell(style, source)));
            }
            while k < TAB_WIDTH
                invariant
                    k <= TAB_WIDTH,
                    views(cells@) == before + Seq::new(
                        k as nat,
                        |i: int| space_cell(style, source),
                    ),
                decreases TAB_WIDTH - k,
            {
                let text = repeat_char(' ', 1);
                proof {
                    assert(text@ =~= seq![' ']);
                }
                cells.push(Cell { text, width: 1, style, source });
                proof {
                    assert(before + Seq::new((k + 1) as nat, |i: int| space_cell(style, source))
                        =~= (before + Seq::new(k as nat, |i: int| space_cell(style, source))).push(
                        space_cell(style, source),
                    ));
                }
                k = k + 1;
            }
        } else {
            let text = repeat_char(' ', TAB_WIDTH);
            cells.push(Cell { text, width: TAB_WIDTH, style, source });
            proof {
                assert(views(cells@) =~= before + glyph_cells(glyph@, style, source));
            }
        }
    } else {
        let text = glyph.text.clone();
        cells.push(Cell { text, width: glyph.width, style, source });
        proof {
            assert(views(cells@) =~= before + glyph_cells(glyph@, style, source));
        }
    }
}

} // verus!
