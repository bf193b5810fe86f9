//! The outline of the document: the headings panel and the gutter of heading
//! markers.

use crate::panels::{bold, in_color, Palette};
use crate::style::{Line, Span, SpanModel, Style, BOLD};
use crate::text::{
    display_width, fitting, glyphs_of, group_views, repeat_char, repeated, text_width, truncate,
    views,
};
use crate::visual::{source_of, RowModel, VisualDocument};
use vstd::prelude::*;

verus! {

broadcast use group_views;

/// What an outline entry stands for.
#[derive(Debug, Clone, Copy, PartialEq, Eq, Structural)]
pub enum OutlineKind {
    Heading,
    Section,
    Symbol,
}

/// An entry of the outline.
#[derive(Debug, Clone)]
pub struct OutlineEntry {
    pub kind: OutlineKind,
    pub depth: usize,
    pub line: usize,
    pub label: String,
}

/// The depth of the deepest heading, or 0.
pub open spec fn deepest(entries: Seq<OutlineEntry>) -> usize
    decreases entries.len(),
{
    if entries.len() == 0 {
        0
    } else {
        let above = deepest(entries.drop_last());
        let last = entries.last();
        if last.kind == OutlineKind::Heading && last.depth > above {
            last.depth
        } else {
            above
        }
    }
}

/// The depth of the deepest heading, or 0.
pub fn max_heading_depth(entries: &Vec<OutlineEntry>) -> (depth: usize)
    ensures
        depth == deepest(entries@),
{
    let mut depth: usize = 0;
    let mut i: usize = 0;
    while i < entries.len()
        invariant
            i <= entries@.len(),
            depth == deepest(entries@.take(i as int)),
        decreases entries@.len() - i,
    {
        proof {
            assert(entries@.take(i + 1).drop_last() == entries@.take(i as int));
        }
        if entries[i].kind == OutlineKind::Heading && entries[i].depth > depth {
            depth = entries[i].depth;
        }
        i = i + 1;
    }
    proof {
        assert(entries@.take(i as int) == entries@);
    }
    depth
}

/// The deepest heading is at least as deep as every heading, and there is one
/// of its depth unless there is none at all.
pub proof fn law_deepest_is_the_maximum(entries: Seq<OutlineEntry>, i: int)
    requires
        0 <= i < entries.len(),
        entries[i].kind == OutlineKind::Heading,
    ensures
        entries[i].depth <= deepest(entries),
        deepest(entries) > 0 ==> exists|k: int|
            0 <= k < entries.len() && (#[trigger] entries[k]).kind == OutlineKind::Heading
                && entries[k].depth == deepest(entries),
    decreases entries.len(),
{
    lemma_deepest_occurs(entries);
    if i < entries.len() - 1 {
        law_deepest_is_the_maximum(entries.drop_last(), i);
    }
}

proof fn lemma_deepest_occurs(entries: Seq<OutlineEntry>)
    ensures
        deepest(entries) > 0 ==> exists|k: int|
            0 <= k < entries.len() && (#[trigger] entries[k]).kind == OutlineKind::Heading
                && entries[k].depth == deepest(entries),
    decreases entries.len(),
{
    if entries.len() > 0 && deepest(entries) > 0 {
        let shorter = entries.drop_last();
        lemma_deepest_occurs(shorter);
        if deepest(shorter) == deepest(entries) {
            let k = choose|k: int|
                0 <= k < shorter.len() && (#[trigger] shorter[k]).kind == OutlineKind::Heading
                    && shorter[k].depth == deepest(shorter);
            assert(entries[k] == shorter[k]);
        } else {
            assert(entries[entries.len() - 1].depth == deepest(entries));
        }
    }
}

// ---------------------------------------------------------------------------
// The headings panel
// ---------------------------------------------------------------------------
/// A row of the headings panel.
#[derive(Debug, Clone)]
pub struct HeadingVisualLine {
    pub entry_idx: usize,
    pub content: String,
    pub style: Style,
}

/// What a [`HeadingVisualLine`] holds.
pub struct HeadingLineModel {
    pub entry_idx: usize,
    pub content: Seq<char>,
    pub style: Style,
}

impl View for HeadingVisualLine {
    type V = HeadingLineModel;

    open spec fn view(&self) -> HeadingLineModel {
        HeadingLineModel {
            entry_idx: self.entry_idx,
            content: self.content@,
            style: self.style,
        }
    }
}

/// The bullets of headings, for the first three levels and for deeper ones.
pub const BULLET: char = '▸';

pub const DEEP_BULLET: char = '·';

/// What stands before the label of an entry: two spaces for each level above
/// it, and a bullet.
pub open spec fn heading_prefix(depth: usize) -> Seq<char> {
    repeated(
        ' ',
        if depth == 0 {
            0
        } else {
            (2 * (depth - 1)) as nat
        },
    ) + seq![
        if depth <= 3 {
            BULLET
        } else {
            DEEP_BULLET
        },
        ' ',
    ]
}

/// Every level is set in by two cells more than the one above it, and all end in
/// a bullet and a space. The first three levels share one bullet, and the deeper
/// ones have another.
pub proof fn law_levels_are_set_in(depth: usize, deeper: usize)
    requires
        1 <= depth <= deeper,
    ensures
        heading_prefix(depth).len() >= 2,
        heading_prefix(deeper).len() == heading_prefix(depth).len() + 2 * (deeper - depth),
        heading_prefix(1).len() == 2,
        heading_prefix(depth).last() == ' ',
        forall|i: int|
            0 <= i < heading_prefix(depth).len() - 2 ==> #[trigger] heading_prefix(depth)[i] == ' ',
        heading_prefix(depth)[heading_prefix(depth).len() - 2] != ' ',
        heading_prefix(depth)[heading_prefix(depth).len() - 2] == heading_prefix(1)[0] <==> depth
            <= 3,
{
}

/// The colour of a heading level.
pub open spec fn level_color(depth: usize, palette: Palette) -> crate::style::Color {
    if depth == 1 {
        palette.heading_h1
    } else if depth == 2 {
        palette.heading_h2
    } else if depth == 3 {
        palette.heading_h3
    } else if depth == 4 {
        palette.heading_h4
    } else if depth == 5 {
        palette.heading_h5
    } else {
        palette.heading_h6
    }
}

/// The style of an entry: bold and in the colour of its level once the cursor
/// has reached its line.
pub open spec fn heading_style(entry: OutlineEntry, cursor_line: usize, palette: Palette) -> Style {
    if entry.line <= cursor_line {
        bold(in_color(level_color(entry.depth, palette)))
    } else {
        in_color(palette.text_secondary)
    }
}

/// Composes what stands before the label of an entry.
pub fn compose_prefix(depth: usize) -> (prefix: String)
    ensures
        prefix@ == heading_prefix(depth),
{
    let mut prefix = String::new();
    let mut level: usize = 1;
    proof {
        assert(prefix@ =~= repeated(' ', 0));
    }
    while level < depth
        invariant
            1 <= level,
            depth <= 1 ==> level == 1,
            depth > 1 ==> level <= depth,
            prefix@ == repeated(' ', (2 * (level - 1)) as nat),
        decreases depth - level,
    {
        prefix.push(' ');
        prefix.push(' ');
        proof {
            assert(prefix@ =~= repeated(' ', (2 * level) as nat));
        }
        level = level + 1;
    }
    prefix.push(
        if depth <= 3 {
            BULLET
        } else {
            DEEP_BULLET
        },
    );
    prefix.push(' ');
    proof {
        assert(prefix@ =~= heading_prefix(depth));
    }
    prefix
}

/// The style of an entry.
pub fn style_heading(entry: &OutlineEntry, cursor_line: usize, palette: &Palette) -> (style: Style)
    ensures
        style == heading_style(*entry, cursor_line, *palette),
{
    if entry.line <= cursor_line {
        let color = match entry.depth {
            1 => palette.heading_h1,
            2 => palette.heading_h2,
            3 => palette.heading_h3,
            4 => palette.heading_h4,
            5 => palette.heading_h5,
            _ => palette.heading_h6,
        };
        Style::default().fg(color).add_modifier(BOLD)
    } else {
        Style::default().fg(palette.text_secondary)
    }
}

/// The width that the panel is laid out for.
pub open spec fn panel_width(width: u16) -> int {
    if width == 0 {
        1
    } else {
        width as int
    }
}

/// The cells that a label has behind a prefix of the given width; none where
/// the prefix fills the panel.
pub open spec fn label_room(width: u16, prefix_width: usize) -> int {
    if prefix_width >= panel_width(width) {
        0
    } else {
        panel_width(width) - prefix_width
    }
}

/// The cells that the label of an entry has.
pub fn label_width(depth: usize, max_width: u16) -> (room: usize)
    ensures
        room == label_room(max_width, display_width(heading_prefix(depth))),
{
    let prefix = compose_prefix(depth);
    label_width_behind(text_width(prefix.as_str()), max_width)
}

/// The cells that a label has behind a prefix of the given width.
pub fn label_width_behind(prefix_width: usize, max_width: u16) -> (room: usize)
    ensures
        room == label_room(max_width, prefix_width),
{
    let width: usize = if max_width == 0 {
        1
    } else {
        max_width as usize
    };
    if prefix_width >= width {
        0
    } else {
        width - prefix_width
    }
}

/// A label has the cells of the panel that its prefix leaves, and none where the
/// prefix fills it; a panel without columns is laid out for one.
pub proof fn law_labels_have_what_the_prefix_leaves(width: u16, prefix_width: usize)
    ensures
        width > 0 && prefix_width < width ==> prefix_width + label_room(width, prefix_width)
            == width,
        prefix_width >= width && prefix_width > 0 ==> label_room(width, prefix_width) == 0,
        label_room(0, 0) == 1,
{
}

/// A label is wrapped piece by piece: a piece, and whether it is the last.
#[derive(Debug)]
pub struct LabelPiece {
    pub text: String,
    pub last: bool,
}

/// Wrapping goes on: there is no piece yet, or the last one left something
/// over. A piece behind the first that is empty ends it, since the rest would
/// never fit.
pub open spec fn wrapping_goes_on(pieces: Seq<LabelPiece>) -> bool {
    pieces.len() == 0 || (!pieces.last().last && (pieces.len() == 1 || pieces.last().text@.len()
        > 0))
}

/// Wrapping begins for every label, goes on while pieces are not empty and none
/// is the last, and ends with the last one, or with an empty one behind the
/// first.
pub proof fn law_wrapping_a_label_ends(pieces: Seq<LabelPiece>, piece: LabelPiece)
    ensures
        wrapping_goes_on(Seq::<LabelPiece>::empty()),
        piece.last ==> !wrapping_goes_on(pieces.push(piece)),
        !piece.last && piece.text@.len() > 0 ==> wrapping_goes_on(pieces.push(piece)),
        pieces.len() > 0 && piece.text@.len() == 0 ==> !wrapping_goes_on(pieces.push(piece)),
{
}

/// Whether the label has to be wrapped further.
pub fn needs_piece(pieces: &Vec<LabelPiece>) -> (more: bool)
    ensures
        more == wrapping_goes_on(pieces@),
{
    let n: usize = pieces.len();
    n == 0 || (!pieces[n - 1].last && (n == 1 || pieces[n - 1].text.as_str().unicode_len() > 0))
}

/// The rows of an entry: the prefix and the first piece, then the other pieces
/// under it. An empty piece behind the first has no row.
pub open spec fn entry_rows(
    idx: usize,
    prefix: Seq<char>,
    prefix_width: usize,
    pieces: Seq<LabelPiece>,
    style: Style,
) -> Seq<HeadingLineModel>
    decreases pieces.len(),
{
    if pieces.len() == 0 {
        seq![]
    } else {
        let above = entry_rows(idx, prefix, prefix_width, pieces.drop_last(), style);
        let text = pieces.last().text@;
        if pieces.len() == 1 {
            above.push(HeadingLineModel { entry_idx: idx, content: prefix + text, style })
        } else if text.len() == 0 {
            above
        } else {
            above.push(
                HeadingLineModel {
                    entry_idx: idx,
                    content: repeated(' ', prefix_width as nat) + text,
                    style,
                },
            )
        }
    }
}

/// The rows of an entry whose label was wrapped into `pieces`, behind a prefix
/// of the given width.
pub fn rows_of_pieces(
    idx: usize,
    prefix: &str,
    prefix_width: usize,
    pieces: &Vec<LabelPiece>,
    style: Style,
) -> (rows: Vec<HeadingVisualLine>)
    ensures
        views(rows@) == entry_rows(idx, prefix@, prefix_width, pieces@, style),
{
    let mut rows: Vec<HeadingVisualLine> = Vec::new();
    let mut i: usize = 0;
    proof {
        assert(views(rows@) =~= entry_rows(idx, prefix@, prefix_width, pieces@.take(0), style));
    }
    while i < pieces.len()
        invariant
            i <= pieces@.len(),
            views(rows@) == entry_rows(
                idx,
                prefix@,
                prefix_width,
                pieces@.take(i as int),
                style,
            ),
        decreases pieces@.len() - i,
    {
        proof {
            assert(pieces@.take(i + 1).drop_last() == pieces@.take(i as int));
        }
        let text = pieces[i].text.as_str();
        if i == 0 {
            let mut content = prefix.to_string();
            content.append(text);
            rows.push(HeadingVisualLine { entry_idx: idx, content, style });
        } else if text.unicode_len() > 0 {
            let mut content = repeat_char(' ', prefix_width);
            content.append(text);
            rows.push(HeadingVisualLine { entry_idx: idx, content, style });
        }
        i = i + 1;
    }
    proof {
        assert(pieces@.take(i as int) == pieces@);
    }
    rows
}

/// The rows of an entry that there is no room for: the start of its prefix.
pub open spec fn narrow_rows(idx: usize, prefix: Seq<char>, width: int, style: Style) -> Seq<
    HeadingLineModel,
> {
    seq![HeadingLineModel { entry_idx: idx, content: fitting(glyphs_of(prefix), width), style }]
}

/// The rows of entry `idx` of the outline, whose label was wrapped into
/// `pieces`.
pub open spec fn heading_rows(
    idx: usize,
    entry: OutlineEntry,
    pieces: Seq<LabelPiece>,
    cursor_line: usize,
    max_width: u16,
    palette: Palette,
) -> Seq<HeadingLineModel> {
    let prefix = heading_prefix(entry.depth);
    let style = heading_style(entry, cursor_line, palette);
    if label_room(max_width, display_width(prefix)) == 0 {
        narrow_rows(idx, prefix, panel_width(max_width), style)
    } else {
        entry_rows(idx, prefix, display_width(prefix), pieces, style)
    }
}

/// The rows of entry `idx` of the outline. `pieces` is its label, wrapped to
/// the cells that it has; it is not read where the label has none.
pub fn build_heading_rows(
    idx: usize,
    entry: &OutlineEntry,
    pieces: &Vec<LabelPiece>,
    cursor_line: usize,
    max_width: u16,
    palette: &Palette,
) -> (rows: Vec<HeadingVisualLine>)
    ensures
        views(rows@) == heading_rows(idx, *entry, pieces@, cursor_line, max_width, *palette),
{
    let style = style_heading(entry, cursor_line, palette);
    let prefix = compose_prefix(entry.depth);
    let prefix_width: usize = text_width(prefix.as_str());
    if label_width_behind(prefix_width, max_width) == 0 {
        let width: usize = if max_width == 0 {
            1
        } else {
            max_width as usize
        };
        let content = truncate(prefix.as_str(), width);
        let mut rows: Vec<HeadingVisualLine> = Vec::new();
        rows.push(HeadingVisualLine { entry_idx: idx, content, style });
        proof {
            assert(views(rows@) =~= narrow_rows(
                idx,
                heading_prefix(entry.depth),
                panel_width(max_width),
                style,
            ));
        }
        rows
    } else {
        rows_of_pieces(idx, prefix.as_str(), prefix_width, pieces, style)
    }
}

/// The text starts with `n` blanks.
pub open spec fn set_in(text: Seq<char>, n: int) -> bool {
    n <= text.len() && forall|j: int| 0 <= j < n ==> (#[trigger] text[j]) == ' '
}

/// Every row of an entry belongs to it, the first one starts with the prefix,
/// the others are set in by its width, and there are no more rows than pieces.
pub proof fn law_rows_belong_to_their_entry(
    idx: usize,
    prefix: Seq<char>,
    prefix_width: usize,
    pieces: Seq<LabelPiece>,
    style: Style,
)
    ensures
        ({
            let rows = entry_rows(idx, prefix, prefix_width, pieces, style);
            &&& rows.len() <= pieces.len()
            &&& pieces.len() > 0 ==> rows.len() > 0 && rows[0].content == prefix + pieces[0].text@
            &&& forall|i: int|
                0 <= i < rows.len() ==> (#[trigger] rows[i]).entry_idx == idx && rows[i].style
                    == style
            &&& forall|i: int|
                1 <= i < rows.len() ==> set_in((#[trigger] rows[i]).content, prefix_width as int)
        }),
    decreases pieces.len(),
{
    if pieces.len() > 0 {
        law_rows_belong_to_their_entry(idx, prefix, prefix_width, pieces.drop_last(), style);
    }
}

/// The rows of the headings panel: those of the entries, one entry after the
/// other.
pub open spec fn panel_rows(
    entries: Seq<OutlineEntry>,
    pieces: Seq<Vec<LabelPiece>>,
    cursor_line: usize,
    max_width: u16,
    palette: Palette,
) -> Seq<HeadingLineModel>
    decreases entries.len(),
{
    if entries.len() == 0 {
        seq![]
    } else {
        panel_rows(entries.drop_last(), pieces.drop_last(), cursor_line, max_width, palette)
            + heading_rows(
            (entries.len() - 1) as usize,
            entries.last(),
            pieces.last()@,
            cursor_line,
            max_width,
            palette,
        )
    }
}

/// The rows of the headings panel. `pieces` has the label of each entry,
/// wrapped to the cells that it has.
pub fn heading_panel_rows(
    entries: &Vec<OutlineEntry>,
    pieces: &Vec<Vec<LabelPiece>>,
    cursor_line: usize,
    max_width: u16,
    palette: &Palette,
) -> (rows: Vec<HeadingVisualLine>)
    requires
        pieces@.len() == entries@.len(),
    ensures
        views(rows@) == panel_rows(entries@, pieces@, cursor_line, max_width, *palette),
{
    let mut rows: Vec<HeadingVisualLine> = Vec::new();
    let mut idx: usize = 0;
    proof {
        assert(views(rows@) =~= panel_rows(
            entries@.take(0),
            pieces@.take(0),
            cursor_line,
            max_width,
            *palette,
        ));
    }
    while idx < entries.len()
        invariant
            idx <= entries@.len() == pieces@.len(),
            views(rows@) == panel_rows(
                entries@.take(idx as int),
                pieces@.take(idx as int),
                cursor_line,
                max_width,
                *palette,
            ),
        decreases entries@.len() - idx,
    {
        let mut own = build_heading_rows(
            idx,
            &entries[idx],
            &pieces[idx],
            cursor_line,
            max_width,
            palette,
        );
        proof {
            assert(entries@.take(idx + 1).drop_last() =~= entries@.take(idx as int));
            assert(pieces@.take(idx + 1).drop_last() =~= pieces@.take(idx as int));
            assert(views(rows@ + own@) =~= views(rows@) + views(own@));
        }
        rows.append(&mut own);
        idx = idx + 1;
    }
    proof {
        assert(entries@.take(idx as int) =~= entries@);
        assert(pieces@.take(idx as int) =~= pieces@);
    }
    rows
}

/// Entry `i` has a row.
pub open spec fn listed(rows: Seq<HeadingLineModel>, i: int) -> bool {
    exists|r: int| 0 <= r < rows.len() && (#[trigger] rows[r]).entry_idx == i
}

/// The headings panel lists every entry of the outline, in order, and nothing
/// else: each has a row where its label was wrapped, or where there is no room
/// for one. The rows of an entry have one style, and those behind the first are
/// set in by the width of its prefix.
pub proof fn law_panel_lists_every_entry(
    entries: Seq<OutlineEntry>,
    pieces: Seq<Vec<LabelPiece>>,
    cursor_line: usize,
    max_width: u16,
    palette: Palette,
)
    requires
        pieces.len() == entries.len() <= usize::MAX,
    ensures
        ({
            let rows = panel_rows(entries, pieces, cursor_line, max_width, palette);
            &&& forall|r: int|
                0 <= r < rows.len() ==> {
                    &&& (#[trigger] rows[r]).entry_idx < entries.len()
                    &&& rows[r].style == heading_style(
                        entries[rows[r].entry_idx as int],
                        cursor_line,
                        palette,
                    )
                }
            &&& forall|q: int, r: int|
                0 <= q < r < rows.len() ==> {
                    &&& (#[trigger] rows[q]).entry_idx <= (#[trigger] rows[r]).entry_idx
                    &&& rows[q].entry_idx == rows[r].entry_idx ==> set_in(
                        rows[r].content,
                        display_width(
                            heading_prefix(entries[rows[r].entry_idx as int].depth),
                        ) as int,
                    )
                }
            &&& forall|i: int|
                0 <= i < entries.len() && (pieces[i]@.len() > 0 || label_room(
                    max_width,
                    display_width(heading_prefix(entries[i].depth)),
                ) == 0) ==> #[trigger] listed(rows, i)
        }),
    decreases entries.len(),
{
    if entries.len() > 0 {
        let n = entries.len() - 1;
        let (first, labels) = (entries.drop_last(), pieces.drop_last());
        law_panel_lists_every_entry(first, labels, cursor_line, max_width, palette);
        let above = panel_rows(first, labels, cursor_line, max_width, palette);
        let entry = entries.last();
        let prefix = heading_prefix(entry.depth);
        let style = heading_style(entry, cursor_line, palette);
        law_rows_belong_to_their_entry(
            n as usize,
            prefix,
            display_width(prefix),
            pieces.last()@,
            style,
        );
        let own = heading_rows(
            n as usize,
            entry,
            pieces.last()@,
            cursor_line,
            max_width,
            palette,
        );
        let rows = panel_rows(entries, pieces, cursor_line, max_width, palette);
        assert(rows == above + own);
        assert(own.len() > 0 ==> rows[above.len() as int] == own[0]);
        assert forall|i: int| 0 <= i < n && listed(above, i) implies #[trigger] listed(
            rows,
            i,
        ) by {
            let r = choose|r: int| 0 <= r < above.len() && (#[trigger] above[r]).entry_idx == i;
            assert(rows[r] == above[r]);
        }
    }
}

/// An entry is bold exactly where the cursor has reached its line.
pub proof fn law_reached_entries_are_bold(
    entry: OutlineEntry,
    cursor_line: usize,
    palette: Palette,
)
    ensures
        heading_style(entry, cursor_line, palette).add_modifier & BOLD == BOLD <==> entry.line
            <= cursor_line,
{
    assert((0u16 | 1u16) & 1u16 == 1u16) by (bit_vector);
    assert(0u16 & 1u16 == 0u16) by (bit_vector);
}

/// Each of the six levels has its own colour once the cursor has reached it, and
/// deeper ones have that of the sixth; before, all have the same.
pub proof fn law_levels_have_their_colours(
    entry: OutlineEntry,
    cursor_line: usize,
    palette: Palette,
)
    ensures
        ({
            let colours = seq![
                palette.heading_h1,
                palette.heading_h2,
                palette.heading_h3,
                palette.heading_h4,
                palette.heading_h5,
                palette.heading_h6,
            ];
            let shown = heading_style(entry, cursor_line, palette).fg;
            &&& entry.line <= cursor_line && 1 <= entry.depth <= 6 ==> shown == Some(
                colours[entry.depth - 1],
            )
            &&& entry.line <= cursor_line && entry.depth > 6 ==> shown == Some(colours[5])
            &&& entry.line > cursor_line ==> shown == Some(palette.text_secondary)
        }),
{
}

/// The scroll position of the headings panel, held inside its rows.
pub fn clamp_heading_scroll(scroll: u16, rows: usize, height: u16) -> (now: u16)
    ensures
        now == crate::layout::clamped(scroll as int, rows as int, height as int),
{
    let last: usize = crate::layout::max_scroll(rows, height);
    if (scroll as usize) < last {
        scroll
    } else {
        last as u16
    }
}

/// The lines of the headings panel that are in view.
pub open spec fn heading_view(rows: Seq<HeadingLineModel>, scroll: int, height: int) -> Seq<
    Seq<SpanModel>,
> {
    let left = if scroll < rows.len() {
        rows.len() - scroll
    } else {
        0
    };
    Seq::new(
        (if height < left {
            height
        } else {
            left
        }) as nat,
        |i: int|
            seq![SpanModel { content: rows[scroll + i].content, style: rows[scroll + i].style }],
    )
}

/// Draws the lines of the headings panel that are in view.
pub fn draw_headings(rows: &Vec<HeadingVisualLine>, scroll: u16, height: u16) -> (drawn: Vec<Line>)
    ensures
        views(drawn@) == heading_view(views(rows@), scroll as int, height as int),
{
    let mut drawn: Vec<Line> = Vec::new();
    let first: usize = scroll as usize;
    let mut at: usize = first;
    let ghost target = heading_view(views(rows@), scroll as int, height as int);
    proof {
        assert(views(drawn@) =~= target.take(0));
    }
    while at < rows.len() && at - first < height as usize
        invariant
            first == scroll,
            first <= at,
            at - first <= target.len(),
            target == heading_view(views(rows@), scroll as int, height as int),
            views(drawn@) == target.take(at - first),
        decreases rows@.len() - at,
    {
        let mut spans: Vec<Span> = Vec::new();
        spans.push(Span { content: rows[at].content.clone(), style: rows[at].style });
        let line = Line { spans };
        proof {
            assert(line@ =~= target[at - first]);
            assert(target.take(at - first + 1) =~= target.take(at - first).push(line@));
        }
        drawn.push(line);
        at = at + 1;
    }
    proof {
        assert(target.take(at - first) =~= target);
    }
    drawn
}

// ---------------------------------------------------------------------------
// The gutter
// ---------------------------------------------------------------------------
/// The source characters at the start of the rows from `from` to `to`.
pub open spec fn row_positions(rows: Seq<RowModel>, from: int, to: int) -> Seq<Option<usize>> {
    Seq::new(
        (if from < to {
            to - from
        } else {
            0
        }) as nat,
        |i: int| source_of(rows, from + i, 0),
    )
}

/// The row behind the last one in view.
pub open spec fn view_end(rows: Seq<RowModel>, scroll: int, height: int) -> int {
    if scroll + height < rows.len() {
        scroll + height
    } else {
        rows.len() as int
    }
}

/// The source characters at the start of the rows in view.
pub fn gutter_positions(visual: &VisualDocument, scroll: usize, height: u16) -> (positions: Vec<
    Option<usize>,
>)
    ensures
        positions@ == row_positions(
            visual@,
            scroll as int,
            view_end(visual@, scroll as int, height as int),
        ),
{
    let mut positions: Vec<Option<usize>> = Vec::new();
    let mut row: usize = scroll;
    let ghost end = view_end(visual@, scroll as int, height as int);
    let ghost target = row_positions(visual@, scroll as int, end);
    proof {
        assert(positions@ =~= target.take(0));
    }
    while row < visual.rows.len() && row - scroll < height as usize
        invariant
            scroll <= row,
            row - scroll <= target.len(),
            end == view_end(visual@, scroll as int, height as int),
            target == row_positions(visual@, scroll as int, end),
            positions@ == target.take(row - scroll),
        decreases visual@.len() - row,
    {
        let position = visual.display_to_source(row, 0);
        proof {
            assert(target.take(row - scroll + 1) =~= target.take(row - scroll).push(position));
        }
        positions.push(position);
        row = row + 1;
    }
    proof {
        assert(target.take(row - scroll) =~= target);
    }
    positions
}

/// The source character at the start of the row above the view.
pub fn position_above(visual: &VisualDocument, scroll: usize) -> (position: Option<usize>)
    ensures
        position == source_of(visual@, scroll - 1, 0),
{
    if scroll > 0 {
        visual.display_to_source(scroll - 1, 0)
    } else {
        None
    }
}

/// The depth of the heading on a line: that of the last one there, or 0.
pub open spec fn depth_on_line(entries: Seq<OutlineEntry>, line: usize) -> usize
    decreases entries.len(),
{
    if entries.len() == 0 {
        0
    } else if entries.last().kind == OutlineKind::Heading && entries.last().line == line {
        entries.last().depth
    } else {
        depth_on_line(entries.drop_last(), line)
    }
}

/// The marker of row `i` of the view, for the source line of each row in view
/// and of the row above: only the first row of a heading has one.
pub open spec fn marker(
    entries: Seq<OutlineEntry>,
    lines: Seq<Option<usize>>,
    above: Option<usize>,
    max_depth: int,
    i: int,
) -> Seq<char> {
    let previous = if i == 0 {
        above
    } else {
        lines[i - 1]
    };
    match lines[i] {
        Some(line) => {
            let depth = depth_on_line(entries, line) as int;
            repeated(
                '#',
                if previous == Some(line) {
                    0
                } else if depth < max_depth {
                    depth as nat
                } else {
                    max_depth as nat
                },
            )
        },
        None => seq![],
    }
}

fn find_depth(entries: &Vec<OutlineEntry>, line: usize) -> (depth: usize)
    ensures
        depth == depth_on_line(entries@, line),
{
    let mut n: usize = entries.len();
    proof {
        assert(entries@.take(n as int) == entries@);
    }
    while n > 0
        invariant
            n <= entries@.len(),
            depth_on_line(entries@.take(n as int), line) == depth_on_line(entries@, line),
        decreases n,
    {
        proof {
            assert(entries@.take(n as int).drop_last() == entries@.take(n - 1));
        }
        if entries[n - 1].kind == OutlineKind::Heading && entries[n - 1].line == line {
            return entries[n - 1].depth;
        }
        n = n - 1;
    }
    0
}

/// The number of markers in front of a row of the view.
fn marker_len(
    entries: &Vec<OutlineEntry>,
    line: Option<usize>,
    previous: Option<usize>,
    max_depth: usize,
) -> (n: usize)
    ensures
        n == (match line {
            Some(l) => if previous == Some(l) {
                0
            } else if depth_on_line(entries@, l) < max_depth {
                depth_on_line(entries@, l)
            } else {
                max_depth
            },
            None => 0,
        }),
{
    match line {
        Some(l) => {
            let same = match previous {
                Some(p) => p == l,
                None => false,
            };
            if same {
                return 0;
            }
            let depth: usize = find_depth(entries, l);
            if depth < max_depth {
                depth
            } else {
                max_depth
            }
        },
        None => 0,
    }
}

/// The depth that markers are shown for: the deepest, but not more than the
/// gutter has cells.
pub open spec fn shown_depth(entries: Seq<OutlineEntry>, width: u16) -> int {
    if deepest(entries) < width {
        deepest(entries) as int
    } else {
        width as int
    }
}

/// The lines of the gutter.
pub open spec fn gutter_view(
    entries: Seq<OutlineEntry>,
    lines: Seq<Option<usize>>,
    above: Option<usize>,
    width: u16,
    palette: Palette,
) -> Seq<Seq<SpanModel>> {
    Seq::new(
        lines.len(),
        |i: int|
            seq![
                SpanModel {
                    content: marker(entries, lines, above, shown_depth(entries, width), i),
                    style: in_color(palette.text_dim),
                },
            ],
    )
}

/// Draws the gutter, for the source line of each row in view and of the row
/// above the view.
pub fn draw_gutter(
    entries: &Vec<OutlineEntry>,
    lines: &Vec<Option<usize>>,
    above: Option<usize>,
    width: u16,
    palette: &Palette,
) -> (drawn: Vec<Line>)
    ensures
        views(drawn@) == gutter_view(entries@, lines@, above, width, *palette),
{
    let deepest_heading: usize = max_heading_depth(entries);
    let max_depth: usize = if deepest_heading < width as usize {
        deepest_heading
    } else {
        width as usize
    };
    let mut drawn: Vec<Line> = Vec::new();
    let mut previous: Option<usize> = above;
    let mut i: usize = 0;
    let ghost target = gutter_view(entries@, lines@, above, width, *palette);
    proof {
        assert(views(drawn@) =~= target.take(0));
    }
    while i < lines.len()
        invariant
            i <= lines@.len(),
            max_depth == shown_depth(entries@, width),
            previous == (if i == 0 {
                above
            } else {
                lines@[i - 1]
            }),
            target == gutter_view(entries@, lines@, above, width, *palette),
            views(drawn@) == target.take(i as int),
        decreases lines@.len() - i,
    {
        let line = lines[i];
        let marks: usize = marker_len(entries, line, previous, max_depth);
        let content = repeat_char('#', marks);
        let mut spans: Vec<Span> = Vec::new();
        spans.push(Span { content, style: Style::default().fg(palette.text_dim) });
        let drawn_line = Line { spans };
        proof {
            assert(content@ =~= marker(
                entries@,
                lines@,
                above,
                shown_depth(entries@, width),
                i as int,
            ));
            assert(drawn_line@ =~= target[i as int]);
            assert(target.take(i + 1) =~= target.take(i as int).push(drawn_line@));
        }
        drawn.push(drawn_line);
        previous = line;
        i = i + 1;
    }
    proof {
        assert(target.take(i as int) =~= target);
    }
    drawn
}

/// Markers fit the gutter, and rows that continue the line of the row above
/// have none.
pub proof fn law_markers_fit_the_gutter(
    entries: Seq<OutlineEntry>,
    lines: Seq<Option<usize>>,
    above: Option<usize>,
    width: u16,
    i: int,
)
    requires
        0 <= i < lines.len(),
    ensures
        marker(entries, lines, above, shown_depth(entries, width), i).len() <= width,
        i > 0 && lines[i] == lines[i - 1] ==> marker(
            entries,
            lines,
            above,
            shown_depth(entries, width),
            i,
        ).len() == 0,
{
}

proof fn lemma_depth_on_line(entries: Seq<OutlineEntry>, line: usize, i: int)
    requires
        0 <= i < entries.len(),
        entries[i].kind == OutlineKind::Heading,
        entries[i].line == line,
        forall|k: int|
            i < k < entries.len() && (#[trigger] entries[k]).kind == OutlineKind::Heading
                ==> entries[k].line != line,
    ensures
        depth_on_line(entries, line) == entries[i].depth,
    decreases entries.len(),
{
    if i < entries.len() - 1 {
        let t = entries.drop_last();
        assert(entries[entries.len() - 1].kind == OutlineKind::Heading ==> entries[entries.len()
            - 1].line != line);
        assert forall|k: int|
            i < k < t.len() && (#[trigger] t[k]).kind == OutlineKind::Heading implies t[k].line
            != line by {
            assert(t[k] == entries[k]);
        }
        lemma_depth_on_line(t, line, i);
    }
}

proof fn lemma_no_depth_on_line(entries: Seq<OutlineEntry>, line: usize)
    requires
        forall|k: int|
            0 <= k < entries.len() && (#[trigger] entries[k]).kind == OutlineKind::Heading
                ==> entries[k].line != line,
    ensures
        depth_on_line(entries, line) == 0,
    decreases entries.len(),
{
    if entries.len() > 0 {
        let t = entries.drop_last();
        assert(entries[entries.len() - 1].kind == OutlineKind::Heading ==> entries[entries.len()
            - 1].line != line);
        assert forall|k: int|
            0 <= k < t.len() && (#[trigger] t[k]).kind == OutlineKind::Heading implies t[k].line
            != line by {
            assert(t[k] == entries[k]);
        }
        lemma_no_depth_on_line(t, line);
    }
}

/// Where a heading starts in the view, the gutter shows as many marks as the
/// heading has in its source, where it has cells for them.
pub proof fn law_headings_are_marked_with_their_depth(
    entries: Seq<OutlineEntry>,
    lines: Seq<Option<usize>>,
    above: Option<usize>,
    width: u16,
    i: int,
    k: int,
)
    requires
        0 <= i < lines.len(),
        0 <= k < entries.len(),
        entries[k].kind == OutlineKind::Heading,
        lines[i] == Some(entries[k].line),
        forall|j: int|
            k < j < entries.len() && (#[trigger] entries[j]).kind == OutlineKind::Heading
                ==> entries[j].line != entries[k].line,
        i == 0 ==> above != lines[i],
        i > 0 ==> lines[i - 1] != lines[i],
    ensures
        ({
            let marks = marker(entries, lines, above, shown_depth(entries, width), i);
            &&& forall|j: int| 0 <= j < marks.len() ==> #[trigger] marks[j] == '#'
            &&& entries[k].depth <= width ==> marks.len() == entries[k].depth
            &&& entries[k].depth > width ==> marks.len() == width
        }),
{
    lemma_depth_on_line(entries, entries[k].line, k);
    law_deepest_is_the_maximum(entries, k);
}

/// A row of a line without a heading has no mark, nor has one without a line.
pub proof fn law_other_lines_are_not_marked(
    entries: Seq<OutlineEntry>,
    lines: Seq<Option<usize>>,
    above: Option<usize>,
    width: u16,
    i: int,
)
    requires
        0 <= i < lines.len(),
        forall|k: int|
            0 <= k < entries.len() && (#[trigger] entries[k]).kind == OutlineKind::Heading ==> lines[i]
                != Some(entries[k].line),
    ensures
        marker(entries, lines, above, shown_depth(entries, width), i).len() == 0,
{
    if let Some(line) = lines[i] {
        assert forall|k: int|
            0 <= k < entries.len() && (#[trigger] entries[k]).kind
                == OutlineKind::Heading implies entries[k].line != line by {
            assert(lines[i] != Some(entries[k].line));
        }
        lemma_no_depth_on_line(entries, line);
    }
}

/// The gutter stands beside the text: it has a line for each row that is drawn,
/// which shows the marks of that row, and the position that they are found by is
/// where the row starts.
pub proof fn law_the_gutter_stands_beside_the_text(
    rows: Seq<RowModel>,
    scroll: int,
    height: int,
    selection: Option<(usize, usize)>,
    over: Style,
    i: int,
)
    requires
        0 <= scroll,
        0 <= height,
    ensures
        ({
            let drawn = crate::visual::text_of(rows, scroll, height, selection, over);
            let positions = row_positions(rows, scroll, view_end(rows, scroll, height));
            &&& positions.len() == drawn.len()
            &&& 0 <= i < drawn.len() ==> positions[i] == source_of(rows, scroll + i, 0)
                && drawn[i] == crate::visual::row_line(rows[scroll + i], selection, over)
        }),
{
}

/// Every line of the gutter shows the marks of its row, in one style.
pub proof fn law_the_gutter_shows_the_marks(
    entries: Seq<OutlineEntry>,
    lines: Seq<Option<usize>>,
    above: Option<usize>,
    width: u16,
    palette: Palette,
    i: int,
)
    requires
        0 <= i < lines.len(),
    ensures
        ({
            let drawn = gutter_view(entries, lines, above, width, palette);
            &&& drawn.len() == lines.len()
            &&& drawn[i].len() == 1
            &&& drawn[i][0].content == marker(
                entries,
                lines,
                above,
                shown_depth(entries, width),
                i,
            )
            &&& drawn[i][0].style.fg == Some(palette.text_dim)
        }),
{
}

} // verus!
