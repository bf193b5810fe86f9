//! Areas of the screen: how they are divided, hit and scrolled.

use crate::style::{Line, Span, SpanModel, Style};
use crate::text::{byte_count, byte_len, byte_offset, repeat_char, repeated, to_chars, views};
use crate::visual::{display_of, VisualDocument};
use vstd::prelude::*;

verus! {

/// A rectangle of terminal cells.
#[derive(Debug, Clone, Copy, PartialEq, Eq, Structural)]
pub struct Rect {
    pub x: u16,
    pub y: u16,
    pub width: u16,
    pub height: u16,
}

/// The empty rectangle.
pub open spec fn no_area() -> Rect {
    Rect { x: 0, y: 0, width: 0, height: 0 }
}

impl Rect {
    /// The rectangle ends where a terminal coordinate can.
    pub open spec fn wf(self) -> bool {
        self.x + self.width <= u16::MAX && self.y + self.height <= u16::MAX
    }

    /// The cell at column `col` and row `row` lies in the rectangle.
    pub open spec fn holds(self, col: int, row: int) -> bool {
        self.x <= col < self.x + self.width && self.y <= row < self.y + self.height
    }

    /// The rectangle lies in `area`.
    pub open spec fn within(self, area: Rect) -> bool {
        &&& area.x <= self.x && self.x + self.width <= area.x + area.width
        &&& area.y <= self.y && self.y + self.height <= area.y + area.height
    }
}

impl Default for Rect {
    fn default() -> (area: Rect)
        ensures
            area == no_area(),
    {
        Rect { x: 0, y: 0, width: 0, height: 0 }
    }
}

/// Whether a cell lies in an area.
pub fn point_in(area: Rect, col: u16, row: u16) -> (b: bool)
    ensures
        b == area.holds(col as int, row as int),
{
    col >= area.x && col - area.x < area.width && row >= area.y && row - area.y < area.height
}

// ---------------------------------------------------------------------------
// The gutter of heading markers
// ---------------------------------------------------------------------------
/// How the document area is divided into the gutter of heading markers, a blank
/// column, the text and the right margin.
#[derive(Debug, Clone, Copy, PartialEq, Eq, Structural)]
pub struct HeadingGutterLayout {
    pub gutter_cells: u16,
    pub blank_after: u16,
    pub text_x_offset: u16,
    pub text_width: u16,
}

/// The division of an area of the given width for headings of up to `depth`
/// levels. Without headings, or where the area is too narrow, there is no
/// gutter.
pub open spec fn gutter_layout(width: u16, depth: u16) -> HeadingGutterLayout {
    if depth == 0 || width < depth + 3 {
        HeadingGutterLayout {
            gutter_cells: 0,
            blank_after: 0,
            text_x_offset: 0,
            text_width: if width <= 2 {
                1
            } else {
                (width - 1) as u16
            },
        }
    } else {
        HeadingGutterLayout {
            gutter_cells: depth,
            blank_after: 1,
            text_x_offset: (depth + 1) as u16,
            text_width: (width - depth - 2) as u16,
        }
    }
}

impl HeadingGutterLayout {
    /// Divides an area. The depth counts as a 16-bit number.
    pub fn for_area(area_width: u16, max_heading_depth: usize) -> (layout: HeadingGutterLayout)
        ensures
            layout == gutter_layout(area_width, max_heading_depth as u16),
    {
        let max_depth: u16 = #[verifier::truncate]
        (max_heading_depth as u16);
        if max_depth == 0 || (area_width as u32) < max_depth as u32 + 3 {
            HeadingGutterLayout {
                gutter_cells: 0,
                blank_after: 0,
                text_x_offset: 0,
                text_width: if area_width <= 2 {
                    1
                } else {
                    area_width - 1
                },
            }
        } else {
            HeadingGutterLayout {
                gutter_cells: max_depth,
                blank_after: 1,
                text_x_offset: max_depth + 1,
                text_width: area_width - max_depth - 2,
            }
        }
    }
}

/// There is always a column of text. Where there is a gutter, it, the blank
/// column, the text and the margin fill the area; where there is none, the text
/// and the margin do, in an area of at least two columns.
pub proof fn law_gutter_fills_the_area(width: u16, depth: u16)
    ensures
        ({
            let layout = gutter_layout(width, depth);
            &&& layout.text_width >= 1
            &&& layout.text_x_offset == layout.gutter_cells + layout.blank_after
            &&& layout.gutter_cells > 0 ==> layout.text_x_offset + layout.text_width + 1 == width
            &&& layout.gutter_cells == 0 && width >= 2 ==> layout.text_width + 1 == width
        }),
{
}

/// There is a gutter wherever there are headings and the area has columns enough
/// for the marks of the deepest one, a blank column, text and a margin; it is as
/// wide as those marks.
pub proof fn law_gutters_show_the_deepest_heading(width: u16, depth: u16)
    ensures
        gutter_layout(width, depth).gutter_cells == depth <==> depth == 0 || depth + 3 <= width,
        gutter_layout(width, depth).gutter_cells == depth || gutter_layout(
            width,
            depth,
        ).gutter_cells == 0,
        gutter_layout(width, depth).gutter_cells > 0 <==> gutter_layout(width, depth).blank_after
            == 1,
        gutter_layout(width, depth).blank_after <= 1,
{
}

// ---------------------------------------------------------------------------
// Dividing areas
// ---------------------------------------------------------------------------
/// In which direction an area is divided.
#[derive(Debug, Clone, Copy, PartialEq, Eq, Structural)]
pub enum Direction {
    Horizontal,
    Vertical,
}

/// How large a part of an area is to be.
#[derive(Debug, Clone, Copy, PartialEq, Eq, Structural)]
pub enum Constraint {
    Length(u16),
    Min(u16),
}

/// Where an area starts, in a direction.
pub open spec fn start(direction: Direction, area: Rect) -> int {
    match direction {
        Direction::Horizontal => area.x as int,
        Direction::Vertical => area.y as int,
    }
}

/// How long an area is, in a direction.
pub open spec fn extent(direction: Direction, area: Rect) -> int {
    match direction {
        Direction::Horizontal => area.width as int,
        Direction::Vertical => area.height as int,
    }
}

/// The parts follow each other without a gap and fill the area.
pub open spec fn end_to_end(direction: Direction, area: Rect, parts: Seq<Rect>) -> bool {
    &&& parts.len() > 0
    &&& start(direction, parts[0]) == start(direction, area)
    &&& forall|i: int, j: int|
        0 <= i && j == i + 1 && j < parts.len() ==> start(direction, #[trigger] parts[j]) == start(
            direction,
            #[trigger] parts[i],
        ) + extent(direction, parts[i])
    &&& start(direction, parts.last()) + extent(direction, parts.last()) == start(direction, area)
        + extent(direction, area)
}

/// What the lengths and minimums among the constraints add up to.
pub open spec fn asked(constraints: Seq<Constraint>) -> int
    decreases constraints.len(),
{
    if constraints.len() == 0 {
        0
    } else {
        asked(constraints.drop_last()) + (match constraints.last() {
            Constraint::Length(n) => n as int,
            Constraint::Min(n) => n as int,
        })
    }
}

/// The constraint at `k` is a minimum, and all others are lengths.
pub open spec fn lengths_around(constraints: Seq<Constraint>, k: int) -> bool {
    &&& 0 <= k < constraints.len()
    &&& constraints[k] is Min
    &&& forall|i: int|
        0 <= i < constraints.len() && i != k ==> (#[trigger] constraints[i]) is Length
}

/// `ratatui::layout::Layout::split`: divides an area into one part for each
/// constraint. Every part lies in the area and spans it across the direction.
///
/// The parts come from a solver of weighted linear constraints. Lengths around
/// one minimum, where all of them fit, are claimed to have a single best
/// answer: a length weighs more than the wish of the minimum to grow, and that
/// weighs more than the space behind the last part, so every length is met, the
/// parts stand end to end, and the minimum has the rest. Of other constraints
/// nothing more is stated.
#[verifier::external_body]
pub(crate) fn split(direction: Direction, constraints: &Vec<Constraint>, area: Rect) -> (parts: Vec<
    Rect,
>)
    ensures
        parts@.len() == constraints@.len(),
        forall|i: int|
            0 <= i < parts@.len() ==> (#[trigger] parts@[i]).within(area),
        direction == Direction::Vertical ==> forall|i: int|
            0 <= i < parts@.len() ==> (#[trigger] parts@[i]).x == area.x && parts@[i].width
                == area.width,
        direction == Direction::Horizontal ==> forall|i: int|
            0 <= i < parts@.len() ==> (#[trigger] parts@[i]).y == area.y && parts@[i].height
                == area.height,
        forall|k: int| #[trigger]
            lengths_around(constraints@, k) && area.wf() && asked(constraints@) <= extent(
                direction,
                area,
            ) ==> {
                &&& end_to_end(direction, area, parts@)
                &&& forall|i: int|
                    0 <= i < parts@.len() && i != k ==> extent(direction, #[trigger] parts@[i])
                        == constraints@[i]->Length_0
            },
{
    let sizes = constraints.iter().map(|c| match *c {
        Constraint::Length(n) => ratatui::layout::Constraint::Length(n),
        Constraint::Min(n) => ratatui::layout::Constraint::Min(n),
    });
    let layout = match direction {
        Direction::Horizontal => ratatui::layout::Layout::horizontal(sizes),
        Direction::Vertical => ratatui::layout::Layout::vertical(sizes),
    };
    let Rect { x, y, width, height } = area;
    let parts = layout.split(ratatui::layout::Rect { x, y, width, height });
    parts.iter().map(|r| Rect { x: r.x, y: r.y, width: r.width, height: r.height }).collect()
}

/// The three bands of the screen: the ribbon, the body and the bottom bar.
#[derive(Debug, Clone, Copy)]
pub struct Bands {
    pub ribbon: Rect,
    pub body: Rect,
    pub bar: Rect,
}

/// How large the bands are to be: one row for the ribbon, one for the bottom
/// bar, and the rest for the body.
pub fn size_screen() -> (sizes: Vec<Constraint>)
    ensures
        sizes@ == seq![Constraint::Length(1), Constraint::Min(0), Constraint::Length(1)],
{
    vec![Constraint::Length(1), Constraint::Min(0), Constraint::Length(1)]
}

/// The bands of a screen of at least two rows: the ribbon is the top row, the
/// bar the bottom row, and the body is between them.
pub open spec fn screen_bands(area: Rect) -> Bands {
    Bands {
        ribbon: Rect { height: 1, ..area },
        body: Rect { y: (area.y + 1) as u16, height: (area.height - 2) as u16, ..area },
        bar: Rect { y: (area.y + area.height - 1) as u16, height: 1, ..area },
    }
}

/// Divides the screen into bands, all as wide as the screen.
pub fn split_screen(area: Rect) -> (bands: Bands)
    ensures
        area.wf() && area.height >= 2 ==> bands == screen_bands(area),
        bands.ribbon.within(area) && bands.body.within(area) && bands.bar.within(area),
        bands.ribbon.x == area.x && bands.ribbon.width == area.width,
        bands.body.x == area.x && bands.body.width == area.width,
        bands.bar.x == area.x && bands.bar.width == area.width,
        area.wf() ==> bands.ribbon.wf() && bands.body.wf() && bands.bar.wf(),
{
    let sizes = size_screen();
    let parts = split(Direction::Vertical, &sizes, area);
    proof {
        reveal_with_fuel(asked, 4);
        assert(lengths_around(sizes@, 1));
    }
    Bands { ribbon: parts[0], body: parts[1], bar: parts[2] }
}

/// The bands fill a screen of at least two rows, one below the other: the ribbon
/// and the bottom bar have one row each.
pub proof fn law_bands_fill_the_screen(area: Rect)
    requires
        area.wf(),
        area.height >= 2,
    ensures
        ({
            let bands = screen_bands(area);
            &&& bands.ribbon.y == area.y && bands.ribbon.height == 1
            &&& bands.body.y == bands.ribbon.y + bands.ribbon.height
            &&& bands.bar.y == bands.body.y + bands.body.height && bands.bar.height == 1
            &&& bands.bar.y + bands.bar.height == area.y + area.height
            &&& forall|x: int, y: int|
                area.holds(x, y) <==> bands.ribbon.holds(x, y) || bands.body.holds(x, y)
                    || bands.bar.holds(x, y)
            &&& forall|x: int, y: int|
                !(bands.ribbon.holds(x, y) && bands.body.holds(x, y)) && !(bands.body.holds(x, y)
                    && bands.bar.holds(x, y)) && !(bands.ribbon.holds(x, y) && bands.bar.holds(
                    x,
                    y,
                ))
        }),
{
}

/// The columns that the document has at least.
pub const MIN_DOCUMENT_WIDTH: u16 = 40;

/// The columns that the border of a sidebar takes.
pub const SIDEBAR_BORDER_OVERHEAD: u16 = 2;

/// The columns between a sidebar and the document.
pub const SIDEBAR_SEP_WIDTH: u16 = 1;

/// What is shown beside the document.
#[derive(Debug, Clone, Copy, PartialEq, Eq, Structural)]
pub struct Sidebars {
    pub headings: bool,
    pub files: bool,
}

/// The columns that a sidebar with its border takes.
pub open spec fn block_width(inner: u16) -> int {
    inner + SIDEBAR_BORDER_OVERHEAD
}

/// The sidebars that are switched on and leave the document its columns. The
/// files sidebar needs room for both.
pub open spec fn fitting_sidebars(
    width: u16,
    wanted: Sidebars,
    headings_inner: u16,
    files_inner: u16,
) -> Sidebars {
    let left = MIN_DOCUMENT_WIDTH + block_width(headings_inner) + SIDEBAR_SEP_WIDTH;
    let both = left + block_width(files_inner) + SIDEBAR_SEP_WIDTH;
    Sidebars {
        headings: wanted.headings && width >= left,
        files: wanted.files && width >= both,
    }
}

/// Decides which sidebars fit.
pub fn fit_sidebars(
    width: u16,
    wanted: Sidebars,
    headings_inner: u16,
    files_inner: u16,
) -> (shown: Sidebars)
    ensures
        shown == fitting_sidebars(width, wanted, headings_inner, files_inner),
{
    let left: u32 = MIN_DOCUMENT_WIDTH as u32 + headings_inner as u32
        + SIDEBAR_BORDER_OVERHEAD as u32 + SIDEBAR_SEP_WIDTH as u32;
    let both: u32 = left + files_inner as u32 + SIDEBAR_BORDER_OVERHEAD as u32
        + SIDEBAR_SEP_WIDTH as u32;
    Sidebars {
        headings: wanted.headings && width as u32 >= left,
        files: wanted.files && width as u32 >= both,
    }
}

/// The parts of the body: headings sidebar, separator, document, separator,
/// files sidebar.
pub open spec fn body_constraints(
    width: u16,
    shown: Sidebars,
    headings_inner: u16,
    files_inner: u16,
) -> Seq<Constraint> {
    seq![
        Constraint::Length(
            if shown.headings {
                block_width(headings_inner) as u16
            } else {
                0
            },
        ),
        Constraint::Length(
            if shown.headings {
                SIDEBAR_SEP_WIDTH
            } else {
                0
            },
        ),
        Constraint::Min(
            if width < MIN_DOCUMENT_WIDTH {
                width
            } else {
                MIN_DOCUMENT_WIDTH
            },
        ),
        Constraint::Length(
            if shown.files {
                SIDEBAR_SEP_WIDTH
            } else {
                0
            },
        ),
        Constraint::Length(
            if shown.files {
                block_width(files_inner) as u16
            } else {
                0
            },
        ),
    ]
}

/// How large the parts of the body are to be.
pub fn size_body(
    width: u16,
    wanted: Sidebars,
    headings_inner: u16,
    files_inner: u16,
) -> (sizes: Vec<Constraint>)
    ensures
        sizes@ == body_constraints(
            width,
            fitting_sidebars(width, wanted, headings_inner, files_inner),
            headings_inner,
            files_inner,
        ),
{
    let shown = fit_sidebars(width, wanted, headings_inner, files_inner);
    let headings_width: u16 = if shown.headings {
        headings_inner + SIDEBAR_BORDER_OVERHEAD
    } else {
        0
    };
    let left: u16 = if shown.headings {
        SIDEBAR_SEP_WIDTH
    } else {
        0
    };
    let document: u16 = if width < MIN_DOCUMENT_WIDTH {
        width
    } else {
        MIN_DOCUMENT_WIDTH
    };
    let right: u16 = if shown.files {
        SIDEBAR_SEP_WIDTH
    } else {
        0
    };
    let files_width: u16 = if shown.files {
        files_inner + SIDEBAR_BORDER_OVERHEAD
    } else {
        0
    };
    vec![
        Constraint::Length(headings_width),
        Constraint::Length(left),
        Constraint::Min(document),
        Constraint::Length(right),
        Constraint::Length(files_width),
    ]
}

/// The columns to the left of the document: those of the headings sidebar that
/// is shown, and of its separator.
pub open spec fn left_columns(shown: Sidebars, headings_inner: u16) -> int {
    if shown.headings {
        block_width(headings_inner) + SIDEBAR_SEP_WIDTH
    } else {
        0
    }
}

/// The columns to the right of the document: those of the files sidebar that is
/// shown, and of its separator.
pub open spec fn right_columns(shown: Sidebars, files_inner: u16) -> int {
    if shown.files {
        block_width(files_inner) + SIDEBAR_SEP_WIDTH
    } else {
        0
    }
}

/// The document keeps its columns: the sidebars that are shown, with their
/// borders and separators, leave at least that many.
pub proof fn law_sidebars_leave_room(
    width: u16,
    wanted: Sidebars,
    headings_inner: u16,
    files_inner: u16,
)
    ensures
        ({
            let shown = fitting_sidebars(width, wanted, headings_inner, files_inner);
            let taken = left_columns(shown, headings_inner) + right_columns(shown, files_inner);
            &&& shown.headings ==> wanted.headings
            &&& shown.files ==> wanted.files
            &&& shown.headings || shown.files ==> taken + MIN_DOCUMENT_WIDTH <= width
        }),
{
}

/// The parts of the body on the screen.
#[derive(Debug, Clone, Copy)]
pub struct Body {
    pub shown: Sidebars,
    pub headings: Rect,
    pub document: Rect,
    pub separator: Rect,
    pub files: Rect,
}

/// The parts of the body: the headings sidebar at its left end, the files
/// sidebar at its right end behind a separator, and the document on all that is
/// between. A sidebar that is not shown has no columns.
pub open spec fn body_parts(
    area: Rect,
    wanted: Sidebars,
    headings_inner: u16,
    files_inner: u16,
) -> Body {
    let shown = fitting_sidebars(area.width, wanted, headings_inner, files_inner);
    let left = left_columns(shown, headings_inner);
    let right = right_columns(shown, files_inner);
    let separator = if shown.files {
        SIDEBAR_SEP_WIDTH as int
    } else {
        0
    };
    Body {
        shown,
        headings: Rect {
            width: if shown.headings {
                block_width(headings_inner) as u16
            } else {
                0
            },
            ..area
        },
        document: Rect {
            x: (area.x + left) as u16,
            width: (area.width - left - right) as u16,
            ..area
        },
        separator: Rect {
            x: (area.x + area.width - right) as u16,
            width: separator as u16,
            ..area
        },
        files: Rect {
            x: (area.x + area.width - right + separator) as u16,
            width: (right - separator) as u16,
            ..area
        },
    }
}

/// The parts fill the body from left to right: the headings sidebar, a free
/// column, the document, the separator and the files sidebar, each where it is
/// shown. No cell belongs to two of them.
pub proof fn law_parts_fill_the_body(
    area: Rect,
    wanted: Sidebars,
    headings_inner: u16,
    files_inner: u16,
)
    requires
        area.wf(),
    ensures
        ({
            let body = body_parts(area, wanted, headings_inner, files_inner);
            let free: int = if body.shown.headings {
                1
            } else {
                0
            };
            &&& body.headings.x == area.x
            &&& body.document.x == body.headings.x + body.headings.width + free
            &&& body.separator.x == body.document.x + body.document.width
            &&& body.files.x == body.separator.x + body.separator.width
            &&& body.files.x + body.files.width == area.x + area.width
            &&& body.shown.headings ==> inside(body.headings).width == headings_inner
            &&& body.shown.files ==> inside(body.files).width == files_inner
                && body.separator.width == 1
            &&& !body.shown.headings ==> body.headings.width == 0
            &&& !body.shown.files ==> body.files.width == 0 && body.separator.width == 0
        }),
{
    law_sidebars_leave_room(area.width, wanted, headings_inner, files_inner);
}

/// Divides the body into its parts, all as high as the body.
pub fn split_body(area: Rect, wanted: Sidebars, headings_inner: u16, files_inner: u16) -> (body:
    Body)
    ensures
        area.wf() ==> body == body_parts(area, wanted, headings_inner, files_inner),
        body.shown == fitting_sidebars(area.width, wanted, headings_inner, files_inner),
        body.headings.within(area) && body.document.within(area),
        body.separator.within(area) && body.files.within(area),
        body.headings.y == area.y && body.headings.height == area.height,
        body.document.y == area.y && body.document.height == area.height,
        body.separator.y == area.y && body.separator.height == area.height,
        body.files.y == area.y && body.files.height == area.height,
        area.wf() ==> body.headings.wf() && body.document.wf() && body.separator.wf()
            && body.files.wf(),
{
    let shown = fit_sidebars(area.width, wanted, headings_inner, files_inner);
    let sizes = size_body(area.width, wanted, headings_inner, files_inner);
    let parts = split(Direction::Horizontal, &sizes, area);
    proof {
        reveal_with_fuel(asked, 6);
        assert(lengths_around(sizes@, 2));
        assert(asked(sizes@) == sizes@[0]->Length_0 + sizes@[1]->Length_0 + sizes@[2]->Min_0
            + sizes@[3]->Length_0 + sizes@[4]->Length_0);
        law_sidebars_leave_room(area.width, wanted, headings_inner, files_inner);
        if area.wf() {
            assert(end_to_end(Direction::Horizontal, area, parts@));
            assert(parts@[1].x == parts@[0].x + parts@[0].width);
            assert(parts@[2].x == parts@[1].x + parts@[1].width);
            assert(parts@[3].x == parts@[2].x + parts@[2].width);
            assert(parts@[4].x == parts@[3].x + parts@[3].width);
        }
    }
    Body {
        shown,
        headings: parts[0],
        document: parts[2],
        separator: parts[3],
        files: parts[4],
    }
}

/// The inside of an area with a border of one cell on every side.
pub open spec fn inside(area: Rect) -> Rect {
    Rect {
        x: (if area.width == 0 {
            area.x as int
        } else {
            area.x + 1
        }) as u16,
        y: (if area.height == 0 {
            area.y as int
        } else {
            area.y + 1
        }) as u16,
        width: (if area.width < SIDEBAR_BORDER_OVERHEAD {
            0
        } else {
            area.width - SIDEBAR_BORDER_OVERHEAD
        }) as u16,
        height: (if area.height < SIDEBAR_BORDER_OVERHEAD {
            0
        } else {
            area.height - SIDEBAR_BORDER_OVERHEAD
        }) as u16,
    }
}

/// The inside of a sidebar, which has a border on every side.
pub fn sidebar_inside(area: Rect) -> (inner: Rect)
    requires
        area.wf(),
    ensures
        inner == inside(area),
        inner.wf(),
{
    Rect {
        x: if area.width == 0 {
            area.x
        } else {
            area.x + 1
        },
        y: if area.height == 0 {
            area.y
        } else {
            area.y + 1
        },
        width: area.width.saturating_sub(SIDEBAR_BORDER_OVERHEAD),
        height: area.height.saturating_sub(SIDEBAR_BORDER_OVERHEAD),
    }
}

/// A border of one cell lies around the inside, on every side.
pub proof fn law_borders_lie_around_the_inside(area: Rect)
    requires
        area.wf(),
        area.width >= 2,
        area.height >= 2,
    ensures
        inside(area).x == area.x + 1,
        inside(area).y == area.y + 1,
        inside(area).x + inside(area).width + 1 == area.x + area.width,
        inside(area).y + inside(area).height + 1 == area.y + area.height,
{
}

/// How many parts of the files sidebar the file browser has.
pub const FILES_PARTS: u16 = 7;

/// How many parts of it the metrics have.
pub const METRICS_PARTS: u16 = 1;

/// The parts of the files sidebar, and the rows below which there are no
/// metrics.
pub const SIDEBAR_PARTS: u16 = FILES_PARTS + METRICS_PARTS;

/// The rows of the metrics in a sidebar of `height` rows: one part of it, to
/// the nearest row. Where two are as near, the metrics have the row more.
pub open spec fn metrics_rows(height: int) -> int {
    (height + SIDEBAR_PARTS / 2) / (SIDEBAR_PARTS as int)
}

/// How large the file browser and the metrics are to be in a sidebar of
/// `height` rows.
pub fn size_files_panel(height: u16) -> (sizes: Vec<Constraint>)
    ensures
        sizes@ == seq![
            Constraint::Min(0),
            Constraint::Length(metrics_rows(height as int) as u16),
        ],
{
    let rows: u32 = (height as u32 + SIDEBAR_PARTS as u32 / 2) / SIDEBAR_PARTS as u32;
    vec![Constraint::Min(0), Constraint::Length(rows as u16)]
}

/// The parts of the files sidebar: a low one is all file browser; one with rows
/// enough has the metrics below the file browser.
pub open spec fn files_parts(inner: Rect) -> (Rect, Rect) {
    let below = metrics_rows(inner.height as int);
    let above = inner.height - below;
    if inner.height < SIDEBAR_PARTS {
        (inner, no_area())
    } else {
        (
            Rect { height: above as u16, ..inner },
            Rect { y: (inner.y + above) as u16, height: below as u16, ..inner },
        )
    }
}

/// Divides the files sidebar into the file browser and the metrics, both as
/// wide as the sidebar; a low one is all file browser.
pub fn split_files_panel(inner: Rect) -> (parts: (Rect, Rect))
    ensures
        inner.wf() ==> parts == files_parts(inner),
        inner.height < SIDEBAR_PARTS ==> parts == (inner, no_area()),
        inner.height >= SIDEBAR_PARTS ==> {
            &&& parts.0.within(inner) && parts.1.within(inner)
            &&& parts.0.x == inner.x && parts.0.width == inner.width
            &&& parts.1.x == inner.x && parts.1.width == inner.width
        },
        inner.wf() ==> parts.0.wf() && parts.1.wf(),
{
    if inner.height < SIDEBAR_PARTS {
        return (inner, Rect::default());
    }
    let sizes = size_files_panel(inner.height);
    let parts = split(Direction::Vertical, &sizes, inner);
    proof {
        reveal_with_fuel(asked, 3);
        assert(lengths_around(sizes@, 0));
    }
    (parts[0], parts[1])
}

/// In a files sidebar with rows enough, the file browser has seven eighths of
/// them and the metrics one eighth, each within half a row, and the metrics at
/// least one row. The two fill the sidebar.
pub proof fn law_metrics_have_an_eighth(inner: Rect)
    requires
        inner.wf(),
        inner.height >= SIDEBAR_PARTS,
    ensures
        ({
            let (files, metrics) = files_parts(inner);
            &&& metrics.height >= 1
            &&& -4 <= 8 * metrics.height - inner.height <= 4
            &&& -4 <= 8 * files.height - 7 * inner.height <= 4
            &&& files.y == inner.y
            &&& metrics.y == files.y + files.height
            &&& metrics.y + metrics.height == inner.y + inner.height
        }),
{
}

/// The row between file browser and metrics.
pub fn files_divider(inner: Rect, files: Rect) -> (line: Rect)
    requires
        files.wf(),
    ensures
        line == (Rect {
            x: inner.x,
            y: (files.y + files.height) as u16,
            width: inner.width,
            height: 1,
        }),
{
    Rect { x: inner.x, y: files.y + files.height, width: inner.width, height: 1 }
}

/// The part of the document area that the text has.
pub open spec fn text_area(area: Rect, layout: HeadingGutterLayout) -> Rect {
    Rect {
        x: (area.x + layout.text_x_offset) as u16,
        y: area.y,
        width: layout.text_width,
        height: area.height,
    }
}

/// The part of the document area that the text has.
pub fn document_text_area(area: Rect, layout: HeadingGutterLayout) -> (text: Rect)
    requires
        area.wf(),
        layout.text_x_offset <= area.width,
    ensures
        text == text_area(area, layout),
{
    Rect {
        x: area.x + layout.text_x_offset,
        y: area.y,
        width: layout.text_width,
        height: area.height,
    }
}

/// The text has all of the document area between the gutter and the margin: it
/// starts behind the gutter and its blank column, ends one column before the
/// area, and is as high as the area.
pub proof fn law_text_lies_between_gutter_and_margin(area: Rect, depth: u16)
    requires
        area.wf(),
        area.width >= 2,
    ensures
        ({
            let layout = gutter_layout(area.width, depth);
            let text = text_area(area, layout);
            &&& text.x == area.x + layout.gutter_cells + layout.blank_after
            &&& text.x + text.width + 1 == area.x + area.width
            &&& text.y == area.y && text.height == area.height
            &&& text.within(area)
        }),
{
}

// ---------------------------------------------------------------------------
// Scrolling
// ---------------------------------------------------------------------------
/// The scroll position that shows `row`: the nearest to the old one.
pub open spec fn showing(scroll: int, row: int, viewport: int) -> int {
    let height = if viewport < 1 {
        1
    } else {
        viewport
    };
    if row < scroll {
        row
    } else if row >= scroll + height {
        row - (height - 1)
    } else {
        scroll
    }
}

/// Scrolls so that `row` is shown.
pub fn ensure_row_visible(scroll: &mut usize, row: usize, viewport: usize)
    ensures
        *final(scroll) == showing(*old(scroll) as int, row as int, viewport as int),
{
    let height: usize = if viewport < 1 {
        1
    } else {
        viewport
    };
    if row < *scroll {
        *scroll = row;
    } else if row - *scroll >= height {
        *scroll = row - (height - 1);
    }
}

/// A row that was scrolled to is shown, and scrolling to it again changes
/// nothing. A row that was shown already is not scrolled.
pub proof fn law_scrolling_shows_the_row(scroll: int, row: int, viewport: int)
    requires
        scroll >= 0,
        row >= 0,
    ensures
        ({
            let now = showing(scroll, row, viewport);
            let height = if viewport < 1 {
                1
            } else {
                viewport
            };
            &&& 0 <= now <= row < now + height
            &&& showing(now, row, viewport) == now
            &&& scroll <= row < scroll + height ==> now == scroll
        }),
{
}

/// Scrolling to a row goes no further than it has to: any scroll position that
/// shows the row is at least as far from the old one.
pub proof fn law_scrolling_goes_no_further(scroll: int, row: int, viewport: int, other: int)
    requires
        viewport >= 1,
        other <= row < other + viewport,
    ensures
        ({
            let now = showing(scroll, row, viewport);
            &&& now < scroll ==> other <= now
            &&& now > scroll ==> other >= now
        }),
{
}

/// The last scroll position of a document of `rows` rows.
pub open spec fn last_scroll(rows: int, viewport: int) -> int {
    let height = if viewport < 1 {
        1
    } else {
        viewport
    };
    if rows > height {
        rows - height
    } else {
        0
    }
}

/// The last scroll position of a document of `rows` rows.
pub fn max_scroll(rows: usize, viewport: u16) -> (last: usize)
    ensures
        last == last_scroll(rows as int, viewport as int),
{
    let height: usize = if viewport < 1 {
        1
    } else {
        viewport as usize
    };
    if rows > height {
        rows - height
    } else {
        0
    }
}

/// `scroll`, but not behind the last scroll position.
pub open spec fn clamped(scroll: int, rows: int, viewport: int) -> int {
    if scroll < last_scroll(rows, viewport) {
        scroll
    } else {
        last_scroll(rows, viewport)
    }
}

/// `scroll`, but not behind the last scroll position.
pub fn clamp_scroll(scroll: usize, rows: usize, viewport: u16) -> (now: usize)
    ensures
        now == clamped(scroll as int, rows as int, viewport as int),
{
    let last: usize = max_scroll(rows, viewport);
    if scroll < last {
        scroll
    } else {
        last
    }
}

/// `scroll` moved by `delta` rows, but not before the start.
pub open spec fn scrolled(scroll: int, delta: int) -> int {
    if scroll + delta < 0 {
        0
    } else {
        scroll + delta
    }
}

/// Scrolling back undoes scrolling that did not reach the start.
pub proof fn law_scrolling_back_undoes_scrolling(scroll: int, delta: int)
    requires
        scroll >= 0,
        scroll + delta >= 0,
    ensures
        scrolled(scrolled(scroll, delta), -delta) == scroll,
        scrolled(scroll, 0) == scroll,
        scrolled(scroll, -scroll - 1) == 0,
{
}

/// Scrolls by `delta` rows, inside a document of `rows` rows.
pub fn scroll_by(scroll: usize, delta: isize, rows: usize, viewport: u16) -> (now: usize)
    ensures
        now == clamped(scrolled(scroll as int, delta as int), rows as int, viewport as int),
{
    let moved: usize = if delta < 0 {
        let up: usize = (-(delta + 1)) as usize + 1;
        if up > scroll {
            0
        } else {
            scroll - up
        }
    } else {
        scroll.saturating_add(delta as usize)
    };
    clamp_scroll(moved, rows, viewport)
}

/// Scrolling ends inside the document: there is no empty row below it unless
/// the document is shorter than the viewport, and then it is not scrolled.
pub proof fn law_scrolling_stays_inside(scroll: int, rows: int, viewport: int)
    requires
        scroll >= 0,
        rows >= 0,
        viewport >= 1,
    ensures
        0 <= clamped(scroll, rows, viewport) <= scroll,
        rows >= viewport ==> clamped(scroll, rows, viewport) + viewport <= rows,
        rows <= viewport ==> clamped(scroll, rows, viewport) == 0,
        clamped(clamped(scroll, rows, viewport), rows, viewport) == clamped(
            scroll,
            rows,
            viewport,
        ),
{
}

/// Where the cursor is drawn: the cell of its row and column in the text area,
/// if that is in view.
pub open spec fn cursor_cell(
    at: Option<(int, int)>,
    scroll: int,
    area: Rect,
) -> Option<(int, int)> {
    match at {
        Some((row, col)) => if scroll <= row < scroll + area.height {
            Some(
                (
                    area.x + (if area.width == 0 {
                        0
                    } else if col < area.width - 1 {
                        col
                    } else {
                        area.width - 1
                    }),
                    area.y + row - scroll,
                ),
            )
        } else {
            None
        },
        None => None,
    }
}

/// Where the cursor is drawn.
pub fn cursor_position(visual: &VisualDocument, cursor: usize, scroll: usize, area: Rect) -> (cell:
    Option<(u16, u16)>)
    requires
        area.wf(),
    ensures
        match cell {
            Some((x, y)) => cursor_cell(display_of(visual@, cursor), scroll as int, area) == Some(
                (x as int, y as int),
            ),
            None => cursor_cell(display_of(visual@, cursor), scroll as int, area) is None,
        },
{
    match visual.source_to_display(cursor) {
        Some((row, col)) => {
            if row < scroll || row - scroll >= area.height as usize {
                return None;
            }
            let offset: u16 = if area.width == 0 {
                0
            } else if col < (area.width - 1) as usize {
                col as u16
            } else {
                area.width - 1
            };
            Some((area.x + offset, area.y + (row - scroll) as u16))
        },
        None => None,
    }
}

/// The cursor is drawn exactly where its row is in view, as many rows below the
/// top as its row is behind the first that is shown; a column more puts it one
/// cell to the right, up to the last cell of the area.
pub proof fn law_cursor_is_drawn_on_its_row(row: int, col: int, scroll: int, area: Rect)
    requires
        area.width > 0,
        0 <= col,
    ensures
        cursor_cell(Some((row, col)), scroll, area) is Some <==> scroll <= row < scroll
            + area.height,
        cursor_cell(Some((row, col)), scroll, area) matches Some((x, y)) ==> {
            &&& y - area.y == row - scroll
            &&& col < area.width ==> x - area.x == col
            &&& col >= area.width ==> x - area.x == area.width - 1
        },
        cursor_cell(None, scroll, area) is None,
{
}

/// The cursor is drawn inside the text area.
pub proof fn law_cursor_is_drawn_inside(at: Option<(int, int)>, scroll: int, area: Rect)
    requires
        area.width > 0,
        at matches Some((row, col)) ==> row >= 0 && col >= 0,
    ensures
        match cursor_cell(at, scroll, area) {
            Some((x, y)) => area.holds(x, y),
            None => true,
        },
{
}

// ---------------------------------------------------------------------------
// The scrollbar
// ---------------------------------------------------------------------------
/// Where the thumb of the scrollbar starts, and its size: its share of the
/// track is that of the viewport in the document, and at least one cell.
pub open spec fn thumb(viewport: int, total: int, scroll: int) -> (int, int) {
    let share = viewport * viewport / total;
    let wanted = if share < 1 {
        1
    } else {
        share
    };
    let size = if wanted > viewport {
        viewport
    } else {
        wanted
    };
    let start = scroll * viewport / total;
    (
        if start < viewport - size {
            start
        } else {
            viewport - size
        },
        size,
    )
}

/// The thumb lies on the track.
pub proof fn law_thumb_lies_on_the_track(viewport: int, total: int, scroll: int)
    requires
        0 <= viewport < total,
        scroll >= 0,
    ensures
        thumb(viewport, total, scroll).0 >= 0,
        viewport > 0 ==> thumb(viewport, total, scroll).1 >= 1,
        thumb(viewport, total, scroll).0 + thumb(viewport, total, scroll).1 <= viewport,
{
    let share = viewport * viewport / total;
    let start = scroll * viewport / total;
    assert(start >= 0) by (nonlinear_arith)
        requires
            scroll >= 0,
            viewport >= 0,
            total > 0,
            start == scroll * viewport / total,
    ;
}

/// The thumb starts at the top, moves down with the document, and has the share
/// of the track that the view has of the document, to the cell.
pub proof fn law_thumb_moves_with_the_document(
    viewport: int,
    total: int,
    scroll: int,
    further: int,
)
    requires
        0 < viewport < total,
        0 <= scroll <= further,
    ensures
        thumb(viewport, total, 0).0 == 0,
        thumb(viewport, total, scroll).0 <= thumb(viewport, total, further).0,
        thumb(viewport, total, scroll).1 == thumb(viewport, total, further).1,
        ({
            let (from, size) = thumb(viewport, total, scroll);
            &&& (size - 1) * total < viewport * viewport
            &&& viewport * viewport < (size + 1) * total
            &&& from * total <= scroll * viewport
            &&& from + size < viewport ==> scroll * viewport < (from + 1) * total
        }),
{
    let share = viewport * viewport / total;
    let start = scroll * viewport / total;
    let later = further * viewport / total;
    assert(share * total <= viewport * viewport < (share + 1) * total && share >= 0)
        by (nonlinear_arith)
        requires
            0 < viewport < total,
            share == viewport * viewport / total,
    ;
    assert(share <= viewport) by (nonlinear_arith)
        requires
            share * total <= viewport * viewport,
            0 < viewport < total,
    ;
    assert(start * total <= scroll * viewport < (start + 1) * total && start >= 0)
        by (nonlinear_arith)
        requires
            0 < viewport < total,
            0 <= scroll,
            start == scroll * viewport / total,
    ;
    assert(start <= later) by (nonlinear_arith)
        requires
            0 < viewport < total,
            0 <= scroll <= further,
            start == scroll * viewport / total,
            later == further * viewport / total,
    ;
    assert(0 * viewport / total == 0) by (nonlinear_arith)
        requires
            0 < viewport < total,
    ;
    let (from, size) = thumb(viewport, total, scroll);
    assert(0 < viewport * viewport) by (nonlinear_arith)
        requires
            0 < viewport,
    ;
    assert((size - 1) * total < viewport * viewport) by (nonlinear_arith)
        requires
            size == share || size == 1,
            share * total <= viewport * viewport,
            0 < viewport * viewport,
            total > 0,
    ;
    assert(viewport * viewport < (size + 1) * total) by (nonlinear_arith)
        requires
            size >= share,
            viewport * viewport < (share + 1) * total,
            total > 0,
    ;
    assert(from * total <= scroll * viewport) by (nonlinear_arith)
        requires
            from <= start,
            start * total <= scroll * viewport,
            total > 0,
    ;
}

/// Computes the thumb of the scrollbar.
pub fn scrollbar_thumb(viewport: u16, total: usize, scroll: usize) -> (at: (usize, usize))
    requires
        viewport < total,
    ensures
        (at.0 as int, at.1 as int) == thumb(viewport as int, total as int, scroll as int),
{
    let view: u128 = viewport as u128;
    let all: u128 = total as u128;
    assert(view * view <= 65535 * 65535) by (nonlinear_arith)
        requires
            view <= 65535,
    ;
    assert(scroll as u128 * view <= 0xffff_ffff_ffff_ffff * 65535) by (nonlinear_arith)
        requires
            view <= 65535,
            scroll <= 0xffff_ffff_ffff_ffff,
    ;
    let share: u128 = view * view / all;
    let wanted: u128 = if share < 1 {
        1
    } else {
        share
    };
    let size: u128 = if wanted > view {
        view
    } else {
        wanted
    };
    let start: u128 = scroll as u128 * view / all;
    let from: u128 = if start < view - size {
        start
    } else {
        view - size
    };
    (from as usize, size as usize)
}

/// The track of the scrollbar, and its thumb.
pub const TRACK: char = '│';

pub const THUMB: char = '█';

/// The cell of the scrollbar in a row: the thumb, or the track above or below
/// it. A document that is all in view has no thumb.
pub open spec fn scrollbar_cell(
    height: int,
    total: int,
    scroll: int,
    row: int,
    track: Style,
    thumb_style: Style,
) -> SpanModel {
    let (from, size) = thumb(height, total, scroll);
    if height < total && from <= row < from + size {
        SpanModel { content: seq![THUMB], style: thumb_style }
    } else {
        SpanModel { content: seq![TRACK], style: track }
    }
}

/// The scrollbar: one cell for each row, from the top down.
pub open spec fn scrollbar(
    height: int,
    total: int,
    scroll: int,
    track: Style,
    thumb_style: Style,
) -> Seq<Seq<SpanModel>> {
    Seq::new(
        height as nat,
        |row: int| seq![scrollbar_cell(height, total, scroll, row, track, thumb_style)],
    )
}

/// The scrollbar has a cell for each row. Those from the start of the thumb on
/// are the thumb, as many as it has, and all others the track; a document that
/// is all in view leaves it without a thumb.
pub proof fn law_scrollbars_show_the_thumb(
    height: int,
    total: int,
    scroll: int,
    track: Style,
    thumb_style: Style,
    row: int,
)
    requires
        0 <= row < height,
        scroll >= 0,
    ensures
        ({
            let bar = scrollbar(height, total, scroll, track, thumb_style);
            let (from, size) = thumb(height, total, scroll);
            &&& bar.len() == height
            &&& bar[row].len() == 1
            &&& bar[row][0].content == seq!['█'] <==> height < total && from <= row < from + size
            &&& bar[row][0].content == seq!['█'] || bar[row][0].content == seq!['│']
        }),
{
    assert(seq!['█'][0] == '█' && seq!['│'][0] == '│');
}

/// The scrollbar as lines of styled text, one for each row.
pub fn scrollbar_lines(
    height: u16,
    total: usize,
    scroll: usize,
    track: Style,
    thumb_style: Style,
) -> (lines: Vec<Line>)
    ensures
        views(lines@) == scrollbar(height as int, total as int, scroll as int, track, thumb_style),
{
    let rows: usize = height as usize;
    let mut from: usize = 0;
    let mut size: usize = 0;
    if rows < total {
        let at = scrollbar_thumb(height, total, scroll);
        from = at.0;
        size = at.1;
        proof {
            law_thumb_lies_on_the_track(height as int, total as int, scroll as int);
        }
    }
    let mut lines: Vec<Line> = Vec::new();
    let mut row: usize = 0;
    let ghost whole = scrollbar(height as int, total as int, scroll as int, track, thumb_style);
    while row < rows
        invariant
            row <= rows == height,
            rows < total ==> (from as int, size as int) == thumb(
                height as int,
                total as int,
                scroll as int,
            ),
            rows >= total ==> size == 0 && from == 0,
            from + size <= rows,
            whole == scrollbar(height as int, total as int, scroll as int, track, thumb_style),
            views(lines@) == whole.take(row as int),
        decreases rows - row,
    {
        let span = if from <= row && row < from + size {
            Span { content: repeat_char(THUMB, 1), style: thumb_style }
        } else {
            Span { content: repeat_char(TRACK, 1), style: track }
        };
        let ghost cell = span@;
        let ghost before = lines@;
        lines.push(Line { spans: vec![span] });
        proof {
            assert(repeated(THUMB, 1) =~= seq![THUMB]);
            assert(repeated(TRACK, 1) =~= seq![TRACK]);
            assert(lines@.last()@ =~= seq![cell]);
            assert(views(lines@) =~= views(before).push(seq![cell]));
            assert(whole.take(row + 1) =~= whole.take(row as int).push(whole[row as int]));
        }
        row += 1;
    }
    assert(whole.take(rows as int) =~= whole);
    lines
}

// ---------------------------------------------------------------------------
// Labels that can be clicked
// ---------------------------------------------------------------------------
/// `label` stands in `text` at `i`.
pub open spec fn stands_at(text: Seq<char>, label: Seq<char>, i: int) -> bool {
    0 <= i && i + label.len() <= text.len() && text.subrange(i, i + label.len()) == label
}

/// Where `label` stands first in `text`, from `from` on, or -1.
pub open spec fn find_label(text: Seq<char>, label: Seq<char>, from: int) -> int
    decreases text.len() - from,
{
    if stands_at(text, label, from) {
        from
    } else if from >= text.len() {
        -1
    } else {
        find_label(text, label, from + 1)
    }
}

/// The area of a label on a line of text that is drawn in `area`, cut off at
/// the end of the area. Columns are counted in bytes, in 16 bits.
pub open spec fn label_area(area: Rect, text: Seq<char>, label: Seq<char>) -> Rect {
    let at = find_label(text, label, 0);
    let start = byte_len(text.take(at)) as u16;
    let width = byte_len(label) as u16;
    if at < 0 || start >= area.width {
        no_area()
    } else {
        Rect {
            x: (area.x + start) as u16,
            y: area.y,
            width: if width < area.width - start {
                width
            } else {
                (area.width - start) as u16
            },
            height: if area.height < 1 {
                area.height
            } else {
                1
            },
        }
    }
}

proof fn lemma_find_label(text: Seq<char>, label: Seq<char>, from: int, at: int)
    requires
        0 <= from <= at,
        stands_at(text, label, at),
    ensures
        from <= find_label(text, label, from) <= at,
        stands_at(text, label, find_label(text, label, from)),
    decreases text.len() - from,
{
    if !stands_at(text, label, from) {
        lemma_find_label(text, label, from + 1, at);
    }
}

proof fn lemma_ascii_bytes(text: Seq<char>)
    requires
        crate::text::all_ascii(text),
    ensures
        byte_len(text) == text.len(),
    decreases text.len(),
{
    if text.len() > 0 {
        let t = text.drop_last();
        assert(crate::text::ascii(text[text.len() - 1]));
        assert forall|i: int| 0 <= i < t.len() implies crate::text::ascii(#[trigger] t[i]) by {
            assert(t[i] == text[i]);
        }
        lemma_ascii_bytes(t);
    }
}

/// The area of a label holds just the label: on a line of ASCII text that fits
/// into the area, the characters that are drawn in the columns of the label are
/// those of the label.
pub proof fn law_labels_are_where_they_are_drawn(
    area: Rect,
    text: Seq<char>,
    label: Seq<char>,
    at: int,
)
    requires
        area.wf(),
        area.height >= 1,
        crate::text::all_ascii(text),
        0 < label.len(),
        text.len() <= area.width,
        stands_at(text, label, at),
    ensures
        ({
            let found = label_area(area, text, label);
            let from = found.x - area.x;
            &&& found.width == label.len()
            &&& found.height == 1
            &&& found.y == area.y
            &&& 0 <= from && from + found.width <= text.len()
            &&& text.subrange(from, from + found.width) == label
        }),
{
    lemma_find_label(text, label, 0, at);
    let first = find_label(text, label, 0);
    assert forall|i: int| 0 <= i < first implies crate::text::ascii(
        #[trigger] text.take(first)[i],
    ) by {
        assert(text.take(first)[i] == text[i]);
    }
    lemma_ascii_bytes(text.take(first));
    assert forall|i: int| 0 <= i < label.len() implies crate::text::ascii(#[trigger] label[i]) by {
        assert(label[i] == text.subrange(first, first + label.len())[i]);
        assert(label[i] == text[first + i]);
    }
    lemma_ascii_bytes(label);
}

fn is_at(text: &Vec<char>, label: &Vec<char>, at: usize) -> (b: bool)
    requires
        at <= text@.len(),
    ensures
        b == stands_at(text@, label@, at as int),
{
    if label.len() > text.len() - at {
        return false;
    }
    let ghost part = text@.subrange(at as int, at + label@.len());
    let mut k: usize = 0;
    while k < label.len()
        invariant
            k <= label@.len(),
            at + label@.len() <= text@.len() <= usize::MAX,
            part == text@.subrange(at as int, at + label@.len()),
            forall|j: int| 0 <= j < k ==> part[j] == label@[j],
        decreases label@.len() - k,
    {
        if text[at + k] != label[k] {
            proof {
                assert(part[k as int] != label@[k as int]);
            }
            return false;
        }
        k = k + 1;
    }
    proof {
        assert(part =~= label@);
    }
    true
}

/// The area of a label on a line of text that is drawn in `area`.
pub fn control_area(area: Rect, text: &str, label: &str) -> (found: Rect)
    requires
        area.wf(),
    ensures
        found == label_area(area, text@, label@),
{
    let chars = to_chars(text);
    let wanted = to_chars(label);
    let mut at: usize = 0;
    while !is_at(&chars, &wanted, at)
        invariant
            at <= chars@.len(),
            chars@ == text@,
            wanted@ == label@,
            find_label(text@, label@, 0) == find_label(text@, label@, at as int),
        ensures
            at <= chars@.len(),
            stands_at(text@, label@, at as int),
            find_label(text@, label@, 0) == at,
        decreases chars@.len() - at,
    {
        if at >= chars.len() {
            return Rect::default();
        }
        at = at + 1;
    }
    let offset: usize = byte_offset(text, at);
    let len: usize = byte_count(label);
    let start: u16 = #[verifier::truncate]
    (offset as u16);
    let width: u16 = #[verifier::truncate]
    (len as u16);
    if start >= area.width {
        return Rect::default();
    }
    Rect {
        x: area.x + start,
        y: area.y,
        width: if width < area.width - start {
            width
        } else {
            area.width - start
        },
        height: if area.height < 1 {
            area.height
        } else {
            1
        },
    }
}

} // verus!
