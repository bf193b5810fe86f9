use writerm::layout::{
    clamp_scroll, control_area, cursor_position, document_text_area, ensure_row_visible,
    files_divider, fit_sidebars, max_scroll, point_in, scroll_by, scrollbar_lines, scrollbar_thumb,
    sidebar_inside, size_body, size_files_panel, size_screen, split_body, split_files_panel,
    split_screen,
    Constraint, HeadingGutterLayout, Rect, Sidebars,
};
use writerm::style::{Color, Style};
use writerm::visual::VisualDocument;

fn rect(x: u16, y: u16, width: u16, height: u16) -> Rect {
    Rect { x, y, width, height }
}

const BOTH: Sidebars = Sidebars { headings: true, files: true };

#[test]
fn cells_lie_in_areas() {
    let area = rect(4, 9, 18, 1);
    assert!(point_in(area, 4, 9));
    assert!(point_in(area, 21, 9));
    assert!(!point_in(area, 22, 9));
    assert!(!point_in(area, 3, 9));
    assert!(!point_in(area, 4, 8));
    assert!(!point_in(area, 4, 10));
    assert!(!point_in(rect(0, 0, 0, 0), 0, 0));
    assert!(point_in(rect(u16::MAX, 0, 5, 1), u16::MAX, 0));
}

#[test]
fn the_gutter_fills_the_area() {
    for width in 0..30 {
        for depth in 0..8 {
            let layout = HeadingGutterLayout::for_area(width, depth);
            assert!(layout.text_width >= 1);
            assert_eq!(layout.text_x_offset, layout.gutter_cells + layout.blank_after);
            if layout.gutter_cells > 0 {
                assert_eq!(layout.text_x_offset + layout.text_width + 1, width);
            }
        }
    }
    let layout = HeadingGutterLayout::for_area(5, 2);
    assert_eq!((layout.gutter_cells, layout.text_width), (2, 1));
    assert_eq!(HeadingGutterLayout::for_area(0, 0).text_width, 1);
    let layout = HeadingGutterLayout::for_area(80, usize::from(u16::MAX));
    assert_eq!((layout.gutter_cells, layout.text_width), (0, 79));
}

#[test]
fn the_screen_has_three_bands() {
    let bands = split_screen(rect(0, 0, 80, 24));
    assert_eq!(bands.ribbon, rect(0, 0, 80, 1));
    assert_eq!(bands.body, rect(0, 1, 80, 22));
    assert_eq!(bands.bar, rect(0, 23, 80, 1));
    for height in [2, 3, 8, 51, 300, u16::MAX] {
        let bands = split_screen(rect(3, 0, 9, height));
        assert_eq!(bands.ribbon, rect(3, 0, 9, 1));
        assert_eq!(bands.body, rect(3, 1, 9, height - 2));
        assert_eq!(bands.bar, rect(3, height - 1, 9, 1));
    }
    assert_eq!(
        size_screen(),
        vec![Constraint::Length(1), Constraint::Min(0), Constraint::Length(1)]
    );
}

#[test]
fn sidebars_are_shown_where_they_leave_room() {
    let shown = |width| fit_sidebars(width, BOTH, 28, 34);
    assert_eq!(shown(70), Sidebars { headings: false, files: false });
    assert_eq!(shown(71), Sidebars { headings: true, files: false });
    assert_eq!(shown(107), Sidebars { headings: true, files: false });
    assert_eq!(shown(108), BOTH);
    let off = Sidebars { headings: false, files: true };
    assert_eq!(fit_sidebars(108, off, 28, 34), off);
    assert_eq!(
        fit_sidebars(u16::MAX, BOTH, u16::MAX, 1),
        Sidebars { headings: false, files: false }
    );
}

#[test]
fn the_body_is_divided_for_what_is_shown() {
    assert_eq!(
        size_body(120, BOTH, 28, 34),
        vec![
            Constraint::Length(30),
            Constraint::Length(1),
            Constraint::Min(40),
            Constraint::Length(1),
            Constraint::Length(36),
        ]
    );
    assert_eq!(
        size_body(30, BOTH, 28, 34),
        vec![
            Constraint::Length(0),
            Constraint::Length(0),
            Constraint::Min(30),
            Constraint::Length(0),
            Constraint::Length(0),
        ]
    );
    let body = split_body(rect(0, 1, 120, 22), BOTH, 28, 34);
    assert_eq!(body.headings, rect(0, 1, 30, 22));
    assert_eq!(body.document, rect(31, 1, 52, 22));
    assert_eq!(body.separator, rect(83, 1, 1, 22));
    assert_eq!(body.files, rect(84, 1, 36, 22));
    let body = split_body(rect(0, 1, 60, 22), BOTH, 28, 34);
    assert_eq!(body.document, rect(0, 1, 60, 22));
    assert!(!body.shown.headings && !body.shown.files);
}

#[test]
fn the_parts_of_the_body_stand_end_to_end() {
    for headings in [false, true] {
        for files in [false, true] {
            for width in (0..300).chain([1000, 40_000, u16::MAX - 7]) {
                let wanted = Sidebars { headings, files };
                let shown = fit_sidebars(width, wanted, 5, 12);
                let body = split_body(rect(7, 3, width, 4), wanted, 5, 12);
                let left = if shown.headings { 8 } else { 0 };
                let right = if shown.files { 15 } else { 0 };
                assert_eq!(body.shown, shown);
                assert_eq!(body.headings, rect(7, 3, if left > 0 { 7 } else { 0 }, 4));
                assert_eq!(body.document, rect(7 + left, 3, width - left - right, 4));
                let sep = if right > 0 { 1 } else { 0 };
                let end = 7 + width;
                assert_eq!(body.separator, rect(end - right, 3, sep, 4));
                assert_eq!(body.files, rect(end - right + sep, 3, right - sep, 4));
            }
        }
    }
}

#[test]
fn sidebars_have_a_border() {
    assert_eq!(sidebar_inside(rect(3, 4, 10, 6)), rect(4, 5, 8, 4));
    assert_eq!(sidebar_inside(rect(3, 4, 1, 2)), rect(4, 5, 0, 0));
    assert_eq!(sidebar_inside(rect(3, 4, 0, 0)), rect(3, 4, 0, 0));
    for (width, height) in [(0, 0), (1, 0), (2, 1), (1, 5), (9, 9)] {
        let area = rect(6, 2, width, height);
        let drawn = ratatui::widgets::Block::default()
            .borders(ratatui::widgets::Borders::ALL)
            .inner(ratatui::layout::Rect { x: 6, y: 2, width, height });
        let inner = rect(drawn.x, drawn.y, drawn.width, drawn.height);
        assert_eq!(sidebar_inside(area), inner, "{area:?}");
    }
}

#[test]
fn the_files_panel_has_metrics_where_it_is_high_enough() {
    let low = rect(1, 2, 30, 7);
    assert_eq!(split_files_panel(low), (low, rect(0, 0, 0, 0)));
    let inner = rect(1, 2, 30, 24);
    let (files, metrics) = split_files_panel(inner);
    assert_eq!(files, rect(1, 2, 30, 21));
    assert_eq!(metrics, rect(1, 23, 30, 3));
    for y in [0, 1, 2, 5] {
        for height in (8..400).chain([1000, 20_000, u16::MAX - 7]) {
            let rows = height - ((u32::from(height) + 4) / 8) as u16;
            assert!(rows < height);
            assert_eq!(
                split_files_panel(rect(4, y, 9, height)),
                (rect(4, y, 9, rows), rect(4, y + rows, 9, height - rows))
            );
        }
    }
    assert_eq!(size_files_panel(64), vec![Constraint::Min(0), Constraint::Length(8)]);
    let (files, metrics) = split_files_panel(rect(0, 0, 30, 64));
    assert_eq!((files.height, metrics.height), (56, 8));
    let (files, metrics) = split_files_panel(rect(0, 2, 30, 20));
    assert_eq!((files.height, metrics.height), (17, 3));
    let (files, metrics) = split_files_panel(rect(0, 0, 30, 8));
    assert_eq!((files.height, metrics.height), (7, 1));
    assert_eq!(files_divider(inner, rect(1, 2, 30, 20)), rect(1, 22, 30, 1));
}

#[test]
fn the_text_lies_behind_the_gutter() {
    let layout = HeadingGutterLayout::for_area(40, 3);
    assert_eq!(document_text_area(rect(5, 3, 40, 10), layout), rect(9, 3, 35, 10));
}

#[test]
fn scrolling_shows_the_row() {
    let scrolled = |from, row, viewport| {
        let mut scroll = from;
        ensure_row_visible(&mut scroll, row, viewport);
        scroll
    };
    assert_eq!(scrolled(5, 2, 4), 2);
    assert_eq!(scrolled(5, 5, 4), 5);
    assert_eq!(scrolled(5, 8, 4), 5);
    assert_eq!(scrolled(5, 9, 4), 6);
    assert_eq!(scrolled(0, 3, 0), 3);
    assert_eq!(scrolled(0, usize::MAX, 1), usize::MAX);
}

#[test]
fn scrolling_stays_inside() {
    assert_eq!(max_scroll(10, 4), 6);
    assert_eq!(max_scroll(3, 4), 0);
    assert_eq!(max_scroll(3, 0), 2);
    assert_eq!(clamp_scroll(9, 10, 4), 6);
    assert_eq!(clamp_scroll(2, 10, 4), 2);
    assert_eq!(scroll_by(2, 3, 10, 4), 5);
    assert_eq!(scroll_by(5, 3, 10, 4), 6);
    assert_eq!(scroll_by(2, -3, 10, 4), 0);
    assert_eq!(scroll_by(5, -3, 10, 4), 2);
    assert_eq!(scroll_by(5, isize::MIN, 10, 4), 0);
    assert_eq!(scroll_by(usize::MAX, isize::MAX, 10, 4), 6);
}

#[test]
fn the_cursor_is_drawn_inside_the_text() {
    let visual = VisualDocument::from_source("alpha beta gamma", 10, Style::default());
    let area = rect(3, 2, 10, 1);
    assert_eq!(cursor_position(&visual, 2, 0, area), Some((5, 2)));
    assert_eq!(cursor_position(&visual, 12, 0, area), None);
    assert_eq!(cursor_position(&visual, 12, 1, area), Some((4, 2)));
    assert_eq!(cursor_position(&visual, 2, 1, area), None);
    assert_eq!(cursor_position(&visual, 9, 0, rect(3, 2, 4, 1)), Some((6, 2)));
}

#[test]
fn the_thumb_lies_on_the_track() {
    assert_eq!(scrollbar_thumb(10, 100, 0), (0, 1));
    assert_eq!(scrollbar_thumb(10, 100, 50), (5, 1));
    assert_eq!(scrollbar_thumb(10, 20, 10), (5, 5));
    assert_eq!(scrollbar_thumb(10, 20, 900), (5, 5));
    assert_eq!(scrollbar_thumb(10, 5000, 4990), (9, 1));
    assert_eq!(scrollbar_thumb(0, 5, 2), (0, 0));
}

#[test]
fn the_scrollbar_is_track_and_thumb() {
    let track = Style::default().fg(Color::Gray);
    let thumb = Style::default().fg(Color::White);
    let cells = |height, total, scroll| -> Vec<(String, Style)> {
        scrollbar_lines(height, total, scroll, track, thumb)
            .iter()
            .map(|line| {
                assert_eq!(line.spans.len(), 1);
                (line.spans[0].content.clone(), line.spans[0].style)
            })
            .collect()
    };
    let (t, b) = (("│".to_string(), track), ("█".to_string(), thumb));
    assert_eq!(
        cells(5, 10, 4),
        vec![t.clone(), t.clone(), b.clone(), b.clone(), t.clone()]
    );
    assert_eq!(cells(5, 5, 0), vec![t.clone(); 5]);
    assert_eq!(cells(3, 0, 0), vec![t.clone(); 3]);
    assert_eq!(cells(2, 4, 0), vec![b, t]);
    assert!(cells(0, 4, 0).is_empty());
}

#[test]
fn labels_are_found_on_their_line() {
    let area = rect(2, 9, 12, 1);
    assert_eq!(control_area(area, "ab [x] cd", "[x]"), rect(5, 9, 3, 1));
    assert_eq!(control_area(area, "0123456789[x]", "[x]"), rect(12, 9, 2, 1));
    assert_eq!(control_area(area, "0123456789abc[x]", "[x]"), rect(0, 0, 0, 0));
    assert_eq!(control_area(area, "ab", "[x]"), rect(0, 0, 0, 0));
    assert_eq!(control_area(area, "é[x]", "[x]"), rect(4, 9, 3, 1));
}
