use writerm::cells::{cell_is_whitespace, trim_leading_spaces, trim_trailing_spaces, Cell};
use writerm::indent::{build_indent_line_info, slice_line};
use writerm::metrics::{build_word_starts, compute, reading_time_secs};
use writerm::navigate::{
    mapped_char_near_visual_row, move_horizontal, move_line_boundary, move_rows, move_word,
    next_visual_cell, next_visual_source_after, previous_visual_cell, search_mapped_rows_backward,
    search_mapped_rows_forward,
};
use writerm::render::{RenderedDocument, RenderedLine, RenderedSpan, SourceRange};
use writerm::style::{Color, Span, Style, BOLD, push_cell_span};
use writerm::visual::VisualDocument;
use writerm::wrap::{wrap, WrapMode};

const TEXTS: [&str; 6] = [
    "alpha beta gamma",
    "  indented\n\n\tcode with a tab\nend",
    "日本語のテキスト and e\u{301}t\u{301}",
    "averyveryverylongword in the middle",
    "one\r\ntwo\r\n",
    "",
];

fn visible(text: &str) -> String {
    text.chars().filter(|c| !c.is_whitespace()).collect()
}

fn shown_text(doc: &VisualDocument) -> String {
    doc.rows.iter().map(|r| r.to_line().to_string()).collect()
}

/// One line for each source line, its text as it is.
fn rendered(text: &str) -> RenderedDocument {
    let mut lines = Vec::new();
    let mut start = 0;
    for line in text.split('\n') {
        let end = start + line.chars().count();
        let source = Some(SourceRange {
            byte_start: start,
            byte_end: end,
            char_start: start,
            char_end: end,
        });
        lines.push(RenderedLine {
            spans: vec![RenderedSpan {
                content: line.to_string(),
                style: Style::default(),
                source: source.clone(),
            }],
            source,
        });
        start = end + 1;
    }
    RenderedDocument { lines }
}

#[test]
fn every_source_position_has_a_place_inside_its_row() {
    for text in TEXTS {
        for width in [0, 1, 3, 8, 40] {
            let doc = VisualDocument::from_source(text, width, Style::default());
            for pos in 0..=text.chars().count() {
                let (row, col) = doc.source_to_display(pos).unwrap();
                assert!(row < doc.rows.len());
                assert!(col <= doc.row_width(row).unwrap());
            }
        }
    }
}

#[test]
fn shown_characters_map_back_to_themselves() {
    for text in TEXTS {
        for width in [1, 3, 8, 40] {
            let doc = VisualDocument::from_source(text, width, Style::default());
            for row in 0..doc.rows.len() {
                for col in 0..doc.row_width(row).unwrap() {
                    let pos = doc.display_to_source(row, col).unwrap();
                    let (r, c) = doc.source_to_display(pos).unwrap();
                    assert_eq!(doc.display_to_source(r, c), Some(pos), "{text:?} {width}");
                }
            }
        }
    }
}

#[test]
fn visible_characters_are_kept_in_order() {
    for text in TEXTS {
        for width in [1, 3, 8, 40] {
            let doc = VisualDocument::from_source(text, width, Style::default());
            assert_eq!(visible(&shown_text(&doc)), visible(text));
            let doc = VisualDocument::from_rendered(&rendered(text), width);
            assert_eq!(visible(&shown_text(&doc)), visible(text));
        }
    }
}

#[test]
fn rows_go_through_the_source_in_order() {
    for text in TEXTS {
        for width in [1, 3, 8, 40] {
            for doc in [
                VisualDocument::from_source(text, width, Style::default()),
                VisualDocument::from_rendered(&rendered(text), width),
            ] {
                let mut last = 0;
                for row in doc.rows.iter().filter(|r| r.mapped) {
                    assert!(row.source_start >= last, "{text:?} {width}");
                    assert!(row.source_end >= row.source_start);
                    for pair in row.col_sources.windows(2) {
                        assert!(pair[0] <= pair[1]);
                    }
                    last = row.source_start;
                }
            }
        }
    }
}

#[test]
fn rows_fit_the_surface() {
    for text in TEXTS {
        for width in [3, 8, 40] {
            let doc = VisualDocument::from_source(text, width, Style::default());
            for row in 0..doc.rows.len() {
                assert!(doc.row_width(row).unwrap() <= width);
            }
        }
    }
}

#[test]
fn the_cursor_stands_at_the_start_of_graphemes() {
    let doc = VisualDocument::from_source("a日e\u{301}b", 20, Style::default());
    assert_eq!(doc.source_to_display(0), Some((0, 0)));
    assert_eq!(doc.source_to_display(1), Some((0, 1)));
    assert_eq!(doc.source_to_display(2), Some((0, 3)));
    assert_eq!(doc.source_to_display(3), Some((0, 3)));
    assert_eq!(doc.source_to_display(4), Some((0, 4)));
    assert_eq!(doc.display_to_source(0, 2), Some(1));
}

#[test]
fn indents_move_the_text_of_paragraphs() {
    let text = "First paragraph here\n\n# Not prose\n\nSecond one";
    let mut doc = VisualDocument::from_rendered(&rendered(text), 12);
    assert!((0..doc.rows.len()).all(|i| doc.row_prefix_width(i) == Some(0)));
    let before: Vec<(usize, usize)> =
        (0..text.len()).map(|pos| doc.source_to_display(pos).unwrap()).collect();
    let widths: Vec<usize> = (0..doc.rows.len()).map(|i| doc.row_width(i).unwrap()).collect();
    doc.apply_first_line_indent(text);
    let indents: Vec<usize> =
        (0..doc.rows.len()).map(|i| doc.row_prefix_width(i).unwrap()).collect();
    assert_eq!(indents, vec![2, 0, 0, 0, 0, 0, 2]);
    for (i, width) in widths.iter().enumerate() {
        assert_eq!(doc.row_width(i).unwrap(), width + indents[i]);
        assert!(doc.row_width(i).unwrap() <= 14);
    }
    for (pos, (row, col)) in before.iter().enumerate() {
        assert_eq!(doc.source_to_display(pos), Some((*row, col + indents[*row])));
    }
    assert_eq!(doc.display_to_source(0, 0), Some(0));
    assert_eq!(doc.display_to_source(0, 1), Some(0));
    assert_eq!(visible(&shown_text(&doc)), visible(text));
}

#[test]
fn moving_right_goes_forward_and_left_does_not() {
    for text in TEXTS {
        let doc = VisualDocument::from_source(text, 8, Style::default());
        for pos in 0..=text.chars().count() {
            if let Some(target) = move_horizontal(&doc, pos, 1) {
                assert!(target > pos);
            }
            if let Some(target) = move_horizontal(&doc, pos, -1) {
                assert!(target <= pos);
            }
        }
    }
    let doc = VisualDocument::from_source("ab cd", 20, Style::default());
    assert_eq!(move_horizontal(&doc, 0, 1), Some(1));
    assert_eq!(move_horizontal(&doc, 1, -1), Some(0));
    assert_eq!(move_word(&doc, 0, 1), Some(3));
    assert_eq!(move_word(&doc, 4, -1), Some(3));
    assert_eq!(move_word(&doc, 3, -1), Some(0));
    assert_eq!(move_line_boundary(&doc, 2, true), Some(5));
    assert_eq!(move_line_boundary(&doc, 2, false), Some(0));
}

#[test]
fn rows_are_moved_over_with_a_column_to_keep() {
    let doc = VisualDocument::from_source("abcdef\nxy\nuvwxyz", 20, Style::default());
    assert_eq!(move_rows(&doc, 4, None, 1, false), Some((9, 4)));
    assert_eq!(move_rows(&doc, 9, Some(4), 1, false), Some((14, 4)));
    assert_eq!(move_rows(&doc, 4, None, -1, false), None);
    assert_eq!(move_rows(&doc, 4, None, -1, true), Some((4, 4)));
    assert_eq!(move_rows(&doc, 4, None, 9, true), Some((14, 4)));
}

#[test]
fn rows_without_source_are_passed_over() {
    let mut doc = VisualDocument::from_source("ab\ncd\nef", 20, Style::default());
    doc.rows[1].mapped = false;
    assert_eq!(search_mapped_rows_forward(&doc, 1, 1), Some(7));
    assert_eq!(search_mapped_rows_backward(&doc, 1, 1), Some(1));
    assert_eq!(search_mapped_rows_forward(&doc, 3, 0), None);
    assert_eq!(mapped_char_near_visual_row(&doc, 1, 0, 1, false), Some(6));
    assert_eq!(mapped_char_near_visual_row(&doc, 1, 0, -1, false), Some(0));
    assert_eq!(mapped_char_near_visual_row(&doc, 1, 0, 0, true), None);
    doc.rows[0].mapped = false;
    assert_eq!(mapped_char_near_visual_row(&doc, 1, 0, -1, false), None);
    assert_eq!(mapped_char_near_visual_row(&doc, 1, 0, -1, true), Some(6));
}

#[test]
fn cells_follow_each_other_over_the_rows() {
    let doc = VisualDocument::from_source("ab\ncd", 20, Style::default());
    assert_eq!(next_visual_cell(&doc, 0, 0), Some((0, 1)));
    assert_eq!(next_visual_cell(&doc, 0, 2), Some((1, 0)));
    assert_eq!(next_visual_cell(&doc, 1, 2), None);
    assert_eq!(previous_visual_cell(&doc, 0, 0), None);
    assert_eq!(previous_visual_cell(&doc, 0, 1), Some((0, 0)));
    assert_eq!(next_visual_source_after(&doc, 0, 0, 0), Some(1));
}

// ---------------------------------------------------------------------------
// Cells and wrapping
// ---------------------------------------------------------------------------
fn cells(text: &str) -> Vec<Cell> {
    text.chars()
        .enumerate()
        .map(|(i, c)| Cell {
            text: c.to_string(),
            width: 1,
            style: Style::default(),
            source: Some((i, i + 1)),
        })
        .collect()
}

fn row_texts(rows: &Vec<Vec<Cell>>) -> Vec<String> {
    rows.iter().map(|r| r.iter().map(|c| c.text.as_str()).collect()).collect()
}

#[test]
fn wrapping_breaks_at_blanks_and_keeps_order() {
    let rows = wrap(cells("alpha beta  gammadelta"), 7, WrapMode::Rendered);
    assert_eq!(row_texts(&rows), vec!["alpha", "beta", "gammade", "lta"]);
    assert!(rows.iter().all(|r| r.iter().map(|c| c.width).sum::<usize>() <= 7));
    let sources: Vec<usize> = rows.iter().flatten().map(|c| c.source.unwrap().0).collect();
    assert!(sources.windows(2).all(|p| p[0] < p[1]));
    assert!(wrap(Vec::new(), 7, WrapMode::Source).len() <= 1);
}

#[test]
fn blank_cells_are_trimmed() {
    assert!(cell_is_whitespace(&cells(" ")[0]));
    assert!(!cell_is_whitespace(&cells("a")[0]));
    assert_eq!(trim_leading_spaces(cells("  a ")).len(), 2);
    let mut row = cells(" a  ");
    trim_trailing_spaces(&mut row);
    assert_eq!(row.len(), 2);
}

// ---------------------------------------------------------------------------
// Styles
// ---------------------------------------------------------------------------
#[test]
fn patching_twice_is_patching_once() {
    let under = Style::default().fg(Color::Red).add_modifier(BOLD);
    let over = Style::default().bg(Color::Blue);
    let once = under.patch(over);
    assert_eq!(once, Style::default().fg(Color::Red).bg(Color::Blue).add_modifier(BOLD));
    assert_eq!(once.patch(over), once);
    assert_eq!(under.patch(Style::default()), under);
    let off = Style { sub_modifier: BOLD, ..Style::default() };
    assert_eq!(under.patch(off).add_modifier, 0);
    assert_eq!(off.patch(under).sub_modifier, 0);
}

#[test]
fn runs_of_one_style_are_one_span() {
    let mut spans: Vec<Span> = Vec::new();
    push_cell_span(&mut spans, "a", Style::default());
    push_cell_span(&mut spans, "b", Style::default());
    push_cell_span(&mut spans, "c", Style::default().fg(Color::Red));
    let contents: Vec<&str> = spans.iter().map(|s| s.content.as_str()).collect();
    assert_eq!(contents, vec!["ab", "c"]);
}

/// A list item, a rule, a line without source, a quote with a mark in the middle
/// of it, and a paragraph, for the source
/// `- one two\n---\n> q **b** r\nplain words here`.
fn decorated() -> RenderedDocument {
    let at = |start: usize, end: usize| {
        Some(SourceRange { byte_start: start, byte_end: end, char_start: start, char_end: end })
    };
    let span = |content: &str, source: Option<SourceRange>| RenderedSpan {
        content: content.to_string(),
        style: Style::default(),
        source,
    };
    let lines = vec![
        RenderedLine {
            spans: vec![span("• ", None), span("one two", at(2, 9))],
            source: at(0, 9),
        },
        RenderedLine { spans: vec![span("──────", None)], source: at(10, 13) },
        RenderedLine { spans: vec![span("(note)", None)], source: None },
        RenderedLine {
            spans: vec![
                span("│ ", None),
                span("q ", at(16, 18)),
                span("»", None),
                span("b", at(20, 21)),
                span("«", None),
                span(" r", at(23, 25)),
            ],
            source: at(14, 25),
        },
        RenderedLine { spans: vec![span("plain words here", at(26, 42))], source: at(26, 42) },
    ];
    RenderedDocument { lines }
}

#[test]
fn decorated_characters_map_back() {
    let source = "- one two\n---\n> q **b** r\nplain words here";
    let shown = [2, 3, 4, 6, 7, 8, 16, 20, 24, 26, 27, 28, 29, 30, 32, 36, 38, 39, 40, 41];
    for width in 1..30 {
        let plain = VisualDocument::from_rendered(&decorated(), width);
        let mut indented = VisualDocument::from_rendered(&decorated(), width);
        indented.apply_first_line_indent(source);
        for doc in [plain, indented] {
            for pos in shown {
                let (row, col) = doc.source_to_display(pos).unwrap();
                assert_eq!(doc.display_to_source(row, col), Some(pos), "{width} {pos}");
            }
        }
    }
    let doc = VisualDocument::from_rendered(&decorated(), 40);
    assert_eq!(doc.rows[0].col_sources, vec![2, 2, 2, 3, 4, 5, 6, 7, 8]);
    for row in [0, 1, 3, 4] {
        for col in 0..doc.row_width(row).unwrap() {
            let pos = doc.display_to_source(row, col).unwrap();
            let (r, c) = doc.source_to_display(pos).unwrap();
            assert_eq!(doc.display_to_source(r, c), Some(pos), "{row} {col}");
        }
    }
    assert_eq!(visible(&shown_text(&doc)), "•onetwo──────(note)│q»b«rplainwordshere");
}

#[test]
fn selecting_changes_no_text() {
    let over = Style::default().bg(Color::Blue);
    for text in TEXTS {
        let doc = VisualDocument::from_source(text, 9, Style::default());
        for selection in [None, Some((0, 0)), Some((1, 4)), Some((0, 99))] {
            let drawn = doc.to_text_with_selection(0, 99, selection, over);
            assert_eq!(drawn.lines.len(), doc.rows.len());
            for (line, row) in drawn.lines.iter().zip(&doc.rows) {
                assert_eq!(line.to_string(), row.to_line().to_string());
            }
        }
    }
}

#[test]
fn short_ascii_lines_are_one_row() {
    let doc = VisualDocument::from_source("ab\n\tx\ty", 8, Style::default());
    assert_eq!(doc.rows.len(), 2);
    let row = &doc.rows[1];
    assert_eq!(row.col_sources, vec![3, 3, 3, 4, 5, 5, 5, 6]);
    assert_eq!((row.source_start, row.source_end), (3, 7));
    assert_eq!(row.spans.len(), 1);
    assert_eq!(row.spans[0].content, "   x   y");
}

#[test]
fn clicks_anywhere_in_a_source_document_map_back() {
    for text in TEXTS {
        for width in 1..14 {
            let doc = VisualDocument::from_source(text, width, Style::default());
            for row in 0..doc.rows.len() {
                for col in 0..width + 3 {
                    let pos = doc.display_to_source(row, col).unwrap();
                    let (r, c) = doc.source_to_display(pos).unwrap();
                    assert_eq!(doc.display_to_source(r, c), Some(pos), "{text:?} {row} {col}");
                }
            }
            for pos in 0..text.chars().count() + 5 {
                assert!(doc.source_to_display(pos).is_some());
            }
        }
    }
}

// ---------------------------------------------------------------------------
// Lines
// ---------------------------------------------------------------------------
#[test]
fn lines_are_listed_with_their_bounds() {
    let info = build_indent_line_info("é\r\nb\n");
    assert_eq!(info.byte_bounds, vec![(0, 2), (4, 5), (6, 6)]);
    assert_eq!(info.char_starts, vec![0, 3, 5]);
    let info = build_indent_line_info("");
    assert!(info.byte_bounds.is_empty() && info.char_starts.is_empty());
    assert!(info.in_fence.is_empty() && info.in_indented_code.is_empty());
    for text in TEXTS.iter().chain(&["\n", "a\r\r\n", "漢\n```\nx\n```\n\n    y\r"]) {
        let info = build_indent_line_info(text);
        let count = if text.is_empty() { 0 } else { 1 + text.matches('\n').count() };
        assert_eq!(info.byte_bounds.len(), count);
        assert_eq!(info.char_starts.len(), count);
        assert_eq!(info.in_fence.len(), count);
        assert_eq!(info.in_indented_code.len(), count);
        let chars: Vec<char> = text.chars().collect();
        for (k, &(from, to)) in info.byte_bounds.iter().enumerate() {
            assert_eq!(info.char_starts[k], text[..from].chars().count());
            assert_eq!(slice_line(&chars, &info, k), text[from..to]);
        }
        assert_eq!(slice_line(&chars, &info, count), "");
    }
}

// ---------------------------------------------------------------------------
// Metrics
// ---------------------------------------------------------------------------
#[test]
fn counts_are_bounded_by_characters() {
    for text in TEXTS {
        let metrics = compute(text);
        assert_eq!(metrics.characters, text.chars().count());
        assert_eq!(metrics.words, text.split_whitespace().count());
        assert!(metrics.words <= metrics.characters);
        assert!(metrics.sentences <= metrics.characters);
        assert!(metrics.paragraphs <= metrics.characters);
        assert_eq!(build_word_starts(text).len(), metrics.words);
    }
    assert_eq!(build_word_starts(" ab  c"), vec![1, 5]);
    assert_eq!(build_word_starts("é 漢字\n😀 x"), vec![0, 3, 10, 15]);
}

#[test]
fn longer_texts_take_longer() {
    let times: Vec<u64> = (0..400).map(reading_time_secs).collect();
    assert!(times.windows(2).all(|p| p[0] <= p[1]));
    assert_eq!((times[0], times[1], times[3], times[4], times[180]), (0, 1, 1, 2, 60));
}
