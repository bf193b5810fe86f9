use writerm::indent::is_prose_paragraph;
use writerm::render::{RenderedDocument, RenderedLine, RenderedSpan, SourceRange};
use writerm::style::{Color, Style};
use writerm::visual::VisualDocument;

fn range(start: usize, end: usize) -> Option<SourceRange> {
    Some(SourceRange { byte_start: start, byte_end: end, char_start: start, char_end: end })
}

fn span(content: &str, start: usize) -> RenderedSpan {
    RenderedSpan {
        content: content.to_string(),
        style: Style::default(),
        source: range(start, start + content.chars().count()),
    }
}

fn decoration(content: &str) -> RenderedSpan {
    RenderedSpan { content: content.to_string(), style: Style::default(), source: None }
}

/// What simple Markdown looks like: one line for each source line, without
/// heading markers and fences, with bullets, quote bars and rules.
fn render(text: &str) -> RenderedDocument {
    let mut lines = Vec::new();
    let mut start = 0;
    let mut fence = false;
    let mut blank_above = false;
    for line in text.split('\n') {
        let end = start + line.chars().count();
        let body = line.trim();
        let at = start + line.chars().take_while(|c| c.is_whitespace()).count();
        let marks = body.chars().take_while(|c| *c == '#').count();
        let mut spans = Vec::new();
        let mut shown = true;
        if body.starts_with("```") || body.starts_with("~~~") {
            fence = !fence;
            shown = false;
        } else if fence {
            spans.push(span(line, start));
        } else if body == "---" {
            spans.push(decoration(&"─".repeat(32)));
        } else if marks > 0 {
            let title = body[marks..].trim_start();
            if !title.is_empty() {
                spans.push(span(title, end - title.chars().count()));
            }
        } else if let Some(item) = body.strip_prefix("- ") {
            spans.push(decoration("• "));
            spans.push(span(item, at + 2));
        } else if let Some(quote) = body.strip_prefix("> ") {
            spans.push(decoration("│ "));
            spans.push(span(quote, at + 2));
        } else if !body.is_empty() {
            spans.push(span(body, at));
        }
        if shown && !(body.is_empty() && blank_above) {
            lines.push(RenderedLine { spans, source: range(start, end) });
        }
        blank_above = body.is_empty();
        start = end + 1;
    }
    RenderedDocument { lines }
}

#[test]
fn source_wraps_on_words_without_changing_source_positions() {
    let doc = VisualDocument::from_source("alpha beta gamma", 10, Style::default());

    assert_eq!(doc.rows.len(), 2);
    assert_eq!(doc.rows[0].to_line().to_string(), "alpha beta");
    assert_eq!(doc.rows[1].to_line().to_string(), "gamma");
    assert_eq!(doc.display_to_source(1, 0), Some(11));
    assert_eq!(doc.source_to_display(13), Some((1, 2)));
}

#[test]
fn source_mode_preserves_leading_spaces_for_navigation() {
    let doc = VisualDocument::from_source("    indented", 20, Style::default());

    assert_eq!(doc.rows[0].to_line().to_string(), "    indented");
    assert_eq!(doc.display_to_source(0, 0), Some(0));
    assert_eq!(doc.source_to_display(4), Some((0, 4)));
}

#[test]
fn source_selection_applies_selection_style_to_visible_range() {
    let doc = VisualDocument::from_source("alpha beta", 20, Style::default());
    let text = doc.to_text_with_selection(0, 1, Some((0, 5)), Style::default().bg(Color::Blue));

    assert_eq!(text.lines[0].spans[0].content, "alpha");
    assert_eq!(text.lines[0].spans[0].style.bg, Some(Color::Blue));
    assert_eq!(text.lines[0].spans[1].content, " beta");
    assert_eq!(text.lines[0].spans[1].style.bg, None);
}

#[test]
fn source_mode_mapping_never_enters_combining_grapheme() {
    let doc = VisualDocument::from_source("xe\u{0301}y", 20, Style::default());

    assert_eq!(doc.display_to_source(0, 0), Some(0));
    assert_eq!(doc.display_to_source(0, 1), Some(1));
    assert_eq!(doc.display_to_source(0, 2), Some(3));
    assert_eq!(doc.source_to_display(1), Some((0, 1)));
    assert_eq!(doc.source_to_display(2), Some((0, 1)));
    assert_eq!(doc.source_to_display(3), Some((0, 2)));
}

#[test]
fn source_mode_mapping_never_enters_zwj_emoji() {
    let family = "\u{1F468}\u{200D}\u{1F469}\u{200D}\u{1F467}";
    let doc = VisualDocument::from_source(family, 20, Style::default());
    let width = doc.row_width(0).unwrap();

    for col in 0..width {
        assert_eq!(doc.display_to_source(0, col), Some(0));
    }
    for char_pos in 1..5 {
        assert_eq!(doc.source_to_display(char_pos), Some((0, 0)));
    }
    assert_eq!(doc.source_to_display(5), Some((0, width)));
}

#[test]
fn rendered_selection_highlights_visible_text_after_hidden_markers() {
    let rendered = render("# Heading");
    let doc = VisualDocument::from_rendered(&rendered, 20);
    let text = doc.to_text_with_selection(0, 1, Some((2, 5)), Style::default().bg(Color::Blue));

    assert_eq!(text.lines[0].spans[0].content, "Hea");
    assert_eq!(text.lines[0].spans[0].style.bg, Some(Color::Blue));
    assert_eq!(text.lines[0].spans[1].content, "ding");
    assert_eq!(text.lines[0].spans[1].style.bg, None);
}

#[test]
fn rendered_mapping_never_enters_unicode_graphemes() {
    let rendered =
        render("xe\u{0301}y\n\n\u{1F468}\u{200D}\u{1F469}\u{200D}\u{1F467}");
    let doc = VisualDocument::from_rendered(&rendered, 20);

    assert_eq!(doc.display_to_source(0, 2), Some(3));
    assert_eq!(doc.source_to_display(2), Some((0, 1)));

    let emoji_row = doc.source_to_display(6).unwrap().0;
    for char_pos in 7..11 {
        assert_eq!(doc.source_to_display(char_pos), Some((emoji_row, 0)));
    }
}

#[test]
fn rendered_blank_rows_preserve_full_source_range() {
    let rendered = RenderedDocument {
        lines: vec![RenderedLine {
            spans: Vec::new(),
            source: Some(SourceRange {
                byte_start: 0,
                byte_end: 3,
                char_start: 0,
                char_end: 3,
            }),
        }],
    };
    let doc = VisualDocument::from_rendered(&rendered, 20);

    assert_eq!(doc.display_to_source(0, 0), Some(0));
    for char_pos in 0..=3 {
        assert_eq!(doc.source_to_display(char_pos), Some((0, 0)));
    }
}

#[test]
fn rendered_visual_only_rows_use_line_source_as_anchor() {
    let rendered = render("\n---\nnext");
    let doc = VisualDocument::from_rendered(&rendered, 40);

    assert_eq!(doc.rows[0].to_line().to_string(), "");
    assert_eq!(doc.rows[1].to_line().to_string(), "─".repeat(32));
    assert_eq!(doc.rows[2].to_line().to_string(), "next");
    assert_eq!(doc.source_to_display(0), Some((0, 0)));
    assert_eq!(doc.source_to_display(1), Some((1, 0)));
    assert_eq!(doc.source_to_display(4), Some((1, 32)));
    assert_eq!(doc.display_to_source(1, 4), Some(1));
}

#[test]
fn wrapped_rendered_lines_keep_hidden_marker_mapping() {
    let rendered = render("# Alpha beta gamma");
    let doc = VisualDocument::from_rendered(&rendered, 10);

    assert_eq!(doc.source_to_display(0), Some((0, 0)));
    assert_eq!(doc.display_to_source(0, 0), Some(2));
    assert_eq!(doc.source_to_display(13), Some((1, 0)));
}

#[test]
fn vertical_navigation_can_preserve_columns_across_short_rows() {
    let doc = VisualDocument::from_source("abcdefgh ij klmnopqr", 8, Style::default());

    assert_eq!(doc.source_to_display(6), Some((0, 6)));
    assert_eq!(doc.display_to_source(1, 6), Some(11));
    assert_eq!(doc.display_to_source(2, 6), Some(18));
}

#[test]
fn trailing_rendered_whitespace_maps_to_own_cell() {
    let rendered = render("hello ");
    let doc = VisualDocument::from_rendered(&rendered, 20);

    assert_eq!(doc.source_to_display(6), Some((0, 6)));
}

#[test]
fn real_newline_after_text_maps_to_next_visual_row() {
    let rendered = render("hello\n");
    let doc = VisualDocument::from_rendered(&rendered, 20);

    assert_eq!(doc.source_to_display(6), Some((1, 0)));
}

#[test]
fn incomplete_hidden_markdown_marker_stays_near_its_source_line() {
    let rendered = render("##\n\nnext");
    let doc = VisualDocument::from_rendered(&rendered, 20);

    assert_eq!(doc.source_to_display(2), Some((0, 0)));
}

#[test]
fn source_mode_expands_tabs_to_three_cells_of_whitespace() {
    let doc = VisualDocument::from_source("\tindented", 20, Style::default());

    // A single tab source character produces three " " display cells
    // followed by the 8 cells of "indented", for 11 cells total.
    assert_eq!(doc.row_width(0), Some(11));
    assert_eq!(doc.rows[0].to_line().to_string(), "   indented");
}

#[test]
fn source_mode_maps_every_tab_cell_back_to_the_same_source_character() {
    let doc = VisualDocument::from_source("\tindented", 20, Style::default());

    // Each of the three cells produced by a single tab maps to source
    // position 0 (the tab itself). Subsequent cells map to positions
    // 1..9 covering "indented".
    for col in 0..3 {
        assert_eq!(
            doc.display_to_source(0, col),
            Some(0),
            "tab cell {col} should map back to the tab source char"
        );
    }
    assert_eq!(doc.display_to_source(0, 3), Some(1));
}

#[test]
fn multiple_tabs_indent_consistently_in_source_mode() {
    let doc = VisualDocument::from_source("\t\talpha", 20, Style::default());

    // Two tab characters expand to six cells of whitespace followed
    // by the five cells of "alpha", for 11 cells total.
    assert_eq!(doc.row_width(0), Some(11));
    assert_eq!(doc.rows[0].to_line().to_string(), "      alpha");
    // The first three cells belong to the first tab, the next three
    // to the second tab, and the remaining cells to "alpha".
    assert_eq!(doc.display_to_source(0, 0), Some(0));
    assert_eq!(doc.display_to_source(0, 2), Some(0));
    assert_eq!(doc.display_to_source(0, 3), Some(1));
    assert_eq!(doc.display_to_source(0, 5), Some(1));
    assert_eq!(doc.display_to_source(0, 6), Some(2));
}


#[test]
fn indent_adds_two_cells_to_prose_paragraph_first_row() {
    let doc = VisualDocument::from_source("alpha beta gamma", 40, Style::default());
    let mut doc = doc; // make mutable
    doc.apply_first_line_indent("alpha beta gamma");

    // The single prose paragraph gets 2 cells of indent prepended.
    assert_eq!(doc.rows[0].to_line().to_string(), "  alpha beta gamma");
    assert_eq!(doc.row_width(0), Some(2 + "alpha beta gamma".len()));
}

#[test]
fn indent_preserves_source_mapping_on_indented_row() {
    let doc = VisualDocument::from_source("hello world", 40, Style::default());
    let mut doc = doc;
    doc.apply_first_line_indent("hello world");

    // The two indent cells map to source_start (0) for clicks.
    assert_eq!(doc.display_to_source(0, 0), Some(0));
    assert_eq!(doc.display_to_source(0, 1), Some(0));
    // The third display cell is the start of the actual text.
    assert_eq!(doc.display_to_source(0, 2), Some(0)); // first char "h"
    // source_to_display skips the visual prefix, so source_start
    // (position 0) maps to the first text character at col 2.
    assert_eq!(doc.source_to_display(0), Some((0, 2)));
    // source_to_display at position 5 (" " after hello) should return
    // the cell just after "hello", shifted by 2 for the indent.
    assert_eq!(doc.source_to_display(5), Some((0, 7)));
}

#[test]
fn indent_skips_headings() {
    let rendered = render("# Heading");
    let mut doc = VisualDocument::from_rendered(&rendered, 40);
    doc.apply_first_line_indent("# Heading");

    // Heading row should NOT get an indent.
    assert!(!doc.rows[0].to_line().to_string().starts_with("  Heading"));
}

#[test]
fn indent_skips_list_items() {
    let rendered = render("- first item\n- second item");
    let mut doc = VisualDocument::from_rendered(&rendered, 40);
    doc.apply_first_line_indent("- first item\n- second item");

    // List items should NOT get indented.
    for row in &doc.rows {
        let text = row.to_line().to_string();
        if !text.trim().is_empty() {
            // Should start with the bullet (• or space), NOT "  ".
            assert!(
                !text.starts_with("  •") && !text.starts_with("   "),
                "list item should not be indented, got: {text:?}"
            );
        }
    }
}

#[test]
fn indent_skips_blockquote() {
    let rendered = render("> quoted text");
    let mut doc = VisualDocument::from_rendered(&rendered, 40);
    doc.apply_first_line_indent("> quoted text");

    // Blockquote rows should NOT get a first-line indent (their
    // visual "│" prefix is their own structural indent).
    let first = doc.rows[0].to_line().to_string();
    assert!(
        !first.starts_with("  │"),
        "blockquote should not get indent, got: {first:?}"
    );
}

#[test]
fn indent_skips_thematic_break() {
    let rendered = render("before\n\n---\n\nafter");
    let mut doc = VisualDocument::from_rendered(&rendered, 40);
    doc.apply_first_line_indent("before\n\n---\n\nafter");

    // The thematic break row (───) should not be indented.
    let hr_row = doc
        .rows
        .iter()
        .find(|r| r.to_line().to_string().contains('─'))
        .expect("should have a thematic break row");
    let text = hr_row.to_line().to_string();
    assert!(
        !text.starts_with("  ─"),
        "thematic break should not be indented, got: {text:?}"
    );
}

#[test]
fn indent_skips_blank_lines() {
    let rendered = render("text\n\nmore");
    let mut doc = VisualDocument::from_rendered(&rendered, 40);
    doc.apply_first_line_indent("text\n\nmore");

    // Blank rows should have zero width (no indent).
    let blank_row = &doc.rows[1];
    assert_eq!(blank_row.to_line().to_string(), "");
}

#[test]
fn indent_skips_continuation_wrapped_rows() {
    let doc =
        VisualDocument::from_source("alpha beta gamma delta epsilon", 12, Style::default());
    let mut doc = doc;
    doc.apply_first_line_indent("alpha beta gamma delta epsilon");

    // First row gets indent, continuation rows do not.
    assert!(
        doc.rows[0]
            .to_line()
            .to_string()
            .starts_with("  alpha beta")
    );
    assert!(!doc.rows[1].to_line().to_string().starts_with("  gamma"));
    assert!(!doc.rows[2].to_line().to_string().starts_with("  delta"));
}

#[test]
fn indent_preserves_navigation_across_indented_and_unindented_rows() {
    let rendered = render("Paragraph one.\n\n# Heading\n\nParagraph two.");
    let mut doc = VisualDocument::from_rendered(&rendered, 40);
    doc.apply_first_line_indent("Paragraph one.\n\n# Heading\n\nParagraph two.");

    // "Paragraph one." — source pos 0 maps to col 2 (after the prefix),
    // because source_to_display skips the visual indent prefix.
    assert_eq!(doc.source_to_display(0), Some((0, 2)));
    // Clicks in the indent prefix (cols 0-1) still map to source_start.
    assert_eq!(doc.display_to_source(0, 0), Some(0));
    assert_eq!(doc.display_to_source(0, 1), Some(0));
    // The text area starts at col 2; clicking there still maps to
    // source pos 0.
    assert_eq!(doc.display_to_source(0, 2), Some(0));

    // "Heading" heading — no indent, source_to_display still works.
    let heading_source_start = "Paragraph one.\n\n# ".chars().count();
    let disp = doc.source_to_display(heading_source_start);
    assert!(disp.is_some(), "should find heading text");

    // "Paragraph two." — source_to_display finds it after the heading.
    let para2_start = "Paragraph one.\n\n# Heading\n\n".chars().count();
    let disp2 = doc.source_to_display(para2_start);
    assert!(disp2.is_some(), "should find second paragraph");
}


#[test]
fn is_prose_paragraph_recognises_plain_text() {
    assert!(is_prose_paragraph("Hello world"));
    assert!(is_prose_paragraph("This is a sentence."));
    assert!(is_prose_paragraph("singleword"));
}

#[test]
fn is_prose_paragraph_rejects_headings() {
    assert!(!is_prose_paragraph("# Heading"));
    assert!(!is_prose_paragraph("## Subheading"));
    assert!(!is_prose_paragraph("### Deep"));
}

#[test]
fn is_prose_paragraph_rejects_list_markers() {
    assert!(!is_prose_paragraph("- bullet"));
    assert!(!is_prose_paragraph("* star"));
    assert!(!is_prose_paragraph("+ plus"));
    assert!(!is_prose_paragraph("1. ordered"));
    assert!(!is_prose_paragraph("99. many"));
    assert!(!is_prose_paragraph("1) paren"));
    assert!(!is_prose_paragraph("42) paren-style"));
    assert!(!is_prose_paragraph("7.) dot-paren"));
}

#[test]
fn is_prose_paragraph_rejects_blockquote() {
    assert!(!is_prose_paragraph("> quoted"));
    assert!(!is_prose_paragraph(">"));
}

#[test]
fn is_prose_paragraph_rejects_fenced_code() {
    assert!(!is_prose_paragraph("```"));
    assert!(!is_prose_paragraph("```rust"));
    assert!(!is_prose_paragraph("~~~"));
}

#[test]
fn is_prose_paragraph_rejects_thematic_breaks() {
    assert!(!is_prose_paragraph("---"));
    assert!(!is_prose_paragraph("***"));
    assert!(!is_prose_paragraph("___"));
    assert!(!is_prose_paragraph("==="));
}

#[test]
fn is_prose_paragraph_rejects_blank_and_whitespace() {
    assert!(!is_prose_paragraph(""));
    assert!(!is_prose_paragraph("   "));
    assert!(!is_prose_paragraph("\t"));
}

#[test]
fn is_prose_paragraph_accepts_already_indented() {
    // Source-indented lines are still prose — the rendered-mode
    // visual pipeline strips and normalises the whitespace.
    assert!(is_prose_paragraph("    indented"));
    assert!(is_prose_paragraph("\tindented"));
}

#[test]
fn is_prose_paragraph_rejects_table_rows() {
    assert!(!is_prose_paragraph("| Name | Age |"));
    assert!(!is_prose_paragraph("| Alice | 30 |"));
    assert!(!is_prose_paragraph("|---|---|"));
    assert!(!is_prose_paragraph("| single cell"));
}


#[test]
fn indent_skips_content_inside_backtick_fence() {
    let rendered = render(
        "Before.\n\n```\nfn main() {\n    println!(\"hi\");\n}\n```\n\nAfter.",
    );
    let mut doc = VisualDocument::from_rendered(&rendered, 40);
    doc.apply_first_line_indent(
        "Before.\n\n```\nfn main() {\n    println!(\"hi\");\n}\n```\n\nAfter.",
    );

    // "Before." gets an indent.
    assert!(doc.rows[0].to_line().to_string().starts_with("  Before"));

    // Find a row containing "fn main" — it must NOT be indented.
    let code_row = doc
        .rows
        .iter()
        .find(|r| r.to_line().to_string().contains("fn main"))
        .expect("should contain fn main");
    let text = code_row.to_line().to_string();
    assert!(
        !text.starts_with("  fn"),
        "code inside fence should not be indented, got: {text:?}"
    );

    // "After." (post-fence prose) gets an indent.
    let after_row = doc
        .rows
        .iter()
        .find(|r| r.to_line().to_string().contains("After"))
        .expect("should contain After");
    assert!(
        after_row.to_line().to_string().starts_with("  After"),
        "prose after fence should be indented"
    );
}

#[test]
fn indent_skips_content_inside_tilde_fence() {
    let rendered = render("Intro.\n\n~~~\ncode\nmore code\n~~~\n\nOutro.");
    let mut doc = VisualDocument::from_rendered(&rendered, 40);
    doc.apply_first_line_indent("Intro.\n\n~~~\ncode\nmore code\n~~~\n\nOutro.");

    // "Intro." gets indent.
    assert!(doc.rows[0].to_line().to_string().starts_with("  Intro"));

    // Find a row containing "code" (inside the fence) — NOT indented.
    let code_rows: Vec<_> = doc
        .rows
        .iter()
        .filter(|r| {
            let t = r.to_line().to_string();
            t.contains("code") && !t.contains("Outro") && !t.contains("Intro")
        })
        .collect();
    assert!(!code_rows.is_empty(), "should have code rows inside fence");
    for row in &code_rows {
        let text = row.to_line().to_string();
        assert!(
            !text.starts_with("  code") && !text.starts_with("  more"),
            "tilde-fence code should not be indented, got: {text:?}"
        );
    }

    // "Outro." (post-fence prose) gets indent.
    let outro_row = doc
        .rows
        .iter()
        .find(|r| r.to_line().to_string().contains("Outro"))
        .expect("should contain Outro");
    assert!(
        outro_row.to_line().to_string().starts_with("  Outro"),
        "prose after tilde fence should be indented"
    );
}


/// Consecutive tab-prefixed source lines all show exactly one visual
/// indent (2-space prefix). 
#[test]
fn consecutive_tab_prefixed_lines_all_show_indent() {
    let input = "First paragraph.\n\tSecond tab-indented.\n\tThird tab-indented.";
    let rendered = render(input);
    let mut doc = VisualDocument::from_rendered(&rendered, 60);
    doc.apply_first_line_indent(input);

    // All three prose rows should start with a 2-space indent prefix.
    assert!(
        doc.rows[0].to_line().to_string().starts_with("  First"),
        "row 0 must have indent"
    );
    assert!(
        doc.rows[1].to_line().to_string().starts_with("  Second"),
        "row 1 must have indent"
    );
    assert!(
        doc.rows[2].to_line().to_string().starts_with("  Third"),
        "row 2 must have indent"
    );
    // Each row has prefix_width == 2.
    assert_eq!(doc.row_prefix_width(0), Some(2));
    assert_eq!(doc.row_prefix_width(1), Some(2));
    assert_eq!(doc.row_prefix_width(2), Some(2));
}

/// Space-prefixed lines also get uniform visual indent (normalised
/// from whatever space count the source uses).
#[test]
fn space_prefixed_lines_get_normalised_indent() {
    let input = "First.\n    Second (4 spaces).\n  Third (2 spaces).";
    let rendered = render(input);
    let mut doc = VisualDocument::from_rendered(&rendered, 60);
    doc.apply_first_line_indent(input);

    // All three rows have exactly a 2-space prefix.
    assert!(doc.rows[0].to_line().to_string().starts_with("  First"));
    assert!(doc.rows[1].to_line().to_string().starts_with("  Second"));
    assert!(doc.rows[2].to_line().to_string().starts_with("  Third"));
    for i in 0..3 {
        assert_eq!(doc.row_prefix_width(i), Some(2));
    }
}

/// Blank-line-separated paragraphs each get one indent on the first
/// visual row; no double-indent.
#[test]
fn blank_line_separated_paragraphs_each_get_one_indent() {
    let input = "Para one.\n\nPara two.\n\nPara three.";
    let rendered = render(input);
    let mut doc = VisualDocument::from_rendered(&rendered, 40);
    doc.apply_first_line_indent(input);

    // Find the three paragraph rows (skip the blank row).
    let texts: Vec<String> = doc
        .rows
        .iter()
        .map(|r| r.to_line().to_string())
        .filter(|t| !t.trim().is_empty())
        .collect();
    assert_eq!(texts.len(), 3, "should have 3 non-blank rows");
    for text in &texts {
        assert!(
            text.starts_with("  Para"),
            "paragraph should have single indent, got: {text:?}"
        );
        assert!(
            !text.starts_with("    Para"),
            "paragraph should not be double-indented, got: {text:?}"
        );
    }
}

/// `source_to_display` lands at the text-start column (prefix_width),
/// not inside the indent gutter.
#[test]
fn cursor_source_to_display_lands_after_indent() {
    let input = "hello world";
    let doc = VisualDocument::from_source(input, 40, Style::default());
    let mut doc = doc;
    doc.apply_first_line_indent(input);

    // source pos 0 ("h") → col 2 (after the 2-cell prefix).
    assert_eq!(doc.source_to_display(0), Some((0, 2)));
    // source pos 1 ("e") → col 3.
    assert_eq!(doc.source_to_display(1), Some((0, 3)));
}

/// With the prefix, `display_to_source` on a prefix cell maps to
/// `source_start` (for clicks), but `source_to_display` skips it.
/// Left from text-start (col 2) should NOT get stuck — it moves to
/// the previous source position, which remaps to col 2, but the app
/// layer treats `col == prefix_width` as a row boundary.
#[test]
fn indent_prefix_navigation_does_not_trap() {
    let input = "hello world";
    let doc = VisualDocument::from_source(input, 40, Style::default());
    let mut doc = doc;
    doc.apply_first_line_indent(input);

    // Click in the prefix (col 0) maps to source_start.
    assert_eq!(doc.display_to_source(0, 0), Some(0));
    assert_eq!(doc.display_to_source(0, 1), Some(0));
    // Click at text-start (col 2) maps to the first char.
    assert_eq!(doc.display_to_source(0, 2), Some(0));
    // source_to_display for source 0 skips to text-start.
    assert_eq!(doc.source_to_display(0), Some((0, 2)));
    // prefix_width is exported for the app layer.
    assert_eq!(doc.row_prefix_width(0), Some(2));
}

/// Tab-indented source line: the text-start source position maps to
/// col 2 (after the visual prefix), and the indent cells (cols 0-1)
/// map to the tab's source position for clicks.
#[test]
fn tab_indented_cursor_positions() {
    // \tShe... → tab at pos 0, S at pos 1, h at pos 2, ...
    let input = "\tShe";
    let rendered = render(input);
    let mut doc = VisualDocument::from_rendered(&rendered, 40);
    doc.apply_first_line_indent(input);

    let text = doc.rows[0].to_line().to_string();
    assert!(
        text.starts_with("  She"),
        "expected indent + text, got: {text:?}"
    );

    // Prefix cells map to source_start (the tab, pos 0).
    assert_eq!(doc.display_to_source(0, 0), Some(0));
    assert_eq!(doc.display_to_source(0, 1), Some(0));
    // Text-start ("S") maps to source pos 1.
    assert_eq!(doc.display_to_source(0, 2), Some(1));
    // source_to_display for the tab (pos 0) skips prefix → col 2 (text-start).
    assert_eq!(doc.source_to_display(0), Some((0, 2)));
    // source_to_display for "S" (pos 1) → col 2.
    assert_eq!(doc.source_to_display(1), Some((0, 2)));
}

/// Wrapping: first row gets indent, continuation rows do not.
#[test]
fn wrapping_continuation_rows_not_indented() {
    let input = "alpha beta gamma delta epsilon";
    let doc = VisualDocument::from_source(input, 12, Style::default());
    let mut doc = doc;
    doc.apply_first_line_indent(input);

    // First row has indent.
    assert!(doc.rows[0].to_line().to_string().starts_with("  alpha"));
    // Continuation rows have no indent.
    let cont1 = doc.rows[1].to_line().to_string();
    let cont2 = doc.rows[2].to_line().to_string();
    assert!(
        !cont1.starts_with("  "),
        "continuation row should not be indented: {cont1:?}"
    );
    assert!(
        !cont2.starts_with("  "),
        "continuation row should not be indented: {cont2:?}"
    );
    // Continuation rows have prefix_width == 0.
    assert_eq!(doc.row_prefix_width(1), Some(0));
    assert_eq!(doc.row_prefix_width(2), Some(0));
}

/// Structural exclusions: headings, lists, blockquotes, fences, and
/// thematic breaks still do not receive synthetic indent.
#[test]
fn structural_exclusions_still_work() {
    let input = "# Heading\n\n- list\n\n> blockquote\n\n```\ncode\n```\n\n---\n\nprose";
    let rendered = render(input);
    let mut doc = VisualDocument::from_rendered(&rendered, 40);
    doc.apply_first_line_indent(input);

    let texts: Vec<String> = doc.rows.iter().map(|r| r.to_line().to_string()).collect();

    // The last row is the prose paragraph and should be indented.
    let prose = &texts[texts.len() - 1];
    assert!(
        prose.starts_with("  prose"),
        "last prose row must be indented: {prose:?}"
    );

    // Heading row should NOT start with "  ".
    let heading = texts.iter().find(|t| t.contains("Heading")).unwrap();
    assert!(
        !heading.starts_with("  "),
        "heading should not be indented: {heading:?}"
    );

    // List item should NOT start with "  ".
    let list = texts.iter().find(|t| t.contains("list")).unwrap();
    assert!(
        !list.starts_with("  "),
        "list should not be indented: {list:?}"
    );

    // Code inside fence should NOT be indented.
    let code = texts.iter().find(|t| t.contains("code")).unwrap();
    assert!(
        !code.starts_with("  "),
        "code should not be indented: {code:?}"
    );
}

/// Paragraph indent does not affect source-peek mode (source mode
/// doesn't call apply_first_line_indent).
#[test]
fn source_mode_unchanged_by_indent_logic() {
    let input = "\tindented";
    let doc = VisualDocument::from_source(input, 20, Style::default());

    // Source mode keeps the tab expansion (3 cells) as-is.
    let text = doc.rows[0].to_line().to_string();
    assert!(
        text.starts_with("   indented"),
        "source mode shows tab expansion: {text:?}"
    );
    // No prefix in source mode.
    assert_eq!(doc.row_prefix_width(0), Some(0));
}

// Indented code block exclusion

/// A tab-prefixed line following a blank line is a CommonMark
/// indented code block and must NOT receive paragraph indent.
#[test]
fn indented_code_block_after_blank_skips_indent() {
    let input = "prose\n\n\tcode line\n\tmore code\n\nmore prose";
    let rendered = render(input);
    let mut doc = VisualDocument::from_rendered(&rendered, 60);
    doc.apply_first_line_indent(input);

    let code_rows: Vec<String> = doc
        .rows
        .iter()
        .map(|r| r.to_line().to_string())
        .filter(|t| t.contains("code"))
        .collect();
    assert!(!code_rows.is_empty());
    for text in &code_rows {
        assert!(
            !text.starts_with("  "),
            "code should not be indented: {text:?}"
        );
    }
}

/// Four-space-indented code blocks (blank-line-separated) also skip
/// paragraph indent.
#[test]
fn four_space_indented_code_block_skips_indent() {
    let input = "Text.\n\n    code line\n    more code\n\nMore text.";
    let rendered = render(input);
    let mut doc = VisualDocument::from_rendered(&rendered, 60);
    doc.apply_first_line_indent(input);

    for row in &doc.rows {
        let text = row.to_line().to_string();
        if text.contains("code") {
            assert!(!text.starts_with("  "), "4-space code: {text:?}");
        }
    }
}

/// A standalone tab-prefixed line (no preceding blank) is NOT an
/// indented code block — it is prose and gets indent.
#[test]
fn standalone_tab_prefixed_line_is_prose() {
    let input = "\tShe";
    let rendered = render(input);
    let mut doc = VisualDocument::from_rendered(&rendered, 40);
    doc.apply_first_line_indent(input);

    assert!(doc.rows[0].to_line().to_string().starts_with("  She"));
    assert_eq!(doc.row_prefix_width(0), Some(2));
}

/// Tab-prefixed lines within a prose paragraph (soft breaks, no blank
/// line) ARE prose continuations — lines that start with tabs
/// within the same paragraph.
#[test]
fn barrens_pattern_tab_continuations_get_indent() {
    let input = "Finally, she had an idea.\n\tShe looked out.\n\tShe was, of course.";
    let rendered = render(input);
    let mut doc = VisualDocument::from_rendered(&rendered, 60);
    doc.apply_first_line_indent(input);

    let texts: Vec<String> = doc.rows.iter().map(|r| r.to_line().to_string()).collect();
    assert_eq!(texts.len(), 3);
    assert!(texts[0].starts_with("  Finally"));
    assert!(
        texts[1].starts_with("  She looked"),
        "tab continuation: {:?}",
        texts[1]
    );
    assert!(
        texts[2].starts_with("  She was,"),
        "tab continuation: {:?}",
        texts[2]
    );
}
