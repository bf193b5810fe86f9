use writerm::headings::{
    build_heading_rows, compose_prefix, draw_gutter, draw_headings, gutter_positions,
    heading_panel_rows, label_width, label_width_behind, max_heading_depth, needs_piece,
    position_above, rows_of_pieces, style_heading, LabelPiece, OutlineEntry, OutlineKind,
};
use writerm::layout::Rect;
use writerm::metrics::compute;
use writerm::panels::{
    bottom_bar_text, compose_ribbon, draw_entries, draw_entry, draw_metrics, entry_look,
    files_title, metrics_lines, mode_badge, prompt_line, prompt_style, ribbon_line, ribbon_style,
    separator_style, set_control_areas, status_style, title_style, Palette, RibbonFacts, Switches,
};
use writerm::style::{Color, Line, Style, BOLD};
use writerm::visual::VisualDocument;
use writerm::workspace::{WorkspaceEntry, WorkspaceEntryKind};

fn palette() -> Palette {
    Palette {
        accent_cyan: Color::Indexed(1),
        accent_green: Color::Indexed(2),
        accent_yellow: Color::Indexed(3),
        bg_active: Color::Indexed(4),
        bg_dark: Color::Indexed(5),
        bg_highlight: Color::Indexed(6),
        bg_surface: Color::Indexed(7),
        border_unfocused: Color::Indexed(8),
        dir_color: Color::Indexed(9),
        heading_h1: Color::Indexed(11),
        heading_h2: Color::Indexed(12),
        heading_h3: Color::Indexed(13),
        heading_h4: Color::Indexed(14),
        heading_h5: Color::Indexed(15),
        heading_h6: Color::Indexed(16),
        notify_error_bg: Color::Indexed(17),
        notify_error_fg: Color::Indexed(18),
        selection_bg: Color::Indexed(19),
        status_bg: Color::Indexed(20),
        status_fg: Color::Indexed(21),
        text_bright: Color::Indexed(22),
        text_dim: Color::Indexed(23),
        text_primary: Color::Indexed(24),
        text_secondary: Color::Indexed(25),
    }
}

fn fg(n: u8) -> Style {
    Style::default().fg(Color::Indexed(n))
}

fn rect(x: u16, y: u16, width: u16, height: u16) -> Rect {
    Rect { x, y, width, height }
}

fn texts(lines: &Vec<Line>) -> Vec<String> {
    lines.iter().map(|l| l.to_string()).collect()
}

fn facts() -> RibbonFacts {
    RibbonFacts {
        name: "note.md".to_string(),
        dirty: true,
        cursor_word: 12,
        total_words: 340,
        heading: "Plan".to_string(),
        path: "/home/me/note.md".to_string(),
        notification: None,
    }
}

// ---------------------------------------------------------------------------
// Ribbon and bars
// ---------------------------------------------------------------------------
#[test]
fn the_ribbon_tells_of_the_document() {
    let mut facts = facts();
    assert_eq!(
        compose_ribbon(&facts, "Plan", "/home"),
        " note.md | dirty | 12 / 340 words | Plan | /home"
    );
    facts.dirty = false;
    facts.notification = Some("Saved".to_string());
    assert_eq!(
        compose_ribbon(&facts, "", ""),
        " note.md | saved | 12 / 340 words |  |  | Saved"
    );
}

#[test]
fn the_ribbon_is_cut_to_its_width() {
    let mut facts = facts();
    facts.heading = "A heading that is longer than it may be".to_string();
    assert_eq!(
        ribbon_line(&facts, 100),
        " note.md | dirty | 12 / 340 words | A heading that is longer tha | /home/me/note.md"
    );
    assert_eq!(
        ribbon_line(&facts, 66),
        " note.md | dirty | 12 / 340 words | A heading that is longer tha |"
    );
    assert_eq!(ribbon_line(&facts, 20), " note.md | dirty | 1");
    assert_eq!(ribbon_line(&facts, 0), "");
}

#[test]
fn the_ribbon_warns_of_errors() {
    let p = palette();
    assert_eq!(ribbon_style(false, &p), fg(21).bg(Color::Indexed(20)));
    assert_eq!(ribbon_style(true, &p), fg(18).bg(Color::Indexed(17)));
    assert_eq!(status_style(&p), fg(21).bg(Color::Indexed(20)));
    assert_eq!(prompt_style(&p), fg(22).bg(Color::Indexed(4)));
    assert_eq!(separator_style(&p), fg(8));
    assert_eq!(title_style(&p), fg(25).add_modifier(BOLD));
}

#[test]
fn the_badge_names_the_mode() {
    let p = palette();
    let badge = mode_badge(true, rect(0, 0, 80, 1), &p).unwrap();
    assert_eq!(badge.text, " SOURCE ");
    assert_eq!(badge.area, rect(72, 0, 8, 1));
    assert_eq!(badge.style, fg(5).bg(Color::Indexed(3)).add_modifier(BOLD));
    let badge = mode_badge(false, rect(2, 4, 8, 1), &p).unwrap();
    assert_eq!(badge.text, " WRITE ");
    assert_eq!(badge.area, rect(3, 4, 7, 1));
    assert_eq!(badge.style, fg(5).bg(Color::Indexed(1)).add_modifier(BOLD));
    assert!(mode_badge(false, rect(0, 0, 7, 1), &p).is_none());
}

#[test]
fn the_bottom_bar_shows_the_switches() {
    let on = Switches { source_peek: false, indent: true, headings: true, files: true };
    assert_eq!(
        bottom_bar_text(on),
        " WRITERM | ^S:save  ^B/I/K:fmt  ^N:new  ^Q:quit | [^M:render on] [F4:indent on] [F3:hd on] [F2:files on] "
    );
    let off = Switches { source_peek: true, indent: false, headings: false, files: false };
    assert_eq!(
        bottom_bar_text(off),
        " WRITERM | ^S:save  ^B/I/K:fmt  ^N:new  ^Q:quit | [^M:render off] [F4:indent off] [F3:hd off] [F2:files off] "
    );
}

#[test]
fn labels_of_the_bottom_bar_can_be_clicked() {
    let s = Switches { source_peek: false, indent: true, headings: true, files: false };
    let text = bottom_bar_text(s);
    let controls = set_control_areas(rect(0, 23, 120, 1), s);
    let at = text.find("[F3:hd on]").unwrap() as u16;
    assert_eq!(controls.headings, rect(at, 23, 10, 1));
    let at = text.find("[F2:files off]").unwrap() as u16;
    assert_eq!(controls.files, rect(at, 23, 14, 1));
    let narrow = set_control_areas(rect(0, 23, 40, 1), s);
    assert_eq!(narrow.headings, rect(0, 0, 0, 0));
}

#[test]
fn prompt_and_title_are_cut_to_their_width() {
    assert_eq!(prompt_line("draft", 80), " New Markdown file: draft");
    assert_eq!(prompt_line("draft", 22), " New Markdown file: dr");
    assert_eq!(files_title("notes", 40), " Files: notes ");
    assert_eq!(files_title("日記", 11), " Files: 日");
}

// ---------------------------------------------------------------------------
// Files and metrics
// ---------------------------------------------------------------------------
fn entry(name: &str, kind: WorkspaceEntryKind) -> WorkspaceEntry {
    WorkspaceEntry { name: name.to_string(), kind }
}

#[test]
fn entries_look_like_what_they_are() {
    let p = palette();
    let look = |name, kind| {
        let l = entry_look(&entry(name, kind), &p);
        (l.icon, l.icon_style, l.name_style)
    };
    assert_eq!(look("..", WorkspaceEntryKind::Parent), ('←', fg(23), fg(23)));
    assert_eq!(look("src", WorkspaceEntryKind::Directory), ('/', fg(9), fg(24)));
    assert_eq!(
        look("a.md", WorkspaceEntryKind::File),
        ('M', fg(2).add_modifier(BOLD), fg(2))
    );
    assert_eq!(look("a.txt", WorkspaceEntryKind::File), ('T', fg(23), fg(25)));
}

#[test]
fn the_selected_entry_is_highlighted() {
    let p = palette();
    let file = entry("a.txt", WorkspaceEntryKind::File);
    let line = draw_entry(&file, "a.txt".to_string(), true, &p);
    assert_eq!(line.to_string(), "> T a.txt");
    assert_eq!(line.spans[2].style, fg(25).bg(Color::Indexed(6)).add_modifier(BOLD));
    let line = draw_entry(&file, "a".to_string(), false, &p);
    assert_eq!(line.to_string(), "  T a");
    assert_eq!(line.spans[1].style, fg(23).bg(Color::Indexed(7)));
}

#[test]
fn the_file_browser_shows_what_is_in_view() {
    let p = palette();
    let entries = vec![
        entry("..", WorkspaceEntryKind::Parent),
        entry("drafts", WorkspaceEntryKind::Directory),
        entry("chapter.md", WorkspaceEntryKind::File),
    ];
    let drawn = draw_entries(&entries, 2, 1, 5, 11, &p);
    assert_eq!(texts(&drawn), vec!["  / drafts", "> M chapte"]);
    assert_eq!(texts(&draw_entries(&entries, 0, 0, 1, 11, &p)), vec!["> ← .."]);
    assert_eq!(texts(&draw_entries(&entries, 0, 0, 1, 4, &p)), vec!["> ← "]);
    assert!(draw_entries(&entries, 0, 3, 5, 11, &p).is_empty());
    assert!(draw_entries(&entries, 0, 0, 0, 11, &p).is_empty());
}

#[test]
fn a_higher_panel_has_more_metrics() {
    let p = palette();
    let metrics = compute("One two. Three!\nFour?");
    let at = |height| texts(&metrics_lines(&metrics, 30, height, &p));
    assert!(at(0).is_empty());
    assert_eq!(at(1), vec!["2s read"]);
    assert_eq!(at(2), vec!["4 w · 21 ch", "3 sent · 2 para · 2s read"]);
    assert_eq!(at(3), vec!["── Doc ──", "4 w · 21 ch", "3 sent · 2 para · 2s read"]);
    assert_eq!(at(4), vec!["── Doc ──", "4 w · 21 ch", "3 sent · 2 para", "2s read"]);
    assert_eq!(at(9), at(4));
    assert_eq!(texts(&metrics_lines(&metrics, 4, 4, &p))[0], "── D");
    let drawn = draw_metrics(&metrics, "T".to_string(), 4, &p);
    assert_eq!(drawn[0].spans[0].style, fg(25).add_modifier(BOLD));
    assert_eq!(drawn[1].spans[0].style, fg(1).add_modifier(BOLD));
    assert_eq!(drawn[1].spans[1].style, fg(23));
}

// ---------------------------------------------------------------------------
// Headings
// ---------------------------------------------------------------------------
fn heading(depth: usize, line: usize, label: &str) -> OutlineEntry {
    OutlineEntry { kind: OutlineKind::Heading, depth, line, label: label.to_string() }
}

fn piece(text: &str, last: bool) -> LabelPiece {
    LabelPiece { text: text.to_string(), last }
}

#[test]
fn deeper_headings_stand_further_in() {
    assert_eq!(compose_prefix(0), "▸ ");
    assert_eq!(compose_prefix(1), "▸ ");
    assert_eq!(compose_prefix(3), "    ▸ ");
    assert_eq!(compose_prefix(4), "      · ");
    assert_eq!(label_width(1, 15), 13);
    assert_eq!(label_width(3, 6), 0);
    assert_eq!(label_width(1, 0), 0);
    assert_eq!(label_width_behind(4, 15), 11);
    assert_eq!(label_width_behind(15, 15), 0);
}

#[test]
fn headings_up_to_the_cursor_are_in_their_colour() {
    let p = palette();
    for depth in 1..=6 {
        let style = style_heading(&heading(depth, 3, "x"), 3, &p);
        assert_eq!(style, fg(10 + depth as u8).add_modifier(BOLD));
    }
    assert_eq!(style_heading(&heading(0, 0, "x"), 0, &p), fg(16).add_modifier(BOLD));
    assert_eq!(style_heading(&heading(1, 4, "x"), 3, &p), fg(25));
}

#[test]
fn the_deepest_heading_is_the_maximum() {
    let section = OutlineEntry { kind: OutlineKind::Section, ..heading(9, 0, "s") };
    let symbol = OutlineEntry { kind: OutlineKind::Symbol, ..heading(8, 0, "f") };
    let entries = vec![heading(2, 0, "a"), section, heading(3, 1, "b"), symbol, heading(1, 2, "c")];
    assert_eq!(max_heading_depth(&entries), 3);
    assert_eq!(max_heading_depth(&Vec::new()), 0);
}

#[test]
fn labels_are_wrapped_until_nothing_is_left_or_nothing_fits() {
    assert!(needs_piece(&vec![]));
    assert!(needs_piece(&vec![piece("a ", false)]));
    assert!(needs_piece(&vec![piece("", false)]));
    assert!(!needs_piece(&vec![piece("a", true)]));
    assert!(needs_piece(&vec![piece("a ", false), piece("b", false)]));
    assert!(!needs_piece(&vec![piece("a ", false), piece("", false)]));
}

#[test]
fn the_panel_lists_every_entry_in_order() {
    let p = palette();
    let entries =
        vec![heading(1, 0, "one two"), heading(6, 4, "deep"), heading(2, 9, "last")];
    let pieces = vec![
        vec![piece("one ", false), piece("two", true)],
        Vec::new(),
        vec![piece("last", true)],
    ];
    let rows = heading_panel_rows(&entries, &pieces, 4, 10, &p);
    let listed: Vec<(usize, &str)> =
        rows.iter().map(|r| (r.entry_idx, r.content.as_str())).collect();
    assert_eq!(
        listed,
        vec![(0, "▸ one "), (0, "  two"), (1, "          "), (2, "  ▸ last")]
    );
    let bold: Vec<bool> = rows.iter().map(|r| r.style.add_modifier & BOLD == BOLD).collect();
    assert_eq!(bold, vec![true, true, true, false]);
    assert_eq!(rows[0].style, rows[1].style);
    assert!(heading_panel_rows(&Vec::new(), &Vec::new(), 0, 10, &p).is_empty());
}

#[test]
fn wrapped_labels_stay_with_their_entry() {
    let pieces = vec![piece("first ", false), piece("second", false), piece("", true)];
    let rows = rows_of_pieces(7, "> ", 2, &pieces, fg(1));
    let contents: Vec<&str> = rows.iter().map(|r| r.content.as_str()).collect();
    assert_eq!(contents, vec!["> first ", "  second"]);
    assert!(rows.iter().all(|r| r.entry_idx == 7 && r.style == fg(1)));

    let p = palette();
    let rows = build_heading_rows(1, &heading(2, 0, "x"), &vec![piece("x", true)], 0, 20, &p);
    assert_eq!(rows.len(), 1);
    assert_eq!(rows[0].content, "  ▸ x");
    let rows = build_heading_rows(1, &heading(3, 0, "x"), &vec![piece("x", true)], 0, 5, &p);
    assert_eq!(rows.len(), 1);
    assert_eq!(rows[0].content, "    ▸");
    let drawn = draw_headings(&rows, 0, 4);
    assert_eq!(texts(&drawn), vec!["    ▸"]);
    assert!(draw_headings(&rows, 1, 4).is_empty());
    assert!(draw_headings(&rows, 0, 0).is_empty());
}

#[test]
fn only_the_first_row_of_a_heading_is_marked() {
    let p = palette();
    let entries = vec![heading(2, 0, "a"), heading(4, 3, "b"), heading(1, 3, "c")];
    let lines = vec![Some(0), Some(0), None, Some(1), Some(3), Some(3)];
    assert_eq!(
        texts(&draw_gutter(&entries, &lines, None, 4, &p)),
        vec!["##", "", "", "", "#", ""]
    );
    assert_eq!(
        texts(&draw_gutter(&entries, &lines, Some(0), 1, &p)),
        vec!["", "", "", "", "#", ""]
    );
    let deep = vec![heading(5, 0, "a")];
    let drawn = draw_gutter(&deep, &vec![Some(0)], None, 3, &p);
    assert_eq!(texts(&drawn), vec!["###"]);
    assert_eq!(drawn[0].spans[0].style, fg(23));
}

#[test]
fn gutter_positions_are_those_of_the_rows_in_view() {
    let visual = VisualDocument::from_source("alpha beta\ngamma", 6, Style::default());
    assert_eq!(gutter_positions(&visual, 0, 2), vec![Some(0), Some(6)]);
    assert_eq!(gutter_positions(&visual, 1, 9), vec![Some(6), Some(11)]);
    assert_eq!(gutter_positions(&visual, 5, 9), Vec::new());
    assert_eq!(position_above(&visual, 0), None);
    assert_eq!(position_above(&visual, 2), Some(6));
}
