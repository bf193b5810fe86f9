use writerm::app::{
    command_for, is_soft_break_separator, Action, AfterSave, Command, EditorView, Event, Key,
    KeyCode, Mouse, MouseKind, Select, WritermApp,
};
use writerm::config::Config;
use writerm::headings::{heading_panel_rows, HeadingVisualLine, LabelPiece, OutlineEntry};
use writerm::headings::{clamp_heading_scroll, label_width, needs_piece, OutlineKind};
use writerm::headings::{draw_gutter, gutter_positions, position_above};
use writerm::layout::{cursor_position, document_text_area, scrollbar_lines, split_screen};
use writerm::layout::{Body, Rect, SIDEBAR_BORDER_OVERHEAD, SIDEBAR_SEP_WIDTH};
use writerm::panels::{bottom_bar_text, metrics_lines, mode_badge, ribbon_line};
use writerm::panels::{set_control_areas, Palette, RibbonFacts, Switches};
use writerm::render::{RenderedDocument, RenderedLine, RenderedSpan, SourceRange};
use writerm::session::{OpenedFile, MILLISECOND};
use writerm::style::{Color, Style, BOLD};
use writerm::visual::VisualDocument;
use writerm::workspace::{pick_default_markdown_file, WorkspaceEntry, WorkspaceEntryKind};

// ---------------------------------------------------------------------------
// A desk: the application with an editor and a folder in memory.
// ---------------------------------------------------------------------------
fn range(start: usize, end: usize) -> Option<SourceRange> {
    Some(SourceRange { byte_start: start, byte_end: end, char_start: start, char_end: end })
}

fn span(content: &str, start: usize) -> RenderedSpan {
    RenderedSpan {
        content: content.to_string(),
        style: Style::default(),
        source: range(start, start + content.chars().count()),
    }
}

fn decoration(content: &str) -> RenderedSpan {
    RenderedSpan { content: content.to_string(), style: Style::default(), source: None }
}

/// The visible runs of a line with bold text, code and links.
fn inline(line: &str, start: usize) -> Vec<RenderedSpan> {
    let chars: Vec<char> = line.chars().collect();
    let mut spans = Vec::new();
    let mut run = String::new();
    let mut run_start = start;
    let mut i = 0;
    while i < chars.len() {
        let rest: String = chars[i..].iter().collect();
        let hidden = if rest.starts_with("**") {
            2
        } else if rest.starts_with('`') || rest.starts_with('[') {
            1
        } else if rest.starts_with("](") {
            rest.chars().position(|c| c == ')').unwrap() + 1
        } else {
            0
        };
        if hidden == 0 {
            run.push(chars[i]);
            i += 1;
        } else {
            if !run.is_empty() {
                spans.push(span(&run, run_start));
            }
            run = String::new();
            i += hidden;
            run_start = start + i;
        }
    }
    if !run.is_empty() {
        spans.push(span(&run, run_start));
    }
    spans
}

fn render(text: &str) -> RenderedDocument {
    let mut lines = Vec::new();
    let mut start = 0;
    for line in text.split('\n') {
        let end = start + line.chars().count();
        let body = line.trim_start();
        let at = end - body.chars().count();
        let marks = body.chars().take_while(|c| *c == '#').count();
        let spans = if body == "---" {
            vec![decoration("────")]
        } else if marks > 0 {
            let title = body[marks..].trim_start();
            inline(title, end - title.chars().count())
        } else {
            inline(body, at)
        };
        lines.push(RenderedLine { spans, source: range(start, end) });
        start = end + 1;
    }
    RenderedDocument { lines }
}

fn outline(text: &str) -> Vec<OutlineEntry> {
    let mut entries = Vec::new();
    for (line, content) in text.split('\n').enumerate() {
        let depth = content.chars().take_while(|c| *c == '#').count();
        if depth > 0 && content[depth..].starts_with(' ') {
            entries.push(OutlineEntry {
                kind: OutlineKind::Heading,
                depth,
                line,
                label: content[depth + 1..].to_string(),
            });
        }
    }
    entries
}

fn palette() -> Palette {
    Palette {
        accent_cyan: Color::Cyan,
        accent_green: Color::Green,
        accent_yellow: Color::Yellow,
        bg_active: Color::Blue,
        bg_dark: Color::Black,
        bg_highlight: Color::LightBlue,
        bg_surface: Color::Indexed(1),
        border_unfocused: Color::DarkGray,
        dir_color: Color::Magenta,
        heading_h1: Color::Indexed(11),
        heading_h2: Color::Indexed(12),
        heading_h3: Color::Indexed(13),
        heading_h4: Color::Indexed(14),
        heading_h5: Color::Indexed(15),
        heading_h6: Color::Indexed(16),
        notify_error_bg: Color::Red,
        notify_error_fg: Color::White,
        selection_bg: Color::LightCyan,
        status_bg: Color::Gray,
        status_fg: Color::Reset,
        text_bright: Color::LightGreen,
        text_dim: Color::LightYellow,
        text_primary: Color::LightRed,
        text_secondary: Color::LightMagenta,
    }
}

struct Desk {
    app: WritermApp,
    text: Vec<char>,
    cursor: usize,
    anchor: Option<usize>,
    version: u64,
    dirty: bool,
    now: u64,
    files: Vec<(String, String)>,
    read_only: bool,
}

impl Desk {
    fn with_files(files: &[(&str, &str)], open: &str, indent: bool) -> Desk {
        let files: Vec<(String, String)> =
            files.iter().map(|(n, t)| (n.to_string(), t.to_string())).collect();
        let text = files.iter().find(|(n, _)| n == open).unwrap().1.clone();
        let mut config = Config::default();
        config.layout.paragraph_indent = indent;
        let file = Desk::opened(&files, open);
        Desk {
            app: WritermApp::with_config(config, palette(), file),
            text: text.chars().collect(),
            cursor: 0,
            anchor: None,
            version: 0,
            dirty: false,
            now: 1_000_000_000_000,
            files,
            read_only: false,
        }
    }

    fn new(name: &str, text: &str) -> Desk {
        Desk::with_files(&[(name, text)], name, false)
    }

    fn note(text: &str) -> Desk {
        Desk::new("note.md", text)
    }

    fn indented(text: &str) -> Desk {
        Desk::with_files(&[("note.md", text)], "note.md", true)
    }

    fn opened(files: &Vec<(String, String)>, name: &str) -> OpenedFile {
        let text = &files.iter().find(|(n, _)| n == name).unwrap().1;
        let mut entries = vec![WorkspaceEntry {
            name: "..".to_string(),
            kind: WorkspaceEntryKind::Parent,
        }];
        for (file, _) in files {
            entries.push(WorkspaceEntry { name: file.clone(), kind: WorkspaceEntryKind::File });
        }
        OpenedFile {
            path: format!("/desk/{}", name),
            folder: "/desk".to_string(),
            rendered: render(text),
            version: 0,
            outline: outline(text),
            entries,
        }
    }

    fn contents(&self) -> String {
        self.text.iter().collect()
    }

    fn view(&self) -> EditorView {
        EditorView {
            text: self.contents(),
            cursor: self.cursor,
            has_selection: self.anchor.is_some(),
            version: self.version,
            dirty: self.dirty,
        }
    }

    fn selection(&self) -> Option<(usize, usize)> {
        self.anchor.map(|a| (a.min(self.cursor), a.max(self.cursor)))
    }

    fn edited(&mut self) {
        self.version += 1;
        self.dirty = true;
        let text = self.contents();
        self.app.refresh_document_metadata(outline(&text));
        if self.app.needs_render(self.version) {
            self.app.refresh_render_cache(render(&text), self.version);
        }
    }

    fn editor_key(&mut self, key: Key) {
        let before = self.version;
        if let (KeyCode::Backspace, Some((start, end))) = (key.code, self.selection()) {
            self.text.drain(start..end);
            self.cursor = start;
            self.anchor = None;
            self.edited();
        } else {
            match key.code {
                KeyCode::Char(c) => {
                    self.text.insert(self.cursor, c);
                    self.cursor += 1;
                    self.edited();
                }
                KeyCode::Enter => {
                    self.text.insert(self.cursor, '\n');
                    self.cursor += 1;
                    self.edited();
                }
                KeyCode::Backspace if self.cursor > 0 => {
                    self.cursor -= 1;
                    self.text.remove(self.cursor);
                    self.edited();
                }
                KeyCode::Right if self.cursor < self.text.len() => self.cursor += 1,
                KeyCode::Left if self.cursor > 0 => self.cursor -= 1,
                _ => {}
            }
        }
        let action = self.app.editor_key_done(self.version != before, false, self.now);
        assert!(matches!(action, Action::Nothing));
    }

    fn open(&mut self, name: &str) {
        if !self.files.iter().any(|(n, _)| n == name) {
            self.files.push((name.to_string(), String::new()));
        }
        let file = Desk::opened(&self.files, name);
        self.text = self.files.iter().find(|(n, _)| n == name).unwrap().1.chars().collect();
        self.cursor = 0;
        self.anchor = None;
        self.version = 0;
        self.dirty = false;
        self.app.file_opened(file, self.now);
    }

    fn save(&mut self, then: AfterSave) {
        let outcome = if self.read_only {
            Err("read-only".to_string())
        } else {
            let name = self.app.current_file_path.rsplit('/').next().unwrap().to_string();
            let text = self.contents();
            for file in self.files.iter_mut() {
                if file.0 == name {
                    file.1 = text.clone();
                }
            }
            self.dirty = false;
            Ok(())
        };
        let action = self.app.save_now(then, outcome, self.now);
        self.perform(action, None);
    }

    fn perform(&mut self, action: Action, key: Option<Key>) {
        match action {
            Action::Nothing => {}
            Action::MoveCursor { pos, select } => {
                match select {
                    Select::Clear => self.anchor = None,
                    Select::Start => self.anchor = Some(self.cursor),
                    Select::Extend => {}
                }
                self.cursor = pos;
                let view = self.view();
                self.app.ensure_cursor_visible(&view);
            }
            Action::Delete { start, len } => {
                self.text.drain(start..start + len);
                self.cursor = start;
                self.edited();
                self.app.deletion_done(self.now);
                let view = self.view();
                self.app.ensure_cursor_visible(&view);
            }
            Action::EditorKey { .. } => {
                self.editor_key(key.unwrap());
                let view = self.view();
                self.app.ensure_cursor_visible(&view);
            }
            Action::Save(then) => self.save(then),
            Action::Open(name) => self.open(&name),
            Action::ParentFolder => self.app.change_cwd("/".to_string(), Vec::new()),
            Action::Folder(name) => {
                let folder = format!("{}/{}", self.app.cwd, name);
                self.app.change_cwd(folder, Vec::new());
            }
            Action::ClickHeading { row } => {
                let width = self.app.areas.headings.width;
                let rows = self.heading_rows(width);
                if let Some(line) = self.app.clicked_heading(&rows, row) {
                    self.go_to_line(line);
                }
            }
        }
    }

    fn go_to_line(&mut self, line: usize) {
        let lines: Vec<String> = self.contents().split('\n').map(|l| l.to_string()).collect();
        self.cursor = lines[..line].iter().map(|l| l.chars().count() + 1).sum();
        let view = self.view();
        self.app.ensure_cursor_visible(&view);
    }

    fn cursor_line(&self) -> usize {
        self.text[..self.cursor].iter().filter(|c| **c == '\n').count()
    }

    fn heading_rows(&self, width: u16) -> Vec<HeadingVisualLine> {
        let entries = &self.app.outline_entries;
        let pieces = entries
            .iter()
            .map(|e| wrap_label(&e.label, label_width(e.depth, width)))
            .collect();
        heading_panel_rows(entries, &pieces, self.cursor_line(), width, &self.app.palette)
    }

    fn event(&mut self, event: Event) {
        let view = self.view();
        let action = self.app.handle_event(event, &view, self.now);
        let key = match event {
            Event::Key(key) => Some(key),
            _ => None,
        };
        self.perform(action, key);
    }

    fn key(&mut self, code: KeyCode) {
        self.event(Event::Key(Key { code, ctrl: false, alt: false, shift: false }));
    }

    fn shift(&mut self, code: KeyCode) {
        self.event(Event::Key(Key { code, ctrl: false, alt: false, shift: true }));
    }

    fn ctrl(&mut self, code: KeyCode) {
        self.event(Event::Key(Key { code, ctrl: true, alt: false, shift: false }));
    }

    fn ctrl_shift(&mut self, code: KeyCode) {
        self.event(Event::Key(Key { code, ctrl: true, alt: false, shift: true }));
    }

    fn types(&mut self, text: &str) {
        for c in text.chars() {
            self.key(KeyCode::Char(c));
        }
    }

    fn mouse(&mut self, kind: MouseKind, column: u16, row: u16) {
        self.event(Event::Mouse(Mouse { kind, column, row }));
    }

    fn click(&mut self, column: u16, row: u16) {
        self.mouse(MouseKind::DownLeft, column, row);
    }

    fn document(&mut self, x: u16, y: u16, width: u16, height: u16) {
        self.app.areas.document = Rect { x, y, width, height };
    }

    fn visual(&mut self) -> &VisualDocument {
        let view = self.view();
        self.app.refresh_visual_cache(&view);
        &self.app.cache.visual
    }

    fn shown(&mut self, pos: usize) -> Option<(usize, usize)> {
        self.visual().source_to_display(pos)
    }

    fn show_cursor(&mut self) {
        let view = self.view();
        self.app.ensure_cursor_visible(&view);
    }

    fn progress(&mut self) -> (usize, usize) {
        let view = self.view();
        self.app.cursor_word_progress(&view)
    }

    /// Lays the document out on a screen without sidebars.
    fn screen(&mut self, width: u16, height: u16) {
        self.app.show_headings = false;
        self.app.show_files = false;
        self.drawn(width, height);
    }

    /// Lays everything out on a screen.
    fn drawn(&mut self, width: u16, height: u16) -> Body {
        let bands = split_screen(Rect { x: 0, y: 0, width, height });
        let body = self.app.place_body(bands.body);
        let view = self.view();
        self.app.clamp_document_scroll(&view);
        body
    }

    /// What the metrics panel shows.
    fn metrics(&mut self) -> String {
        let area = self.app.areas.metrics;
        let counts = self.app.document_metrics(&self.view());
        let lines = metrics_lines(&counts, area.width, area.height, &self.app.palette);
        lines.iter().map(|l| l.to_string() + "\n").collect()
    }

    /// The scrollbar, in characters.
    fn scrollbar(&self, body: Body) -> Vec<String> {
        let plain = Style::default();
        let (total, scroll) = (self.app.visual_rows_len(), self.app.document_scroll);
        let lines = scrollbar_lines(body.separator.height, total, scroll, plain, plain);
        lines.iter().map(|l| l.to_string()).collect()
    }

    /// Where the cursor is drawn.
    fn drawn_cursor(&mut self) -> (u16, u16) {
        let area = document_text_area(
            self.app.areas.document,
            self.app.heading_gutter_layout(),
        );
        let (cursor, scroll) = (self.cursor, self.app.document_scroll);
        cursor_position(self.visual(), cursor, scroll, area).unwrap()
    }

    /// What the gutter of heading markers shows.
    fn gutter(&mut self) -> Vec<String> {
        let width = self.app.heading_gutter_layout().gutter_cells;
        let (scroll, height) = (self.app.document_scroll, self.app.areas.document.height);
        let visual = self.visual();
        let positions = gutter_positions(visual, scroll, height);
        let above = position_above(visual, scroll);
        let line = |pos: usize| self.text[..pos].iter().filter(|c| **c == '\n').count();
        let lines = positions.iter().map(|p| p.map(line)).collect();
        let entries = &self.app.outline_entries;
        draw_gutter(entries, &lines, above.map(line), width, &self.app.palette)
            .iter()
            .map(|l| l.to_string())
            .collect()
    }

    fn failed(&self) -> bool {
        self.app.notification.as_ref().is_some_and(|n| n.is_error)
    }

    fn message(&self) -> String {
        self.app.notification.as_ref().unwrap().text.clone()
    }
}

/// Wraps at spaces where it can.
fn wrap_label(label: &str, width: usize) -> Vec<LabelPiece> {
    let mut rest: Vec<char> = label.chars().collect();
    let mut pieces = Vec::new();
    while needs_piece(&pieces) {
        if rest.len() <= width {
            pieces.push(LabelPiece { text: rest.iter().collect(), last: true });
            rest = Vec::new();
        } else {
            let cut = (1..=width).rev().find(|i| rest[*i - 1] == ' ').unwrap_or(width);
            pieces.push(LabelPiece { text: rest[..cut].iter().collect(), last: false });
            rest = rest[cut..].to_vec();
        }
    }
    pieces
}

// ---------------------------------------------------------------------------
// Starting, the prompt, the sidebars
// ---------------------------------------------------------------------------
#[test]
fn directory_launch_prefers_index_then_readme_then_markdown() {
    let mut names =
        vec!["z.md".to_string(), "README.md".to_string(), "index.md".to_string()];

    assert_eq!(pick_default_markdown_file(&names), Some("index.md".to_string()));
    names.pop();
    assert_eq!(pick_default_markdown_file(&names), Some("README.md".to_string()));
    names.pop();
    assert_eq!(pick_default_markdown_file(&names), Some("z.md".to_string()));
    names.pop();
    assert_eq!(pick_default_markdown_file(&names), None);
}

#[test]
fn new_file_prompt_defaults_markdown_extension() {
    let mut desk = Desk::note("");

    desk.ctrl(KeyCode::Char('n'));
    for ch in "chapter-one".chars() {
        desk.key(KeyCode::Char(ch));
    }
    desk.key(KeyCode::Enter);

    assert_eq!(desk.app.current_file_path, "/desk/chapter-one.md");
    assert!(desk.files.iter().any(|(name, _)| name == "chapter-one.md"));
}

#[test]
fn plain_n_and_q_insert_text_instead_of_commands() {
    let mut desk = Desk::note("");

    desk.key(KeyCode::Char('n'));
    desk.key(KeyCode::Char('q'));

    assert_eq!(desk.contents(), "nq");
    assert!(desk.app.running);
    assert!(desk.app.prompt_mode.is_none());
}

#[test]
fn new_file_prompt_rejects_paths_outside_current_folder() {
    let mut desk = Desk::note("");

    desk.ctrl(KeyCode::Char('n'));
    for ch in "../escape".chars() {
        desk.key(KeyCode::Char(ch));
    }
    desk.key(KeyCode::Enter);

    assert!(desk.failed());
    assert_eq!(desk.message(), "Use a filename in the current folder");
    assert!(!desk.files.iter().any(|(name, _)| name == "../escape.md"));
    assert_eq!(desk.app.current_file_path, "/desk/note.md");
}

#[test]
fn the_prompt_can_be_edited_and_left() {
    let mut desk = Desk::note("abc");
    desk.ctrl(KeyCode::Char('n'));
    desk.types("dx");
    desk.key(KeyCode::Backspace);
    desk.ctrl(KeyCode::Char('u'));
    desk.key(KeyCode::Left);
    assert_eq!(desk.app.prompt_buffer, "d");
    desk.key(KeyCode::Backspace);
    desk.key(KeyCode::Backspace);
    assert_eq!(desk.app.prompt_buffer, "");
    assert!(desk.app.prompt_mode.is_some());
    desk.types("q");
    desk.key(KeyCode::Esc);
    assert!(desk.app.prompt_mode.is_none());
    assert_eq!(desk.app.prompt_buffer, "");
    assert_eq!(desk.contents(), "abc");

    desk.ctrl(KeyCode::Char('n'));
    desk.types("  ");
    desk.key(KeyCode::Enter);
    assert!(desk.app.prompt_mode.is_none());
    assert!(!desk.failed());
    assert_eq!(desk.app.current_file_path, "/desk/note.md");
}

#[test]
fn plain_text_launch_starts_in_source_peek() {
    let desk = Desk::new("note.txt", "plain");

    assert!(desk.app.source_peek);
    assert!(!Desk::note("plain").app.source_peek);
}

#[test]
fn sidebar_keys_toggle_each_sidebar_independently() {
    let mut desk = Desk::note("");

    desk.key(KeyCode::F(2));

    assert!(desk.app.show_headings);
    assert!(!desk.app.show_files);

    desk.key(KeyCode::F(3));

    assert!(!desk.app.show_headings);
    assert!(!desk.app.show_files);
}

#[test]
fn sidebar_control_clicks_toggle_each_sidebar_independently() {
    let mut desk = Desk::note("");
    desk.app.areas.headings_control = Rect { x: 4, y: 9, width: 18, height: 1 };
    desk.app.areas.files_control = Rect { x: 24, y: 9, width: 14, height: 1 };

    desk.click(5, 9);

    assert!(!desk.app.show_headings);
    assert!(desk.app.show_files);

    desk.click(25, 9);

    assert!(!desk.app.show_headings);
    assert!(!desk.app.show_files);
}

#[test]
fn switches_return_when_pressed_twice() {
    let mut desk = Desk::indented("# A\n\nalpha beta gamma");
    desk.document(0, 0, 12, 3);
    let rows = desk.visual().rows.len();
    for key in [KeyCode::F(2), KeyCode::F(3), KeyCode::F(4)] {
        desk.key(key);
        desk.key(key);
    }
    desk.ctrl(KeyCode::Char('m'));
    assert_eq!(desk.message(), "Source peek on");
    assert!(desk.app.source_peek);
    desk.ctrl(KeyCode::Char('m'));
    assert_eq!(desk.message(), "Rendered editing");
    assert!(desk.app.show_files && desk.app.show_headings && desk.app.paragraph_indent);
    assert!(!desk.app.source_peek);
    assert_eq!(desk.visual().rows.len(), rows);

    desk.key(KeyCode::F(4));
    assert_eq!(desk.message(), "Paragraph indent off");
    desk.key(KeyCode::F(4));
    assert_eq!(desk.message(), "Paragraph indent on");
}

// ---------------------------------------------------------------------------
// Saving and opening
// ---------------------------------------------------------------------------
#[test]
fn file_switch_saves_dirty_content() {
    let mut desk = Desk::with_files(&[("a.md", "a"), ("b.md", "b")], "a.md", false);
    desk.cursor = 1;
    desk.types(" changed");
    assert!(desk.dirty);
    desk.app.areas.files = Rect { x: 0, y: 0, width: 30, height: 10 };
    let row = desk.app.workspace_entries.iter().position(|e| e.name == "b.md").unwrap();

    desk.click(1, row as u16);

    assert_eq!(desk.files[0].1, "a changed");
    assert_eq!(desk.contents(), "b");
    assert_eq!(desk.message(), "Opened");
}

#[test]
fn failed_save_keeps_dirty_state() {
    let mut desk = Desk::note("note");
    desk.cursor = 4;
    desk.types("!");
    desk.read_only = true;

    desk.ctrl(KeyCode::Char('s'));

    assert!(desk.dirty);
    assert!(desk.failed());
    assert_eq!(desk.message(), "Save failed: read-only");

    desk.ctrl(KeyCode::Char('q'));
    assert!(desk.app.running);

    desk.read_only = false;
    desk.ctrl(KeyCode::Char('s'));
    assert!(!desk.dirty);
    assert_eq!(desk.message(), "Saved");
    assert_eq!(desk.app.last_edit, None);
    desk.ctrl(KeyCode::Char('q'));
    assert!(!desk.app.running);
}

#[test]
fn quitting_saves_changes_first() {
    let mut desk = Desk::note("note");
    desk.types("a");
    desk.ctrl(KeyCode::Char('q'));
    assert!(!desk.app.running);
    assert_eq!(desk.files[0].1, "anote");
}

#[test]
fn failed_dirty_save_blocks_open_and_preserves_document_state() {
    let files = [("a.md", "alpha beta gamma"), ("b.md", "other")];
    let mut desk = Desk::with_files(&files, "a.md", false);
    desk.document(0, 0, 10, 1);
    desk.cursor = 16;
    desk.types("!");
    desk.anchor = Some(5);
    desk.cursor = 11;
    desk.app.document_scroll = 1;
    desk.read_only = true;
    desk.app.areas.files = Rect { x: 20, y: 0, width: 30, height: 10 };
    let row = desk.app.workspace_entries.iter().position(|e| e.name == "b.md").unwrap();

    desk.click(21, row as u16);

    assert_eq!(desk.app.current_file_path, "/desk/a.md");
    assert_eq!(desk.contents(), "alpha beta gamma!");
    assert!(desk.dirty);
    assert_eq!(desk.cursor, 11);
    assert_eq!(desk.selection(), Some((5, 11)));
    assert_eq!(desk.app.document_scroll, 1);
    assert_eq!(desk.app.heading_scroll, 0);
    assert!(!desk.app.source_peek);
    assert!(desk.failed());
}

#[test]
fn autosave_failure_sets_redraw_and_backs_off_retry() {
    let mut desk = Desk::note("note");
    desk.cursor = 4;
    desk.types("!");
    desk.read_only = true;
    desk.app.last_edit = Some(desk.now - 10_000 * MILLISECOND);
    desk.app.needs_redraw = false;

    desk.event(Event::Tick);

    assert!(desk.app.needs_redraw);
    assert_eq!(desk.app.last_edit, Some(desk.now));
    assert!(desk.failed());

    desk.app.needs_redraw = false;
    desk.event(Event::Tick);
    assert!(!desk.app.needs_redraw);
}

#[test]
fn autosave_waits_for_its_delay() {
    let mut desk = Desk::note("note");
    desk.types("!");
    let typed = desk.now;
    assert_eq!(desk.app.last_edit, Some(typed));

    desk.now = typed + 1000 * MILLISECOND - 1;
    desk.event(Event::Tick);
    assert!(desk.dirty);

    desk.app.config.autosave.enabled = false;
    desk.now = typed + 1000 * MILLISECOND;
    desk.event(Event::Tick);
    assert!(desk.dirty);

    desk.app.config.autosave.enabled = true;
    desk.event(Event::Tick);
    assert!(!desk.dirty);
    assert_eq!(desk.files[0].1, "!note");
    assert_eq!(desk.message(), "Saved");

    desk.now = desk.now + 3000 * MILLISECOND;
    desk.event(Event::Tick);
    assert!(desk.app.notification.is_some());
    desk.now = desk.now + 1;
    desk.app.needs_redraw = false;
    desk.event(Event::Tick);
    assert!(desk.app.notification.is_none());
    assert!(desk.app.needs_redraw);
}

#[test]
fn files_that_cannot_be_opened_are_reported() {
    let mut desk = Desk::note("note");
    desk.app.create_failed("disk full", 7);
    assert_eq!(desk.message(), "Create failed: disk full");
    assert!(desk.failed());
    desk.app.open_failed("/desk/x.md", 8);
    assert_eq!(desk.message(), "Cannot open /desk/x.md");
    assert!(desk.failed());
    assert_eq!(desk.app.notification.as_ref().unwrap().at, 8);
    assert_eq!(desk.app.current_file_path, "/desk/note.md");
}

#[test]
fn file_click_opens_document() {
    let mut desk = Desk::with_files(&[("a.md", "a"), ("b.md", "b")], "a.md", false);
    desk.app.areas.files = Rect { x: 0, y: 0, width: 30, height: 10 };
    let b_index = desk.app.workspace_entries.iter().position(|e| e.name == "b.md").unwrap();

    desk.click(0, b_index as u16);

    assert_eq!(desk.app.current_file_path, "/desk/b.md");
    assert_eq!(desk.contents(), "b");

    desk.click(0, 9);
    assert_eq!(desk.app.current_file_path, "/desk/b.md");
    desk.click(0, 0);
    assert_eq!(desk.app.cwd, "/");
    assert_eq!(desk.app.workspace_selection, 0);
    assert_eq!(desk.app.workspace_entries.len(), 0);
}

#[test]
fn folder_click_goes_there() {
    let mut desk = Desk::note("a");
    desk.app.refresh_workspace(vec![
        WorkspaceEntry { name: "plan.md".to_string(), kind: WorkspaceEntryKind::File },
        WorkspaceEntry { name: "drafts".to_string(), kind: WorkspaceEntryKind::Directory },
    ]);
    desk.app.areas.files = Rect { x: 0, y: 2, width: 30, height: 10 };
    let row = desk.app.workspace_entries.iter().position(|e| e.name == "drafts").unwrap();
    desk.click(3, 2 + row as u16);
    assert_eq!(desk.app.cwd, "/desk/drafts");
}

#[test]
fn switching_documents_resets_preserved_visual_column() {
    let files = [("a.md", "abcdefgh ij klmnopqr"), ("b.md", "one two three four")];
    let mut desk = Desk::with_files(&files, "a.md", false);
    desk.document(0, 0, 8, 4);
    desk.cursor = 6;
    desk.key(KeyCode::Down);
    assert_eq!(desk.cursor, 11);

    desk.open("b.md");
    desk.document(0, 0, 8, 4);
    desk.key(KeyCode::Down);

    assert_eq!(desk.cursor, 8);
}

#[test]
fn opening_document_resets_scroll_cursor_selection_heading_scroll_and_render_mode() {
    let files = [("a.txt", "source text"), ("b.md", "# Heading\n\nbody")];
    let mut desk = Desk::with_files(&files, "a.txt", false);
    desk.document(0, 0, 10, 1);
    desk.app.document_scroll = 4;
    desk.app.heading_scroll = 2;
    desk.anchor = Some(1);
    desk.cursor = 6;
    assert!(desk.app.source_peek);

    desk.open("b.md");

    assert_eq!(desk.cursor, 0);
    assert!(desk.anchor.is_none());
    assert!(!desk.dirty);
    assert_eq!(desk.app.document_scroll, 0);
    assert_eq!(desk.app.heading_scroll, 0);
    assert!(!desk.app.source_peek);
    assert_eq!(desk.app.outline_entries.len(), 1);
    assert_eq!(desk.app.outline_entries[0].label, "Heading");
}

// ---------------------------------------------------------------------------
// Clicks
// ---------------------------------------------------------------------------
#[test]
fn document_click_maps_rendered_cursor_to_source() {
    let mut desk = Desk::note("# Hello");
    desk.document(0, 0, 40, 10);

    desk.click(0, 0);

    assert_eq!(desk.cursor, 2);
}

#[test]
fn source_peek_click_past_line_end_clamps_to_that_line() {
    let mut desk = Desk::new("note.txt", "abc\ndef");
    desk.document(0, 0, 40, 10);
    desk.app.source_peek = true;

    desk.click(30, 0);

    assert_eq!(desk.cursor, 3);
}

#[test]
fn wrapped_document_click_maps_visible_row_to_source_position() {
    let mut desk = Desk::note("alpha beta gamma");
    desk.document(0, 0, 11, 4);

    desk.click(1, 1);

    assert_eq!(desk.cursor, 12);
}

#[test]
fn rendered_click_with_document_scroll_maps_offset_row() {
    let mut desk = Desk::note("alpha beta gamma");
    desk.document(0, 0, 11, 2);
    desk.app.document_scroll = 1;

    desk.click(1, 0);

    assert_eq!(desk.cursor, 12);
}

#[test]
fn gutter_click_maps_to_correct_source() {
    let mut desk = Desk::note("# Heading\n\nBody paragraph");
    desk.document(5, 3, 40, 10);

    desk.click(5, 3);

    assert!(desk.cursor >= 2, "got {}", desk.cursor);
}

#[test]
fn dragging_selects_what_it_passes() {
    let mut desk = Desk::note("alpha beta gamma");
    desk.document(2, 1, 30, 4);
    desk.mouse(MouseKind::DragLeft, 6, 1);
    assert_eq!(desk.cursor, 0);
    desk.click(4, 1);
    desk.mouse(MouseKind::DragLeft, 6, 1);
    desk.mouse(MouseKind::DragLeft, 8, 1);
    assert_eq!(desk.selection(), Some((2, 6)));
    desk.mouse(MouseKind::UpLeft, 8, 1);
    desk.mouse(MouseKind::DragLeft, 2, 1);
    assert_eq!(desk.selection(), Some((2, 6)));
    desk.click(3, 1);
    assert_eq!(desk.selection(), None);
    assert_eq!(desk.cursor, 1);
}

#[test]
fn a_mouse_that_is_switched_off_does_nothing() {
    let mut desk = Desk::note("alpha beta gamma");
    desk.document(0, 0, 30, 4);
    desk.app.config.ui.mouse = false;
    desk.app.needs_redraw = false;
    desk.click(4, 0);
    assert_eq!(desk.cursor, 0);
    assert!(!desk.app.needs_redraw);
    desk.event(Event::Resize);
    assert!(desk.app.needs_redraw);
}

#[test]
fn heading_click_jumps_to_heading_source_line() {
    let mut desk = Desk::note("# One\nbody\n## Two\nmore");
    desk.app.areas.headings = Rect { x: 0, y: 0, width: 20, height: 10 };

    desk.click(0, 1);

    assert_eq!(desk.cursor_line(), 2);

    desk.click(0, 2);
    assert_eq!(desk.cursor_line(), 2);
}

#[test]
fn heading_click_maps_to_correct_entry_with_wrapping() {
    let mut desk = Desk::note(
        "# First short\n## A Very Long Heading Title That Will Wrap To Multiple Visual Rows Inside The Section Browser Panel",
    );
    desk.app.areas.headings = Rect { x: 0, y: 0, width: 20, height: 10 };

    let lines = desk.heading_rows(20);
    let second_lines: Vec<_> = lines.iter().filter(|l| l.entry_idx == 1).collect();
    assert!(second_lines.len() > 1, "got {}", second_lines.len());

    let cont_row = lines.iter().position(|l| l.entry_idx == 1).map(|first| first + 1).unwrap();
    desk.click(0, cont_row as u16);
    assert_eq!(desk.cursor_line(), 1);
}

// ---------------------------------------------------------------------------
// Typing
// ---------------------------------------------------------------------------
#[test]
fn cursor_after_space_stays_on_current_visual_row_in_rendered_mode() {
    let mut desk = Desk::note("hello");
    desk.document(0, 0, 20, 3);
    desk.cursor = 5;

    desk.key(KeyCode::Char(' '));

    assert_eq!(desk.cursor, 6);
    assert_eq!(desk.shown(6), Some((0, 6)));
    assert_eq!(desk.app.document_scroll, 0);
}

#[test]
fn cursor_after_newline_moves_to_real_next_visual_row() {
    let mut desk = Desk::note("hello");
    desk.document(0, 0, 20, 3);
    desk.cursor = 5;

    desk.key(KeyCode::Enter);

    assert_eq!(desk.cursor, 6);
    assert_eq!(desk.shown(6), Some((1, 0)));
    assert_eq!(desk.app.document_scroll, 0);
}

#[test]
fn cursor_after_incomplete_markdown_marker_does_not_jump_to_bottom() {
    let mut desk = Desk::note("\n\nnext");
    desk.document(0, 0, 20, 4);

    desk.key(KeyCode::Char('#'));
    desk.key(KeyCode::Char('#'));

    assert_eq!(desk.cursor, 2);
    assert_eq!(desk.shown(2), Some((0, 0)));
    assert_eq!(desk.app.document_scroll, 0);
}

#[test]
fn typing_on_blank_line_after_down_does_not_render_on_previous_paragraph() {
    let mut desk = Desk::note("alpha beta gamma\n\n# Heading");
    desk.document(0, 0, 40, 8);

    desk.key(KeyCode::Down);

    assert_eq!(desk.cursor, 17);
    let visible_cursor = desk.shown(17);
    assert_eq!(visible_cursor, Some((1, 0)));

    desk.key(KeyCode::Char('x'));

    assert_eq!(desk.shown(17), visible_cursor);
}

#[test]
fn typing_on_blank_line_after_down_from_wrapped_heading_stays_put() {
    let mut desk = Desk::note("# Heading\n\nalpha beta gamma delta");
    desk.document(0, 0, 7, 8);
    desk.cursor = 7;

    desk.key(KeyCode::Down);

    assert_eq!(desk.cursor, 10);
    let visible_cursor = desk.shown(10);
    assert_eq!(visible_cursor, Some((2, 0)));
    assert_eq!(desk.visual().row_width(2), Some(0));

    desk.key(KeyCode::Char('x'));

    assert_eq!(desk.shown(10), visible_cursor);
}

#[test]
fn down_from_heading_reaches_intervening_text_before_later_blank_line() {
    let mut desk = Desk::note("# Heading\npara\n\nnext");
    desk.document(0, 0, 40, 8);
    desk.cursor = 2;

    desk.key(KeyCode::Down);

    assert_eq!(desk.cursor, 10);
    assert_eq!(desk.shown(10), Some((1, 0)));

    desk.key(KeyCode::Down);

    assert_eq!(desk.cursor, 15);
    let visible_cursor = desk.shown(15);
    assert_eq!(visible_cursor, Some((2, 0)));
    assert_eq!(desk.visual().row_width(2), Some(0));

    desk.key(KeyCode::Char('x'));

    assert_eq!(desk.shown(15), visible_cursor);
}

// ---------------------------------------------------------------------------
// Moving
// ---------------------------------------------------------------------------
#[test]
fn down_arrow_moves_by_wrapped_visual_rows_inside_one_paragraph() {
    let mut desk = Desk::note("alpha beta gamma delta");
    desk.document(0, 0, 11, 4);
    desk.cursor = 2;

    desk.key(KeyCode::Down);

    assert_eq!(desk.cursor_line(), 0);
    assert_eq!(desk.cursor, 13);

    desk.key(KeyCode::Up);

    assert_eq!(desk.cursor, 2);
}

#[test]
fn repeated_down_preserves_visual_column_across_short_wrapped_rows() {
    let mut desk = Desk::note("abcdefgh ij klmnopqr");
    desk.document(0, 0, 8, 4);
    desk.cursor = 6;

    desk.key(KeyCode::Down);

    assert_eq!(desk.cursor, 11);

    desk.key(KeyCode::Down);

    assert_eq!(desk.cursor, 18);
}

#[test]
fn modified_vertical_keys_do_not_fall_back_to_raw_source_movement() {
    let mut desk = Desk::note("one two three four\nnext");
    desk.document(0, 0, 8, 4);
    desk.cursor = 2;

    desk.ctrl(KeyCode::Down);

    assert_eq!(desk.cursor, 2);
    assert!(desk.anchor.is_none());
}

#[test]
fn shifted_visual_down_extends_selection_on_wrapped_rows() {
    let mut desk = Desk::note("alpha beta gamma");
    desk.document(0, 0, 11, 4);
    desk.cursor = 1;

    desk.shift(KeyCode::Down);

    assert_eq!(desk.selection(), Some((1, 12)));
}

#[test]
fn rendered_right_arrow_skips_hidden_heading_markers_without_looking_stuck() {
    let mut desk = Desk::note("# Heading");
    desk.document(0, 0, 20, 4);

    desk.key(KeyCode::Right);

    assert_eq!(desk.cursor, 2);
    assert_eq!(desk.shown(2), Some((0, 0)));

    desk.key(KeyCode::Right);

    assert_eq!(desk.cursor, 3);
    assert_eq!(desk.shown(3), Some((0, 1)));
}

#[test]
fn rendered_right_arrow_moves_from_horizontal_rule_to_next_line() {
    let mut desk = Desk::note("---\nnext");
    desk.document(0, 0, 40, 8);
    desk.cursor = 3;

    desk.key(KeyCode::Right);

    assert_eq!(desk.cursor, 4);
    assert_eq!(desk.shown(4), Some((1, 0)));
}

#[test]
fn rendered_ctrl_right_moves_by_visible_word_not_hidden_heading_marker() {
    let mut desk = Desk::note("# Heading");
    desk.document(0, 0, 20, 4);

    desk.ctrl(KeyCode::Right);

    assert_eq!(desk.cursor, 9);
    assert!(desk.anchor.is_none());
}

#[test]
fn rendered_ctrl_right_skips_hidden_link_url() {
    let text = "[link](https://x.test) next";
    let mut desk = Desk::note(text);
    desk.document(0, 0, 40, 4);
    let next_start = text.find("next").unwrap();

    desk.ctrl(KeyCode::Right);

    assert_eq!(desk.cursor, next_start);
    assert_eq!(desk.shown(next_start), Some((0, 5)));

    desk.ctrl(KeyCode::Right);

    assert_eq!(desk.cursor, text.chars().count());
}

#[test]
fn rendered_ctrl_right_skips_hidden_bold_markers() {
    let text = "**bold** next";
    let mut desk = Desk::note(text);
    desk.document(0, 0, 40, 4);
    let next_start = text.find("next").unwrap();

    desk.ctrl(KeyCode::Right);

    assert_eq!(desk.cursor, next_start);
    assert_eq!(desk.shown(next_start), Some((0, 5)));
}

#[test]
fn rendered_ctrl_right_skips_hidden_inline_code_markers() {
    let text = "`code` next";
    let mut desk = Desk::note(text);
    desk.document(0, 0, 40, 4);
    let next_start = text.find("next").unwrap();

    desk.ctrl(KeyCode::Right);

    assert_eq!(desk.cursor, next_start);
    assert_eq!(desk.shown(next_start), Some((0, 5)));
}

#[test]
fn rendered_ctrl_shift_right_selects_visible_word_not_hidden_heading_marker() {
    let mut desk = Desk::note("# Heading");
    desk.document(0, 0, 20, 4);

    desk.ctrl_shift(KeyCode::Right);

    assert_eq!(desk.cursor, 9);
    assert_eq!(desk.selection(), Some((0, 9)));
    assert_eq!(desk.shown(9), Some((0, 7)));
}

#[test]
fn rendered_ctrl_shift_left_selects_visible_word_from_heading_end() {
    let mut desk = Desk::note("# Heading");
    desk.document(0, 0, 20, 4);
    desk.cursor = 9;

    desk.ctrl_shift(KeyCode::Left);

    assert_eq!(desk.cursor, 2);
    assert_eq!(desk.selection(), Some((2, 9)));
}

#[test]
fn words_end_at_characters_that_are_not_alphanumeric() {
    let mut desk = Desk::note("été_2 – ça");
    desk.document(0, 0, 40, 4);

    desk.ctrl(KeyCode::Right);
    assert_eq!(desk.cursor, 8);
    desk.ctrl(KeyCode::Left);
    assert_eq!(desk.cursor, 0);
}

#[test]
fn source_peek_right_arrow_uses_raw_source_positions() {
    let mut desk = Desk::note("# Heading");
    desk.document(0, 0, 20, 4);
    desk.app.source_peek = true;

    desk.key(KeyCode::Right);

    assert_eq!(desk.cursor, 1);
}

#[test]
fn rendered_home_end_move_to_wrapped_visual_row_boundaries() {
    let mut desk = Desk::note("alpha beta gamma");
    desk.document(0, 0, 10, 4);
    desk.cursor = 13;

    desk.key(KeyCode::Home);

    assert_eq!(desk.cursor, 11);

    desk.key(KeyCode::End);

    assert_eq!(desk.cursor, 16);
}

#[test]
fn shifted_rendered_home_extends_selection_to_visual_row_start() {
    let mut desk = Desk::note("alpha beta gamma");
    desk.document(0, 0, 10, 4);
    desk.cursor = 13;

    desk.shift(KeyCode::Home);

    assert_eq!(desk.selection(), Some((11, 13)));
}

#[test]
fn page_down_moves_cursor_by_visual_rows_and_scrolls_to_it() {
    let mut desk = Desk::note("alpha beta gamma delta epsilon zeta eta");
    desk.document(0, 0, 11, 2);
    desk.cursor = 2;

    desk.key(KeyCode::PageDown);

    assert_eq!(desk.shown(19), Some((2, 2)));
    assert_eq!(desk.cursor, 19);
    assert_eq!(desk.app.document_scroll, 1);
}

#[test]
fn page_up_down_clamp_to_visual_document_bounds() {
    let mut desk = Desk::note("alpha beta gamma");
    desk.document(0, 0, 10, 20);
    desk.cursor = 2;

    desk.key(KeyCode::PageUp);

    assert_eq!(desk.cursor, 2);

    desk.key(KeyCode::PageDown);

    assert_eq!(desk.cursor, 13);
    assert_eq!(desk.app.document_scroll, 0);
}

#[test]
fn page_down_skips_unmapped_rendered_spacer_rows() {
    let mut desk = Desk::note("# Heading\n\nbody");
    desk.document(0, 0, 20, 1);
    desk.cursor = 2;

    desk.key(KeyCode::PageDown);

    assert_eq!(desk.cursor, 10);
    assert_eq!(desk.shown(10), Some((1, 0)));
    assert_eq!(desk.app.document_scroll, 1);
}

#[test]
fn page_up_moves_cursor_by_visual_rows_from_scrolled_position() {
    let mut desk = Desk::note("alpha beta gamma delta epsilon zeta eta");
    desk.document(0, 0, 11, 2);
    desk.cursor = 31;
    desk.show_cursor();
    assert_eq!(desk.shown(31), Some((4, 0)));
    assert_eq!(desk.app.document_scroll, 3);

    desk.key(KeyCode::PageUp);

    assert_eq!(desk.cursor, 17);
    assert_eq!(desk.app.document_scroll, 2);
}

#[test]
fn shifted_page_down_extends_selection_by_visual_rows() {
    let mut desk = Desk::note("alpha beta gamma delta epsilon zeta eta");
    desk.document(0, 0, 11, 2);
    desk.cursor = 2;

    desk.shift(KeyCode::PageDown);

    assert_eq!(desk.selection(), Some((2, 19)));
}

#[test]
fn shifted_page_up_extends_selection_by_visual_rows() {
    let mut desk = Desk::note("alpha beta gamma delta epsilon zeta eta");
    desk.document(0, 0, 10, 2);
    desk.cursor = 31;

    desk.shift(KeyCode::PageUp);

    assert_eq!(desk.selection(), Some((17, 31)));
}

// ---------------------------------------------------------------------------
// Scrolling
// ---------------------------------------------------------------------------
#[test]
fn cursor_visibility_uses_wrapped_visual_rows() {
    let mut desk = Desk::note("alpha beta gamma");
    desk.document(0, 0, 11, 1);
    desk.cursor = 13;

    desk.show_cursor();

    assert_eq!(desk.app.document_scroll, 1);
}

#[test]
fn cursor_on_table_delimiter_stays_visible_at_body_transition() {
    let mut desk = Desk::note("| A |\n|---|\n| B |");
    let lines = vec![
        RenderedLine {
            spans: vec![decoration("│ "), span("A", 2), decoration(" │")],
            source: range(0, 5),
        },
        RenderedLine { spans: vec![decoration("├───┤")], source: range(6, 11) },
        RenderedLine {
            spans: vec![decoration("│ "), span("B", 14), decoration(" │")],
            source: range(12, 17),
        },
    ];
    desk.app.refresh_render_cache(RenderedDocument { lines }, 0);
    desk.document(0, 0, 20, 1);
    desk.cursor = 6;

    desk.show_cursor();

    assert_eq!(desk.shown(6), Some((1, 0)));
    assert_eq!(desk.app.document_scroll, 1);

    desk.key(KeyCode::Up);

    assert_eq!(desk.cursor, 2);
    assert_eq!(desk.app.document_scroll, 0);
}

#[test]
fn mouse_scroll_down_clamps_to_available_visual_rows() {
    let mut desk = Desk::note("alpha beta gamma");
    desk.document(0, 0, 10, 1);

    for _ in 0..5 {
        desk.mouse(MouseKind::ScrollDown, 0, 0);
    }

    let max_scroll = desk.visual().rows.len() - 1;
    assert_eq!(desk.app.document_scroll, max_scroll);
    desk.mouse(MouseKind::ScrollUp, 0, 0);
    assert_eq!(desk.app.document_scroll, 0);
}

#[test]
fn ctrl_m_remaps_current_cursor_and_scroll_without_losing_position() {
    let mut desk = Desk::note("# Heading\n\nalpha beta gamma delta");
    desk.document(0, 0, 13, 1);
    desk.cursor = 12;
    desk.app.document_scroll = 3;

    desk.ctrl(KeyCode::Char('m'));

    assert!(desk.app.source_peek);
    assert_eq!(desk.cursor, 12);
    assert_eq!(desk.shown(12), Some((2, 1)));
    assert_eq!(desk.app.document_scroll, 2);

    desk.key(KeyCode::Down);

    assert_eq!(desk.cursor, 23);
}

#[test]
fn a_stale_scroll_position_is_held_inside_the_document() {
    let mut desk = Desk::note("alpha beta gamma delta");
    desk.document(0, 0, 8, 2);
    desk.app.document_scroll = 90;
    let view = desk.view();
    desk.app.clamp_document_scroll(&view);
    assert_eq!(desk.app.visual_rows_len(), 4);
    assert_eq!(desk.app.document_scroll, 2);
}

// ---------------------------------------------------------------------------
// Headings and the gutter
// ---------------------------------------------------------------------------
#[test]
fn max_heading_depth_returns_zero_when_no_heading_entries() {
    let desk = Desk::note("no headings here");

    assert_eq!(desk.app.max_heading_depth(), 0);
}

#[test]
fn max_heading_depth_adapts_to_deepest_heading() {
    let desk = Desk::note("# H1\n## H2\n### H3\n#### H4");

    assert_eq!(desk.app.max_heading_depth(), 4);
}

#[test]
fn max_heading_depth_ignores_section_fallback_entries() {
    let mut desk = Desk::new("note.txt", "Just text\nAnother line:");
    desk.app.refresh_document_metadata(vec![OutlineEntry {
        kind: OutlineKind::Section,
        depth: 1,
        line: 1,
        label: "Another line".to_string(),
    }]);

    assert_eq!(desk.app.max_heading_depth(), 0);
}

#[test]
fn gutter_layout_suppresses_gutter_when_no_headings() {
    let mut desk = Desk::note("plain text");
    desk.document(0, 0, 80, 20);

    let layout = desk.app.heading_gutter_layout();
    assert_eq!(layout.gutter_cells, 0);
    assert_eq!(layout.blank_after, 0);
    assert_eq!(layout.text_x_offset, 0);
    assert_eq!(layout.text_width, 79);
}

#[test]
fn gutter_layout_reserves_cells_for_heading_markers() {
    let mut desk = Desk::note("### Deep heading");
    desk.document(0, 0, 80, 20);

    let layout = desk.app.heading_gutter_layout();
    assert_eq!(layout.gutter_cells, 3);
    assert_eq!(layout.blank_after, 1);
    assert_eq!(layout.text_x_offset, 4);
    assert_eq!(layout.text_width, 80 - 3 - 1 - 1);
}

#[test]
fn gutter_layout_suppresses_at_narrow_widths() {
    let mut desk = Desk::note("## Two");
    desk.document(0, 0, 4, 20);

    let layout = desk.app.heading_gutter_layout();
    assert_eq!(layout.gutter_cells, 0);
    assert_eq!(layout.text_width, 3);
}

#[test]
fn visual_cache_accounts_for_right_margin() {
    let mut desk = Desk::note("hello world");
    desk.document(0, 0, 20, 10);

    let visual = desk.visual();
    assert_eq!(visual.rows.len(), 1);
    assert!(visual.row_width(0).unwrap() <= 19);
}

#[test]
fn effective_text_width_reduces_wrap_for_gutter_and_margin() {
    let mut desk = Desk::note("# H\n\nalpha beta gamma delta");
    desk.document(0, 0, 20, 10);

    let layout = desk.app.heading_gutter_layout();
    assert_eq!(layout.text_width, 17);
    assert!(desk.visual().row_width(0).unwrap() <= layout.text_width as usize);
}

#[test]
fn heading_visual_lines_wrap_long_labels() {
    let desk = Desk::note("# A very long heading title that must wrap");

    let lines = desk.heading_rows(15);
    assert!(lines.len() > 1);
    assert!(lines[1].content.starts_with("  "));
    assert_eq!(lines[0].content, "▸ A very long ");
    assert_eq!(lines[1].content, "  heading ");
}

#[test]
fn heading_visual_lines_single_entry_no_wrap() {
    let desk = Desk::note("# Short");

    let lines = desk.heading_rows(30);
    assert_eq!(lines.len(), 1);
    assert!(lines[0].content.contains("Short"));
    assert_eq!(lines[0].content, "▸ Short");
}

#[test]
fn heading_visual_lines_active_entry_has_bold_style() {
    let desk = Desk::note("# Active\n\nin between\n\n## Inactive");

    let lines = desk.heading_rows(30);
    assert_eq!(lines[0].style.add_modifier & BOLD, BOLD);
    assert_eq!(lines[0].style.fg, Some(Color::Indexed(11)));
    let second_lines: Vec<_> = lines.iter().filter(|l| l.entry_idx == 1).collect();
    assert!(!second_lines.is_empty());
    assert_eq!(second_lines[0].style.add_modifier & BOLD, 0);
    assert_eq!(second_lines[0].style.fg, Some(Color::LightMagenta));
}

#[test]
fn heading_scroll_is_clamped_by_real_draw_path() {
    let desk = Desk::note("# A\n# B\n# C\n# D");
    let all_lines = desk.heading_rows(28);

    assert_eq!(clamp_heading_scroll(50, all_lines.len(), 12), 0);
    assert_eq!(clamp_heading_scroll(50, all_lines.len(), 3), 1);
    assert_eq!(clamp_heading_scroll(1, all_lines.len(), 3), 1);
    assert_eq!(clamp_heading_scroll(50, all_lines.len(), 0), 3);
}

// ---------------------------------------------------------------------------
// On a screen
// ---------------------------------------------------------------------------
#[test]
fn renders_ribbon_headings_document_files_and_keybar() {
    let mut desk = Desk::note("# Title\n\nBody text");
    desk.drawn(120, 24);
    let areas = desk.app.areas;

    assert!(areas.headings.width > 0);
    assert!(areas.document.width > 0);
    assert!(areas.files.width > 0);
    assert!(areas.metrics.width > 0);
    assert_eq!(
        areas.document.x,
        areas.headings.x
            + areas.headings.width
            + SIDEBAR_BORDER_OVERHEAD / 2
            + SIDEBAR_SEP_WIDTH
    );
    assert_eq!(
        areas.files.x,
        areas.document.x + areas.document.width + SIDEBAR_SEP_WIDTH + SIDEBAR_BORDER_OVERHEAD / 2
    );
    assert_eq!(areas.files.x, areas.metrics.x);
    assert_eq!(areas.files.width, areas.metrics.width);
    assert!(areas.metrics.y >= areas.files.y);
    let combined_height = areas.files.height + areas.metrics.height;
    assert!((20..=22).contains(&combined_height));
    assert!((2..=4).contains(&areas.metrics.height));
    assert_eq!(desk.app.workspace_viewport_rows, areas.files.height as usize);
    assert_eq!(desk.heading_rows(areas.headings.width)[0].content, "▸ Title");
    let text = desk.visual().to_text_with_selection(0, 24, None, Style::default());
    assert!(text.lines.iter().any(|line| line.to_string().contains("Body text")));

    let (cursor_word, total_words) = desk.progress();
    let facts = RibbonFacts {
        name: "note.md".to_string(),
        dirty: desk.dirty,
        cursor_word,
        total_words,
        heading: "Title".to_string(),
        path: desk.app.current_file_path.clone(),
        notification: None,
    };
    let ribbon = ribbon_line(&facts, 120);
    assert!(ribbon.contains("note.md") && ribbon.contains("Title"));
    let bands = split_screen(Rect { x: 0, y: 0, width: 120, height: 24 });
    let badge = mode_badge(desk.app.source_peek, bands.ribbon, &desk.app.palette).unwrap();
    assert_eq!(badge.text, " WRITE ");
    let switches = Switches {
        source_peek: desk.app.source_peek,
        indent: desk.app.paragraph_indent,
        headings: desk.app.show_headings,
        files: desk.app.show_files,
    };
    let bar = bottom_bar_text(switches);
    assert!(bar.contains("^S:save"));
    assert!(bar.contains("F3:hd on"));
    assert!(bar.contains("F2:files on"));
    let controls = set_control_areas(bands.bar, switches);
    assert!(controls.headings.width > 0);
    assert!(controls.files.width > 0);
}

#[test]
fn metrics_panel_renders_all_five_metrics_for_three_row_height() {
    let mut desk =
        Desk::note("Hello there friend.\n\nA second line here.\n\nThird para now!");
    desk.drawn(120, 24);
    let rendered = desk.metrics();

    assert_eq!(desk.app.areas.metrics.height, 3);
    assert!(rendered.contains("── Doc"));
    assert!(rendered.contains("10 w"));
    assert!(rendered.contains("57 ch"));
    assert!(rendered.contains("3 sent"));
    assert!(rendered.contains("3 para"));
    assert!(rendered.contains("4s read"));
}

#[test]
fn metrics_panel_updates_as_user_types() {
    let mut desk = Desk::note("one.");
    desk.document(0, 0, 80, 1);
    desk.cursor = 4;
    desk.key(KeyCode::Char(' '));
    for ch in "two three".chars() {
        desk.key(KeyCode::Char(ch));
    }
    desk.drawn(120, 24);
    let rendered = desk.metrics();

    assert!(rendered.contains("3 w"));
    assert!(rendered.contains("1 para"));
}

#[test]
fn narrow_width_collapses_sidebars_and_uses_unbordered_document() {
    let mut desk = Desk::note("# Title");
    desk.drawn(60, 14);
    let areas = desk.app.areas;

    assert_eq!(areas.headings, Rect::default());
    assert_eq!(areas.files, Rect::default());
    assert_eq!(areas.metrics, Rect::default());
    assert!(areas.document.width > 0);
    assert_eq!(areas.document, Rect { x: 0, y: 1, width: 60, height: 12 });
}

#[test]
fn hiding_files_sidebar_via_f2_also_hides_metrics_panel() {
    let mut desk = Desk::note("# Title\n\nHello there friend.");
    desk.drawn(120, 24);
    assert!(desk.app.areas.files.width > 0);
    assert!(desk.app.areas.metrics.width > 0);
    let rows = desk.app.workspace_viewport_rows;

    desk.key(KeyCode::F(2));
    desk.drawn(120, 24);

    assert_eq!(desk.app.areas.files.width, 0);
    assert_eq!(desk.app.areas.metrics.width, 0);
    assert_eq!(desk.app.areas.metrics.height, 0);
    assert!(!desk.metrics().contains("── Doc"));
    assert_eq!(desk.app.workspace_viewport_rows, rows);
}

#[test]
fn sidebars_are_placed_where_they_fit() {
    let mut desk = Desk::note("x");
    let layout = &desk.app.config.layout;
    let (hw, fw) = (layout.headings_width + 2, layout.files_width + 2);
    for headings in [false, true] {
        for files in [false, true] {
            desk.app.show_headings = headings;
            desk.app.show_files = files;
            for width in 0..130 {
                desk.drawn(width, 30);
                let areas = desk.app.areas;
                assert_eq!(areas.headings.width > 0, headings && width >= 41 + hw);
                assert_eq!(areas.files.width > 0, files && width >= 42 + hw + fw);
                assert_eq!(areas.metrics.width, areas.files.width);
                assert!(areas.document.width >= width.min(40));
            }
        }
    }
}

#[test]
fn scrollbar_renders_in_separator_column() {
    let content: Vec<String> = (0..50).map(|i| format!("Line {i}")).collect();
    let mut desk = Desk::note(&content.join("\n"));
    desk.app.show_headings = false;
    desk.app.show_files = true;
    let body = desk.drawn(120, 20);

    assert!(desk.app.areas.files.width > 0);
    assert!(desk.app.areas.document.width > 0);
    assert_eq!(body.separator.x, body.document.x + body.document.width);
    let cells = desk.scrollbar(body);
    assert_eq!(cells.len(), body.document.height as usize);
    assert!(cells.iter().all(|cell| cell == "│" || cell == "█"));
}

#[test]
fn scrollbar_thumb_present_when_content_overflows() {
    let content: Vec<String> = (0..50).map(|i| format!("Line {i}")).collect();
    let mut desk = Desk::note(&content.join("\n"));
    desk.app.show_headings = false;
    desk.app.show_files = true;
    let body = desk.drawn(120, 14);

    let cells = desk.scrollbar(body);
    let thumb = cells.iter().filter(|cell| *cell == "█").count();
    assert!(thumb > 0);
    assert!(thumb < body.document.height as usize);
}

#[test]
fn cursor_advances_after_typing_space_at_end_of_line() {
    let mut desk = Desk::note("hello");
    desk.screen(80, 8);
    desk.cursor = 5;
    let before = desk.drawn_cursor();

    desk.key(KeyCode::Char(' '));
    desk.screen(80, 8);

    assert_eq!(desk.drawn_cursor(), (before.0 + 1, before.1));
}

#[test]
fn end_key_on_line_with_trailing_whitespace_lands_past_the_space() {
    let mut desk = Desk::note("hello ");
    desk.screen(80, 8);

    desk.key(KeyCode::End);

    assert_eq!(desk.cursor, 6);
    assert_eq!(desk.drawn_cursor().0, desk.app.areas.document.x + 6);
}

#[test]
fn cursor_moves_to_wrapped_row_after_typing_at_trailing_space_wrap_boundary() {
    let mut desk = Desk::note("abcdefgh");
    desk.screen(9, 4);
    assert_eq!(desk.app.areas.document.width, 9);

    desk.cursor = 8;
    desk.key(KeyCode::Char(' '));
    desk.screen(9, 4);

    assert_eq!(desk.cursor, 9);
    assert_eq!(desk.shown(8), Some((1, 0)));
    assert_eq!(desk.shown(9), Some((1, 1)));
    assert_eq!(desk.drawn_cursor(), (1, 2));
}

#[test]
fn selection_over_synthesized_trailing_space_cell() {
    let mut desk = Desk::note("hello ");
    let lines = vec![RenderedLine { spans: vec![span("hello", 0)], source: range(0, 6) }];
    desk.app.refresh_render_cache(RenderedDocument { lines }, 0);
    desk.screen(80, 8);
    desk.cursor = 4;
    desk.shift(KeyCode::Right);
    desk.shift(KeyCode::Right);

    let selection = desk.selection();
    assert_eq!(selection, Some((4, 6)));
    let selected = Style::default().bg(Color::LightCyan);
    let text = desk.visual().to_text_with_selection(0, 6, selection, selected);
    let last = text.lines[0].spans.last().unwrap();
    assert!(last.content.ends_with(' '));
    assert_eq!(last.style.bg, Some(Color::LightCyan));
}

#[test]
fn heading_gutter_does_not_repeat_markers_on_continuation_row_at_scroll_origin() {
    let mut desk = Desk::note(
        "# Heading Long Title For Wrapping Test\n\nBody paragraph text that also wraps nicely here.\n\nAnother paragraph for more scroll room.\n\nYet one more to ensure scroll works.\n",
    );
    desk.screen(20, 8);
    assert!(desk.visual().rows.len() >= 3);

    let gutter = desk.gutter();
    assert_eq!(gutter[0], "#");
    assert_eq!(gutter[1], "");

    desk.app.document_scroll = 1;
    desk.screen(20, 8);
    assert_eq!(desk.app.document_scroll, 1);
    assert_eq!(desk.gutter()[0], "");
}

#[test]
fn heading_gutter_shows_markers_for_heading_rows() {
    let mut desk = Desk::note("# Title\n\nBody text");
    desk.screen(80, 8);

    assert_eq!(desk.gutter(), vec!["#", "", ""]);
    assert_eq!(desk.app.heading_gutter_layout().text_x_offset, 2);
    assert_eq!(desk.visual().rows[0].to_line().to_string(), "Title");
}

#[test]
fn heading_gutter_leaves_non_heading_rows_blank() {
    let mut desk = Desk::note("Body text\n# Heading\nMore body");
    desk.screen(80, 8);

    assert_eq!(desk.gutter(), vec!["", "#", ""]);
}

#[test]
fn heading_gutter_markers_adapt_to_deepest_heading() {
    let mut desk = Desk::note("### Deep");
    desk.screen(80, 8);

    assert_eq!(desk.gutter(), vec!["###"]);
    assert_eq!(desk.app.heading_gutter_layout().blank_after, 1);
}

#[test]
fn cursor_never_enters_right_margin() {
    let mut desk = Desk::note("abcdefghijklmnop");
    desk.screen(20, 8);
    let area = desk.app.areas.document;
    let margin_col = area.x + area.width - 1;
    assert!(desk.drawn_cursor().0 < margin_col);

    desk.cursor = desk.text.len();
    let layout = desk.app.heading_gutter_layout();
    let text_end = area.x + layout.text_x_offset + layout.text_width;
    let end_cursor = desk.drawn_cursor();
    assert!(end_cursor.0 < margin_col);
    assert!(end_cursor.0 <= text_end - 1);
}

// ---------------------------------------------------------------------------
// Words
// ---------------------------------------------------------------------------
#[test]
fn word_progress_empty_doc_returns_zero() {
    let mut desk = Desk::note("");

    assert_eq!(desk.progress(), (0, 0));
}

#[test]
fn word_progress_whitespace_only_returns_zero() {
    let mut desk = Desk::note("   \n  \n  ");

    assert_eq!(desk.progress(), (0, 0));
}

#[test]
fn word_progress_at_start() {
    let mut desk = Desk::note("one two three");
    desk.cursor = 0;

    assert_eq!(desk.progress(), (0, 3));
}

#[test]
fn word_progress_at_end() {
    let mut desk = Desk::note("one two three");
    desk.cursor = desk.text.len();

    assert_eq!(desk.progress(), (3, 3));
}

#[test]
fn word_progress_mid_word() {
    let mut desk = Desk::note("alpha beta gamma");
    desk.cursor = 7;

    assert_eq!(desk.progress(), (2, 3));
}

#[test]
fn word_progress_with_unicode_characters() {
    let mut desk = Desk::note("café résumé naïveté");
    desk.cursor = 5;

    assert_eq!(desk.progress(), (1, 3));

    desk.cursor = 3;
    assert_eq!(desk.progress(), (1, 3));
}

#[test]
fn word_progress_updates_after_typing() {
    let mut desk = Desk::note("hello");
    desk.cursor = 5;

    desk.types(" world");

    assert_eq!(desk.progress(), (2, 2));
}

#[test]
fn word_progress_cache_reuses_across_cursor_moves() {
    let mut desk = Desk::note("one two three four five six");

    let v1 = desk.version;
    let (_, t1) = desk.progress();
    assert_eq!(t1, 6);

    desk.cursor = 0;
    assert_eq!(desk.progress(), (0, 6));

    desk.cursor = 8;
    assert_eq!(desk.progress(), (2, 6));
    assert_eq!(v1, desk.version);
    assert_eq!(desk.app.word_cache.version, Some(v1));
}

#[test]
fn word_progress_after_edit_rebuilds_cache() {
    let mut desk = Desk::note("hello world");

    let v1 = desk.version;
    assert_eq!(desk.progress().1, 2);

    desk.cursor = desk.text.len();
    desk.types(" test");

    assert_ne!(v1, desk.version);
    assert_eq!(desk.progress().1, 3);
}

#[test]
fn word_progress_rebuilds_after_opening_another_file() {
    let first = vec!["word"; 816].join(" ");
    let second = vec!["word"; 900].join(" ");
    let mut desk = Desk::with_files(
        &[("first.md", first.as_str()), ("second.md", second.as_str())],
        "first.md",
        false,
    );

    assert_eq!(desk.progress().1, 816);
    assert_eq!(desk.version, 0);

    desk.open("second.md");
    assert_eq!(desk.version, 0);
    desk.cursor = desk.text.len();

    assert_eq!(desk.progress(), (900, 900));
}

// ---------------------------------------------------------------------------
// Indents
// ---------------------------------------------------------------------------
#[test]
fn indent_at_width_one_does_not_panic_or_overflow() {
    let mut desk = Desk::note("Abc");
    desk.app.source_peek = false;
    desk.app.paragraph_indent = true;
    desk.document(0, 0, 2, 10);
    let visual = desk.visual();
    for idx in 0..visual.rows.len() {
        let w = visual.row_width(idx).unwrap_or(0);
        assert!(w <= 2, "row {idx} width {w}");
    }
}

#[test]
fn indent_at_width_two_fits_exactly() {
    let mut desk = Desk::note("Hi");
    desk.app.source_peek = false;
    desk.app.paragraph_indent = true;
    desk.document(0, 0, 4, 10);
    let visual = desk.visual();
    for idx in 0..visual.rows.len() {
        let w = visual.row_width(idx).unwrap_or(0);
        assert!(w <= 3, "row {idx} width {w}");
    }
}

#[test]
fn backspace_at_tab_indented_text_start_merges_lines() {
    let mut desk = Desk::indented("First line.\n\tSecond line.");
    desk.document(0, 0, 60, 10);

    let visual = desk.visual();
    assert_eq!(visual.rows.len(), 2);
    assert!(visual.rows[0].to_line().to_string().starts_with("  First"));
    assert!(visual.rows[1].to_line().to_string().starts_with("  Second"));
    assert_eq!(visual.row_prefix_width(0), Some(2));
    assert_eq!(visual.row_prefix_width(1), Some(2));
    assert_eq!(visual.source_to_display(13), Some((1, 2)));
    desk.cursor = 13;

    desk.key(KeyCode::Backspace);

    assert_eq!(desk.contents(), "First line.Second line.");
    let visual = desk.visual();
    let non_blank: Vec<_> =
        visual.rows.iter().filter(|r| !r.to_line().to_string().trim().is_empty()).collect();
    assert_eq!(non_blank.len(), 1);
    let (row, col) = desk.shown(desk.cursor).unwrap();
    assert_eq!(row, 0);
    assert!(col >= 2);
    assert_eq!(desk.app.last_edit, Some(desk.now));
}

#[test]
fn backspace_at_space_indented_text_start_merges_lines() {
    let mut desk = Desk::indented("First para.\n    Second line.");
    desk.document(0, 0, 60, 10);

    assert!(desk.visual().rows[1].to_line().to_string().starts_with("  Second"));
    assert_eq!(desk.shown(16).unwrap().0, 1);
    desk.cursor = 16;

    desk.key(KeyCode::Backspace);

    assert_eq!(desk.contents(), "First para.Second line.");
    assert_eq!(desk.visual().rows.len(), 1);
    assert!(desk.shown(desk.cursor).is_some());
}

#[test]
fn backspace_at_first_paragraph_text_start_is_noop() {
    let mut desk = Desk::indented("Hello world");
    desk.document(0, 0, 60, 10);
    desk.cursor = 0;

    desk.key(KeyCode::Backspace);

    assert_eq!(desk.contents(), "Hello world");
}

#[test]
fn backspace_mid_text_uses_normal_editor_behavior() {
    let mut desk = Desk::indented("Hello world");
    desk.document(0, 0, 60, 10);
    desk.cursor = 3;

    desk.key(KeyCode::Backspace);

    assert_eq!(desk.contents(), "Helo world");
}

#[test]
fn backspace_does_not_merge_across_heading() {
    let mut desk = Desk::indented("prose line.\n# Heading\n\nAfter heading.");
    desk.document(0, 0, 60, 10);

    let visual = desk.visual();
    let after_row = visual
        .rows
        .iter()
        .position(|r| r.to_line().to_string().contains("After heading"))
        .unwrap();
    assert_eq!(visual.row_prefix_width(after_row), Some(2));
    assert_eq!(visual.source_to_display(23).unwrap().0, after_row);
    desk.cursor = 23;

    desk.key(KeyCode::Backspace);

    assert_eq!(desk.contents(), "prose line.\n# Heading\nAfter heading.");
}

#[test]
fn backspace_does_not_cross_blank_line_separator() {
    let mut desk = Desk::indented("First para.\n\nSecond para.");
    desk.document(0, 0, 60, 10);

    assert_eq!(desk.shown(13).unwrap().1, 2);
    desk.cursor = 13;

    desk.key(KeyCode::Backspace);

    assert_eq!(desk.contents(), "First para.\nSecond para.");
}

#[test]
fn backspace_with_selection_falls_through_to_editor() {
    let mut desk = Desk::indented("First line.\n\tSecond line.");
    desk.document(0, 0, 60, 10);
    desk.anchor = Some(13);
    desk.cursor = 19;

    desk.key(KeyCode::Backspace);

    assert_eq!(desk.contents(), "First line.\n\t line.");

    let mut desk = Desk::indented("First line.\n\tSecond line.");
    desk.document(0, 0, 60, 10);
    desk.anchor = Some(19);
    desk.cursor = 13;
    desk.key(KeyCode::Backspace);
    assert_eq!(desk.contents(), "First line.\n\t line.");
}

#[test]
fn backspace_with_non_ascii_before_continuation_does_not_panic() {
    let mut desk = Desk::indented("Hëllõ.\n\tSecond");
    desk.document(0, 0, 60, 10);

    assert_eq!(desk.shown(8).unwrap().1, 2);
    desk.cursor = 8;

    desk.key(KeyCode::Backspace);

    assert_eq!(desk.contents(), "Hëllõ.Second");
}

#[test]
fn backspace_at_indented_start_refreshes_metadata() {
    let mut desk = Desk::indented("First line.\n\tSecond line.");
    desk.document(0, 0, 60, 10);

    let version_before = desk.version;
    let view = desk.view();
    assert_eq!(desk.app.word_count(&view), 4);
    desk.cursor = 13;

    desk.key(KeyCode::Backspace);

    assert_ne!(desk.version, version_before);
    let view = desk.view();
    assert_eq!(desk.app.word_count(&view), 3);
    assert_eq!(desk.app.document_metrics(&view).words, 3);
}

#[test]
fn soft_breaks_are_one_newline_and_blanks() {
    for gap in ["\n", "\r\n", "\n\t", "\n    ", "\r\n \t "] {
        assert!(is_soft_break_separator(gap), "{gap:?}");
    }
    for gap in ["", " ", "\r", "\n\n", " \n", "\nx", "\n\u{a0}", "\r\r\n"] {
        assert!(!is_soft_break_separator(gap), "{gap:?}");
    }
}

// ---------------------------------------------------------------------------
// Keys
// ---------------------------------------------------------------------------
#[test]
fn keys_mean_what_they_say() {
    let key = |code, ctrl, alt| Key { code, ctrl, alt, shift: false };
    let meant = |code, ctrl, alt, peek| command_for(key(code, ctrl, alt), peek, true);
    assert_eq!(meant(KeyCode::Char('q'), true, false, false), Command::Quit);
    assert_eq!(meant(KeyCode::Char('s'), true, false, false), Command::Save);
    assert_eq!(meant(KeyCode::Char('m'), true, true, true), Command::TogglePeek);
    assert_eq!(meant(KeyCode::Char('n'), true, false, false), Command::NewFile);
    assert_eq!(meant(KeyCode::Char('b'), true, false, false), Command::Editor);
    assert_eq!(meant(KeyCode::Char('q'), false, false, false), Command::Editor);
    assert_eq!(meant(KeyCode::F(2), false, false, false), Command::ToggleFiles);
    assert_eq!(meant(KeyCode::F(3), true, false, false), Command::ToggleHeadings);
    assert_eq!(meant(KeyCode::F(4), false, false, true), Command::ToggleIndent);
    assert_eq!(meant(KeyCode::F(5), false, false, true), Command::Editor);
    assert_eq!(meant(KeyCode::PageUp, true, true, true), Command::Page { back: true });
    assert_eq!(meant(KeyCode::PageDown, false, false, false), Command::Page { back: false });
    assert_eq!(meant(KeyCode::Left, true, false, false), Command::Word { back: true });
    assert_eq!(meant(KeyCode::Right, false, false, false), Command::Horizontal { back: false });
    assert_eq!(meant(KeyCode::Right, true, true, false), Command::Editor);
    assert_eq!(meant(KeyCode::Left, false, false, true), Command::Editor);
    assert_eq!(meant(KeyCode::Home, false, false, false), Command::LineBoundary { end: false });
    assert_eq!(meant(KeyCode::End, false, false, false), Command::LineBoundary { end: true });
    assert_eq!(meant(KeyCode::End, false, false, true), Command::Editor);
    assert_eq!(meant(KeyCode::Up, false, false, true), Command::Vertical { back: true });
    assert_eq!(meant(KeyCode::Down, false, true, false), Command::Nothing);
    assert_eq!(meant(KeyCode::Backspace, false, false, false), Command::Backspace);
    assert_eq!(meant(KeyCode::Backspace, false, false, true), Command::Editor);
    assert_eq!(command_for(key(KeyCode::Backspace, false, false), false, false), Command::Editor);
    assert_eq!(meant(KeyCode::Enter, false, false, false), Command::Editor);
    assert_eq!(meant(KeyCode::Esc, false, false, false), Command::Editor);
    assert_eq!(meant(KeyCode::Other, false, false, false), Command::Editor);
}
