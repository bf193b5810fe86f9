//! The application: its state, and what it does on keys, mouse and ticks.
//!
//! The text itself lives in an editor outside the library. Handlers are given
//! an [`EditorView`] of it, change the state, and return an [`Action`] for the
//! caller to perform on the editor, the file system or the outline.

use crate::config::Config;
use crate::headings::{deepest, max_heading_depth, OutlineEntry};
use crate::indent::indented;
use crate::layout::{ensure_row_visible, gutter_layout, showing, HeadingGutterLayout, Rect};
use crate::navigate::{
    boundary_target, glyph_rows, horizontal_target, move_horizontal, move_line_boundary, move_rows,
    move_word, rows_target, word_target,
};
use crate::panels::{in_color, Palette};
use crate::paths::{accepted_name, markdown_filename};
use crate::render::{document_measure, RenderedDocument};
use crate::style::Style;
use crate::text::{from_chars, to_chars};
use crate::visual::{
    display_of, document_rows, prose_end_above, source_lines, RowModel, VisualDocument,
};
use crate::workspace::WorkspaceEntry;
use crate::wrap::WrapMode;
use vstd::prelude::*;

verus! {

// ---------------------------------------------------------------------------
// Events
// ---------------------------------------------------------------------------
/// A key without its modifiers.
#[derive(Debug, Clone, Copy, PartialEq, Eq, Structural)]
pub enum KeyCode {
    Char(char),
    F(u8),
    Backspace,
    Enter,
    Esc,
    Left,
    Right,
    Up,
    Down,
    Home,
    End,
    PageUp,
    PageDown,
    Other,
}

/// A key with its modifiers.
#[derive(Debug, Clone, Copy, PartialEq, Eq, Structural)]
pub struct Key {
    pub code: KeyCode,
    pub ctrl: bool,
    pub alt: bool,
    pub shift: bool,
}

/// What the mouse does.
#[derive(Debug, Clone, Copy, PartialEq, Eq, Structural)]
pub enum MouseKind {
    DownLeft,
    DragLeft,
    UpLeft,
    ScrollUp,
    ScrollDown,
    Other,
}

/// What the mouse does, and where.
#[derive(Debug, Clone, Copy, PartialEq, Eq, Structural)]
pub struct Mouse {
    pub kind: MouseKind,
    pub column: u16,
    pub row: u16,
}

/// What happens to the application.
#[derive(Debug, Clone, Copy, PartialEq, Eq, Structural)]
pub enum Event {
    Key(Key),
    Mouse(Mouse),
    Resize,
    Tick,
}

/// What the handlers read of the editor.
#[derive(Debug)]
pub struct EditorView {
    pub text: String,
    /// The character that the cursor is at.
    pub cursor: usize,
    pub has_selection: bool,
    /// Changes whenever the text does.
    pub version: u64,
    pub dirty: bool,
}

/// What becomes of the selection when the cursor moves.
#[derive(Debug, Clone, Copy, PartialEq, Eq, Structural)]
pub enum Select {
    /// It is cleared.
    Clear,
    /// It starts at the cursor, and then extends.
    Start,
    /// It extends.
    Extend,
}

/// What follows once the document has been saved.
#[derive(Debug)]
pub enum AfterSave {
    Nothing,
    Quit,
    /// The file of this name in the current folder is opened.
    Open(String),
    /// Nothing, but where saving failed the delay starts anew.
    Autosave,
}

/// What the caller is to do.
#[derive(Debug)]
pub enum Action {
    Nothing,
    /// Move the cursor; then make it visible.
    MoveCursor { pos: usize, select: Select },
    /// Delete characters and put the cursor there; then report the deletion.
    Delete { start: usize, len: usize },
    /// Hand the key to the editor; then report what it did.
    EditorKey { viewport: usize },
    /// Save the document; then report the outcome.
    Save(AfterSave),
    /// Open the file of this name in the current folder, or create it.
    Open(String),
    /// Go to the parent folder.
    ParentFolder,
    /// Go to the folder of this name in the current one.
    Folder(String),
    /// Go to the heading that is shown in this row of the screen.
    ClickHeading { row: u16 },
}

/// What the user is prompted for.
#[derive(Debug, Clone, Copy, PartialEq, Eq, Structural)]
pub enum PromptMode {
    NewFile,
}

/// A message in the ribbon. Times are nanoseconds of a steady clock.
#[derive(Debug)]
pub struct Notification {
    pub text: String,
    pub at: u64,
    pub is_error: bool,
}

/// A notification of the given text.
pub open spec fn notified(
    notification: Option<Notification>,
    text: Seq<char>,
    at: u64,
    is_error: bool,
) -> bool {
    match notification {
        Some(n) => n.text@ == text && n.at == at && n.is_error == is_error,
        None => false,
    }
}

fn notify(text: &str, at: u64, is_error: bool) -> (notification: Option<Notification>)
    ensures
        notified(notification, text@, at, is_error),
{
    Some(Notification { text: text.to_string(), at, is_error })
}

// ---------------------------------------------------------------------------
// Keys
// ---------------------------------------------------------------------------
/// What a key means while no prompt is open.
#[derive(Debug, Clone, Copy, PartialEq, Eq, Structural)]
pub enum Command {
    Quit,
    Save,
    TogglePeek,
    ToggleFiles,
    ToggleHeadings,
    ToggleIndent,
    NewFile,
    Page { back: bool },
    Word { back: bool },
    Horizontal { back: bool },
    LineBoundary { end: bool },
    Vertical { back: bool },
    Nothing,
    Backspace,
    Editor,
}

/// The meaning of a key. Raw source leaves horizontal movement, and Backspace,
/// to the editor.
pub open spec fn meaning(key: Key, source_peek: bool, indent: bool) -> Command {
    let bare = !key.ctrl && !key.alt;
    let word = key.ctrl && !key.alt;
    match key.code {
        KeyCode::Char(c) => if !key.ctrl {
            Command::Editor
        } else if c == 'q' {
            Command::Quit
        } else if c == 's' {
            Command::Save
        } else if c == 'm' {
            Command::TogglePeek
        } else if c == 'n' {
            Command::NewFile
        } else {
            Command::Editor
        },
        KeyCode::F(n) => if n == 2 {
            Command::ToggleFiles
        } else if n == 3 {
            Command::ToggleHeadings
        } else if n == 4 {
            Command::ToggleIndent
        } else {
            Command::Editor
        },
        KeyCode::PageUp => Command::Page { back: true },
        KeyCode::PageDown => Command::Page { back: false },
        KeyCode::Left => if !source_peek && word {
            Command::Word { back: true }
        } else if !source_peek && bare {
            Command::Horizontal { back: true }
        } else {
            Command::Editor
        },
        KeyCode::Right => if !source_peek && word {
            Command::Word { back: false }
        } else if !source_peek && bare {
            Command::Horizontal { back: false }
        } else {
            Command::Editor
        },
        KeyCode::Home => if !source_peek && bare {
            Command::LineBoundary { end: false }
        } else {
            Command::Editor
        },
        KeyCode::End => if !source_peek && bare {
            Command::LineBoundary { end: true }
        } else {
            Command::Editor
        },
        KeyCode::Up => if bare {
            Command::Vertical { back: true }
        } else {
            Command::Nothing
        },
        KeyCode::Down => if bare {
            Command::Vertical { back: false }
        } else {
            Command::Nothing
        },
        KeyCode::Backspace => if !source_peek && bare && indent {
            Command::Backspace
        } else {
            Command::Editor
        },
        _ => Command::Editor,
    }
}

/// The meaning of a key.
pub fn command_for(key: Key, source_peek: bool, indent: bool) -> (command: Command)
    ensures
        command == meaning(key, source_peek, indent),
{
    let bare = !key.ctrl && !key.alt;
    let word = key.ctrl && !key.alt;
    match key.code {
        KeyCode::Char('q') if key.ctrl => Command::Quit,
        KeyCode::Char('s') if key.ctrl => Command::Save,
        KeyCode::Char('m') if key.ctrl => Command::TogglePeek,
        KeyCode::F(2) => Command::ToggleFiles,
        KeyCode::F(3) => Command::ToggleHeadings,
        KeyCode::F(4) => Command::ToggleIndent,
        KeyCode::Char('n') if key.ctrl => Command::NewFile,
        KeyCode::PageUp => Command::Page { back: true },
        KeyCode::PageDown => Command::Page { back: false },
        KeyCode::Left if !source_peek && word => Command::Word { back: true },
        KeyCode::Right if !source_peek && word => Command::Word { back: false },
        KeyCode::Left if !source_peek && bare => Command::Horizontal { back: true },
        KeyCode::Right if !source_peek && bare => Command::Horizontal { back: false },
        KeyCode::Home if !source_peek && bare => Command::LineBoundary { end: false },
        KeyCode::End if !source_peek && bare => Command::LineBoundary { end: true },
        KeyCode::Up if bare => Command::Vertical { back: true },
        KeyCode::Down if bare => Command::Vertical { back: false },
        KeyCode::Up => Command::Nothing,
        KeyCode::Down => Command::Nothing,
        KeyCode::Backspace if !source_peek && bare && indent => Command::Backspace,
        _ => Command::Editor,
    }
}

// ---------------------------------------------------------------------------
// State
// ---------------------------------------------------------------------------
/// The rows of the document, and what they were made for.
#[derive(Debug)]
pub struct VisualCache {
    pub visual: VisualDocument,
    pub version: Option<u64>,
    pub width: usize,
    pub source_peek: bool,
    pub paragraph_indent: bool,
}

/// Where words start, in bytes, and the version of the text that this was found
/// for.
#[derive(Debug)]
pub struct WordCache {
    pub version: Option<u64>,
    pub starts: Vec<usize>,
}

/// What is drawn where.
#[derive(Debug, Clone, Copy, PartialEq, Eq, Structural)]
pub struct Areas {
    pub headings: Rect,
    pub document: Rect,
    pub files: Rect,
    pub metrics: Rect,
    pub headings_control: Rect,
    pub files_control: Rect,
}

/// The state of the application.
#[derive(Debug)]
pub struct WritermApp {
    pub config: Config,
    pub palette: Palette,
    pub cwd: String,
    pub current_file_path: String,
    pub rendered: RenderedDocument,
    pub rendered_version: Option<u64>,
    pub cache: VisualCache,
    pub outline_entries: Vec<OutlineEntry>,
    pub workspace_entries: Vec<WorkspaceEntry>,
    pub workspace_selection: usize,
    pub workspace_scroll: u16,
    pub workspace_viewport_rows: usize,
    pub show_headings: bool,
    pub show_files: bool,
    pub source_peek: bool,
    pub paragraph_indent: bool,
    pub document_scroll: usize,
    pub heading_scroll: u16,
    pub prompt_mode: Option<PromptMode>,
    pub prompt_buffer: String,
    pub notification: Option<Notification>,
    pub running: bool,
    pub areas: Areas,
    pub drag_selecting: bool,
    pub desired_display_col: Option<usize>,
    pub last_edit: Option<u64>,
    pub needs_redraw: bool,
    pub word_cache: WordCache,
}

/// The rows of the document at a wrap width: raw source, or rendered text, with
/// first-line indents where there is room for them.
pub open spec fn rows_at(
    text: Seq<char>,
    rendered: RenderedDocument,
    style: Style,
    width: usize,
    source_peek: bool,
    indent: bool,
) -> Seq<RowModel> {
    if source_peek {
        document_rows(source_lines(text, style), width, WrapMode::Source)
    } else if indent && width >= 3 {
        indented(
            text,
            document_rows(document_measure(rendered), (width - 2) as usize, WrapMode::Rendered),
        )
    } else {
        document_rows(document_measure(rendered), width, WrapMode::Rendered)
    }
}

impl WritermApp {
    /// How the document area is divided.
    pub open spec fn gutter(self) -> HeadingGutterLayout {
        gutter_layout(self.areas.document.width, deepest(self.outline_entries@) as u16)
    }

    /// The width that text is wrapped to.
    pub open spec fn wrap_width(self) -> usize {
        self.gutter().text_width as usize
    }

    /// The rows of the document as it is to be shown.
    pub open spec fn shown_rows(self, text: Seq<char>) -> Seq<RowModel> {
        rows_at(
            text,
            self.rendered,
            in_color(self.palette.text_primary),
            self.wrap_width(),
            self.source_peek,
            self.paragraph_indent,
        )
    }

    /// The cached rows are those of the text, if they were made for its
    /// version.
    pub open spec fn coherent(self, editor: EditorView) -> bool {
        self.cache.version == Some(editor.version) ==> self.cache.visual@ == rows_at(
            editor.text@,
            self.rendered,
            in_color(self.palette.text_primary),
            self.cache.width,
            self.cache.source_peek,
            self.cache.paragraph_indent,
        )
    }

    /// This state with the cached rows of `other`.
    pub open spec fn with_cache(self, other: WritermApp) -> WritermApp {
        WritermApp { cache: other.cache, ..self }
    }

    /// The cached rows are those that are to be shown.
    pub open spec fn fresh(self, editor: EditorView) -> bool {
        &&& self.cache.visual@ == self.shown_rows(editor.text@)
        &&& self.coherent(editor)
    }

    /// The scroll position that shows the cursor.
    pub open spec fn scroll_to_cursor(self, editor: EditorView) -> int {
        match display_of(self.shown_rows(editor.text@), editor.cursor) {
            Some((row, _)) => showing(
                self.document_scroll as int,
                row,
                self.areas.document.height as int,
            ),
            None => self.document_scroll as int,
        }
    }

    /// How the document area is divided.
    pub fn heading_gutter_layout(&self) -> (layout: HeadingGutterLayout)
        ensures
            layout == self.gutter(),
    {
        HeadingGutterLayout::for_area(
            self.areas.document.width,
            max_heading_depth(&self.outline_entries),
        )
    }

    /// Brings the cached rows up to date.
    pub fn refresh_visual_cache(&mut self, editor: &EditorView)
        requires
            old(self).coherent(*editor),
        ensures
            final(self).fresh(*editor),
            *final(self) == old(self).with_cache(*final(self)),
    {
        let layout = self.heading_gutter_layout();
        proof {
            crate::layout::law_gutter_fills_the_area(
                self.areas.document.width,
                deepest(self.outline_entries@) as u16,
            );
        }
        let width: usize = layout.text_width as usize;
        let known = match self.cache.version {
            Some(version) => version == editor.version,
            None => false,
        };
        if known && self.cache.width == width && self.cache.source_peek
            == self.source_peek && self.cache.paragraph_indent == self.paragraph_indent {
            return ;
        }
        let visual = if self.source_peek {
            VisualDocument::from_source(
                editor.text.as_str(),
                width,
                Style::default().fg(self.palette.text_primary),
            )
        } else if self.paragraph_indent && width >= 3 {
            let mut visual = VisualDocument::from_rendered(&self.rendered, width - 2);
            proof {
                crate::mapping::law_documents_have_no_indent_at_first(
                    document_measure(self.rendered),
                    (width - 2) as usize,
                    WrapMode::Rendered,
                );
            }
            visual.apply_first_line_indent(editor.text.as_str());
            visual
        } else {
            VisualDocument::from_rendered(&self.rendered, width)
        };
        self.cache = VisualCache {
            visual,
            version: Some(editor.version),
            width,
            source_peek: self.source_peek,
            paragraph_indent: self.paragraph_indent,
        };
    }

    /// Scrolls so that the cursor is visible.
    pub fn ensure_cursor_visible(&mut self, editor: &EditorView)
        requires
            old(self).coherent(*editor),
        ensures
            final(self).fresh(*editor),
            final(self).document_scroll == old(self).scroll_to_cursor(*editor),
            *final(self) == (WritermApp {
                document_scroll: final(self).document_scroll,
                ..old(self).with_cache(*final(self))
            }),
    {
        self.refresh_visual_cache(editor);
        if let Some((row, _)) = self.cache.visual.source_to_display(editor.cursor) {
            let mut scroll: usize = self.document_scroll;
            ensure_row_visible(&mut scroll, row, self.areas.document.height as usize);
            self.document_scroll = scroll;
        }
    }
}

// ---------------------------------------------------------------------------
// What handlers do
// ---------------------------------------------------------------------------
/// What becomes of the selection when the cursor moves, with or without
/// extending it.
pub open spec fn select_for(extend: bool, has_selection: bool) -> Select {
    if !extend {
        Select::Clear
    } else if has_selection {
        Select::Extend
    } else {
        Select::Start
    }
}

/// The cursor is to move to `target`, if there is one.
pub open spec fn moves_to(
    target: Option<usize>,
    extend: bool,
    editor: EditorView,
    action: Action,
) -> bool {
    match target {
        Some(pos) => action == (Action::MoveCursor {
            pos,
            select: select_for(extend, editor.has_selection),
        }),
        None => action == Action::Nothing,
    }
}

/// The document is to be saved, and then the file of the given name opened; a
/// document without changes needs no saving.
pub open spec fn opens(name: Seq<char>, editor: EditorView, action: Action) -> bool {
    match action {
        Action::Save(AfterSave::Open(n)) => editor.dirty && n@ == name,
        Action::Open(n) => !editor.dirty && n@ == name,
        _ => false,
    }
}

/// A movement over the document: `after` is `before` with up-to-date rows, and
/// without a column to keep to where the cursor moves.
pub open spec fn movement(
    before: WritermApp,
    after: WritermApp,
    editor: EditorView,
    target: Option<usize>,
    extend: bool,
    action: Action,
) -> bool {
    &&& after.fresh(editor)
    &&& moves_to(target, extend, editor, action)
    &&& after == (WritermApp {
        desired_display_col: if target is Some {
            None
        } else {
            before.desired_display_col
        },
        ..before.with_cache(after)
    })
}

/// A movement by rows to `target`: the column to keep to is that of the
/// movement.
pub open spec fn row_jump(
    before: WritermApp,
    after: WritermApp,
    editor: EditorView,
    target: Option<(usize, usize)>,
    extend: bool,
    action: Action,
) -> bool {
    &&& after.fresh(editor)
    &&& match target {
        Some((pos, keep)) => {
            &&& moves_to(Some(pos), extend, editor, action)
            &&& after == (WritermApp {
                desired_display_col: Some(keep),
                ..before.with_cache(after)
            })
        },
        None => {
            &&& action == Action::Nothing
            &&& after == before.with_cache(after)
        },
    }
}

/// A movement by `delta` rows.
pub open spec fn row_movement(
    before: WritermApp,
    after: WritermApp,
    editor: EditorView,
    delta: int,
    clamp: bool,
    extend: bool,
    action: Action,
) -> bool {
    row_jump(
        before,
        after,
        editor,
        rows_target(
            before.shown_rows(editor.text@),
            editor.cursor,
            before.desired_display_col,
            delta,
            clamp,
        ),
        extend,
        action,
    )
}

/// The rows that a page has.
pub open spec fn page_rows(area: Rect) -> int {
    if area.height < 1 {
        1
    } else {
        area.height as int
    }
}

/// A line break inside a paragraph: a newline, maybe behind a carriage return,
/// and then nothing but spaces and tabs.
pub open spec fn soft_break(gap: Seq<char>) -> bool {
    let from = if gap.len() > 0 && gap[0] == '\r' {
        1int
    } else {
        0
    };
    &&& from < gap.len()
    &&& gap[from] == '\n'
    &&& forall|i: int| from < i < gap.len() ==> #[trigger] gap[i] == ' ' || gap[i] == '\t'
}

/// The part of a text between two positions, as far as there is text.
pub open spec fn between(text: Seq<char>, from: int, to: int) -> Seq<char> {
    let end = if to < text.len() {
        to
    } else {
        text.len() as int
    };
    let start = if from < end {
        from
    } else {
        end
    };
    text.subrange(start, end)
}

/// Where the line break before an indented row starts that Backspace deletes
/// as a whole: the cursor is at the start of the text of the row, nothing is
/// selected, the row above is indented prose, and between its end and the
/// cursor there is nothing but a line break inside a paragraph.
pub open spec fn merge_point(rows: Seq<RowModel>, editor: EditorView) -> Option<usize> {
    match display_of(rows, editor.cursor) {
        Some((row, col)) => {
            let above = prose_end_above(rows, row);
            if !editor.has_selection && rows[row].prefix_width != 0 && col
                == rows[row].prefix_width && above is Some && above->0 < editor.cursor
                && soft_break(between(editor.text@, above->0 as int, editor.cursor as int)) {
                above
            } else {
                None
            }
        },
        None => None,
    }
}

/// A key is handed to the editor: the column to keep to is given up.
pub open spec fn forwards(before: WritermApp, after: WritermApp, action: Action) -> bool {
    &&& after == (WritermApp { desired_display_col: None, ..before })
    &&& action == (Action::EditorKey { viewport: page_rows(before.areas.document) as usize })
}

/// What a key does while a prompt is open.
pub open spec fn prompt_effect(
    before: WritermApp,
    after: WritermApp,
    key: Key,
    editor: EditorView,
    now: u64,
    action: Action,
) -> bool {
    let typed = before.prompt_buffer@;
    let closed = WritermApp { prompt_mode: None, prompt_buffer: after.prompt_buffer, ..before };
    match key.code {
        KeyCode::Esc => {
            &&& after == closed
            &&& after.prompt_buffer@.len() == 0
            &&& action == Action::Nothing
        },
        KeyCode::Backspace => {
            &&& after == (WritermApp { prompt_buffer: after.prompt_buffer, ..before })
            &&& after.prompt_buffer@ == (if typed.len() == 0 {
                typed
            } else {
                typed.drop_last()
            })
            &&& action == Action::Nothing
        },
        KeyCode::Enter => {
            &&& after.prompt_buffer@.len() == 0
            &&& match accepted_name(typed) {
                Some(name) => {
                    &&& after == closed
                    &&& if name.len() == 0 {
                        action == Action::Nothing
                    } else {
                        opens(name, editor, action)
                    }
                },
                None => {
                    &&& after == (WritermApp { notification: after.notification, ..closed })
                    &&& notified(
                        after.notification,
                        crate::paths::NOT_A_PLAIN_NAME@,
                        now,
                        true,
                    )
                    &&& action == Action::Nothing
                },
            }
        },
        KeyCode::Char(c) => {
            &&& after == (WritermApp { prompt_buffer: after.prompt_buffer, ..before })
            &&& after.prompt_buffer@ == (if key.ctrl {
                typed
            } else {
                typed.push(c)
            })
            &&& action == Action::Nothing
        },
        _ => {
            &&& after == before
            &&& action == Action::Nothing
        },
    }
}

/// The message on switching between raw source and rendered text.
pub open spec fn peek_message(on: bool) -> Seq<char> {
    if on {
        "Source peek on"@
    } else {
        "Rendered editing"@
    }
}

/// The message on switching first-line indents.
pub open spec fn indent_message(on: bool) -> Seq<char> {
    if on {
        "Paragraph indent on"@
    } else {
        "Paragraph indent off"@
    }
}

/// What a command does that switches something, opens the prompt, saves or
/// quits.
pub open spec fn switch_effect(
    before: WritermApp,
    after: WritermApp,
    command: Command,
    editor: EditorView,
    now: u64,
    action: Action,
) -> bool {
    match command {
        Command::Quit => if editor.dirty {
            after == before && action == Action::Save(AfterSave::Quit)
        } else {
            after == (WritermApp { running: false, ..before }) && action == Action::Nothing
        },
        Command::Save => after == before && action == Action::Save(AfterSave::Nothing),
        Command::TogglePeek => {
            let switched = WritermApp {
                source_peek: !before.source_peek,
                desired_display_col: None,
                ..before
            };
            &&& action == Action::Nothing
            &&& after.fresh(editor)
            &&& after.document_scroll == switched.scroll_to_cursor(editor)
            &&& notified(after.notification, peek_message(!before.source_peek), now, false)
            &&& after == (WritermApp {
                document_scroll: after.document_scroll,
                notification: after.notification,
                ..switched.with_cache(after)
            })
        },
        Command::ToggleFiles => {
            &&& after == (WritermApp { show_files: !before.show_files, ..before })
            &&& action == Action::Nothing
        },
        Command::ToggleHeadings => {
            &&& after == (WritermApp { show_headings: !before.show_headings, ..before })
            &&& action == Action::Nothing
        },
        Command::ToggleIndent => {
            &&& after == (WritermApp {
                paragraph_indent: !before.paragraph_indent,
                notification: after.notification,
                ..before
            })
            &&& notified(
                after.notification,
                indent_message(!before.paragraph_indent),
                now,
                false,
            )
            &&& action == Action::Nothing
        },
        Command::NewFile => {
            &&& after == (WritermApp {
                prompt_mode: Some(PromptMode::NewFile),
                prompt_buffer: after.prompt_buffer,
                ..before
            })
            &&& after.prompt_buffer@.len() == 0
            &&& action == Action::Nothing
        },
        _ => after == before && action == Action::Nothing,
    }
}

/// What a command does that goes to the editor.
pub open spec fn edit_effect(
    before: WritermApp,
    after: WritermApp,
    command: Command,
    editor: EditorView,
    action: Action,
) -> bool {
    if command == Command::Backspace {
        match merge_point(before.shown_rows(editor.text@), editor) {
            Some(start) => {
                &&& after.fresh(editor)
                &&& after == before.with_cache(after)
                &&& action == (Action::Delete {
                    start,
                    len: (editor.cursor - start) as usize,
                })
            },
            None => after.fresh(editor) && forwards(before.with_cache(after), after, action),
        }
    } else {
        forwards(before, after, action)
    }
}

/// -1 or 1.
pub open spec fn step(back: bool) -> int {
    if back {
        -1
    } else {
        1
    }
}

/// What a command does.
pub open spec fn command_effect(
    before: WritermApp,
    after: WritermApp,
    command: Command,
    extend: bool,
    editor: EditorView,
    now: u64,
    action: Action,
) -> bool {
    let rows = before.shown_rows(editor.text@);
    match command {
        Command::Page { back } => row_movement(
            before,
            after,
            editor,
            step(back) * page_rows(before.areas.document),
            true,
            extend,
            action,
        ),
        Command::Vertical { back } => row_movement(
            before,
            after,
            editor,
            step(back),
            false,
            extend,
            action,
        ),
        Command::Word { back } => movement(
            before,
            after,
            editor,
            word_target(rows, glyph_rows(rows), editor.cursor, step(back)),
            extend,
            action,
        ),
        Command::Horizontal { back } => movement(
            before,
            after,
            editor,
            horizontal_target(rows, editor.cursor, step(back)),
            extend,
            action,
        ),
        Command::LineBoundary { end } => movement(
            before,
            after,
            editor,
            boundary_target(rows, editor.cursor, end),
            extend,
            action,
        ),
        Command::Backspace => edit_effect(before, after, command, editor, action),
        Command::Editor => edit_effect(before, after, command, editor, action),
        _ => switch_effect(before, after, command, editor, now, action),
    }
}

/// What a key does.
pub open spec fn key_effect(
    before: WritermApp,
    after: WritermApp,
    key: Key,
    editor: EditorView,
    now: u64,
    action: Action,
) -> bool {
    let drawn = WritermApp { needs_redraw: true, ..before };
    if before.prompt_mode is Some {
        prompt_effect(drawn, after, key, editor, now, action)
    } else {
        command_effect(
            drawn,
            after,
            meaning(key, before.source_peek, before.paragraph_indent),
            key.shift,
            editor,
            now,
            action,
        )
    }
}

fn selection_for(extend: bool, has_selection: bool) -> (select: Select)
    ensures
        select == select_for(extend, has_selection),
{
    if !extend {
        Select::Clear
    } else if has_selection {
        Select::Extend
    } else {
        Select::Start
    }
}

/// Whether a gap is a line break inside a paragraph.
pub fn is_soft_break_separator(gap: &str) -> (b: bool)
    ensures
        b == soft_break(gap@),
{
    let chars = to_chars(gap);
    proof {
        assert(chars@.subrange(0, chars@.len() as int) == chars@);
    }
    is_soft_break(&chars, 0, chars.len())
}

fn is_soft_break(chars: &Vec<char>, start: usize, end: usize) -> (b: bool)
    requires
        start <= end <= chars@.len(),
    ensures
        b == soft_break(chars@.subrange(start as int, end as int)),
{
    let ghost gap = chars@.subrange(start as int, end as int);
    let mut at: usize = start;
    if at < end && chars[at] == '\r' {
        at = at + 1;
    }
    if at >= end || chars[at] != '\n' {
        return false;
    }
    let ghost newline = at - start;
    at = at + 1;
    while at < end
        invariant
            start <= at <= end <= chars@.len(),
            gap == chars@.subrange(start as int, end as int),
            0 <= newline < at - start,
            newline == (if gap[0] == '\r' {
                1int
            } else {
                0
            }),
            forall|i: int|
                newline < i < at - start ==> #[trigger] gap[i] == ' ' || gap[i] == '\t',
        decreases end - at,
    {
        proof {
            assert(gap[at - start] == chars@[at as int]);
        }
        if chars[at] != ' ' && chars[at] != '\t' {
            return false;
        }
        at = at + 1;
    }
    true
}

impl WritermApp {
    fn go_to(&mut self, target: Option<usize>, extend: bool, editor: &EditorView) -> (action:
        Action)
        requires
            old(self).fresh(*editor),
        ensures
            movement(*old(self), *final(self), *editor, target, extend, action),
    {
        match target {
            Some(pos) => {
                self.desired_display_col = None;
                Action::MoveCursor { pos, select: selection_for(extend, editor.has_selection) }
            },
            None => Action::Nothing,
        }
    }

    fn go_to_row(
        &mut self,
        target: Option<(usize, usize)>,
        extend: bool,
        editor: &EditorView,
    ) -> (action: Action)
        requires
            old(self).fresh(*editor),
        ensures
            row_jump(*old(self), *final(self), *editor, target, extend, action),
    {
        match target {
            Some((pos, keep)) => {
                self.desired_display_col = Some(keep);
                Action::MoveCursor { pos, select: selection_for(extend, editor.has_selection) }
            },
            None => Action::Nothing,
        }
    }

    fn move_visual_rows(
        &mut self,
        delta: isize,
        extend: bool,
        clamp: bool,
        editor: &EditorView,
    ) -> (action: Action)
        requires
            old(self).coherent(*editor),
        ensures
            row_movement(
                *old(self),
                *final(self),
                *editor,
                delta as int,
                clamp,
                extend,
                action,
            ),
    {
        self.refresh_visual_cache(editor);
        let target = move_rows(
            &self.cache.visual,
            editor.cursor,
            self.desired_display_col,
            delta,
            clamp,
        );
        self.go_to_row(target, extend, editor)
    }

    fn move_visual_page(&mut self, back: bool, extend: bool, editor: &EditorView) -> (action:
        Action)
        requires
            old(self).coherent(*editor),
        ensures
            row_movement(
                *old(self),
                *final(self),
                *editor,
                step(back) * page_rows(old(self).areas.document),
                true,
                extend,
                action,
            ),
    {
        let jump: isize = if self.areas.document.height < 1 {
            1
        } else {
            self.areas.document.height as isize
        };
        let delta: isize = if back {
            -jump
        } else {
            jump
        };
        self.move_visual_rows(delta, extend, true, editor)
    }

    fn move_visual_horizontal(&mut self, delta: isize, extend: bool, editor: &EditorView) -> (action:
        Action)
        requires
            old(self).coherent(*editor),
        ensures
            movement(
                *old(self),
                *final(self),
                *editor,
                horizontal_target(
                    old(self).shown_rows(editor.text@),
                    editor.cursor,
                    delta as int,
                ),
                extend,
                action,
            ),
    {
        self.refresh_visual_cache(editor);
        let target = move_horizontal(&self.cache.visual, editor.cursor, delta);
        self.go_to(target, extend, editor)
    }

    fn move_visual_word(&mut self, delta: isize, extend: bool, editor: &EditorView) -> (action:
        Action)
        requires
            old(self).coherent(*editor),
        ensures
            movement(
                *old(self),
                *final(self),
                *editor,
                word_target(
                    old(self).shown_rows(editor.text@),
                    glyph_rows(old(self).shown_rows(editor.text@)),
                    editor.cursor,
                    delta as int,
                ),
                extend,
                action,
            ),
    {
        self.refresh_visual_cache(editor);
        let target = move_word(&self.cache.visual, editor.cursor, delta);
        self.go_to(target, extend, editor)
    }

    fn move_visual_line_boundary(&mut self, end: bool, extend: bool, editor: &EditorView) -> (
        action: Action)
        requires
            old(self).coherent(*editor),
        ensures
            movement(
                *old(self),
                *final(self),
                *editor,
                boundary_target(old(self).shown_rows(editor.text@), editor.cursor, end),
                extend,
                action,
            ),
    {
        self.refresh_visual_cache(editor);
        let target = move_line_boundary(&self.cache.visual, editor.cursor, end);
        self.go_to(target, extend, editor)
    }

    /// Where the line break starts that Backspace deletes as a whole.
    fn handle_indented_backspace(&mut self, editor: &EditorView) -> (start: Option<usize>)
        requires
            old(self).coherent(*editor),
        ensures
            final(self).fresh(*editor),
            *final(self) == old(self).with_cache(*final(self)),
            start == merge_point(old(self).shown_rows(editor.text@), *editor),
    {
        self.refresh_visual_cache(editor);
        let visual = &self.cache.visual;
        proof {
            crate::mapping::lemma_first_covering(visual@, 0, editor.cursor);
            crate::mapping::lemma_last_starting(
                visual@,
                visual@.len() as int,
                editor.cursor,
            );
        }
        if editor.has_selection {
            return None;
        }
        let (row, col) = match visual.source_to_display(editor.cursor) {
            Some(at) => at,
            None => {
                return None;
            },
        };
        let prefix: usize = visual.rows[row].prefix_width;
        if prefix == 0 || col != prefix {
            return None;
        }
        let above: usize = match visual.prev_prose_row_end(row) {
            Some(end) => end,
            None => {
                return None;
            },
        };
        if editor.cursor <= above {
            return None;
        }
        let chars = to_chars(editor.text.as_str());
        let end: usize = if editor.cursor < chars.len() {
            editor.cursor
        } else {
            chars.len()
        };
        let start: usize = if above < end {
            above
        } else {
            end
        };
        if is_soft_break(&chars, start, end) {
            Some(above)
        } else {
            None
        }
    }

    fn handle_editor_key(&mut self) -> (action: Action)
        ensures
            forwards(*old(self), *final(self), action),
    {
        self.desired_display_col = None;
        let viewport: usize = if self.areas.document.height < 1 {
            1
        } else {
            self.areas.document.height as usize
        };
        Action::EditorKey { viewport }
    }

    fn open_named(&self, name: String, editor: &EditorView) -> (action: Action)
        ensures
            opens(name@, *editor, action),
    {
        if editor.dirty {
            Action::Save(AfterSave::Open(name))
        } else {
            Action::Open(name)
        }
    }

    fn handle_prompt_key(&mut self, key: Key, editor: &EditorView, now: u64) -> (action: Action)
        ensures
            prompt_effect(*old(self), *final(self), key, *editor, now, action),
    {
        match key.code {
            KeyCode::Esc => {
                self.prompt_mode = None;
                self.prompt_buffer = String::new();
                Action::Nothing
            },
            KeyCode::Backspace => {
                let chars = to_chars(self.prompt_buffer.as_str());
                if chars.len() > 0 {
                    let shorter = from_chars(&chars, 0, chars.len() - 1);
                    proof {
                        assert(shorter@ =~= chars@.drop_last());
                    }
                    self.prompt_buffer = shorter;
                }
                Action::Nothing
            },
            KeyCode::Enter => {
                let name = markdown_filename(self.prompt_buffer.as_str());
                self.prompt_mode = None;
                self.prompt_buffer = String::new();
                match name {
                    Ok(name) => {
                        if name.as_str().unicode_len() == 0 {
                            Action::Nothing
                        } else {
                            self.open_named(name, editor)
                        }
                    },
                    Err(message) => {
                        self.notification = notify(message.as_str(), now, true);
                        Action::Nothing
                    },
                }
            },
            KeyCode::Char(c) => {
                if !key.ctrl {
                    self.prompt_buffer.push(c);
                }
                Action::Nothing
            },
            _ => Action::Nothing,
        }
    }

    fn toggle_peek(&mut self, editor: &EditorView, now: u64)
        requires
            old(self).coherent(*editor),
        ensures
            switch_effect(
                *old(self),
                *final(self),
                Command::TogglePeek,
                *editor,
                now,
                Action::Nothing,
            ),
    {
        self.source_peek = !self.source_peek;
        self.desired_display_col = None;
        self.ensure_cursor_visible(editor);
        self.notification = notify(
            if self.source_peek {
                "Source peek on"
            } else {
                "Rendered editing"
            },
            now,
            false,
        );
    }

    fn run_switch(&mut self, command: Command, editor: &EditorView, now: u64) -> (action: Action)
        requires
            old(self).coherent(*editor),
        ensures
            switch_effect(*old(self), *final(self), command, *editor, now, action),
            final(self).coherent(*editor),
    {
        match command {
            Command::Quit => {
                if editor.dirty {
                    return Action::Save(AfterSave::Quit);
                }
                self.running = false;
            },
            Command::Save => {
                return Action::Save(AfterSave::Nothing);
            },
            Command::TogglePeek => {
                self.toggle_peek(editor, now);
            },
            Command::ToggleFiles => {
                self.show_files = !self.show_files;
            },
            Command::ToggleHeadings => {
                self.show_headings = !self.show_headings;
            },
            Command::ToggleIndent => {
                self.paragraph_indent = !self.paragraph_indent;
                self.notification = notify(
                    if self.paragraph_indent {
                        "Paragraph indent on"
                    } else {
                        "Paragraph indent off"
                    },
                    now,
                    false,
                );
            },
            Command::NewFile => {
                self.prompt_mode = Some(PromptMode::NewFile);
                self.prompt_buffer = String::new();
            },
            _ => {},
        }
        Action::Nothing
    }

    fn run_edit(&mut self, command: Command, editor: &EditorView) -> (action: Action)
        requires
            old(self).coherent(*editor),
        ensures
            edit_effect(*old(self), *final(self), command, *editor, action),
            final(self).coherent(*editor),
    {
        if command == Command::Backspace {
            if let Some(start) = self.handle_indented_backspace(editor) {
                return Action::Delete { start, len: editor.cursor - start };
            }
        }
        self.handle_editor_key()
    }

    fn run_command(&mut self, command: Command, extend: bool, editor: &EditorView, now: u64) -> (
        action: Action)
        requires
            old(self).coherent(*editor),
        ensures
            command_effect(*old(self), *final(self), command, extend, *editor, now, action),
            final(self).coherent(*editor),
    {
        match command {
            Command::Page { back } => self.move_visual_page(back, extend, editor),
            Command::Vertical { back } => {
                let delta: isize = if back {
                    -1
                } else {
                    1
                };
                self.move_visual_rows(delta, extend, false, editor)
            },
            Command::Word { back } => {
                let delta: isize = if back {
                    -1
                } else {
                    1
                };
                self.move_visual_word(delta, extend, editor)
            },
            Command::Horizontal { back } => {
                let delta: isize = if back {
                    -1
                } else {
                    1
                };
                self.move_visual_horizontal(delta, extend, editor)
            },
            Command::LineBoundary { end } => self.move_visual_line_boundary(end, extend, editor),
            Command::Backspace => self.run_edit(command, editor),
            Command::Editor => self.run_edit(command, editor),
            _ => self.run_switch(command, editor, now),
        }
    }

    /// Handles a key.
    pub fn handle_key(&mut self, key: Key, editor: &EditorView, now: u64) -> (action: Action)
        requires
            old(self).coherent(*editor),
        ensures
            key_effect(*old(self), *final(self), key, *editor, now, action),
            final(self).coherent(*editor),
    {
        self.needs_redraw = true;
        if self.prompt_mode.is_some() {
            return self.handle_prompt_key(key, editor, now);
        }
        let command = command_for(key, self.source_peek, self.paragraph_indent);
        self.run_command(command, key.shift, editor, now)
    }
}

// ---------------------------------------------------------------------------
// Laws
// ---------------------------------------------------------------------------
/// A newline with spaces and tabs behind it is a line break inside a paragraph,
/// with or without a carriage return before it. A second newline makes it the
/// end of a paragraph, and any other character makes it text.
pub proof fn law_one_newline_breaks_inside_a_paragraph(blanks: Seq<char>, c: char)
    requires
        forall|i: int| 0 <= i < blanks.len() ==> #[trigger] blanks[i] == ' ' || blanks[i] == '\t',
    ensures
        soft_break(seq!['\n'] + blanks),
        soft_break(seq!['\r', '\n'] + blanks),
        !soft_break(blanks),
        c != ' ' && c != '\t' ==> !soft_break(seq!['\n'] + blanks + seq![c]) && !soft_break(
            seq!['\r', '\n'] + blanks + seq![c],
        ),
{
    let plain = seq!['\n'] + blanks;
    let with_return = seq!['\r', '\n'] + blanks;
    assert(plain[0] == '\n');
    assert(with_return[0] == '\r' && with_return[1] == '\n');
    assert forall|i: int| 0 < i < plain.len() implies #[trigger] plain[i] == ' ' || plain[i]
        == '\t' by {
        assert(plain[i] == blanks[i - 1]);
    }
    assert forall|i: int| 1 < i < with_return.len() implies #[trigger] with_return[i] == ' '
        || with_return[i] == '\t' by {
        assert(with_return[i] == blanks[i - 2]);
    }
    if blanks.len() > 0 {
        assert(blanks[0] == ' ' || blanks[0] == '\t');
    }
    let more = plain.push(c);
    assert(seq!['\n'] + blanks + seq![c] =~= more);
    assert(more[0] == '\n' && more[plain.len() as int] == c);
    let longer = with_return.push(c);
    assert(seq!['\r', '\n'] + blanks + seq![c] =~= longer);
    assert(longer[0] == '\r' && longer[with_return.len() as int] == c);
}

/// Raw source shows the text, whatever was rendered from it and whether or not
/// there are first-line indents; rendered text without them shows what was
/// rendered, whatever the text. Where there is no room for indents there are
/// none.
pub proof fn law_views_show_one_side(
    text: Seq<char>,
    other_text: Seq<char>,
    rendered: RenderedDocument,
    other: RenderedDocument,
    style: Style,
    width: usize,
)
    ensures
        rows_at(text, rendered, style, width, true, true) == rows_at(
            text,
            other,
            style,
            width,
            true,
            false,
        ),
        rows_at(text, rendered, style, width, false, false) == rows_at(
            other_text,
            rendered,
            style,
            width,
            false,
            false,
        ),
        width < 3 ==> rows_at(text, rendered, style, width, false, true) == rows_at(
            text,
            rendered,
            style,
            width,
            false,
            false,
        ),
{
}

/// With first-line indents the document is wrapped to two columns less, and every
/// row is one of those rows, or has two columns more.
pub proof fn law_indents_take_two_columns(
    text: Seq<char>,
    rendered: RenderedDocument,
    style: Style,
    width: usize,
    i: int,
)
    requires
        width >= 3,
        0 <= i < rows_at(text, rendered, style, width, false, true).len(),
    ensures
        ({
            let plain = rows_at(text, rendered, style, (width - 2) as usize, false, false);
            let rows = rows_at(text, rendered, style, width, false, true);
            &&& rows.len() == plain.len()
            &&& rows[i] == plain[i] || (rows[i].col_sources.len() == plain[i].col_sources.len() + 2
                && rows[i].col_sources.skip(2) == plain[i].col_sources)
        }),
{
    let plain = rows_at(text, rendered, style, (width - 2) as usize, false, false);
    let rows = rows_at(text, rendered, style, width, false, true);
    if rows[i] != plain[i] {
        assert(rows[i].col_sources.skip(2) =~= plain[i].col_sources);
    }
}

/// Raw source is wrapped to the columns of the text area, and so is rendered text
/// without indents.
pub proof fn law_rows_are_wrapped_to_the_text_area(app: WritermApp, text: Seq<char>)
    ensures
        app.source_peek ==> app.shown_rows(text) == document_rows(
            source_lines(text, in_color(app.palette.text_primary)),
            crate::layout::text_area(app.areas.document, app.gutter()).width as usize,
            WrapMode::Source,
        ),
        !app.source_peek && !app.paragraph_indent ==> app.shown_rows(text) == document_rows(
            document_measure(app.rendered),
            crate::layout::text_area(app.areas.document, app.gutter()).width as usize,
            WrapMode::Rendered,
        ),
{
}

} // verus!
