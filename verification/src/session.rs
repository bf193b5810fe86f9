//! The application at work: mouse and ticks, saving and opening, and what is
//! read off the state.

use crate::app::{
    key_effect, moves_to, notified, opens, Action, AfterSave, Areas, EditorView, Event, Key, Mouse,
    MouseKind, Notification, Select, VisualCache, WordCache, WritermApp,
};
use crate::config::Config;
use crate::headings::{HeadingVisualLine, OutlineEntry};
use crate::layout::{
    block_width, body_parts, clamp_scroll, clamped, files_parts, inside, no_area, point_in,
    scroll_by, scrolled, sidebar_inside, split_body, split_files_panel, Body, Rect, Sidebars,
    MIN_DOCUMENT_WIDTH, SIDEBAR_PARTS, SIDEBAR_SEP_WIDTH,
};
use crate::metrics::{
    build_word_starts, compute, lists_words, paragraphs, reading_seconds, sentences, words,
    words_before, DocumentMetrics,
};
use crate::panels::Palette;
use crate::paths::{is_markdown_path, markdown_path};
use crate::render::RenderedDocument;
use crate::text::{byte_offset, views};
use crate::visual::{source_of, VisualDocument};
use crate::workspace::{
    browser_order, sort_writerm_entries, EntryModel, WorkspaceEntry, WorkspaceEntryKind,
};
use vstd::prelude::*;

verus! {

// ---------------------------------------------------------------------------
// Starting
// ---------------------------------------------------------------------------
/// A file as it was opened.
#[derive(Debug)]
pub struct OpenedFile {
    pub path: String,
    /// The folder of the file.
    pub folder: String,
    pub rendered: RenderedDocument,
    pub version: u64,
    pub outline: Vec<OutlineEntry>,
    /// The entries of the folder.
    pub entries: Vec<WorkspaceEntry>,
}

/// Nothing is drawn yet.
pub open spec fn no_areas() -> Areas {
    Areas {
        headings: no_area(),
        document: no_area(),
        files: no_area(),
        metrics: no_area(),
        headings_control: no_area(),
        files_control: no_area(),
    }
}

impl WritermApp {
    /// The state at the start, with `file` open.
    pub fn with_config(config: Config, palette: Palette, file: OpenedFile) -> (app: WritermApp)
        ensures
            app.config == config,
            app.palette == palette,
            app.cwd == file.folder,
            app.current_file_path == file.path,
            app.rendered == file.rendered,
            app.rendered_version == Some(file.version),
            app.cache.version is None,
            app.cache.visual@.len() == 0,
            app.outline_entries == file.outline,
            browser_order(
                views(file.entries@),
                config.workspace.markdown_first,
                views(app.workspace_entries@),
            ),
            app.workspace_selection == 0,
            app.workspace_scroll == 0,
            app.workspace_viewport_rows == 1,
            app.show_headings,
            app.show_files,
            app.source_peek == !markdown_path(file.path@),
            app.paragraph_indent == config.layout.paragraph_indent,
            app.document_scroll == 0,
            app.heading_scroll == 0,
            app.prompt_mode is None,
            app.prompt_buffer@.len() == 0,
            app.notification is None,
            app.running,
            app.areas == no_areas(),
            !app.drag_selecting,
            app.desired_display_col is None,
            app.last_edit is None,
            app.needs_redraw,
            app.word_cache.version is None,
            forall|editor: EditorView| #[trigger] app.coherent(editor),
    {
        let source_peek = !is_markdown_path(file.path.as_str());
        let paragraph_indent = config.layout.paragraph_indent;
        let workspace_entries = sort_writerm_entries(
            file.entries,
            config.workspace.markdown_first,
        );
        WritermApp {
            config,
            palette,
            cwd: file.folder,
            current_file_path: file.path,
            rendered: file.rendered,
            rendered_version: Some(file.version),
            cache: VisualCache {
                visual: VisualDocument { rows: Vec::new() },
                version: None,
                width: 0,
                source_peek: !source_peek,
                paragraph_indent,
            },
            outline_entries: file.outline,
            workspace_entries,
            workspace_selection: 0,
            workspace_scroll: 0,
            workspace_viewport_rows: 1,
            show_headings: true,
            show_files: true,
            source_peek,
            paragraph_indent,
            document_scroll: 0,
            heading_scroll: 0,
            prompt_mode: None,
            prompt_buffer: String::new(),
            notification: None,
            running: true,
            areas: Areas {
                headings: Rect::default(),
                document: Rect::default(),
                files: Rect::default(),
                metrics: Rect::default(),
                headings_control: Rect::default(),
                files_control: Rect::default(),
            },
            drag_selecting: false,
            desired_display_col: None,
            last_edit: None,
            needs_redraw: true,
            word_cache: WordCache { version: None, starts: Vec::new() },
        }
    }
}

// ---------------------------------------------------------------------------
// Ticks
// ---------------------------------------------------------------------------
/// The nanoseconds for which a notification is shown.
pub const NOTIFICATION_TIME: u64 = 3_000_000_000;

/// The nanoseconds of a millisecond.
pub const MILLISECOND: u64 = 1_000_000;

/// The time from `then` to `now`.
pub open spec fn elapsed(now: u64, then: u64) -> int {
    if now < then {
        0
    } else {
        now - then
    }
}

/// A notification has been shown long enough.
pub open spec fn expired(notification: Option<Notification>, now: u64) -> bool {
    match notification {
        Some(n) => elapsed(now, n.at) > NOTIFICATION_TIME,
        None => false,
    }
}

/// A changed document has rested long enough to be saved by itself.
pub open spec fn autosave_due(app: WritermApp, editor: EditorView, now: u64) -> bool {
    match app.last_edit {
        Some(edit) => app.config.autosave.enabled && editor.dirty && elapsed(now, edit)
            / (MILLISECOND as int) >= app.config.autosave.delay_ms,
        None => false,
    }
}

/// What a tick does.
pub open spec fn tick_effect(
    before: WritermApp,
    after: WritermApp,
    editor: EditorView,
    now: u64,
    action: Action,
) -> bool {
    &&& after == (if expired(before.notification, now) {
        WritermApp { notification: None, needs_redraw: true, ..before }
    } else {
        before
    })
    &&& action == (if autosave_due(before, editor, now) {
        Action::Save(AfterSave::Autosave)
    } else {
        Action::Nothing
    })
}

fn elapsed_time(now: u64, then: u64) -> (time: u64)
    ensures
        time == elapsed(now, then),
{
    if now < then {
        0
    } else {
        now - then
    }
}

/// What follows the outcome of saving.
pub open spec fn save_effect(
    before: WritermApp,
    after: WritermApp,
    then: AfterSave,
    outcome: Result<(), String>,
    now: u64,
    action: Action,
) -> bool {
    match outcome {
        Ok(_) => {
            &&& notified(after.notification, "Saved"@, now, false)
            &&& after == (WritermApp {
                last_edit: None,
                notification: after.notification,
                needs_redraw: true,
                running: before.running && then != AfterSave::Quit,
                ..before
            })
            &&& action == (match then {
                AfterSave::Open(name) => Action::Open(name),
                _ => Action::Nothing,
            })
        },
        Err(error) => {
            &&& notified(after.notification, "Save failed: "@ + error@, now, true)
            &&& after == (WritermApp {
                last_edit: if then == AfterSave::Autosave {
                    Some(now)
                } else {
                    before.last_edit
                },
                notification: after.notification,
                needs_redraw: true,
                ..before
            })
            &&& action == Action::Nothing
        },
    }
}

/// What follows what the editor did with a key.
pub open spec fn edit_effect(
    before: WritermApp,
    after: WritermApp,
    changed: bool,
    save: bool,
    now: u64,
    action: Action,
) -> bool {
    &&& after == (if changed {
        WritermApp { last_edit: Some(now), ..before }
    } else {
        before
    })
    &&& action == (if save {
        Action::Save(AfterSave::Nothing)
    } else {
        Action::Nothing
    })
}

/// The state once characters were deleted.
pub open spec fn deleted(before: WritermApp, now: u64) -> WritermApp {
    WritermApp { last_edit: Some(now), desired_display_col: None, ..before }
}

impl WritermApp {
    /// Handles a tick of the clock.
    pub fn handle_tick(&mut self, editor: &EditorView, now: u64) -> (action: Action)
        ensures
            tick_effect(*old(self), *final(self), *editor, now, action),
    {
        let old_message = match &self.notification {
            Some(n) => elapsed_time(now, n.at) > NOTIFICATION_TIME,
            None => false,
        };
        if old_message {
            self.notification = None;
            self.needs_redraw = true;
        }
        if let Some(edit) = self.last_edit {
            if self.config.autosave.enabled && editor.dirty && elapsed_time(now, edit)
                / MILLISECOND >= self.config.autosave.delay_ms {
                return Action::Save(AfterSave::Autosave);
            }
        }
        Action::Nothing
    }

    /// Takes note of the outcome of saving.
    pub fn save_now(&mut self, then: AfterSave, outcome: Result<(), String>, now: u64) -> (action:
        Action)
        ensures
            save_effect(*old(self), *final(self), then, outcome, now, action),
    {
        self.needs_redraw = true;
        match outcome {
            Ok(_) => {
                self.last_edit = None;
                self.notification = Some(
                    Notification { text: "Saved".to_string(), at: now, is_error: false },
                );
                match then {
                    AfterSave::Quit => {
                        self.running = false;
                        Action::Nothing
                    },
                    AfterSave::Open(name) => Action::Open(name),
                    _ => Action::Nothing,
                }
            },
            Err(error) => {
                let mut text = "Save failed: ".to_string();
                text.append(error.as_str());
                self.notification = Some(Notification { text, at: now, is_error: true });
                if let AfterSave::Autosave = then {
                    self.last_edit = Some(now);
                }
                Action::Nothing
            },
        }
    }

    /// Takes note of what the editor did with a key: whether the text changed,
    /// and whether the key asks for saving.
    pub fn editor_key_done(&mut self, changed: bool, save: bool, now: u64) -> (action: Action)
        ensures
            edit_effect(*old(self), *final(self), changed, save, now, action),
    {
        if changed {
            self.last_edit = Some(now);
        }
        if save {
            Action::Save(AfterSave::Nothing)
        } else {
            Action::Nothing
        }
    }

    /// Takes note of a deletion.
    pub fn deletion_done(&mut self, now: u64)
        ensures
            *final(self) == deleted(*old(self), now),
    {
        self.last_edit = Some(now);
        self.desired_display_col = None;
    }
}

// ---------------------------------------------------------------------------
// Opening
// ---------------------------------------------------------------------------
/// The selection of a list that now has `len` entries.
pub open spec fn kept_selection(selection: usize, len: nat) -> usize {
    if len == 0 {
        0
    } else if selection < len {
        selection
    } else {
        (len - 1) as usize
    }
}

/// A selection stays where it is while its entry exists, and else goes to the
/// last one.
pub proof fn law_selections_stay_in_the_list(selection: usize, len: nat)
    requires
        0 < len <= usize::MAX,
    ensures
        kept_selection(selection, len) < len,
        selection < len ==> kept_selection(selection, len) == selection,
        selection >= len ==> kept_selection(selection, len) + 1 == len,
{
}

/// The workspace is refreshed with the given entries.
pub open spec fn workspace_refreshed(
    before: WritermApp,
    after: WritermApp,
    entries: Seq<EntryModel>,
) -> bool {
    &&& browser_order(
        entries,
        before.config.workspace.markdown_first,
        views(after.workspace_entries@),
    )
    &&& after == (WritermApp {
        workspace_entries: after.workspace_entries,
        workspace_selection: kept_selection(
            before.workspace_selection,
            after.workspace_entries@.len(),
        ),
        workspace_scroll: 0,
        ..before
    })
}

/// A file was opened: it is shown from its start, rendered if it is Markdown and
/// else raw, and the workspace is its folder. The switches stay as they are.
pub open spec fn opening_effect(
    before: WritermApp,
    after: WritermApp,
    file: OpenedFile,
    now: u64,
) -> bool {
    &&& browser_order(
        views(file.entries@),
        before.config.workspace.markdown_first,
        views(after.workspace_entries@),
    )
    &&& notified(after.notification, "Opened"@, now, false)
    &&& after.cache.version is None
    &&& after.word_cache.version is None
    &&& after.word_cache.starts@.len() == 0
    &&& after == (WritermApp {
        cwd: file.folder,
        current_file_path: file.path,
        rendered: file.rendered,
        rendered_version: Some(file.version),
        cache: after.cache,
        outline_entries: file.outline,
        workspace_entries: after.workspace_entries,
        workspace_selection: kept_selection(
            before.workspace_selection,
            after.workspace_entries@.len(),
        ),
        workspace_scroll: 0,
        source_peek: !markdown_path(file.path@),
        document_scroll: 0,
        heading_scroll: 0,
        desired_display_col: None,
        notification: after.notification,
        word_cache: after.word_cache,
        ..before
    })
}

/// A refreshed workspace is listed from its start, with one of its entries
/// selected: the one at the old place where there is one. Nothing else changes.
pub proof fn law_refreshing_keeps_the_selection(
    before: WritermApp,
    after: WritermApp,
    entries: Seq<EntryModel>,
)
    requires
        workspace_refreshed(before, after, entries),
    ensures
        after.workspace_scroll == 0,
        after.workspace_entries@.len() == entries.len(),
        before.workspace_selection < entries.len() ==> after.workspace_selection
            == before.workspace_selection,
        entries.len() > 0 ==> after.workspace_selection < entries.len(),
        after.current_file_path == before.current_file_path,
        after.document_scroll == before.document_scroll,
        after.cwd == before.cwd,
{
    let sorted = views(after.workspace_entries@);
    if entries.len() > 0 {
        let at = crate::workspace::law_browser_lists_every_entry(
            entries,
            before.config.workspace.markdown_first,
            sorted,
            0,
        );
    }
}

/// A version of the text was rendered: the rows that were made of the one before
/// are given up.
pub open spec fn render_effect(
    before: WritermApp,
    after: WritermApp,
    rendered: RenderedDocument,
    version: u64,
) -> bool {
    &&& after.cache.version is None
    &&& after == (WritermApp {
        rendered,
        rendered_version: Some(version),
        cache: after.cache,
        ..before
    })
}

/// Once a version of the text was rendered, that version needs no rendering and
/// every other one does; what was rendered is what is shown, and no row of what
/// was shown before is.
pub proof fn law_each_version_is_rendered_once(
    before: WritermApp,
    after: WritermApp,
    rendered: RenderedDocument,
    version: u64,
    other: u64,
    editor: EditorView,
)
    requires
        render_effect(before, after, rendered, version),
    ensures
        after.stale(other) <==> other != version,
        after.rendered == rendered,
        after.coherent(editor),
        after.document_scroll == before.document_scroll,
        after.source_peek == before.source_peek,
{
}

impl WritermApp {
    /// Takes the entries of the current folder.
    pub fn refresh_workspace(&mut self, entries: Vec<WorkspaceEntry>)
        ensures
            workspace_refreshed(*old(self), *final(self), views(entries@)),
    {
        self.workspace_entries = sort_writerm_entries(
            entries,
            self.config.workspace.markdown_first,
        );
        let n: usize = self.workspace_entries.len();
        if n == 0 {
            self.workspace_selection = 0;
        } else if self.workspace_selection >= n {
            self.workspace_selection = n - 1;
        }
        self.workspace_scroll = 0;
    }

    /// Goes to a folder with the given entries.
    pub fn change_cwd(&mut self, folder: String, entries: Vec<WorkspaceEntry>)
        ensures
            workspace_refreshed(
                WritermApp { cwd: folder, ..*old(self) },
                *final(self),
                views(entries@),
            ),
    {
        self.cwd = folder;
        self.refresh_workspace(entries);
    }

    /// Takes the outline of the document.
    pub fn refresh_document_metadata(&mut self, outline: Vec<OutlineEntry>)
        ensures
            *final(self) == (WritermApp { outline_entries: outline, ..*old(self) }),
    {
        self.outline_entries = outline;
    }

    /// What was rendered is not that of a version of the text.
    pub open spec fn stale(self, version: u64) -> bool {
        self.rendered_version != Some(version)
    }

    /// Whether the document has to be rendered for a version of the text.
    pub fn needs_render(&self, version: u64) -> (b: bool)
        ensures
            b == self.stale(version),
    {
        match self.rendered_version {
            Some(v) => v != version,
            None => true,
        }
    }

    /// Takes the rendered document of a version of the text.
    pub fn refresh_render_cache(&mut self, rendered: RenderedDocument, version: u64)
        ensures
            render_effect(*old(self), *final(self), rendered, version),
            forall|editor: EditorView| #[trigger] final(self).coherent(editor),
    {
        self.rendered = rendered;
        self.rendered_version = Some(version);
        self.cache.version = None;
    }

    /// Takes a file as it was opened.
    pub fn file_opened(&mut self, file: OpenedFile, now: u64)
        ensures
            opening_effect(*old(self), *final(self), file, now),
            forall|editor: EditorView| #[trigger] final(self).coherent(editor),
    {
        self.source_peek = !is_markdown_path(file.path.as_str());
        self.cwd = file.folder;
        self.current_file_path = file.path;
        self.word_cache = WordCache { version: None, starts: Vec::new() };
        self.document_scroll = 0;
        self.heading_scroll = 0;
        self.desired_display_col = None;
        self.refresh_workspace(file.entries);
        self.refresh_document_metadata(file.outline);
        self.refresh_render_cache(file.rendered, file.version);
        self.notification = Some(
            Notification { text: "Opened".to_string(), at: now, is_error: false },
        );
    }

    /// Takes note that a file could not be created.
    pub fn create_failed(&mut self, error: &str, now: u64)
        ensures
            notified(final(self).notification, "Create failed: "@ + error@, now, true),
            *final(self) == (WritermApp {
                notification: final(self).notification,
                ..*old(self)
            }),
    {
        let mut text = "Create failed: ".to_string();
        text.append(error);
        self.notification = Some(Notification { text, at: now, is_error: true });
    }

    /// Takes note that a file could not be read.
    pub fn open_failed(&mut self, path: &str, now: u64)
        ensures
            notified(final(self).notification, "Cannot open "@ + path@, now, true),
            *final(self) == (WritermApp {
                notification: final(self).notification,
                ..*old(self)
            }),
    {
        let mut text = "Cannot open ".to_string();
        text.append(path);
        self.notification = Some(Notification { text, at: now, is_error: true });
    }
}

// ---------------------------------------------------------------------------
// The mouse
// ---------------------------------------------------------------------------
/// `a - b`, or 0.
pub open spec fn less(a: int, b: int) -> int {
    if a < b {
        0
    } else {
        a - b
    }
}

/// The source character at a cell of the screen, or where the cursor is.
pub open spec fn clicked_char(app: WritermApp, editor: EditorView, col: u16, row: u16) -> usize {
    let layout = app.gutter();
    let text_col = less(
        less(col as int, app.areas.document.x as int),
        layout.gutter_cells + layout.blank_after,
    );
    let text_row = app.document_scroll + less(row as int, app.areas.document.y as int);
    match source_of(app.shown_rows(editor.text@), text_row, text_col) {
        Some(pos) => pos,
        None => editor.cursor,
    }
}

/// A click into the document: the cursor is to go there.
pub open spec fn document_click(
    before: WritermApp,
    after: WritermApp,
    editor: EditorView,
    col: u16,
    row: u16,
    extend: bool,
    action: Action,
) -> bool {
    &&& after.fresh(editor)
    &&& moves_to(Some(clicked_char(before, editor, col, row)), extend, editor, action)
    &&& after == (WritermApp { desired_display_col: None, ..before.with_cache(after) })
}

/// The entry in a row of the file browser.
pub open spec fn clicked_entry(app: WritermApp, row: u16) -> int {
    app.workspace_scroll + less(row as int, app.areas.files.y as int)
}

/// A click on a row of the file browser: its entry is selected and opened.
pub open spec fn file_click(
    before: WritermApp,
    after: WritermApp,
    editor: EditorView,
    row: u16,
    action: Action,
) -> bool {
    let idx = clicked_entry(before, row);
    if idx >= before.workspace_entries@.len() {
        after == before && action == Action::Nothing
    } else {
        let entry = before.workspace_entries@[idx]@;
        &&& after == (WritermApp { workspace_selection: idx as usize, ..before })
        &&& match entry.kind {
            WorkspaceEntryKind::Parent => action == Action::ParentFolder,
            WorkspaceEntryKind::Directory => match action {
                Action::Folder(name) => name@ == entry.name,
                _ => false,
            },
            WorkspaceEntryKind::File => opens(entry.name, editor, action),
        }
    }
}

/// The document is scrolled by `delta` rows.
pub open spec fn scroll_effect(
    before: WritermApp,
    after: WritermApp,
    editor: EditorView,
    delta: int,
) -> bool {
    &&& after.fresh(editor)
    &&& after.document_scroll == clamped(
        scrolled(before.document_scroll as int, delta),
        before.shown_rows(editor.text@).len() as int,
        before.areas.document.height as int,
    )
    &&& after == (WritermApp {
        desired_display_col: None,
        document_scroll: after.document_scroll,
        ..before.with_cache(after)
    })
}

/// The rows that a turn of the wheel scrolls.
pub const WHEEL_ROWS: isize = 3;

/// What pressing the left button does, outside a prompt.
pub open spec fn press_effect(
    before: WritermApp,
    after: WritermApp,
    col: u16,
    row: u16,
    editor: EditorView,
    action: Action,
) -> bool {
    let (x, y) = (col as int, row as int);
    if before.areas.headings_control.holds(x, y) {
        after == (WritermApp { show_headings: !before.show_headings, ..before }) && action
            == Action::Nothing
    } else if before.areas.files_control.holds(x, y) {
        after == (WritermApp { show_files: !before.show_files, ..before }) && action
            == Action::Nothing
    } else if before.areas.headings.holds(x, y) {
        after == before && action == (Action::ClickHeading { row })
    } else if before.areas.files.holds(x, y) {
        file_click(before, after, editor, row, action)
    } else if before.areas.document.holds(x, y) {
        document_click(
            WritermApp { drag_selecting: true, ..before },
            after,
            editor,
            col,
            row,
            false,
            action,
        )
    } else {
        after == before && action == Action::Nothing
    }
}

/// What the mouse does.
pub open spec fn mouse_effect(
    before: WritermApp,
    after: WritermApp,
    mouse: Mouse,
    editor: EditorView,
    action: Action,
) -> bool {
    match mouse.kind {
        MouseKind::DownLeft => if before.prompt_mode is Some {
            after == before && action == Action::Nothing
        } else {
            press_effect(before, after, mouse.column, mouse.row, editor, action)
        },
        MouseKind::DragLeft => if before.drag_selecting {
            document_click(before, after, editor, mouse.column, mouse.row, true, action)
        } else {
            after == before && action == Action::Nothing
        },
        MouseKind::UpLeft => {
            after == (WritermApp { drag_selecting: false, ..before }) && action == Action::Nothing
        },
        MouseKind::ScrollUp => {
            scroll_effect(before, after, editor, -(WHEEL_ROWS as int)) && action == Action::Nothing
        },
        MouseKind::ScrollDown => {
            scroll_effect(before, after, editor, WHEEL_ROWS as int) && action == Action::Nothing
        },
        MouseKind::Other => after == before && action == Action::Nothing,
    }
}

/// What an event does. The mouse can be switched off.
pub open spec fn event_effect(
    before: WritermApp,
    after: WritermApp,
    event: Event,
    editor: EditorView,
    now: u64,
    action: Action,
) -> bool {
    match event {
        Event::Key(key) => key_effect(before, after, key, editor, now, action),
        Event::Mouse(mouse) => if before.config.ui.mouse {
            mouse_effect(
                WritermApp { needs_redraw: true, ..before },
                after,
                mouse,
                editor,
                action,
            )
        } else {
            after == before && action == Action::Nothing
        },
        Event::Resize => {
            after == (WritermApp { needs_redraw: true, ..before }) && action == Action::Nothing
        },
        Event::Tick => tick_effect(before, after, editor, now, action),
    }
}

impl WritermApp {
    fn click_document(&mut self, col: u16, row: u16, extend: bool, editor: &EditorView) -> (action:
        Action)
        requires
            old(self).coherent(*editor),
        ensures
            document_click(*old(self), *final(self), *editor, col, row, extend, action),
    {
        self.refresh_visual_cache(editor);
        let layout = self.heading_gutter_layout();
        let area = self.areas.document;
        let down: usize = row.saturating_sub(area.y) as usize;
        let across: usize = col.saturating_sub(area.x) as usize;
        let gutter: usize = layout.gutter_cells as usize + layout.blank_after as usize;
        let text_col: usize = if across < gutter {
            0
        } else {
            across - gutter
        };
        let found = if down <= usize::MAX - self.document_scroll {
            self.cache.visual.display_to_source(self.document_scroll + down, text_col)
        } else {
            proof {
                assert(self.cache.visual.rows.len() <= usize::MAX);
            }
            None
        };
        let pos: usize = match found {
            Some(pos) => pos,
            None => editor.cursor,
        };
        self.desired_display_col = None;
        let select = if !extend {
            Select::Clear
        } else if editor.has_selection {
            Select::Extend
        } else {
            Select::Start
        };
        Action::MoveCursor { pos, select }
    }

    fn click_file(&mut self, row: u16, editor: &EditorView) -> (action: Action)
        ensures
            file_click(*old(self), *final(self), *editor, row, action),
    {
        let idx: usize = self.workspace_scroll as usize + row.saturating_sub(
            self.areas.files.y,
        ) as usize;
        if idx >= self.workspace_entries.len() {
            return Action::Nothing;
        }
        self.workspace_selection = idx;
        let name = self.workspace_entries[idx].name.clone();
        match self.workspace_entries[idx].kind {
            WorkspaceEntryKind::Parent => Action::ParentFolder,
            WorkspaceEntryKind::Directory => Action::Folder(name),
            WorkspaceEntryKind::File => if editor.dirty {
                Action::Save(AfterSave::Open(name))
            } else {
                Action::Open(name)
            },
        }
    }

    fn scroll_document(&mut self, delta: isize, editor: &EditorView)
        requires
            old(self).coherent(*editor),
        ensures
            scroll_effect(*old(self), *final(self), *editor, delta as int),
    {
        self.desired_display_col = None;
        self.refresh_visual_cache(editor);
        self.document_scroll = scroll_by(
            self.document_scroll,
            delta,
            self.cache.visual.rows.len(),
            self.areas.document.height,
        );
    }

    fn press(&mut self, col: u16, row: u16, editor: &EditorView) -> (action: Action)
        requires
            old(self).coherent(*editor),
        ensures
            press_effect(*old(self), *final(self), col, row, *editor, action),
            final(self).coherent(*editor),
    {
        if point_in(self.areas.headings_control, col, row) {
            self.show_headings = !self.show_headings;
            Action::Nothing
        } else if point_in(self.areas.files_control, col, row) {
            self.show_files = !self.show_files;
            Action::Nothing
        } else if point_in(self.areas.headings, col, row) {
            Action::ClickHeading { row }
        } else if point_in(self.areas.files, col, row) {
            self.click_file(row, editor)
        } else if point_in(self.areas.document, col, row) {
            self.drag_selecting = true;
            self.click_document(col, row, false, editor)
        } else {
            Action::Nothing
        }
    }

    /// Handles the mouse.
    pub fn handle_mouse(&mut self, mouse: Mouse, editor: &EditorView) -> (action: Action)
        requires
            old(self).coherent(*editor),
        ensures
            mouse_effect(*old(self), *final(self), mouse, *editor, action),
            final(self).coherent(*editor),
    {
        match mouse.kind {
            MouseKind::DownLeft => {
                if self.prompt_mode.is_some() {
                    return Action::Nothing;
                }
                return self.press(mouse.column, mouse.row, editor);
            },
            MouseKind::DragLeft => {
                if self.drag_selecting {
                    return self.click_document(mouse.column, mouse.row, true, editor);
                }
            },
            MouseKind::UpLeft => {
                self.drag_selecting = false;
            },
            MouseKind::ScrollUp => {
                self.scroll_document(-WHEEL_ROWS, editor);
            },
            MouseKind::ScrollDown => {
                self.scroll_document(WHEEL_ROWS, editor);
            },
            MouseKind::Other => {},
        }
        Action::Nothing
    }

    /// Handles an event.
    pub fn handle_event(&mut self, event: Event, editor: &EditorView, now: u64) -> (action: Action)
        requires
            old(self).coherent(*editor),
        ensures
            event_effect(*old(self), *final(self), event, *editor, now, action),
            final(self).coherent(*editor),
    {
        match event {
            Event::Key(key) => self.handle_key(key, editor, now),
            Event::Mouse(mouse) => {
                if !self.config.ui.mouse {
                    return Action::Nothing;
                }
                self.needs_redraw = true;
                self.handle_mouse(mouse, editor)
            },
            Event::Resize => {
                self.needs_redraw = true;
                Action::Nothing
            },
            Event::Tick => self.handle_tick(editor, now),
        }
    }

    /// The source line of the heading that is shown in a row of the screen, for
    /// the rows of the headings panel.
    pub open spec fn heading_at(self, rows: Seq<HeadingVisualLine>, row: u16) -> Option<usize> {
        let at = self.heading_scroll + less(row as int, self.areas.headings.y as int);
        if at < rows.len() {
            Some(self.outline_entries@[rows[at].entry_idx as int].line)
        } else {
            None
        }
    }

    /// The source line of the heading that is shown in a row of the screen, for
    /// the rows of the headings panel.
    pub fn clicked_heading(&self, rows: &Vec<HeadingVisualLine>, row: u16) -> (line: Option<usize>)
        requires
            forall|i: int|
                0 <= i < rows@.len() ==> (#[trigger] rows@[i]).entry_idx
                    < self.outline_entries@.len(),
        ensures
            line == self.heading_at(rows@, row),
    {
        let at: usize = self.heading_scroll as usize + row.saturating_sub(
            self.areas.headings.y,
        ) as usize;
        if at < rows.len() {
            Some(self.outline_entries[rows[at].entry_idx].line)
        } else {
            None
        }
    }
}

// ---------------------------------------------------------------------------
// What is read off the state
// ---------------------------------------------------------------------------
/// The words of a text before the cursor, and all its words.
pub open spec fn progress(editor: EditorView) -> (int, int) {
    let text = editor.text@;
    let pos = if editor.cursor < text.len() {
        editor.cursor as int
    } else {
        text.len() as int
    };
    (words(text.take(pos)) as int, words(text) as int)
}

impl WritermApp {
    /// The cached word starts are those of the text, if they were found for its
    /// version.
    pub open spec fn words_coherent(self, editor: EditorView) -> bool {
        self.word_cache.version == Some(editor.version) ==> lists_words(
            self.word_cache.starts@,
            editor.text@,
        )
    }

    /// The number of words.
    pub fn word_count(&self, editor: &EditorView) -> (count: usize)
        ensures
            count == words(editor.text@),
    {
        compute(editor.text.as_str()).words
    }

    /// The words before the cursor, and all words.
    pub fn cursor_word_progress(&mut self, editor: &EditorView) -> (counts: (usize, usize))
        requires
            old(self).words_coherent(*editor),
        ensures
            (counts.0 as int, counts.1 as int) == progress(*editor),
            final(self).words_coherent(*editor),
            *final(self) == (WritermApp { word_cache: final(self).word_cache, ..*old(self) }),
    {
        let known = match self.word_cache.version {
            Some(version) => version == editor.version,
            None => false,
        };
        if !known {
            self.word_cache = WordCache {
                version: Some(editor.version),
                starts: build_word_starts(editor.text.as_str()),
            };
        }
        let len: usize = editor.text.as_str().unicode_len();
        let pos: usize = if editor.cursor < len {
            editor.cursor
        } else {
            len
        };
        proof {
            crate::metrics::lemma_word_starts(editor.text@, pos as int);
        }
        let before: usize = words_before(
            &self.word_cache.starts,
            byte_offset(editor.text.as_str(), pos),
            Ghost(editor.text@),
            Ghost(pos as int),
        );
        (before, self.word_cache.starts.len())
    }

    /// The metrics of the document.
    pub fn document_metrics(&self, editor: &EditorView) -> (metrics: DocumentMetrics)
        ensures
            metrics.characters == editor.text@.len(),
            metrics.words == words(editor.text@),
            metrics.sentences == sentences(editor.text@),
            metrics.paragraphs == paragraphs(editor.text@),
            metrics.reading_secs == reading_seconds(words(editor.text@)),
    {
        compute(editor.text.as_str())
    }

    /// The parts of the body, with the sidebars that are switched on and fit.
    pub open spec fn body(self, area: Rect) -> Body {
        body_parts(
            area,
            Sidebars { headings: self.show_headings, files: self.show_files },
            self.config.layout.headings_width,
            self.config.layout.files_width,
        )
    }

    /// What is drawn where when the body has `area`: the document and the
    /// insides of the sidebars. What is not shown is nowhere.
    pub open spec fn body_areas(self, area: Rect) -> Areas {
        let body = self.body(area);
        let (files, metrics) = files_parts(inside(body.files));
        Areas {
            headings: if body.shown.headings {
                inside(body.headings)
            } else {
                no_area()
            },
            document: body.document,
            files: if body.shown.files {
                files
            } else {
                no_area()
            },
            metrics: if body.shown.files {
                metrics
            } else {
                no_area()
            },
            ..self.areas
        }
    }

    /// Places the document and the sidebars in the body. The file browser
    /// scrolls by the rows that it was last shown with.
    pub fn place_body(&mut self, area: Rect) -> (body: Body)
        requires
            area.wf(),
        ensures
            body == old(self).body(area),
            final(self).areas == old(self).body_areas(area),
            *final(self) == (WritermApp {
                areas: final(self).areas,
                workspace_viewport_rows: if body.shown.files {
                    final(self).areas.files.height as usize
                } else {
                    old(self).workspace_viewport_rows
                },
                ..*old(self)
            }),
    {
        let wanted = Sidebars { headings: self.show_headings, files: self.show_files };
        let body = split_body(
            area,
            wanted,
            self.config.layout.headings_width,
            self.config.layout.files_width,
        );
        self.areas.document = body.document;
        self.areas.headings = if body.shown.headings {
            sidebar_inside(body.headings)
        } else {
            Rect::default()
        };
        if body.shown.files {
            let (files, metrics) = split_files_panel(sidebar_inside(body.files));
            self.areas.files = files;
            self.areas.metrics = metrics;
            self.workspace_viewport_rows = files.height as usize;
        } else {
            self.areas.files = Rect::default();
            self.areas.metrics = Rect::default();
        }
        body
    }

    /// Scrolls back to where the document has rows.
    pub fn clamp_document_scroll(&mut self, editor: &EditorView)
        requires
            old(self).coherent(*editor),
        ensures
            final(self).fresh(*editor),
            final(self).document_scroll == clamped(
                old(self).document_scroll as int,
                old(self).shown_rows(editor.text@).len() as int,
                old(self).areas.document.height as int,
            ),
            *final(self) == (WritermApp {
                document_scroll: final(self).document_scroll,
                ..old(self).with_cache(*final(self))
            }),
    {
        self.refresh_visual_cache(editor);
        self.document_scroll = clamp_scroll(
            self.document_scroll,
            self.cache.visual.rows.len(),
            self.areas.document.height,
        );
    }

    /// The number of rows that the document had when it was last laid out.
    pub fn visual_rows_len(&self) -> (rows: usize)
        ensures
            rows == self.cache.visual@.len(),
    {
        self.cache.visual.rows.len()
    }

    /// The depth of the deepest heading.
    pub fn max_heading_depth(&self) -> (depth: usize)
        ensures
            depth == crate::headings::deepest(self.outline_entries@),
    {
        crate::headings::max_heading_depth(&self.outline_entries)
    }
}

// ---------------------------------------------------------------------------
// Laws
// ---------------------------------------------------------------------------
/// A wheel that is turned does not change what is shown, only where: the
/// scroll position stays inside the document.
pub proof fn law_wheel_stays_inside(
    before: WritermApp,
    after: WritermApp,
    editor: EditorView,
    delta: int,
)
    requires
        scroll_effect(before, after, editor, delta),
        before.areas.document.height >= 1,
    ensures
        ({
            let rows = before.shown_rows(editor.text@).len();
            let height = before.areas.document.height;
            &&& after.shown_rows(editor.text@) == before.shown_rows(editor.text@)
            &&& rows >= height ==> after.document_scroll + height <= rows
            &&& rows <= height ==> after.document_scroll == 0
        }),
{
}

/// After the cursor was made visible, its row is in view.
pub proof fn law_cursor_row_is_in_view(before: WritermApp, editor: EditorView)
    requires
        before.areas.document.height >= 1,
    ensures
        match crate::visual::display_of(before.shown_rows(editor.text@), editor.cursor) {
            Some((row, _)) => {
                let scroll = before.scroll_to_cursor(editor);
                scroll <= row < scroll + before.areas.document.height
            },
            None => true,
        },
{
    let rows = before.shown_rows(editor.text@);
    crate::mapping::lemma_first_covering(rows, 0, editor.cursor);
    crate::mapping::lemma_last_starting(rows, rows.len() as int, editor.cursor);
}

/// A switch that is pressed twice is where it was.
pub proof fn law_switches_toggle(
    start: WritermApp,
    once: WritermApp,
    twice: WritermApp,
    command: crate::app::Command,
    editor: EditorView,
    first: u64,
    second: u64,
)
    requires
        command == crate::app::Command::ToggleFiles || command
            == crate::app::Command::ToggleHeadings || command
            == crate::app::Command::ToggleIndent || command == crate::app::Command::TogglePeek,
        crate::app::switch_effect(start, once, command, editor, first, Action::Nothing),
        crate::app::switch_effect(once, twice, command, editor, second, Action::Nothing),
    ensures
        twice.show_files == start.show_files,
        twice.show_headings == start.show_headings,
        twice.paragraph_indent == start.paragraph_indent,
        twice.source_peek == start.source_peek,
        twice.shown_rows(editor.text@) == start.shown_rows(editor.text@),
{
}

/// A document with changes is never left without being saved: whatever
/// happens, the application goes on with it, and opens no other file before it
/// was saved.
pub proof fn law_changes_are_saved_first(
    before: WritermApp,
    after: WritermApp,
    event: Event,
    editor: EditorView,
    now: u64,
    action: Action,
)
    requires
        editor.dirty,
        event_effect(before, after, event, editor, now, action),
    ensures
        after.running == before.running,
        after.current_file_path == before.current_file_path,
        after.rendered == before.rendered,
        action !is Open,
{
}

/// Where saving fails, whatever was to follow does not: the application goes
/// on with the document, where it was.
pub proof fn law_failed_saves_keep_the_document(
    before: WritermApp,
    after: WritermApp,
    then: AfterSave,
    error: String,
    now: u64,
    action: Action,
)
    requires
        save_effect(before, after, then, Err(error), now, action),
    ensures
        action == Action::Nothing,
        after.running == before.running,
        after.current_file_path == before.current_file_path,
        after.rendered == before.rendered,
        after.document_scroll == before.document_scroll,
        after.source_peek == before.source_peek,
        after.notification matches Some(n) && n.is_error,
{
}

/// While a prompt is open, no key reaches the document: it is neither edited
/// nor scrolled, nor does its cursor move.
pub proof fn law_prompts_keep_keys_from_the_document(
    before: WritermApp,
    after: WritermApp,
    key: Key,
    editor: EditorView,
    now: u64,
    action: Action,
)
    requires
        before.prompt_mode is Some,
        key_effect(before, after, key, editor, now, action),
    ensures
        action !is EditorKey && action !is Delete && action !is MoveCursor,
        after.document_scroll == before.document_scroll,
        after.source_peek == before.source_peek,
        after.running == before.running,
{
}

/// A sidebar has columns exactly where it is switched on and the document keeps
/// its own beside it; the files sidebar needs room for both. What is hidden is
/// nowhere, and the metrics are hidden with the files. The document has the
/// columns that it needs, or all there are.
pub proof fn law_body_shows_what_fits(app: WritermApp, area: Rect)
    requires
        area.wf(),
    ensures
        ({
            let areas = app.body_areas(area);
            let left = MIN_DOCUMENT_WIDTH + block_width(app.config.layout.headings_width)
                + SIDEBAR_SEP_WIDTH;
            let both = left + block_width(app.config.layout.files_width) + SIDEBAR_SEP_WIDTH;
            let headings = app.show_headings && area.width >= left;
            let files = app.show_files && area.width >= both;
            &&& headings ==> areas.headings.width == app.config.layout.headings_width
            &&& !headings ==> areas.headings == no_area()
            &&& files ==> areas.files.width == app.config.layout.files_width
            &&& files && area.height >= SIDEBAR_PARTS + 2 ==> areas.metrics.width
                == areas.files.width && areas.metrics.height > 0
            &&& !files ==> areas.files == no_area() && areas.metrics == no_area()
            &&& areas.document.width >= MIN_DOCUMENT_WIDTH || areas.document.width == area.width
        }),
{
}

} // verus!
