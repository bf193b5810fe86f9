//! What the application does on keys and the mouse, seen from outside: how what
//! is clicked relates to what is drawn, and what each key changes.

use crate::app::{
    key_effect, Action, AfterSave, EditorView, Event, Key, KeyCode, Mouse, MouseKind, Select,
    WritermApp,
};
use crate::headings::{heading_view, HeadingVisualLine};
use crate::indent::occurrences;
use crate::layout::{cursor_cell, law_gutter_fills_the_area, text_area};
use crate::navigate::{
    boundary_target, glyph_rows, horizontal_target, rows_target, word_left, word_right,
};
use crate::panels::{entry_line, entry_lines, name_width, Palette};
use crate::session::{
    deleted, edit_effect, event_effect, opening_effect, save_effect, tick_effect, OpenedFile,
};
use crate::style::Style;
use crate::text::{fitting, glyphs_of, views, white_space};
use crate::visual::{display_of, row_line, source_of, text_of, RowModel};
use crate::workspace::WorkspaceEntryKind;
use vstd::prelude::*;

verus! {

// ---------------------------------------------------------------------------
// Clicks into the document
// ---------------------------------------------------------------------------
/// The mouse is at a cell of the document, and at none of the panels and
/// labels that take clicks first.
pub open spec fn at_document(app: WritermApp, x: int, y: int) -> bool {
    &&& app.areas.document.holds(x, y)
    &&& !app.areas.headings_control.holds(x, y)
    &&& !app.areas.files_control.holds(x, y)
    &&& !app.areas.headings.holds(x, y)
    &&& !app.areas.files.holds(x, y)
}

/// The mouse goes down on the document, or is dragged over it with the button
/// held, while nothing is in the way.
pub open spec fn points_at_document(app: WritermApp, mouse: Mouse) -> bool {
    &&& app.config.ui.mouse
    &&& match mouse.kind {
        MouseKind::DownLeft => app.prompt_mode is None && at_document(
            app,
            mouse.column as int,
            mouse.row as int,
        ),
        MouseKind::DragLeft => app.drag_selecting,
        _ => false,
    }
}

/// What becomes of the selection: a press clears it, and dragging extends it.
pub open spec fn mouse_select(mouse: Mouse, editor: EditorView) -> Select {
    if mouse.kind == MouseKind::DownLeft {
        Select::Clear
    } else if editor.has_selection {
        Select::Extend
    } else {
        Select::Start
    }
}

/// The mouse goes to what is drawn under it: where the cell of a row and a
/// column of the document is drawn, the cursor goes to the source character
/// that this row and column stand for, and stays where they stand for none. The
/// line that is drawn there is that row.
pub proof fn law_mouse_goes_to_the_cell_under_it(
    before: WritermApp,
    after: WritermApp,
    mouse: Mouse,
    editor: EditorView,
    now: u64,
    action: Action,
    row: int,
    col: int,
)
    requires
        before.areas.document.wf(),
        points_at_document(before, mouse),
        event_effect(before, after, Event::Mouse(mouse), editor, now, action),
        0 <= col < before.gutter().text_width,
        cursor_cell(
            Some((row, col)),
            before.document_scroll as int,
            text_area(before.areas.document, before.gutter()),
        ) == Some((mouse.column as int, mouse.row as int)),
    ensures
        ({
            let rows = before.shown_rows(editor.text@);
            &&& action == (Action::MoveCursor {
                pos: match source_of(rows, row, col) {
                    Some(pos) => pos,
                    None => editor.cursor,
                },
                select: mouse_select(mouse, editor),
            })
            &&& after.desired_display_col is None
            &&& after.document_scroll == before.document_scroll
            &&& forall|selection: Option<(usize, usize)>, over: Style|
                row < rows.len() ==> #[trigger] text_of(
                    rows,
                    before.document_scroll as int,
                    before.areas.document.height as int,
                    selection,
                    over,
                )[mouse.row - before.areas.document.y] == row_line(rows[row], selection, over)
        }),
{
    law_gutter_fills_the_area(
        before.areas.document.width,
        crate::headings::deepest(before.outline_entries@) as u16,
    );
}

/// A click on the cell where a character is drawn goes to that character: if
/// the cursor would be drawn at a cell for `pos`, and the place of `pos` on the
/// display stands for `pos`, then pressing the button there moves the cursor to
/// `pos`.
pub proof fn law_clicks_go_where_the_cursor_is_drawn(
    before: WritermApp,
    after: WritermApp,
    mouse: Mouse,
    editor: EditorView,
    now: u64,
    action: Action,
    pos: usize,
)
    requires
        before.areas.document.wf(),
        points_at_document(before, mouse),
        event_effect(before, after, Event::Mouse(mouse), editor, now, action),
        cursor_cell(
            display_of(before.shown_rows(editor.text@), pos),
            before.document_scroll as int,
            text_area(before.areas.document, before.gutter()),
        ) == Some((mouse.column as int, mouse.row as int)),
        display_of(before.shown_rows(editor.text@), pos) matches Some((row, col)) && 0 <= col
            < before.gutter().text_width && source_of(before.shown_rows(editor.text@), row, col)
            == Some(pos),
    ensures
        action == (Action::MoveCursor { pos, select: mouse_select(mouse, editor) }),
{
    if let Some((row, col)) = display_of(before.shown_rows(editor.text@), pos) {
        law_mouse_goes_to_the_cell_under_it(
            before,
            after,
            mouse,
            editor,
            now,
            action,
            row,
            col,
        );
    }
}

/// The gutter and the blank column behind it belong to the rows beside them: the
/// mouse there goes where it goes on the first column of the text.
pub proof fn law_the_gutter_belongs_to_its_row(
    before: WritermApp,
    in_gutter: (WritermApp, Mouse, Action),
    in_text: (WritermApp, Mouse, Action),
    editor: EditorView,
    now: u64,
)
    requires
        before.areas.document.wf(),
        points_at_document(before, in_gutter.1),
        points_at_document(before, in_text.1),
        event_effect(before, in_gutter.0, Event::Mouse(in_gutter.1), editor, now, in_gutter.2),
        event_effect(before, in_text.0, Event::Mouse(in_text.1), editor, now, in_text.2),
        in_gutter.1.kind == in_text.1.kind,
        in_gutter.1.row == in_text.1.row,
        in_gutter.1.column < in_text.1.column,
        in_text.1.column as int == text_area(before.areas.document, before.gutter()).x,
    ensures
        in_gutter.2 == in_text.2,
{
    law_gutter_fills_the_area(
        before.areas.document.width,
        crate::headings::deepest(before.outline_entries@) as u16,
    );
}

/// The button starts dragging when it goes down on the document, and ends it
/// when it goes up; a drag that did not start there does nothing.
#[verifier::rlimit(40)]
pub proof fn law_drags_start_on_the_document(
    before: WritermApp,
    after: WritermApp,
    mouse: Mouse,
    editor: EditorView,
    now: u64,
    action: Action,
)
    requires
        before.config.ui.mouse,
        event_effect(before, after, Event::Mouse(mouse), editor, now, action),
    ensures
        after.drag_selecting && !before.drag_selecting ==> mouse.kind == MouseKind::DownLeft
            && before.areas.document.holds(mouse.column as int, mouse.row as int),
        points_at_document(before, mouse) ==> after.drag_selecting,
        mouse.kind == MouseKind::UpLeft ==> !after.drag_selecting && action == Action::Nothing,
        mouse.kind == MouseKind::DragLeft && !before.drag_selecting ==> action == Action::Nothing,
{
}

/// With the mouse switched off, nothing it does has any effect.
pub proof fn law_the_mouse_can_be_switched_off(
    before: WritermApp,
    after: WritermApp,
    mouse: Mouse,
    editor: EditorView,
    now: u64,
    action: Action,
)
    requires
        !before.config.ui.mouse,
        event_effect(before, after, Event::Mouse(mouse), editor, now, action),
    ensures
        after == before,
        action == Action::Nothing,
{
}

// ---------------------------------------------------------------------------
// Clicks on the panels
// ---------------------------------------------------------------------------
/// The button goes down, and no prompt is open.
pub open spec fn presses(app: WritermApp, mouse: Mouse) -> bool {
    &&& app.config.ui.mouse
    &&& app.prompt_mode is None
    &&& mouse.kind == MouseKind::DownLeft
}

/// A click on line `i` of the file browser is a click on the entry that is drawn
/// there: it is opened, and is the one that is drawn as selected from then on.
/// The parent directory and folders are gone to; a file is opened once changes
/// have been saved.
pub proof fn law_clicks_open_the_entry_under_them(
    before: WritermApp,
    after: WritermApp,
    mouse: Mouse,
    editor: EditorView,
    now: u64,
    action: Action,
    i: int,
    palette: Palette,
) -> (at: int)
    requires
        presses(before, mouse),
        before.areas.files.holds(mouse.column as int, mouse.row as int),
        !before.areas.headings_control.holds(mouse.column as int, mouse.row as int),
        !before.areas.files_control.holds(mouse.column as int, mouse.row as int),
        !before.areas.headings.holds(mouse.column as int, mouse.row as int),
        event_effect(before, after, Event::Mouse(mouse), editor, now, action),
        mouse.row == before.areas.files.y + i,
        0 <= i < entry_lines(
            views(before.workspace_entries@),
            before.workspace_selection as int,
            before.workspace_scroll as int,
            before.areas.files.height as int,
            before.areas.files.width,
            palette,
        ).len(),
    ensures
        0 <= at < before.workspace_entries@.len(),
        ({
            let entries = views(before.workspace_entries@);
            let area = before.areas.files;
            let entry = entries[at];
            let drawn = entry_lines(
                entries,
                before.workspace_selection as int,
                before.workspace_scroll as int,
                area.height as int,
                area.width,
                palette,
            );
            let redrawn = entry_lines(
                views(after.workspace_entries@),
                after.workspace_selection as int,
                after.workspace_scroll as int,
                after.areas.files.height as int,
                after.areas.files.width,
                palette,
            );
            let name = fitting(glyphs_of(entry.name), name_width(area.width));
            &&& drawn[i] == entry_line(entry, name, at == before.workspace_selection, palette)
            &&& redrawn[i] == entry_line(entry, name, true, palette)
            &&& match entry.kind {
                WorkspaceEntryKind::Parent => action == Action::ParentFolder,
                WorkspaceEntryKind::Directory => action matches Action::Folder(n) && n@
                    == entry.name,
                WorkspaceEntryKind::File => if editor.dirty {
                    action matches Action::Save(AfterSave::Open(n)) && n@ == entry.name
                } else {
                    action matches Action::Open(n) && n@ == entry.name
                },
            }
        }),
{
    before.workspace_scroll + i
}

/// Below the last entry a click does nothing.
pub proof fn law_clicks_below_the_entries_do_nothing(
    before: WritermApp,
    after: WritermApp,
    mouse: Mouse,
    editor: EditorView,
    now: u64,
    action: Action,
)
    requires
        presses(before, mouse),
        before.areas.files.holds(mouse.column as int, mouse.row as int),
        !before.areas.headings_control.holds(mouse.column as int, mouse.row as int),
        !before.areas.files_control.holds(mouse.column as int, mouse.row as int),
        !before.areas.headings.holds(mouse.column as int, mouse.row as int),
        event_effect(before, after, Event::Mouse(mouse), editor, now, action),
        before.workspace_scroll + (mouse.row - before.areas.files.y)
            >= before.workspace_entries@.len(),
    ensures
        action == Action::Nothing,
        after.workspace_selection == before.workspace_selection,
{
}

/// A click on line `i` of the headings panel goes to the heading whose row is
/// drawn there.
pub proof fn law_clicks_go_to_the_heading_under_them(
    app: WritermApp,
    rows: Seq<HeadingVisualLine>,
    row: u16,
    i: int,
)
    requires
        row == app.areas.headings.y + i,
        0 <= i < heading_view(
            views(rows),
            app.heading_scroll as int,
            app.areas.headings.height as int,
        ).len(),
    ensures
        ({
            let at = app.heading_scroll + i;
            let drawn = heading_view(
                views(rows),
                app.heading_scroll as int,
                app.areas.headings.height as int,
            )[i];
            &&& drawn[0].content == rows[at].content@
            &&& app.heading_at(rows, row) == Some(
                app.outline_entries@[rows[at].entry_idx as int].line,
            )
        }),
{
}

/// A click on the headings panel or on a label does that, whatever lies under
/// it: the label of a sidebar switches it, and the panel asks for the heading
/// in the row that was clicked.
#[verifier::rlimit(40)]
pub proof fn law_labels_and_headings_take_clicks(
    before: WritermApp,
    after: WritermApp,
    mouse: Mouse,
    editor: EditorView,
    now: u64,
    action: Action,
)
    requires
        presses(before, mouse),
        event_effect(before, after, Event::Mouse(mouse), editor, now, action),
    ensures
        ({
            let (x, y) = (mouse.column as int, mouse.row as int);
            let on_headings = before.areas.headings_control.holds(x, y);
            let on_files = !on_headings && before.areas.files_control.holds(x, y);
            let on_panel = !on_headings && !on_files && before.areas.headings.holds(x, y);
            &&& (after.show_headings != before.show_headings) == on_headings
            &&& (after.show_files != before.show_files) == on_files
            &&& on_headings || on_files ==> action == Action::Nothing
            &&& on_panel <==> action == (Action::ClickHeading { row: mouse.row })
            &&& after.workspace_selection != before.workspace_selection
                ==> before.areas.files.holds(x, y)
        }),
{
}

// ---------------------------------------------------------------------------
// The wheel
// ---------------------------------------------------------------------------
/// Turning the wheel down shows later rows, and turning it up earlier ones; a
/// turn back undoes a turn that no border of the document cut short.
pub proof fn law_the_wheel_turns_back(
    start: WritermApp,
    once: WritermApp,
    twice: WritermApp,
    mouse: Mouse,
    back: Mouse,
    editor: EditorView,
    now: u64,
    actions: (Action, Action),
)
    requires
        start.config.ui.mouse,
        start.areas.document.height >= 1,
        mouse.kind == MouseKind::ScrollDown,
        back.kind == MouseKind::ScrollUp,
        event_effect(start, once, Event::Mouse(mouse), editor, now, actions.0),
        event_effect(once, twice, Event::Mouse(back), editor, now, actions.1),
    ensures
        ({
            let rows = start.shown_rows(editor.text@).len();
            let height = start.areas.document.height;
            let turn = once.document_scroll - start.document_scroll;
            &&& actions.0 == Action::Nothing && actions.1 == Action::Nothing
            &&& start.document_scroll + height < rows ==> turn > 0
            &&& start.document_scroll + height + 3 <= rows ==> turn == 3
            &&& once.document_scroll > 0 ==> twice.document_scroll < once.document_scroll
            &&& once.document_scroll + height < rows ==> twice.document_scroll
                == start.document_scroll
        }),
{
}

// ---------------------------------------------------------------------------
// Keys
// ---------------------------------------------------------------------------
/// The function keys switch: F2 the files, F3 the headings, F4 the first-line
/// indents, and with the control key `m` switches between rendered text and raw
/// source. Nothing else on the keyboard does.
#[verifier::rlimit(40)]
pub proof fn law_keys_switch(
    before: WritermApp,
    after: WritermApp,
    key: Key,
    editor: EditorView,
    now: u64,
    action: Action,
)
    requires
        before.prompt_mode is None,
        key_effect(before, after, key, editor, now, action),
    ensures
        (after.show_files != before.show_files) == (key.code == KeyCode::F(2)),
        (after.show_headings != before.show_headings) == (key.code == KeyCode::F(3)),
        (after.paragraph_indent != before.paragraph_indent) == (key.code == KeyCode::F(4)),
        (after.source_peek != before.source_peek) == (key.ctrl && key.code == KeyCode::Char('m')),
        key.code == KeyCode::F(4) || (key.ctrl && key.code == KeyCode::Char('m'))
            ==> after.notification is Some && after.notification->0.at == now
            && !after.notification->0.is_error,
        after.notification != before.notification ==> key.code == KeyCode::F(4) || (key.ctrl
            && key.code == KeyCode::Char('m')),
{
}

/// With the control key `s` saves, `n` asks for the name of a new file, and `q`
/// quits, once changes have been saved. Nothing else on the keyboard does.
#[verifier::rlimit(40)]
pub proof fn law_keys_save_and_quit(
    before: WritermApp,
    after: WritermApp,
    key: Key,
    editor: EditorView,
    now: u64,
    action: Action,
)
    requires
        before.prompt_mode is None,
        key_effect(before, after, key, editor, now, action),
    ensures
        (action == Action::Save(AfterSave::Nothing)) == (key.ctrl && key.code == KeyCode::Char('s')),
        (action == Action::Save(AfterSave::Quit)) == (key.ctrl && key.code == KeyCode::Char('q')
            && editor.dirty),
        after.running == (before.running && !(key.ctrl && key.code == KeyCode::Char('q')
            && !editor.dirty)),
        after.prompt_mode is Some <==> key.ctrl && key.code == KeyCode::Char('n'),
        after.prompt_mode is Some ==> after.prompt_buffer@.len() == 0,
{
}

/// Text that is typed goes to the editor, and no key but Backspace deletes.
#[verifier::rlimit(40)]
pub proof fn law_typing_goes_to_the_editor(
    before: WritermApp,
    after: WritermApp,
    key: Key,
    editor: EditorView,
    now: u64,
    action: Action,
)
    requires
        before.prompt_mode is None,
        key_effect(before, after, key, editor, now, action),
    ensures
        key.code is Char && !key.ctrl ==> action is EditorKey,
        key.code == KeyCode::Enter ==> action is EditorKey,
        action is Delete ==> key.code == KeyCode::Backspace && !before.source_peek
            && before.paragraph_indent,
        action is EditorKey ==> after.document_scroll == before.document_scroll
            && after.desired_display_col is None,
        action matches Action::EditorKey { viewport } ==> viewport == (
        if before.areas.document.height == 0 {
            1
        } else {
            before.areas.document.height as int
        }),
{
}

/// Moving with the shift key selects, and without it gives a selection up: what
/// was selected before is extended, and else a selection starts.
#[verifier::rlimit(40)]
pub proof fn law_shift_selects(
    before: WritermApp,
    after: WritermApp,
    key: Key,
    editor: EditorView,
    now: u64,
    action: Action,
)
    requires
        before.prompt_mode is None,
        key_effect(before, after, key, editor, now, action),
        action is MoveCursor,
    ensures
        action matches Action::MoveCursor { select, .. } && match select {
            Select::Clear => !key.shift,
            Select::Start => key.shift && !editor.has_selection,
            Select::Extend => key.shift && editor.has_selection,
        },
{
}

/// The cursor moves to `target`, if that is somewhere.
pub open spec fn goes(action: Action, target: Option<usize>) -> bool {
    match target {
        Some(p) => action matches Action::MoveCursor { pos, .. } && pos == p,
        None => action == Action::Nothing,
    }
}

/// In rendered text the arrow keys go by what is shown: Left and Right by one
/// step, with the control key over a word, and Home and End to the borders of
/// the row. Raw source leaves them to the editor.
#[verifier::rlimit(40)]
pub proof fn law_arrows_go_by_what_is_shown(
    before: WritermApp,
    after: WritermApp,
    key: Key,
    editor: EditorView,
    now: u64,
    action: Action,
)
    requires
        before.prompt_mode is None,
        key_effect(before, after, key, editor, now, action),
    ensures
        ({
            let rows = before.shown_rows(editor.text@);
            let bare = !key.ctrl && !key.alt;
            let left = key.code == KeyCode::Left;
            let right = key.code == KeyCode::Right;
            let home = key.code == KeyCode::Home;
            let end = key.code == KeyCode::End;
            &&& !before.source_peek && bare && left ==> goes(
                action,
                horizontal_target(rows, editor.cursor, -1),
            )
            &&& !before.source_peek && bare && right ==> goes(
                action,
                horizontal_target(rows, editor.cursor, 1),
            )
            &&& !before.source_peek && bare && home ==> goes(
                action,
                boundary_target(rows, editor.cursor, false),
            )
            &&& !before.source_peek && bare && end ==> goes(
                action,
                boundary_target(rows, editor.cursor, true),
            )
            &&& before.source_peek && (left || right || home || end) ==> action is EditorKey
            &&& (left || right || home || end) && action is MoveCursor
                ==> after.desired_display_col is None && after.document_scroll
                == before.document_scroll
            &&& (home || end) && !bare ==> action is EditorKey
            &&& (left || right) && key.alt ==> action is EditorKey
            &&& (key.code == KeyCode::Up || key.code == KeyCode::Down) && !bare ==> action
                == Action::Nothing
        }),
{
}

/// With the control key, Left and Right go over a word of the rendered text: to
/// the start of the word before the cursor, or of the next one.
#[verifier::rlimit(40)]
pub proof fn law_control_arrows_go_over_words(
    before: WritermApp,
    after: WritermApp,
    key: Key,
    editor: EditorView,
    now: u64,
    action: Action,
)
    requires
        before.prompt_mode is None,
        !before.source_peek,
        key.ctrl && !key.alt,
        key.code == KeyCode::Left || key.code == KeyCode::Right,
        key_effect(before, after, key, editor, now, action),
    ensures
        ({
            let rows = before.shown_rows(editor.text@);
            let glyphs = glyph_rows(rows);
            match display_of(rows, editor.cursor) {
                Some((row, col)) => {
                    let target = if key.code == KeyCode::Left {
                        word_left(rows, glyphs, row, col)
                    } else {
                        word_right(rows, glyphs, row, col)
                    };
                    goes(
                        action,
                        if target == Some(editor.cursor) {
                            None
                        } else {
                            target
                        },
                    )
                },
                None => action == Action::Nothing,
            }
        }),
{
}

/// Up and Down go by one row, and pages by the height of the document, and the
/// column that they keep to stays the same from one to the next.
#[verifier::rlimit(40)]
pub proof fn law_rows_and_pages_keep_the_column(
    before: WritermApp,
    after: WritermApp,
    key: Key,
    editor: EditorView,
    now: u64,
    action: Action,
)
    requires
        before.prompt_mode is None,
        before.areas.document.height >= 1,
        key_effect(before, after, key, editor, now, action),
    ensures
        ({
            let rows = before.shown_rows(editor.text@);
            let bare = !key.ctrl && !key.alt;
            let page = before.areas.document.height as int;
            let kept = before.desired_display_col;
            let moved = |delta: int, clamp: bool|
                rows_target(rows, editor.cursor, kept, delta, clamp);
            &&& bare && key.code == KeyCode::Up ==> jumps(after, action, moved(-1, false), kept)
            &&& bare && key.code == KeyCode::Down ==> jumps(after, action, moved(1, false), kept)
            &&& key.code == KeyCode::PageUp ==> jumps(after, action, moved(-page, true), kept)
            &&& key.code == KeyCode::PageDown ==> jumps(after, action, moved(page, true), kept)
        }),
{
    let page = before.areas.document.height as int;
    assert(crate::app::step(true) * page == -page) by (nonlinear_arith)
        requires
            crate::app::step(true) == -1,
    ;
    assert(crate::app::step(false) * page == page) by (nonlinear_arith)
        requires
            crate::app::step(false) == 1,
    ;
    match key.code {
        KeyCode::Up => {},
        KeyCode::Down => {},
        KeyCode::PageUp => {},
        KeyCode::PageDown => {},
        _ => {},
    }
}

/// The cursor goes to the row of `target`, and the column to keep to is that of
/// `target`; where there is none, it stays as it was.
pub open spec fn jumps(
    after: WritermApp,
    action: Action,
    target: Option<(usize, usize)>,
    kept: Option<usize>,
) -> bool {
    match target {
        Some((pos, keep)) => goes(action, Some(pos)) && after.desired_display_col == Some(keep),
        None => goes(action, None) && after.desired_display_col == kept,
    }
}

/// What Backspace deletes as a whole ends at the cursor, and is nothing but a
/// line break: white space with one newline in it.
#[verifier::rlimit(40)]
pub proof fn law_backspace_joins_lines(
    before: WritermApp,
    after: WritermApp,
    key: Key,
    editor: EditorView,
    now: u64,
    action: Action,
)
    requires
        before.prompt_mode is None,
        editor.cursor <= editor.text@.len(),
        key_effect(before, after, key, editor, now, action),
        action is Delete,
    ensures
        !editor.has_selection,
        action matches Action::Delete { start, len } && {
            let gone = editor.text@.subrange(start as int, editor.cursor as int);
            &&& start + len == editor.cursor
            &&& forall|i: int| 0 <= i < gone.len() ==> white_space(#[trigger] gone[i])
            &&& occurrences(gone, '\n') == 1
        },
{
    if let Action::Delete { start, len } = action {
        let gone = editor.text@.subrange(start as int, editor.cursor as int);
        assert(crate::app::soft_break(gone));
        let at = if gone[0] == '\r' {
            1int
        } else {
            0
        };
        lemma_one_newline(gone, at);
    }
}

/// The row is indented prose, and the nearest row above it that stands for
/// source text is row `above`, indented prose as well.
pub open spec fn joins_above(rows: Seq<RowModel>, row: int, above: int) -> bool {
    &&& 0 <= above < row < rows.len()
    &&& rows[row].prefix_width > 0
    &&& rows[above].mapped && rows[above].prefix_width > 0
    &&& forall|k: int| above < k < row ==> !(#[trigger] rows[k]).mapped
}

/// At the start of an indented row, Backspace deletes the line break before it as
/// a whole: from the end of the row above to the cursor, where that is indented
/// prose too and nothing but a newline and blanks lies between.
pub proof fn law_backspace_takes_the_whole_line_break(
    before: WritermApp,
    after: WritermApp,
    key: Key,
    editor: EditorView,
    now: u64,
    action: Action,
    row: int,
    above: int,
)
    requires
        before.prompt_mode is None,
        !before.source_peek && before.paragraph_indent,
        key.code == KeyCode::Backspace && !key.ctrl && !key.alt,
        key_effect(before, after, key, editor, now, action),
        joins_above(before.shown_rows(editor.text@), row, above),
        display_of(before.shown_rows(editor.text@), editor.cursor) == Some(
            (row, before.shown_rows(editor.text@)[row].prefix_width as int),
        ),
        before.shown_rows(editor.text@)[above].source_end < editor.cursor <= editor.text@.len(),
        crate::app::soft_break(
            editor.text@.subrange(
                before.shown_rows(editor.text@)[above].source_end as int,
                editor.cursor as int,
            ),
        ),
    ensures
        editor.has_selection ==> action is EditorKey,
        !editor.has_selection ==> {
            let start = before.shown_rows(editor.text@)[above].source_end;
            action == Action::Delete { start, len: (editor.cursor - start) as usize }
        },
{
    let rows = before.shown_rows(editor.text@);
    lemma_last_mapped_above(rows, row, above);
}

/// Anywhere else Backspace is left to the editor: with a selection, away from
/// the start of the text of a row, and in a row without an indent.
pub proof fn law_other_backspaces_go_to_the_editor(
    before: WritermApp,
    after: WritermApp,
    key: Key,
    editor: EditorView,
    now: u64,
    action: Action,
)
    requires
        before.prompt_mode is None,
        key.code == KeyCode::Backspace,
        key_effect(before, after, key, editor, now, action),
        editor.has_selection || key.ctrl || key.alt || before.source_peek
            || !before.paragraph_indent || (display_of(
            before.shown_rows(editor.text@),
            editor.cursor,
        ) matches Some((row, col)) && (col != before.shown_rows(editor.text@)[row].prefix_width
            || before.shown_rows(editor.text@)[row].prefix_width == 0)),
    ensures
        action is EditorKey,
{
}

/// Where the row above is no indented prose, or more than a line break lies
/// between, Backspace is left to the editor as well.
pub proof fn law_paragraphs_are_not_joined_to_other_blocks(
    before: WritermApp,
    after: WritermApp,
    key: Key,
    editor: EditorView,
    now: u64,
    action: Action,
    row: int,
    above: int,
)
    requires
        before.prompt_mode is None,
        key.code == KeyCode::Backspace,
        key_effect(before, after, key, editor, now, action),
        0 <= above < row < before.shown_rows(editor.text@).len(),
        before.shown_rows(editor.text@)[above].mapped,
        forall|k: int| above < k < row ==> !(#[trigger] before.shown_rows(editor.text@)[k]).mapped,
        display_of(before.shown_rows(editor.text@), editor.cursor) matches Some((r, _)) && r == row,
        editor.cursor <= editor.text@.len(),
        before.shown_rows(editor.text@)[above].prefix_width == 0 || before.shown_rows(
            editor.text@,
        )[above].source_end >= editor.cursor || !crate::app::soft_break(
            editor.text@.subrange(
                before.shown_rows(editor.text@)[above].source_end as int,
                editor.cursor as int,
            ),
        ),
    ensures
        action is EditorKey,
{
    lemma_last_mapped_above(before.shown_rows(editor.text@), row, above);
}

proof fn lemma_last_mapped_above(rows: Seq<RowModel>, row: int, above: int)
    requires
        0 <= above < row <= rows.len(),
        rows[above].mapped,
        forall|k: int| above < k < row ==> !(#[trigger] rows[k]).mapped,
    ensures
        crate::visual::last_mapped(rows, row) == above,
    decreases row,
{
    if row - 1 > above {
        assert(!rows[row - 1].mapped);
        lemma_last_mapped_above(rows, row - 1, above);
    }
}

proof fn lemma_one_newline(gap: Seq<char>, at: int)
    requires
        0 <= at < gap.len(),
        gap[at] == '\n',
        forall|i: int| 0 <= i < gap.len() && i != at ==> #[trigger] gap[i] != '\n',
    ensures
        occurrences(gap, '\n') == 1,
    decreases gap.len(),
{
    let shorter = gap.drop_last();
    if at < shorter.len() {
        lemma_one_newline(shorter, at);
        assert(gap[gap.len() - 1] != '\n');
    } else {
        lemma_no_newline(shorter);
    }
}

proof fn lemma_no_newline(gap: Seq<char>)
    requires
        forall|i: int| 0 <= i < gap.len() ==> #[trigger] gap[i] != '\n',
    ensures
        occurrences(gap, '\n') == 0,
    decreases gap.len(),
{
    if gap.len() > 0 {
        assert(gap[gap.len() - 1] != '\n');
        lemma_no_newline(gap.drop_last());
    }
}

// ---------------------------------------------------------------------------
// The prompt
// ---------------------------------------------------------------------------
/// In a prompt, Backspace takes back what was typed last.
pub proof fn law_backspace_takes_back_what_was_typed(
    start: WritermApp,
    once: WritermApp,
    twice: WritermApp,
    typed: Key,
    back: Key,
    editor: EditorView,
    now: u64,
    actions: (Action, Action),
)
    requires
        start.prompt_mode is Some,
        typed.code is Char && !typed.ctrl,
        back.code == KeyCode::Backspace,
        key_effect(start, once, typed, editor, now, actions.0),
        key_effect(once, twice, back, editor, now, actions.1),
    ensures
        once.prompt_buffer@.len() == start.prompt_buffer@.len() + 1,
        typed.code == KeyCode::Char(once.prompt_buffer@.last()),
        twice.prompt_buffer@ == start.prompt_buffer@,
        twice.prompt_mode == start.prompt_mode,
        actions.0 == Action::Nothing && actions.1 == Action::Nothing,
{
    assert(twice.prompt_buffer@ =~= start.prompt_buffer@);
}

/// A prompt is closed by Escape, which does nothing else, and by Enter; any
/// other key leaves it open. Nothing that was typed is left in it then.
pub proof fn law_prompts_are_closed(
    before: WritermApp,
    after: WritermApp,
    key: Key,
    editor: EditorView,
    now: u64,
    action: Action,
)
    requires
        before.prompt_mode is Some,
        key_effect(before, after, key, editor, now, action),
    ensures
        after.prompt_mode is None <==> key.code == KeyCode::Esc || key.code == KeyCode::Enter,
        after.prompt_mode is None ==> after.prompt_buffer@.len() == 0,
        key.code != KeyCode::Enter ==> action == Action::Nothing && after.notification
            == before.notification,
        after.prompt_mode is Some && after.prompt_buffer@ != before.prompt_buffer@ ==> key.code
            == KeyCode::Backspace || (key.code is Char && !key.ctrl),
{
}

/// Enter in a prompt opens the file that the typed name stands for, once changes
/// have been saved; an empty name opens nothing, and a name that is refused is
/// answered with an error.
pub proof fn law_enter_opens_the_new_file(
    before: WritermApp,
    after: WritermApp,
    key: Key,
    editor: EditorView,
    now: u64,
    action: Action,
)
    requires
        before.prompt_mode is Some,
        key.code == KeyCode::Enter,
        key_effect(before, after, key, editor, now, action),
    ensures
        match crate::paths::accepted_name(before.prompt_buffer@) {
            Some(name) => {
                &&& after.notification == before.notification
                &&& if name.len() == 0 {
                    action == Action::Nothing
                } else if editor.dirty {
                    action matches Action::Save(AfterSave::Open(n)) && n@ == name
                } else {
                    action matches Action::Open(n) && n@ == name
                }
            },
            None => {
                &&& action == Action::Nothing
                &&& after.notification matches Some(n) && n.is_error && n.at == now
            },
        },
{
}

// ---------------------------------------------------------------------------
// The clock
// ---------------------------------------------------------------------------
/// A changed document is saved by itself once it has rested for the delay, in
/// milliseconds, since the last edit, and not before; a document without changes
/// is not, nor one whose saving was switched off.
pub proof fn law_autosave_waits_for_the_delay(
    before: WritermApp,
    after: WritermApp,
    editor: EditorView,
    now: u64,
    action: Action,
    edit: u64,
)
    requires
        before.last_edit == Some(edit),
        edit <= now,
        event_effect(before, after, Event::Tick, editor, now, action),
    ensures
        action == Action::Save(AfterSave::Autosave) || action == Action::Nothing,
        action == Action::Save(AfterSave::Autosave) <==> before.config.autosave.enabled
            && editor.dirty && now - edit >= before.config.autosave.delay_ms * 1_000_000,
        after.last_edit == before.last_edit,
{
    let delay = before.config.autosave.delay_ms as int;
    let rest = now - edit;
    assert(rest / 1_000_000 >= delay <==> rest >= delay * 1_000_000);
}

/// Without an edit nothing is saved by itself.
pub proof fn law_no_edit_no_autosave(
    before: WritermApp,
    after: WritermApp,
    editor: EditorView,
    now: u64,
    action: Action,
)
    requires
        before.last_edit is None,
        event_effect(before, after, Event::Tick, editor, now, action),
    ensures
        action == Action::Nothing,
{
}

/// A notification is shown for three seconds, and is gone then; the clock
/// changes nothing else.
pub proof fn law_notifications_go_away(
    before: WritermApp,
    after: WritermApp,
    editor: EditorView,
    now: u64,
    action: Action,
)
    requires
        event_effect(before, after, Event::Tick, editor, now, action),
    ensures
        match before.notification {
            Some(n) => {
                &&& after.notification is None <==> now as int - n.at as int > 3_000_000_000
                &&& after.notification is Some ==> after == before
            },
            None => after == before,
        },
        after.document_scroll == before.document_scroll,
        after.running == before.running,
        after.notification is None && before.notification is Some ==> after.needs_redraw,
{
}

/// The document is saved by itself at `now`, with the last edit at `edit`: it
/// has changes, saving by itself is switched on, and the delay is over.
pub open spec fn rested(app: WritermApp, editor: EditorView, edit: u64, now: u64) -> bool {
    &&& app.config.autosave.enabled
    &&& editor.dirty
    &&& now - edit >= app.config.autosave.delay_ms * 1_000_000
}

/// Every edit starts the delay anew, whether a key or a deletion made it; a key
/// that changes nothing does not.
pub proof fn law_edits_start_the_delay_anew(
    before: WritermApp,
    edited: WritermApp,
    after: WritermApp,
    changed: bool,
    save: bool,
    editor: EditorView,
    edit: u64,
    now: u64,
    actions: (Action, Action),
)
    requires
        edit <= now,
        edit_effect(before, edited, changed, save, edit, actions.0) || (changed && edited
            == deleted(before, edit)),
        tick_effect(edited, after, editor, now, actions.1),
    ensures
        changed ==> (actions.1 == Action::Save(AfterSave::Autosave) <==> rested(
            before,
            editor,
            edit,
            now,
        )),
        !changed ==> edited == before,
{
    let delay = before.config.autosave.delay_ms as int;
    let rest = now - edit;
    assert(rest / 1_000_000 >= delay <==> rest >= delay * 1_000_000);
}

/// A document that was saved is not saved again by itself before the next edit.
/// Where saving by itself failed, it is tried again after the delay; where other
/// saving failed, the delay goes on as it was.
pub proof fn law_saving_ends_the_delay(
    before: WritermApp,
    saved: WritermApp,
    after: WritermApp,
    then: AfterSave,
    outcome: Result<(), String>,
    editor: EditorView,
    at: u64,
    now: u64,
    actions: (Action, Action),
)
    requires
        at <= now,
        save_effect(before, saved, then, outcome, at, actions.0),
        tick_effect(saved, after, editor, now, actions.1),
    ensures
        outcome is Ok ==> actions.1 == Action::Nothing,
        outcome is Err && then == AfterSave::Autosave ==> (actions.1 == Action::Save(
            AfterSave::Autosave,
        ) <==> rested(before, editor, at, now)),
        outcome is Err && then != AfterSave::Autosave ==> saved.last_edit == before.last_edit,
{
    let delay = before.config.autosave.delay_ms as int;
    let rest = now - at;
    assert(rest / 1_000_000 >= delay <==> rest >= delay * 1_000_000);
}

/// Once the document has been saved, what was to follow does: quitting ends the
/// application, and a file is opened. Nothing else does.
pub proof fn law_what_was_to_follow_saving_follows(
    before: WritermApp,
    after: WritermApp,
    then: AfterSave,
    now: u64,
    action: Action,
)
    requires
        save_effect(before, after, then, Ok(()), now, action),
    ensures
        after.running == (before.running && then != AfterSave::Quit),
        then matches AfterSave::Open(name) ==> action == Action::Open(name),
        then !is Open ==> action == Action::Nothing,
        after.notification matches Some(n) && !n.is_error && n.at == now,
        after.last_edit is None,
{
}

/// A file that was opened is shown from its start, and none of what is known of
/// the one before is left: neither rows nor words nor the column to keep to.
/// What the user has switched on or off stays so, but for raw source.
pub proof fn law_files_are_shown_from_their_start(
    before: WritermApp,
    after: WritermApp,
    file: OpenedFile,
    now: u64,
)
    requires
        opening_effect(before, after, file, now),
    ensures
        after.document_scroll == 0 && after.heading_scroll == 0 && after.workspace_scroll == 0,
        after.desired_display_col is None,
        after.cache.version is None && after.word_cache.version is None,
        after.source_peek <==> !crate::paths::markdown_path(after.current_file_path@),
        after.current_file_path == file.path && after.cwd == file.folder,
        after.show_files == before.show_files && after.show_headings == before.show_headings,
        after.paragraph_indent == before.paragraph_indent,
        after.running == before.running,
        after.workspace_entries@.len() > 0 ==> after.workspace_selection
            < after.workspace_entries@.len(),
        after.notification matches Some(n) && !n.is_error,
{
}

/// Whatever the user does is drawn: a key, the mouse where it is on, and a
/// resized screen.
#[verifier::rlimit(40)]
pub proof fn law_what_happens_is_drawn(
    before: WritermApp,
    after: WritermApp,
    event: Event,
    editor: EditorView,
    now: u64,
    action: Action,
)
    requires
        event_effect(before, after, event, editor, now, action),
    ensures
        event is Key || event is Resize ==> after.needs_redraw,
        event is Mouse && before.config.ui.mouse ==> after.needs_redraw,
        before.needs_redraw ==> after.needs_redraw,
        event is Resize ==> action == Action::Nothing && after.document_scroll
            == before.document_scroll,
{
}

// ---------------------------------------------------------------------------
// What stays in view
// ---------------------------------------------------------------------------
/// Switching between rendered text and raw source keeps the cursor in view.
pub proof fn law_switching_the_view_keeps_the_cursor_in_view(
    before: WritermApp,
    after: WritermApp,
    key: Key,
    editor: EditorView,
    now: u64,
    action: Action,
)
    requires
        before.prompt_mode is None,
        before.areas.document.height >= 1,
        key.ctrl && key.code == KeyCode::Char('m'),
        key_effect(before, after, key, editor, now, action),
    ensures
        display_of(after.shown_rows(editor.text@), editor.cursor) matches Some((row, _))
            ==> after.document_scroll <= row < after.document_scroll
            + after.areas.document.height,
        after.desired_display_col is None,
{
    let switched = WritermApp {
        needs_redraw: true,
        source_peek: !before.source_peek,
        desired_display_col: None,
        ..before
    };
    crate::session::law_cursor_row_is_in_view(switched, editor);
}

/// The words that are counted before the cursor are those that have started
/// before it, and a cursor behind the text is at its end.
pub proof fn law_progress_counts_words_that_have_started(editor: EditorView, i: int)
    requires
        0 <= i < crate::metrics::words(editor.text@),
    ensures
        crate::metrics::word_start_list(editor.text@).len() == crate::metrics::words(editor.text@),
        i < crate::session::progress(editor).0 <==> crate::metrics::word_start_list(
            editor.text@,
        )[i] < editor.cursor,
        crate::session::progress(editor).1 == crate::metrics::words(editor.text@),
        editor.cursor >= editor.text@.len() ==> crate::session::progress(editor).0
            == crate::session::progress(editor).1,
{
    let text = editor.text@;
    let pos = if editor.cursor < text.len() {
        editor.cursor as int
    } else {
        text.len() as int
    };
    crate::metrics::lemma_word_starts(text, pos);
    crate::metrics::law_word_progress(text, pos);
}

} // verus!
