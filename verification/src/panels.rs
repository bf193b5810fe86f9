//! What the panels around the document show: the ribbon, the bottom bar, the
//! headings, the files, the metrics and the gutter of heading markers.

use crate::layout::{
    control_area, label_area, law_labels_are_where_they_are_drawn, stands_at, Rect,
};
use crate::metrics::{format_reading_time, reading_label, DocumentMetrics};
use crate::paths::markdown_path;
use crate::style::{patched, plain, Color, Line, Span, SpanModel, Style, BOLD};
use crate::text::{
    all_ascii, decimal, decimal_string, fitting, glyphs_of, group_views, repeat_char, truncate, views,
};
use crate::workspace::{EntryModel, WorkspaceEntry, WorkspaceEntryKind};
use vstd::prelude::*;

verus! {

broadcast use group_views;

/// The colours of the theme.
#[derive(Debug, Clone, Copy)]
pub struct Palette {
    pub accent_cyan: Color,
    pub accent_green: Color,
    pub accent_yellow: Color,
    pub bg_active: Color,
    pub bg_dark: Color,
    pub bg_highlight: Color,
    pub bg_surface: Color,
    pub border_unfocused: Color,
    pub dir_color: Color,
    pub heading_h1: Color,
    pub heading_h2: Color,
    pub heading_h3: Color,
    pub heading_h4: Color,
    pub heading_h5: Color,
    pub heading_h6: Color,
    pub notify_error_bg: Color,
    pub notify_error_fg: Color,
    pub selection_bg: Color,
    pub status_bg: Color,
    pub status_fg: Color,
    pub text_bright: Color,
    pub text_dim: Color,
    pub text_primary: Color,
    pub text_secondary: Color,
}

/// Text in a colour.
pub open spec fn in_color(color: Color) -> Style {
    Style { fg: Some(color), ..plain() }
}

/// Text on a background.
pub open spec fn on_color(color: Color) -> Style {
    Style { bg: Some(color), ..plain() }
}

/// Text in a colour on a background.
pub open spec fn in_on(fg: Color, bg: Color) -> Style {
    Style { fg: Some(fg), bg: Some(bg), ..plain() }
}

/// Bold text in a style.
pub open spec fn bold(style: Style) -> Style {
    Style {
        add_modifier: style.add_modifier | BOLD,
        sub_modifier: style.sub_modifier & !BOLD,
        ..style
    }
}

fn colored(fg: Color) -> (style: Style)
    ensures
        style == in_color(fg),
{
    Style::default().fg(fg)
}

fn text_of(text: &str) -> (s: String)
    ensures
        s@ == text@,
{
    text.to_string()
}

/// The style of sidebar borders and separators.
pub fn separator_style(palette: &Palette) -> (style: Style)
    ensures
        style == in_color(palette.border_unfocused),
{
    colored(palette.border_unfocused)
}

// ---------------------------------------------------------------------------
// The ribbon
// ---------------------------------------------------------------------------
/// What the ribbon tells of the document.
#[derive(Debug)]
pub struct RibbonFacts {
    /// The name of the file.
    pub name: String,
    pub dirty: bool,
    pub cursor_word: usize,
    pub total_words: usize,
    /// The heading that the cursor is under, or nothing.
    pub heading: String,
    /// The path of the file.
    pub path: String,
    pub notification: Option<String>,
}

/// What is added to the ribbon for a notification.
pub open spec fn message_part(notification: Option<String>) -> Seq<char> {
    match notification {
        Some(text) => " | "@ + text@,
        None => seq![],
    }
}

/// The text of the ribbon, for the heading and path as they are cut.
pub open spec fn ribbon_text(facts: RibbonFacts, heading: Seq<char>, path: Seq<char>) -> Seq<
    char,
> {
    " "@ + facts.name@ + " | "@ + (if facts.dirty {
        "dirty"@
    } else {
        "saved"@
    }) + " | "@ + decimal(facts.cursor_word as nat) + " / "@ + decimal(facts.total_words as nat)
        + " words | "@ + heading + " | "@ + path + message_part(facts.notification)
}

/// The ribbon names the file, then whether it is saved, and ends in the message
/// that there is; the words before the cursor and all words are counted between.
pub proof fn law_the_ribbon_tells_the_state(
    facts: RibbonFacts,
    heading: Seq<char>,
    path: Seq<char>,
)
    ensures
        ({
            let text = ribbon_text(facts, heading, path);
            let state = facts.name@.len() as int + 4;
            let words = state + 8;
            let before = decimal(facts.cursor_word as nat);
            let all = decimal(facts.total_words as nat);
            &&& stands_at(text, facts.name@, 1)
            &&& stands_at(
                text,
                if facts.dirty {
                    seq!['d', 'i', 'r', 't', 'y']
                } else {
                    seq!['s', 'a', 'v', 'e', 'd']
                },
                state,
            )
            &&& stands_at(text, before, words)
            &&& stands_at(text, all, words + before.len() + 3)
            &&& match facts.notification {
                Some(message) => stands_at(text, message@, text.len() - message@.len()),
                None => stands_at(text, path, text.len() - path.len()),
            }
        }),
{
    reveal_strlit(" ");
    reveal_strlit(" | ");
    reveal_strlit("dirty");
    reveal_strlit("saved");
    reveal_strlit(" / ");
    let text = ribbon_text(facts, heading, path);
    let word = if facts.dirty {
        seq!['d', 'i', 'r', 't', 'y']
    } else {
        seq!['s', 'a', 'v', 'e', 'd']
    };
    let said = if facts.dirty {
        "dirty"@
    } else {
        "saved"@
    };
    assert(said =~= word);
    let state = facts.name@.len() as int + 4;
    let words = state + 8;
    let before = decimal(facts.cursor_word as nat);
    let all = decimal(facts.total_words as nat);
    assert(text.subrange(1, 1 + facts.name@.len() as int) =~= facts.name@);
    assert(text.subrange(state, state + 5) =~= said);
    assert(text.subrange(words, words + before.len()) =~= before);
    let behind = words + before.len() + 3;
    assert(text.subrange(behind, behind + all.len()) =~= all);
    match facts.notification {
        Some(message) => {
            assert(text.subrange(text.len() - message@.len(), text.len() as int) =~= message@);
        },
        None => {
            assert(text.subrange(text.len() - path.len(), text.len() as int) =~= path);
        },
    }
}

/// Composes the text of the ribbon.
pub fn compose_ribbon(facts: &RibbonFacts, heading: &str, path: &str) -> (text: String)
    ensures
        text@ == ribbon_text(*facts, heading@, path@),
{
    let mut text = text_of(" ");
    text.append(facts.name.as_str());
    text.append(" | ");
    text.append(
        if facts.dirty {
            "dirty"
        } else {
            "saved"
        },
    );
    text.append(" | ");
    text.append(decimal_string(facts.cursor_word as u64).as_str());
    text.append(" / ");
    text.append(decimal_string(facts.total_words as u64).as_str());
    text.append(" words | ");
    text.append(heading);
    text.append(" | ");
    text.append(path);
    let ghost before = text@;
    match &facts.notification {
        Some(message) => {
            text.append(" | ");
            text.append(message.as_str());
            proof {
                assert(text@ =~= before + (" | "@ + message@));
            }
        },
        None => {
            proof {
                assert(text@ =~= before + Seq::<char>::empty());
            }
        },
    }
    text
}

/// The cells that a heading has in the ribbon.
pub const RIBBON_HEADING_WIDTH: usize = 28;

/// The cells of the ribbon that the path does not have.
pub const RIBBON_PATH_RESERVE: u16 = 56;

/// The cells that the path has in a ribbon of the given width.
pub open spec fn path_width(width: u16) -> int {
    if width < RIBBON_PATH_RESERVE {
        0
    } else {
        width - RIBBON_PATH_RESERVE
    }
}

/// Cuts the heading and the path, and then the whole ribbon to its width.
pub fn ribbon_line(facts: &RibbonFacts, width: u16) -> (text: String)
    ensures
        text@ == fitting(
            glyphs_of(
                ribbon_text(
                    *facts,
                    fitting(glyphs_of(facts.heading@), RIBBON_HEADING_WIDTH as int),
                    fitting(glyphs_of(facts.path@), path_width(width)),
                ),
            ),
            width as int,
        ),
{
    let heading = truncate(facts.heading.as_str(), RIBBON_HEADING_WIDTH);
    let room: usize = if width < RIBBON_PATH_RESERVE {
        0
    } else {
        (width - RIBBON_PATH_RESERVE) as usize
    };
    let path = truncate(facts.path.as_str(), room);
    let text = compose_ribbon(facts, heading.as_str(), path.as_str());
    truncate(text.as_str(), width as usize)
}

/// The style of the ribbon: that of the status line, or that of an error.
pub fn ribbon_style(is_error: bool, palette: &Palette) -> (style: Style)
    ensures
        style == (if is_error {
            in_on(palette.notify_error_fg, palette.notify_error_bg)
        } else {
            in_on(palette.status_fg, palette.status_bg)
        }),
{
    if is_error {
        Style::default().fg(palette.notify_error_fg).bg(palette.notify_error_bg)
    } else {
        Style::default().fg(palette.status_fg).bg(palette.status_bg)
    }
}

/// The badge that names the mode.
#[derive(Debug)]
pub struct Badge {
    pub text: String,
    pub style: Style,
    pub area: Rect,
}

/// The text of the badge.
pub open spec fn badge_text(source_peek: bool) -> Seq<char> {
    if source_peek {
        " SOURCE "@
    } else {
        " WRITE "@
    }
}

/// The badge at the right end of the ribbon; a narrow ribbon has none.
pub fn mode_badge(source_peek: bool, area: Rect, palette: &Palette) -> (badge: Option<Badge>)
    requires
        area.wf(),
    ensures
        match badge {
            Some(b) => {
                &&& area.width >= 8
                &&& b.text@ == badge_text(source_peek)
                &&& b.style == bold(
                    in_on(
                        palette.bg_dark,
                        if source_peek {
                            palette.accent_yellow
                        } else {
                            palette.accent_cyan
                        },
                    ),
                )
                &&& b.area.width == badge_text(source_peek).len()
                &&& b.area.x + b.area.width == area.x + area.width
                &&& b.area.y == area.y
                &&& b.area.height == 1
            },
            None => area.width < 8,
        },
{
    if area.width < 8 {
        return None;
    }
    let text = text_of(
        if source_peek {
            " SOURCE "
        } else {
            " WRITE "
        },
    );
    let width: u16 = if source_peek {
        8
    } else {
        7
    };
    proof {
        reveal_strlit(" SOURCE ");
        reveal_strlit(" WRITE ");
    }
    let color = if source_peek {
        palette.accent_yellow
    } else {
        palette.accent_cyan
    };
    let style = Style::default().fg(palette.bg_dark).bg(color).add_modifier(BOLD);
    Some(
        Badge {
            text,
            style,
            area: Rect { x: area.x + (area.width - width), y: area.y, width, height: 1 },
        },
    )
}

// ---------------------------------------------------------------------------
// The bottom bar
// ---------------------------------------------------------------------------
/// The switches that the bottom bar shows.
#[derive(Debug, Clone, Copy)]
pub struct Switches {
    pub source_peek: bool,
    pub indent: bool,
    pub headings: bool,
    pub files: bool,
}

/// A switch in words.
pub open spec fn on_off(on: bool) -> Seq<char> {
    if on {
        "on"@
    } else {
        "off"@
    }
}

fn on_or_off(on: bool) -> (word: &'static str)
    ensures
        word@ == on_off(on),
{
    if on {
        "on"
    } else {
        "off"
    }
}

/// The text of the bottom bar.
pub open spec fn bar_text(s: Switches) -> Seq<char> {
    " WRITERM | ^S:save  ^B/I/K:fmt  ^N:new  ^Q:quit | [^M:render "@ + on_off(!s.source_peek)
        + "] [F4:indent "@ + on_off(s.indent) + "] "@ + headings_label(s.headings) + " "@
        + files_label(s.files) + " "@
}

/// The label that switches the headings sidebar.
pub open spec fn headings_label(on: bool) -> Seq<char> {
    "[F3:hd "@ + on_off(on) + "]"@
}

/// The label that switches the files sidebar.
pub open spec fn files_label(on: bool) -> Seq<char> {
    "[F2:files "@ + on_off(on) + "]"@
}

fn headings_label_text(on: bool) -> (label: String)
    ensures
        label@ == headings_label(on),
{
    let mut label = text_of("[F3:hd ");
    label.append(on_or_off(on));
    label.append("]");
    label
}

fn files_label_text(on: bool) -> (label: String)
    ensures
        label@ == files_label(on),
{
    let mut label = text_of("[F2:files ");
    label.append(on_or_off(on));
    label.append("]");
    label
}

/// Composes the text of the bottom bar.
pub fn bottom_bar_text(s: Switches) -> (text: String)
    ensures
        text@ == bar_text(s),
{
    let mut text = text_of(" WRITERM | ^S:save  ^B/I/K:fmt  ^N:new  ^Q:quit | [^M:render ");
    text.append(on_or_off(!s.source_peek));
    text.append("] [F4:indent ");
    text.append(on_or_off(s.indent));
    text.append("] ");
    text.append(headings_label_text(s.headings).as_str());
    text.append(" ");
    text.append(files_label_text(s.files).as_str());
    text.append(" ");
    text
}

/// The labels of the bottom bar that can be clicked.
#[derive(Debug, Clone, Copy)]
pub struct Controls {
    pub headings: Rect,
    pub files: Rect,
}

/// Where the labels of the bottom bar stand.
pub open spec fn control_areas(area: Rect, s: Switches) -> Controls {
    Controls {
        headings: label_area(area, bar_text(s), headings_label(s.headings)),
        files: label_area(area, bar_text(s), files_label(s.files)),
    }
}

proof fn lemma_ascii_add(a: Seq<char>, b: Seq<char>)
    requires
        all_ascii(a),
        all_ascii(b),
    ensures
        all_ascii(a + b),
{
    assert forall|i: int| 0 <= i < (a + b).len() implies crate::text::ascii(
        #[trigger] (a + b)[i],
    ) by {
        if i < a.len() {
            assert((a + b)[i] == a[i]);
        } else {
            assert((a + b)[i] == b[i - a.len()]);
        }
    }
}

proof fn lemma_labels_are_ascii(on: bool)
    ensures
        all_ascii(on_off(on)),
        all_ascii(headings_label(on)),
        all_ascii(files_label(on)),
{
    reveal_strlit("on");
    reveal_strlit("off");
    reveal_strlit("[F3:hd ");
    reveal_strlit("[F2:files ");
    reveal_strlit("]");
    assert(all_ascii(on_off(on)));
    assert(all_ascii("[F3:hd "@));
    assert(all_ascii("[F2:files "@));
    assert(all_ascii("]"@));
    lemma_ascii_add("[F3:hd "@, on_off(on));
    lemma_ascii_add("[F3:hd "@ + on_off(on), "]"@);
    lemma_ascii_add("[F2:files "@, on_off(on));
    lemma_ascii_add("[F2:files "@ + on_off(on), "]"@);
}

/// What a switch is said to be in a label, up to its end.
pub open spec fn label_end(on: bool) -> Seq<char> {
    if on {
        seq!['o', 'n', ']']
    } else {
        seq!['o', 'f', 'f', ']']
    }
}

proof fn lemma_label_texts(on: bool)
    ensures
        headings_label(on) == seq!['[', 'F', '3', ':', 'h', 'd', ' '] + label_end(on),
        files_label(on) == seq!['[', 'F', '2', ':', 'f', 'i', 'l', 'e', 's', ' '] + label_end(on),
        headings_label(on).len() > 0,
        files_label(on).len() > 0,
{
    reveal_strlit("on");
    reveal_strlit("off");
    reveal_strlit("[F3:hd ");
    reveal_strlit("[F2:files ");
    reveal_strlit("]");
    assert("[F3:hd "@ =~= seq!['[', 'F', '3', ':', 'h', 'd', ' ']);
    assert("[F2:files "@ =~= seq!['[', 'F', '2', ':', 'f', 'i', 'l', 'e', 's', ' ']);
    assert(on_off(on) + "]"@ =~= label_end(on));
    assert(headings_label(on) =~= "[F3:hd "@ + (on_off(on) + "]"@));
    assert(files_label(on) =~= "[F2:files "@ + (on_off(on) + "]"@));
}

/// What stands in the bottom bar before the labels.
spec fn bar_front(s: Switches) -> Seq<char> {
    " WRITERM | ^S:save  ^B/I/K:fmt  ^N:new  ^Q:quit | [^M:render "@ + on_off(!s.source_peek)
        + "] [F4:indent "@ + on_off(s.indent) + "] "@
}

proof fn lemma_bar_is_ascii(s: Switches)
    ensures
        all_ascii(bar_text(s)),
{
    let first = " WRITERM | ^S:save  ^B/I/K:fmt  ^N:new  ^Q:quit | [^M:render "@;
    let mode = on_off(!s.source_peek);
    let indent = on_off(s.indent);
    assert(all_ascii(first)) by {
        reveal_strlit(" WRITERM | ^S:save  ^B/I/K:fmt  ^N:new  ^Q:quit | [^M:render ");
    }
    assert(all_ascii("] [F4:indent "@) && all_ascii("] "@) && all_ascii(" "@)) by {
        reveal_strlit("] [F4:indent ");
        reveal_strlit("] ");
        reveal_strlit(" ");
    }
    lemma_labels_are_ascii(!s.source_peek);
    lemma_labels_are_ascii(s.indent);
    lemma_labels_are_ascii(s.headings);
    lemma_labels_are_ascii(s.files);
    lemma_ascii_add(first, mode);
    lemma_ascii_add(first + mode, "] [F4:indent "@);
    lemma_ascii_add(first + mode + "] [F4:indent "@, indent);
    lemma_ascii_add(first + mode + "] [F4:indent "@ + indent, "] "@);
    let front = bar_front(s);
    lemma_ascii_add(front, headings_label(s.headings));
    lemma_ascii_add(front + headings_label(s.headings), " "@);
    lemma_ascii_add(front + headings_label(s.headings) + " "@, files_label(s.files));
    lemma_ascii_add(
        front + headings_label(s.headings) + " "@ + files_label(s.files),
        " "@,
    );
}

proof fn lemma_labels_stand_in_the_bar(s: Switches) -> (at: (int, int))
    ensures
        stands_at(bar_text(s), headings_label(s.headings), at.0),
        stands_at(bar_text(s), files_label(s.files), at.1),
{
    let front = bar_front(s);
    let headings = headings_label(s.headings);
    let files = files_label(s.files);
    let text = bar_text(s);
    assert(text == front + headings + " "@ + files + " "@);
    let at = front.len() as int;
    let behind = at + headings.len() + " "@.len();
    assert(text.subrange(at, at + headings.len()) =~= headings);
    assert(text.subrange(behind, behind + files.len()) =~= files);
    (at, behind)
}

/// The labels of the bottom bar are where they are drawn: on a bar that has room
/// for its text, what is drawn in the area that switches a sidebar is the label
/// that names its key.
pub proof fn law_labels_switch_what_they_name(area: Rect, s: Switches)
    requires
        area.wf(),
        area.height >= 1,
        bar_text(s).len() <= area.width,
    ensures
        ({
            let text = bar_text(s);
            let controls = control_areas(area, s);
            let headings = controls.headings.x - area.x;
            let files = controls.files.x - area.x;
            &&& 0 <= headings && headings + controls.headings.width <= text.len()
            &&& 0 <= files && files + controls.files.width <= text.len()
            &&& controls.headings.y == area.y && controls.headings.height == 1
            &&& controls.files.y == area.y && controls.files.height == 1
            &&& text.subrange(headings, headings + controls.headings.width)
                == seq!['[', 'F', '3', ':', 'h', 'd', ' '] + label_end(s.headings)
            &&& text.subrange(files, files + controls.files.width)
                == seq!['[', 'F', '2', ':', 'f', 'i', 'l', 'e', 's', ' '] + label_end(s.files)
        }),
{
    let text = bar_text(s);
    lemma_bar_is_ascii(s);
    let (at, behind) = lemma_labels_stand_in_the_bar(s);
    lemma_label_texts(s.headings);
    lemma_label_texts(s.files);
    law_labels_are_where_they_are_drawn(area, text, headings_label(s.headings), at);
    law_labels_are_where_they_are_drawn(area, text, files_label(s.files), behind);
}

/// Where the labels of the bottom bar stand.
pub fn set_control_areas(area: Rect, s: Switches) -> (controls: Controls)
    requires
        area.wf(),
    ensures
        controls == control_areas(area, s),
{
    let text = bottom_bar_text(s);
    let headings = headings_label_text(s.headings);
    let files = files_label_text(s.files);
    Controls {
        headings: control_area(area, text.as_str(), headings.as_str()),
        files: control_area(area, text.as_str(), files.as_str()),
    }
}

/// The style of the bottom bar.
pub fn status_style(palette: &Palette) -> (style: Style)
    ensures
        style == in_on(palette.status_fg, palette.status_bg),
{
    Style::default().fg(palette.status_fg).bg(palette.status_bg)
}

/// The prompt for the name of a new file, cut to the width.
pub fn prompt_line(buffer: &str, width: u16) -> (text: String)
    ensures
        text@ == fitting(glyphs_of(" New Markdown file: "@ + buffer@), width as int),
{
    let mut text = text_of(" New Markdown file: ");
    text.append(buffer);
    truncate(text.as_str(), width as usize)
}

/// The style of the prompt.
pub fn prompt_style(palette: &Palette) -> (style: Style)
    ensures
        style == in_on(palette.text_bright, palette.bg_active),
{
    Style::default().fg(palette.text_bright).bg(palette.bg_active)
}

/// The title of the files sidebar, cut to the width.
pub fn files_title(cwd: &str, width: u16) -> (title: String)
    ensures
        title@ == fitting(glyphs_of(" Files: "@ + cwd@ + " "@), width as int),
{
    let mut title = text_of(" Files: ");
    title.append(cwd);
    title.append(" ");
    truncate(title.as_str(), width as usize)
}

/// The style of sidebar titles.
pub fn title_style(palette: &Palette) -> (style: Style)
    ensures
        style == bold(in_color(palette.text_secondary)),
{
    colored(palette.text_secondary).add_modifier(BOLD)
}

// ---------------------------------------------------------------------------
// The file browser
// ---------------------------------------------------------------------------
/// The icon of an entry, and the styles of icon and name.
#[derive(Debug, Clone, Copy)]
pub struct EntryLook {
    pub icon: char,
    pub icon_style: Style,
    pub name_style: Style,
}

/// How an entry looks.
pub open spec fn look(entry: EntryModel, palette: Palette) -> EntryLook {
    match entry.kind {
        WorkspaceEntryKind::Parent => EntryLook {
            icon: '\u{2190}',
            icon_style: in_color(palette.text_dim),
            name_style: in_color(palette.text_dim),
        },
        WorkspaceEntryKind::Directory => EntryLook {
            icon: '/',
            icon_style: in_color(palette.dir_color),
            name_style: in_color(palette.text_primary),
        },
        WorkspaceEntryKind::File => if markdown_path(entry.name) {
            EntryLook {
                icon: 'M',
                icon_style: bold(in_color(palette.accent_green)),
                name_style: in_color(palette.accent_green),
            }
        } else {
            EntryLook {
                icon: 'T',
                icon_style: in_color(palette.text_dim),
                name_style: in_color(palette.text_secondary),
            }
        },
    }
}

/// How an entry looks.
pub fn entry_look(entry: &WorkspaceEntry, palette: &Palette) -> (l: EntryLook)
    ensures
        l == look(entry@, *palette),
{
    match entry.kind {
        WorkspaceEntryKind::Parent => EntryLook {
            icon: '\u{2190}',
            icon_style: colored(palette.text_dim),
            name_style: colored(palette.text_dim),
        },
        WorkspaceEntryKind::Directory => EntryLook {
            icon: '/',
            icon_style: colored(palette.dir_color),
            name_style: colored(palette.text_primary),
        },
        WorkspaceEntryKind::File => if crate::paths::is_markdown_path(entry.name.as_str()) {
            EntryLook {
                icon: 'M',
                icon_style: colored(palette.accent_green).add_modifier(BOLD),
                name_style: colored(palette.accent_green),
            }
        } else {
            EntryLook {
                icon: 'T',
                icon_style: colored(palette.text_dim),
                name_style: colored(palette.text_secondary),
            }
        },
    }
}

/// What lies under an entry: the highlight of the selection or the panel.
pub open spec fn entry_base(selected: bool, palette: Palette) -> Style {
    if selected {
        bold(on_color(palette.bg_highlight))
    } else {
        on_color(palette.bg_surface)
    }
}

/// The line of an entry, for its name as it is cut.
pub open spec fn entry_line(
    entry: EntryModel,
    name: Seq<char>,
    selected: bool,
    palette: Palette,
) -> Seq<SpanModel> {
    let l = look(entry, palette);
    let base = entry_base(selected, palette);
    seq![
        SpanModel {
            content: seq![
                if selected {
                    '>'
                } else {
                    ' '
                },
            ],
            style: patched(l.icon_style, base),
        },
        SpanModel { content: seq![' ', l.icon, ' '], style: patched(l.icon_style, base) },
        SpanModel { content: name, style: patched(l.name_style, base) },
    ]
}

/// Draws the line of an entry.
pub fn draw_entry(entry: &WorkspaceEntry, name: String, selected: bool, palette: &Palette) -> (line:
    Line)
    ensures
        line@ == entry_line(entry@, name@, selected, *palette),
{
    let l = entry_look(entry, palette);
    let base = if selected {
        Style::default().bg(palette.bg_highlight).add_modifier(BOLD)
    } else {
        Style::default().bg(palette.bg_surface)
    };
    let icon_style = l.icon_style.patch(base);
    let name_style = l.name_style.patch(base);
    let cursor = repeat_char(
        if selected {
            '>'
        } else {
            ' '
        },
        1,
    );
    let mut icon = repeat_char(' ', 1);
    icon.push(l.icon);
    icon.push(' ');
    proof {
        assert(cursor@ =~= seq![
            if selected {
                '>'
            } else {
                ' '
            },
        ]);
        assert(icon@ =~= seq![' ', l.icon, ' ']);
    }
    let mut spans: Vec<Span> = Vec::new();
    spans.push(Span { content: cursor, style: icon_style });
    spans.push(Span { content: icon, style: icon_style });
    spans.push(Span { content: name, style: name_style });
    let line = Line { spans };
    proof {
        assert(line@ =~= entry_line(entry@, name@, selected, *palette));
    }
    line
}

/// The cells of an entry's line that its name does not have.
pub const ENTRY_RESERVE: u16 = 5;

/// The cells that a name has on a line of the given width.
pub open spec fn name_width(width: u16) -> int {
    if width < ENTRY_RESERVE {
        0
    } else {
        width - ENTRY_RESERVE
    }
}

/// The lines of the file browser: up to `height` entries from `scroll` on.
pub open spec fn entry_lines(
    entries: Seq<EntryModel>,
    selection: int,
    scroll: int,
    height: int,
    width: u16,
    palette: Palette,
) -> Seq<Seq<SpanModel>> {
    let left = if scroll < entries.len() {
        entries.len() - scroll
    } else {
        0
    };
    Seq::new(
        (if height < left {
            height
        } else {
            left
        }) as nat,
        |i: int|
            entry_line(
                entries[scroll + i],
                fitting(glyphs_of(entries[scroll + i].name), name_width(width)),
                scroll + i == selection,
                palette,
            ),
    )
}

/// The line of an entry fits the panel: behind the mark of the selection, the
/// icon and its blanks, the name has the cells that are left but one.
pub proof fn law_entries_leave_room_for_their_icon(
    entry: EntryModel,
    name: Seq<char>,
    width: u16,
    palette: Palette,
)
    requires
        width >= 5,
    ensures
        ({
            let shown = entry_line(entry, name, true, palette);
            let plain = entry_line(entry, name, false, palette);
            &&& shown[0].content.len() + shown[1].content.len() + name_width(width) + 1 == width
            &&& shown[0].content == seq!['>'] && plain[0].content == seq![' ']
            &&& shown[1].content == plain[1].content
            &&& shown[2].content == name && plain[2].content == name
        }),
{
}

/// Every icon names one kind of entry: the parent directory, a folder, Markdown
/// or another file.
pub proof fn law_icons_tell_kinds_apart(a: EntryModel, b: EntryModel, palette: Palette)
    ensures
        look(a, palette).icon == look(b, palette).icon <==> a.kind == b.kind && (a.kind
            == WorkspaceEntryKind::File ==> markdown_path(a.name) == markdown_path(b.name)),
        a.kind == WorkspaceEntryKind::Directory ==> look(a, palette).icon == '/',
        a.kind == WorkspaceEntryKind::File && markdown_path(a.name) ==> look(a, palette).icon
            == 'M',
{
}

/// Draws the lines of the file browser.
pub fn draw_entries(
    entries: &Vec<WorkspaceEntry>,
    selection: usize,
    scroll: u16,
    height: u16,
    width: u16,
    palette: &Palette,
) -> (drawn: Vec<Line>)
    ensures
        views(drawn@) == entry_lines(
            views(entries@),
            selection as int,
            scroll as int,
            height as int,
            width,
            *palette,
        ),
{
    let mut drawn: Vec<Line> = Vec::new();
    let first: usize = scroll as usize;
    let mut at: usize = first;
    let room: usize = if width < ENTRY_RESERVE {
        0
    } else {
        (width - ENTRY_RESERVE) as usize
    };
    let ghost target = entry_lines(
        views(entries@),
        selection as int,
        scroll as int,
        height as int,
        width,
        *palette,
    );
    proof {
        assert(views(drawn@) =~= target.take(0));
    }
    while at < entries.len() && at - first < height as usize
        invariant
            first == scroll,
            first <= at,
            at - first <= target.len(),
            room == name_width(width),
            target == entry_lines(
                views(entries@),
                selection as int,
                scroll as int,
                height as int,
                width,
                *palette,
            ),
            views(drawn@) == target.take(at - first),
        decreases entries@.len() - at,
    {
        let entry = &entries[at];
        let name = truncate(entry.name.as_str(), room);
        let line = draw_entry(entry, name, at == selection, palette);
        proof {
            assert(target[at - first] == line@);
            assert(target.take(at - first + 1) =~= target.take(at - first).push(line@));
        }
        drawn.push(line);
        at = at + 1;
    }
    proof {
        assert(target.take(at - first) =~= target);
    }
    drawn
}

// ---------------------------------------------------------------------------
// The metrics
// ---------------------------------------------------------------------------
/// A number with its unit.
pub open spec fn counted(n: nat, unit: Seq<char>) -> Seq<char> {
    decimal(n) + unit
}

fn count_text(n: usize, unit: &str) -> (text: String)
    ensures
        text@ == counted(n as nat, unit@),
{
    let mut text = decimal_string(n as u64);
    text.append(unit);
    text
}

/// The styles of values and labels.
pub open spec fn value_style(palette: Palette) -> Style {
    bold(in_color(palette.accent_cyan))
}

/// Values with separators between them.
pub open spec fn value_line(values: Seq<Seq<char>>, palette: Palette) -> Seq<SpanModel>
    decreases values.len(),
{
    if values.len() == 0 {
        seq![]
    } else if values.len() == 1 {
        seq![SpanModel { content: values[0], style: value_style(palette) }]
    } else {
        value_line(values.drop_last(), palette).push(
            SpanModel { content: " · "@, style: in_color(palette.text_dim) },
        ).push(SpanModel { content: values.last(), style: value_style(palette) })
    }
}

fn draw_values(values: Vec<String>, palette: &Palette) -> (line: Line)
    ensures
        line@ == value_line(views(values@), *palette),
{
    let value = colored(palette.accent_cyan).add_modifier(BOLD);
    let label = colored(palette.text_dim);
    let mut spans: Vec<Span> = Vec::new();
    let ghost all = views(values@);
    proof {
        assert(all.take(0) =~= seq![]);
        assert(views(spans@) =~= value_line(all.take(0), *palette));
    }
    for text in it: values
        invariant
            it.seq() == values@,
            all == views(values@),
            value == value_style(*palette),
            label == in_color(palette.text_dim),
            views(spans@) == value_line(all.take(it.index() as int), *palette),
            it.index() > 0 <==> spans@.len() > 0,
    {
        let ghost i = it.index() as int;
        proof {
            assert(all.take(i + 1).drop_last() =~= all.take(i));
            assert(all.take(i + 1).last() == text@);
        }
        if spans.len() > 0 {
            spans.push(Span { content: text_of(" · "), style: label });
        }
        spans.push(Span { content: text, style: value });
        proof {
            assert(views(spans@) =~= value_line(all.take(i + 1), *palette));
        }
    }
    proof {
        assert(all.take(all.len() as int) =~= all);
    }
    Line { spans }
}

fn single(a: String) -> (list: Vec<String>)
    ensures
        views(list@) == seq![a@],
{
    let mut list: Vec<String> = Vec::new();
    list.push(a);
    proof {
        assert(views(list@) =~= seq![a@]);
    }
    list
}

fn pair(a: String, b: String) -> (list: Vec<String>)
    ensures
        views(list@) == seq![a@, b@],
{
    let mut list: Vec<String> = Vec::new();
    list.push(a);
    list.push(b);
    proof {
        assert(views(list@) =~= seq![a@, b@]);
    }
    list
}

/// The reading time, as it is shown.
pub open spec fn reading_value(metrics: DocumentMetrics) -> Seq<char> {
    reading_label(metrics.reading_secs as nat) + " read"@
}

/// The lines of the metrics panel. A higher panel has more of them; the title
/// is as it is cut.
pub open spec fn metric_lines(
    metrics: DocumentMetrics,
    title: Seq<char>,
    height: u16,
    palette: Palette,
) -> Seq<Seq<SpanModel>> {
    let head = seq![
        SpanModel { content: title, style: bold(in_color(palette.text_secondary)) },
    ];
    let amount = value_line(
        seq![
            counted(metrics.words as nat, " w"@),
            counted(metrics.characters as nat, " ch"@),
        ],
        palette,
    );
    let sentences = counted(metrics.sentences as nat, " sent"@);
    let paragraphs = counted(metrics.paragraphs as nat, " para"@);
    let structure = value_line(seq![sentences, paragraphs], palette);
    let all = value_line(seq![sentences, paragraphs, reading_value(metrics)], palette);
    let reading = value_line(seq![reading_value(metrics)], palette);
    if height == 0 {
        seq![]
    } else if height == 1 {
        seq![reading]
    } else if height == 2 {
        seq![amount, all]
    } else if height == 3 {
        seq![head, amount, all]
    } else {
        seq![head, amount, structure, reading]
    }
}

/// The metrics fill a panel of up to four rows, and have four in a higher one.
/// The reading time is on the last of them. From two rows on, one has the words
/// and the characters, and the next the sentences and the paragraphs; from three
/// on the title is above.
pub proof fn law_metrics_fill_the_panel(
    metrics: DocumentMetrics,
    title: Seq<char>,
    height: u16,
    palette: Palette,
)
    ensures
        ({
            let drawn = metric_lines(metrics, title, height, palette);
            &&& drawn.len() == (if height < 4 {
                height as nat
            } else {
                4
            })
            &&& height > 0 ==> drawn.last().last().content == reading_label(
                metrics.reading_secs as nat,
            ) + " read"@
            &&& height >= 2 ==> drawn[if height < 3 {
                0
            } else {
                1
            }][0].content == decimal(metrics.words as nat) + " w"@
            &&& height >= 2 ==> drawn[if height < 3 {
                0
            } else {
                1
            }][2].content == decimal(metrics.characters as nat) + " ch"@
            &&& height >= 2 ==> {
                let line = drawn[if height < 3 {
                    1
                } else {
                    2
                }];
                &&& line[0].content == decimal(metrics.sentences as nat) + " sent"@
                &&& line[2].content == decimal(metrics.paragraphs as nat) + " para"@
            }
            &&& height >= 3 ==> drawn[0][0].content == title
        }),
{
    reveal_with_fuel(value_line, 4);
}

/// Draws the metrics panel, for its title as it is cut.
pub fn draw_metrics(metrics: &DocumentMetrics, title: String, height: u16, palette: &Palette) -> (
    drawn: Vec<Line>)
    ensures
        views(drawn@) == metric_lines(*metrics, title@, height, *palette),
{
    let mut drawn: Vec<Line> = Vec::new();
    if height == 0 {
        proof {
            assert(views(drawn@) =~= metric_lines(*metrics, title@, height, *palette));
        }
        return drawn;
    }
    let mut head: Vec<Span> = Vec::new();
    head.push(Span { content: title, style: title_style(palette) });
    let head = Line { spans: head };
    let amount = draw_values(
        pair(count_text(metrics.words, " w"), count_text(metrics.characters, " ch")),
        palette,
    );
    let mut reading = format_reading_time(metrics.reading_secs);
    reading.append(" read");
    let sentences = count_text(metrics.sentences, " sent");
    let paragraphs = count_text(metrics.paragraphs, " para");
    proof {
        assert(head@ =~= seq![
            SpanModel { content: title@, style: bold(in_color(palette.text_secondary)) },
        ]);
    }
    if height == 1 {
        drawn.push(draw_values(single(reading), palette));
    } else if height <= 3 {
        if height == 3 {
            drawn.push(head);
        }
        drawn.push(amount);
        let mut values = pair(sentences, paragraphs);
        values.push(reading);
        proof {
            assert(views(values@) =~= seq![sentences@, paragraphs@, reading@]);
        }
        drawn.push(draw_values(values, palette));
    } else {
        drawn.push(head);
        drawn.push(amount);
        drawn.push(draw_values(pair(sentences, paragraphs), palette));
        drawn.push(draw_values(single(reading), palette));
    }
    proof {
        assert(views(drawn@) =~= metric_lines(*metrics, title@, height, *palette));
    }
    drawn
}

/// Draws the metrics panel.
pub fn metrics_lines(metrics: &DocumentMetrics, width: u16, height: u16, palette: &Palette) -> (
    drawn: Vec<Line>)
    ensures
        views(drawn@) == metric_lines(
            *metrics,
            fitting(glyphs_of("── Doc ──"@), width as int),
            height,
            *palette,
        ),
{
    let title = truncate("── Doc ──", width as usize);
    draw_metrics(metrics, title, height, palette)
}

} // verus!
