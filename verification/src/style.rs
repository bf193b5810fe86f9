//! Colours, text styles and styled text, as plain values.

use crate::text::views;
use vstd::prelude::*;

verus! {

/// A terminal colour.
#[derive(Debug, Clone, Copy, PartialEq, Eq, Structural)]
pub enum Color {
    Reset,
    Black,
    Red,
    Green,
    Yellow,
    Blue,
    Magenta,
    Cyan,
    Gray,
    DarkGray,
    LightRed,
    LightGreen,
    LightYellow,
    LightBlue,
    LightMagenta,
    LightCyan,
    White,
    Rgb(u8, u8, u8),
    Indexed(u8),
}

/// The modifier bit of bold text.
pub const BOLD: u16 = 1;

/// A text style. A colour that is `None` leaves the colour below as it is;
/// `add_modifier` and `sub_modifier` are sets of modifier bits to switch on
/// and off.
#[derive(Debug, Clone, Copy, PartialEq, Eq, Structural)]
pub struct Style {
    pub fg: Option<Color>,
    pub bg: Option<Color>,
    pub underline_color: Option<Color>,
    pub add_modifier: u16,
    pub sub_modifier: u16,
}

/// `over` if it is there, else `under`.
pub open spec fn prefer(over: Option<Color>, under: Option<Color>) -> Option<Color> {
    if over is Some {
        over
    } else {
        under
    }
}

/// The style that changes nothing.
pub open spec fn plain() -> Style {
    Style {
        fg: None,
        bg: None,
        underline_color: None,
        add_modifier: 0,
        sub_modifier: 0,
    }
}

/// `under` with `over` laid on it: the colours of `over` win, and of the
/// modifiers that `over` names, those it adds are on and those it takes away
/// are off.
pub open spec fn patched(under: Style, over: Style) -> Style {
    Style {
        fg: prefer(over.fg, under.fg),
        bg: prefer(over.bg, under.bg),
        underline_color: prefer(over.underline_color, under.underline_color),
        add_modifier: (under.add_modifier & !over.sub_modifier) | over.add_modifier,
        sub_modifier: (under.sub_modifier & !over.add_modifier) | over.sub_modifier,
    }
}

fn over_or_under(over: Option<Color>, under: Option<Color>) -> (color: Option<Color>)
    ensures
        color == prefer(over, under),
{
    match over {
        Some(c) => Some(c),
        None => under,
    }
}

impl Default for Style {
    fn default() -> (style: Style)
        ensures
            style == plain(),
    {
        Style { fg: None, bg: None, underline_color: None, add_modifier: 0, sub_modifier: 0 }
    }
}

impl Style {
    /// This style with the foreground colour `color`.
    pub fn fg(self, color: Color) -> (style: Style)
        ensures
            style == (Style { fg: Some(color), ..self }),
    {
        Style { fg: Some(color), ..self }
    }

    /// This style with the background colour `color`.
    pub fn bg(self, color: Color) -> (style: Style)
        ensures
            style == (Style { bg: Some(color), ..self }),
    {
        Style { bg: Some(color), ..self }
    }

    /// This style with the modifier bits `modifier` switched on.
    pub fn add_modifier(self, modifier: u16) -> (style: Style)
        ensures
            style == (Style {
                add_modifier: self.add_modifier | modifier,
                sub_modifier: self.sub_modifier & !modifier,
                ..self
            }),
    {
        Style {
            add_modifier: self.add_modifier | modifier,
            sub_modifier: self.sub_modifier & !modifier,
            ..self
        }
    }

    /// Lays `over` on this style.
    pub fn patch(self, over: Style) -> (style: Style)
        ensures
            style == patched(self, over),
    {
        Style {
            fg: over_or_under(over.fg, self.fg),
            bg: over_or_under(over.bg, self.bg),
            underline_color: over_or_under(over.underline_color, self.underline_color),
            add_modifier: (self.add_modifier & !over.sub_modifier) | over.add_modifier,
            sub_modifier: (self.sub_modifier & !over.add_modifier) | over.sub_modifier,
        }
    }
}

/// Laying a style on twice is the same as laying it on once, when it does not
/// switch one modifier both on and off.
pub proof fn law_patch_is_idempotent(under: Style, over: Style)
    requires
        over.add_modifier & over.sub_modifier == 0,
    ensures
        patched(patched(under, over), over) == patched(under, over),
{
    let a = under.add_modifier;
    let s = under.sub_modifier;
    let x = over.add_modifier;
    let y = over.sub_modifier;
    assert((((a & !y) | x) & !y) | x == (a & !y) | x) by (bit_vector)
        requires
            x & y == 0u16,
    ;
    assert((((s & !x) | y) & !x) | y == (s & !x) | y) by (bit_vector)
        requires
            x & y == 0u16,
    ;
}

/// The style that changes nothing changes nothing.
pub proof fn law_plain_patch_changes_nothing(under: Style)
    ensures
        patched(under, plain()) == under,
{
    let a = under.add_modifier;
    let s = under.sub_modifier;
    assert((a & !0u16) | 0u16 == a) by (bit_vector);
    assert((s & !0u16) | 0u16 == s) by (bit_vector);
}

// ---------------------------------------------------------------------------
// Styled text
// ---------------------------------------------------------------------------
/// A run of text in one style.
#[derive(Debug, Clone)]
pub struct Span {
    pub content: String,
    pub style: Style,
}

/// What a [`Span`] holds.
pub struct SpanModel {
    pub content: Seq<char>,
    pub style: Style,
}

impl View for Span {
    type V = SpanModel;

    open spec fn view(&self) -> SpanModel {
        SpanModel { content: self.content@, style: self.style }
    }
}

/// The text of some spans.
pub open spec fn spans_text(spans: Seq<SpanModel>) -> Seq<char>
    decreases spans.len(),
{
    if spans.len() == 0 {
        seq![]
    } else {
        spans_text(spans.drop_last()) + spans.last().content
    }
}

/// `spans` with `content` in `style` written behind it: it joins the last span
/// where that has the same style.
pub open spec fn push_span(
    spans: Seq<SpanModel>,
    content: Seq<char>,
    style: Style,
) -> Seq<SpanModel> {
    if spans.len() > 0 && spans.last().style == style {
        spans.drop_last().push(SpanModel { content: spans.last().content + content, style })
    } else {
        spans.push(SpanModel { content, style })
    }
}

/// A line of styled text.
#[derive(Debug, Clone)]
pub struct Line {
    pub spans: Vec<Span>,
}

impl View for Line {
    type V = Seq<SpanModel>;

    open spec fn view(&self) -> Seq<SpanModel> {
        views(self.spans@)
    }
}

/// Lines of styled text.
#[derive(Debug, Clone)]
pub struct Text {
    pub lines: Vec<Line>,
}

impl View for Text {
    type V = Seq<Seq<SpanModel>>;

    open spec fn view(&self) -> Seq<Seq<SpanModel>> {
        views(self.lines@)
    }
}

impl Span {
    /// A copy of this span.
    pub fn copied(&self) -> (span: Span)
        ensures
            span@ == self@,
    {
        Span { content: self.content.clone(), style: self.style }
    }
}

impl Line {
    /// The text of the line without its styles.
    pub fn to_string(&self) -> (s: String)
        ensures
            s@ == spans_text(self@),
    {
        let mut s = String::new();
        let mut i: usize = 0;
        while i < self.spans.len()
            invariant
                i <= self.spans@.len(),
                s@ == spans_text(self@.take(i as int)),
            decreases self.spans@.len() - i,
        {
            proof {
                assert(self@.take(i + 1).drop_last() == self@.take(i as int));
            }
            let content = self.spans[i].content.as_str();
            s.append(content);
            i = i + 1;
        }
        proof {
            assert(self@.take(i as int) == self@);
        }
        s
    }
}

/// Copies spans.
pub fn copy_spans(spans: &Vec<Span>) -> (out: Vec<Span>)
    ensures
        views(out@) == views(spans@),
{
    let mut out: Vec<Span> = Vec::new();
    let mut i: usize = 0;
    while i < spans.len()
        invariant
            i <= spans@.len(),
            views(out@) == views(spans@).take(i as int),
        decreases spans@.len() - i,
    {
        let span = spans[i].copied();
        let ghost before = out@;
        out.push(span);
        proof {
            assert(views(out@) == views(before).push(span@));
            assert(views(spans@).take(i + 1) == views(spans@).take(i as int).push(
                spans@[i as int]@,
            ));
        }
        i = i + 1;
    }
    out
}

/// Writes `content` in `style` behind `spans`.
pub fn push_cell_span(spans: &mut Vec<Span>, content: &str, style: Style)
    ensures
        views(final(spans)@) == push_span(views(old(spans)@), content@, style),
{
    let n: usize = spans.len();
    if n > 0 && spans[n - 1].style == style {
        let ghost before = spans@;
        let mut last = spans.pop().unwrap();
        last.content.append(content);
        let ghost joined = last@;
        spans.push(last);
        proof {
            assert(views(spans@) == views(before).drop_last().push(joined));
        }
    } else {
        let ghost before = spans@;
        let mut text = String::new();
        text.append(content);
        let span = Span { content: text, style };
        proof {
            assert(span.content@ == content@);
        }
        let ghost pushed = span@;
        spans.push(span);
        proof {
            assert(views(spans@) == views(before).push(pushed));
        }
    }
}

/// Writing behind spans adds to their text.
pub proof fn lemma_push_span_text(spans: Seq<SpanModel>, content: Seq<char>, style: Style)
    ensures
        spans_text(push_span(spans, content, style)) == spans_text(spans) + content,
{
    let out = push_span(spans, content, style);
    if spans.len() > 0 && spans.last().style == style {
        assert(out.drop_last() == spans.drop_last());
    } else {
        assert(out.drop_last() == spans);
    }
}

/// The style of character `i` of some spans.
pub open spec fn style_at(spans: Seq<SpanModel>, i: int) -> Style
    decreases spans.len(),
{
    if spans.len() == 0 {
        plain()
    } else if i < spans_text(spans.drop_last()).len() {
        style_at(spans.drop_last(), i)
    } else {
        spans.last().style
    }
}

/// What is written behind some spans has its own style, and what stands there
/// keeps its style. Spans of one style are joined: where no two neighbours had
/// the same, none have.
pub proof fn law_written_text_has_its_style(
    spans: Seq<SpanModel>,
    content: Seq<char>,
    style: Style,
    i: int,
)
    requires
        0 <= i < spans_text(spans).len() + content.len(),
    ensures
        style_at(push_span(spans, content, style), i) == (if i < spans_text(spans).len() {
            style_at(spans, i)
        } else {
            style
        }),
        (forall|k: int|
            0 < k < spans.len() ==> (#[trigger] spans[k]).style != spans[k - 1].style) ==> forall|
            k: int,
        |
            0 < k < push_span(spans, content, style).len() ==> (#[trigger] push_span(
                spans,
                content,
                style,
            )[k]).style != push_span(spans, content, style)[k - 1].style,
{
    let out = push_span(spans, content, style);
    lemma_push_span_text(spans, content, style);
    if spans.len() > 0 && spans.last().style == style {
        assert(out.drop_last() == spans.drop_last());
    } else {
        assert(out.drop_last() == spans);
    }
}

/// Laid on another, a style decides what it names: each of its colours is seen,
/// a modifier that it adds is on, and one that it takes away and does not add is
/// off. What it does not name stays.
pub proof fn law_patches_decide_what_they_name(under: Style, over: Style, bit: u16)
    ensures
        over.fg is Some ==> patched(under, over).fg == over.fg,
        over.fg is None ==> patched(under, over).fg == under.fg,
        over.bg is Some ==> patched(under, over).bg == over.bg,
        over.bg is None ==> patched(under, over).bg == under.bg,
        over.add_modifier & bit == bit ==> patched(under, over).add_modifier & bit == bit,
        over.sub_modifier & bit == bit && over.add_modifier & bit == 0 ==> patched(
            under,
            over,
        ).add_modifier & bit == 0,
        over.sub_modifier & bit == 0 && over.add_modifier & bit == 0 ==> patched(
            under,
            over,
        ).add_modifier & bit == under.add_modifier & bit,
{
    let a = under.add_modifier;
    let x = over.add_modifier;
    let y = over.sub_modifier;
    assert(x & bit == bit ==> ((a & !y) | x) & bit == bit) by (bit_vector);
    assert(y & bit == bit && x & bit == 0 ==> ((a & !y) | x) & bit == 0) by (bit_vector);
    assert(y & bit == 0 && x & bit == 0 ==> ((a & !y) | x) & bit == a & bit) by (bit_vector);
}

} // verus!
