//! First-line indents: which rows of a document start a prose paragraph.

use crate::style::{plain, Span, SpanModel, Style};
use crate::text::{
    byte_len, byte_offsets, from_chars, group_views, lemma_bytes_increase, lemma_lines, line_starts,
    lines, repeat_char, repeated, split_lines, to_chars, trim, trim_bounds, utf8_len_of, views,
};
use crate::visual::{RowModel, VisualDocument, VisualRow};
use vstd::prelude::*;

verus! {

broadcast use group_views;

/// The columns of a first-line indent.
pub const INDENT_WIDTH: usize = 2;

// ---------------------------------------------------------------------------
// Lines
// ---------------------------------------------------------------------------
/// A line without the carriage return of its line end.
pub open spec fn line_content(line: Seq<char>) -> Seq<char> {
    if line.len() > 0 && line.last() == '\r' {
        line.drop_last()
    } else {
        line
    }
}

/// The contents of the lines of a text.
pub open spec fn contents(text: Seq<char>) -> Seq<Seq<char>> {
    Seq::new(lines(text).len(), |k: int| line_content(lines(text)[k]))
}

/// The character of a code fence, for a trimmed line that begins with at least
/// three backticks or three tildes.
pub open spec fn fence_char(trimmed: Seq<char>) -> Option<char> {
    if trimmed.len() >= 3 && (trimmed[0] == '`' || trimmed[0] == '~') && trimmed[1] == trimmed[0]
        && trimmed[2] == trimmed[0] {
        Some(trimmed[0])
    } else {
        None
    }
}

/// The fence characters of some lines.
pub open spec fn fences(contents: Seq<Seq<char>>) -> Seq<Option<char>> {
    Seq::new(contents.len(), |k: int| fence_char(trim(contents[k])))
}

/// The fence that is open before line `k`.
pub open spec fn open_fence(marks: Seq<Option<char>>, k: int) -> Option<char>
    decreases k,
{
    if k <= 0 {
        None
    } else {
        match open_fence(marks, k - 1) {
            Some(c) => if marks[k - 1] == Some(c) {
                None
            } else {
                Some(c)
            },
            None => marks[k - 1],
        }
    }
}

/// A line behind `k` closes a fence of `c`.
pub open spec fn closes_after(marks: Seq<Option<char>>, c: char, k: int) -> bool {
    exists|j: int| k < j < marks.len() && #[trigger] marks[j] == Some(c)
}

/// Line `k` is code inside a fence: a fence is open, and the line does not
/// close it. In a fence that is never closed, no marker counts as code.
pub open spec fn in_fence(marks: Seq<Option<char>>, k: int) -> bool {
    match open_fence(marks, k) {
        Some(c) => marks[k] != Some(c) && (closes_after(marks, c, k) || marks[k] is None),
        None => false,
    }
}

/// White space in ASCII.
pub open spec fn ascii_white(c: char) -> bool {
    c == ' ' || c == '\t' || c == '\n' || c == '\u{c}' || c == '\r'
}

/// A line of nothing but ASCII white space.
pub open spec fn blank_line(content: Seq<char>) -> bool {
    forall|i: int| 0 <= i < content.len() ==> ascii_white(#[trigger] content[i])
}

/// A line that starts with a tab or four spaces.
pub open spec fn deeply_indented(content: Seq<char>) -> bool {
    ||| content.len() > 0 && content[0] == '\t'
    ||| content.len() >= 4 && content[0] == ' ' && content[1] == ' ' && content[2] == ' '
        && content[3] == ' '
}

/// Line `k` belongs to an indented code block: it is deeply indented, and the
/// line above it is blank or belongs to the block. The first line never does.
pub open spec fn in_indented_code(contents: Seq<Seq<char>>, k: int) -> bool
    decreases k,
{
    k > 0 && !blank_line(contents[k]) && deeply_indented(contents[k]) && (blank_line(
        contents[k - 1],
    ) || in_indented_code(contents, k - 1))
}

/// The last of the first `n` lines that starts at or before `pos`, or the first.
pub open spec fn line_of(starts: Seq<int>, n: int, pos: int) -> int
    decreases n,
{
    if n <= 1 {
        0
    } else if starts[n - 1] <= pos {
        n - 1
    } else {
        line_of(starts, n - 1, pos)
    }
}

/// The line of a text that holds the character `pos`.
pub open spec fn line_at(text: Seq<char>, pos: int) -> int {
    line_of(line_starts(text), line_starts(text).len() as int, pos)
}

// ---------------------------------------------------------------------------
// Prose
// ---------------------------------------------------------------------------
/// A bullet: a marker that stands alone or before a space.
pub open spec fn bullet(t: Seq<char>) -> bool {
    &&& t.len() > 0
    &&& t[0] == '-' || t[0] == '*' || t[0] == '+'
    &&& t.len() == 1 || t[1] == ' '
}

/// An ASCII digit.
pub open spec fn digit(c: char) -> bool {
    '0' <= c <= '9'
}

/// The number of digits at the start.
pub open spec fn leading_digits(t: Seq<char>) -> int
    decreases t.len(),
{
    if t.len() > 0 && digit(t[0]) {
        1 + leading_digits(t.skip(1))
    } else {
        0
    }
}

/// `t` has `a` and `b` at `i`.
pub open spec fn pair_at(t: Seq<char>, i: int, a: char, b: char) -> bool {
    i + 1 < t.len() && t[i] == a && t[i + 1] == b
}

/// An ordered list item: digits, then a dot and a space, a dot and a
/// parenthesis, or a parenthesis and a space.
pub open spec fn ordered_item(t: Seq<char>) -> bool {
    let n = leading_digits(t);
    n > 0 && (pair_at(t, n, '.', ' ') || pair_at(t, n, '.', ')') || pair_at(t, n, ')', ' '))
}

/// How often `c` occurs.
pub open spec fn occurrences(t: Seq<char>, c: char) -> nat
    decreases t.len(),
{
    if t.len() == 0 {
        0
    } else {
        occurrences(t.drop_last(), c) + if t.last() == c {
            1nat
        } else {
            0
        }
    }
}

/// A thematic break: three or more of one rule character, and spaces.
pub open spec fn thematic_break(t: Seq<char>) -> bool {
    &&& t.len() > 0
    &&& t[0] == '-' || t[0] == '*' || t[0] == '_' || t[0] == '='
    &&& forall|i: int| 0 <= i < t.len() ==> #[trigger] t[i] == t[0] || t[i] == ' '
    &&& occurrences(t, t[0]) >= 3
}

/// A trimmed line of ordinary prose: no table row, heading, list item, quote,
/// code fence or rule, and not empty.
pub open spec fn prose(t: Seq<char>) -> bool {
    &&& t.len() > 0
    &&& t[0] != '|' && t[0] != '#' && t[0] != '>'
    &&& !bullet(t)
    &&& !ordered_item(t)
    &&& fence_char(t) is None
    &&& !thematic_break(t)
}

/// A marker right before any other character than a space is no bullet.
pub proof fn law_bullets_need_a_space(t: Seq<char>)
    requires
        t.len() > 1,
        t[1] != ' ',
    ensures
        !bullet(t),
{
}

/// A list item is no prose: a marker that stands alone, or before a space and
/// whatever follows.
pub proof fn law_list_items_are_no_prose(marker: char, rest: Seq<char>)
    requires
        seq!['-', '*', '+'].contains(marker),
    ensures
        !prose(seq![marker]),
        !prose(seq![marker, ' '] + rest),
{
    let markers = seq!['-', '*', '+'];
    assert(markers[0] == '-' && markers[1] == '*' && markers[2] == '+');
    let item = seq![marker, ' '] + rest;
    assert(item[0] == marker && item[1] == ' ');
}

/// A line that begins with emphasis is prose, and so is one that begins with a
/// minus, a plus or an equals sign right before other text: a mark with no
/// space behind it makes prose of a line that holds anything but that mark and
/// spaces.
pub proof fn law_emphasis_is_prose(t: Seq<char>, i: int)
    requires
        1 < t.len(),
        seq!['-', '*', '+', '_', '='].contains(t[0]),
        t[1] != ' ',
        0 <= i < t.len(),
        t[i] != t[0] && t[i] != ' ',
    ensures
        prose(t),
{
    let marks = seq!['-', '*', '+', '_', '='];
    assert(marks[0] == '-' && marks[1] == '*' && marks[2] == '+' && marks[3] == '_' && marks[4]
        == '=');
    let k = choose|k: int| 0 <= k < marks.len() && marks[k] == t[0];
    assert(k == 0 || k == 1 || k == 2 || k == 3 || k == 4);
}

/// A line that begins with a letter is prose: with any character that is
/// neither a digit nor one of those that begin blocks.
pub proof fn law_letters_begin_prose(t: Seq<char>)
    requires
        t.len() > 0,
        !digit(t[0]),
        !seq!['|', '#', '>', '-', '*', '+', '_', '=', '`', '~'].contains(t[0]),
    ensures
        prose(t),
{
    let marks = seq!['|', '#', '>', '-', '*', '+', '_', '=', '`', '~'];
    assert(marks[0] == '|' && marks[1] == '#' && marks[2] == '>' && marks[3] == '-' && marks[4]
        == '*' && marks[5] == '+' && marks[6] == '_' && marks[7] == '=' && marks[8] == '`'
        && marks[9] == '~');
}

proof fn lemma_leading_digits(d: Seq<char>, rest: Seq<char>)
    requires
        forall|i: int| 0 <= i < d.len() ==> digit(#[trigger] d[i]),
        rest.len() == 0 || !digit(rest[0]),
    ensures
        leading_digits(d + rest) == d.len(),
    decreases d.len(),
{
    if d.len() == 0 {
        assert(d + rest =~= rest);
    } else {
        assert((d + rest)[0] == d[0]);
        assert((d + rest).skip(1) =~= d.skip(1) + rest);
        lemma_leading_digits(d.skip(1), rest);
    }
}

/// A line that begins with a number is prose, unless the number is that of a
/// list item: a dot or a parenthesis and a space follow it, or a dot and a
/// parenthesis.
pub proof fn law_numbers_begin_prose_or_items(d: Seq<char>, rest: Seq<char>)
    requires
        d.len() > 0,
        forall|i: int| 0 <= i < d.len() ==> digit(#[trigger] d[i]),
        rest.len() == 0 || !digit(rest[0]),
    ensures
        rest.len() < 2 ==> prose(d + rest),
        rest.len() >= 2 ==> (prose(d + rest) <==> !seq![
            seq!['.', ' '],
            seq!['.', ')'],
            seq![')', ' '],
        ].contains(rest.take(2))),
{
    lemma_leading_digits(d, rest);
    let t = d + rest;
    let n = d.len() as int;
    assert(t[0] == d[0]);
    if rest.len() >= 2 {
        let ends = seq![seq!['.', ' '], seq!['.', ')'], seq![')', ' ']];
        assert(ends[0] == seq!['.', ' '] && ends[1] == seq!['.', ')'] && ends[2] == seq![')', ' ']);
        assert(t[n] == rest[0] && t[n + 1] == rest[1]);
        let two = rest.take(2);
        assert(two[0] == rest[0] && two[1] == rest[1]);
        assert(pair_at(t, n, '.', ' ') ==> two =~= ends[0]);
        assert(pair_at(t, n, '.', ')') ==> two =~= ends[1]);
        assert(pair_at(t, n, ')', ' ') ==> two =~= ends[2]);
        if ends.contains(two) {
            let k = choose|k: int| 0 <= k < ends.len() && ends[k] == two;
            assert(k == 0 || k == 1 || k == 2);
            assert(ends[k][0] == rest[0] && ends[k][1] == rest[1]);
        }
    }
}

proof fn lemma_occurrences(t: Seq<char>, c: char)
    requires
        forall|i: int| 0 <= i < t.len() ==> #[trigger] t[i] == c,
    ensures
        occurrences(t, c) == t.len(),
    decreases t.len(),
{
    if t.len() > 0 {
        assert(t.last() == t[t.len() - 1]);
        lemma_occurrences(t.drop_last(), c);
    }
}

/// A rule of at least three equal characters is no prose; two of them are.
pub proof fn law_rules_are_no_prose(rule: char, n: nat)
    requires
        seq!['-', '*', '_', '='].contains(rule),
    ensures
        n >= 3 ==> !prose(repeated(rule, n)),
        prose(repeated(rule, 2)),
{
    let rules = seq!['-', '*', '_', '='];
    assert(rules[0] == '-' && rules[1] == '*' && rules[2] == '_' && rules[3] == '=');
    let k = choose|k: int| 0 <= k < rules.len() && rules[k] == rule;
    assert(k == 0 || k == 1 || k == 2 || k == 3);
    lemma_occurrences(repeated(rule, n), rule);
    lemma_occurrences(repeated(rule, 2), rule);
    assert(repeated(rule, 2)[1] == rule);
    if n >= 3 {
        assert(repeated(rule, n)[0] == rule);
    }
}

/// Spaces between the characters of a rule do not count: a line of one rule
/// character and spaces is a rule if and only if it is one without them.
pub proof fn law_spaces_in_rules_do_not_count(a: Seq<char>, b: Seq<char>)
    requires
        a.len() > 0,
        a[0] != ' ',
    ensures
        thematic_break(a + seq![' '] + b) <==> thematic_break(a + b),
{
    let spaced = a + seq![' '] + b;
    let plain = a + b;
    assert(spaced[0] == a[0] && plain[0] == a[0]);
    lemma_occurrences_add(a + seq![' '], b, a[0]);
    lemma_occurrences_add(a, seq![' '], a[0]);
    lemma_occurrences_add(a, b, a[0]);
    assert(seq![' '].drop_last() =~= seq![]);
    assert(occurrences(seq![' '], a[0]) == 0) by {
        reveal_with_fuel(occurrences, 2);
    }
    if forall|i: int| 0 <= i < spaced.len() ==> #[trigger] spaced[i] == a[0] || spaced[i] == ' ' {
        assert forall|i: int| 0 <= i < plain.len() implies #[trigger] plain[i] == a[0] || plain[i]
            == ' ' by {
            if i < a.len() {
                assert(plain[i] == spaced[i]);
            } else {
                assert(plain[i] == spaced[i + 1]);
            }
        }
    }
    if forall|i: int| 0 <= i < plain.len() ==> #[trigger] plain[i] == a[0] || plain[i] == ' ' {
        assert forall|i: int| 0 <= i < spaced.len() implies #[trigger] spaced[i] == a[0]
            || spaced[i] == ' ' by {
            if i < a.len() {
                assert(plain[i] == spaced[i]);
            } else if i > a.len() {
                assert(plain[i - 1] == spaced[i]);
            }
        }
    }
}

proof fn lemma_occurrences_add(a: Seq<char>, b: Seq<char>, c: char)
    ensures
        occurrences(a + b, c) == occurrences(a, c) + occurrences(b, c),
    decreases b.len(),
{
    if b.len() == 0 {
        assert(a + b =~= a);
    } else {
        lemma_occurrences_add(a, b.drop_last(), c);
        assert((a + b).drop_last() =~= a + b.drop_last());
    }
}

/// A line that begins with three backticks or three tildes is a fence and no
/// prose; one or two of them begin code inside a line, which is prose.
pub proof fn law_fences_take_three_characters(c: char, rest: Seq<char>)
    requires
        c == '`' || c == '~',
    ensures
        fence_char(seq![c, c, c] + rest) == Some(c),
        !prose(seq![c, c, c] + rest),
        rest.len() == 0 || rest[0] != c ==> {
            &&& fence_char(seq![c, c] + rest) is None
            &&& fence_char(seq![c] + rest) is None
            &&& prose(seq![c, c] + rest)
            &&& prose(seq![c] + rest)
        },
{
    let three = seq![c, c, c] + rest;
    let two = seq![c, c] + rest;
    let one = seq![c] + rest;
    assert(three[0] == c && three[1] == c && three[2] == c);
    assert(two[0] == c && two[1] == c && one[0] == c);
    assert(rest.len() > 0 ==> two[2] == rest[0] && one[1] == rest[0]);
}

/// Table rows, headings and quotes are no prose.
pub proof fn law_blocks_are_no_prose(first: char, rest: Seq<char>)
    requires
        first == '|' || first == '#' || first == '>',
    ensures
        !prose(seq![first] + rest),
{
    assert((seq![first] + rest)[0] == first);
}

// ---------------------------------------------------------------------------
// Code blocks
// ---------------------------------------------------------------------------
/// The lines between two fences of one character are code, and the fences are
/// not: from a fence that no open fence holds, up to the next fence of its
/// character, whatever other fences lie between. Behind that no fence is open.
pub proof fn law_fenced_lines_are_code(marks: Seq<Option<char>>, c: char, from: int, to: int)
    requires
        0 <= from < to < marks.len(),
        open_fence(marks, from) is None,
        marks[from] == Some(c),
        marks[to] == Some(c),
        forall|k: int| from < k < to ==> #[trigger] marks[k] != Some(c),
    ensures
        forall|k: int| from < k < to ==> #[trigger] in_fence(marks, k),
        !in_fence(marks, from),
        !in_fence(marks, to),
        open_fence(marks, to + 1) is None,
{
    lemma_fence_stays_open(marks, c, from, to);
    assert forall|k: int| from < k < to implies #[trigger] in_fence(marks, k) by {
        lemma_fence_stays_open(marks, c, from, k);
        assert(marks[to] == Some(c));
    }
}

proof fn lemma_fence_stays_open(marks: Seq<Option<char>>, c: char, from: int, k: int)
    requires
        0 <= from < k <= marks.len(),
        open_fence(marks, from) is None,
        marks[from] == Some(c),
        forall|j: int| from < j < k ==> #[trigger] marks[j] != Some(c),
    ensures
        open_fence(marks, k) == Some(c),
    decreases k,
{
    if k > from + 1 {
        lemma_fence_stays_open(marks, c, from, k - 1);
        assert(marks[k - 1] != Some(c));
    }
}

/// A fence that is never closed is open to the end: every line behind it is code
/// but those that look like a fence themselves.
pub proof fn law_fences_may_stay_open(marks: Seq<Option<char>>, c: char, from: int, k: int)
    requires
        0 <= from < k < marks.len(),
        open_fence(marks, from) is None,
        marks[from] == Some(c),
        forall|j: int| from < j < marks.len() ==> #[trigger] marks[j] != Some(c),
    ensures
        open_fence(marks, k) == Some(c),
        in_fence(marks, k) <==> marks[k] is None,
{
    lemma_fence_stays_open(marks, c, from, k);
    assert(marks[k] != Some(c));
}

/// Without fences no line is fenced, and none is open.
pub proof fn law_no_fences_no_fenced_lines(marks: Seq<Option<char>>, k: int)
    requires
        0 <= k < marks.len(),
        forall|j: int| 0 <= j < k ==> #[trigger] marks[j] is None,
    ensures
        open_fence(marks, k) is None,
        !in_fence(marks, k),
    decreases k,
{
    if k > 0 {
        law_no_fences_no_fenced_lines(marks, k - 1);
        assert(marks[k - 1] is None);
    }
}

/// Deeply indented lines below a blank line are code, all of them; below any
/// other line of text they go on with that text, and are none.
pub proof fn law_indented_code_needs_a_blank_line(contents: Seq<Seq<char>>, above: int, k: int)
    requires
        0 <= above < k < contents.len(),
        forall|j: int|
            above < j <= k ==> !blank_line(#[trigger] contents[j]) && deeply_indented(contents[j]),
        blank_line(contents[above]) || !deeply_indented(contents[above]),
    ensures
        in_indented_code(contents, k) <==> blank_line(contents[above]),
    decreases k,
{
    reveal_with_fuel(in_indented_code, 2);
    assert(!blank_line(contents[k]) && deeply_indented(contents[k]));
    if k > above + 1 {
        law_indented_code_needs_a_blank_line(contents, above, k - 1);
        assert(!blank_line(contents[k - 1]) && deeply_indented(contents[k - 1]));
    }
}

/// A tab or four spaces indent deeply; three spaces do not.
pub proof fn law_four_spaces_indent_deeply(rest: Seq<char>, n: nat)
    ensures
        deeply_indented(seq!['\t'] + rest),
        n >= 4 ==> deeply_indented(repeated(' ', n) + rest),
        n < 4 && (rest.len() == 0 || (rest[0] != ' ' && rest[0] != '\t')) ==> !deeply_indented(
            repeated(' ', n) + rest,
        ),
{
    assert((seq!['\t'] + rest)[0] == '\t');
    let line = repeated(' ', n) + rest;
    if n >= 4 {
        assert(line[0] == ' ' && line[1] == ' ' && line[2] == ' ' && line[3] == ' ');
    } else if rest.len() > 0 && rest[0] != ' ' && rest[0] != '\t' {
        assert(line[n as int] == rest[0]);
        if n > 0 {
            assert(line[0] == ' ');
        }
    } else if rest.len() == 0 && n > 0 {
        assert(line[0] == ' ');
    }
}

/// A carriage return before a newline belongs to the line end, not to the line.
pub proof fn law_line_ends_may_have_a_carriage_return(a: Seq<char>, b: Seq<char>)
    requires
        a.len() == 0 || a.last() != '\r',
    ensures
        contents(a + seq!['\r', '\n'] + b) == contents(a) + contents(b),
        contents(a + seq!['\n'] + b) == contents(a) + contents(b),
{
    crate::text::law_newlines_separate_lines(a.push('\r'), b);
    crate::text::law_newlines_separate_lines(a, b);
    assert(a + seq!['\r', '\n'] + b =~= a.push('\r') + seq!['\n'] + b);
    assert(a.push('\r').drop_last() =~= a);
    lemma_lines(a);
    let before = lines(a);
    assert(lines(a.push('\r')) == before.drop_last().push(before.last().push('\r')));
    let last = before.last();
    assert(last.push('\r').drop_last() =~= last);
    if last.len() > 0 {
        assert(last == a.subrange(a.len() - last.len(), a.len() as int));
        assert(last.last() == a.last());
    }
    let n = before.len() as int;
    let with_return = contents(a + seq!['\r', '\n'] + b);
    let all = contents(a) + contents(b);
    assert forall|k: int| 0 <= k < all.len() implies with_return[k] == all[k] by {
        if k == n - 1 {
            assert(lines(a.push('\r'))[k] == last.push('\r'));
        } else if k < n - 1 {
            assert(lines(a.push('\r'))[k] == before[k]);
        }
    }
    assert(with_return =~= all);
    assert(contents(a + seq!['\n'] + b) =~= all);
}

fn is_bullet(chars: &Vec<char>, from: usize, to: usize) -> (b: bool)
    requires
        from < to <= chars@.len(),
    ensures
        b == bullet(chars@.subrange(from as int, to as int)),
{
    let first = chars[from];
    (first == '-' || first == '*' || first == '+') && (to - from == 1 || chars[from + 1] == ' ')
}

fn is_pair_at(chars: &Vec<char>, at: usize, to: usize, a: char, b: char) -> (found: bool)
    requires
        at <= to <= chars@.len(),
    ensures
        found == (at + 1 < to && chars@[at as int] == a && chars@[at + 1] == b),
{
    to - at >= 2 && chars[at] == a && chars[at + 1] == b
}

fn is_ordered_item(chars: &Vec<char>, from: usize, to: usize) -> (b: bool)
    requires
        from <= to <= chars@.len(),
    ensures
        b == ordered_item(chars@.subrange(from as int, to as int)),
{
    let ghost t = chars@.subrange(from as int, to as int);
    let mut at: usize = from;
    proof {
        assert(t.skip(0) == t);
    }
    while at < to && '0' <= chars[at] && chars[at] <= '9'
        invariant
            from <= at <= to <= chars@.len(),
            t == chars@.subrange(from as int, to as int),
            leading_digits(t) == at - from + leading_digits(t.skip(at - from)),
        decreases to - at,
    {
        proof {
            assert(t.skip(at - from).skip(1) == t.skip(at - from + 1));
        }
        at = at + 1;
    }
    at > from && (is_pair_at(chars, at, to, '.', ' ') || is_pair_at(chars, at, to, '.', ')')
        || is_pair_at(chars, at, to, ')', ' '))
}

fn is_thematic_break(chars: &Vec<char>, from: usize, to: usize) -> (b: bool)
    requires
        from < to <= chars@.len(),
    ensures
        b == thematic_break(chars@.subrange(from as int, to as int)),
{
    let ghost t = chars@.subrange(from as int, to as int);
    let rule = chars[from];
    if rule != '-' && rule != '*' && rule != '_' && rule != '=' {
        return false;
    }
    let mut count: usize = 0;
    let mut at: usize = from;
    while at < to
        invariant
            from <= at <= to <= chars@.len(),
            from < to,
            t == chars@.subrange(from as int, to as int),
            rule == t[0],
            count <= at - from,
            count == occurrences(t.take(at - from), rule),
            forall|i: int| 0 <= i < at - from ==> #[trigger] t[i] == t[0] || t[i] == ' ',
        decreases to - at,
    {
        proof {
            assert(t.take(at - from + 1).drop_last() == t.take(at - from));
            assert(t[at - from] == chars@[at as int]);
        }
        if chars[at] == rule {
            count = count + 1;
        } else if chars[at] != ' ' {
            return false;
        }
        at = at + 1;
    }
    proof {
        assert(t.take(at - from) == t);
    }
    count >= 3
}

/// The fence character of the trimmed line `chars[from..to]`.
fn fence_char_of(chars: &Vec<char>, from: usize, to: usize) -> (fence: Option<char>)
    requires
        from <= to <= chars@.len(),
    ensures
        fence == fence_char(chars@.subrange(from as int, to as int)),
{
    if to - from >= 3 && (chars[from] == '`' || chars[from] == '~') && chars[from + 1]
        == chars[from] && chars[from + 2] == chars[from] {
        Some(chars[from])
    } else {
        None
    }
}

/// The fence character of a trimmed line.
pub fn fence_char_from_line(trimmed: &str) -> (fence: Option<char>)
    ensures
        fence == fence_char(trimmed@),
{
    let chars = to_chars(trimmed);
    proof {
        assert(chars@.subrange(0, chars@.len() as int) == chars@);
    }
    fence_char_of(&chars, 0, chars.len())
}

/// Whether a trimmed line opens or closes a fence of `fence_char`.
pub fn is_fence_marker(trimmed: &str, fence_char: char) -> (b: bool)
    ensures
        b == (crate::indent::fence_char(trimmed@) == Some(fence_char)),
{
    match fence_char_from_line(trimmed) {
        Some(c) => c == fence_char,
        None => false,
    }
}

/// Whether `chars[from..to]` is prose.
fn is_prose(chars: &Vec<char>, from: usize, to: usize) -> (b: bool)
    requires
        from <= to <= chars@.len(),
    ensures
        b == prose(trim(chars@.subrange(from as int, to as int))),
{
    let (start, end) = trim_bounds(chars, from, to);
    if start == end {
        return false;
    }
    let first = chars[start];
    if first == '|' || first == '#' || first == '>' {
        return false;
    }
    !is_bullet(chars, start, end) && !is_ordered_item(chars, start, end) && fence_char_of(
        chars,
        start,
        end,
    ).is_none() && !is_thematic_break(chars, start, end)
}

/// Whether a line is ordinary prose, which gets a first-line indent.
pub fn is_prose_paragraph(line: &str) -> (b: bool)
    ensures
        b == prose(trim(line@)),
{
    let chars = to_chars(line);
    proof {
        assert(chars@.subrange(0, chars@.len() as int) == chars@);
    }
    is_prose(&chars, 0, chars.len())
}

// ---------------------------------------------------------------------------
// Line information
// ---------------------------------------------------------------------------
/// What is known of the lines of a text. Nothing is listed for an empty text.
#[derive(Debug)]
pub struct IndentLineInfo {
    /// Where the content of each line starts and ends, in bytes.
    pub byte_bounds: Vec<(usize, usize)>,
    /// Where each line starts, in characters.
    pub char_starts: Vec<usize>,
    /// Whether each line is code inside a fence.
    pub in_fence: Vec<bool>,
    /// Whether each line belongs to an indented code block.
    pub in_indented_code: Vec<bool>,
}

/// The number of lines that are listed for a text.
pub open spec fn line_count(text: Seq<char>) -> nat {
    if text.len() == 0 {
        0
    } else {
        lines(text).len()
    }
}

/// Where the content of line `k` ends.
pub open spec fn content_end(text: Seq<char>, k: int) -> int {
    line_starts(text)[k] + contents(text)[k].len()
}

impl IndentLineInfo {
    /// This is the information on the lines of `text`.
    pub open spec fn describes(&self, text: Seq<char>) -> bool {
        &&& self.byte_bounds@.len() == line_count(text)
        &&& self.char_starts@.len() == line_count(text)
        &&& self.in_fence@.len() == line_count(text)
        &&& self.in_indented_code@.len() == line_count(text)
        &&& forall|k: int|
            0 <= k < line_count(text) ==> {
                &&& #[trigger] self.char_starts@[k] == line_starts(text)[k]
                &&& self.byte_bounds@[k].0 == byte_len(text.take(line_starts(text)[k]))
                &&& self.byte_bounds@[k].1 == byte_len(text.take(content_end(text, k)))
                &&& self.in_fence@[k] == in_fence(fences(contents(text)), k)
                &&& self.in_indented_code@[k] == in_indented_code(contents(text), k)
            }
    }
}

/// `bounds` are those of the contents of the lines of `text`.
pub open spec fn bounds_of(bounds: Seq<(usize, usize)>, text: Seq<char>) -> bool {
    &&& bounds.len() == lines(text).len()
    &&& forall|k: int|
        0 <= k < bounds.len() ==> {
            &&& (#[trigger] bounds[k]).0 as int == line_starts(text)[k]
            &&& bounds[k].0 <= bounds[k].1 <= text.len()
            &&& contents(text)[k] == text.subrange(bounds[k].0 as int, bounds[k].1 as int)
        }
}

fn content_bounds(chars: &Vec<char>) -> (bounds: Vec<(usize, usize)>)
    ensures
        bounds_of(bounds@, chars@),
{
    let raw = split_lines(chars);
    let mut bounds: Vec<(usize, usize)> = Vec::new();
    let mut k: usize = 0;
    while k < raw.len()
        invariant
            k <= raw@.len(),
            bounds@.len() == k,
            raw@.len() == lines(chars@).len(),
            forall|j: int|
                0 <= j < raw@.len() ==> (
                (#[trigger] raw@[j]).0 as int, raw@[j].1 as int) == crate::text::line_bounds(
                    chars@,
                    j,
                ),
            forall|j: int|
                0 <= j < k ==> {
                    &&& (#[trigger] bounds@[j]).0 as int == line_starts(chars@)[j]
                    &&& bounds@[j].0 <= bounds@[j].1 <= chars@.len()
                    &&& contents(chars@)[j] == chars@.subrange(
                        bounds@[j].0 as int,
                        bounds@[j].1 as int,
                    )
                },
        decreases raw@.len() - k,
    {
        let (start, end) = raw[k];
        proof {
            lemma_lines(chars@);
            assert((start as int, end as int) == crate::text::line_bounds(chars@, k as int));
            assert(lines(chars@)[k as int] == chars@.subrange(start as int, end as int));
        }
        if end > start && chars[end - 1] == '\r' {
            proof {
                assert(chars@.subrange(start as int, end as int).drop_last() == chars@.subrange(
                    start as int,
                    end - 1,
                ));
            }
            bounds.push((start, end - 1));
        } else {
            bounds.push((start, end));
        }
        k = k + 1;
    }
    bounds
}

fn find_fences(chars: &Vec<char>, bounds: &Vec<(usize, usize)>) -> (marks: Vec<Option<char>>)
    requires
        bounds_of(bounds@, chars@),
    ensures
        marks@ == fences(contents(chars@)),
{
    let mut marks: Vec<Option<char>> = Vec::new();
    let mut k: usize = 0;
    while k < bounds.len()
        invariant
            k <= bounds@.len(),
            bounds_of(bounds@, chars@),
            marks@ == fences(contents(chars@)).take(k as int),
        decreases bounds@.len() - k,
    {
        let (from, to) = bounds[k];
        let (start, end) = trim_bounds(chars, from, to);
        let mark = fence_char_of(chars, start, end);
        proof {
            let all = fences(contents(chars@));
            assert(all[k as int] == mark);
            assert(all.take(k + 1) =~= all.take(k as int).push(mark));
        }
        marks.push(mark);
        k = k + 1;
    }
    proof {
        assert(marks@ =~= fences(contents(chars@)));
    }
    marks
}

fn is_mark(mark: Option<char>, c: char) -> (b: bool)
    ensures
        b == (mark == Some(c)),
{
    match mark {
        Some(m) => m == c,
        None => false,
    }
}

/// The first line from `from` on that closes a fence of `c`, or the number of
/// lines.
fn find_close(marks: &Vec<Option<char>>, from: usize, c: char) -> (at: usize)
    requires
        0 < from <= marks@.len(),
        open_fence(marks@, from as int) == Some(c),
    ensures
        from <= at <= marks@.len(),
        at < marks@.len() ==> marks@[at as int] == Some(c),
        forall|k: int| from <= k < at ==> #[trigger] marks@[k] != Some(c),
        forall|k: int| from <= k <= at ==> #[trigger] open_fence(marks@, k) == Some(c),
{
    let mut at: usize = from;
    while at < marks.len() && !is_mark(marks[at], c)
        invariant
            0 < from <= at <= marks@.len(),
            forall|k: int| from <= k < at ==> #[trigger] marks@[k] != Some(c),
            forall|k: int| from <= k <= at ==> #[trigger] open_fence(marks@, k) == Some(c),
        decreases marks@.len() - at,
    {
        proof {
            assert(open_fence(marks@, at as int) == Some(c));
            assert(open_fence(marks@, at + 1) == Some(c));
        }
        at = at + 1;
    }
    at
}

/// Marks the lines that are code inside a fence.
pub fn mark_fence_lines(marks: &Vec<Option<char>>) -> (marked: Vec<bool>)
    ensures
        marked@.len() == marks@.len(),
        forall|k: int| 0 <= k < marks@.len() ==> #[trigger] marked@[k] == in_fence(marks@, k),
{
    let mut marked: Vec<bool> = Vec::new();
    while marked.len() < marks.len()
        invariant
            marked@.len() <= marks@.len(),
            marked@.len() < marks@.len() ==> open_fence(marks@, marked@.len() as int) is None,
            forall|k: int| 0 <= k < marked@.len() ==> #[trigger] marked@[k] == in_fence(marks@, k),
        decreases marks@.len() - marked@.len(),
    {
        let i: usize = marked.len();
        marked.push(false);
        if let Some(c) = marks[i] {
            proof {
                assert(open_fence(marks@, i + 1) == Some(c));
            }
            let close: usize = find_close(marks, i + 1, c);
            let closed = close < marks.len();
            while marked.len() < close
                invariant
                    i + 1 <= marked@.len() <= close <= marks@.len(),
                    closed == (close < marks@.len()),
                    close < marks@.len() ==> marks@[close as int] == Some(c),
                    forall|k: int| i + 1 <= k < close ==> #[trigger] marks@[k] != Some(c),
                    forall|k: int|
                        i + 1 <= k <= close ==> #[trigger] open_fence(marks@, k) == Some(c),
                    forall|k: int|
                        0 <= k < marked@.len() ==> #[trigger] marked@[k] == in_fence(marks@, k),
                decreases close - marked@.len(),
            {
                let k: usize = marked.len();
                proof {
                    assert(open_fence(marks@, k as int) == Some(c));
                    if closed {
                        assert(marks@[close as int] == Some(c));
                        assert(closes_after(marks@, c, k as int));
                    } else {
                        assert(!closes_after(marks@, c, k as int));
                    }
                }
                marked.push(closed || marks[k].is_none());
            }
            if closed {
                proof {
                    assert(open_fence(marks@, close as int) == Some(c));
                    assert(open_fence(marks@, close + 1) is None);
                }
                marked.push(false);
            }
        }
    }
    marked
}

fn is_blank_line(chars: &Vec<char>, from: usize, to: usize) -> (b: bool)
    requires
        from <= to <= chars@.len(),
    ensures
        b == blank_line(chars@.subrange(from as int, to as int)),
{
    let ghost t = chars@.subrange(from as int, to as int);
    let mut at: usize = from;
    while at < to
        invariant
            from <= at <= to <= chars@.len(),
            t == chars@.subrange(from as int, to as int),
            forall|i: int| 0 <= i < at - from ==> ascii_white(#[trigger] t[i]),
        decreases to - at,
    {
        let c = chars[at];
        if !(c == ' ' || c == '\t' || c == '\n' || c == '\u{c}' || c == '\r') {
            proof {
                assert(!ascii_white(t[at - from]));
            }
            return false;
        }
        at = at + 1;
    }
    true
}

fn is_deeply_indented(chars: &Vec<char>, from: usize, to: usize) -> (b: bool)
    requires
        from <= to <= chars@.len(),
    ensures
        b == deeply_indented(chars@.subrange(from as int, to as int)),
{
    (to > from && chars[from] == '\t') || (to - from >= 4 && chars[from] == ' ' && chars[from + 1]
        == ' ' && chars[from + 2] == ' ' && chars[from + 3] == ' ')
}

/// Marks the lines that belong to indented code blocks.
pub fn mark_indented_code_lines(chars: &Vec<char>, bounds: &Vec<(usize, usize)>) -> (marked: Vec<
    bool,
>)
    requires
        bounds_of(bounds@, chars@),
    ensures
        marked@.len() == bounds@.len(),
        forall|k: int|
            0 <= k < bounds@.len() ==> #[trigger] marked@[k] == in_indented_code(
                contents(chars@),
                k,
            ),
{
    let mut marked: Vec<bool> = Vec::new();
    let mut above_allows = false;
    let mut k: usize = 0;
    while k < bounds.len()
        invariant
            k <= bounds@.len(),
            marked@.len() == k,
            bounds_of(bounds@, chars@),
            above_allows == (k > 0 && (blank_line(contents(chars@)[k - 1]) || in_indented_code(
                contents(chars@),
                k - 1,
            ))),
            forall|j: int|
                0 <= j < k ==> #[trigger] marked@[j] == in_indented_code(contents(chars@), j),
        decreases bounds@.len() - k,
    {
        let (from, to) = bounds[k];
        let blank = is_blank_line(chars, from, to);
        let code = above_allows && !blank && is_deeply_indented(chars, from, to);
        marked.push(code);
        above_allows = blank || code;
        k = k + 1;
    }
    marked
}

/// Gathers the information on the lines of a text.
pub fn build_indent_line_info(source_text: &str) -> (info: IndentLineInfo)
    ensures
        info.describes(source_text@),
{
    let chars = to_chars(source_text);
    let mut byte_bounds: Vec<(usize, usize)> = Vec::new();
    let mut char_starts: Vec<usize> = Vec::new();
    if chars.len() == 0 {
        return IndentLineInfo {
            byte_bounds,
            char_starts,
            in_fence: Vec::new(),
            in_indented_code: Vec::new(),
        };
    }
    let bounds = content_bounds(&chars);
    let marks = find_fences(&chars, &bounds);
    let in_fence = mark_fence_lines(&marks);
    let in_indented_code = mark_indented_code_lines(&chars, &bounds);
    let offsets = byte_offsets(source_text);
    let mut k: usize = 0;
    while k < bounds.len()
        invariant
            k <= bounds@.len(),
            chars@ == source_text@,
            char_starts@.len() == k,
            byte_bounds@.len() == k,
            bounds_of(bounds@, chars@),
            offsets@.len() == chars@.len() + 1,
            forall|j: int|
                0 <= j <= chars@.len() ==> #[trigger] offsets@[j] == byte_len(chars@.take(j)),
            forall|j: int|
                0 <= j < k ==> {
                    &&& #[trigger] char_starts@[j] == line_starts(chars@)[j]
                    &&& byte_bounds@[j].0 == byte_len(chars@.take(line_starts(chars@)[j]))
                    &&& byte_bounds@[j].1 == byte_len(chars@.take(content_end(chars@, j)))
                },
        decreases bounds@.len() - k,
    {
        let (from, to) = bounds[k];
        proof {
            assert(content_end(chars@, k as int) == to);
        }
        char_starts.push(from);
        byte_bounds.push((offsets[from], offsets[to]));
        k = k + 1;
    }
    IndentLineInfo { byte_bounds, char_starts, in_fence, in_indented_code }
}

/// The lines that are listed for a text: none for an empty one, else one more
/// than it has newlines. They start one behind the other, and their contents
/// hold no newline and do not end in a carriage return that a newline follows.
pub proof fn law_lines_are_listed(text: Seq<char>)
    ensures
        line_count(text) == (if text.len() == 0 {
            0
        } else {
            1 + occurrences(text, '\n')
        }),
        forall|i: int, j: int|
            0 <= i < j < line_count(text) ==> line_starts(text)[i] < line_starts(text)[j],
        forall|k: int|
            0 <= k < line_count(text) ==> {
                &&& 0 <= #[trigger] line_starts(text)[k] <= content_end(text, k) <= text.len()
                &&& contents(text)[k] == text.subrange(line_starts(text)[k], content_end(text, k))
                &&& !contents(text)[k].contains('\n')
                &&& content_end(text, k) < text.len() ==> text[content_end(text, k)] == '\n' || (
                text[content_end(text, k)] == '\r' && (content_end(text, k) + 1 == text.len()
                    || text[content_end(text, k) + 1] == '\n'))
            },
{
    lemma_lines(text);
    lemma_line_starts_increase(text);
    lemma_lines_and_newlines(text);
    assert forall|k: int| 0 <= k < line_count(text) implies {
        &&& 0 <= #[trigger] line_starts(text)[k] <= content_end(text, k) <= text.len()
        &&& contents(text)[k] == text.subrange(line_starts(text)[k], content_end(text, k))
        &&& !contents(text)[k].contains('\n')
        &&& content_end(text, k) < text.len() ==> text[content_end(text, k)] == '\n' || (
        text[content_end(text, k)] == '\r' && (content_end(text, k) + 1 == text.len()
            || text[content_end(text, k) + 1] == '\n'))
    } by {
        let start = line_starts(text)[k];
        let line = lines(text)[k];
        let content = contents(text)[k];
        let end = start + line.len();
        assert(line == text.subrange(start, end));
        assert(content =~= text.subrange(start, start + content.len()));
        if content.contains('\n') {
            let i = choose|i: int| 0 <= i < content.len() && content[i] == '\n';
            assert(line.contains(line[i]));
        }
        if k + 1 < lines(text).len() {
            crate::text::lemma_next_line(text, k + 1);
            assert(text[end] == '\n');
        } else {
            assert(end == text.len());
        }
        if content.len() < line.len() {
            assert(text[end - 1] == line.last());
        }
    }
}

proof fn lemma_lines_and_newlines(text: Seq<char>)
    ensures
        lines(text).len() == 1 + occurrences(text, '\n'),
    decreases text.len(),
{
    if text.len() > 0 {
        lemma_lines_and_newlines(text.drop_last());
        lemma_lines(text.drop_last());
    }
}

proof fn lemma_line_of(starts: Seq<int>, n: int, pos: int, k: int)
    requires
        0 <= k < n <= starts.len(),
        k == 0 || starts[k] <= pos,
        k + 1 < n ==> starts[k + 1] > pos,
        forall|i: int, j: int| 0 <= i < j < starts.len() ==> starts[i] < starts[j],
    ensures
        line_of(starts, n, pos) == k,
    decreases n,
{
    if n - 1 > k {
        assert(starts[n - 1] > pos) by {
            if n - 1 > k + 1 {
                assert(starts[k + 1] < starts[n - 1]);
            }
        }
        lemma_line_of(starts, n - 1, pos, k);
    }
}

/// The lines of a text start one behind the other.
pub proof fn lemma_line_starts_increase(text: Seq<char>)
    ensures
        forall|i: int, j: int|
            0 <= i < j < line_starts(text).len() ==> line_starts(text)[i] < line_starts(text)[j],
{
    lemma_lines(text);
    assert forall|i: int, j: int| 0 <= i < j < line_starts(text).len() implies line_starts(text)[i]
        < line_starts(text)[j] by {
        assert(line_starts(text)[i] + lines(text)[i].len() < line_starts(text)[j]);
    }
}

/// The line that holds a character lies at it: it starts at or before the
/// character, and the next line starts behind it.
pub proof fn lemma_line_at(text: Seq<char>, pos: int)
    requires
        0 <= pos,
    ensures
        0 <= line_at(text, pos) < lines(text).len(),
        line_starts(text)[line_at(text, pos)] <= pos,
        line_at(text, pos) + 1 < lines(text).len() ==> pos < line_starts(text)[line_at(text, pos)
            + 1],
{
    lemma_lines(text);
    lemma_line_of_bounds(line_starts(text), line_starts(text).len() as int, pos);
}

proof fn lemma_line_of_bounds(starts: Seq<int>, n: int, pos: int)
    requires
        0 < n <= starts.len(),
        starts[0] <= pos,
        n < starts.len() ==> pos < starts[n],
    ensures
        0 <= line_of(starts, n, pos) < n,
        starts[line_of(starts, n, pos)] <= pos,
        line_of(starts, n, pos) + 1 < starts.len() ==> pos < starts[line_of(starts, n, pos) + 1],
    decreases n,
{
    if n > 1 && starts[n - 1] > pos {
        lemma_line_of_bounds(starts, n - 1, pos);
    }
}

/// Positions as mathematical integers.
pub open spec fn ints(positions: Seq<usize>) -> Seq<int> {
    Seq::new(positions.len(), |i: int| positions[i] as int)
}

/// The last of the lines with the given starts that starts at or before
/// `char_pos`, or the first.
pub fn line_for_char_pos(char_starts: &Vec<usize>, char_pos: usize) -> (line: usize)
    requires
        forall|i: int, j: int|
            0 <= i < j < char_starts@.len() ==> char_starts@[i] < char_starts@[j],
    ensures
        line == line_of(ints(char_starts@), char_starts@.len() as int, char_pos as int),
{
    let ghost starts = ints(char_starts@);
    let mut low: usize = 0;
    let mut high: usize = char_starts.len();
    if high == 0 {
        return 0;
    }
    while high - low > 1
        invariant
            starts == ints(char_starts@),
            0 <= low < high <= char_starts@.len(),
            low == 0 || starts[low as int] <= char_pos,
            high < char_starts@.len() ==> starts[high as int] > char_pos,
        decreases high - low,
    {
        let mid: usize = low + (high - low) / 2;
        if char_starts[mid] <= char_pos {
            low = mid;
        } else {
            high = mid;
        }
    }
    proof {
        assert forall|i: int, j: int| 0 <= i < j < starts.len() implies starts[i] < starts[j] by {
            assert(char_starts@[i] < char_starts@[j]);
        }
        lemma_line_of(starts, starts.len() as int, char_pos as int, low as int);
    }
    low
}

/// The text of line `line_idx`, or nothing.
pub fn slice_line(chars: &Vec<char>, info: &IndentLineInfo, line_idx: usize) -> (line: String)
    requires
        info.describes(chars@),
    ensures
        line@ == (if line_idx < line_count(chars@) {
            contents(chars@)[line_idx as int]
        } else {
            seq![]
        }),
{
    if line_idx >= info.byte_bounds.len() {
        return String::new();
    }
    let ghost k = line_idx as int;
    let from: usize = info.char_starts[line_idx];
    let (byte_from, byte_to) = info.byte_bounds[line_idx];
    let ghost end = content_end(chars@, k);
    proof {
        law_lines_are_listed(chars@);
        assert(info.char_starts@[k] == line_starts(chars@)[k]);
    }
    let len: usize = chars.len();
    let mut to: usize = from;
    let mut at: usize = byte_from;
    while to < len && at < byte_to
        invariant
            from <= to <= end <= len == chars@.len(),
            at == byte_len(chars@.take(to as int)),
            byte_to == byte_len(chars@.take(end)),
        decreases end - to,
    {
        proof {
            assert(to < end);
            if to + 1 < end {
                lemma_bytes_increase(chars@, to + 1, end);
            }
            assert(chars@.take(to + 1).drop_last() == chars@.take(to as int));
        }
        at = at + utf8_len_of(chars[to]);
        to = to + 1;
    }
    proof {
        if to < end {
            lemma_bytes_increase(chars@, to as int, end);
        }
    }
    from_chars(chars, from, to)
}

// ---------------------------------------------------------------------------
// Indenting rows
// ---------------------------------------------------------------------------
/// The line that a row belongs to, if it stands for any text.
pub open spec fn row_line_no(text: Seq<char>, row: RowModel) -> Option<int> {
    if row.mapped && row.source_start != row.source_end {
        Some(line_at(text, row.source_start as int))
    } else {
        None
    }
}

/// Line `k` is prose outside code blocks.
pub open spec fn prose_line(text: Seq<char>, k: int) -> bool {
    &&& !in_fence(fences(contents(text)), k)
    &&& !in_indented_code(contents(text), k)
    &&& prose(trim(contents(text)[k]))
}

/// Row `i` gets an indent: it is the first row of a line of prose.
pub open spec fn gets_indent(text: Seq<char>, rows: Seq<RowModel>, i: int) -> bool {
    match row_line_no(text, rows[i]) {
        Some(k) => prose_line(text, k) && (i == 0 || row_line_no(text, rows[i - 1]) != Some(k)),
        None => false,
    }
}

/// The style that the indent of a row has: that of its text.
pub open spec fn indent_style(row: RowModel) -> Style {
    if row.spans.len() > 0 {
        row.spans[0].style
    } else {
        plain()
    }
}

/// A row with an indent in front, which stands for the start of the line.
pub open spec fn with_indent(row: RowModel, line_start: usize) -> RowModel {
    RowModel {
        spans: seq![
            SpanModel { content: repeated(' ', INDENT_WIDTH as nat), style: indent_style(row) },
        ] + row.spans,
        col_sources: Seq::new(INDENT_WIDTH as nat, |i: int| line_start) + row.col_sources,
        source_start: if line_start < row.source_start {
            line_start
        } else {
            row.source_start
        },
        prefix_width: (row.prefix_width + INDENT_WIDTH) as usize,
        ..row
    }
}

/// The rows of a document with first-line indents.
pub open spec fn indented(text: Seq<char>, rows: Seq<RowModel>) -> Seq<RowModel> {
    Seq::new(
        rows.len(),
        |i: int|
            if gets_indent(text, rows, i) {
                with_indent(
                    rows[i],
                    line_starts(text)[line_at(text, rows[i].source_start as int)] as usize,
                )
            } else {
                rows[i]
            },
    )
}

impl VisualRow {
    /// Puts an indent in front of the row.
    pub fn prepend_indent(&mut self, source_pos: usize)
        requires
            old(self)@.wf(),
        ensures
            final(self)@ == with_indent(old(self)@, source_pos),
            final(self)@.wf(),
    {
        let ghost before = self@;
        let style: Style = if self.spans.len() > 0 {
            self.spans[0].style
        } else {
            Style::default()
        };
        if source_pos < self.source_start {
            self.source_start = source_pos;
        }
        let content = repeat_char(' ', INDENT_WIDTH);
        self.spans.insert(0, Span { content, style });
        self.col_sources.insert(0, source_pos);
        self.col_sources.insert(0, source_pos);
        proof {
            assert(self.col_sources.len() <= usize::MAX);
        }
        self.prefix_width = self.prefix_width + INDENT_WIDTH;
        proof {
            let after = with_indent(before, source_pos);
            assert(self@.spans =~= after.spans);
            assert(self@.col_sources =~= after.col_sources);
        }
    }
}

proof fn lemma_nothing_is_prose(text: Seq<char>)
    requires
        text.len() == 0,
    ensures
        forall|k: int| 0 <= k < lines(text).len() ==> !#[trigger] prose_line(text, k),
        forall|pos: int| #[trigger] line_at(text, pos) == 0,
        lines(text).len() == 1,
{
    lemma_lines(text);
    assert(trim(contents(text)[0]).len() == 0);
}

impl VisualDocument {
    /// Gives the first row of each paragraph of prose an indent of two
    /// columns. It is visual only: the cursor skips it, and a click on it goes
    /// to the start of the line.
    pub fn apply_first_line_indent(&mut self, source_text: &str)
        requires
            forall|i: int| 0 <= i < old(self)@.len() ==> (#[trigger] old(self)@[i]).wf(),
        ensures
            final(self)@ == indented(source_text@, old(self)@),
            forall|i: int| 0 <= i < final(self)@.len() ==> (#[trigger] final(self)@[i]).wf(),
    {
        let ghost text = source_text@;
        let ghost before = self@;
        let chars = to_chars(source_text);
        if chars.len() == 0 {
            proof {
                assert(indented(text, before) =~= before) by {
                    lemma_nothing_is_prose(text);
                }
            }
            return;
        }
        let info = build_indent_line_info(source_text);
        let mut rows: Vec<VisualRow> = Vec::new();
        std::mem::swap(&mut rows, &mut self.rows);
        let mut previous: Option<usize> = None;
        let mut done: Vec<VisualRow> = Vec::new();
        proof {
            assert(views(done@) =~= indented(text, before).take(0));
        }
        for row in it: rows
            invariant
                it.seq() == rows@,
                chars@ == text,
                text.len() > 0,
                before == views(rows@),
                info.describes(text),
                forall|i: int| 0 <= i < before.len() ==> (#[trigger] before[i]).wf(),
                match previous {
                    Some(k) => it.index() > 0 && row_line_no(text, before[it.index() - 1])
                        == Some(k as int),
                    None => it.index() > 0 ==> row_line_no(text, before[it.index() - 1]) is None,
                },
                views(done@) == indented(text, before).take(it.index() as int),
                forall|i: int| 0 <= i < done@.len() ==> (#[trigger] done@[i])@.wf(),
        {
            let mut row = row;
            let ghost i = it.index() as int;
            proof {
                assert(row@ == before[i]);
                assert(before[i].wf());
            }
            if row.mapped && row.source_start != row.source_end {
                proof {
                    lemma_lines(text);
                    lemma_line_starts_increase(text);
                    assert(ints(info.char_starts@) =~= line_starts(text));
                    assert forall|j: int, k: int| 0 <= j < k < info.char_starts@.len() implies
                        info.char_starts@[j] < info.char_starts@[k] by {
                        assert(line_starts(text)[j] < line_starts(text)[k]);
                    }
                }
                let line: usize = line_for_char_pos(&info.char_starts, row.source_start);
                proof {
                    lemma_line_at(text, row.source_start as int);
                    assert(info.char_starts@[line as int] as int == line_starts(
                        text,
                    )[line as int]);
                }
                let same = match previous {
                    Some(k) => k == line,
                    None => false,
                };
                if !same && !info.in_fence[line] && !info.in_indented_code[line] {
                    let line_text = slice_line(&chars, &info, line);
                    if is_prose_paragraph(line_text.as_str()) {
                        row.prepend_indent(info.char_starts[line]);
                    }
                }
                previous = Some(line);
            } else {
                previous = None;
            }
            proof {
                let target = indented(text, before);
                assert(target[i] == row@);
                assert(target.take(i + 1) =~= target.take(i).push(row@));
            }
            done.push(row);
        }
        proof {
            assert(indented(text, before).take(before.len() as int) =~= indented(text, before));
        }
        self.rows = done;
    }
}

// ---------------------------------------------------------------------------
// Laws
// ---------------------------------------------------------------------------
/// The first row of a line of prose outside code is set in by two columns of
/// blanks, in the style of its text, and shows the same text behind them.
pub proof fn law_paragraphs_are_set_in_by_two_columns(
    text: Seq<char>,
    rows: Seq<RowModel>,
    i: int,
    k: int,
)
    requires
        0 <= i < rows.len(),
        row_line_no(text, rows[i]) == Some(k),
        i > 0 ==> row_line_no(text, rows[i - 1]) != Some(k),
        !in_fence(fences(contents(text)), k),
        !in_indented_code(contents(text), k),
        prose(trim(contents(text)[k])),
    ensures
        ({
            let row = indented(text, rows)[i];
            &&& row.col_sources.len() == rows[i].col_sources.len() + 2
            &&& row.col_sources.skip(2) == rows[i].col_sources
            &&& row.spans.len() == rows[i].spans.len() + 1
            &&& row.spans[0].content == seq![' ', ' ']
            &&& rows[i].spans.len() > 0 ==> row.spans[0].style == rows[i].spans[0].style
            &&& row.spans.skip(1) == rows[i].spans
            &&& row.prefix_width == rows[i].prefix_width + 2 || rows[i].prefix_width + 2
                > usize::MAX
        }),
{
    let row = indented(text, rows)[i];
    assert(row.col_sources.skip(2) =~= rows[i].col_sources);
    assert(row.spans.skip(1) =~= rows[i].spans);
    assert(row.spans[0].content =~= seq![' ', ' ']);
}

/// Code is never set in, nor are headings, list items, quotes, tables, fences,
/// rules and blank lines: rows of such a line stay as they are.
pub proof fn law_code_and_structure_are_not_set_in(
    text: Seq<char>,
    rows: Seq<RowModel>,
    i: int,
    k: int,
)
    requires
        0 <= i < rows.len(),
        row_line_no(text, rows[i]) == Some(k),
        in_fence(fences(contents(text)), k) || in_indented_code(contents(text), k) || !prose(
            trim(contents(text)[k]),
        ),
    ensures
        indented(text, rows)[i] == rows[i],
{
}

} // verus!
