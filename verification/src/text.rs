//! Characters, strings and measured graphemes.
//!
//! Text is modelled as `Seq<char>`. The two facts about Unicode that need
//! tables, where grapheme clusters end and how many terminal cells a text
//! occupies, come from outside crates and are named [`grapheme_clusters`] and
//! [`display_width`].

use unicode_segmentation::UnicodeSegmentation;
use vstd::prelude::*;

verus! {

/// `String::push` appends one character to the end of the string.
pub assume_specification[ String::push ](s: &mut String, c: char)
    ensures
        final(s)@ == old(s)@.push(c),
;

/// What a sequence of items holds: the view of each.
pub open spec fn views<T: View>(items: Seq<T>) -> Seq<T::V> {
    Seq::new(items.len(), |i: int| items[i]@)
}

pub broadcast proof fn lemma_views_push<T: View>(items: Seq<T>, item: T)
    ensures
        #[trigger] views(items.push(item)) == views(items).push(item@),
{
    assert(views(items.push(item)) =~= views(items).push(item@));
}

pub broadcast proof fn lemma_views_subrange<T: View>(items: Seq<T>, from: int, to: int)
    requires
        0 <= from <= to <= items.len(),
    ensures
        #[trigger] views(items.subrange(from, to)) == views(items).subrange(from, to),
{
    assert(views(items.subrange(from, to)) =~= views(items).subrange(from, to));
}

pub broadcast proof fn lemma_views_add<T: View>(a: Seq<T>, b: Seq<T>)
    ensures
        #[trigger] views(a + b) == views(a) + views(b),
{
    assert(views(a + b) =~= views(a) + views(b));
}

pub broadcast group group_views {
    lemma_views_push,
    lemma_views_subrange,
    lemma_views_add,
}

// ---------------------------------------------------------------------------
// White space
// ---------------------------------------------------------------------------
/// The characters with the Unicode property `White_Space`.
pub open spec fn white_space(c: char) -> bool {
    ||| '\u{9}' <= c <= '\u{d}'
    ||| c == ' '
    ||| c == '\u{85}'
    ||| c == '\u{a0}'
    ||| c == '\u{1680}'
    ||| '\u{2000}' <= c <= '\u{200a}'
    ||| c == '\u{2028}'
    ||| c == '\u{2029}'
    ||| c == '\u{202f}'
    ||| c == '\u{205f}'
    ||| c == '\u{3000}'
}

/// Whether `c` is white space, as `char::is_whitespace` has it.
pub fn is_white_space(c: char) -> (b: bool)
    ensures
        b == white_space(c),
{
    ('\u{9}' <= c && c <= '\u{d}') || c == ' ' || c == '\u{85}' || c == '\u{a0}' || c == '\u{1680}'
        || ('\u{2000}' <= c && c <= '\u{200a}') || c == '\u{2028}' || c == '\u{2029}' || c
        == '\u{202f}' || c == '\u{205f}' || c == '\u{3000}'
}

/// Every character of `s` is white space.
pub open spec fn all_white(s: Seq<char>) -> bool {
    forall|i: int| 0 <= i < s.len() ==> white_space(#[trigger] s[i])
}

/// `s` without its leading white space.
pub open spec fn trim_start(s: Seq<char>) -> Seq<char>
    decreases s.len(),
{
    if s.len() > 0 && white_space(s[0]) {
        trim_start(s.skip(1))
    } else {
        s
    }
}

/// `s` without its trailing white space.
pub open spec fn trim_end(s: Seq<char>) -> Seq<char>
    decreases s.len(),
{
    if s.len() > 0 && white_space(s.last()) {
        trim_end(s.drop_last())
    } else {
        s
    }
}

/// `s` without leading and trailing white space.
pub open spec fn trim(s: Seq<char>) -> Seq<char> {
    trim_end(trim_start(s))
}

proof fn lemma_trim_end(s: Seq<char>)
    ensures
        trim_end(s).len() <= s.len(),
        trim_end(s) == s.take(trim_end(s).len() as int),
        trim_end(s).len() > 0 ==> !white_space(trim_end(s).last()),
    decreases s.len(),
{
    if s.len() > 0 && white_space(s.last()) {
        lemma_trim_end(s.drop_last());
        let n = trim_end(s).len() as int;
        assert(s.drop_last().take(n) =~= s.take(n));
    } else {
        assert(s.take(s.len() as int) =~= s);
    }
}

proof fn lemma_trim_start(s: Seq<char>)
    ensures
        trim_start(s).len() > 0 ==> !white_space(trim_start(s)[0]),
    decreases s.len(),
{
    if s.len() > 0 && white_space(s[0]) {
        lemma_trim_start(s.skip(1));
    }
}

/// Trimming a trimmed text changes nothing.
pub proof fn lemma_trim_is_stable(s: Seq<char>)
    ensures
        trim(trim(s)) == trim(s),
{
    lemma_trim_start(s);
    lemma_trim_end(trim_start(s));
}

/// A trimmed text starts and ends with a visible character.
pub proof fn lemma_trimmed_ends(s: Seq<char>)
    ensures
        trim(s).len() > 0 ==> !white_space(trim(s)[0]) && !white_space(trim(s).last()),
{
    lemma_trim_start(s);
    lemma_trim_end(trim_start(s));
}

/// In ASCII, the space and the controls from the tab to the carriage return are
/// white space, and nothing else: no letter, digit or mark is.
pub proof fn law_white_space_in_ascii(c: char)
    requires
        (c as u32) < 128,
    ensures
        white_space(c) <==> seq![' ', '\t', '\n', '\u{b}', '\u{c}', '\r'].contains(c),
{
    let white = seq![' ', '\t', '\n', '\u{b}', '\u{c}', '\r'];
    assert(white[0] == ' ' && white[1] == '\t' && white[2] == '\n' && white[3] == '\u{b}'
        && white[4] == '\u{c}' && white[5] == '\r');
}

/// Beyond ASCII, white space is the next-line control, the no-break space, the
/// spaces of various widths, and the separators of lines and paragraphs.
pub proof fn law_white_space_beyond_ascii(c: char)
    requires
        (c as u32) >= 128,
    ensures
        white_space(c) <==> wide_spaces().contains(c),
{
    let white = wide_spaces();
    if white_space(c) {
        assert(white[0] == '\u{85}' && white[1] == '\u{a0}' && white[2] == '\u{1680}');
        assert(white[14] == '\u{2028}' && white[15] == '\u{2029}' && white[16] == '\u{202f}'
            && white[17] == '\u{205f}' && white[18] == '\u{3000}');
        if '\u{2000}' <= c <= '\u{200a}' {
            let i = c as u32 as int - 0x2000 + 3;
            assert(3 <= i < 14);
            assert(white[i] == c);
        }
    }
}

/// The white space beyond ASCII.
pub open spec fn wide_spaces() -> Seq<char> {
    seq![
        '\u{85}',
        '\u{a0}',
        '\u{1680}',
        '\u{2000}',
        '\u{2001}',
        '\u{2002}',
        '\u{2003}',
        '\u{2004}',
        '\u{2005}',
        '\u{2006}',
        '\u{2007}',
        '\u{2008}',
        '\u{2009}',
        '\u{200a}',
        '\u{2028}',
        '\u{2029}',
        '\u{202f}',
        '\u{205f}',
        '\u{3000}',
    ]
}

proof fn lemma_trim_start_front(a: Seq<char>, s: Seq<char>)
    requires
        all_white(a),
    ensures
        trim_start(a + s) == trim_start(s),
    decreases a.len(),
{
    if a.len() == 0 {
        assert(a + s =~= s);
    } else {
        assert((a + s)[0] == a[0]);
        assert((a + s).skip(1) =~= a.skip(1) + s);
        lemma_trim_start_front(a.skip(1), s);
    }
}

proof fn lemma_trim_end_back(s: Seq<char>, b: Seq<char>)
    requires
        all_white(b),
    ensures
        trim_end(s + b) == trim_end(s),
    decreases b.len(),
{
    if b.len() == 0 {
        assert(s + b =~= s);
    } else {
        assert((s + b).last() == b[b.len() - 1]);
        assert((s + b).drop_last() =~= s + b.drop_last());
        assert(all_white(b.drop_last()));
        lemma_trim_end_back(s, b.drop_last());
    }
}

/// Trimming takes away the white space around a text, and nothing of the text:
/// what starts and ends with visible characters is what is left.
pub proof fn law_trimming_takes_white_space_away(a: Seq<char>, s: Seq<char>, b: Seq<char>)
    requires
        all_white(a),
        all_white(b),
        s.len() > 0 ==> !white_space(s[0]) && !white_space(s.last()),
    ensures
        trim(a + s + b) == s,
{
    assert(a + s + b =~= a + (s + b));
    lemma_trim_start_front(a, s + b);
    if s.len() > 0 {
        assert((s + b)[0] == s[0]);
        lemma_trim_end_back(s, b);
    } else {
        assert(s + b =~= b);
        assert(b + s =~= b);
        lemma_trim_start_front(b, s);
    }
}

/// The bounds of the trimmed text inside `chars[from..to]`.
pub fn trim_bounds(chars: &Vec<char>, from: usize, to: usize) -> (bounds: (usize, usize))
    requires
        from <= to <= chars@.len(),
    ensures
        from <= bounds.0 <= bounds.1 <= to,
        chars@.subrange(bounds.0 as int, bounds.1 as int) == trim(
            chars@.subrange(from as int, to as int),
        ),
{
    let ghost whole = chars@.subrange(from as int, to as int);
    let mut start: usize = from;
    while start < to && is_white_space(chars[start])
        invariant
            from <= start <= to <= chars@.len(),
            trim_start(chars@.subrange(start as int, to as int)) == trim_start(whole),
        decreases to - start,
    {
        proof {
            assert(chars@.subrange(start as int, to as int).skip(1) == chars@.subrange(
                start + 1,
                to as int,
            ));
        }
        start = start + 1;
    }
    assert(chars@.subrange(start as int, to as int) == trim_start(whole));
    let mut end: usize = to;
    while end > start && is_white_space(chars[end - 1])
        invariant
            from <= start <= end <= to <= chars@.len(),
            trim_end(chars@.subrange(start as int, end as int)) == trim(whole),
        decreases end - start,
    {
        proof {
            assert(chars@.subrange(start as int, end as int).drop_last() == chars@.subrange(
                start as int,
                end - 1,
            ));
        }
        end = end - 1;
    }
    (start, end)
}

// ---------------------------------------------------------------------------
// Letters and digits
// ---------------------------------------------------------------------------
/// The characters that are letters or digits in some script.
pub uninterp spec fn alphanumeric(c: char) -> bool;

/// `char::is_alphanumeric`: whether the character is alphabetic or numeric in
/// the sense of Unicode.
pub assume_specification[ char::is_alphanumeric ](c: char) -> (b: bool)
    ensures
        b == alphanumeric(c),
;

/// The characters that words are made of.
pub open spec fn word_char(c: char) -> bool {
    alphanumeric(c) || c == '_'
}

/// Words are made of letters and digits of any script and of underscores, and of
/// nothing else.
pub proof fn law_words_are_letters_digits_and_underscores(c: char)
    ensures
        alphanumeric(c) ==> word_char(c),
        word_char('_'),
        word_char(c) && c != '_' ==> alphanumeric(c),
{
}

/// Whether `c` belongs to a word.
pub fn is_word_char(c: char) -> (b: bool)
    ensures
        b == word_char(c),
{
    c.is_alphanumeric() || c == '_'
}

// ---------------------------------------------------------------------------
// Strings and vectors of characters
// ---------------------------------------------------------------------------
/// The characters of `s`.
pub fn to_chars(s: &str) -> (chars: Vec<char>)
    ensures
        chars@ == s@,
{
    let mut chars: Vec<char> = Vec::new();
    for c in it: s.chars()
        invariant
            it.seq() == s@,
            chars@ == s@.take(it.index() as int),
    {
        proof {
            assert(s@.take(it.index() + 1) == s@.take(it.index() as int).push(c));
        }
        chars.push(c);
    }
    chars
}

/// The bytes that a character takes in UTF-8.
pub open spec fn utf8_len(c: char) -> nat {
    if c <= '\u{7f}' {
        1
    } else if c <= '\u{7ff}' {
        2
    } else if c <= '\u{ffff}' {
        3
    } else {
        4
    }
}

/// The bytes that a text takes in UTF-8.
pub open spec fn byte_len(text: Seq<char>) -> nat
    decreases text.len(),
{
    if text.len() == 0 {
        0
    } else {
        byte_len(text.drop_last()) + utf8_len(text.last())
    }
}

/// The bytes that a character takes.
pub fn utf8_len_of(c: char) -> (n: usize)
    ensures
        n == utf8_len(c),
{
    if c <= '\u{7f}' {
        1
    } else if c <= '\u{7ff}' {
        2
    } else if c <= '\u{ffff}' {
        3
    } else {
        4
    }
}

/// A character takes up to four bytes, and a text as many as its characters.
pub proof fn lemma_byte_len(text: Seq<char>, n: int)
    requires
        0 <= n <= text.len(),
    ensures
        n <= byte_len(text.take(n)) <= 4 * n,
        byte_len(text.take(n)) <= byte_len(text),
    decreases text.len(),
{
    if text.len() > 0 {
        if n < text.len() {
            lemma_byte_len(text.drop_last(), n);
            assert(text.drop_last().take(n) == text.take(n));
        } else {
            lemma_byte_len(text.drop_last(), n - 1);
            assert(text.take(n) == text);
            assert(text.drop_last().take(n - 1) == text.drop_last());
        }
    }
}

/// The bytes before one character are fewer than those before a later one.
pub proof fn lemma_bytes_increase(text: Seq<char>, i: int, j: int)
    requires
        0 <= i < j <= text.len(),
    ensures
        byte_len(text.take(i)) < byte_len(text.take(j)),
    decreases j,
{
    assert(text.take(j).drop_last() == text.take(j - 1));
    if i < j - 1 {
        lemma_bytes_increase(text, i, j - 1);
    }
}

proof fn lemma_byte_len_first(text: Seq<char>)
    requires
        text.len() > 0,
    ensures
        byte_len(text) == utf8_len(text[0]) + byte_len(text.drop_first()),
    decreases text.len(),
{
    let rest = text.drop_first();
    if text.len() == 1 {
        assert(text.drop_last() =~= rest);
    } else {
        lemma_byte_len_first(text.drop_last());
        assert(text.drop_last().drop_first() =~= rest.drop_last());
    }
}

proof fn lemma_scalar_len(c: char)
    ensures
        vstd::utf8::encode_scalar(c as u32).len() == utf8_len(c),
{
}

proof fn lemma_encoded_len(text: Seq<char>)
    ensures
        vstd::utf8::encode_utf8(text).len() == byte_len(text),
    decreases text.len(),
{
    if text.len() > 0 {
        lemma_scalar_len(text[0]);
        lemma_byte_len_first(text);
        lemma_encoded_len(text.drop_first());
    }
}

/// The bytes that a text takes.
pub fn byte_count(s: &str) -> (n: usize)
    ensures
        n == byte_len(s@),
{
    proof {
        lemma_encoded_len(s@);
    }
    s.as_bytes().len()
}

/// The bytes before the character `pos`.
pub fn byte_offset(s: &str, pos: usize) -> (offset: usize)
    requires
        pos <= s@.len(),
    ensures
        offset == byte_len(s@.take(pos as int)),
{
    let offsets = byte_offsets(s);
    offsets[pos]
}

/// The bytes before each character, and those of the whole text.
pub fn byte_offsets(s: &str) -> (offsets: Vec<usize>)
    ensures
        offsets@.len() == s@.len() + 1,
        forall|i: int| 0 <= i <= s@.len() ==> #[trigger] offsets@[i] == byte_len(s@.take(i)),
{
    let chars = to_chars(s);
    let total: usize = byte_count(s);
    let mut offsets: Vec<usize> = Vec::new();
    let mut offset: usize = 0;
    let mut i: usize = 0;
    while i < chars.len()
        invariant
            i <= chars@.len(),
            chars@ == s@,
            byte_len(s@) == total,
            offset == byte_len(s@.take(i as int)),
            offsets@.len() == i,
            forall|j: int| 0 <= j < i ==> #[trigger] offsets@[j] == byte_len(s@.take(j)),
        decreases chars@.len() - i,
    {
        proof {
            lemma_byte_len(s@, i + 1);
            assert(s@.take(i + 1).drop_last() == s@.take(i as int));
        }
        offsets.push(offset);
        offset = offset + utf8_len_of(chars[i]);
        i = i + 1;
    }
    proof {
        assert(s@.take(i as int) == s@);
    }
    offsets.push(total);
    offsets
}

/// The string of `chars[from..to]`.
pub fn from_chars(chars: &Vec<char>, from: usize, to: usize) -> (s: String)
    requires
        from <= to <= chars@.len(),
    ensures
        s@ == chars@.subrange(from as int, to as int),
{
    let mut s = String::new();
    let mut i: usize = from;
    while i < to
        invariant
            from <= i <= to <= chars@.len(),
            s@ == chars@.subrange(from as int, i as int),
        decreases to - i,
    {
        s.push(chars[i]);
        proof {
            assert(chars@.subrange(from as int, i + 1) == chars@.subrange(
                from as int,
                i as int,
            ).push(chars@[i as int]));
        }
        i = i + 1;
    }
    s
}

/// `n` copies of `c`.
pub open spec fn repeated(c: char, n: nat) -> Seq<char> {
    Seq::new(n, |i: int| c)
}

/// The string of `n` copies of `c`.
pub fn repeat_char(c: char, n: usize) -> (s: String)
    ensures
        s@ == repeated(c, n as nat),
{
    let mut s = String::new();
    let mut i: usize = 0;
    while i < n
        invariant
            i <= n,
            s@ == repeated(c, i as nat),
        decreases n - i,
    {
        s.push(c);
        i = i + 1;
        assert(repeated(c, i as nat) == repeated(c, (i - 1) as nat).push(c));
    }
    s
}

/// Whether the text of `s` is `t`.
pub fn same_text(s: &str, t: &str) -> (b: bool)
    ensures
        b == (s@ == t@),
{
    let a = to_chars(s);
    let b = to_chars(t);
    same_chars(&a, &b)
}

/// Whether two vectors hold the same characters.
pub fn same_chars(a: &Vec<char>, b: &Vec<char>) -> (same: bool)
    ensures
        same == (a@ == b@),
{
    if a.len() != b.len() {
        return false;
    }
    let mut i: usize = 0;
    while i < a.len()
        invariant
            i <= a@.len(),
            a@.len() == b@.len(),
            a@.take(i as int) == b@.take(i as int),
        decreases a@.len() - i,
    {
        if a[i] != b[i] {
            return false;
        }
        proof {
            assert(a@.take(i + 1) == a@.take(i as int).push(a@[i as int]));
            assert(b@.take(i + 1) == b@.take(i as int).push(b@[i as int]));
        }
        i = i + 1;
    }
    proof {
        assert(a@.take(i as int) == a@);
        assert(b@.take(i as int) == b@);
    }
    true
}

// ---------------------------------------------------------------------------
// Lines
// ---------------------------------------------------------------------------
/// The lines of a text: the pieces between its newlines, at least one.
pub open spec fn lines(text: Seq<char>) -> Seq<Seq<char>>
    decreases text.len(),
{
    if text.len() == 0 {
        seq![seq![]]
    } else if text.last() == '\n' {
        lines(text.drop_last()).push(seq![])
    } else {
        let before = lines(text.drop_last());
        before.drop_last().push(before.last().push(text.last()))
    }
}

/// Where each line of a text starts.
pub open spec fn line_starts(text: Seq<char>) -> Seq<int>
    decreases text.len(),
{
    if text.len() == 0 {
        seq![0]
    } else if text.last() == '\n' {
        line_starts(text.drop_last()).push(text.len() as int)
    } else {
        line_starts(text.drop_last())
    }
}

/// The bounds of line `k`, newline not included.
pub open spec fn line_bounds(text: Seq<char>, k: int) -> (int, int) {
    (line_starts(text)[k], line_starts(text)[k] + lines(text)[k].len())
}

/// What [`lines`] and [`line_starts`] say of a text: the lines stand where
/// they start, hold no newline, and are one newline apart, from the first
/// character to the last.
pub proof fn lemma_lines(text: Seq<char>)
    ensures
        lines(text).len() >= 1,
        line_starts(text).len() == lines(text).len(),
        line_starts(text)[0] == 0,
        line_starts(text).last() + lines(text).last().len() == text.len(),
        forall|k: int|
            0 <= k < lines(text).len() ==> {
                &&& 0 <= #[trigger] line_starts(text)[k]
                &&& line_starts(text)[k] + lines(text)[k].len() <= text.len()
                &&& lines(text)[k] == text.subrange(
                    line_starts(text)[k],
                    line_starts(text)[k] + lines(text)[k].len(),
                )
                &&& !lines(text)[k].contains('\n')
            },
        forall|j: int, k: int|
            0 <= j < k < lines(text).len() ==> #[trigger] line_starts(text)[j] + lines(text)[j].len()
                < #[trigger] line_starts(text)[k],
    decreases text.len(),
{
    if text.len() > 0 {
        let t = text.drop_last();
        lemma_lines(t);
        assert forall|k: int| 0 <= k < lines(text).len() implies {
            &&& 0 <= #[trigger] line_starts(text)[k]
            &&& line_starts(text)[k] + lines(text)[k].len() <= text.len()
            &&& lines(text)[k] == text.subrange(
                line_starts(text)[k],
                line_starts(text)[k] + lines(text)[k].len(),
            )
            &&& !lines(text)[k].contains('\n')
        } by {
            if k < lines(t).len() {
                assert(line_starts(text)[k] == line_starts(t)[k]);
                let from = line_starts(t)[k];
                if text.last() != '\n' && k == lines(t).len() - 1 {
                    let line = lines(t)[k];
                    assert(lines(text)[k] == line.push(text.last()));
                    assert(from + line.len() == t.len());
                    assert(line.push(text.last()) =~= text.subrange(from, text.len() as int));
                    assert forall|i: int| 0 <= i <= line.len() implies line.push(text.last())[i]
                        != '\n' by {
                        if i < line.len() {
                            assert(line.contains(line[i]));
                        }
                    }
                } else {
                    assert(lines(text)[k] == lines(t)[k]);
                    assert(t.subrange(from, from + lines(t)[k].len()) =~= text.subrange(
                        from,
                        from + lines(t)[k].len(),
                    ));
                }
            } else {
                assert(lines(text)[k] =~= text.subrange(text.len() as int, text.len() as int));
            }
        }
        assert forall|j: int, k: int| 0 <= j < k < lines(text).len() implies #[trigger] line_starts(
            text,
        )[j] + lines(text)[j].len() < #[trigger] line_starts(text)[k] by {
            assert(line_starts(text)[j] == line_starts(t)[j]);
            assert(lines(text)[j] == lines(t)[j]);
            if k < lines(t).len() {
                assert(line_starts(text)[k] == line_starts(t)[k]);
            } else {
                assert(line_starts(t)[j] + lines(t)[j].len() <= t.len());
            }
        }
    }
}

/// A line starts one behind the end of the line before it, at a newline.
pub proof fn lemma_next_line(text: Seq<char>, k: int)
    requires
        0 < k < lines(text).len(),
    ensures
        line_starts(text)[k] == line_starts(text)[k - 1] + lines(text)[k - 1].len() + 1,
        text[line_starts(text)[k] - 1] == '\n',
    decreases text.len(),
{
    let t = text.drop_last();
    lemma_lines(t);
    if k < lines(t).len() {
        lemma_next_line(t, k);
        lemma_lines(text);
        assert(lines(text)[k - 1] == lines(t)[k - 1]);
    }
}

/// Newlines separate lines: the lines of two texts with a newline between them
/// are the lines of the one, and those of the other behind them.
pub proof fn law_newlines_separate_lines(a: Seq<char>, b: Seq<char>)
    ensures
        lines(a + seq!['\n'] + b) == lines(a) + lines(b),
    decreases b.len(),
{
    let text = a + seq!['\n'] + b;
    lemma_lines(a);
    lemma_lines(b);
    if b.len() == 0 {
        assert(text.drop_last() =~= a);
        assert(lines(text) =~= lines(a) + lines(b));
    } else {
        let t = b.drop_last();
        law_newlines_separate_lines(a, t);
        lemma_lines(t);
        assert(text.drop_last() =~= a + seq!['\n'] + t);
        assert(text.last() == b.last());
        assert(lines(text) =~= lines(a) + lines(b));
    }
}

/// A text without newlines is one line.
pub proof fn law_text_without_newlines_is_a_line(text: Seq<char>)
    requires
        !text.contains('\n'),
    ensures
        lines(text) == seq![text],
    decreases text.len(),
{
    if text.len() > 0 {
        let t = text.drop_last();
        assert forall|i: int| 0 <= i < t.len() implies t[i] != '\n' by {
            assert(text.contains(text[i]));
        }
        law_text_without_newlines_is_a_line(t);
        assert(text.contains(text.last()));
        assert(t.push(text.last()) =~= text);
    } else {
        assert(text =~= seq![]);
    }
}

/// The bounds of the lines of `chars`.
pub fn split_lines(chars: &Vec<char>) -> (bounds: Vec<(usize, usize)>)
    ensures
        bounds@.len() == lines(chars@).len(),
        forall|k: int|
            0 <= k < bounds@.len() ==> (
            (#[trigger] bounds@[k]).0 as int, bounds@[k].1 as int) == line_bounds(chars@, k),
{
    let mut bounds: Vec<(usize, usize)> = Vec::new();
    let mut start: usize = 0;
    let mut i: usize = 0;
    proof {
        lemma_lines(chars@.take(0));
    }
    while i < chars.len()
        invariant
            start <= i <= chars@.len(),
            bounds@.len() == lines(chars@.take(i as int)).len() - 1,
            line_starts(chars@.take(i as int)).len() == lines(chars@.take(i as int)).len(),
            start as int == line_starts(chars@.take(i as int)).last(),
            start + lines(chars@.take(i as int)).last().len() == i,
            forall|k: int|
                0 <= k < bounds@.len() ==> (
                (#[trigger] bounds@[k]).0 as int, bounds@[k].1 as int) == line_bounds(
                    chars@.take(i as int),
                    k,
                ),
        decreases chars@.len() - i,
    {
        let ghost prev = chars@.take(i as int);
        proof {
            assert(chars@.take(i + 1).drop_last() == prev);
            lemma_lines(prev);
            lemma_lines(chars@.take(i + 1));
        }
        if chars[i] == '\n' {
            bounds.push((start, i));
            start = i + 1;
        }
        i = i + 1;
    }
    bounds.push((start, i));
    proof {
        assert(chars@.take(i as int) == chars@);
    }
    bounds
}

// ---------------------------------------------------------------------------
// Decimal numbers
// ---------------------------------------------------------------------------
/// The character of a decimal digit.
pub open spec fn digit_char(d: nat) -> char {
    (('0' as u32) + d) as char
}

/// `n` in decimal notation.
pub open spec fn decimal(n: nat) -> Seq<char>
    decreases n,
{
    if n < 10 {
        seq![digit_char(n)]
    } else {
        decimal(n / 10).push(digit_char(n % 10))
    }
}

/// The number that digits stand for.
pub open spec fn value_of(digits: Seq<char>) -> nat
    decreases digits.len(),
{
    if digits.len() == 0 {
        0
    } else {
        value_of(digits.drop_last()) * 10 + (digits.last() as u32 - '0' as u32) as nat
    }
}

/// What is written in decimal notation reads back as the same number. It is
/// made of digits, and of more than one only if it starts with no zero.
pub proof fn law_decimals_read_back(n: nat)
    ensures
        value_of(decimal(n)) == n,
        decimal(n).len() >= 1,
        decimal(n).len() > 1 ==> decimal(n)[0] != '0',
        forall|i: int| 0 <= i < decimal(n).len() ==> '0' <= #[trigger] decimal(n)[i] <= '9',
    decreases n,
{
    if n < 10 {
        assert(decimal(n).drop_last() =~= seq![]);
        assert(value_of(decimal(n).drop_last()) == 0);
    } else {
        law_decimals_read_back(n / 10);
        let front = decimal(n / 10);
        assert(decimal(n).drop_last() =~= front);
        assert(decimal(n)[0] == front[0]);
        if front.len() == 1 {
            assert(front.drop_last() =~= seq![]);
            assert(value_of(front.drop_last()) == 0);
            assert(value_of(front) == (front[0] as u32 - '0' as u32) as nat);
        }
    }
}

fn digit(d: u64) -> (c: char)
    requires
        d < 10,
    ensures
        c == digit_char(d as nat),
{
    match d {
        0 => '0',
        1 => '1',
        2 => '2',
        3 => '3',
        4 => '4',
        5 => '5',
        6 => '6',
        7 => '7',
        8 => '8',
        _ => '9',
    }
}

/// `n` in decimal notation, as `format!("{n}")` writes it.
pub fn decimal_string(n: u64) -> (s: String)
    ensures
        s@ == decimal(n as nat),
    decreases n,
{
    if n < 10 {
        let mut s = String::new();
        s.push(digit(n));
        assert(s@ == seq![digit_char(n as nat)]);
        s
    } else {
        let mut s = decimal_string(n / 10);
        s.push(digit(n % 10));
        s
    }
}

// ---------------------------------------------------------------------------
// Graphemes and their widths
// ---------------------------------------------------------------------------
/// The extended grapheme clusters of a text, in order.
pub uninterp spec fn grapheme_clusters(text: Seq<char>) -> Seq<Seq<char>>;

/// How many terminal cells a text occupies.
pub uninterp spec fn display_width(text: Seq<char>) -> usize;

/// The ASCII characters.
pub open spec fn ascii(c: char) -> bool {
    c <= '\u{7f}'
}

/// A carriage return and its newline.
pub open spec fn line_end(a: char, b: char) -> bool {
    a == '\r' && b == '\n'
}

/// Two characters that never join, whatever stands around them: both are ASCII,
/// or one is a control character. Only a carriage return joins its newline.
pub open spec fn parted(a: char, b: char) -> bool {
    !line_end(a, b) && (a < ' ' || b < ' ' || (ascii(a) && ascii(b)))
}

/// Every character of `s` is ASCII.
pub open spec fn all_ascii(s: Seq<char>) -> bool {
    forall|i: int| 0 <= i < s.len() ==> ascii(#[trigger] s[i])
}

/// `s` is ASCII, and no newline in it has a carriage return before it.
pub open spec fn plain_ascii(s: Seq<char>) -> bool {
    &&& all_ascii(s)
    &&& forall|i: int, j: int|
        0 <= i && j == i + 1 && j < s.len() ==> !line_end(#[trigger] s[i], #[trigger] s[j])
}

/// The concatenation of `parts`.
pub open spec fn concat(parts: Seq<Seq<char>>) -> Seq<char>
    decreases parts.len(),
{
    if parts.len() == 0 {
        seq![]
    } else {
        concat(parts.drop_last()) + parts.last()
    }
}

/// `UnicodeSegmentation::graphemes(text, true)`: the extended grapheme
/// clusters of `text`. The iterator hands out consecutive slices of the text,
/// none of them empty, from its start to its end. Whether two neighbours join
/// is decided by their categories: two ASCII characters do not, nor does a
/// control character with anything, but for a carriage return with its newline,
/// which always do.
#[verifier::external_body]
pub(crate) fn graphemes(text: &str) -> (clusters: Vec<String>)
    ensures
        views(clusters@) == grapheme_clusters(text@),
        concat(views(clusters@)) == text@,
        forall|k: int| 0 <= k < clusters@.len() ==> (#[trigger] clusters@[k])@.len() > 0,
        forall|k: int, i: int|
            0 <= k < clusters@.len() && 0 < i < clusters@[k]@.len() ==> !parted(
                clusters@[k]@[i - 1],
                #[trigger] clusters@[k]@[i],
            ),
        forall|k: int|
            0 < k < clusters@.len() ==> !line_end(
                clusters@[k - 1]@.last(),
                (#[trigger] clusters@[k])@[0],
            ),
{
    text.graphemes(true).map(str::to_string).collect()
}

/// `ratatui::text::Span::width` of a span that holds `text`: the number of
/// terminal cells that the text occupies when it is drawn. An ASCII character
/// takes one cell, also where it is a control character, but for a carriage
/// return before a newline.
#[verifier::external_body]
pub(crate) fn text_width(text: &str) -> (width: usize)
    ensures
        width == display_width(text@),
        plain_ascii(text@) ==> width == text@.len(),
{
    ratatui::text::Span::raw(text).width()
}

/// A grapheme cluster with the number of cells that it takes.
#[derive(Debug, Clone)]
pub struct Glyph {
    pub text: String,
    pub width: usize,
}

/// What a [`Glyph`] holds.
pub struct GlyphModel {
    pub text: Seq<char>,
    pub width: usize,
}

impl View for Glyph {
    type V = GlyphModel;

    open spec fn view(&self) -> GlyphModel {
        GlyphModel { text: self.text@, width: self.width }
    }
}

/// The clusters of `text`, each with its width.
pub open spec fn glyphs_of(text: Seq<char>) -> Seq<GlyphModel> {
    Seq::new(
        grapheme_clusters(text).len(),
        |i: int|
            GlyphModel {
                text: grapheme_clusters(text)[i],
                width: display_width(grapheme_clusters(text)[i]),
            },
    )
}

/// The texts of glyphs.
pub open spec fn glyph_texts(glyphs: Seq<GlyphModel>) -> Seq<Seq<char>> {
    Seq::new(glyphs.len(), |i: int| glyphs[i].text)
}

/// The characters that `glyphs` cover.
pub open spec fn glyph_chars(glyphs: Seq<GlyphModel>) -> Seq<char> {
    concat(glyph_texts(glyphs))
}

/// No glyph is empty, and a tab stands alone.
pub open spec fn glyphs_wf(glyphs: Seq<GlyphModel>) -> bool {
    forall|i: int|
        0 <= i < glyphs.len() ==> {
            &&& (#[trigger] glyphs[i]).text.len() > 0
            &&& glyphs[i].text.contains('\t') ==> glyphs[i].text == seq!['\t']
        }
}

/// The glyphs of ASCII text: its characters, each with one cell.
pub open spec fn ascii_glyphs(text: Seq<char>) -> Seq<GlyphModel> {
    Seq::new(text.len(), |i: int| GlyphModel { text: seq![text[i]], width: 1 })
}

/// No part is empty, and no two characters that never join stand in one.
spec fn parts_apart(parts: Seq<Seq<char>>) -> bool {
    &&& forall|k: int| 0 <= k < parts.len() ==> (#[trigger] parts[k]).len() > 0
    &&& forall|k: int, i: int|
        0 <= k < parts.len() && 0 < i < parts[k].len() ==> !parted(
            parts[k][i - 1],
            #[trigger] parts[k][i],
        )
}

proof fn lemma_tab_stands_alone(parts: Seq<Seq<char>>, k: int)
    requires
        parts_apart(parts),
        0 <= k < parts.len(),
        parts[k].contains('\t'),
    ensures
        parts[k] == seq!['\t'],
{
    let part = parts[k];
    let i = choose|i: int| 0 <= i < part.len() && part[i] == '\t';
    if i > 0 {
        assert(!parted(part[i - 1], parts[k][i]));
    }
    if i + 1 < part.len() {
        assert(!parted(part[i], parts[k][i + 1]));
    }
    assert(part =~= seq!['\t']);
}

proof fn lemma_ascii_falls_apart(parts: Seq<Seq<char>>, text: Seq<char>)
    requires
        parts_apart(parts),
        concat(parts) == text,
        plain_ascii(text),
    ensures
        parts == Seq::new(text.len(), |i: int| seq![text[i]]),
    decreases parts.len(),
{
    if parts.len() == 0 {
        assert(text.len() == 0);
    } else {
        let n = parts.len() - 1;
        let last = parts[n];
        let above = parts.drop_last();
        let head = concat(above);
        assert(text == head + last);
        if last.len() > 1 {
            assert(!parted(last[0], parts[n][1]));
            assert(text[head.len() as int] == last[0]);
            assert(text[head.len() as int + 1] == last[1]);
        }
        assert(head =~= text.drop_last());
        assert(parts_apart(above)) by {
            assert forall|k: int| 0 <= k < above.len() implies (#[trigger] above[k]).len()
                > 0 by {
                assert(above[k] == parts[k]);
            }
            assert forall|k: int, i: int|
                0 <= k < above.len() && 0 < i < above[k].len() implies !parted(
                above[k][i - 1],
                #[trigger] above[k][i],
            ) by {
                assert(above[k] == parts[k]);
                assert(!parted(parts[k][i - 1], parts[k][i]));
            }
        }
        assert(plain_ascii(head)) by {
            assert forall|i: int| 0 <= i < head.len() implies ascii(#[trigger] head[i]) by {
                assert(head[i] == text[i]);
            }
            assert forall|i: int, j: int|
                0 <= i && j == i + 1 && j < head.len() implies !line_end(
                #[trigger] head[i],
                #[trigger] head[j],
            ) by {
                assert(head[i] == text[i] && head[j] == text[j]);
            }
        }
        lemma_ascii_falls_apart(above, head);
        assert(last =~= seq![text.last()]);
        let apart = Seq::new(text.len(), |i: int| seq![text[i]]);
        assert forall|i: int| 0 <= i < text.len() implies parts[i] == #[trigger] apart[i] by {
            if i < n {
                assert(above[i] == seq![head[i]]);
            }
        }
        assert(parts =~= apart);
    }
}

/// Splits `text` into measured graphemes. ASCII falls into its characters.
pub fn measure(text: &str) -> (glyphs: Vec<Glyph>)
    ensures
        views(glyphs@) == glyphs_of(text@),
        glyphs_wf(views(glyphs@)),
        glyph_chars(views(glyphs@)) == text@,
        forall|k: int, i: int|
            0 <= k < glyphs@.len() && 0 < i < glyphs@[k].text@.len() ==> !parted(
                glyphs@[k].text@[i - 1],
                #[trigger] glyphs@[k].text@[i],
            ),
        plain_ascii(text@) ==> views(glyphs@) == ascii_glyphs(text@),
{
    let clusters = graphemes(text);
    let ghost parts = views(clusters@);
    proof {
        assert(parts_apart(parts)) by {
            assert forall|k: int| 0 <= k < parts.len() implies (#[trigger] parts[k]).len()
                > 0 by {
                assert(parts[k] == clusters@[k]@);
            }
            assert forall|k: int, i: int|
                0 <= k < parts.len() && 0 < i < parts[k].len() implies !parted(
                parts[k][i - 1],
                #[trigger] parts[k][i],
            ) by {
                assert(!parted(clusters@[k]@[i - 1], clusters@[k]@[i]));
            }
        }
        if plain_ascii(text@) {
            lemma_ascii_falls_apart(parts, text@);
        }
    }
    let mut glyphs: Vec<Glyph> = Vec::new();
    let mut i: usize = 0;
    while i < clusters.len()
        invariant
            i <= clusters@.len(),
            parts == views(clusters@),
            parts == grapheme_clusters(text@),
            plain_ascii(text@) ==> parts == Seq::new(text@.len(), |k: int| seq![text@[k]]),
            views(glyphs@) == glyphs_of(text@).take(i as int),
            plain_ascii(text@) ==> forall|k: int|
                0 <= k < i ==> (#[trigger] glyphs@[k]).width == 1,
        decreases clusters@.len() - i,
    {
        let cluster = clusters[i].clone();
        let width = text_width(cluster.as_str());
        proof {
            assert(parts[i as int] == cluster@);
            if plain_ascii(text@) {
                assert(cluster@ == seq![text@[i as int]]);
                assert(plain_ascii(cluster@));
            }
        }
        let ghost before = glyphs@;
        glyphs.push(Glyph { text: cluster, width });
        proof {
            assert(glyphs_of(text@).take(i + 1) == glyphs_of(text@).take(i as int).push(
                glyphs_of(text@)[i as int],
            ));
            assert(views(glyphs@) == views(before).push(glyphs@.last()@));
        }
        i = i + 1;
    }
    proof {
        let all = views(glyphs@);
        assert(all == glyphs_of(text@));
        assert(glyph_texts(all) == parts);
        assert forall|k: int| 0 <= k < all.len() implies {
            &&& (#[trigger] all[k]).text.len() > 0
            &&& all[k].text.contains('\t') ==> all[k].text == seq!['\t']
        } by {
            assert(all[k].text == parts[k]);
            if parts[k].contains('\t') {
                lemma_tab_stands_alone(parts, k);
            }
        }
        assert forall|k: int, i: int|
            0 <= k < glyphs@.len() && 0 < i < glyphs@[k].text@.len() implies !parted(
            glyphs@[k].text@[i - 1],
            #[trigger] glyphs@[k].text@[i],
        ) by {
            assert(all[k].text == parts[k]);
            assert(!parted(parts[k][i - 1], parts[k][i]));
        }
        if plain_ascii(text@) {
            assert forall|k: int| 0 <= k < text@.len() implies all[k] == #[trigger] ascii_glyphs(
                text@,
            )[k] by {
                assert(all[k].text == parts[k]);
                assert(glyphs@[k].width == 1);
            }
            assert(all =~= ascii_glyphs(text@));
        }
    }
    glyphs
}

/// The total number of characters of some glyphs.
pub proof fn lemma_glyph_chars_push(glyphs: Seq<GlyphModel>, i: int)
    requires
        0 <= i < glyphs.len(),
    ensures
        glyph_chars(glyphs.take(i + 1)) == glyph_chars(glyphs.take(i)) + glyphs[i].text,
        glyph_chars(glyphs.take(i)).len() + glyphs[i].text.len() <= glyph_chars(glyphs).len(),
    decreases glyphs.len(),
{
    assert(glyph_texts(glyphs.take(i + 1)).drop_last() == glyph_texts(glyphs.take(i)));
    if i + 1 < glyphs.len() {
        let shorter = glyphs.drop_last();
        lemma_glyph_chars_push(shorter, i);
        assert(shorter.take(i + 1) == glyphs.take(i + 1));
        assert(shorter.take(i) == glyphs.take(i));
        assert(glyph_texts(glyphs).drop_last() == glyph_texts(shorter));
    } else {
        assert(glyphs.take(i + 1) == glyphs);
    }
}

// ---------------------------------------------------------------------------
// Cutting a text to a width
// ---------------------------------------------------------------------------
/// How many glyphs from the start fit into `max` cells.
pub open spec fn fit_count(glyphs: Seq<GlyphModel>, max: int) -> int
    decreases glyphs.len(),
{
    if glyphs.len() == 0 || glyphs[0].width > max {
        0
    } else {
        1 + fit_count(glyphs.skip(1), max - glyphs[0].width)
    }
}

/// The longest part of a text, from its start, that fits into `max` cells and
/// splits no grapheme.
pub open spec fn fitting(glyphs: Seq<GlyphModel>, max: int) -> Seq<char> {
    glyph_chars(glyphs.take(fit_count(glyphs, max)))
}

/// The width of some glyphs together.
pub open spec fn glyphs_width(glyphs: Seq<GlyphModel>) -> nat
    decreases glyphs.len(),
{
    if glyphs.len() == 0 {
        0
    } else {
        glyphs[0].width as nat + glyphs_width(glyphs.skip(1))
    }
}

/// What is kept fits, one glyph more would not, and where everything fits
/// everything is kept.
pub proof fn law_cut_text_fits(glyphs: Seq<GlyphModel>, max: int)
    requires
        max >= 0,
    ensures
        ({
            let n = fit_count(glyphs, max);
            &&& 0 <= n <= glyphs.len()
            &&& glyphs_width(glyphs.take(n)) <= max
            &&& n < glyphs.len() ==> glyphs_width(glyphs.take(n + 1)) > max
            &&& glyphs_width(glyphs) <= max ==> n == glyphs.len() && fitting(glyphs, max)
                == glyph_chars(glyphs)
        }),
    decreases glyphs.len(),
{
    let n = fit_count(glyphs, max);
    if glyphs.len() > 0 {
        let rest = glyphs.skip(1);
        let first = glyphs[0].width;
        if first <= max {
            law_cut_text_fits(rest, max - first);
            assert(glyphs.take(n)[0] == glyphs[0]);
            assert(glyphs.take(n).skip(1) =~= rest.take(n - 1));
            if n < glyphs.len() {
                assert(glyphs.take(n + 1).skip(1) =~= rest.take(n));
            }
        } else {
            assert(glyphs.take(1)[0] == glyphs[0]);
            assert(glyphs.take(0).len() == 0);
        }
    }
    if n == glyphs.len() {
        assert(glyphs.take(n) =~= glyphs);
    }
}

/// Text that is cut is the start of the text, with nothing added, and what has
/// room for more keeps no less.
pub proof fn law_cut_text_is_a_start(glyphs: Seq<GlyphModel>, max: int, more: int)
    requires
        0 <= max <= more,
    ensures
        ({
            let cut = fitting(glyphs, max);
            &&& cut.len() <= glyph_chars(glyphs).len()
            &&& cut == glyph_chars(glyphs).take(cut.len() as int)
            &&& cut.len() <= fitting(glyphs, more).len()
        }),
{
    let n = fit_count(glyphs, max);
    let m = fit_count(glyphs, more);
    law_cut_text_fits(glyphs, max);
    law_cut_text_fits(glyphs, more);
    lemma_first_glyphs(glyphs, n);
    lemma_fit_more(glyphs, max, more);
    assert(glyphs.take(m).take(n) =~= glyphs.take(n));
    lemma_first_glyphs(glyphs.take(m), n);
}

proof fn lemma_fit_more(glyphs: Seq<GlyphModel>, max: int, more: int)
    requires
        max <= more,
    ensures
        fit_count(glyphs, max) <= fit_count(glyphs, more),
    decreases glyphs.len(),
{
    if glyphs.len() > 0 && glyphs[0].width <= max {
        lemma_fit_more(glyphs.skip(1), max - glyphs[0].width, more - glyphs[0].width);
    } else if glyphs.len() > 0 && glyphs[0].width <= more {
        lemma_fit_is_no_less(glyphs.skip(1), more - glyphs[0].width);
    }
}

proof fn lemma_fit_is_no_less(glyphs: Seq<GlyphModel>, max: int)
    ensures
        fit_count(glyphs, max) >= 0,
    decreases glyphs.len(),
{
    if glyphs.len() > 0 && glyphs[0].width <= max {
        lemma_fit_is_no_less(glyphs.skip(1), max - glyphs[0].width);
    }
}

/// The first glyphs of a text cover its start.
pub proof fn lemma_first_glyphs(glyphs: Seq<GlyphModel>, n: int)
    requires
        0 <= n <= glyphs.len(),
    ensures
        glyph_chars(glyphs.take(n)).len() <= glyph_chars(glyphs).len(),
        glyph_chars(glyphs.take(n)) == glyph_chars(glyphs).take(
            glyph_chars(glyphs.take(n)).len() as int,
        ),
    decreases glyphs.len() - n,
{
    let head = glyph_chars(glyphs.take(n));
    if n == glyphs.len() {
        assert(glyphs.take(n) =~= glyphs);
        assert(head.take(head.len() as int) =~= head);
    } else {
        lemma_first_glyphs(glyphs, n + 1);
        lemma_glyph_chars_push(glyphs, n);
        let more = glyph_chars(glyphs.take(n + 1));
        assert(head =~= more.take(head.len() as int));
        assert(head =~= glyph_chars(glyphs).take(head.len() as int));
    }
}

/// The longest part of measured text that fits into `max_width` cells.
pub fn fit_text(glyphs: &Vec<Glyph>, max_width: usize) -> (kept: String)
    ensures
        kept@ == fitting(views(glyphs@), max_width as int),
{
    let ghost all = views(glyphs@);
    let mut kept = String::new();
    let mut left: usize = max_width;
    let mut i: usize = 0;
    proof {
        assert(all.skip(0) == all);
        assert(glyph_texts(all.take(0)).len() == 0);
        assert(kept@ =~= glyph_chars(all.take(0)));
    }
    while i < glyphs.len() && glyphs[i].width <= left
        invariant
            i <= glyphs@.len(),
            all == views(glyphs@),
            kept@ == glyph_chars(all.take(i as int)),
            fit_count(all, max_width as int) == i + fit_count(all.skip(i as int), left as int),
        decreases glyphs@.len() - i,
    {
        proof {
            lemma_glyph_chars_push(all, i as int);
            assert(all.skip(i as int).skip(1) == all.skip(i + 1));
        }
        kept.append(glyphs[i].text.as_str());
        left = left - glyphs[i].width;
        i = i + 1;
    }
    kept
}

proof fn lemma_fit_ascii(glyphs: Seq<GlyphModel>, max: int)
    requires
        max >= 0,
        forall|i: int| 0 <= i < glyphs.len() ==> (#[trigger] glyphs[i]).width == 1,
    ensures
        fit_count(glyphs, max) == (if glyphs.len() < max {
            glyphs.len() as int
        } else {
            max
        }),
    decreases glyphs.len(),
{
    if glyphs.len() > 0 && max > 0 {
        assert(glyphs[0].width == 1);
        let rest = glyphs.skip(1);
        assert forall|i: int| 0 <= i < rest.len() implies (#[trigger] rest[i]).width == 1 by {
            assert(rest[i] == glyphs[i + 1]);
        }
        lemma_fit_ascii(rest, max - 1);
    } else if glyphs.len() > 0 {
        assert(glyphs[0].width == 1);
    }
}

/// The glyphs of ASCII text cover it.
pub proof fn lemma_ascii_chars(text: Seq<char>, n: int)
    requires
        0 <= n <= text.len(),
    ensures
        glyph_chars(ascii_glyphs(text.take(n))) == text.take(n),
    decreases n,
{
    let glyphs = ascii_glyphs(text.take(n));
    if n > 0 {
        let shorter = ascii_glyphs(text.take(n - 1));
        lemma_ascii_chars(text, n - 1);
        assert(glyphs.drop_last() =~= shorter);
        assert(glyph_texts(glyphs).drop_last() =~= glyph_texts(shorter));
        assert(glyph_chars(glyphs) =~= glyph_chars(shorter) + seq![text[n - 1]]);
        assert(text.take(n) =~= text.take(n - 1) + seq![text[n - 1]]);
    } else {
        assert(glyph_texts(glyphs).len() == 0);
        assert(glyph_chars(glyphs) =~= text.take(0));
    }
}

/// The longest part of a text that fits into `max_width` cells and splits no
/// grapheme. Of ASCII that is so many characters.
pub fn truncate(s: &str, max_width: usize) -> (kept: String)
    ensures
        kept@ == fitting(glyphs_of(s@), max_width as int),
        kept@.len() <= s@.len() && kept@ == s@.take(kept@.len() as int),
        plain_ascii(s@) ==> kept@ == s@.take(
            if s@.len() < max_width {
                s@.len() as int
            } else {
                max_width as int
            },
        ),
{
    let glyphs = measure(s);
    let kept = fit_text(&glyphs, max_width);
    proof {
        let all = views(glyphs@);
        law_cut_text_fits(all, max_width as int);
        lemma_first_glyphs(all, fit_count(all, max_width as int));
        if plain_ascii(s@) {
            lemma_fit_ascii(all, max_width as int);
            let n = fit_count(all, max_width as int);
            lemma_ascii_chars(s@, n);
            assert(all.take(n) =~= ascii_glyphs(s@.take(n)));
        }
    }
    kept
}

} // verus!
