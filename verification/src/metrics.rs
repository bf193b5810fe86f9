//! Document length and readability metrics.
//!
//! The metrics describe the raw text that the writer produces, not what is
//! rendered from it, so that the counts stay the same while the view changes.

use crate::text::{
    byte_len, byte_offsets, decimal_string, is_white_space, lemma_bytes_increase, to_chars,
};
use vstd::prelude::*;

verus! {

/// Words per minute that the reading time assumes.
pub const READING_WPM: u32 = 180;

/// The document metrics shown in the sidebar.
#[derive(Debug, Clone, Copy, PartialEq, Eq, Structural)]
pub struct DocumentMetrics {
    pub characters: usize,
    pub words: usize,
    pub sentences: usize,
    pub paragraphs: usize,
    pub reading_secs: u64,
}

/// A word starts at `i`: there is a visible character with none before it.
pub open spec fn word_starts_at(text: Seq<char>, i: int) -> bool {
    &&& 0 <= i < text.len()
    &&& !crate::text::white_space(text[i])
    &&& i == 0 || crate::text::white_space(text[i - 1])
}

/// The number of words: maximal runs of characters that are no white space.
pub open spec fn words(text: Seq<char>) -> nat
    decreases text.len(),
{
    if text.len() == 0 {
        0
    } else {
        words(text.drop_last()) + if word_starts_at(text, text.len() - 1) {
            1nat
        } else {
            0
        }
    }
}

/// The characters that end a sentence.
pub open spec fn sentence_terminator(c: char) -> bool {
    c == '.' || c == '!' || c == '?'
}

/// The number of sentences: of characters that end one.
pub open spec fn sentences(text: Seq<char>) -> nat
    decreases text.len(),
{
    if text.len() == 0 {
        0
    } else {
        sentences(text.drop_last()) + if sentence_terminator(text.last()) {
            1nat
        } else {
            0
        }
    }
}

/// A line with a character that ends a sentence.
pub open spec fn is_paragraph(line: Seq<char>) -> bool {
    exists|i: int| 0 <= i < line.len() && sentence_terminator(#[trigger] line[i])
}

/// How many of `lines` are paragraphs.
pub open spec fn paragraph_count(lines: Seq<Seq<char>>) -> nat
    decreases lines.len(),
{
    if lines.len() == 0 {
        0
    } else {
        paragraph_count(lines.drop_last()) + if is_paragraph(lines.last()) {
            1nat
        } else {
            0
        }
    }
}

/// The number of paragraphs of a text.
pub open spec fn paragraphs(text: Seq<char>) -> nat {
    paragraph_count(crate::text::lines(text))
}

/// The seconds that reading takes, rounded up.
pub open spec fn reading_seconds(words: nat) -> nat {
    ((words * 60 + READING_WPM as nat - 1) as nat) / (READING_WPM as nat)
}

/// Computes all metrics of `text`.
pub fn compute(text: &str) -> (metrics: DocumentMetrics)
    ensures
        metrics.characters == text@.len(),
        metrics.words == words(text@),
        metrics.sentences == sentences(text@),
        metrics.paragraphs == paragraphs(text@),
        metrics.reading_secs == reading_seconds(words(text@)),
{
    let chars = to_chars(text);
    let mut word_total: usize = 0;
    let mut sentence_total: usize = 0;
    let mut paragraph_total: usize = 0;
    let mut in_word = false;
    let mut in_paragraph = false;
    let mut i: usize = 0;
    proof {
        assert(crate::text::lines(chars@.take(0)).drop_last() =~= seq![]);
    }
    while i < chars.len()
        invariant
            i <= chars@.len(),
            word_total <= i,
            sentence_total <= i,
            paragraph_total <= i,
            word_total == words(chars@.take(i as int)),
            sentence_total == sentences(chars@.take(i as int)),
            crate::text::lines(chars@.take(i as int)).len() >= 1,
            paragraph_total == paragraph_count(
                crate::text::lines(chars@.take(i as int)).drop_last(),
            ),
            in_word == (i > 0 && !crate::text::white_space(chars@[i - 1])),
            in_paragraph == is_paragraph(crate::text::lines(chars@.take(i as int)).last()),
        decreases chars@.len() - i,
    {
        let c = chars[i];
        let ghost prev = chars@.take(i as int);
        let ghost next = chars@.take(i + 1);
        proof {
            assert(next.drop_last() == prev);
            let before = crate::text::lines(prev);
            let after = crate::text::lines(next);
            if c == '\n' {
                assert(after.drop_last() == before);
            } else {
                assert(after.drop_last() == before.drop_last());
                let line = before.last();
                if is_paragraph(line) {
                    let j = choose|j: int| 0 <= j < line.len() && sentence_terminator(line[j]);
                    assert(sentence_terminator(line.push(c)[j]));
                }
                if sentence_terminator(c) {
                    assert(sentence_terminator(line.push(c)[line.len() as int]));
                }
                if is_paragraph(after.last()) && !sentence_terminator(c) {
                    let j = choose|j: int|
                        0 <= j < line.len() + 1 && sentence_terminator(line.push(c)[j]);
                    assert(sentence_terminator(line[j]));
                }
            }
        }
        let visible = !is_white_space(c);
        if visible && !in_word {
            word_total = word_total + 1;
        }
        in_word = visible;
        if c == '\n' {
            if in_paragraph {
                paragraph_total = paragraph_total + 1;
            }
            in_paragraph = false;
        } else if is_sentence_terminator(c) {
            sentence_total = sentence_total + 1;
            in_paragraph = true;
        }
        i = i + 1;
    }
    proof {
        assert(chars@.take(i as int) == chars@);
        law_counts_are_bounded(text@);
    }
    if in_paragraph {
        paragraph_total = paragraph_total + 1;
    }
    DocumentMetrics {
        characters: i,
        words: word_total,
        sentences: sentence_total,
        paragraphs: paragraph_total,
        reading_secs: reading_time_secs(word_total),
    }
}

/// Whether `c` ends a sentence.
pub fn is_sentence_terminator(c: char) -> (b: bool)
    ensures
        b == sentence_terminator(c),
{
    c == '.' || c == '!' || c == '?'
}

/// The label of a reading time: seconds below a minute, whole minutes, or
/// both.
pub open spec fn reading_label(secs: nat) -> Seq<char> {
    if secs < 60 {
        crate::text::decimal(secs) + seq!['s']
    } else if secs % 60 == 0 {
        crate::text::decimal(secs / 60) + seq!['m']
    } else {
        crate::text::decimal(secs / 60) + seq!['m', ' '] + crate::text::decimal(secs % 60) + seq![
            's',
        ]
    }
}

/// Formats a reading time, for example `45s`, `1m` or `1m 6s`.
pub fn format_reading_time(secs: u64) -> (label: String)
    ensures
        label@ == reading_label(secs as nat),
{
    if secs < 60 {
        let mut label = decimal_string(secs);
        label.push('s');
        label
    } else {
        let mut label = decimal_string(secs / 60);
        label.push('m');
        if secs % 60 != 0 {
            label.push(' ');
            let rest = decimal_string(secs % 60);
            label.append(rest.as_str());
            label.push('s');
        }
        label
    }
}

/// The seconds that reading `words` words takes.
pub fn reading_time_secs(words: usize) -> (secs: u64)
    ensures
        secs == reading_seconds(words as nat),
{
    let rest: u64 = if words % 3 == 0 {
        0
    } else {
        1
    };
    (words / 3) as u64 + rest
}

/// There are no more paragraphs than sentences, and no more sentences or words
/// than characters.
pub proof fn law_counts_are_bounded(text: Seq<char>)
    ensures
        paragraphs(text) <= sentences(text) <= text.len(),
        words(text) <= text.len(),
    decreases text.len(),
{
    if text.len() == 0 {
        assert(crate::text::lines(text).drop_last() =~= seq![]);
        assert(paragraph_count(crate::text::lines(text).drop_last()) == 0);
    } else {
        let t = text.drop_last();
        law_counts_are_bounded(t);
        crate::text::lemma_lines(t);
        let before = crate::text::lines(t);
        let after = crate::text::lines(text);
        if text.last() == '\n' {
            assert(after.drop_last() == before);
        } else {
            assert(after.drop_last() == before.drop_last());
            let line = before.last();
            if is_paragraph(after.last()) && !sentence_terminator(text.last()) {
                let j = choose|j: int|
                    0 <= j < line.len() + 1 && sentence_terminator(line.push(text.last())[j]);
                assert(sentence_terminator(line[j]));
                assert(is_paragraph(line));
            }
        }
    }
}

/// A text without words takes no time to read, and every further word never
/// shortens the time.
pub proof fn law_reading_time_grows(fewer: nat, more: nat)
    requires
        fewer <= more,
    ensures
        reading_seconds(0) == 0,
        reading_seconds(fewer) <= reading_seconds(more),
        reading_seconds(more) * READING_WPM >= more * 60,
        more > 0 ==> (reading_seconds(more) - 1) * READING_WPM < more * 60,
{
}

/// A reading time of whole minutes names them alone, one below a minute its
/// seconds alone, and any other both.
pub proof fn law_reading_times_name_minutes_and_seconds(minutes: nat, seconds: nat)
    requires
        seconds < 60,
    ensures
        reading_label(seconds) == crate::text::decimal(seconds) + seq!['s'],
        minutes > 0 ==> reading_label(minutes * 60) == crate::text::decimal(minutes) + seq!['m'],
        minutes > 0 && seconds > 0 ==> reading_label(minutes * 60 + seconds)
            == crate::text::decimal(minutes) + seq!['m', ' '] + crate::text::decimal(seconds)
            + seq!['s'],
{
}

/// A text of as many words as are read in a minute takes a minute, and half as
/// many take half of it.
pub proof fn law_reading_takes_a_minute_for_its_words(minutes: nat)
    ensures
        reading_seconds(minutes * 180) == minutes * 60,
        reading_seconds(minutes * 90) == minutes * 30,
{
}

/// Words are what white space separates: the words of two texts with white
/// space between them are the words of the one and those of the other.
pub proof fn law_white_space_separates_words(a: Seq<char>, c: char, b: Seq<char>)
    requires
        crate::text::white_space(c),
    ensures
        words(a + seq![c] + b) == words(a) + words(b),
    decreases b.len(),
{
    let text = a + seq![c] + b;
    if b.len() == 0 {
        assert(text.drop_last() =~= a);
    } else {
        law_white_space_separates_words(a, c, b.drop_last());
        assert(text.drop_last() =~= a + seq![c] + b.drop_last());
        assert(text[text.len() - 1] == b.last());
        assert(text[text.len() - 2] == if b.len() == 1 {
            c
        } else {
            b[b.len() - 2]
        });
    }
}

/// A text without white space is one word, whatever characters it is made of,
/// and an empty text is none.
pub proof fn law_text_without_white_space_is_a_word(text: Seq<char>)
    requires
        forall|i: int| 0 <= i < text.len() ==> !crate::text::white_space(#[trigger] text[i]),
    ensures
        words(text) == (if text.len() == 0 {
            0nat
        } else {
            1
        }),
    decreases text.len(),
{
    if text.len() > 0 {
        let t = text.drop_last();
        assert forall|i: int| 0 <= i < t.len() implies !crate::text::white_space(
            #[trigger] t[i],
        ) by {
            assert(t[i] == text[i]);
        }
        law_text_without_white_space_is_a_word(t);
        assert(!crate::text::white_space(text[text.len() - 1]));
        if t.len() > 0 {
            assert(!crate::text::white_space(text[text.len() - 2]));
        }
    }
}

/// The sentences of a text are those of its parts, wherever it is parted.
pub proof fn law_sentences_add_up(a: Seq<char>, b: Seq<char>)
    ensures
        sentences(a + b) == sentences(a) + sentences(b),
    decreases b.len(),
{
    if b.len() == 0 {
        assert(a + b =~= a);
    } else {
        law_sentences_add_up(a, b.drop_last());
        assert((a + b).drop_last() =~= a + b.drop_last());
    }
}

/// A full stop, an exclamation mark and a question mark end a sentence each,
/// and no other character does.
pub proof fn law_one_character_ends_a_sentence(c: char)
    ensures
        sentences(seq![c]) == (if seq!['.', '!', '?'].contains(c) {
            1nat
        } else {
            0
        }),
{
    reveal_with_fuel(sentences, 2);
    let ends = seq!['.', '!', '?'];
    assert(seq![c].drop_last() =~= seq![]);
    assert(seq![c].last() == c);
    assert(ends[0] == '.' && ends[1] == '!' && ends[2] == '?');
    if ends.contains(c) {
        let i = choose|i: int| 0 <= i < ends.len() && ends[i] == c;
        assert(i == 0 || i == 1 || i == 2);
    }
}

proof fn lemma_paragraph_counts_add_up(a: Seq<Seq<char>>, b: Seq<Seq<char>>)
    ensures
        paragraph_count(a + b) == paragraph_count(a) + paragraph_count(b),
    decreases b.len(),
{
    if b.len() == 0 {
        assert(a + b =~= a);
    } else {
        lemma_paragraph_counts_add_up(a, b.drop_last());
        assert((a + b).drop_last() =~= a + b.drop_last());
    }
}

/// Newlines separate paragraphs: the paragraphs of two texts with a newline
/// between them are the paragraphs of the one and those of the other.
pub proof fn law_newlines_separate_paragraphs(a: Seq<char>, b: Seq<char>)
    ensures
        paragraphs(a + seq!['\n'] + b) == paragraphs(a) + paragraphs(b),
{
    crate::text::law_newlines_separate_lines(a, b);
    lemma_paragraph_counts_add_up(crate::text::lines(a), crate::text::lines(b));
}

/// A text of one line is a paragraph if it holds the end of a sentence, and
/// else it is none.
pub proof fn law_a_line_with_a_sentence_is_a_paragraph(text: Seq<char>)
    requires
        !text.contains('\n'),
    ensures
        paragraphs(text) == (if sentences(text) > 0 {
            1nat
        } else {
            0
        }),
{
    crate::text::law_text_without_newlines_is_a_line(text);
    lemma_sentence_ends(text);
    let listed = crate::text::lines(text);
    assert(listed.drop_last() =~= seq![]);
    assert(paragraph_count(listed.drop_last()) == 0);
}

proof fn lemma_sentence_ends(text: Seq<char>)
    ensures
        is_paragraph(text) <==> sentences(text) > 0,
    decreases text.len(),
{
    if text.len() > 0 {
        let t = text.drop_last();
        lemma_sentence_ends(t);
        if is_paragraph(text) {
            let i = choose|i: int| 0 <= i < text.len() && sentence_terminator(text[i]);
            if i < t.len() {
                assert(sentence_terminator(t[i]));
            }
        }
        if is_paragraph(t) {
            let i = choose|i: int| 0 <= i < t.len() && sentence_terminator(t[i]);
            assert(sentence_terminator(text[i]));
        }
        if sentence_terminator(text.last()) {
            assert(sentence_terminator(text[text.len() - 1]));
        }
    }
}

// ---------------------------------------------------------------------------
// Word starts
// ---------------------------------------------------------------------------
/// Where the words of a text start, in order.
pub open spec fn word_start_list(text: Seq<char>) -> Seq<int>
    decreases text.len(),
{
    if text.len() == 0 {
        seq![]
    } else if word_starts_at(text, text.len() - 1) {
        word_start_list(text.drop_last()).push(text.len() - 1)
    } else {
        word_start_list(text.drop_last())
    }
}

/// `starts` are the word starts of `text`, in bytes.
pub open spec fn lists_words(starts: Seq<usize>, text: Seq<char>) -> bool {
    &&& starts.len() == word_start_list(text).len()
    &&& forall|i: int|
        0 <= i < starts.len() ==> #[trigger] starts[i] == byte_len(
            text.take(word_start_list(text)[i]),
        )
}

/// There is one start for each word; those before a position are the words of
/// the text up to there, and those of the rest lie behind it.
pub proof fn lemma_word_starts(text: Seq<char>, pos: int)
    requires
        0 <= pos <= text.len(),
    ensures
        word_start_list(text).len() == words(text),
        words(text.take(pos)) <= words(text),
        forall|i: int|
            0 <= i < words(text.take(pos)) ==> 0 <= #[trigger] word_start_list(text)[i] < pos,
        forall|i: int|
            words(text.take(pos)) <= i < words(text) ==> pos <= #[trigger] word_start_list(text)[i]
                < text.len(),
    decreases text.len(),
{
    if text.len() > 0 {
        let t = text.drop_last();
        if pos == text.len() {
            assert(text.take(pos) == text);
            assert(t.take(pos - 1) == t);
            lemma_word_starts(t, pos - 1);
        } else {
            assert(t.take(pos) == text.take(pos));
            lemma_word_starts(t, pos);
        }
    } else {
        assert(text.take(0) == text);
    }
}

/// Every listed start is the first character of a word: it is visible, and
/// white space or the start of the text lies before it. There are as many words
/// before it as there are starts.
pub proof fn law_word_starts_are_first_characters(text: Seq<char>, i: int)
    requires
        0 <= i < word_start_list(text).len(),
    ensures
        ({
            let at = word_start_list(text)[i];
            &&& 0 <= at < text.len()
            &&& !crate::text::white_space(text[at])
            &&& at == 0 || crate::text::white_space(text[at - 1])
            &&& words(text.take(at)) == i
            &&& words(text.take(at + 1)) == i + 1
        }),
    decreases text.len(),
{
    let t = text.drop_last();
    let at = word_start_list(text)[i];
    if i < word_start_list(t).len() {
        law_word_starts_are_first_characters(t, i);
        assert(t.take(at) =~= text.take(at));
        assert(t.take(at + 1) =~= text.take(at + 1));
    } else {
        lemma_word_starts(t, t.len() as int);
        assert(text.take(at) =~= t);
        assert(text.take(at + 1) =~= text);
    }
}

/// Finds where the words of a text start, in bytes.
pub fn build_word_starts(text: &str) -> (starts: Vec<usize>)
    ensures
        lists_words(starts@, text@),
{
    let chars = to_chars(text);
    let offsets = byte_offsets(text);
    let mut starts: Vec<usize> = Vec::new();
    let mut in_word = false;
    let mut i: usize = 0;
    while i < chars.len()
        invariant
            i <= chars@.len(),
            chars@ == text@,
            offsets@.len() == text@.len() + 1,
            forall|j: int|
                0 <= j <= text@.len() ==> #[trigger] offsets@[j] == byte_len(text@.take(j)),
            starts@.len() == word_start_list(text@.take(i as int)).len(),
            forall|j: int|
                0 <= j < starts@.len() ==> #[trigger] starts@[j] == byte_len(
                    text@.take(word_start_list(text@.take(i as int))[j]),
                ),
            in_word == (i > 0 && !crate::text::white_space(chars@[i - 1])),
        decreases chars@.len() - i,
    {
        proof {
            assert(chars@.take(i + 1).drop_last() == chars@.take(i as int));
        }
        if is_white_space(chars[i]) {
            in_word = false;
        } else {
            if !in_word {
                starts.push(offsets[i]);
            }
            in_word = true;
        }
        i = i + 1;
    }
    proof {
        assert(chars@.take(i as int) == chars@);
    }
    starts
}

/// How many words of a text start before a position.
pub(crate) fn words_before(
    starts: &Vec<usize>,
    byte_pos: usize,
    Ghost(text): Ghost<Seq<char>>,
    Ghost(pos): Ghost<int>,
) -> (n: usize)
    requires
        lists_words(starts@, text),
        0 <= pos <= text.len(),
        byte_pos == byte_len(text.take(pos)),
    ensures
        n == words(text.take(pos)),
{
    proof {
        lemma_word_starts(text, pos);
    }
    let ghost count = words(text.take(pos));
    let mut low: usize = 0;
    let mut high: usize = starts.len();
    while low < high
        invariant
            low <= count <= high <= starts@.len(),
            starts@.len() == words(text),
            lists_words(starts@, text),
            0 <= pos <= text.len(),
            byte_pos == byte_len(text.take(pos)),
            forall|i: int| 0 <= i < count ==> 0 <= #[trigger] word_start_list(text)[i] < pos,
            forall|i: int|
                count <= i < words(text) ==> pos <= #[trigger] word_start_list(text)[i]
                    < text.len(),
        decreases high - low,
    {
        let mid: usize = low + (high - low) / 2;
        proof {
            let start = word_start_list(text)[mid as int];
            assert(starts@[mid as int] == byte_len(text.take(start)));
            if start < pos {
                lemma_bytes_increase(text, start, pos);
            } else if start > pos {
                lemma_bytes_increase(text, pos, start);
            }
        }
        if starts[mid] < byte_pos {
            low = mid + 1;
        } else {
            high = mid;
        }
    }
    low
}

/// The words before the cursor are never more than all words, all of them are
/// before it at the end of the text, and none at its start.
pub proof fn law_word_progress(text: Seq<char>, pos: int)
    requires
        0 <= pos <= text.len(),
    ensures
        words(text.take(pos)) <= words(text),
        words(text.take(0)) == 0,
        words(text.take(text.len() as int)) == words(text),
{
    lemma_word_starts(text, pos);
    assert(text.take(0).len() == 0);
    assert(text.take(text.len() as int) == text);
}

} // verus!
