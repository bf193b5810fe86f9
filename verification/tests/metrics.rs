use writerm::metrics::{compute, format_reading_time, is_sentence_terminator, DocumentMetrics};

#[test]
fn empty_text_is_all_zeros() {
    let metrics = compute("");

    assert_eq!(
        metrics,
        DocumentMetrics {
            characters: 0,
            words: 0,
            sentences: 0,
            paragraphs: 0,
            reading_secs: 0,
        }
    );
}

#[test]
fn plain_paragraph_counts_one_paragraph_and_one_sentence() {
    let metrics = compute("Hello world.");

    assert_eq!(metrics.characters, 12);
    assert_eq!(metrics.words, 2);
    assert_eq!(metrics.sentences, 1);
    assert_eq!(metrics.paragraphs, 1);
    // 2 words at 180 wpm = ceil(0.667s) = 1s
    assert_eq!(metrics.reading_secs, 1);
}

#[test]
fn multiple_paragraphs_split_by_blank_line() {
    let text =
        "First sentence. Second sentence.\n\nA new paragraph here!\n\nNo terminator line";
    let metrics = compute(text);

    // Lines: "First sentence. Second sentence." / "" / "A new paragraph here!" / "" / "No terminator line"
    // Paragraphs: only the first and third line have terminators.
    assert_eq!(metrics.paragraphs, 2);
    assert_eq!(metrics.sentences, 3);
    // 11 words -> ceil(11 * 60 / 180) = ceil(3.667) = 4s
    assert_eq!(metrics.reading_secs, 4);
}

#[test]
fn question_and_exclamation_marks_count_as_terminators() {
    let metrics = compute("Are you sure? Yes!");

    assert_eq!(metrics.sentences, 2);
    assert_eq!(metrics.paragraphs, 1);
    assert_eq!(metrics.words, 4);
}

#[test]
fn blank_lines_and_headings_without_terminator_do_not_count_as_paragraphs() {
    let text = "# Heading\n\nbody text.\n\n---\n\n> quote line with no terminator";
    let metrics = compute(text);

    // Only "body text." qualifies.
    assert_eq!(metrics.paragraphs, 1);
    assert_eq!(metrics.sentences, 1);
}

#[test]
fn reading_time_rounds_up_to_next_second() {
    // 181 words at 180 wpm is just over one minute.
    let words_text = "word ".repeat(181);
    let metrics = compute(&words_text);

    assert_eq!(metrics.words, 181);
    assert_eq!(metrics.reading_secs, 61);
}

#[test]
fn reading_time_hits_a_clean_minute() {
    // 360 words at 180 wpm = exactly 2 minutes.
    let words_text = "word ".repeat(360);
    let metrics = compute(&words_text);

    assert_eq!(metrics.reading_secs, 120);
}

#[test]
fn reading_time_for_zero_words_is_zero() {
    let metrics = compute("   \n\n  \n");
    assert_eq!(metrics.reading_secs, 0);
    // Lines are all blank, so zero paragraphs even though there are 3
    // split_whitespace tokens? No: split_whitespace skips them, so 0.
    assert_eq!(metrics.words, 0);
    assert_eq!(metrics.paragraphs, 0);
}

#[test]
fn characters_count_includes_whitespace_and_newlines() {
    // "a b\n" is 4 chars.
    let metrics = compute("a b\n");
    assert_eq!(metrics.characters, 4);
}

#[test]
fn ellipsis_counts_each_dot_as_a_sentence_terminator() {
    // "Wait..." terminates three sentences.
    let metrics = compute("Wait...");

    assert_eq!(metrics.sentences, 3);
    // It still terminates, so the line is one paragraph.
    assert_eq!(metrics.paragraphs, 1);
}

#[test]
fn format_reading_time_renders_compact_labels() {
    assert_eq!(format_reading_time(0), "0s");
    assert_eq!(format_reading_time(45), "45s");
    assert_eq!(format_reading_time(59), "59s");
    assert_eq!(format_reading_time(60), "1m");
    assert_eq!(format_reading_time(66), "1m 6s");
    assert_eq!(format_reading_time(120), "2m");
    assert_eq!(format_reading_time(125), "2m 5s");
}

#[test]
fn is_sentence_terminator_only_matches_ascii_punctuation() {
    assert!(is_sentence_terminator('.'));
    assert!(is_sentence_terminator('!'));
    assert!(is_sentence_terminator('?'));
    assert!(!is_sentence_terminator(','));
    assert!(!is_sentence_terminator(':'));
    assert!(!is_sentence_terminator(';'));
    assert!(!is_sentence_terminator(' '));
    // Non-ASCII fullwidth equivalents are intentionally not counted.
    assert!(!is_sentence_terminator('。'));
}
