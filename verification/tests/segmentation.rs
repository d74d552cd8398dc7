use stringutils::rules::{contains_word, first_segment, Ruleset};
use stringutils::segment::{spans, split, word_spans};
use stringutils::span::Span;
use stringutils::{
    grapheme_clusters, split_at_word_boundaries, split_unicode_sentence_bounds, unicode_sentences,
    unicode_words,
};
use unicode_segmentation::UnicodeSegmentation;

const FAMILY: &str = "\u{1F468}\u{200D}\u{1F469}\u{200D}\u{1F467}";

fn corpus() -> Vec<&'static str> {
    vec![
        "",
        "a",
        " ",
        "a\r\nb",
        "\r\n\r\n",
        "it's 3.14!",
        "Dr. Smith left. He arrived.",
        "Mr. Fox jumped. [...] The dog was too lazy.",
        "The quick (\"brown\")  fox can't jump 32.3 feet, right?",
        "Brr, it's 29.3\u{b0}F!",
        "a\u{310}e\u{301}o\u{308}\u{332}",
        "\u{301}abc",
        "a\r\nb\u{1F1F7}\u{1F1FA}\u{1F1F8}\u{1F1F9}",
        "\u{1F1F7}\u{1F1FA}\u{1F1F8}",
        FAMILY,
        "x\u{1F468}\u{200D}\u{1F469}\u{200D}\u{1F467}\u{200D}\u{1F466}y",
        "\u{939}\u{93F}\u{928}\u{94D}\u{926}\u{940}",
        "\u{BA8}\u{BBF}",
        "\u{1100}\u{1161}\u{11A8}\u{AC00}\u{1100}",
        "\u{5D0}\"\u{5D1} \u{5D0}'\u{5D1}",
        "\u{30AB}\u{30BF}\u{30AB}\u{30CA} \u{3072}\u{3089}\u{304C}\u{306A}",
        "1,000.50 a_b_c  e.g. U.S.A. etc. and so on",
        "Hello?! \"Really.\" (Yes.) no\nnew line. 3.5 is a number.",
        "tab\tand\u{a0}nbsp\u{2028}line sep",
        "   ",
        "...",
        "\u{200D}\u{200D}a\u{200D}",
        "e\u{301}\u{200D}\u{1F600}\u{FE0F}",
    ]
}

#[test]
fn family_emoji_is_one_extended_cluster() {
    assert_eq!(grapheme_clusters(FAMILY, true), vec![FAMILY]);
}

#[test]
fn family_emoji_under_legacy_rules() {
    // The joiner rule for emoji belongs to the legacy rules as well, so
    // the sequence stays whole.
    assert_eq!(grapheme_clusters(FAMILY, false), vec![FAMILY]);
}

#[test]
fn legacy_rules_split_what_extended_rules_join() {
    let hindi = "\u{939}\u{93F}\u{928}\u{94D}\u{926}\u{940}";
    assert_eq!(grapheme_clusters(hindi, true)[0], "\u{939}\u{93F}");
    assert_eq!(grapheme_clusters(hindi, false)[0], "\u{939}");
    let tamil = "\u{BA8}\u{BBF}";
    assert_eq!(grapheme_clusters(tamil, true), vec![tamil]);
    assert_eq!(grapheme_clusters(tamil, false), vec!["\u{BA8}", "\u{BBF}"]);
}

#[test]
fn crlf_is_one_cluster() {
    assert_eq!(grapheme_clusters("a\r\nb", true), vec!["a", "\r\n", "b"]);
}

#[test]
fn flags_pair_up() {
    assert_eq!(
        grapheme_clusters("a\r\nb\u{1F1F7}\u{1F1FA}\u{1F1F8}\u{1F1F9}", true),
        vec!["a", "\r\n", "b", "\u{1F1F7}\u{1F1FA}", "\u{1F1F8}\u{1F1F9}"]
    );
}

#[test]
fn combining_marks_join_their_base() {
    assert_eq!(
        grapheme_clusters("a\u{310}e\u{301}o\u{308}\u{332}", true),
        vec!["a\u{310}", "e\u{301}", "o\u{308}\u{332}"]
    );
}

#[test]
fn leading_combining_mark_stands_alone() {
    assert_eq!(grapheme_clusters("\u{301}abc", true), vec!["\u{301}", "a", "b", "c"]);
}

#[test]
fn hangul_syllables_compose() {
    assert_eq!(
        grapheme_clusters("\u{1100}\u{1161}\u{11A8}\u{AC00}\u{1100}", true),
        vec!["\u{1100}\u{1161}\u{11A8}", "\u{AC00}", "\u{1100}"]
    );
}

#[test]
fn empty_string_has_no_segments() {
    assert!(grapheme_clusters("", true).is_empty());
    assert!(grapheme_clusters("", false).is_empty());
    assert!(split_at_word_boundaries("").is_empty());
    assert!(unicode_words("").is_empty());
    assert!(unicode_sentences("").is_empty());
    assert!(split_unicode_sentence_bounds("").is_empty());
    assert!(spans("", Ruleset::Word).is_empty());
}

#[test]
fn words_exclude_punctuation() {
    assert_eq!(unicode_words("it's 3.14!"), vec!["it's", "3.14"]);
}

#[test]
fn word_boundaries_keep_everything() {
    assert_eq!(split_at_word_boundaries("it's 3.14!"), vec!["it's", " ", "3.14", "!"]);
}

#[test]
fn words_of_a_longer_sentence() {
    assert_eq!(
        unicode_words("The quick (\"brown\") fox can't jump 32.3 feet, right?"),
        vec!["The", "quick", "brown", "fox", "can't", "jump", "32.3", "feet", "right"]
    );
}

#[test]
fn word_boundaries_of_a_longer_sentence() {
    assert_eq!(
        split_at_word_boundaries("The quick (\"brown\")  fox"),
        vec!["The", " ", "quick", " ", "(", "\"", "brown", "\"", ")", "  ", "fox"]
    );
}

#[test]
fn text_without_letters_or_digits_has_no_words() {
    assert!(unicode_words("  ... !? ").is_empty());
}

#[test]
fn sentences_of_two() {
    // A full stop followed by a space and a capital letter ends a
    // sentence, after an abbreviation too.
    assert_eq!(
        unicode_sentences("Dr. Smith left. He arrived."),
        vec!["Dr. ", "Smith left. ", "He arrived."]
    );
}

#[test]
fn lower_case_continuation_suppresses_the_break() {
    assert_eq!(
        unicode_sentences("He said etc. and left. Then came 3.5 more."),
        vec!["He said etc. and left. ", "Then came 3.5 more."]
    );
}

#[test]
fn sentences_keep_text_without_letters() {
    assert_eq!(
        unicode_sentences("Mr. Fox jumped. [...] The dog was too lazy."),
        vec!["Mr. ", "Fox jumped. ", "[...] ", "The dog was too lazy."]
    );
}

#[test]
fn trailing_text_is_a_sentence() {
    assert_eq!(unicode_sentences("Done. and then"), vec!["Done. and then"]);
    assert_eq!(unicode_sentences("Done. And then"), vec!["Done. ", "And then"]);
}

#[test]
fn sentence_alias_agrees() {
    for s in corpus() {
        assert_eq!(split_unicode_sentence_bounds(s), unicode_sentences(s));
    }
}

#[test]
fn pieces_join_to_the_input() {
    for s in corpus() {
        assert_eq!(grapheme_clusters(s, true).concat(), s);
        assert_eq!(grapheme_clusters(s, false).concat(), s);
        assert_eq!(split_at_word_boundaries(s).concat(), s);
        assert_eq!(unicode_sentences(s).concat(), s);
        assert_eq!(split_unicode_sentence_bounds(s).concat(), s);
    }
}

#[test]
fn no_piece_is_empty() {
    for s in corpus() {
        for rules in [
            Ruleset::Grapheme { extended: true },
            Ruleset::Grapheme { extended: false },
            Ruleset::Word,
            Ruleset::Sentence,
        ] {
            assert!(split(s, rules).iter().all(|p| !p.is_empty()));
        }
    }
}

#[test]
fn agrees_with_whole_string_iteration() {
    for s in corpus() {
        assert_eq!(grapheme_clusters(s, true), s.graphemes(true).collect::<Vec<&str>>());
        assert_eq!(grapheme_clusters(s, false), s.graphemes(false).collect::<Vec<&str>>());
        assert_eq!(split_at_word_boundaries(s), s.split_word_bounds().collect::<Vec<&str>>());
        assert_eq!(unicode_words(s), s.unicode_words().collect::<Vec<&str>>());
        assert_eq!(unicode_sentences(s), s.split_sentence_bounds().collect::<Vec<&str>>());
    }
}

#[test]
fn running_twice_gives_the_same() {
    for s in corpus() {
        assert_eq!(grapheme_clusters(s, true), grapheme_clusters(s, true));
        assert_eq!(grapheme_clusters(s, false), grapheme_clusters(s, false));
        assert_eq!(split_at_word_boundaries(s), split_at_word_boundaries(s));
        assert_eq!(unicode_words(s), unicode_words(s));
        assert_eq!(unicode_sentences(s), unicode_sentences(s));
        assert_eq!(spans(s, Ruleset::Word), spans(s, Ruleset::Word));
    }
}

#[test]
fn spans_are_contiguous_and_cover_the_input() {
    for s in corpus() {
        for rules in [
            Ruleset::Grapheme { extended: true },
            Ruleset::Grapheme { extended: false },
            Ruleset::Word,
            Ruleset::Sentence,
        ] {
            let found = spans(s, rules);
            let pieces = split(s, rules);
            assert_eq!(found.len(), pieces.len());
            let mut at = 0;
            for (span, piece) in found.iter().zip(pieces.iter()) {
                assert_eq!(span.start, at);
                assert!(span.start < span.end);
                assert_eq!(span.slice(s), Some(*piece));
                at = span.end;
            }
            assert_eq!(at, s.len());
        }
    }
}

#[test]
fn spans_of_a_short_text() {
    assert_eq!(
        spans("Brr, it's 29.3\u{b0}F!", Ruleset::Word),
        vec![
            Span { start: 0, end: 3 },
            Span { start: 3, end: 4 },
            Span { start: 4, end: 5 },
            Span { start: 5, end: 9 },
            Span { start: 9, end: 10 },
            Span { start: 10, end: 14 },
            Span { start: 14, end: 16 },
            Span { start: 16, end: 17 },
            Span { start: 17, end: 18 },
        ]
    );
    assert_eq!(
        spans("a\u{310}e\u{301}o\u{308}\u{332}\r\n", Ruleset::Grapheme { extended: true }),
        vec![
            Span { start: 0, end: 3 },
            Span { start: 3, end: 6 },
            Span { start: 6, end: 11 },
            Span { start: 11, end: 13 },
        ]
    );
}

#[test]
fn first_segment_is_a_prefix() {
    assert_eq!(first_segment("", Ruleset::Word), None);
    assert_eq!(first_segment("it's 3.14!", Ruleset::Word), Some("it's"));
    assert_eq!(first_segment("\r\nb", Ruleset::Grapheme { extended: true }), Some("\r\n"));
    assert_eq!(first_segment("One. Two.", Ruleset::Sentence), Some("One. "));
}

#[test]
fn word_content_is_recognised() {
    assert!(contains_word("it's"));
    assert!(contains_word("3.14"));
    assert!(contains_word("\u{5D0}"));
    assert!(!contains_word(" "));
    assert!(!contains_word("!"));
    assert!(!contains_word(""));
}

#[test]
fn slicing_by_span() {
    let s = "a\u{e9}b";
    assert_eq!(Span { start: 0, end: 1 }.slice(s), Some("a"));
    assert_eq!(Span { start: 1, end: 3 }.slice(s), Some("\u{e9}"));
    assert_eq!(Span { start: 1, end: 4 }.slice(s), Some("\u{e9}b"));
    assert_eq!(Span { start: 4, end: 4 }.slice(s), Some(""));
    assert_eq!(Span { start: 0, end: 4 }.slice(s), Some(s));
    assert_eq!(Span { start: 1, end: 2 }.slice(s), None);
    assert_eq!(Span { start: 2, end: 3 }.slice(s), None);
    assert_eq!(Span { start: 3, end: 1 }.slice(s), None);
    assert_eq!(Span { start: 0, end: 5 }.slice(s), None);
}

#[test]
fn word_spans_skip_separators() {
    assert_eq!(
        word_spans("it's 3.14!"),
        vec![Span { start: 0, end: 4 }, Span { start: 5, end: 9 }]
    );
    assert!(word_spans("").is_empty());
    assert!(word_spans(" ... ").is_empty());
}

#[test]
fn word_spans_cover_the_words() {
    for s in corpus() {
        let texts: Vec<&str> = word_spans(s).iter().filter_map(|span| span.slice(s)).collect();
        assert_eq!(texts, unicode_words(s));
    }
}
