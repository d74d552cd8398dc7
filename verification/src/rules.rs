use unicode_segmentation::UnicodeSegmentation;
use vstd::prelude::*;

verus! {

/// The boundary rules a text is segmented by.
#[derive(Clone, Copy, Debug, PartialEq, Eq, Structural)]
pub enum Ruleset {
    /// Grapheme cluster boundaries; `extended` selects extended rather
    /// than legacy clusters.
    Grapheme { extended: bool },
    /// Word boundaries.
    Word,
    /// Sentence boundaries.
    Sentence,
}

/// The number of characters in the first grapheme cluster of `text`, as the
/// Unicode tables of `unicode-segmentation` decide it.
pub uninterp spec fn grapheme_len(text: Seq<char>, extended: bool) -> nat;

/// The number of characters of `text` before its first word boundary
/// other than the start of the text.
pub uninterp spec fn word_bound_len(text: Seq<char>) -> nat;

/// The number of characters of `text` before its first sentence boundary
/// other than the start of the text.
pub uninterp spec fn sentence_len(text: Seq<char>) -> nat;

/// The first stretch between word boundaries of `text` that holds a letter
/// or a digit, if there is one.
pub uninterp spec fn leading_word(text: Seq<char>) -> Option<Seq<char>>;

/// Trusted: the first item of `UnicodeSegmentation::graphemes`. Claims that
/// an empty text has no first cluster and that the first cluster of any
/// other text is a non-empty prefix of it, the same for the same text and
/// flag.
#[verifier::external_body]
fn first_grapheme<'a>(text: &'a str, extended: bool) -> (r: Option<&'a str>)
    ensures
        r is Some <==> text@.len() > 0,
        r matches Some(head) ==> 1 <= grapheme_len(text@, extended) <= text@.len() && head@
            == text@.take(grapheme_len(text@, extended) as int),
{
    text.graphemes(extended).next()
}

/// Trusted: the first item of `UnicodeSegmentation::split_word_bounds`.
/// Claims that an empty text yields nothing and that any other text yields
/// a non-empty prefix of itself, the same for the same text.
#[verifier::external_body]
fn first_word_bound<'a>(text: &'a str) -> (r: Option<&'a str>)
    ensures
        r is Some <==> text@.len() > 0,
        r matches Some(head) ==> 1 <= word_bound_len(text@) <= text@.len() && head@ == text@.take(
            word_bound_len(text@) as int,
        ),
{
    text.split_word_bounds().next()
}

/// Trusted: the first item of `UnicodeSegmentation::split_sentence_bounds`.
/// Claims that an empty text yields nothing and that any other text yields
/// a non-empty prefix of itself, the same for the same text.
#[verifier::external_body]
fn first_sentence<'a>(text: &'a str) -> (r: Option<&'a str>)
    ensures
        r is Some <==> text@.len() > 0,
        r matches Some(head) ==> 1 <= sentence_len(text@) <= text@.len() && head@ == text@.take(
            sentence_len(text@) as int,
        ),
{
    text.split_sentence_bounds().next()
}

/// Trusted: the first item of `UnicodeSegmentation::unicode_words`. Claims
/// only that the outcome is the same for the same text.
#[verifier::external_body]
fn first_word<'a>(text: &'a str) -> (r: Option<&'a str>)
    ensures
        match r {
            Some(word) => leading_word(text@) == Some(word@),
            None => leading_word(text@) is None,
        },
{
    text.unicode_words().next()
}

/// The length in characters that the rules give the first segment of
/// `text`, before any bound is imposed on it.
pub open spec fn raw_head_len(text: Seq<char>, rules: Ruleset) -> nat {
    match rules {
        Ruleset::Grapheme { extended } => grapheme_len(text, extended),
        Ruleset::Word => word_bound_len(text),
        Ruleset::Sentence => sentence_len(text),
    }
}

/// The length in characters of the first segment of `text`: what the rules
/// give, which for a non-empty text lies between one and the length of the
/// text. Where it did not, the whole text would be the segment, so that
/// the length is positive and within the text by construction.
pub open spec fn head_len(text: Seq<char>, rules: Ruleset) -> nat {
    let k = raw_head_len(text, rules);
    if 1 <= k <= text.len() {
        k
    } else {
        text.len()
    }
}

/// `text` holds a letter or a digit between two of its word boundaries.
pub open spec fn has_word(text: Seq<char>) -> bool {
    leading_word(text) is Some
}

/// The first segment of `text` under `rules`, or `None` when the text is
/// empty.
pub fn first_segment<'a>(text: &'a str, rules: Ruleset) -> (r: Option<&'a str>)
    ensures
        r is Some <==> text@.len() > 0,
        r matches Some(head) ==> head@ == text@.take(head_len(text@, rules) as int),
{
    match rules {
        Ruleset::Grapheme { extended } => first_grapheme(text, extended),
        Ruleset::Word => first_word_bound(text),
        Ruleset::Sentence => first_sentence(text),
    }
}

/// Whether `text` holds a letter or a digit between two of its word
/// boundaries.
pub fn contains_word(text: &str) -> (r: bool)
    ensures
        r == has_word(text@),
{
    first_word(text).is_some()
}

} // verus!
