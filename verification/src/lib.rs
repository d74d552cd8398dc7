//! Unicode text segmentation and edit-cost tables.
//!
//! The boundary rules themselves (which code points may be split, and
//! where) are those of the `unicode-segmentation` crate. This library
//! builds on single steps of it: a text is segmented by taking the first
//! segment that crate finds, then the first segment of what remains, and
//! so on. The library proves that its segmenters cover the text without
//! gap or overlap, that its cursor reports exactly the boundaries of its
//! segmenters, and that its cost tables hold the least number of edits
//! between every pair of prefixes.
//!
//! That segmenting step by step gives the same pieces as one pass of the
//! `unicode-segmentation` iterators over the whole text is not proved; the
//! tests compare the two on sample texts.

use vstd::prelude::*;

pub mod clusters;
pub mod cursor;
pub mod edit;
pub mod error;
pub mod matrix;
pub mod rules;
pub mod script;
pub mod segment;
pub mod span;
pub mod text;

pub use crate::clusters::GraphemeClusters;
pub use crate::cursor::BoundaryCursor;
pub use crate::edit::create_cost_matrix;
pub use crate::error::TextError;
pub use crate::matrix::CostMatrix;
pub use crate::rules::Ruleset;
pub use crate::span::Span;

use crate::rules::{contains_word, has_word};
use crate::segment::{piece_texts, segments, split, words_among};

verus! {

/// Splits `s` into grapheme clusters, in order: each piece is the first
/// cluster of the text that the pieces before it leave; extended clusters
/// when `extended` is set and legacy clusters otherwise.
///
/// Agreement with one pass of `UnicodeSegmentation::graphemes` over the
/// whole of `s` is tested, not proved.
pub fn grapheme_clusters<'a>(s: &'a str, extended: bool) -> (clusters: Vec<&'a str>)
    ensures
        piece_texts(clusters@) == segments(s@, Ruleset::Grapheme { extended }),
        piece_texts(clusters@).flatten() == s@,
{
    split(s, Ruleset::Grapheme { extended })
}

/// Splits `s` at word boundaries, in order, keeping the pieces made of
/// white space or punctuation: each piece is the first stretch up to a
/// word boundary of the text that the pieces before it leave.
///
/// Agreement with one pass of `UnicodeSegmentation::split_word_bounds`
/// over the whole of `s` is tested, not proved.
pub fn split_at_word_boundaries<'a>(s: &'a str) -> (pieces: Vec<&'a str>)
    ensures
        piece_texts(pieces@) == segments(s@, Ruleset::Word),
        piece_texts(pieces@).flatten() == s@,
{
    split(s, Ruleset::Word)
}

/// The pieces of [`split_at_word_boundaries`] that hold a letter or a
/// digit, in order.
///
/// Agreement with one pass of `UnicodeSegmentation::unicode_words` over
/// the whole of `s` is tested, not proved.
pub fn unicode_words<'a>(s: &'a str) -> (words: Vec<&'a str>)
    ensures
        piece_texts(words@) == words_among(segments(s@, Ruleset::Word)),
{
    let pieces = split(s, Ruleset::Word);
    let ghost all = piece_texts(pieces@);
    let ghost keep = |piece: Seq<char>| has_word(piece);
    let mut words: Vec<&'a str> = Vec::new();
    let mut i: usize = 0;
    proof {
        assert(all.take(0) =~= Seq::<Seq<char>>::empty());
        reveal(Seq::filter);
    }
    while i < pieces.len()
        invariant
            i <= pieces@.len(),
            all == piece_texts(pieces@),
            keep == |piece: Seq<char>| has_word(piece),
            piece_texts(words@) =~= all.take(i as int).filter(keep),
        decreases pieces@.len() - i,
    {
        let piece = pieces[i];
        let ghost before = piece_texts(words@);
        proof {
            assert(all.take(i + 1) =~= all.take(i as int).push(piece@));
            all.take(i as int).lemma_filter_push(piece@, keep);
        }
        if contains_word(piece) {
            words.push(piece);
            assert(piece_texts(words@) =~= before.push(piece@));
        }
        i += 1;
    }
    assert(all.take(pieces@.len() as int) =~= all);
    words
}

/// Splits `s` at sentence boundaries, in order: each piece is the first
/// stretch up to a sentence boundary of the text that the pieces before it
/// leave. Every character of `s` belongs to exactly one piece, also where
/// a piece holds neither letter nor digit.
///
/// Agreement with one pass of `UnicodeSegmentation::split_sentence_bounds`
/// over the whole of `s` is tested, not proved.
pub fn unicode_sentences<'a>(s: &'a str) -> (sentences: Vec<&'a str>)
    ensures
        piece_texts(sentences@) == segments(s@, Ruleset::Sentence),
        piece_texts(sentences@).flatten() == s@,
{
    split(s, Ruleset::Sentence)
}

/// The same as [`unicode_sentences`], under its other name.
pub fn split_unicode_sentence_bounds<'a>(s: &'a str) -> (sentences: Vec<&'a str>)
    ensures
        piece_texts(sentences@) == segments(s@, Ruleset::Sentence),
        piece_texts(sentences@).flatten() == s@,
{
    unicode_sentences(s)
}

} // verus!
