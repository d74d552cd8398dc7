use crate::rules::{contains_word, first_segment, has_word, head_len, Ruleset};
use crate::span::Span;
use crate::text::{
    byte_len, lemma_encode_concat, lemma_prefix_end_is_char_boundary, lemma_slice_of_concat,
    lemma_utf8_len_lower_bound, slice_text, strip_head, utf8_len,
};
use vstd::prelude::*;
use vstd::seq_lib::lemma_flatten_concat;
use vstd::utf8::{encode_utf8, is_char_boundary};

verus! {

/// The segments of `text` under `rules`, in order: the first segment,
/// followed by the segments of what comes after it.
///
/// Each first segment is the one that `unicode-segmentation` yields first
/// for the text that remains. That taking first segments one after another
/// gives the same pieces as a single pass of that crate's iterator over
/// the whole text is neither proved nor assumed here; the tests of this
/// crate compare the two on sample texts.
pub open spec fn segments(text: Seq<char>, rules: Ruleset) -> Seq<Seq<char>>
    decreases text.len(),
{
    if text.len() == 0 {
        Seq::empty()
    } else {
        let k = head_len(text, rules) as int;
        seq![text.take(k)] + segments(text.skip(k), rules)
    }
}

/// The text of each string slice, in order.
pub open spec fn piece_texts(pieces: Seq<&str>) -> Seq<Seq<char>> {
    Seq::new(pieces.len(), |i: int| pieces[i]@)
}

/// The byte offset at which segment number `i` of `text` begins, which is
/// also where segment number `i - 1` ends.
pub open spec fn boundary(text: Seq<char>, rules: Ruleset, i: int) -> nat {
    utf8_len(segments(text, rules).take(i).flatten())
}

/// The byte range of segment number `i` of `text`.
pub open spec fn span_at(text: Seq<char>, rules: Ruleset, i: int) -> Span {
    Span { start: boundary(text, rules, i) as usize, end: boundary(text, rules, i + 1) as usize }
}

/// The byte ranges of all segments of `text`, in order.
pub open spec fn span_seq(text: Seq<char>, rules: Ruleset) -> Seq<Span> {
    Seq::new(segments(text, rules).len(), |i: int| span_at(text, rules, i))
}

/// `span` fits `text` and the part of the text it covers holds a letter or
/// a digit.
pub open spec fn covers_word(text: Seq<char>, span: Span) -> bool {
    span.fits(text) && has_word(slice_text(text, span.start as int, span.end as int))
}

/// The segments among `pieces` that hold a letter or a digit.
pub open spec fn words_among(pieces: Seq<Seq<char>>) -> Seq<Seq<char>> {
    pieces.filter(|piece: Seq<char>| has_word(piece))
}

/// The spans among `spans` that cover a letter or a digit of `text`.
pub open spec fn word_spans_among(text: Seq<char>, spans: Seq<Span>) -> Seq<Span> {
    spans.filter(|span: Span| covers_word(text, span))
}

/// Segments are exhaustive and do not overlap: joined in order they give
/// the text back, and none of them is empty.
pub proof fn lemma_segments_cover(text: Seq<char>, rules: Ruleset)
    ensures
        segments(text, rules).flatten() == text,
        forall|i: int|
            0 <= i < segments(text, rules).len() ==> (#[trigger] segments(text, rules)[i]).len()
                > 0,
        segments(text, rules).len() <= text.len(),
    decreases text.len(),
{
    if text.len() > 0 {
        let k = head_len(text, rules) as int;
        let head = seq![text.take(k)];
        let tail = segments(text.skip(k), rules);
        lemma_segments_cover(text.skip(k), rules);
        lemma_flatten_concat(head, tail);
        head.lemma_flatten_singleton();
        assert(text.take(k) + text.skip(k) =~= text);
        assert forall|i: int| 0 <= i < segments(text, rules).len() implies (#[trigger] segments(
            text,
            rules,
        )[i]).len() > 0 by {
            if i > 0 {
                assert(segments(text, rules)[i] == tail[i - 1]);
            }
        }
    }
}

/// Each boundary lies one encoded segment after the one before it.
pub proof fn lemma_boundary_step(text: Seq<char>, rules: Ruleset, i: int)
    requires
        0 <= i < segments(text, rules).len(),
    ensures
        boundary(text, rules, i + 1) == boundary(text, rules, i) + utf8_len(
            segments(text, rules)[i],
        ),
        boundary(text, rules, i) < boundary(text, rules, i + 1),
{
    let segs = segments(text, rules);
    assert(segs.take(i + 1) =~= segs.take(i).push(segs[i]));
    segs.take(i).lemma_flatten_push(segs[i]);
    lemma_encode_concat(segs.take(i).flatten(), segs[i]);
    lemma_segments_cover(text, rules);
    lemma_utf8_len_lower_bound(segs[i]);
}

/// One step of a scan. When `rest` is what remains of `text` after
/// `count` segments, the first segment of `rest` is segment number `count`
/// of `text`, what follows it is what remains after `count + 1` segments,
/// and the boundary after it lies one encoded segment further on.
pub proof fn lemma_scan_step(text: Seq<char>, rules: Ruleset, rest: Seq<char>, count: int)
    requires
        0 <= count <= segments(text, rules).len(),
        segments(rest, rules) == segments(text, rules).skip(count),
        rest.len() > 0,
    ensures
        count < segments(text, rules).len(),
        segments(text, rules)[count] == rest.take(head_len(rest, rules) as int),
        segments(rest.skip(head_len(rest, rules) as int), rules) == segments(text, rules).skip(
            count + 1,
        ),
        boundary(text, rules, count + 1) == boundary(text, rules, count) + utf8_len(
            rest.take(head_len(rest, rules) as int),
        ),
{
    let all = segments(text, rules);
    let here = segments(rest, rules);
    let k = head_len(rest, rules) as int;
    assert(here =~= seq![rest.take(k)] + segments(rest.skip(k), rules));
    assert(here[0] == rest.take(k));
    assert(all.skip(count)[0] == rest.take(k));
    assert(segments(rest.skip(k), rules) =~= here.skip(1));
    assert(here.skip(1) =~= all.skip(count + 1));
    lemma_boundary_step(text, rules, count);
}

/// Boundaries grow with their index.
pub proof fn lemma_boundary_increases(text: Seq<char>, rules: Ruleset, i: int, j: int)
    requires
        0 <= i <= j <= segments(text, rules).len(),
    ensures
        boundary(text, rules, i) <= boundary(text, rules, j),
        i < j ==> boundary(text, rules, i) < boundary(text, rules, j),
    decreases j - i,
{
    if i < j {
        lemma_boundary_increases(text, rules, i, j - 1);
        lemma_boundary_step(text, rules, j - 1);
    }
}

/// The first boundary is the start of the text and the last is its end.
pub proof fn lemma_boundary_ends(text: Seq<char>, rules: Ruleset)
    ensures
        boundary(text, rules, 0) == 0,
        boundary(text, rules, segments(text, rules).len() as int) == utf8_len(text),
{
    let segs = segments(text, rules);
    assert(segs.take(0) =~= Seq::<Seq<char>>::empty());
    assert(segs.take(segs.len() as int) =~= segs);
    lemma_segments_cover(text, rules);
}

/// Every boundary falls between two characters of the text, and the bytes
/// between two neighbouring boundaries are exactly one segment.
pub proof fn lemma_boundary_cuts(text: Seq<char>, rules: Ruleset, i: int)
    requires
        0 <= i <= segments(text, rules).len(),
    ensures
        is_char_boundary(encode_utf8(text), boundary(text, rules, i) as int),
        i < segments(text, rules).len() ==> slice_text(
            text,
            boundary(text, rules, i) as int,
            boundary(text, rules, i + 1) as int,
        ) == segments(text, rules)[i],
{
    let segs = segments(text, rules);
    let before = segs.take(i).flatten();
    lemma_segments_cover(text, rules);
    assert(segs.take(i) + segs.skip(i) =~= segs);
    lemma_flatten_concat(segs.take(i), segs.skip(i));
    assert(before + segs.skip(i).flatten() =~= text);
    lemma_prefix_end_is_char_boundary(before, segs.skip(i).flatten());
    if i < segs.len() {
        let after = segs.skip(i + 1).flatten();
        assert(segs.skip(i) =~= seq![segs[i]] + segs.skip(i + 1));
        lemma_flatten_concat(seq![segs[i]], segs.skip(i + 1));
        seq![segs[i]].lemma_flatten_singleton();
        assert(before + segs[i] + after =~= text);
        lemma_slice_of_concat(before, segs[i], after);
        lemma_boundary_step(text, rules, i);
    }
}

/// The span of a segment fits the text, so neither of its ends falls
/// inside a character, and it covers exactly that segment.
pub proof fn lemma_span_covers_segment(text: Seq<char>, rules: Ruleset, i: int)
    requires
        0 <= i < segments(text, rules).len(),
        utf8_len(text) <= usize::MAX,
    ensures
        span_at(text, rules, i).fits(text),
        slice_text(
            text,
            span_at(text, rules, i).start as int,
            span_at(text, rules, i).end as int,
        ) == segments(text, rules)[i],
{
    lemma_boundary_cuts(text, rules, i);
    lemma_boundary_cuts(text, rules, i + 1);
    lemma_boundary_step(text, rules, i);
    lemma_boundary_increases(text, rules, i + 1, segments(text, rules).len() as int);
    lemma_boundary_ends(text, rules);
}

/// Among the first `n` segments, the spans that cover a word are the
/// spans of the segments that hold a word, in the same order.
proof fn lemma_word_spans_of_prefix(text: Seq<char>, n: int)
    requires
        0 <= n <= segments(text, Ruleset::Word).len(),
        utf8_len(text) <= usize::MAX,
    ensures
        word_spans_among(text, span_seq(text, Ruleset::Word).take(n)).len() == words_among(
            segments(text, Ruleset::Word).take(n),
        ).len(),
        forall|k: int|
            0 <= k < words_among(segments(text, Ruleset::Word).take(n)).len() ==> {
                let span = #[trigger] word_spans_among(
                    text,
                    span_seq(text, Ruleset::Word).take(n),
                )[k];
                slice_text(text, span.start as int, span.end as int) == words_among(
                    segments(text, Ruleset::Word).take(n),
                )[k]
            },
    decreases n,
{
    let rules = Ruleset::Word;
    let segs = segments(text, rules);
    let all = span_seq(text, rules);
    let keep_span = |span: Span| covers_word(text, span);
    let keep_piece = |piece: Seq<char>| has_word(piece);
    reveal(Seq::filter);
    if n > 0 {
        lemma_word_spans_of_prefix(text, n - 1);
        lemma_span_covers_segment(text, rules, n - 1);
        assert(all.take(n) =~= all.take(n - 1).push(all[n - 1]));
        assert(segs.take(n) =~= segs.take(n - 1).push(segs[n - 1]));
        all.take(n - 1).lemma_filter_push(all[n - 1], keep_span);
        segs.take(n - 1).lemma_filter_push(segs[n - 1], keep_piece);
    } else {
        assert(all.take(0) =~= Seq::<Span>::empty());
        assert(segs.take(0) =~= Seq::<Seq<char>>::empty());
    }
}

/// The spans that cover a word are the spans of the words: there are as
/// many of them as there are words, and each covers the word of the same
/// number.
pub proof fn lemma_word_spans_cover_words(text: Seq<char>)
    requires
        utf8_len(text) <= usize::MAX,
    ensures
        word_spans_among(text, span_seq(text, Ruleset::Word)).len() == words_among(
            segments(text, Ruleset::Word),
        ).len(),
        forall|k: int|
            0 <= k < words_among(segments(text, Ruleset::Word)).len() ==> {
                let span = #[trigger] word_spans_among(text, span_seq(text, Ruleset::Word))[k];
                slice_text(text, span.start as int, span.end as int) == words_among(
                    segments(text, Ruleset::Word),
                )[k]
            },
{
    let segs = segments(text, Ruleset::Word);
    let all = span_seq(text, Ruleset::Word);
    lemma_word_spans_of_prefix(text, segs.len() as int);
    assert(all.take(segs.len() as int) =~= all);
    assert(segs.take(segs.len() as int) =~= segs);
}

/// Segmenting is repeatable: whatever two runs over the same text under the
/// same rules return, they return the same pieces in the same order.
pub proof fn lemma_split_repeatable(
    text: Seq<char>,
    rules: Ruleset,
    first: Seq<&str>,
    second: Seq<&str>,
)
    requires
        piece_texts(first) == segments(text, rules),
        piece_texts(second) == segments(text, rules),
    ensures
        first.len() == second.len(),
        forall|i: int| 0 <= i < first.len() ==> (#[trigger] first[i])@ == second[i]@,
{
    assert(piece_texts(first).len() == first.len());
    assert(piece_texts(second).len() == second.len());
    assert forall|i: int| 0 <= i < first.len() implies (#[trigger] first[i])@ == second[i]@ by {
        assert(piece_texts(first)[i] == first[i]@);
        assert(piece_texts(second)[i] == second[i]@);
    }
}

/// Splits `text` into its segments under `rules`, as slices of `text`.
///
/// The pieces are those of [`segments`]: each is the first segment of the
/// text that the pieces before it leave. Their agreement with a single
/// pass of the `unicode-segmentation` iterator over the whole text is
/// tested, not proved.
pub fn split<'a>(text: &'a str, rules: Ruleset) -> (pieces: Vec<&'a str>)
    ensures
        piece_texts(pieces@) == segments(text@, rules),
        piece_texts(pieces@).flatten() == text@,
        forall|i: int| 0 <= i < pieces@.len() ==> (#[trigger] pieces@[i])@.len() > 0,
{
    let mut pieces: Vec<&'a str> = Vec::new();
    let mut rest: &'a str = text;
    loop
        invariant
            segments(text@, rules) =~= piece_texts(pieces@) + segments(rest@, rules),
        ensures
            piece_texts(pieces@) =~= segments(text@, rules),
        decreases rest@.len(),
    {
        match first_segment(rest, rules) {
            None => {
                break ;
            },
            Some(head) => {
                let tail = strip_head(rest, head);
                let ghost before = piece_texts(pieces@);
                pieces.push(head);
                assert(piece_texts(pieces@) =~= before.push(head@));
                rest = tail;
            },
        }
    }
    proof {
        lemma_segments_cover(text@, rules);
        assert forall|i: int| 0 <= i < pieces@.len() implies (#[trigger] pieces@[i])@.len()
            > 0 by {
            assert(piece_texts(pieces@)[i] == pieces@[i]@);
        }
    }
    pieces
}

/// The byte ranges of the segments of `text` under `rules`, in order, the
/// segments being those of [`segments`].
pub fn spans(text: &str, rules: Ruleset) -> (out: Vec<Span>)
    ensures
        out@ == span_seq(text@, rules),
        out@.len() == segments(text@, rules).len(),
        forall|i: int|
            0 <= i < out@.len() ==> (#[trigger] out@[i]).start == boundary(text@, rules, i)
                && out@[i].end == boundary(text@, rules, i + 1),
{
    let total = byte_len(text);
    let mut out: Vec<Span> = Vec::new();
    let mut rest: &str = text;
    let mut pos: usize = 0;
    proof {
        lemma_boundary_ends(text@, rules);
    }
    loop
        invariant
            total == pos + utf8_len(rest@),
            out@.len() <= segments(text@, rules).len(),
            segments(rest@, rules) =~= segments(text@, rules).skip(out@.len() as int),
            pos == boundary(text@, rules, out@.len() as int),
            forall|i: int|
                0 <= i < out@.len() ==> (#[trigger] out@[i]).start == boundary(text@, rules, i)
                    && out@[i].end == boundary(text@, rules, i + 1),
        ensures
            out@.len() == segments(text@, rules).len(),
            forall|i: int|
                0 <= i < out@.len() ==> (#[trigger] out@[i]).start == boundary(text@, rules, i)
                    && out@[i].end == boundary(text@, rules, i + 1),
        decreases rest@.len(),
    {
        match first_segment(rest, rules) {
            None => {
                break ;
            },
            Some(head) => {
                let tail = strip_head(rest, head);
                let ghost count = out@.len() as int;
                proof {
                    lemma_scan_step(text@, rules, rest@, count);
                    assert(rest@ =~= head@ + tail@);
                    lemma_encode_concat(head@, tail@);
                }
                let end = total - byte_len(tail);
                out.push(Span { start: pos, end });
                pos = end;
                rest = tail;
            },
        }
    }
    assert(out@ =~= span_seq(text@, rules));
    out
}

/// The byte ranges of the words of `text`, in order: those of the spans
/// that [`spans`] finds under the word rules which cover a letter or a
/// digit.
pub fn word_spans(text: &str) -> (out: Vec<Span>)
    ensures
        out@ == word_spans_among(text@, span_seq(text@, Ruleset::Word)),
{
    let all = spans(text, Ruleset::Word);
    let ghost keep = |span: Span| covers_word(text@, span);
    let mut out: Vec<Span> = Vec::new();
    let mut i: usize = 0;
    proof {
        assert(all@.take(0) =~= Seq::<Span>::empty());
        reveal(Seq::filter);
    }
    while i < all.len()
        invariant
            i <= all@.len(),
            keep == |span: Span| covers_word(text@, span),
            out@ =~= all@.take(i as int).filter(keep),
        decreases all@.len() - i,
    {
        let span = all[i];
        proof {
            assert(all@.take(i + 1) =~= all@.take(i as int).push(span));
            all@.take(i as int).lemma_filter_push(span, keep);
        }
        let holds = match span.slice(text) {
            Some(piece) => contains_word(piece),
            None => false,
        };
        if holds {
            out.push(span);
        }
        i += 1;
    }
    assert(all@.take(all@.len() as int) =~= all@);
    out
}

} // verus!
