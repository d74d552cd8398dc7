use crate::rules::{first_segment, Ruleset};
use crate::segment::{
    boundary, lemma_boundary_ends, lemma_boundary_increases, lemma_boundary_step,
    lemma_scan_step, segments,
};
use crate::text::{byte_len, strip_head, utf8_len};
use vstd::prelude::*;

verus! {

/// `b` is the byte offset of a boundary of `text` under `rules`: the start
/// of the text or the end of one of its segments. The end of the text is
/// always a boundary.
pub open spec fn is_boundary(text: Seq<char>, rules: Ruleset, b: int) -> bool {
    exists|i: int| 0 <= i <= segments(text, rules).len() && #[trigger] boundary(text, rules, i) == b
}

/// `found` is the answer to "which boundary comes first at or after
/// `from`": the least boundary that is not less than `from`, or nothing
/// when every boundary is less.
pub open spec fn is_first_boundary_from(
    text: Seq<char>,
    rules: Ruleset,
    from: int,
    found: Option<usize>,
) -> bool {
    match found {
        Some(b) => {
            &&& from <= b
            &&& is_boundary(text, rules, b as int)
            &&& forall|c: int| from <= c && #[trigger] is_boundary(text, rules, c) ==> b <= c
        },
        None => forall|c: int| #[trigger] is_boundary(text, rules, c) ==> c < from,
    }
}

/// The position that a caller asks from to get boundary number `i`: zero
/// for the first, and one past the boundary before it for the others.
pub open spec fn asking_position(text: Seq<char>, rules: Ruleset, i: int) -> int {
    if i <= 0 {
        0
    } else {
        boundary(text, rules, i - 1) as int + 1
    }
}

/// At most one answer is right for each position.
pub proof fn lemma_first_boundary_unique(
    text: Seq<char>,
    rules: Ruleset,
    from: int,
    a: Option<usize>,
    b: Option<usize>,
)
    requires
        is_first_boundary_from(text, rules, from, a),
        is_first_boundary_from(text, rules, from, b),
    ensures
        a == b,
{
}

/// A cursor that is asked first from zero and then, again and again, from
/// one past the boundary it reported last reports the boundaries of the
/// segmentation in order, the start of the text first and the end of the
/// text last, and then reports nothing.
pub proof fn lemma_cursor_follows_segments(
    text: Seq<char>,
    rules: Ruleset,
    i: int,
    found: Option<usize>,
)
    requires
        0 <= i <= segments(text, rules).len() + 1,
        is_first_boundary_from(text, rules, asking_position(text, rules, i), found),
    ensures
        i <= segments(text, rules).len() ==> (found matches Some(b) && b == boundary(
            text,
            rules,
            i,
        )),
        i == segments(text, rules).len() + 1 ==> found is None,
{
    let n = segments(text, rules).len() as int;
    let from = asking_position(text, rules, i);
    lemma_boundary_ends(text, rules);
    if i <= n {
        let there = boundary(text, rules, i) as int;
        if i > 0 {
            lemma_boundary_step(text, rules, i - 1);
        }
        assert(is_boundary(text, rules, there));
        match found {
            Some(b) => {
                let k = choose|k: int| 0 <= k <= n && #[trigger] boundary(text, rules, k) == b;
                if k < i {
                    lemma_boundary_increases(text, rules, k, i - 1);
                } else {
                    lemma_boundary_increases(text, rules, i, k);
                }
            },
            None => {},
        }
    } else {
        match found {
            Some(b) => {
                let k = choose|k: int| 0 <= k <= n && #[trigger] boundary(text, rules, k) == b;
                lemma_boundary_increases(text, rules, k, n);
            },
            None => {},
        }
    }
}

/// A cursor over the boundaries of one text under one set of rules.
///
/// The cursor remembers the boundary it reported last, the one before it
/// and the text that lies after it, so that asking for the next boundary
/// looks only at the segment that follows.
pub struct BoundaryCursor<'a> {
    text: &'a str,
    rules: Ruleset,
    rest: &'a str,
    total: usize,
    prev: usize,
    pos: usize,
    count: Ghost<nat>,
}

impl<'a> BoundaryCursor<'a> {
    /// The text the cursor scans.
    pub closed spec fn text_view(&self) -> Seq<char> {
        self.text@
    }

    /// The rules the cursor applies.
    pub closed spec fn ruleset(&self) -> Ruleset {
        self.rules
    }

    /// The number of segments that lie before the cursor.
    pub closed spec fn scanned(&self) -> nat {
        self.count@
    }

    /// The segments of the cursor's text under its rules.
    pub open spec fn all_segments(&self) -> Seq<Seq<char>> {
        segments(self.text_view(), self.ruleset())
    }

    /// The byte offset of the boundary the cursor stands on.
    pub open spec fn offset(&self) -> nat {
        boundary(self.text_view(), self.ruleset(), self.scanned() as int)
    }

    /// The cursor stands on a boundary of its text and what it remembers
    /// agrees with that boundary.
    pub closed spec fn wf(&self) -> bool {
        let all = segments(self.text@, self.rules);
        &&& self.count@ <= all.len()
        &&& self.total == utf8_len(self.text@)
        &&& self.pos == boundary(self.text@, self.rules, self.count@ as int)
        &&& self.prev == (if self.count@ == 0 {
            0
        } else {
            boundary(self.text@, self.rules, self.count@ - 1)
        })
        &&& segments(self.rest@, self.rules) == all.skip(self.count@ as int)
    }

    /// A cursor at the start of `text`.
    pub fn new(text: &'a str, rules: Ruleset) -> (cursor: Self)
        ensures
            cursor.wf(),
            cursor.text_view() == text@,
            cursor.ruleset() == rules,
            cursor.scanned() == 0,
    {
        let total = byte_len(text);
        proof {
            lemma_boundary_ends(text@, rules);
            assert(segments(text@, rules).skip(0) =~= segments(text@, rules));
        }
        BoundaryCursor { text, rules, rest: text, total, prev: 0, pos: 0, count: Ghost(0) }
    }

    /// The byte offset of the boundary the cursor stands on.
    pub fn position(&self) -> (p: usize)
        requires
            self.wf(),
        ensures
            p == self.offset(),
    {
        self.pos
    }

    /// The text of a cursor is a string, so its length in bytes is
    /// a machine integer.
    pub proof fn lemma_text_fits(&self)
        requires
            self.wf(),
        ensures
            utf8_len(self.text_view()) <= usize::MAX,
    {
    }

    /// The length of the text in bytes, which is its last boundary.
    pub fn text_len(&self) -> (n: usize)
        requires
            self.wf(),
        ensures
            n == utf8_len(self.text_view()),
    {
        self.total
    }

    /// Moves the cursor over the segment in front of it and returns that
    /// segment, or returns `None` and stays when the cursor is at the end
    /// of the text.
    pub fn next_segment(&mut self) -> (r: Option<&'a str>)
        requires
            old(self).wf(),
        ensures
            final(self).wf(),
            final(self).text_view() == old(self).text_view(),
            final(self).ruleset() == old(self).ruleset(),
            r is Some <==> old(self).scanned() < old(self).all_segments().len(),
            r matches Some(piece) ==> piece@ == old(self).all_segments()[old(self).scanned() as int]
                && final(self).scanned() == old(self).scanned() + 1,
            r is None ==> final(self).scanned() == old(self).scanned(),
    {
        let ghost all = segments(self.text@, self.rules);
        let ghost count = self.count@ as int;
        match first_segment(self.rest, self.rules) {
            None => {
                assert(segments(self.rest@, self.rules).len() == 0);
                None
            },
            Some(head) => {
                let tail = strip_head(self.rest, head);
                proof {
                    lemma_scan_step(self.text@, self.rules, self.rest@, count);
                    lemma_boundary_increases(self.text@, self.rules, count + 1, all.len() as int);
                    lemma_boundary_ends(self.text@, self.rules);
                }
                self.prev = self.pos;
                self.pos = self.pos + byte_len(head);
                self.rest = tail;
                self.count = Ghost((count + 1) as nat);
                Some(head)
            },
        }
    }

    /// The first boundary at or after byte offset `from_position`, or
    /// `None` when `from_position` lies beyond the end of the text.
    ///
    /// On `Some`, the cursor stands on the boundary returned. To walk the
    /// boundaries in order, ask from one past the boundary reported last:
    /// each such call scans one segment. A call from a position at or
    /// before the boundary that precedes the cursor scans again from the
    /// start of the text.
    pub fn next_boundary(&mut self, from_position: usize) -> (r: Option<usize>)
        requires
            old(self).wf(),
        ensures
            final(self).wf(),
            final(self).text_view() == old(self).text_view(),
            final(self).ruleset() == old(self).ruleset(),
            is_first_boundary_from(
                old(self).text_view(),
                old(self).ruleset(),
                from_position as int,
                r,
            ),
            r matches Some(b) ==> b == final(self).offset(),
            r is None ==> final(self).scanned() == old(self).scanned(),
    {
        let ghost text = self.text@;
        let ghost rules = self.rules;
        let ghost all = segments(text, rules);
        if from_position > self.total {
            proof {
                assert forall|c: int| #[trigger] is_boundary(text, rules, c) implies c
                    < from_position by {
                    let k = choose|k: int|
                        0 <= k <= all.len() && #[trigger] boundary(text, rules, k) == c;
                    lemma_boundary_increases(text, rules, k, all.len() as int);
                    lemma_boundary_ends(text, rules);
                }
            }
            return None;
        }
        if from_position <= self.prev {
            proof {
                lemma_boundary_ends(text, rules);
                assert(all.skip(0) =~= all);
            }
            self.rest = self.text;
            self.prev = 0;
            self.pos = 0;
            self.count = Ghost(0);
        }
        while self.pos < from_position
            invariant
                self.wf(),
                self.text@ == text,
                self.rules == rules,
                all == segments(text, rules),
                from_position <= self.total,
                self.count@ == 0 || self.prev < from_position,
            decreases all.len() - self.count@,
        {
            proof {
                lemma_boundary_ends(text, rules);
            }
            let _ = self.next_segment();
        }
        proof {
            let count = self.count@ as int;
            assert(is_boundary(text, rules, self.pos as int));
            assert forall|c: int| from_position <= c && #[trigger] is_boundary(
                text,
                rules,
                c,
            ) implies self.pos <= c by {
                let k = choose|k: int|
                    0 <= k <= all.len() && #[trigger] boundary(text, rules, k) == c;
                if k < count {
                    lemma_boundary_increases(text, rules, k, count - 1);
                } else {
                    lemma_boundary_increases(text, rules, count, k);
                }
            }
        }
        Some(self.pos)
    }
}

/// All boundaries of `text`, in order, found by asking a cursor first from
/// zero and then again and again from one past the boundary it reported
/// last, until it reports nothing. They are the start of the text followed
/// by the end of each segment.
pub fn boundary_offsets(text: &str, rules: Ruleset) -> (out: Vec<usize>)
    ensures
        out@.len() == segments(text@, rules).len() + 1,
        forall|i: int| 0 <= i < out@.len() ==> (#[trigger] out@[i]) == boundary(text@, rules, i),
{
    let mut cursor = BoundaryCursor::new(text, rules);
    let mut out: Vec<usize> = Vec::new();
    let mut from: usize = 0;
    loop
        invariant_except_break
            from == asking_position(text@, rules, out@.len() as int),
        invariant
            cursor.wf(),
            cursor.text_view() == text@,
            cursor.ruleset() == rules,
            out@.len() <= segments(text@, rules).len() + 1,
            forall|i: int|
                0 <= i < out@.len() ==> (#[trigger] out@[i]) == boundary(text@, rules, i),
        ensures
            out@.len() == segments(text@, rules).len() + 1,
            forall|i: int|
                0 <= i < out@.len() ==> (#[trigger] out@[i]) == boundary(text@, rules, i),
        decreases segments(text@, rules).len() + 1 - out@.len(),
    {
        let found = cursor.next_boundary(from);
        proof {
            lemma_cursor_follows_segments(text@, rules, out@.len() as int, found);
        }
        match found {
            None => {
                break ;
            },
            Some(b) => {
                out.push(b);
                match b.checked_add(1) {
                    Some(after) => {
                        from = after;
                    },
                    None => {
                        proof {
                            let n = segments(text@, rules).len() as int;
                            cursor.lemma_text_fits();
                            lemma_boundary_ends(text@, rules);
                            lemma_boundary_increases(text@, rules, out@.len() - 1, n);
                        }
                        break ;
                    },
                }
            },
        }
    }
    out
}

} // verus!
