use crate::cursor::{lemma_cursor_follows_segments, BoundaryCursor};
use crate::rules::Ruleset;
use crate::segment::{
    boundary, lemma_boundary_cuts, lemma_boundary_ends, lemma_boundary_increases, segments,
};
use crate::span::Span;
use vstd::prelude::*;

verus! {

/// Hands out the grapheme clusters of a string one at a time.
///
/// Each call asks a [`BoundaryCursor`] for the first boundary past the end
/// of the cluster handed out before, and cuts the string between the two.
pub struct GraphemeClusters<'a> {
    text: &'a str,
    cursor: BoundaryCursor<'a>,
    last: usize,
    given: Ghost<nat>,
}

impl<'a> GraphemeClusters<'a> {
    /// The string whose clusters are handed out.
    pub closed spec fn text_view(&self) -> Seq<char> {
        self.text@
    }

    /// The rules in use: grapheme rules, extended or legacy.
    pub closed spec fn ruleset(&self) -> Ruleset {
        self.cursor.ruleset()
    }

    /// The number of clusters handed out so far.
    pub closed spec fn given(&self) -> nat {
        self.given@
    }

    /// All clusters of the string, in order.
    pub open spec fn all_clusters(&self) -> Seq<Seq<char>> {
        segments(self.text_view(), self.ruleset())
    }

    /// What has been handed out so far ends where the next cluster begins.
    pub closed spec fn wf(&self) -> bool {
        &&& self.cursor.wf()
        &&& self.cursor.text_view() == self.text@
        &&& self.given@ <= segments(self.text@, self.cursor.ruleset()).len()
        &&& self.last == boundary(self.text@, self.cursor.ruleset(), self.given@ as int)
    }

    /// Starts at the first cluster of `text`.
    pub fn new(text: &'a str, extended: bool) -> (clusters: Self)
        ensures
            clusters.wf(),
            clusters.text_view() == text@,
            clusters.ruleset() == (Ruleset::Grapheme { extended }),
            clusters.given() == 0,
    {
        let cursor = BoundaryCursor::new(text, Ruleset::Grapheme { extended });
        proof {
            lemma_boundary_ends(text@, Ruleset::Grapheme { extended });
        }
        GraphemeClusters { text, cursor, last: 0, given: Ghost(0) }
    }

    /// The next cluster, or `None` once every cluster has been handed out.
    pub fn next_cluster(&mut self) -> (r: Option<&'a str>)
        requires
            old(self).wf(),
        ensures
            final(self).wf(),
            final(self).text_view() == old(self).text_view(),
            final(self).ruleset() == old(self).ruleset(),
            r is Some <==> old(self).given() < old(self).all_clusters().len(),
            r matches Some(cluster) ==> cluster@ == old(self).all_clusters()[old(self).given() as int]
                && final(self).given() == old(self).given() + 1,
            r is None ==> final(self).given() == old(self).given(),
    {
        let ghost text = self.text@;
        let ghost rules = self.cursor.ruleset();
        let ghost k = self.given@ as int;
        let ghost n = segments(text, rules).len() as int;
        proof {
            lemma_boundary_ends(text, rules);
            lemma_boundary_increases(text, rules, k, n);
        }
        if self.last >= self.cursor.text_len() {
            return None;
        }
        let found = self.cursor.next_boundary(self.last + 1);
        proof {
            lemma_cursor_follows_segments(text, rules, k + 1, found);
            lemma_boundary_cuts(text, rules, k);
            lemma_boundary_cuts(text, rules, k + 1);
            lemma_boundary_increases(text, rules, k, k + 1);
            lemma_boundary_increases(text, rules, k + 1, n);
        }
        match found {
            None => None,
            Some(end) => {
                let piece = Span { start: self.last, end }.slice(self.text);
                self.last = end;
                self.given = Ghost((k + 1) as nat);
                piece
            },
        }
    }
}

} // verus!
