use crate::edit::edit_cost;
use vstd::prelude::*;

verus! {

/// One step of an edit script. A script walks the source and the target
/// sequence from left to right; each step consumes the next token of one
/// or of both.
pub enum Edit<T> {
    /// The next source token equals the next target token; both are
    /// consumed at no cost.
    Keep,
    /// The next source token is replaced by the given target token.
    Substitute(T),
    /// The given target token is inserted; no source token is consumed.
    Insert(T),
    /// The next source token is dropped; no target token is consumed.
    Delete,
}

/// The cost of a script: the number of its steps that are not `Keep`.
pub open spec fn script_cost<T>(script: Seq<Edit<T>>) -> nat
    decreases script.len(),
{
    if script.len() == 0 {
        0
    } else {
        script_cost(script.drop_last()) + (if script.last() is Keep {
            0nat
        } else {
            1nat
        })
    }
}

/// `script` turns `source` into `target`: its last step accounts for the
/// end of the two sequences and the steps before it turn what precedes
/// into what precedes.
pub open spec fn transforms<T>(script: Seq<Edit<T>>, source: Seq<T>, target: Seq<T>) -> bool
    decreases script.len(),
{
    if script.len() == 0 {
        source.len() == 0 && target.len() == 0
    } else {
        let before = script.drop_last();
        match script.last() {
            Edit::Keep => source.len() > 0 && target.len() > 0 && source.last() == target.last()
                && transforms(before, source.drop_last(), target.drop_last()),
            Edit::Substitute(token) => source.len() > 0 && target.len() > 0 && target.last()
                == token && transforms(before, source.drop_last(), target.drop_last()),
            Edit::Insert(token) => target.len() > 0 && target.last() == token && transforms(
                before,
                source,
                target.drop_last(),
            ),
            Edit::Delete => source.len() > 0 && transforms(before, source.drop_last(), target),
        }
    }
}

/// A cheapest script between the first `i` tokens of `reference` and the
/// first `j` tokens of `predicted`.
pub open spec fn cheapest_script<T>(reference: Seq<T>, predicted: Seq<T>, i: nat, j: nat) -> Seq<
    Edit<T>,
>
    decreases i + j,
{
    if i == 0 && j == 0 {
        Seq::empty()
    } else if i == 0 {
        cheapest_script(reference, predicted, i, (j - 1) as nat).push(
            Edit::Insert(predicted[j - 1]),
        )
    } else if j == 0 {
        cheapest_script(reference, predicted, (i - 1) as nat, j).push(Edit::Delete)
    } else if reference[i - 1] == predicted[j - 1] {
        cheapest_script(reference, predicted, (i - 1) as nat, (j - 1) as nat).push(Edit::Keep)
    } else {
        let diagonal = edit_cost(reference, predicted, (i - 1) as nat, (j - 1) as nat);
        let above = edit_cost(reference, predicted, (i - 1) as nat, j);
        let left = edit_cost(reference, predicted, i, (j - 1) as nat);
        if diagonal <= above && diagonal <= left {
            cheapest_script(reference, predicted, (i - 1) as nat, (j - 1) as nat).push(
                Edit::Substitute(predicted[j - 1]),
            )
        } else if above <= left {
            cheapest_script(reference, predicted, (i - 1) as nat, j).push(Edit::Delete)
        } else {
            cheapest_script(reference, predicted, i, (j - 1) as nat).push(
                Edit::Insert(predicted[j - 1]),
            )
        }
    }
}

/// Neighbouring entries of a cost table differ by at most one, along a row
/// and along a column.
pub proof fn lemma_neighbours_differ_by_one<T>(
    reference: Seq<T>,
    predicted: Seq<T>,
    i: nat,
    j: nat,
)
    ensures
        edit_cost(reference, predicted, i, j) <= edit_cost(reference, predicted, i + 1, j) + 1,
        edit_cost(reference, predicted, i, j) <= edit_cost(reference, predicted, i, j + 1) + 1,
        edit_cost(reference, predicted, i + 1, j) <= edit_cost(reference, predicted, i, j) + 1,
        edit_cost(reference, predicted, i, j + 1) <= edit_cost(reference, predicted, i, j) + 1,
    decreases i + j,
{
    if j > 0 {
        lemma_neighbours_differ_by_one(reference, predicted, i, (j - 1) as nat);
    }
    if i > 0 {
        lemma_neighbours_differ_by_one(reference, predicted, (i - 1) as nat, j);
    }
}

/// The script built by [`cheapest_script`] turns the one prefix into the
/// other, and its cost is the edit cost.
pub proof fn lemma_edit_cost_achieved<T>(reference: Seq<T>, predicted: Seq<T>, i: nat, j: nat)
    requires
        i <= reference.len(),
        j <= predicted.len(),
    ensures
        transforms(
            cheapest_script(reference, predicted, i, j),
            reference.take(i as int),
            predicted.take(j as int),
        ),
        script_cost(cheapest_script(reference, predicted, i, j)) == edit_cost(
            reference,
            predicted,
            i,
            j,
        ),
    decreases i + j,
{
    let script = cheapest_script(reference, predicted, i, j);
    let source = reference.take(i as int);
    let target = predicted.take(j as int);
    if i == 0 && j == 0 {
    } else {
        let before = script.drop_last();
        if i > 0 {
            assert(source.drop_last() =~= reference.take(i - 1));
            assert(source.last() == reference[i - 1]);
        }
        if j > 0 {
            assert(target.drop_last() =~= predicted.take(j - 1));
            assert(target.last() == predicted[j - 1]);
        }
        if i == 0 {
            let shorter = cheapest_script(reference, predicted, i, (j - 1) as nat);
            lemma_edit_cost_achieved(reference, predicted, i, (j - 1) as nat);
            assert(before =~= shorter);
        } else if j == 0 {
            let shorter = cheapest_script(reference, predicted, (i - 1) as nat, j);
            lemma_edit_cost_achieved(reference, predicted, (i - 1) as nat, j);
            assert(before =~= shorter);
        } else if reference[i - 1] == predicted[j - 1] {
            let shorter = cheapest_script(reference, predicted, (i - 1) as nat, (j - 1) as nat);
            lemma_edit_cost_achieved(reference, predicted, (i - 1) as nat, (j - 1) as nat);
            assert(before =~= shorter);
        } else {
            let diagonal = edit_cost(reference, predicted, (i - 1) as nat, (j - 1) as nat);
            let above = edit_cost(reference, predicted, (i - 1) as nat, j);
            let left = edit_cost(reference, predicted, i, (j - 1) as nat);
            if diagonal <= above && diagonal <= left {
                let shorter = cheapest_script(
                    reference,
                    predicted,
                    (i - 1) as nat,
                    (j - 1) as nat,
                );
                lemma_edit_cost_achieved(reference, predicted, (i - 1) as nat, (j - 1) as nat);
                assert(before =~= shorter);
            } else if above <= left {
                let shorter = cheapest_script(reference, predicted, (i - 1) as nat, j);
                lemma_edit_cost_achieved(reference, predicted, (i - 1) as nat, j);
                assert(before =~= shorter);
            } else {
                let shorter = cheapest_script(reference, predicted, i, (j - 1) as nat);
                lemma_edit_cost_achieved(reference, predicted, i, (j - 1) as nat);
                assert(before =~= shorter);
            }
        }
    }
}

/// No script that turns the one prefix into the other costs less than the
/// edit cost.
pub proof fn lemma_edit_cost_least<T>(
    reference: Seq<T>,
    predicted: Seq<T>,
    i: nat,
    j: nat,
    script: Seq<Edit<T>>,
)
    requires
        i <= reference.len(),
        j <= predicted.len(),
        transforms(script, reference.take(i as int), predicted.take(j as int)),
    ensures
        edit_cost(reference, predicted, i, j) <= script_cost(script),
    decreases script.len(),
{
    let source = reference.take(i as int);
    let target = predicted.take(j as int);
    if script.len() > 0 {
        let before = script.drop_last();
        if i > 0 {
            assert(source.drop_last() =~= reference.take(i - 1));
            assert(source.last() == reference[i - 1]);
            lemma_neighbours_differ_by_one(reference, predicted, (i - 1) as nat, j);
        }
        if j > 0 {
            assert(target.drop_last() =~= predicted.take(j - 1));
            assert(target.last() == predicted[j - 1]);
            lemma_neighbours_differ_by_one(reference, predicted, i, (j - 1) as nat);
        }
        if i > 0 && j > 0 {
            lemma_neighbours_differ_by_one(reference, predicted, (i - 1) as nat, (j - 1) as nat);
        }
        match script.last() {
            Edit::Keep => {
                lemma_edit_cost_least(reference, predicted, (i - 1) as nat, (j - 1) as nat, before);
            },
            Edit::Substitute(_) => {
                lemma_edit_cost_least(reference, predicted, (i - 1) as nat, (j - 1) as nat, before);
            },
            Edit::Insert(_) => {
                lemma_edit_cost_least(reference, predicted, i, (j - 1) as nat, before);
            },
            Edit::Delete => {
                lemma_edit_cost_least(reference, predicted, (i - 1) as nat, j, before);
            },
        }
    }
}

/// The edit cost is the least number of insertions, deletions and
/// substitutions that turn the first `i` tokens of `reference` into the
/// first `j` tokens of `predicted`: some script does it at that cost and
/// none does it for less.
pub proof fn lemma_edit_cost_is_minimum<T>(reference: Seq<T>, predicted: Seq<T>, i: nat, j: nat)
    requires
        i <= reference.len(),
        j <= predicted.len(),
    ensures
        exists|script: Seq<Edit<T>>|
            #[trigger] transforms(script, reference.take(i as int), predicted.take(j as int))
                && script_cost(script) == edit_cost(reference, predicted, i, j),
        forall|script: Seq<Edit<T>>|
            #[trigger] transforms(script, reference.take(i as int), predicted.take(j as int))
                ==> edit_cost(reference, predicted, i, j) <= script_cost(script),
{
    lemma_edit_cost_achieved(reference, predicted, i, j);
    assert forall|script: Seq<Edit<T>>| #[trigger]
        transforms(script, reference.take(i as int), predicted.take(j as int)) implies edit_cost(
        reference,
        predicted,
        i,
        j,
    ) <= script_cost(script) by {
        lemma_edit_cost_least(reference, predicted, i, j, script);
    }
}

} // verus!
