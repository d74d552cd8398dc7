use crate::error::TextError;
use crate::matrix::{cell, is_table, set_cell, zeroed, CostMatrix};
use vstd::prelude::*;

verus! {

/// The smaller of two natural numbers.
pub open spec fn least(a: nat, b: nat) -> nat {
    if a <= b {
        a
    } else {
        b
    }
}

/// The edit cost between the first `i` tokens of `reference` and the first
/// `j` tokens of `predicted`: turning an empty prefix into a prefix of
/// length `k` costs `k`; equal last tokens cost nothing beyond the prefixes
/// before them; unequal last tokens cost one more than the cheapest of the
/// three neighbouring prefix pairs.
pub open spec fn edit_cost<T>(reference: Seq<T>, predicted: Seq<T>, i: nat, j: nat) -> nat
    decreases i + j,
{
    if i == 0 {
        j
    } else if j == 0 {
        i
    } else if reference[i - 1] == predicted[j - 1] {
        edit_cost(reference, predicted, (i - 1) as nat, (j - 1) as nat)
    } else {
        1 + least(
            least(
                edit_cost(reference, predicted, (i - 1) as nat, (j - 1) as nat),
                edit_cost(reference, predicted, (i - 1) as nat, j),
            ),
            edit_cost(reference, predicted, i, (j - 1) as nat),
        )
    }
}

/// The text of each token, in order.
pub open spec fn texts(tokens: Seq<String>) -> Seq<Seq<char>> {
    Seq::new(tokens.len(), |k: int| tokens[k]@)
}

/// A table of `n + 1` rows and `m + 1` columns of 8-byte entries can be
/// addressed: its size in bytes does not exceed `isize::MAX`.
pub open spec fn addressable(n: nat, m: nat) -> bool {
    (n + 1) * (m + 1) * 8 <= isize::MAX
}

/// `cells` is the full table of edit costs between the prefixes of
/// `reference` and those of `predicted`.
pub open spec fn is_cost_table<T>(cells: Seq<Seq<u64>>, reference: Seq<T>, predicted: Seq<T>) -> bool {
    &&& is_table(cells, reference.len() + 1, predicted.len() + 1)
    &&& forall|i: int, j: int|
        0 <= i <= reference.len() && 0 <= j <= predicted.len() ==> (#[trigger] cells[i][j])
            == edit_cost(reference, predicted, i as nat, j as nat)
}

/// An edit cost never exceeds the sum of the two prefix lengths.
pub proof fn lemma_edit_cost_bounded<T>(reference: Seq<T>, predicted: Seq<T>, i: nat, j: nat)
    ensures
        edit_cost(reference, predicted, i, j) <= i + j,
    decreases i + j,
{
    if i != 0 && j != 0 {
        lemma_edit_cost_bounded(reference, predicted, (i - 1) as nat, (j - 1) as nat);
    }
}

/// The first row and the first column of every cost table count upwards
/// from zero: `cost[i][0] == i` and `cost[0][j] == j`.
pub proof fn lemma_edit_cost_borders<T>(reference: Seq<T>, predicted: Seq<T>, i: nat, j: nat)
    ensures
        edit_cost(reference, predicted, i, 0) == i,
        edit_cost(reference, predicted, 0, j) == j,
{
}

/// Sequences of at most ten thousand tokens each always have an
/// addressable table, on every platform.
pub proof fn lemma_short_sequences_addressable(n: nat, m: nat)
    requires
        n <= 10_000,
        m <= 10_000,
    ensures
        addressable(n, m),
{
    assert((n + 1) * (m + 1) * 8 <= 0x7fff_ffff) by (nonlinear_arith)
        requires
            n <= 10_000,
            m <= 10_000,
    ;
}

/// The shape of the cost table for sequences of `n` and `m` tokens, or
/// `None` when no such table can be addressed.
pub fn table_shape(n: usize, m: usize) -> (r: Option<(usize, usize)>)
    ensures
        r is Some <==> addressable(n as nat, m as nat),
        r matches Some(shape) ==> {
            &&& shape.0 == n + 1
            &&& shape.1 == m + 1
            &&& shape.0 <= isize::MAX
            &&& shape.1 <= isize::MAX
            &&& shape.0 * shape.1 * 8 <= isize::MAX
        },
{
    let limit: usize = isize::MAX as usize;
    if n >= limit || m >= limit {
        assert(!addressable(n as nat, m as nat)) by (nonlinear_arith)
            requires
                n >= isize::MAX || m >= isize::MAX,
        ;
        return None;
    }
    let rows: usize = n + 1;
    let cols: usize = m + 1;
    match rows.checked_mul(cols) {
        None => {
            assert(!addressable(n as nat, m as nat)) by (nonlinear_arith)
                requires
                    (n + 1) * (m + 1) > usize::MAX,
                    usize::MAX >= isize::MAX,
            ;
            None
        },
        Some(count) => match count.checked_mul(8) {
            None => None,
            Some(bytes) => if bytes <= limit {
                Some((rows, cols))
            } else {
                None
            },
        },
    }
}

/// Builds the table of edit costs between every prefix of `reference` and
/// every prefix of `predicted`, where inserting, deleting or substituting a
/// token costs one and tokens are compared by exact equality. The entry in
/// row `i` and column `j` is the least number of such edits that turn the
/// first `i` tokens of `reference` into the first `j` tokens of
/// `predicted` (see `lemma_edit_cost_is_minimum` in the `script` module).
///
/// Fails with [`TextError::SizeLimitExceeded`] exactly when a table of that
/// shape cannot be addressed.
pub fn create_cost_matrix(reference: Vec<String>, predicted: Vec<String>) -> (r: Result<
    CostMatrix,
    TextError,
>)
    ensures
        r is Ok <==> addressable(reference@.len(), predicted@.len()),
        match r {
            Ok(m) => is_cost_table(m@, texts(reference@), texts(predicted@)),
            Err(e) => e == TextError::SizeLimitExceeded && !addressable(
                reference@.len(),
                predicted@.len(),
            ),
        },
{
    let n: usize = reference.len();
    let m: usize = predicted.len();
    let (n1, n2) = match table_shape(n, m) {
        Some(shape) => shape,
        None => {
            return Err(TextError::SizeLimitExceeded);
        },
    };
    let ghost a = texts(reference@);
    let ghost b = texts(predicted@);
    assert(n + m < u64::MAX) by (nonlinear_arith)
        requires
            (n + 1) * (m + 1) * 8 <= isize::MAX,
            isize::MAX < u64::MAX,
    ;
    let mut cost = zeroed(n1, n2);

    let mut i: usize = 0;
    while i < n1
        invariant
            i <= n1,
            n2 >= 1,
            is_table(cost@, n1 as nat, n2 as nat),
            forall|k: int| 0 <= k < i ==> (#[trigger] cost@[k])[0] == k,
        decreases n1 - i,
    {
        set_cell(&mut cost, i, 0, i as u64);
        i += 1;
    }

    let mut j: usize = 0;
    while j < n2
        invariant
            j <= n2,
            n1 >= 1,
            n2 >= 1,
            is_table(cost@, n1 as nat, n2 as nat),
            forall|k: int| 0 <= k < n1 ==> (#[trigger] cost@[k])[0] == k,
            forall|k: int| 0 <= k < j ==> (#[trigger] cost@[0][k]) == k,
        decreases n2 - j,
    {
        set_cell(&mut cost, 0, j, j as u64);
        j += 1;
    }

    let mut i: usize = 0;
    while i < n1 - 1
        invariant
            i <= n,
            n1 == n + 1,
            n2 == m + 1,
            n == reference@.len(),
            m == predicted@.len(),
            a == texts(reference@),
            b == texts(predicted@),
            n + m < u64::MAX,
            is_table(cost@, n1 as nat, n2 as nat),
            forall|k: int| 0 <= k < n1 ==> (#[trigger] cost@[k])[0] == k,
            forall|r: int, c: int|
                0 <= r <= i && 0 <= c < n2 ==> (#[trigger] cost@[r][c]) == edit_cost(
                    a,
                    b,
                    r as nat,
                    c as nat,
                ),
        decreases n - i,
    {
        let mut j: usize = 0;
        while j < n2 - 1
            invariant
                i < n,
                j <= m,
                n1 == n + 1,
                n2 == m + 1,
                n == reference@.len(),
                m == predicted@.len(),
                a == texts(reference@),
                b == texts(predicted@),
                n + m < u64::MAX,
                is_table(cost@, n1 as nat, n2 as nat),
                forall|k: int| 0 <= k < n1 ==> (#[trigger] cost@[k])[0] == k,
                forall|r: int, c: int|
                    0 <= r <= i && 0 <= c < n2 ==> (#[trigger] cost@[r][c]) == edit_cost(
                        a,
                        b,
                        r as nat,
                        c as nat,
                    ),
                forall|c: int|
                    0 <= c <= j ==> (#[trigger] cost@[i + 1][c]) == edit_cost(
                        a,
                        b,
                        (i + 1) as nat,
                        c as nat,
                    ),
            decreases m - j,
        {
            let diagonal = cell(&cost, i, j).unwrap();
            let value = if reference[i] == predicted[j] {
                diagonal
            } else {
                let above = cell(&cost, i, j + 1).unwrap();
                let left = cell(&cost, i + 1, j).unwrap();
                let low = if diagonal <= above {
                    diagonal
                } else {
                    above
                };
                let lowest = if low <= left {
                    low
                } else {
                    left
                };
                proof {
                    lemma_edit_cost_bounded(a, b, i as nat, j as nat);
                }
                1 + lowest
            };
            assert(a[i as int] == reference@[i as int]@);
            assert(b[j as int] == predicted@[j as int]@);
            assert(value == edit_cost(a, b, (i + 1) as nat, (j + 1) as nat));
            set_cell(&mut cost, i + 1, j + 1, value);
            j += 1;
        }
        i += 1;
    }
    Ok(cost)
}

} // verus!
