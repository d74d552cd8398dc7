use vstd::prelude::*;

verus! {

/// A dense table of non-negative integers with a fixed number of rows and
/// columns, stored row-major in an `ndarray` array.
///
/// The array is opaque to the verifier: everything the library knows about
/// it is stated over [`matrix_cells`] by the four trusted functions below.
#[verifier::external_body]
pub struct CostMatrix {
    cells: ndarray::Array2<u64>,
}

/// The contents of a matrix: one sequence per row, each holding that row's
/// entries from left to right.
pub uninterp spec fn matrix_cells(m: CostMatrix) -> Seq<Seq<u64>>;

impl View for CostMatrix {
    type V = Seq<Seq<u64>>;

    open spec fn view(&self) -> Seq<Seq<u64>> {
        matrix_cells(*self)
    }
}

/// `cells` has exactly `rows` rows and every row has exactly `cols` entries.
pub open spec fn is_table(cells: Seq<Seq<u64>>, rows: nat, cols: nat) -> bool {
    &&& cells.len() == rows
    &&& forall|i: int| 0 <= i < rows ==> (#[trigger] cells[i]).len() == cols
}

/// Trusted: `ndarray::Array2::zeros`. Claims that the new array has the
/// requested shape and that every entry is zero.
///
/// The constructor panics when the product of the axis lengths that are
/// not zero exceeds `isize::MAX`, and the buffer behind the array cannot
/// hold more than `isize::MAX` bytes. The precondition rules both out:
/// with each length within `isize::MAX`, a shape with an empty axis has a
/// product of at most one length, and any other shape has the product of
/// both, which the last clause bounds together with the byte size.
#[verifier::external_body]
pub(crate) fn zeroed(rows: usize, cols: usize) -> (m: CostMatrix)
    requires
        rows <= isize::MAX,
        cols <= isize::MAX,
        rows * cols * 8 <= isize::MAX,
    ensures
        is_table(matrix_cells(m), rows as nat, cols as nat),
        forall|i: int, j: int|
            0 <= i < rows && 0 <= j < cols ==> (#[trigger] matrix_cells(m)[i][j]) == 0,
{
    CostMatrix { cells: ndarray::Array2::zeros((rows, cols)) }
}

/// Trusted: `ndarray::ArrayBase::dim`. Claims that the pair returned is the
/// number of rows and the length shared by all of them.
#[verifier::external_body]
pub(crate) fn shape(m: &CostMatrix) -> (r: (usize, usize))
    ensures
        is_table(matrix_cells(*m), r.0 as nat, r.1 as nat),
{
    m.cells.dim()
}

/// Trusted: `ndarray::ArrayBase::get`. Claims that an index inside the
/// table yields the entry stored there and any other index yields nothing.
#[verifier::external_body]
pub(crate) fn cell(m: &CostMatrix, i: usize, j: usize) -> (r: Option<u64>)
    ensures
        r == (if i < matrix_cells(*m).len() && j < matrix_cells(*m)[i as int].len() {
            Some(matrix_cells(*m)[i as int][j as int])
        } else {
            None
        }),
{
    m.cells.get([i, j]).copied()
}

/// Trusted: `ndarray`'s `IndexMut` for a pair of indices. Claims that the
/// assignment replaces the one entry addressed and leaves the shape and all
/// other entries as they were. The precondition rules out the indices on
/// which the indexing panics.
#[verifier::external_body]
pub(crate) fn set_cell(m: &mut CostMatrix, i: usize, j: usize, value: u64)
    requires
        i < matrix_cells(*old(m)).len(),
        j < matrix_cells(*old(m))[i as int].len(),
    ensures
        matrix_cells(*final(m)) == matrix_cells(*old(m)).update(
            i as int,
            matrix_cells(*old(m))[i as int].update(j as int, value),
        ),
{
    m.cells[[i, j]] = value;
}

impl CostMatrix {
    /// The number of rows.
    pub fn rows(&self) -> (n: usize)
        ensures
            n == self@.len(),
    {
        shape(self).0
    }

    /// The number of columns, which is the length of every row.
    pub fn cols(&self) -> (n: usize)
        ensures
            forall|i: int| 0 <= i < self@.len() ==> (#[trigger] self@[i]).len() == n,
    {
        shape(self).1
    }

    /// The entry in row `i`, column `j`, or `None` when the table has no
    /// such entry.
    pub fn get(&self, i: usize, j: usize) -> (r: Option<u64>)
        ensures
            r == (if i < self@.len() && j < self@[i as int].len() {
                Some(self@[i as int][j as int])
            } else {
                None
            }),
    {
        cell(self, i, j)
    }

    /// A copy of the table as a vector of rows.
    pub fn to_rows(&self) -> (out: Vec<Vec<u64>>)
        ensures
            out@.len() == self@.len(),
            forall|i: int| 0 <= i < out@.len() ==> (#[trigger] out@[i])@ == self@[i],
    {
        let (rows, cols) = shape(self);
        let mut out: Vec<Vec<u64>> = Vec::new();
        let mut i: usize = 0;
        while i < rows
            invariant
                i <= rows,
                is_table(self@, rows as nat, cols as nat),
                out@.len() == i,
                forall|k: int| 0 <= k < i ==> (#[trigger] out@[k])@ == self@[k],
            decreases rows - i,
        {
            let mut row: Vec<u64> = Vec::new();
            let mut j: usize = 0;
            while j < cols
                invariant
                    i < rows,
                    j <= cols,
                    is_table(self@, rows as nat, cols as nat),
                    row@.len() == j,
                    forall|k: int| 0 <= k < j ==> row@[k] == self@[i as int][k],
                decreases cols - j,
            {
                assert(self@[i as int].len() == cols);
                row.push(cell(self, i, j).unwrap());
                j += 1;
            }
            assert(row@ =~= self@[i as int]);
            out.push(row);
            i += 1;
        }
        out
    }
}

} // verus!
