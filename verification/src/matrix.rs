//! A dense two-dimensional matrix whose axes can be swapped without moving
//! an element.

use vstd::prelude::*;
use vstd::std_specs::cmp::PartialEqSpec;

verus! {

/// The mathematical value of a matrix: its extent along both axes and its
/// elements, row by row.
pub struct Grid<T> {
    pub nrows: nat,
    pub ncols: nat,
    pub rows: Seq<Seq<T>>,
}

impl<T> Grid<T> {
    /// There are `nrows` rows and each of them has `ncols` elements.
    pub open spec fn wf(self) -> bool {
        &&& self.rows.len() == self.nrows
        &&& forall|i: int| 0 <= i < self.nrows ==> (#[trigger] self.rows[i]).len() == self.ncols
    }

    /// The grid of the given extent that holds `cells` row after row.
    pub open spec fn from_cells(nrows: nat, ncols: nat, cells: Seq<T>) -> Grid<T> {
        Grid {
            nrows,
            ncols,
            rows: Seq::new(nrows, |i: int| Seq::new(ncols, |j: int| cells[i * ncols + j])),
        }
    }

    /// The grid with the roles of the two axes swapped: element `(j, i)` of
    /// the result is element `(i, j)` of `self`.
    pub open spec fn transposed(self) -> Grid<T> {
        Grid {
            nrows: self.ncols,
            ncols: self.nrows,
            rows: Seq::new(self.ncols, |j: int| Seq::new(self.nrows, |i: int| self.rows[i][j])),
        }
    }

    /// The number of elements.
    pub open spec fn len(self) -> nat {
        self.nrows * self.ncols
    }
}

/// Swapping the axes keeps a grid well formed.
pub proof fn lemma_transposed_wf<T>(g: Grid<T>)
    ensures
        g.transposed().wf(),
        g.transposed().len() == g.len(),
{
    assert(g.nrows * g.ncols == g.ncols * g.nrows) by (nonlinear_arith);
}

/// Swapping the axes twice gives the grid back.
pub proof fn lemma_transposed_twice<T>(g: Grid<T>)
    requires
        g.wf(),
    ensures
        g.transposed().transposed() == g,
{
    let back = g.transposed().transposed();
    assert(back.rows.len() == g.rows.len());
    assert forall|i: int| 0 <= i < g.nrows implies back.rows[i] == g.rows[i] by {
        assert(g.rows[i].len() == g.ncols);
        assert(back.rows[i] =~= g.rows[i]);
    }
    assert(back.rows =~= g.rows);
}

/// A grid built from a flat sequence is well formed.
pub proof fn lemma_from_cells_wf<T>(nrows: nat, ncols: nat, cells: Seq<T>)
    ensures
        Grid::from_cells(nrows, ncols, cells).wf(),
{
}

/// The position of element `(i, j)` in row-after-row order is inside the
/// flat sequence.
pub proof fn lemma_flat_index(nrows: int, ncols: int, i: int, j: int)
    requires
        0 <= i < nrows,
        0 <= j < ncols,
    ensures
        0 <= i * ncols <= i * ncols + j < nrows * ncols,
{
    assert(0 <= i * ncols) by (nonlinear_arith)
        requires
            0 <= i,
            0 <= ncols,
    ;
    assert((i + 1) * ncols <= nrows * ncols) by (nonlinear_arith)
        requires
            i + 1 <= nrows,
            0 <= ncols,
    ;
    assert((i + 1) * ncols == i * ncols + ncols) by (nonlinear_arith);
}

/// A two-dimensional matrix of `T`.
///
/// The elements are kept in one vector, in the order in which they were
/// handed over. Swapping the axes only toggles a flag, so two matrices are
/// compared by their elements and not by the way they are kept.
#[derive(Debug)]
pub struct Matrix<T> {
    cells: Vec<T>,
    nrows: usize,
    ncols: usize,
    flipped: bool,
}

impl<T> View for Matrix<T> {
    type V = Grid<T>;

    closed spec fn view(&self) -> Grid<T> {
        let stored = Grid::from_cells(self.nrows as nat, self.ncols as nat, self.cells@);
        if self.flipped {
            stored.transposed()
        } else {
            stored
        }
    }
}

impl<T> Matrix<T> {
    #[verifier::type_invariant]
    spec fn inv(self) -> bool {
        self.cells.len() == self.nrows * self.ncols
    }

    /// The value of every matrix is a well-formed grid.
    pub proof fn lemma_view_wf(&self)
        ensures
            self@.wf(),
    {
        let stored = Grid::from_cells(self.nrows as nat, self.ncols as nat, self.cells@);
        lemma_from_cells_wf(self.nrows as nat, self.ncols as nat, self.cells@);
        lemma_transposed_wf(stored);
    }

    /// Builds the matrix of the given extent from cells whose number is known
    /// to fit it.
    pub(crate) fn from_parts(nrows: usize, ncols: usize, cells: Vec<T>) -> (m: Matrix<T>)
        requires
            cells.len() == nrows * ncols,
        ensures
            m@ == Grid::from_cells(nrows as nat, ncols as nat, cells@),
    {
        Matrix { cells, nrows, ncols, flipped: false }
    }

    /// Builds the matrix with `shape.0` rows and `shape.1` columns that holds
    /// `cells` row after row. `None` when the number of cells is not the
    /// product of the two extents.
    pub fn from_shape_vec(shape: (usize, usize), cells: Vec<T>) -> (r: Option<Matrix<T>>)
        ensures
            r is Some <==> cells.len() == shape.0 * shape.1,
            r matches Some(m) ==> m@ == Grid::from_cells(shape.0 as nat, shape.1 as nat, cells@),
    {
        match shape.0.checked_mul(shape.1) {
            Some(n) => {
                if cells.len() == n {
                    Some(Matrix::from_parts(shape.0, shape.1, cells))
                } else {
                    None
                }
            },
            None => None,
        }
    }

    /// The number of rows and the number of columns.
    pub fn dim(&self) -> (d: (usize, usize))
        ensures
            d.0 == self@.nrows,
            d.1 == self@.ncols,
    {
        if self.flipped {
            (self.ncols, self.nrows)
        } else {
            (self.nrows, self.ncols)
        }
    }

    /// The extent along each axis, axis 0 first.
    pub fn shape(&self) -> (s: [usize; 2])
        ensures
            s[0] == self@.nrows,
            s[1] == self@.ncols,
    {
        let d = self.dim();
        [d.0, d.1]
    }

    /// The number of elements.
    pub fn len(&self) -> (n: usize)
        ensures
            n == self@.len(),
    {
        proof {
            use_type_invariant(self);
            assert(self.nrows * self.ncols == self.ncols * self.nrows) by (nonlinear_arith);
        }
        self.cells.len()
    }

    /// The element in row `i` and column `j`, or `None` outside the matrix.
    pub fn get(&self, i: usize, j: usize) -> (r: Option<&T>)
        ensures
            r is Some <==> i < self@.nrows && j < self@.ncols,
            r matches Some(x) ==> *x == self@.rows[i as int][j as int],
    {
        proof {
            use_type_invariant(self);
        }
        let (row, col) = if self.flipped {
            (j, i)
        } else {
            (i, j)
        };
        if row < self.nrows && col < self.ncols {
            proof {
                lemma_flat_index(self.nrows as int, self.ncols as int, row as int, col as int);
            }
            Some(&self.cells[row * self.ncols + col])
        } else {
            None
        }
    }

    /// The same elements with the roles of the two axes swapped.
    pub fn reversed_axes(self) -> (r: Matrix<T>)
        ensures
            r@ == self@.transposed(),
    {
        proof {
            use_type_invariant(&self);
            let stored = Grid::from_cells(self.nrows as nat, self.ncols as nat, self.cells@);
            lemma_from_cells_wf(self.nrows as nat, self.ncols as nat, self.cells@);
            lemma_transposed_twice(stored);
        }
        Matrix { cells: self.cells, nrows: self.nrows, ncols: self.ncols, flipped: !self.flipped }
    }
}

impl<T: PartialEq> vstd::std_specs::cmp::PartialEqSpecImpl for Matrix<T> {
    open spec fn obeys_eq_spec() -> bool {
        T::obeys_eq_spec()
    }

    /// Both matrices have the same extent, and elements at the same place
    /// are equal.
    open spec fn eq_spec(&self, other: &Matrix<T>) -> bool {
        &&& self@.nrows == other@.nrows
        &&& self@.ncols == other@.ncols
        &&& forall|i: int, j: int|
            0 <= i < self@.nrows && 0 <= j < self@.ncols ==> (#[trigger] self@.rows[i][j]).eq_spec(
                &other@.rows[i][j],
            )
    }
}

impl<T: PartialEq> PartialEq for Matrix<T> {
    fn eq(&self, other: &Matrix<T>) -> (r: bool) {
        let (nrows, ncols) = self.dim();
        let (other_nrows, other_ncols) = other.dim();
        if nrows != other_nrows || ncols != other_ncols {
            return false;
        }
        let mut i: usize = 0;
        while i < nrows
            invariant
                i <= nrows,
                nrows == self@.nrows,
                ncols == self@.ncols,
                nrows == other@.nrows,
                ncols == other@.ncols,
                T::obeys_eq_spec() ==> forall|a: int, b: int|
                    0 <= a < i && 0 <= b < ncols ==> (#[trigger] self@.rows[a][b]).eq_spec(
                        &other@.rows[a][b],
                    ),
            decreases nrows - i,
        {
            let mut j: usize = 0;
            while j < ncols
                invariant
                    i < nrows,
                    j <= ncols,
                    nrows == self@.nrows,
                    ncols == self@.ncols,
                    nrows == other@.nrows,
                    ncols == other@.ncols,
                    T::obeys_eq_spec() ==> forall|a: int, b: int|
                        0 <= a < i && 0 <= b < ncols ==> (#[trigger] self@.rows[a][b]).eq_spec(
                            &other@.rows[a][b],
                        ),
                    T::obeys_eq_spec() ==> forall|b: int|
                        0 <= b < j ==> (#[trigger] self@.rows[i as int][b]).eq_spec(
                            &other@.rows[i as int][b],
                        ),
                decreases ncols - j,
            {
                match (self.get(i, j), other.get(i, j)) {
                    (Some(x), Some(y)) => {
                        if !(*x == *y) {
                            assert(T::obeys_eq_spec() ==> !self@.rows[i as int][j as int].eq_spec(
                                &other@.rows[i as int][j as int],
                            ));
                            return false;
                        }
                    },
                    _ => {
                        return false;
                    },
                }
                j += 1;
            }
            i += 1;
        }
        true
    }
}

} // verus!
