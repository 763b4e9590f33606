//! Row-major matrices with equality, transposition and elementwise addition.
use crate::align::fits_i32;
use vstd::prelude::*;

verus! {

/// A `rows` by `cols` grid, stored row by row.
#[derive(Debug)]
pub struct Matrix<T> {
    pub elems: Vec<Vec<T>>,
    pub rows: usize,
    pub cols: usize,
}

impl<T> Matrix<T> {
    /// `elems` holds `rows` rows of `cols` elements each.
    pub open spec fn wf(&self) -> bool {
        &&& self.elems@.len() == self.rows
        &&& forall|i: int| 0 <= i < self.rows ==> (#[trigger] self.elems@[i])@.len() == self.cols
    }

    /// The element in row `i`, column `j`.
    pub open spec fn cell(&self, i: int, j: int) -> T {
        self.elems@[i]@[j]
    }
}

impl<T: Copy> Matrix<T> {
    /// The matrix with rows and columns swapped: element `(i, j)` moves to
    /// `(j, i)`.
    pub fn transpose(&self) -> (r: Self)
        requires
            self.wf(),
        ensures
            r.wf(),
            r.rows == self.cols,
            r.cols == self.rows,
            forall|i: int, j: int|
                0 <= i < self.rows && 0 <= j < self.cols ==> #[trigger] r.cell(j, i) == self.cell(
                    i,
                    j,
                ),
    {
        let mut elems: Vec<Vec<T>> = Vec::new();
        let mut j: usize = 0;
        while j < self.cols
            invariant
                self.wf(),
                j <= self.cols,
                elems@.len() == j,
                forall|jj: int| 0 <= jj < j ==> (#[trigger] elems@[jj])@.len() == self.rows,
                forall|i: int, jj: int|
                    0 <= i < self.rows && 0 <= jj < j ==> #[trigger] elems@[jj]@[i]
                        == self.cell(i, jj),
            decreases self.cols - j,
        {
            let mut line: Vec<T> = Vec::new();
            let mut i: usize = 0;
            while i < self.rows
                invariant
                    self.wf(),
                    j < self.cols,
                    i <= self.rows,
                    line@.len() == i,
                    forall|ii: int| 0 <= ii < i ==> #[trigger] line@[ii] == self.cell(ii, j as int),
                decreases self.rows - i,
            {
                assert(self.elems@[i as int]@.len() == self.cols);
                line.push(self.elems[i][j]);
                i = i + 1;
            }
            elems.push(line);
            j = j + 1;
        }
        Matrix { elems, rows: self.cols, cols: self.rows }
    }
}

/// The `rows` by `cols` matrix of zeros.
pub fn zeros(rows: usize, cols: usize) -> (r: Matrix<i32>)
    ensures
        r.wf(),
        r.rows == rows,
        r.cols == cols,
        forall|i: int, j: int| 0 <= i < rows && 0 <= j < cols ==> #[trigger] r.cell(i, j) == 0,
{
    let mut elems: Vec<Vec<i32>> = Vec::new();
    let mut i: usize = 0;
    while i < rows
        invariant
            i <= rows,
            elems@.len() == i,
            forall|ii: int| 0 <= ii < i ==> (#[trigger] elems@[ii])@.len() == cols,
            forall|ii: int, j: int| 0 <= ii < i && 0 <= j < cols ==> #[trigger] elems@[ii]@[j] == 0,
        decreases rows - i,
    {
        let mut line: Vec<i32> = Vec::new();
        let mut j: usize = 0;
        while j < cols
            invariant
                j <= cols,
                line@.len() == j,
                forall|jj: int| 0 <= jj < j ==> #[trigger] line@[jj] == 0,
            decreases cols - j,
        {
            line.push(0);
            j = j + 1;
        }
        elems.push(line);
        i = i + 1;
    }
    Matrix { elems, rows, cols }
}

impl Matrix<i32> {
    /// Adds `rhs` to this matrix element by element.
    pub fn add_assign(&mut self, rhs: Matrix<i32>)
        requires
            old(self).wf(),
            rhs.wf(),
            old(self).rows == rhs.rows,
            old(self).cols == rhs.cols,
            forall|i: int, j: int|
                0 <= i < rhs.rows && 0 <= j < rhs.cols ==> fits_i32(
                    #[trigger] old(self).cell(i, j) + rhs.cell(i, j),
                ),
        ensures
            final(self).wf(),
            final(self).rows == old(self).rows,
            final(self).cols == old(self).cols,
            forall|i: int, j: int|
                0 <= i < rhs.rows && 0 <= j < rhs.cols ==> #[trigger] final(self).cell(i, j)
                    == old(self).cell(i, j) + rhs.cell(i, j),
    {
        let mut elems: Vec<Vec<i32>> = Vec::new();
        let mut i: usize = 0;
        while i < self.rows
            invariant
                self.wf(),
                rhs.wf(),
                self.rows == rhs.rows,
                self.cols == rhs.cols,
                forall|i: int, j: int|
                    0 <= i < rhs.rows && 0 <= j < rhs.cols ==> fits_i32(
                        #[trigger] self.cell(i, j) + rhs.cell(i, j),
                    ),
                i <= self.rows,
                elems@.len() == i,
                forall|ii: int| 0 <= ii < i ==> (#[trigger] elems@[ii])@.len() == self.cols,
                forall|ii: int, j: int|
                    0 <= ii < i && 0 <= j < self.cols ==> #[trigger] elems@[ii]@[j] == self.cell(
                        ii,
                        j,
                    ) + rhs.cell(ii, j),
            decreases self.rows - i,
        {
            let mut line: Vec<i32> = Vec::new();
            let mut j: usize = 0;
            assert(self.elems@[i as int]@.len() == self.cols);
            assert(rhs.elems@[i as int]@.len() == self.cols);
            while j < self.cols
                invariant
                    self.wf(),
                    rhs.wf(),
                    self.rows == rhs.rows,
                    self.cols == rhs.cols,
                    i < self.rows,
                    forall|i: int, j: int|
                        0 <= i < rhs.rows && 0 <= j < rhs.cols ==> fits_i32(
                            #[trigger] self.cell(i, j) + rhs.cell(i, j),
                        ),
                    j <= self.cols,
                    line@.len() == j,
                    forall|jj: int|
                        0 <= jj < j ==> #[trigger] line@[jj] == self.cell(i as int, jj) + rhs.cell(
                            i as int,
                            jj,
                        ),
                decreases self.cols - j,
            {
                assert(fits_i32(self.cell(i as int, j as int) + rhs.cell(i as int, j as int)));
                line.push(self.elems[i][j] + rhs.elems[i][j]);
                j = j + 1;
            }
            elems.push(line);
            i = i + 1;
        }
        self.elems = elems;
    }
}

impl PartialEq for Matrix<i32> {
    fn eq(&self, other: &Matrix<i32>) -> (r: bool) {
        if self.rows != other.rows || self.cols != other.cols || self.elems.len()
            != other.elems.len() {
            return false;
        }
        let mut i: usize = 0;
        while i < self.elems.len()
            invariant
                self.rows == other.rows,
                self.cols == other.cols,
                self.elems@.len() == other.elems@.len(),
                i <= self.elems@.len(),
                forall|ii: int| 0 <= ii < i ==> (#[trigger] self.elems@[ii])@ == other.elems@[ii]@,
            decreases self.elems@.len() - i,
        {
            let a = &self.elems[i];
            let b = &other.elems[i];
            if a.len() != b.len() {
                return false;
            }
            let mut j: usize = 0;
            while j < a.len()
                invariant
                    i < self.elems@.len(),
                    self.elems@.len() == other.elems@.len(),
                    *a == self.elems@[i as int],
                    *b == other.elems@[i as int],
                    a@.len() == b@.len(),
                    j <= a@.len(),
                    forall|jj: int| 0 <= jj < j ==> #[trigger] a@[jj] == b@[jj],
                decreases a@.len() - j,
            {
                if a[j] != b[j] {
                    assert(a@[j as int] != b@[j as int]);
                    assert(self.elems@[i as int]@ != other.elems@[i as int]@);
                    return false;
                }
                j = j + 1;
            }
            assert(a@ =~= b@);
            i = i + 1;
        }
        true
    }
}

impl vstd::std_specs::cmp::PartialEqSpecImpl for Matrix<i32> {
    open spec fn obeys_eq_spec() -> bool {
        true
    }

    /// Same dimensions and the same elements.
    open spec fn eq_spec(&self, other: &Matrix<i32>) -> bool {
        &&& self.rows == other.rows
        &&& self.cols == other.cols
        &&& self.elems@.len() == other.elems@.len()
        &&& forall|i: int|
            0 <= i < self.elems@.len() ==> (#[trigger] self.elems@[i])@ == other.elems@[i]@
    }
}

} // verus!
