use crate::utils::utils_errors::OptimaError;
use vstd::prelude::*;

verus! {

/// A square table of values addressed by `(row, column)`.
///
/// A table created as symmetric keeps cell `(i, j)` equal to cell `(j, i)`:
/// every write goes to both.
pub struct SquareArray2D<T> {
    array: Vec<Vec<T>>,
    side_length: usize,
    symmetric: bool,
}

impl<T: Copy> SquareArray2D<T> {
    /// Number of rows, which is the number of columns.
    pub closed spec fn spec_side_length(&self) -> nat {
        self.side_length as nat
    }

    /// Whether writes are mirrored across the diagonal.
    pub closed spec fn spec_symmetric(&self) -> bool {
        self.symmetric
    }

    /// The value at `(row, col)`.
    pub closed spec fn spec_cell(&self, row: int, col: int) -> T {
        self.array@[row]@[col]
    }

    /// The table is square, and equal across the diagonal if it is symmetric.
    pub closed spec fn wf(&self) -> bool {
        &&& self.array@.len() == self.side_length
        &&& forall|i: int|
            0 <= i < self.side_length ==> (#[trigger] self.array@[i])@.len() == self.side_length
        &&& self.symmetric ==> forall|i: int, j: int|
            0 <= i < self.side_length && 0 <= j < self.side_length ==> self.array@[i]@[j]
                == self.array@[j]@[i]
    }

    /// In a symmetric table the two cells of a pair hold the same value.
    pub proof fn lemma_symmetric_cells(&self, row: int, col: int)
        requires
            self.wf(),
            self.spec_symmetric(),
            0 <= row < self.spec_side_length(),
            0 <= col < self.spec_side_length(),
        ensures
            self.spec_cell(row, col) == self.spec_cell(col, row),
    {
    }

    /// A table of `side_length` rows and columns, every cell holding `fill`.
    pub fn new(side_length: usize, symmetric: bool, fill: T) -> (r: Self)
        ensures
            r.wf(),
            r.spec_side_length() == side_length,
            r.spec_symmetric() == symmetric,
            forall|i: int, j: int|
                0 <= i < side_length && 0 <= j < side_length ==> r.spec_cell(i, j) == fill,
    {
        let mut array: Vec<Vec<T>> = Vec::new();
        let mut i: usize = 0;
        while i < side_length
            invariant
                i <= side_length,
                array@.len() == i,
                forall|a: int| 0 <= a < i ==> (#[trigger] array@[a])@.len() == side_length,
                forall|a: int, b: int|
                    0 <= a < i && 0 <= b < side_length ==> array@[a]@[b] == fill,
            decreases side_length - i,
        {
            let mut row: Vec<T> = Vec::new();
            let mut j: usize = 0;
            while j < side_length
                invariant
                    j <= side_length,
                    row@.len() == j,
                    forall|b: int| 0 <= b < j ==> row@[b] == fill,
                decreases side_length - j,
            {
                row.push(fill);
                j += 1;
            }
            array.push(row);
            i += 1;
        }
        SquareArray2D { array, side_length, symmetric }
    }

    /// Number of rows, which is the number of columns.
    pub fn side_length(&self) -> (r: usize)
        ensures
            r == self.spec_side_length(),
    {
        self.side_length
    }

    /// Whether writes are mirrored across the diagonal.
    pub fn symmetric(&self) -> (r: bool)
        ensures
            r == self.spec_symmetric(),
    {
        self.symmetric
    }

    /// The value at `(row, col)`; an index that is too large is reported, the row first.
    pub fn data_cell(&self, row: usize, col: usize) -> (r: Result<T, OptimaError>)
        requires
            self.wf(),
        ensures
            row < self.spec_side_length() && col < self.spec_side_length() ==> r == Ok::<
                T,
                OptimaError,
            >(self.spec_cell(row as int, col as int)),
            row >= self.spec_side_length() ==> r == Err::<T, OptimaError>(
                OptimaError::IndexOutOfBounds {
                    index: row,
                    length: self.spec_side_length() as usize,
                },
            ),
            row < self.spec_side_length() && col >= self.spec_side_length() ==> r == Err::<
                T,
                OptimaError,
            >(
                OptimaError::IndexOutOfBounds {
                    index: col,
                    length: self.spec_side_length() as usize,
                },
            ),
    {
        if row >= self.side_length {
            return Err(OptimaError::IndexOutOfBounds { index: row, length: self.side_length });
        }
        if col >= self.side_length {
            return Err(OptimaError::IndexOutOfBounds { index: col, length: self.side_length });
        }
        Ok(self.array[row][col])
    }

    /// Writes `value` to `(row, col)`, and to `(col, row)` as well in a symmetric table.
    /// Every other cell keeps its value. An index that is too large is reported, the
    /// row first, and nothing is written.
    pub fn replace_data(&mut self, value: T, row: usize, col: usize) -> (r: Result<
        (),
        OptimaError,
    >)
        requires
            old(self).wf(),
        ensures
            final(self).wf(),
            final(self).spec_side_length() == old(self).spec_side_length(),
            final(self).spec_symmetric() == old(self).spec_symmetric(),
            row < old(self).spec_side_length() && col < old(self).spec_side_length() ==> {
                &&& r == Ok::<(), OptimaError>(())
                &&& forall|i: int, j: int|
                    0 <= i < old(self).spec_side_length() && 0 <= j < old(self).spec_side_length()
                        ==> #[trigger] final(self).spec_cell(i, j) == if (i == row && j == col)
                        || (old(self).spec_symmetric() && i == col && j == row) {
                        value
                    } else {
                        old(self).spec_cell(i, j)
                    }
            },
            row >= old(self).spec_side_length() ==> r == Err::<(), OptimaError>(
                OptimaError::IndexOutOfBounds {
                    index: row,
                    length: old(self).spec_side_length() as usize,
                },
            ),
            row < old(self).spec_side_length() && col >= old(self).spec_side_length() ==> r
                == Err::<(), OptimaError>(
                OptimaError::IndexOutOfBounds {
                    index: col,
                    length: old(self).spec_side_length() as usize,
                },
            ),
            r is Err ==> *final(self) == *old(self),
    {
        if row >= self.side_length {
            return Err(OptimaError::IndexOutOfBounds { index: row, length: self.side_length });
        }
        if col >= self.side_length {
            return Err(OptimaError::IndexOutOfBounds { index: col, length: self.side_length });
        }
        self.array[row][col] = value;
        if self.symmetric {
            self.array[col][row] = value;
        }
        Ok(())
    }

    /// A copy of the table.
    pub fn duplicate(&self) -> (r: Self)
        requires
            self.wf(),
        ensures
            r.wf(),
            r.spec_side_length() == self.spec_side_length(),
            r.spec_symmetric() == self.spec_symmetric(),
            forall|i: int, j: int|
                0 <= i < self.spec_side_length() && 0 <= j < self.spec_side_length()
                    ==> #[trigger] r.spec_cell(i, j) == self.spec_cell(i, j),
    {
        let n = self.side_length;
        let mut array: Vec<Vec<T>> = Vec::new();
        let mut i: usize = 0;
        while i < n
            invariant
                self.wf(),
                n == self.side_length,
                i <= n,
                array@.len() == i,
                forall|a: int| 0 <= a < i ==> (#[trigger] array@[a])@.len() == n,
                forall|a: int, b: int|
                    0 <= a < i && 0 <= b < n ==> array@[a]@[b] == self.array@[a]@[b],
            decreases n - i,
        {
            let mut row: Vec<T> = Vec::new();
            let mut j: usize = 0;
            while j < n
                invariant
                    self.wf(),
                    n == self.side_length,
                    i < n,
                    j <= n,
                    row@.len() == j,
                    forall|b: int| 0 <= b < j ==> row@[b] == self.array@[i as int]@[b],
                decreases n - j,
            {
                row.push(self.array[i][j]);
                j += 1;
            }
            array.push(row);
            i += 1;
        }
        SquareArray2D { array, side_length: n, symmetric: self.symmetric }
    }

    /// Adds one row and one column, every new cell holding `fill`. Every cell that
    /// was there keeps its value.
    pub fn append_new_row_and_column(&mut self, fill: T)
        requires
            old(self).wf(),
            old(self).spec_side_length() < usize::MAX,
        ensures
            final(self).wf(),
            final(self).spec_side_length() == old(self).spec_side_length() + 1,
            final(self).spec_symmetric() == old(self).spec_symmetric(),
            forall|i: int, j: int|
                0 <= i < final(self).spec_side_length() && 0 <= j < final(self).spec_side_length()
                    ==> #[trigger] final(self).spec_cell(i, j) == if i < old(
                    self,
                ).spec_side_length() && j < old(self).spec_side_length() {
                    old(self).spec_cell(i, j)
                } else {
                    fill
                },
    {
        let n = self.side_length;
        let mut i: usize = 0;
        while i < n
            invariant
                n == old(self).side_length,
                n == self.side_length,
                self.symmetric == old(self).symmetric,
                i <= n,
                self.array@.len() == n,
                forall|a: int| 0 <= a < i ==> (#[trigger] self.array@[a])@ == old(
                    self,
                ).array@[a]@.push(fill),
                forall|a: int| i <= a < n ==> (#[trigger] self.array@[a])@ == old(self).array@[a]@,
            decreases n - i,
        {
            self.array[i].push(fill);
            i += 1;
        }
        let mut row: Vec<T> = Vec::new();
        let mut j: usize = 0;
        while j < n + 1
            invariant
                n < usize::MAX,
                j <= n + 1,
                row@.len() == j,
                forall|b: int| 0 <= b < j ==> row@[b] == fill,
            decreases n + 1 - j,
        {
            row.push(fill);
            j += 1;
        }
        self.array.push(row);
        self.side_length = n + 1;
        proof {
            assert forall|a: int| 0 <= a < self.side_length implies (#[trigger] self.array@[a])@.len()
                == self.side_length by {
                if a < n {
                    assert(self.array@[a]@ == old(self).array@[a]@.push(fill));
                    assert(old(self).array@[a]@.len() == n);
                }
            }
            assert forall|a: int, b: int|
                0 <= a < self.side_length && 0 <= b < self.side_length implies #[trigger] self.spec_cell(
                a,
                b,
            ) == if a < n && b < n {
                old(self).spec_cell(a, b)
            } else {
                fill
            } by {
                if a < n {
                    assert(self.array@[a]@ == old(self).array@[a]@.push(fill));
                    assert(old(self).array@[a]@.len() == n);
                }
            }
            if self.symmetric {
                assert forall|a: int, b: int|
                    0 <= a < self.side_length && 0 <= b < self.side_length implies self.array@[a]@[b]
                    == self.array@[b]@[a] by {
                    assert(self.spec_cell(a, b) == self.spec_cell(b, a));
                }
            }
        }
    }
}

} // verus!
