use vstd::prelude::*;

verus! {

/// A pose as the sixteen coefficients of a homogeneous matrix; `rows[r][c]` is the
/// entry in row `r` and column `c`.
#[derive(Clone, Copy, Debug)]
pub struct HomogeneousMatrix<T> {
    pub rows: [[T; 4]; 4],
}

impl<T: Copy> HomogeneousMatrix<T> {
    pub fn new(rows: [[T; 4]; 4]) -> (r: Self)
        ensures
            r == (HomogeneousMatrix { rows }),
    {
        HomogeneousMatrix { rows }
    }

    pub fn rows(&self) -> (r: &[[T; 4]; 4])
        ensures
            r == &self.rows,
    {
        &self.rows
    }
}

} // verus!
