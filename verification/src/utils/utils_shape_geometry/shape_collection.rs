use crate::utils::utils_errors::OptimaError;
use crate::utils::utils_generic_data_structures::SquareArray2D;
use crate::utils::utils_se3::optima_rotation::Vector3;
use crate::utils::utils_se3::optima_se3_pose::OptimaSE3Pose;
use crate::utils::utils_shape_geometry::geometric_shape::{
    GeometricShape, GeometricShapeSignature, LogCondition, Ray, StopCondition,
};
use vstd::prelude::*;

verus! {

/// An ordered list of shapes with, for every pair of them, whether the pair is
/// skipped in queries and the average distance that was observed between them.
pub struct ShapeCollection<T, G> {
    shapes: Vec<GeometricShape<G>>,
    skips: SquareArray2D<bool>,
    average_distances: SquareArray2D<Option<T>>,
}

impl<T: Copy, G> ShapeCollection<T, G> {
    pub closed spec fn spec_shapes(&self) -> Seq<GeometricShape<G>> {
        self.shapes@
    }

    /// The signature of the shape at `idx`.
    pub open spec fn spec_signature(&self, idx: int) -> GeometricShapeSignature {
        self.spec_shapes()[idx].spec_signature()
    }

    /// Whether the pair `(a, b)` is skipped.
    pub closed spec fn spec_skip(&self, a: int, b: int) -> bool {
        self.skips.spec_cell(a, b)
    }

    /// The average distance recorded for the pair `(a, b)`, if one was recorded.
    pub closed spec fn spec_average_distance(&self, a: int, b: int) -> Option<T> {
        self.average_distances.spec_cell(a, b)
    }

    /// Both tables are square, of the size of the list of shapes, and symmetric, and
    /// every shape is skipped with itself.
    pub closed spec fn wf(&self) -> bool {
        &&& self.skips.wf()
        &&& self.average_distances.wf()
        &&& self.skips.spec_symmetric()
        &&& self.average_distances.spec_symmetric()
        &&& self.skips.spec_side_length() == self.shapes@.len()
        &&& self.average_distances.spec_side_length() == self.shapes@.len()
        &&& forall|a: int| 0 <= a < self.shapes@.len() ==> #[trigger] self.skips.spec_cell(a, a)
    }

    /// A shape is never queried with itself.
    pub proof fn lemma_diagonal_is_skipped(&self, a: int)
        requires
            self.wf(),
            0 <= a < self.spec_shapes().len(),
        ensures
            self.spec_skip(a, a),
    {
    }

    /// Whether a pair is skipped, and the distance recorded for it, do not depend
    /// on the order of the pair.
    pub proof fn lemma_tables_are_symmetric(&self, a: int, b: int)
        requires
            self.wf(),
            0 <= a < self.spec_shapes().len(),
            0 <= b < self.spec_shapes().len(),
        ensures
            self.spec_skip(a, b) == self.spec_skip(b, a),
            self.spec_average_distance(a, b) == self.spec_average_distance(b, a),
    {
        self.skips.lemma_symmetric_cells(a, b);
        self.average_distances.lemma_symmetric_cells(a, b);
    }

    /// A collection without shapes.
    pub fn new_empty() -> (r: Self)
        ensures
            r.wf(),
            r.spec_shapes().len() == 0,
    {
        ShapeCollection {
            shapes: Vec::new(),
            skips: SquareArray2D::new(0, true, false),
            average_distances: SquareArray2D::new(0, true, None),
        }
    }

    /// Adds a shape at the end. The new shape is skipped with itself and with no
    /// other shape, and no pair with it has a distance recorded.
    pub fn add_geometric_shape(&mut self, shape: GeometricShape<G>)
        requires
            old(self).wf(),
            old(self).spec_shapes().len() < usize::MAX,
        ensures
            final(self).wf(),
            final(self).spec_shapes() == old(self).spec_shapes().push(shape),
            forall|a: int, b: int|
                0 <= a < final(self).spec_shapes().len() && 0 <= b < final(self).spec_shapes().len()
                    ==> #[trigger] final(self).spec_skip(a, b) == (a == b || (a < old(
                    self,
                ).spec_shapes().len() && b < old(self).spec_shapes().len() && old(self).spec_skip(
                    a,
                    b,
                ))),
            forall|a: int, b: int|
                0 <= a < final(self).spec_shapes().len() && 0 <= b < final(self).spec_shapes().len()
                    ==> #[trigger] final(self).spec_average_distance(a, b) == if a < old(
                    self,
                ).spec_shapes().len() && b < old(self).spec_shapes().len() {
                    old(self).spec_average_distance(a, b)
                } else {
                    None
                },
    {
        let added = self.shapes.len();
        self.shapes.push(shape);
        self.skips.append_new_row_and_column(false);
        let _ = self.skips.replace_data(true, added, added);
        self.average_distances.append_new_row_and_column(None);
    }

    /// The shapes in order.
    pub fn shapes(&self) -> (r: &Vec<GeometricShape<G>>)
        ensures
            r@ == self.spec_shapes(),
    {
        &self.shapes
    }

    /// The number of shapes.
    pub fn num_shapes(&self) -> (r: usize)
        ensures
            r == self.spec_shapes().len(),
    {
        self.shapes.len()
    }

    /// The signature does not name a shape of the collection.
    pub open spec fn signature_is_unknown(&self, signature: GeometricShapeSignature) -> bool {
        forall|k: int| 0 <= k < self.spec_shapes().len() ==> self.spec_signature(k) != signature
    }

    /// `idx` is the first position at which a shape carries the signature.
    pub open spec fn is_first_with_signature(
        &self,
        signature: GeometricShapeSignature,
        idx: int,
    ) -> bool {
        &&& 0 <= idx < self.spec_shapes().len()
        &&& self.spec_signature(idx) == signature
        &&& forall|k: int| 0 <= k < idx ==> self.spec_signature(k) != signature
    }

    /// Returns the position of the first shape with the given signature.
    pub fn get_shape_idx_from_signature(&self, signature: &GeometricShapeSignature) -> (r: Result<
        usize,
        OptimaError,
    >)
        ensures
            match r {
                Ok(idx) => self.is_first_with_signature(*signature, idx as int),
                Err(e) => e == OptimaError::UnknownShapeSignature && self.signature_is_unknown(
                    *signature,
                ),
            },
    {
        let mut k: usize = 0;
        while k < self.shapes.len()
            invariant
                k <= self.shapes@.len(),
                forall|a: int| 0 <= a < k ==> self.spec_signature(a) != *signature,
            decreases self.shapes@.len() - k,
        {
            if self.shapes[k].signature() == *signature {
                return Ok(k);
            }
            k += 1;
        }
        Err(OptimaError::UnknownShapeSignature)
    }

    /// Whether the pair is skipped.
    pub fn skip_from_idxs(&self, shape_idx1: usize, shape_idx2: usize) -> (r: Result<
        bool,
        OptimaError,
    >)
        requires
            self.wf(),
        ensures
            shape_idx1 < self.spec_shapes().len() && shape_idx2 < self.spec_shapes().len() ==> r
                == Ok::<bool, OptimaError>(self.spec_skip(shape_idx1 as int, shape_idx2 as int)),
            shape_idx1 >= self.spec_shapes().len() ==> r == Err::<bool, OptimaError>(
                OptimaError::IndexOutOfBounds {
                    index: shape_idx1,
                    length: self.spec_shapes().len() as usize,
                },
            ),
            shape_idx1 < self.spec_shapes().len() && shape_idx2 >= self.spec_shapes().len() ==> r
                == Err::<bool, OptimaError>(
                OptimaError::IndexOutOfBounds {
                    index: shape_idx2,
                    length: self.spec_shapes().len() as usize,
                },
            ),
    {
        self.skips.data_cell(shape_idx1, shape_idx2)
    }

    /// The average distance recorded for the pair.
    pub fn average_distance_from_idxs(&self, shape_idx1: usize, shape_idx2: usize) -> (r: Result<
        Option<T>,
        OptimaError,
    >)
        requires
            self.wf(),
        ensures
            shape_idx1 < self.spec_shapes().len() && shape_idx2 < self.spec_shapes().len() ==> r
                == Ok::<Option<T>, OptimaError>(
                self.spec_average_distance(shape_idx1 as int, shape_idx2 as int),
            ),
            shape_idx1 >= self.spec_shapes().len() ==> r == Err::<Option<T>, OptimaError>(
                OptimaError::IndexOutOfBounds {
                    index: shape_idx1,
                    length: self.spec_shapes().len() as usize,
                },
            ),
            shape_idx1 < self.spec_shapes().len() && shape_idx2 >= self.spec_shapes().len() ==> r
                == Err::<Option<T>, OptimaError>(
                OptimaError::IndexOutOfBounds {
                    index: shape_idx2,
                    length: self.spec_shapes().len() as usize,
                },
            ),
    {
        self.average_distances.data_cell(shape_idx1, shape_idx2)
    }

    /// Sets whether the pair is skipped, in both orders of the pair. A shape stays
    /// skipped with itself whatever is asked for.
    pub fn replace_skip_from_idxs(&mut self, skip: bool, shape_idx1: usize, shape_idx2: usize) -> (r:
        Result<(), OptimaError>)
        requires
            old(self).wf(),
        ensures
            final(self).wf(),
            final(self).spec_shapes() == old(self).spec_shapes(),
            forall|a: int, b: int|
                0 <= a < old(self).spec_shapes().len() && 0 <= b < old(self).spec_shapes().len()
                    ==> #[trigger] final(self).spec_average_distance(a, b) == old(
                    self,
                ).spec_average_distance(a, b),
            shape_idx1 < old(self).spec_shapes().len() && shape_idx2 < old(
                self,
            ).spec_shapes().len() ==> {
                &&& r == Ok::<(), OptimaError>(())
                &&& forall|a: int, b: int|
                    0 <= a < old(self).spec_shapes().len() && 0 <= b < old(
                        self,
                    ).spec_shapes().len() ==> #[trigger] final(self).spec_skip(a, b) == if (a
                        == shape_idx1 && b == shape_idx2) || (a == shape_idx2 && b == shape_idx1) {
                        skip || a == b
                    } else {
                        old(self).spec_skip(a, b)
                    }
            },
            shape_idx1 >= old(self).spec_shapes().len() ==> r == Err::<(), OptimaError>(
                OptimaError::IndexOutOfBounds {
                    index: shape_idx1,
                    length: old(self).spec_shapes().len() as usize,
                },
            ),
            shape_idx1 < old(self).spec_shapes().len() && shape_idx2 >= old(
                self,
            ).spec_shapes().len() ==> r == Err::<(), OptimaError>(
                OptimaError::IndexOutOfBounds {
                    index: shape_idx2,
                    length: old(self).spec_shapes().len() as usize,
                },
            ),
            r is Err ==> forall|a: int, b: int|
                0 <= a < old(self).spec_shapes().len() && 0 <= b < old(self).spec_shapes().len()
                    ==> #[trigger] final(self).spec_skip(a, b) == old(self).spec_skip(a, b),
    {
        self.skips.replace_data(skip || shape_idx1 == shape_idx2, shape_idx1, shape_idx2)
    }

    /// Records the average distance of the pair, in both orders of the pair.
    pub fn replace_average_distance_from_idxs(
        &mut self,
        average_distance: T,
        shape_idx1: usize,
        shape_idx2: usize,
    ) -> (r: Result<(), OptimaError>)
        requires
            old(self).wf(),
        ensures
            final(self).wf(),
            final(self).spec_shapes() == old(self).spec_shapes(),
            forall|a: int, b: int|
                0 <= a < old(self).spec_shapes().len() && 0 <= b < old(self).spec_shapes().len()
                    ==> #[trigger] final(self).spec_skip(a, b) == old(self).spec_skip(a, b),
            shape_idx1 < old(self).spec_shapes().len() && shape_idx2 < old(
                self,
            ).spec_shapes().len() ==> {
                &&& r == Ok::<(), OptimaError>(())
                &&& forall|a: int, b: int|
                    0 <= a < old(self).spec_shapes().len() && 0 <= b < old(
                        self,
                    ).spec_shapes().len() ==> #[trigger] final(self).spec_average_distance(a, b)
                        == if (a == shape_idx1 && b == shape_idx2) || (a == shape_idx2 && b
                        == shape_idx1) {
                        Some(average_distance)
                    } else {
                        old(self).spec_average_distance(a, b)
                    }
            },
            shape_idx1 >= old(self).spec_shapes().len() ==> r == Err::<(), OptimaError>(
                OptimaError::IndexOutOfBounds {
                    index: shape_idx1,
                    length: old(self).spec_shapes().len() as usize,
                },
            ),
            shape_idx1 < old(self).spec_shapes().len() && shape_idx2 >= old(
                self,
            ).spec_shapes().len() ==> r == Err::<(), OptimaError>(
                OptimaError::IndexOutOfBounds {
                    index: shape_idx2,
                    length: old(self).spec_shapes().len() as usize,
                },
            ),
            r is Err ==> forall|a: int, b: int|
                0 <= a < old(self).spec_shapes().len() && 0 <= b < old(self).spec_shapes().len()
                    ==> #[trigger] final(self).spec_average_distance(a, b) == old(
                    self,
                ).spec_average_distance(a, b),
    {
        self.average_distances.replace_data(Some(average_distance), shape_idx1, shape_idx2)
    }
}

/// The two tables of a collection as they were at one moment, or as they are kept
/// in a store.
pub struct ShapeCollectionTables<T> {
    skips: SquareArray2D<bool>,
    average_distances: SquareArray2D<Option<T>>,
}

impl<T: Copy> ShapeCollectionTables<T> {
    /// The number of shapes that the tables are for.
    pub closed spec fn spec_num_shapes(&self) -> nat {
        self.skips.spec_side_length()
    }

    pub closed spec fn spec_skip(&self, a: int, b: int) -> bool {
        self.skips.spec_cell(a, b)
    }

    pub closed spec fn spec_average_distance(&self, a: int, b: int) -> Option<T> {
        self.average_distances.spec_cell(a, b)
    }

    /// Both tables are square, of one size, and symmetric, and every shape is
    /// skipped with itself.
    pub closed spec fn wf(&self) -> bool {
        &&& self.skips.wf()
        &&& self.average_distances.wf()
        &&& self.skips.spec_symmetric()
        &&& self.average_distances.spec_symmetric()
        &&& self.skips.spec_side_length() == self.average_distances.spec_side_length()
        &&& forall|a: int|
            0 <= a < self.skips.spec_side_length() ==> #[trigger] self.skips.spec_cell(a, a)
    }

    /// An index is reported if it is not below the number of shapes, the first of
    /// the pair first.
    pub open spec fn spec_index_error(&self, shape_idx1: usize, shape_idx2: usize) -> Option<
        OptimaError,
    > {
        if shape_idx1 >= self.spec_num_shapes() {
            Some(
                OptimaError::IndexOutOfBounds {
                    index: shape_idx1,
                    length: self.spec_num_shapes() as usize,
                },
            )
        } else if shape_idx2 >= self.spec_num_shapes() {
            Some(
                OptimaError::IndexOutOfBounds {
                    index: shape_idx2,
                    length: self.spec_num_shapes() as usize,
                },
            )
        } else {
            None
        }
    }

    /// Tables for `num_shapes` shapes in which every shape is skipped with itself
    /// and with no other shape, and no distance is recorded.
    pub fn new(num_shapes: usize) -> (r: Self)
        ensures
            r.wf(),
            r.spec_num_shapes() == num_shapes,
            forall|a: int, b: int|
                0 <= a < num_shapes && 0 <= b < num_shapes ==> #[trigger] r.spec_skip(a, b) == (a
                    == b),
            forall|a: int, b: int|
                0 <= a < num_shapes && 0 <= b < num_shapes ==> #[trigger] r.spec_average_distance(
                    a,
                    b,
                ) is None,
    {
        let mut skips = SquareArray2D::new(num_shapes, true, false);
        let mut a: usize = 0;
        while a < num_shapes
            invariant
                a <= num_shapes,
                skips.wf(),
                skips.spec_symmetric(),
                skips.spec_side_length() == num_shapes,
                forall|x: int, y: int|
                    0 <= x < num_shapes && 0 <= y < num_shapes ==> #[trigger] skips.spec_cell(x, y)
                        == (x == y && x < a),
            decreases num_shapes - a,
        {
            let _ = skips.replace_data(true, a, a);
            a += 1;
        }
        ShapeCollectionTables {
            skips,
            average_distances: SquareArray2D::new(num_shapes, true, None),
        }
    }

    /// The number of shapes that the tables are for.
    pub fn num_shapes(&self) -> (r: usize)
        ensures
            r == self.spec_num_shapes(),
    {
        self.skips.side_length()
    }

    /// Whether the pair is skipped.
    pub fn skip(&self, shape_idx1: usize, shape_idx2: usize) -> (r: Result<bool, OptimaError>)
        requires
            self.wf(),
        ensures
            match self.spec_index_error(shape_idx1, shape_idx2) {
                Some(e) => r == Err::<bool, OptimaError>(e),
                None => r == Ok::<bool, OptimaError>(
                    self.spec_skip(shape_idx1 as int, shape_idx2 as int),
                ),
            },
    {
        self.skips.data_cell(shape_idx1, shape_idx2)
    }

    /// The average distance recorded for the pair.
    pub fn average_distance(&self, shape_idx1: usize, shape_idx2: usize) -> (r: Result<
        Option<T>,
        OptimaError,
    >)
        requires
            self.wf(),
        ensures
            match self.spec_index_error(shape_idx1, shape_idx2) {
                Some(e) => r == Err::<Option<T>, OptimaError>(e),
                None => r == Ok::<Option<T>, OptimaError>(
                    self.spec_average_distance(shape_idx1 as int, shape_idx2 as int),
                ),
            },
    {
        self.average_distances.data_cell(shape_idx1, shape_idx2)
    }

    /// Sets whether the pair is skipped, in both orders of the pair. A shape stays
    /// skipped with itself whatever is asked for.
    pub fn replace_skip(&mut self, skip: bool, shape_idx1: usize, shape_idx2: usize) -> (r: Result<
        (),
        OptimaError,
    >)
        requires
            old(self).wf(),
        ensures
            final(self).wf(),
            final(self).spec_num_shapes() == old(self).spec_num_shapes(),
            forall|a: int, b: int|
                0 <= a < old(self).spec_num_shapes() && 0 <= b < old(self).spec_num_shapes()
                    ==> #[trigger] final(self).spec_average_distance(a, b) == old(
                    self,
                ).spec_average_distance(a, b),
            match old(self).spec_index_error(shape_idx1, shape_idx2) {
                Some(e) => r == Err::<(), OptimaError>(e) && *final(self) == *old(self),
                None => {
                    &&& r == Ok::<(), OptimaError>(())
                    &&& forall|a: int, b: int|
                        0 <= a < old(self).spec_num_shapes() && 0 <= b < old(
                            self,
                        ).spec_num_shapes() ==> #[trigger] final(self).spec_skip(a, b) == if (a
                            == shape_idx1 && b == shape_idx2) || (a == shape_idx2 && b
                            == shape_idx1) {
                            skip || a == b
                        } else {
                            old(self).spec_skip(a, b)
                        }
                },
            },
    {
        self.skips.replace_data(skip || shape_idx1 == shape_idx2, shape_idx1, shape_idx2)
    }

    /// Records the average distance of the pair, or that there is none, in both
    /// orders of the pair.
    pub fn replace_average_distance(
        &mut self,
        average_distance: Option<T>,
        shape_idx1: usize,
        shape_idx2: usize,
    ) -> (r: Result<(), OptimaError>)
        requires
            old(self).wf(),
        ensures
            final(self).wf(),
            final(self).spec_num_shapes() == old(self).spec_num_shapes(),
            forall|a: int, b: int|
                0 <= a < old(self).spec_num_shapes() && 0 <= b < old(self).spec_num_shapes()
                    ==> #[trigger] final(self).spec_skip(a, b) == old(self).spec_skip(a, b),
            match old(self).spec_index_error(shape_idx1, shape_idx2) {
                Some(e) => r == Err::<(), OptimaError>(e) && *final(self) == *old(self),
                None => {
                    &&& r == Ok::<(), OptimaError>(())
                    &&& forall|a: int, b: int|
                        0 <= a < old(self).spec_num_shapes() && 0 <= b < old(
                            self,
                        ).spec_num_shapes() ==> #[trigger] final(self).spec_average_distance(
                            a,
                            b,
                        ) == if (a == shape_idx1 && b == shape_idx2) || (a == shape_idx2 && b
                            == shape_idx1) {
                            average_distance
                        } else {
                            old(self).spec_average_distance(a, b)
                        }
                },
            },
    {
        self.average_distances.replace_data(average_distance, shape_idx1, shape_idx2)
    }
}

impl<T: Copy, G> ShapeCollection<T, G> {
    /// The tables hold what the collection holds for every pair.
    pub open spec fn tables_match(&self, tables: &ShapeCollectionTables<T>) -> bool {
        &&& tables.spec_num_shapes() == self.spec_shapes().len()
        &&& forall|a: int, b: int|
            0 <= a < self.spec_shapes().len() && 0 <= b < self.spec_shapes().len()
                ==> #[trigger] tables.spec_skip(a, b) == self.spec_skip(a, b)
        &&& forall|a: int, b: int|
            0 <= a < self.spec_shapes().len() && 0 <= b < self.spec_shapes().len()
                ==> #[trigger] tables.spec_average_distance(a, b) == self.spec_average_distance(
                a,
                b,
            )
    }

    /// A copy of the two tables as they are now.
    pub fn tables_snapshot(&self) -> (r: ShapeCollectionTables<T>)
        requires
            self.wf(),
        ensures
            r.wf(),
            self.tables_match(&r),
    {
        ShapeCollectionTables {
            skips: self.skips.duplicate(),
            average_distances: self.average_distances.duplicate(),
        }
    }

    /// Puts the two tables back to what a snapshot holds. A snapshot for another
    /// number of shapes is an error, and then nothing changes.
    pub fn restore_tables(&mut self, tables: &ShapeCollectionTables<T>) -> (r: Result<
        (),
        OptimaError,
    >)
        requires
            old(self).wf(),
            tables.wf(),
        ensures
            final(self).wf(),
            final(self).spec_shapes() == old(self).spec_shapes(),
            tables.spec_num_shapes() == old(self).spec_shapes().len() ==> {
                &&& r == Ok::<(), OptimaError>(())
                &&& final(self).tables_match(tables)
            },
            tables.spec_num_shapes() != old(self).spec_shapes().len() ==> {
                &&& r == Err::<(), OptimaError>(
                    OptimaError::IndexOutOfBounds {
                        index: tables.spec_num_shapes() as usize,
                        length: old(self).spec_shapes().len() as usize,
                    },
                )
                &&& *final(self) == *old(self)
            },
    {
        if tables.skips.side_length() != self.shapes.len() {
            return Err(
                OptimaError::IndexOutOfBounds {
                    index: tables.skips.side_length(),
                    length: self.shapes.len(),
                },
            );
        }
        self.skips = tables.skips.duplicate();
        self.average_distances = tables.average_distances.duplicate();
        Ok(())
    }
}

/// For every shape of a collection the pose at which a query places it, or nothing
/// where the shape is left out of the query.
pub struct ShapeCollectionInputPoses<T> {
    poses: Vec<Option<OptimaSE3Pose<T>>>,
}

impl<T> View for ShapeCollectionInputPoses<T> {
    type V = Seq<Option<OptimaSE3Pose<T>>>;

    closed spec fn view(&self) -> Seq<Option<OptimaSE3Pose<T>>> {
        self.poses@
    }
}

impl<T: Copy> ShapeCollectionInputPoses<T> {
    /// A table with a place for each of `num_shapes` shapes, all empty.
    pub fn new(num_shapes: usize) -> (r: Self)
        ensures
            r@.len() == num_shapes,
            forall|i: int| 0 <= i < num_shapes ==> r@[i] is None,
    {
        let mut poses: Vec<Option<OptimaSE3Pose<T>>> = Vec::new();
        let mut i: usize = 0;
        while i < num_shapes
            invariant
                i <= num_shapes,
                poses@.len() == i,
                forall|a: int| 0 <= a < i ==> poses@[a] is None,
            decreases num_shapes - i,
        {
            poses.push(None);
            i += 1;
        }
        ShapeCollectionInputPoses { poses }
    }

    /// Places the shape at `idx` at `pose`.
    pub fn insert_or_replace_pose_by_idx(&mut self, idx: usize, pose: OptimaSE3Pose<T>) -> (r: Result<
        (),
        OptimaError,
    >)
        ensures
            idx < old(self)@.len() ==> {
                &&& r == Ok::<(), OptimaError>(())
                &&& final(self)@ == old(self)@.update(idx as int, Some(pose))
            },
            idx >= old(self)@.len() ==> {
                &&& r == Err::<(), OptimaError>(
                    OptimaError::IndexOutOfBounds { index: idx, length: old(self)@.len() as usize },
                )
                &&& final(self)@ == old(self)@
            },
    {
        if idx >= self.poses.len() {
            return Err(OptimaError::IndexOutOfBounds { index: idx, length: self.poses.len() });
        }
        self.poses[idx] = Some(pose);
        Ok(())
    }

    /// The poses in the order of the shapes.
    pub fn poses(&self) -> (r: &Vec<Option<OptimaSE3Pose<T>>>)
        ensures
            r@ == self@,
    {
        &self.poses
    }

    /// Whether the shape at `idx` has a pose.
    pub fn is_full(&self, idx: usize) -> (r: bool)
        ensures
            r == (idx < self@.len() && self@[idx as int] is Some),
    {
        if idx >= self.poses.len() {
            return false;
        }
        self.poses[idx].is_some()
    }
}

/// A query over the shapes of a collection, each shape at the pose that the table
/// gives it.
pub enum ShapeCollectionQuery<T> {
    ProjectPoint { poses: ShapeCollectionInputPoses<T>, point: Vector3<T>, solid: bool },
    ContainsPoint { poses: ShapeCollectionInputPoses<T>, point: Vector3<T> },
    DistanceToPoint { poses: ShapeCollectionInputPoses<T>, point: Vector3<T>, solid: bool },
    IntersectsRay { poses: ShapeCollectionInputPoses<T>, ray: Ray<T>, max_toi: T },
    CastRay { poses: ShapeCollectionInputPoses<T>, ray: Ray<T>, max_toi: T, solid: bool },
    CastRayAndGetNormal { poses: ShapeCollectionInputPoses<T>, ray: Ray<T>, max_toi: T, solid: bool },
    IntersectionTest { poses: ShapeCollectionInputPoses<T> },
    Distance { poses: ShapeCollectionInputPoses<T> },
    ClosestPoints { poses: ShapeCollectionInputPoses<T>, max_dis: T },
    Contact { poses: ShapeCollectionInputPoses<T>, prediction: T },
    CCD { poses_t1: ShapeCollectionInputPoses<T>, poses_t2: ShapeCollectionInputPoses<T> },
}

/// The pair `(a, b)` is one that a query over pairs looks at: two different shapes,
/// the first before the second, both with a pose, and the pair not skipped.
pub open spec fn pair_is_queried<T: Copy, G>(
    collection: &ShapeCollection<T, G>,
    poses: Seq<Option<OptimaSE3Pose<T>>>,
    a: int,
    b: int,
) -> bool {
    &&& 0 <= a < b < collection.spec_shapes().len()
    &&& b < poses.len()
    &&& poses[a] is Some
    &&& poses[b] is Some
    &&& !collection.spec_skip(a, b)
}

/// The pair `x` comes before the pair `y`: by first shape, then by second.
pub open spec fn pair_precedes(x: (usize, usize), y: (usize, usize)) -> bool {
    x.0 < y.0 || (x.0 == y.0 && x.1 < y.1)
}

/// `pairs` are the pairs of shapes that a query over pairs looks at, in order.
pub open spec fn are_pairs_to_query<T: Copy, G>(
    collection: &ShapeCollection<T, G>,
    poses: Seq<Option<OptimaSE3Pose<T>>>,
    pairs: Seq<(usize, usize)>,
) -> bool {
    &&& forall|k: int|
        0 <= k < pairs.len() ==> pair_is_queried(
            collection,
            poses,
            (#[trigger] pairs[k]).0 as int,
            pairs[k].1 as int,
        )
    &&& forall|k1: int, k2: int| 0 <= k1 < k2 < pairs.len() ==> pair_precedes(pairs[k1], pairs[k2])
    &&& forall|a: int, b: int|
        pair_is_queried(collection, poses, a, b) ==> pairs.contains((a as usize, b as usize))
}

/// `shapes` are the shapes that a query over single shapes looks at: those with a
/// pose, in ascending order.
pub open spec fn are_shapes_to_query<T: Copy, G>(
    collection: &ShapeCollection<T, G>,
    poses: Seq<Option<OptimaSE3Pose<T>>>,
    shapes: Seq<usize>,
) -> bool {
    &&& forall|k: int|
        0 <= k < shapes.len() ==> {
            &&& (#[trigger] shapes[k]) < collection.spec_shapes().len()
            &&& shapes[k] < poses.len()
            &&& poses[shapes[k] as int] is Some
        }
    &&& forall|k1: int, k2: int| 0 <= k1 < k2 < shapes.len() ==> shapes[k1] < shapes[k2]
    &&& forall|i: int|
        0 <= i < collection.spec_shapes().len() && i < poses.len() && (#[trigger] poses[i]) is Some
            ==> shapes.contains(i as usize)
}

/// The step of a query at item `upto - 1`: what was kept before is `earlier`, what
/// the query finds of the item is `found`, and with it `outputs` are kept and the
/// query stops or does not.
pub open spec fn query_step<I, O, Q: Fn(I) -> (O, bool)>(
    items: Seq<I>,
    stop_condition: StopCondition,
    log_condition: LogCondition,
    query: Q,
    upto: int,
    outputs: Seq<(I, O)>,
    stopped: bool,
    earlier: Seq<(I, O)>,
    found: (O, bool),
) -> bool {
    &&& query.ensures((items[upto - 1],), found)
    &&& outputs == if log_condition == LogCondition::LogAll || found.1 {
        earlier.push((items[upto - 1], found.0))
    } else {
        earlier
    }
    &&& stopped == (stop_condition == StopCondition::Intersection && found.1)
}

/// A query that has looked at the first `upto` of `items` has kept `outputs` and
/// has stopped or not: it looks at each item in turn, keeps what the log condition
/// keeps of what it finds, and goes on to the next item only where the stop
/// condition does not stop it.
pub open spec fn query_has_run<I, O, Q: Fn(I) -> (O, bool)>(
    items: Seq<I>,
    stop_condition: StopCondition,
    log_condition: LogCondition,
    query: Q,
    upto: int,
    outputs: Seq<(I, O)>,
    stopped: bool,
) -> bool
    decreases upto,
{
    if upto <= 0 {
        outputs.len() == 0 && !stopped
    } else {
        exists|earlier: Seq<(I, O)>, found: (O, bool)|
            query_has_run(items, stop_condition, log_condition, query, upto - 1, earlier, false)
                && #[trigger] query_step(
                items,
                stop_condition,
                log_condition,
                query,
                upto,
                outputs,
                stopped,
                earlier,
                found,
            )
    }
}

/// Runs a query over the items in turn: `query` says of each item what it finds and
/// whether that is an intersection. What the log condition keeps is returned with
/// its item, in order, and whether the query was stopped.
pub fn run_query<I: Copy, O, Q: Fn(I) -> (O, bool)>(
    items: &Vec<I>,
    stop_condition: StopCondition,
    log_condition: LogCondition,
    query: Q,
) -> (r: (Vec<(I, O)>, bool))
    requires
        forall|item: I| query.requires((item,)),
    ensures
        exists|upto: int|
            {
                &&& 0 <= upto <= items@.len()
                &&& #[trigger] query_has_run(
                    items@,
                    stop_condition,
                    log_condition,
                    query,
                    upto,
                    r.0@,
                    r.1,
                )
                &&& (upto < items@.len() ==> r.1)
            },
{
    let mut outputs: Vec<(I, O)> = Vec::new();
    let mut stopped = false;
    let mut k: usize = 0;
    while k < items.len() && !stopped
        invariant
            forall|item: I| query.requires((item,)),
            k <= items@.len(),
            query_has_run(items@, stop_condition, log_condition, query, k as int, outputs@, stopped),
        decreases items@.len() - k,
    {
        let ghost earlier = outputs@;
        let item = items[k];
        let (raw_output, is_intersection) = query(item);
        let ghost found = (raw_output, is_intersection);
        if log_condition.keeps(is_intersection) {
            outputs.push((item, raw_output));
        }
        stopped = stop_condition.stops_after(is_intersection);
        k += 1;
        proof {
            assert(query_step(
                items@,
                stop_condition,
                log_condition,
                query,
                k as int,
                outputs@,
                stopped,
                earlier,
                found,
            ));
        }
    }
    let r = (outputs, stopped);
    assert(query_has_run(items@, stop_condition, log_condition, query, k as int, r.0@, r.1));
    r
}

/// A query over the pairs of a collection without shapes looks at no pair and keeps
/// no output.
pub proof fn lemma_no_shapes_no_outputs<T: Copy, G, O, Q: Fn((usize, usize)) -> (O, bool)>(
    collection: &ShapeCollection<T, G>,
    poses: Seq<Option<OptimaSE3Pose<T>>>,
    pairs: Seq<(usize, usize)>,
    stop_condition: StopCondition,
    log_condition: LogCondition,
    query: Q,
    upto: int,
    outputs: Seq<((usize, usize), O)>,
    stopped: bool,
)
    requires
        collection.spec_shapes().len() == 0,
        are_pairs_to_query(collection, poses, pairs),
        0 <= upto <= pairs.len(),
        query_has_run(pairs, stop_condition, log_condition, query, upto, outputs, stopped),
    ensures
        pairs.len() == 0,
        outputs.len() == 0,
        !stopped,
{
    if pairs.len() > 0 {
        assert(pair_is_queried(collection, poses, pairs[0].0 as int, pairs[0].1 as int));
    }
}

impl<T: Copy, G> ShapeCollection<T, G> {
    /// The shapes that a query over single shapes looks at: those with a pose, in
    /// ascending order.
    pub fn shapes_to_query(&self, poses: &ShapeCollectionInputPoses<T>) -> (r: Vec<usize>)
        ensures
            are_shapes_to_query(self, poses@, r@),
    {
        let n = self.shapes.len();
        let mut shapes: Vec<usize> = Vec::new();
        let mut i: usize = 0;
        while i < n
            invariant
                n == self.shapes@.len(),
                i <= n,
                forall|k: int|
                    0 <= k < shapes@.len() ==> {
                        &&& (#[trigger] shapes@[k]) < i
                        &&& shapes@[k] < poses@.len()
                        &&& poses@[shapes@[k] as int] is Some
                    },
                forall|k1: int, k2: int| 0 <= k1 < k2 < shapes@.len() ==> shapes@[k1] < shapes@[k2],
                forall|x: int|
                    0 <= x < i && x < poses@.len() && (#[trigger] poses@[x]) is Some
                        ==> shapes@.contains(x as usize),
            decreases n - i,
        {
            if poses.is_full(i) {
                let ghost before = shapes@;
                shapes.push(i);
                proof {
                    assert forall|x: int|
                        0 <= x < i + 1 && x < poses@.len() && (#[trigger] poses@[x]) is Some implies shapes@.contains(
                        x as usize,
                    ) by {
                        if x < i {
                            let w = choose|w: int| 0 <= w < before.len() && before[w] == x as usize;
                            assert(shapes@[w] == x as usize);
                        } else {
                            assert(shapes@[shapes@.len() - 1] == i);
                        }
                    }
                }
            }
            i += 1;
        }
        shapes
    }

    /// Runs a query over the single shapes that have a pose, in ascending order.
    pub fn query_over_shapes<O, Q: Fn(usize) -> (O, bool)>(
        &self,
        poses: &ShapeCollectionInputPoses<T>,
        stop_condition: StopCondition,
        log_condition: LogCondition,
        query: Q,
    ) -> (r: (Vec<(usize, O)>, bool))
        requires
            forall|shape_idx: usize| query.requires((shape_idx,)),
        ensures
            exists|shapes: Seq<usize>, upto: int|
                {
                    &&& are_shapes_to_query(self, poses@, shapes)
                    &&& 0 <= upto <= shapes.len()
                    &&& #[trigger] query_has_run(
                        shapes,
                        stop_condition,
                        log_condition,
                        query,
                        upto,
                        r.0@,
                        r.1,
                    )
                    &&& (upto < shapes.len() ==> r.1)
                },
    {
        let shapes = self.shapes_to_query(poses);
        run_query(&shapes, stop_condition, log_condition, query)
    }

    /// Runs a query over the pairs of shapes that are not skipped and of which both
    /// shapes have a pose, in order.
    pub fn query_over_pairs<O, Q: Fn((usize, usize)) -> (O, bool)>(
        &self,
        poses: &ShapeCollectionInputPoses<T>,
        stop_condition: StopCondition,
        log_condition: LogCondition,
        query: Q,
    ) -> (r: (Vec<((usize, usize), O)>, bool))
        requires
            self.wf(),
            forall|pair: (usize, usize)| query.requires((pair,)),
        ensures
            exists|pairs: Seq<(usize, usize)>, upto: int|
                {
                    &&& are_pairs_to_query(self, poses@, pairs)
                    &&& 0 <= upto <= pairs.len()
                    &&& #[trigger] query_has_run(
                        pairs,
                        stop_condition,
                        log_condition,
                        query,
                        upto,
                        r.0@,
                        r.1,
                    )
                    &&& (upto < pairs.len() ==> r.1)
                },
    {
        let pairs = self.pairs_to_query(poses);
        run_query(&pairs, stop_condition, log_condition, query)
    }

    /// The pairs of shapes that a query over pairs looks at, in order: every pair
    /// of two different shapes that both have a pose and that is not skipped, the
    /// first shape of the pair before the second.
    pub fn pairs_to_query(&self, poses: &ShapeCollectionInputPoses<T>) -> (r: Vec<(usize, usize)>)
        requires
            self.wf(),
        ensures
            are_pairs_to_query(self, poses@, r@),
    {
        let n = self.shapes.len();
        let mut pairs: Vec<(usize, usize)> = Vec::new();
        let mut a: usize = 0;
        while a < n
            invariant
                self.wf(),
                n == self.shapes@.len(),
                a <= n,
                forall|k: int|
                    0 <= k < pairs@.len() ==> {
                        &&& pair_is_queried(
                            self,
                            poses@,
                            (#[trigger] pairs@[k]).0 as int,
                            pairs@[k].1 as int,
                        )
                        &&& pairs@[k].0 < a
                    },
                forall|k1: int, k2: int|
                    0 <= k1 < k2 < pairs@.len() ==> pair_precedes(pairs@[k1], pairs@[k2]),
                forall|x: int, y: int|
                    pair_is_queried(self, poses@, x, y) && x < a ==> pairs@.contains(
                        (x as usize, y as usize),
                    ),
            decreases n - a,
        {
            if poses.is_full(a) {
                let mut b: usize = a + 1;
                while b < n
                    invariant
                        self.wf(),
                        n == self.shapes@.len(),
                        a < n,
                        a < b <= n,
                        poses@[a as int] is Some,
                        a < poses@.len(),
                        forall|k: int|
                            0 <= k < pairs@.len() ==> {
                                &&& pair_is_queried(
                                    self,
                                    poses@,
                                    (#[trigger] pairs@[k]).0 as int,
                                    pairs@[k].1 as int,
                                )
                                &&& (pairs@[k].0 < a || (pairs@[k].0 == a && pairs@[k].1 < b))
                            },
                        forall|k1: int, k2: int|
                            0 <= k1 < k2 < pairs@.len() ==> pair_precedes(pairs@[k1], pairs@[k2]),
                        forall|x: int, y: int|
                            pair_is_queried(self, poses@, x, y) && (x < a || (x == a && y < b))
                                ==> pairs@.contains((x as usize, y as usize)),
                    decreases n - b,
                {
                    let skip = match self.skips.data_cell(a, b) {
                        Ok(skip) => skip,
                        Err(_) => true,
                    };
                    if poses.is_full(b) && !skip {
                        let ghost before = pairs@;
                        pairs.push((a, b));
                        proof {
                            assert forall|x: int, y: int|
                                pair_is_queried(self, poses@, x, y) && (x < a || (x == a && y < b
                                    + 1)) implies pairs@.contains((x as usize, y as usize)) by {
                                if x == a && y == b {
                                    assert(pairs@[pairs@.len() - 1] == (a, b));
                                } else {
                                    let w = choose|w: int|
                                        0 <= w < before.len() && before[w] == (
                                            x as usize,
                                            y as usize,
                                        );
                                    assert(pairs@[w] == (x as usize, y as usize));
                                }
                            }
                        }
                    }
                    b += 1;
                }
            }
            a += 1;
        }
        pairs
    }
}

} // verus!
