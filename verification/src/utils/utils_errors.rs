use vstd::prelude::*;

verus! {

/// Every way in which an operation of this crate can fail.
#[derive(Clone, Copy, Debug, PartialEq, Eq, Structural)]
pub enum OptimaError {
    /// An index was not below the length of the container it addresses.
    IndexOutOfBounds { index: usize, length: usize },
    /// The links and joints do not form a single rooted tree.
    MalformedGraph,
    /// A state vector does not have the length that its tag calls for.
    StateSizeMismatch { given: usize, expected: usize },
    /// Two poses or rotations in different representations met in one operation
    /// and conversion was not permitted.
    IncompatibleRepresentation,
    /// No shape collection has been preprocessed for the requested representation.
    SchemeNotPreprocessed,
    /// A shape signature does not name a shape of the collection.
    UnknownShapeSignature,
    /// The asset store could not load or save.
    AssetUnavailable,
    /// No kinematic description was found for the named robot.
    SourceDataMissing,
    /// The link exists, but traversal from the root does not reach it.
    LinkNotTraversed { link_idx: usize },
    /// Two states of different types met in one operation.
    StateTypeMismatch,
}

impl OptimaError {
    /// Checks `index` against `length`.
    pub fn new_check_for_idx_out_of_bound_error(index: usize, length: usize) -> (r: Result<
        (),
        OptimaError,
    >)
        ensures
            index < length ==> r == Ok::<(), OptimaError>(()),
            index >= length ==> r == Err::<(), OptimaError>(
                OptimaError::IndexOutOfBounds { index, length },
            ),
    {
        if index >= length {
            Err(OptimaError::IndexOutOfBounds { index, length })
        } else {
            Ok(())
        }
    }
}

} // verus!
