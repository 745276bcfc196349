use vstd::prelude::*;

verus! {

/// What a shape stands for.
#[derive(Clone, Copy, Debug, PartialEq, Eq, Structural)]
pub enum GeometricShapeSignature {
    /// The shape stands for nothing in particular.
    Anonymous,
    /// The shape is part `shape_idx_in_link` of the body of link `link_idx`.
    RobotLink { link_idx: usize, shape_idx_in_link: usize },
    /// The shape is part `shape_idx_in_object` of an object of the environment.
    EnvironmentObject { environment_object_idx: usize, shape_idx_in_object: usize },
}

/// A shape: its signature, and the geometry, which this crate carries and never
/// looks into.
pub struct GeometricShape<G> {
    signature: GeometricShapeSignature,
    geometry: G,
}

impl<G> GeometricShape<G> {
    pub closed spec fn spec_signature(&self) -> GeometricShapeSignature {
        self.signature
    }

    pub closed spec fn spec_geometry(&self) -> G {
        self.geometry
    }

    pub fn new(geometry: G, signature: GeometricShapeSignature) -> (r: Self)
        ensures
            r.spec_signature() == signature,
            r.spec_geometry() == geometry,
    {
        GeometricShape { signature, geometry }
    }

    pub fn signature(&self) -> (r: GeometricShapeSignature)
        ensures
            r == self.spec_signature(),
    {
        self.signature
    }

    pub fn geometry(&self) -> (r: &G)
        ensures
            *r == self.spec_geometry(),
    {
        &self.geometry
    }
}

/// When a query over many shapes may end before every shape has been looked at.
#[derive(Clone, Copy, Debug, PartialEq, Eq, Structural)]
pub enum StopCondition {
    /// Every shape and every pair is looked at.
    Never,
    /// The query ends with the first intersection found.
    Intersection,
}

/// Which results of a query are kept.
#[derive(Clone, Copy, Debug, PartialEq, Eq, Structural)]
pub enum LogCondition {
    LogAll,
    Intersection,
}

impl StopCondition {
    /// Whether the query ends after an output that is an intersection or is not.
    pub fn stops_after(&self, is_intersection: bool) -> (r: bool)
        ensures
            r == (*self == StopCondition::Intersection && is_intersection),
    {
        match self {
            StopCondition::Never => false,
            StopCondition::Intersection => is_intersection,
        }
    }
}

impl LogCondition {
    /// Whether an output that is an intersection or is not is kept.
    pub fn keeps(&self, is_intersection: bool) -> (r: bool)
        ensures
            r == (*self == LogCondition::LogAll || is_intersection),
    {
        match self {
            LogCondition::LogAll => true,
            LogCondition::Intersection => is_intersection,
        }
    }
}

/// A ray: where it starts and where it points.
#[derive(Clone, Copy, Debug)]
pub struct Ray<T> {
    pub origin: crate::utils::utils_se3::optima_rotation::Vector3<T>,
    pub dir: crate::utils::utils_se3::optima_rotation::Vector3<T>,
}

} // verus!
