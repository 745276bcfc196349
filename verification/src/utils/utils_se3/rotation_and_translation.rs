use crate::utils::utils_se3::optima_rotation::{OptimaRotation, Vector3};
use vstd::prelude::*;

verus! {

/// A pose as a rotation, in either representation, and a translation.
#[derive(Clone, Copy, Debug)]
pub struct RotationAndTranslation<T> {
    pub rotation: OptimaRotation<T>,
    pub translation: Vector3<T>,
}

impl<T: Copy> RotationAndTranslation<T> {
    pub fn new(rotation: OptimaRotation<T>, translation: Vector3<T>) -> (r: Self)
        ensures
            r == (RotationAndTranslation { rotation, translation }),
    {
        RotationAndTranslation { rotation, translation }
    }

    pub fn rotation(&self) -> (r: &OptimaRotation<T>)
        ensures
            r == &self.rotation,
    {
        &self.rotation
    }

    pub fn translation(&self) -> (r: &Vector3<T>)
        ensures
            r == &self.translation,
    {
        &self.translation
    }
}

} // verus!
