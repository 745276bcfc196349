use crate::utils::utils_se3::optima_rotation::{UnitQuaternion, Vector3};
use vstd::prelude::*;

verus! {

/// A pose as a unit quaternion and a translation, the form in which a dual
/// quaternion is held.
#[derive(Clone, Copy, Debug)]
pub struct ImplicitDualQuaternion<T> {
    pub rotation: UnitQuaternion<T>,
    pub translation: Vector3<T>,
}

impl<T: Copy> ImplicitDualQuaternion<T> {
    pub fn new(rotation: UnitQuaternion<T>, translation: Vector3<T>) -> (r: Self)
        ensures
            r == (ImplicitDualQuaternion { rotation, translation }),
    {
        ImplicitDualQuaternion { rotation, translation }
    }

    pub fn rotation(&self) -> (r: &UnitQuaternion<T>)
        ensures
            r == &self.rotation,
    {
        &self.rotation
    }

    pub fn translation(&self) -> (r: &Vector3<T>)
        ensures
            r == &self.translation,
    {
        &self.translation
    }
}

} // verus!
