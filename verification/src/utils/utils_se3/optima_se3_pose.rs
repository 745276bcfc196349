use crate::utils::utils_errors::OptimaError;
use crate::utils::utils_se3::homogeneous_matrix::HomogeneousMatrix;
use crate::utils::utils_se3::implicit_dual_quaternion::ImplicitDualQuaternion;
use crate::utils::utils_se3::optima_rotation::{
    OperandResolution, OptimaRotation, Rotation3, UnitQuaternion, Vector3,
};
use crate::utils::utils_se3::rotation_and_translation::RotationAndTranslation;
use vstd::prelude::*;

verus! {

/// The representations of a pose.
#[derive(Clone, Copy, Debug, PartialEq, Eq, Structural)]
pub enum OptimaSE3PoseType {
    ImplicitDualQuaternion,
    HomogeneousMatrix,
    UnitQuaternionAndTranslation,
    RotationMatrixAndTranslation,
}

/// A rigid transform in one of its representations, with the tag of that
/// representation.
#[derive(Clone, Copy, Debug)]
pub enum OptimaSE3Pose<T> {
    ImplicitDualQuaternion { data: ImplicitDualQuaternion<T>, pose_type: OptimaSE3PoseType },
    HomogeneousMatrix { data: HomogeneousMatrix<T>, pose_type: OptimaSE3PoseType },
    RotationAndTranslation { data: RotationAndTranslation<T>, pose_type: OptimaSE3PoseType },
}

/// How the representations of two operands resolve: equal ones directly, different
/// ones by converting the right operand where that is permitted, and else not at
/// all.
pub open spec fn resolve_pose_types(
    left: OptimaSE3PoseType,
    right: OptimaSE3PoseType,
    conversion_if_necessary: bool,
) -> Result<OperandResolution<OptimaSE3PoseType>, OptimaError> {
    if left == right {
        Ok(OperandResolution::Direct(left))
    } else if conversion_if_necessary {
        Ok(OperandResolution::ConvertRight(left))
    } else {
        Err(OptimaError::IncompatibleRepresentation)
    }
}

impl<T: Copy> OptimaSE3Pose<T> {
    /// The representation that the variant and, for a rotation with a translation,
    /// the rotation stand for.
    pub open spec fn spec_variant_type(&self) -> OptimaSE3PoseType {
        match self {
            OptimaSE3Pose::ImplicitDualQuaternion { .. } => OptimaSE3PoseType::ImplicitDualQuaternion,
            OptimaSE3Pose::HomogeneousMatrix { .. } => OptimaSE3PoseType::HomogeneousMatrix,
            OptimaSE3Pose::RotationAndTranslation { data, .. } => match data.rotation {
                OptimaRotation::RotationMatrix { .. } => OptimaSE3PoseType::RotationMatrixAndTranslation,
                OptimaRotation::UnitQuaternion { .. } => OptimaSE3PoseType::UnitQuaternionAndTranslation,
            },
        }
    }

    /// The tag that the value carries.
    pub open spec fn spec_pose_type(&self) -> OptimaSE3PoseType {
        match self {
            OptimaSE3Pose::ImplicitDualQuaternion { pose_type, .. } => *pose_type,
            OptimaSE3Pose::HomogeneousMatrix { pose_type, .. } => *pose_type,
            OptimaSE3Pose::RotationAndTranslation { pose_type, .. } => *pose_type,
        }
    }

    /// The tag names the variant, and the tag of a rotation inside names its own.
    pub open spec fn wf(&self) -> bool {
        &&& self.spec_pose_type() == self.spec_variant_type()
        &&& self matches OptimaSE3Pose::RotationAndTranslation { data, .. } ==> data.rotation.wf()
    }

    pub fn new_implicit_dual_quaternion(data: ImplicitDualQuaternion<T>) -> (r: Self)
        ensures
            r == (OptimaSE3Pose::ImplicitDualQuaternion {
                data,
                pose_type: OptimaSE3PoseType::ImplicitDualQuaternion,
            }),
            r.wf(),
    {
        OptimaSE3Pose::ImplicitDualQuaternion {
            data,
            pose_type: OptimaSE3PoseType::ImplicitDualQuaternion,
        }
    }

    pub fn new_homogeneous_matrix(data: HomogeneousMatrix<T>) -> (r: Self)
        ensures
            r == (OptimaSE3Pose::HomogeneousMatrix {
                data,
                pose_type: OptimaSE3PoseType::HomogeneousMatrix,
            }),
            r.wf(),
    {
        OptimaSE3Pose::HomogeneousMatrix { data, pose_type: OptimaSE3PoseType::HomogeneousMatrix }
    }

    /// The tag follows the representation of the rotation.
    pub fn new_rotation_and_translation(data: RotationAndTranslation<T>) -> (r: Self)
        ensures
            r == (OptimaSE3Pose::RotationAndTranslation {
                data,
                pose_type: match data.rotation {
                    OptimaRotation::RotationMatrix { .. } => OptimaSE3PoseType::RotationMatrixAndTranslation,
                    OptimaRotation::UnitQuaternion { .. } => OptimaSE3PoseType::UnitQuaternionAndTranslation,
                },
            }),
            data.rotation.wf() ==> r.wf(),
    {
        match data.rotation {
            OptimaRotation::RotationMatrix { .. } => OptimaSE3Pose::RotationAndTranslation {
                data,
                pose_type: OptimaSE3PoseType::RotationMatrixAndTranslation,
            },
            OptimaRotation::UnitQuaternion { .. } => OptimaSE3Pose::RotationAndTranslation {
                data,
                pose_type: OptimaSE3PoseType::UnitQuaternionAndTranslation,
            },
        }
    }

    pub fn new_unit_quaternion_and_translation(q: UnitQuaternion<T>, t: Vector3<T>) -> (r: Self)
        ensures
            r == (OptimaSE3Pose::RotationAndTranslation {
                data: RotationAndTranslation {
                    rotation: OptimaRotation::UnitQuaternion {
                        data: q,
                        rotation_type: crate::utils::utils_se3::optima_rotation::OptimaRotationType::UnitQuaternion,
                    },
                    translation: t,
                },
                pose_type: OptimaSE3PoseType::UnitQuaternionAndTranslation,
            }),
            r.wf(),
    {
        Self::new_rotation_and_translation(
            RotationAndTranslation::new(OptimaRotation::new_unit_quaternion(q), t),
        )
    }

    pub fn new_rotation_matrix_and_translation(m: Rotation3<T>, t: Vector3<T>) -> (r: Self)
        ensures
            r == (OptimaSE3Pose::RotationAndTranslation {
                data: RotationAndTranslation {
                    rotation: OptimaRotation::RotationMatrix {
                        data: m,
                        rotation_type: crate::utils::utils_se3::optima_rotation::OptimaRotationType::RotationMatrix,
                    },
                    translation: t,
                },
                pose_type: OptimaSE3PoseType::RotationMatrixAndTranslation,
            }),
            r.wf(),
    {
        Self::new_rotation_and_translation(
            RotationAndTranslation::new(OptimaRotation::new_rotation_matrix(m), t),
        )
    }

    /// The tag of the representation.
    pub fn get_pose_type(&self) -> (r: OptimaSE3PoseType)
        ensures
            r == self.spec_pose_type(),
    {
        match self {
            OptimaSE3Pose::ImplicitDualQuaternion { data: _, pose_type } => *pose_type,
            OptimaSE3Pose::HomogeneousMatrix { data: _, pose_type } => *pose_type,
            OptimaSE3Pose::RotationAndTranslation { data: _, pose_type } => *pose_type,
        }
    }

    /// Whether the two poses are in the same representation.
    pub fn are_types_compatible(a: &Self, b: &Self) -> (r: bool)
        ensures
            r == (a.spec_pose_type() == b.spec_pose_type()),
    {
        a.get_pose_type() == b.get_pose_type()
    }

    /// Compares the representations of the two operands of a product, a
    /// displacement or a distance. Operands in one representation are used as they
    /// are. Operands in two representations are an error unless conversion is
    /// permitted, and then the right one is converted to the representation of the
    /// left one.
    pub fn resolve_operands(&self, other: &Self, conversion_if_necessary: bool) -> (r: Result<
        OperandResolution<OptimaSE3PoseType>,
        OptimaError,
    >)
        ensures
            r == resolve_pose_types(
                self.spec_pose_type(),
                other.spec_pose_type(),
                conversion_if_necessary,
            ),
    {
        if Self::are_types_compatible(self, other) {
            Ok(OperandResolution::Direct(self.get_pose_type()))
        } else if conversion_if_necessary {
            Ok(OperandResolution::ConvertRight(self.get_pose_type()))
        } else {
            Err(OptimaError::IncompatibleRepresentation)
        }
    }

    /// Applies an operation to two poses once they are in one representation: a
    /// product, a displacement or a distance, as `operation` computes it. Operands
    /// in one representation go to the operation as they are. Operands in two
    /// representations are an error unless conversion is permitted, and then the
    /// operation gets the right operand as `convert` converts it to the
    /// representation of the left operand.
    pub fn operate<O, C: Fn(Self, OptimaSE3PoseType) -> Self, F: Fn(Self, Self) -> O>(
        &self,
        other: &Self,
        conversion_if_necessary: bool,
        convert: C,
        operation: F,
    ) -> (r: Result<O, OptimaError>)
        requires
            forall|pose: Self, target: OptimaSE3PoseType| convert.requires((pose, target)),
            forall|left: Self, right: Self| operation.requires((left, right)),
        ensures
            match resolve_pose_types(
                self.spec_pose_type(),
                other.spec_pose_type(),
                conversion_if_necessary,
            ) {
                Err(e) => r == Err::<O, OptimaError>(e),
                Ok(OperandResolution::Direct(_)) => r is Ok && operation.ensures(
                    (*self, *other),
                    r->Ok_0,
                ),
                Ok(OperandResolution::ConvertRight(target)) => r is Ok && exists|converted: Self|
                    #[trigger] convert.ensures((*other, target), converted) && operation.ensures(
                        (*self, converted),
                        r->Ok_0,
                    ),
            },
    {
        match self.resolve_operands(other, conversion_if_necessary) {
            Err(e) => Err(e),
            Ok(OperandResolution::Direct(_)) => Ok(operation(*self, *other)),
            Ok(OperandResolution::ConvertRight(target)) => {
                let converted = convert(*other, target);
                Ok(operation(*self, converted))
            },
        }
    }

    /// Returns the homogeneous matrix, or an error where the pose is held otherwise.
    pub fn unwrap_homogeneous_matrix(&self) -> (r: Result<&HomogeneousMatrix<T>, OptimaError>)
        ensures
            match self {
                OptimaSE3Pose::HomogeneousMatrix { data, .. } => r == Ok::<
                    &HomogeneousMatrix<T>,
                    OptimaError,
                >(data),
                _ => r == Err::<&HomogeneousMatrix<T>, OptimaError>(
                    OptimaError::IncompatibleRepresentation,
                ),
            },
    {
        match self {
            OptimaSE3Pose::HomogeneousMatrix { data, .. } => Ok(data),
            _ => Err(OptimaError::IncompatibleRepresentation),
        }
    }

    /// Returns the implicit dual quaternion, or an error where the pose is held
    /// otherwise.
    pub fn unwrap_implicit_dual_quaternion(&self) -> (r: Result<
        &ImplicitDualQuaternion<T>,
        OptimaError,
    >)
        ensures
            match self {
                OptimaSE3Pose::ImplicitDualQuaternion { data, .. } => r == Ok::<
                    &ImplicitDualQuaternion<T>,
                    OptimaError,
                >(data),
                _ => r == Err::<&ImplicitDualQuaternion<T>, OptimaError>(
                    OptimaError::IncompatibleRepresentation,
                ),
            },
    {
        match self {
            OptimaSE3Pose::ImplicitDualQuaternion { data, .. } => Ok(data),
            _ => Err(OptimaError::IncompatibleRepresentation),
        }
    }

    /// Returns the rotation and translation, or an error where the pose is held
    /// otherwise.
    pub fn unwrap_rotation_and_translation(&self) -> (r: Result<
        &RotationAndTranslation<T>,
        OptimaError,
    >)
        ensures
            match self {
                OptimaSE3Pose::RotationAndTranslation { data, .. } => r == Ok::<
                    &RotationAndTranslation<T>,
                    OptimaError,
                >(data),
                _ => r == Err::<&RotationAndTranslation<T>, OptimaError>(
                    OptimaError::IncompatibleRepresentation,
                ),
            },
    {
        match self {
            OptimaSE3Pose::RotationAndTranslation { data, .. } => Ok(data),
            _ => Err(OptimaError::IncompatibleRepresentation),
        }
    }
}

} // verus!
