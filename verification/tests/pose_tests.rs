use optima::utils::utils_errors::OptimaError;
use optima::utils::utils_se3::homogeneous_matrix::HomogeneousMatrix;
use optima::utils::utils_se3::implicit_dual_quaternion::ImplicitDualQuaternion;
use optima::utils::utils_se3::optima_rotation::{
    OperandResolution, OptimaRotation, OptimaRotationType, Rotation3, UnitQuaternion, Vector3,
};
use optima::utils::utils_se3::optima_se3_pose::{OptimaSE3Pose, OptimaSE3PoseType};
use optima::utils::utils_se3::rotation_and_translation::RotationAndTranslation;

fn identity_quaternion() -> UnitQuaternion<f64> {
    UnitQuaternion { i: 0.0, j: 0.0, k: 0.0, w: 1.0 }
}

fn identity_matrix() -> Rotation3<f64> {
    Rotation3 { rows: [[1.0, 0.0, 0.0], [0.0, 1.0, 0.0], [0.0, 0.0, 1.0]] }
}

fn origin() -> Vector3<f64> {
    Vector3 { x: 0.0, y: 0.0, z: 0.0 }
}

#[test]
fn poses_carry_the_tag_of_their_representation() {
    let idq = OptimaSE3Pose::new_implicit_dual_quaternion(ImplicitDualQuaternion::new(
        identity_quaternion(),
        origin(),
    ));
    assert_eq!(idq.get_pose_type(), OptimaSE3PoseType::ImplicitDualQuaternion);
    let rows = [[1.0, 0.0, 0.0, 0.0], [0.0, 1.0, 0.0, 0.0], [0.0, 0.0, 1.0, 0.0], [0.0, 0.0, 0.0, 1.0]];
    let hm = OptimaSE3Pose::new_homogeneous_matrix(HomogeneousMatrix::new(rows));
    assert_eq!(hm.get_pose_type(), OptimaSE3PoseType::HomogeneousMatrix);
    let qt = OptimaSE3Pose::new_unit_quaternion_and_translation(identity_quaternion(), origin());
    assert_eq!(qt.get_pose_type(), OptimaSE3PoseType::UnitQuaternionAndTranslation);
    let mt = OptimaSE3Pose::new_rotation_matrix_and_translation(identity_matrix(), origin());
    assert_eq!(mt.get_pose_type(), OptimaSE3PoseType::RotationMatrixAndTranslation);
    let rt = OptimaSE3Pose::new_rotation_and_translation(RotationAndTranslation::new(
        OptimaRotation::new_rotation_matrix(identity_matrix()),
        origin(),
    ));
    assert_eq!(rt.get_pose_type(), OptimaSE3PoseType::RotationMatrixAndTranslation);
    assert!(OptimaSE3Pose::are_types_compatible(&mt, &rt));
    assert!(!OptimaSE3Pose::are_types_compatible(&mt, &qt));
}

#[test]
fn operands_in_two_representations_need_permission() {
    let idq = OptimaSE3Pose::new_implicit_dual_quaternion(ImplicitDualQuaternion::new(
        identity_quaternion(),
        origin(),
    ));
    let qt = OptimaSE3Pose::new_unit_quaternion_and_translation(identity_quaternion(), origin());
    let mt = OptimaSE3Pose::new_rotation_matrix_and_translation(identity_matrix(), origin());
    assert_eq!(
        idq.resolve_operands(&idq, false),
        Ok(OperandResolution::Direct(OptimaSE3PoseType::ImplicitDualQuaternion))
    );
    assert_eq!(idq.resolve_operands(&qt, false), Err(OptimaError::IncompatibleRepresentation));
    assert_eq!(
        idq.resolve_operands(&qt, true),
        Ok(OperandResolution::ConvertRight(OptimaSE3PoseType::ImplicitDualQuaternion))
    );
    assert_eq!(qt.resolve_operands(&mt, false), Err(OptimaError::IncompatibleRepresentation));
    assert_eq!(
        mt.resolve_operands(&qt, true),
        Ok(OperandResolution::ConvertRight(OptimaSE3PoseType::RotationMatrixAndTranslation))
    );
}

#[test]
fn unwrapping_a_pose() {
    let qt = OptimaSE3Pose::new_unit_quaternion_and_translation(identity_quaternion(), origin());
    assert!(qt.unwrap_rotation_and_translation().is_ok());
    assert_eq!(
        qt.unwrap_homogeneous_matrix().err(),
        Some(OptimaError::IncompatibleRepresentation)
    );
    assert_eq!(
        qt.unwrap_implicit_dual_quaternion().err(),
        Some(OptimaError::IncompatibleRepresentation)
    );
    let idq = OptimaSE3Pose::new_implicit_dual_quaternion(ImplicitDualQuaternion::new(
        UnitQuaternion { i: 0.5, j: 0.5, k: 0.5, w: 0.5 },
        Vector3 { x: 1.0, y: 2.0, z: 3.0 },
    ));
    let data = idq.unwrap_implicit_dual_quaternion().unwrap();
    assert_eq!(data.rotation().k, 0.5);
    assert_eq!(data.translation().y, 2.0);
    assert_eq!(
        idq.unwrap_rotation_and_translation().err(),
        Some(OptimaError::IncompatibleRepresentation)
    );
}

#[test]
fn rotations_resolve_and_unwrap() {
    let q = OptimaRotation::new_unit_quaternion(identity_quaternion());
    let m = OptimaRotation::new_rotation_matrix(identity_matrix());
    assert_eq!(q.get_rotation_type(), OptimaRotationType::UnitQuaternion);
    assert_eq!(m.get_rotation_type(), OptimaRotationType::RotationMatrix);
    assert_eq!(
        q.resolve_operands(&q, false),
        Ok(OperandResolution::Direct(OptimaRotationType::UnitQuaternion))
    );
    assert_eq!(q.resolve_operands(&m, false), Err(OptimaError::IncompatibleRepresentation));
    assert_eq!(
        m.resolve_operands(&q, true),
        Ok(OperandResolution::ConvertRight(OptimaRotationType::RotationMatrix))
    );
    assert!(q.unwrap_unit_quaternion().is_ok());
    assert_eq!(q.unwrap_rotation_matrix().err(), Some(OptimaError::IncompatibleRepresentation));
    assert!(m.unwrap_rotation_matrix().is_ok());
    assert_eq!(m.unwrap_unit_quaternion().err(), Some(OptimaError::IncompatibleRepresentation));
}

#[test]
fn rotation_as_rows() {
    let q = OptimaRotation::new_unit_quaternion(UnitQuaternion { i: 0.1, j: 0.2, k: 0.3, w: 0.4 });
    assert_eq!(q.to_vec_representation(), vec![vec![0.1, 0.2, 0.3, 0.4]]);
    let m = OptimaRotation::new_rotation_matrix(Rotation3 {
        rows: [[1.0, 2.0, 3.0], [4.0, 5.0, 6.0], [7.0, 8.0, 9.0]],
    });
    assert_eq!(
        m.to_vec_representation(),
        vec![vec![1.0, 2.0, 3.0], vec![4.0, 5.0, 6.0], vec![7.0, 8.0, 9.0]]
    );
}

#[test]
fn operations_get_operands_in_one_representation() {
    let idq = OptimaSE3Pose::new_implicit_dual_quaternion(ImplicitDualQuaternion::new(
        identity_quaternion(),
        Vector3 { x: 1.0, y: 0.0, z: 0.0 },
    ));
    let qt = OptimaSE3Pose::new_unit_quaternion_and_translation(
        identity_quaternion(),
        Vector3 { x: 5.0, y: 0.0, z: 0.0 },
    );
    // Conversion between the two forms of a quaternion with a translation.
    let convert = |pose: OptimaSE3Pose<f64>, target: OptimaSE3PoseType| match (pose, target) {
        (
            OptimaSE3Pose::RotationAndTranslation { data, .. },
            OptimaSE3PoseType::ImplicitDualQuaternion,
        ) => OptimaSE3Pose::new_implicit_dual_quaternion(ImplicitDualQuaternion::new(
            *data.rotation().unwrap_unit_quaternion().unwrap(),
            *data.translation(),
        )),
        (other, _) => other,
    };
    // The sum of the translations along x, and the representations of the operands.
    let x_of = |pose: &OptimaSE3Pose<f64>| match pose {
        OptimaSE3Pose::ImplicitDualQuaternion { data, .. } => data.translation().x,
        OptimaSE3Pose::RotationAndTranslation { data, .. } => data.translation().x,
        OptimaSE3Pose::HomogeneousMatrix { data, .. } => data.rows()[0][3],
    };
    let operation = |l: OptimaSE3Pose<f64>, r: OptimaSE3Pose<f64>| {
        (x_of(&l) + x_of(&r), l.get_pose_type(), r.get_pose_type())
    };
    assert_eq!(
        idq.operate(&idq, false, convert, operation),
        Ok((
            2.0,
            OptimaSE3PoseType::ImplicitDualQuaternion,
            OptimaSE3PoseType::ImplicitDualQuaternion
        ))
    );
    assert_eq!(
        idq.operate(&qt, false, convert, operation),
        Err(OptimaError::IncompatibleRepresentation)
    );
    assert_eq!(
        idq.operate(&qt, true, convert, operation),
        Ok((
            6.0,
            OptimaSE3PoseType::ImplicitDualQuaternion,
            OptimaSE3PoseType::ImplicitDualQuaternion
        ))
    );
    let q = OptimaRotation::new_unit_quaternion(identity_quaternion());
    let m = OptimaRotation::new_rotation_matrix(identity_matrix());
    let kinds = |l: OptimaRotation<f64>, r: OptimaRotation<f64>| {
        (l.get_rotation_type(), r.get_rotation_type())
    };
    let to_quaternion =
        |_: OptimaRotation<f64>, _: OptimaRotationType| OptimaRotation::new_unit_quaternion(identity_quaternion());
    assert_eq!(
        q.operate(&m, true, to_quaternion, kinds),
        Ok((OptimaRotationType::UnitQuaternion, OptimaRotationType::UnitQuaternion))
    );
    assert_eq!(
        q.operate(&m, false, to_quaternion, kinds),
        Err(OptimaError::IncompatibleRepresentation)
    );
    assert_eq!(
        m.operate(&m, false, to_quaternion, kinds),
        Ok((OptimaRotationType::RotationMatrix, OptimaRotationType::RotationMatrix))
    );
}
