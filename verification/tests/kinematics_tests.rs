use nalgebra::{Isometry3, Point3, Translation3, UnitQuaternion, Vector3};
use optima::robot_modules::robot_kinematics_module::{RobotFKResult, RobotKinematicsModule};
use optima::robot_modules::robot_model_module::RobotModelModule;
use optima::robot_modules::robot_state_module::{RobotState, RobotStateModule, RobotStateType};
use optima::utils::utils_robot::joint::{JointType, URDFJoint};
use optima::utils::utils_robot::link::URDFLink;
use optima::utils::utils_se3::optima_rotation;
use optima::utils::utils_se3::optima_se3_pose::OptimaSE3Pose;

/// Forward kinematics of a robot whose joints all turn about the z axis at the
/// origin: the traversal is the library's, the products are nalgebra's.
fn poses_of(
    model: &RobotModelModule<f64>,
    states: &RobotStateModule<f64>,
    state: &RobotState<f64>,
) -> RobotFKResult<f64> {
    let identity = as_pose(&Isometry3::identity());
    RobotKinematicsModule::compute_fk(model, states, state, identity, |parent, _joint, values| {
        let mut pose = as_isometry(&parent);
        for value in values {
            let turn = UnitQuaternion::from_axis_angle(&Vector3::z_axis(), *value);
            pose *= Isometry3::from_parts(Translation3::identity(), turn);
        }
        as_pose(&pose)
    })
    .unwrap()
}

fn as_pose(pose: &Isometry3<f64>) -> OptimaSE3Pose<f64> {
    let q = pose.rotation;
    OptimaSE3Pose::new_unit_quaternion_and_translation(
        optima_rotation::UnitQuaternion { i: q.i, j: q.j, k: q.k, w: q.w },
        optima_rotation::Vector3 {
            x: pose.translation.x,
            y: pose.translation.y,
            z: pose.translation.z,
        },
    )
}

fn as_isometry(pose: &OptimaSE3Pose<f64>) -> Isometry3<f64> {
    let data = pose.unwrap_rotation_and_translation().unwrap();
    let q = data.rotation().unwrap_unit_quaternion().unwrap();
    let t = data.translation();
    Isometry3::from_parts(
        Translation3::new(t.x, t.y, t.z),
        UnitQuaternion::from_quaternion(nalgebra::Quaternion::new(q.w, q.i, q.j, q.k)),
    )
}

fn two_link_robot() -> (RobotModelModule<f64>, RobotStateModule<f64>) {
    let links = vec![URDFLink::new("base".to_string()), URDFLink::new("arm".to_string())];
    let joints = vec![URDFJoint::new(
        "shoulder".to_string(),
        JointType::Revolute,
        "base".to_string(),
        "arm".to_string(),
        None,
    )];
    let model = RobotModelModule::new("two".to_string(), &links, &joints).unwrap();
    let states = RobotStateModule::new(&model);
    (model, states)
}

#[test]
fn child_pose_is_identity_at_angle_zero() {
    let (model, states) = two_link_robot();
    let state = states.spawn_robot_state(vec![0.0], RobotStateType::Full).unwrap();
    let fk = poses_of(&model, &states, &state);
    let child = as_isometry(fk.link_entries()[1].pose().as_ref().unwrap());
    assert!((child.to_homogeneous() - Isometry3::<f64>::identity().to_homogeneous()).norm() < 1e-12);
    let root = as_isometry(fk.link_entries()[0].pose().as_ref().unwrap());
    assert!((root.to_homogeneous() - Isometry3::<f64>::identity().to_homogeneous()).norm() < 1e-12);
}

#[test]
fn quarter_turn_maps_x_to_y() {
    let (model, states) = two_link_robot();
    let state = states
        .spawn_robot_state(vec![std::f64::consts::FRAC_PI_2], RobotStateType::DOF)
        .unwrap();
    let fk = poses_of(&model, &states, &state);
    let child = as_isometry(fk.link_entries()[1].pose().as_ref().unwrap());
    let mapped = child * Point3::new(1.0, 0.0, 0.0);
    assert!((mapped - Point3::new(0.0, 1.0, 0.0)).norm() < 1e-12);
}

#[test]
fn forward_kinematics_repeats_bit_for_bit() {
    let (model, states) = two_link_robot();
    let state = states.spawn_robot_state(vec![0.3], RobotStateType::Full).unwrap();
    let bits = |fk: &RobotFKResult<f64>| -> Vec<u64> {
        fk.link_entries()
            .iter()
            .flat_map(|e| {
                let data = e.pose().as_ref().unwrap().unwrap_rotation_and_translation().unwrap();
                let q = data.rotation().unwrap_unit_quaternion().unwrap();
                vec![q.i.to_bits(), q.j.to_bits(), q.k.to_bits(), q.w.to_bits()]
            })
            .collect()
    };
    let first = poses_of(&model, &states, &state);
    let second = poses_of(&model, &states, &state);
    assert_eq!(bits(&first), bits(&second));
    assert_eq!(
        RobotKinematicsModule::compute_fk_steps(&model),
        RobotKinematicsModule::compute_fk_steps(&model)
    );
}

#[test]
fn links_that_are_switched_off_have_no_pose() {
    let links: Vec<URDFLink> =
        ["base", "a", "b", "c"].iter().map(|n| URDFLink::new(n.to_string())).collect();
    let joints: Vec<URDFJoint<f64>> = [("j0", "base", "a"), ("j1", "a", "b"), ("j2", "base", "c")]
        .iter()
        .map(|(n, p, c)| {
            URDFJoint::new(n.to_string(), JointType::Revolute, p.to_string(), c.to_string(), None)
        })
        .collect();
    let mut model = RobotModelModule::new("four".to_string(), &links, &joints).unwrap();
    model.set_link_as_not_present(1).unwrap();
    // With the layers as they were, the link and the links below it have no pose.
    let stale_states = RobotStateModule::new(&model);
    let stale_state = stale_states.spawn_robot_state(vec![0.5, 0.25], RobotStateType::Full).unwrap();
    let stale = poses_of(&model, &stale_states, &stale_state);
    let has_pose: Vec<bool> = stale.link_entries().iter().map(|e| e.pose().is_some()).collect();
    assert_eq!(has_pose, vec![true, false, false, true]);
    model.set_link_tree_traversal_info();
    let states = RobotStateModule::new(&model);
    assert_eq!(states.num_axes(), 2);
    let state = states.spawn_robot_state(vec![0.5, 0.25], RobotStateType::Full).unwrap();
    let fk = poses_of(&model, &states, &state);
    let has_pose: Vec<bool> = fk.link_entries().iter().map(|e| e.pose().is_some()).collect();
    assert_eq!(has_pose, vec![true, false, false, true]);
    let c = as_isometry(fk.link_entries()[3].pose().as_ref().unwrap());
    assert!((c.rotation.angle() - 0.25).abs() < 1e-12);
}

#[test]
fn forward_kinematics_rejects_states_of_wrong_length() {
    let (model, states) = two_link_robot();
    let other = RobotStateModule::new(
        &RobotModelModule::<f64>::new(
            "one".to_string(),
            &vec![URDFLink::new("only".to_string())],
            &vec![],
        )
        .unwrap(),
    );
    let empty = other.spawn_robot_state(vec![], RobotStateType::Full).unwrap();
    let identity = as_pose(&Isometry3::identity());
    let r = RobotKinematicsModule::compute_fk(&model, &states, &empty, identity, |p, _, _| p);
    assert_eq!(
        r.err(),
        Some(optima::utils::utils_errors::OptimaError::StateSizeMismatch { given: 0, expected: 1 })
    );
    let r = RobotKinematicsModule::compute_fk(&model, &other, &empty, identity, |p, _, _| p);
    assert_eq!(
        r.err(),
        Some(optima::utils::utils_errors::OptimaError::IndexOutOfBounds { index: 1, length: 0 })
    );
}
