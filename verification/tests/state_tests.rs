use optima::robot_modules::robot_model_module::RobotModelModule;
use optima::robot_modules::robot_state_module::{RobotState, RobotStateModule, RobotStateType};
use optima::utils::utils_errors::OptimaError;
use optima::utils::utils_robot::joint::{JointType, URDFJoint};
use optima::utils::utils_robot::link::URDFLink;

fn arm_model() -> RobotModelModule<f64> {
    let links: Vec<URDFLink> =
        ["base", "a", "b", "c"].iter().map(|n| URDFLink::new(n.to_string())).collect();
    let joints = vec![
        URDFJoint::new(
            "j0".to_string(),
            JointType::Revolute,
            "base".to_string(),
            "a".to_string(),
            None,
        ),
        URDFJoint::new("j1".to_string(), JointType::Planar, "a".to_string(), "b".to_string(), None),
        URDFJoint::new(
            "j2".to_string(),
            JointType::Prismatic,
            "b".to_string(),
            "c".to_string(),
            None,
        ),
    ];
    RobotModelModule::new("arm".to_string(), &links, &joints).unwrap()
}

#[test]
fn state_views_count_axes() {
    let mut model = arm_model();
    let module = RobotStateModule::new(&model);
    assert_eq!(module.num_axes(), 4);
    assert_eq!(module.num_dofs(), 4);
    model.set_fixed_joint_sub_dof(1, 0, Some(7.5)).unwrap();
    let module = RobotStateModule::new(&model);
    assert_eq!(module.num_axes(), 4);
    assert_eq!(module.num_dofs(), 3);
    assert_eq!(module.map_joint_idx_to_full_state_idxs(1).unwrap(), &vec![1, 2]);
    assert_eq!(module.map_joint_idx_to_dof_state_idxs(1).unwrap(), &vec![1]);
    assert_eq!(module.map_joint_idx_to_dof_state_idxs(2).unwrap(), &vec![2]);
    assert_eq!(
        module.map_joint_idx_to_full_state_idxs(3).err(),
        Some(OptimaError::IndexOutOfBounds { index: 3, length: 3 })
    );
    assert_eq!(
        module.map_joint_idx_to_dof_state_idxs(3).err(),
        Some(OptimaError::IndexOutOfBounds { index: 3, length: 3 })
    );
    model.set_joint_as_not_present(2).unwrap();
    let module = RobotStateModule::new(&model);
    assert_eq!(module.num_axes(), 3);
    assert_eq!(module.num_dofs(), 2);
    assert_eq!(module.ordered_joint_axes().len(), 3);
    assert_eq!(module.ordered_dof_joint_axes().len(), 2);
}

#[test]
fn dof_state_fills_in_fixed_values() {
    let mut model = arm_model();
    model.set_fixed_joint_sub_dof(1, 0, Some(7.5)).unwrap();
    let module = RobotStateModule::new(&model);
    let dof = module.spawn_robot_state(vec![0.1, 0.2, 0.3], RobotStateType::DOF).unwrap();
    let full = module.convert_state_to_full_state(&dof).unwrap();
    assert_eq!(full.robot_state_type(), RobotStateType::Full);
    assert_eq!(full.state(), &vec![0.1, 7.5, 0.2, 0.3]);
    let back = module.convert_state_to_dof_state(&full).unwrap();
    assert_eq!(back.robot_state_type(), RobotStateType::DOF);
    assert_eq!(back.state(), &vec![0.1, 0.2, 0.3]);
    // A state that is of the type already is returned as it is.
    assert_eq!(module.convert_state_to_full_state(&full).unwrap().state(), full.state());
    assert_eq!(module.convert_state_to_dof_state(&dof).unwrap().state(), dof.state());
}

#[test]
fn dof_round_trip_is_exact() {
    let mut model = arm_model();
    model.set_fixed_joint_sub_dof(0, 0, Some(-2.0)).unwrap();
    model.set_fixed_joint_sub_dof(1, 1, Some(9.0)).unwrap();
    let module = RobotStateModule::new(&model);
    let values = vec![0.1 + 0.2, f64::MIN_POSITIVE];
    let dof = module.spawn_robot_state(values.clone(), RobotStateType::DOF).unwrap();
    let full = module.convert_state_to_full_state(&dof).unwrap();
    assert_eq!(full.state(), &vec![-2.0, values[0], 9.0, values[1]]);
    let back = module.convert_state_to_dof_state(&full).unwrap();
    let bits: Vec<u64> = back.state().iter().map(|v| v.to_bits()).collect();
    let expected: Vec<u64> = values.iter().map(|v| v.to_bits()).collect();
    assert_eq!(bits, expected);
}

#[test]
fn states_of_wrong_length_are_rejected() {
    let model = arm_model();
    let module = RobotStateModule::new(&model);
    assert_eq!(
        module.spawn_robot_state(vec![0.0; 3], RobotStateType::Full).err(),
        Some(OptimaError::StateSizeMismatch { given: 3, expected: 4 })
    );
    assert_eq!(
        RobotState::new_dof_state(vec![0.0; 5], &module).err(),
        Some(OptimaError::StateSizeMismatch { given: 5, expected: 4 })
    );
    assert_eq!(
        RobotState::new_full_state(vec![0.0; 0], &module).err(),
        Some(OptimaError::StateSizeMismatch { given: 0, expected: 4 })
    );
    assert_eq!(
        module.spawn_robot_state_try_auto_type(vec![0.0; 2]).err(),
        Some(OptimaError::StateSizeMismatch { given: 2, expected: 4 })
    );
    // A state made for another model is checked again when it is converted.
    let mut other = arm_model();
    other.set_fixed_joint(1, Some(0.0)).unwrap();
    let other_module = RobotStateModule::new(&other);
    let dof = other_module.spawn_robot_state(vec![1.0, 2.0], RobotStateType::DOF).unwrap();
    assert_eq!(
        module.convert_state_to_full_state(&dof).err(),
        Some(OptimaError::StateSizeMismatch { given: 2, expected: 4 })
    );
    let full = other_module.convert_state_to_full_state(&dof).unwrap();
    assert_eq!(full.state(), &vec![1.0, 0.0, 0.0, 2.0]);
}

#[test]
fn auto_type_tries_dof_first() {
    let mut model = arm_model();
    // Without a fixed axis a dof state and a full state have one length.
    let module = RobotStateModule::new(&model);
    assert_eq!(module.num_dofs(), module.num_axes());
    let state = module.spawn_robot_state_try_auto_type(vec![0.0; 4]).unwrap();
    assert_eq!(state.robot_state_type(), RobotStateType::DOF);
    assert_eq!(state.state(), &vec![0.0; 4]);
    model.set_fixed_joint_sub_dof(2, 0, Some(1.0)).unwrap();
    let module = RobotStateModule::new(&model);
    let state = RobotState::new_try_auto_type(vec![0.0; 3], &module).unwrap();
    assert_eq!(state.robot_state_type(), RobotStateType::DOF);
    assert_eq!(state.len(), 3);
    assert_eq!(state.value(2), 0.0);
    let state = RobotState::new_try_auto_type(vec![0.5; 4], &module).unwrap();
    assert_eq!(state.robot_state_type(), RobotStateType::Full);
    assert_eq!(state.state(), &vec![0.5; 4]);
    assert_eq!(
        RobotState::new_try_auto_type(vec![0.0; 5], &module).err(),
        Some(OptimaError::StateSizeMismatch { given: 5, expected: 4 })
    );
}

#[test]
fn states_of_different_shape_do_not_add() {
    let mut model = arm_model();
    model.set_fixed_joint_sub_dof(2, 0, Some(1.0)).unwrap();
    let module = RobotStateModule::new(&model);
    let full = module.spawn_robot_state(vec![0.0; 4], RobotStateType::Full).unwrap();
    let dof = module.spawn_robot_state(vec![0.0; 3], RobotStateType::DOF).unwrap();
    assert_eq!(full.check_same_shape(&dof), Err(OptimaError::StateTypeMismatch));
    assert_eq!(full.check_same_shape(&full.duplicate()), Ok(()));
    let other_module = RobotStateModule::new(&arm_model());
    let longer = other_module.spawn_robot_state(vec![0.0; 4], RobotStateType::DOF).unwrap();
    assert_eq!(
        dof.check_same_shape(&longer),
        Err(OptimaError::StateSizeMismatch { given: 4, expected: 3 })
    );
}

#[test]
fn states_add_value_by_value() {
    let module = RobotStateModule::new(&arm_model());
    let a = module.spawn_robot_state(vec![1.0, 2.0, 3.0, 4.0], RobotStateType::DOF).unwrap();
    let b = module.spawn_robot_state(vec![0.5, 0.5, 0.5, 0.5], RobotStateType::DOF).unwrap();
    let sum = a.zip_with(&b, |x, y| x + y).unwrap();
    assert_eq!(sum.robot_state_type(), RobotStateType::DOF);
    assert_eq!(sum.state(), &vec![1.5, 2.5, 3.5, 4.5]);
    let doubled = a.map(|x| 2.0 * x);
    assert_eq!(doubled.robot_state_type(), RobotStateType::DOF);
    assert_eq!(doubled.state(), &vec![2.0, 4.0, 6.0, 8.0]);
    let full = module.spawn_robot_state(vec![0.0; 4], RobotStateType::Full).unwrap();
    assert_eq!(a.zip_with(&full, |x, y| x + y).err(), Some(OptimaError::StateTypeMismatch));
}
