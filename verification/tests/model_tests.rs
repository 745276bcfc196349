use optima::robot_modules::robot_kinematics_module::RobotKinematicsModule;
use optima::robot_modules::robot_model_module::RobotModelModule;
use optima::utils::utils_errors::OptimaError;
use optima::utils::utils_robot::joint::{
    ContiguousChainMobilityMode, JointAxisPrimitiveType, JointType, URDFJoint,
};
use optima::utils::utils_robot::link::URDFLink;

fn link(name: &str) -> URDFLink {
    URDFLink::new(name.to_string())
}

fn joint(name: &str, joint_type: JointType, parent: &str, child: &str) -> URDFJoint<f64> {
    URDFJoint::new(
        name.to_string(),
        joint_type,
        parent.to_string(),
        child.to_string(),
        Some((-1.0, 1.0)),
    )
}

/// The tree of six links drawn as
/// ```text
///         0
///        / \
///      2    3
///     / \    \
///    1  4     5
/// ```
fn six_link_model() -> RobotModelModule<f64> {
    let links = vec![link("l0"), link("l1"), link("l2"), link("l3"), link("l4"), link("l5")];
    let joints = vec![
        joint("j0", JointType::Revolute, "l0", "l2"),
        joint("j1", JointType::Fixed, "l0", "l3"),
        joint("j2", JointType::Prismatic, "l2", "l1"),
        joint("j3", JointType::Fixed, "l2", "l4"),
        joint("j4", JointType::Fixed, "l3", "l5"),
    ];
    RobotModelModule::new("six".to_string(), &links, &joints).unwrap()
}

#[test]
fn build_two_link_robot() {
    let links = vec![link("base"), link("arm")];
    let joints = vec![joint("shoulder", JointType::Revolute, "base", "arm")];
    let model = RobotModelModule::new("two_link".to_string(), &links, &joints).unwrap();
    assert_eq!(model.robot_name(), "two_link");
    assert_eq!(model.world_link_idx(), 0);
    assert_eq!(model.robot_base_link_idx(), 0);
    assert_eq!(model.link_tree_traversal_layers(), &vec![vec![0], vec![1]]);
    assert_eq!(model.link_tree_max_depth(), 1);
    assert_eq!(model.links()[1].preceding_link_idx(), Some(0));
    assert_eq!(model.links()[1].preceding_joint_idx(), Some(0));
    assert_eq!(model.links()[0].children_link_idxs(), &vec![1]);
    assert_eq!(model.joints()[0].preceding_link_idx(), Some(0));
    assert_eq!(model.joints()[0].child_link_idx(), Some(1));
    assert_eq!(model.joints()[0].num_dofs(), 1);
    assert_eq!(
        model.joints()[0].joint_axes()[0].axis_primitive_type(),
        JointAxisPrimitiveType::Rotation
    );
    assert_eq!(model.joints()[0].joint_axes()[0].bounds(), Some((-1.0, 1.0)));
}

#[test]
fn layers_partition_links_by_depth() {
    let model = six_link_model();
    assert_eq!(model.link_tree_traversal_layers(), &vec![vec![0], vec![2, 3], vec![1, 4, 5]]);
    assert_eq!(model.link_tree_max_depth(), 2);
    for i in 0..6 {
        let layer = model.get_link_tree_traversal_layer(i).unwrap();
        let holding: Vec<usize> = (0..3)
            .filter(|k| model.link_tree_traversal_layers()[*k].contains(&i))
            .collect();
        assert_eq!(holding, vec![layer]);
        if let Some(parent) = model.links()[i].preceding_link_idx() {
            assert_eq!(layer, model.get_link_tree_traversal_layer(parent).unwrap() + 1);
        } else {
            assert_eq!(layer, 0);
        }
    }
}

#[test]
fn link_chains_lead_from_ancestor_to_descendant() {
    let model = six_link_model();
    for i in 0..6 {
        assert_eq!(model.get_link_chain(i, i).unwrap(), Some(&vec![i]));
    }
    assert_eq!(model.get_link_chain(0, 1).unwrap(), Some(&vec![0, 2, 1]));
    assert_eq!(model.get_link_chain(2, 4).unwrap(), Some(&vec![2, 4]));
    assert_eq!(model.get_link_chain(0, 5).unwrap(), Some(&vec![0, 3, 5]));
    assert_eq!(model.get_link_chain(1, 0).unwrap(), None);
    assert_eq!(model.get_link_chain(2, 3).unwrap(), None);
    assert_eq!(model.get_link_chain(3, 4).unwrap(), None);
    for a in 0..6 {
        for b in 0..6 {
            if let Some(chain) = model.get_link_chain(a, b).unwrap() {
                assert_eq!(chain[0], a);
                assert_eq!(chain[chain.len() - 1], b);
                if a != b {
                    assert_eq!(model.get_link_chain(b, a).unwrap(), None);
                }
            }
        }
    }
}

#[test]
fn link_chain_reports_index_out_of_bounds() {
    let model = six_link_model();
    assert_eq!(
        model.get_link_chain(6, 0),
        Err(OptimaError::IndexOutOfBounds { index: 6, length: 6 })
    );
    assert_eq!(
        model.get_link_chain(0, 9),
        Err(OptimaError::IndexOutOfBounds { index: 9, length: 6 })
    );
    assert_eq!(
        model.get_link_chain(7, 9),
        Err(OptimaError::IndexOutOfBounds { index: 7, length: 6 })
    );
}

#[test]
fn build_rejects_unknown_link_name() {
    let links = vec![link("base"), link("arm")];
    let joints = vec![joint("shoulder", JointType::Revolute, "base", "hand")];
    let r = RobotModelModule::new("broken".to_string(), &links, &joints);
    assert!(matches!(r, Err(OptimaError::MalformedGraph)));
}

#[test]
fn build_rejects_two_roots() {
    let links = vec![link("a"), link("b"), link("c")];
    let joints = vec![joint("j", JointType::Fixed, "a", "b")];
    let r = RobotModelModule::new("broken".to_string(), &links, &joints);
    assert!(matches!(r, Err(OptimaError::MalformedGraph)));
}

#[test]
fn build_rejects_no_links() {
    let links: Vec<URDFLink> = vec![];
    let joints: Vec<URDFJoint<f64>> = vec![];
    let r = RobotModelModule::new("empty".to_string(), &links, &joints);
    assert!(matches!(r, Err(OptimaError::MalformedGraph)));
}

#[test]
fn build_rejects_cycle() {
    let links = vec![link("root"), link("a"), link("b")];
    let joints =
        vec![joint("j0", JointType::Fixed, "a", "b"), joint("j1", JointType::Fixed, "b", "a")];
    let r = RobotModelModule::new("broken".to_string(), &links, &joints);
    assert!(matches!(r, Err(OptimaError::MalformedGraph)));
}

#[test]
fn build_rejects_link_with_two_parents() {
    let links = vec![link("root"), link("a"), link("b")];
    let joints = vec![
        joint("j0", JointType::Fixed, "root", "a"),
        joint("j1", JointType::Fixed, "root", "b"),
        joint("j2", JointType::Fixed, "a", "b"),
    ];
    let r = RobotModelModule::new("broken".to_string(), &links, &joints);
    assert!(matches!(r, Err(OptimaError::MalformedGraph)));
}

#[test]
fn build_rejects_links_that_share_a_name() {
    let links = vec![link("root"), link("a"), link("a")];
    let joints = vec![joint("j0", JointType::Fixed, "root", "a")];
    let r = RobotModelModule::new("broken".to_string(), &links, &joints);
    assert!(matches!(r, Err(OptimaError::MalformedGraph)));
}

#[test]
fn build_accepts_joints_that_share_a_name() {
    let links = vec![link("root"), link("a"), link("b")];
    let joints =
        vec![joint("j", JointType::Fixed, "root", "a"), joint("j", JointType::Revolute, "a", "b")];
    let model = RobotModelModule::new("twice".to_string(), &links, &joints).unwrap();
    assert_eq!(model.links().len(), 3);
    assert_eq!(model.joints().len(), 2);
    assert_eq!(model.joints()[0].name(), "j");
    assert_eq!(model.joints()[1].name(), "j");
    // Each link names the joint that leads to it, whatever the joints are called.
    assert_eq!(model.links()[1].preceding_joint_idx(), Some(0));
    assert_eq!(model.links()[2].preceding_joint_idx(), Some(1));
    assert_eq!(model.get_joint_idx_from_name(&"j".to_string()), Some(1));
    assert_eq!(model.link_tree_traversal_layers(), &vec![vec![0], vec![1], vec![2]]);
}

#[test]
fn deepest_layer_is_counted_from_zero() {
    let links = vec![link("only")];
    let joints: Vec<URDFJoint<f64>> = vec![];
    let model = RobotModelModule::new("one".to_string(), &links, &joints).unwrap();
    assert_eq!(model.link_tree_traversal_layers(), &vec![vec![0]]);
    assert_eq!(model.link_tree_max_depth(), 0);
    let mut model = six_link_model();
    assert_eq!(model.link_tree_max_depth(), 2);
    model
        .add_contiguous_chain_link_and_joint(&ContiguousChainMobilityMode::PlanarRotation, 0)
        .unwrap();
    assert_eq!(model.link_tree_max_depth(), 3);
}

#[test]
fn build_accepts_root_that_is_not_first() {
    let links = vec![link("hand"), link("arm"), link("base")];
    let joints = vec![
        joint("wrist", JointType::Revolute, "arm", "hand"),
        joint("shoulder", JointType::Revolute, "base", "arm"),
    ];
    let model = RobotModelModule::new("reversed".to_string(), &links, &joints).unwrap();
    assert_eq!(model.world_link_idx(), 2);
    assert_eq!(model.link_tree_traversal_layers(), &vec![vec![2], vec![1], vec![0]]);
    assert_eq!(model.get_link_chain(2, 0).unwrap(), Some(&vec![2, 1, 0]));
}

#[test]
fn lookups_by_index_and_name() {
    let model = six_link_model();
    assert_eq!(model.get_link_by_idx(3).unwrap().name(), "l3");
    assert!(matches!(
        model.get_link_by_idx(6),
        Err(OptimaError::IndexOutOfBounds { index: 6, length: 6 })
    ));
    assert_eq!(model.get_joint_by_idx(4).unwrap().name(), "j4");
    assert!(matches!(
        model.get_joint_by_idx(5),
        Err(OptimaError::IndexOutOfBounds { index: 5, length: 5 })
    ));
    assert_eq!(model.get_link_idx_from_name(&"l4".to_string()), Some(4));
    assert_eq!(model.get_link_idx_from_name(&"nothing".to_string()), None);
    assert_eq!(model.get_joint_idx_from_name(&"j2".to_string()), Some(2));
    assert_eq!(model.get_joint_idx_from_name(&"l2".to_string()), None);
}

#[test]
fn switching_links_off_and_on() {
    let mut model = six_link_model();
    assert_eq!(model.set_link_as_not_present(2), Ok(()));
    assert!(!model.links()[2].present());
    assert!(!model.joints()[2].present());
    assert!(!model.joints()[3].present());
    assert!(model.joints()[0].present());
    // The layers are left as they are until they are computed anew.
    assert_eq!(model.link_tree_traversal_layers(), &vec![vec![0], vec![2, 3], vec![1, 4, 5]]);
    model.set_link_tree_traversal_info();
    assert_eq!(model.link_tree_traversal_layers(), &vec![vec![0], vec![3], vec![5]]);
    assert_eq!(model.link_tree_max_depth(), 2);
    assert_eq!(
        model.get_link_tree_traversal_layer(1),
        Err(OptimaError::LinkNotTraversed { link_idx: 1 })
    );
    assert_eq!(
        model.get_link_tree_traversal_layer(6),
        Err(OptimaError::IndexOutOfBounds { index: 6, length: 6 })
    );
    assert_eq!(model.set_link_as_present(2), Ok(()));
    model.set_link_tree_traversal_info();
    assert_eq!(model.link_tree_traversal_layers(), &vec![vec![0], vec![2, 3], vec![1, 4, 5]]);
    assert!(model.joints()[2].present());
    // The root of the description is never switched off.
    assert_eq!(model.set_link_as_not_present(0), Ok(()));
    assert!(model.links()[0].present());
    assert_eq!(
        model.set_link_as_not_present(6),
        Err(OptimaError::IndexOutOfBounds { index: 6, length: 6 })
    );
    assert_eq!(
        model.set_link_as_present(6),
        Err(OptimaError::IndexOutOfBounds { index: 6, length: 6 })
    );
    assert_eq!(model.set_joint_as_not_present(1), Ok(()));
    assert!(!model.joints()[1].present());
    assert_eq!(model.set_joint_as_present(1), Ok(()));
    assert!(model.joints()[1].present());
    assert_eq!(
        model.set_joint_as_present(5),
        Err(OptimaError::IndexOutOfBounds { index: 5, length: 5 })
    );
}

#[test]
fn nearest_actuated_joints() {
    let mut model = six_link_model();
    assert_eq!(model.get_preceding_actuated_joint_idx(0), None);
    assert_eq!(model.get_preceding_actuated_joint_idx(2), Some(0));
    assert_eq!(model.get_preceding_actuated_joint_idx(1), Some(2));
    assert_eq!(model.get_preceding_actuated_joint_idx(4), Some(0));
    assert_eq!(model.get_preceding_actuated_joint_idx(5), None);
    assert_eq!(model.get_all_link_idxs_with_given_preceding_actuated_joint_idx(0), vec![2, 4]);
    assert_eq!(model.get_all_link_idxs_with_given_preceding_actuated_joint_idx(2), vec![1]);
    assert_eq!(
        model.get_all_link_idxs_with_given_preceding_actuated_joint_idx(1),
        Vec::<usize>::new()
    );
    // Fixing the one axis of joint 2 leaves link 1 with joint 0 as the nearest.
    assert_eq!(model.set_fixed_joint(2, Some(0.25)), Ok(()));
    assert_eq!(model.joints()[2].num_dofs(), 0);
    assert_eq!(model.joints()[2].joint_axes()[0].fixed_value(), Some(0.25));
    assert_eq!(model.get_preceding_actuated_joint_idx(1), Some(0));
    model.set_preceding_actuated_joint_idxs();
    assert_eq!(model.get_all_link_idxs_with_given_preceding_actuated_joint_idx(0), vec![1, 2, 4]);
    assert_eq!(model.set_fixed_joint_sub_dof(2, 0, None), Ok(()));
    assert_eq!(model.joints()[2].num_dofs(), 1);
    assert_eq!(
        model.set_fixed_joint_sub_dof(2, 1, Some(1.0)),
        Err(OptimaError::IndexOutOfBounds { index: 1, length: 1 })
    );
    assert_eq!(
        model.set_fixed_joint_sub_dof(9, 0, Some(1.0)),
        Err(OptimaError::IndexOutOfBounds { index: 9, length: 5 })
    );
    assert_eq!(
        model.set_fixed_joint(9, Some(1.0)),
        Err(OptimaError::IndexOutOfBounds { index: 9, length: 5 })
    );
}

#[test]
fn deepest_link_of_a_list() {
    let model = six_link_model();
    assert_eq!(model.get_link_with_highest_tree_traversal_layer(&vec![3]), Ok(3));
    assert_eq!(model.get_link_with_highest_tree_traversal_layer(&vec![0, 2, 3]), Ok(3));
    assert_eq!(model.get_link_with_highest_tree_traversal_layer(&vec![1, 2, 4, 0]), Ok(4));
    assert_eq!(
        model.get_link_with_highest_tree_traversal_layer(&vec![]),
        Err(OptimaError::IndexOutOfBounds { index: 0, length: 0 })
    );
    assert_eq!(
        model.get_link_with_highest_tree_traversal_layer(&vec![1, 8]),
        Err(OptimaError::IndexOutOfBounds { index: 8, length: 6 })
    );
}

#[test]
fn downstream_links() {
    let model = six_link_model();
    assert_eq!(model.get_all_downstream_links(0), Ok(vec![0, 2, 3, 1, 4, 5]));
    assert_eq!(model.get_all_downstream_links(3), Ok(vec![3, 5]));
    assert_eq!(model.get_all_downstream_links(2), Ok(vec![2, 1, 4]));
    assert_eq!(model.get_all_downstream_links(5), Ok(vec![5]));
    assert_eq!(
        model.get_all_downstream_links(6),
        Err(OptimaError::IndexOutOfBounds { index: 6, length: 6 })
    );
}

#[test]
fn mobile_base_ahead_of_the_root() {
    let mut model = six_link_model();
    assert_eq!(
        model.add_contiguous_chain_link_and_joint(&ContiguousChainMobilityMode::Static, 0),
        Ok(())
    );
    assert_eq!(model.links().len(), 6);
    assert_eq!(
        model.add_contiguous_chain_link_and_joint(&ContiguousChainMobilityMode::Floating, 7),
        Err(OptimaError::IndexOutOfBounds { index: 7, length: 6 })
    );
    assert_eq!(
        model.add_contiguous_chain_link_and_joint(&ContiguousChainMobilityMode::Floating, 2),
        Err(OptimaError::MalformedGraph)
    );
    assert_eq!(
        model.add_contiguous_chain_link_and_joint(&ContiguousChainMobilityMode::Floating, 0),
        Ok(())
    );
    assert_eq!(model.links().len(), 7);
    assert_eq!(model.joints().len(), 6);
    assert_eq!(model.world_link_idx(), 0);
    assert_eq!(model.robot_base_link_idx(), 6);
    assert_eq!(model.links()[6].name(), "base_of_chain_link");
    assert_eq!(model.links()[6].preceding_link_idx(), None);
    assert_eq!(model.links()[6].children_link_idxs(), &vec![0]);
    assert_eq!(model.links()[0].preceding_link_idx(), Some(6));
    assert_eq!(model.links()[0].preceding_joint_idx(), Some(5));
    assert_eq!(model.joints()[5].name(), "base_of_chain_connector_joint");
    assert_eq!(model.joints()[5].joint_type(), JointType::Floating);
    assert_eq!(model.joints()[5].num_dofs(), 6);
    assert_eq!(
        model.link_tree_traversal_layers(),
        &vec![vec![6], vec![0], vec![2, 3], vec![1, 4, 5]]
    );
    assert_eq!(model.get_link_chain(6, 4).unwrap(), Some(&vec![6, 0, 2, 4]));
    assert_eq!(model.get_preceding_actuated_joint_idx(5), Some(5));
}

#[test]
fn forward_kinematics_visits_parents_first() {
    let model = six_link_model();
    let steps = RobotKinematicsModule::compute_fk_steps(&model);
    let order: Vec<usize> = steps.iter().map(|s| s.link_idx).collect();
    assert_eq!(order, vec![0, 2, 3, 1, 4, 5]);
    assert_eq!(steps[0].preceding_link_idx, None);
    assert_eq!(steps[0].preceding_joint_idx, None);
    assert_eq!(steps[3].preceding_link_idx, Some(2));
    assert_eq!(steps[3].preceding_joint_idx, Some(2));
    for (s, step) in steps.iter().enumerate() {
        if let Some(parent) = step.preceding_link_idx {
            assert!(order[..s].contains(&parent));
        }
    }
}
