use crate::robot_modules::robot_model_module::{link_agrees, RobotModelModule};
use crate::robot_modules::robot_state_module::{joint_values, RobotState, RobotStateModule};
use crate::utils::utils_errors::OptimaError;
use crate::utils::utils_robot::joint::JointAxis;
use crate::utils::utils_robot::link::Link;
use crate::utils::utils_robot::traversal::{
    layer_is_ascending, layer_is_at_depth, layer_is_reached, lemma_root_path_extends_parent,
    link_is_placed, path_is_present,
};
use crate::utils::utils_robot::link_tree::is_path_between;
use crate::utils::utils_se3::optima_se3_pose::OptimaSE3Pose;
use vstd::prelude::*;

verus! {

/// What forward kinematics found for one link: its pose in the world, or nothing
/// where the link is not part of the traversal.
#[derive(Clone, Copy, Debug)]
pub struct RobotFKResultLinkEntry<T> {
    pub link_idx: usize,
    pub pose: Option<OptimaSE3Pose<T>>,
}

impl<T: Copy> RobotFKResultLinkEntry<T> {
    pub fn link_idx(&self) -> (r: usize)
        ensures
            r == self.link_idx,
    {
        self.link_idx
    }

    pub fn pose(&self) -> (r: &Option<OptimaSE3Pose<T>>)
        ensures
            r == &self.pose,
    {
        &self.pose
    }
}

/// The result of forward kinematics: one entry for each link, in the order of the
/// links.
pub struct RobotFKResult<T> {
    link_entries: Vec<RobotFKResultLinkEntry<T>>,
}

impl<T> View for RobotFKResult<T> {
    type V = Seq<RobotFKResultLinkEntry<T>>;

    closed spec fn view(&self) -> Seq<RobotFKResultLinkEntry<T>> {
        self.link_entries@
    }
}

impl<T: Copy> RobotFKResult<T> {
    /// A result for `num_links` links in which no link has a pose yet.
    pub fn new_empty(num_links: usize) -> (r: Self)
        ensures
            r@.len() == num_links,
            forall|i: int|
                0 <= i < num_links ==> #[trigger] r@[i] == (RobotFKResultLinkEntry::<T> {
                    link_idx: i as usize,
                    pose: None,
                }),
    {
        let mut link_entries: Vec<RobotFKResultLinkEntry<T>> = Vec::new();
        let mut i: usize = 0;
        while i < num_links
            invariant
                i <= num_links,
                link_entries@.len() == i,
                forall|a: int|
                    0 <= a < i ==> #[trigger] link_entries@[a] == (RobotFKResultLinkEntry::<T> {
                        link_idx: a as usize,
                        pose: None,
                    }),
            decreases num_links - i,
        {
            link_entries.push(RobotFKResultLinkEntry { link_idx: i, pose: None });
            i += 1;
        }
        RobotFKResult { link_entries }
    }

    /// Records the pose of a link.
    pub fn set_pose(&mut self, link_idx: usize, pose: OptimaSE3Pose<T>) -> (r: Result<
        (),
        OptimaError,
    >)
        ensures
            link_idx < old(self)@.len() ==> {
                &&& r == Ok::<(), OptimaError>(())
                &&& final(self)@ == old(self)@.update(
                    link_idx as int,
                    (RobotFKResultLinkEntry { pose: Some(pose), ..old(self)@[link_idx as int] }),
                )
            },
            link_idx >= old(self)@.len() ==> {
                &&& r == Err::<(), OptimaError>(
                    OptimaError::IndexOutOfBounds {
                        index: link_idx,
                        length: old(self)@.len() as usize,
                    },
                )
                &&& final(self)@ == old(self)@
            },
    {
        if link_idx >= self.link_entries.len() {
            return Err(
                OptimaError::IndexOutOfBounds { index: link_idx, length: self.link_entries.len() },
            );
        }
        self.link_entries[link_idx].pose = Some(pose);
        Ok(())
    }

    /// The entries in the order of the links.
    pub fn link_entries(&self) -> (r: &Vec<RobotFKResultLinkEntry<T>>)
        ensures
            r@ == self@,
    {
        &self.link_entries
    }
}

/// One step of forward kinematics: the pose of link `link_idx` is the pose of its
/// parent composed with the transform of the joint that leads to it. The root has
/// neither: its pose is the identity.
#[derive(Clone, Copy, Debug, PartialEq, Eq, Structural)]
pub struct RobotFKStep {
    pub link_idx: usize,
    pub preceding_link_idx: Option<usize>,
    pub preceding_joint_idx: Option<usize>,
}

/// The links of the first `upto` layers, layer after layer.
pub open spec fn layers_flattened(layers: Seq<Vec<usize>>, upto: int) -> Seq<usize>
    decreases upto,
{
    if upto <= 0 {
        Seq::empty()
    } else {
        layers_flattened(layers, upto - 1) + layers[upto - 1]@
    }
}

/// The step that computes the pose of link `link_idx`.
pub open spec fn fk_step_of(links: Seq<Link>, link_idx: usize) -> RobotFKStep {
    RobotFKStep {
        link_idx,
        preceding_link_idx: links[link_idx as int].preceding_link_idx,
        preceding_joint_idx: links[link_idx as int].preceding_joint_idx,
    }
}

/// Entry `x` of layer `k` stands in the flattened layers after all earlier layers.
pub proof fn lemma_flattened_holds_layer(layers: Seq<Vec<usize>>, upto: int, k: int, x: int)
    requires
        0 <= k < upto <= layers.len(),
        0 <= x < layers[k]@.len(),
    ensures
        layers_flattened(layers, k).len() + x < layers_flattened(layers, upto).len(),
        layers_flattened(layers, upto)[layers_flattened(layers, k).len() + x] == layers[k]@[x],
    decreases upto,
{
    if k == upto - 1 {
    } else {
        lemma_flattened_holds_layer(layers, upto - 1, k, x);
    }
}

/// Every position of the flattened layers is an entry of one of the layers.
pub proof fn lemma_flattened_position(layers: Seq<Vec<usize>>, upto: int, s: int) -> (place: (
    int,
    int,
))
    requires
        0 <= upto <= layers.len(),
        0 <= s < layers_flattened(layers, upto).len(),
    ensures
        0 <= place.0 < upto,
        0 <= place.1 < layers[place.0]@.len(),
        s == layers_flattened(layers, place.0).len() + place.1,
        layers_flattened(layers, upto)[s] == layers[place.0]@[place.1],
    decreases upto,
{
    let before = layers_flattened(layers, upto - 1);
    if s < before.len() {
        lemma_flattened_position(layers, upto - 1, s)
    } else {
        (upto - 1, s - before.len())
    }
}

/// The flattened layers grow with the number of layers.
pub proof fn lemma_flattened_grows(layers: Seq<Vec<usize>>, a: int, b: int)
    requires
        0 <= a <= b <= layers.len(),
    ensures
        layers_flattened(layers, a).len() <= layers_flattened(layers, b).len(),
    decreases b - a,
{
    if a < b {
        lemma_flattened_grows(layers, a, b - 1);
    }
}

/// `values` are the values of the axes of the joint, and the transform of the joint
/// at these values takes `parent_pose` to `pose`.
pub open spec fn transform_gives<T, F: Fn(OptimaSE3Pose<T>, usize, &Vec<T>) -> OptimaSE3Pose<T>>(
    joint_transform: F,
    parent_pose: OptimaSE3Pose<T>,
    joint_idx: usize,
    values_of_joint: Seq<T>,
    values: Vec<T>,
    pose: OptimaSE3Pose<T>,
) -> bool {
    values@ == values_of_joint && joint_transform.ensures((parent_pose, joint_idx, &values), pose)
}

/// The transform gives one pose for one parent pose, joint and values of the axes.
pub open spec fn transform_is_a_function<
    T,
    F: Fn(OptimaSE3Pose<T>, usize, &Vec<T>) -> OptimaSE3Pose<T>,
>(joint_transform: F) -> bool {
    forall|
        parent_pose: OptimaSE3Pose<T>,
        joint_idx: usize,
        values_of_joint: Seq<T>,
        one: Vec<T>,
        other: Vec<T>,
        first: OptimaSE3Pose<T>,
        second: OptimaSE3Pose<T>,
    |
        #[trigger] transform_gives(
            joint_transform,
            parent_pose,
            joint_idx,
            values_of_joint,
            one,
            first,
        ) && #[trigger] transform_gives(
            joint_transform,
            parent_pose,
            joint_idx,
            values_of_joint,
            other,
            second,
        ) ==> first == second
}

/// `pose` is what forward kinematics makes of the entry of the parent of link
/// `link_idx`: the root has the pose of the root; a link that is not present has
/// no pose, and neither has a link whose parent has none; any other link has the
/// pose of its parent taken along by the transform of the joint that leads to the
/// link, at the values which the state gives to the axes of that joint.
pub open spec fn pose_follows<T, F: Fn(OptimaSE3Pose<T>, usize, &Vec<T>) -> OptimaSE3Pose<T>>(
    links: Seq<Link>,
    axes: Seq<JointAxis<T>>,
    full_state: Seq<T>,
    root_pose: OptimaSE3Pose<T>,
    joint_transform: F,
    entries: Seq<RobotFKResultLinkEntry<T>>,
    link_idx: int,
    pose: Option<OptimaSE3Pose<T>>,
) -> bool {
    match links[link_idx].preceding_link_idx {
        None => pose == Some(root_pose),
        Some(parent) => if !links[link_idx].present {
            pose is None
        } else {
            match entries[parent as int].pose {
                None => pose is None,
                Some(parent_pose) => {
                    &&& pose is Some
                    &&& exists|values: Vec<T>|
                        #[trigger] transform_gives(
                            joint_transform,
                            parent_pose,
                            links[link_idx].preceding_joint_idx->0,
                            joint_values(
                                axes,
                                full_state,
                                links[link_idx].preceding_joint_idx->0 as int,
                            ),
                            values,
                            pose->0,
                        )
                },
            }
        },
    }
}

/// The entry of link `link_idx` is what forward kinematics makes of the entry of
/// its parent.
pub open spec fn fk_entry_follows<T, F: Fn(OptimaSE3Pose<T>, usize, &Vec<T>) -> OptimaSE3Pose<T>>(
    links: Seq<Link>,
    axes: Seq<JointAxis<T>>,
    full_state: Seq<T>,
    root_pose: OptimaSE3Pose<T>,
    joint_transform: F,
    entries: Seq<RobotFKResultLinkEntry<T>>,
    link_idx: int,
) -> bool {
    pose_follows(
        links,
        axes,
        full_state,
        root_pose,
        joint_transform,
        entries,
        link_idx,
        entries[link_idx].pose,
    )
}

/// The entries are the result of forward kinematics over the links `traversal`:
/// there is an entry for each link, a link that is not traversed has no pose, and
/// the entry of every traversed link follows from that of its parent.
pub open spec fn is_fk_result<T, F: Fn(OptimaSE3Pose<T>, usize, &Vec<T>) -> OptimaSE3Pose<T>>(
    links: Seq<Link>,
    traversal: Seq<usize>,
    axes: Seq<JointAxis<T>>,
    full_state: Seq<T>,
    root_pose: OptimaSE3Pose<T>,
    joint_transform: F,
    entries: Seq<RobotFKResultLinkEntry<T>>,
) -> bool {
    &&& entries.len() == links.len()
    &&& forall|i: int| 0 <= i < links.len() ==> (#[trigger] entries[i]).link_idx == i
    &&& forall|i: int|
        0 <= i < links.len() && !traversal.contains(i as usize) ==> (#[trigger] entries[i]).pose is None
    &&& forall|s: int|
        0 <= s < traversal.len() ==> fk_entry_follows(
            links,
            axes,
            full_state,
            root_pose,
            joint_transform,
            entries,
            (#[trigger] traversal[s]) as int,
        )
}

/// The order in which forward kinematics computes the poses of the links.
pub struct RobotKinematicsModule {}

impl RobotKinematicsModule {
    /// The steps of forward kinematics in the order of the traversal layers: layer
    /// after layer, and within a layer in its order.
    pub fn compute_fk_steps<T: Copy>(robot_model_module: &RobotModelModule<T>) -> (r: Vec<
        RobotFKStep,
    >)
        requires
            robot_model_module.wf(),
        ensures
            r@.len() == layers_flattened(
                robot_model_module.spec_link_tree_traversal_layers(),
                robot_model_module.spec_link_tree_traversal_layers().len() as int,
            ).len(),
            forall|s: int|
                0 <= s < r@.len() ==> #[trigger] r@[s] == fk_step_of(
                    robot_model_module.spec_links(),
                    layers_flattened(
                        robot_model_module.spec_link_tree_traversal_layers(),
                        robot_model_module.spec_link_tree_traversal_layers().len() as int,
                    )[s],
                ),
    {
        let layers = robot_model_module.link_tree_traversal_layers();
        let links = robot_model_module.links();
        let mut steps: Vec<RobotFKStep> = Vec::new();
        let mut k: usize = 0;
        while k < layers.len()
            invariant
                robot_model_module.wf(),
                layers@ == robot_model_module.spec_link_tree_traversal_layers(),
                links@ == robot_model_module.spec_links(),
                k <= layers@.len(),
                steps@.len() == layers_flattened(layers@, k as int).len(),
                forall|s: int|
                    0 <= s < steps@.len() ==> #[trigger] steps@[s] == fk_step_of(
                        links@,
                        layers_flattened(layers@, k as int)[s],
                    ),
            decreases layers@.len() - k,
        {
            let layer = &layers[k];
            let ghost before = layers_flattened(layers@, k as int);
            assert(layer_is_at_depth(
                links@,
                robot_model_module.spec_root_paths(),
                layer@,
                k as int,
            ));
            let mut x: usize = 0;
            while x < layer.len()
                invariant
                    x <= layer@.len(),
                    layer_is_at_depth(
                        links@,
                        robot_model_module.spec_root_paths(),
                        layer@,
                        k as int,
                    ),
                    steps@.len() == before.len() + x,
                    forall|s: int|
                        0 <= s < steps@.len() ==> #[trigger] steps@[s] == fk_step_of(
                            links@,
                            (before + layer@.subrange(0, x as int))[s],
                        ),
                decreases layer@.len() - x,
            {
                let link_idx = layer[x];
                assert(layer@[x as int] < links@.len());
                let link = &links[link_idx];
                steps.push(
                    RobotFKStep {
                        link_idx,
                        preceding_link_idx: link.preceding_link_idx,
                        preceding_joint_idx: link.preceding_joint_idx,
                    },
                );
                assert((before + layer@.subrange(0, x as int)).push(layer@[x as int]) =~= before
                    + layer@.subrange(0, x + 1));
                x += 1;
            }
            assert(layer@.subrange(0, layer@.len() as int) =~= layer@);
            k += 1;
        }
        steps
    }

    /// With current layers, the parent of every link in the traversal but the root
    /// stands earlier in the traversal, so that its pose is there when the pose of
    /// the link is computed; and every such link is present.
    pub proof fn lemma_parent_is_computed_first<T: Copy>(
        robot_model_module: &RobotModelModule<T>,
        s: int,
    ) -> (earlier: int)
        requires
            robot_model_module.wf(),
            robot_model_module.layers_current(),
            0 <= s < layers_flattened(
                robot_model_module.spec_link_tree_traversal_layers(),
                robot_model_module.spec_link_tree_traversal_layers().len() as int,
            ).len(),
            layers_flattened(
                robot_model_module.spec_link_tree_traversal_layers(),
                robot_model_module.spec_link_tree_traversal_layers().len() as int,
            )[s] != robot_model_module.spec_robot_base_link_idx(),
        ensures
            0 <= earlier < s,
            robot_model_module.spec_links()[layers_flattened(
                robot_model_module.spec_link_tree_traversal_layers(),
                robot_model_module.spec_link_tree_traversal_layers().len() as int,
            )[s] as int].preceding_link_idx == Some(
                layers_flattened(
                    robot_model_module.spec_link_tree_traversal_layers(),
                    robot_model_module.spec_link_tree_traversal_layers().len() as int,
                )[earlier],
            ),
            robot_model_module.spec_links()[layers_flattened(
                robot_model_module.spec_link_tree_traversal_layers(),
                robot_model_module.spec_link_tree_traversal_layers().len() as int,
            )[s] as int].present,
    {
        let layers = robot_model_module.spec_link_tree_traversal_layers();
        let links = robot_model_module.spec_links();
        let root_paths = robot_model_module.spec_root_paths();
        let root = robot_model_module.spec_robot_base_link_idx() as int;
        let num_layers = layers.len() as int;
        let (k, x) = lemma_flattened_position(layers, num_layers, s);
        let link = layers[k]@[x];
        assert(layer_is_at_depth(links, root_paths, layers[k]@, k));
        assert(layer_is_reached(links, root_paths, layers[k]@));
        assert(link < links.len());
        let path = root_paths[link as int]@;
        assert(path_is_present(links, path));
        assert(is_path_between(links, path, root, link as int));
        assert(robot_model_module.spec_links().len() <= usize::MAX) by {
            robot_model_module.lemma_links_fit();
        }
        lemma_root_path_extends_parent(links, root_paths, root, link as int);
        let parent = links[link as int].preceding_link_idx->0;
        let parent_path = root_paths[parent as int]@;
        assert(path[path.len() - 1] == link);
        assert(k >= 1);
        assert(links[path[k] as int].present);
        assert(path_is_present(links, parent_path)) by {
            assert forall|a: int| 1 <= a < parent_path.len() implies links[(
            #[trigger] parent_path[a]) as int].present by {
                assert(parent_path[a] == path[a]);
            }
        }
        assert(link_is_placed(links, root_paths, layers, links.len() as int, parent as int));
        let previous = layers[k - 1]@;
        let w = choose|w: int| 0 <= w < previous.len() && previous[w] == parent;
        lemma_flattened_holds_layer(layers, num_layers, k - 1, w);
        lemma_flattened_holds_layer(layers, k, k - 1, w);
        layers_flattened(layers, k - 1).len() + w
    }
}

impl RobotKinematicsModule {
    /// The links of the traversal layers, layer after layer.
    pub open spec fn spec_traversal<T: Copy>(robot_model_module: &RobotModelModule<T>) -> Seq<
        usize,
    > {
        layers_flattened(
            robot_model_module.spec_link_tree_traversal_layers(),
            robot_model_module.spec_link_tree_traversal_layers().len() as int,
        )
    }

    /// Along the traversal the depth of the links does not shrink, and no link
    /// comes twice.
    pub proof fn lemma_traversal_goes_down<T: Copy>(
        robot_model_module: &RobotModelModule<T>,
        first: int,
        second: int,
    )
        requires
            robot_model_module.wf(),
            0 <= first < second < Self::spec_traversal(robot_model_module).len(),
        ensures
            Self::spec_traversal(robot_model_module)[first] < robot_model_module.spec_links().len(),
            Self::spec_traversal(robot_model_module)[second]
                < robot_model_module.spec_links().len(),
            robot_model_module.spec_link_depth(
                Self::spec_traversal(robot_model_module)[first] as int,
            ) <= robot_model_module.spec_link_depth(
                Self::spec_traversal(robot_model_module)[second] as int,
            ),
            Self::spec_traversal(robot_model_module)[first] != Self::spec_traversal(
                robot_model_module,
            )[second],
    {
        let layers = robot_model_module.spec_link_tree_traversal_layers();
        let links = robot_model_module.spec_links();
        let root_paths = robot_model_module.spec_root_paths();
        let num_layers = layers.len() as int;
        let (k1, w1) = lemma_flattened_position(layers, num_layers, first);
        let (k2, w2) = lemma_flattened_position(layers, num_layers, second);
        assert(layer_is_at_depth(links, root_paths, layers[k1]@, k1));
        assert(layer_is_at_depth(links, root_paths, layers[k2]@, k2));
        assert(layer_is_ascending(layers[k1]@));
        assert(layers[k1]@[w1] < links.len());
        assert(layers[k2]@[w2] < links.len());
        if k1 > k2 {
            lemma_flattened_grows(layers, k2 + 1, k1);
            assert(layers_flattened(layers, k2 + 1).len() == layers_flattened(layers, k2).len()
                + layers[k2]@.len());
        }
    }

    /// Forward kinematics: the pose of every link that the traversal layers hold,
    /// root first. The root has the pose `root_pose`; every other link has the pose
    /// of its parent, taken along by `joint_transform` for the joint that leads to
    /// the link and the values which the state gives to the axes of that joint. A
    /// dof state is first made a full state. Links that are not in the layers have
    /// no pose, and neither has a link that is not present or whose parent has
    /// none.
    ///
    /// A state of the wrong length is an error, and so are state views for another
    /// number of joints than the model has.
    pub fn compute_fk<T: Copy, F: Fn(OptimaSE3Pose<T>, usize, &Vec<T>) -> OptimaSE3Pose<T>>(
        robot_model_module: &RobotModelModule<T>,
        robot_state_module: &RobotStateModule<T>,
        state: &RobotState<T>,
        root_pose: OptimaSE3Pose<T>,
        joint_transform: F,
    ) -> (r: Result<RobotFKResult<T>, OptimaError>)
        requires
            robot_model_module.wf(),
            robot_state_module.wf(),
            forall|pose: OptimaSE3Pose<T>, joint_idx: usize, values: &Vec<T>|
                joint_transform.requires((pose, joint_idx, values)),
        ensures
            state@.len() != robot_state_module.spec_state_len(state.spec_robot_state_type()) ==> r
                == Err::<RobotFKResult<T>, OptimaError>(
                OptimaError::StateSizeMismatch {
                    given: state@.len() as usize,
                    expected: robot_state_module.spec_state_len(state.spec_robot_state_type()),
                },
            ),
            state@.len() == robot_state_module.spec_state_len(state.spec_robot_state_type())
                && robot_state_module.spec_joint_idx_to_full_state_idxs_mapping().len()
                != robot_model_module.spec_joints().len() ==> r == Err::<
                RobotFKResult<T>,
                OptimaError,
            >(
                OptimaError::IndexOutOfBounds {
                    index: robot_model_module.spec_joints().len() as usize,
                    length: robot_state_module.spec_joint_idx_to_full_state_idxs_mapping().len() as usize,
                },
            ),
            state@.len() == robot_state_module.spec_state_len(state.spec_robot_state_type())
                && robot_state_module.spec_joint_idx_to_full_state_idxs_mapping().len()
                == robot_model_module.spec_joints().len() ==> {
                &&& r is Ok
                &&& is_fk_result(
                    robot_model_module.spec_links(),
                    Self::spec_traversal(robot_model_module),
                    robot_state_module.spec_ordered_joint_axes(),
                    robot_state_module.spec_full_state(state),
                    root_pose,
                    joint_transform,
                    r->Ok_0@,
                )
            },
    {
        let full = match robot_state_module.convert_state_to_full_state(state) {
            Ok(full) => full,
            Err(e) => {
                return Err(e);
            },
        };
        let links = robot_model_module.links();
        let num_joints = robot_model_module.joints().len();
        if robot_state_module.num_joints() != num_joints {
            return Err(
                OptimaError::IndexOutOfBounds {
                    index: num_joints,
                    length: robot_state_module.num_joints(),
                },
            );
        }
        let steps = Self::compute_fk_steps(robot_model_module);
        let num_links = links.len();
        let mut result = RobotFKResult::new_empty(num_links);
        let ghost traversal = Self::spec_traversal(robot_model_module);
        let ghost axes = robot_state_module.spec_ordered_joint_axes();
        let ghost root = robot_model_module.spec_robot_base_link_idx() as int;
        let mut s: usize = 0;
        while s < steps.len()
            invariant
                robot_model_module.wf(),
                robot_state_module.wf(),
                forall|pose: OptimaSE3Pose<T>, joint_idx: usize, values: &Vec<T>|
                    joint_transform.requires((pose, joint_idx, values)),
                links@ == robot_model_module.spec_links(),
                num_links == links@.len(),
                num_joints == robot_model_module.spec_joints().len(),
                num_joints == robot_state_module.spec_joint_idx_to_full_state_idxs_mapping().len(),
                traversal == Self::spec_traversal(robot_model_module),
                axes == robot_state_module.spec_ordered_joint_axes(),
                root == robot_model_module.spec_robot_base_link_idx(),
                full@ == robot_state_module.spec_full_state(state),
                full@.len() == robot_state_module.spec_num_axes(),
                steps@.len() == traversal.len(),
                forall|x: int|
                    0 <= x < steps@.len() ==> #[trigger] steps@[x] == fk_step_of(
                        links@,
                        traversal[x],
                    ),
                s <= steps@.len(),
                result@.len() == num_links,
                forall|i: int| 0 <= i < num_links ==> (#[trigger] result@[i]).link_idx == i,
                forall|i: int|
                    0 <= i < num_links && !traversal.subrange(0, s as int).contains(i as usize)
                        ==> (#[trigger] result@[i]).pose is None,
                forall|x: int|
                    0 <= x < s ==> fk_entry_follows(
                        links@,
                        axes,
                        full@,
                        root_pose,
                        joint_transform,
                        result@,
                        (#[trigger] traversal[x]) as int,
                    ),
            decreases steps@.len() - s,
        {
            let step = steps[s];
            let link_idx = step.link_idx;
            let ghost before = result@;
            proof {
                assert(steps@[s as int] == fk_step_of(links@, traversal[s as int]));
                robot_model_module.lemma_links_fit();
                Self::lemma_traversal_holds_links(robot_model_module, s as int);
                assert(!traversal.subrange(0, s as int).contains(link_idx)) by {
                    if traversal.subrange(0, s as int).contains(link_idx) {
                        let w = choose|w: int|
                            0 <= w < s && traversal.subrange(0, s as int)[w] == link_idx;
                        Self::lemma_traversal_goes_down(robot_model_module, w, s as int);
                    }
                }
                assert(link_agrees(
                    links@,
                    robot_model_module.spec_joints(),
                    root,
                    link_idx as int,
                ));
            }
            let new_pose: Option<OptimaSE3Pose<T>> = match step.preceding_link_idx {
                None => Some(root_pose),
                Some(parent) => if !links[link_idx].present {
                    None
                } else {
                    match result.link_entries[parent].pose {
                        None => None,
                        Some(parent_pose) => {
                            let joint_idx = match step.preceding_joint_idx {
                                Some(j) => j,
                                None => 0,
                            };
                            let values = match robot_state_module.joint_values_of(&full, joint_idx) {
                                Ok(values) => values,
                                Err(e) => {
                                    assert(false);
                                    return Err(e);
                                },
                            };
                            let pose = joint_transform(parent_pose, joint_idx, &values);
                            proof {
                                let the_pose: Option<OptimaSE3Pose<T>> = Some(pose);
                                assert(transform_gives(
                                    joint_transform,
                                    parent_pose,
                                    links@[link_idx as int].preceding_joint_idx->0,
                                    joint_values(
                                        axes,
                                        full@,
                                        links@[link_idx as int].preceding_joint_idx->0 as int,
                                    ),
                                    values,
                                    the_pose->0,
                                ));
                                assert(pose_follows(
                                    links@,
                                    axes,
                                    full@,
                                    root_pose,
                                    joint_transform,
                                    before,
                                    link_idx as int,
                                    Some(pose),
                                ));
                            }
                            Some(pose)
                        },
                    }
                },
            };
            assert(pose_follows(
                links@,
                axes,
                full@,
                root_pose,
                joint_transform,
                before,
                link_idx as int,
                new_pose,
            ));
            assert(before[link_idx as int].pose is None);
            match new_pose {
                Some(pose) => {
                    result.link_entries[link_idx].pose = Some(pose);
                },
                None => {},
            }
            proof {
                let after = result@;
                let done = traversal.subrange(0, s as int);
                let more = traversal.subrange(0, s + 1);
                assert(more =~= done.push(link_idx));
                assert forall|i: int| 0 <= i < num_links && i != link_idx implies after[i]
                    == before[i] by {}
                assert(after[link_idx as int].link_idx == before[link_idx as int].link_idx);
                assert forall|i: int|
                    0 <= i < num_links && !more.contains(i as usize) implies (
                #[trigger] after[i]).pose is None by {
                    assert(more[s as int] == link_idx);
                    if done.contains(i as usize) {
                        let w = choose|w: int| 0 <= w < done.len() && done[w] == i as usize;
                        assert(more[w] == i as usize);
                    }
                }
                assert forall|x: int| 0 <= x < s + 1 implies fk_entry_follows(
                    links@,
                    axes,
                    full@,
                    root_pose,
                    joint_transform,
                    after,
                    (#[trigger] traversal[x]) as int,
                ) by {
                    if x < s {
                        let y = traversal[x] as int;
                        Self::lemma_traversal_goes_down(robot_model_module, x, s as int);
                        assert(fk_entry_follows(
                            links@,
                            axes,
                            full@,
                            root_pose,
                            joint_transform,
                            before,
                            y,
                        ));
                        assert(after[y] == before[y]);
                        if links@[y].preceding_link_idx is Some {
                            let py = links@[y].preceding_link_idx->0 as int;
                            assert(link_agrees(
                                links@,
                                robot_model_module.spec_joints(),
                                root,
                                y,
                            ));
                            // The parent of an earlier link is not this link, which is no higher.
                            lemma_root_path_extends_parent(
                                links@,
                                robot_model_module.spec_root_paths(),
                                root,
                                y,
                            );
                            assert(py != link_idx);
                            assert(after[py] == before[py]);
                        }
                        assert(pose_follows(
                            links@,
                            axes,
                            full@,
                            root_pose,
                            joint_transform,
                            after,
                            y,
                            before[y].pose,
                        ));
                    } else {
                        assert(after[link_idx as int].pose == new_pose);
                        if links@[link_idx as int].preceding_link_idx is Some {
                            let p = links@[link_idx as int].preceding_link_idx->0 as int;
                            lemma_root_path_extends_parent(
                                links@,
                                robot_model_module.spec_root_paths(),
                                root,
                                link_idx as int,
                            );
                            assert(p != link_idx);
                            assert(after[p] == before[p]);
                        }
                        assert(pose_follows(
                            links@,
                            axes,
                            full@,
                            root_pose,
                            joint_transform,
                            after,
                            link_idx as int,
                            new_pose,
                        ));
                    }
                }
            }
            s += 1;
        }
        proof {
            assert(traversal.subrange(0, traversal.len() as int) =~= traversal);
        }
        Ok(result)
    }

    /// Forward kinematics is determined by the model, the state and the transform:
    /// where the transform gives one pose for one parent pose, joint and values, two
    /// results of forward kinematics are the same, entry for entry.
    pub proof fn lemma_fk_is_determined<
        T: Copy,
        F: Fn(OptimaSE3Pose<T>, usize, &Vec<T>) -> OptimaSE3Pose<T>,
    >(
        robot_model_module: &RobotModelModule<T>,
        axes: Seq<JointAxis<T>>,
        full_state: Seq<T>,
        root_pose: OptimaSE3Pose<T>,
        joint_transform: F,
        first: Seq<RobotFKResultLinkEntry<T>>,
        second: Seq<RobotFKResultLinkEntry<T>>,
    )
        requires
            robot_model_module.wf(),
            transform_is_a_function(joint_transform),
            is_fk_result(
                robot_model_module.spec_links(),
                Self::spec_traversal(robot_model_module),
                axes,
                full_state,
                root_pose,
                joint_transform,
                first,
            ),
            is_fk_result(
                robot_model_module.spec_links(),
                Self::spec_traversal(robot_model_module),
                axes,
                full_state,
                root_pose,
                joint_transform,
                second,
            ),
        ensures
            first == second,
    {
        let traversal = Self::spec_traversal(robot_model_module);
        assert forall|i: int| 0 <= i < first.len() implies first[i] == second[i] by {
            if traversal.contains(i as usize) {
                let position = choose|s: int| 0 <= s < traversal.len() && traversal[s] == i as usize;
                Self::lemma_fk_entries_agree(
                    robot_model_module,
                    axes,
                    full_state,
                    root_pose,
                    joint_transform,
                    first,
                    second,
                    position,
                );
            }
        }
        assert(first =~= second);
    }

    proof fn lemma_fk_entries_agree<
        T: Copy,
        F: Fn(OptimaSE3Pose<T>, usize, &Vec<T>) -> OptimaSE3Pose<T>,
    >(
        robot_model_module: &RobotModelModule<T>,
        axes: Seq<JointAxis<T>>,
        full_state: Seq<T>,
        root_pose: OptimaSE3Pose<T>,
        joint_transform: F,
        first: Seq<RobotFKResultLinkEntry<T>>,
        second: Seq<RobotFKResultLinkEntry<T>>,
        position: int,
    )
        requires
            robot_model_module.wf(),
            transform_is_a_function(joint_transform),
            is_fk_result(
                robot_model_module.spec_links(),
                Self::spec_traversal(robot_model_module),
                axes,
                full_state,
                root_pose,
                joint_transform,
                first,
            ),
            is_fk_result(
                robot_model_module.spec_links(),
                Self::spec_traversal(robot_model_module),
                axes,
                full_state,
                root_pose,
                joint_transform,
                second,
            ),
            0 <= position < Self::spec_traversal(robot_model_module).len(),
        ensures
            first[Self::spec_traversal(robot_model_module)[position] as int].pose
                == second[Self::spec_traversal(robot_model_module)[position] as int].pose,
        decreases position,
    {
        let traversal = Self::spec_traversal(robot_model_module);
        let links = robot_model_module.spec_links();
        let root = robot_model_module.spec_robot_base_link_idx() as int;
        let link_idx = traversal[position] as int;
        Self::lemma_traversal_holds_links(robot_model_module, position);
        robot_model_module.lemma_links_fit();
        assert(fk_entry_follows(
            links,
            axes,
            full_state,
            root_pose,
            joint_transform,
            first,
            traversal[position] as int,
        ));
        assert(fk_entry_follows(
            links,
            axes,
            full_state,
            root_pose,
            joint_transform,
            second,
            traversal[position] as int,
        ));
        if links[link_idx].preceding_link_idx is Some && links[link_idx].present {
            let parent = links[link_idx].preceding_link_idx->0;
            assert(link_agrees(links, robot_model_module.spec_joints(), root, link_idx));
            lemma_root_path_extends_parent(
                links,
                robot_model_module.spec_root_paths(),
                root,
                link_idx,
            );
            if traversal.contains(parent) {
                let above = choose|s: int| 0 <= s < traversal.len() && traversal[s] == parent;
                if above > position {
                    Self::lemma_traversal_goes_down(robot_model_module, position, above);
                }
                Self::lemma_fk_entries_agree(
                    robot_model_module,
                    axes,
                    full_state,
                    root_pose,
                    joint_transform,
                    first,
                    second,
                    above,
                );
            }
            assert(first[parent as int].pose == second[parent as int].pose);
            if first[parent as int].pose is Some {
                let parent_pose = first[parent as int].pose->0;
                let joint_idx = links[link_idx].preceding_joint_idx->0;
                let values_of_joint = joint_values(axes, full_state, joint_idx as int);
                let one = choose|values: Vec<T>|
                    #[trigger] transform_gives(
                        joint_transform,
                        parent_pose,
                        joint_idx,
                        values_of_joint,
                        values,
                        first[link_idx].pose->0,
                    );
                let other = choose|values: Vec<T>|
                    #[trigger] transform_gives(
                        joint_transform,
                        parent_pose,
                        joint_idx,
                        values_of_joint,
                        values,
                        second[link_idx].pose->0,
                    );
                assert(transform_gives(
                    joint_transform,
                    parent_pose,
                    joint_idx,
                    values_of_joint,
                    one,
                    first[link_idx].pose->0,
                ));
                assert(transform_gives(
                    joint_transform,
                    parent_pose,
                    joint_idx,
                    values_of_joint,
                    other,
                    second[link_idx].pose->0,
                ));
            }
        }
    }

    /// With current layers, forward kinematics has a pose for every link of the
    /// traversal.
    pub proof fn lemma_fk_reaches_traversal<
        T: Copy,
        F: Fn(OptimaSE3Pose<T>, usize, &Vec<T>) -> OptimaSE3Pose<T>,
    >(
        robot_model_module: &RobotModelModule<T>,
        axes: Seq<JointAxis<T>>,
        full_state: Seq<T>,
        root_pose: OptimaSE3Pose<T>,
        joint_transform: F,
        entries: Seq<RobotFKResultLinkEntry<T>>,
        position: int,
    )
        requires
            robot_model_module.wf(),
            robot_model_module.layers_current(),
            is_fk_result(
                robot_model_module.spec_links(),
                Self::spec_traversal(robot_model_module),
                axes,
                full_state,
                root_pose,
                joint_transform,
                entries,
            ),
            0 <= position < Self::spec_traversal(robot_model_module).len(),
        ensures
            entries[Self::spec_traversal(robot_model_module)[position] as int].pose is Some,
        decreases position,
    {
        let traversal = Self::spec_traversal(robot_model_module);
        let link_idx = traversal[position];
        let links = robot_model_module.spec_links();
        assert(fk_entry_follows(
            links,
            axes,
            full_state,
            root_pose,
            joint_transform,
            entries,
            traversal[position] as int,
        ));
        if link_idx != robot_model_module.spec_robot_base_link_idx() {
            let earlier = Self::lemma_parent_is_computed_first(robot_model_module, position);
            Self::lemma_fk_reaches_traversal(
                robot_model_module,
                axes,
                full_state,
                root_pose,
                joint_transform,
                entries,
                earlier,
            );
        }
    }

    /// Every link of the traversal is a link of the model.
    pub proof fn lemma_traversal_holds_links<T: Copy>(
        robot_model_module: &RobotModelModule<T>,
        position: int,
    )
        requires
            robot_model_module.wf(),
            0 <= position < Self::spec_traversal(robot_model_module).len(),
        ensures
            Self::spec_traversal(robot_model_module)[position]
                < robot_model_module.spec_links().len(),
    {
        let layers = robot_model_module.spec_link_tree_traversal_layers();
        let (k, w) = lemma_flattened_position(layers, layers.len() as int, position);
        assert(layer_is_at_depth(
            robot_model_module.spec_links(),
            robot_model_module.spec_root_paths(),
            layers[k]@,
            k,
        ));
        assert(layers[k]@[w] < robot_model_module.spec_links().len());
    }
}

} // verus!
