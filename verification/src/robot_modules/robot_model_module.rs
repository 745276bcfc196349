use crate::utils::utils_errors::OptimaError;
use crate::utils::utils_robot::description::{
    check_link_names_distinct, is_description_ranking,
    is_description_root, is_valid_description, joint_child, joint_leads_to, joint_parent,
    link_has_joint, resolve_joint_links,
};
use crate::utils::utils_robot::joint::{
    axes_belong_to, free_axes, joint_type_axis_kinds, mobility_mode_axis_kinds,
    mobility_mode_joint_type, ContiguousChainMobilityMode, Joint, JointAxis, URDFJoint,
};
use crate::utils::utils_robot::link::{Link, URDFLink};
use crate::utils::utils_robot::assembly::{
    child_entry_connected, connect_joints, connect_links, find_root, joint_connected,
    link_connected, links_connected,
};
use crate::utils::utils_robot::link_tree::{
    chain_row_is_current, chains_are_current, compute_link_chains, compute_root_paths,
    is_chain_between, is_link_path, is_path_between, is_ranking, lemma_path_between_is_unique,
    lemma_path_is_tail_of_root_path, lemma_same_parents_same_chains,
    lemma_same_parents_same_paths, parents_in_range, same_parents,
};
use crate::utils::utils_robot::traversal::{
    compute_traversal_layers, layer_is_ascending, layer_is_at_depth, layer_is_reached,
    layers_are_current, layers_follow_depth, lemma_root_path_extends_parent,
    lemma_root_paths_agree, link_is_placed, path_is_present, root_paths_are_current, vec_contains,
};
use vstd::prelude::*;

verus! {

/// What holds of link `i` in a model: it knows its own position, the joint that leads
/// to it is the one that names it as its child, its parent lists it as a child, and
/// its own children name it as their parent, in the order of the joints that lead to
/// them.
pub open spec fn link_agrees<T>(links: Seq<Link>, joints: Seq<Joint<T>>, root: int, i: int) -> bool {
    let link = links[i];
    &&& link.link_idx == i
    &&& i != root ==> {
        &&& link.preceding_joint_idx is Some
        &&& link.preceding_joint_idx->0 < joints.len()
        &&& joints[link.preceding_joint_idx->0 as int].child_link_idx == Some(i as usize)
        &&& joints[link.preceding_joint_idx->0 as int].preceding_link_idx
            == link.preceding_link_idx
        &&& links[link.preceding_link_idx->0 as int].children_link_idxs@.contains(i as usize)
    }
    &&& forall|k: int|
        0 <= k < link.children_link_idxs@.len() ==> {
            &&& (#[trigger] link.children_link_idxs@[k]) < links.len()
            &&& links[link.children_link_idxs@[k] as int].preceding_link_idx == Some(i as usize)
        }
    &&& forall|k1: int, k2: int|
        0 <= k1 < k2 < link.children_link_idxs@.len() ==> links[(
        #[trigger] link.children_link_idxs@[k1]) as int].preceding_joint_idx->0 < links[(
        #[trigger] link.children_link_idxs@[k2]) as int].preceding_joint_idx->0
}

/// What holds of joint `j` in a model: it knows its own position, its axes are its
/// own, and the link it leads to names it as its preceding joint.
pub open spec fn joint_agrees<T>(links: Seq<Link>, joints: Seq<Joint<T>>, j: int) -> bool {
    let joint = joints[j];
    &&& joint.joint_idx == j
    &&& axes_belong_to(joint.joint_axes@, j as usize)
    &&& joint.child_link_idx is Some
    &&& joint.child_link_idx->0 < links.len()
    &&& joint.preceding_link_idx is Some
    &&& joint.preceding_link_idx->0 < links.len()
    &&& links[joint.child_link_idx->0 as int].preceding_joint_idx == Some(j as usize)
}

/// Links and joints refer to each other consistently, and `root` is the one link
/// without a parent.
pub open spec fn links_and_joints_agree<T>(links: Seq<Link>, joints: Seq<Joint<T>>, root: int) -> bool {
    &&& parents_in_range(links, root)
    &&& links[root].preceding_joint_idx is None
    &&& forall|i: int| 0 <= i < links.len() ==> #[trigger] link_agrees(links, joints, root, i)
    &&& forall|j: int| 0 <= j < joints.len() ==> #[trigger] joint_agrees(links, joints, j)
}

/// The kinematic model of a robot: its links and joints in the order of the
/// description, and what is derived from them.
pub struct RobotModelModule<T> {
    robot_name: String,
    links: Vec<Link>,
    joints: Vec<Joint<T>>,
    world_link_idx: usize,
    robot_base_link_idx: usize,
    link_tree_traversal_layers: Vec<Vec<usize>>,
    link_tree_max_depth: usize,
    preceding_actuated_joint_idxs: Vec<Option<usize>>,
    link_chains: Vec<Vec<Vec<usize>>>,
}

impl<T: Copy> RobotModelModule<T> {
    pub closed spec fn spec_robot_name(&self) -> Seq<char> {
        self.robot_name@
    }

    pub closed spec fn spec_links(&self) -> Seq<Link> {
        self.links@
    }

    pub closed spec fn spec_joints(&self) -> Seq<Joint<T>> {
        self.joints@
    }

    /// The root of the description.
    pub closed spec fn spec_world_link_idx(&self) -> usize {
        self.world_link_idx
    }

    /// The root of the tree: the root of the description, or the synthetic base link
    /// once one has been put ahead of it.
    pub closed spec fn spec_robot_base_link_idx(&self) -> usize {
        self.robot_base_link_idx
    }

    pub closed spec fn spec_link_tree_traversal_layers(&self) -> Seq<Vec<usize>> {
        self.link_tree_traversal_layers@
    }

    /// The depth of the deepest traversal layer, the root being at depth 0.
    pub closed spec fn spec_link_tree_max_depth(&self) -> usize {
        self.link_tree_max_depth
    }

    pub closed spec fn spec_preceding_actuated_joint_idxs(&self) -> Seq<Option<usize>> {
        self.preceding_actuated_joint_idxs@
    }

    pub closed spec fn spec_link_chains(&self) -> Seq<Vec<Vec<usize>>> {
        self.link_chains@
    }

    /// The chain held for the pair `(from, to)`.
    pub open spec fn spec_link_chain(&self, from: int, to: int) -> Seq<usize> {
        self.spec_link_chains()[from]@[to]@
    }

    /// The paths from the root to every link.
    pub open spec fn spec_root_paths(&self) -> Seq<Vec<usize>> {
        self.spec_link_chains()[self.spec_robot_base_link_idx() as int]@
    }

    /// The number of steps from the root down to link `i`.
    pub open spec fn spec_link_depth(&self, i: int) -> int {
        self.spec_root_paths()[i]@.len() - 1
    }

    /// The model is a rooted tree with its table of chains, and its layers follow the
    /// depth of the links.
    pub open spec fn wf(&self) -> bool {
        &&& links_and_joints_agree(
            self.spec_links(),
            self.spec_joints(),
            self.spec_robot_base_link_idx() as int,
        )
        &&& self.spec_world_link_idx() < self.spec_links().len()
        &&& chains_are_current(self.spec_links(), self.spec_link_chains())
        &&& root_paths_are_current(
            self.spec_links(),
            self.spec_root_paths(),
            self.spec_robot_base_link_idx() as int,
        )
        &&& layers_follow_depth(
            self.spec_links(),
            self.spec_root_paths(),
            self.spec_link_tree_traversal_layers(),
            self.spec_robot_base_link_idx() as int,
        )
        &&& self.spec_link_tree_max_depth() == self.spec_link_tree_traversal_layers().len() - 1
    }

    /// The layers match which links are present now.
    pub open spec fn layers_current(&self) -> bool {
        layers_are_current(
            self.spec_links(),
            self.spec_root_paths(),
            self.spec_link_tree_traversal_layers(),
        )
    }

    /// Returns the name of the robot.
    pub fn robot_name(&self) -> (r: &String)
        ensures
            r@ == self.spec_robot_name(),
    {
        &self.robot_name
    }

    /// Returns the links, in the order of the description.
    pub fn links(&self) -> (r: &Vec<Link>)
        ensures
            r@ == self.spec_links(),
    {
        &self.links
    }

    /// Returns the joints, in the order of the description.
    pub fn joints(&self) -> (r: &Vec<Joint<T>>)
        ensures
            r@ == self.spec_joints(),
    {
        &self.joints
    }

    /// Returns the link at `idx`.
    pub fn get_link_by_idx(&self, idx: usize) -> (r: Result<&Link, OptimaError>)
        ensures
            idx < self.spec_links().len() ==> r == Ok::<&Link, OptimaError>(
                &self.spec_links()[idx as int],
            ),
            idx >= self.spec_links().len() ==> r == Err::<&Link, OptimaError>(
                OptimaError::IndexOutOfBounds {
                    index: idx,
                    length: self.spec_links().len() as usize,
                },
            ),
    {
        if idx >= self.links.len() {
            return Err(OptimaError::IndexOutOfBounds { index: idx, length: self.links.len() });
        }
        Ok(&self.links[idx])
    }

    /// Returns the joint at `idx`.
    pub fn get_joint_by_idx(&self, idx: usize) -> (r: Result<&Joint<T>, OptimaError>)
        ensures
            idx < self.spec_joints().len() ==> r == Ok::<&Joint<T>, OptimaError>(
                &self.spec_joints()[idx as int],
            ),
            idx >= self.spec_joints().len() ==> r == Err::<&Joint<T>, OptimaError>(
                OptimaError::IndexOutOfBounds {
                    index: idx,
                    length: self.spec_joints().len() as usize,
                },
            ),
    {
        if idx >= self.joints.len() {
            return Err(OptimaError::IndexOutOfBounds { index: idx, length: self.joints.len() });
        }
        Ok(&self.joints[idx])
    }

    /// Returns the root link of the description.
    pub fn world_link_idx(&self) -> (r: usize)
        ensures
            r == self.spec_world_link_idx(),
    {
        self.world_link_idx
    }

    /// Returns the root link of the tree.
    pub fn robot_base_link_idx(&self) -> (r: usize)
        ensures
            r == self.spec_robot_base_link_idx(),
    {
        self.robot_base_link_idx
    }

    /// Returns the traversal layers: layer `k` holds the links that traversal reaches
    /// `k` steps below the root.
    pub fn link_tree_traversal_layers(&self) -> (r: &Vec<Vec<usize>>)
        ensures
            r@ == self.spec_link_tree_traversal_layers(),
    {
        &self.link_tree_traversal_layers
    }

    /// Returns the depth of the deepest traversal layer, the root being at depth 0.
    pub fn link_tree_max_depth(&self) -> (r: usize)
        ensures
            r == self.spec_link_tree_max_depth(),
    {
        self.link_tree_max_depth
    }

    /// Builds the model of the robot `robot_name` from the links and joints of its
    /// description, all present. Fails with `MalformedGraph` exactly when the
    /// description is not that of a single rooted tree.
    pub fn new(robot_name: String, urdf_links: &Vec<URDFLink>, urdf_joints: &Vec<URDFJoint<T>>) -> (r:
        Result<Self, OptimaError>)
        ensures
            r is Ok <==> is_valid_description(urdf_links@, urdf_joints@),
            r matches Err(e) ==> e == OptimaError::MalformedGraph,
            r matches Ok(model) ==> {
                &&& model.wf()
                &&& model.layers_current()
                &&& model.preceding_actuated_current()
                &&& model.spec_robot_name() == robot_name@
                &&& model.spec_world_link_idx() == model.spec_robot_base_link_idx()
                &&& is_description_root(
                    urdf_links@,
                    urdf_joints@,
                    model.spec_world_link_idx() as int,
                )
                &&& model.spec_links().len() == urdf_links@.len()
                &&& forall|i: int|
                    0 <= i < urdf_links@.len() ==> {
                        &&& (#[trigger] model.spec_links()[i]).name@ == urdf_links@[i].name@
                        &&& model.spec_links()[i].present
                    }
                &&& model.spec_joints().len() == urdf_joints@.len()
                &&& forall|j: int|
                    0 <= j < urdf_joints@.len() ==> {
                        &&& (#[trigger] model.spec_joints()[j]).name@ == urdf_joints@[j].name@
                        &&& model.spec_joints()[j].joint_type == urdf_joints@[j].joint_type
                        &&& model.spec_joints()[j].present
                        &&& model.spec_joints()[j].preceding_link_idx == Some(
                            joint_parent(urdf_links@, urdf_joints@, j) as usize,
                        )
                        &&& model.spec_joints()[j].child_link_idx == Some(
                            joint_child(urdf_links@, urdf_joints@, j) as usize,
                        )
                        &&& model.spec_joints()[j].joint_axes@ == free_axes(
                            joint_type_axis_kinds(urdf_joints@[j].joint_type),
                            j as usize,
                            urdf_joints@[j].limits,
                        )
                    }
            },
    {
        if !check_link_names_distinct(urdf_links) {
            return Err(OptimaError::MalformedGraph);
        }
        let (parents, children) = match resolve_joint_links(urdf_links, urdf_joints) {
            Some(resolved) => resolved,
            None => {
                return Err(OptimaError::MalformedGraph);
            },
        };
        let links = match connect_links(urdf_links, &parents, &children) {
            Some(links) => links,
            None => {
                proof {
                    let (a, b) = choose|a: int, b: int|
                        0 <= a < b < children@.len() && children@[a] == children@[b];
                    assert(joint_child(urdf_links@, urdf_joints@, a) == joint_child(
                        urdf_links@,
                        urdf_joints@,
                        b,
                    ));
                }
                return Err(OptimaError::MalformedGraph);
            },
        };
        let root = match find_root(&links) {
            Some(root) => root,
            None => {
                proof {
                    if exists|root: int| is_description_root(urdf_links@, urdf_joints@, root) {
                        let r0 = choose|root: int|
                            is_description_root(urdf_links@, urdf_joints@, root);
                        lemma_description_root_has_no_joint(
                            urdf_links@,
                            urdf_joints@,
                            parents@,
                            children@,
                            links@,
                            r0,
                        );
                        if exists|a: int, b: int|
                            0 <= a < b < links@.len() && (#[trigger] links@[a]).preceding_joint_idx is None
                                && (#[trigger] links@[b]).preceding_joint_idx is None {
                            let (a, b) = choose|a: int, b: int|
                                0 <= a < b < links@.len() && (#[trigger] links@[a]).preceding_joint_idx is None
                                    && (#[trigger] links@[b]).preceding_joint_idx is None;
                            lemma_other_link_has_joint(
                                urdf_links@,
                                urdf_joints@,
                                parents@,
                                children@,
                                links@,
                                r0,
                                a,
                            );
                            lemma_other_link_has_joint(
                                urdf_links@,
                                urdf_joints@,
                                parents@,
                                children@,
                                links@,
                                r0,
                                b,
                            );
                        }
                    }
                }
                return Err(OptimaError::MalformedGraph);
            },
        };
        proof {
            lemma_connected_links_have_parents(
                urdf_links@,
                parents@,
                children@,
                links@,
                root as int,
            );
            lemma_found_root_is_description_root(
                urdf_links@,
                urdf_joints@,
                parents@,
                children@,
                links@,
                root as int,
            );
        }
        let root_paths = match compute_root_paths(&links, root) {
            Some(paths) => paths,
            None => {
                proof {
                    if exists|rank: Seq<nat>|
                        is_description_ranking(urdf_links@, urdf_joints@, rank) {
                        let rank = choose|rank: Seq<nat>|
                            is_description_ranking(urdf_links@, urdf_joints@, rank);
                        lemma_description_ranking_ranks_links(
                            urdf_links@,
                            urdf_joints@,
                            parents@,
                            children@,
                            links@,
                            rank,
                        );
                    }
                }
                return Err(OptimaError::MalformedGraph);
            },
        };
        let num_joints = urdf_joints.len();
        proof {
            let rank = choose|rank: Seq<nat>| is_ranking(links@, rank);
            lemma_link_ranking_ranks_description(
                urdf_links@,
                urdf_joints@,
                parents@,
                children@,
                links@,
                rank,
            );
        }
        let link_chains = compute_link_chains(&links, &root_paths);
        let joints = connect_joints(urdf_joints, &parents, &children);
        let num_links = links.len();
        proof {
            assert forall|a: int, b: int| 0 <= a < b < urdf_joints@.len() implies #[trigger] joint_child(
                urdf_links@,
                urdf_joints@,
                a,
            ) != #[trigger] joint_child(urdf_links@, urdf_joints@, b) by {
                assert(children@[a] != children@[b]);
            }
            assert(is_valid_description(urdf_links@, urdf_joints@));
            assert forall|i: int| 0 <= i < urdf_links@.len() implies {
                &&& (#[trigger] links@[i]).name@ == urdf_links@[i].name@
                &&& links@[i].present
            } by {
                assert(link_connected(
                    urdf_links@,
                    parents@,
                    children@,
                    links@,
                    children@.len() as int,
                    i,
                ));
            }
            assert forall|j: int| 0 <= j < joints@.len() implies axes_belong_to(
                (#[trigger] joints@[j]).joint_axes@,
                j as usize,
            ) by {}
            lemma_connected_links_agree(
                urdf_links@,
                parents@,
                children@,
                links@,
                joints@,
                root as int,
            );
            lemma_chains_hold_root_paths(links@, link_chains@, root_paths@, root as int);
        }
        let layers = compute_traversal_layers(&links, &link_chains[root], root);
        let max_depth = layers.len() - 1;
        let mut model = RobotModelModule {
            robot_name,
            links,
            joints,
            world_link_idx: root,
            robot_base_link_idx: root,
            link_tree_traversal_layers: layers,
            link_tree_max_depth: max_depth,
            preceding_actuated_joint_idxs: Vec::new(),
            link_chains,
        };
        model.set_preceding_actuated_joint_idxs();
        Ok(model)
    }

    /// The nearest joint with a free axis on the way from link `link_idx` up to the
    /// root.
    pub open spec fn spec_preceding_actuated_joint_idx(&self, link_idx: int) -> Option<usize> {
        preceding_actuated_on_path(
            self.spec_links(),
            self.spec_joints(),
            self.spec_root_paths()[link_idx]@,
            self.spec_root_paths()[link_idx]@.len() - 1,
        )
    }

    /// The list of nearest actuated joints matches the axes as they are fixed now.
    pub open spec fn preceding_actuated_current(&self) -> bool {
        &&& self.spec_preceding_actuated_joint_idxs().len() == self.spec_links().len()
        &&& forall|i: int|
            0 <= i < self.spec_links().len() ==> #[trigger] self.spec_preceding_actuated_joint_idxs()[i]
                == self.spec_preceding_actuated_joint_idx(i)
    }

    /// Returns the nearest joint with a free axis on the way from the link up to the
    /// root, or `None` where there is none.
    pub fn get_preceding_actuated_joint_idx(&self, link_idx: usize) -> (r: Option<usize>)
        requires
            self.wf(),
            link_idx < self.spec_links().len(),
        ensures
            r == self.spec_preceding_actuated_joint_idx(link_idx as int),
    {
        let root = self.robot_base_link_idx;
        let ghost path = self.spec_root_paths()[link_idx as int]@;
        let ghost mut k: int = path.len() - 1;
        let mut curr_link_idx = link_idx;
        proof {
            assert(is_path_between(self.links@, path, root as int, link_idx as int));
        }
        loop
            invariant
                self.wf(),
                root == self.robot_base_link_idx,
                path == self.spec_root_paths()[link_idx as int]@,
                is_path_between(self.links@, path, root as int, link_idx as int),
                0 <= k < path.len(),
                curr_link_idx == path[k],
                preceding_actuated_on_path(self.links@, self.joints@, path, k)
                    == self.spec_preceding_actuated_joint_idx(link_idx as int),
            decreases k,
        {
            proof {
                assert(link_agrees(self.links@, self.joints@, root as int, curr_link_idx as int));
                if k == 0 {
                    assert(curr_link_idx == root);
                } else {
                    assert(self.links@[path[k] as int].preceding_link_idx == Some(path[k - 1]));
                    assert(curr_link_idx != root);
                }
            }
            let joint_idx = match self.links[curr_link_idx].preceding_joint_idx {
                Some(j) => j,
                None => {
                    return None;
                },
            };
            if self.joints[joint_idx].num_dofs() > 0 {
                return Some(joint_idx);
            }
            match self.links[curr_link_idx].preceding_link_idx {
                Some(p) => {
                    curr_link_idx = p;
                },
                None => {
                    return None;
                },
            }
            proof {
                k = k - 1;
            }
        }
    }

    /// Computes anew, for every link, the nearest joint with a free axis above it.
    pub fn set_preceding_actuated_joint_idxs(&mut self)
        requires
            old(self).wf(),
        ensures
            final(self).wf(),
            final(self).preceding_actuated_current(),
            final(self).spec_robot_name() == old(self).spec_robot_name(),
            final(self).spec_links() == old(self).spec_links(),
            final(self).spec_joints() == old(self).spec_joints(),
            final(self).spec_world_link_idx() == old(self).spec_world_link_idx(),
            final(self).spec_robot_base_link_idx() == old(self).spec_robot_base_link_idx(),
            final(self).spec_link_tree_traversal_layers() == old(
                self,
            ).spec_link_tree_traversal_layers(),
            final(self).spec_link_chains() == old(self).spec_link_chains(),
    {
        let num_links = self.links.len();
        let mut idxs: Vec<Option<usize>> = Vec::new();
        let mut i: usize = 0;
        while i < num_links
            invariant
                self.wf(),
                *self == *old(self),
                num_links == self.links@.len(),
                i <= num_links,
                idxs@.len() == i,
                forall|a: int|
                    0 <= a < i ==> #[trigger] idxs@[a] == self.spec_preceding_actuated_joint_idx(a),
            decreases num_links - i,
        {
            let res = self.get_preceding_actuated_joint_idx(i);
            idxs.push(res);
            i += 1;
        }
        self.preceding_actuated_joint_idxs = idxs;
    }
}

/// The nearest joint with a free axis that leads to one of the links `path[1..=k]`,
/// looked for from `path[k]` upwards.
pub open spec fn preceding_actuated_on_path<T: Copy>(
    links: Seq<Link>,
    joints: Seq<Joint<T>>,
    path: Seq<usize>,
    k: int,
) -> Option<usize>
    decreases k,
{
    if k <= 0 {
        None
    } else {
        let j = links[path[k] as int].preceding_joint_idx->0;
        if joints[j as int].spec_num_dofs() > 0 {
            Some(j)
        } else {
            preceding_actuated_on_path(links, joints, path, k - 1)
        }
    }
}

proof fn lemma_description_root_has_no_joint<T>(
    raw_links: Seq<URDFLink>,
    raw_joints: Seq<URDFJoint<T>>,
    parents: Seq<usize>,
    children: Seq<usize>,
    links: Seq<Link>,
    root: int,
)
    requires
        is_description_root(raw_links, raw_joints, root),
        links_connected(raw_links, parents, children, links, children.len() as int),
        children.len() == raw_joints.len(),
        forall|j: int|
            0 <= j < raw_joints.len() ==> #[trigger] children[j] == joint_child(
                raw_links,
                raw_joints,
                j,
            ),
    ensures
        links[root].preceding_joint_idx is None,
{
    assert(link_connected(raw_links, parents, children, links, children.len() as int, root));
    if links[root].preceding_joint_idx is Some {
        let j = links[root].preceding_joint_idx->0 as int;
        assert(children[j] == root);
        assert(joint_leads_to(raw_links, raw_joints, j, root));
    }
}

proof fn lemma_other_link_has_joint<T>(
    raw_links: Seq<URDFLink>,
    raw_joints: Seq<URDFJoint<T>>,
    parents: Seq<usize>,
    children: Seq<usize>,
    links: Seq<Link>,
    root: int,
    i: int,
)
    requires
        is_description_root(raw_links, raw_joints, root),
        links_connected(raw_links, parents, children, links, children.len() as int),
        children.len() == raw_joints.len(),
        forall|j: int|
            0 <= j < raw_joints.len() ==> #[trigger] children[j] == joint_child(
                raw_links,
                raw_joints,
                j,
            ),
        0 <= i < links.len(),
        links[i].preceding_joint_idx is None,
    ensures
        i == root,
{
    if i != root {
        assert(link_has_joint(raw_links, raw_joints, i));
        let j = choose|j: int| joint_leads_to(raw_links, raw_joints, j, i);
        assert(joint_connected(parents, children, links, j));
        assert(children[j] == i);
    }
}

proof fn lemma_connected_links_have_parents(
    raw_links: Seq<URDFLink>,
    parents: Seq<usize>,
    children: Seq<usize>,
    links: Seq<Link>,
    root: int,
)
    requires
        links_connected(raw_links, parents, children, links, children.len() as int),
        parents.len() == children.len(),
        forall|j: int| 0 <= j < parents.len() ==> parents[j] < links.len(),
        0 <= root < links.len(),
        links[root].preceding_joint_idx is None,
        forall|i: int|
            0 <= i < links.len() && i != root ==> (#[trigger] links[i]).preceding_joint_idx is Some,
    ensures
        parents_in_range(links, root),
{
    assert(link_connected(raw_links, parents, children, links, children.len() as int, root));
    assert forall|i: int| 0 <= i < links.len() && i != root implies {
        &&& (#[trigger] links[i]).preceding_link_idx is Some
        &&& links[i].preceding_link_idx->0 < links.len()
    } by {
        assert(link_connected(raw_links, parents, children, links, children.len() as int, i));
    }
}

proof fn lemma_found_root_is_description_root<T>(
    raw_links: Seq<URDFLink>,
    raw_joints: Seq<URDFJoint<T>>,
    parents: Seq<usize>,
    children: Seq<usize>,
    links: Seq<Link>,
    root: int,
)
    requires
        links_connected(raw_links, parents, children, links, children.len() as int),
        children.len() == raw_joints.len(),
        forall|j: int|
            0 <= j < raw_joints.len() ==> #[trigger] children[j] == joint_child(
                raw_links,
                raw_joints,
                j,
            ),
        0 <= root < links.len(),
        links[root].preceding_joint_idx is None,
        forall|i: int|
            0 <= i < links.len() && i != root ==> (#[trigger] links[i]).preceding_joint_idx is Some,
    ensures
        is_description_root(raw_links, raw_joints, root),
{
    if link_has_joint(raw_links, raw_joints, root) {
        let j = choose|j: int| joint_leads_to(raw_links, raw_joints, j, root);
        assert(joint_connected(parents, children, links, j));
        assert(children[j] == root);
    }
    assert forall|i: int| 0 <= i < raw_links.len() && i != root implies #[trigger] link_has_joint(
        raw_links,
        raw_joints,
        i,
    ) by {
        assert(link_connected(raw_links, parents, children, links, children.len() as int, i));
        assert(links[i].preceding_joint_idx is Some);
        let j = links[i].preceding_joint_idx->0 as int;
        assert(children[j] == i);
        assert(joint_leads_to(raw_links, raw_joints, j, i));
    }
}

proof fn lemma_description_ranking_ranks_links<T>(
    raw_links: Seq<URDFLink>,
    raw_joints: Seq<URDFJoint<T>>,
    parents: Seq<usize>,
    children: Seq<usize>,
    links: Seq<Link>,
    rank: Seq<nat>,
)
    requires
        is_description_ranking(raw_links, raw_joints, rank),
        links_connected(raw_links, parents, children, links, children.len() as int),
        children.len() == raw_joints.len(),
        parents.len() == raw_joints.len(),
        forall|j: int| 0 <= j < parents.len() ==> parents[j] < links.len(),
        forall|j: int|
            0 <= j < raw_joints.len() ==> #[trigger] children[j] == joint_child(
                raw_links,
                raw_joints,
                j,
            ),
        forall|j: int|
            0 <= j < raw_joints.len() ==> #[trigger] parents[j] == joint_parent(
                raw_links,
                raw_joints,
                j,
            ),
    ensures
        is_ranking(links, rank),
{
    assert forall|i: int|
        0 <= i < links.len() && (#[trigger] links[i]).preceding_link_idx is Some implies {
        &&& links[i].preceding_link_idx->0 < links.len()
        &&& rank[links[i].preceding_link_idx->0 as int] < rank[i]
    } by {
        assert(link_connected(raw_links, parents, children, links, children.len() as int, i));
        let j = links[i].preceding_joint_idx->0 as int;
        assert(children[j] == i);
        assert(parents[j] == joint_parent(raw_links, raw_joints, j));
        assert(rank[joint_parent(raw_links, raw_joints, j)] < rank[joint_child(
            raw_links,
            raw_joints,
            j,
        )]);
    }
}

proof fn lemma_link_ranking_ranks_description<T>(
    raw_links: Seq<URDFLink>,
    raw_joints: Seq<URDFJoint<T>>,
    parents: Seq<usize>,
    children: Seq<usize>,
    links: Seq<Link>,
    rank: Seq<nat>,
)
    requires
        is_ranking(links, rank),
        links_connected(raw_links, parents, children, links, children.len() as int),
        children.len() == raw_joints.len(),
        parents.len() == raw_joints.len(),
        raw_joints.len() <= usize::MAX,
        forall|j: int| 0 <= j < children.len() ==> children[j] < links.len(),
        forall|j: int|
            0 <= j < raw_joints.len() ==> #[trigger] children[j] == joint_child(
                raw_links,
                raw_joints,
                j,
            ),
        forall|j: int|
            0 <= j < raw_joints.len() ==> #[trigger] parents[j] == joint_parent(
                raw_links,
                raw_joints,
                j,
            ),
    ensures
        is_description_ranking(raw_links, raw_joints, rank),
{
    assert forall|j: int| 0 <= j < raw_joints.len() implies rank[#[trigger] joint_parent(
        raw_links,
        raw_joints,
        j,
    )] < rank[joint_child(raw_links, raw_joints, j)] by {
        assert(joint_connected(parents, children, links, j));
        let c = children[j] as int;
        assert(link_connected(raw_links, parents, children, links, children.len() as int, c));
        assert(links[c].preceding_joint_idx == Some(j as usize));
        assert(links[c].preceding_link_idx == Some(parents[j]));
        assert(rank[links[c].preceding_link_idx->0 as int] < rank[c]);
        assert(parents[j] == joint_parent(raw_links, raw_joints, j));
        assert(children[j] == joint_child(raw_links, raw_joints, j));
    }
}

proof fn lemma_connected_links_agree<T>(
    raw_links: Seq<URDFLink>,
    parents: Seq<usize>,
    children: Seq<usize>,
    links: Seq<Link>,
    joints: Seq<Joint<T>>,
    root: int,
)
    requires
        links_connected(raw_links, parents, children, links, children.len() as int),
        parents_in_range(links, root),
        links[root].preceding_joint_idx is None,
        forall|i: int|
            0 <= i < links.len() && i != root ==> (#[trigger] links[i]).preceding_joint_idx is Some,
        parents.len() == children.len(),
        joints.len() == children.len(),
        links.len() <= usize::MAX,
        forall|j: int| 0 <= j < parents.len() ==> parents[j] < links.len(),
        forall|j: int| 0 <= j < children.len() ==> children[j] < links.len(),
        forall|j: int|
            0 <= j < joints.len() ==> {
                &&& (#[trigger] joints[j]).joint_idx == j
                &&& joints[j].preceding_link_idx == Some(parents[j])
                &&& joints[j].child_link_idx == Some(children[j])
                &&& axes_belong_to(joints[j].joint_axes@, j as usize)
            },
    ensures
        links_and_joints_agree(links, joints, root),
{
    let m = children.len() as int;
    assert forall|i: int| 0 <= i < links.len() implies #[trigger] link_agrees(
        links,
        joints,
        root,
        i,
    ) by {
        assert(link_connected(raw_links, parents, children, links, m, i));
        let link = links[i];
        if i != root {
            let j = link.preceding_joint_idx->0 as int;
            assert(joint_connected(parents, children, links, j));
        }
        assert forall|k: int| 0 <= k < link.children_link_idxs@.len() implies {
            &&& (#[trigger] link.children_link_idxs@[k]) < links.len()
            &&& links[link.children_link_idxs@[k] as int].preceding_link_idx == Some(i as usize)
        } by {
            let c = link.children_link_idxs@[k];
            assert(child_entry_connected(parents, links, m, i, c));
            assert(link_connected(raw_links, parents, children, links, m, c as int));
        }
    }
    assert forall|j: int| 0 <= j < joints.len() implies #[trigger] joint_agrees(links, joints, j) by {
        assert(joint_connected(parents, children, links, j));
    }
}

/// The row of the root in the table of chains holds the root paths.
proof fn lemma_chains_hold_root_paths(
    links: Seq<Link>,
    chains: Seq<Vec<Vec<usize>>>,
    root_paths: Seq<Vec<usize>>,
    root: int,
)
    requires
        parents_in_range(links, root),
        chains_are_current(links, chains),
        root_paths.len() == links.len(),
        forall|i: int|
            0 <= i < links.len() ==> {
                &&& is_path_between(links, (#[trigger] root_paths[i])@, root, i)
                &&& root_paths[i]@.len() <= links.len()
            },
    ensures
        root_paths_are_current(links, chains[root]@, root),
{
    assert(chain_row_is_current(links, chains[root], root));
    assert forall|i: int| 0 <= i < links.len() implies {
        &&& is_path_between(links, (#[trigger] chains[root]@[i])@, root, i)
        &&& chains[root]@[i]@.len() <= links.len()
    } by {
        assert(is_path_between(links, root_paths[i]@, root, i));
        assert(is_chain_between(links, chains[root]@[i]@, root, i));
        lemma_root_paths_agree(links, chains[root]@[i]@, root_paths[i]@);
    }
}

/// The two lists of links differ at most in which links are present.
pub open spec fn same_link_relations(a: Seq<Link>, b: Seq<Link>) -> bool {
    &&& a.len() == b.len()
    &&& forall|i: int|
        #![trigger a[i]]
        #![trigger b[i]]
        0 <= i < a.len() ==> {
            &&& a[i].link_idx == b[i].link_idx
            &&& a[i].name == b[i].name
            &&& a[i].preceding_link_idx == b[i].preceding_link_idx
            &&& a[i].preceding_joint_idx == b[i].preceding_joint_idx
            &&& a[i].children_link_idxs == b[i].children_link_idxs
        }
}

/// The two lists of joints differ at most in which joints are present and in the
/// values at which axes are fixed.
pub open spec fn same_joint_relations<T>(a: Seq<Joint<T>>, b: Seq<Joint<T>>) -> bool {
    &&& a.len() == b.len()
    &&& forall|j: int|
        #![trigger a[j]]
        #![trigger b[j]]
        0 <= j < a.len() ==> {
            &&& a[j].joint_idx == b[j].joint_idx
            &&& a[j].name == b[j].name
            &&& a[j].joint_type == b[j].joint_type
            &&& a[j].preceding_link_idx == b[j].preceding_link_idx
            &&& a[j].child_link_idx == b[j].child_link_idx
            &&& a[j].joint_axes@.len() == b[j].joint_axes@.len()
            &&& forall|k: int|
                0 <= k < a[j].joint_axes@.len() ==> (#[trigger] b[j].joint_axes@[k]) == (JointAxis {
                    fixed_value: b[j].joint_axes@[k].fixed_value,
                    ..a[j].joint_axes@[k]
                })
        }
}

/// Links and joints that agree still agree when links and joints are switched on or
/// off and axes are fixed or freed.
pub proof fn lemma_relations_carry_agreement<T>(
    links_a: Seq<Link>,
    links_b: Seq<Link>,
    joints_a: Seq<Joint<T>>,
    joints_b: Seq<Joint<T>>,
    root: int,
)
    requires
        same_link_relations(links_a, links_b),
        same_joint_relations(joints_a, joints_b),
        links_and_joints_agree(links_a, joints_a, root),
    ensures
        links_and_joints_agree(links_b, joints_b, root),
        same_parents(links_a, links_b),
{
    assert forall|i: int| 0 <= i < links_b.len() implies #[trigger] link_agrees(
        links_b,
        joints_b,
        root,
        i,
    ) by {
        assert(link_agrees(links_a, joints_a, root, i));
        let link = links_b[i];
        assert(link.children_link_idxs@ == links_a[i].children_link_idxs@);
        if i != root {
            let j = link.preceding_joint_idx->0 as int;
            assert(joints_b[j].child_link_idx == joints_a[j].child_link_idx);
            let p = link.preceding_link_idx->0 as int;
            assert(links_b[p].children_link_idxs@ == links_a[p].children_link_idxs@);
        }
        assert forall|k: int| 0 <= k < link.children_link_idxs@.len() implies {
            &&& (#[trigger] link.children_link_idxs@[k]) < links_b.len()
            &&& links_b[link.children_link_idxs@[k] as int].preceding_link_idx == Some(i as usize)
        } by {
            let c = links_a[i].children_link_idxs@[k];
            assert(c < links_a.len());
            assert(links_a[c as int].preceding_link_idx == Some(i as usize));
        }
        assert forall|k1: int, k2: int|
            0 <= k1 < k2 < link.children_link_idxs@.len() implies links_b[(
        #[trigger] link.children_link_idxs@[k1]) as int].preceding_joint_idx->0 < links_b[(
        #[trigger] link.children_link_idxs@[k2]) as int].preceding_joint_idx->0 by {
            let c1 = links_a[i].children_link_idxs@[k1];
            let c2 = links_a[i].children_link_idxs@[k2];
            assert(c1 < links_a.len() && c2 < links_a.len());
            assert(links_a[c1 as int].preceding_joint_idx->0
                < links_a[c2 as int].preceding_joint_idx->0);
        }
    }
    assert forall|j: int| 0 <= j < joints_b.len() implies #[trigger] joint_agrees(
        links_b,
        joints_b,
        j,
    ) by {
        assert(joint_agrees(links_a, joints_a, j));
        assert(joints_b[j].joint_idx == joints_a[j].joint_idx);
        let c = joints_a[j].child_link_idx->0 as int;
        assert(links_b[c].preceding_joint_idx == links_a[c].preceding_joint_idx);
        assert forall|k: int| 0 <= k < joints_b[j].joint_axes@.len() implies {
            &&& (#[trigger] joints_b[j].joint_axes@[k]).joint_idx == j as usize
            &&& joints_b[j].joint_axes@[k].joint_sub_dof_idx == k
        } by {
            assert(joints_a[j].joint_axes@[k].joint_idx == j as usize);
        }
    }
    assert(links_b[root].preceding_link_idx == links_a[root].preceding_link_idx);
    assert(links_b[root].preceding_joint_idx == links_a[root].preceding_joint_idx);
    assert forall|i: int| 0 <= i < links_b.len() && i != root implies {
        &&& (#[trigger] links_b[i]).preceding_link_idx is Some
        &&& links_b[i].preceding_link_idx->0 < links_b.len()
    } by {
        assert(links_a[i].preceding_link_idx is Some);
    }
}

/// Root paths depend on the parents alone.
pub proof fn lemma_same_parents_same_root_paths(
    a: Seq<Link>,
    b: Seq<Link>,
    root_paths: Seq<Vec<usize>>,
    root: int,
)
    requires
        same_parents(a, b),
        root_paths_are_current(a, root_paths, root),
    ensures
        root_paths_are_current(b, root_paths, root),
{
    assert forall|i: int| 0 <= i < b.len() implies {
        &&& is_path_between(b, (#[trigger] root_paths[i])@, root, i)
        &&& root_paths[i]@.len() <= b.len()
    } by {
        assert(is_path_between(a, root_paths[i]@, root, i));
        lemma_same_parents_same_paths(a, b, root_paths[i]@);
    }
}

impl<T: Copy> RobotModelModule<T> {
    /// The number of links is a machine integer.
    pub proof fn lemma_links_fit(&self)
        ensures
            self.spec_links().len() <= usize::MAX,
            self.spec_joints().len() <= usize::MAX,
    {
        assert(self.links@.len() == self.links.len());
        assert(self.joints@.len() == self.joints.len());
    }

    /// Everything but the links and the joints is the same in both models.
    pub open spec fn same_tables(&self, other: &Self) -> bool {
        &&& self.spec_robot_name() == other.spec_robot_name()
        &&& self.spec_world_link_idx() == other.spec_world_link_idx()
        &&& self.spec_robot_base_link_idx() == other.spec_robot_base_link_idx()
        &&& self.spec_link_tree_traversal_layers() == other.spec_link_tree_traversal_layers()
        &&& self.spec_link_tree_max_depth() == other.spec_link_tree_max_depth()
        &&& self.spec_preceding_actuated_joint_idxs() == other.spec_preceding_actuated_joint_idxs()
        &&& self.spec_link_chains() == other.spec_link_chains()
    }

    proof fn lemma_wf_carries(&self, before: &Self)
        requires
            before.wf(),
            self.same_tables(before),
            same_link_relations(before.spec_links(), self.spec_links()),
            same_joint_relations(before.spec_joints(), self.spec_joints()),
        ensures
            self.wf(),
    {
        let root = self.spec_robot_base_link_idx() as int;
        lemma_relations_carry_agreement(
            before.spec_links(),
            self.spec_links(),
            before.spec_joints(),
            self.spec_joints(),
            root,
        );
        lemma_same_parents_same_chains(
            before.spec_links(),
            self.spec_links(),
            self.spec_link_chains(),
        );
        lemma_same_parents_same_root_paths(
            before.spec_links(),
            self.spec_links(),
            self.spec_root_paths(),
            root,
        );
        assert forall|k: int| 0 <= k < self.spec_link_tree_traversal_layers().len() implies {
            &&& layer_is_at_depth(
                self.spec_links(),
                self.spec_root_paths(),
                (#[trigger] self.spec_link_tree_traversal_layers()[k])@,
                k,
            )
            &&& layer_is_ascending(self.spec_link_tree_traversal_layers()[k]@)
        } by {
            assert(layer_is_at_depth(
                before.spec_links(),
                before.spec_root_paths(),
                before.spec_link_tree_traversal_layers()[k]@,
                k,
            ));
        }
    }

    /// Computes the traversal layers anew from the links that are present now.
    pub fn set_link_tree_traversal_info(&mut self)
        requires
            old(self).wf(),
        ensures
            final(self).wf(),
            final(self).layers_current(),
            final(self).spec_robot_name() == old(self).spec_robot_name(),
            final(self).spec_links() == old(self).spec_links(),
            final(self).spec_joints() == old(self).spec_joints(),
            final(self).spec_world_link_idx() == old(self).spec_world_link_idx(),
            final(self).spec_robot_base_link_idx() == old(self).spec_robot_base_link_idx(),
            final(self).spec_preceding_actuated_joint_idxs() == old(
                self,
            ).spec_preceding_actuated_joint_idxs(),
            final(self).spec_link_chains() == old(self).spec_link_chains(),
    {
        let root = self.robot_base_link_idx;
        assert(chain_row_is_current(self.links@, self.link_chains@[root as int], root as int));
        let layers = compute_traversal_layers(&self.links, &self.link_chains[root], root);
        self.link_tree_max_depth = layers.len() - 1;
        self.link_tree_traversal_layers = layers;
    }

    /// Traversal reaches the link: it stands in the layer of its depth.
    pub open spec fn spec_link_is_traversed(&self, link_idx: int) -> bool {
        &&& 0 <= link_idx < self.spec_links().len()
        &&& self.spec_link_depth(link_idx) < self.spec_link_tree_traversal_layers().len()
        &&& self.spec_link_tree_traversal_layers()[self.spec_link_depth(link_idx)]@.contains(
            link_idx as usize,
        )
    }

    /// What is reported of a link that stands in no layer.
    pub open spec fn spec_traversal_error(&self, link_idx: usize) -> OptimaError {
        if link_idx >= self.spec_links().len() {
            OptimaError::IndexOutOfBounds {
                index: link_idx,
                length: self.spec_links().len() as usize,
            }
        } else {
            OptimaError::LinkNotTraversed { link_idx }
        }
    }

    /// Returns the traversal layer that holds the link, which is the depth of the
    /// link below the root.
    pub fn get_link_tree_traversal_layer(&self, link_idx: usize) -> (r: Result<usize, OptimaError>)
        requires
            self.wf(),
        ensures
            self.spec_link_is_traversed(link_idx as int) ==> r == Ok::<usize, OptimaError>(
                self.spec_link_depth(link_idx as int) as usize,
            ),
            !self.spec_link_is_traversed(link_idx as int) ==> r == Err::<usize, OptimaError>(
                self.spec_traversal_error(link_idx),
            ),
    {
        let mut k: usize = 0;
        while k < self.link_tree_traversal_layers.len()
            invariant
                self.wf(),
                k <= self.link_tree_traversal_layers@.len(),
                forall|a: int|
                    0 <= a < k ==> !(#[trigger] self.link_tree_traversal_layers@[a])@.contains(
                        link_idx,
                    ),
            decreases self.link_tree_traversal_layers@.len() - k,
        {
            if vec_contains(&self.link_tree_traversal_layers[k], link_idx) {
                proof {
                    let layer = self.link_tree_traversal_layers@[k as int]@;
                    assert(layer_is_at_depth(
                        self.links@,
                        self.spec_root_paths(),
                        layer,
                        k as int,
                    ));
                    let w = choose|w: int| 0 <= w < layer.len() && layer[w] == link_idx;
                    assert(layer[w] == link_idx);
                }
                return Ok(k);
            }
            k += 1;
        }
        if link_idx >= self.links.len() {
            Err(OptimaError::IndexOutOfBounds { index: link_idx, length: self.links.len() })
        } else {
            Err(OptimaError::LinkNotTraversed { link_idx })
        }
    }

    /// Returns, of the given links, the one in the deepest traversal layer; of
    /// several in that layer, the last in the list. A list of one link is answered
    /// with that link, whatever it is. An empty list is an error, and so is, in a
    /// list of two or more, a link that stands in no layer: the first such link is
    /// reported.
    pub fn get_link_with_highest_tree_traversal_layer(&self, link_idxs: &Vec<usize>) -> (r: Result<
        usize,
        OptimaError,
    >)
        requires
            self.wf(),
        ensures
            link_idxs@.len() == 0 ==> r == Err::<usize, OptimaError>(
                OptimaError::IndexOutOfBounds { index: 0, length: 0 },
            ),
            link_idxs@.len() == 1 ==> r == Ok::<usize, OptimaError>(link_idxs@[0]),
            link_idxs@.len() >= 2 ==> match r {
                Ok(link) => exists|best: int|
                    {
                        &&& 0 <= best < link_idxs@.len()
                        &&& link == #[trigger] link_idxs@[best]
                        &&& forall|k: int|
                            0 <= k < link_idxs@.len() ==> {
                                &&& self.spec_link_is_traversed(link_idxs@[k] as int)
                                &&& self.spec_link_depth(link_idxs@[k] as int)
                                    <= self.spec_link_depth(link as int)
                            }
                        &&& forall|k: int|
                            best < k < link_idxs@.len() ==> self.spec_link_depth(
                                link_idxs@[k] as int,
                            ) < self.spec_link_depth(link as int)
                    },
                Err(e) => exists|bad: int|
                    {
                        &&& 0 <= bad < link_idxs@.len()
                        &&& !self.spec_link_is_traversed(link_idxs@[bad] as int)
                        &&& e == self.spec_traversal_error(#[trigger] link_idxs@[bad])
                        &&& forall|k: int|
                            0 <= k < bad ==> self.spec_link_is_traversed(link_idxs@[k] as int)
                    },
            },
    {
        if link_idxs.len() == 1 {
            return Ok(link_idxs[0]);
        }
        if link_idxs.len() == 0 {
            return Err(OptimaError::IndexOutOfBounds { index: 0, length: 0 });
        }
        let mut highest_layer: usize = 0;
        let mut highest_layer_link_idx: usize = 0;
        let ghost mut best: int = -1;
        let mut i: usize = 0;
        while i < link_idxs.len()
            invariant
                self.wf(),
                i <= link_idxs@.len(),
                link_idxs@.len() >= 2,
                -1 <= best < i,
                i > 0 ==> best >= 0,
                best < 0 ==> highest_layer == 0,
                best >= 0 ==> {
                    &&& highest_layer_link_idx == link_idxs@[best]
                    &&& highest_layer == self.spec_link_depth(highest_layer_link_idx as int)
                },
                forall|k: int|
                    0 <= k < i ==> {
                        &&& self.spec_link_is_traversed(link_idxs@[k] as int)
                        &&& self.spec_link_depth(link_idxs@[k] as int) <= highest_layer
                    },
                forall|k: int|
                    best < k < i ==> self.spec_link_depth(link_idxs@[k] as int) < highest_layer,
            decreases link_idxs@.len() - i,
        {
            let layer = match self.get_link_tree_traversal_layer(link_idxs[i]) {
                Ok(layer) => layer,
                Err(e) => {
                    assert(e == self.spec_traversal_error(link_idxs@[i as int]));
                    return Err(e);
                },
            };
            if layer >= highest_layer {
                highest_layer = layer;
                highest_layer_link_idx = link_idxs[i];
                proof {
                    best = i as int;
                }
            }
            i += 1;
        }
        assert(highest_layer_link_idx == link_idxs@[best]);
        Ok(highest_layer_link_idx)
    }

    /// Returns the chain of links that leads from `from_link_idx` down to
    /// `to_link_idx`, both ends included, or `None` where the first is not the second
    /// or one of its ancestors. An index that is too large is reported, `from` first.
    pub fn get_link_chain(&self, from_link_idx: usize, to_link_idx: usize) -> (r: Result<
        Option<&Vec<usize>>,
        OptimaError,
    >)
        requires
            self.wf(),
        ensures
            from_link_idx >= self.spec_links().len() ==> r == Err::<Option<&Vec<usize>>, OptimaError>(
                OptimaError::IndexOutOfBounds {
                    index: from_link_idx,
                    length: self.spec_links().len() as usize,
                },
            ),
            from_link_idx < self.spec_links().len() && to_link_idx >= self.spec_links().len() ==> r
                == Err::<Option<&Vec<usize>>, OptimaError>(
                OptimaError::IndexOutOfBounds {
                    index: to_link_idx,
                    length: self.spec_links().len() as usize,
                },
            ),
            from_link_idx < self.spec_links().len() && to_link_idx < self.spec_links().len() ==> {
                &&& r is Ok
                &&& r->Ok_0 matches Some(chain) ==> {
                    &&& chain@ == self.spec_link_chain(from_link_idx as int, to_link_idx as int)
                    &&& is_path_between(
                        self.spec_links(),
                        chain@,
                        from_link_idx as int,
                        to_link_idx as int,
                    )
                }
                &&& r->Ok_0 is None ==> forall|path: Seq<usize>|
                    !is_path_between(
                        self.spec_links(),
                        path,
                        from_link_idx as int,
                        to_link_idx as int,
                    )
                &&& from_link_idx == to_link_idx ==> r->Ok_0 is Some && r->Ok_0->0@
                    == seq![from_link_idx]
            },
    {
        let n = self.links.len();
        if from_link_idx >= n {
            return Err(OptimaError::IndexOutOfBounds { index: from_link_idx, length: n });
        }
        if to_link_idx >= n {
            return Err(OptimaError::IndexOutOfBounds { index: to_link_idx, length: n });
        }
        assert(chain_row_is_current(
            self.links@,
            self.link_chains@[from_link_idx as int],
            from_link_idx as int,
        ));
        let chain = &self.link_chains[from_link_idx][to_link_idx];
        assert(is_chain_between(self.links@, chain@, from_link_idx as int, to_link_idx as int));
        if chain.len() == 0 {
            Ok(None)
        } else {
            Ok(Some(chain))
        }
    }

    /// Returns the position of the link with the given name; of several links with
    /// that name, the last.
    pub fn get_link_idx_from_name(&self, link_name: &String) -> (r: Option<usize>)
        ensures
            r matches Some(i) ==> {
                &&& i < self.spec_links().len()
                &&& self.spec_links()[i as int].name@ == link_name@
                &&& forall|k: int|
                    i < k < self.spec_links().len() ==> self.spec_links()[k].name@ != link_name@
            },
            r is None ==> forall|k: int|
                0 <= k < self.spec_links().len() ==> self.spec_links()[k].name@ != link_name@,
    {
        let mut k: usize = self.links.len();
        while k > 0
            invariant
                k <= self.links@.len(),
                forall|a: int| k <= a < self.links@.len() ==> self.links@[a].name@ != link_name@,
            decreases k,
        {
            k -= 1;
            if self.links[k].name == *link_name {
                return Some(k);
            }
        }
        None
    }

    /// Returns the position of the joint with the given name; of several joints with
    /// that name, which a description may have, the last.
    pub fn get_joint_idx_from_name(&self, joint_name: &String) -> (r: Option<usize>)
        ensures
            r matches Some(j) ==> {
                &&& j < self.spec_joints().len()
                &&& self.spec_joints()[j as int].name@ == joint_name@
                &&& forall|k: int|
                    j < k < self.spec_joints().len() ==> self.spec_joints()[k].name@ != joint_name@
            },
            r is None ==> forall|k: int|
                0 <= k < self.spec_joints().len() ==> self.spec_joints()[k].name@ != joint_name@,
    {
        let mut k: usize = self.joints.len();
        while k > 0
            invariant
                k <= self.joints@.len(),
                forall|a: int|
                    k <= a < self.joints@.len() ==> self.joints@[a].name@ != joint_name@,
            decreases k,
        {
            k -= 1;
            if self.joints[k].name == *joint_name {
                return Some(k);
            }
        }
        None
    }

    /// Returns the links whose recorded nearest actuated joint is `joint_idx`, in
    /// ascending order.
    pub fn get_all_link_idxs_with_given_preceding_actuated_joint_idx(&self, joint_idx: usize) -> (r:
        Vec<usize>)
        ensures
            forall|x: int, y: int| 0 <= x < y < r@.len() ==> r@[x] < r@[y],
            forall|x: int|
                0 <= x < r@.len() ==> {
                    &&& (#[trigger] r@[x]) < self.spec_preceding_actuated_joint_idxs().len()
                    &&& self.spec_preceding_actuated_joint_idxs()[r@[x] as int] == Some(joint_idx)
                },
            forall|i: int|
                0 <= i < self.spec_preceding_actuated_joint_idxs().len()
                    && #[trigger] self.spec_preceding_actuated_joint_idxs()[i] == Some(joint_idx)
                    ==> r@.contains(i as usize),
    {
        let mut out_vec: Vec<usize> = Vec::new();
        let mut i: usize = 0;
        while i < self.preceding_actuated_joint_idxs.len()
            invariant
                i <= self.preceding_actuated_joint_idxs@.len(),
                forall|x: int, y: int| 0 <= x < y < out_vec@.len() ==> out_vec@[x] < out_vec@[y],
                forall|x: int|
                    0 <= x < out_vec@.len() ==> {
                        &&& (#[trigger] out_vec@[x]) < i
                        &&& self.preceding_actuated_joint_idxs@[out_vec@[x] as int] == Some(
                            joint_idx,
                        )
                    },
                forall|a: int|
                    0 <= a < i && #[trigger] self.preceding_actuated_joint_idxs@[a] == Some(joint_idx)
                        ==> out_vec@.contains(a as usize),
            decreases self.preceding_actuated_joint_idxs@.len() - i,
        {
            let matches_joint = match self.preceding_actuated_joint_idxs[i] {
                Some(j) => j == joint_idx,
                None => false,
            };
            if matches_joint {
                let ghost before = out_vec@;
                out_vec.push(i);
                proof {
                    assert forall|a: int|
                        0 <= a < i + 1 && #[trigger] self.preceding_actuated_joint_idxs@[a] == Some(
                            joint_idx,
                        ) implies out_vec@.contains(a as usize) by {
                        if a < i {
                            let w = choose|w: int| 0 <= w < before.len() && before[w] == a as usize;
                            assert(out_vec@[w] == a as usize);
                        } else {
                            assert(out_vec@[out_vec@.len() - 1] == i);
                        }
                    }
                }
            }
            i += 1;
        }
        out_vec
    }

    /// Marks the joint as not present.
    pub fn set_joint_as_not_present(&mut self, joint_idx: usize) -> (r: Result<(), OptimaError>)
        requires
            old(self).wf(),
        ensures
            final(self).wf(),
            final(self).same_tables(old(self)),
            final(self).spec_links() == old(self).spec_links(),
            joint_idx < old(self).spec_joints().len() ==> {
                &&& r == Ok::<(), OptimaError>(())
                &&& final(self).spec_joints() == old(self).spec_joints().update(
                    joint_idx as int,
                    (Joint { present: false, ..old(self).spec_joints()[joint_idx as int] }),
                )
            },
            joint_idx >= old(self).spec_joints().len() ==> {
                &&& r == Err::<(), OptimaError>(
                    OptimaError::IndexOutOfBounds {
                        index: joint_idx,
                        length: old(self).spec_joints().len() as usize,
                    },
                )
                &&& final(self).spec_joints() == old(self).spec_joints()
            },
    {
        self.set_joint_presence(joint_idx, false)
    }

    /// Marks the joint as present.
    pub fn set_joint_as_present(&mut self, joint_idx: usize) -> (r: Result<(), OptimaError>)
        requires
            old(self).wf(),
        ensures
            final(self).wf(),
            final(self).same_tables(old(self)),
            final(self).spec_links() == old(self).spec_links(),
            joint_idx < old(self).spec_joints().len() ==> {
                &&& r == Ok::<(), OptimaError>(())
                &&& final(self).spec_joints() == old(self).spec_joints().update(
                    joint_idx as int,
                    (Joint { present: true, ..old(self).spec_joints()[joint_idx as int] }),
                )
            },
            joint_idx >= old(self).spec_joints().len() ==> {
                &&& r == Err::<(), OptimaError>(
                    OptimaError::IndexOutOfBounds {
                        index: joint_idx,
                        length: old(self).spec_joints().len() as usize,
                    },
                )
                &&& final(self).spec_joints() == old(self).spec_joints()
            },
    {
        self.set_joint_presence(joint_idx, true)
    }

    fn set_joint_presence(&mut self, joint_idx: usize, present: bool) -> (r: Result<(), OptimaError>)
        requires
            old(self).wf(),
        ensures
            final(self).wf(),
            final(self).same_tables(old(self)),
            final(self).spec_links() == old(self).spec_links(),
            joint_idx < old(self).spec_joints().len() ==> {
                &&& r == Ok::<(), OptimaError>(())
                &&& final(self).spec_joints() == old(self).spec_joints().update(
                    joint_idx as int,
                    (Joint { present, ..old(self).spec_joints()[joint_idx as int] }),
                )
            },
            joint_idx >= old(self).spec_joints().len() ==> {
                &&& r == Err::<(), OptimaError>(
                    OptimaError::IndexOutOfBounds {
                        index: joint_idx,
                        length: old(self).spec_joints().len() as usize,
                    },
                )
                &&& final(self).spec_joints() == old(self).spec_joints()
            },
    {
        if joint_idx >= self.joints.len() {
            return Err(
                OptimaError::IndexOutOfBounds { index: joint_idx, length: self.joints.len() },
            );
        }
        self.joints[joint_idx].present = present;
        proof {
            assert(self.joints@ =~= old(self).joints@.update(
                joint_idx as int,
                (Joint { present, ..old(self).joints@[joint_idx as int] }),
            ));
            self.lemma_wf_carries(old(self));
        }
        Ok(())
    }

    /// What the joints are after the link `link_idx` has been switched on or off:
    /// the joints that start at the link follow it.
    pub open spec fn joints_following_link(
        joints: Seq<Joint<T>>,
        link_idx: usize,
        present: bool,
    ) -> Seq<Joint<T>> {
        Seq::new(
            joints.len(),
            |j: int|
                if joints[j].preceding_link_idx == Some(link_idx) {
                    Joint { present, ..joints[j] }
                } else {
                    joints[j]
                },
        )
    }

    /// Marks the link as not present, and with it every joint that starts at the
    /// link. The root of the description is never switched off: for it nothing
    /// changes. The traversal layers are left as they are.
    pub fn set_link_as_not_present(&mut self, link_idx: usize) -> (r: Result<(), OptimaError>)
        requires
            old(self).wf(),
        ensures
            final(self).wf(),
            final(self).same_tables(old(self)),
            link_idx >= old(self).spec_links().len() ==> {
                &&& r == Err::<(), OptimaError>(
                    OptimaError::IndexOutOfBounds {
                        index: link_idx,
                        length: old(self).spec_links().len() as usize,
                    },
                )
                &&& final(self).spec_links() == old(self).spec_links()
                &&& final(self).spec_joints() == old(self).spec_joints()
            },
            link_idx < old(self).spec_links().len() ==> r == Ok::<(), OptimaError>(()),
            link_idx == old(self).spec_world_link_idx() ==> {
                &&& final(self).spec_links() == old(self).spec_links()
                &&& final(self).spec_joints() == old(self).spec_joints()
            },
            link_idx < old(self).spec_links().len() && link_idx != old(self).spec_world_link_idx()
                ==> {
                &&& final(self).spec_links() == old(self).spec_links().update(
                    link_idx as int,
                    (Link { present: false, ..old(self).spec_links()[link_idx as int] }),
                )
                &&& final(self).spec_joints() == Self::joints_following_link(
                    old(self).spec_joints(),
                    link_idx,
                    false,
                )
            },
    {
        if link_idx >= self.links.len() {
            return Err(OptimaError::IndexOutOfBounds { index: link_idx, length: self.links.len() });
        }
        if self.world_link_idx == link_idx {
            return Ok(());
        }
        self.set_link_presence(link_idx, false);
        Ok(())
    }

    /// Marks the link as present, and with it every joint that starts at the link.
    /// The traversal layers are left as they are.
    pub fn set_link_as_present(&mut self, link_idx: usize) -> (r: Result<(), OptimaError>)
        requires
            old(self).wf(),
        ensures
            final(self).wf(),
            final(self).same_tables(old(self)),
            link_idx >= old(self).spec_links().len() ==> {
                &&& r == Err::<(), OptimaError>(
                    OptimaError::IndexOutOfBounds {
                        index: link_idx,
                        length: old(self).spec_links().len() as usize,
                    },
                )
                &&& final(self).spec_links() == old(self).spec_links()
                &&& final(self).spec_joints() == old(self).spec_joints()
            },
            link_idx < old(self).spec_links().len() ==> {
                &&& r == Ok::<(), OptimaError>(())
                &&& final(self).spec_links() == old(self).spec_links().update(
                    link_idx as int,
                    (Link { present: true, ..old(self).spec_links()[link_idx as int] }),
                )
                &&& final(self).spec_joints() == Self::joints_following_link(
                    old(self).spec_joints(),
                    link_idx,
                    true,
                )
            },
    {
        if link_idx >= self.links.len() {
            return Err(OptimaError::IndexOutOfBounds { index: link_idx, length: self.links.len() });
        }
        self.set_link_presence(link_idx, true);
        Ok(())
    }

    fn set_link_presence(&mut self, link_idx: usize, present: bool)
        requires
            old(self).wf(),
            link_idx < old(self).spec_links().len(),
        ensures
            final(self).wf(),
            final(self).same_tables(old(self)),
            final(self).spec_links() == old(self).spec_links().update(
                link_idx as int,
                (Link { present, ..old(self).spec_links()[link_idx as int] }),
            ),
            final(self).spec_joints() == Self::joints_following_link(
                old(self).spec_joints(),
                link_idx,
                present,
            ),
    {
        self.links[link_idx].present = present;
        let l = self.joints.len();
        let mut i: usize = 0;
        while i < l
            invariant
                l == old(self).joints@.len(),
                i <= l,
                self.same_tables(old(self)),
                self.links@ == old(self).links@.update(
                    link_idx as int,
                    (Link { present, ..old(self).links@[link_idx as int] }),
                ),
                self.joints@.len() == l,
                forall|j: int|
                    0 <= j < i ==> #[trigger] self.joints@[j] == Self::joints_following_link(
                        old(self).joints@,
                        link_idx,
                        present,
                    )[j],
                forall|j: int| i <= j < l ==> #[trigger] self.joints@[j] == old(self).joints@[j],
            decreases l - i,
        {
            let follows = match self.joints[i].preceding_link_idx {
                Some(prec) => prec == link_idx,
                None => false,
            };
            if follows {
                self.joints[i].present = present;
            }
            i += 1;
        }
        proof {
            assert(self.joints@ =~= Self::joints_following_link(
                old(self).joints@,
                link_idx,
                present,
            ));
            self.lemma_wf_carries(old(self));
        }
    }

    /// Fixes one axis of a joint at a value, or frees it with `None`. The recorded
    /// nearest actuated joints are left as they are.
    pub fn set_fixed_joint_sub_dof(
        &mut self,
        joint_idx: usize,
        joint_sub_idx: usize,
        fixed_value: Option<T>,
    ) -> (r: Result<(), OptimaError>)
        requires
            old(self).wf(),
        ensures
            final(self).wf(),
            final(self).same_tables(old(self)),
            final(self).spec_links() == old(self).spec_links(),
            joint_idx >= old(self).spec_joints().len() ==> {
                &&& r == Err::<(), OptimaError>(
                    OptimaError::IndexOutOfBounds {
                        index: joint_idx,
                        length: old(self).spec_joints().len() as usize,
                    },
                )
                &&& final(self).spec_joints() == old(self).spec_joints()
            },
            joint_idx < old(self).spec_joints().len() && joint_sub_idx >= old(
                self,
            ).spec_joints()[joint_idx as int].joint_axes@.len() ==> {
                &&& r == Err::<(), OptimaError>(
                    OptimaError::IndexOutOfBounds {
                        index: joint_sub_idx,
                        length: old(self).spec_joints()[joint_idx as int].joint_axes@.len() as usize,
                    },
                )
                &&& final(self).spec_joints() == old(self).spec_joints()
            },
            joint_idx < old(self).spec_joints().len() && joint_sub_idx < old(
                self,
            ).spec_joints()[joint_idx as int].joint_axes@.len() ==> {
                &&& r == Ok::<(), OptimaError>(())
                &&& final(self).spec_joints().len() == old(self).spec_joints().len()
                &&& forall|j: int|
                    0 <= j < old(self).spec_joints().len() && j != joint_idx
                        ==> #[trigger] final(self).spec_joints()[j] == old(self).spec_joints()[j]
                &&& final(self).spec_joints()[joint_idx as int] == (Joint {
                    joint_axes: final(self).spec_joints()[joint_idx as int].joint_axes,
                    ..old(self).spec_joints()[joint_idx as int]
                })
                &&& final(self).spec_joints()[joint_idx as int].joint_axes@ == old(
                    self,
                ).spec_joints()[joint_idx as int].joint_axes@.update(
                    joint_sub_idx as int,
                    (JointAxis {
                        fixed_value,
                        ..old(self).spec_joints()[joint_idx as int].joint_axes@[joint_sub_idx as int]
                    }),
                )
            },
    {
        if joint_idx >= self.joints.len() {
            return Err(
                OptimaError::IndexOutOfBounds { index: joint_idx, length: self.joints.len() },
            );
        }
        let res = self.joints[joint_idx].set_fixed_joint_sub_dof(joint_sub_idx, fixed_value);
        proof {
            if res is Err {
                assert(self.joints@ =~= old(self).joints@);
            }
            self.lemma_wf_carries(old(self));
        }
        res
    }

    /// Fixes every axis of a joint at a value, or frees them all with `None`. The
    /// recorded nearest actuated joints are left as they are.
    pub fn set_fixed_joint(&mut self, joint_idx: usize, fixed_value: Option<T>) -> (r: Result<
        (),
        OptimaError,
    >)
        requires
            old(self).wf(),
        ensures
            final(self).wf(),
            final(self).same_tables(old(self)),
            final(self).spec_links() == old(self).spec_links(),
            joint_idx >= old(self).spec_joints().len() ==> {
                &&& r == Err::<(), OptimaError>(
                    OptimaError::IndexOutOfBounds {
                        index: joint_idx,
                        length: old(self).spec_joints().len() as usize,
                    },
                )
                &&& final(self).spec_joints() == old(self).spec_joints()
            },
            joint_idx < old(self).spec_joints().len() ==> {
                &&& r == Ok::<(), OptimaError>(())
                &&& final(self).spec_joints().len() == old(self).spec_joints().len()
                &&& forall|j: int|
                    0 <= j < old(self).spec_joints().len() && j != joint_idx
                        ==> #[trigger] final(self).spec_joints()[j] == old(self).spec_joints()[j]
                &&& final(self).spec_joints()[joint_idx as int] == (Joint {
                    joint_axes: final(self).spec_joints()[joint_idx as int].joint_axes,
                    ..old(self).spec_joints()[joint_idx as int]
                })
                &&& final(self).spec_joints()[joint_idx as int].joint_axes@.len() == old(
                    self,
                ).spec_joints()[joint_idx as int].joint_axes@.len()
                &&& forall|k: int|
                    0 <= k < old(self).spec_joints()[joint_idx as int].joint_axes@.len()
                        ==> #[trigger] final(self).spec_joints()[joint_idx as int].joint_axes@[k]
                        == (JointAxis {
                        fixed_value,
                        ..old(self).spec_joints()[joint_idx as int].joint_axes@[k]
                    })
            },
    {
        if joint_idx >= self.joints.len() {
            return Err(
                OptimaError::IndexOutOfBounds { index: joint_idx, length: self.joints.len() },
            );
        }
        let num_axes = self.joints[joint_idx].num_axes();
        let mut d: usize = 0;
        while d < num_axes
            invariant
                self.wf(),
                self.same_tables(old(self)),
                self.links@ == old(self).links@,
                joint_idx < self.joints@.len(),
                self.joints@.len() == old(self).joints@.len(),
                num_axes == old(self).joints@[joint_idx as int].joint_axes@.len(),
                d <= num_axes,
                forall|j: int|
                    0 <= j < old(self).joints@.len() && j != joint_idx ==> #[trigger] self.joints@[j]
                        == old(self).joints@[j],
                self.joints@[joint_idx as int] == (Joint {
                    joint_axes: self.joints@[joint_idx as int].joint_axes,
                    ..old(self).joints@[joint_idx as int]
                }),
                self.joints@[joint_idx as int].joint_axes@.len() == num_axes,
                forall|k: int|
                    0 <= k < d ==> #[trigger] self.joints@[joint_idx as int].joint_axes@[k]
                        == (JointAxis {
                        fixed_value,
                        ..old(self).joints@[joint_idx as int].joint_axes@[k]
                    }),
                forall|k: int|
                    d <= k < num_axes ==> #[trigger] self.joints@[joint_idx as int].joint_axes@[k]
                        == old(self).joints@[joint_idx as int].joint_axes@[k],
            decreases num_axes - d,
        {
            let res = self.set_fixed_joint_sub_dof(joint_idx, d, fixed_value);
            d += 1;
        }
        Ok(())
    }
}

impl<T: Copy> RobotModelModule<T> {
    /// Current layers hold a link exactly when the link and its ancestors below the
    /// root are present, and then in the layer of its depth and in no other; no
    /// layer holds a link twice.
    pub proof fn lemma_layers_hold_reached_links(&self, i: int, k: int)
        requires
            self.wf(),
            self.layers_current(),
            0 <= i < self.spec_links().len(),
            0 <= k < self.spec_link_tree_traversal_layers().len(),
        ensures
            self.spec_link_is_traversed(i) <==> path_is_present(
                self.spec_links(),
                self.spec_root_paths()[i]@,
            ),
            self.spec_link_tree_traversal_layers()[k]@.contains(i as usize) <==> (
            self.spec_link_is_traversed(i) && k == self.spec_link_depth(i)),
            forall|x: int, y: int|
                0 <= x < y < self.spec_link_tree_traversal_layers()[k]@.len()
                    ==> self.spec_link_tree_traversal_layers()[k]@[x]
                    != self.spec_link_tree_traversal_layers()[k]@[y],
    {
        let links = self.spec_links();
        let layers = self.spec_link_tree_traversal_layers();
        let root_paths = self.spec_root_paths();
        assert(link_is_placed(links, root_paths, layers, links.len() as int, i));
        assert(layer_is_reached(links, root_paths, layers[k]@));
        assert(layer_is_at_depth(links, root_paths, layers[k]@, k));
        if self.spec_link_is_traversed(i) {
            let d = self.spec_link_depth(i);
            assert(layer_is_reached(links, root_paths, layers[d]@));
            let w = choose|w: int| 0 <= w < layers[d]@.len() && layers[d]@[w] == i as usize;
            assert(path_is_present(links, root_paths[layers[d]@[w] as int]@));
        }
        if layers[k]@.contains(i as usize) {
            let w = choose|w: int| 0 <= w < layers[k]@.len() && layers[k]@[w] == i as usize;
            assert(root_paths[layers[k]@[w] as int]@.len() == k + 1);
        }
    }

    /// With every link present, current layers hold every link exactly once, in the
    /// layer of its depth, and the depth of a link is one more than that of its
    /// parent.
    pub proof fn lemma_layers_partition_links(&self, i: int)
        requires
            self.wf(),
            self.layers_current(),
            forall|a: int| 0 <= a < self.spec_links().len() ==> self.spec_links()[a].present,
            0 <= i < self.spec_links().len(),
        ensures
            self.spec_link_is_traversed(i),
            forall|k: int|
                0 <= k < self.spec_link_tree_traversal_layers().len() ==> (
                self.spec_link_tree_traversal_layers()[k]@.contains(i as usize) <==> k
                    == self.spec_link_depth(i)),
            i != self.spec_robot_base_link_idx() ==> self.spec_link_depth(i)
                == self.spec_link_depth(self.spec_links()[i].preceding_link_idx->0 as int) + 1,
            i == self.spec_robot_base_link_idx() ==> self.spec_link_depth(i) == 0,
    {
        let links = self.spec_links();
        let root_paths = self.spec_root_paths();
        let root = self.spec_robot_base_link_idx() as int;
        assert(is_path_between(links, root_paths[i]@, root, i));
        assert(path_is_present(links, root_paths[i]@));
        assert(link_is_placed(
            links,
            root_paths,
            self.spec_link_tree_traversal_layers(),
            links.len() as int,
            i,
        ));
        assert forall|k: int|
            0 <= k < self.spec_link_tree_traversal_layers().len() implies (
        self.spec_link_tree_traversal_layers()[k]@.contains(i as usize) <==> k
            == self.spec_link_depth(i)) by {
            self.lemma_layers_hold_reached_links(i, k);
        }
        assert(self.links@.len() == self.links.len());
        if i != root {
            lemma_root_path_extends_parent(links, root_paths, root, i);
        } else {
            lemma_root_paths_agree(links, seq![root as usize], root_paths[i]@);
        }
    }

    /// The chain of a link to itself is that link alone. A chain that is not empty
    /// leads from its first link to its second, and it is the only path that does.
    /// Of two different links at most one has a chain to the other.
    pub proof fn lemma_link_chains_lead_down(&self, from: int, to: int)
        requires
            self.wf(),
            0 <= from < self.spec_links().len(),
            0 <= to < self.spec_links().len(),
        ensures
            self.spec_link_chain(from, from) == seq![from as usize],
            is_chain_between(self.spec_links(), self.spec_link_chain(from, to), from, to),
            self.spec_link_chain(from, to).len() > 0 ==> {
                &&& self.spec_link_chain(from, to)[0] == from
                &&& self.spec_link_chain(from, to)[self.spec_link_chain(from, to).len() - 1] == to
            },
            forall|path: Seq<usize>|
                is_path_between(self.spec_links(), path, from, to) ==> path
                    == self.spec_link_chain(from, to),
            from != to && self.spec_link_chain(from, to).len() > 0 ==> self.spec_link_chain(
                to,
                from,
            ).len() == 0,
    {
        let links = self.spec_links();
        let root = self.spec_robot_base_link_idx() as int;
        let root_paths = self.spec_root_paths();
        let down = self.spec_link_chain(from, to);
        let up = self.spec_link_chain(to, from);
        assert(chain_row_is_current(links, self.spec_link_chains()[from], from));
        assert(chain_row_is_current(links, self.spec_link_chains()[to], to));
        assert(is_chain_between(links, down, from, to));
        assert(is_chain_between(links, up, to, from));
        assert(is_path_between(links, root_paths[to]@, root, to));
        assert(is_path_between(links, root_paths[from]@, root, from));
        assert forall|path: Seq<usize>| is_path_between(links, path, from, to) implies path
            == down by {
            lemma_path_between_is_unique(links, root_paths[to]@, path, down);
        }
        if from != to && down.len() > 0 && up.len() > 0 {
            let round = down + up.subrange(1, up.len() as int);
            assert(is_link_path(links, round)) by {
                assert forall|k: int| 0 < k < round.len() implies (#[trigger] links[round[k] as int]).preceding_link_idx
                    == Some(round[k - 1]) by {
                    if k < down.len() {
                        assert(links[down[k] as int].preceding_link_idx == Some(down[k - 1]));
                    } else {
                        let u = k - down.len() + 1;
                        assert(round[k] == up[u]);
                        assert(links[up[u] as int].preceding_link_idx == Some(up[u - 1]));
                    }
                }
            }
            assert(is_link_path(links, seq![from as usize]));
            let last = round[round.len() - 1];
            assert(last == from) by {
                if up.len() > 1 {
                    assert(round[round.len() - 1] == up[up.len() - 1]);
                } else {
                    assert(up[0] == to && up[0] == from);
                }
            }
            lemma_path_between_is_unique(links, root_paths[from]@, round, seq![from as usize]);
        }
    }
}

/// The links and joints after a synthetic base link and the joint that carries the
/// old root have been put ahead of the old root `root`.
pub open spec fn base_is_inserted<T>(
    links_before: Seq<Link>,
    joints_before: Seq<Joint<T>>,
    links_after: Seq<Link>,
    joints_after: Seq<Joint<T>>,
    root: int,
) -> bool {
    let n = links_before.len() as int;
    let m = joints_before.len() as int;
    &&& links_after.len() == n + 1
    &&& joints_after.len() == m + 1
    &&& forall|i: int| 0 <= i < n && i != root ==> #[trigger] links_after[i] == links_before[i]
    &&& links_after[root] == (Link {
        preceding_link_idx: Some(n as usize),
        preceding_joint_idx: Some(m as usize),
        ..links_before[root]
    })
    &&& links_after[n].link_idx == n
    &&& links_after[n].present
    &&& links_after[n].preceding_link_idx is None
    &&& links_after[n].preceding_joint_idx is None
    &&& links_after[n].children_link_idxs@ == seq![root as usize]
    &&& forall|j: int| 0 <= j < m ==> #[trigger] joints_after[j] == joints_before[j]
    &&& joints_after[m].joint_idx == m
    &&& joints_after[m].present
    &&& joints_after[m].preceding_link_idx == Some(n as usize)
    &&& joints_after[m].child_link_idx == Some(root as usize)
}

proof fn lemma_inserted_base_agrees<T>(
    links_before: Seq<Link>,
    joints_before: Seq<Joint<T>>,
    links_after: Seq<Link>,
    joints_after: Seq<Joint<T>>,
    root: int,
)
    requires
        links_and_joints_agree(links_before, joints_before, root),
        base_is_inserted(links_before, joints_before, links_after, joints_after, root),
        axes_belong_to(
            joints_after[joints_before.len() as int].joint_axes@,
            joints_before.len() as usize,
        ),
        links_before.len() < usize::MAX,
        joints_before.len() < usize::MAX,
    ensures
        links_and_joints_agree(links_after, joints_after, links_before.len() as int),
{
    let n = links_before.len() as int;
    let m = joints_before.len() as int;
    assert(link_agrees(links_before, joints_before, root, root));
    assert forall|i: int| 0 <= i < links_after.len() implies #[trigger] link_agrees(
        links_after,
        joints_after,
        n,
        i,
    ) by {
        let link = links_after[i];
        if i < n {
            assert(link_agrees(links_before, joints_before, root, i));
            assert(link.children_link_idxs@ == links_before[i].children_link_idxs@);
            assert forall|k: int| 0 <= k < link.children_link_idxs@.len() implies {
                &&& (#[trigger] link.children_link_idxs@[k]) < links_after.len()
                &&& links_after[link.children_link_idxs@[k] as int].preceding_link_idx == Some(
                    i as usize,
                )
            } by {
                let c = links_before[i].children_link_idxs@[k];
                assert(c < n);
                assert(links_before[c as int].preceding_link_idx == Some(i as usize));
                assert(c != root);
            }
            assert forall|k1: int, k2: int|
                0 <= k1 < k2 < link.children_link_idxs@.len() implies links_after[(
            #[trigger] link.children_link_idxs@[k1]) as int].preceding_joint_idx->0 < links_after[(
            #[trigger] link.children_link_idxs@[k2]) as int].preceding_joint_idx->0 by {
                let c1 = links_before[i].children_link_idxs@[k1];
                let c2 = links_before[i].children_link_idxs@[k2];
                assert(c1 < n && c2 < n);
                assert(links_before[c1 as int].preceding_link_idx == Some(i as usize));
                assert(links_before[c2 as int].preceding_link_idx == Some(i as usize));
                assert(c1 != root && c2 != root);
                assert(links_before[c1 as int].preceding_joint_idx->0
                    < links_before[c2 as int].preceding_joint_idx->0);
            }
            if i == root {
                assert(links_after[n].children_link_idxs@[0] == root as usize);
            } else {
                let p = links_before[i].preceding_link_idx->0 as int;
                assert(links_after[p].children_link_idxs@ == links_before[p].children_link_idxs@);
            }
        } else {
            assert(link.children_link_idxs@[0] == root as usize);
        }
    }
    assert forall|j: int| 0 <= j < joints_after.len() implies #[trigger] joint_agrees(
        links_after,
        joints_after,
        j,
    ) by {
        if j < m {
            assert(joint_agrees(links_before, joints_before, j));
            let c = joints_before[j].child_link_idx->0 as int;
            assert(c != root);
        }
    }
    assert forall|i: int| 0 <= i < links_after.len() && i != n implies {
        &&& (#[trigger] links_after[i]).preceding_link_idx is Some
        &&& links_after[i].preceding_link_idx->0 < links_after.len()
    } by {
        if i != root {
            assert(links_before[i].preceding_link_idx is Some);
        }
    }
}

proof fn lemma_inserted_base_is_ranked<T>(
    links_before: Seq<Link>,
    joints_before: Seq<Joint<T>>,
    links_after: Seq<Link>,
    joints_after: Seq<Joint<T>>,
    root_paths: Seq<Vec<usize>>,
    root: int,
)
    requires
        parents_in_range(links_before, root),
        root_paths_are_current(links_before, root_paths, root),
        base_is_inserted(links_before, joints_before, links_after, joints_after, root),
        links_before.len() < usize::MAX,
    ensures
        exists|rank: Seq<nat>| is_ranking(links_after, rank),
{
    let n = links_before.len() as int;
    let rank = Seq::new(
        (n + 1) as nat,
        |i: int|
            if i < n {
                root_paths[i]@.len()
            } else {
                0nat
            },
    );
    assert forall|i: int|
        0 <= i < links_after.len() && (#[trigger] links_after[i]).preceding_link_idx is Some implies {
        &&& links_after[i].preceding_link_idx->0 < links_after.len()
        &&& rank[links_after[i].preceding_link_idx->0 as int] < rank[i]
    } by {
        assert(is_path_between(links_before, root_paths[i]@, root, i));
        if i != root {
            lemma_root_path_extends_parent(links_before, root_paths, root, i);
        }
    }
    assert(is_ranking(links_after, rank));
}

impl<T: Copy> RobotModelModule<T> {
    /// Puts a mobile base ahead of the root: a synthetic link becomes the new root
    /// of the tree, and a joint with the free axes of the mobility mode leads from
    /// it to the old root, which is `child_link_idx`. Chains, traversal layers and
    /// nearest actuated joints are computed anew. The root of the description
    /// stays what it was.
    ///
    /// With the mode `Static` nothing changes. A link that is not the root of the
    /// tree cannot get a base: an index that is too large is reported as such, any
    /// other link as a malformed graph, and nothing changes.
    pub fn add_contiguous_chain_link_and_joint(
        &mut self,
        base_of_chain_mobility_mode: &ContiguousChainMobilityMode,
        child_link_idx: usize,
    ) -> (r: Result<(), OptimaError>)
        requires
            old(self).wf(),
            old(self).spec_links().len() < usize::MAX,
            old(self).spec_joints().len() < usize::MAX,
        ensures
            final(self).wf(),
            *base_of_chain_mobility_mode == ContiguousChainMobilityMode::Static ==> {
                &&& r == Ok::<(), OptimaError>(())
                &&& *final(self) == *old(self)
            },
            *base_of_chain_mobility_mode != ContiguousChainMobilityMode::Static && child_link_idx
                >= old(self).spec_links().len() ==> {
                &&& r == Err::<(), OptimaError>(
                    OptimaError::IndexOutOfBounds {
                        index: child_link_idx,
                        length: old(self).spec_links().len() as usize,
                    },
                )
                &&& *final(self) == *old(self)
            },
            *base_of_chain_mobility_mode != ContiguousChainMobilityMode::Static && child_link_idx
                < old(self).spec_links().len() && child_link_idx != old(
                self,
            ).spec_robot_base_link_idx() ==> {
                &&& r == Err::<(), OptimaError>(OptimaError::MalformedGraph)
                &&& *final(self) == *old(self)
            },
            *base_of_chain_mobility_mode != ContiguousChainMobilityMode::Static && child_link_idx
                == old(self).spec_robot_base_link_idx() ==> {
                &&& r == Ok::<(), OptimaError>(())
                &&& base_is_inserted(
                    old(self).spec_links(),
                    old(self).spec_joints(),
                    final(self).spec_links(),
                    final(self).spec_joints(),
                    child_link_idx as int,
                )
                &&& final(self).spec_links()[old(self).spec_links().len() as int].name@
                    == "base_of_chain_link"@
                &&& final(self).spec_joints()[old(self).spec_joints().len() as int].name@
                    == "base_of_chain_connector_joint"@
                &&& final(self).spec_joints()[old(self).spec_joints().len() as int].joint_type
                    == mobility_mode_joint_type(*base_of_chain_mobility_mode)
                &&& final(self).spec_joints()[old(self).spec_joints().len() as int].joint_axes@
                    == free_axes::<T>(
                    mobility_mode_axis_kinds(*base_of_chain_mobility_mode),
                    old(self).spec_joints().len() as usize,
                    None,
                )
                &&& final(self).spec_robot_base_link_idx() == old(self).spec_links().len()
                &&& final(self).spec_world_link_idx() == old(self).spec_world_link_idx()
                &&& final(self).spec_robot_name() == old(self).spec_robot_name()
                &&& final(self).layers_current()
                &&& final(self).preceding_actuated_current()
            },
    {
        match base_of_chain_mobility_mode {
            ContiguousChainMobilityMode::Static => {
                return Ok(());
            },
            _ => {},
        }
        let new_link_idx = self.links.len();
        let new_joint_idx = self.joints.len();
        if child_link_idx >= new_link_idx {
            return Err(
                OptimaError::IndexOutOfBounds { index: child_link_idx, length: new_link_idx },
            );
        }
        if child_link_idx != self.robot_base_link_idx {
            return Err(OptimaError::MalformedGraph);
        }
        let root = self.robot_base_link_idx;
        let new_link = Link::new_base_of_chain_link(
            String::from_str("base_of_chain_link"),
            new_link_idx,
            child_link_idx,
        );
        let new_joint = Joint::new_base_of_chain_connector_joint(
            String::from_str("base_of_chain_connector_joint"),
            *base_of_chain_mobility_mode,
            new_joint_idx,
            new_link_idx,
            child_link_idx,
        );
        self.links[child_link_idx].preceding_link_idx = Some(new_link_idx);
        self.links[child_link_idx].preceding_joint_idx = Some(new_joint_idx);
        self.links.push(new_link);
        self.joints.push(new_joint);
        self.robot_base_link_idx = new_link_idx;
        proof {
            assert(base_is_inserted(
                old(self).links@,
                old(self).joints@,
                self.links@,
                self.joints@,
                root as int,
            ));
            lemma_inserted_base_agrees(
                old(self).links@,
                old(self).joints@,
                self.links@,
                self.joints@,
                root as int,
            );
            lemma_inserted_base_is_ranked(
                old(self).links@,
                old(self).joints@,
                self.links@,
                self.joints@,
                old(self).spec_root_paths(),
                root as int,
            );
        }
        let root_paths = match compute_root_paths(&self.links, new_link_idx) {
            Some(paths) => paths,
            None => {
                assert(false);
                return Err(OptimaError::MalformedGraph);
            },
        };
        let link_chains = compute_link_chains(&self.links, &root_paths);
        proof {
            lemma_chains_hold_root_paths(
                self.links@,
                link_chains@,
                root_paths@,
                new_link_idx as int,
            );
        }
        let layers = compute_traversal_layers(
            &self.links,
            &link_chains[new_link_idx],
            new_link_idx,
        );
        self.link_tree_max_depth = layers.len() - 1;
        self.link_tree_traversal_layers = layers;
        self.link_chains = link_chains;
        self.set_preceding_actuated_joint_idxs();
        Ok(())
    }
}

/// The seat in `order` of the parent of each link in `order` but the first: the
/// parent of a link stands before the link, the parents of later links do not stand
/// before the parents of earlier links, and links with one parent stand in the
/// order of the joints that lead to them.
pub open spec fn follows_parents(links: Seq<Link>, order: Seq<usize>, from: Seq<int>) -> bool {
    &&& from.len() == order.len()
    &&& forall|t: int|
        1 <= t < order.len() ==> {
            &&& 0 <= #[trigger] from[t] < t
            &&& links[order[t] as int].preceding_link_idx == Some(order[from[t]])
        }
    &&& forall|s: int, t: int|
        1 <= s < t < order.len() ==> {
            &&& #[trigger] from[s] <= #[trigger] from[t]
            &&& (from[s] == from[t] ==> links[order[s] as int].preceding_joint_idx->0
                < links[order[t] as int].preceding_joint_idx->0)
        }
}

impl<T: Copy> RobotModelModule<T> {
    /// `order` lists the link `link_idx` and every link below it, each once,
    /// breadth first: the link itself, then its children in their order, then the
    /// children of those, parent after parent.
    pub open spec fn is_downstream_order(&self, link_idx: int, order: Seq<usize>) -> bool {
        &&& order.len() >= 1
        &&& order[0] == link_idx
        &&& forall|s: int|
            0 <= s < order.len() ==> {
                &&& (#[trigger] order[s]) < self.spec_links().len()
                &&& self.spec_link_chain(link_idx, order[s] as int).len() > 0
            }
        &&& forall|i: int|
            0 <= i < self.spec_links().len() && (#[trigger] self.spec_link_chain(link_idx, i)).len()
                > 0 ==> order.contains(i as usize)
        &&& forall|s: int, t: int| 0 <= s < t < order.len() ==> order[s] != order[t]
        &&& exists|from: Seq<int>| follows_parents(self.spec_links(), order, from)
    }

    proof fn lemma_child_chain(&self, link_idx: int, parent: int, child: int)
        requires
            self.wf(),
            0 <= link_idx < self.spec_links().len(),
            0 <= parent < self.spec_links().len(),
            0 <= child < self.spec_links().len(),
            self.spec_link_chain(link_idx, parent).len() > 0,
            self.spec_links()[child].preceding_link_idx == Some(parent as usize),
        ensures
            self.spec_link_chain(link_idx, child) == self.spec_link_chain(link_idx, parent).push(
                child as usize,
            ),
    {
        let links = self.spec_links();
        self.lemma_links_fit();
        self.lemma_link_chains_lead_down(link_idx, parent);
        self.lemma_link_chains_lead_down(link_idx, child);
        let up = self.spec_link_chain(link_idx, parent);
        let path = up.push(child as usize);
        assert(is_link_path(links, path)) by {
            assert forall|k: int| 0 < k < path.len() implies (#[trigger] links[path[k] as int]).preceding_link_idx
                == Some(path[k - 1]) by {
                if k < up.len() {
                    assert(links[up[k] as int].preceding_link_idx == Some(up[k - 1]));
                }
            }
        }
        assert(is_path_between(links, path, link_idx, child));
    }

    proof fn lemma_parent_chain(&self, link_idx: int, child: int)
        requires
            self.wf(),
            0 <= link_idx < self.spec_links().len(),
            0 <= child < self.spec_links().len(),
            child != link_idx,
            self.spec_link_chain(link_idx, child).len() > 0,
        ensures
            self.spec_links()[child].preceding_link_idx is Some,
            self.spec_links()[child].preceding_link_idx->0 < self.spec_links().len(),
            self.spec_link_chain(link_idx, self.spec_links()[child].preceding_link_idx->0 as int)
                == self.spec_link_chain(link_idx, child).drop_last(),
            self.spec_links()[self.spec_links()[child].preceding_link_idx->0 as int].children_link_idxs@.contains(
                child as usize,
            ),
    {
        let links = self.spec_links();
        self.lemma_link_chains_lead_down(link_idx, child);
        let down = self.spec_link_chain(link_idx, child);
        assert(down.len() >= 2);
        let last = down.len() - 1;
        assert(links[down[last] as int].preceding_link_idx == Some(down[last - 1]));
        let parent = down[last - 1] as int;
        let up = down.drop_last();
        assert(is_link_path(links, up)) by {
            assert forall|k: int| 0 < k < up.len() implies (#[trigger] links[up[k] as int]).preceding_link_idx
                == Some(up[k - 1]) by {
                assert(links[down[k] as int].preceding_link_idx == Some(down[k - 1]));
            }
        }
        assert(is_path_between(links, up, link_idx, parent));
        self.lemma_link_chains_lead_down(link_idx, parent);
        assert(link_agrees(
            links,
            self.spec_joints(),
            self.spec_robot_base_link_idx() as int,
            child,
        ));
    }

    proof fn lemma_chain_fits(&self, link_idx: int, to: int)
        requires
            self.wf(),
            0 <= link_idx < self.spec_links().len(),
            0 <= to < self.spec_links().len(),
        ensures
            self.spec_link_chain(link_idx, to).len() <= self.spec_links().len(),
    {
        let links = self.spec_links();
        let root = self.spec_robot_base_link_idx() as int;
        self.lemma_link_chains_lead_down(link_idx, to);
        let down = self.spec_link_chain(link_idx, to);
        if down.len() > 0 {
            assert(is_path_between(links, self.spec_root_paths()[to]@, root, to));
            lemma_path_is_tail_of_root_path(links, self.spec_root_paths()[to]@, down);
        }
    }

    /// Returns the link and all links below it, breadth first: the link, its
    /// children, the children of those, and so on.
    pub fn get_all_downstream_links(&self, link_idx: usize) -> (r: Result<Vec<usize>, OptimaError>)
        requires
            self.wf(),
        ensures
            link_idx >= self.spec_links().len() ==> r == Err::<Vec<usize>, OptimaError>(
                OptimaError::IndexOutOfBounds {
                    index: link_idx,
                    length: self.spec_links().len() as usize,
                },
            ),
            link_idx < self.spec_links().len() ==> r is Ok && self.is_downstream_order(
                link_idx as int,
                r->Ok_0@,
            ),
    {
        let n = self.links.len();
        if link_idx >= n {
            return Err(OptimaError::IndexOutOfBounds { index: link_idx, length: n });
        }
        let ghost links = self.links@;
        let ghost root = self.robot_base_link_idx as int;
        let mut out_vec: Vec<usize> = Vec::new();
        out_vec.push(link_idx);
        let mut level_start: usize = 0;
        let ghost mut depth: int = 0;
        let ghost mut from: Seq<int> = seq![0int];
        proof {
            self.lemma_link_chains_lead_down(link_idx as int, link_idx as int);
            assert forall|i: int|
                0 <= i < n && 0 < (#[trigger] self.spec_link_chain(link_idx as int, i)).len()
                    <= 1 implies out_vec@.contains(i as usize) by {
                self.lemma_link_chains_lead_down(link_idx as int, i);
                assert(out_vec@[0] == link_idx);
            }
        }
        loop
            invariant
                self.wf(),
                links == self.links@,
                root == self.robot_base_link_idx,
                n == links.len(),
                link_idx < n,
                out_vec@.len() >= 1,
                out_vec@[0] == link_idx,
                level_start < out_vec@.len(),
                0 <= depth < n,
                forall|s: int|
                    0 <= s < out_vec@.len() ==> {
                        &&& (#[trigger] out_vec@[s]) < n
                        &&& self.spec_link_chain(link_idx as int, out_vec@[s] as int).len() > 0
                        &&& (s < level_start ==> self.spec_link_chain(
                            link_idx as int,
                            out_vec@[s] as int,
                        ).len() <= depth)
                        &&& (s >= level_start ==> self.spec_link_chain(
                            link_idx as int,
                            out_vec@[s] as int,
                        ).len() == depth + 1)
                    },
                forall|i: int|
                    0 <= i < n && 0 < (#[trigger] self.spec_link_chain(link_idx as int, i)).len()
                        <= depth + 1 ==> out_vec@.contains(i as usize),
                forall|s: int, t: int| 0 <= s < t < out_vec@.len() ==> out_vec@[s] != out_vec@[t],
                follows_parents(links, out_vec@, from),
                forall|t: int| 1 <= t < out_vec@.len() ==> #[trigger] from[t] < level_start,
            ensures
                self.is_downstream_order(link_idx as int, out_vec@),
            decreases n - depth,
        {
            let level_end = out_vec.len();
            let ghost before = out_vec@;
            let ghost from_before = from;
            let ghost mut at: Seq<int> = Seq::new(level_end as nat, |t: int| 0int);
            let mut s: usize = level_start;
            while s < level_end
                invariant
                    self.wf(),
                    links == self.links@,
                    n == links.len(),
                    link_idx < n,
                    0 <= depth < n,
                    level_start <= s <= level_end,
                    level_end == before.len(),
                    level_end <= out_vec@.len(),
                    out_vec@.subrange(0, level_end as int) == before,
                    from.len() == out_vec@.len(),
                    at.len() == out_vec@.len(),
                    from.subrange(0, level_end as int) == from_before,
                    from_before.len() == before.len(),
                    forall|x: int|
                        0 <= x < before.len() ==> {
                            &&& (#[trigger] before[x]) < n
                            &&& self.spec_link_chain(link_idx as int, before[x] as int).len() > 0
                            &&& (x < level_start ==> self.spec_link_chain(
                                link_idx as int,
                                before[x] as int,
                            ).len() <= depth)
                            &&& (x >= level_start ==> self.spec_link_chain(
                                link_idx as int,
                                before[x] as int,
                            ).len() == depth + 1)
                        },
                    forall|x: int, y: int| 0 <= x < y < before.len() ==> before[x] != before[y],
                    forall|t: int|
                        level_end <= t < out_vec@.len() ==> {
                            &&& level_start <= #[trigger] from[t] < s
                            &&& 0 <= at[t] < links[before[from[t]] as int].children_link_idxs@.len()
                            &&& out_vec@[t] == links[before[from[t]] as int].children_link_idxs@[at[t]]
                        },
                    forall|t1: int, t2: int|
                        level_end <= t1 < t2 < out_vec@.len() ==> (#[trigger] from[t1]
                            < #[trigger] from[t2] || (from[t1] == from[t2] && at[t1] < at[t2])),
                    forall|x: int, k: int|
                        level_start <= x < s && 0 <= k < links[before[x] as int].children_link_idxs@.len()
                            ==> out_vec@.contains(
                            #[trigger] links[before[x] as int].children_link_idxs@[k],
                        ),
                decreases level_end - s,
            {
                let parent = out_vec[s];
                assert(out_vec@[s as int] == before[s as int]);
                assert(before[s as int] < n);
                let children = &self.links[parent].children_link_idxs;
                let mut k: usize = 0;
                while k < children.len()
                    invariant
                        self.wf(),
                        links == self.links@,
                        n == links.len(),
                        level_start <= s < level_end,
                        level_end == before.len(),
                        level_end <= out_vec@.len(),
                        parent == before[s as int],
                        parent < n,
                        children@ == links[parent as int].children_link_idxs@,
                        k <= children@.len(),
                        out_vec@.subrange(0, level_end as int) == before,
                        from.len() == out_vec@.len(),
                        at.len() == out_vec@.len(),
                        from.subrange(0, level_end as int) == from_before,
                        from_before.len() == before.len(),
                        forall|t: int|
                            level_end <= t < out_vec@.len() ==> {
                                &&& level_start <= #[trigger] from[t] <= s
                                &&& (from[t] == s ==> at[t] < k)
                                &&& 0 <= at[t] < links[before[from[t]] as int].children_link_idxs@.len()
                                &&& out_vec@[t] == links[before[from[t]] as int].children_link_idxs@[at[t]]
                            },
                        forall|t1: int, t2: int|
                            level_end <= t1 < t2 < out_vec@.len() ==> (#[trigger] from[t1]
                                < #[trigger] from[t2] || (from[t1] == from[t2] && at[t1] < at[t2])),
                        forall|x: int, j: int|
                            level_start <= x < s && 0 <= j < links[before[x] as int].children_link_idxs@.len()
                                ==> out_vec@.contains(
                                #[trigger] links[before[x] as int].children_link_idxs@[j],
                            ),
                        forall|j: int| 0 <= j < k ==> out_vec@.contains(#[trigger] children@[j]),
                    decreases children@.len() - k,
                {
                    let ghost earlier = out_vec@;
                    out_vec.push(children[k]);
                    proof {
                        from = from.push(s as int);
                        at = at.push(k as int);
                        assert(out_vec@.subrange(0, level_end as int) =~= before);
                        assert(from.subrange(0, level_end as int) =~= from_before);
                        assert forall|x: int, j: int|
                            level_start <= x < s && 0 <= j < links[before[x] as int].children_link_idxs@.len() implies out_vec@.contains(
                            #[trigger] links[before[x] as int].children_link_idxs@[j],
                        ) by {
                            let c = links[before[x] as int].children_link_idxs@[j];
                            let w = choose|w: int| 0 <= w < earlier.len() && earlier[w] == c;
                            assert(out_vec@[w] == c);
                        }
                        assert forall|j: int| 0 <= j < k + 1 implies out_vec@.contains(
                            #[trigger] children@[j],
                        ) by {
                            if j < k {
                                let w = choose|w: int|
                                    0 <= w < earlier.len() && earlier[w] == children@[j];
                                assert(out_vec@[w] == children@[j]);
                            } else {
                                assert(out_vec@[out_vec@.len() - 1] == children@[j]);
                            }
                        }
                    }
                    k += 1;
                }
                s += 1;
            }
            proof {
                // What the new links are: children of the links of this level.
                assert forall|t: int| level_end <= t < out_vec@.len() implies {
                    &&& (#[trigger] out_vec@[t]) < n
                    &&& links[out_vec@[t] as int].preceding_link_idx == Some(before[from[t]])
                    &&& self.spec_link_chain(link_idx as int, out_vec@[t] as int).len() == depth + 2
                } by {
                    let p = before[from[t]] as int;
                    assert(link_agrees(links, self.joints@, root, p));
                    let c = links[p].children_link_idxs@[at[t]];
                    assert(c < n);
                    self.lemma_child_chain(link_idx as int, p, c as int);
                }
                assert forall|x: int| 0 <= x < level_end implies out_vec@[x] == before[x] by {
                    assert(out_vec@.subrange(0, level_end as int)[x] == out_vec@[x]);
                }
                assert forall|x: int| 0 <= x < level_end implies from[x] == from_before[x] by {
                    assert(from.subrange(0, level_end as int)[x] == from[x]);
                }
                // Every link with a chain of this length is among them.
                assert forall|i: int|
                    0 <= i < n && (#[trigger] self.spec_link_chain(link_idx as int, i)).len()
                        == depth + 2 implies out_vec@.contains(i as usize) by {
                    self.lemma_link_chains_lead_down(link_idx as int, i);
                    self.lemma_parent_chain(link_idx as int, i);
                    let p = links[i].preceding_link_idx->0;
                    assert(self.spec_link_chain(link_idx as int, p as int).len() == depth + 1);
                    assert(before.contains(p));
                    let x = choose|x: int| 0 <= x < before.len() && before[x] == p;
                    assert(before[x] == p);
                    assert(x >= level_start);
                    let j = choose|j: int|
                        0 <= j < links[p as int].children_link_idxs@.len()
                            && links[p as int].children_link_idxs@[j] == i as usize;
                    assert(out_vec@.contains(links[before[x] as int].children_link_idxs@[j]));
                }
                // None of them was there before, and none is there twice.
                assert forall|t1: int, t2: int| 0 <= t1 < t2 < out_vec@.len() implies out_vec@[t1]
                    != out_vec@[t2] by {
                    if t2 >= level_end {
                        if t1 < level_end {
                            assert(out_vec@[t1] == before[t1]);
                            assert(self.spec_link_chain(link_idx as int, before[t1] as int).len()
                                <= depth + 1);
                        } else {
                            let first_parent = before[from[t1]] as int;
                            let second_parent = before[from[t2]] as int;
                            if from[t1] == from[t2] {
                                assert(link_agrees(links, self.joints@, root, first_parent));
                                assert(at[t1] < at[t2]);
                                assert(links[(
                                links[first_parent].children_link_idxs@[at[t1]]) as int].preceding_joint_idx->0
                                    < links[(
                                links[first_parent].children_link_idxs@[at[t2]]) as int].preceding_joint_idx->0);
                            } else {
                                assert(from[t1] < from[t2]);
                                assert(before[from[t1]] != before[from[t2]]);
                            }
                        }
                    } else {
                        assert(out_vec@[t1] == before[t1] && out_vec@[t2] == before[t2]);
                    }
                }
                self.lemma_links_fit();
                assert(follows_parents(links, out_vec@, from)) by {
                    assert forall|t: int| 1 <= t < out_vec@.len() implies {
                        &&& 0 <= #[trigger] from[t] < t
                        &&& links[out_vec@[t] as int].preceding_link_idx == Some(out_vec@[from[t]])
                    } by {
                        if t < level_end {
                            assert(from[t] == from_before[t]);
                            assert(out_vec@[t] == before[t]);
                            assert(out_vec@[from[t]] == before[from[t]]);
                        } else {
                            assert(out_vec@[from[t]] == before[from[t]]);
                        }
                    }
                    assert forall|t1: int, t2: int| 1 <= t1 < t2 < out_vec@.len() implies {
                        &&& #[trigger] from[t1] <= #[trigger] from[t2]
                        &&& (from[t1] == from[t2] ==> links[out_vec@[t1] as int].preceding_joint_idx->0
                            < links[out_vec@[t2] as int].preceding_joint_idx->0)
                    } by {
                        if t2 < level_end {
                            assert(from[t1] == from_before[t1] && from[t2] == from_before[t2]);
                            assert(out_vec@[t1] == before[t1] && out_vec@[t2] == before[t2]);
                        } else if t1 < level_end {
                            assert(from[t1] == from_before[t1]);
                            assert(from_before[t1] < level_start);
                        } else {
                            if from[t1] == from[t2] {
                                let first_parent = before[from[t1]] as int;
                                assert(link_agrees(links, self.joints@, root, first_parent));
                                assert(at[t1] < at[t2]);
                                assert(links[(
                                links[first_parent].children_link_idxs@[at[t1]]) as int].preceding_joint_idx->0
                                    < links[(
                                links[first_parent].children_link_idxs@[at[t2]]) as int].preceding_joint_idx->0);
                            }
                        }
                    }
                }
            }
            if out_vec.len() == level_end {
                proof {
                    assert(out_vec@ =~= before);
                    // A link further down would have an ancestor one step below this level.
                    assert forall|i: int|
                        0 <= i < n && (#[trigger] self.spec_link_chain(link_idx as int, i)).len()
                            > 0 implies out_vec@.contains(i as usize) by {
                        let down = self.spec_link_chain(link_idx as int, i);
                        if down.len() > depth + 1 {
                            self.lemma_deeper_link_has_ancestor(link_idx as int, i, depth);
                            let x = down[depth + 1] as int;
                            assert(self.spec_link_chain(link_idx as int, x).len() == depth + 2);
                            assert(out_vec@.contains(x as usize));
                            let w = choose|w: int| 0 <= w < out_vec@.len() && out_vec@[w] == x;
                            assert(out_vec@[w] == x);
                        }
                    }
                }
                break ;
            }
            proof {
                let first_new = out_vec@[level_end as int];
                self.lemma_chain_fits(link_idx as int, first_new as int);
                assert forall|i: int|
                    0 <= i < n && 0 < (#[trigger] self.spec_link_chain(link_idx as int, i)).len()
                        <= depth + 2 implies out_vec@.contains(i as usize) by {
                    if self.spec_link_chain(link_idx as int, i).len() <= depth + 1 {
                        assert(before.contains(i as usize));
                        let w = choose|w: int| 0 <= w < before.len() && before[w] == i as usize;
                        assert(out_vec@[w] == i as usize);
                    }
                }
                assert forall|t: int| 1 <= t < out_vec@.len() implies #[trigger] from[t]
                    < level_end by {
                    if t < level_end {
                        assert(from[t] == from_before[t]);
                    }
                }
                assert forall|x: int| 0 <= x < out_vec@.len() implies {
                    &&& (#[trigger] out_vec@[x]) < n
                    &&& self.spec_link_chain(link_idx as int, out_vec@[x] as int).len() > 0
                    &&& (x < level_end ==> self.spec_link_chain(
                        link_idx as int,
                        out_vec@[x] as int,
                    ).len() <= depth + 1)
                    &&& (x >= level_end ==> self.spec_link_chain(
                        link_idx as int,
                        out_vec@[x] as int,
                    ).len() == depth + 2)
                } by {
                    if x < level_end {
                        assert(out_vec@[x] == before[x]);
                        assert(before[x] < n);
                    }
                }
                depth = depth + 1;
            }
            level_start = level_end;
        }
        Ok(out_vec)
    }

    proof fn lemma_deeper_link_has_ancestor(&self, link_idx: int, i: int, depth: int)
        requires
            self.wf(),
            0 <= link_idx < self.spec_links().len(),
            0 <= i < self.spec_links().len(),
            0 <= depth,
            self.spec_link_chain(link_idx, i).len() > depth + 1,
        ensures
            self.spec_link_chain(link_idx, i)[depth + 1] < self.spec_links().len(),
            self.spec_link_chain(link_idx, self.spec_link_chain(link_idx, i)[depth + 1] as int).len()
                == depth + 2,
    {
        let links = self.spec_links();
        self.lemma_link_chains_lead_down(link_idx, i);
        let down = self.spec_link_chain(link_idx, i);
        let x = down[depth + 1] as int;
        let prefix = down.subrange(0, depth + 2);
        assert(is_link_path(links, prefix)) by {
            assert forall|k: int| 0 < k < prefix.len() implies (#[trigger] links[prefix[k] as int]).preceding_link_idx
                == Some(prefix[k - 1]) by {
                assert(links[down[k] as int].preceding_link_idx == Some(down[k - 1]));
            }
        }
        assert(is_path_between(links, prefix, link_idx, x));
        self.lemma_link_chains_lead_down(link_idx, x);
    }
}

} // verus!
