use crate::robot_modules::robot_kinematics_module::{RobotFKResult, RobotFKResultLinkEntry};
use crate::robot_modules::robot_state_module::RobotState;
use crate::utils::utils_errors::OptimaError;
use crate::utils::utils_generic_data_structures::SquareArray2D;
use crate::utils::utils_se3::optima_rotation::Vector3;
use crate::utils::utils_se3::optima_se3_pose::OptimaSE3Pose;
use crate::utils::utils_shape_geometry::geometric_shape::{
    GeometricShape, GeometricShapeSignature, Ray,
};
use crate::utils::utils_shape_geometry::shape_collection::{
    ShapeCollection, ShapeCollectionInputPoses, ShapeCollectionQuery, ShapeCollectionTables,
};
use vstd::prelude::*;

verus! {

/// How the geometry of the links is approximated.
#[derive(Clone, Copy, Debug, PartialEq, Eq, Structural)]
pub enum RobotLinkShapeRepresentation {
    /// Each link in a best fitting cube.
    Cubes,
    /// Each link in a convex shape.
    ConvexShapes,
    /// Each link in convex parts, each part in a best fitting sphere.
    SphereSubcomponents,
    /// Each link in convex parts, each part in a best fitting cube.
    CubeSubcomponents,
    /// Each link in convex parts.
    ConvexShapeSubcomponents,
    /// The meshes of the links as they are.
    TriangleMeshes,
}

/// The link that a signature names, if it names one.
pub open spec fn signature_link(signature: GeometricShapeSignature) -> Option<usize> {
    match signature {
        GeometricShapeSignature::RobotLink { link_idx, .. } => Some(link_idx),
        _ => None,
    }
}

/// The positions, among the first `upto` shapes, of the shapes of link `link_idx`,
/// in ascending order.
pub open spec fn shapes_of_link<G>(shapes: Seq<GeometricShape<G>>, link_idx: int, upto: int) -> Seq<
    usize,
>
    decreases upto,
{
    if upto <= 0 {
        Seq::empty()
    } else if signature_link(shapes[upto - 1].spec_signature()) == Some(link_idx as usize) {
        shapes_of_link(shapes, link_idx, upto - 1).push((upto - 1) as usize)
    } else {
        shapes_of_link(shapes, link_idx, upto - 1)
    }
}

/// The list of the shapes of a link holds positions of shapes of that link only.
pub proof fn lemma_shapes_of_link_are_its_shapes<G>(
    shapes: Seq<GeometricShape<G>>,
    link_idx: int,
    upto: int,
    k: int,
)
    requires
        0 <= upto <= shapes.len() <= usize::MAX,
        0 <= link_idx <= usize::MAX,
        0 <= k < shapes_of_link(shapes, link_idx, upto).len(),
    ensures
        shapes_of_link(shapes, link_idx, upto)[k] < upto,
        signature_link(shapes[shapes_of_link(shapes, link_idx, upto)[k] as int].spec_signature())
            == Some(link_idx as usize),
    decreases upto,
{
    if upto > 0 {
        let before = shapes_of_link(shapes, link_idx, upto - 1);
        if k < before.len() {
            lemma_shapes_of_link_are_its_shapes(shapes, link_idx, upto - 1, k);
        }
    }
}

/// The list of the shapes of a link holds the position of every shape of that link.
pub proof fn lemma_shapes_of_link_are_complete<G>(
    shapes: Seq<GeometricShape<G>>,
    link_idx: int,
    upto: int,
    s: int,
)
    requires
        0 <= s < upto <= shapes.len() <= usize::MAX,
        0 <= link_idx <= usize::MAX,
        signature_link(shapes[s].spec_signature()) == Some(link_idx as usize),
    ensures
        shapes_of_link(shapes, link_idx, upto).contains(s as usize),
    decreases upto,
{
    let all = shapes_of_link(shapes, link_idx, upto);
    if s == upto - 1 {
        assert(all[all.len() - 1] == s as usize);
    } else {
        lemma_shapes_of_link_are_complete(shapes, link_idx, upto - 1, s);
        let before = shapes_of_link(shapes, link_idx, upto - 1);
        let w = choose|w: int| 0 <= w < before.len() && before[w] == s as usize;
        assert(all[w] == s as usize);
    }
}

/// The pose at which forward kinematics places the shape with the given signature:
/// the pose of the link that the signature names.
pub open spec fn pose_of_signature<T>(
    signature: GeometricShapeSignature,
    link_entries: Seq<RobotFKResultLinkEntry<T>>,
) -> Option<OptimaSE3Pose<T>> {
    match signature {
        GeometricShapeSignature::RobotLink { link_idx, .. } => if link_idx < link_entries.len() {
            link_entries[link_idx as int].pose
        } else {
            None
        },
        _ => None,
    }
}

/// The shapes of a robot in one representation, with the shapes of each link
/// listed for the link.
pub struct RobotShapeCollection<T, G> {
    robot_link_shape_representation: RobotLinkShapeRepresentation,
    shape_collection: ShapeCollection<T, G>,
    link_idx_to_shape_idxs_mapping: Vec<Vec<usize>>,
}

impl<T: Copy, G> RobotShapeCollection<T, G> {
    pub closed spec fn spec_robot_link_shape_representation(&self) -> RobotLinkShapeRepresentation {
        self.robot_link_shape_representation
    }

    pub closed spec fn spec_shape_collection(&self) -> ShapeCollection<T, G> {
        self.shape_collection
    }

    pub closed spec fn spec_link_idx_to_shape_idxs_mapping(&self) -> Seq<Vec<usize>> {
        self.link_idx_to_shape_idxs_mapping@
    }

    /// The number of links.
    pub open spec fn spec_num_links(&self) -> nat {
        self.spec_link_idx_to_shape_idxs_mapping().len()
    }

    /// The shapes in order.
    pub open spec fn spec_shapes(&self) -> Seq<GeometricShape<G>> {
        self.spec_shape_collection().spec_shapes()
    }

    /// Every shape of a link names a link of the robot, and each link has the list
    /// of its shapes.
    pub open spec fn wf(&self) -> bool {
        &&& self.spec_shape_collection().wf()
        &&& forall|s: int|
            0 <= s < self.spec_shapes().len() ==> (signature_link(
                (#[trigger] self.spec_shapes()[s]).spec_signature(),
            ) matches Some(link_idx) ==> link_idx < self.spec_num_links())
        &&& forall|l: int|
            0 <= l < self.spec_num_links() ==> (#[trigger] self.spec_link_idx_to_shape_idxs_mapping()[l])@
                == shapes_of_link(self.spec_shapes(), l, self.spec_shapes().len() as int)
    }

    /// `s` is the first shape that names a link which the robot does not have.
    pub open spec fn is_first_stray_shape(
        shapes: Seq<GeometricShape<G>>,
        num_robot_links: usize,
        s: int,
    ) -> bool {
        &&& 0 <= s < shapes.len()
        &&& signature_link(shapes[s].spec_signature()) is Some
        &&& signature_link(shapes[s].spec_signature())->0 >= num_robot_links
        &&& forall|k: int|
            0 <= k < s ==> (signature_link((#[trigger] shapes[k]).spec_signature()) matches Some(
                link_idx,
            ) ==> link_idx < num_robot_links)
    }

    /// Binds a collection of shapes to a robot of `num_robot_links` links. A shape
    /// that names a link which the robot does not have is an error; the first such
    /// shape is reported.
    pub fn new(
        num_robot_links: usize,
        robot_link_shape_representation: RobotLinkShapeRepresentation,
        shape_collection: ShapeCollection<T, G>,
    ) -> (r: Result<Self, OptimaError>)
        requires
            shape_collection.wf(),
        ensures
            match r {
                Ok(collection) => {
                    &&& collection.wf()
                    &&& collection.spec_shape_collection() == shape_collection
                    &&& collection.spec_robot_link_shape_representation()
                        == robot_link_shape_representation
                    &&& collection.spec_num_links() == num_robot_links
                },
                Err(e) => exists|s: int|
                    {
                        &&& #[trigger] Self::is_first_stray_shape(
                            shape_collection.spec_shapes(),
                            num_robot_links,
                            s,
                        )
                        &&& e == OptimaError::IndexOutOfBounds {
                            index: signature_link(
                                shape_collection.spec_shapes()[s].spec_signature(),
                            )->0,
                            length: num_robot_links,
                        }
                    },
            },
    {
        let shapes = shape_collection.shapes();
        let num_shapes = shapes.len();
        let mut s: usize = 0;
        while s < num_shapes
            invariant
                shapes@ == shape_collection.spec_shapes(),
                num_shapes == shapes@.len(),
                s <= num_shapes,
                forall|k: int|
                    0 <= k < s ==> (signature_link((#[trigger] shapes@[k]).spec_signature()) matches Some(
                        link_idx,
                    ) ==> link_idx < num_robot_links),
            decreases num_shapes - s,
        {
            match shapes[s].signature() {
                GeometricShapeSignature::RobotLink { link_idx, shape_idx_in_link: _ } => {
                    if link_idx >= num_robot_links {
                        assert(Self::is_first_stray_shape(shapes@, num_robot_links, s as int));
                        return Err(
                            OptimaError::IndexOutOfBounds {
                                index: link_idx,
                                length: num_robot_links,
                            },
                        );
                    }
                },
                _ => {},
            }
            s += 1;
        }
        let mut mapping: Vec<Vec<usize>> = Vec::new();
        let mut l: usize = 0;
        while l < num_robot_links
            invariant
                shapes@ == shape_collection.spec_shapes(),
                num_shapes == shapes@.len(),
                l <= num_robot_links,
                mapping@.len() == l,
                forall|a: int|
                    0 <= a < l ==> (#[trigger] mapping@[a])@ == shapes_of_link(
                        shapes@,
                        a,
                        shapes@.len() as int,
                    ),
            decreases num_robot_links - l,
        {
            let mut shape_idxs: Vec<usize> = Vec::new();
            let mut i: usize = 0;
            while i < num_shapes
                invariant
                    num_shapes == shapes@.len(),
                    i <= num_shapes,
                    shape_idxs@ == shapes_of_link(shapes@, l as int, i as int),
                decreases num_shapes - i,
            {
                let belongs = match shapes[i].signature() {
                    GeometricShapeSignature::RobotLink { link_idx, shape_idx_in_link: _ } => link_idx
                        == l,
                    _ => false,
                };
                if belongs {
                    shape_idxs.push(i);
                }
                i += 1;
            }
            mapping.push(shape_idxs);
            l += 1;
        }
        Ok(
            RobotShapeCollection {
                robot_link_shape_representation,
                shape_collection,
                link_idx_to_shape_idxs_mapping: mapping,
            },
        )
    }

    pub fn robot_link_shape_representation(&self) -> (r: &RobotLinkShapeRepresentation)
        ensures
            *r == self.spec_robot_link_shape_representation(),
    {
        &self.robot_link_shape_representation
    }

    pub fn shape_collection(&self) -> (r: &ShapeCollection<T, G>)
        ensures
            *r == self.spec_shape_collection(),
    {
        &self.shape_collection
    }

    pub fn link_idx_to_shape_idxs_mapping(&self) -> (r: &Vec<Vec<usize>>)
        ensures
            r@ == self.spec_link_idx_to_shape_idxs_mapping(),
    {
        &self.link_idx_to_shape_idxs_mapping
    }

    /// Returns the positions of the shapes of the link, in ascending order.
    pub fn get_shape_idxs_from_link_idx(&self, link_idx: usize) -> (r: Result<
        &Vec<usize>,
        OptimaError,
    >)
        requires
            self.wf(),
        ensures
            link_idx < self.spec_num_links() ==> {
                &&& r is Ok
                &&& r->Ok_0@ == shapes_of_link(
                    self.spec_shapes(),
                    link_idx as int,
                    self.spec_shapes().len() as int,
                )
            },
            link_idx >= self.spec_num_links() ==> r == Err::<&Vec<usize>, OptimaError>(
                OptimaError::IndexOutOfBounds {
                    index: link_idx,
                    length: self.spec_num_links() as usize,
                },
            ),
    {
        if link_idx >= self.link_idx_to_shape_idxs_mapping.len() {
            return Err(
                OptimaError::IndexOutOfBounds {
                    index: link_idx,
                    length: self.link_idx_to_shape_idxs_mapping.len(),
                },
            );
        }
        Ok(&self.link_idx_to_shape_idxs_mapping[link_idx])
    }

    /// `l` is the first link with a pose that the robot of this collection does not
    /// have.
    pub open spec fn is_first_stray_link(
        &self,
        link_entries: Seq<RobotFKResultLinkEntry<T>>,
        l: int,
    ) -> bool {
        &&& self.spec_num_links() <= l < link_entries.len()
        &&& link_entries[l].pose is Some
        &&& forall|k: int|
            self.spec_num_links() <= k < l ==> (#[trigger] link_entries[k]).pose is None
    }

    /// Forward kinematics has a pose for a link that the robot of this collection
    /// does not have.
    pub open spec fn has_stray_link(&self, link_entries: Seq<RobotFKResultLinkEntry<T>>) -> bool {
        exists|l: int| #[trigger] self.is_first_stray_link(link_entries, l)
    }

    /// Gives every shape the pose of its link: a table with, for each shape, the
    /// pose that forward kinematics found for the link that the shape belongs to,
    /// and nothing where the link has no pose or the shape belongs to no link. A
    /// pose for a link that the robot of this collection does not have is an
    /// error; the first such link is reported.
    pub fn recover_poses(&self, robot_fk_result: &RobotFKResult<T>) -> (r: Result<
        ShapeCollectionInputPoses<T>,
        OptimaError,
    >)
        requires
            self.wf(),
        ensures
            r is Err <==> self.has_stray_link(robot_fk_result@),
            match r {
                Ok(poses) => {
                    &&& poses@.len() == self.spec_shapes().len()
                    &&& forall|s: int|
                        0 <= s < self.spec_shapes().len() ==> #[trigger] poses@[s]
                            == pose_of_signature(
                            self.spec_shapes()[s].spec_signature(),
                            robot_fk_result@,
                        )
                    &&& forall|l: int|
                        self.spec_num_links() <= l < robot_fk_result@.len() ==> (
                        #[trigger] robot_fk_result@[l]).pose is None
                },
                Err(e) => exists|l: int|
                    {
                        &&& #[trigger] self.is_first_stray_link(robot_fk_result@, l)
                        &&& e == OptimaError::IndexOutOfBounds {
                            index: l as usize,
                            length: self.spec_num_links() as usize,
                        }
                    },
            },
    {
        let num_shapes = self.shape_collection.num_shapes();
        let num_links = self.link_idx_to_shape_idxs_mapping.len();
        let mut poses = ShapeCollectionInputPoses::new(num_shapes);
        let link_entries = robot_fk_result.link_entries();
        let ghost shapes = self.spec_shapes();
        let mut link_idx: usize = 0;
        while link_idx < link_entries.len()
            invariant
                self.wf(),
                shapes == self.spec_shapes(),
                num_shapes == shapes.len(),
                num_links == self.spec_num_links(),
                link_entries@ == robot_fk_result@,
                link_idx <= link_entries@.len(),
                poses@.len() == num_shapes,
                forall|s: int|
                    0 <= s < num_shapes ==> #[trigger] poses@[s] == pose_of_signature(
                        shapes[s].spec_signature(),
                        link_entries@.subrange(0, link_idx as int),
                    ),
                forall|l: int|
                    num_links <= l < link_idx ==> (#[trigger] link_entries@[l]).pose is None,
            decreases link_entries@.len() - link_idx,
        {
            let ghost seen = link_entries@.subrange(0, link_idx as int);
            let ghost next = link_entries@.subrange(0, link_idx + 1);
            match link_entries[link_idx].pose {
                Some(pose) => {
                    if link_idx >= num_links {
                        assert(self.is_first_stray_link(robot_fk_result@, link_idx as int));
                        return Err(
                            OptimaError::IndexOutOfBounds { index: link_idx, length: num_links },
                        );
                    }
                    let shape_idxs = &self.link_idx_to_shape_idxs_mapping[link_idx];
                    let mut x: usize = 0;
                    while x < shape_idxs.len()
                        invariant
                            self.wf(),
                            shapes == self.spec_shapes(),
                            num_shapes == shapes.len(),
                            link_idx < num_links,
                            num_links == self.spec_num_links(),
                            link_idx < link_entries@.len(),
                            link_entries@[link_idx as int].pose == Some(pose),
                            seen == link_entries@.subrange(0, link_idx as int),
                            shape_idxs@ == shapes_of_link(
                                shapes,
                                link_idx as int,
                                shapes.len() as int,
                            ),
                            x <= shape_idxs@.len(),
                            poses@.len() == num_shapes,
                            forall|s: int|
                                0 <= s < num_shapes ==> #[trigger] poses@[s] == if shape_idxs@.subrange(
                                    0,
                                    x as int,
                                ).contains(s as usize) {
                                    Some(pose)
                                } else {
                                    pose_of_signature(shapes[s].spec_signature(), seen)
                                },
                        decreases shape_idxs@.len() - x,
                    {
                        let shape_idx = shape_idxs[x];
                        proof {
                            lemma_shapes_of_link_are_its_shapes(
                                shapes,
                                link_idx as int,
                                shapes.len() as int,
                                x as int,
                            );
                        }
                        let ghost before = poses@;
                        match poses.insert_or_replace_pose_by_idx(shape_idx, pose) {
                            Ok(_) => {},
                            Err(e) => {
                                return Err(e);
                            },
                        }
                        proof {
                            let done = shape_idxs@.subrange(0, x as int);
                            let more = shape_idxs@.subrange(0, x + 1);
                            assert(more =~= done.push(shape_idx));
                            assert forall|s: int| 0 <= s < num_shapes implies #[trigger] poses@[s]
                                == if more.contains(s as usize) {
                                Some(pose)
                            } else {
                                pose_of_signature(shapes[s].spec_signature(), seen)
                            } by {
                                if s == shape_idx {
                                    assert(more[x as int] == shape_idx);
                                } else {
                                    if done.contains(s as usize) {
                                        let w = choose|w: int|
                                            0 <= w < done.len() && done[w] == s as usize;
                                        assert(more[w] == s as usize);
                                    }
                                    if more.contains(s as usize) {
                                        let w = choose|w: int|
                                            0 <= w < more.len() && more[w] == s as usize;
                                        assert(w < x);
                                        assert(done[w] == s as usize);
                                    }
                                }
                            }
                        }
                        x += 1;
                    }
                    proof {
                        assert(shape_idxs@.subrange(0, shape_idxs@.len() as int) =~= shape_idxs@);
                        assert forall|s: int| 0 <= s < num_shapes implies #[trigger] poses@[s]
                            == pose_of_signature(shapes[s].spec_signature(), next) by {
                            let signature = shapes[s].spec_signature();
                            if signature_link(signature) == Some(link_idx) {
                                lemma_shapes_of_link_are_complete(
                                    shapes,
                                    link_idx as int,
                                    shapes.len() as int,
                                    s,
                                );
                                assert(next[link_idx as int] == link_entries@[link_idx as int]);
                            } else {
                                if shape_idxs@.contains(s as usize) {
                                    let w = choose|w: int|
                                        0 <= w < shape_idxs@.len() && shape_idxs@[w] == s as usize;
                                    lemma_shapes_of_link_are_its_shapes(
                                        shapes,
                                        link_idx as int,
                                        shapes.len() as int,
                                        w,
                                    );
                                }
                                if signature_link(signature) is Some {
                                    let other = signature_link(signature)->0;
                                    if other < link_idx {
                                        assert(next[other as int] == seen[other as int]);
                                    }
                                }
                            }
                        }
                    }
                },
                None => {
                    proof {
                        assert forall|s: int| 0 <= s < num_shapes implies #[trigger] poses@[s]
                            == pose_of_signature(shapes[s].spec_signature(), next) by {
                            let signature = shapes[s].spec_signature();
                            if signature_link(signature) is Some {
                                let other = signature_link(signature)->0;
                                if other < link_idx {
                                    assert(next[other as int] == seen[other as int]);
                                } else if other == link_idx {
                                    assert(next[link_idx as int] == link_entries@[link_idx as int]);
                                }
                            }
                        }
                    }
                },
            }
            link_idx += 1;
        }
        assert(link_entries@.subrange(0, link_entries@.len() as int) =~= link_entries@);
        assert forall|l: int| !self.is_first_stray_link(robot_fk_result@, l) by {
            if self.spec_num_links() <= l < robot_fk_result@.len() {
                assert(link_entries@[l].pose is None);
            }
        }
        Ok(poses)
    }
}

/// A query about the body of a robot at a joint state. The pose of every shape
/// follows from the joint state by forward kinematics.
pub enum RobotShapeCollectionQuery<'a, T> {
    ProjectPoint { robot_joint_state: &'a RobotState<T>, point: &'a Vector3<T>, solid: bool },
    ContainsPoint { robot_joint_state: &'a RobotState<T>, point: &'a Vector3<T> },
    DistanceToPoint { robot_joint_state: &'a RobotState<T>, point: &'a Vector3<T>, solid: bool },
    IntersectsRay { robot_joint_state: &'a RobotState<T>, ray: &'a Ray<T>, max_toi: T },
    CastRay { robot_joint_state: &'a RobotState<T>, ray: &'a Ray<T>, max_toi: T, solid: bool },
    CastRayAndGetNormal {
        robot_joint_state: &'a RobotState<T>,
        ray: &'a Ray<T>,
        max_toi: T,
        solid: bool,
    },
    IntersectionTest { robot_joint_state: &'a RobotState<T> },
    Distance { robot_joint_state: &'a RobotState<T> },
    ClosestPoints { robot_joint_state: &'a RobotState<T>, max_dis: T },
    Contact { robot_joint_state: &'a RobotState<T>, prediction: T },
    CCD { robot_joint_state_t1: &'a RobotState<T>, robot_joint_state_t2: &'a RobotState<T> },
}

impl<'a, T: Copy> RobotShapeCollectionQuery<'a, T> {
    /// The joint states of the query: the two ends of the motion for a query along
    /// a motion, the one state for every other query.
    pub open spec fn spec_robot_joint_states(&self) -> Seq<&'a RobotState<T>> {
        match self {
            RobotShapeCollectionQuery::ProjectPoint { robot_joint_state, .. } => seq![
                *robot_joint_state,
            ],
            RobotShapeCollectionQuery::ContainsPoint { robot_joint_state, .. } => seq![
                *robot_joint_state,
            ],
            RobotShapeCollectionQuery::DistanceToPoint { robot_joint_state, .. } => seq![
                *robot_joint_state,
            ],
            RobotShapeCollectionQuery::IntersectsRay { robot_joint_state, .. } => seq![
                *robot_joint_state,
            ],
            RobotShapeCollectionQuery::CastRay { robot_joint_state, .. } => seq![*robot_joint_state],
            RobotShapeCollectionQuery::CastRayAndGetNormal { robot_joint_state, .. } => seq![
                *robot_joint_state,
            ],
            RobotShapeCollectionQuery::IntersectionTest { robot_joint_state, .. } => seq![
                *robot_joint_state,
            ],
            RobotShapeCollectionQuery::Distance { robot_joint_state, .. } => seq![
                *robot_joint_state,
            ],
            RobotShapeCollectionQuery::ClosestPoints { robot_joint_state, .. } => seq![
                *robot_joint_state,
            ],
            RobotShapeCollectionQuery::Contact { robot_joint_state, .. } => seq![
                *robot_joint_state,
            ],
            RobotShapeCollectionQuery::CCD { robot_joint_state_t1, robot_joint_state_t2 } => seq![
                *robot_joint_state_t1,
                *robot_joint_state_t2,
            ],
        }
    }

    /// Returns the joint states of the query.
    pub fn get_robot_joint_state(&self) -> (r: Result<Vec<&'a RobotState<T>>, OptimaError>)
        ensures
            r is Ok,
            r->Ok_0@ == self.spec_robot_joint_states(),
    {
        let mut states: Vec<&'a RobotState<T>> = Vec::new();
        match self {
            RobotShapeCollectionQuery::ProjectPoint { robot_joint_state, .. } => {
                states.push(*robot_joint_state);
            },
            RobotShapeCollectionQuery::ContainsPoint { robot_joint_state, .. } => {
                states.push(*robot_joint_state);
            },
            RobotShapeCollectionQuery::DistanceToPoint { robot_joint_state, .. } => {
                states.push(*robot_joint_state);
            },
            RobotShapeCollectionQuery::IntersectsRay { robot_joint_state, .. } => {
                states.push(*robot_joint_state);
            },
            RobotShapeCollectionQuery::CastRay { robot_joint_state, .. } => {
                states.push(*robot_joint_state);
            },
            RobotShapeCollectionQuery::CastRayAndGetNormal { robot_joint_state, .. } => {
                states.push(*robot_joint_state);
            },
            RobotShapeCollectionQuery::IntersectionTest { robot_joint_state, .. } => {
                states.push(*robot_joint_state);
            },
            RobotShapeCollectionQuery::Distance { robot_joint_state, .. } => {
                states.push(*robot_joint_state);
            },
            RobotShapeCollectionQuery::ClosestPoints { robot_joint_state, .. } => {
                states.push(*robot_joint_state);
            },
            RobotShapeCollectionQuery::Contact { robot_joint_state, .. } => {
                states.push(*robot_joint_state);
            },
            RobotShapeCollectionQuery::CCD { robot_joint_state_t1, robot_joint_state_t2 } => {
                states.push(*robot_joint_state_t1);
                states.push(*robot_joint_state_t2);
            },
        }
        assert(states@ =~= self.spec_robot_joint_states());
        Ok(states)
    }

    /// The query over the shapes of a collection that this query becomes once the
    /// shapes have their poses.
    pub open spec fn spec_resolved(
        &self,
        poses: Seq<ShapeCollectionInputPoses<T>>,
    ) -> ShapeCollectionQuery<T> {
        match self {
            RobotShapeCollectionQuery::ProjectPoint { point, solid, .. } => ShapeCollectionQuery::ProjectPoint {
                poses: poses[0],
                point: **point,
                solid: *solid,
            },
            RobotShapeCollectionQuery::ContainsPoint { point, .. } => ShapeCollectionQuery::ContainsPoint {
                poses: poses[0],
                point: **point,
            },
            RobotShapeCollectionQuery::DistanceToPoint { point, solid, .. } => ShapeCollectionQuery::DistanceToPoint {
                poses: poses[0],
                point: **point,
                solid: *solid,
            },
            RobotShapeCollectionQuery::IntersectsRay { ray, max_toi, .. } => ShapeCollectionQuery::IntersectsRay {
                poses: poses[0],
                ray: **ray,
                max_toi: *max_toi,
            },
            RobotShapeCollectionQuery::CastRay { ray, max_toi, solid, .. } => ShapeCollectionQuery::CastRay {
                poses: poses[0],
                ray: **ray,
                max_toi: *max_toi,
                solid: *solid,
            },
            RobotShapeCollectionQuery::CastRayAndGetNormal { ray, max_toi, solid, .. } => ShapeCollectionQuery::CastRayAndGetNormal {
                poses: poses[0],
                ray: **ray,
                max_toi: *max_toi,
                solid: *solid,
            },
            RobotShapeCollectionQuery::IntersectionTest { .. } => ShapeCollectionQuery::IntersectionTest {
                poses: poses[0],
            },
            RobotShapeCollectionQuery::Distance { .. } => ShapeCollectionQuery::Distance {
                poses: poses[0],
            },
            RobotShapeCollectionQuery::ClosestPoints { max_dis, .. } => ShapeCollectionQuery::ClosestPoints {
                poses: poses[0],
                max_dis: *max_dis,
            },
            RobotShapeCollectionQuery::Contact { prediction, .. } => ShapeCollectionQuery::Contact {
                poses: poses[0],
                prediction: *prediction,
            },
            RobotShapeCollectionQuery::CCD { .. } => ShapeCollectionQuery::CCD {
                poses_t1: poses[0],
                poses_t2: poses[1],
            },
        }
    }
}

/// The most samples that preprocessing draws.
pub const MAX_SAMPLES: usize = 100_000;

/// Preprocessing does not end on time alone before it has drawn more samples
/// than this, and a pair counts as always colliding only from this many samples.
pub const MIN_SAMPLES: usize = 70;

/// A pair counts as never colliding only from this many samples.
pub const MIN_SAMPLES_FOR_NEVER_COLLIDING: usize = 1000;

/// What preprocessing does next.
#[derive(Clone, Copy, Debug, PartialEq, Eq, Structural)]
pub enum PreprocessingAction {
    DrawSample,
    Finish,
}

/// What one sample found of one pair of shapes.
#[derive(Clone, Copy, Debug, PartialEq, Eq, Structural)]
pub struct SampledPair {
    pub signature1: GeometricShapeSignature,
    pub signature2: GeometricShapeSignature,
    /// The two shapes touch or overlap: their distance is not above zero.
    pub in_collision: bool,
}

/// What preprocessing does when `count` samples have been drawn: it draws another
/// sample until the most samples have been drawn, or the time is up and more than
/// the least samples have been drawn.
pub open spec fn preprocessing_action(count: nat, time_budget_elapsed: bool) -> PreprocessingAction {
    if count >= MAX_SAMPLES || (time_budget_elapsed && count > MIN_SAMPLES) {
        PreprocessingAction::Finish
    } else {
        PreprocessingAction::DrawSample
    }
}

/// The pair collided in more than 99 of 100 samples, of enough samples.
pub open spec fn always_colliding(collisions: nat, count: nat) -> bool {
    count >= MIN_SAMPLES && 100 * collisions > 99 * count
}

/// The pair collided in no sample, of enough samples.
pub open spec fn never_colliding(collisions: nat, count: nat) -> bool {
    count >= MIN_SAMPLES_FOR_NEVER_COLLIDING && collisions == 0
}

/// The two signatures name shapes of one link.
pub open spec fn on_same_link(a: GeometricShapeSignature, b: GeometricShapeSignature) -> bool {
    signature_link(a) is Some && signature_link(a) == signature_link(b)
}

/// Whether preprocessing marks the pair `(a, b)` as skipped: a shape with itself,
/// two shapes of one link, a pair that always collides, and a pair that never
/// does.
pub open spec fn skipped_by_preprocessing(
    a: int,
    b: int,
    signature_a: GeometricShapeSignature,
    signature_b: GeometricShapeSignature,
    collisions: nat,
    count: nat,
) -> bool {
    ||| a == b
    ||| on_same_link(signature_a, signature_b)
    ||| always_colliding(collisions, count)
    ||| never_colliding(collisions, count)
}

/// The sampled pair is a collision of the shapes `a` and `b`, in either order.
pub open spec fn sample_hits<T: Copy, G>(
    collection: &ShapeCollection<T, G>,
    pair: SampledPair,
    a: int,
    b: int,
) -> bool {
    &&& pair.in_collision
    &&& {
        ||| (collection.is_first_with_signature(pair.signature1, a)
            && collection.is_first_with_signature(pair.signature2, b))
        ||| (collection.is_first_with_signature(pair.signature1, b)
            && collection.is_first_with_signature(pair.signature2, a))
    }
}

/// How many of the first `upto` sampled pairs are collisions of the shapes `a` and
/// `b`.
pub open spec fn collisions_reported<T: Copy, G>(
    collection: &ShapeCollection<T, G>,
    pairs: Seq<SampledPair>,
    a: int,
    b: int,
    upto: int,
) -> nat
    decreases upto,
{
    if upto <= 0 {
        0
    } else {
        collisions_reported(collection, pairs, a, b, upto - 1) + if sample_hits(
            collection,
            pairs[upto - 1],
            a,
            b,
        ) {
            1nat
        } else {
            0nat
        }
    }
}

/// The smaller of the two.
pub open spec fn at_most(value: nat, bound: nat) -> nat {
    if value <= bound {
        value
    } else {
        bound
    }
}

/// The pair `(x, y)`, in either order, comes before the pair `(a, b)` among the
/// pairs with the first shape not after the second, which are gone through row by
/// row.
pub open spec fn pair_is_done(x: int, y: int, a: int, b: int) -> bool {
    x < a || y < a || (x == a && y < b) || (y == a && x < b)
}

/// What is recorded as the average distance of the pair `(x, y)` once the pair has
/// been gone through, and what before.
pub open spec fn average_when<T: Copy, G>(
    before: &ShapeCollection<T, G>,
    average_distances: &SquareArray2D<T>,
    x: int,
    y: int,
    done: bool,
) -> Option<T> {
    if done {
        Some(
            if x <= y {
                average_distances.spec_cell(y, x)
            } else {
                average_distances.spec_cell(x, y)
            },
        )
    } else {
        before.spec_average_distance(x, y)
    }
}

/// The counts that preprocessing keeps while it samples joint states: how many
/// samples were drawn, and for every pair of shapes in how many the pair collided.
pub struct RobotShapeCollectionPreprocessing {
    count: usize,
    collision_counter_array: SquareArray2D<usize>,
}

impl RobotShapeCollectionPreprocessing {
    /// The number of samples drawn.
    pub closed spec fn spec_count(&self) -> nat {
        self.count as nat
    }

    pub closed spec fn spec_num_shapes(&self) -> nat {
        self.collision_counter_array.spec_side_length()
    }

    /// In how many samples the pair `(a, b)` collided.
    pub closed spec fn spec_collisions(&self, a: int, b: int) -> nat {
        self.collision_counter_array.spec_cell(a, b) as nat
    }

    /// No more samples than the most were drawn, and no pair collided in more
    /// samples than were drawn.
    pub closed spec fn wf(&self) -> bool {
        &&& self.collision_counter_array.wf()
        &&& self.collision_counter_array.spec_symmetric()
        &&& self.count <= MAX_SAMPLES
        &&& forall|a: int, b: int|
            0 <= a < self.collision_counter_array.spec_side_length() && 0 <= b
                < self.collision_counter_array.spec_side_length()
                ==> #[trigger] self.collision_counter_array.spec_cell(a, b) <= self.count
    }

    /// The count of a pair does not depend on the order of the pair, and is at most
    /// the number of samples.
    pub proof fn lemma_counts(&self, a: int, b: int)
        requires
            self.wf(),
            0 <= a < self.spec_num_shapes(),
            0 <= b < self.spec_num_shapes(),
        ensures
            self.spec_collisions(a, b) == self.spec_collisions(b, a),
            self.spec_collisions(a, b) <= self.spec_count() <= MAX_SAMPLES,
    {
        self.collision_counter_array.lemma_symmetric_cells(a, b);
    }

    /// The counts before the first sample.
    pub fn new(num_shapes: usize) -> (r: Self)
        ensures
            r.wf(),
            r.spec_count() == 0,
            r.spec_num_shapes() == num_shapes,
            forall|a: int, b: int|
                0 <= a < num_shapes && 0 <= b < num_shapes ==> #[trigger] r.spec_collisions(a, b)
                    == 0,
    {
        RobotShapeCollectionPreprocessing {
            count: 0,
            collision_counter_array: SquareArray2D::new(num_shapes, true, 0usize),
        }
    }

    /// The number of samples drawn.
    pub fn count(&self) -> (r: usize)
        ensures
            r == self.spec_count(),
    {
        self.count
    }

    /// In how many samples the pair collided.
    pub fn collisions(&self, shape_idx1: usize, shape_idx2: usize) -> (r: Result<
        usize,
        OptimaError,
    >)
        requires
            self.wf(),
        ensures
            shape_idx1 < self.spec_num_shapes() && shape_idx2 < self.spec_num_shapes() ==> r
                == Ok::<usize, OptimaError>(
                self.spec_collisions(shape_idx1 as int, shape_idx2 as int) as usize,
            ),
            shape_idx1 >= self.spec_num_shapes() ==> r == Err::<usize, OptimaError>(
                OptimaError::IndexOutOfBounds {
                    index: shape_idx1,
                    length: self.spec_num_shapes() as usize,
                },
            ),
            shape_idx1 < self.spec_num_shapes() && shape_idx2 >= self.spec_num_shapes() ==> r
                == Err::<usize, OptimaError>(
                OptimaError::IndexOutOfBounds {
                    index: shape_idx2,
                    length: self.spec_num_shapes() as usize,
                },
            ),
    {
        self.collision_counter_array.data_cell(shape_idx1, shape_idx2)
    }

    /// Whether to draw another sample or to finish, now that the time allowed for
    /// the representation is up or not.
    pub fn next_action(&self, time_budget_elapsed: bool) -> (r: PreprocessingAction)
        ensures
            r == preprocessing_action(self.spec_count(), time_budget_elapsed),
    {
        if self.count >= MAX_SAMPLES || (time_budget_elapsed && self.count > MIN_SAMPLES) {
            PreprocessingAction::Finish
        } else {
            PreprocessingAction::DrawSample
        }
    }

    /// The counts `after` are the counts `before` with one more sample taken in.
    pub open spec fn sample_is_absorbed<T: Copy, G>(
        collection: &ShapeCollection<T, G>,
        before: Self,
        pairs: Seq<SampledPair>,
        after: Self,
    ) -> bool {
        &&& after.spec_num_shapes() == before.spec_num_shapes()
        &&& after.spec_count() == before.spec_count() + 1
        &&& forall|a: int, b: int|
            0 <= a < before.spec_num_shapes() && 0 <= b < before.spec_num_shapes()
                ==> #[trigger] after.spec_collisions(a, b) == at_most(
                before.spec_collisions(a, b) + collisions_reported(
                    collection,
                    pairs,
                    a,
                    b,
                    pairs.len() as int,
                ),
                before.spec_count() + 1,
            )
    }

    /// The step of sampling at sample `upto - 1`: `draw_sample` finds `pairs`, which
    /// name shapes of the collection only, and the counts `earlier` with this sample
    /// taken in are `counts`.
    pub open spec fn sampling_step<
        T: Copy,
        G,
        S: Fn(usize) -> Result<Vec<SampledPair>, OptimaError>,
    >(
        collection: &ShapeCollection<T, G>,
        draw_sample: S,
        upto: int,
        earlier: Self,
        pairs: Vec<SampledPair>,
        counts: Self,
    ) -> bool {
        &&& draw_sample.ensures(
            ((upto - 1) as usize,),
            Ok::<Vec<SampledPair>, OptimaError>(pairs),
        )
        &&& !Self::some_signature_is_unknown(collection, pairs@)
        &&& Self::sample_is_absorbed(collection, earlier, pairs@, counts)
    }

    /// `counts` are the counts of the first `upto` samples that `draw_sample` draws.
    pub open spec fn sampling_has_run<
        T: Copy,
        G,
        S: Fn(usize) -> Result<Vec<SampledPair>, OptimaError>,
    >(
        collection: &ShapeCollection<T, G>,
        draw_sample: S,
        upto: int,
        counts: Self,
    ) -> bool
        decreases upto,
    {
        if upto <= 0 {
            &&& counts.spec_count() == 0
            &&& counts.spec_num_shapes() == collection.spec_shapes().len()
            &&& forall|a: int, b: int|
                0 <= a < counts.spec_num_shapes() && 0 <= b < counts.spec_num_shapes()
                    ==> #[trigger] counts.spec_collisions(a, b) == 0
        } else {
            exists|earlier: Self, pairs: Vec<SampledPair>|
                Self::sampling_has_run(collection, draw_sample, upto - 1, earlier)
                    && #[trigger] Self::sampling_step(
                    collection,
                    draw_sample,
                    upto,
                    earlier,
                    pairs,
                    counts,
                )
        }
    }

    /// Samples until it is time to finish: before every sample `time_budget_elapsed`
    /// says whether the time allowed is up, and while another sample is to be drawn,
    /// `draw_sample` is given the number of samples drawn so far and says what the
    /// next sample finds. The counts of all samples are returned; there are more
    /// than the least number of samples and no more than the most, and fewer than
    /// the most only where the time was up.
    ///
    /// Sampling ends at once with an error where `draw_sample` fails, with its
    /// error, and where a sample names a shape that the collection does not have.
    pub fn sample_until_finished<
        T: Copy,
        G,
        C: Fn() -> bool,
        S: Fn(usize) -> Result<Vec<SampledPair>, OptimaError>,
    >(collection: &ShapeCollection<T, G>, time_budget_elapsed: C, draw_sample: S) -> (r: Result<
        Self,
        OptimaError,
    >)
        requires
            collection.wf(),
            time_budget_elapsed.requires(()),
            forall|drawn: usize| draw_sample.requires((drawn,)),
        ensures
            match r {
                Ok(counts) => {
                    &&& counts.wf()
                    &&& counts.spec_num_shapes() == collection.spec_shapes().len()
                    &&& MIN_SAMPLES < counts.spec_count() <= MAX_SAMPLES
                    &&& counts.spec_count() < MAX_SAMPLES ==> time_budget_elapsed.ensures((), true)
                    &&& Self::sampling_has_run(
                        collection,
                        draw_sample,
                        counts.spec_count() as int,
                        counts,
                    )
                },
                Err(e) => exists|earlier: Self, drawn: usize|
                    {
                        &&& #[trigger] Self::sampling_has_run(
                            collection,
                            draw_sample,
                            drawn as int,
                            earlier,
                        )
                        &&& earlier.spec_count() == drawn
                        &&& drawn < MAX_SAMPLES
                        &&& Self::sample_fails(collection, draw_sample, drawn, e)
                    },
            },
    {
        let mut counts = Self::new(collection.num_shapes());
        loop
            invariant
                collection.wf(),
                time_budget_elapsed.requires(()),
                forall|drawn: usize| draw_sample.requires((drawn,)),
                counts.wf(),
                counts.spec_num_shapes() == collection.spec_shapes().len(),
                counts.spec_count() <= MAX_SAMPLES,
                Self::sampling_has_run(
                    collection,
                    draw_sample,
                    counts.spec_count() as int,
                    counts,
                ),
            ensures
                counts.wf(),
                counts.spec_num_shapes() == collection.spec_shapes().len(),
                MIN_SAMPLES < counts.spec_count() <= MAX_SAMPLES,
                counts.spec_count() < MAX_SAMPLES ==> time_budget_elapsed.ensures((), true),
                Self::sampling_has_run(
                    collection,
                    draw_sample,
                    counts.spec_count() as int,
                    counts,
                ),
            decreases MAX_SAMPLES - counts.spec_count(),
        {
            let elapsed = time_budget_elapsed();
            match counts.next_action(elapsed) {
                PreprocessingAction::Finish => {
                    break ;
                },
                PreprocessingAction::DrawSample => {
                    let ghost earlier = counts;
                    let drawn = counts.count();
                    let pairs = match draw_sample(drawn) {
                        Ok(pairs) => pairs,
                        Err(e) => {
                            assert(Self::sample_fails(collection, draw_sample, drawn, e));
                            return Err(e);
                        },
                    };
                    match counts.absorb_sample(collection, &pairs) {
                        Ok(_) => {},
                        Err(e) => {
                            assert(Self::sample_found_unknown_shape(
                                collection,
                                draw_sample,
                                drawn,
                                pairs,
                            ));
                            assert(Self::sample_fails(collection, draw_sample, drawn, e));
                            return Err(e);
                        },
                    }
                    proof {
                        assert(Self::sampling_step(
                            collection,
                            draw_sample,
                            counts.spec_count() as int,
                            earlier,
                            pairs,
                            counts,
                        ));
                    }
                },
            }
        }
        Ok(counts)
    }

    /// The sample numbered `drawn` finds `pairs`, of which one names a shape that
    /// the collection does not have.
    pub open spec fn sample_found_unknown_shape<
        T: Copy,
        G,
        S: Fn(usize) -> Result<Vec<SampledPair>, OptimaError>,
    >(collection: &ShapeCollection<T, G>, draw_sample: S, drawn: usize, pairs: Vec<SampledPair>) -> bool {
        &&& draw_sample.ensures((drawn,), Ok::<Vec<SampledPair>, OptimaError>(pairs))
        &&& Self::some_signature_is_unknown(collection, pairs@)
    }

    /// The sample numbered `drawn` ends sampling with the error `error`: drawing it
    /// fails with that error, or it names a shape that the collection does not
    /// have.
    pub open spec fn sample_fails<
        T: Copy,
        G,
        S: Fn(usize) -> Result<Vec<SampledPair>, OptimaError>,
    >(collection: &ShapeCollection<T, G>, draw_sample: S, drawn: usize, error: OptimaError) -> bool {
        ||| draw_sample.ensures((drawn,), Err::<Vec<SampledPair>, OptimaError>(error))
        ||| (error == OptimaError::UnknownShapeSignature && exists|pairs: Vec<SampledPair>|
            #[trigger] Self::sample_found_unknown_shape(collection, draw_sample, drawn, pairs))
    }

    /// Some sampled pair names a shape that the collection does not have.
    pub open spec fn some_signature_is_unknown<T: Copy, G>(
        collection: &ShapeCollection<T, G>,
        pairs: Seq<SampledPair>,
    ) -> bool {
        exists|k: int|
            0 <= k < pairs.len() && (collection.signature_is_unknown(
                (#[trigger] pairs[k]).signature1,
            ) || collection.signature_is_unknown(pairs[k].signature2))
    }

    /// Takes in one sample: the sample is counted, and every pair of shapes is
    /// counted once for each time the sample reports it in collision, but to no
    /// more than the number of samples.
    ///
    /// Nothing is counted, and an error is returned, where the collection has
    /// another number of shapes than the counts are for, where the most samples
    /// have been drawn already, or where a sampled pair names a shape that the
    /// collection does not have.
    pub fn absorb_sample<T: Copy, G>(
        &mut self,
        collection: &ShapeCollection<T, G>,
        pairs: &Vec<SampledPair>,
    ) -> (r: Result<(), OptimaError>)
        requires
            old(self).wf(),
            collection.wf(),
        ensures
            final(self).wf(),
            final(self).spec_num_shapes() == old(self).spec_num_shapes(),
            r is Err ==> *final(self) == *old(self),
            old(self).spec_num_shapes() != collection.spec_shapes().len() ==> r == Err::<
                (),
                OptimaError,
            >(
                OptimaError::IndexOutOfBounds {
                    index: collection.spec_shapes().len() as usize,
                    length: old(self).spec_num_shapes() as usize,
                },
            ),
            old(self).spec_num_shapes() == collection.spec_shapes().len() && old(self).spec_count()
                >= MAX_SAMPLES ==> r == Err::<(), OptimaError>(
                OptimaError::IndexOutOfBounds {
                    index: old(self).spec_count() as usize,
                    length: MAX_SAMPLES,
                },
            ),
            old(self).spec_num_shapes() == collection.spec_shapes().len() && old(self).spec_count()
                < MAX_SAMPLES && Self::some_signature_is_unknown(collection, pairs@) ==> r
                == Err::<(), OptimaError>(OptimaError::UnknownShapeSignature),
            old(self).spec_num_shapes() == collection.spec_shapes().len() && old(self).spec_count()
                < MAX_SAMPLES && !Self::some_signature_is_unknown(collection, pairs@) ==> {
                &&& r == Ok::<(), OptimaError>(())
                &&& final(self).spec_count() == old(self).spec_count() + 1
                &&& forall|a: int, b: int|
                    0 <= a < old(self).spec_num_shapes() && 0 <= b < old(self).spec_num_shapes()
                        ==> #[trigger] final(self).spec_collisions(a, b) == at_most(
                        old(self).spec_collisions(a, b) + collisions_reported(
                            collection,
                            pairs@,
                            a,
                            b,
                            pairs@.len() as int,
                        ),
                        old(self).spec_count() + 1,
                    )
            },
    {
        if self.collision_counter_array.side_length() != collection.num_shapes() {
            return Err(
                OptimaError::IndexOutOfBounds {
                    index: collection.num_shapes(),
                    length: self.collision_counter_array.side_length(),
                },
            );
        }
        if self.count >= MAX_SAMPLES {
            return Err(OptimaError::IndexOutOfBounds { index: self.count, length: MAX_SAMPLES });
        }
        let mut k: usize = 0;
        while k < pairs.len()
            invariant
                *self == *old(self),
                self.wf(),
                self.spec_num_shapes() == collection.spec_shapes().len(),
                self.spec_count() < MAX_SAMPLES,
                k <= pairs@.len(),
                forall|a: int|
                    0 <= a < k ==> !collection.signature_is_unknown((#[trigger] pairs@[a]).signature1)
                        && !collection.signature_is_unknown(pairs@[a].signature2),
            decreases pairs@.len() - k,
        {
            match collection.get_shape_idx_from_signature(&pairs[k].signature1) {
                Ok(_) => {},
                Err(e) => {
                    return Err(e);
                },
            }
            match collection.get_shape_idx_from_signature(&pairs[k].signature2) {
                Ok(_) => {},
                Err(e) => {
                    return Err(e);
                },
            }
            k += 1;
        }
        self.count = self.count + 1;
        let count = self.count;
        let mut k: usize = 0;
        while k < pairs.len()
            invariant
                k <= pairs@.len(),
                collection.wf(),
                count == old(self).count + 1,
                self.count == count,
                count <= MAX_SAMPLES,
                self.collision_counter_array.wf(),
                self.collision_counter_array.spec_symmetric(),
                self.collision_counter_array.spec_side_length() == old(
                    self,
                ).collision_counter_array.spec_side_length(),
                self.collision_counter_array.spec_side_length() == collection.spec_shapes().len(),
                forall|a: int|
                    0 <= a < pairs@.len() ==> !collection.signature_is_unknown(
                        (#[trigger] pairs@[a]).signature1,
                    ) && !collection.signature_is_unknown(pairs@[a].signature2),
                forall|a: int, b: int|
                    0 <= a < self.collision_counter_array.spec_side_length() && 0 <= b
                        < self.collision_counter_array.spec_side_length()
                        ==> #[trigger] self.collision_counter_array.spec_cell(a, b) == at_most(
                        old(self).collision_counter_array.spec_cell(a, b) as nat
                            + collisions_reported(collection, pairs@, a, b, k as int),
                        count as nat,
                    ),
            decreases pairs@.len() - k,
        {
            let pair = pairs[k];
            assert(!collection.signature_is_unknown(pairs@[k as int].signature1)
                && !collection.signature_is_unknown(pairs@[k as int].signature2));
            let idx1 = match collection.get_shape_idx_from_signature(&pair.signature1) {
                Ok(idx) => idx,
                Err(e) => {
                    assert(false);
                    return Err(e);
                },
            };
            let idx2 = match collection.get_shape_idx_from_signature(&pair.signature2) {
                Ok(idx) => idx,
                Err(e) => {
                    assert(false);
                    return Err(e);
                },
            };
            let ghost before = self.collision_counter_array;
            if pair.in_collision {
                let counted = match self.collision_counter_array.data_cell(idx1, idx2) {
                    Ok(c) => c,
                    Err(e) => {
                        return Err(e);
                    },
                };
                proof {
                    before.lemma_symmetric_cells(idx1 as int, idx2 as int);
                }
                if counted < count {
                    match self.collision_counter_array.replace_data(counted + 1, idx1, idx2) {
                        Ok(_) => {},
                        Err(e) => {
                            return Err(e);
                        },
                    }
                }
            }
            proof {
                assert forall|a: int, b: int|
                    0 <= a < self.collision_counter_array.spec_side_length() && 0 <= b
                        < self.collision_counter_array.spec_side_length() implies #[trigger] self.collision_counter_array.spec_cell(
                    a,
                    b,
                ) == at_most(
                    old(self).collision_counter_array.spec_cell(a, b) as nat + collisions_reported(
                        collection,
                        pairs@,
                        a,
                        b,
                        k + 1,
                    ),
                    count as nat,
                ) by {
                    assert(before.spec_cell(a, b) == at_most(
                        old(self).collision_counter_array.spec_cell(a, b) as nat
                            + collisions_reported(collection, pairs@, a, b, k as int),
                        count as nat,
                    ));
                    let hits = (a == idx1 && b == idx2) || (a == idx2 && b == idx1);
                    assert(sample_hits(collection, pair, a, b) == (pair.in_collision && hits));
                }
            }
            k += 1;
        }
        proof {
            assert(!Self::some_signature_is_unknown(collection, pairs@));
        }
        Ok(())
    }

    /// Whether the pair `(x, y)` is skipped once the pair has been gone through,
    /// and whether before.
    pub open spec fn skip_when<T: Copy, G>(
        &self,
        before: &ShapeCollection<T, G>,
        x: int,
        y: int,
        done: bool,
    ) -> bool {
        before.spec_skip(x, y) || (done && skipped_by_preprocessing(
            x,
            y,
            before.spec_shapes()[x].spec_signature(),
            before.spec_shapes()[y].spec_signature(),
            self.spec_collisions(x, y),
            self.spec_count(),
        ))
    }

    /// Writes what sampling found into the collection: for every pair the average
    /// distance, and the mark of a skipped pair where preprocessing skips the pair.
    /// Of the two averages given for a pair, the one in the row of the later shape
    /// is recorded for both orders of the pair. Tables for another number of
    /// shapes are an error, and then nothing is written.
    pub fn finish<T: Copy, G>(
        &self,
        robot_shape_collection: &mut RobotShapeCollection<T, G>,
        average_distances: &SquareArray2D<T>,
    ) -> (r: Result<(), OptimaError>)
        requires
            self.wf(),
            old(robot_shape_collection).wf(),
            average_distances.wf(),
        ensures
            final(robot_shape_collection).wf(),
            final(robot_shape_collection).spec_shapes() == old(robot_shape_collection).spec_shapes(),
            final(robot_shape_collection).spec_link_idx_to_shape_idxs_mapping() == old(robot_shape_collection).spec_link_idx_to_shape_idxs_mapping(),
            final(robot_shape_collection).spec_robot_link_shape_representation() == old(robot_shape_collection).spec_robot_link_shape_representation(),
            self.spec_num_shapes() != old(robot_shape_collection).spec_shapes().len() ==> r
                == Err::<(), OptimaError>(
                OptimaError::IndexOutOfBounds {
                    index: self.spec_num_shapes() as usize,
                    length: old(robot_shape_collection).spec_shapes().len() as usize,
                },
            ),
            self.spec_num_shapes() == old(robot_shape_collection).spec_shapes().len()
                && average_distances.spec_side_length() != self.spec_num_shapes() ==> r == Err::<
                (),
                OptimaError,
            >(
                OptimaError::IndexOutOfBounds {
                    index: average_distances.spec_side_length() as usize,
                    length: old(robot_shape_collection).spec_shapes().len() as usize,
                },
            ),
            r is Err ==> final(robot_shape_collection).spec_shape_collection() == old(robot_shape_collection).spec_shape_collection(),
            self.spec_num_shapes() == old(robot_shape_collection).spec_shapes().len()
                && average_distances.spec_side_length() == self.spec_num_shapes() ==> {
                &&& r == Ok::<(), OptimaError>(())
                &&& forall|a: int, b: int|
                    0 <= a < self.spec_num_shapes() && 0 <= b < self.spec_num_shapes()
                        ==> #[trigger] final(robot_shape_collection).spec_shape_collection().spec_skip(
                        a,
                        b,
                    ) == (old(robot_shape_collection).spec_shape_collection().spec_skip(a, b)
                        || skipped_by_preprocessing(
                        a,
                        b,
                        old(robot_shape_collection).spec_shapes()[a].spec_signature(),
                        old(robot_shape_collection).spec_shapes()[b].spec_signature(),
                        self.spec_collisions(a, b),
                        self.spec_count(),
                    ))
                &&& forall|a: int, b: int|
                    0 <= a < self.spec_num_shapes() && 0 <= b < self.spec_num_shapes()
                        ==> #[trigger] final(
                        robot_shape_collection
                    ).spec_shape_collection().spec_average_distance(a, b) == Some(
                        if a <= b {
                            average_distances.spec_cell(b, a)
                        } else {
                            average_distances.spec_cell(a, b)
                        },
                    )
                &&& forall|a: int|
                    0 <= a < self.spec_num_shapes() ==> #[trigger] final(
                        robot_shape_collection
                    ).spec_shape_collection().spec_skip(a, a)
                &&& forall|a: int, b: int|
                    0 <= a < self.spec_num_shapes() && 0 <= b < self.spec_num_shapes() ==> {
                        &&& #[trigger] final(
                            robot_shape_collection
                        ).spec_shape_collection().spec_skip(a, b) == final(
                            robot_shape_collection
                        ).spec_shape_collection().spec_skip(b, a)
                        &&& final(
                            robot_shape_collection
                        ).spec_shape_collection().spec_average_distance(a, b) == final(
                            robot_shape_collection
                        ).spec_shape_collection().spec_average_distance(b, a)
                    }
            },
    {
        let num_shapes = robot_shape_collection.shape_collection.num_shapes();
        if self.collision_counter_array.side_length() != num_shapes {
            return Err(
                OptimaError::IndexOutOfBounds {
                    index: self.collision_counter_array.side_length(),
                    length: num_shapes,
                },
            );
        }
        if average_distances.side_length() != num_shapes {
            return Err(
                OptimaError::IndexOutOfBounds {
                    index: average_distances.side_length(),
                    length: num_shapes,
                },
            );
        }
        let count = self.count;
        let ghost before = old(robot_shape_collection).spec_shape_collection();
        let ghost shapes = before.spec_shapes();
        let mut a: usize = 0;
        while a < num_shapes
            invariant
                self.wf(),
                average_distances.wf(),
                count == self.count,
                a <= num_shapes,
                num_shapes == shapes.len(),
                self.collision_counter_array.spec_side_length() == num_shapes,
                average_distances.spec_side_length() == num_shapes,
                before == old(robot_shape_collection).spec_shape_collection(),
                before.wf(),
                shapes == before.spec_shapes(),
                robot_shape_collection.shape_collection.wf(),
                robot_shape_collection.shape_collection.spec_shapes() == shapes,
                robot_shape_collection.link_idx_to_shape_idxs_mapping == old(
                    robot_shape_collection,
                ).link_idx_to_shape_idxs_mapping,
                robot_shape_collection.robot_link_shape_representation == old(
                    robot_shape_collection,
                ).robot_link_shape_representation,
                forall|x: int, y: int|
                    0 <= x < num_shapes && 0 <= y < num_shapes
                        ==> #[trigger] robot_shape_collection.shape_collection.spec_skip(x, y)
                        == self.skip_when(&before, x, y, pair_is_done(x, y, a as int, a as int)),
                forall|x: int, y: int|
                    0 <= x < num_shapes && 0 <= y < num_shapes
                        ==> #[trigger] robot_shape_collection.shape_collection.spec_average_distance(
                        x,
                        y,
                    ) == average_when(
                        &before,
                        average_distances,
                        x,
                        y,
                        pair_is_done(x, y, a as int, a as int),
                    ),
            decreases num_shapes - a,
        {
            let mut b: usize = a;
            while b < num_shapes
                invariant
                    self.wf(),
                    average_distances.wf(),
                    count == self.count,
                    a < num_shapes,
                    a <= b <= num_shapes,
                    num_shapes == shapes.len(),
                    self.collision_counter_array.spec_side_length() == num_shapes,
                    average_distances.spec_side_length() == num_shapes,
                    before == old(robot_shape_collection).spec_shape_collection(),
                    before.wf(),
                    shapes == before.spec_shapes(),
                    robot_shape_collection.shape_collection.wf(),
                    robot_shape_collection.shape_collection.spec_shapes() == shapes,
                    robot_shape_collection.link_idx_to_shape_idxs_mapping == old(
                        robot_shape_collection,
                    ).link_idx_to_shape_idxs_mapping,
                    robot_shape_collection.robot_link_shape_representation == old(
                        robot_shape_collection,
                    ).robot_link_shape_representation,
                    forall|x: int, y: int|
                        0 <= x < num_shapes && 0 <= y < num_shapes
                            ==> #[trigger] robot_shape_collection.shape_collection.spec_skip(x, y)
                            == self.skip_when(&before, x, y, pair_is_done(x, y, a as int, b as int)),
                    forall|x: int, y: int|
                        0 <= x < num_shapes && 0 <= y < num_shapes
                            ==> #[trigger] robot_shape_collection.shape_collection.spec_average_distance(
                            x,
                            y,
                        ) == average_when(
                            &before,
                            average_distances,
                            x,
                            y,
                            pair_is_done(x, y, a as int, b as int),
                        ),
                decreases num_shapes - b,
            {
                proof {
                    self.lemma_counts(a as int, b as int);
                }
                let average = match average_distances.data_cell(b, a) {
                    Ok(v) => v,
                    Err(e) => {
                        return Err(e);
                    },
                };
                let collisions = match self.collision_counter_array.data_cell(a, b) {
                    Ok(c) => c,
                    Err(e) => {
                        return Err(e);
                    },
                };
                let shapes_list = robot_shape_collection.shape_collection.shapes();
                let same_link = match shapes_list[a].signature() {
                    GeometricShapeSignature::RobotLink { link_idx, shape_idx_in_link: _ } => {
                        let link_idx1 = link_idx;
                        match shapes_list[b].signature() {
                            GeometricShapeSignature::RobotLink {
                                link_idx,
                                shape_idx_in_link: _,
                            } => link_idx1 == link_idx,
                            _ => false,
                        }
                    },
                    _ => false,
                };
                let always = count >= MIN_SAMPLES && 100 * collisions > 99 * count;
                let never = count >= MIN_SAMPLES_FOR_NEVER_COLLIDING && collisions == 0;
                let skip = a == b || same_link || always || never;
                assert(skip == skipped_by_preprocessing(
                    a as int,
                    b as int,
                    shapes[a as int].spec_signature(),
                    shapes[b as int].spec_signature(),
                    self.spec_collisions(a as int, b as int),
                    count as nat,
                ));
                let ghost earlier = robot_shape_collection.shape_collection;
                match robot_shape_collection.shape_collection.replace_average_distance_from_idxs(
                    average,
                    a,
                    b,
                ) {
                    Ok(_) => {},
                    Err(e) => {
                        return Err(e);
                    },
                }
                if skip {
                    match robot_shape_collection.shape_collection.replace_skip_from_idxs(true, a, b) {
                        Ok(_) => {},
                        Err(e) => {
                            return Err(e);
                        },
                    }
                }
                proof {
                    let now = robot_shape_collection.shape_collection;
                    assert forall|x: int, y: int|
                        0 <= x < num_shapes && 0 <= y < num_shapes implies #[trigger] now.spec_skip(
                        x,
                        y,
                    ) == self.skip_when(&before, x, y, pair_is_done(x, y, a as int, b + 1)) by {
                        self.lemma_counts(x, y);
                        assert(earlier.spec_skip(x, y) == self.skip_when(
                            &before,
                            x,
                            y,
                            pair_is_done(x, y, a as int, b as int),
                        ));
                        if (x == a && y == b) || (x == b && y == a) {
                            assert(now.spec_skip(x, y) == (earlier.spec_skip(x, y) || skip));
                        } else {
                            assert(now.spec_skip(x, y) == earlier.spec_skip(x, y));
                        }
                    }
                    assert forall|x: int, y: int|
                        0 <= x < num_shapes && 0 <= y < num_shapes implies #[trigger] now.spec_average_distance(
                        x,
                        y,
                    ) == average_when(
                        &before,
                        average_distances,
                        x,
                        y,
                        pair_is_done(x, y, a as int, b + 1),
                    ) by {
                        assert(earlier.spec_average_distance(x, y) == average_when(
                            &before,
                            average_distances,
                            x,
                            y,
                            pair_is_done(x, y, a as int, b as int),
                        ));
                        if (x == a && y == b) || (x == b && y == a) {
                            assert(now.spec_average_distance(x, y) == Some(average));
                        } else {
                            assert(now.spec_average_distance(x, y)
                                == earlier.spec_average_distance(x, y));
                        }
                    }
                }
                b += 1;
            }
            a += 1;
        }
        proof {
            let now = robot_shape_collection.shape_collection;
            assert(now == robot_shape_collection.spec_shape_collection());
            assert forall|x: int, y: int|
                0 <= x < self.spec_num_shapes() && 0 <= y < self.spec_num_shapes() implies {
                &&& #[trigger] now.spec_skip(x, y) == now.spec_skip(y, x)
                &&& now.spec_average_distance(x, y) == now.spec_average_distance(y, x)
            } by {
                now.lemma_tables_are_symmetric(x, y);
            }
            assert forall|x: int, y: int|
                0 <= x < self.spec_num_shapes() && 0 <= y < self.spec_num_shapes() implies #[trigger] now.spec_skip(
                x,
                y,
            ) == (before.spec_skip(x, y) || skipped_by_preprocessing(
                x,
                y,
                shapes[x].spec_signature(),
                shapes[y].spec_signature(),
                self.spec_collisions(x, y),
                self.spec_count(),
            )) by {
                assert(now.spec_skip(x, y) == self.skip_when(&before, x, y, true));
            }
            assert forall|x: int, y: int|
                0 <= x < self.spec_num_shapes() && 0 <= y < self.spec_num_shapes() implies #[trigger] now.spec_average_distance(
                x,
                y,
            ) == Some(
                if x <= y {
                    average_distances.spec_cell(y, x)
                } else {
                    average_distances.spec_cell(x, y)
                },
            ) by {
                assert(now.spec_average_distance(x, y) == average_when(
                    &before,
                    average_distances,
                    x,
                    y,
                    true,
                ));
            }
            assert forall|l: int|
                0 <= l < robot_shape_collection.spec_num_links() implies (
            #[trigger] robot_shape_collection.spec_link_idx_to_shape_idxs_mapping()[l])@
                == shapes_of_link(
                robot_shape_collection.spec_shapes(),
                l,
                robot_shape_collection.spec_shapes().len() as int,
            ) by {
                assert(old(robot_shape_collection).spec_link_idx_to_shape_idxs_mapping()[l]@
                    == shapes_of_link(shapes, l, shapes.len() as int));
            }
        }
        Ok(())
    }
}

/// The two signatures name the shapes `a` and `b` of the collection, in either
/// order.
pub open spec fn signatures_name_pair<T: Copy, G>(
    collection: &ShapeCollection<T, G>,
    signatures: (GeometricShapeSignature, GeometricShapeSignature),
    a: int,
    b: int,
) -> bool {
    ||| (collection.is_first_with_signature(signatures.0, a) && collection.is_first_with_signature(
        signatures.1,
        b,
    ))
    ||| (collection.is_first_with_signature(signatures.0, b) && collection.is_first_with_signature(
        signatures.1,
        a,
    ))
}

/// One of the first `upto` pairs of signatures names the shapes `a` and `b`.
pub open spec fn pair_is_named<T: Copy, G>(
    collection: &ShapeCollection<T, G>,
    pairs: Seq<(GeometricShapeSignature, GeometricShapeSignature)>,
    a: int,
    b: int,
    upto: int,
) -> bool
    decreases upto,
{
    if upto <= 0 {
        false
    } else {
        pair_is_named(collection, pairs, a, b, upto - 1) || signatures_name_pair(
            collection,
            pairs[upto - 1],
            a,
            b,
        )
    }
}

/// One of the pairs names a shape that the collection does not have.
pub open spec fn some_pair_is_unknown<T: Copy, G>(
    collection: &ShapeCollection<T, G>,
    pairs: Seq<(GeometricShapeSignature, GeometricShapeSignature)>,
) -> bool {
    exists|k: int|
        0 <= k < pairs.len() && (collection.signature_is_unknown((#[trigger] pairs[k]).0)
            || collection.signature_is_unknown(pairs[k].1))
}

/// The table of poses is what forward kinematics gives the shapes of the
/// collection.
pub open spec fn poses_are_recovered<T: Copy, G>(
    collection: &RobotShapeCollection<T, G>,
    link_entries: Seq<RobotFKResultLinkEntry<T>>,
    poses: Seq<Option<OptimaSE3Pose<T>>>,
) -> bool {
    &&& poses.len() == collection.spec_shapes().len()
    &&& forall|s: int|
        0 <= s < collection.spec_shapes().len() ==> #[trigger] poses[s] == pose_of_signature(
            collection.spec_shapes()[s].spec_signature(),
            link_entries,
        )
}

/// The poses of the shapes are determined by the collection and the result of
/// forward kinematics: two tables recovered from one result hold the same poses.
pub proof fn lemma_recovered_poses_agree<T: Copy, G>(
    collection: &RobotShapeCollection<T, G>,
    link_entries: Seq<RobotFKResultLinkEntry<T>>,
    first: Seq<Option<OptimaSE3Pose<T>>>,
    second: Seq<Option<OptimaSE3Pose<T>>>,
)
    requires
        poses_are_recovered(collection, link_entries, first),
        poses_are_recovered(collection, link_entries, second),
    ensures
        first == second,
{
    assert(first =~= second);
}

/// Forward kinematics has a pose for a link that the robot of the collection does
/// not have; `error` is what is reported of the first such link.
pub open spec fn recovery_fails<T: Copy, G>(
    collection: &RobotShapeCollection<T, G>,
    link_entries: Seq<RobotFKResultLinkEntry<T>>,
    error: OptimaError,
) -> bool {
    exists|l: int|
        {
            &&& #[trigger] collection.is_first_stray_link(link_entries, l)
            &&& error == OptimaError::IndexOutOfBounds {
                index: l as usize,
                length: collection.spec_num_links() as usize,
            }
        }
}

/// The shapes of a robot in every representation that has been preprocessed, with
/// the tables of each as preprocessing left them.
pub struct RobotGeometricShapeModule<T, G> {
    robot_shape_collections: Vec<RobotShapeCollection<T, G>>,
    permanent_tables: Vec<ShapeCollectionTables<T>>,
}

impl<T: Copy, G> RobotGeometricShapeModule<T, G> {
    pub closed spec fn spec_robot_shape_collections(&self) -> Seq<RobotShapeCollection<T, G>> {
        self.robot_shape_collections@
    }

    /// For each collection its tables as they were when the collection was added.
    pub closed spec fn spec_permanent_tables(&self) -> Seq<ShapeCollectionTables<T>> {
        self.permanent_tables@
    }

    /// Every collection is well formed and has its permanent tables.
    pub open spec fn wf(&self) -> bool {
        &&& self.spec_permanent_tables().len() == self.spec_robot_shape_collections().len()
        &&& forall|k: int|
            0 <= k < self.spec_robot_shape_collections().len() ==> {
                &&& (#[trigger] self.spec_robot_shape_collections()[k]).wf()
                &&& self.spec_permanent_tables()[k].wf()
                &&& self.spec_permanent_tables()[k].spec_num_shapes()
                    == self.spec_robot_shape_collections()[k].spec_shapes().len()
            }
    }

    /// `k` is the first collection in the given representation.
    pub open spec fn is_first_with_representation(
        &self,
        representation: RobotLinkShapeRepresentation,
        k: int,
    ) -> bool {
        &&& 0 <= k < self.spec_robot_shape_collections().len()
        &&& self.spec_robot_shape_collections()[k].spec_robot_link_shape_representation()
            == representation
        &&& forall|i: int|
            0 <= i < k ==> (
            #[trigger] self.spec_robot_shape_collections()[i]).spec_robot_link_shape_representation()
                != representation
    }

    /// No collection is in the given representation.
    pub open spec fn is_not_preprocessed(&self, representation: RobotLinkShapeRepresentation) -> bool {
        forall|i: int|
            0 <= i < self.spec_robot_shape_collections().len() ==> (
            #[trigger] self.spec_robot_shape_collections()[i]).spec_robot_link_shape_representation()
                != representation
    }

    /// A module without collections.
    pub fn new() -> (r: Self)
        ensures
            r.wf(),
            r.spec_robot_shape_collections().len() == 0,
    {
        RobotGeometricShapeModule {
            robot_shape_collections: Vec::new(),
            permanent_tables: Vec::new(),
        }
    }

    /// Adds a preprocessed collection at the end, and keeps its tables as they are
    /// now as its permanent tables.
    pub fn add_robot_shape_collection(&mut self, robot_shape_collection: RobotShapeCollection<T, G>)
        requires
            old(self).wf(),
            robot_shape_collection.wf(),
        ensures
            final(self).wf(),
            final(self).spec_robot_shape_collections() == old(
                self,
            ).spec_robot_shape_collections().push(robot_shape_collection),
            final(self).spec_permanent_tables().len() == old(self).spec_permanent_tables().len()
                + 1,
            forall|k: int|
                0 <= k < old(self).spec_permanent_tables().len() ==> final(self).spec_permanent_tables()[k] == old(self).spec_permanent_tables()[k],
            robot_shape_collection.spec_shape_collection().tables_match(
                &final(self).spec_permanent_tables()[old(self).spec_permanent_tables().len() as int],
            ),
    {
        let tables = robot_shape_collection.shape_collection.tables_snapshot();
        self.robot_shape_collections.push(robot_shape_collection);
        self.permanent_tables.push(tables);
    }

    /// Adds a collection at the end, with permanent tables that are given apart
    /// from the tables the collection has now: a collection that was calibrated
    /// and stored comes back with both. Tables for another number of shapes are an
    /// error, and then nothing is added.
    pub fn add_robot_shape_collection_with_permanent_tables(
        &mut self,
        robot_shape_collection: RobotShapeCollection<T, G>,
        permanent_tables: ShapeCollectionTables<T>,
    ) -> (r: Result<(), OptimaError>)
        requires
            old(self).wf(),
            robot_shape_collection.wf(),
            permanent_tables.wf(),
        ensures
            final(self).wf(),
            permanent_tables.spec_num_shapes() == robot_shape_collection.spec_shapes().len() ==> {
                &&& r == Ok::<(), OptimaError>(())
                &&& final(self).spec_robot_shape_collections() == old(
                    self,
                ).spec_robot_shape_collections().push(robot_shape_collection)
                &&& final(self).spec_permanent_tables() == old(self).spec_permanent_tables().push(
                    permanent_tables,
                )
            },
            permanent_tables.spec_num_shapes() != robot_shape_collection.spec_shapes().len() ==> {
                &&& r == Err::<(), OptimaError>(
                    OptimaError::IndexOutOfBounds {
                        index: permanent_tables.spec_num_shapes() as usize,
                        length: robot_shape_collection.spec_shapes().len() as usize,
                    },
                )
                &&& *final(self) == *old(self)
            },
    {
        if permanent_tables.num_shapes() != robot_shape_collection.shape_collection.num_shapes() {
            return Err(
                OptimaError::IndexOutOfBounds {
                    index: permanent_tables.num_shapes(),
                    length: robot_shape_collection.shape_collection.num_shapes(),
                },
            );
        }
        self.robot_shape_collections.push(robot_shape_collection);
        self.permanent_tables.push(permanent_tables);
        Ok(())
    }

    /// The permanent tables, one for each collection, in the order of the
    /// collections.
    pub fn permanent_tables(&self) -> (r: &Vec<ShapeCollectionTables<T>>)
        ensures
            r@ == self.spec_permanent_tables(),
    {
        &self.permanent_tables
    }

    /// The collections, in the order in which they were added.
    pub fn robot_shape_collections(&self) -> (r: &Vec<RobotShapeCollection<T, G>>)
        ensures
            r@ == self.spec_robot_shape_collections(),
    {
        &self.robot_shape_collections
    }

    /// The representations, in the order in which they are preprocessed.
    pub fn get_all_robot_link_shape_representations() -> (r: Vec<RobotLinkShapeRepresentation>)
        ensures
            r@ == seq![
                RobotLinkShapeRepresentation::Cubes,
                RobotLinkShapeRepresentation::ConvexShapes,
                RobotLinkShapeRepresentation::SphereSubcomponents,
                RobotLinkShapeRepresentation::CubeSubcomponents,
                RobotLinkShapeRepresentation::ConvexShapeSubcomponents,
                RobotLinkShapeRepresentation::TriangleMeshes,
            ],
    {
        let mut representations: Vec<RobotLinkShapeRepresentation> = Vec::new();
        representations.push(RobotLinkShapeRepresentation::Cubes);
        representations.push(RobotLinkShapeRepresentation::ConvexShapes);
        representations.push(RobotLinkShapeRepresentation::SphereSubcomponents);
        representations.push(RobotLinkShapeRepresentation::CubeSubcomponents);
        representations.push(RobotLinkShapeRepresentation::ConvexShapeSubcomponents);
        representations.push(RobotLinkShapeRepresentation::TriangleMeshes);
        assert(representations@ =~= seq![
            RobotLinkShapeRepresentation::Cubes,
            RobotLinkShapeRepresentation::ConvexShapes,
            RobotLinkShapeRepresentation::SphereSubcomponents,
            RobotLinkShapeRepresentation::CubeSubcomponents,
            RobotLinkShapeRepresentation::ConvexShapeSubcomponents,
            RobotLinkShapeRepresentation::TriangleMeshes,
        ]);
        representations
    }

    /// The seconds of sampling after which preprocessing of the representation may
    /// end: more for the representations with more detail.
    pub fn stop_at_min_sample_duration(
        robot_link_shape_representation: &RobotLinkShapeRepresentation,
    ) -> (r: u64)
        ensures
            r == match *robot_link_shape_representation {
                RobotLinkShapeRepresentation::Cubes => 20u64,
                RobotLinkShapeRepresentation::ConvexShapes => 30u64,
                RobotLinkShapeRepresentation::SphereSubcomponents => 30u64,
                RobotLinkShapeRepresentation::CubeSubcomponents => 30u64,
                RobotLinkShapeRepresentation::ConvexShapeSubcomponents => 60u64,
                RobotLinkShapeRepresentation::TriangleMeshes => 120u64,
            },
    {
        match robot_link_shape_representation {
            RobotLinkShapeRepresentation::Cubes => 20,
            RobotLinkShapeRepresentation::ConvexShapes => 30,
            RobotLinkShapeRepresentation::SphereSubcomponents => 30,
            RobotLinkShapeRepresentation::CubeSubcomponents => 30,
            RobotLinkShapeRepresentation::ConvexShapeSubcomponents => 60,
            RobotLinkShapeRepresentation::TriangleMeshes => 120,
        }
    }

    fn robot_shape_collection_idx(&self, shape_representation: &RobotLinkShapeRepresentation) -> (r:
        Option<usize>)
        ensures
            match r {
                Some(k) => self.is_first_with_representation(*shape_representation, k as int),
                None => self.is_not_preprocessed(*shape_representation),
            },
    {
        let mut k: usize = 0;
        while k < self.robot_shape_collections.len()
            invariant
                k <= self.robot_shape_collections@.len(),
                forall|i: int|
                    0 <= i < k ==> (
                    #[trigger] self.robot_shape_collections@[i]).spec_robot_link_shape_representation()
                        != *shape_representation,
            decreases self.robot_shape_collections@.len() - k,
        {
            if self.robot_shape_collections[k].robot_link_shape_representation
                == *shape_representation {
                return Some(k);
            }
            k += 1;
        }
        None
    }

    /// Returns the first collection in the given representation.
    pub fn robot_shape_collection(&self, shape_representation: &RobotLinkShapeRepresentation) -> (r:
        Result<&RobotShapeCollection<T, G>, OptimaError>)
        ensures
            match r {
                Ok(collection) => exists|k: int|
                    {
                        &&& #[trigger] self.is_first_with_representation(*shape_representation, k)
                        &&& *collection == self.spec_robot_shape_collections()[k]
                    },
                Err(e) => e == OptimaError::SchemeNotPreprocessed && self.is_not_preprocessed(
                    *shape_representation,
                ),
            },
    {
        match self.robot_shape_collection_idx(shape_representation) {
            Some(k) => {
                assert(self.is_first_with_representation(*shape_representation, k as int));
                Ok(&self.robot_shape_collections[k])
            },
            None => Err(OptimaError::SchemeNotPreprocessed),
        }
    }

    /// Turns a query about the robot at a joint state into a query over the shapes
    /// of the collection in the given representation: every shape gets the pose of
    /// its link from the results of forward kinematics, one result for each joint
    /// state of the query, in their order. The query is otherwise the same.
    ///
    /// A representation without a collection is an error; so is a number of
    /// results other than the number of joint states of the query; so is a result
    /// with a pose for a link that the robot does not have, and of two such results
    /// the first is reported. The query succeeds where none of these holds.
    pub fn shape_collection_query(
        &self,
        input: &RobotShapeCollectionQuery<'_, T>,
        fk_results: &Vec<RobotFKResult<T>>,
        robot_link_shape_representation: RobotLinkShapeRepresentation,
    ) -> (r: Result<ShapeCollectionQuery<T>, OptimaError>)
        requires
            self.wf(),
        ensures
            self.is_not_preprocessed(robot_link_shape_representation) ==> r == Err::<
                ShapeCollectionQuery<T>,
                OptimaError,
            >(OptimaError::SchemeNotPreprocessed),
            !self.is_not_preprocessed(robot_link_shape_representation) && fk_results@.len()
                != input.spec_robot_joint_states().len() ==> r == Err::<
                ShapeCollectionQuery<T>,
                OptimaError,
            >(
                OptimaError::StateSizeMismatch {
                    given: fk_results@.len() as usize,
                    expected: input.spec_robot_joint_states().len() as usize,
                },
            ),
            !self.is_not_preprocessed(robot_link_shape_representation) && fk_results@.len()
                == input.spec_robot_joint_states().len() ==> exists|k: int|
                {
                    &&& #[trigger] self.is_first_with_representation(
                        robot_link_shape_representation,
                        k,
                    )
                    &&& match r {
                        Ok(query) => {
                            &&& forall|i: int|
                                0 <= i < fk_results@.len() ==> !self.spec_robot_shape_collections()[k].has_stray_link(
                                    (#[trigger] fk_results@[i])@,
                                )
                            &&& exists|poses: Seq<ShapeCollectionInputPoses<T>>|
                                {
                                    &&& #[trigger] poses.len() == fk_results@.len()
                                    &&& query == input.spec_resolved(poses)
                                    &&& forall|i: int|
                                        0 <= i < poses.len() ==> poses_are_recovered(
                                            &self.spec_robot_shape_collections()[k],
                                            fk_results@[i]@,
                                            (#[trigger] poses[i])@,
                                        )
                                }
                        },
                        Err(e) => exists|i: int|
                            {
                                &&& 0 <= i < fk_results@.len()
                                &&& #[trigger] recovery_fails(
                                    &self.spec_robot_shape_collections()[k],
                                    fk_results@[i]@,
                                    e,
                                )
                                &&& forall|earlier: int|
                                    0 <= earlier < i ==> !self.spec_robot_shape_collections()[k].has_stray_link(
                                        (#[trigger] fk_results@[earlier])@,
                                    )
                            },
                    }
                },
    {
        let k = match self.robot_shape_collection_idx(&robot_link_shape_representation) {
            Some(k) => k,
            None => {
                return Err(OptimaError::SchemeNotPreprocessed);
            },
        };
        let collection = &self.robot_shape_collections[k];
        assert(self.is_first_with_representation(robot_link_shape_representation, k as int));
        assert(!self.is_not_preprocessed(robot_link_shape_representation));
        let expected: usize = match input {
            RobotShapeCollectionQuery::CCD { .. } => 2,
            _ => 1,
        };
        if fk_results.len() != expected {
            return Err(
                OptimaError::StateSizeMismatch { given: fk_results.len(), expected },
            );
        }
        let poses = match collection.recover_poses(&fk_results[0]) {
            Ok(poses) => poses,
            Err(e) => {
                assert(recovery_fails(collection, fk_results@[0]@, e));
                return Err(e);
            },
        };
        assert(poses_are_recovered(collection, fk_results@[0]@, poses@));
        let query = match input {
            RobotShapeCollectionQuery::ProjectPoint { point, solid, .. } => ShapeCollectionQuery::ProjectPoint {
                poses,
                point: **point,
                solid: *solid,
            },
            RobotShapeCollectionQuery::ContainsPoint { point, .. } => ShapeCollectionQuery::ContainsPoint {
                poses,
                point: **point,
            },
            RobotShapeCollectionQuery::DistanceToPoint { point, solid, .. } => ShapeCollectionQuery::DistanceToPoint {
                poses,
                point: **point,
                solid: *solid,
            },
            RobotShapeCollectionQuery::IntersectsRay { ray, max_toi, .. } => ShapeCollectionQuery::IntersectsRay {
                poses,
                ray: **ray,
                max_toi: *max_toi,
            },
            RobotShapeCollectionQuery::CastRay { ray, max_toi, solid, .. } => ShapeCollectionQuery::CastRay {
                poses,
                ray: **ray,
                max_toi: *max_toi,
                solid: *solid,
            },
            RobotShapeCollectionQuery::CastRayAndGetNormal { ray, max_toi, solid, .. } => ShapeCollectionQuery::CastRayAndGetNormal {
                poses,
                ray: **ray,
                max_toi: *max_toi,
                solid: *solid,
            },
            RobotShapeCollectionQuery::IntersectionTest { .. } => ShapeCollectionQuery::IntersectionTest {
                poses,
            },
            RobotShapeCollectionQuery::Distance { .. } => ShapeCollectionQuery::Distance { poses },
            RobotShapeCollectionQuery::ClosestPoints { max_dis, .. } => ShapeCollectionQuery::ClosestPoints {
                poses,
                max_dis: *max_dis,
            },
            RobotShapeCollectionQuery::Contact { prediction, .. } => ShapeCollectionQuery::Contact {
                poses,
                prediction: *prediction,
            },
            RobotShapeCollectionQuery::CCD { .. } => {
                let poses_t2 = match collection.recover_poses(&fk_results[1]) {
                    Ok(poses) => poses,
                    Err(e) => {
                        assert(recovery_fails(collection, fk_results@[1]@, e));
                        return Err(e);
                    },
                };
                assert(poses_are_recovered(collection, fk_results@[1]@, poses_t2@));
                proof {
                    let both = seq![poses, poses_t2];
                    assert(both.len() == fk_results@.len());
                    assert(both[0] == poses && both[1] == poses_t2);
                }
                return Ok(ShapeCollectionQuery::CCD { poses_t1: poses, poses_t2 });
            },
        };
        proof {
            let one = seq![poses];
            assert(one.len() == fk_results@.len());
            assert(one[0] == poses);
            assert(query == input.spec_resolved(one));
        }
        Ok(query)
    }

    /// Everything but the tables of the collection at `k` is as it was.
    pub open spec fn same_but_tables_at(&self, before: &Self, k: int) -> bool {
        &&& self.spec_permanent_tables() == before.spec_permanent_tables()
        &&& self.spec_robot_shape_collections().len() == before.spec_robot_shape_collections().len()
        &&& forall|i: int|
            0 <= i < before.spec_robot_shape_collections().len() && i != k
                ==> #[trigger] self.spec_robot_shape_collections()[i]
                == before.spec_robot_shape_collections()[i]
        &&& 0 <= k < before.spec_robot_shape_collections().len() ==> {
            &&& self.spec_robot_shape_collections()[k].spec_shapes()
                == before.spec_robot_shape_collections()[k].spec_shapes()
            &&& self.spec_robot_shape_collections()[k].spec_link_idx_to_shape_idxs_mapping()
                == before.spec_robot_shape_collections()[k].spec_link_idx_to_shape_idxs_mapping()
            &&& self.spec_robot_shape_collections()[k].spec_robot_link_shape_representation()
                == before.spec_robot_shape_collections()[k].spec_robot_link_shape_representation()
        }
    }

    /// Marks pairs of shapes as skipped in the collection of one representation:
    /// the pairs that a contact query at a joint state known to be free of
    /// collision found in shallow contact, each given by the signatures of its two
    /// shapes. Every pair named is skipped from now on, in both orders; nothing
    /// else changes.
    ///
    /// A representation without a collection is an error, and so is a signature
    /// that names no shape of the collection; then nothing changes.
    pub fn set_robot_joint_state_as_non_collision(
        &mut self,
        robot_link_shape_representation: &RobotLinkShapeRepresentation,
        shallow_contacts: &Vec<(GeometricShapeSignature, GeometricShapeSignature)>,
    ) -> (r: Result<(), OptimaError>)
        requires
            old(self).wf(),
        ensures
            final(self).wf(),
            old(self).is_not_preprocessed(*robot_link_shape_representation) ==> {
                &&& r == Err::<(), OptimaError>(OptimaError::SchemeNotPreprocessed)
                &&& *final(self) == *old(self)
            },
            !old(self).is_not_preprocessed(*robot_link_shape_representation) ==> exists|k: int|
                {
                    &&& #[trigger] old(self).is_first_with_representation(
                        *robot_link_shape_representation,
                        k,
                    )
                    &&& final(self).same_but_tables_at(old(self), k)
                    &&& if some_pair_is_unknown(
                        &old(self).spec_robot_shape_collections()[k].spec_shape_collection(),
                        shallow_contacts@,
                    ) {
                        &&& r == Err::<(), OptimaError>(OptimaError::UnknownShapeSignature)
                        &&& *final(self) == *old(self)
                    } else {
                        &&& r == Ok::<(), OptimaError>(())
                        &&& forall|a: int, b: int|
                            0 <= a < old(self).spec_robot_shape_collections()[k].spec_shapes().len()
                                && 0 <= b < old(
                                self,
                            ).spec_robot_shape_collections()[k].spec_shapes().len()
                                ==> #[trigger] final(self).spec_robot_shape_collections()[k].spec_shape_collection().spec_skip(
                                a,
                                b,
                            ) == (old(
                                self,
                            ).spec_robot_shape_collections()[k].spec_shape_collection().spec_skip(
                                a,
                                b,
                            ) || pair_is_named(
                                &old(self).spec_robot_shape_collections()[k].spec_shape_collection(),
                                shallow_contacts@,
                                a,
                                b,
                                shallow_contacts@.len() as int,
                            ))
                        &&& forall|a: int, b: int|
                            0 <= a < old(self).spec_robot_shape_collections()[k].spec_shapes().len()
                                && 0 <= b < old(
                                self,
                            ).spec_robot_shape_collections()[k].spec_shapes().len()
                                ==> #[trigger] final(self).spec_robot_shape_collections()[k].spec_shape_collection().spec_average_distance(
                                a,
                                b,
                            ) == old(
                                self,
                            ).spec_robot_shape_collections()[k].spec_shape_collection().spec_average_distance(
                                a,
                                b,
                            )
                    }
                },
    {
        let k = match self.robot_shape_collection_idx(robot_link_shape_representation) {
            Some(k) => k,
            None => {
                return Err(OptimaError::SchemeNotPreprocessed);
            },
        };
        assert(self.is_first_with_representation(*robot_link_shape_representation, k as int));
        assert(!self.is_not_preprocessed(*robot_link_shape_representation));
        let ghost before = self.robot_shape_collections@[k as int].shape_collection;
        let ghost shapes = before.spec_shapes();
        assert(self.robot_shape_collections@[k as int].wf());
        let mut i: usize = 0;
        while i < shallow_contacts.len()
            invariant
                *self == *old(self),
                old(self).wf(),
                old(self).is_first_with_representation(*robot_link_shape_representation, k as int),
                !old(self).is_not_preprocessed(*robot_link_shape_representation),
                k < self.robot_shape_collections@.len(),
                before == self.robot_shape_collections@[k as int].shape_collection,
                i <= shallow_contacts@.len(),
                forall|x: int|
                    0 <= x < i ==> !before.signature_is_unknown((#[trigger] shallow_contacts@[x]).0)
                        && !before.signature_is_unknown(shallow_contacts@[x].1),
            decreases shallow_contacts@.len() - i,
        {
            let collection = &self.robot_shape_collections[k].shape_collection;
            match collection.get_shape_idx_from_signature(&shallow_contacts[i].0) {
                Ok(_) => {},
                Err(e) => {
                    assert(before.signature_is_unknown(shallow_contacts@[i as int].0));
                    assert(some_pair_is_unknown(&before, shallow_contacts@));
                    assert(self.same_but_tables_at(old(self), k as int));
                    return Err(e);
                },
            }
            match collection.get_shape_idx_from_signature(&shallow_contacts[i].1) {
                Ok(_) => {},
                Err(e) => {
                    assert(before.signature_is_unknown(shallow_contacts@[i as int].1));
                    assert(some_pair_is_unknown(&before, shallow_contacts@));
                    assert(self.same_but_tables_at(old(self), k as int));
                    return Err(e);
                },
            }
            i += 1;
        }
        assert(!some_pair_is_unknown(&before, shallow_contacts@));
        let mut i: usize = 0;
        while i < shallow_contacts.len()
            invariant
                old(self).wf(),
                self.same_but_tables_at(old(self), k as int),
                k < self.robot_shape_collections@.len(),
                before == old(self).robot_shape_collections@[k as int].shape_collection,
                before.wf(),
                shapes == before.spec_shapes(),
                self.robot_shape_collections@[k as int].shape_collection.wf(),
                self.robot_shape_collections@[k as int].shape_collection.spec_shapes() == shapes,
                i <= shallow_contacts@.len(),
                forall|x: int|
                    0 <= x < shallow_contacts@.len() ==> !before.signature_is_unknown(
                        (#[trigger] shallow_contacts@[x]).0,
                    ) && !before.signature_is_unknown(shallow_contacts@[x].1),
                forall|a: int, b: int|
                    0 <= a < shapes.len() && 0 <= b < shapes.len()
                        ==> #[trigger] self.robot_shape_collections@[k as int].shape_collection.spec_skip(
                        a,
                        b,
                    ) == (before.spec_skip(a, b) || pair_is_named(
                        &before,
                        shallow_contacts@,
                        a,
                        b,
                        i as int,
                    )),
                forall|a: int, b: int|
                    0 <= a < shapes.len() && 0 <= b < shapes.len()
                        ==> #[trigger] self.robot_shape_collections@[k as int].shape_collection.spec_average_distance(
                        a,
                        b,
                    ) == before.spec_average_distance(a, b),
            decreases shallow_contacts@.len() - i,
        {
            let signatures = shallow_contacts[i];
            assert(!before.signature_is_unknown(shallow_contacts@[i as int].0)
                && !before.signature_is_unknown(shallow_contacts@[i as int].1));
            let ghost earlier = self.robot_shape_collections@[k as int].shape_collection;
            assert forall|s: int| 0 <= s < shapes.len() implies earlier.spec_signature(s)
                == before.spec_signature(s) by {}
            let idx1 = match self.robot_shape_collections[k].shape_collection.get_shape_idx_from_signature(
                &signatures.0,
            ) {
                Ok(idx) => idx,
                Err(e) => {
                    assert(false);
                    return Err(e);
                },
            };
            let idx2 = match self.robot_shape_collections[k].shape_collection.get_shape_idx_from_signature(
                &signatures.1,
            ) {
                Ok(idx) => idx,
                Err(e) => {
                    assert(false);
                    return Err(e);
                },
            };
            assert(before.is_first_with_signature(signatures.0, idx1 as int));
            assert(before.is_first_with_signature(signatures.1, idx2 as int));
            match self.robot_shape_collections[k].shape_collection.replace_skip_from_idxs(
                true,
                idx1,
                idx2,
            ) {
                Ok(_) => {},
                Err(e) => {
                    assert(false);
                    return Err(e);
                },
            }
            proof {
                let now = self.robot_shape_collections@[k as int].shape_collection;
                assert forall|a: int, b: int|
                    0 <= a < shapes.len() && 0 <= b < shapes.len() implies #[trigger] now.spec_skip(
                    a,
                    b,
                ) == (before.spec_skip(a, b) || pair_is_named(
                    &before,
                    shallow_contacts@,
                    a,
                    b,
                    i + 1,
                )) by {
                    assert(earlier.spec_skip(a, b) == (before.spec_skip(a, b) || pair_is_named(
                        &before,
                        shallow_contacts@,
                        a,
                        b,
                        i as int,
                    )));
                    let hit = (a == idx1 && b == idx2) || (a == idx2 && b == idx1);
                    assert(signatures_name_pair(&before, signatures, a, b) == hit);
                }
                assert forall|a: int, b: int|
                    0 <= a < shapes.len() && 0 <= b < shapes.len() implies #[trigger] now.spec_average_distance(
                    a,
                    b,
                ) == before.spec_average_distance(a, b) by {
                    assert(earlier.spec_average_distance(a, b) == before.spec_average_distance(
                        a,
                        b,
                    ));
                }
                assert forall|l: int|
                    0 <= l < self.robot_shape_collections@[k as int].spec_num_links() implies (
                #[trigger] self.robot_shape_collections@[k as int].spec_link_idx_to_shape_idxs_mapping()[l])@
                    == shapes_of_link(shapes, l, shapes.len() as int) by {
                    assert(old(self).robot_shape_collections@[k as int].wf());
                    assert(old(
                        self,
                    ).robot_shape_collections@[k as int].spec_link_idx_to_shape_idxs_mapping()[l]@
                        == shapes_of_link(shapes, l, shapes.len() as int));
                }
            }
            i += 1;
        }
        proof {
            assert(old(self).robot_shape_collections@[k as int].wf());
            assert forall|j: int|
                0 <= j < self.spec_robot_shape_collections().len() implies {
                &&& (#[trigger] self.spec_robot_shape_collections()[j]).wf()
                &&& self.spec_permanent_tables()[j].wf()
                &&& self.spec_permanent_tables()[j].spec_num_shapes()
                    == self.spec_robot_shape_collections()[j].spec_shapes().len()
            } by {
                assert(old(self).spec_robot_shape_collections()[j].wf());
                if j == k {
                    let now = self.robot_shape_collections@[k as int];
                    assert forall|l: int| 0 <= l < now.spec_num_links() implies (
                    #[trigger] now.spec_link_idx_to_shape_idxs_mapping()[l])@ == shapes_of_link(
                        now.spec_shapes(),
                        l,
                        now.spec_shapes().len() as int,
                    ) by {
                        assert(old(
                            self,
                        ).robot_shape_collections@[k as int].spec_link_idx_to_shape_idxs_mapping()[l]@
                            == shapes_of_link(shapes, l, shapes.len() as int));
                    }
                }
            }
        }
        Ok(())
    }

    /// Puts the tables of the first collection in the given representation back to
    /// its permanent tables. Nothing changes where no collection is in that
    /// representation.
    pub fn reset_robot_geometric_shape_collection(
        &mut self,
        robot_link_shape_representation: RobotLinkShapeRepresentation,
    ) -> (r: Result<(), OptimaError>)
        requires
            old(self).wf(),
        ensures
            final(self).wf(),
            r == Ok::<(), OptimaError>(()),
            old(self).is_not_preprocessed(robot_link_shape_representation) ==> *final(self) == *old(
                self,
            ),
            !old(self).is_not_preprocessed(robot_link_shape_representation) ==> exists|k: int|
                {
                    &&& #[trigger] old(self).is_first_with_representation(
                        robot_link_shape_representation,
                        k,
                    )
                    &&& final(self).same_but_tables_at(old(self), k)
                    &&& final(self).spec_robot_shape_collections()[k].spec_shape_collection().tables_match(
                        &old(self).spec_permanent_tables()[k],
                    )
                },
    {
        let k = match self.robot_shape_collection_idx(&robot_link_shape_representation) {
            Some(k) => k,
            None => {
                return Ok(());
            },
        };
        assert(self.is_first_with_representation(robot_link_shape_representation, k as int));
        assert(!self.is_not_preprocessed(robot_link_shape_representation));
        self.reset_collection_at(k);
        Ok(())
    }

    fn reset_collection_at(&mut self, k: usize)
        requires
            old(self).wf(),
            k < old(self).spec_robot_shape_collections().len(),
        ensures
            final(self).wf(),
            final(self).same_but_tables_at(old(self), k as int),
            final(self).spec_robot_shape_collections()[k as int].spec_shape_collection().tables_match(
                &old(self).spec_permanent_tables()[k as int],
            ),
    {
        assert(self.robot_shape_collections@[k as int].wf());
        let ghost shapes = self.robot_shape_collections@[k as int].spec_shapes();
        let res = self.robot_shape_collections[k].shape_collection.restore_tables(
            &self.permanent_tables[k],
        );
        proof {
            assert forall|j: int|
                0 <= j < self.spec_robot_shape_collections().len() implies {
                &&& (#[trigger] self.spec_robot_shape_collections()[j]).wf()
                &&& self.spec_permanent_tables()[j].wf()
                &&& self.spec_permanent_tables()[j].spec_num_shapes()
                    == self.spec_robot_shape_collections()[j].spec_shapes().len()
            } by {
                assert(old(self).spec_robot_shape_collections()[j].wf());
                if j == k {
                    let now = self.robot_shape_collections@[k as int];
                    assert forall|l: int| 0 <= l < now.spec_num_links() implies (
                    #[trigger] now.spec_link_idx_to_shape_idxs_mapping()[l])@ == shapes_of_link(
                        now.spec_shapes(),
                        l,
                        now.spec_shapes().len() as int,
                    ) by {
                        assert(old(
                            self,
                        ).robot_shape_collections@[k as int].spec_link_idx_to_shape_idxs_mapping()[l]@
                            == shapes_of_link(shapes, l, shapes.len() as int));
                    }
                }
            }
        }
    }

    /// Puts the tables of every collection that is the first in its representation
    /// back to its permanent tables. A collection that stands behind another in the
    /// same representation is left as it is.
    pub fn reset_all_robot_geometric_shape_collections(&mut self) -> (r: Result<(), OptimaError>)
        requires
            old(self).wf(),
        ensures
            final(self).wf(),
            r == Ok::<(), OptimaError>(()),
            final(self).spec_permanent_tables() == old(self).spec_permanent_tables(),
            final(self).spec_robot_shape_collections().len() == old(
                self,
            ).spec_robot_shape_collections().len(),
            forall|k: int|
                0 <= k < old(self).spec_robot_shape_collections().len() ==> {
                    let before = old(self).spec_robot_shape_collections()[k];
                    let after = #[trigger] final(self).spec_robot_shape_collections()[k];
                    if old(self).is_first_with_representation(
                        before.spec_robot_link_shape_representation(),
                        k,
                    ) {
                        &&& after.spec_shapes() == before.spec_shapes()
                        &&& after.spec_link_idx_to_shape_idxs_mapping()
                            == before.spec_link_idx_to_shape_idxs_mapping()
                        &&& after.spec_robot_link_shape_representation()
                            == before.spec_robot_link_shape_representation()
                        &&& after.spec_shape_collection().tables_match(
                            &old(self).spec_permanent_tables()[k],
                        )
                    } else {
                        after == before
                    }
                },
    {
        let n = self.robot_shape_collections.len();
        let mut k: usize = 0;
        while k < n
            invariant
                old(self).wf(),
                self.wf(),
                k <= n,
                n == old(self).robot_shape_collections@.len(),
                self.robot_shape_collections@.len() == n,
                self.permanent_tables@ == old(self).permanent_tables@,
                forall|j: int|
                    0 <= j < n ==> (
                    #[trigger] self.robot_shape_collections@[j]).spec_robot_link_shape_representation()
                        == old(
                        self,
                    ).robot_shape_collections@[j].spec_robot_link_shape_representation(),
                forall|j: int|
                    k <= j < n ==> #[trigger] self.robot_shape_collections@[j] == old(
                        self,
                    ).robot_shape_collections@[j],
                forall|j: int|
                    0 <= j < k ==> {
                        let before = old(self).robot_shape_collections@[j];
                        let after = #[trigger] self.robot_shape_collections@[j];
                        if old(self).is_first_with_representation(
                            before.spec_robot_link_shape_representation(),
                            j,
                        ) {
                            &&& after.spec_shapes() == before.spec_shapes()
                            &&& after.spec_link_idx_to_shape_idxs_mapping()
                                == before.spec_link_idx_to_shape_idxs_mapping()
                            &&& after.spec_robot_link_shape_representation()
                                == before.spec_robot_link_shape_representation()
                            &&& after.spec_shape_collection().tables_match(
                                &old(self).permanent_tables@[j],
                            )
                        } else {
                            after == before
                        }
                    },
            decreases n - k,
        {
            let representation = self.robot_shape_collections[k].robot_link_shape_representation;
            let first = self.robot_shape_collection_idx(&representation);
            let ghost earlier = *self;
            proof {
                assert forall|i: int|
                    earlier.is_first_with_representation(representation, i) == old(
                        self,
                    ).is_first_with_representation(representation, i) by {
                    if earlier.is_first_with_representation(representation, i) {
                        assert forall|x: int| 0 <= x < i implies (#[trigger] old(
                            self,
                        ).spec_robot_shape_collections()[x]).spec_robot_link_shape_representation()
                            != representation by {
                            assert(earlier.spec_robot_shape_collections()[x].spec_robot_link_shape_representation()
                                != representation);
                        }
                    }
                    if old(self).is_first_with_representation(representation, i) {
                        assert forall|x: int| 0 <= x < i implies (
                        #[trigger] earlier.spec_robot_shape_collections()[x]).spec_robot_link_shape_representation()
                            != representation by {
                            assert(old(
                                self,
                            ).spec_robot_shape_collections()[x].spec_robot_link_shape_representation()
                                != representation);
                        }
                    }
                }
            }
            let is_first = match first {
                Some(i) => i == k,
                None => false,
            };
            if is_first {
                self.reset_collection_at(k);
            } else {
                proof {
                    if old(self).is_first_with_representation(representation, k as int) {
                        assert(earlier.is_first_with_representation(representation, k as int));
                        if first is Some {
                            let i = first->0 as int;
                            assert(earlier.is_first_with_representation(representation, i));
                            if i < k {
                                assert(earlier.spec_robot_shape_collections()[i].spec_robot_link_shape_representation()
                                    != representation);
                            } else if i > k {
                                assert(earlier.spec_robot_shape_collections()[k as int].spec_robot_link_shape_representation()
                                    != representation);
                            }
                        } else {
                            assert(earlier.spec_robot_shape_collections()[k as int].spec_robot_link_shape_representation()
                                != representation);
                        }
                    }
                }
            }
            proof {
                if is_first {
                    assert(earlier.is_first_with_representation(representation, k as int));
                    assert(old(self).is_first_with_representation(representation, k as int));
                }
            }
            k += 1;
        }
        Ok(())
    }
}

} // verus!
