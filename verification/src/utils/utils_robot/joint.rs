use crate::utils::utils_errors::OptimaError;
use vstd::prelude::*;

verus! {

/// How a joint lets its child link move.
#[derive(Clone, Copy, Debug, PartialEq, Eq, Structural)]
pub enum JointType {
    Revolute,
    Continuous,
    Prismatic,
    Fixed,
    Floating,
    Planar,
    Spherical,
}

/// Whether an axis turns or slides.
#[derive(Clone, Copy, Debug, PartialEq, Eq, Structural)]
pub enum JointAxisPrimitiveType {
    Rotation,
    Translation,
}

/// How the base of a chain of links may move relative to the world.
#[derive(Clone, Copy, Debug, PartialEq, Eq, Structural)]
pub enum ContiguousChainMobilityMode {
    /// The base does not move.
    Static,
    /// The base moves freely: three translations, then three rotations.
    Floating,
    /// The base slides in a plane: two translations.
    PlanarTranslation,
    /// The base turns in a plane: one rotation.
    PlanarRotation,
    /// The base slides and turns in a plane: two translations, then one rotation.
    PlanarTranslationAndRotation,
}

/// The kinds of the axes of a joint of the given type, in order.
pub open spec fn joint_type_axis_kinds(joint_type: JointType) -> Seq<JointAxisPrimitiveType> {
    match joint_type {
        JointType::Revolute => seq![JointAxisPrimitiveType::Rotation],
        JointType::Continuous => seq![JointAxisPrimitiveType::Rotation],
        JointType::Prismatic => seq![JointAxisPrimitiveType::Translation],
        JointType::Fixed => Seq::empty(),
        JointType::Floating => seq![
            JointAxisPrimitiveType::Translation,
            JointAxisPrimitiveType::Translation,
            JointAxisPrimitiveType::Translation,
            JointAxisPrimitiveType::Rotation,
            JointAxisPrimitiveType::Rotation,
            JointAxisPrimitiveType::Rotation,
        ],
        JointType::Planar => seq![
            JointAxisPrimitiveType::Translation,
            JointAxisPrimitiveType::Translation,
        ],
        JointType::Spherical => seq![
            JointAxisPrimitiveType::Rotation,
            JointAxisPrimitiveType::Rotation,
            JointAxisPrimitiveType::Rotation,
        ],
    }
}

/// The kinds of the axes of the joint that carries a base with the given mobility.
pub open spec fn mobility_mode_axis_kinds(mode: ContiguousChainMobilityMode) -> Seq<
    JointAxisPrimitiveType,
> {
    match mode {
        ContiguousChainMobilityMode::Static => Seq::empty(),
        ContiguousChainMobilityMode::Floating => seq![
            JointAxisPrimitiveType::Translation,
            JointAxisPrimitiveType::Translation,
            JointAxisPrimitiveType::Translation,
            JointAxisPrimitiveType::Rotation,
            JointAxisPrimitiveType::Rotation,
            JointAxisPrimitiveType::Rotation,
        ],
        ContiguousChainMobilityMode::PlanarTranslation => seq![
            JointAxisPrimitiveType::Translation,
            JointAxisPrimitiveType::Translation,
        ],
        ContiguousChainMobilityMode::PlanarRotation => seq![JointAxisPrimitiveType::Rotation],
        ContiguousChainMobilityMode::PlanarTranslationAndRotation => seq![
            JointAxisPrimitiveType::Translation,
            JointAxisPrimitiveType::Translation,
            JointAxisPrimitiveType::Rotation,
        ],
    }
}

/// The type under which the joint of a mobile base is recorded.
pub open spec fn mobility_mode_joint_type(mode: ContiguousChainMobilityMode) -> JointType {
    match mode {
        ContiguousChainMobilityMode::Static => JointType::Fixed,
        ContiguousChainMobilityMode::Floating => JointType::Floating,
        _ => JointType::Planar,
    }
}

/// One scalar axis of a joint. A fixed axis holds its value; a free axis is a degree
/// of freedom.
#[derive(Clone, Copy, Debug)]
pub struct JointAxis<T> {
    pub joint_idx: usize,
    pub joint_sub_dof_idx: usize,
    pub axis_primitive_type: JointAxisPrimitiveType,
    pub fixed_value: Option<T>,
    /// Lower and upper bound of the value, where the description gives them.
    pub bounds: Option<(T, T)>,
}

impl<T: Copy> JointAxis<T> {
    /// A free axis.
    pub fn new(
        joint_idx: usize,
        joint_sub_dof_idx: usize,
        axis_primitive_type: JointAxisPrimitiveType,
        bounds: Option<(T, T)>,
    ) -> (r: Self)
        ensures
            r == (JointAxis::<T> {
                joint_idx,
                joint_sub_dof_idx,
                axis_primitive_type,
                fixed_value: None,
                bounds,
            }),
    {
        JointAxis { joint_idx, joint_sub_dof_idx, axis_primitive_type, fixed_value: None, bounds }
    }

    pub open spec fn spec_is_fixed(&self) -> bool {
        self.fixed_value is Some
    }

    #[verifier::when_used_as_spec(spec_is_fixed)]
    pub fn is_fixed(&self) -> (r: bool)
        ensures
            r == self.spec_is_fixed(),
    {
        self.fixed_value.is_some()
    }

    pub fn joint_idx(&self) -> (r: usize)
        ensures
            r == self.joint_idx,
    {
        self.joint_idx
    }

    pub fn joint_sub_dof_idx(&self) -> (r: usize)
        ensures
            r == self.joint_sub_dof_idx,
    {
        self.joint_sub_dof_idx
    }

    pub fn axis_primitive_type(&self) -> (r: JointAxisPrimitiveType)
        ensures
            r == self.axis_primitive_type,
    {
        self.axis_primitive_type
    }

    pub fn fixed_value(&self) -> (r: Option<T>)
        ensures
            r == self.fixed_value,
    {
        self.fixed_value
    }

    pub fn bounds(&self) -> (r: Option<(T, T)>)
        ensures
            r == self.bounds,
    {
        self.bounds
    }
}

/// A joint as the kinematic description gives it: its name, its type, the names of
/// the links it connects, and the bounds of its value where it has them.
pub struct URDFJoint<T> {
    pub name: String,
    pub joint_type: JointType,
    pub parent_link: String,
    pub child_link: String,
    pub limits: Option<(T, T)>,
}

impl<T: Copy> URDFJoint<T> {
    pub fn new(
        name: String,
        joint_type: JointType,
        parent_link: String,
        child_link: String,
        limits: Option<(T, T)>,
    ) -> (r: Self)
        ensures
            r.name == name,
            r.joint_type == joint_type,
            r.parent_link == parent_link,
            r.child_link == child_link,
            r.limits == limits,
    {
        URDFJoint { name, joint_type, parent_link, child_link, limits }
    }

    pub fn name(&self) -> (r: &String)
        ensures
            r == &self.name,
    {
        &self.name
    }

    pub fn parent_link(&self) -> (r: &String)
        ensures
            r == &self.parent_link,
    {
        &self.parent_link
    }

    pub fn child_link(&self) -> (r: &String)
        ensures
            r == &self.child_link,
    {
        &self.child_link
    }
}

/// A connection from a parent link to a child link, with the axes along which the
/// child moves. Addressed by its position in the model's list of joints.
pub struct Joint<T> {
    pub name: String,
    pub joint_idx: usize,
    pub joint_type: JointType,
    /// A joint that is not present contributes no axis to any state.
    pub present: bool,
    pub preceding_link_idx: Option<usize>,
    pub child_link_idx: Option<usize>,
    pub joint_axes: Vec<JointAxis<T>>,
}

/// The axes of a joint are numbered in order and name the joint they belong to.
pub open spec fn axes_belong_to<T>(axes: Seq<JointAxis<T>>, joint_idx: usize) -> bool {
    forall|k: int|
        0 <= k < axes.len() ==> {
            &&& (#[trigger] axes[k]).joint_idx == joint_idx
            &&& axes[k].joint_sub_dof_idx == k
        }
}

/// The free axes of kinds `kinds`, in order, for the joint `joint_idx`.
pub open spec fn free_axes<T>(
    kinds: Seq<JointAxisPrimitiveType>,
    joint_idx: usize,
    bounds: Option<(T, T)>,
) -> Seq<JointAxis<T>> {
    Seq::new(
        kinds.len(),
        |k: int|
            JointAxis::<T> {
                joint_idx,
                joint_sub_dof_idx: k as usize,
                axis_primitive_type: kinds[k],
                fixed_value: None,
                bounds,
            },
    )
}

/// How many of the first `upto` axes are free.
pub open spec fn count_free_axes<T>(axes: Seq<JointAxis<T>>, upto: int) -> nat
    decreases upto,
{
    if upto <= 0 {
        0
    } else {
        count_free_axes(axes, upto - 1) + if axes[upto - 1].fixed_value is None {
            1nat
        } else {
            0nat
        }
    }
}

fn kinds_of_joint_type(joint_type: JointType) -> (r: Vec<JointAxisPrimitiveType>)
    ensures
        r@ == joint_type_axis_kinds(joint_type),
{
    let mut kinds: Vec<JointAxisPrimitiveType> = Vec::new();
    match joint_type {
        JointType::Revolute => {
            kinds.push(JointAxisPrimitiveType::Rotation);
        },
        JointType::Continuous => {
            kinds.push(JointAxisPrimitiveType::Rotation);
        },
        JointType::Prismatic => {
            kinds.push(JointAxisPrimitiveType::Translation);
        },
        JointType::Fixed => {},
        JointType::Floating => {
            kinds.push(JointAxisPrimitiveType::Translation);
            kinds.push(JointAxisPrimitiveType::Translation);
            kinds.push(JointAxisPrimitiveType::Translation);
            kinds.push(JointAxisPrimitiveType::Rotation);
            kinds.push(JointAxisPrimitiveType::Rotation);
            kinds.push(JointAxisPrimitiveType::Rotation);
        },
        JointType::Planar => {
            kinds.push(JointAxisPrimitiveType::Translation);
            kinds.push(JointAxisPrimitiveType::Translation);
        },
        JointType::Spherical => {
            kinds.push(JointAxisPrimitiveType::Rotation);
            kinds.push(JointAxisPrimitiveType::Rotation);
            kinds.push(JointAxisPrimitiveType::Rotation);
        },
    }
    assert(kinds@ =~= joint_type_axis_kinds(joint_type));
    kinds
}

fn kinds_of_mobility_mode(mode: ContiguousChainMobilityMode) -> (r: Vec<JointAxisPrimitiveType>)
    ensures
        r@ == mobility_mode_axis_kinds(mode),
{
    let mut kinds: Vec<JointAxisPrimitiveType> = Vec::new();
    match mode {
        ContiguousChainMobilityMode::Static => {},
        ContiguousChainMobilityMode::Floating => {
            kinds.push(JointAxisPrimitiveType::Translation);
            kinds.push(JointAxisPrimitiveType::Translation);
            kinds.push(JointAxisPrimitiveType::Translation);
            kinds.push(JointAxisPrimitiveType::Rotation);
            kinds.push(JointAxisPrimitiveType::Rotation);
            kinds.push(JointAxisPrimitiveType::Rotation);
        },
        ContiguousChainMobilityMode::PlanarTranslation => {
            kinds.push(JointAxisPrimitiveType::Translation);
            kinds.push(JointAxisPrimitiveType::Translation);
        },
        ContiguousChainMobilityMode::PlanarRotation => {
            kinds.push(JointAxisPrimitiveType::Rotation);
        },
        ContiguousChainMobilityMode::PlanarTranslationAndRotation => {
            kinds.push(JointAxisPrimitiveType::Translation);
            kinds.push(JointAxisPrimitiveType::Translation);
            kinds.push(JointAxisPrimitiveType::Rotation);
        },
    }
    assert(kinds@ =~= mobility_mode_axis_kinds(mode));
    kinds
}

fn make_free_axes<T: Copy>(
    kinds: &Vec<JointAxisPrimitiveType>,
    joint_idx: usize,
    bounds: Option<(T, T)>,
) -> (r: Vec<JointAxis<T>>)
    ensures
        r@ == free_axes(kinds@, joint_idx, bounds),
{
    let mut axes: Vec<JointAxis<T>> = Vec::new();
    let mut k: usize = 0;
    while k < kinds.len()
        invariant
            k <= kinds@.len(),
            axes@.len() == k,
            forall|a: int| 0 <= a < k ==> axes@[a] == free_axes(kinds@, joint_idx, bounds)[a],
        decreases kinds@.len() - k,
    {
        axes.push(JointAxis::new(joint_idx, k, kinds[k], bounds));
        k += 1;
    }
    assert(axes@ =~= free_axes(kinds@, joint_idx, bounds));
    axes
}

impl<T: Copy> Joint<T> {
    /// A present joint with the free axes of its type and no relation to links yet.
    pub fn new(urdf_joint: &URDFJoint<T>, joint_idx: usize) -> (r: Self)
        ensures
            r.name@ == urdf_joint.name@,
            r.joint_idx == joint_idx,
            r.joint_type == urdf_joint.joint_type,
            r.present,
            r.preceding_link_idx is None,
            r.child_link_idx is None,
            r.joint_axes@ == free_axes(
                joint_type_axis_kinds(urdf_joint.joint_type),
                joint_idx,
                urdf_joint.limits,
            ),
    {
        let kinds = kinds_of_joint_type(urdf_joint.joint_type);
        Joint {
            name: urdf_joint.name.clone(),
            joint_idx,
            joint_type: urdf_joint.joint_type,
            present: true,
            preceding_link_idx: None,
            child_link_idx: None,
            joint_axes: make_free_axes(&kinds, joint_idx, urdf_joint.limits),
        }
    }

    /// The joint that connects a synthetic base link to the link it carries, with
    /// the free axes of the mobility mode.
    pub fn new_base_of_chain_connector_joint(
        name: String,
        mode: ContiguousChainMobilityMode,
        joint_idx: usize,
        preceding_link_idx: usize,
        child_link_idx: usize,
    ) -> (r: Self)
        ensures
            r.name == name,
            r.joint_idx == joint_idx,
            r.joint_type == mobility_mode_joint_type(mode),
            r.present,
            r.preceding_link_idx == Some(preceding_link_idx),
            r.child_link_idx == Some(child_link_idx),
            r.joint_axes@ == free_axes::<T>(mobility_mode_axis_kinds(mode), joint_idx, None),
    {
        let kinds = kinds_of_mobility_mode(mode);
        let joint_type = match mode {
            ContiguousChainMobilityMode::Static => JointType::Fixed,
            ContiguousChainMobilityMode::Floating => JointType::Floating,
            _ => JointType::Planar,
        };
        Joint {
            name,
            joint_idx,
            joint_type,
            present: true,
            preceding_link_idx: Some(preceding_link_idx),
            child_link_idx: Some(child_link_idx),
            joint_axes: make_free_axes(&kinds, joint_idx, None),
        }
    }

    /// The number of free axes.
    pub open spec fn spec_num_dofs(&self) -> nat {
        count_free_axes(self.joint_axes@, self.joint_axes@.len() as int)
    }

    /// The number of free axes.
    pub fn num_dofs(&self) -> (r: usize)
        ensures
            r == self.spec_num_dofs(),
    {
        let mut count: usize = 0;
        let mut k: usize = 0;
        while k < self.joint_axes.len()
            invariant
                k <= self.joint_axes@.len(),
                count == count_free_axes(self.joint_axes@, k as int),
                count <= k,
            decreases self.joint_axes@.len() - k,
        {
            if !self.joint_axes[k].is_fixed() {
                count += 1;
            }
            k += 1;
        }
        count
    }

    /// The number of axes, fixed ones included.
    pub fn num_axes(&self) -> (r: usize)
        ensures
            r == self.joint_axes@.len(),
    {
        self.joint_axes.len()
    }

    /// Fixes the axis `joint_sub_idx` at a value, or frees it with `None`.
    pub fn set_fixed_joint_sub_dof(&mut self, joint_sub_idx: usize, fixed_value: Option<T>) -> (r:
        Result<(), OptimaError>)
        ensures
            joint_sub_idx < old(self).joint_axes@.len() ==> {
                &&& r == Ok::<(), OptimaError>(())
                &&& *final(self) == (Joint {
                    joint_axes: final(self).joint_axes,
                    ..*old(self)
                })
                &&& final(self).joint_axes@ == old(self).joint_axes@.update(
                    joint_sub_idx as int,
                    (JointAxis { fixed_value, ..old(self).joint_axes@[joint_sub_idx as int] }),
                )
            },
            joint_sub_idx >= old(self).joint_axes@.len() ==> {
                &&& r == Err::<(), OptimaError>(
                    OptimaError::IndexOutOfBounds {
                        index: joint_sub_idx,
                        length: old(self).joint_axes@.len() as usize,
                    },
                )
                &&& *final(self) == *old(self)
            },
    {
        if joint_sub_idx >= self.joint_axes.len() {
            return Err(
                OptimaError::IndexOutOfBounds {
                    index: joint_sub_idx,
                    length: self.joint_axes.len(),
                },
            );
        }
        self.joint_axes[joint_sub_idx].fixed_value = fixed_value;
        Ok(())
    }

    pub fn name(&self) -> (r: &String)
        ensures
            r == &self.name,
    {
        &self.name
    }

    pub fn joint_idx(&self) -> (r: usize)
        ensures
            r == self.joint_idx,
    {
        self.joint_idx
    }

    pub fn joint_type(&self) -> (r: JointType)
        ensures
            r == self.joint_type,
    {
        self.joint_type
    }

    pub fn present(&self) -> (r: bool)
        ensures
            r == self.present,
    {
        self.present
    }

    /// A joint takes part in states exactly when it is present.
    pub fn active(&self) -> (r: bool)
        ensures
            r == self.present,
    {
        self.present
    }

    pub fn preceding_link_idx(&self) -> (r: Option<usize>)
        ensures
            r == self.preceding_link_idx,
    {
        self.preceding_link_idx
    }

    pub fn child_link_idx(&self) -> (r: Option<usize>)
        ensures
            r == self.child_link_idx,
    {
        self.child_link_idx
    }

    pub fn joint_axes(&self) -> (r: &Vec<JointAxis<T>>)
        ensures
            r == &self.joint_axes,
    {
        &self.joint_axes
    }
}

} // verus!
