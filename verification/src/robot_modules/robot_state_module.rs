use crate::robot_modules::robot_model_module::RobotModelModule;
use crate::utils::utils_errors::OptimaError;
use crate::utils::utils_robot::joint::{count_free_axes, Joint, JointAxis};
use vstd::prelude::*;

verus! {

/// Which axes a state has a value for.
#[derive(Clone, Copy, Debug, PartialEq, Eq, Structural)]
pub enum RobotStateType {
    /// A value for every free axis.
    DOF,
    /// A value for every axis of a present joint, fixed axes included.
    Full,
}

/// The axes of the first `upto` joints that are present, in order.
pub open spec fn axes_of_present_joints<T>(joints: Seq<Joint<T>>, upto: int) -> Seq<JointAxis<T>>
    decreases upto,
{
    if upto <= 0 {
        Seq::empty()
    } else if joints[upto - 1].present {
        axes_of_present_joints(joints, upto - 1) + joints[upto - 1].joint_axes@
    } else {
        axes_of_present_joints(joints, upto - 1)
    }
}

/// The free axes among the first `upto` axes, in order.
pub open spec fn free_axes_among<T>(axes: Seq<JointAxis<T>>, upto: int) -> Seq<JointAxis<T>>
    decreases upto,
{
    if upto <= 0 {
        Seq::empty()
    } else if axes[upto - 1].fixed_value is None {
        free_axes_among(axes, upto - 1).push(axes[upto - 1])
    } else {
        free_axes_among(axes, upto - 1)
    }
}

/// The positions, among the first `upto` axes, of the axes of joint `joint_idx`, in
/// ascending order.
pub open spec fn positions_of_joint<T>(axes: Seq<JointAxis<T>>, joint_idx: int, upto: int) -> Seq<
    usize,
>
    decreases upto,
{
    if upto <= 0 {
        Seq::empty()
    } else if axes[upto - 1].joint_idx == joint_idx {
        positions_of_joint(axes, joint_idx, upto - 1).push((upto - 1) as usize)
    } else {
        positions_of_joint(axes, joint_idx, upto - 1)
    }
}

/// The full state that a dof state stands for: a fixed axis has its fixed value, and
/// the free axes take the values of the dof state in order.
pub open spec fn full_state_of<T>(axes: Seq<JointAxis<T>>, dof_state: Seq<T>) -> Seq<T> {
    Seq::new(
        axes.len(),
        |i: int|
            if axes[i].fixed_value is Some {
                axes[i].fixed_value->0
            } else {
                dof_state[count_free_axes(axes, i) as int]
            },
    )
}

/// The values that the first `upto` entries of a full state give to free axes, in
/// order.
pub open spec fn dof_values_among<T>(axes: Seq<JointAxis<T>>, full_state: Seq<T>, upto: int) -> Seq<
    T,
>
    decreases upto,
{
    if upto <= 0 {
        Seq::empty()
    } else if axes[upto - 1].fixed_value is None {
        dof_values_among(axes, full_state, upto - 1).push(full_state[upto - 1])
    } else {
        dof_values_among(axes, full_state, upto - 1)
    }
}

/// The dof state that a full state stands for.
pub open spec fn dof_state_of<T>(axes: Seq<JointAxis<T>>, full_state: Seq<T>) -> Seq<T> {
    dof_values_among(axes, full_state, axes.len() as int)
}

/// The positions of the axes of a joint are positions of axes.
pub proof fn lemma_positions_of_joint_are_positions<T>(
    axes: Seq<JointAxis<T>>,
    joint_idx: int,
    upto: int,
    k: int,
)
    requires
        0 <= upto <= axes.len() <= usize::MAX,
        0 <= k < positions_of_joint(axes, joint_idx, upto).len(),
    ensures
        positions_of_joint(axes, joint_idx, upto)[k] < upto,
    decreases upto,
{
    if upto > 0 {
        let before = positions_of_joint(axes, joint_idx, upto - 1);
        if k < before.len() {
            lemma_positions_of_joint_are_positions(axes, joint_idx, upto - 1, k);
        }
    }
}

/// The values that a full state gives to the axes of a joint, in the order of the
/// axes.
pub open spec fn joint_values<T>(axes: Seq<JointAxis<T>>, full_state: Seq<T>, joint_idx: int) -> Seq<
    T,
> {
    Seq::new(
        positions_of_joint(axes, joint_idx, axes.len() as int).len(),
        |k: int| full_state[positions_of_joint(axes, joint_idx, axes.len() as int)[k] as int],
    )
}

/// There are as many free axes as `count_free_axes` counts.
pub proof fn lemma_free_axes_count<T>(axes: Seq<JointAxis<T>>, upto: int)
    requires
        0 <= upto <= axes.len(),
    ensures
        free_axes_among(axes, upto).len() == count_free_axes(axes, upto),
        count_free_axes(axes, upto) <= upto,
    decreases upto,
{
    if upto > 0 {
        lemma_free_axes_count(axes, upto - 1);
    }
}

/// A full state gives free axes as many values as there are free axes.
pub proof fn lemma_dof_values_count<T>(axes: Seq<JointAxis<T>>, full_state: Seq<T>, upto: int)
    requires
        0 <= upto <= axes.len(),
    ensures
        dof_values_among(axes, full_state, upto).len() == count_free_axes(axes, upto),
    decreases upto,
{
    if upto > 0 {
        lemma_dof_values_count(axes, full_state, upto - 1);
    }
}

proof fn lemma_gather_after_scatter<T>(axes: Seq<JointAxis<T>>, dof_state: Seq<T>, upto: int)
    requires
        0 <= upto <= axes.len(),
        dof_state.len() == count_free_axes(axes, axes.len() as int),
    ensures
        count_free_axes(axes, upto) <= dof_state.len(),
        dof_values_among(axes, full_state_of(axes, dof_state), upto) == dof_state.subrange(
            0,
            count_free_axes(axes, upto) as int,
        ),
    decreases upto,
{
    lemma_count_free_axes_grows(axes, upto, axes.len() as int);
    if upto > 0 {
        lemma_gather_after_scatter(axes, dof_state, upto - 1);
        let full = full_state_of(axes, dof_state);
        let before = count_free_axes(axes, upto - 1) as int;
        if axes[upto - 1].fixed_value is None {
            assert(full[upto - 1] == dof_state[before]);
            assert(dof_state.subrange(0, before).push(dof_state[before]) =~= dof_state.subrange(
                0,
                before + 1,
            ));
        }
    } else {
        assert(dof_state.subrange(0, 0) =~= Seq::<T>::empty());
    }
}

/// The count of free axes does not shrink as more axes are counted.
pub proof fn lemma_count_free_axes_grows<T>(axes: Seq<JointAxis<T>>, a: int, b: int)
    requires
        0 <= a <= b,
    ensures
        count_free_axes(axes, a) <= count_free_axes(axes, b),
    decreases b - a,
{
    if a < b {
        lemma_count_free_axes_grows(axes, a, b - 1);
    }
}

/// A dof state, made a full state and made a dof state again, is the dof state it
/// was: no value is lost or changed.
pub proof fn lemma_dof_state_round_trip<T>(axes: Seq<JointAxis<T>>, dof_state: Seq<T>)
    requires
        dof_state.len() == count_free_axes(axes, axes.len() as int),
    ensures
        dof_state_of(axes, full_state_of(axes, dof_state)) == dof_state,
{
    lemma_gather_after_scatter(axes, dof_state, axes.len() as int);
    assert(dof_state.subrange(0, dof_state.len() as int) =~= dof_state);
}

/// A vector of joint values, tagged with the axes it has values for.
pub struct RobotState<T> {
    state: Vec<T>,
    robot_state_type: RobotStateType,
}

impl<T> View for RobotState<T> {
    type V = Seq<T>;

    closed spec fn view(&self) -> Seq<T> {
        self.state@
    }
}

impl<T: Copy> RobotState<T> {
    pub closed spec fn spec_robot_state_type(&self) -> RobotStateType {
        self.robot_state_type
    }

    /// A state of the given type, if `state` has the length which that type has in
    /// the model.
    pub fn new(state: Vec<T>, robot_state_type: RobotStateType, robot_state_module: &RobotStateModule<T>) -> (r:
        Result<Self, OptimaError>)
        ensures
            state@.len() == robot_state_module.spec_state_len(robot_state_type) ==> {
                &&& r is Ok
                &&& r->Ok_0@ == state@
                &&& r->Ok_0.spec_robot_state_type() == robot_state_type
            },
            state@.len() != robot_state_module.spec_state_len(robot_state_type) ==> r == Err::<
                Self,
                OptimaError,
            >(
                OptimaError::StateSizeMismatch {
                    given: state@.len() as usize,
                    expected: robot_state_module.spec_state_len(robot_state_type),
                },
            ),
    {
        let expected = match robot_state_type {
            RobotStateType::DOF => robot_state_module.num_dofs(),
            RobotStateType::Full => robot_state_module.num_axes(),
        };
        if expected != state.len() {
            return Err(OptimaError::StateSizeMismatch { given: state.len(), expected });
        }
        Ok(RobotState { state, robot_state_type })
    }

    /// A dof state if `state` has the length of one, else a full state if it has
    /// the length of one, else an error that names the length of a full state.
    pub fn new_try_auto_type(state: Vec<T>, robot_state_module: &RobotStateModule<T>) -> (r: Result<
        Self,
        OptimaError,
    >)
        ensures
            state@.len() == robot_state_module.spec_num_dofs() ==> {
                &&& r is Ok
                &&& r->Ok_0@ == state@
                &&& r->Ok_0.spec_robot_state_type() == RobotStateType::DOF
            },
            state@.len() != robot_state_module.spec_num_dofs() && state@.len()
                == robot_state_module.spec_num_axes() ==> {
                &&& r is Ok
                &&& r->Ok_0@ == state@
                &&& r->Ok_0.spec_robot_state_type() == RobotStateType::Full
            },
            state@.len() != robot_state_module.spec_num_dofs() && state@.len()
                != robot_state_module.spec_num_axes() ==> r == Err::<Self, OptimaError>(
                OptimaError::StateSizeMismatch {
                    given: state@.len() as usize,
                    expected: robot_state_module.spec_num_axes(),
                },
            ),
    {
        if robot_state_module.num_dofs() == state.len() {
            Ok(Self::new_unchecked(state, RobotStateType::DOF))
        } else if robot_state_module.num_axes() == state.len() {
            Ok(Self::new_unchecked(state, RobotStateType::Full))
        } else {
            Err(
                OptimaError::StateSizeMismatch {
                    given: state.len(),
                    expected: robot_state_module.num_axes(),
                },
            )
        }
    }

    fn new_unchecked(state: Vec<T>, robot_state_type: RobotStateType) -> (r: Self)
        ensures
            r@ == state@,
            r.spec_robot_state_type() == robot_state_type,
    {
        RobotState { state, robot_state_type }
    }

    /// A dof state, if `state` has as many values as the model has free axes.
    pub fn new_dof_state(state: Vec<T>, robot_state_module: &RobotStateModule<T>) -> (r: Result<
        Self,
        OptimaError,
    >)
        ensures
            state@.len() == robot_state_module.spec_num_dofs() ==> {
                &&& r is Ok
                &&& r->Ok_0@ == state@
                &&& r->Ok_0.spec_robot_state_type() == RobotStateType::DOF
            },
            state@.len() != robot_state_module.spec_num_dofs() ==> r == Err::<Self, OptimaError>(
                OptimaError::StateSizeMismatch {
                    given: state@.len() as usize,
                    expected: robot_state_module.spec_num_dofs(),
                },
            ),
    {
        Self::new(state, RobotStateType::DOF, robot_state_module)
    }

    /// A full state, if `state` has as many values as the model has axes.
    pub fn new_full_state(state: Vec<T>, robot_state_module: &RobotStateModule<T>) -> (r: Result<
        Self,
        OptimaError,
    >)
        ensures
            state@.len() == robot_state_module.spec_num_axes() ==> {
                &&& r is Ok
                &&& r->Ok_0@ == state@
                &&& r->Ok_0.spec_robot_state_type() == RobotStateType::Full
            },
            state@.len() != robot_state_module.spec_num_axes() ==> r == Err::<Self, OptimaError>(
                OptimaError::StateSizeMismatch {
                    given: state@.len() as usize,
                    expected: robot_state_module.spec_num_axes(),
                },
            ),
    {
        Self::new(state, RobotStateType::Full, robot_state_module)
    }

    /// The values.
    pub fn state(&self) -> (r: &Vec<T>)
        ensures
            r@ == self@,
    {
        &self.state
    }

    /// The type.
    pub fn robot_state_type(&self) -> (r: RobotStateType)
        ensures
            r == self.spec_robot_state_type(),
    {
        self.robot_state_type
    }

    /// The number of values.
    pub fn len(&self) -> (r: usize)
        ensures
            r == self@.len(),
    {
        self.state.len()
    }

    /// The value at `index`.
    pub fn value(&self, index: usize) -> (r: T)
        requires
            index < self@.len(),
        ensures
            r == self@[index as int],
    {
        self.state[index]
    }

    /// A copy of the state.
    pub fn duplicate(&self) -> (r: Self)
        ensures
            r@ == self@,
            r.spec_robot_state_type() == self.spec_robot_state_type(),
    {
        let mut state: Vec<T> = Vec::new();
        let mut i: usize = 0;
        while i < self.state.len()
            invariant
                i <= self.state@.len(),
                state@ == self.state@.subrange(0, i as int),
            decreases self.state@.len() - i,
        {
            state.push(self.state[i]);
            assert(self.state@.subrange(0, i as int).push(self.state@[i as int])
                =~= self.state@.subrange(0, i + 1));
            i += 1;
        }
        assert(self.state@.subrange(0, self.state@.len() as int) =~= self.state@);
        RobotState { state, robot_state_type: self.robot_state_type }
    }

    /// The state that holds, at every position, what `combine` makes of the values of
    /// the two states at that position; this is how two states are added. States of
    /// different types are reported as such, states of different lengths with the
    /// two lengths.
    pub fn zip_with<F: Fn(T, T) -> T>(&self, other: &Self, combine: F) -> (r: Result<
        Self,
        OptimaError,
    >)
        requires
            forall|a: T, b: T| combine.requires((a, b)),
        ensures
            self.spec_robot_state_type() != other.spec_robot_state_type() ==> r == Err::<
                Self,
                OptimaError,
            >(OptimaError::StateTypeMismatch),
            self.spec_robot_state_type() == other.spec_robot_state_type() && self@.len()
                != other@.len() ==> r == Err::<Self, OptimaError>(
                OptimaError::StateSizeMismatch {
                    given: other@.len() as usize,
                    expected: self@.len() as usize,
                },
            ),
            self.spec_robot_state_type() == other.spec_robot_state_type() && self@.len()
                == other@.len() ==> {
                &&& r is Ok
                &&& r->Ok_0.spec_robot_state_type() == self.spec_robot_state_type()
                &&& r->Ok_0@.len() == self@.len()
                &&& forall|i: int|
                    0 <= i < self@.len() ==> combine.ensures(
                        (self@[i], other@[i]),
                        #[trigger] r->Ok_0@[i],
                    )
            },
    {
        match self.check_same_shape(other) {
            Ok(_) => {},
            Err(e) => {
                return Err(e);
            },
        }
        let mut state: Vec<T> = Vec::new();
        let mut i: usize = 0;
        while i < self.state.len()
            invariant
                self.state@.len() == other.state@.len(),
                forall|a: T, b: T| combine.requires((a, b)),
                i <= self.state@.len(),
                state@.len() == i,
                forall|k: int|
                    0 <= k < i ==> combine.ensures(
                        (self.state@[k], other.state@[k]),
                        #[trigger] state@[k],
                    ),
            decreases self.state@.len() - i,
        {
            state.push(combine(self.state[i], other.state[i]));
            i += 1;
        }
        Ok(RobotState { state, robot_state_type: self.robot_state_type })
    }

    /// The state that holds, at every position, what `change` makes of the value at
    /// that position; this is how a state is multiplied by a number.
    pub fn map<F: Fn(T) -> T>(&self, change: F) -> (r: Self)
        requires
            forall|a: T| change.requires((a,)),
        ensures
            r.spec_robot_state_type() == self.spec_robot_state_type(),
            r@.len() == self@.len(),
            forall|i: int| 0 <= i < self@.len() ==> change.ensures((self@[i],), #[trigger] r@[i]),
    {
        let mut state: Vec<T> = Vec::new();
        let mut i: usize = 0;
        while i < self.state.len()
            invariant
                forall|a: T| change.requires((a,)),
                i <= self.state@.len(),
                state@.len() == i,
                forall|k: int|
                    0 <= k < i ==> change.ensures((self.state@[k],), #[trigger] state@[k]),
            decreases self.state@.len() - i,
        {
            state.push(change(self.state[i]));
            i += 1;
        }
        RobotState { state, robot_state_type: self.robot_state_type }
    }

    /// Whether the two states may be added: they are of one type and one length.
    /// States of different types are reported as such, states of different lengths
    /// with the two lengths.
    pub fn check_same_shape(&self, other: &Self) -> (r: Result<(), OptimaError>)
        ensures
            self.spec_robot_state_type() != other.spec_robot_state_type() ==> r == Err::<
                (),
                OptimaError,
            >(OptimaError::StateTypeMismatch),
            self.spec_robot_state_type() == other.spec_robot_state_type() && self@.len()
                != other@.len() ==> r == Err::<(), OptimaError>(
                OptimaError::StateSizeMismatch {
                    given: other@.len() as usize,
                    expected: self@.len() as usize,
                },
            ),
            self.spec_robot_state_type() == other.spec_robot_state_type() && self@.len()
                == other@.len() ==> r == Ok::<(), OptimaError>(()),
    {
        if self.robot_state_type != other.robot_state_type {
            return Err(OptimaError::StateTypeMismatch);
        }
        if self.state.len() != other.state.len() {
            return Err(
                OptimaError::StateSizeMismatch {
                    given: other.state.len(),
                    expected: self.state.len(),
                },
            );
        }
        Ok(())
    }
}

/// The two views of the joint values of a model: the free axes, and all axes of
/// present joints.
pub struct RobotStateModule<T> {
    num_dofs: usize,
    num_axes: usize,
    ordered_dof_joint_axes: Vec<JointAxis<T>>,
    ordered_joint_axes: Vec<JointAxis<T>>,
    joint_idx_to_dof_state_idxs_mapping: Vec<Vec<usize>>,
    joint_idx_to_full_state_idxs_mapping: Vec<Vec<usize>>,
}

impl<T: Copy> RobotStateModule<T> {
    pub closed spec fn spec_num_dofs(&self) -> usize {
        self.num_dofs
    }

    pub closed spec fn spec_num_axes(&self) -> usize {
        self.num_axes
    }

    pub closed spec fn spec_ordered_dof_joint_axes(&self) -> Seq<JointAxis<T>> {
        self.ordered_dof_joint_axes@
    }

    pub closed spec fn spec_ordered_joint_axes(&self) -> Seq<JointAxis<T>> {
        self.ordered_joint_axes@
    }

    pub closed spec fn spec_joint_idx_to_dof_state_idxs_mapping(&self) -> Seq<Vec<usize>> {
        self.joint_idx_to_dof_state_idxs_mapping@
    }

    pub closed spec fn spec_joint_idx_to_full_state_idxs_mapping(&self) -> Seq<Vec<usize>> {
        self.joint_idx_to_full_state_idxs_mapping@
    }

    /// The length that a state of the given type has.
    pub open spec fn spec_state_len(&self, robot_state_type: RobotStateType) -> usize {
        match robot_state_type {
            RobotStateType::DOF => self.spec_num_dofs(),
            RobotStateType::Full => self.spec_num_axes(),
        }
    }

    /// The dof axes are the free ones among all axes, the counts are the lengths of
    /// the two lists, and the two mappings list for each joint the positions of its
    /// axes.
    pub open spec fn wf(&self) -> bool {
        &&& self.spec_num_axes() == self.spec_ordered_joint_axes().len()
        &&& self.spec_num_dofs() == self.spec_ordered_dof_joint_axes().len()
        &&& self.spec_ordered_dof_joint_axes() == free_axes_among(
            self.spec_ordered_joint_axes(),
            self.spec_ordered_joint_axes().len() as int,
        )
        &&& self.spec_joint_idx_to_dof_state_idxs_mapping().len()
            == self.spec_joint_idx_to_full_state_idxs_mapping().len()
        &&& forall|j: int|
            0 <= j < self.spec_joint_idx_to_full_state_idxs_mapping().len() ==> (
            #[trigger] self.spec_joint_idx_to_full_state_idxs_mapping()[j])@ == positions_of_joint(
                self.spec_ordered_joint_axes(),
                j,
                self.spec_ordered_joint_axes().len() as int,
            )
        &&& forall|j: int|
            0 <= j < self.spec_joint_idx_to_dof_state_idxs_mapping().len() ==> (
            #[trigger] self.spec_joint_idx_to_dof_state_idxs_mapping()[j])@ == positions_of_joint(
                self.spec_ordered_dof_joint_axes(),
                j,
                self.spec_ordered_dof_joint_axes().len() as int,
            )
    }

    /// The full state that a state of the right length stands for.
    pub open spec fn spec_full_state(&self, state: &RobotState<T>) -> Seq<T> {
        match state.spec_robot_state_type() {
            RobotStateType::Full => state@,
            RobotStateType::DOF => full_state_of(self.spec_ordered_joint_axes(), state@),
        }
    }

    /// The values that a full state gives to the axes of a joint, in the order of
    /// the axes; none for a joint that is not present.
    pub fn joint_values_of(&self, full_state: &RobotState<T>, joint_idx: usize) -> (r: Result<
        Vec<T>,
        OptimaError,
    >)
        requires
            self.wf(),
        ensures
            full_state@.len() != self.spec_num_axes() ==> r == Err::<Vec<T>, OptimaError>(
                OptimaError::StateSizeMismatch {
                    given: full_state@.len() as usize,
                    expected: self.spec_num_axes(),
                },
            ),
            full_state@.len() == self.spec_num_axes() && joint_idx
                >= self.spec_joint_idx_to_full_state_idxs_mapping().len() ==> r == Err::<
                Vec<T>,
                OptimaError,
            >(
                OptimaError::IndexOutOfBounds {
                    index: joint_idx,
                    length: self.spec_joint_idx_to_full_state_idxs_mapping().len() as usize,
                },
            ),
            full_state@.len() == self.spec_num_axes() && joint_idx
                < self.spec_joint_idx_to_full_state_idxs_mapping().len() ==> {
                &&& r is Ok
                &&& r->Ok_0@ == joint_values(
                    self.spec_ordered_joint_axes(),
                    full_state@,
                    joint_idx as int,
                )
            },
    {
        if full_state.len() != self.num_axes {
            return Err(
                OptimaError::StateSizeMismatch {
                    given: full_state.len(),
                    expected: self.num_axes,
                },
            );
        }
        if joint_idx >= self.joint_idx_to_full_state_idxs_mapping.len() {
            return Err(
                OptimaError::IndexOutOfBounds {
                    index: joint_idx,
                    length: self.joint_idx_to_full_state_idxs_mapping.len(),
                },
            );
        }
        let positions = &self.joint_idx_to_full_state_idxs_mapping[joint_idx];
        let ghost axes = self.ordered_joint_axes@;
        let num_axes = self.ordered_joint_axes.len();
        let mut values: Vec<T> = Vec::new();
        let mut k: usize = 0;
        while k < positions.len()
            invariant
                self.wf(),
                axes == self.ordered_joint_axes@,
                num_axes == axes.len(),
                full_state@.len() == axes.len(),
                positions@ == positions_of_joint(axes, joint_idx as int, axes.len() as int),
                k <= positions@.len(),
                values@.len() == k,
                forall|a: int| 0 <= a < k ==> values@[a] == full_state@[positions@[a] as int],
            decreases positions@.len() - k,
        {
            proof {
                lemma_positions_of_joint_are_positions(
                    axes,
                    joint_idx as int,
                    axes.len() as int,
                    k as int,
                );
            }
            values.push(full_state.value(positions[k]));
            k += 1;
        }
        assert(values@ =~= joint_values(axes, full_state@, joint_idx as int));
        Ok(values)
    }

    /// The state views of a model as its joints are present and its axes fixed now.
    pub fn new(robot_model_module: &RobotModelModule<T>) -> (r: Self)
        requires
            robot_model_module.wf(),
        ensures
            r.wf(),
            r.spec_ordered_joint_axes() == axes_of_present_joints(
                robot_model_module.spec_joints(),
                robot_model_module.spec_joints().len() as int,
            ),
            r.spec_joint_idx_to_full_state_idxs_mapping().len()
                == robot_model_module.spec_joints().len(),
    {
        let joints = robot_model_module.joints();
        let ordered_joint_axes = Self::collect_joint_axes(joints);
        let ordered_dof_joint_axes = Self::collect_free_axes(&ordered_joint_axes);
        let joint_idx_to_full_state_idxs_mapping = Self::map_joints_to_positions(
            &ordered_joint_axes,
            joints.len(),
        );
        let joint_idx_to_dof_state_idxs_mapping = Self::map_joints_to_positions(
            &ordered_dof_joint_axes,
            joints.len(),
        );
        RobotStateModule {
            num_dofs: ordered_dof_joint_axes.len(),
            num_axes: ordered_joint_axes.len(),
            ordered_dof_joint_axes,
            ordered_joint_axes,
            joint_idx_to_dof_state_idxs_mapping,
            joint_idx_to_full_state_idxs_mapping,
        }
    }

    fn collect_joint_axes(joints: &Vec<Joint<T>>) -> (r: Vec<JointAxis<T>>)
        ensures
            r@ == axes_of_present_joints(joints@, joints@.len() as int),
    {
        let mut axes: Vec<JointAxis<T>> = Vec::new();
        let mut j: usize = 0;
        while j < joints.len()
            invariant
                j <= joints@.len(),
                axes@ == axes_of_present_joints(joints@, j as int),
            decreases joints@.len() - j,
        {
            if joints[j].active() {
                let joint_axes = joints[j].joint_axes();
                let ghost before = axes@;
                let mut k: usize = 0;
                while k < joint_axes.len()
                    invariant
                        k <= joint_axes@.len(),
                        axes@ == before + joint_axes@.subrange(0, k as int),
                    decreases joint_axes@.len() - k,
                {
                    axes.push(joint_axes[k]);
                    assert((before + joint_axes@.subrange(0, k as int)).push(joint_axes@[k as int])
                        =~= before + joint_axes@.subrange(0, k + 1));
                    k += 1;
                }
                assert(joint_axes@.subrange(0, joint_axes@.len() as int) =~= joint_axes@);
            }
            j += 1;
        }
        axes
    }

    fn collect_free_axes(axes: &Vec<JointAxis<T>>) -> (r: Vec<JointAxis<T>>)
        ensures
            r@ == free_axes_among(axes@, axes@.len() as int),
    {
        let mut free: Vec<JointAxis<T>> = Vec::new();
        let mut i: usize = 0;
        while i < axes.len()
            invariant
                i <= axes@.len(),
                free@ == free_axes_among(axes@, i as int),
            decreases axes@.len() - i,
        {
            if !axes[i].is_fixed() {
                free.push(axes[i]);
            }
            i += 1;
        }
        free
    }

    fn map_joints_to_positions(axes: &Vec<JointAxis<T>>, num_joints: usize) -> (r: Vec<Vec<usize>>)
        ensures
            r@.len() == num_joints,
            forall|j: int|
                0 <= j < num_joints ==> (#[trigger] r@[j])@ == positions_of_joint(
                    axes@,
                    j,
                    axes@.len() as int,
                ),
    {
        let mut out_vec: Vec<Vec<usize>> = Vec::new();
        let mut j: usize = 0;
        while j < num_joints
            invariant
                j <= num_joints,
                out_vec@.len() == j,
                forall|a: int|
                    0 <= a < j ==> (#[trigger] out_vec@[a])@ == positions_of_joint(
                        axes@,
                        a,
                        axes@.len() as int,
                    ),
            decreases num_joints - j,
        {
            let mut positions: Vec<usize> = Vec::new();
            let mut i: usize = 0;
            while i < axes.len()
                invariant
                    i <= axes@.len(),
                    positions@ == positions_of_joint(axes@, j as int, i as int),
                decreases axes@.len() - i,
            {
                if axes[i].joint_idx() == j {
                    positions.push(i);
                }
                i += 1;
            }
            out_vec.push(positions);
            j += 1;
        }
        out_vec
    }

    /// The number of joints of the model that the views were made for.
    pub fn num_joints(&self) -> (r: usize)
        ensures
            r == self.spec_joint_idx_to_full_state_idxs_mapping().len(),
    {
        self.joint_idx_to_full_state_idxs_mapping.len()
    }

    /// The number of free axes: the length of a dof state.
    pub fn num_dofs(&self) -> (r: usize)
        ensures
            r == self.spec_num_dofs(),
    {
        self.num_dofs
    }

    /// The number of axes: the length of a full state.
    pub fn num_axes(&self) -> (r: usize)
        ensures
            r == self.spec_num_axes(),
    {
        self.num_axes
    }

    /// Returns the free axes in order.
    pub fn ordered_dof_joint_axes(&self) -> (r: &Vec<JointAxis<T>>)
        ensures
            r@ == self.spec_ordered_dof_joint_axes(),
    {
        &self.ordered_dof_joint_axes
    }

    /// Returns all axes in order, fixed ones included.
    pub fn ordered_joint_axes(&self) -> (r: &Vec<JointAxis<T>>)
        ensures
            r@ == self.spec_ordered_joint_axes(),
    {
        &self.ordered_joint_axes
    }

    /// Converts a state to a full state. A full state is returned as it is; in a
    /// dof state the values of the fixed axes are filled in.
    pub fn convert_state_to_full_state(&self, state: &RobotState<T>) -> (r: Result<
        RobotState<T>,
        OptimaError,
    >)
        requires
            self.wf(),
        ensures
            state@.len() != self.spec_state_len(state.spec_robot_state_type()) ==> r == Err::<
                RobotState<T>,
                OptimaError,
            >(
                OptimaError::StateSizeMismatch {
                    given: state@.len() as usize,
                    expected: self.spec_state_len(state.spec_robot_state_type()),
                },
            ),
            state@.len() == self.spec_state_len(state.spec_robot_state_type()) ==> {
                &&& r is Ok
                &&& r->Ok_0.spec_robot_state_type() == RobotStateType::Full
                &&& r->Ok_0@.len() == self.spec_num_axes()
                &&& r->Ok_0@ == match state.spec_robot_state_type() {
                    RobotStateType::Full => state@,
                    RobotStateType::DOF => full_state_of(self.spec_ordered_joint_axes(), state@),
                }
            },
    {
        match state.robot_state_type() {
            RobotStateType::Full => {
                if state.len() != self.num_axes {
                    return Err(
                        OptimaError::StateSizeMismatch {
                            given: state.len(),
                            expected: self.num_axes,
                        },
                    );
                }
                Ok(state.duplicate())
            },
            RobotStateType::DOF => {
                if state.len() != self.num_dofs {
                    return Err(
                        OptimaError::StateSizeMismatch {
                            given: state.len(),
                            expected: self.num_dofs,
                        },
                    );
                }
                let mut out: Vec<T> = Vec::new();
                let mut bookmark: usize = 0;
                let mut i: usize = 0;
                proof {
                    lemma_free_axes_count(
                        self.ordered_joint_axes@,
                        self.ordered_joint_axes@.len() as int,
                    );
                }
                while i < self.ordered_joint_axes.len()
                    invariant
                        self.wf(),
                        i <= self.ordered_joint_axes@.len(),
                        state@.len() == count_free_axes(
                            self.ordered_joint_axes@,
                            self.ordered_joint_axes@.len() as int,
                        ),
                        bookmark == count_free_axes(self.ordered_joint_axes@, i as int),
                        state@.len() <= usize::MAX,
                        out@.len() == i,
                        forall|a: int|
                            0 <= a < i ==> out@[a] == full_state_of(
                                self.ordered_joint_axes@,
                                state@,
                            )[a],
                    decreases self.ordered_joint_axes@.len() - i,
                {
                    proof {
                        lemma_count_free_axes_grows(
                            self.ordered_joint_axes@,
                            i + 1,
                            self.ordered_joint_axes@.len() as int,
                        );
                    }
                    match self.ordered_joint_axes[i].fixed_value() {
                        Some(v) => {
                            out.push(v);
                        },
                        None => {
                            assert(count_free_axes(self.ordered_joint_axes@, i + 1) == bookmark
                                + 1);
                            out.push(state.value(bookmark));
                            bookmark += 1;
                        },
                    }
                    i += 1;
                }
                assert(out@ =~= full_state_of(self.ordered_joint_axes@, state@));
                Ok(RobotState::new_unchecked(out, RobotStateType::Full))
            },
        }
    }

    /// Converts a state to a dof state. A dof state is returned as it is; of a full
    /// state the values of the free axes are kept.
    pub fn convert_state_to_dof_state(&self, state: &RobotState<T>) -> (r: Result<
        RobotState<T>,
        OptimaError,
    >)
        requires
            self.wf(),
        ensures
            state@.len() != self.spec_state_len(state.spec_robot_state_type()) ==> r == Err::<
                RobotState<T>,
                OptimaError,
            >(
                OptimaError::StateSizeMismatch {
                    given: state@.len() as usize,
                    expected: self.spec_state_len(state.spec_robot_state_type()),
                },
            ),
            state@.len() == self.spec_state_len(state.spec_robot_state_type()) ==> {
                &&& r is Ok
                &&& r->Ok_0.spec_robot_state_type() == RobotStateType::DOF
                &&& r->Ok_0@.len() == self.spec_num_dofs()
                &&& r->Ok_0@ == match state.spec_robot_state_type() {
                    RobotStateType::DOF => state@,
                    RobotStateType::Full => dof_state_of(self.spec_ordered_joint_axes(), state@),
                }
            },
    {
        match state.robot_state_type() {
            RobotStateType::DOF => {
                if state.len() != self.num_dofs {
                    return Err(
                        OptimaError::StateSizeMismatch {
                            given: state.len(),
                            expected: self.num_dofs,
                        },
                    );
                }
                Ok(state.duplicate())
            },
            RobotStateType::Full => {
                if state.len() != self.num_axes {
                    return Err(
                        OptimaError::StateSizeMismatch {
                            given: state.len(),
                            expected: self.num_axes,
                        },
                    );
                }
                let mut out: Vec<T> = Vec::new();
                let mut i: usize = 0;
                while i < self.ordered_joint_axes.len()
                    invariant
                        self.wf(),
                        state@.len() == self.ordered_joint_axes@.len(),
                        i <= self.ordered_joint_axes@.len(),
                        out@ == dof_values_among(self.ordered_joint_axes@, state@, i as int),
                    decreases self.ordered_joint_axes@.len() - i,
                {
                    if !self.ordered_joint_axes[i].is_fixed() {
                        out.push(state.value(i));
                    }
                    i += 1;
                }
                proof {
                    lemma_dof_values_count(
                        self.ordered_joint_axes@,
                        state@,
                        self.ordered_joint_axes@.len() as int,
                    );
                    lemma_free_axes_count(
                        self.ordered_joint_axes@,
                        self.ordered_joint_axes@.len() as int,
                    );
                }
                Ok(RobotState::new_unchecked(out, RobotStateType::DOF))
            },
        }
    }

    /// Returns the positions in a full state of the axes of the joint.
    pub fn map_joint_idx_to_full_state_idxs(&self, joint_idx: usize) -> (r: Result<
        &Vec<usize>,
        OptimaError,
    >)
        requires
            self.wf(),
        ensures
            joint_idx < self.spec_joint_idx_to_full_state_idxs_mapping().len() ==> {
                &&& r is Ok
                &&& r->Ok_0@ == positions_of_joint(
                    self.spec_ordered_joint_axes(),
                    joint_idx as int,
                    self.spec_ordered_joint_axes().len() as int,
                )
            },
            joint_idx >= self.spec_joint_idx_to_full_state_idxs_mapping().len() ==> r == Err::<
                &Vec<usize>,
                OptimaError,
            >(
                OptimaError::IndexOutOfBounds {
                    index: joint_idx,
                    length: self.spec_joint_idx_to_full_state_idxs_mapping().len() as usize,
                },
            ),
    {
        if joint_idx >= self.joint_idx_to_full_state_idxs_mapping.len() {
            return Err(
                OptimaError::IndexOutOfBounds {
                    index: joint_idx,
                    length: self.joint_idx_to_full_state_idxs_mapping.len(),
                },
            );
        }
        Ok(&self.joint_idx_to_full_state_idxs_mapping[joint_idx])
    }

    /// Returns the positions in a dof state of the free axes of the joint.
    pub fn map_joint_idx_to_dof_state_idxs(&self, joint_idx: usize) -> (r: Result<
        &Vec<usize>,
        OptimaError,
    >)
        requires
            self.wf(),
        ensures
            joint_idx < self.spec_joint_idx_to_dof_state_idxs_mapping().len() ==> {
                &&& r is Ok
                &&& r->Ok_0@ == positions_of_joint(
                    self.spec_ordered_dof_joint_axes(),
                    joint_idx as int,
                    self.spec_ordered_dof_joint_axes().len() as int,
                )
            },
            joint_idx >= self.spec_joint_idx_to_dof_state_idxs_mapping().len() ==> r == Err::<
                &Vec<usize>,
                OptimaError,
            >(
                OptimaError::IndexOutOfBounds {
                    index: joint_idx,
                    length: self.spec_joint_idx_to_dof_state_idxs_mapping().len() as usize,
                },
            ),
    {
        if joint_idx >= self.joint_idx_to_dof_state_idxs_mapping.len() {
            return Err(
                OptimaError::IndexOutOfBounds {
                    index: joint_idx,
                    length: self.joint_idx_to_dof_state_idxs_mapping.len(),
                },
            );
        }
        Ok(&self.joint_idx_to_dof_state_idxs_mapping[joint_idx])
    }

    /// A state of the given type, if `state` has the length of one.
    pub fn spawn_robot_state(&self, state: Vec<T>, robot_state_type: RobotStateType) -> (r: Result<
        RobotState<T>,
        OptimaError,
    >)
        ensures
            state@.len() == self.spec_state_len(robot_state_type) ==> {
                &&& r is Ok
                &&& r->Ok_0@ == state@
                &&& r->Ok_0.spec_robot_state_type() == robot_state_type
            },
            state@.len() != self.spec_state_len(robot_state_type) ==> r == Err::<
                RobotState<T>,
                OptimaError,
            >(
                OptimaError::StateSizeMismatch {
                    given: state@.len() as usize,
                    expected: self.spec_state_len(robot_state_type),
                },
            ),
    {
        RobotState::new(state, robot_state_type, self)
    }

    /// A dof state if `state` has the length of one, else a full state if it has
    /// the length of one.
    pub fn spawn_robot_state_try_auto_type(&self, state: Vec<T>) -> (r: Result<
        RobotState<T>,
        OptimaError,
    >)
        ensures
            state@.len() == self.spec_num_dofs() ==> {
                &&& r is Ok
                &&& r->Ok_0@ == state@
                &&& r->Ok_0.spec_robot_state_type() == RobotStateType::DOF
            },
            state@.len() != self.spec_num_dofs() && state@.len() == self.spec_num_axes() ==> {
                &&& r is Ok
                &&& r->Ok_0@ == state@
                &&& r->Ok_0.spec_robot_state_type() == RobotStateType::Full
            },
            state@.len() != self.spec_num_dofs() && state@.len() != self.spec_num_axes() ==> r
                == Err::<RobotState<T>, OptimaError>(
                OptimaError::StateSizeMismatch {
                    given: state@.len() as usize,
                    expected: self.spec_num_axes(),
                },
            ),
    {
        RobotState::new_try_auto_type(state, self)
    }

    /// Making a dof state full and making the full state a dof state again gives
    /// back the dof state.
    pub proof fn lemma_convert_round_trip(&self, dof_state: Seq<T>)
        requires
            self.wf(),
            dof_state.len() == self.spec_num_dofs(),
        ensures
            dof_state_of(
                self.spec_ordered_joint_axes(),
                full_state_of(self.spec_ordered_joint_axes(), dof_state),
            ) == dof_state,
            self.spec_num_dofs() <= self.spec_num_axes(),
    {
        lemma_free_axes_count(
            self.spec_ordered_joint_axes(),
            self.spec_ordered_joint_axes().len() as int,
        );
        lemma_dof_state_round_trip(self.spec_ordered_joint_axes(), dof_state);
    }
}

} // verus!
