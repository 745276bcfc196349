use crate::utils::utils_errors::OptimaError;
use vstd::prelude::*;

verus! {

/// The representations of a rotation.
#[derive(Clone, Copy, Debug, PartialEq, Eq, Structural)]
pub enum OptimaRotationType {
    RotationMatrix,
    UnitQuaternion,
}

/// Three coefficients: a point, a translation or an axis.
#[derive(Clone, Copy, Debug)]
pub struct Vector3<T> {
    pub x: T,
    pub y: T,
    pub z: T,
}

/// The nine coefficients of a rotation matrix; `rows[r][c]` is the entry in row `r`
/// and column `c`.
#[derive(Clone, Copy, Debug)]
pub struct Rotation3<T> {
    pub rows: [[T; 3]; 3],
}

/// The four coefficients of a unit quaternion: the vector part `i`, `j`, `k` and the
/// scalar part `w`.
#[derive(Clone, Copy, Debug)]
pub struct UnitQuaternion<T> {
    pub i: T,
    pub j: T,
    pub k: T,
    pub w: T,
}

/// What an operation on two operands has to compute on, once the representations
/// of the operands have been compared.
#[derive(Clone, Copy, Debug, PartialEq, Eq, Structural)]
pub enum OperandResolution<R> {
    /// Both operands are in the representation given: the operation applies as is.
    Direct(R),
    /// The right operand is in another representation and is first converted to
    /// the representation given, which is that of the left operand.
    ConvertRight(R),
}

/// A rotation in one of its representations, with the tag of that representation.
#[derive(Clone, Copy, Debug)]
pub enum OptimaRotation<T> {
    RotationMatrix { data: Rotation3<T>, rotation_type: OptimaRotationType },
    UnitQuaternion { data: UnitQuaternion<T>, rotation_type: OptimaRotationType },
}

impl<T: Copy> OptimaRotation<T> {
    /// The representation that the variant stands for.
    pub open spec fn spec_variant_type(&self) -> OptimaRotationType {
        match self {
            OptimaRotation::RotationMatrix { .. } => OptimaRotationType::RotationMatrix,
            OptimaRotation::UnitQuaternion { .. } => OptimaRotationType::UnitQuaternion,
        }
    }

    /// The tag that the value carries.
    pub open spec fn spec_rotation_type(&self) -> OptimaRotationType {
        match self {
            OptimaRotation::RotationMatrix { rotation_type, .. } => *rotation_type,
            OptimaRotation::UnitQuaternion { rotation_type, .. } => *rotation_type,
        }
    }

    /// The tag names the variant.
    pub open spec fn wf(&self) -> bool {
        self.spec_rotation_type() == self.spec_variant_type()
    }

    pub fn new_rotation_matrix(data: Rotation3<T>) -> (r: Self)
        ensures
            r == (OptimaRotation::RotationMatrix {
                data,
                rotation_type: OptimaRotationType::RotationMatrix,
            }),
            r.wf(),
    {
        OptimaRotation::RotationMatrix { data, rotation_type: OptimaRotationType::RotationMatrix }
    }

    pub fn new_unit_quaternion(data: UnitQuaternion<T>) -> (r: Self)
        ensures
            r == (OptimaRotation::UnitQuaternion {
                data,
                rotation_type: OptimaRotationType::UnitQuaternion,
            }),
            r.wf(),
    {
        OptimaRotation::UnitQuaternion { data, rotation_type: OptimaRotationType::UnitQuaternion }
    }

    /// The tag of the representation.
    pub fn get_rotation_type(&self) -> (r: OptimaRotationType)
        ensures
            r == self.spec_rotation_type(),
    {
        match self {
            OptimaRotation::RotationMatrix { data: _, rotation_type } => *rotation_type,
            OptimaRotation::UnitQuaternion { data: _, rotation_type } => *rotation_type,
        }
    }

    /// Compares the representations of the two operands of a product, a
    /// displacement, an angle between or an interpolation. Operands in one
    /// representation are used as they are. Operands in two representations are an
    /// error unless conversion is permitted, and then the right one is converted
    /// to the representation of the left one.
    pub fn resolve_operands(&self, other: &Self, conversion_if_necessary: bool) -> (r: Result<
        OperandResolution<OptimaRotationType>,
        OptimaError,
    >)
        ensures
            r == resolve_rotation_types(
                self.spec_rotation_type(),
                other.spec_rotation_type(),
                conversion_if_necessary,
            ),
    {
        let own = self.get_rotation_type();
        if own == other.get_rotation_type() {
            Ok(OperandResolution::Direct(own))
        } else if conversion_if_necessary {
            Ok(OperandResolution::ConvertRight(own))
        } else {
            Err(OptimaError::IncompatibleRepresentation)
        }
    }

    /// Applies an operation to two rotations once they are in one representation:
    /// a product, a displacement, an angle between or an interpolation, as
    /// `operation` computes it. Operands in one representation go to the operation
    /// as they are. Operands in two representations are an error unless conversion
    /// is permitted, and then the operation gets the right operand as `convert`
    /// converts it to the representation of the left operand.
    pub fn operate<O, C: Fn(Self, OptimaRotationType) -> Self, F: Fn(Self, Self) -> O>(
        &self,
        other: &Self,
        conversion_if_necessary: bool,
        convert: C,
        operation: F,
    ) -> (r: Result<O, OptimaError>)
        requires
            forall|rotation: Self, target: OptimaRotationType| convert.requires((rotation, target)),
            forall|left: Self, right: Self| operation.requires((left, right)),
        ensures
            match resolve_rotation_types(
                self.spec_rotation_type(),
                other.spec_rotation_type(),
                conversion_if_necessary,
            ) {
                Err(e) => r == Err::<O, OptimaError>(e),
                Ok(OperandResolution::Direct(_)) => r is Ok && operation.ensures(
                    (*self, *other),
                    r->Ok_0,
                ),
                Ok(OperandResolution::ConvertRight(target)) => r is Ok && exists|converted: Self|
                    #[trigger] convert.ensures((*other, target), converted) && operation.ensures(
                        (*self, converted),
                        r->Ok_0,
                    ),
            },
    {
        match self.resolve_operands(other, conversion_if_necessary) {
            Err(e) => Err(e),
            Ok(OperandResolution::Direct(_)) => Ok(operation(*self, *other)),
            Ok(OperandResolution::ConvertRight(target)) => {
                let converted = convert(*other, target);
                Ok(operation(*self, converted))
            },
        }
    }

    /// Returns the rotation matrix, or an error where the rotation is a quaternion.
    pub fn unwrap_rotation_matrix(&self) -> (r: Result<&Rotation3<T>, OptimaError>)
        ensures
            match self {
                OptimaRotation::RotationMatrix { data, .. } => r == Ok::<
                    &Rotation3<T>,
                    OptimaError,
                >(data),
                OptimaRotation::UnitQuaternion { .. } => r == Err::<&Rotation3<T>, OptimaError>(
                    OptimaError::IncompatibleRepresentation,
                ),
            },
    {
        match self {
            OptimaRotation::RotationMatrix { data, .. } => Ok(data),
            OptimaRotation::UnitQuaternion { .. } => Err(OptimaError::IncompatibleRepresentation),
        }
    }

    /// Returns the unit quaternion, or an error where the rotation is a matrix.
    pub fn unwrap_unit_quaternion(&self) -> (r: Result<&UnitQuaternion<T>, OptimaError>)
        ensures
            match self {
                OptimaRotation::UnitQuaternion { data, .. } => r == Ok::<
                    &UnitQuaternion<T>,
                    OptimaError,
                >(data),
                OptimaRotation::RotationMatrix { .. } => r == Err::<
                    &UnitQuaternion<T>,
                    OptimaError,
                >(OptimaError::IncompatibleRepresentation),
            },
    {
        match self {
            OptimaRotation::RotationMatrix { .. } => Err(OptimaError::IncompatibleRepresentation),
            OptimaRotation::UnitQuaternion { data, .. } => Ok(data),
        }
    }

    /// The coefficients as rows: of a quaternion the one row `[i, j, k, w]`, of a
    /// matrix its three rows.
    pub open spec fn spec_vec_representation(&self) -> Seq<Seq<T>> {
        match self {
            OptimaRotation::RotationMatrix { data, .. } => seq![
                seq![data.rows[0][0], data.rows[0][1], data.rows[0][2]],
                seq![data.rows[1][0], data.rows[1][1], data.rows[1][2]],
                seq![data.rows[2][0], data.rows[2][1], data.rows[2][2]],
            ],
            OptimaRotation::UnitQuaternion { data, .. } => seq![
                seq![data.i, data.j, data.k, data.w],
            ],
        }
    }

    /// The coefficients as rows: of a quaternion the one row `[i, j, k, w]`, of a
    /// matrix its three rows.
    pub fn to_vec_representation(&self) -> (r: Vec<Vec<T>>)
        ensures
            r@.len() == self.spec_vec_representation().len(),
            forall|a: int|
                0 <= a < r@.len() ==> (#[trigger] r@[a])@ == self.spec_vec_representation()[a],
    {
        let mut out_vec: Vec<Vec<T>> = Vec::new();
        match self {
            OptimaRotation::RotationMatrix { data, .. } => {
                let mut i: usize = 0;
                while i < 3
                    invariant
                        i <= 3,
                        out_vec@.len() == i,
                        forall|a: int|
                            0 <= a < i ==> (#[trigger] out_vec@[a])@ == seq![
                                data.rows[a][0],
                                data.rows[a][1],
                                data.rows[a][2],
                            ],
                    decreases 3 - i,
                {
                    let mut tmp_vec: Vec<T> = Vec::new();
                    let mut j: usize = 0;
                    while j < 3
                        invariant
                            i < 3,
                            j <= 3,
                            tmp_vec@.len() == j,
                            forall|b: int| 0 <= b < j ==> tmp_vec@[b] == data.rows[i as int][b],
                        decreases 3 - j,
                    {
                        tmp_vec.push(data.rows[i][j]);
                        j += 1;
                    }
                    assert(tmp_vec@ =~= seq![
                        data.rows[i as int][0],
                        data.rows[i as int][1],
                        data.rows[i as int][2],
                    ]);
                    out_vec.push(tmp_vec);
                    i += 1;
                }
            },
            OptimaRotation::UnitQuaternion { data, .. } => {
                let mut row: Vec<T> = Vec::new();
                row.push(data.i);
                row.push(data.j);
                row.push(data.k);
                row.push(data.w);
                assert(row@ =~= seq![data.i, data.j, data.k, data.w]);
                out_vec.push(row);
            },
        }
        out_vec
    }
}

/// How the representations of two operands resolve: equal ones directly, different
/// ones by converting the right operand where that is permitted, and else not at
/// all.
pub open spec fn resolve_rotation_types(
    left: OptimaRotationType,
    right: OptimaRotationType,
    conversion_if_necessary: bool,
) -> Result<OperandResolution<OptimaRotationType>, OptimaError> {
    if left == right {
        Ok(OperandResolution::Direct(left))
    } else if conversion_if_necessary {
        Ok(OperandResolution::ConvertRight(left))
    } else {
        Err(OptimaError::IncompatibleRepresentation)
    }
}

} // verus!
