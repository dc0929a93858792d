//! The typed failures of the crate, and the device and element-type
//! handles they mention.
use crate::shape::Shape;
use vstd::prelude::*;

verus! {

/// Where a tensor's storage lives.
#[derive(Debug, Clone, Copy, PartialEq, Eq, Hash, Structural)]
pub enum Device {
    /// Host memory.
    Cpu,
    /// An Apple Metal GPU.
    Metal { index: usize },
    /// An NVIDIA CUDA GPU.
    Cuda { index: usize },
}

/// The element types a storage can hold.
#[derive(Debug, Clone, Copy, PartialEq, Eq, Hash, Structural)]
pub enum DType {
    /// 32-bit floats.
    F32,
    /// 64-bit floats.
    F64,
    /// 64-bit signed integers.
    I64,
    /// Bytes.
    U8,
}

/// The short stable name of a device kind.
pub open spec fn device_kind_spec(d: Device) -> Seq<char> {
    match d {
        Device::Cpu => "cpu"@,
        Device::Metal { .. } => "metal"@,
        Device::Cuda { .. } => "cuda"@,
    }
}

/// The ordinal of a device within its kind (0 for the CPU).
pub open spec fn device_ordinal(d: Device) -> int {
    match d {
        Device::Cpu => 0,
        Device::Metal { index } => index as int,
        Device::Cuda { index } => index as int,
    }
}

impl Device {
    /// The short stable name of this device's kind: `cpu`, `metal` or
    /// `cuda`.
    pub fn kind_name(self) -> (r: &'static str)
        ensures
            r@ == device_kind_spec(self),
    {
        match self {
            Device::Cpu => "cpu",
            Device::Metal { .. } => "metal",
            Device::Cuda { .. } => "cuda",
        }
    }

    /// The device ordinal used to order devices of one kind (0 for the
    /// CPU).
    pub fn index(self) -> (r: usize)
        ensures
            r as int == device_ordinal(self),
    {
        match self {
            Device::Cpu => 0,
            Device::Metal { index } => index,
            Device::Cuda { index } => index,
        }
    }
}

impl DType {
    /// Bytes per element.
    pub fn size_in_bytes(self) -> (r: usize)
        ensures
            r == match self {
                DType::F32 => 4usize,
                DType::F64 => 8usize,
                DType::I64 => 8usize,
                DType::U8 => 1usize,
            },
    {
        match self {
            DType::F32 => 4,
            DType::F64 => 8,
            DType::I64 => 8,
            DType::U8 => 1,
        }
    }
}

/// Why an argument was refused.
#[derive(Debug)]
#[allow(inconsistent_fields)]
pub enum Issue {
    /// `perm` is not a permutation of `0..rank`.
    NotAPermutation { perm: Vec<usize>, rank: usize },
    /// A dimension index past the rank.
    DimOutOfRange { dim: usize, rank: usize },
    /// A window `start..start + len` that leaves dimension `dim` of
    /// extent `extent` (or overflows).
    RangeOutOfBounds { dim: usize, start: usize, len: usize, extent: usize },
    /// The operation needs at least `needed` dimensions.
    RankTooSmall { needed: usize, got: usize },
    /// The operation takes at most `limit` dimensions.
    RankTooLarge { limit: usize, got: usize },
    /// The operation needs a `[.., n, n]` tensor.
    NotSquare,
    /// A layout lists a different number of strides than dimensions.
    StrideCount { strides: usize, dims: usize },
    /// A layout addresses storage it does not own.
    LayoutOutOfBounds { available: usize },
    /// A reduction over an extent of 0 has no value.
    EmptyExtent { dim: usize },
    /// A reduction axis past the rank.
    AxisOutOfRange { axis: usize, rank: usize },
    /// A malformed Einstein-summation spec.
    Einsum(EinsumIssue),
    /// An element that is not a number where an ordering is needed.
    NotANumber,
    /// A tensor with more than one element where a scalar is needed.
    NotAScalar { numel: usize },
    /// Matrix `matrix` of a stack is not positive definite: its Cholesky
    /// pivot `pivot` is not positive.
    NotPositiveDefinite { matrix: usize, pivot: usize },
}

/// What is wrong with an Einstein-summation spec.
#[derive(Debug)]
#[allow(inconsistent_fields)]
pub enum EinsumIssue {
    /// Only one or two operands are supported.
    OperandCount { given: usize },
    /// The spec has no `->` and output.
    MissingArrow,
    /// The spec names a different number of operands than were given.
    SpecOperandCount { named: usize, given: usize },
    /// A subscript character is not a lowercase ASCII letter.
    NotALetter { letter: char },
    /// A letter repeats within one subscript.
    RepeatedLetter { letter: char },
    /// An output letter appears in no operand.
    UnknownOutputLetter { letter: char },
    /// An operand's subscript length differs from its rank.
    RankMismatch { operand: usize, letters: usize, rank: usize },
    /// A letter names two different sizes.
    SizeMismatch { letter: char, first: usize, second: usize },
}

/// Every failure the crate reports, each carrying what went wrong.
#[derive(Debug)]
#[allow(inconsistent_fields)]
pub enum Error {
    /// Two shapes that must agree do not.
    ShapeMismatch { expected: Shape, got: Shape, op: &'static str },
    /// Two shapes that do not broadcast, verbatim.
    BroadcastIncompatible { lhs: Shape, rhs: Shape },
    /// An index with the wrong number of coordinates.
    RankMismatch { index_rank: usize, shape_rank: usize },
    /// An index outside the shape.
    IndexOutOfBounds { index: Vec<usize>, shape: Shape },
    /// A shape whose element count (or a stride) does not fit in `usize`.
    ShapeOverflow { dims: Vec<usize>, op: &'static str },
    /// An argument the operation cannot accept.
    InvalidArgument { op: &'static str, issue: Issue },
    /// Operands on different devices.
    DeviceMismatch { lhs: Device, rhs: Device, op: &'static str },
    /// Operands of different element types.
    DTypeMismatch { expected: DType, got: DType, op: &'static str },
    /// An element type the operation does not support.
    UnsupportedDType { dtype: DType, op: &'static str },
    /// A backend that declines an operation.
    NotImplemented { op: &'static str, device: Device },
    /// No backend serves the device.
    BackendUnavailable { device: Device },
}

/// The operation an error names, for the variants that carry one.
pub open spec fn error_op(e: Error) -> Option<Seq<char>> {
    match e {
        Error::ShapeMismatch { op, .. } => Some(op@),
        Error::ShapeOverflow { op, .. } => Some(op@),
        Error::InvalidArgument { op, .. } => Some(op@),
        Error::DeviceMismatch { op, .. } => Some(op@),
        Error::DTypeMismatch { op, .. } => Some(op@),
        Error::UnsupportedDType { op, .. } => Some(op@),
        Error::NotImplemented { op, .. } => Some(op@),
        _ => None,
    }
}

/// Whether `e` names the operation `op`, where its variant names one.
pub open spec fn names_op(e: Error, op: Seq<char>) -> bool {
    error_op(e) matches Some(o) ==> o == op
}

/// `e` with its operation replaced by `op`, where its variant carries one.
pub open spec fn with_op(e: Error, op: &'static str) -> Error {
    match e {
        Error::ShapeMismatch { expected, got, .. } => Error::ShapeMismatch { expected, got, op },
        Error::ShapeOverflow { dims, .. } => Error::ShapeOverflow { dims, op },
        Error::InvalidArgument { issue, .. } => Error::InvalidArgument { op, issue },
        Error::DeviceMismatch { lhs, rhs, .. } => Error::DeviceMismatch { lhs, rhs, op },
        Error::DTypeMismatch { expected, got, .. } => Error::DTypeMismatch { expected, got, op },
        Error::UnsupportedDType { dtype, .. } => Error::UnsupportedDType { dtype, op },
        Error::NotImplemented { device, .. } => Error::NotImplemented { op, device },
        _ => e,
    }
}

impl Error {
    /// This error reported under the operation `op` (an outer operation
    /// naming a failure of one it is built on).
    pub fn relabel(self, op: &'static str) -> (r: Error)
        ensures
            r == with_op(self, op),
            names_op(r, op@),
    {
        match self {
            Error::ShapeMismatch { expected, got, .. } => Error::ShapeMismatch { expected, got, op },
            Error::ShapeOverflow { dims, .. } => Error::ShapeOverflow { dims, op },
            Error::InvalidArgument { issue, .. } => Error::InvalidArgument { op, issue },
            Error::DeviceMismatch { lhs, rhs, .. } => Error::DeviceMismatch { lhs, rhs, op },
            Error::DTypeMismatch { expected, got, .. } => Error::DTypeMismatch { expected, got, op },
            Error::UnsupportedDType { dtype, .. } => Error::UnsupportedDType { dtype, op },
            Error::NotImplemented { device, .. } => Error::NotImplemented { op, device },
            other => other,
        }
    }
}

} // verus!
