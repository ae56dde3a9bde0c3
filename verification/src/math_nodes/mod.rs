//! Nodes that compute on tensors.

pub mod bitwise;

use vstd::prelude::*;

use crate::program_node::CallInputError;
use crate::tensor::{DType, DTypeLike, Dim, Tensor, TensorError, TensorType, dtype_name, type_views, tensor_views};

verus! {

/// Errors raised by the math nodes, when called or when resolving their types.
#[derive(Debug, PartialEq, Eq)]
pub enum MathNodeError {
    /// The inputs do not match what the node accepts.
    Input(CallInputError),
    /// The input shapes do not combine.
    Tensor(TensorError),
    /// The node reduces along an axis its input does not have.
    InvalidAxis { axis: usize, ndim: usize },
}

/// What resolving the types of a node's inputs comes to: the error it reports, or the output
/// types, each by its view.
pub enum Resolution {
    WrongArity { expected: usize, actual: usize },
    UnexpectedDType { key: Seq<char>, actual: DType },
    IncompatibleDims { lhs: Seq<Dim>, rhs: Seq<Dim> },
    InvalidAxis { axis: usize, ndim: usize },
    Resolved(Seq<(DTypeLike, Seq<Dim>, bool)>),
}

/// What calling a node comes to: the error it reports, or the output tensors, each by its view.
pub enum Evaluation {
    WrongArity { expected: usize, actual: usize },
    UnexpectedDType { key: Seq<char>, actual: DType },
    ShapeMismatch { lhs: Seq<usize>, rhs: Seq<usize> },
    TooLarge { shape: Seq<usize> },
    InvalidAxis { axis: usize, ndim: usize },
    Computed(Seq<(DType, Seq<usize>, Seq<u64>)>),
}

/// Whether `e` reports an input at `key` of element type `actual` where `Bit` was required.
pub open spec fn reports_dtype(e: CallInputError, key: Seq<char>, actual: DType) -> bool {
    e matches CallInputError::UnexpectedDType { key: k, expected, actual: a }
        && k@ == key && expected@ == dtype_name(DType::Bit) && a == actual
}

/// Whether `res` is what the resolution `r` describes.
pub open spec fn resolves_as(res: Result<Vec<TensorType>, MathNodeError>, r: Resolution) -> bool {
    match r {
        Resolution::WrongArity { expected, actual } => res matches Err(
            MathNodeError::Input(CallInputError::WrongArity { expected: e, actual: a }),
        ) && e == expected && a == actual,
        Resolution::UnexpectedDType { key, actual } => res matches Err(MathNodeError::Input(e))
            && reports_dtype(e, key, actual),
        Resolution::IncompatibleDims { lhs, rhs } => res matches Err(
            MathNodeError::Tensor(TensorError::IncompatibleDims { lhs: l, rhs: r }),
        ) && l@ == lhs && r@ == rhs,
        Resolution::InvalidAxis { axis, ndim } => res matches Err(MathNodeError::InvalidAxis { axis: a, ndim: n })
            && a == axis && n == ndim,
        Resolution::Resolved(types) => res matches Ok(v) && type_views(v@) == types,
    }
}

/// Whether `res` is what the evaluation `ev` describes.
pub open spec fn evaluates_as(res: Result<Vec<Tensor>, MathNodeError>, ev: Evaluation) -> bool {
    match ev {
        Evaluation::WrongArity { expected, actual } => res matches Err(
            MathNodeError::Input(CallInputError::WrongArity { expected: e, actual: a }),
        ) && e == expected && a == actual,
        Evaluation::UnexpectedDType { key, actual } => res matches Err(MathNodeError::Input(e))
            && reports_dtype(e, key, actual),
        Evaluation::ShapeMismatch { lhs, rhs } => res matches Err(
            MathNodeError::Tensor(TensorError::ShapeMismatch { lhs: l, rhs: r }),
        ) && l@ == lhs && r@ == rhs,
        Evaluation::TooLarge { shape } => res matches Err(MathNodeError::Tensor(TensorError::TooLarge { shape: s }))
            && s@ == shape,
        Evaluation::InvalidAxis { axis, ndim } => res matches Err(MathNodeError::InvalidAxis { axis: a, ndim: n })
            && a == axis && n == ndim,
        Evaluation::Computed(tensors) => res matches Ok(v) && tensor_views(v@) == tensors,
    }
}

/// Check that `axis` is an axis of a tensor of rank `ndim`.
pub fn check_axis(axis: usize, ndim: usize) -> (res: Result<(), MathNodeError>)
    ensures
        axis < ndim ==> res is Ok,
        axis >= ndim ==> res == Err::<(), MathNodeError>(MathNodeError::InvalidAxis { axis, ndim }),
{
    if axis >= ndim {
        Err(MathNodeError::InvalidAxis { axis, ndim })
    } else {
        Ok(())
    }
}

} // verus!
