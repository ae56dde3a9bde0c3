//! Elementwise and reducing operations on arrays of words, computed by `ndarray`.

use vstd::prelude::*;

use ndarray::{ArrayD, Axis, IxDyn};

use crate::tensor::{broadcast_extents, element_count, extents_broadcast, fits, nonzero_count};

verus! {

/// The position along each axis of flat index `i` of an array of shape `shape`, in row-major
/// order: the last axis varies fastest.
pub open spec fn multi_index(shape: Seq<usize>, i: int) -> Seq<int>
    decreases shape.len(),
{
    if shape.len() == 0 {
        Seq::empty()
    } else {
        let last = shape.last() as int;
        multi_index(shape.drop_last(), i / last).push(i % last)
    }
}

/// The flat index, in row-major order, of the position `at` of an array of shape `shape`.
pub open spec fn flat_index(shape: Seq<usize>, at: Seq<int>) -> int
    decreases shape.len(),
{
    if shape.len() == 0 {
        0
    } else {
        flat_index(shape.drop_last(), at.drop_last()) * (shape.last() as int) + at.last()
    }
}

/// The flat index of an array of shape `shape`, broadcast to `target`, that flat index `i` of
/// `target` reads: the axes are aligned at the end, and an axis of extent one is read at
/// position zero.
pub open spec fn broadcast_source(shape: Seq<usize>, target: Seq<usize>, i: int) -> int {
    let at = multi_index(target, i);
    let offset = target.len() - shape.len();
    flat_index(shape, Seq::new(shape.len(), |a: int| if shape[a] == 1 { 0 } else { at[a + offset] }))
}

/// The elements of `f` applied to two arrays broadcast together, in row-major order.
pub open spec fn broadcast_combine(
    x_shape: Seq<usize>,
    x: Seq<u64>,
    y_shape: Seq<usize>,
    y: Seq<u64>,
    f: spec_fn(u64, u64) -> u64,
) -> Seq<u64> {
    let target = broadcast_extents(x_shape, y_shape);
    Seq::new(element_count(target), |i: int| f(x[broadcast_source(x_shape, target, i)], y[broadcast_source(y_shape, target, i)]))
}

/// The XOR of `f(0)`, …, `f(n - 1)`, folded from zero in that order.
pub open spec fn xor_upto(f: spec_fn(int) -> u64, n: nat) -> u64
    decreases n,
{
    if n == 0 {
        0
    } else {
        xor_upto(f, (n - 1) as nat) ^ f(n - 1)
    }
}

/// The XOR-fold of an array along `axis`, in row-major order: at each position of the shape
/// with `axis` removed, the XOR of the elements along that axis.
pub open spec fn parity_fold(shape: Seq<usize>, words: Seq<u64>, axis: usize) -> Seq<u64> {
    let rest = shape.remove(axis as int);
    Seq::new(element_count(rest), |i: int|
        xor_upto(|k: int| words[flat_index(shape, multi_index(rest, i).insert(axis as int, k))], shape[axis as int] as nat))
}

/// What two arrays need for `ndarray` to combine them without panicking: each holds one element
/// per position, their shapes broadcast together, and every shape involved can be laid out.
pub open spec fn combinable(x_shape: Seq<usize>, x: Seq<u64>, y_shape: Seq<usize>, y: Seq<u64>) -> bool {
    &&& fits(x_shape, x)
    &&& fits(y_shape, y)
    &&& extents_broadcast(x_shape, y_shape)
    &&& nonzero_count(x_shape) <= isize::MAX
    &&& nonzero_count(y_shape) <= isize::MAX
    &&& nonzero_count(broadcast_extents(x_shape, y_shape)) <= isize::MAX
}

/// `&x & &y` on `ndarray` dynamic-rank arrays, read back in row-major order.
///
/// `ndarray` broadcasts both operands to their common shape (axes aligned at the end, an axis
/// of extent one stretched) and applies `&` elementwise; the contract states each element of
/// the result, of the broadcast shape.
#[verifier::external_body]
pub(crate) fn array_and(x_shape: &[usize], x: &[u64], y_shape: &[usize], y: &[u64]) -> (out: Vec<u64>)
    requires
        combinable(x_shape@, x@, y_shape@, y@),
    ensures
        out@ == broadcast_combine(x_shape@, x@, y_shape@, y@, |a: u64, b: u64| a & b),
        fits(broadcast_extents(x_shape@, y_shape@), out@),
        x_shape@ == y_shape@ ==> forall|i: int| 0 <= i < x@.len() ==> #[trigger] out@[i] == x@[i] & y@[i],
{
    let a = ArrayD::from_shape_vec(IxDyn(x_shape), x.to_vec()).expect("the words fit the shape");
    let b = ArrayD::from_shape_vec(IxDyn(y_shape), y.to_vec()).expect("the words fit the shape");
    (&a & &b).iter().copied().collect()
}

/// `&x | &y` on `ndarray` dynamic-rank arrays, read back in row-major order.
///
/// As [`array_and`], with `|` in place of `&`.
#[verifier::external_body]
pub(crate) fn array_or(x_shape: &[usize], x: &[u64], y_shape: &[usize], y: &[u64]) -> (out: Vec<u64>)
    requires
        combinable(x_shape@, x@, y_shape@, y@),
    ensures
        out@ == broadcast_combine(x_shape@, x@, y_shape@, y@, |a: u64, b: u64| a | b),
        fits(broadcast_extents(x_shape@, y_shape@), out@),
        x_shape@ == y_shape@ ==> forall|i: int| 0 <= i < x@.len() ==> #[trigger] out@[i] == x@[i] | y@[i],
{
    let a = ArrayD::from_shape_vec(IxDyn(x_shape), x.to_vec()).expect("the words fit the shape");
    let b = ArrayD::from_shape_vec(IxDyn(y_shape), y.to_vec()).expect("the words fit the shape");
    (&a | &b).iter().copied().collect()
}

/// `&x ^ &y` on `ndarray` dynamic-rank arrays, read back in row-major order.
///
/// As [`array_and`], with `^` in place of `&`.
#[verifier::external_body]
pub(crate) fn array_xor(x_shape: &[usize], x: &[u64], y_shape: &[usize], y: &[u64]) -> (out: Vec<u64>)
    requires
        combinable(x_shape@, x@, y_shape@, y@),
    ensures
        out@ == broadcast_combine(x_shape@, x@, y_shape@, y@, |a: u64, b: u64| a ^ b),
        fits(broadcast_extents(x_shape@, y_shape@), out@),
        x_shape@ == y_shape@ ==> forall|i: int| 0 <= i < x@.len() ==> #[trigger] out@[i] == x@[i] ^ y@[i],
{
    let a = ArrayD::from_shape_vec(IxDyn(x_shape), x.to_vec()).expect("the words fit the shape");
    let b = ArrayD::from_shape_vec(IxDyn(y_shape), y.to_vec()).expect("the words fit the shape");
    (&a ^ &b).iter().copied().collect()
}

/// One step of a parity fold.
pub fn xor_step(acc: &u64, bit: &u64) -> (next: u64)
    ensures
        next == *acc ^ *bit,
{
    *acc ^ *bit
}

/// `ArrayBase::fold_axis` with the XOR of the elements along `axis`, starting from zero, read
/// back in row-major order.
///
/// `fold_axis` folds the subviews along `axis` into the result in order; the contract states
/// each element of the result, of the shape with `axis` removed.
#[verifier::external_body]
pub(crate) fn array_parity(shape: &[usize], words: &[u64], axis: usize) -> (out: Vec<u64>)
    requires
        fits(shape@, words@),
        nonzero_count(shape@) <= isize::MAX,
        axis < shape@.len(),
    ensures
        out@ == parity_fold(shape@, words@, axis),
        fits(shape@.remove(axis as int), out@),
{
    let a = ArrayD::from_shape_vec(IxDyn(shape), words.to_vec()).expect("the words fit the shape");
    a.fold_axis(Axis(axis), 0u64, |acc, bit| xor_step(acc, bit)).iter().copied().collect()
}

} // verus!
