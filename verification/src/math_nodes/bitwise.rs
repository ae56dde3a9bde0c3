//! Elementwise bitwise operations and parity on `Bit` tensors.

use vstd::prelude::*;

use crate::arrays::{array_and, array_or, array_xor, array_parity, broadcast_combine, parity_fold};
use crate::data_tree::{DataTree, TreeView, view_leaves, lemma_view_children};
use crate::math_nodes::{
    Evaluation, MathNodeError, Resolution, check_axis, evaluates_as, reports_dtype, resolves_as,
};
use crate::program_node::{CallInputError, ProgramNode, full_name_of};
use crate::tensor::{
    DType, DTypeLike, Dim, Tensor, TensorError, TensorType, broadcast_dims, broadcast_extents, broadcast_shape,
    broadcast_shape_spec, broadcastable, copy_dims, extents_broadcast, nonzero_count, tensor_views, type_views,
    within_array_limit, element_count,
};

verus! {

// ---------------------------------------------------------------------------
// Declared types
// ---------------------------------------------------------------------------

/// The view of a broadcastable `Bit` scalar type.
pub open spec fn bit_type() -> (DTypeLike, Seq<Dim>, bool) {
    (DTypeLike::Concrete(DType::Bit), Seq::empty(), true)
}

/// A single broadcastable `Bit` leaf: the input of the unary nodes and the output of all of them.
pub open spec fn bit_leaf() -> TreeView<(DTypeLike, Seq<Dim>, bool)> {
    TreeView::Leaf(bit_type())
}

/// Two broadcastable `Bit` leaves named `x` and `y`: the input of the binary nodes.
pub open spec fn bit_pair() -> TreeView<(DTypeLike, Seq<Dim>, bool)> {
    TreeView::Branch(seq![(Some("x"@), TreeView::Leaf(bit_type())), (Some("y"@), TreeView::Leaf(bit_type()))])
}

/// A broadcastable `Bit` scalar type.
fn bit_scalar() -> (t: TensorType)
    ensures
        t@ == bit_type(),
{
    TensorType { dtype: DTypeLike::Concrete(DType::Bit), shape: Vec::new(), broadcastable: true }
}

/// The tree [`bit_leaf`] describes.
fn bit_leaf_tree() -> (tree: DataTree<TensorType>)
    ensures
        view_leaves(tree@) == bit_leaf(),
{
    DataTree::new_leaf(bit_scalar())
}

/// The tree [`bit_pair`] describes.
fn bit_pair_tree() -> (tree: DataTree<TensorType>)
    ensures
        view_leaves(tree@) == bit_pair(),
{
    let mut types = DataTree::with_capacity(2);
    let x = bit_scalar();
    let y = bit_scalar();
    let ghost (xv, yv) = (x, y);
    types.insert_leaf("x", x);
    types.insert_leaf("y", y);
    proof {
        let children = seq![(Some("x"@), TreeView::Leaf(xv)), (Some("y"@), TreeView::Leaf(yv))];
        assert(types@->Branch_0 =~= children);
        assert(types@ == TreeView::Branch(children));
        lemma_view_children(children, 2);
        assert(view_children_of_pair(children));
    }
    types
}

/// The viewed children of a pair of `Bit` leaves are the pair of [`bit_pair`].
spec fn view_children_of_pair(children: Seq<(Option<Seq<char>>, TreeView<TensorType>)>) -> bool {
    crate::data_tree::view_children(children, 2) =~= seq![
        (Some("x"@), TreeView::Leaf(bit_type())),
        (Some("y"@), TreeView::Leaf(bit_type())),
    ]
}

// ---------------------------------------------------------------------------
// Element types
// ---------------------------------------------------------------------------

/// Whether a declared element type is concrete and not `Bit`. A variable is accepted here; it is
/// checked once it resolves.
pub open spec fn rejects(dtype: DTypeLike) -> bool {
    dtype matches DTypeLike::Concrete(d) && d != DType::Bit
}

/// The error for a value at `key` of element type `actual` where `Bit` was required.
fn unexpected_dtype(key: &str, actual: DType) -> (e: CallInputError)
    ensures
        reports_dtype(e, key@, actual),
{
    CallInputError::UnexpectedDType { key: String::from_str(key), expected: DType::Bit.to_string(), actual }
}

/// Check that a declared element type is `Bit`, letting an unresolved variable through.
fn check_bit_dtype(key: &str, dtype: &DTypeLike) -> (res: Result<(), CallInputError>)
    ensures
        match res {
            Ok(()) => !rejects(*dtype),
            Err(e) => rejects(*dtype) && reports_dtype(e, key@, dtype->Concrete_0),
        },
{
    match dtype {
        DTypeLike::Concrete(d) => {
            if *d != DType::Bit {
                Err(unexpected_dtype(key, *d))
            } else {
                Ok(())
            }
        },
        DTypeLike::Var(_) => Ok(()),
    }
}

// ---------------------------------------------------------------------------
// The binary nodes
// ---------------------------------------------------------------------------

/// The elementwise operation of a binary bitwise node.
#[derive(Clone, Copy, PartialEq, Eq, Structural)]
pub enum BitOp {
    And,
    Or,
    Xor,
}

/// The elements `op` gives for two arrays.
pub open spec fn combined(op: BitOp, x_shape: Seq<usize>, x: Seq<u64>, y_shape: Seq<usize>, y: Seq<u64>) -> Seq<u64> {
    match op {
        BitOp::And => broadcast_combine(x_shape, x, y_shape, y, |a: u64, b: u64| a & b),
        BitOp::Or => broadcast_combine(x_shape, x, y_shape, y, |a: u64, b: u64| a | b),
        BitOp::Xor => broadcast_combine(x_shape, x, y_shape, y, |a: u64, b: u64| a ^ b),
    }
}

/// What a binary node resolves for `inputs`: both must be `Bit` (or unresolved) and their
/// shapes must broadcast; the output is a broadcastable `Bit` of the broadcast shape.
pub open spec fn binary_resolution(inputs: Seq<TensorType>) -> Resolution {
    if inputs.len() != 2 {
        Resolution::WrongArity { expected: 2, actual: inputs.len() as usize }
    } else if rejects(inputs[0].dtype) {
        Resolution::UnexpectedDType { key: "x"@, actual: inputs[0].dtype->Concrete_0 }
    } else if rejects(inputs[1].dtype) {
        Resolution::UnexpectedDType { key: "y"@, actual: inputs[1].dtype->Concrete_0 }
    } else if !broadcastable(inputs[0].shape@, inputs[1].shape@) {
        Resolution::IncompatibleDims { lhs: inputs[0].shape@, rhs: inputs[1].shape@ }
    } else {
        Resolution::Resolved(seq![(DTypeLike::Concrete(DType::Bit), broadcast_shape_spec(inputs[0].shape@, inputs[1].shape@), true)])
    }
}

/// What a binary node computes for `args`: both must be `Bit` tensors whose shapes broadcast; the
/// output is `op` over them, of the broadcast shape.
pub open spec fn binary_evaluation(op: BitOp, args: Seq<Tensor>) -> Evaluation {
    if args.len() != 2 {
        Evaluation::WrongArity { expected: 2, actual: args.len() as usize }
    } else if args[0]@.0 != DType::Bit {
        Evaluation::UnexpectedDType { key: "x"@, actual: args[0]@.0 }
    } else if args[1]@.0 != DType::Bit {
        Evaluation::UnexpectedDType { key: "y"@, actual: args[1]@.0 }
    } else if !extents_broadcast(args[0]@.1, args[1]@.1) {
        Evaluation::ShapeMismatch { lhs: args[0]@.1, rhs: args[1]@.1 }
    } else if nonzero_count(broadcast_extents(args[0]@.1, args[1]@.1)) > isize::MAX {
        Evaluation::TooLarge { shape: broadcast_extents(args[0]@.1, args[1]@.1) }
    } else {
        let shape = broadcast_extents(args[0]@.1, args[1]@.1);
        Evaluation::Computed(seq![(DType::Bit, shape, combined(op, args[0]@.1, args[0]@.2, args[1]@.1, args[1]@.2))])
    }
}

/// Resolve the output type of a binary bitwise node.
fn binary_resolve(input_types: &[TensorType]) -> (res: Result<Vec<TensorType>, MathNodeError>)
    ensures
        resolves_as(res, binary_resolution(input_types@)),
{
    if input_types.len() != 2 {
        return Err(MathNodeError::Input(CallInputError::WrongArity { expected: 2, actual: input_types.len() }));
    }
    let x = &input_types[0];
    let y = &input_types[1];
    match check_bit_dtype("x", &x.dtype) {
        Ok(()) => {},
        Err(e) => return Err(MathNodeError::Input(e)),
    }
    match check_bit_dtype("y", &y.dtype) {
        Ok(()) => {},
        Err(e) => return Err(MathNodeError::Input(e)),
    }
    let shape = match broadcast_dims(x.shape.as_slice(), y.shape.as_slice()) {
        Ok(shape) => shape,
        Err(e) => return Err(MathNodeError::Tensor(e)),
    };
    let out = TensorType { dtype: DTypeLike::Concrete(DType::Bit), shape, broadcastable: true };
    let types = vec![out];
    assert(type_views(types@) =~= seq![out@]);
    Ok(types)
}

/// Compute a binary bitwise node.
fn binary_call(op: BitOp, args: &[Tensor]) -> (res: Result<Vec<Tensor>, MathNodeError>)
    ensures
        evaluates_as(res, binary_evaluation(op, args@)),
{
    if args.len() != 2 {
        return Err(MathNodeError::Input(CallInputError::WrongArity { expected: 2, actual: args.len() }));
    }
    let x = &args[0];
    let y = &args[1];
    if x.dtype() != DType::Bit {
        return Err(MathNodeError::Input(unexpected_dtype("x", x.dtype())));
    }
    if y.dtype() != DType::Bit {
        return Err(MathNodeError::Input(unexpected_dtype("y", y.dtype())));
    }
    let shape = match broadcast_shape(x.shape(), y.shape()) {
        Ok(shape) => shape,
        Err(e) => return Err(MathNodeError::Tensor(e)),
    };
    if !within_array_limit(shape.as_slice()) {
        return Err(MathNodeError::Tensor(TensorError::TooLarge { shape }));
    }
    let xw = x.words();
    let yw = y.words();
    let words = match op {
        BitOp::And => array_and(x.shape(), xw, y.shape(), yw),
        BitOp::Or => array_or(x.shape(), xw, y.shape(), yw),
        BitOp::Xor => array_xor(x.shape(), xw, y.shape(), yw),
    };
    let ghost view = (DType::Bit, shape@, words@);
    let out = Tensor::from_parts(DType::Bit, shape, words);
    let tensors = vec![out];
    assert(tensor_views(tensors@) =~= seq![view]);
    Ok(tensors)
}

/// Elementwise AND of two broadcastable `Bit` tensors.
pub struct BitwiseAnd;

/// Elementwise OR of two broadcastable `Bit` tensors.
pub struct BitwiseOr;

/// Elementwise XOR of two broadcastable `Bit` tensors.
pub struct BitwiseXor;

impl ProgramNode for BitwiseAnd {
    type CallError = MathNodeError;

    open spec fn call_flat_gives(&self, args: Seq<(DType, Seq<usize>, Seq<u64>)>, res: Result<Vec<Tensor>, MathNodeError>) -> bool {
        exists|a: Seq<Tensor>| #[trigger] tensor_views(a) == args && evaluates_as(res, binary_evaluation(BitOp::And, a))
    }

    open spec fn resolve_flat_gives(&self, input_types: Seq<(DTypeLike, Seq<Dim>, bool)>, res: Result<Vec<TensorType>, MathNodeError>) -> bool {
        exists|a: Seq<TensorType>| #[trigger] type_views(a) == input_types && resolves_as(res, binary_resolution(a))
    }

    open spec fn name_spec(&self) -> Seq<char> {
        "bitwise_and"@
    }

    open spec fn namespace_spec(&self) -> Seq<char> {
        "qiskit"@
    }

    open spec fn input_types_spec(&self) -> TreeView<(DTypeLike, Seq<Dim>, bool)> {
        bit_pair()
    }

    open spec fn output_types_spec(&self) -> TreeView<(DTypeLike, Seq<Dim>, bool)> {
        bit_leaf()
    }

    fn name(&self) -> &str {
        "bitwise_and"
    }

    fn namespace(&self) -> &str {
        "qiskit"
    }

    fn input_types(&self) -> DataTree<TensorType> {
        bit_pair_tree()
    }

    fn output_types(&self) -> DataTree<TensorType> {
        bit_leaf_tree()
    }

    fn implements_call(&self) -> (b: bool)
        ensures
            b,
    {
        true
    }

    fn call_flat(&self, args: &[Tensor]) -> (res: Result<Vec<Tensor>, MathNodeError>)
        ensures
            evaluates_as(res, binary_evaluation(BitOp::And, args@)),
    {
        binary_call(BitOp::And, args)
    }

    fn resolve_types_flat(&self, input_types: &[TensorType]) -> (res: Result<Vec<TensorType>, MathNodeError>)
        ensures
            resolves_as(res, binary_resolution(input_types@)),
    {
        binary_resolve(input_types)
    }
}

impl ProgramNode for BitwiseOr {
    type CallError = MathNodeError;

    open spec fn call_flat_gives(&self, args: Seq<(DType, Seq<usize>, Seq<u64>)>, res: Result<Vec<Tensor>, MathNodeError>) -> bool {
        exists|a: Seq<Tensor>| #[trigger] tensor_views(a) == args && evaluates_as(res, binary_evaluation(BitOp::Or, a))
    }

    open spec fn resolve_flat_gives(&self, input_types: Seq<(DTypeLike, Seq<Dim>, bool)>, res: Result<Vec<TensorType>, MathNodeError>) -> bool {
        exists|a: Seq<TensorType>| #[trigger] type_views(a) == input_types && resolves_as(res, binary_resolution(a))
    }

    open spec fn name_spec(&self) -> Seq<char> {
        "bitwise_or"@
    }

    open spec fn namespace_spec(&self) -> Seq<char> {
        "qiskit"@
    }

    open spec fn input_types_spec(&self) -> TreeView<(DTypeLike, Seq<Dim>, bool)> {
        bit_pair()
    }

    open spec fn output_types_spec(&self) -> TreeView<(DTypeLike, Seq<Dim>, bool)> {
        bit_leaf()
    }

    fn name(&self) -> &str {
        "bitwise_or"
    }

    fn namespace(&self) -> &str {
        "qiskit"
    }

    fn input_types(&self) -> DataTree<TensorType> {
        bit_pair_tree()
    }

    fn output_types(&self) -> DataTree<TensorType> {
        bit_leaf_tree()
    }

    fn implements_call(&self) -> (b: bool)
        ensures
            b,
    {
        true
    }

    fn call_flat(&self, args: &[Tensor]) -> (res: Result<Vec<Tensor>, MathNodeError>)
        ensures
            evaluates_as(res, binary_evaluation(BitOp::Or, args@)),
    {
        binary_call(BitOp::Or, args)
    }

    fn resolve_types_flat(&self, input_types: &[TensorType]) -> (res: Result<Vec<TensorType>, MathNodeError>)
        ensures
            resolves_as(res, binary_resolution(input_types@)),
    {
        binary_resolve(input_types)
    }
}

impl ProgramNode for BitwiseXor {
    type CallError = MathNodeError;

    open spec fn call_flat_gives(&self, args: Seq<(DType, Seq<usize>, Seq<u64>)>, res: Result<Vec<Tensor>, MathNodeError>) -> bool {
        exists|a: Seq<Tensor>| #[trigger] tensor_views(a) == args && evaluates_as(res, binary_evaluation(BitOp::Xor, a))
    }

    open spec fn resolve_flat_gives(&self, input_types: Seq<(DTypeLike, Seq<Dim>, bool)>, res: Result<Vec<TensorType>, MathNodeError>) -> bool {
        exists|a: Seq<TensorType>| #[trigger] type_views(a) == input_types && resolves_as(res, binary_resolution(a))
    }

    open spec fn name_spec(&self) -> Seq<char> {
        "bitwise_xor"@
    }

    open spec fn namespace_spec(&self) -> Seq<char> {
        "qiskit"@
    }

    open spec fn input_types_spec(&self) -> TreeView<(DTypeLike, Seq<Dim>, bool)> {
        bit_pair()
    }

    open spec fn output_types_spec(&self) -> TreeView<(DTypeLike, Seq<Dim>, bool)> {
        bit_leaf()
    }

    fn name(&self) -> &str {
        "bitwise_xor"
    }

    fn namespace(&self) -> &str {
        "qiskit"
    }

    fn input_types(&self) -> DataTree<TensorType> {
        bit_pair_tree()
    }

    fn output_types(&self) -> DataTree<TensorType> {
        bit_leaf_tree()
    }

    fn implements_call(&self) -> (b: bool)
        ensures
            b,
    {
        true
    }

    fn call_flat(&self, args: &[Tensor]) -> (res: Result<Vec<Tensor>, MathNodeError>)
        ensures
            evaluates_as(res, binary_evaluation(BitOp::Xor, args@)),
    {
        binary_call(BitOp::Xor, args)
    }

    fn resolve_types_flat(&self, input_types: &[TensorType]) -> (res: Result<Vec<TensorType>, MathNodeError>)
        ensures
            resolves_as(res, binary_resolution(input_types@)),
    {
        binary_resolve(input_types)
    }
}

// ---------------------------------------------------------------------------
// Bitwise NOT
// ---------------------------------------------------------------------------

/// What NOT resolves for `inputs`: one `Bit` (or unresolved) input, passed through unchanged.
pub open spec fn not_resolution(inputs: Seq<TensorType>) -> Resolution {
    if inputs.len() != 1 {
        Resolution::WrongArity { expected: 1, actual: inputs.len() as usize }
    } else if rejects(inputs[0].dtype) {
        Resolution::UnexpectedDType { key: ""@, actual: inputs[0].dtype->Concrete_0 }
    } else {
        Resolution::Resolved(seq![inputs[0]@])
    }
}

/// Each word with its lowest bit flipped.
pub open spec fn flipped(words: Seq<u64>) -> Seq<u64> {
    words.map_values(|w: u64| w ^ 1)
}

/// What NOT computes for `args`: one `Bit` tensor, each element with its bit flipped.
pub open spec fn not_evaluation(args: Seq<Tensor>) -> Evaluation {
    if args.len() != 1 {
        Evaluation::WrongArity { expected: 1, actual: args.len() as usize }
    } else if args[0]@.0 != DType::Bit {
        Evaluation::UnexpectedDType { key: ""@, actual: args[0]@.0 }
    } else {
        Evaluation::Computed(seq![(DType::Bit, args[0]@.1, flipped(args[0]@.2))])
    }
}

/// Each word XOR 1.
fn flip_words(words: &[u64]) -> (out: Vec<u64>)
    ensures
        out@ == flipped(words@),
{
    let mut out: Vec<u64> = Vec::new();
    for i in 0..words.len()
        invariant
            out@ == flipped(words@.take(i as int)),
    {
        out.push(words[i] ^ 1);
        assert(flipped(words@.take(i + 1)) =~= flipped(words@.take(i as int)).push(words@[i as int] ^ 1));
    }
    assert(words@.take(words.len() as int) == words@);
    out
}

/// Elementwise bitwise NOT of a broadcastable `Bit` tensor.
pub struct BitwiseNot;

impl ProgramNode for BitwiseNot {
    type CallError = MathNodeError;

    open spec fn call_flat_gives(&self, args: Seq<(DType, Seq<usize>, Seq<u64>)>, res: Result<Vec<Tensor>, MathNodeError>) -> bool {
        exists|a: Seq<Tensor>| #[trigger] tensor_views(a) == args && evaluates_as(res, not_evaluation(a))
    }

    open spec fn resolve_flat_gives(&self, input_types: Seq<(DTypeLike, Seq<Dim>, bool)>, res: Result<Vec<TensorType>, MathNodeError>) -> bool {
        exists|a: Seq<TensorType>| #[trigger] type_views(a) == input_types && resolves_as(res, not_resolution(a))
    }

    open spec fn name_spec(&self) -> Seq<char> {
        "bitwise_not"@
    }

    open spec fn namespace_spec(&self) -> Seq<char> {
        "qiskit"@
    }

    open spec fn input_types_spec(&self) -> TreeView<(DTypeLike, Seq<Dim>, bool)> {
        bit_leaf()
    }

    open spec fn output_types_spec(&self) -> TreeView<(DTypeLike, Seq<Dim>, bool)> {
        bit_leaf()
    }

    fn name(&self) -> &str {
        "bitwise_not"
    }

    fn namespace(&self) -> &str {
        "qiskit"
    }

    fn input_types(&self) -> DataTree<TensorType> {
        bit_leaf_tree()
    }

    fn output_types(&self) -> DataTree<TensorType> {
        bit_leaf_tree()
    }

    fn implements_call(&self) -> (b: bool)
        ensures
            b,
    {
        true
    }

    fn call_flat(&self, args: &[Tensor]) -> (res: Result<Vec<Tensor>, MathNodeError>)
        ensures
            evaluates_as(res, not_evaluation(args@)),
    {
        if args.len() != 1 {
            return Err(MathNodeError::Input(CallInputError::WrongArity { expected: 1, actual: args.len() }));
        }
        let x = &args[0];
        if x.dtype() != DType::Bit {
            return Err(MathNodeError::Input(unexpected_dtype("", x.dtype())));
        }
        let words = flip_words(x.words());
        let shape = crate::tensor::copy_words(x.shape());
        let ghost view = (DType::Bit, shape@, words@);
        assert(words@.len() == x@.2.len());
        let out = Tensor::from_parts(DType::Bit, shape, words);
        let tensors = vec![out];
        assert(tensor_views(tensors@) =~= seq![view]);
        Ok(tensors)
    }

    fn resolve_types_flat(&self, input_types: &[TensorType]) -> (res: Result<Vec<TensorType>, MathNodeError>)
        ensures
            resolves_as(res, not_resolution(input_types@)),
    {
        if input_types.len() != 1 {
            return Err(MathNodeError::Input(CallInputError::WrongArity { expected: 1, actual: input_types.len() }));
        }
        let x = &input_types[0];
        match check_bit_dtype("", &x.dtype) {
            Ok(()) => {},
            Err(e) => return Err(MathNodeError::Input(e)),
        }
        let out = x.clone();
        let types = vec![out];
        assert(type_views(types@) =~= seq![x@]);
        Ok(types)
    }
}

// ---------------------------------------------------------------------------
// Parity
// ---------------------------------------------------------------------------

/// XOR-reduction of a `Bit` tensor along an axis, removing that axis.
///
/// The parity of a sequence of bits is 1 if an odd number of them are 1, and 0 otherwise.
pub struct Parity {
    axis: usize,
}

impl Parity {
    /// A node that reduces along `axis`.
    pub fn new(axis: usize) -> (node: Self)
        ensures
            node.axis() == axis,
    {
        Parity { axis }
    }

    /// The axis this node reduces along.
    pub closed spec fn axis(&self) -> usize {
        self.axis
    }
}

/// What parity along `axis` resolves for `inputs`: one input that has that axis, `Bit` (or
/// unresolved); the output is the input with that axis removed.
pub open spec fn parity_resolution(axis: usize, inputs: Seq<TensorType>) -> Resolution {
    if inputs.len() != 1 {
        Resolution::WrongArity { expected: 1, actual: inputs.len() as usize }
    } else if axis >= inputs[0].shape@.len() {
        Resolution::InvalidAxis { axis, ndim: inputs[0].shape@.len() as usize }
    } else if rejects(inputs[0].dtype) {
        Resolution::UnexpectedDType { key: ""@, actual: inputs[0].dtype->Concrete_0 }
    } else {
        Resolution::Resolved(seq![(inputs[0].dtype, inputs[0].shape@.remove(axis as int), inputs[0].broadcastable)])
    }
}

/// What parity along `axis` computes for `args`: one `Bit` tensor that has that axis; the
/// output is its XOR-fold along that axis.
pub open spec fn parity_evaluation(axis: usize, args: Seq<Tensor>) -> Evaluation {
    if args.len() != 1 {
        Evaluation::WrongArity { expected: 1, actual: args.len() as usize }
    } else if axis >= args[0]@.1.len() {
        Evaluation::InvalidAxis { axis, ndim: args[0]@.1.len() as usize }
    } else if args[0]@.0 != DType::Bit {
        Evaluation::UnexpectedDType { key: ""@, actual: args[0]@.0 }
    } else {
        Evaluation::Computed(seq![(DType::Bit, args[0]@.1.remove(axis as int), parity_fold(args[0]@.1, args[0]@.2, axis))])
    }
}

/// Removing an extent never raises the product of the nonzero ones.
proof fn lemma_nonzero_remove(shape: Seq<usize>, k: int)
    requires
        0 <= k < shape.len(),
    ensures
        nonzero_count(shape.remove(k)) <= nonzero_count(shape),
    decreases shape.len(),
{
    let r = shape.remove(k);
    if k == shape.len() - 1 {
        assert(r == shape.drop_last());
        let rest = nonzero_count(shape.drop_last());
        let last = shape.last() as nat;
        if last > 0 {
            assert(rest * last >= rest) by (nonlinear_arith)
                requires
                    last >= 1;
        }
    } else {
        lemma_nonzero_remove(shape.drop_last(), k);
        assert(r.drop_last() == shape.drop_last().remove(k));
        assert(r.last() == shape.last());
        let a = nonzero_count(shape.drop_last().remove(k));
        let b = nonzero_count(shape.drop_last());
        let last = shape.last() as nat;
        if last > 0 {
            assert(a * last <= b * last) by (nonlinear_arith)
                requires
                    a <= b;
        }
    }
}

impl ProgramNode for Parity {
    type CallError = MathNodeError;

    open spec fn call_flat_gives(&self, args: Seq<(DType, Seq<usize>, Seq<u64>)>, res: Result<Vec<Tensor>, MathNodeError>) -> bool {
        exists|a: Seq<Tensor>| #[trigger] tensor_views(a) == args && evaluates_as(res, parity_evaluation(self.axis(), a))
    }

    open spec fn resolve_flat_gives(&self, input_types: Seq<(DTypeLike, Seq<Dim>, bool)>, res: Result<Vec<TensorType>, MathNodeError>) -> bool {
        exists|a: Seq<TensorType>| #[trigger] type_views(a) == input_types && resolves_as(res, parity_resolution(self.axis(), a))
    }

    open spec fn name_spec(&self) -> Seq<char> {
        "parity"@
    }

    open spec fn namespace_spec(&self) -> Seq<char> {
        "qiskit"@
    }

    open spec fn input_types_spec(&self) -> TreeView<(DTypeLike, Seq<Dim>, bool)> {
        bit_leaf()
    }

    open spec fn output_types_spec(&self) -> TreeView<(DTypeLike, Seq<Dim>, bool)> {
        bit_leaf()
    }

    fn name(&self) -> &str {
        "parity"
    }

    fn namespace(&self) -> &str {
        "qiskit"
    }

    fn input_types(&self) -> DataTree<TensorType> {
        bit_leaf_tree()
    }

    fn output_types(&self) -> DataTree<TensorType> {
        bit_leaf_tree()
    }

    fn implements_call(&self) -> (b: bool)
        ensures
            b,
    {
        true
    }

    fn call_flat(&self, args: &[Tensor]) -> (res: Result<Vec<Tensor>, MathNodeError>)
        ensures
            evaluates_as(res, parity_evaluation(self.axis(), args@)),
    {
        if args.len() != 1 {
            return Err(MathNodeError::Input(CallInputError::WrongArity { expected: 1, actual: args.len() }));
        }
        let x = &args[0];
        match check_axis(self.axis, x.shape().len()) {
            Ok(()) => {},
            Err(e) => return Err(e),
        }
        if x.dtype() != DType::Bit {
            return Err(MathNodeError::Input(unexpected_dtype("", x.dtype())));
        }
        let xw = x.words();
        let words = array_parity(x.shape(), xw, self.axis);
        let mut shape = crate::tensor::copy_words(x.shape());
        shape.remove(self.axis);
        proof {
            lemma_nonzero_remove(x@.1, self.axis as int);
        }
        let ghost view = (DType::Bit, shape@, words@);
        let out = Tensor::from_parts(DType::Bit, shape, words);
        let tensors = vec![out];
        assert(tensor_views(tensors@) =~= seq![view]);
        Ok(tensors)
    }

    fn resolve_types_flat(&self, input_types: &[TensorType]) -> (res: Result<Vec<TensorType>, MathNodeError>)
        ensures
            resolves_as(res, parity_resolution(self.axis(), input_types@)),
    {
        if input_types.len() != 1 {
            return Err(MathNodeError::Input(CallInputError::WrongArity { expected: 1, actual: input_types.len() }));
        }
        let x = &input_types[0];
        match check_axis(self.axis, x.shape.len()) {
            Ok(()) => {},
            Err(e) => return Err(e),
        }
        match check_bit_dtype("", &x.dtype) {
            Ok(()) => {},
            Err(e) => return Err(MathNodeError::Input(e)),
        }
        let mut shape = copy_dims(x.shape.as_slice());
        shape.remove(self.axis);
        let out = TensorType { dtype: x.dtype.clone(), shape, broadcastable: x.broadcastable };
        let types = vec![out];
        assert(type_views(types@) =~= seq![out@]);
        Ok(types)
    }
}

} // verus!
