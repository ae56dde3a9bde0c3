use qiskit_providers::data_tree::DataTree;
use qiskit_providers::math_nodes::MathNodeError;
use qiskit_providers::math_nodes::bitwise::{BitwiseAnd, BitwiseNot, BitwiseOr, BitwiseXor, Parity};
use qiskit_providers::program_node::{CallError, CallInputError, ProgramNode, ProgramNodeExt};
use qiskit_providers::tensor::{DType, DTypeLike, Dim, Tensor, TensorError, TensorType};

fn bit(data: &[u64]) -> Tensor {
    Tensor::new(DType::Bit, vec![data.len()], data.to_vec()).unwrap()
}

fn bit2(rows: usize, cols: usize, data: &[u64]) -> Tensor {
    Tensor::new(DType::Bit, vec![rows, cols], data.to_vec()).unwrap()
}

fn concrete_bit(shape: Vec<Dim>) -> TensorType {
    TensorType { dtype: DTypeLike::Concrete(DType::Bit), shape, broadcastable: true }
}

#[test]
fn test_bitwise_and() {
    let result = BitwiseAnd.call_flat(&[bit(&[1, 0, 1, 1]), bit(&[1, 1, 0, 1])]).unwrap();
    assert_eq!(result[0].dtype(), DType::Bit);
    assert_eq!(result[0].words(), &[1, 0, 0, 1]);
}

#[test]
fn test_bitwise_or() {
    let result = BitwiseOr.call_flat(&[bit(&[1, 0, 1, 0]), bit(&[0, 1, 0, 1])]).unwrap();
    assert_eq!(result[0].words(), &[1, 1, 1, 1]);
}

#[test]
fn test_bitwise_xor() {
    let result = BitwiseXor.call_flat(&[bit(&[1, 0, 1, 1]), bit(&[1, 1, 0, 1])]).unwrap();
    assert_eq!(result[0].words(), &[0, 1, 1, 0]);
}

#[test]
fn test_bitwise_and_broadcasts() {
    // shape [3] & shape [1] -> shape [3]
    let result = BitwiseAnd.call_flat(&[bit(&[1, 0, 1]), bit(&[1])]).unwrap();
    assert_eq!(result[0].words(), &[1, 0, 1]);
    assert_eq!(result[0].shape(), &[3]);
}

#[test]
fn test_bitwise_not() {
    let result = BitwiseNot.call_flat(&[bit(&[1, 0, 1, 0])]).unwrap();
    assert_eq!(result[0].words(), &[0, 1, 0, 1]);
}

#[test]
fn test_parity_axis0() {
    // [[1,0,1],[0,1,1],[0,0,0]] axis 0 -> [1, 1, 0]
    let x = bit2(3, 3, &[1, 0, 1, 0, 1, 1, 0, 0, 0]);
    let result = Parity::new(0).call_flat(&[x]).unwrap();
    assert_eq!(result[0].words(), &[1, 1, 0]);
}

#[test]
fn test_bitwise_and_wrong_dtype_errors() {
    let x = Tensor::new(DType::F64, vec![1], vec![1.0_f64.to_bits()]).unwrap();
    let err = BitwiseAnd.call_flat(&[x, bit(&[1])]).unwrap_err();
    assert_eq!(
        err,
        MathNodeError::Input(CallInputError::UnexpectedDType {
            key: "x".to_string(),
            expected: "Bit".to_string(),
            actual: DType::F64,
        })
    );
}

#[test]
fn test_bitwise_and_wrong_arity_errors() {
    let err = BitwiseAnd.call_flat(&[bit(&[1, 0])]).unwrap_err();
    assert_eq!(err, MathNodeError::Input(CallInputError::WrongArity { expected: 2, actual: 1 }));
}

#[test]
fn test_bitwise_not_wrong_arity_errors() {
    let err = BitwiseNot.call_flat(&[bit(&[1, 0]), bit(&[0, 1])]).unwrap_err();
    assert_eq!(err, MathNodeError::Input(CallInputError::WrongArity { expected: 1, actual: 2 }));
}

#[test]
fn test_bitwise_and_shape_mismatch_errors() {
    let err = BitwiseAnd.call_flat(&[bit(&[1, 0, 1]), bit(&[1, 0, 1, 1])]).unwrap_err();
    assert_eq!(err, MathNodeError::Tensor(TensorError::ShapeMismatch { lhs: vec![3], rhs: vec![4] }));
}

#[test]
fn bitwise_test_call_branch_where_leaf_expected_errors() {
    let mut tree = DataTree::new();
    tree.insert_leaf("x", bit(&[1, 0]));
    let err = BitwiseNot.call(&tree).unwrap_err();
    assert!(matches!(
        err,
        CallError::<MathNodeError>::Input(CallInputError::ExpectedLeaf { ref key }) if key.is_empty()
    ));
}

#[test]
fn test_bitwise_and_call_end_to_end() {
    let mut tree = DataTree::new();
    tree.insert_leaf("x", bit(&[1, 0, 1, 1]));
    tree.insert_leaf("y", bit(&[1, 1, 0, 1]));
    let result = BitwiseAnd.call(&tree).unwrap();
    let leaf = result.unwrap_leaf();
    assert_eq!(leaf.dtype(), DType::Bit);
    assert_eq!(leaf.words(), &[1, 0, 0, 1]);
}

#[test]
fn test_parity_axis_out_of_bounds_errors() {
    let err = Parity::new(1).call_flat(&[bit(&[1, 0, 1])]).unwrap_err();
    assert_eq!(err, MathNodeError::InvalidAxis { axis: 1, ndim: 1 });
}

#[test]
fn test_bitwise_and_resolve_types_flat_matches_call_flat() {
    let called = BitwiseAnd.call_flat(&[bit(&[1, 0, 1]), bit(&[1, 1, 0])]).unwrap();
    let resolved = BitwiseAnd
        .resolve_types_flat(&[concrete_bit(vec![Dim::Fixed(3)]), concrete_bit(vec![Dim::Fixed(3)])])
        .unwrap();
    assert_eq!(resolved.len(), 1);
    assert!(matches!(resolved[0].dtype, DTypeLike::Concrete(DType::Bit)));
    assert_eq!(resolved[0].shape, vec![Dim::Fixed(3)]);
    assert_eq!(called[0].shape(), &[3]);
}

#[test]
fn test_bitwise_and_resolve_types_flat_broadcasts() {
    let resolved = BitwiseAnd
        .resolve_types_flat(&[concrete_bit(vec![Dim::Fixed(3)]), concrete_bit(vec![Dim::Fixed(1)])])
        .unwrap();
    assert_eq!(resolved[0].shape, vec![Dim::Fixed(3)]);
}

#[test]
fn test_bitwise_and_resolve_types_flat_wrong_dtype_errors() {
    let err = BitwiseAnd
        .resolve_types_flat(&[
            TensorType { dtype: DTypeLike::Concrete(DType::F64), shape: vec![], broadcastable: true },
            concrete_bit(vec![]),
        ])
        .unwrap_err();
    assert_eq!(
        err,
        MathNodeError::Input(CallInputError::UnexpectedDType {
            key: "x".to_string(),
            expected: "Bit".to_string(),
            actual: DType::F64,
        })
    );
}

#[test]
fn test_bitwise_and_resolve_types_flat_incompatible_shapes_errors() {
    let err = BitwiseAnd
        .resolve_types_flat(&[concrete_bit(vec![Dim::Fixed(3)]), concrete_bit(vec![Dim::Fixed(4)])])
        .unwrap_err();
    assert!(matches!(err, MathNodeError::Tensor(_)));
}

#[test]
fn test_bitwise_and_resolve_types_flat_permits_symbolic_dtype() {
    // A symbolic (unresolved) dtype is not checked against `Bit` here; that validation is
    // deferred to `call_flat` once the dtype is concrete.
    let resolved = BitwiseAnd
        .resolve_types_flat(&[
            TensorType { dtype: DTypeLike::Var("x".into()), shape: vec![Dim::Fixed(3)], broadcastable: true },
            concrete_bit(vec![Dim::Fixed(3)]),
        ])
        .unwrap();
    assert!(matches!(resolved[0].dtype, DTypeLike::Concrete(DType::Bit)));
}

#[test]
fn test_bitwise_not_resolve_types_flat_passes_through() {
    let input = concrete_bit(vec![Dim::Fixed(4)]);
    let resolved = BitwiseNot.resolve_types_flat(std::slice::from_ref(&input)).unwrap();
    assert_eq!(resolved.len(), 1);
    assert!(matches!(resolved[0].dtype, DTypeLike::Concrete(DType::Bit)));
    assert_eq!(resolved[0].shape, input.shape);
    assert_eq!(resolved[0].broadcastable, input.broadcastable);
}

#[test]
fn test_bitwise_not_resolve_types_flat_wrong_dtype_errors() {
    let err = BitwiseNot
        .resolve_types_flat(&[TensorType { dtype: DTypeLike::Concrete(DType::F64), shape: vec![], broadcastable: true }])
        .unwrap_err();
    assert_eq!(
        err,
        MathNodeError::Input(CallInputError::UnexpectedDType {
            key: "".to_string(),
            expected: "Bit".to_string(),
            actual: DType::F64,
        })
    );
}

#[test]
fn test_parity_resolve_types_flat_removes_axis() {
    let called = Parity::new(0).call_flat(&[bit2(2, 3, &[1, 0, 1, 0, 1, 1])]).unwrap();
    let resolved = Parity::new(0)
        .resolve_types_flat(&[concrete_bit(vec![Dim::Fixed(2), Dim::Fixed(3)])])
        .unwrap();
    assert_eq!(resolved[0].shape, vec![Dim::Fixed(3)]);
    assert_eq!(called[0].shape(), &[3]);
    assert_eq!(called[0].words(), &[1, 1, 0]);
}

#[test]
fn test_parity_resolve_types_flat_axis_out_of_bounds_errors() {
    let err = Parity::new(1).resolve_types_flat(&[concrete_bit(vec![Dim::Fixed(3)])]).unwrap_err();
    assert_eq!(err, MathNodeError::InvalidAxis { axis: 1, ndim: 1 });
}

#[test]
fn bitwise_and_broadcasts_a_row_against_a_column() {
    // [[1], [0]] & [1, 0, 1] -> [[1, 0, 1], [0, 0, 0]]
    let column = Tensor::new(DType::Bit, vec![2, 1], vec![1, 0]).unwrap();
    let row = bit(&[1, 0, 1]);
    let result = BitwiseAnd.call_flat(&[column, row]).unwrap();
    assert_eq!(result[0].shape(), &[2, 3]);
    assert_eq!(result[0].words(), &[1, 0, 1, 0, 0, 0]);
}

#[test]
fn parity_along_the_last_axis() {
    let x = bit2(2, 3, &[1, 1, 1, 0, 1, 1]);
    let result = Parity::new(1).call_flat(&[x]).unwrap();
    assert_eq!(result[0].shape(), &[2]);
    assert_eq!(result[0].words(), &[1, 0]);
}

#[test]
fn resolving_named_dims_broadcasts_by_name() {
    let named = |n: &str| Dim::Named(n.to_string());
    let resolved = BitwiseXor
        .resolve_types_flat(&[concrete_bit(vec![named("n"), Dim::Fixed(1)]), concrete_bit(vec![Dim::Fixed(4)])])
        .unwrap();
    assert_eq!(resolved[0].shape, vec![named("n"), Dim::Fixed(4)]);
    let err = BitwiseOr
        .resolve_types_flat(&[concrete_bit(vec![named("n")]), concrete_bit(vec![named("m")])])
        .unwrap_err();
    assert_eq!(
        err,
        MathNodeError::Tensor(TensorError::IncompatibleDims { lhs: vec![named("n")], rhs: vec![named("m")] })
    );
}

#[test]
fn names_and_namespaces() {
    assert_eq!(BitwiseAnd.full_name(), "qiskit.bitwise_and");
    assert_eq!(BitwiseOr.name(), "bitwise_or");
    assert_eq!(BitwiseXor.name(), "bitwise_xor");
    assert_eq!(BitwiseNot.full_name(), "qiskit.bitwise_not");
    assert_eq!(Parity::new(2).full_name(), "qiskit.parity");
    assert!(BitwiseAnd.implements_call());
    assert!(BitwiseAnd.input_types().dotted_paths() == vec!["x".to_string(), "y".to_string()]);
}

#[test]
fn a_tensor_must_hold_one_word_per_position() {
    assert!(Tensor::new(DType::Bit, vec![2, 2], vec![1, 0, 1]).is_none());
    assert!(Tensor::new(DType::Bit, vec![2, 0], vec![]).is_some());
    assert!(Tensor::new(DType::Bit, vec![], vec![1]).is_some());
}

#[test]
fn an_error_of_the_flat_action_comes_back_as_a_call_error() {
    let mut tree = DataTree::new();
    tree.insert_leaf("x", bit(&[1, 0, 1]));
    tree.insert_leaf("y", bit(&[1, 0, 1, 1]));
    let err = BitwiseAnd.call(&tree).unwrap_err();
    assert!(matches!(
        err,
        CallError::Call(MathNodeError::Tensor(TensorError::ShapeMismatch { ref lhs, ref rhs }))
            if lhs == &vec![3] && rhs == &vec![4]
    ));
}

#[test]
fn resolving_a_tree_shapes_the_flat_resolution() {
    let mut tree = DataTree::new();
    tree.insert_leaf("x", concrete_bit(vec![Dim::Fixed(2), Dim::Fixed(1)]));
    tree.insert_leaf("y", concrete_bit(vec![Dim::Fixed(3)]));
    let flat = BitwiseXor.resolve_types_flat(&[
        concrete_bit(vec![Dim::Fixed(2), Dim::Fixed(1)]),
        concrete_bit(vec![Dim::Fixed(3)]),
    ])
    .unwrap();
    let shaped = BitwiseXor.resolve_types(&tree).unwrap();
    assert_eq!(shaped.unwrap_leaf().shape, flat[0].shape);
    assert_eq!(flat[0].shape, vec![Dim::Fixed(2), Dim::Fixed(3)]);
}

#[test]
fn a_column_and_a_row_broadcast_to_a_grid() {
    // [[1],[0]] ^ [1, 0, 1] -> [[0, 1, 0], [1, 0, 1]]
    let column = bit2(2, 1, &[1, 0]);
    let row = bit(&[1, 0, 1]);
    let result = BitwiseXor.call_flat(&[column, row]).unwrap();
    assert_eq!(result[0].shape(), &[2, 3]);
    assert_eq!(result[0].words(), &[0, 1, 0, 1, 0, 1]);
    let result = BitwiseOr.call_flat(&[bit2(2, 1, &[1, 0]), bit(&[1, 0, 0])]).unwrap();
    assert_eq!(result[0].words(), &[1, 1, 1, 1, 0, 0]);
}

#[test]
fn parity_along_the_last_axis_folds_each_row() {
    // [[1,0,1],[0,1,1]] axis 1 -> [0, 0]; [[1,1,1],[0,0,1]] -> [1, 1]
    let result = Parity::new(1).call_flat(&[bit2(2, 3, &[1, 0, 1, 0, 1, 1])]).unwrap();
    assert_eq!(result[0].shape(), &[2]);
    assert_eq!(result[0].words(), &[0, 0]);
    let result = Parity::new(1).call_flat(&[bit2(2, 3, &[1, 1, 1, 0, 0, 1])]).unwrap();
    assert_eq!(result[0].words(), &[1, 1]);
}

#[test]
fn parity_over_an_empty_axis_is_zero() {
    let x = Tensor::new(DType::Bit, vec![2, 0], vec![]).unwrap();
    let result = Parity::new(1).call_flat(&[x]).unwrap();
    assert_eq!(result[0].shape(), &[2]);
    assert_eq!(result[0].words(), &[0, 0]);
}
