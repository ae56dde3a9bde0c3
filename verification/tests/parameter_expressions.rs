use qiskit_providers::data_tree::DataTree;
use qiskit_providers::parameter_expressions::{
    ParameterExpression, ParameterExpressions, ParameterExpressionsBuildError, ParameterExpressionsError, Symbol,
};
use qiskit_providers::tensor::{DType, DTypeLike, Dim, TensorType};

/// A fresh standalone parameter, and the expression that is just that parameter.
fn param(name: &str) -> (Symbol, ParameterExpression) {
    (Symbol::standalone(name.to_string()), ParameterExpression::from_symbol(Symbol::standalone(name.to_string())))
}

/// An expression referencing each of `names`, such as `a + b`.
fn combination(names: &[&str]) -> ParameterExpression {
    ParameterExpression { symbols: names.iter().map(|n| Symbol::standalone(n.to_string())).collect() }
}

fn node(expressions: Vec<ParameterExpression>, parameters: Vec<Symbol>) -> ParameterExpressions {
    ParameterExpressions::new(expressions, parameters).unwrap()
}

fn f64_type(shape: Vec<Dim>) -> TensorType {
    TensorType { dtype: DTypeLike::Concrete(DType::F64), shape, broadcastable: true }
}

#[test]
fn test_undeclared_parameter_errors() {
    let (a_param, a) = param("a");
    let (_, b) = param("b");
    let Err(err) = ParameterExpressions::new(vec![a, b], vec![a_param]) else {
        panic!("expected an undeclared-parameter error");
    };
    assert!(matches!(
        err,
        ParameterExpressionsBuildError::UndeclaredParameter { index: 1, ref name } if name == "b"
    ));
}

#[test]
fn test_duplicate_parameter_errors() {
    let (_, a) = param("a");
    let Err(err) = ParameterExpressions::new(vec![a], vec![Symbol::standalone("a".to_string()), Symbol::standalone("a".to_string())])
    else {
        panic!("expected a duplicate-parameter error");
    };
    assert!(matches!(err, ParameterExpressionsBuildError::DuplicateParameter { ref name } if name == "a"));
}

#[test]
fn test_input_output_types_shape() {
    let (a_param, a) = param("a");
    let (b_param, b) = param("b");
    let node = node(vec![a, b, combination(&["a", "b"])], vec![a_param, b_param]);

    let DataTree::Leaf(input_ty) = node.input_types() else {
        panic!("expected a leaf input type");
    };
    assert!(matches!(input_ty.dtype, DTypeLike::Concrete(DType::F64)));
    assert_eq!(input_ty.shape, vec![Dim::Fixed(2)]);

    let DataTree::Leaf(output_ty) = node.output_types() else {
        panic!("expected a leaf output type");
    };
    assert_eq!(output_ty.shape, vec![Dim::Fixed(3)]);
}

#[test]
fn test_no_expressions_has_empty_types() {
    let node = node(vec![], vec![]);
    assert_eq!(node.num_parameters(), 0);
    assert_eq!(node.num_expressions(), 0);
    let DataTree::Leaf(input_ty) = node.input_types() else {
        panic!("expected a leaf input type");
    };
    assert_eq!(input_ty.shape, vec![Dim::Fixed(0)]);
}

#[test]
fn declared_parameters_keep_their_order() {
    let (a_param, a) = param("a");
    let (b_param, b) = param("b");
    let node = node(vec![a, b], vec![b_param, a_param]);
    assert_eq!(node.num_parameters(), 2);
    assert_eq!(node.num_expressions(), 2);
    let names: Vec<&str> = node.parameters().iter().map(|s| s.name()).collect();
    assert_eq!(names, vec!["b", "a"]);
}

#[test]
fn extra_declared_parameters_are_allowed() {
    let (a_param, _) = param("a");
    let (b_param, b) = param("b");
    let (c_param, _) = param("c");
    let node = node(vec![b], vec![a_param, b_param, c_param]);
    assert_eq!(node.num_parameters(), 3);
}

#[test]
fn a_repeat_is_reported_before_an_undeclared_reference() {
    let (_, z) = param("z");
    let Err(err) = ParameterExpressions::new(vec![z], vec![Symbol::standalone("a".to_string()), Symbol::standalone("a".to_string())])
    else {
        panic!("expected an error");
    };
    assert_eq!(err, ParameterExpressionsBuildError::DuplicateParameter { name: "a".to_string() });
}

#[test]
fn parameter_expressions_test_resolve_types_flat_unbatched() {
    let (a_param, a) = param("a");
    let (b_param, b) = param("b");
    let node = node(vec![a, b], vec![a_param, b_param]);
    let resolved = node.resolve_types_flat(&[f64_type(vec![Dim::Fixed(2)])]).unwrap();
    assert_eq!(resolved[0].shape, vec![Dim::Fixed(2)]);
}

#[test]
fn test_resolve_types_flat_batch_prefix() {
    let (a_param, a) = param("a");
    let node = node(vec![a], vec![a_param]);
    let resolved = node
        .resolve_types_flat(&[f64_type(vec![Dim::Fixed(10), Dim::Fixed(20), Dim::Fixed(1)])])
        .unwrap();
    assert_eq!(resolved[0].shape, vec![Dim::Fixed(10), Dim::Fixed(20), Dim::Fixed(1)]);
}

#[test]
fn parameter_expressions_test_resolve_types_flat_named_trailing_dim_accepted() {
    let (a_param, a) = param("a");
    let (b_param, b) = param("b");
    let node = node(vec![a, b], vec![a_param, b_param]);
    let resolved = node.resolve_types_flat(&[f64_type(vec![Dim::Fixed(5), Dim::Named("n".into())])]).unwrap();
    assert_eq!(resolved[0].shape, vec![Dim::Fixed(5), Dim::Fixed(2)]);
}

#[test]
fn parameter_expressions_test_resolve_types_flat_wrong_trailing_dim_errors() {
    let (a_param, a) = param("a");
    let (b_param, b) = param("b");
    let node = node(vec![a, b], vec![a_param, b_param]);
    let err = node.resolve_types_flat(&[f64_type(vec![Dim::Fixed(3)])]).unwrap_err();
    assert!(matches!(err, ParameterExpressionsError::WrongShape { expected: 2, .. }));
}

#[test]
fn parameter_expressions_test_resolve_types_flat_wrong_dtype_errors() {
    let (a_param, a) = param("a");
    let node = node(vec![a], vec![a_param]);
    let bit_type = TensorType { dtype: DTypeLike::Concrete(DType::Bit), shape: vec![Dim::Fixed(1)], broadcastable: true };
    let err = node.resolve_types_flat(&[bit_type]).unwrap_err();
    assert!(matches!(err, ParameterExpressionsError::WrongDType { .. }));
}

#[test]
fn parameter_expressions_test_resolve_types_flat_empty_shape_errors() {
    let (a_param, a) = param("a");
    let node = node(vec![a], vec![a_param]);
    let err = node.resolve_types_flat(&[f64_type(vec![])]).unwrap_err();
    assert!(matches!(err, ParameterExpressionsError::EmptyShape));
}

#[test]
fn resolving_two_types_is_an_arity_error() {
    let (a_param, a) = param("a");
    let node = node(vec![a], vec![a_param]);
    let err = node.resolve_types_flat(&[f64_type(vec![Dim::Fixed(1)]), f64_type(vec![Dim::Fixed(1)])]).unwrap_err();
    assert!(matches!(
        err,
        ParameterExpressionsError::Input(qiskit_providers::program_node::CallInputError::WrongArity { expected: 1, actual: 2 })
    ));
}

#[test]
fn parameter_expressions_test_name_and_namespace() {
    let node = node(vec![], vec![]);
    assert_eq!(node.name(), "parameter_expressions");
    assert_eq!(node.namespace(), "qiskit");
    assert_eq!(node.full_name(), "qiskit.parameter_expressions");
}

#[test]
fn test_declared_parameter_order_is_respected() {
    // Declaring [b, a] means the input's first column is b and its second is a.
    let (a_param, a) = param("a");
    let (b_param, b) = param("b");
    let node = node(vec![a, b], vec![b_param, a_param]);
    assert_eq!(node.num_parameters(), 2);
    assert_eq!(node.num_expressions(), 2);
    let names: Vec<&str> = node.parameters().iter().map(|s| s.name()).collect();
    assert_eq!(names, vec!["b", "a"]);
}

#[test]
fn test_superset_parameters_allowed() {
    // Declaring parameters the expression doesn't reference is fine.
    let (a_param, _) = param("a");
    let (b_param, b) = param("b");
    let (c_param, _) = param("c");
    let node = node(vec![b], vec![a_param, b_param, c_param]);
    assert_eq!(node.num_parameters(), 3);
}

#[test]
fn resolve_types_flat_names_an_integer_dtype_it_refuses() {
    let (a_param, a) = param("a");
    let node = node(vec![a], vec![a_param]);
    let i32_type = TensorType { dtype: DTypeLike::Concrete(DType::I32), shape: vec![Dim::Fixed(1)], broadcastable: true };
    assert_eq!(
        node.resolve_types_flat(&[i32_type]).unwrap_err(),
        ParameterExpressionsError::WrongDType { dtype: DTypeLike::Concrete(DType::I32) }
    );
}
