use qiskit_providers::nodes::bind_parameters::{BindParameters, BindParametersError};
use qiskit_providers::parameter_expressions::{ParameterExpression, Symbol};
use qiskit_providers::tensor::{DType, DTypeLike, Dim, TensorType};

/// A standalone symbol named `name`.
fn symbol(name: &str) -> Symbol {
    Symbol::standalone(name.to_string())
}

/// The expression `symbol`, as an expression rather than a symbol.
fn expr(symbol: &Symbol) -> ParameterExpression {
    ParameterExpression::from_symbol(symbol.clone())
}

/// An expression combining `symbols`, such as `x + y`.
fn combination(symbols: &[&Symbol]) -> ParameterExpression {
    ParameterExpression { symbols: symbols.iter().map(|s| (*s).clone()).collect() }
}

/// A `TensorType` of `dtype` over fixed axes `shape`.
fn ty(dtype: DType, shape: &[usize]) -> TensorType {
    TensorType {
        dtype: DTypeLike::Concrete(dtype),
        shape: shape.iter().copied().map(Dim::Fixed).collect(),
        broadcastable: false,
    }
}

#[test]
fn test_bind_parameters_full_name_and_arity() {
    let x = symbol("x");
    let node = BindParameters::new(vec![expr(&x)], vec![x.clone()]).unwrap();
    assert_eq!(node.full_name(), "qiskit.bind_parameters");
    assert_eq!(node.arity(), 1);
    assert!(node.has_builtin_eval(), "Qiskit evaluates expressions");
    assert_eq!(node.expressions(), [expr(&x)]);
    assert_eq!(node.parameters(), [x]);
}

#[test]
fn test_infer_output_types_gives_one_value_per_expression() {
    let (x, y) = (symbol("x"), symbol("y"));
    let node = BindParameters::new(vec![combination(&[&x, &y]), expr(&x), expr(&y)], vec![x, y]).unwrap();
    assert_eq!(
        node.infer_output_types(&[ty(DType::F64, &[2])]).unwrap(),
        vec![ty(DType::F64, &[3])],
        "two parameters in, three expressions out"
    );
}

#[test]
fn test_infer_output_types_carries_the_batch_prefix() {
    let x = symbol("x");
    let node = BindParameters::new(vec![expr(&x), expr(&x)], vec![x]).unwrap();
    assert_eq!(
        node.infer_output_types(&[ty(DType::F32, &[5, 3, 1])]).unwrap(),
        vec![ty(DType::F64, &[5, 3, 2])]
    );
}

#[test]
fn test_infer_output_types_rejects_values_that_are_not_the_declared_parameters() {
    let x = symbol("x");
    let node = BindParameters::new(vec![expr(&x)], vec![x, symbol("y")]).unwrap();
    assert_eq!(
        node.infer_output_types(&[ty(DType::F64, &[3])]).unwrap_err().to_string(),
        "expected a floating-point tensor of shape [..., 2], got F64[3]"
    );
    for operand in [ty(DType::I64, &[2]), ty(DType::Bit, &[2])] {
        assert_eq!(
            node.infer_output_types(std::slice::from_ref(&operand)).unwrap_err(),
            BindParametersError::ValueType { parameters: 2, actual: operand }
        );
    }
}

#[test]
fn test_an_expression_may_not_reference_an_undeclared_parameter() {
    let (x, y) = (symbol("x"), symbol("y"));
    let Err(err) = BindParameters::new(vec![expr(&x), expr(&y)], vec![x]) else {
        panic!("y has no value to be evaluated at")
    };
    assert_eq!(err, BindParametersError::UndeclaredParameter { expression: 1, parameter: y });
    assert_eq!(
        err.to_string(),
        "expression 1 references undeclared parameter y",
        "the parameter that has no value is named"
    );
}

#[test]
fn test_surplus_declared_parameters_are_ignored() {
    let (x, y, z) = (symbol("x"), symbol("y"), symbol("z"));
    let node = BindParameters::new(vec![expr(&y)], vec![x, y, z]).unwrap();
    assert_eq!(node.infer_output_types(&[ty(DType::F64, &[3])]).unwrap(), vec![ty(DType::F64, &[1])]);
}

#[test]
fn test_eval_over_an_empty_batch_and_over_no_parameters() {
    let constant = BindParameters::new(vec![ParameterExpression { symbols: vec![] }], vec![]).unwrap();
    assert_eq!(
        constant.infer_output_types(&[ty(DType::F64, &[2, 0])]).unwrap(),
        vec![ty(DType::F64, &[2, 1])]
    );
}

#[test]
fn bind_parameters_keeps_the_batch_and_the_broadcast_flag() {
    let x = symbol("x");
    let node = BindParameters::new(vec![expr(&x)], vec![x]).unwrap();
    let operand = TensorType {
        dtype: DTypeLike::Concrete(DType::F64),
        shape: vec![Dim::Named("batch".to_string()), Dim::Fixed(1)],
        broadcastable: true,
    };
    assert_eq!(
        node.infer_output_types(&[operand]).unwrap(),
        vec![TensorType {
            dtype: DTypeLike::Concrete(DType::F64),
            shape: vec![Dim::Named("batch".to_string()), Dim::Fixed(1)],
            broadcastable: true,
        }]
    );
}

#[test]
fn bind_parameters_refuses_a_named_or_missing_parameter_axis() {
    let x = symbol("x");
    let node = BindParameters::new(vec![expr(&x)], vec![x]).unwrap();
    let named = TensorType {
        dtype: DTypeLike::Concrete(DType::F64),
        shape: vec![Dim::Named("n".to_string())],
        broadcastable: false,
    };
    assert!(matches!(
        node.infer_output_types(&[named]),
        Err(BindParametersError::ValueType { parameters: 1, .. })
    ));
    assert!(matches!(
        node.infer_output_types(&[ty(DType::F64, &[])]),
        Err(BindParametersError::ValueType { parameters: 1, .. })
    ));
    let variable = TensorType { dtype: DTypeLike::Var("T".to_string()), shape: vec![Dim::Fixed(1)], broadcastable: false };
    assert_eq!(
        node.infer_output_types(&[variable]).unwrap_err().to_string(),
        "expected a floating-point tensor of shape [..., 1], got T[1]"
    );
}

#[test]
fn bind_parameters_names_the_first_undeclared_reference() {
    let (x, y, z) = (symbol("x"), symbol("y"), symbol("z"));
    let Err(err) = BindParameters::new(vec![expr(&x), combination(&[&x, &z, &y]), expr(&y)], vec![x]) else {
        panic!("z and y are undeclared")
    };
    assert_eq!(err, BindParametersError::UndeclaredParameter { expression: 1, parameter: z });
    assert_eq!(BindParametersError::NotReal { expression: 3 }.to_string(), "expression 3 did not evaluate to a real number");
}
