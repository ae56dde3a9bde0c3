use qiskit_providers::data_tree::DataTree;
use qiskit_providers::input::Input;
use qiskit_providers::program_node::ProgramNode;
use qiskit_providers::tensor::{DType, DTypeLike, Dim, TensorType};

fn spec(shape: Vec<Dim>) -> TensorType {
    TensorType { dtype: DTypeLike::Concrete(DType::F64), shape, broadcastable: true }
}

#[test]
fn test_input_output_types_is_spec() {
    let node = Input::new(spec(vec![Dim::Fixed(3)]));
    let DataTree::Leaf(leaf) = node.output_types() else {
        panic!("expected a leaf output type");
    };
    assert!(matches!(leaf.dtype, DTypeLike::Concrete(DType::F64)));
    assert_eq!(leaf.shape, vec![Dim::Fixed(3)]);
}

#[test]
fn test_input_has_no_inputs() {
    let node = Input::new(spec(vec![]));
    assert!(node.input_types().is_empty());
}

#[test]
fn test_input_does_not_implement_call() {
    let node = Input::new(spec(vec![]));
    assert!(!node.implements_call());
    assert!(node.call_flat(&[]).is_err());
}

#[test]
fn test_input_default_resolve_types_flat_returns_spec() {
    let node = Input::new(spec(vec![Dim::Fixed(5)]));
    let resolved = node.resolve_types_flat(&[]).unwrap();
    assert_eq!(resolved.len(), 1);
    assert_eq!(resolved[0].shape, vec![Dim::Fixed(5)]);
}

#[test]
fn input_call_reports_its_full_name() {
    let node = Input::new(spec(vec![]));
    let err = node.call_flat(&[]).unwrap_err();
    assert_eq!(err.0, "qiskit.input");
    assert_eq!(node.full_name(), "qiskit.input");
}
