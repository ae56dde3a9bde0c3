use qiskit_providers::data_tree::DataTree;
use qiskit_providers::program_node::{MissingCallError, ProgramNode};
use qiskit_providers::shot_loop::{CircuitData, ClassicalRegister, ShotLoop, ShotLoopError};
use qiskit_providers::tensor::{DType, DTypeLike, Dim, TensorType};

/// A circuit with the given classical registers and no free parameters.
fn circuit_with_cregs(cregs: Vec<ClassicalRegister>) -> CircuitData {
    CircuitData { num_parameters: 0, cregs }
}

/// A circuit with `num_params` free parameters and the given classical registers.
fn circuit_with_params(num_params: usize, cregs: Vec<ClassicalRegister>) -> CircuitData {
    CircuitData { num_parameters: num_params, cregs }
}

fn children<T>(tree: &DataTree<T>) -> &Vec<(Option<String>, DataTree<T>)> {
    match tree {
        DataTree::Branch(children) => children,
        DataTree::Leaf(_) => panic!("expected a branch"),
    }
}

fn len<T>(tree: &DataTree<T>) -> usize {
    children(tree).len()
}

fn get<T>(tree: &DataTree<T>, i: usize) -> Option<&DataTree<T>> {
    children(tree).get(i).map(|(_, child)| child)
}

fn get_by_str_key<'a, T>(tree: &'a DataTree<T>, key: &str) -> Option<&'a DataTree<T>> {
    children(tree).iter().find(|(k, _)| k.as_deref() == Some(key)).map(|(_, child)| child)
}

#[test]
fn shot_loop_test_name_and_namespace() {
    let sl = ShotLoop::new(vec![], 100);
    assert_eq!(sl.name(), "shot_loop");
    assert_eq!(sl.namespace(), "qiskit");
    assert_eq!(sl.full_name(), "qiskit.shot_loop");
}

#[test]
fn test_does_not_implement_call() {
    let sl = ShotLoop::new(vec![], 100);
    assert!(!sl.implements_call());
}

#[test]
fn test_call_returns_missing_call_error() {
    let sl = ShotLoop::new(vec![], 100);
    let err = sl.call_flat(&[]).unwrap_err();
    assert!(matches!(
        err,
        ShotLoopError::MissingCall(ref e) if *e == MissingCallError::new("qiskit.shot_loop".to_string())
    ));
}

#[test]
fn test_empty_input_and_output_types() {
    let sl = ShotLoop::new(vec![], 100);
    assert!(sl.input_types().is_empty());
    assert!(sl.output_types().is_empty());
}

#[test]
fn test_input_types_shape_zero_params() {
    let sl = ShotLoop::new(vec![circuit_with_cregs(vec![])], 100);
    let inputs = sl.input_types();
    assert_eq!(len(&inputs), 1);
    let DataTree::Leaf(tt) = get(&inputs, 0).unwrap() else {
        panic!("expected a leaf for circuit 0's parameters");
    };
    assert!(matches!(tt.dtype, DTypeLike::Concrete(DType::F64)));
    assert_eq!(tt.shape, vec![Dim::Fixed(0)]);
    assert!(tt.broadcastable);
}

#[test]
fn test_output_types_register_layout() {
    let circuit = circuit_with_cregs(vec![ClassicalRegister::new("c", 3), ClassicalRegister::new("meas", 5)]);
    let sl = ShotLoop::new(vec![circuit], 1024);

    let outputs = sl.output_types();
    assert_eq!(len(&outputs), 1);
    let circ_branch = get(&outputs, 0).unwrap();

    let DataTree::Leaf(c_tt) = get_by_str_key(circ_branch, "c").unwrap() else {
        panic!("expected a leaf at register 'c'");
    };
    assert!(matches!(c_tt.dtype, DTypeLike::Concrete(DType::Bit)));
    assert_eq!(c_tt.shape, vec![Dim::Fixed(1024), Dim::Fixed(3)]);
    assert!(c_tt.broadcastable);

    let DataTree::Leaf(meas_tt) = get_by_str_key(circ_branch, "meas").unwrap() else {
        panic!("expected a leaf at register 'meas'");
    };
    assert!(matches!(meas_tt.dtype, DTypeLike::Concrete(DType::Bit)));
    assert_eq!(meas_tt.shape, vec![Dim::Fixed(1024), Dim::Fixed(5)]);
    assert!(meas_tt.broadcastable);
}

#[test]
fn test_multiple_circuits() {
    let sl = ShotLoop::new(
        vec![
            circuit_with_cregs(vec![ClassicalRegister::new("c", 2)]),
            circuit_with_cregs(vec![ClassicalRegister::new("d", 4)]),
        ],
        42,
    );
    let inputs = sl.input_types();
    let outputs = sl.output_types();
    assert_eq!(len(&inputs), 2);
    assert_eq!(len(&outputs), 2);

    for i in 0..2 {
        assert!(matches!(get(&inputs, i).unwrap(), DataTree::Leaf(_)));
    }

    let DataTree::Leaf(tt0) = get_by_str_key(get(&outputs, 0).unwrap(), "c").unwrap() else {
        panic!("expected leaf at 0.c");
    };
    assert_eq!(tt0.shape, vec![Dim::Fixed(42), Dim::Fixed(2)]);

    let DataTree::Leaf(tt1) = get_by_str_key(get(&outputs, 1).unwrap(), "d").unwrap() else {
        panic!("expected leaf at 1.d");
    };
    assert_eq!(tt1.shape, vec![Dim::Fixed(42), Dim::Fixed(4)]);
}

#[test]
fn test_accessors() {
    let circuit = circuit_with_cregs(vec![ClassicalRegister::new("c", 1)]);
    let sl = ShotLoop::new(vec![circuit], 7);
    assert_eq!(sl.shots(), 7);
    assert_eq!(sl.circuits().len(), 1);
    assert_eq!(sl.circuits()[0].cregs().len(), 1);
}

fn f64_params(shape: Vec<Dim>) -> TensorType {
    TensorType { dtype: DTypeLike::Concrete(DType::F64), shape, broadcastable: true }
}

#[test]
fn shot_loop_test_resolve_types_flat_unbatched() {
    let circuit = circuit_with_params(1, vec![ClassicalRegister::new("meas", 2)]);
    let sl = ShotLoop::new(vec![circuit], 4000);

    let resolved = sl.resolve_types_flat(&[f64_params(vec![Dim::Fixed(1)])]).unwrap();
    assert_eq!(resolved.len(), 1);
    assert!(matches!(resolved[0].dtype, DTypeLike::Concrete(DType::Bit)));
    assert_eq!(resolved[0].shape, vec![Dim::Fixed(4000), Dim::Fixed(2)]);
    assert!(resolved[0].broadcastable);
}

#[test]
fn test_resolve_types_flat_single_batch_dim() {
    let circuit = circuit_with_params(1, vec![ClassicalRegister::new("meas", 2)]);
    let sl = ShotLoop::new(vec![circuit], 4000);

    let resolved = sl.resolve_types_flat(&[f64_params(vec![Dim::Fixed(10), Dim::Fixed(1)])]).unwrap();
    assert_eq!(resolved[0].shape, vec![Dim::Fixed(10), Dim::Fixed(4000), Dim::Fixed(2)]);
}

#[test]
fn test_resolve_types_flat_multi_batch_dim() {
    let circuit = circuit_with_params(1, vec![ClassicalRegister::new("meas", 2)]);
    let sl = ShotLoop::new(vec![circuit], 4000);

    let resolved = sl
        .resolve_types_flat(&[f64_params(vec![Dim::Fixed(10), Dim::Fixed(20), Dim::Fixed(30), Dim::Fixed(1)])])
        .unwrap();
    assert_eq!(
        resolved[0].shape,
        vec![Dim::Fixed(10), Dim::Fixed(20), Dim::Fixed(30), Dim::Fixed(4000), Dim::Fixed(2)]
    );
}

#[test]
fn shot_loop_test_resolve_types_flat_wrong_trailing_dim_errors() {
    let circuit = circuit_with_params(1, vec![]);
    let sl = ShotLoop::new(vec![circuit], 10);

    let err = sl.resolve_types_flat(&[f64_params(vec![Dim::Fixed(2)])]).unwrap_err();
    assert!(matches!(err, ShotLoopError::WrongParamShape { circuit: 0, expected: 1, .. }));
}

#[test]
fn test_resolve_types_flat_wrong_trailing_dim_with_batch_prefix_errors() {
    let circuit = circuit_with_params(1, vec![]);
    let sl = ShotLoop::new(vec![circuit], 10);

    let err = sl.resolve_types_flat(&[f64_params(vec![Dim::Fixed(10), Dim::Fixed(2)])]).unwrap_err();
    assert!(matches!(err, ShotLoopError::WrongParamShape { circuit: 0, expected: 1, .. }));
}

#[test]
fn shot_loop_test_resolve_types_flat_wrong_dtype_errors() {
    let circuit = circuit_with_params(1, vec![]);
    let sl = ShotLoop::new(vec![circuit], 10);

    let bit_params = TensorType { dtype: DTypeLike::Concrete(DType::Bit), shape: vec![Dim::Fixed(1)], broadcastable: true };
    let err = sl.resolve_types_flat(&[bit_params]).unwrap_err();
    assert!(matches!(err, ShotLoopError::WrongParamDType { circuit: 0, .. }));
}

#[test]
fn shot_loop_test_resolve_types_flat_empty_shape_errors() {
    let circuit = circuit_with_params(1, vec![]);
    let sl = ShotLoop::new(vec![circuit], 10);

    let err = sl.resolve_types_flat(&[f64_params(vec![])]).unwrap_err();
    assert!(matches!(err, ShotLoopError::EmptyParamShape { circuit: 0 }));
}

#[test]
fn shot_loop_test_resolve_types_flat_named_trailing_dim_accepted() {
    let circuit = circuit_with_params(3, vec![ClassicalRegister::new("meas", 2)]);
    let sl = ShotLoop::new(vec![circuit], 100);

    let resolved = sl
        .resolve_types_flat(&[f64_params(vec![Dim::Fixed(5), Dim::Named("n".into())])])
        .unwrap();
    assert_eq!(resolved[0].shape, vec![Dim::Fixed(5), Dim::Fixed(100), Dim::Fixed(2)]);
}

#[test]
fn test_resolve_types_flat_multiple_circuits_independent_batches() {
    let circuit0 = circuit_with_params(1, vec![ClassicalRegister::new("c", 2)]);
    let circuit1 = circuit_with_params(2, vec![ClassicalRegister::new("d", 4)]);
    let sl = ShotLoop::new(vec![circuit0, circuit1], 50);

    let resolved = sl
        .resolve_types_flat(&[f64_params(vec![Dim::Fixed(1)]), f64_params(vec![Dim::Fixed(7), Dim::Fixed(2)])])
        .unwrap();
    assert_eq!(resolved.len(), 2);
    assert_eq!(resolved[0].shape, vec![Dim::Fixed(50), Dim::Fixed(2)]);
    assert_eq!(resolved[1].shape, vec![Dim::Fixed(7), Dim::Fixed(50), Dim::Fixed(4)]);
}

#[test]
fn only_as_many_circuits_as_types_are_resolved() {
    let sl = ShotLoop::new(
        vec![
            circuit_with_params(1, vec![ClassicalRegister::new("c", 2)]),
            circuit_with_params(1, vec![ClassicalRegister::new("d", 3)]),
        ],
        8,
    );
    let resolved = sl.resolve_types_flat(&[f64_params(vec![Dim::Fixed(1)])]).unwrap();
    assert_eq!(resolved.len(), 1);
    assert_eq!(resolved[0].shape, vec![Dim::Fixed(8), Dim::Fixed(2)]);
}

#[test]
fn the_first_faulty_circuit_is_reported() {
    let sl = ShotLoop::new(vec![circuit_with_params(1, vec![]), circuit_with_params(2, vec![])], 8);
    let err = sl
        .resolve_types_flat(&[f64_params(vec![Dim::Fixed(1)]), f64_params(vec![Dim::Fixed(5)])])
        .unwrap_err();
    assert_eq!(err, ShotLoopError::WrongParamShape { circuit: 1, shape: vec![Dim::Fixed(5)], expected: 2 });
}
