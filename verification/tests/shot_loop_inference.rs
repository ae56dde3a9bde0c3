use qiskit_providers::shot_loop::{
    CircuitData, ClassicalRegister, InferShotLoopError, ShotLoopError, count_mismatch_message, infer_shot_loop,
};
use qiskit_providers::tensor::{DType, DTypeLike, Dim, TensorType};

fn f64_params(shape: Vec<Dim>) -> TensorType {
    TensorType { dtype: DTypeLike::Concrete(DType::F64), shape, broadcastable: true }
}

fn bits(shape: &[usize]) -> TensorType {
    TensorType {
        dtype: DTypeLike::Concrete(DType::Bit),
        shape: shape.iter().copied().map(Dim::Fixed).collect(),
        broadcastable: true,
    }
}

#[test]
fn infer_shot_loop_groups_register_types_by_circuit() {
    let circuits = vec![
        CircuitData { num_parameters: 2, cregs: vec![ClassicalRegister::new("c", 3), ClassicalRegister::new("d", 1)] },
        CircuitData { num_parameters: 0, cregs: vec![] },
        CircuitData { num_parameters: 1, cregs: vec![ClassicalRegister::new("m", 5)] },
    ];
    let params = [
        f64_params(vec![Dim::Fixed(4), Dim::Fixed(2)]),
        f64_params(vec![Dim::Fixed(0)]),
        f64_params(vec![Dim::Fixed(1)]),
    ];
    let groups = infer_shot_loop(circuits, 100, &params).unwrap();
    assert_eq!(
        groups,
        vec![
            vec![("c".to_string(), bits(&[4, 100, 3])), ("d".to_string(), bits(&[4, 100, 1]))],
            vec![],
            vec![("m".to_string(), bits(&[100, 5]))],
        ]
    );
}

#[test]
fn infer_shot_loop_refuses_a_count_mismatch() {
    let circuits = vec![CircuitData { num_parameters: 0, cregs: vec![] }];
    let err = infer_shot_loop(circuits, 10, &[]).unwrap_err();
    assert_eq!(err, InferShotLoopError::CountMismatch { circuits: 1, specs: 0 });
    assert_eq!(count_mismatch_message(1, 0), "shot_loop got 1 circuit(s) but 0 params spec(s); these must match");
}

#[test]
fn infer_shot_loop_passes_on_a_refused_params_type() {
    let circuits = vec![
        CircuitData { num_parameters: 0, cregs: vec![ClassicalRegister::new("c", 1)] },
        CircuitData { num_parameters: 3, cregs: vec![ClassicalRegister::new("c", 1)] },
    ];
    let params = [f64_params(vec![Dim::Fixed(0)]), f64_params(vec![Dim::Fixed(2)])];
    let err = infer_shot_loop(circuits, 10, &params).unwrap_err();
    assert_eq!(
        err,
        InferShotLoopError::ShotLoop(ShotLoopError::WrongParamShape { circuit: 1, shape: vec![Dim::Fixed(2)], expected: 3 })
    );
}

#[test]
fn infer_shot_loop_keeps_a_named_batch_axis() {
    let circuits = vec![CircuitData { num_parameters: 1, cregs: vec![ClassicalRegister::new("r", 2)] }];
    let params = [f64_params(vec![Dim::Named("batch".to_string()), Dim::Fixed(1)])];
    let groups = infer_shot_loop(circuits, 8, &params).unwrap();
    assert_eq!(groups.len(), 1);
    assert_eq!(groups[0][0].0, "r");
    assert_eq!(
        groups[0][0].1.shape,
        vec![Dim::Named("batch".to_string()), Dim::Fixed(8), Dim::Fixed(2)]
    );
}
