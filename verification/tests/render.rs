use qiskit_providers::data_tree::DataTree;
use qiskit_providers::program::function::{OpNodeType, ProgramFunction};
use qiskit_providers::program::QuantumProgram;
use qiskit_providers::render::{dot, listing};
use qiskit_providers::tensor::{DType, DTypeLike, Dim, TensorType};

const PAD: &str = "\u{2009}\u{2009}";

fn ty(dtype: DType, shape: &[usize]) -> TensorType {
    TensorType {
        dtype: DTypeLike::Concrete(dtype),
        shape: shape.iter().map(|&n| Dim::Fixed(n)).collect(),
        broadcastable: false,
    }
}

/// The type of a 1-D `F64` tensor of `len` elements.
fn f64_1d(len: usize) -> TensorType {
    ty(DType::F64, &[len])
}

/// A structure of `names`, one named leaf each.
fn named_branch(names: &[&str]) -> DataTree<()> {
    let mut tree = DataTree::new();
    for name in names {
        tree.insert_leaf(name, ());
    }
    tree
}

/// A structure of `count` unnamed leaves.
fn positional_branch(count: usize) -> DataTree<()> {
    let mut tree = DataTree::new();
    for _ in 0..count {
        tree.push_leaf(());
    }
    tree
}

/// `f(x) = (mean(x), mean(x) + 1.0)`, whose mean is shared by both results.
fn shared_mean() -> ProgramFunction {
    let mut function = ProgramFunction::new();
    let x = function.add_parameter(f64_1d(3));
    let mean = function.add_node(OpNodeType::new("qiskit", "mean", Some("axis=0")), &[x], vec![ty(DType::F64, &[])]).unwrap()[0];
    let one = function.add_node(OpNodeType::new("qiskit", "constant", None), &[], vec![f64_1d(1)]).unwrap()[0];
    let shifted = function.add_node(OpNodeType::new("qiskit", "add", None), &[mean, one], vec![f64_1d(1)]).unwrap()[0];
    function.add_result(mean).unwrap();
    function.add_result(shifted).unwrap();
    function
}

/// A shot loop over one circuit of two registers, reading a parameter-free operand.
fn shot_loop() -> ProgramFunction {
    let mut function = ProgramFunction::new();
    let values = function.add_node(OpNodeType::new("qiskit", "constant", None), &[], vec![f64_1d(0)]).unwrap();
    let outcomes = function
        .add_node(
            OpNodeType::new("qiskit", "shot_loop", Some("circuits=1, shots=100")),
            &values,
            vec![ty(DType::Bit, &[100, 2]), ty(DType::Bit, &[100, 3])],
        )
        .unwrap();
    let mean = function.add_node(OpNodeType::new("qiskit", "mean", Some("axis=0")), &[outcomes[1]], vec![f64_1d(3)]).unwrap()[0];
    function.add_result(mean).unwrap();
    function
}

/// `f(x) = x`, and a caller of it, as the two functions of one program.
fn call() -> QuantumProgram {
    let mut callee = ProgramFunction::new();
    let x = callee.add_parameter(f64_1d(3));
    callee.add_result(x).unwrap();

    let mut entry = ProgramFunction::new();
    let x = entry.add_parameter(f64_1d(3));
    let called = entry.add_call(0, &callee.signature(), &[x]).unwrap()[0];
    entry.add_result(called).unwrap();

    QuantumProgram::new(vec![callee, entry], named_branch(&["x"]), named_branch(&["mean"])).unwrap()
}

#[test]
fn a_listing_writes_each_node_once() {
    let program = QuantumProgram::new(vec![shared_mean()], named_branch(&["x"]), named_branch(&["mean", "shifted"])).unwrap();

    assert_eq!(
        listing(&program),
        "\
@0: // entry point
  %0: F64[3] = qiskit.parameter x
  %1: F64[] = qiskit.mean[axis=0](%0)
  %2: F64[1] = qiskit.constant
  %3: F64[1] = qiskit.add(%1, %2)
  results:
    mean = %1
    shifted = %3"
    );
}

#[test]
fn a_listing_addresses_an_unnamed_slot_by_position() {
    let program = QuantumProgram::new(vec![shared_mean()], positional_branch(1), positional_branch(2)).unwrap();

    assert_eq!(
        listing(&program),
        "\
@0: // entry point
  %0: F64[3] = qiskit.parameter 0
  %1: F64[] = qiskit.mean[axis=0](%0)
  %2: F64[1] = qiskit.constant
  %3: F64[1] = qiskit.add(%1, %2)
  results:
    0 = %1
    1 = %3"
    );
}

#[test]
fn a_listing_of_a_lone_output_writes_its_value() {
    let mut function = ProgramFunction::new();
    let x = function.add_parameter(f64_1d(2));
    function.add_result(x).unwrap();
    let program = QuantumProgram::new(vec![function], DataTree::new_leaf(()), DataTree::new_leaf(())).unwrap();

    assert_eq!(
        listing(&program),
        "\
@0: // entry point
  %0: F64[2] = qiskit.parameter
  results:
    %0"
    );
}

#[test]
fn a_listing_names_a_value_of_a_multi_result_node() {
    let program = QuantumProgram::new(vec![shot_loop()], positional_branch(0), named_branch(&["mean"])).unwrap();

    assert_eq!(
        listing(&program),
        "\
@0: // entry point
  %0: F64[0] = qiskit.constant
  %1: (Bit[100, 2], Bit[100, 3]) = qiskit.shot_loop[circuits=1, shots=100](%0)
  %2: F64[3] = qiskit.mean[axis=0](%1.1)
  results:
    mean = %2"
    );
}

#[test]
fn a_listing_gives_a_block_per_function_and_names_a_callee() {
    assert_eq!(
        listing(&call()),
        "\
@0:
  %0: F64[3] = qiskit.parameter
  results:
    %0

@1: // entry point
  %0: F64[3] = qiskit.parameter x
  %1: F64[3] = qiskit.call @0(%0)
  results:
    mean = %1"
    );
}

#[test]
fn a_drawing_gives_a_box_per_node_and_an_edge_per_operand() {
    let program = QuantumProgram::new(vec![shared_mean()], named_branch(&["x"]), named_branch(&["mean", "shifted"])).unwrap();
    let drawing = dot(&program);

    assert_eq!(drawing.matches(" [shape=").count(), 6, "one box per node, results included");
    assert!(
        drawing.contains("f0n0 [shape=ellipse, style=filled, fillcolor=lightblue, label=\"qiskit.parameter\\nx\"];"),
        "a parameter shows its input name and does not look like an operation: {drawing}"
    );
    assert!(
        drawing.contains("f0n1 [shape=box, label=\"qiskit.mean\\naxis=0\"];"),
        "an operation shows the payload it describes itself by: {drawing}"
    );
    assert!(
        drawing.contains("f0n2 [shape=box, label=\"qiskit.constant\"];"),
        "a node type describing no payload is captioned by its type name alone: {drawing}"
    );
    assert!(
        drawing.contains("f0n4 [shape=ellipse, style=filled, fillcolor=lightgrey, label=\"qiskit.result\\nmean\"];"),
        "a result shows its output name: {drawing}"
    );
    assert!(
        drawing.contains(&format!("f0n0 -> f0n1 [label=\"{PAD}0 \u{2192} 0{PAD}\\n{PAD}F64[3]{PAD}\"];")),
        "an edge names its slot, the position it fills and the type: {drawing}"
    );
    assert_eq!(
        drawing.matches("f0n1 -> ").count(),
        2,
        "the shared mean is one box with an edge to each node reading it: {drawing}"
    );
}

#[test]
fn a_drawing_names_the_slot_of_a_multi_result_node() {
    let program = QuantumProgram::new(vec![shot_loop()], positional_branch(0), positional_branch(1)).unwrap();
    let drawing = dot(&program);

    assert!(
        drawing.contains(&format!("f0n1 -> f0n2 [label=\"{PAD}1 \u{2192} 0{PAD}\\n{PAD}Bit[100, 3]{PAD}\"];")),
        "an edge from a multi-result node names the slot it came from: {drawing}"
    );
}

#[test]
fn a_drawing_clusters_a_program_of_several_functions() {
    let one = QuantumProgram::new(vec![shared_mean()], positional_branch(1), positional_branch(2)).unwrap();
    assert!(!dot(&one).contains("cluster"), "one function needs no frame around it");

    let drawing = dot(&call());
    assert!(drawing.contains("subgraph cluster_0 {"), "{drawing}");
    assert!(drawing.contains("subgraph cluster_1 {"), "{drawing}");
    assert!(drawing.contains("label=\"@1 (entry point)\";"), "the frame around the entry point says so: {drawing}");
    assert!(
        drawing.contains("f1n1 [shape=box3d, style=filled, fillcolor=lightyellow, label=\"qiskit.call\\n@0\"];"),
        "a call names the function it reaches and does not look like an operation: {drawing}"
    );
}

#[test]
fn a_drawing_escapes_a_name_that_would_end_a_label() {
    let mut function = ProgramFunction::new();
    let x = function.add_parameter(f64_1d(1));
    function.add_result(x).unwrap();
    let mut inputs = DataTree::new();
    inputs.insert_leaf("say \"hi\"\\", ());
    let program = QuantumProgram::new(vec![function], inputs, positional_branch(1)).unwrap();

    let drawing = dot(&program);
    assert!(drawing.contains("label=\"qiskit.parameter\\nsay \\\"hi\\\"\\\\\""), "{drawing}");
}
