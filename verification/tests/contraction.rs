use qiskit_providers::collections::NameIndex;
use qiskit_providers::data_tree::DataTree;
use qiskit_providers::program::contraction::{boundary_values, categories, contract, partition, unit_of, ContractionError, Unit};
use qiskit_providers::program::function::{NodeRole, NodeView, OpNodeType, ProgramFunction, Signature, Value};
use qiskit_providers::program::QuantumProgram;
use qiskit_providers::tensor::{DType, DTypeLike, Dim, TensorType};

/// The type of a 1-D `F64` tensor of `len` elements.
fn f64_1d(len: usize) -> TensorType {
    TensorType { dtype: DTypeLike::Concrete(DType::F64), shape: vec![Dim::Fixed(len)], broadcastable: false }
}

fn op(name: &str) -> OpNodeType {
    OpNodeType::new("qiskit", name, None)
}

fn resources(lists: &[&[&str]]) -> Vec<Vec<String>> {
    lists.iter().map(|names| names.iter().map(|n| n.to_string()).collect()).collect()
}

/// `functions` as a program whose slots are unnamed: one sequence of leaves per side.
fn program(functions: Vec<ProgramFunction>) -> QuantumProgram {
    let entry = functions.last().expect("a program holds a function");
    let positional = |count: usize| {
        let mut tree = DataTree::new();
        for _ in 0..count {
            tree.push_leaf(());
        }
        tree
    };
    let inputs = positional(entry.parameters().len());
    let outputs = positional(entry.results().len());
    QuantumProgram::new(functions, inputs, outputs).unwrap()
}

/// The type name of every node of `function`, in order.
fn names(function: &ProgramFunction) -> Vec<String> {
    (0..function.node_count()).map(|id| function.node(id).full_name()).collect()
}

fn same_signature(a: &Signature, b: &Signature) -> bool {
    a.inputs == b.inputs && a.outputs == b.outputs
}

/// `f(x, y) = x + y` over `len`-element `F64` tensors.
fn add_function(len: usize) -> ProgramFunction {
    let mut function = ProgramFunction::new();
    let x = function.add_parameter(f64_1d(len));
    let y = function.add_parameter(f64_1d(len));
    let sum = function.add_node(op("add"), &[x, y], vec![f64_1d(len)]).unwrap()[0];
    function.add_result(sum).unwrap();
    function
}

// ---------------------------------------------------------------------------
// Grouping
// ---------------------------------------------------------------------------

#[test]
fn a_program_of_one_category_becomes_one_call() {
    let uncontracted = program(vec![add_function(1)]);
    // A boundary node reports a type name like any other node, and declaring those names changes
    // nothing: a boundary node is matched by its role.
    let (contracted, table) =
        contract(&uncontracted, &resources(&[&["qiskit.add", "qiskit.parameter", "qiskit.result"]])).unwrap();

    assert_eq!(table, [Some(0), None], "one unit, then the entry point");
    assert_eq!(table.len(), contracted.functions().len(), "the table describes every function of the rewritten program");
    assert_eq!(
        names(contracted.entry_function()),
        ["qiskit.parameter", "qiskit.parameter", "qiskit.call", "qiskit.result"],
        "the entry point holds its own boundary and one call, and no arithmetic"
    );
    assert_eq!(
        names(contracted.function(0).unwrap()),
        ["qiskit.parameter", "qiskit.parameter", "qiskit.add", "qiskit.result"],
        "a boundary node is left where it is, which matching on type names would not do"
    );
}

#[test]
fn independent_nodes_of_one_category_become_one_unit() {
    let mut function = ProgramFunction::new();
    let values: Vec<Value> = (0..4).map(|_| function.add_parameter(f64_1d(1))).collect();
    let first = function.add_node(op("add"), &[values[0], values[1]], vec![f64_1d(1)]).unwrap()[0];
    let second = function.add_node(op("add"), &[values[2], values[3]], vec![f64_1d(1)]).unwrap()[0];
    function.add_result(first).unwrap();
    function.add_result(second).unwrap();
    let uncontracted = program(vec![function]);

    let (contracted, table) = contract(&uncontracted, &resources(&[&["qiskit.add"]])).unwrap();

    assert_eq!(table, [Some(0), None], "independent work of one category is one unit, and so one submission");
    let unit = contracted.function(0).unwrap();
    assert_eq!(unit.parameters().len(), 4);
    assert_eq!(unit.results().len(), 2);
}

#[test]
fn a_dependency_of_another_category_splits_a_category_in_two() {
    let mut function = ProgramFunction::new();
    let x = function.add_parameter(f64_1d(2));
    let y = function.add_parameter(f64_1d(2));
    let sum = function.add_node(op("add"), &[x, y], vec![f64_1d(2)]).unwrap()[0];
    let mean = function.add_node(OpNodeType::new("qiskit", "mean", Some("axis=0")), &[sum], vec![f64_1d(1)]).unwrap()[0];
    let doubled = function.add_node(op("add"), &[mean, mean], vec![f64_1d(1)]).unwrap()[0];
    function.add_result(doubled).unwrap();
    let uncontracted = program(vec![function]);

    let (_, table) = contract(&uncontracted, &resources(&[&["qiskit.add"], &["qiskit.mean"]])).unwrap();

    assert_eq!(table, [Some(0), Some(1), Some(0), None], "the first resource runs twice, either side of the second");
}

#[test]
fn node_types_no_resource_handles_share_one_category() {
    let mut function = ProgramFunction::new();
    let x = function.add_parameter(f64_1d(2));
    let y = function.add_parameter(f64_1d(2));
    let sum = function.add_node(op("add"), &[x, y], vec![f64_1d(2)]).unwrap()[0];
    let product = function.add_node(op("multiply"), &[x, y], vec![f64_1d(2)]).unwrap()[0];
    let mean = function.add_node(OpNodeType::new("qiskit", "mean", Some("axis=0")), &[y], vec![f64_1d(1)]).unwrap()[0];
    function.add_result(sum).unwrap();
    function.add_result(product).unwrap();
    function.add_result(mean).unwrap();
    let uncontracted = program(vec![function]);

    let (contracted, table) = contract(&uncontracted, &resources(&[&["qiskit.add"]])).unwrap();

    assert_eq!(table, [Some(0), None, None]);
    assert_eq!(
        names(contracted.function(1).unwrap()),
        ["qiskit.parameter", "qiskit.parameter", "qiskit.multiply", "qiskit.mean", "qiskit.result", "qiskit.result"],
        "one unit holds both undeclared node types"
    );
}

#[test]
fn one_input_may_fan_out_to_several_units() {
    let mut function = ProgramFunction::new();
    let x = function.add_parameter(f64_1d(2));
    let sum = function.add_node(op("add"), &[x, x], vec![f64_1d(2)]).unwrap()[0];
    let product = function.add_node(op("multiply"), &[x, x], vec![f64_1d(2)]).unwrap()[0];
    function.add_result(sum).unwrap();
    function.add_result(product).unwrap();
    let uncontracted = program(vec![function]);

    let (contracted, table) = contract(&uncontracted, &resources(&[&["qiskit.add"]])).unwrap();

    assert_eq!(table, [Some(0), None, None]);
    for unit in 0..2 {
        assert_eq!(contracted.function(unit).unwrap().parameters().len(), 1, "a value a unit reads twice is one parameter");
    }
    let entry = contracted.entry_function();
    assert_eq!(
        (0..entry.node_count()).filter(|&id| entry.node(id).role() == NodeRole::Call).count(),
        2,
        "the entry point passes its one parameter to both calls"
    );
}

// ---------------------------------------------------------------------------
// What the partition guarantees
// ---------------------------------------------------------------------------

/// Assert that no node reads a unit later than its own, and that a unit holds one category.
fn assert_runnable_in_order(entry: &ProgramFunction, units: &Vec<Unit>, categories: &NameIndex) {
    let held = unit_of(entry.node_count(), units);
    for id in 0..entry.node_count() {
        let Some(consumer) = held[id] else {
            continue;
        };
        for value in entry.node(id).operands() {
            if let Some(producer) = held[value.node] {
                assert!(producer <= consumer, "node {id} of unit {consumer} reads unit {producer}");
            }
        }
    }
    assert_eq!(
        units.iter().map(|unit| unit.nodes.len()).sum::<usize>(),
        (0..entry.node_count()).filter(|&id| entry.node(id).role() == NodeRole::Op).count(),
        "every computing node is held by exactly one unit"
    );
    for (index, unit) in units.iter().enumerate() {
        assert!(!unit.nodes.is_empty(), "unit {index} holds nothing");
        for &id in &unit.nodes {
            let NodeView::Op(op_node_type) = entry.node(id).node_view() else {
                panic!("unit {index} holds the boundary node {id}")
            };
            assert_eq!(
                categories.get(&op_node_type.full_name()),
                unit.category,
                "node {id} of unit {index} is of another category"
            );
        }
    }
}

#[test]
fn every_dependency_between_two_units_runs_forwards() {
    let mut function = ProgramFunction::new();
    let x = function.add_parameter(f64_1d(2));
    let y = function.add_parameter(f64_1d(2));
    let sum = function.add_node(op("add"), &[x, y], vec![f64_1d(2)]).unwrap()[0];
    let product = function.add_node(op("multiply"), &[x, y], vec![f64_1d(2)]).unwrap()[0];
    let both = function.add_node(op("add"), &[sum, product], vec![f64_1d(2)]).unwrap()[0];
    let scaled = function.add_node(op("multiply"), &[sum, sum], vec![f64_1d(2)]).unwrap()[0];
    let total = function.add_node(op("add"), &[both, scaled], vec![f64_1d(2)]).unwrap()[0];
    function.add_result(total).unwrap();
    function.add_result(scaled).unwrap();

    let categories = categories(&resources(&[&["qiskit.add"], &["qiskit.multiply"]])).unwrap();
    let units = partition(&function, &categories);

    assert_eq!(
        units.iter().map(|unit| unit.category).collect::<Vec<_>>(),
        [Some(0), Some(1), Some(0), Some(1), Some(0)],
        "each category runs three times and twice, alternating"
    );
    assert_runnable_in_order(&function, &units, &categories);

    let (inputs, outputs) = boundary_values(&function, &unit_of(function.node_count(), &units), units.len());
    assert_eq!(outputs[0].len(), 1, "a value two later units read is returned once");
    assert_eq!(inputs[0], [x, y]);
}

#[test]
fn a_unit_is_left_where_a_category_reappears_later() {
    let mut function = ProgramFunction::new();
    let mut value = function.add_parameter(f64_1d(2));
    for step in 0..6 {
        let name = if step % 2 == 0 { "add" } else { "multiply" };
        value = function.add_node(op(name), &[value, value], vec![f64_1d(2)]).unwrap()[0];
    }
    function.add_result(value).unwrap();

    let categories = categories(&resources(&[&["qiskit.add"], &["qiskit.multiply"]])).unwrap();
    let units = partition(&function, &categories);

    assert_eq!(units.len(), 6, "no two steps of the chain can share a unit");
    assert_runnable_in_order(&function, &units, &categories);
}

// ---------------------------------------------------------------------------
// What the rewritten program keeps
// ---------------------------------------------------------------------------

#[test]
fn the_rewritten_program_computes_and_declares_the_same_thing() {
    let mut function = ProgramFunction::new();
    let x = function.add_parameter(f64_1d(2));
    let two = function.add_node(op("constant"), &[], vec![f64_1d(2)]).unwrap()[0];
    let scaled = function.add_node(op("multiply"), &[x, two], vec![f64_1d(2)]).unwrap()[0];
    function.add_node(OpNodeType::new("qiskit", "mean", Some("axis=0")), &[scaled], vec![f64_1d(1)]).unwrap();
    function.add_result(scaled).unwrap();
    function.add_result(x).unwrap();
    function.add_result(scaled).unwrap();

    let mut names = DataTree::new();
    names.insert_leaf("scaled", ());
    names.insert_leaf("uncontracted", ());
    names.insert_leaf("again", ());
    let uncontracted = QuantumProgram::new(vec![function], DataTree::new_leaf(()), names).unwrap();

    let (contracted, table) = contract(&uncontracted, &resources(&[&["qiskit.multiply"], &["qiskit.constant"]])).unwrap();

    assert_eq!(table, [Some(1), Some(0), None, None], "the constant, the product, the undeclared mean, and the entry point");
    let constant = contracted.function(0).unwrap();
    assert!(constant.parameters().is_empty(), "a unit that reads nothing is called with no operands");
    assert!(
        same_signature(&contracted.entry_function().signature(), &uncontracted.entry_function().signature()),
        "the entry point declares what it declared, in the order it declared it"
    );
    assert!(matches!(contracted.input_structure(), DataTree::Leaf(())));
    let DataTree::Branch(outputs) = contracted.output_structure() else {
        panic!("the outputs are named");
    };
    let keys: Vec<Option<&str>> = outputs.iter().map(|(k, _)| k.as_deref()).collect();
    assert_eq!(keys, [Some("scaled"), Some("uncontracted"), Some("again")]);
}

#[test]
fn a_program_with_nothing_to_contract_keeps_only_its_entry_point() {
    let mut function = ProgramFunction::new();
    let x = function.add_parameter(f64_1d(1));
    function.add_result(x).unwrap();
    let uncontracted = program(vec![function]);

    let (contracted, table) = contract(&uncontracted, &resources(&[&["qiskit.add"]])).unwrap();

    assert_eq!(table, [None]);
    assert_eq!(contracted.functions().len(), 1);
}

#[test]
fn a_function_the_entry_point_cannot_reach_is_dropped() {
    let uncontracted = program(vec![add_function(4), add_function(1)]);
    assert_eq!(uncontracted.functions().len(), 2);

    let (contracted, table) = contract(&uncontracted, &resources(&[&["qiskit.add"]])).unwrap();

    assert_eq!(table, [Some(0), None], "the unit, then the entry point");
    assert!(
        same_signature(&contracted.function(0).unwrap().signature(), &add_function(1).signature()),
        "@0 is the unit, not the function that was @0"
    );
}

#[test]
fn a_result_other_than_the_first_crosses_a_unit_boundary_as_itself() {
    let mut function = ProgramFunction::new();
    let x = function.add_parameter(f64_1d(2));
    let y = function.add_parameter(f64_1d(2));
    let both = function
        .add_node(OpNodeType::new("vendor", "sum_and_difference", None), &[x, y], vec![f64_1d(2), f64_1d(2)])
        .unwrap();
    let scaled = function.add_node(op("multiply"), &[both[1], both[1]], vec![f64_1d(2)]).unwrap()[0];
    function.add_result(both[0]).unwrap();
    function.add_result(scaled).unwrap();
    let uncontracted = program(vec![function]);

    let (contracted, table) =
        contract(&uncontracted, &resources(&[&["vendor.sum_and_difference"], &["qiskit.multiply"]])).unwrap();

    assert_eq!(table, [Some(0), Some(1), None]);
    let first = contracted.function(0).unwrap();
    assert_eq!(first.results().len(), 2, "the sum is returned for the entry point and the difference for the second unit");
    assert_eq!(
        contracted.function(1).unwrap().signature().inputs.len(),
        1,
        "the second unit reads one value, whatever slot it came from"
    );
}

// ---------------------------------------------------------------------------
// Rejections
// ---------------------------------------------------------------------------

#[test]
fn an_entry_point_that_already_calls_a_function_is_rejected() {
    let callee = add_function(1);
    let signature = callee.signature();
    let mut entry = ProgramFunction::new();
    let x = entry.add_parameter(f64_1d(1));
    let y = entry.add_parameter(f64_1d(1));
    let called = entry.add_call(0, &signature, &[x, y]).unwrap()[0];
    entry.add_result(called).unwrap();
    let uncontracted = program(vec![callee, entry]);

    let Err(err) = contract(&uncontracted, &resources(&[&["qiskit.add"]])) else {
        panic!("a program holding a call is already contracted")
    };
    let entry = uncontracted.entry_function();
    let call = (0..entry.node_count()).find(|&id| entry.node(id).role() == NodeRole::Call).expect("the entry point holds a call");
    assert_eq!(err, ContractionError::EntryPointCall { node: call });
    assert_eq!(err.to_string(), "the entry point calls another function at node 2");
}

#[test]
fn two_resources_cannot_declare_one_node_type() {
    let uncontracted = program(vec![add_function(1)]);

    let Err(err) = contract(&uncontracted, &resources(&[&["qiskit.add"], &["qiskit.mean", "qiskit.add"]])) else {
        panic!("a node type belongs to one resource")
    };
    assert_eq!(err, ContractionError::RepeatedNodeType { name: "qiskit.add".to_string(), first: 0, second: 1 });
    assert_eq!(err.to_string(), "resource 0 and resource 1 both handle qiskit.add");

    assert!(contract(&uncontracted, &resources(&[&["qiskit.add", "qiskit.add"]])).is_ok(), "one resource may name a node type twice");
}
