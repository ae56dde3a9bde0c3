use qiskit_providers::quantum_program::regions::{ContractedProgram, ContractionError};
use qiskit_providers::quantum_program::{Binding, Edge, GraphNode, InputSource, NodeKind, PathEntry, QuantumProgram};
use qiskit_providers::tensor::{DType, DTypeLike, Dim, TensorType};

/// A real scalar that may be broadcast.
fn scalar() -> TensorType {
    TensorType { dtype: DTypeLike::Concrete(DType::F64), shape: vec![], broadcastable: true }
}

/// A vector of `n` bits.
fn bits(n: usize) -> TensorType {
    TensorType { dtype: DTypeLike::Concrete(DType::Bit), shape: vec![Dim::Fixed(n)], broadcastable: false }
}

/// A program under construction, its nodes found by label and their leaves by path.
struct Builder {
    prog: QuantumProgram,
}

fn keys(path: &[&str]) -> Vec<PathEntry> {
    path.iter().map(|k| PathEntry::Key(k.to_string())).collect()
}

fn same_path(a: &[PathEntry], b: &[&str]) -> bool {
    a.len() == b.len()
        && a.iter().zip(b).all(|(entry, key)| matches!(entry, PathEntry::Key(k) if k == key))
}

impl Builder {
    fn new() -> Self {
        Builder {
            prog: QuantumProgram {
                nodes: vec![],
                edges: vec![],
                inputs: vec![],
                input_sources: vec![],
                outputs: vec![],
            },
        }
    }

    fn node(&mut self, label: &str, kind: &str, inputs: &[&[&str]], outputs: &[&[&str]]) {
        let input_types = inputs.iter().map(|_| scalar()).collect();
        let output_types = outputs.iter().map(|_| scalar()).collect();
        self.typed_node(label, kind, inputs, input_types, outputs, output_types);
    }

    fn typed_node(
        &mut self,
        label: &str,
        kind: &str,
        inputs: &[&[&str]],
        input_types: Vec<TensorType>,
        outputs: &[&[&str]],
        output_types: Vec<TensorType>,
    ) {
        self.prog.nodes.push(GraphNode {
            label: label.to_string(),
            kind: NodeKind::Op(kind.to_string()),
            input_leaf_paths: inputs.iter().map(|p| keys(p)).collect(),
            output_leaf_paths: outputs.iter().map(|p| keys(p)).collect(),
            input_leaf_types: input_types,
            output_leaf_types: output_types,
        });
    }

    fn store(&mut self, label: &str) {
        self.node(label, "qiskit.store", &[], &[&[]]);
    }

    fn mean(&mut self, label: &str) {
        self.node(label, "qiskit.mean", &[&[]], &[&[]]);
    }

    fn add(&mut self, label: &str) {
        self.node(label, "qiskit.add", &[&["x"], &["y"]], &[&[]]);
    }

    fn multiply(&mut self, label: &str) {
        self.node(label, "qiskit.multiply", &[&["x"], &["y"]], &[&[]]);
    }

    fn index(&self, label: &str) -> usize {
        self.prog.nodes.iter().position(|n| n.label == label).unwrap()
    }

    fn input_leaf(&self, label: &str, path: &[&str]) -> (usize, usize) {
        let v = self.index(label);
        let leaf = self.prog.nodes[v].input_leaf_paths.iter().position(|p| same_path(p, path)).unwrap();
        (v, leaf)
    }

    fn output_leaf(&self, label: &str, path: &[&str]) -> (usize, usize) {
        let v = self.index(label);
        let leaf = self.prog.nodes[v].output_leaf_paths.iter().position(|p| same_path(p, path)).unwrap();
        (v, leaf)
    }

    fn edge(&mut self, from: (&str, &[&str]), to: (&str, &[&str])) {
        let (src, from_leaf) = self.output_leaf(from.0, from.1);
        let (tgt, to_leaf) = self.input_leaf(to.0, to.1);
        self.prog.edges.push(Edge { src, from_leaf, tgt, to_leaf });
    }

    fn set_input(&mut self, key: &str, to: (&str, &[&str])) {
        let (node, leaf) = self.input_leaf(to.0, to.1);
        self.prog.inputs.push(Binding { key: key.to_string(), node, leaf });
    }

    fn set_output(&mut self, key: &str, from: (&str, &[&str])) {
        let (node, leaf) = self.output_leaf(from.0, from.1);
        self.prog.outputs.push(Binding { key: key.to_string(), node, leaf });
    }

    /// Declare a program input: a source node labelled `__input_{key}` with one root output.
    fn add_input(&mut self, key: &str) -> String {
        let label = format!("__input_{key}");
        self.node(&label, "qiskit.input", &[], &[&[]]);
        let node = self.index(&label);
        self.prog.input_sources.push(InputSource { key: key.to_string(), node });
        label
    }
}

fn cats(lists: &[&[&str]]) -> Vec<Vec<String>> {
    lists.iter().map(|names| names.iter().map(|n| n.to_string()).collect()).collect()
}

fn region_keys(ports: &[(String, qiskit_providers::quantum_program::Port)]) -> Vec<&str> {
    ports.iter().map(|(key, _)| key.as_str()).collect()
}

fn has_node(prog: &QuantumProgram, label: &str) -> bool {
    prog.nodes.iter().any(|n| n.label == label)
}

fn input_keys(prog: &QuantumProgram) -> Vec<String> {
    prog.inputs.iter().map(|b| b.key.clone()).chain(prog.input_sources.iter().map(|s| s.key.clone())).collect()
}

fn output_keys(prog: &QuantumProgram) -> Vec<String> {
    prog.outputs.iter().map(|b| b.key.clone()).collect()
}

/// Run the partitioning on a bare graph shape: node `i` has type `t{i}`, listed in each of its
/// admissible colours but the last (the fallback). Returns `(colour, member indices)` per region.
fn run_heuristic(
    n_nodes: usize,
    edges: &[(usize, usize)],
    admissible: &[Vec<usize>],
    n_colours: usize,
) -> Vec<(usize, Vec<usize>)> {
    let mut b = Builder::new();
    let mut fan_in = vec![0usize; n_nodes];
    for &(_, to) in edges {
        fan_in[to] += 1;
    }
    for i in 0..n_nodes {
        let inputs: Vec<Vec<PathEntry>> = (0..fan_in[i]).map(|j| vec![PathEntry::Index(j)]).collect();
        let input_types = inputs.iter().map(|_| scalar()).collect();
        b.prog.nodes.push(GraphNode {
            label: i.to_string(),
            kind: NodeKind::Op(format!("t{i}")),
            input_leaf_paths: inputs,
            output_leaf_paths: vec![vec![]],
            input_leaf_types: input_types,
            output_leaf_types: vec![scalar()],
        });
    }
    let mut used = vec![0usize; n_nodes];
    for &(from, to) in edges {
        b.prog.edges.push(Edge { src: from, from_leaf: 0, tgt: to, to_leaf: used[to] });
        used[to] += 1;
    }
    let fallback = n_colours - 1;
    let categories: Vec<Vec<String>> = (0..fallback)
        .map(|c| (0..n_nodes).filter(|&i| admissible[i].contains(&c)).map(|i| format!("t{i}")).collect())
        .collect();
    let contracted = b.prog.into_regions(&categories).unwrap();
    contracted
        .regions
        .iter()
        .map(|r| {
            (
                r.category.unwrap_or(fallback),
                r.members.iter().map(|m| m.parse::<usize>().unwrap()).collect(),
            )
        })
        .collect()
}

// ---------------------------------------------------------------------------
// The heuristic
// ---------------------------------------------------------------------------

#[test]
fn test_empty_program() {
    let contracted = Builder::new().prog.into_regions(&[]).unwrap();
    assert!(contracted.regions.is_empty());
    assert!(contracted.program.nodes.is_empty());
}

#[test]
fn test_single_category_merges_whole_chain() {
    let regions = run_heuristic(5, &[(0, 1), (1, 2), (2, 3), (3, 4)], &vec![vec![0]; 5], 2);
    assert_eq!(regions, vec![(0, vec![0, 1, 2, 3, 4])]);
}

#[test]
fn test_alternating_categories_split() {
    let regions = run_heuristic(3, &[(0, 1), (1, 2)], &[vec![0], vec![1], vec![0]], 2);
    assert_eq!(regions, vec![(0, vec![0]), (1, vec![1]), (0, vec![2])]);
}

#[test]
fn test_fallback_category_is_shared() {
    // `s` and `mean` are both unlisted, sit at the same depth, and so share the single
    // fallback region even though they are different node types.
    let mut b = Builder::new();
    b.store("s");
    b.mean("mean");
    b.add("add");
    b.edge(("s", &[]), ("mean", &[]));
    b.edge(("mean", &[]), ("add", &["x"]));
    b.edge(("s", &[]), ("add", &["y"]));
    b.set_output("out", ("add", &[]));

    let contracted = b.prog.into_regions(&cats(&[&["qiskit.add"]])).unwrap();
    assert_eq!(contracted.regions.len(), 2);
    assert_eq!(contracted.regions[0].category, None);
    assert_eq!(contracted.regions[0].members, ["s", "mean"]);
    assert_eq!(contracted.regions[1].category, Some(0));
    assert_eq!(contracted.regions[1].members, ["add"]);
}

#[test]
fn test_diamond_not_over_merged() {
    // A(c0) -> B(c1) -> D(c0) and A -> C(c0) -> D. `C` joins `A`, but `D` cannot: merging it
    // would make the region re-enterable through `B`.
    let regions = run_heuristic(4, &[(0, 1), (1, 3), (0, 2), (2, 3)], &[vec![0], vec![1], vec![0], vec![0]], 2);
    assert_eq!(regions, vec![(0, vec![0, 2]), (1, vec![1]), (0, vec![3])]);
}

#[test]
fn test_disconnected_same_category_merge() {
    let regions = run_heuristic(2, &[], &vec![vec![0]; 2], 2);
    assert_eq!(regions, vec![(0, vec![0, 1])]);
}

#[test]
fn test_flexible_category_reduces_region_count() {
    // Node 1's type is listed in both category 0 and category 1; it takes category 1 to stay
    // with node 0.
    let regions = run_heuristic(2, &[(0, 1)], &[vec![1], vec![0, 1]], 3);
    assert_eq!(regions, vec![(1, vec![0, 1])]);
}

#[test]
fn test_flexible_category_tie_breaks_to_first_list() {
    let regions = run_heuristic(1, &[], &[vec![0, 1]], 3);
    assert_eq!(regions, vec![(0, vec![0])]);
}

/// `s1`, `s2` stores; `mul`, `add1`..`add4`, `mean`; two set inputs, one declared input feeding
/// `add1` twice, and four outputs, two of them on one port.
fn mixed_program() -> QuantumProgram {
    let mut b = Builder::new();
    b.store("s1");
    b.store("s2");
    b.multiply("mul");
    b.add("add1");
    b.add("add2");
    b.mean("mean");
    b.add("add3");
    b.add("add4");
    b.set_input("p", ("mul", &["x"]));
    b.set_input("q", ("mul", &["y"]));
    let x = b.add_input("x");
    b.edge((&x, &[]), ("add1", &["x"]));
    b.edge((&x, &[]), ("add1", &["y"]));
    b.edge(("add1", &[]), ("add2", &["x"]));
    b.edge(("s1", &[]), ("add2", &["y"]));
    b.edge(("add2", &[]), ("mean", &[]));
    b.edge(("mean", &[]), ("add3", &["x"]));
    b.edge(("s2", &[]), ("add3", &["y"]));
    b.edge(("mul", &[]), ("add4", &["x"]));
    b.edge(("add3", &[]), ("add4", &["y"]));
    b.set_output("o1", ("add2", &[]));
    b.set_output("o2", ("mean", &[]));
    b.set_output("o3", ("add2", &[]));
    b.set_output("o4", ("add4", &[]));
    b.prog
}

fn mixed_categories() -> Vec<Vec<String>> {
    cats(&[&["qiskit.add"], &["qiskit.mean"]])
}

fn region_id(prog: &QuantumProgram, node: usize) -> Option<usize> {
    prog.nodes[node].label.strip_prefix("region_").map(|n| n.parse().unwrap())
}

#[test]
fn test_regions_sorted_topologically() {
    let contracted = mixed_program().into_regions(&mixed_categories()).unwrap();
    let prog = &contracted.program;
    let mut checked = 0;
    for e in &prog.edges {
        if let (Some(src), Some(tgt)) = (region_id(prog, e.src), region_id(prog, e.tgt)) {
            assert!(src < tgt, "edge region_{src} -> region_{tgt} is out of order");
            checked += 1;
        }
    }
    assert!(checked > 0, "expected at least one inter-region edge");
}

#[test]
fn test_deterministic_labels_and_members() {
    let render = |contracted: &ContractedProgram| {
        contracted
            .regions
            .iter()
            .map(|r| {
                (
                    r.label.clone(),
                    r.category,
                    r.members.clone(),
                    region_keys(&r.input_ports).join(","),
                    region_keys(&r.output_ports).join(","),
                )
            })
            .collect::<Vec<_>>()
    };
    let first = mixed_program().into_regions(&mixed_categories()).unwrap();
    let second = mixed_program().into_regions(&mixed_categories()).unwrap();
    assert_eq!(render(&first), render(&second));
}

#[test]
fn test_cycle_errors() {
    let mut b = Builder::new();
    b.mean("a");
    b.mean("b");
    b.edge(("a", &[]), ("b", &[]));
    b.edge(("b", &[]), ("a", &[]));
    let Err(err) = b.prog.into_regions(&[]) else {
        panic!("expected a cycle error");
    };
    assert!(matches!(err, ContractionError::Cycle));
}

// ---------------------------------------------------------------------------
// Input hoisting
// ---------------------------------------------------------------------------

#[test]
fn test_hoists_input_nodes() {
    let mut b = Builder::new();
    b.add("add");
    b.store("s");
    let x = b.add_input("x");
    b.edge((&x, &[]), ("add", &["x"]));
    b.edge(("s", &[]), ("add", &["y"]));
    b.set_output("out", ("add", &[]));

    let contracted = b.prog.into_regions(&cats(&[&["qiskit.add"]])).unwrap();
    assert!(has_node(&contracted.program, "__input_x"));
    for region in &contracted.regions {
        assert!(!region.members.iter().any(|m| m == "__input_x"));
    }
}

#[test]
fn test_input_fanout_into_single_region() {
    let mut b = Builder::new();
    b.add("add");
    let x = b.add_input("x");
    b.edge((&x, &[]), ("add", &["x"]));
    b.edge((&x, &[]), ("add", &["y"]));
    b.set_output("result", ("add", &[]));

    let contracted = b.prog.into_regions(&cats(&[&["qiskit.add"]])).unwrap();
    assert_eq!(contracted.regions.len(), 1);
    assert_eq!(region_keys(&contracted.regions[0].input_ports), ["add.x", "add.y"]);
    // The fan-out survives as two parallel outer edges.
    assert_eq!(contracted.program.edges.len(), 2);
}

#[test]
fn test_program_output_declared_on_input_node() {
    // A declared input used directly as a program output survives hoisting.
    let mut b = Builder::new();
    b.mean("mean");
    let x = b.add_input("x");
    b.edge((&x, &[]), ("mean", &[]));
    b.set_output("passthru", (&x, &[]));
    b.set_output("avg", ("mean", &[]));

    let contracted = b.prog.into_regions(&cats(&[&["qiskit.mean"]])).unwrap();
    assert_eq!(output_keys(&contracted.program), ["passthru", "avg"]);
    let passthru = &contracted.program.outputs[0];
    assert_eq!(contracted.program.nodes[passthru.node].label, "__input_x");
}

#[test]
fn test_unwired_input_node_preserved() {
    let mut b = Builder::new();
    b.store("s");
    b.add_input("x");
    b.set_output("out", ("s", &[]));

    let in_keys = input_keys(&b.prog);
    let out_keys = output_keys(&b.prog);

    let contracted = b.prog.into_regions(&[]).unwrap();
    assert!(has_node(&contracted.program, "__input_x"));
    assert_eq!(input_keys(&contracted.program), in_keys);
    assert_eq!(output_keys(&contracted.program), out_keys);
}

// ---------------------------------------------------------------------------
// I/O preservation
// ---------------------------------------------------------------------------

/// Two set inputs, two declared inputs and three outputs spread over three categories.
fn io_order_program() -> QuantumProgram {
    let mut b = Builder::new();
    b.add("add");
    b.multiply("mul");
    b.mean("mean");
    b.set_input("a", ("add", &["x"]));
    b.set_input("b", ("add", &["y"]));
    let c = b.add_input("c");
    let d = b.add_input("d");
    b.edge((&c, &[]), ("mul", &["x"]));
    b.edge((&d, &[]), ("mul", &["y"]));
    b.edge(("add", &[]), ("mean", &[]));
    b.set_output("o1", ("add", &[]));
    b.set_output("o2", ("mean", &[]));
    b.set_output("o3", ("mul", &[]));
    b.prog
}

#[test]
fn test_preserves_io_key_order() {
    let prog = io_order_program();
    let in_keys = input_keys(&prog);
    let out_keys = output_keys(&prog);
    assert_eq!(in_keys, ["a", "b", "c", "d"]);
    assert_eq!(out_keys, ["o1", "o2", "o3"]);

    let contracted = prog.into_regions(&cats(&[&["qiskit.add"], &["qiskit.mean"]])).unwrap();
    assert_eq!(input_keys(&contracted.program), in_keys);
    assert_eq!(output_keys(&contracted.program), out_keys);
}

#[test]
fn test_output_fanout_shared_source_port() {
    // `s`'s single output feeds two program outputs and one other region, but the region
    // exposes it under exactly one key.
    let mut b = Builder::new();
    b.store("s");
    b.mean("mean");
    b.edge(("s", &[]), ("mean", &[]));
    b.set_output("a", ("s", &[]));
    b.set_output("b", ("s", &[]));
    b.set_output("c", ("mean", &[]));

    let contracted = b.prog.into_regions(&cats(&[&["qiskit.mean"]])).unwrap();
    assert_eq!(contracted.regions.len(), 2);
    assert_eq!(region_keys(&contracted.regions[0].output_ports), ["s"]);
}

#[test]
fn test_same_key_on_both_sides() {
    // `mean`'s input and output leaves are both at the root path, so its region keys both
    // sides to the bare member label.
    let mut b = Builder::new();
    b.store("s");
    b.mean("mean");
    b.add("add");
    b.edge(("s", &[]), ("mean", &[]));
    b.edge(("mean", &[]), ("add", &["x"]));
    b.edge(("s", &[]), ("add", &["y"]));
    b.set_output("out", ("add", &[]));

    let contracted = b.prog.into_regions(&cats(&[&["qiskit.mean"]])).unwrap();
    let mean_region = contracted
        .regions
        .iter()
        .find(|r| r.members == ["mean"])
        .expect("`mean` gets a region of its own");
    assert_eq!(region_keys(&mean_region.input_ports), ["mean"]);
    assert_eq!(region_keys(&mean_region.output_ports), ["mean"]);
}

#[test]
fn test_port_key_collision_is_deduped() {
    // Node `a`'s input port `x` and node `a.x`'s root input port both flatten to `"a.x"`; the
    // second one gets a `#1` suffix instead of colliding.
    let mut b = Builder::new();
    b.add("a");
    b.mean("a.x");
    b.set_input("i0", ("a", &["x"]));
    b.set_input("i1", ("a", &["y"]));
    b.set_input("i2", ("a.x", &[]));
    b.set_output("o0", ("a", &[]));
    b.set_output("o1", ("a.x", &[]));

    let contracted = b.prog.into_regions(&cats(&[&["qiskit.add", "qiskit.mean"]])).unwrap();
    assert_eq!(contracted.regions.len(), 1);
    assert_eq!(region_keys(&contracted.regions[0].input_ports), ["a.x", "a.y", "a.x#1"]);
}

// ---------------------------------------------------------------------------
// The contracted program's shape
// ---------------------------------------------------------------------------

#[test]
fn test_as_quantum_program_reaches_region() {
    let mut b = Builder::new();
    b.store("s");
    b.add("add");
    b.edge(("s", &[]), ("add", &["x"]));
    b.edge(("s", &[]), ("add", &["y"]));
    b.set_output("out", ("add", &[]));

    let contracted = b.prog.into_regions(&cats(&[&["qiskit.add"]])).unwrap();
    assert_eq!(contracted.regions.len(), 2);
    for (r, region) in contracted.regions.iter().enumerate() {
        let node = &contracted.program.nodes[r];
        assert_eq!(node.label, region.label);
        assert_eq!(node.label, format!("region_{r}"));
        let NodeKind::Program(inner) = &node.kind else {
            panic!("a region node holds a program");
        };
        let labels: Vec<&str> = inner.nodes.iter().map(|n| n.label.as_str()).collect();
        assert_eq!(labels, region.members);
        assert!(inner.nodes.iter().all(|n| matches!(n.kind, NodeKind::Op(_))));
        assert_eq!(node.input_leaf_paths.len(), region.input_ports.len());
        assert_eq!(node.output_leaf_paths.len(), region.output_ports.len());
    }
    // `s` feeds both inputs of `add`: two boundary inputs on the add region, one output on s's.
    assert_eq!(region_keys(&contracted.regions[0].output_ports), ["s"]);
    assert_eq!(region_keys(&contracted.regions[1].input_ports), ["add.x", "add.y"]);
    assert_eq!(region_keys(&contracted.regions[1].output_ports), ["add"]);
    let edges: Vec<(usize, usize, usize, usize)> =
        contracted.program.edges.iter().map(|e| (e.src, e.from_leaf, e.tgt, e.to_leaf)).collect();
    assert_eq!(edges, [(0, 0, 1, 0), (0, 0, 1, 1)]);
    assert_eq!(contracted.program.outputs[0].node, 1);
    assert_eq!(contracted.program.outputs[0].leaf, 0);
}

#[test]
fn a_node_listed_nowhere_is_alone_in_the_fallback_region() {
    let mut b = Builder::new();
    b.mean("m");
    let contracted = b.prog.into_regions(&cats(&[&["qiskit.add"]])).unwrap();
    assert_eq!(contracted.regions.len(), 1);
    assert_eq!(contracted.regions[0].category, None);
    assert_eq!(contracted.regions[0].members, ["m"]);
    assert!(contracted.regions[0].input_ports.is_empty());
    assert!(contracted.regions[0].output_ports.is_empty());
}

#[test]
fn test_contraction_is_idempotent() {
    let once = mixed_program().into_regions(&mixed_categories()).unwrap();
    assert!(once.regions.len() > 1, "expected a real partition");
    let twice = once.program.into_regions(&cats(&[&["qiskit.quantum_program"]])).unwrap();
    assert_eq!(twice.regions.len(), 1);
    assert_eq!(twice.regions[0].category, Some(0));
}

#[test]
fn test_output_less_region_is_pruned() {
    // `a` feeds `b` and nothing reads `b`: contracted, `{a, b}` is one region with no outputs.
    let mut b = Builder::new();
    b.node("a", "qiskit.input", &[], &[&[]]);
    b.mean("b");
    b.edge(("a", &[]), ("b", &[]));
    let contracted = b.prog.into_regions(&cats(&[&["qiskit.input", "qiskit.mean"]])).unwrap();
    assert_eq!(contracted.regions.len(), 1);
    assert_eq!(contracted.regions[0].members, ["a", "b"]);
    assert!(contracted.regions[0].output_ports.is_empty());
    assert!(contracted.regions[0].input_ports.is_empty());
    assert!(contracted.program.outputs.is_empty());
    assert!(contracted.program.edges.is_empty());
}

#[test]
fn a_self_loop_is_refused_as_a_cycle() {
    let mut b = Builder::new();
    b.add("a");
    b.edge(("a", &[]), ("a", &["x"]));
    assert!(matches!(b.prog.into_regions(&[]), Err(ContractionError::Cycle)));
}

/// The type of each input of a program, by key, in order.
fn input_types_of(prog: &QuantumProgram) -> Vec<(String, TensorType)> {
    prog.inputs.iter().map(|b| (b.key.clone(), prog.nodes[b.node].input_leaf_types[b.leaf].clone())).collect()
}

/// The type of each output of a program, by key, in order.
fn output_types_of(prog: &QuantumProgram) -> Vec<(String, TensorType)> {
    prog.outputs.iter().map(|b| (b.key.clone(), prog.nodes[b.node].output_leaf_types[b.leaf].clone())).collect()
}

#[test]
fn contraction_keeps_the_types_of_inputs_and_outputs() {
    let mut b = Builder::new();
    b.typed_node("m", "qiskit.measure", &[&["a"], &["b"]], vec![bits(2), bits(3)], &[&["r"], &[]], vec![bits(4), bits(5)]);
    b.typed_node("f", "qiskit.fold", &[&[]], vec![bits(4)], &[&[]], vec![bits(6)]);
    b.edge(("m", &["r"]), ("f", &[]));
    b.set_input("b", ("m", &["b"]));
    b.set_input("a", ("m", &["a"]));
    b.set_output("whole", ("m", &[]));
    b.set_output("folded", ("f", &[]));
    let before_in = input_types_of(&b.prog);
    let before_out = output_types_of(&b.prog);
    let contracted = b.prog.into_regions(&cats(&[&["qiskit.measure"], &["qiskit.fold"]])).unwrap();
    assert_eq!(contracted.regions.len(), 2);
    assert_eq!(input_types_of(&contracted.program), before_in);
    assert_eq!(output_types_of(&contracted.program), before_out);
    assert_eq!(before_in, vec![("b".to_string(), bits(3)), ("a".to_string(), bits(2))]);
    assert_eq!(before_out, vec![("whole".to_string(), bits(5)), ("folded".to_string(), bits(6))]);
}
