//! Quantum programs as graphs of labelled nodes, and their contraction into regions.
//!
//! A [`QuantumProgram`] holds its nodes by index. Each node knows its label, what it is (an
//! operation, named by the full name of its type, or a nested program), and the paths of its
//! input and output leaves. An edge wires one output leaf to one input leaf. The program's own
//! inputs feed input leaves of its nodes, its outputs read output leaves, and the nodes created
//! for declared program inputs are listed as input sources.

use vstd::prelude::*;

use crate::tensor::{DTypeLike, Dim, TensorType};
use crate::text::decimal;

pub mod heuristic;
pub mod ports;
pub mod regions;

verus! {

/// One step of a path into a data tree: a named child or a list position.
pub enum PathEntry {
    Key(String),
    Index(usize),
}

/// A [`PathEntry`] as the spec sees it.
pub enum EntryView {
    Key(Seq<char>),
    Index(usize),
}

impl View for PathEntry {
    type V = EntryView;

    open spec fn view(&self) -> EntryView {
        match self {
            PathEntry::Key(k) => EntryView::Key(k@),
            PathEntry::Index(i) => EntryView::Index(*i),
        }
    }
}

/// A path, entry by entry.
pub open spec fn path_view(path: Seq<PathEntry>) -> Seq<EntryView> {
    Seq::new(path.len(), |i: int| path[i]@)
}

/// A leaf of a node's input or output tree, addressed by the node's label and the path to it.
pub struct Port {
    pub label: String,
    pub path: Vec<PathEntry>,
}

/// A [`Port`] as the spec sees it: the label's characters and the path's entries.
pub open spec fn port_view(port: Port) -> (Seq<char>, Seq<EntryView>) {
    (port.label@, path_view(port.path@))
}

/// What a node is: an operation, named by the full name of its type, or a nested program.
pub enum NodeKind {
    Op(String),
    Program(Box<QuantumProgram>),
}

/// A node of a [`QuantumProgram`] with the paths and the types of its input and output leaves,
/// in leaf order.
pub struct GraphNode {
    pub label: String,
    pub kind: NodeKind,
    pub input_leaf_paths: Vec<Vec<PathEntry>>,
    pub output_leaf_paths: Vec<Vec<PathEntry>>,
    pub input_leaf_types: Vec<TensorType>,
    pub output_leaf_types: Vec<TensorType>,
}

/// An edge from output leaf `from_leaf` of node `src` to input leaf `to_leaf` of node `tgt`.
#[derive(Clone, Copy)]
pub struct Edge {
    pub src: usize,
    pub from_leaf: usize,
    pub tgt: usize,
    pub to_leaf: usize,
}

/// A program input or output: its key, and the node and leaf it feeds or reads.
pub struct Binding {
    pub key: String,
    pub node: usize,
    pub leaf: usize,
}

impl Binding {
    /// The node and leaf.
    pub open spec fn node_leaf(&self) -> (usize, usize) {
        (self.node, self.leaf)
    }
}

/// A node created for a declared program input, with the input's key.
pub struct InputSource {
    pub key: String,
    pub node: usize,
}

/// A program as a graph of labelled nodes.
///
/// `inputs`, `input_sources` and `outputs` are kept in the order they were declared; that order
/// is the order of the program's own inputs and outputs.
pub struct QuantumProgram {
    pub nodes: Vec<GraphNode>,
    pub edges: Vec<Edge>,
    pub inputs: Vec<Binding>,
    pub input_sources: Vec<InputSource>,
    pub outputs: Vec<Binding>,
}

/// The full name of the type of a nested program node.
pub open spec fn program_type_name() -> Seq<char> {
    "qiskit.quantum_program"@
}

/// The full name of the type of a node.
pub open spec fn kind_name(kind: NodeKind) -> Seq<char> {
    match kind {
        NodeKind::Op(name) => name@,
        NodeKind::Program(_) => program_type_name(),
    }
}

/// The largest number of nodes, and of edges, that the graph index type can address.
pub open spec fn index_limit() -> nat {
    4294967295
}

impl QuantumProgram {
    /// Whether every index the program holds is in range: each node has a type per leaf, edges
    /// join existing leaves, inputs feed input leaves, outputs read output leaves, and the input
    /// sources are distinct nodes with no input leaves of their own.
    pub open spec fn wf(&self) -> bool {
        let n = self.nodes.len();
        &&& n < index_limit()
        &&& forall|v: int| 0 <= v < n ==> (#[trigger] self.nodes[v]).input_leaf_types.len() == self.nodes[v].input_leaf_paths.len()
            && self.nodes[v].output_leaf_types.len() == self.nodes[v].output_leaf_paths.len()
        &&& self.edges.len() < index_limit()
        &&& forall|k: int| 0 <= k < self.edges.len() ==> {
            let e = #[trigger] self.edges[k];
            &&& e.src < n
            &&& e.tgt < n
            &&& e.from_leaf < self.nodes[e.src as int].output_leaf_paths.len()
            &&& e.to_leaf < self.nodes[e.tgt as int].input_leaf_paths.len()
        }
        &&& forall|k: int| 0 <= k < self.inputs.len() ==> {
            let b = #[trigger] self.inputs[k];
            b.node < n && b.leaf < self.nodes[b.node as int].input_leaf_paths.len()
        }
        &&& forall|k: int| 0 <= k < self.outputs.len() ==> {
            let b = #[trigger] self.outputs[k];
            b.node < n && b.leaf < self.nodes[b.node as int].output_leaf_paths.len()
        }
        &&& forall|k: int| 0 <= k < self.input_sources.len() ==> {
            let s = #[trigger] self.input_sources[k];
            s.node < n && self.nodes[s.node as int].input_leaf_paths.len() == 0
        }
        &&& forall|j: int, k: int| 0 <= j < self.input_sources.len() && 0 <= k < self.input_sources.len() && j != k
            ==> #[trigger] self.input_sources[j].node != #[trigger] self.input_sources[k].node
    }

    /// The source and target of each edge, in edge order.
    pub open spec fn edge_pairs(&self) -> Seq<(usize, usize)> {
        Seq::new(self.edges@.len(), |k: int| (self.edges[k].src, self.edges[k].tgt))
    }

    /// Whether node `v` was created for a declared program input.
    pub open spec fn is_input_source(&self, v: int) -> bool {
        exists|k: int| 0 <= k < self.input_sources.len() && #[trigger] self.input_sources[k].node == v
    }

    /// The keys of the program's inputs, in order.
    pub open spec fn input_keys(&self) -> Seq<Seq<char>> {
        Seq::new(self.inputs@.len(), |k: int| self.inputs[k].key@)
    }

    /// The keys of the program's input sources, in order.
    pub open spec fn input_source_keys(&self) -> Seq<Seq<char>> {
        Seq::new(self.input_sources@.len(), |k: int| self.input_sources[k].key@)
    }

    /// The keys of the program's outputs, in order.
    pub open spec fn output_keys(&self) -> Seq<Seq<char>> {
        Seq::new(self.outputs@.len(), |k: int| self.outputs[k].key@)
    }

    /// The program's inputs in order, each by its key and the type of the leaf it feeds.
    pub open spec fn input_type_views(&self) -> Seq<(Seq<char>, (DTypeLike, Seq<Dim>, bool))> {
        Seq::new(self.inputs@.len(), |k: int|
            (self.inputs[k].key@, self.nodes@[self.inputs[k].node as int].input_leaf_types@[self.inputs[k].leaf as int]@))
    }

    /// The program's outputs in order, each by its key and the type of the leaf it reads.
    pub open spec fn output_type_views(&self) -> Seq<(Seq<char>, (DTypeLike, Seq<Dim>, bool))> {
        Seq::new(self.outputs@.len(), |k: int|
            (self.outputs[k].key@, self.nodes@[self.outputs[k].node as int].output_leaf_types@[self.outputs[k].leaf as int]@))
    }
}

/// The sources of the edges into `v`, one per edge, in edge order.
pub open spec fn sources_into(edges: Seq<Edge>, v: usize) -> Seq<usize>
    decreases edges.len(),
{
    if edges.len() == 0 {
        Seq::empty()
    } else {
        let rest = sources_into(edges.drop_last(), v);
        if edges.last().tgt == v { rest.push(edges.last().src) } else { rest }
    }
}

/// One path entry as text: the key, or the position in decimal.
pub open spec fn entry_text(e: EntryView) -> Seq<char> {
    match e {
        EntryView::Key(k) => k,
        EntryView::Index(i) => decimal(i as nat),
    }
}

/// A path as text: its entries joined by dots.
pub open spec fn path_text(path: Seq<EntryView>) -> Seq<char>
    decreases path.len(),
{
    if path.len() == 0 {
        Seq::empty()
    } else if path.len() == 1 {
        entry_text(path[0])
    } else {
        path_text(path.drop_last()) + "."@ + entry_text(path.last())
    }
}

/// The key of a port: the label, followed by a dot and the path when the path is not empty.
pub open spec fn port_key_text(label: Seq<char>, path: Seq<EntryView>) -> Seq<char> {
    if path.len() == 0 { label } else { label + "."@ + path_text(path) }
}

} // verus!
