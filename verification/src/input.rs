//! The source node that stands for a program input.

use vstd::prelude::*;

use crate::data_tree::{DataTree, TreeView, leaves, view_leaves, lemma_view_children};
use crate::program_node::{MissingCallError, ProgramNode, full_name_of};
use crate::tensor::{DType, DTypeLike, Dim, Tensor, TensorType, type_views};

verus! {

/// A source node representing a program input, with no inputs of its own.
///
/// `Input` does not compute anything itself: its value is injected by the program that declares
/// it. It exists so that one declared program input can fan out to several consumers through
/// ordinary edges.
pub struct Input {
    /// The declared type of the input: the single leaf of the output.
    spec: TensorType,
}

impl Input {
    /// An `Input` node with the given declared type.
    pub fn new(spec: TensorType) -> (node: Self)
        ensures
            node.output_types_spec() == TreeView::Leaf(spec@),
    {
        Input { spec }
    }
}

impl ProgramNode for Input {
    type CallError = MissingCallError;

    open spec fn call_flat_gives(&self, args: Seq<(DType, Seq<usize>, Seq<u64>)>, res: Result<Vec<Tensor>, MissingCallError>) -> bool {
        res matches Err(e) && e.0@ == full_name_of(self.namespace_spec(), self.name_spec())
    }

    open spec fn name_spec(&self) -> Seq<char> {
        "input"@
    }

    open spec fn namespace_spec(&self) -> Seq<char> {
        "qiskit"@
    }

    open spec fn input_types_spec(&self) -> TreeView<(DTypeLike, Seq<Dim>, bool)> {
        TreeView::Branch(Seq::empty())
    }

    closed spec fn output_types_spec(&self) -> TreeView<(DTypeLike, Seq<Dim>, bool)> {
        TreeView::Leaf(self.spec@)
    }

    fn name(&self) -> &str {
        "input"
    }

    fn namespace(&self) -> &str {
        "qiskit"
    }

    fn input_types(&self) -> DataTree<TensorType> {
        let tree = DataTree::new();
        proof {
            lemma_view_children(Seq::<(Option<Seq<char>>, TreeView<TensorType>)>::empty(), 0);
            assert(view_leaves(tree@) =~= TreeView::<(DTypeLike, Seq<Dim>, bool)>::Branch(Seq::empty()));
        }
        tree
    }

    fn output_types(&self) -> DataTree<TensorType> {
        DataTree::new_leaf(self.spec.clone())
    }

    fn implements_call(&self) -> (b: bool)
        ensures
            !b,
    {
        false
    }

    /// Always fails: an input's value comes from the program that declares it.
    fn call_flat(&self, args: &[Tensor]) -> (res: Result<Vec<Tensor>, MissingCallError>)
        ensures
            res matches Err(e) && e.0@ == full_name_of(self.namespace_spec(), self.name_spec()),
    {
        Err(MissingCallError::new(self.full_name()))
    }

    /// The declared type, whatever the inputs.
    fn resolve_types_flat(&self, input_types: &[TensorType]) -> (res: Result<Vec<TensorType>, MissingCallError>) {
        let mut types: Vec<TensorType> = Vec::new();
        types.push(self.spec.clone());
        assert(type_views(types@) =~= leaves(self.output_types_spec()));
        Ok(types)
    }
}

} // verus!
