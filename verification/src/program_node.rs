//! The interface of a node of a quantum program graph.

use vstd::prelude::*;

use crate::data_tree::{
    ArityMismatch, DataTree, TreeMatchError, TreeView, fill, flatten_spec, leaves, deref_all, failure_of,
    MatchFailure, view_leaves, lemma_flatten_view, lemma_fill_view, lemma_leaves_view,
};
use crate::tensor::{DType, DTypeLike, Dim, Tensor, TensorType, type_views, tensor_views, dtype_name};
use crate::text::{debug_form, debug_string, push_str};

verus! {

/// Errors returned when a tree-shaped argument does not match [`ProgramNode::input_types`].
#[derive(Debug, PartialEq, Eq)]
pub enum CallInputError {
    MissingInput { key: String },
    ExpectedLeaf { key: String },
    UnexpectedDType { key: String, expected: String, actual: DType },
    WrongArity { expected: usize, actual: usize },
}

impl CallInputError {
    /// The input error reporting a tree mismatch: a missing path is a missing input, and a branch
    /// where a leaf belongs is reported at the same path.
    pub fn from_tree_error(e: TreeMatchError) -> (res: CallInputError)
        ensures
            match failure_of(e) {
                MatchFailure::MissingPath(path) => res matches CallInputError::MissingInput { key } && key@ == path,
                MatchFailure::ExpectedLeaf(path) => res matches CallInputError::ExpectedLeaf { key } && key@ == path,
            },
    {
        match e {
            TreeMatchError::MissingPath { path } => CallInputError::MissingInput { key: path },
            TreeMatchError::ExpectedLeaf { path } => CallInputError::ExpectedLeaf { key: path },
        }
    }
}

/// Returned by nodes that cannot run locally when called, tagged with the node's full name.
#[derive(Debug, PartialEq, Eq)]
pub struct MissingCallError(pub String);

/// The message of a [`MissingCallError`] for the node named `name`: the name in its debug
/// form, as Rust's `Debug` for `str` writes it.
pub open spec fn missing_call_message(name: Seq<char>) -> Seq<char> {
    "node "@ + debug_form(name) + " does not implement call()"@
}

/// The message of a missing call for a node whose name, in its debug form, is `debug_name`.
pub fn missing_call_text(debug_name: &str) -> (text: String)
    ensures
        text@ == "node "@ + debug_name@ + " does not implement call()"@,
{
    let mut s = String::from_str("node ");
    push_str(&mut s, debug_name);
    push_str(&mut s, " does not implement call()");
    proof {
        reveal_strlit("node ");
    }
    s
}

impl MissingCallError {
    /// A [`MissingCallError`] tagged with the node's full name.
    pub fn new(name: String) -> (e: Self)
        ensures
            e.0@ == name@,
    {
        MissingCallError(name)
    }

    /// The message: `node "<name>" does not implement call()`, the name in its debug form.
    pub fn to_string(&self) -> (text: String)
        ensures
            text@ == missing_call_message(self.0@),
    {
        let quoted = debug_string(self.0.as_str());
        missing_call_text(quoted.as_str())
    }
}

/// Errors returned by [`ProgramNodeExt::call`] and [`ProgramNodeExt::resolve_types`].
#[derive(Debug, PartialEq, Eq)]
pub enum CallError<E> {
    /// The input tree did not match the contract declared by `input_types()`.
    Input(CallInputError),
    /// The node's flat method returned an error.
    Call(E),
    /// The flat method returned a number of outputs other than the leaf count of `output_types()`.
    OutputArityMismatch { expected: usize, actual: usize },
}

impl<E> CallError<E> {
    /// The error reporting an output count that does not fit the output tree.
    pub fn from_arity(e: ArityMismatch) -> (res: CallError<E>)
        ensures
            res == (CallError::<E>::OutputArityMismatch { expected: e.expected, actual: e.actual }),
    {
        CallError::OutputArityMismatch { expected: e.expected, actual: e.actual }
    }
}

/// `namespace.name`.
pub open spec fn full_name_of(namespace: Seq<char>, name: Seq<char>) -> Seq<char> {
    namespace + "."@ + name
}

/// A node in a quantum program graph that transforms tensors.
pub trait ProgramNode {
    type CallError;

    /// The name of this node, as the spec sees it. Each implementation in this library
    /// defines it; the default, empty, stands for implementations that leave it open.
    open spec fn name_spec(&self) -> Seq<char> {
        Seq::empty()
    }

    /// The namespace of this node, as the spec sees it (empty unless defined).
    open spec fn namespace_spec(&self) -> Seq<char> {
        Seq::empty()
    }

    /// The inputs expected at call time, each leaf by its view (an empty branch unless defined).
    open spec fn input_types_spec(&self) -> TreeView<(DTypeLike, Seq<Dim>, bool)> {
        TreeView::Branch(Seq::empty())
    }

    /// The outputs promised on call return, each leaf by its view (an empty branch unless defined).
    open spec fn output_types_spec(&self) -> TreeView<(DTypeLike, Seq<Dim>, bool)> {
        TreeView::Branch(Seq::empty())
    }

    /// Whether `res` is a result [`ProgramNode::call_flat`] may give for arguments with views
    /// `args`. Each node of this library defines it; the default, which admits any result,
    /// stands for nodes that leave it open.
    open spec fn call_flat_gives(&self, args: Seq<(DType, Seq<usize>, Seq<u64>)>, res: Result<Vec<Tensor>, Self::CallError>) -> bool {
        true
    }

    /// Whether `res` is a result [`ProgramNode::resolve_types_flat`] may give for input types
    /// with views `input_types`. The default stands for nodes whose output types do not depend
    /// on their inputs: the leaves of the output template.
    open spec fn resolve_flat_gives(&self, input_types: Seq<(DTypeLike, Seq<Dim>, bool)>, res: Result<Vec<TensorType>, Self::CallError>) -> bool {
        res matches Ok(types) && type_views(types@) == leaves(self.output_types_spec())
    }

    /// The name of this program node.
    fn name(&self) -> (name: &str)
        ensures
            name@ == self.name_spec();

    /// The namespace this program node belongs to.
    fn namespace(&self) -> (namespace: &str)
        ensures
            namespace@ == self.namespace_spec();

    /// The namespace and name as one string.
    fn full_name(&self) -> (full: String)
        ensures
            full@ == full_name_of(self.namespace_spec(), self.name_spec()),
    {
        let mut full = String::from_str(self.namespace());
        push_str(&mut full, ".");
        push_str(&mut full, self.name());
        full
    }

    /// The inputs expected at call time.
    fn input_types(&self) -> (types: DataTree<TensorType>)
        ensures
            view_leaves(types@) == self.input_types_spec();

    /// The outputs promised on call return.
    fn output_types(&self) -> (types: DataTree<TensorType>)
        ensures
            view_leaves(types@) == self.output_types_spec();

    /// Whether this program node implements the call method.
    fn implements_call(&self) -> bool;

    /// The action of this node with flattened I/O: `args` in input-tree leaf order, the result in
    /// output-tree leaf order.
    fn call_flat(&self, args: &[Tensor]) -> (res: Result<Vec<Tensor>, Self::CallError>)
        ensures
            self.call_flat_gives(tensor_views(args@), res);

    /// Resolve this node's output types with flattened I/O.
    ///
    /// A node whose output types do not depend on its inputs returns the leaves of its output
    /// template, [`output_leaf_types`].
    fn resolve_types_flat(&self, input_types: &[TensorType]) -> (res: Result<Vec<TensorType>, Self::CallError>)
        ensures
            self.resolve_flat_gives(type_views(input_types@), res);
}

/// The leaves of `node`'s output template, unchanged: what a node whose output types do not
/// depend on its inputs resolves.
pub fn output_leaf_types<N: ProgramNode>(node: &N) -> (types: Vec<TensorType>)
    ensures
        type_views(types@) == leaves(node.output_types_spec()),
{
    let outputs = node.output_types();
    let types = leaf_types(&outputs);
    proof {
        lemma_leaves_view(outputs@);
        assert(type_views(leaves(outputs@)) =~= leaves(outputs@).map_values(|v: TensorType| v@));
    }
    types
}

/// The leaves of a type tree, copied.
pub fn leaf_types(tree: &DataTree<TensorType>) -> (types: Vec<TensorType>)
    ensures
        type_views(types@) == type_views(leaves(tree@)),
{
    let refs = tree.leaf_refs();
    let mut types: Vec<TensorType> = Vec::new();
    let mut i: usize = 0;
    while i < refs.len()
        invariant
            i <= refs.len(),
            deref_all(refs@) == leaves(tree@),
            types.len() == i,
            type_views(types@) == type_views(deref_all(refs@).take(i as int)),
        decreases refs.len() - i,
    {
        let r: &TensorType = refs[i];
        let t: TensorType = r.clone();
        assert(t@ == deref_all(refs@)[i as int]@);
        let ghost before = types@;
        types.push(t);
        proof {
            let target = type_views(deref_all(refs@).take(i + 1));
            assert(type_views(before) == type_views(deref_all(refs@).take(i as int)));
            assert forall|k: int| 0 <= k < types.len() implies #[trigger] type_views(types@)[k] == target[k] by {
                if k < i {
                    assert(types@[k] == before[k]);
                    assert(type_views(before)[k] == before[k]@);
                    assert(type_views(deref_all(refs@).take(i as int))[k] == deref_all(refs@)[k]@);
                }
            }
            assert(type_views(types@) =~= target);
        }
        i = i + 1;
    }
    assert(deref_all(refs@).take(refs.len() as int) == deref_all(refs@));
    types
}


/// Copies of the values behind `refs`, for types whose copies keep their view.
fn copy_types(refs: &Vec<&TensorType>) -> (types: Vec<TensorType>)
    ensures
        type_views(types@) == type_views(deref_all(refs@)),
{
    let mut types: Vec<TensorType> = Vec::new();
    let mut i: usize = 0;
    while i < refs.len()
        invariant
            i <= refs.len(),
            types.len() == i,
            type_views(types@) == type_views(deref_all(refs@).take(i as int)),
        decreases refs.len() - i,
    {
        let r: &TensorType = refs[i];
        let t: TensorType = r.clone();
        let ghost before = types@;
        types.push(t);
        proof {
            let target = type_views(deref_all(refs@).take(i + 1));
            assert forall|k: int| 0 <= k < types.len() implies #[trigger] type_views(types@)[k] == target[k] by {
                if k < i {
                    assert(types@[k] == before[k]);
                    assert(type_views(before)[k] == before[k]@);
                    assert(type_views(deref_all(refs@).take(i as int))[k] == deref_all(refs@)[k]@);
                }
            }
            assert(type_views(types@) =~= target);
        }
        i = i + 1;
    }
    assert(deref_all(refs@).take(refs.len() as int) == deref_all(refs@));
    types
}

/// Copies of the tensors behind `refs`.
fn copy_tensors(refs: &Vec<&Tensor>) -> (tensors: Vec<Tensor>)
    ensures
        tensor_views(tensors@) == tensor_views(deref_all(refs@)),
{
    let mut tensors: Vec<Tensor> = Vec::new();
    let mut i: usize = 0;
    while i < refs.len()
        invariant
            i <= refs.len(),
            tensors.len() == i,
            tensor_views(tensors@) == tensor_views(deref_all(refs@).take(i as int)),
        decreases refs.len() - i,
    {
        let r: &Tensor = refs[i];
        let t: Tensor = r.clone();
        let ghost before = tensors@;
        tensors.push(t);
        proof {
            let target = tensor_views(deref_all(refs@).take(i + 1));
            assert forall|k: int| 0 <= k < tensors.len() implies #[trigger] tensor_views(tensors@)[k] == target[k] by {
                if k < i {
                    assert(tensors@[k] == before[k]);
                    assert(tensor_views(before)[k] == before[k]@);
                    assert(tensor_views(deref_all(refs@).take(i as int))[k] == deref_all(refs@)[k]@);
                }
            }
            assert(tensor_views(tensors@) =~= target);
        }
        i = i + 1;
    }
    assert(deref_all(refs@).take(refs.len() as int) == deref_all(refs@));
    tensors
}

/// Whether `e` reports the mismatch `f`.
pub open spec fn reports_mismatch(e: CallInputError, f: MatchFailure) -> bool {
    match f {
        MatchFailure::MissingPath(path) => e matches CallInputError::MissingInput { key } && key@ == path,
        MatchFailure::ExpectedLeaf(path) => e matches CallInputError::ExpectedLeaf { key } && key@ == path,
    }
}

/// Whether `res` is the flat result `flat` shaped like `template`: its error passed on as
/// [`CallError::Call`], its values filled into the template where their number is the template's
/// leaf count, and that count reported against theirs where it is not.
pub open spec fn shaped<S, U, E>(template: TreeView<S>, flat: Result<Vec<U>, E>, res: Result<DataTree<U>, CallError<E>>) -> bool {
    match flat {
        Err(e) => res == Err::<DataTree<U>, CallError<E>>(CallError::Call(e)),
        Ok(out) => if out.len() == leaves(template).len() {
            res matches Ok(tree) && tree@ == fill(template, out@)
        } else {
            res == Err::<DataTree<U>, CallError<E>>(
                CallError::OutputArityMismatch { expected: leaves(template).len() as usize, actual: out.len() },
            )
        },
    }
}

/// Extension with the wrappers over the flat methods whose inputs and outputs are data trees.
pub trait ProgramNodeExt: ProgramNode {
    /// The action of this program node on a tree of tensors.
    ///
    /// The tree is flattened against [`ProgramNode::input_types`], the flat action applied, and
    /// the result shaped like [`ProgramNode::output_types`].
    fn call(&self, args: &DataTree<Tensor>) -> (res: Result<DataTree<Tensor>, CallError<Self::CallError>>)
        ensures
            match flatten_spec(self.input_types_spec(), args@, Seq::empty()) {
                Err(f) => res matches Err(CallError::Input(e)) && reports_mismatch(e, f),
                Ok(flat_args) => exists|flat: Result<Vec<Tensor>, Self::CallError>|
                    #[trigger] self.call_flat_gives(tensor_views(flat_args), flat)
                    && shaped(self.output_types_spec(), flat, res),
            },
    {
        let template = self.input_types();
        proof {
            lemma_flatten_view(template@, args@, Seq::empty());
        }
        let refs = match template.flatten_against(args) {
            Ok(refs) => refs,
            Err(e) => return Err(CallError::Input(CallInputError::from_tree_error(e))),
        };
        let ghost flat_args = deref_all(refs@);
        let flat = copy_tensors(&refs);
        let given = self.call_flat(flat.as_slice());
        let ghost flat_res = given;
        assert(self.call_flat_gives(tensor_views(flat_args), flat_res));
        let out = match given {
            Ok(out) => out,
            Err(e) => {
                let res = Err(CallError::Call(e));
                assert(shaped(self.output_types_spec(), flat_res, res));
                return res;
            },
        };
        let ghost out_seq = out@;
        let shape = self.output_types();
        proof {
            lemma_fill_view(shape@, out_seq);
            lemma_leaves_view(shape@);
        }
        let res = match shape.unflatten(out) {
            Ok(tree) => Ok(tree),
            Err(e) => Err(CallError::from_arity(e)),
        };
        assert(shaped(self.output_types_spec(), flat_res, res));
        res
    }

    /// Resolve this node's output types given the types actually wired to its inputs.
    ///
    /// The tree is flattened against [`ProgramNode::input_types`], the flat resolution applied,
    /// and the result shaped like [`ProgramNode::output_types`].
    fn resolve_types(&self, input_types: &DataTree<TensorType>) -> (res: Result<DataTree<TensorType>, CallError<Self::CallError>>)
        ensures
            match flatten_spec(self.input_types_spec(), input_types@, Seq::empty()) {
                Err(f) => res matches Err(CallError::Input(e)) && reports_mismatch(e, f),
                Ok(flat_types) => exists|flat: Result<Vec<TensorType>, Self::CallError>|
                    #[trigger] self.resolve_flat_gives(type_views(flat_types), flat)
                    && shaped(self.output_types_spec(), flat, res),
            },
    {
        let template = self.input_types();
        proof {
            lemma_flatten_view(template@, input_types@, Seq::empty());
        }
        let refs = match template.flatten_against(input_types) {
            Ok(refs) => refs,
            Err(e) => return Err(CallError::Input(CallInputError::from_tree_error(e))),
        };
        let ghost flat_types = deref_all(refs@);
        let flat = copy_types(&refs);
        let given = self.resolve_types_flat(flat.as_slice());
        let ghost flat_res = given;
        assert(self.resolve_flat_gives(type_views(flat_types), flat_res));
        let out = match given {
            Ok(out) => out,
            Err(e) => {
                let res = Err(CallError::Call(e));
                assert(shaped(self.output_types_spec(), flat_res, res));
                return res;
            },
        };
        let ghost out_seq = out@;
        let shape = self.output_types();
        proof {
            lemma_fill_view(shape@, out_seq);
            lemma_leaves_view(shape@);
        }
        let res = match shape.unflatten(out) {
            Ok(tree) => Ok(tree),
            Err(e) => Err(CallError::from_arity(e)),
        };
        assert(shaped(self.output_types_spec(), flat_res, res));
        res
    }
}

impl<T: ProgramNode> ProgramNodeExt for T {}

} // verus!
