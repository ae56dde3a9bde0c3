//! Quantum programs as lists of functions, and their contraction into per-resource units.

pub mod contraction;
pub mod function;

use vstd::prelude::*;

use crate::data_tree::{DataTree, TreeView, leaves};
use crate::program::function::{NodeKind, NodeRole, NodeSpec, ProgramError, ProgramFunction, positions_of};

verus! {

/// The views of a sequence of functions.
pub open spec fn function_views(functions: Seq<ProgramFunction>) -> Seq<Seq<NodeSpec>> {
    functions.map_values(|f: ProgramFunction| f@)
}

/// Whether every call in `functions` names one of them.
pub open spec fn calls_resolve(functions: Seq<Seq<NodeSpec>>) -> bool {
    forall|f: int, i: int| 0 <= f < functions.len() && 0 <= i < functions[f].len()
        ==> (#[trigger] functions[f][i].kind matches NodeKind::Call(callee) ==> callee < functions.len())
}

/// The view of a program: its functions, the last being the entry point, and the structures its
/// inputs and outputs are arranged in.
pub struct ProgramSpec {
    pub functions: Seq<Seq<NodeSpec>>,
    pub inputs: TreeView<()>,
    pub outputs: TreeView<()>,
}

/// Whether a program is consistent: it holds a function, every call names one of its functions,
/// and its entry point declares one parameter per input leaf and one result per output leaf.
pub open spec fn program_wf(p: ProgramSpec) -> bool {
    &&& p.functions.len() > 0
    &&& calls_resolve(p.functions)
    &&& positions_of(p.functions.last(), NodeRole::Parameter).len() == leaves(p.inputs).len()
    &&& positions_of(p.functions.last(), NodeRole::Result).len() == leaves(p.outputs).len()
}

/// A program: a list of functions, the last of which is the entry point, and the structures the
/// entry point's inputs and outputs are arranged in.
#[derive(Debug)]
pub struct QuantumProgram {
    functions: Vec<ProgramFunction>,
    input_structure: DataTree<()>,
    output_structure: DataTree<()>,
}

impl View for QuantumProgram {
    type V = ProgramSpec;

    closed spec fn view(&self) -> ProgramSpec {
        ProgramSpec {
            functions: function_views(self.functions@),
            inputs: self.input_structure@,
            outputs: self.output_structure@,
        }
    }
}

/// Whether `e` is what building a program of `functions` arranged as `inputs` and `outputs`
/// reports: no function, a call of a function that is not there, or an entry point whose
/// parameters or results do not match the structures.
pub open spec fn build_error(functions: Seq<Seq<NodeSpec>>, inputs: TreeView<()>, outputs: TreeView<()>, e: ProgramError) -> bool {
    match e {
        ProgramError::NoFunctions => functions.len() == 0,
        ProgramError::UnknownFunction { function } => function >= functions.len() && exists|f: int, i: int|
            0 <= f < functions.len() && 0 <= i < functions[f].len() && (#[trigger] functions[f][i]).kind == NodeKind::Call(function),
        ProgramError::StructureMismatch { expected, actual } => functions.len() > 0 && calls_resolve(functions) && (
            (expected == leaves(inputs).len() && actual == positions_of(functions.last(), NodeRole::Parameter).len()
                && expected != actual)
            || (expected == leaves(outputs).len() && actual == positions_of(functions.last(), NodeRole::Result).len()
                && expected != actual)),
        _ => false,
    }
}

impl QuantumProgram {
    /// A program is consistent.
    #[verifier::type_invariant]
    closed spec fn well_formed(self) -> bool {
        program_wf(self@)
    }

    /// The program of `functions`, whose last function is the entry point, with its inputs and
    /// outputs arranged as `inputs` and `outputs`.
    ///
    /// Fails if there is no function, if a call names a function the program does not hold, or if
    /// the entry point declares another number of parameters or results than the structures have
    /// leaves.
    pub fn new(functions: Vec<ProgramFunction>, inputs: DataTree<()>, outputs: DataTree<()>)
        -> (res: Result<QuantumProgram, ProgramError>)
        ensures
            match res {
                Ok(p) => program_wf(p@) && p@ == (ProgramSpec {
                    functions: function_views(functions@),
                    inputs: inputs@,
                    outputs: outputs@,
                }),
                Err(e) => !program_wf(ProgramSpec { functions: function_views(functions@), inputs: inputs@, outputs: outputs@ })
                    && build_error(function_views(functions@), inputs@, outputs@, e),
            },
    {
        let ghost views = function_views(functions@);
        if functions.len() == 0 {
            return Err(ProgramError::NoFunctions);
        }
        let n = functions.len();
        for f in 0..n
            invariant
                n == functions.len(),
                views == function_views(functions@),
                forall|g: int, i: int| 0 <= g < f && 0 <= i < views[g].len()
                    ==> (#[trigger] views[g][i].kind matches NodeKind::Call(callee) ==> callee < n),
        {
            let function = &functions[f];
            let count = function.node_count();
            assert(views[f as int] == function@);
            for i in 0..count
                invariant
                    n == functions.len(),
                    f < n,
                    views.len() == n,
                    views == function_views(functions@),
                    views[f as int] == function@,
                    count == function@.len(),
                    *function == functions@[f as int],
                    forall|g: int, j: int| 0 <= g < f && 0 <= j < views[g].len()
                        ==> (#[trigger] views[g][j].kind matches NodeKind::Call(callee) ==> callee < n),
                    forall|j: int| 0 <= j < i
                        ==> (#[trigger] views[f as int][j].kind matches NodeKind::Call(callee) ==> callee < n),
            {
                let node = function.node(i);
                let nv = node.node_view();
                assert(views[f as int][i as int].kind == nv@);
                match nv {
                    crate::program::function::NodeView::Call(callee) => {
                        if *callee >= n {
                            assert(!calls_resolve(views));
                            assert(views[f as int][i as int].kind == NodeKind::Call(*callee));
                            assert(build_error(views, inputs@, outputs@, ProgramError::UnknownFunction { function: *callee }));
                            return Err(ProgramError::UnknownFunction { function: *callee });
                        }
                    },
                    _ => {},
                }
            }
        }
        assert(calls_resolve(views));
        let entry = &functions[n - 1];
        let params = entry.parameters().len();
        let results = entry.results().len();
        let expected_in = inputs.leaf_count();
        let expected_out = outputs.leaf_count();
        if params != expected_in {
            return Err(ProgramError::StructureMismatch { expected: expected_in, actual: params });
        }
        if results != expected_out {
            return Err(ProgramError::StructureMismatch { expected: expected_out, actual: results });
        }
        let p = QuantumProgram { functions, input_structure: inputs, output_structure: outputs };
        Ok(p)
    }

    /// The functions, the last being the entry point.
    pub fn functions(&self) -> (fs: &[ProgramFunction])
        ensures
            function_views(fs@) == self@.functions,
    {
        self.functions.as_slice()
    }

    /// The function numbered `id`, if there is one.
    pub fn function(&self, id: usize) -> (f: Option<&ProgramFunction>)
        ensures
            match f {
                Some(f) => id < self@.functions.len() && f@ == self@.functions[id as int],
                None => id >= self@.functions.len(),
            },
    {
        if id < self.functions.len() {
            Some(&self.functions[id])
        } else {
            None
        }
    }

    /// The number of the entry point: the last function.
    pub fn entry(&self) -> (id: usize)
        ensures
            id == self@.functions.len() - 1,
            program_wf(self@),
    {
        proof {
            use_type_invariant(self);
        }
        self.functions.len() - 1
    }

    /// The entry point.
    pub fn entry_function(&self) -> (f: &ProgramFunction)
        ensures
            f@ == self@.functions.last(),
            program_wf(self@),
    {
        proof {
            use_type_invariant(self);
        }
        &self.functions[self.functions.len() - 1]
    }

    /// The structure the inputs are arranged in.
    pub fn input_structure(&self) -> (s: &DataTree<()>)
        ensures
            s@ == self@.inputs,
    {
        &self.input_structure
    }

    /// The structure the outputs are arranged in.
    pub fn output_structure(&self) -> (s: &DataTree<()>)
        ensures
            s@ == self@.outputs,
    {
        &self.output_structure
    }
}

} // verus!
