//! The node that runs a fixed list of circuits, each for the same number of shots.

use vstd::prelude::*;

use crate::data_tree::{DataTree, TreeView, lemma_view_children, view_children, view_leaves};
use crate::program_node::{CallInputError, MissingCallError, ProgramNode, full_name_of};
use crate::tensor::{DType, DTypeLike, Dim, Tensor, TensorType, copy_dims, named_type_views, type_views};
use crate::text::{decimal, push_decimal, push_str};

verus! {

/// A classical register of a circuit: its name and its number of bits.
pub struct ClassicalRegister {
    pub name: String,
    pub size: usize,
}

impl ClassicalRegister {
    /// A register named `name` of `size` bits.
    pub fn new(name: &str, size: usize) -> (reg: Self)
        ensures
            reg.name@ == name@,
            reg.size == size,
    {
        ClassicalRegister { name: String::from_str(name), size }
    }

    /// The register's name.
    pub fn name(&self) -> (name: &str)
        ensures
            name@ == self.name@,
    {
        self.name.as_str()
    }

    /// The register's number of bits.
    pub fn len(&self) -> (size: usize)
        ensures
            size == self.size,
    {
        self.size
    }
}

/// What a shot loop reads of a circuit: its number of free parameters and its classical
/// registers, in order.
pub struct CircuitData {
    pub num_parameters: usize,
    pub cregs: Vec<ClassicalRegister>,
}

impl CircuitData {
    /// The circuit's number of free parameters.
    pub fn num_parameters(&self) -> (n: usize)
        ensures
            n == self.num_parameters,
    {
        self.num_parameters
    }

    /// The circuit's classical registers.
    pub fn cregs(&self) -> (cregs: &[ClassicalRegister])
        ensures
            cregs@ == self.cregs@,
    {
        self.cregs.as_slice()
    }
}

/// Errors returned by [`ShotLoop`]'s [`ProgramNode`] implementation.
#[derive(Debug, PartialEq, Eq)]
pub enum ShotLoopError {
    /// The input tree did not match the contract declared by `input_types`.
    Input(CallInputError),
    /// [`ShotLoop`] was called; it never runs locally.
    MissingCall(MissingCallError),
    /// A circuit's params type did not have dtype `F64`.
    WrongParamDType { circuit: usize, dtype: DTypeLike },
    /// A circuit's params type did not have the right trailing (parameter-count) axis.
    WrongParamShape { circuit: usize, shape: Vec<Dim>, expected: usize },
    /// A circuit's params type had no axes at all.
    EmptyParamShape { circuit: usize },
}

/// A program node that runs a fixed list of circuits, each for the same number of shots.
///
/// It has no local execution path: calling it always fails with [`MissingCallError`]. A
/// backend dispatches it to hardware or a simulator.
///
/// Inputs: one positional leaf per circuit, a broadcastable `F64` tensor whose trailing axis
/// carries that circuit's parameter values; leading axes form a batch prefix of any rank.
///
/// Outputs: one positional branch per circuit, holding one leaf per classical register, keyed
/// by the register's name: a broadcastable `Bit` tensor of shape `[..., shots, num_bits]`,
/// where `...` is that circuit's batch prefix.
pub struct ShotLoop {
    circuits: Vec<CircuitData>,
    shots: usize,
}

/// The type of a circuit's parameters: `F64` with one axis of the parameter count.
pub open spec fn params_type(circuit: CircuitData) -> (DTypeLike, Seq<Dim>, bool) {
    (DTypeLike::Concrete(DType::F64), seq![Dim::Fixed(circuit.num_parameters)], true)
}

/// The type of a register's bits over `shots` shots, after the batch prefix `prefix`.
pub open spec fn register_type(prefix: Seq<Dim>, shots: usize, reg: ClassicalRegister) -> (DTypeLike, Seq<Dim>, bool) {
    (DTypeLike::Concrete(DType::Bit), prefix + seq![Dim::Fixed(shots), Dim::Fixed(reg.size)], true)
}

/// One positional parameter leaf per circuit.
pub open spec fn shot_loop_inputs(circuits: Seq<CircuitData>) -> TreeView<(DTypeLike, Seq<Dim>, bool)> {
    TreeView::Branch(Seq::new(circuits.len(), |i: int| (None::<Seq<char>>, TreeView::Leaf(params_type(circuits[i])))))
}

/// The register leaves of one circuit, keyed by name.
pub open spec fn register_branch(circuit: CircuitData, shots: usize) -> TreeView<(DTypeLike, Seq<Dim>, bool)> {
    TreeView::Branch(Seq::new(circuit.cregs@.len(), |j: int|
        (Some(circuit.cregs@[j].name@), TreeView::Leaf(register_type(Seq::empty(), shots, circuit.cregs@[j])))))
}

/// One positional branch of register leaves per circuit.
pub open spec fn shot_loop_outputs(circuits: Seq<CircuitData>, shots: usize) -> TreeView<(DTypeLike, Seq<Dim>, bool)> {
    TreeView::Branch(Seq::new(circuits.len(), |i: int| (None::<Seq<char>>, register_branch(circuits[i], shots))))
}

/// What is wrong with the params type `t` of `circuit`, if anything.
pub enum ParamFault {
    WrongDType,
    EmptyShape,
    WrongShape,
}

/// The fault of the params type `t` for `circuit`: not `F64`; no axes; or a fixed trailing axis
/// other than the parameter count (a named one is accepted).
pub open spec fn param_fault(circuit: CircuitData, t: (DTypeLike, Seq<Dim>, bool)) -> Option<ParamFault> {
    if !(t.0 matches DTypeLike::Concrete(DType::F64)) {
        Some(ParamFault::WrongDType)
    } else if t.1.len() == 0 {
        Some(ParamFault::EmptyShape)
    } else {
        match t.1.last() {
            Dim::Fixed(n) => if n == circuit.num_parameters { None } else { Some(ParamFault::WrongShape) },
            Dim::Named(_) => None,
        }
    }
}

/// The first of the first `m` circuits whose params type is at fault, with the fault.
pub open spec fn first_fault(circuits: Seq<CircuitData>, types: Seq<(DTypeLike, Seq<Dim>, bool)>, m: nat) -> Option<(nat, ParamFault)>
    decreases m,
{
    if m == 0 {
        None
    } else {
        match first_fault(circuits, types, (m - 1) as nat) {
            Some(f) => Some(f),
            None => match param_fault(circuits[m - 1], types[m - 1]) {
                Some(fault) => Some(((m - 1) as nat, fault)),
                None => None,
            },
        }
    }
}

/// Once a circuit is at fault, the first fault stays the first however many circuits follow.
proof fn lemma_first_fault_stays(circuits: Seq<CircuitData>, types: Seq<(DTypeLike, Seq<Dim>, bool)>, k: nat, m: nat)
    requires
        first_fault(circuits, types, k) is Some,
        k <= m,
    ensures
        first_fault(circuits, types, m) == first_fault(circuits, types, k),
    decreases m,
{
    if m > k {
        lemma_first_fault_stays(circuits, types, k, (m - 1) as nat);
    }
}

/// The resolved register types of the first `m` circuits, circuit by circuit and register by
/// register, each after its circuit's batch prefix.
pub open spec fn resolved_registers(circuits: Seq<CircuitData>, shots: usize, types: Seq<(DTypeLike, Seq<Dim>, bool)>, m: nat)
    -> Seq<(DTypeLike, Seq<Dim>, bool)>
    decreases m,
{
    if m == 0 {
        Seq::empty()
    } else {
        let c = circuits[m - 1];
        let prefix = types[m - 1].1.drop_last();
        resolved_registers(circuits, shots, types, (m - 1) as nat)
            + Seq::new(c.cregs@.len(), |j: int| register_type(prefix, shots, c.cregs@[j]))
    }
}

/// Whether `e` reports `fault` for the circuit at `index` whose params type is `t`.
pub open spec fn reports_fault(e: ShotLoopError, index: nat, fault: ParamFault, c: CircuitData, t: (DTypeLike, Seq<Dim>, bool)) -> bool {
    match fault {
        ParamFault::WrongDType => e == (ShotLoopError::WrongParamDType { circuit: index as usize, dtype: t.0 }),
        ParamFault::EmptyShape => e == (ShotLoopError::EmptyParamShape { circuit: index as usize }),
        ParamFault::WrongShape => e matches ShotLoopError::WrongParamShape { circuit, shape, expected }
            && circuit == index && shape@ == t.1 && expected == c.num_parameters,
    }
}

impl ShotLoop {
    /// A shot loop running each of `circuits` for `shots` shots.
    pub fn new(circuits: Vec<CircuitData>, shots: usize) -> (node: Self)
        ensures
            node.circuits_spec() == circuits@,
            node.shots_spec() == shots,
    {
        ShotLoop { circuits, shots }
    }

    /// The circuits, as the spec sees them.
    pub closed spec fn circuits_spec(&self) -> Seq<CircuitData> {
        self.circuits@
    }

    /// The number of shots, as the spec sees it.
    pub closed spec fn shots_spec(&self) -> usize {
        self.shots
    }

    /// The circuits this shot loop runs.
    pub fn circuits(&self) -> (circuits: &[CircuitData])
        ensures
            circuits@ == self.circuits_spec(),
    {
        self.circuits.as_slice()
    }

    /// The number of shots each circuit is run for.
    pub fn shots(&self) -> (shots: usize)
        ensures
            shots == self.shots_spec(),
    {
        self.shots
    }
}

/// Whether `d` is the concrete `F64`.
fn is_f64(d: &DTypeLike) -> (b: bool)
    ensures
        b == (*d matches DTypeLike::Concrete(DType::F64)),
{
    match d {
        DTypeLike::Concrete(DType::F64) => true,
        _ => false,
    }
}

/// The params type of a circuit.
fn params_type_of(circuit: &CircuitData) -> (t: TensorType)
    ensures
        t@ == params_type(*circuit),
{
    let mut shape: Vec<Dim> = Vec::new();
    shape.push(Dim::Fixed(circuit.num_parameters));
    assert(shape@ =~= seq![Dim::Fixed(circuit.num_parameters)]);
    TensorType { dtype: DTypeLike::Concrete(DType::F64), shape, broadcastable: true }
}

/// The type of a register's bits after the batch prefix `prefix`.
fn register_type_of(prefix: &[Dim], shots: usize, reg: &ClassicalRegister) -> (t: TensorType)
    ensures
        t@ == register_type(prefix@, shots, *reg),
{
    let mut shape = copy_dims(prefix);
    shape.push(Dim::Fixed(shots));
    shape.push(Dim::Fixed(reg.size));
    assert(shape@ =~= prefix@ + seq![Dim::Fixed(shots), Dim::Fixed(reg.size)]);
    TensorType { dtype: DTypeLike::Concrete(DType::Bit), shape, broadcastable: true }
}

/// Append the type of each register's bits after the batch prefix `prefix`.
fn push_registers(outputs: &mut Vec<TensorType>, prefix: &[Dim], shots: usize, cregs: &[ClassicalRegister])
    ensures
        type_views(final(outputs)@) == type_views(old(outputs)@)
            + Seq::new(cregs@.len(), |k: int| register_type(prefix@, shots, cregs@[k])),
{
    let ghost start = outputs@;
    for j in 0..cregs.len()
        invariant
            type_views(outputs@) == type_views(start) + Seq::new(j as nat, |k: int| register_type(prefix@, shots, cregs@[k])),
    {
        let reg_type = register_type_of(prefix, shots, &cregs[j]);
        let ghost old_out = outputs@;
        outputs.push(reg_type);
        proof {
            let target = type_views(start) + Seq::new((j + 1) as nat, |k: int| register_type(prefix@, shots, cregs@[k]));
            assert(outputs@ == old_out.push(reg_type));
            assert(type_views(old_out).len() == type_views(start).len() + j);
            assert forall|k: int| 0 <= k < outputs@.len() implies #[trigger] type_views(outputs@)[k] == target[k] by {
                if k < old_out.len() {
                    assert(type_views(outputs@)[k] == outputs@[k]@);
                    assert(outputs@[k] == old_out[k]);
                    assert(type_views(old_out)[k] == old_out[k]@);
                } else {
                    assert(type_views(outputs@)[k] == reg_type@);
                }
            }
            assert(type_views(outputs@) =~= target);
        }
    }
}

impl ProgramNode for ShotLoop {
    type CallError = ShotLoopError;

    open spec fn call_flat_gives(&self, args: Seq<(DType, Seq<usize>, Seq<u64>)>, res: Result<Vec<Tensor>, ShotLoopError>) -> bool {
        res matches Err(ShotLoopError::MissingCall(e)) && e.0@ == full_name_of(self.namespace_spec(), self.name_spec())
    }

    open spec fn resolve_flat_gives(&self, input_types: Seq<(DTypeLike, Seq<Dim>, bool)>, res: Result<Vec<TensorType>, ShotLoopError>) -> bool {
        let circuits = self.circuits_spec();
        let m = if circuits.len() <= input_types.len() { circuits.len() } else { input_types.len() };
        match first_fault(circuits, input_types, m as nat) {
            Some((i, fault)) => res matches Err(e) && reports_fault(e, i, fault, circuits[i as int], input_types[i as int]),
            None => res matches Ok(out) && type_views(out@) == resolved_registers(circuits, self.shots_spec(), input_types, m as nat),
        }
    }

    open spec fn name_spec(&self) -> Seq<char> {
        "shot_loop"@
    }

    open spec fn namespace_spec(&self) -> Seq<char> {
        "qiskit"@
    }

    open spec fn input_types_spec(&self) -> TreeView<(DTypeLike, Seq<Dim>, bool)> {
        shot_loop_inputs(self.circuits_spec())
    }

    open spec fn output_types_spec(&self) -> TreeView<(DTypeLike, Seq<Dim>, bool)> {
        shot_loop_outputs(self.circuits_spec(), self.shots_spec())
    }

    fn name(&self) -> &str {
        "shot_loop"
    }

    fn namespace(&self) -> &str {
        "qiskit"
    }

    fn input_types(&self) -> DataTree<TensorType> {
        let mut tree = DataTree::with_capacity(self.circuits.len());
        let ghost target = shot_loop_inputs(self.circuits@);
        for i in 0..self.circuits.len()
            invariant
                tree@ is Branch,
                tree@->Branch_0.len() == i,
                forall|k: int| 0 <= k < i ==> (#[trigger] tree@->Branch_0[k]).0 is None
                    && view_leaves(tree@->Branch_0[k].1) == TreeView::Leaf(params_type(self.circuits@[k])),
        {
            let t = params_type_of(&self.circuits[i]);
            tree.push_leaf(t);
        }
        proof {
            let children = tree@->Branch_0;
            lemma_view_children(children, children.len());
            assert(view_children(children, children.len()) =~= target->Branch_0);
        }
        tree
    }

    fn output_types(&self) -> DataTree<TensorType> {
        let mut tree = DataTree::with_capacity(self.circuits.len());
        for i in 0..self.circuits.len()
            invariant
                tree@ is Branch,
                tree@->Branch_0.len() == i,
                forall|k: int| 0 <= k < i ==> (#[trigger] tree@->Branch_0[k]).0 is None
                    && view_leaves(tree@->Branch_0[k].1) == register_branch(self.circuits@[k], self.shots),
        {
            let circuit = &self.circuits[i];
            let mut branch = DataTree::with_capacity(circuit.cregs.len());
            for j in 0..circuit.cregs.len()
                invariant
                    branch@ is Branch,
                    branch@->Branch_0.len() == j,
                        forall|k: int| 0 <= k < j ==> (#[trigger] branch@->Branch_0[k]).0 == Some(circuit.cregs@[k].name@)
                        && view_leaves(branch@->Branch_0[k].1) == TreeView::Leaf(register_type(Seq::empty(), self.shots, circuit.cregs@[k])),
            {
                let reg = &circuit.cregs[j];
                let no_prefix: Vec<Dim> = Vec::new();
                let t = register_type_of(no_prefix.as_slice(), self.shots, reg);
                assert(no_prefix@ =~= Seq::<Dim>::empty());
                branch.insert_leaf(reg.name.as_str(), t);
            }
            proof {
                let children = branch@->Branch_0;
                lemma_view_children(children, children.len());
                assert(view_children(children, children.len()) =~= register_branch(*circuit, self.shots)->Branch_0);
            }
            tree.push_branch(branch);
        }
        proof {
            let children = tree@->Branch_0;
            lemma_view_children(children, children.len());
            assert(view_children(children, children.len()) =~= shot_loop_outputs(self.circuits@, self.shots)->Branch_0);
        }
        tree
    }

    fn implements_call(&self) -> (b: bool)
        ensures
            !b,
    {
        false
    }

    /// Always fails: a shot loop runs on a backend, never locally.
    fn call_flat(&self, args: &[Tensor]) -> (res: Result<Vec<Tensor>, ShotLoopError>)
        ensures
            res matches Err(ShotLoopError::MissingCall(e)) && e.0@ == full_name_of(self.namespace_spec(), self.name_spec()),
    {
        Err(ShotLoopError::MissingCall(MissingCallError::new(self.full_name())))
    }

    /// Resolve each circuit's register types from its params type.
    ///
    /// Circuit `i` is paired with `input_types[i]`, as far as both go. Its params type must be
    /// `F64` with a trailing axis equal to the circuit's parameter count (a named trailing axis
    /// is accepted as is); the axes before it are a batch prefix, put in front of each of that
    /// circuit's register shapes `[shots, num_bits]`.
    fn resolve_types_flat(&self, input_types: &[TensorType]) -> (res: Result<Vec<TensorType>, ShotLoopError>)
        ensures
            ({
                let circuits = self.circuits_spec();
                let m = if circuits.len() <= input_types@.len() { circuits.len() } else { input_types@.len() };
                let types = type_views(input_types@);
                match first_fault(circuits, types, m as nat) {
                    Some((i, fault)) => res matches Err(e) && reports_fault(e, i, fault, circuits[i as int], types[i as int]),
                    None => res matches Ok(out) && type_views(out@) == resolved_registers(circuits, self.shots_spec(), types, m as nat),
                }
            }),
    {
        let n = if self.circuits.len() <= input_types.len() { self.circuits.len() } else { input_types.len() };
        let ghost types = type_views(input_types@);
        let mut outputs: Vec<TensorType> = Vec::new();
        for i in 0..n
            invariant
                n == (if self.circuits@.len() <= input_types@.len() { self.circuits@.len() } else { input_types@.len() }),
                types == type_views(input_types@),
                first_fault(self.circuits@, types, i as nat) is None,
                type_views(outputs@) == resolved_registers(self.circuits@, self.shots, types, i as nat),
        {
            let circuit = &self.circuits[i];
            let t = &input_types[i];
            assert(types[i as int] == t@);
            proof {
                let f = param_fault(self.circuits@[i as int], types[i as int]);
                if f is Some {
                    assert(first_fault(self.circuits@, types, (i + 1) as nat) == Some((i as nat, f.unwrap())));
                    lemma_first_fault_stays(self.circuits@, types, (i + 1) as nat, n as nat);
                }
            }
            if !is_f64(&t.dtype) {
                let dtype = t.dtype.clone();
                assert(param_fault(self.circuits@[i as int], types[i as int]) == Some(ParamFault::WrongDType));
                assert(dtype == types[i as int].0);
                return Err(ShotLoopError::WrongParamDType { circuit: i, dtype });
            }
            let rank = t.shape.len();
            if rank == 0 {
                return Err(ShotLoopError::EmptyParamShape { circuit: i });
            }
            let expected = circuit.num_parameters;
            let last_ok = match &t.shape[rank - 1] {
                Dim::Fixed(k) => *k == expected,
                Dim::Named(_) => true,
            };
            if !last_ok {
                let shape = copy_dims(t.shape.as_slice());
                assert(param_fault(self.circuits@[i as int], types[i as int]) == Some(ParamFault::WrongShape));
                return Err(ShotLoopError::WrongParamShape { circuit: i, shape, expected });
            }
            let mut prefix_dims = copy_dims(t.shape.as_slice());
            prefix_dims.pop();
            let prefix = prefix_dims.as_slice();
            let ghost before = outputs@;
            push_registers(&mut outputs, prefix, self.shots, circuit.cregs.as_slice());
            assert(prefix@ =~= t.shape@.drop_last());
            assert(type_views(outputs@) =~= resolved_registers(self.circuits@, self.shots, types, (i + 1) as nat));
        }
        Ok(outputs)
    }
}

// ---------------------------------------------------------------------------
// Inferring a shot loop's register types, circuit by circuit
// ---------------------------------------------------------------------------

/// Errors from inferring the register types of a shot loop.
#[derive(Debug, PartialEq, Eq)]
pub enum InferShotLoopError {
    /// The circuits and the params types given for them are not as many.
    CountMismatch { circuits: usize, specs: usize },
    /// The shot loop refused a params type.
    ShotLoop(ShotLoopError),
}

/// How a mismatch between the number of circuits and of params types is reported.
pub open spec fn count_mismatch_text(circuits: usize, specs: usize) -> Seq<char> {
    "shot_loop got "@ + decimal(circuits as nat) + " circuit(s) but "@ + decimal(specs as nat)
        + " params spec(s); these must match"@
}

/// How a mismatch between the number of circuits and of params types is reported.
pub fn count_mismatch_message(circuits: usize, specs: usize) -> (text: String)
    ensures
        text@ == count_mismatch_text(circuits, specs),
{
    let mut text = String::new();
    push_str(&mut text, "shot_loop got ");
    push_decimal(&mut text, circuits);
    push_str(&mut text, " circuit(s) but ");
    push_decimal(&mut text, specs);
    push_str(&mut text, " params spec(s); these must match");
    text
}

/// The register types of the circuits up to `m` come first among those of the circuits up to `n`.
proof fn lemma_registers_prefix(circuits: Seq<CircuitData>, shots: usize, types: Seq<(DTypeLike, Seq<Dim>, bool)>, m: nat, n: nat)
    requires
        m <= n,
    ensures
        resolved_registers(circuits, shots, types, m).len() <= resolved_registers(circuits, shots, types, n).len(),
        forall|k: int| 0 <= k < resolved_registers(circuits, shots, types, m).len()
            ==> #[trigger] resolved_registers(circuits, shots, types, n)[k] == resolved_registers(circuits, shots, types, m)[k],
    decreases n,
{
    if m < n {
        lemma_registers_prefix(circuits, shots, types, m, (n - 1) as nat);
    }
}

/// The register types of one circuit, each keyed by its register's name: the register types of
/// circuit `i` with the batch prefix of its params type `t`.
pub open spec fn keyed_registers(circuit: CircuitData, shots: usize, t: (DTypeLike, Seq<Dim>, bool))
    -> Seq<(Seq<char>, (DTypeLike, Seq<Dim>, bool))>
{
    Seq::new(circuit.cregs@.len(), |j: int| (circuit.cregs@[j].name@, register_type(t.1.drop_last(), shots, circuit.cregs@[j])))
}

/// The register types of a shot loop running `circuits` for `shots` shots, given the type of
/// each circuit's params: one group per circuit, holding each of its registers' names with the
/// type of its bits.
///
/// The circuits and the params types must be as many; the params types must be accepted as
/// [`ShotLoop`] resolves them.
pub fn infer_shot_loop(circuits: Vec<CircuitData>, shots: usize, param_types: &[TensorType])
    -> (res: Result<Vec<Vec<(String, TensorType)>>, InferShotLoopError>)
    ensures
        circuits@.len() != param_types@.len() ==> res == Err::<Vec<Vec<(String, TensorType)>>, InferShotLoopError>(
            InferShotLoopError::CountMismatch { circuits: circuits@.len() as usize, specs: param_types@.len() as usize }),
        circuits@.len() == param_types@.len() ==> {
            let types = type_views(param_types@);
            match first_fault(circuits@, types, circuits@.len()) {
                Some((i, fault)) => res matches Err(InferShotLoopError::ShotLoop(e))
                    && reports_fault(e, i, fault, circuits@[i as int], types[i as int]),
                None => res matches Ok(groups) && groups@.len() == circuits@.len()
                    && forall|i: int| 0 <= i < groups@.len()
                        ==> named_type_views(#[trigger] groups@[i]@) == keyed_registers(circuits@[i], shots, types[i]),
            }
        },
{
    if circuits.len() != param_types.len() {
        return Err(InferShotLoopError::CountMismatch { circuits: circuits.len(), specs: param_types.len() });
    }
    let node = ShotLoop::new(circuits, shots);
    let flat = match node.resolve_types_flat(param_types) {
        Ok(flat) => flat,
        Err(e) => return Err(InferShotLoopError::ShotLoop(e)),
    };
    let circuits = node.circuits();
    let n = circuits.len();
    let ghost types = type_views(param_types@);
    let ghost all = resolved_registers(circuits@, shots, types, n as nat);
    let mut groups: Vec<Vec<(String, TensorType)>> = Vec::new();
    let mut k: usize = 0;
    for i in 0..n
        invariant
            n == circuits@.len(),
            n == param_types@.len(),
            types == type_views(param_types@),
            all == resolved_registers(circuits@, shots, types, n as nat),
            type_views(flat@) == all,
            k == resolved_registers(circuits@, shots, types, i as nat).len(),
            groups@.len() == i,
            forall|g: int| 0 <= g < i
                ==> named_type_views(#[trigger] groups@[g]@) == keyed_registers(circuits@[g], shots, types[g]),
    {
        proof {
            lemma_registers_prefix(circuits@, shots, types, (i + 1) as nat, n as nat);
        }
        let cregs = circuits[i].cregs();
        let ghost block = resolved_registers(circuits@, shots, types, (i + 1) as nat);
        assert(block.len() == k + cregs@.len());
        assert(flat@.len() == all.len());
        let mut group: Vec<(String, TensorType)> = Vec::new();
        for j in 0..cregs.len()
            invariant
                cregs@ == circuits@[i as int].cregs@,
                i < n,
                n == circuits@.len(),
                n == param_types@.len(),
                types == type_views(param_types@),
                flat@.len() == all.len(),
                block.len() == k + cregs@.len(),
                group@.len() == j,
                type_views(flat@) == all,
                all == resolved_registers(circuits@, shots, types, n as nat),
                block == resolved_registers(circuits@, shots, types, (i + 1) as nat),
                block.len() <= all.len(),
                forall|q: int| 0 <= q < block.len() ==> #[trigger] all[q] == block[q],
                k == resolved_registers(circuits@, shots, types, i as nat).len(),
                named_type_views(group@) == keyed_registers(circuits@[i as int], shots, types[i as int]).take(j as int),
        {
            let ghost q = k + j;
            let ghost wanted = keyed_registers(circuits@[i as int], shots, types[i as int]);
            assert(block[q] == register_type(types[i as int].1.drop_last(), shots, cregs@[j as int]));
            assert(type_views(flat@)[q] == flat@[q]@);
            assert(q < block.len() <= flat@.len());
            assert(flat@.len() == flat.len());
            assert(k + j < flat.len());
            let entry = (cregs[j].name.clone(), flat[k + j].clone());
            let ghost before = group@;
            group.push(entry);
            assert(named_type_views(group@) =~= wanted.take(j + 1)) by {
                assert(group@ == before.push(entry));
                assert forall|p: int| 0 <= p < j + 1 implies #[trigger] named_type_views(group@)[p] == wanted.take(j + 1)[p] by {
                    if p < j {
                        assert(group@[p] == before[p]);
                        assert(named_type_views(before)[p] == wanted.take(j as int)[p]);
                    } else {
                        assert(group@[p] == entry);
                        assert(entry.1@ == all[q]);
                    }
                }
            }
        }
        assert(named_type_views(group@) =~= keyed_registers(circuits@[i as int], shots, types[i as int]));
        assert(k + cregs@.len() <= flat@.len());
        assert(flat@.len() == flat.len());
        k = k + cregs.len();
        let ghost prev = groups@;
        groups.push(group);
        assert forall|g: int| 0 <= g < i + 1
            implies named_type_views(#[trigger] groups@[g]@) == keyed_registers(circuits@[g], shots, types[g]) by {
            if g < i {
                assert(groups@[g] == prev[g]);
            }
        }
    }
    Ok(groups)
}

} // verus!
