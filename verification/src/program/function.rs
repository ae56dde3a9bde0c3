//! Programs as functions of nodes in static single assignment form.

use vstd::prelude::*;

use crate::data_tree::{DataTree, TreeView, leaves};
use crate::program_node::full_name_of;
use crate::tensor::{DTypeLike, Dim, TensorType, type_views};
use crate::text::push_str;

verus! {

// ---------------------------------------------------------------------------
// Nodes
// ---------------------------------------------------------------------------

/// What a node does in its function.
#[derive(Debug, Clone, Copy, PartialEq, Eq, Structural)]
pub enum NodeRole {
    /// Declares an input of the function.
    Parameter,
    /// Applies a node type to its operands.
    Op,
    /// Calls another function of the program.
    Call,
    /// Declares an output of the function.
    Result,
}

/// A node type, by what the program needs of it: its namespace and name, and the payload it
/// describes itself by, if any.
#[derive(Debug)]
pub struct OpNodeType {
    pub namespace: String,
    pub name: String,
    pub description: Option<String>,
}

/// What a node is: a boundary node, a call of a function given by its index, or an application
/// of a node type.
#[derive(Debug)]
pub enum NodeView {
    Parameter,
    Result,
    Call(usize),
    Op(OpNodeType),
}

/// One value of a function: the output `slot` of the node `node`.
#[derive(Debug, Clone, Copy, PartialEq, Eq, Structural)]
pub struct Value {
    pub node: usize,
    pub slot: usize,
}

/// A node of a function: what it is, the values it reads, and the types of the values it
/// produces.
#[derive(Debug)]
pub struct Node {
    pub view: NodeView,
    pub operands: Vec<Value>,
    pub output_types: Vec<TensorType>,
}

/// The view of what a node is, with names as characters.
pub enum NodeKind {
    Parameter,
    Result,
    Call(usize),
    Op { full_name: Seq<char>, description: Option<Seq<char>> },
}

/// The view of a node.
pub struct NodeSpec {
    pub kind: NodeKind,
    pub operands: Seq<Value>,
    pub outputs: Seq<(DTypeLike, Seq<Dim>, bool)>,
}

/// The view of an optional name.
pub open spec fn opt_view(s: Option<String>) -> Option<Seq<char>> {
    match s {
        Some(t) => Some(t@),
        None => None,
    }
}

impl View for OpNodeType {
    type V = (Seq<char>, Option<Seq<char>>);

    open spec fn view(&self) -> (Seq<char>, Option<Seq<char>>) {
        (full_name_of(self.namespace@, self.name@), opt_view(self.description))
    }
}

impl View for NodeView {
    type V = NodeKind;

    open spec fn view(&self) -> NodeKind {
        match self {
            NodeView::Parameter => NodeKind::Parameter,
            NodeView::Result => NodeKind::Result,
            NodeView::Call(f) => NodeKind::Call(*f),
            NodeView::Op(t) => NodeKind::Op { full_name: t@.0, description: t@.1 },
        }
    }
}

impl View for Node {
    type V = NodeSpec;

    open spec fn view(&self) -> NodeSpec {
        NodeSpec { kind: self.view@, operands: self.operands@, outputs: type_views(self.output_types@) }
    }
}

/// The role of a node of kind `kind`.
pub open spec fn role_of(kind: NodeKind) -> NodeRole {
    match kind {
        NodeKind::Parameter => NodeRole::Parameter,
        NodeKind::Result => NodeRole::Result,
        NodeKind::Call(_) => NodeRole::Call,
        NodeKind::Op { .. } => NodeRole::Op,
    }
}

/// The type name a node of kind `kind` reports.
pub open spec fn kind_name(kind: NodeKind) -> Seq<char> {
    match kind {
        NodeKind::Parameter => "qiskit.parameter"@,
        NodeKind::Result => "qiskit.result"@,
        NodeKind::Call(_) => "qiskit.call"@,
        NodeKind::Op { full_name, .. } => full_name,
    }
}

impl OpNodeType {
    /// A node type of the given namespace and name, describing itself by `description`.
    pub fn new(namespace: &str, name: &str, description: Option<&str>) -> (t: OpNodeType)
        ensures
            t.namespace@ == namespace@,
            t.name@ == name@,
            opt_view(t.description) == match description {
                Some(d) => Some(d@),
                None => None::<Seq<char>>,
            },
            t@ == (full_name_of(namespace@, name@), match description {
                Some(d) => Some(d@),
                None => None::<Seq<char>>,
            }),
    {
        let description = match description {
            Some(d) => Some(String::from_str(d)),
            None => None,
        };
        OpNodeType { namespace: String::from_str(namespace), name: String::from_str(name), description }
    }

    /// `namespace.name`.
    pub fn full_name(&self) -> (s: String)
        ensures
            s@ == self@.0,
    {
        let mut s = self.namespace.clone();
        push_str(&mut s, ".");
        push_str(&mut s, self.name.as_str());
        s
    }

    /// The payload this node type describes itself by, if any.
    pub fn describe(&self) -> (d: Option<String>)
        ensures
            opt_view(d) == self@.1,
    {
        match &self.description {
            Some(d) => Some(d.clone()),
            None => None,
        }
    }

    /// A copy of this node type.
    pub fn copy(&self) -> (t: OpNodeType)
        ensures
            t@ == self@,
            t.namespace@ == self.namespace@,
            t.name@ == self.name@,
    {
        OpNodeType { namespace: self.namespace.clone(), name: self.name.clone(), description: self.describe() }
    }
}

impl Node {
    /// What this node is.
    pub fn node_view(&self) -> (v: &NodeView)
        ensures
            v@ == self@.kind,
    {
        &self.view
    }

    /// The values this node reads.
    pub fn operands(&self) -> (ops: &[Value])
        ensures
            ops@ == self@.operands,
    {
        self.operands.as_slice()
    }

    /// The types of the values this node produces.
    pub fn output_types(&self) -> (types: &[TensorType])
        ensures
            type_views(types@) == self@.outputs,
    {
        self.output_types.as_slice()
    }

    /// What this node does in its function.
    pub fn role(&self) -> (r: NodeRole)
        ensures
            r == role_of(self@.kind),
    {
        match &self.view {
            NodeView::Parameter => NodeRole::Parameter,
            NodeView::Result => NodeRole::Result,
            NodeView::Call(_) => NodeRole::Call,
            NodeView::Op(_) => NodeRole::Op,
        }
    }

    /// The type name this node reports.
    pub fn full_name(&self) -> (s: String)
        ensures
            s@ == kind_name(self@.kind),
    {
        match &self.view {
            NodeView::Parameter => String::from_str("qiskit.parameter"),
            NodeView::Result => String::from_str("qiskit.result"),
            NodeView::Call(_) => String::from_str("qiskit.call"),
            NodeView::Op(t) => t.full_name(),
        }
    }
}

// ---------------------------------------------------------------------------
// Functions
// ---------------------------------------------------------------------------

/// Whether `v` is a value produced before node `before` of `nodes`.
pub open spec fn value_before(nodes: Seq<NodeSpec>, v: Value, before: int) -> bool {
    v.node < before && v.slot < nodes[v.node as int].outputs.len()
}

/// Whether `nodes` is a function in static single assignment form: each node reads values of
/// nodes before it, a parameter reads nothing and produces one value, and a result reads one
/// value and produces nothing.
pub open spec fn function_wf(nodes: Seq<NodeSpec>) -> bool {
    &&& forall|i: int, k: int| 0 <= i < nodes.len() && 0 <= k < nodes[i].operands.len()
        ==> value_before(nodes, #[trigger] nodes[i].operands[k], i)
    &&& forall|i: int| 0 <= i < nodes.len() && (#[trigger] nodes[i].kind) is Parameter
        ==> nodes[i].operands.len() == 0 && nodes[i].outputs.len() == 1
    &&& forall|i: int| 0 <= i < nodes.len() && (#[trigger] nodes[i].kind) is Result
        ==> nodes[i].operands.len() == 1 && nodes[i].outputs.len() == 0
}

/// The views of a sequence of nodes.
pub open spec fn node_views(nodes: Seq<Node>) -> Seq<NodeSpec> {
    nodes.map_values(|n: Node| n@)
}

/// One function of a program: its nodes, in the order they were added, each numbered by its
/// position.
#[derive(Debug)]
pub struct ProgramFunction {
    pub(crate) nodes: Vec<Node>,
}

impl View for ProgramFunction {
    type V = Seq<NodeSpec>;

    closed spec fn view(&self) -> Seq<NodeSpec> {
        node_views(self.nodes@)
    }
}

/// Errors raised when a function or a program is built.
#[derive(Debug, PartialEq, Eq)]
pub enum ProgramError {
    /// An operand names a value no earlier node produces.
    UnknownValue { node: usize, slot: usize },
    /// A call passes another number of operands than its callee declares.
    CallArity { expected: usize, actual: usize },
    /// A program holds no function.
    NoFunctions,
    /// A call names a function the program does not hold.
    UnknownFunction { function: usize },
    /// The entry point declares another number of inputs or outputs than the program's structure
    /// has leaves.
    StructureMismatch { expected: usize, actual: usize },
}

/// What a function declares: the types of its parameters and of its results, in order.
#[derive(Debug)]
pub struct Signature {
    pub inputs: Vec<TensorType>,
    pub outputs: Vec<TensorType>,
}

/// The positions of the nodes of `role` among `nodes`, in order.
pub open spec fn positions_of(nodes: Seq<NodeSpec>, role: NodeRole) -> Seq<usize>
    decreases nodes.len(),
{
    if nodes.len() == 0 {
        Seq::empty()
    } else if role_of(nodes.last().kind) == role {
        positions_of(nodes.drop_last(), role).push((nodes.len() - 1) as usize)
    } else {
        positions_of(nodes.drop_last(), role)
    }
}

/// The values the parameters of `nodes` declare, in order.
pub open spec fn parameter_values_of(nodes: Seq<NodeSpec>) -> Seq<Value> {
    positions_of(nodes, NodeRole::Parameter).map_values(|i: usize| Value { node: i, slot: 0 })
}

/// The values the results of `nodes` return, in order.
pub open spec fn result_values_of(nodes: Seq<NodeSpec>) -> Seq<Value> {
    positions_of(nodes, NodeRole::Result).map_values(|i: usize| nodes[i as int].operands[0])
}

/// The positions of the nodes of one role lie within the function, in increasing order.
pub proof fn lemma_positions(nodes: Seq<NodeSpec>, role: NodeRole)
    requires
        nodes.len() <= usize::MAX,
    ensures
        forall|k: int| 0 <= k < positions_of(nodes, role).len() ==> {
            let i = #[trigger] positions_of(nodes, role)[k];
            &&& i < nodes.len()
            &&& role_of(nodes[i as int].kind) == role
        },
        forall|a: int, b: int| 0 <= a < b < positions_of(nodes, role).len()
            ==> #[trigger] positions_of(nodes, role)[a] < #[trigger] positions_of(nodes, role)[b],
    decreases nodes.len(),
{
    if nodes.len() > 0 {
        let d = nodes.drop_last();
        lemma_positions(d, role);
        let rest = positions_of(d, role);
        let all = positions_of(nodes, role);
        if role_of(nodes.last().kind) == role {
            assert(all == rest.push((nodes.len() - 1) as usize));
        } else {
            assert(all == rest);
        }
        assert forall|k: int| 0 <= k < all.len() implies {
            let i = #[trigger] all[k];
            &&& i < nodes.len()
            &&& role_of(nodes[i as int].kind) == role
        } by {
            if k < rest.len() {
                assert(all[k] == rest[k]);
                assert(d[rest[k] as int] == nodes[rest[k] as int]);
            }
        }
        assert forall|a: int, b: int| 0 <= a < b < all.len() implies #[trigger] all[a] < #[trigger] all[b] by {
            if b < rest.len() {
                assert(all[a] == rest[a]);
                assert(all[b] == rest[b]);
            } else {
                assert(all[a] == rest[a]);
            }
        }
    }
}

/// The positions of one role among a prefix of the nodes are a prefix of the positions.
pub proof fn lemma_positions_push(nodes: Seq<NodeSpec>, node: NodeSpec, role: NodeRole)
    ensures
        positions_of(nodes.push(node), role) == if role_of(node.kind) == role {
            positions_of(nodes, role).push(nodes.len() as usize)
        } else {
            positions_of(nodes, role)
        },
{
    assert(nodes.push(node).drop_last() == nodes);
}

impl ProgramFunction {
    /// A function with no nodes.
    pub fn new() -> (f: ProgramFunction)
        ensures
            f@ == Seq::<NodeSpec>::empty(),
    {
        let f = ProgramFunction { nodes: Vec::new() };
        assert(f@ =~= Seq::<NodeSpec>::empty());
        f
    }

    /// A function is in static single assignment form.
    #[verifier::type_invariant]
    pub(crate) closed spec fn well_formed(self) -> bool {
        function_wf(self@)
    }

    /// The number of nodes.
    pub fn node_count(&self) -> (n: usize)
        ensures
            n == self@.len(),
            function_wf(self@),
    {
        proof {
            use_type_invariant(self);
        }
        self.nodes.len()
    }

    /// The node numbered `id`.
    pub fn node(&self, id: usize) -> (node: &Node)
        requires
            id < self@.len(),
        ensures
            node@ == self@[id as int],
    {
        &self.nodes[id]
    }

    /// Whether `value` is produced by a node of this function.
    pub fn has_value(&self, value: Value) -> (b: bool)
        ensures
            b == value_before(self@, value, self@.len() as int),
    {
        value.node < self.nodes.len() && value.slot < self.nodes[value.node].output_types.len()
    }

    /// Append `node`, which must read values of this function and be shaped as its role requires.
    fn push_node(&mut self, node: Node)
        requires
            forall|k: int| 0 <= k < node@.operands.len() ==> value_before(old(self)@, #[trigger] node@.operands[k], old(self)@.len() as int),
            node@.kind is Parameter ==> node@.operands.len() == 0 && node@.outputs.len() == 1,
            node@.kind is Result ==> node@.operands.len() == 1 && node@.outputs.len() == 0,
        ensures
            final(self)@ == old(self)@.push(node@),
    {
        proof {
            use_type_invariant(&*self);
        }
        let ghost before = self@;
        let ghost nv = node@;
        let mut nodes = Vec::new();
        std::mem::swap(&mut nodes, &mut self.nodes);
        nodes.push(node);
        proof {
            let after = node_views(nodes@);
            assert(after =~= before.push(nv));
            assert forall|i: int, k: int| 0 <= i < after.len() && 0 <= k < after[i].operands.len()
                implies value_before(after, #[trigger] after[i].operands[k], i) by {
                if i < before.len() {
                    assert(after[i] == before[i]);
                    let v = before[i].operands[k];
                    assert(value_before(before, v, i));
                    assert(after[v.node as int] == before[v.node as int]);
                } else {
                    let v = nv.operands[k];
                    assert(after[v.node as int] == before[v.node as int]);
                }
            }
            assert(function_wf(after));
        }
        self.nodes = nodes;
    }

    /// Declare a parameter of type `ty`, returning its value.
    pub fn add_parameter(&mut self, ty: TensorType) -> (value: Value)
        ensures
            final(self)@ == old(self)@.push(NodeSpec {
                kind: NodeKind::Parameter,
                operands: Seq::empty(),
                outputs: seq![ty@],
            }),
            value == (Value { node: old(self)@.len() as usize, slot: 0 }),
    {
        let id = self.nodes.len();
        let ghost tv = ty@;
        let node = Node { view: NodeView::Parameter, operands: Vec::new(), output_types: vec![ty] };
        assert(node@.operands =~= Seq::<Value>::empty());
        assert(node@.outputs =~= seq![tv]);
        self.push_node(node);
        Value { node: id, slot: 0 }
    }

    /// The values of a node numbered `id` producing `count` values.
    fn values_of(id: usize, count: usize) -> (values: Vec<Value>)
        ensures
            values@ == Seq::new(count as nat, |k: int| Value { node: id, slot: k as usize }),
    {
        let mut values: Vec<Value> = Vec::new();
        for k in 0..count
            invariant
                values@ == Seq::new(k as nat, |j: int| Value { node: id, slot: j as usize }),
        {
            values.push(Value { node: id, slot: k });
            assert(values@ =~= Seq::new((k + 1) as nat, |j: int| Value { node: id, slot: j as usize }));
        }
        values
    }

    /// Check that every operand is a value of this function.
    fn check_operands(&self, operands: &[Value]) -> (res: Result<(), ProgramError>)
        ensures
            match res {
                Ok(()) => forall|k: int| 0 <= k < operands@.len() ==> value_before(self@, #[trigger] operands@[k], self@.len() as int),
                Err(e) => exists|k: int| 0 <= k < operands@.len() && !value_before(self@, #[trigger] operands@[k], self@.len() as int)
                    && e == (ProgramError::UnknownValue { node: operands@[k].node, slot: operands@[k].slot }),
            },
    {
        for k in 0..operands.len()
            invariant
                forall|j: int| 0 <= j < k ==> value_before(self@, #[trigger] operands@[j], self@.len() as int),
        {
            if !self.has_value(operands[k]) {
                return Err(ProgramError::UnknownValue { node: operands[k].node, slot: operands[k].slot });
            }
        }
        Ok(())
    }

    /// Apply `op` to `operands`, producing values of `output_types`; returns the new values.
    ///
    /// Fails if an operand is not a value of this function.
    pub fn add_node(&mut self, op: OpNodeType, operands: &[Value], output_types: Vec<TensorType>)
        -> (res: Result<Vec<Value>, ProgramError>)
        ensures
            match res {
                Ok(values) => {
                    &&& forall|k: int| 0 <= k < operands@.len() ==> value_before(old(self)@, #[trigger] operands@[k], old(self)@.len() as int)
                    &&& final(self)@ == old(self)@.push(NodeSpec {
                        kind: NodeKind::Op { full_name: op@.0, description: op@.1 },
                        operands: operands@,
                        outputs: type_views(output_types@),
                    })
                    &&& values@ == Seq::new(output_types@.len(), |k: int| Value { node: old(self)@.len() as usize, slot: k as usize })
                },
                Err(e) => final(self)@ == old(self)@ && exists|k: int| 0 <= k < operands@.len()
                    && !value_before(old(self)@, #[trigger] operands@[k], old(self)@.len() as int)
                    && e == (ProgramError::UnknownValue { node: operands@[k].node, slot: operands@[k].slot }),
            },
    {
        match self.check_operands(operands) {
            Ok(()) => {},
            Err(e) => return Err(e),
        }
        let id = self.nodes.len();
        let count = output_types.len();
        let node = Node { view: NodeView::Op(op), operands: crate::tensor::copy_words(operands), output_types };
        self.push_node(node);
        let values = Self::values_of(id, count);
        assert(values@ =~= Seq::new(count as nat, |k: int| Value { node: id, slot: k as usize }));
        Ok(values)
    }

    /// Call the function numbered `callee`, whose signature is `signature`, on `operands`;
    /// returns the values it produces.
    ///
    /// Fails if an operand is not a value of this function, or if the number of operands is not
    /// the number of inputs the signature declares.
    pub fn add_call(&mut self, callee: usize, signature: &Signature, operands: &[Value])
        -> (res: Result<Vec<Value>, ProgramError>)
        ensures
            match res {
                Ok(values) => {
                    &&& operands@.len() == signature.inputs@.len()
                    &&& final(self)@ == old(self)@.push(NodeSpec {
                        kind: NodeKind::Call(callee),
                        operands: operands@,
                        outputs: type_views(signature.outputs@),
                    })
                    &&& values@ == Seq::new(signature.outputs@.len(), |k: int| Value { node: old(self)@.len() as usize, slot: k as usize })
                },
                Err(e) => final(self)@ == old(self)@ && (
                    (operands@.len() != signature.inputs@.len()
                        && e == (ProgramError::CallArity { expected: signature.inputs@.len() as usize, actual: operands@.len() as usize }))
                    || (operands@.len() == signature.inputs@.len() && exists|k: int| 0 <= k < operands@.len()
                        && !value_before(old(self)@, #[trigger] operands@[k], old(self)@.len() as int)
                        && e == (ProgramError::UnknownValue { node: operands@[k].node, slot: operands@[k].slot }))),
            },
    {
        if operands.len() != signature.inputs.len() {
            return Err(ProgramError::CallArity { expected: signature.inputs.len(), actual: operands.len() });
        }
        match self.check_operands(operands) {
            Ok(()) => {},
            Err(e) => return Err(e),
        }
        let id = self.nodes.len();
        let outputs = copy_types(signature.outputs.as_slice());
        let count = outputs.len();
        assert(type_views(outputs@).len() == outputs@.len());
        assert(type_views(signature.outputs@).len() == signature.outputs@.len());
        assert(count == signature.outputs@.len());
        let node = Node { view: NodeView::Call(callee), operands: crate::tensor::copy_words(operands), output_types: outputs };
        self.push_node(node);
        let values = Self::values_of(id, count);
        assert(values@ =~= Seq::new(count as nat, |k: int| Value { node: id, slot: k as usize }));
        Ok(values)
    }

    /// Declare `value` an output of this function.
    ///
    /// Fails if it is not a value of this function.
    pub fn add_result(&mut self, value: Value) -> (res: Result<(), ProgramError>)
        ensures
            match res {
                Ok(()) => value_before(old(self)@, value, old(self)@.len() as int)
                    && final(self)@ == old(self)@.push(NodeSpec {
                        kind: NodeKind::Result,
                        operands: seq![value],
                        outputs: Seq::empty(),
                    }),
                Err(e) => !value_before(old(self)@, value, old(self)@.len() as int) && final(self)@ == old(self)@
                    && e == (ProgramError::UnknownValue { node: value.node, slot: value.slot }),
            },
    {
        if !self.has_value(value) {
            return Err(ProgramError::UnknownValue { node: value.node, slot: value.slot });
        }
        let node = Node { view: NodeView::Result, operands: vec![value], output_types: Vec::new() };
        assert(node@.operands =~= seq![value]);
        assert(node@.outputs =~= Seq::<(DTypeLike, Seq<Dim>, bool)>::empty());
        self.push_node(node);
        Ok(())
    }

    /// The positions of the nodes of `role`, in order.
    pub fn positions(&self, role: NodeRole) -> (ids: Vec<usize>)
        ensures
            ids@ == positions_of(self@, role),
    {
        let mut ids: Vec<usize> = Vec::new();
        let mut i: usize = 0;
        while i < self.nodes.len()
            invariant
                i <= self.nodes.len(),
                ids@ == positions_of(self@.take(i as int), role),
            decreases self.nodes.len() - i,
        {
            proof {
                assert(self@.take(i + 1) == self@.take(i as int).push(self@[i as int]));
                lemma_positions_push(self@.take(i as int), self@[i as int], role);
            }
            if self.nodes[i].role() == role {
                ids.push(i);
            }
            i = i + 1;
        }
        assert(self@.take(self@.len() as int) == self@);
        ids
    }

    /// The positions of the parameter nodes, in order.
    pub fn parameters(&self) -> (ids: Vec<usize>)
        ensures
            ids@ == positions_of(self@, NodeRole::Parameter),
    {
        self.positions(NodeRole::Parameter)
    }

    /// The positions of the result nodes, in order.
    pub fn results(&self) -> (ids: Vec<usize>)
        ensures
            ids@ == positions_of(self@, NodeRole::Result),
    {
        self.positions(NodeRole::Result)
    }

    /// The values the parameters declare, in order.
    pub fn parameter_values(&self) -> (values: Vec<Value>)
        ensures
            values@ == parameter_values_of(self@),
    {
        let ids = self.parameters();
        let mut values: Vec<Value> = Vec::new();
        for k in 0..ids.len()
            invariant
                ids@ == positions_of(self@, NodeRole::Parameter),
                values@ == ids@.take(k as int).map_values(|i: usize| Value { node: i, slot: 0 }),
        {
            values.push(Value { node: ids[k], slot: 0 });
            assert(values@ =~= ids@.take(k + 1).map_values(|i: usize| Value { node: i, slot: 0 }));
        }
        assert(ids@.take(ids.len() as int) == ids@);
        values
    }

    /// The values the results return, in order.
    pub fn result_values(&self) -> (values: Vec<Value>)
        ensures
            values@ == result_values_of(self@),
    {
        let count = self.nodes.len();
        proof {
            use_type_invariant(self);
            assert(self@.len() == count);
            lemma_positions(self@, NodeRole::Result);
        }
        let ids = self.results();
        let mut values: Vec<Value> = Vec::new();
        for k in 0..ids.len()
            invariant
                ids@ == positions_of(self@, NodeRole::Result),
                function_wf(self@),
                forall|j: int| 0 <= j < ids@.len() ==> {
                    let i = #[trigger] ids@[j];
                    &&& i < self@.len()
                    &&& role_of(self@[i as int].kind) == NodeRole::Result
                },
                values@ == ids@.take(k as int).map_values(|i: usize| self@[i as int].operands[0]),
        {
            let id = ids[k];
            assert(self@[id as int].kind is Result);
            let v = self.nodes[id].operands[0];
            values.push(v);
            assert(values@ =~= ids@.take(k + 1).map_values(|i: usize| self@[i as int].operands[0]));
        }
        assert(ids@.take(ids.len() as int) == ids@);
        values
    }

    /// The type of `value`, if it is a value of this function.
    pub fn type_of(&self, value: Value) -> (ty: Option<&TensorType>)
        ensures
            match ty {
                Some(t) => value_before(self@, value, self@.len() as int)
                    && t@ == self@[value.node as int].outputs[value.slot as int],
                None => !value_before(self@, value, self@.len() as int),
            },
    {
        if self.has_value(value) {
            Some(&self.nodes[value.node].output_types[value.slot])
        } else {
            None
        }
    }

    /// The types of the parameters and of the results, in order.
    pub fn signature(&self) -> (sig: Signature)
        ensures
            type_views(sig.inputs@) == parameter_values_of(self@).map_values(|v: Value| self@[v.node as int].outputs[v.slot as int]),
            type_views(sig.outputs@) == result_values_of(self@).map_values(|v: Value| self@[v.node as int].outputs[v.slot as int]),
    {
        let count = self.nodes.len();
        proof {
            use_type_invariant(self);
            assert(self@.len() == count);
            lemma_positions(self@, NodeRole::Parameter);
            lemma_positions(self@, NodeRole::Result);
        }
        let params = self.parameter_values();
        let results = self.result_values();
        Signature { inputs: self.types_of(&params), outputs: self.types_of(&results) }
    }

    /// The types of `values`, each of which must be a value of this function.
    pub fn types_of(&self, values: &Vec<Value>) -> (types: Vec<TensorType>)
        requires
            forall|k: int| 0 <= k < values@.len() ==> value_before(self@, #[trigger] values@[k], self@.len() as int),
        ensures
            type_views(types@) == values@.map_values(|v: Value| self@[v.node as int].outputs[v.slot as int]),
    {
        let mut types: Vec<TensorType> = Vec::new();
        for k in 0..values.len()
            invariant
                forall|j: int| 0 <= j < values@.len() ==> value_before(self@, #[trigger] values@[j], self@.len() as int),
                types@.len() == k,
                forall|j: int| 0 <= j < k ==> #[trigger] types@[j]@ == self@[values@[j].node as int].outputs[values@[j].slot as int],
        {
            let v = values[k];
            assert(value_before(self@, values@[k as int], self@.len() as int));
            assert(self@[v.node as int] == self.nodes@[v.node as int]@);
            let t = self.nodes[v.node].output_types[v.slot].clone();
            assert(t@ == self@[v.node as int].outputs[v.slot as int]);
            types.push(t);
        }
        assert(type_views(types@) =~= values@.map_values(|v: Value| self@[v.node as int].outputs[v.slot as int]));
        types
    }
}

/// Copies of tensor types, each keeping its view.
pub fn copy_types(types: &[TensorType]) -> (copy: Vec<TensorType>)
    ensures
        type_views(copy@) == type_views(types@),
{
    let mut copy: Vec<TensorType> = Vec::new();
    for k in 0..types.len()
        invariant
            copy@.len() == k,
            forall|j: int| 0 <= j < k ==> #[trigger] copy@[j]@ == types@[j]@,
    {
        copy.push(types[k].clone());
    }
    assert(type_views(copy@) =~= type_views(types@));
    copy
}

} // verus!
