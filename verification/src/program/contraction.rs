//! Contracting a program into functions of one category each.
//!
//! Each execution resource declares the node types it handles. Contraction groups the computing
//! nodes of the entry point into units of one category, each of which becomes a function, and
//! rewrites the entry point to call each unit in turn.

use vstd::prelude::*;

use crate::collections::{NameIndex, PairIndex, PairMap, name_index_contents, pair_index_contents, pair_map_contents};
use crate::program::{ProgramSpec, QuantumProgram, calls_resolve, function_views, program_wf};
use crate::program::function::{
    NodeKind, NodeRole, NodeSpec, NodeView, OpNodeType, ProgramFunction, Signature, Value, copy_types, function_wf,
    parameter_values_of, positions_of, result_values_of, role_of, value_before,
};
use crate::tensor::{DTypeLike, Dim, TensorType, type_views};
use crate::text::{decimal, push_decimal, push_str};

verus! {

/// Why a program could not be contracted.
#[derive(Debug, PartialEq, Eq)]
pub enum ContractionError {
    /// The entry point already calls another function.
    EntryPointCall { node: usize },
    /// Two execution resources declare the same node type.
    RepeatedNodeType { name: String, first: usize, second: usize },
}

/// The message describing a contraction error.
pub open spec fn contraction_message(e: ContractionError) -> Seq<char> {
    match e {
        ContractionError::EntryPointCall { node } => "the entry point calls another function at node "@ + decimal(node as nat),
        ContractionError::RepeatedNodeType { name, first, second } =>
            "resource "@ + decimal(first as nat) + " and resource "@ + decimal(second as nat) + " both handle "@ + name@,
    }
}

impl ContractionError {
    /// The message describing this error.
    pub fn to_string(&self) -> (message: String)
        ensures
            message@ == contraction_message(*self),
    {
        match self {
            ContractionError::EntryPointCall { node } => {
                let mut message = String::from_str("the entry point calls another function at node ");
                push_decimal(&mut message, *node);
                message
            },
            ContractionError::RepeatedNodeType { name, first, second } => {
                let mut message = String::from_str("resource ");
                push_decimal(&mut message, *first);
                push_str(&mut message, " and resource ");
                push_decimal(&mut message, *second);
                push_str(&mut message, " both handle ");
                push_str(&mut message, name.as_str());
                message
            },
        }
    }
}

// ---------------------------------------------------------------------------
// Categories
// ---------------------------------------------------------------------------

/// The names each resource declares, by their characters.
pub open spec fn resource_names(resources: Seq<Vec<String>>) -> Seq<Seq<Seq<char>>> {
    resources.map_values(|names: Vec<String>| names@.map_values(|n: String| n@))
}

/// Every declaration, in order: each name a resource declares, paired with that resource.
pub open spec fn declarations(resources: Seq<Seq<Seq<char>>>) -> Seq<(Seq<char>, usize)>
    decreases resources.len(),
{
    if resources.len() == 0 {
        Seq::empty()
    } else {
        declarations(resources.drop_last())
            + resources.last().map_values(|n: Seq<char>| (n, (resources.len() - 1) as usize))
    }
}

/// What indexing declarations comes to: each name's resource, or the first name declared by a
/// second resource, with the resource that declared it first.
pub enum Indexed {
    Declared(Map<Seq<char>, usize>),
    Repeated { name: Seq<char>, first: usize, second: usize },
}

/// Index `decls` in order.
pub open spec fn index_declarations(decls: Seq<(Seq<char>, usize)>) -> Indexed
    decreases decls.len(),
{
    if decls.len() == 0 {
        Indexed::Declared(Map::empty())
    } else {
        match index_declarations(decls.drop_last()) {
            Indexed::Declared(m) => {
                let (name, resource) = decls.last();
                if m.contains_key(name) && m[name] != resource {
                    Indexed::Repeated { name, first: m[name], second: resource }
                } else {
                    Indexed::Declared(m.insert(name, resource))
                }
            },
            repeated => repeated,
        }
    }
}

/// Indexing one more declaration.
proof fn lemma_index_push(decls: Seq<(Seq<char>, usize)>, d: (Seq<char>, usize))
    ensures
        index_declarations(decls.push(d)) == match index_declarations(decls) {
            Indexed::Declared(m) => if m.contains_key(d.0) && m[d.0] != d.1 {
                Indexed::Repeated { name: d.0, first: m[d.0], second: d.1 }
            } else {
                Indexed::Declared(m.insert(d.0, d.1))
            },
            repeated => repeated,
        },
{
    assert(decls.push(d).drop_last() == decls);
}

/// Once indexing fails, more declarations change nothing.
proof fn lemma_index_repeated(decls: Seq<(Seq<char>, usize)>, more: Seq<(Seq<char>, usize)>)
    requires
        index_declarations(decls) is Repeated,
    ensures
        index_declarations(decls + more) == index_declarations(decls),
    decreases more.len(),
{
    if more.len() > 0 {
        lemma_index_repeated(decls, more.drop_last());
        assert((decls + more).drop_last() == decls + more.drop_last());
    } else {
        assert(decls + more == decls);
    }
}

/// Every resource an index names is one of the resources.
proof fn lemma_index_bound(decls: Seq<(Seq<char>, usize)>, bound: usize, m: Map<Seq<char>, usize>)
    requires
        forall|k: int| 0 <= k < decls.len() ==> #[trigger] decls[k].1 < bound,
        index_declarations(decls) == Indexed::Declared(m),
    ensures
        forall|n: Seq<char>| #[trigger] m.contains_key(n) ==> m[n] < bound,
    decreases decls.len(),
{
    if decls.len() > 0 {
        let d = decls.drop_last();
        assert forall|k: int| 0 <= k < d.len() implies #[trigger] d[k].1 < bound by {
            assert(d[k] == decls[k]);
        }
        match index_declarations(d) {
            Indexed::Declared(prev) => {
                lemma_index_bound(d, bound, prev);
                assert(decls.last().1 < bound);
            },
            Indexed::Repeated { .. } => {},
        }
    }
}

/// The declarations of the first `r + 1` resources are those of the first `r`, then those of
/// resource `r`.
proof fn lemma_declarations_take(resources: Seq<Seq<Seq<char>>>, r: int)
    requires
        0 <= r < resources.len(),
    ensures
        declarations(resources.take(r + 1)) == declarations(resources.take(r))
            + resources[r].map_values(|n: Seq<char>| (n, r as usize)),
{
    assert(resources.take(r + 1).drop_last() == resources.take(r));
}

/// Every declaration names one of the resources.
proof fn lemma_declarations_bound(resources: Seq<Seq<Seq<char>>>)
    requires
        resources.len() <= usize::MAX,
    ensures
        forall|k: int| 0 <= k < declarations(resources).len() ==> #[trigger] declarations(resources)[k].1 < resources.len(),
    decreases resources.len(),
{
    if resources.len() > 0 {
        lemma_declarations_bound(resources.drop_last());
        let a = declarations(resources.drop_last());
        let b = resources.last().map_values(|n: Seq<char>| (n, (resources.len() - 1) as usize));
        assert forall|k: int| 0 <= k < (a + b).len() implies #[trigger] (a + b)[k].1 < resources.len() by {
            if k >= a.len() {
                assert((a + b)[k] == b[k - a.len()]);
            }
        }
    }
}

/// Index the declared node type names by resource.
///
/// A name matches a node type by exact equality with its full name. One resource may declare a
/// name twice; two resources may not declare the same name.
pub fn categories(resources: &[Vec<String>]) -> (res: Result<NameIndex, ContractionError>)
    ensures
        match res {
            Ok(index) => index_declarations(declarations(resource_names(resources@)))
                == Indexed::Declared(name_index_contents(index)),
            Err(e) => index_declarations(declarations(resource_names(resources@))) matches Indexed::Repeated {
                name, first, second } && e matches ContractionError::RepeatedNodeType { name: n, first: f, second: s }
                && n@ == name && f == first && s == second,
        },
{
    let ghost rv = resource_names(resources@);
    let mut index = NameIndex::new();
    assert(name_index_contents(index) =~= Map::<Seq<char>, usize>::empty());
    let mut r: usize = 0;
    while r < resources.len()
        invariant
            rv == resource_names(resources@),
            rv.len() == resources@.len(),
            r <= resources.len(),
            index_declarations(declarations(rv.take(r as int))) == Indexed::Declared(name_index_contents(index)),
        decreases resources.len() - r,
    {
        let names = &resources[r];
        assert(rv[r as int] == names@.map_values(|n: String| n@));
        let ghost before = declarations(rv.take(r as int));
        let mut j: usize = 0;
        while j < names.len()
            invariant
                rv == resource_names(resources@),
                r < resources.len(),
                rv[r as int] == names@.map_values(|n: String| n@),
                before == declarations(rv.take(r as int)),
                j <= names.len(),
                index_declarations(before + rv[r as int].take(j as int).map_values(|n: Seq<char>| (n, r as usize)))
                    == Indexed::Declared(name_index_contents(index)),
            decreases names.len() - j,
        {
            let name = &names[j];
            let ghost done = before + rv[r as int].take(j as int).map_values(|n: Seq<char>| (n, r as usize));
            proof {
                assert(before + rv[r as int].take(j + 1).map_values(|n: Seq<char>| (n, r as usize))
                    =~= done.push((name@, r)));
                lemma_index_push(done, (name@, r));
            }
            let previous = index.insert(name.clone(), r);
            match previous {
                Some(first) => {
                    if first != r {
                        proof {
                            lemma_finish_repeated(rv, r as int, j as int);
                        }
                        return Err(ContractionError::RepeatedNodeType { name: name.clone(), first, second: r });
                    }
                },
                None => {},
            }
            j = j + 1;
        }
        proof {
            assert(rv[r as int].take(names.len() as int) == rv[r as int]);
            lemma_declarations_take(rv, r as int);
        }
        r = r + 1;
    }
    assert(rv.take(resources.len() as int) == rv);
    Ok(index)
}

/// A repeat found at name `j` of resource `r` is the repeat of all the declarations.
proof fn lemma_finish_repeated(rv: Seq<Seq<Seq<char>>>, r: int, j: int)
    requires
        0 <= r < rv.len(),
        0 <= j < rv[r].len(),
        index_declarations(declarations(rv.take(r)) + rv[r].take(j + 1).map_values(|n: Seq<char>| (n, r as usize))) is Repeated,
    ensures
        index_declarations(declarations(rv)) == index_declarations(
            declarations(rv.take(r)) + rv[r].take(j + 1).map_values(|n: Seq<char>| (n, r as usize)),
        ),
    decreases rv.len() - r,
{
    let head = declarations(rv.take(r)) + rv[r].take(j + 1).map_values(|n: Seq<char>| (n, r as usize));
    let tail = rv[r].skip(j + 1).map_values(|n: Seq<char>| (n, r as usize));
    lemma_declarations_take(rv, r);
    assert(declarations(rv.take(r + 1)) =~= head + tail);
    lemma_index_repeated(head, tail);
    lemma_rest_repeated(rv, r + 1, head + tail);
}

/// Declarations past a repeat change nothing.
proof fn lemma_rest_repeated(rv: Seq<Seq<Seq<char>>>, k: int, decls: Seq<(Seq<char>, usize)>)
    requires
        0 <= k <= rv.len(),
        decls == declarations(rv.take(k)),
        index_declarations(decls) is Repeated,
    ensures
        index_declarations(declarations(rv)) == index_declarations(decls),
    decreases rv.len() - k,
{
    if k == rv.len() {
        assert(rv.take(k) == rv);
    } else {
        lemma_declarations_take(rv, k);
        let more = rv[k].map_values(|n: Seq<char>| (n, k as usize));
        lemma_index_repeated(decls, more);
        lemma_rest_repeated(rv, k + 1, decls + more);
    }
}


// ---------------------------------------------------------------------------
// Partition
// ---------------------------------------------------------------------------

/// The category of node `i`: the resource declaring its node type, or `None` for a node type no
/// resource declares and for a node that applies no node type.
pub open spec fn category_of(nodes: Seq<NodeSpec>, cats: Map<Seq<char>, usize>, i: int) -> Option<usize> {
    match nodes[i].kind {
        NodeKind::Op { full_name, .. } => if cats.contains_key(full_name) {
            Some(cats[full_name])
        } else {
            None
        },
        _ => None,
    }
}

/// Whether node `i` applies a node type.
pub open spec fn is_op(nodes: Seq<NodeSpec>, i: int) -> bool {
    nodes[i].kind is Op
}

/// The layer of node `i`: one past the layer of any operand of another category, and at least
/// the layer of any operand of its own.
pub open spec fn layer_of(nodes: Seq<NodeSpec>, cats: Map<Seq<char>, usize>, i: nat) -> nat
    decreases i, nodes[i as int].operands.len() + 1,
{
    operand_layer(nodes, cats, i, nodes[i as int].operands.len())
}

/// What the first `k` operands of node `i` ask of its layer.
pub open spec fn operand_layer(nodes: Seq<NodeSpec>, cats: Map<Seq<char>, usize>, i: nat, k: nat) -> nat
    decreases i, k,
{
    if k == 0 || k > nodes[i as int].operands.len() {
        0
    } else {
        let rest = operand_layer(nodes, cats, i, (k - 1) as nat);
        let v = nodes[i as int].operands[k - 1];
        let here = if v.node < i && is_op(nodes, v.node as int) {
            let l = layer_of(nodes, cats, v.node as nat);
            if category_of(nodes, cats, v.node as int) == category_of(nodes, cats, i as int) {
                l
            } else {
                l + 1
            }
        } else {
            0
        };
        if here > rest {
            here
        } else {
            rest
        }
    }
}

/// The unit key of node `i`: its layer and category.
pub open spec fn key_of(nodes: Seq<NodeSpec>, cats: Map<Seq<char>, usize>, i: int) -> (nat, Option<usize>) {
    (layer_of(nodes, cats, i as nat), category_of(nodes, cats, i))
}

/// The keys of the computing nodes among the first `n`, each once, in order of first appearance.
pub open spec fn keys_upto(nodes: Seq<NodeSpec>, cats: Map<Seq<char>, usize>, n: nat) -> Seq<(nat, Option<usize>)>
    decreases n,
{
    if n == 0 {
        Seq::empty()
    } else {
        let keys = keys_upto(nodes, cats, (n - 1) as nat);
        let key = key_of(nodes, cats, n - 1);
        if is_op(nodes, n - 1) && !keys.contains(key) {
            keys.push(key)
        } else {
            keys
        }
    }
}

/// The computing nodes among the first `n` whose key is `key`, in order.
pub open spec fn members(nodes: Seq<NodeSpec>, cats: Map<Seq<char>, usize>, key: (nat, Option<usize>), n: nat) -> Seq<usize>
    decreases n,
{
    if n == 0 {
        Seq::empty()
    } else {
        let rest = members(nodes, cats, key, (n - 1) as nat);
        if is_op(nodes, n - 1) && key_of(nodes, cats, n - 1) == key {
            rest.push((n - 1) as usize)
        } else {
            rest
        }
    }
}

/// The keys of layer `layer`, in order.
pub open spec fn with_layer(keys: Seq<(nat, Option<usize>)>, layer: nat) -> Seq<(nat, Option<usize>)>
    decreases keys.len(),
{
    if keys.len() == 0 {
        Seq::empty()
    } else if keys.last().0 == layer {
        with_layer(keys.drop_last(), layer).push(keys.last())
    } else {
        with_layer(keys.drop_last(), layer)
    }
}

/// The keys of layers below `bound`, by layer, and in order within a layer.
pub open spec fn by_layer(keys: Seq<(nat, Option<usize>)>, bound: nat) -> Seq<(nat, Option<usize>)>
    decreases bound,
{
    if bound == 0 {
        Seq::empty()
    } else {
        by_layer(keys, (bound - 1) as nat) + with_layer(keys, (bound - 1) as nat)
    }
}

/// The unit keys of the entry point `nodes`: its computing nodes' keys by layer, in order of first
/// appearance within a layer.
pub open spec fn unit_keys(nodes: Seq<NodeSpec>, cats: Map<Seq<char>, usize>) -> Seq<(nat, Option<usize>)> {
    by_layer(keys_upto(nodes, cats, nodes.len()), nodes.len())
}

/// One unit of work: the nodes that become one function of the contracted program.
pub struct Unit {
    /// The resource this unit's node types belong to, or `None` for the fallback category.
    pub category: Option<usize>,
    /// The nodes, in order.
    pub nodes: Vec<usize>,
}

/// Whether `units` are the units of `nodes`: one per unit key, holding the computing nodes of
/// that key.
pub open spec fn units_of(units: Seq<Unit>, nodes: Seq<NodeSpec>, cats: Map<Seq<char>, usize>) -> bool {
    let keys = unit_keys(nodes, cats);
    &&& units.len() == keys.len()
    &&& forall|u: int| 0 <= u < units.len() ==> (#[trigger] units[u]).category == keys[u].1
        && units[u].nodes@ == members(nodes, cats, keys[u], nodes.len())
}

/// The layer of a node is at most its position.
proof fn lemma_layer_bound(nodes: Seq<NodeSpec>, cats: Map<Seq<char>, usize>, i: nat)
    ensures
        layer_of(nodes, cats, i) <= i,
    decreases i, nodes[i as int].operands.len() + 1,
{
    lemma_operand_layer_bound(nodes, cats, i, nodes[i as int].operands.len());
}

/// What the operands of a node ask of its layer is at most its position.
proof fn lemma_operand_layer_bound(nodes: Seq<NodeSpec>, cats: Map<Seq<char>, usize>, i: nat, k: nat)
    ensures
        operand_layer(nodes, cats, i, k) <= i,
    decreases i, k,
{
    if k > 0 && k <= nodes[i as int].operands.len() {
        lemma_operand_layer_bound(nodes, cats, i, (k - 1) as nat);
        let v = nodes[i as int].operands[k - 1];
        if v.node < i && is_op(nodes, v.node as int) {
            lemma_layer_bound(nodes, cats, v.node as nat);
        }
    }
}

/// The encoding of a unit key as a pair of indices: the layer, and one past the category or
/// zero for the fallback.
pub open spec fn encode(key: (nat, Option<usize>)) -> (usize, usize) {
    (key.0 as usize, match key.1 {
        Some(c) => (c + 1) as usize,
        None => 0,
    })
}

/// The unit key a pair of indices encodes.
pub open spec fn decode(code: (usize, usize)) -> (nat, Option<usize>) {
    (code.0 as nat, if code.1 == 0 { None } else { Some((code.1 - 1) as usize) })
}

/// Whether a key can be encoded: its layer fits and its category is below the largest index.
pub open spec fn encodable(key: (nat, Option<usize>)) -> bool {
    key.0 <= usize::MAX && match key.1 {
        Some(c) => c < usize::MAX,
        None => true,
    }
}

/// The category of a node as its code: one past the category, or zero.
fn category_code(category: Option<usize>) -> (code: usize)
    requires
        category matches Some(c) ==> c < usize::MAX,
    ensures
        code == encode((0, category)).1,
{
    match category {
        Some(c) => c + 1,
        None => 0,
    }
}

/// Taking one more node adds its key if it is new.
proof fn lemma_keys_step(nodes: Seq<NodeSpec>, cats: Map<Seq<char>, usize>, n: nat)
    ensures
        keys_upto(nodes, cats, n + 1) == if is_op(nodes, n as int) && !keys_upto(nodes, cats, n).contains(key_of(nodes, cats, n as int)) {
            keys_upto(nodes, cats, n).push(key_of(nodes, cats, n as int))
        } else {
            keys_upto(nodes, cats, n)
        },
        forall|key: (nat, Option<usize>)| #[trigger] members(nodes, cats, key, n + 1) == if is_op(nodes, n as int) && key_of(nodes, cats, n as int) == key {
            members(nodes, cats, key, n).push(n as usize)
        } else {
            members(nodes, cats, key, n)
        },
{
}

/// Every key seen so far is the key of some computing node seen so far.
proof fn lemma_keys_are_keys(nodes: Seq<NodeSpec>, cats: Map<Seq<char>, usize>, n: nat)
    ensures
        keys_upto(nodes, cats, n).no_duplicates(),
        forall|g: int| 0 <= g < keys_upto(nodes, cats, n).len() ==> exists|j: int| 0 <= j < n && is_op(nodes, j)
            && #[trigger] keys_upto(nodes, cats, n)[g] == key_of(nodes, cats, j),
    decreases n,
{
    if n > 0 {
        lemma_keys_are_keys(nodes, cats, (n - 1) as nat);
        let keys = keys_upto(nodes, cats, (n - 1) as nat);
        let all = keys_upto(nodes, cats, n);
        assert forall|g: int| 0 <= g < all.len() implies exists|j: int| 0 <= j < n && is_op(nodes, j)
            && #[trigger] all[g] == key_of(nodes, cats, j) by {
            if g < keys.len() {
                assert(all[g] == keys[g]);
                let j = choose|j: int| 0 <= j < n - 1 && is_op(nodes, j) && keys[g] == key_of(nodes, cats, j);
                assert(0 <= j < n && is_op(nodes, j) && all[g] == key_of(nodes, cats, j));
            } else {
                assert(all[g] == key_of(nodes, cats, n - 1));
            }
        }
    }
}

/// The layer of node `i`, from the layers already placed.
fn node_layer(
    node: &crate::program::function::Node,
    placed: &Vec<Option<(usize, Option<usize>)>>,
    category: Option<usize>,
    Ghost(nodes): Ghost<Seq<NodeSpec>>,
    Ghost(cats): Ghost<Map<Seq<char>, usize>>,
    i: usize,
) -> (layer: usize)
    requires
        function_wf(nodes),
        i < nodes.len(),
        node@ == nodes[i as int],
        category == category_of(nodes, cats, i as int),
        placed@.len() == i,
        forall|j: int| 0 <= j < i ==> #[trigger] placed@[j] == if is_op(nodes, j) {
            Some((layer_of(nodes, cats, j as nat) as usize, category_of(nodes, cats, j)))
        } else {
            None
        },
    ensures
        layer == layer_of(nodes, cats, i as nat),
{
    let mut layer: usize = 0;
    let mut k: usize = 0;
    while k < node.operands.len()
        invariant
            function_wf(nodes),
            i < nodes.len(),
            node@ == nodes[i as int],
            category == category_of(nodes, cats, i as int),
            placed@.len() == i,
            forall|j: int| 0 <= j < i ==> #[trigger] placed@[j] == if is_op(nodes, j) {
                Some((layer_of(nodes, cats, j as nat) as usize, category_of(nodes, cats, j)))
            } else {
                None
            },
            k <= node.operands.len(),
            layer == operand_layer(nodes, cats, i as nat, k as nat),
        decreases node.operands.len() - k,
    {
        let v = node.operands[k];
        assert(v == nodes[i as int].operands[k as int]);
        assert(v.node < i);
        proof {
            lemma_layer_bound(nodes, cats, v.node as nat);
        }
        match placed[v.node] {
            Some((l, c)) => {
                let here = if c == category { l } else { l + 1 };
                if here > layer {
                    layer = here;
                }
            },
            None => {},
        }
        k = k + 1;
    }
    layer
}

/// Group the computing nodes of `entry` into units.
///
/// A greedy heuristic that aims for a few large units rather than the fewest possible. A node
/// is placed one layer past any operand of another category, and in the same layer as operands
/// of its own, so every dependency between two units crosses layers. Grouping by layer and
/// category gives units that run in layer order and that no path can re-enter. Every node of one
/// category sharing a layer ends up in one unit, whether or not they depend on each other.
pub fn partition(entry: &ProgramFunction, declared: &NameIndex) -> (units: Vec<Unit>)
    requires
        forall|name: Seq<char>| #[trigger] name_index_contents(*declared).contains_key(name)
            ==> name_index_contents(*declared)[name] < usize::MAX,
    ensures
        units_of(units@, entry@, name_index_contents(*declared)),
{
    let ghost cats = name_index_contents(*declared);
    let ghost nodes = entry@;
    let n = entry.node_count();
    let mut placed: Vec<Option<(usize, Option<usize>)>> = Vec::new();
    let mut group_layers: Vec<usize> = Vec::new();
    let mut group_declared: Vec<Option<usize>> = Vec::new();
    let mut group_nodes: Vec<Vec<usize>> = Vec::new();
    let mut index = PairIndex::new();
    let mut i: usize = 0;
    while i < n
        invariant
            nodes == entry@,
            cats == name_index_contents(*declared),
            forall|name: Seq<char>| #[trigger] cats.contains_key(name) ==> cats[name] < usize::MAX,
            n == nodes.len(),
            function_wf(nodes),
            i <= n,
            placed@.len() == i,
            forall|j: int| 0 <= j < i ==> #[trigger] placed@[j] == if is_op(nodes, j) {
                Some((layer_of(nodes, cats, j as nat) as usize, category_of(nodes, cats, j)))
            } else {
                None
            },
            ({
                let keys = keys_upto(nodes, cats, i as nat);
                &&& groups_hold(group_layers@, group_declared@, group_nodes@, keys, nodes, cats, i as nat)
                &&& forall|g: int| 0 <= g < keys.len() ==> encodable(#[trigger] keys[g])
                    && pair_index_contents(index).contains_key(encode(keys[g]))
                &&& forall|code: (usize, usize)| #[trigger] pair_index_contents(index).contains_key(code)
                    ==> pair_index_contents(index)[code] < keys.len() && keys[pair_index_contents(index)[code] as int] == decode(code)
            }),
        decreases n - i,
    {
        proof {
            lemma_keys_step(nodes, cats, i as nat);
            lemma_keys_are_keys(nodes, cats, i as nat);
        }
        let node = entry.node(i);
        let ghost keys = keys_upto(nodes, cats, i as nat);
        let ghost next = keys_upto(nodes, cats, (i + 1) as nat);
        match &node.view {
            NodeView::Op(op) => {
                let name = op.full_name();
                let category = declared.get(name.as_str());
                assert(category == category_of(nodes, cats, i as int));
                let layer = node_layer(node, &placed, category, Ghost(nodes), Ghost(cats), i);
                placed.push(Some((layer, category)));
                let ghost key = key_of(nodes, cats, i as int);
                let code = (layer, category_code(category));
                assert(code == encode(key));
                match index.get(code) {
                    Some(g) => {
                        assert(keys[g as int] == key);
                        assert(keys.contains(key));
                        assert(next == keys);
                        let ghost old_nodes = group_nodes@;
                        group_nodes[g].push(i);
                        proof {
                            assert forall|h: int| 0 <= h < next.len() implies (#[trigger] group_nodes@[h])@ == members(nodes, cats, next[h], (i + 1) as nat) by {
                                if h != g {
                                    assert(group_nodes@[h] == old_nodes[h]);
                                    lemma_keys_are_keys(nodes, cats, i as nat);
                                    assert(keys[h] != keys[g as int]);
                                }
                            }
                        }
                    },
                    None => {
                        proof {
                            if keys.contains(key) {
                                let g = choose|g: int| 0 <= g < keys.len() && keys[g] == key;
                                assert(encodable(keys[g]));
                            }
                            assert(!keys.contains(key));
                            assert(next == keys.push(key));
                            lemma_members_absent(nodes, cats, key, i as nat);
                        }
                        let g = group_layers.len();
                        let ghost old_nodes = group_nodes@;
                        let ghost old_index = pair_index_contents(index);
                        group_layers.push(layer);
                        group_declared.push(category);
                        group_nodes.push(vec![i]);
                        index.insert(code, g);
                        proof {
                            assert forall|h: int| 0 <= h < next.len() implies (#[trigger] group_nodes@[h])@ == members(nodes, cats, next[h], (i + 1) as nat) by {
                                if h < keys.len() {
                                    assert(group_nodes@[h] == old_nodes[h]);
                                    assert(next[h] == keys[h]);
                                    assert(keys[h] != key);
                                } else {
                                    assert(group_nodes@[h]@ =~= seq![i]);
                                    assert(members(nodes, cats, key, (i + 1) as nat) =~= seq![i]);
                                }
                            }
                            assert forall|h: int| 0 <= h < next.len() implies encodable(#[trigger] next[h])
                                && pair_index_contents(index).contains_key(encode(next[h])) by {
                                if h < keys.len() {
                                    assert(next[h] == keys[h]);
                                }
                            }
                            assert forall|c: (usize, usize)| #[trigger] pair_index_contents(index).contains_key(c)
                                implies pair_index_contents(index)[c] < next.len()
                                && next[pair_index_contents(index)[c] as int] == decode(c) by {
                                if c != code {
                                    assert(old_index.contains_key(c));
                                    assert(next[old_index[c] as int] == keys[old_index[c] as int]);
                                } else {
                                    assert(decode(code) == key);
                                }
                            }
                        }
                    },
                }
            },
            _ => {
                placed.push(None);
                assert(next == keys);
            },
        }
        i = i + 1;
    }
    let ghost keys = keys_upto(nodes, cats, n as nat);
    sort_units(&group_layers, group_declared, group_nodes, n, Ghost(nodes), Ghost(cats), Ghost(keys))
}

/// A key not seen among the first `n` nodes has no members among them.
proof fn lemma_members_absent(nodes: Seq<NodeSpec>, cats: Map<Seq<char>, usize>, key: (nat, Option<usize>), n: nat)
    requires
        !keys_upto(nodes, cats, n).contains(key),
    ensures
        members(nodes, cats, key, n) == Seq::<usize>::empty(),
    decreases n,
{
    if n > 0 {
        let keys = keys_upto(nodes, cats, (n - 1) as nat);
        let all = keys_upto(nodes, cats, n);
        lemma_keys_step(nodes, cats, (n - 1) as nat);
        if keys.contains(key) {
            let g = choose|g: int| 0 <= g < keys.len() && keys[g] == key;
            assert(all[g] == key);
            assert(all.contains(key));
        }
        if is_op(nodes, n - 1) && key_of(nodes, cats, n - 1) == key {
            if keys.contains(key) {
            } else {
                assert(all == keys.push(key));
                assert(all[keys.len() as int] == key);
            }
            assert(all.contains(key));
        }
        lemma_members_absent(nodes, cats, key, (n - 1) as nat);
    }
}

/// Whether the groups, given by their layers, categories and members, are those of `keys` over
/// the first `n` nodes.
pub open spec fn groups_hold(
    layers: Seq<usize>,
    group_categories: Seq<Option<usize>>,
    group_members: Seq<Vec<usize>>,
    keys: Seq<(nat, Option<usize>)>,
    nodes: Seq<NodeSpec>,
    cats: Map<Seq<char>, usize>,
    n: nat,
) -> bool {
    &&& layers.len() == keys.len()
    &&& group_categories.len() == keys.len()
    &&& group_members.len() == keys.len()
    &&& forall|g: int| 0 <= g < keys.len() ==> #[trigger] layers[g] == keys[g].0
    &&& forall|g: int| 0 <= g < keys.len() ==> #[trigger] group_categories[g] == keys[g].1
    &&& forall|g: int| 0 <= g < keys.len() ==> (#[trigger] group_members[g])@ == members(nodes, cats, keys[g], n)
}

/// The units of the groups of `keys`, ordered by layer, groups of one layer in order.
fn sort_units(
    layers: &Vec<usize>,
    group_categories: Vec<Option<usize>>,
    group_members: Vec<Vec<usize>>,
    bound: usize,
    Ghost(nodes): Ghost<Seq<NodeSpec>>,
    Ghost(cats): Ghost<Map<Seq<char>, usize>>,
    Ghost(keys): Ghost<Seq<(nat, Option<usize>)>>,
) -> (units: Vec<Unit>)
    requires
        bound == nodes.len(),
        keys == keys_upto(nodes, cats, nodes.len()),
        groups_hold(layers@, group_categories@, group_members@, keys, nodes, cats, nodes.len()),
    ensures
        units_of(units@, nodes, cats),
{
    let mut units: Vec<Unit> = Vec::new();
    let mut layer: usize = 0;
    while layer < bound
        invariant
            bound == nodes.len(),
            keys == keys_upto(nodes, cats, nodes.len()),
            groups_hold(layers@, group_categories@, group_members@, keys, nodes, cats, nodes.len()),
            layer <= bound,
            units@.len() == by_layer(keys, layer as nat).len(),
            forall|u: int| 0 <= u < units@.len() ==> (#[trigger] units@[u]).category == by_layer(keys, layer as nat)[u].1
                && units@[u].nodes@ == members(nodes, cats, by_layer(keys, layer as nat)[u], nodes.len()),
        decreases bound - layer,
    {
        let ghost done = by_layer(keys, layer as nat);
        let mut g: usize = 0;
        while g < layers.len()
            invariant
                keys == keys_upto(nodes, cats, nodes.len()),
                groups_hold(layers@, group_categories@, group_members@, keys, nodes, cats, nodes.len()),
                g <= layers.len(),
                done == by_layer(keys, layer as nat),
                units@.len() == (done + with_layer(keys.take(g as int), layer as nat)).len(),
                forall|u: int| 0 <= u < units@.len() ==> (#[trigger] units@[u]).category
                    == (done + with_layer(keys.take(g as int), layer as nat))[u].1
                    && units@[u].nodes@ == members(nodes, cats, (done + with_layer(keys.take(g as int), layer as nat))[u], nodes.len()),
            decreases layers.len() - g,
        {
            let ghost before = done + with_layer(keys.take(g as int), layer as nat);
            proof {
                assert(keys.take(g + 1).drop_last() == keys.take(g as int));
                assert(keys.take(g + 1).last() == keys[g as int]);
            }
            if layers[g] == layer {
                let unit = Unit { category: group_categories[g], nodes: crate::tensor::copy_words(group_members[g].as_slice()) };
                units.push(unit);
                proof {
                    let after = done + with_layer(keys.take(g + 1), layer as nat);
                    assert(after =~= before.push(keys[g as int]));
                }
            } else {
                proof {
                    assert(done + with_layer(keys.take(g + 1), layer as nat) == before);
                }
            }
            g = g + 1;
        }
        proof {
            assert(keys.take(layers.len() as int) == keys);
        }
        layer = layer + 1;
    }
    units
}


// ---------------------------------------------------------------------------
// What the partition guarantees
// ---------------------------------------------------------------------------

/// The members of a key are exactly the computing nodes of that key.
proof fn lemma_members_contains(nodes: Seq<NodeSpec>, cats: Map<Seq<char>, usize>, key: (nat, Option<usize>), n: nat, j: int)
    requires
        0 <= j <= usize::MAX,
        n <= usize::MAX,
    ensures
        members(nodes, cats, key, n).contains(j as usize) <==> (0 <= j < n && is_op(nodes, j) && key_of(nodes, cats, j) == key),
        forall|k: int| 0 <= k < members(nodes, cats, key, n).len() ==> #[trigger] members(nodes, cats, key, n)[k] < n,
    decreases n,
{
    if n > 0 {
        lemma_members_contains(nodes, cats, key, (n - 1) as nat, j);
        let rest = members(nodes, cats, key, (n - 1) as nat);
        let all = members(nodes, cats, key, n);
        if is_op(nodes, n - 1) && key_of(nodes, cats, n - 1) == key {
            assert(all == rest.push((n - 1) as usize));
            if j == n - 1 {
                assert(all[rest.len() as int] == (n - 1) as usize);
            }
            if all.contains(j as usize) && j != n - 1 {
                let k = choose|k: int| 0 <= k < all.len() && all[k] == j as usize;
                if k < rest.len() {
                    assert(rest[k] == j as usize);
                }
            }
            if rest.contains(j as usize) {
                let k = choose|k: int| 0 <= k < rest.len() && rest[k] == j as usize;
                assert(all[k] == j as usize);
            }
        }
    }
}

/// A key appears among those seen so far exactly when some computing node seen so far has it.
proof fn lemma_keys_contains(nodes: Seq<NodeSpec>, cats: Map<Seq<char>, usize>, n: nat, j: int)
    requires
        0 <= j < n,
        is_op(nodes, j),
    ensures
        keys_upto(nodes, cats, n).contains(key_of(nodes, cats, j)),
    decreases n,
{
    let keys = keys_upto(nodes, cats, (n - 1) as nat);
    let all = keys_upto(nodes, cats, n);
    lemma_keys_step(nodes, cats, (n - 1) as nat);
    if j < n - 1 {
        lemma_keys_contains(nodes, cats, (n - 1) as nat, j);
        let g = choose|g: int| 0 <= g < keys.len() && keys[g] == key_of(nodes, cats, j);
        assert(all[g] == keys[g]);
    } else if keys.contains(key_of(nodes, cats, j)) {
        let g = choose|g: int| 0 <= g < keys.len() && keys[g] == key_of(nodes, cats, j);
        assert(all[g] == keys[g]);
    } else {
        assert(all[keys.len() as int] == key_of(nodes, cats, j));
    }
}

/// The keys of one layer are those of the keys with that layer, each once if the keys are.
proof fn lemma_with_layer(keys: Seq<(nat, Option<usize>)>, layer: nat)
    ensures
        forall|k: (nat, Option<usize>)| with_layer(keys, layer).contains(k) <==> keys.contains(k) && k.0 == layer,
        forall|p: int| 0 <= p < with_layer(keys, layer).len() ==> (#[trigger] with_layer(keys, layer)[p]).0 == layer,
        keys.no_duplicates() ==> with_layer(keys, layer).no_duplicates(),
    decreases keys.len(),
{
    if keys.len() > 0 {
        let d = keys.drop_last();
        lemma_with_layer(d, layer);
        let rest = with_layer(d, layer);
        let all = with_layer(keys, layer);
        assert forall|k: (nat, Option<usize>)| all.contains(k) <==> keys.contains(k) && k.0 == layer by {
            if keys.contains(k) {
                let g = choose|g: int| 0 <= g < keys.len() && keys[g] == k;
                if g < d.len() {
                    assert(d[g] == k);
                }
            }
            if d.contains(k) {
                let g = choose|g: int| 0 <= g < d.len() && d[g] == k;
                assert(keys[g] == k);
            }
            if keys.last().0 == layer {
                assert(all == rest.push(keys.last()));
                if all.contains(k) {
                    let p = choose|p: int| 0 <= p < all.len() && all[p] == k;
                    if p < rest.len() {
                        assert(rest[p] == k);
                    }
                }
                if rest.contains(k) {
                    let p = choose|p: int| 0 <= p < rest.len() && rest[p] == k;
                    assert(all[p] == k);
                }
                assert(all[rest.len() as int] == keys.last());
            }
        }
        if keys.last().0 == layer {
            assert(all == rest.push(keys.last()));
        }
        if keys.no_duplicates() && keys.last().0 == layer {
            assert(d.no_duplicates()) by {
                assert forall|a: int, b: int| 0 <= a < b < d.len() implies d[a] != d[b] by {
                    assert(keys[a] == d[a] && keys[b] == d[b]);
                }
            }
            assert(!d.contains(keys.last())) by {
                if d.contains(keys.last()) {
                    let g = choose|g: int| 0 <= g < d.len() && d[g] == keys.last();
                    assert(keys[g] == keys[keys.len() - 1]);
                }
            }
            assert(!rest.contains(keys.last()));
            assert forall|a: int, b: int| 0 <= a < b < all.len() implies all[a] != all[b] by {
                if b == all.len() - 1 {
                    assert(all[a] == rest[a]);
                    assert(rest.contains(rest[a]));
                } else {
                    assert(all[a] == rest[a] && all[b] == rest[b]);
                }
            }
        } else if keys.no_duplicates() {
            assert(d.no_duplicates()) by {
                assert forall|a: int, b: int| 0 <= a < b < d.len() implies d[a] != d[b] by {
                    assert(keys[a] == d[a] && keys[b] == d[b]);
                }
            }
        }
    }
}

/// The keys by layer are sorted by layer, hold the keys of layers below the bound, and hold each
/// once if the keys do.
proof fn lemma_by_layer(keys: Seq<(nat, Option<usize>)>, bound: nat)
    ensures
        forall|k: (nat, Option<usize>)| by_layer(keys, bound).contains(k) <==> keys.contains(k) && k.0 < bound,
        forall|p: int, q: int| 0 <= p < q < by_layer(keys, bound).len()
            ==> (#[trigger] by_layer(keys, bound)[p]).0 <= (#[trigger] by_layer(keys, bound)[q]).0,
        forall|p: int| 0 <= p < by_layer(keys, bound).len() ==> (#[trigger] by_layer(keys, bound)[p]).0 < bound,
        keys.no_duplicates() ==> by_layer(keys, bound).no_duplicates(),
    decreases bound,
{
    if bound > 0 {
        let b = (bound - 1) as nat;
        lemma_by_layer(keys, b);
        lemma_with_layer(keys, b);
        let head = by_layer(keys, b);
        let tail = with_layer(keys, b);
        let all = by_layer(keys, bound);
        assert(all == head + tail);
        assert forall|k: (nat, Option<usize>)| all.contains(k) <==> keys.contains(k) && k.0 < bound by {
            if all.contains(k) {
                let p = choose|p: int| 0 <= p < all.len() && all[p] == k;
                if p < head.len() {
                    assert(head[p] == k);
                } else {
                    assert(tail[p - head.len()] == k);
                }
            }
            if keys.contains(k) && k.0 < bound {
                if k.0 < b {
                    let p = choose|p: int| 0 <= p < head.len() && head[p] == k;
                    assert(all[p] == k);
                } else {
                    let p = choose|p: int| 0 <= p < tail.len() && tail[p] == k;
                    assert(all[head.len() + p] == k);
                }
            }
        }
        assert forall|p: int| 0 <= p < all.len() implies (#[trigger] all[p]).0 < bound by {
            if p < head.len() {
                assert(all[p] == head[p]);
            } else {
                assert(all[p] == tail[p - head.len()]);
            }
        }
        assert forall|p: int, q: int| 0 <= p < q < all.len() implies (#[trigger] all[p]).0 <= (#[trigger] all[q]).0 by {
            if q < head.len() {
                assert(all[p] == head[p] && all[q] == head[q]);
            } else if p < head.len() {
                assert(all[p] == head[p] && all[q] == tail[q - head.len()]);
            } else {
                assert(all[p] == tail[p - head.len()] && all[q] == tail[q - head.len()]);
            }
        }
        if keys.no_duplicates() {
            assert forall|p: int, q: int| 0 <= p < q < all.len() implies all[p] != all[q] by {
                if q < head.len() {
                    assert(all[p] == head[p] && all[q] == head[q]);
                } else if p < head.len() {
                    assert(all[p] == head[p] && all[q] == tail[q - head.len()]);
                    assert(head[p].0 < b);
                    assert(tail[q - head.len()].0 == b);
                } else {
                    assert(all[p] == tail[p - head.len()] && all[q] == tail[q - head.len()]);
                }
            }
        }
    }
}

/// The layer of a node is at least what each of its operands asks of it.
proof fn lemma_operand_layer_covers(nodes: Seq<NodeSpec>, cats: Map<Seq<char>, usize>, i: nat, k: nat, m: int)
    requires
        0 <= m < k <= nodes[i as int].operands.len(),
    ensures
        ({
            let v = nodes[i as int].operands[m];
            v.node < i && is_op(nodes, v.node as int) ==> operand_layer(nodes, cats, i, k) >= if category_of(nodes, cats, v.node as int)
                == category_of(nodes, cats, i as int) {
                layer_of(nodes, cats, v.node as nat)
            } else {
                layer_of(nodes, cats, v.node as nat) + 1
            }
        }),
    decreases k,
{
    if m < k - 1 {
        lemma_operand_layer_covers(nodes, cats, i, (k - 1) as nat, m);
    }
}

/// Every computing node belongs to exactly one unit: the one of its key.
pub proof fn lemma_each_node_in_one_unit(nodes: Seq<NodeSpec>, cats: Map<Seq<char>, usize>, i: int)
    requires
        0 <= i < nodes.len(),
        nodes.len() <= usize::MAX,
    ensures
        is_op(nodes, i) ==> exists|u: int| 0 <= u < unit_keys(nodes, cats).len() && #[trigger] unit_keys(nodes, cats)[u] == key_of(nodes, cats, i),
        forall|u: int| 0 <= u < unit_keys(nodes, cats).len() ==> (members(nodes, cats, #[trigger] unit_keys(nodes, cats)[u], nodes.len()).contains(i as usize)
            <==> is_op(nodes, i) && unit_keys(nodes, cats)[u] == key_of(nodes, cats, i)),
        forall|u: int, w: int| 0 <= u < w < unit_keys(nodes, cats).len() ==> #[trigger] unit_keys(nodes, cats)[u] != #[trigger] unit_keys(nodes, cats)[w],
{
    let n = nodes.len();
    let keys = keys_upto(nodes, cats, n);
    lemma_keys_are_keys(nodes, cats, n);
    lemma_by_layer(keys, n);
    assert forall|u: int| 0 <= u < unit_keys(nodes, cats).len() implies (members(nodes, cats, #[trigger] unit_keys(nodes, cats)[u], nodes.len()).contains(i as usize)
        <==> is_op(nodes, i) && unit_keys(nodes, cats)[u] == key_of(nodes, cats, i)) by {
        lemma_members_contains(nodes, cats, unit_keys(nodes, cats)[u], n, i);
    }
    if is_op(nodes, i) {
        lemma_keys_contains(nodes, cats, n, i);
        lemma_layer_bound(nodes, cats, i as nat);
        assert(unit_keys(nodes, cats).contains(key_of(nodes, cats, i)));
    }
}

/// Every dependency between two computing nodes runs from a unit to itself or to a later unit:
/// no path that leaves a unit leads back into it, so running the units in order never needs a
/// value a later unit produces.
pub proof fn lemma_units_run_forward(nodes: Seq<NodeSpec>, cats: Map<Seq<char>, usize>, i: int, m: int, a: int, b: int)
    requires
        function_wf(nodes),
        0 <= i < nodes.len(),
        0 <= m < nodes[i].operands.len(),
        is_op(nodes, i),
        is_op(nodes, nodes[i].operands[m].node as int),
        0 <= a < unit_keys(nodes, cats).len(),
        0 <= b < unit_keys(nodes, cats).len(),
        unit_keys(nodes, cats)[a] == key_of(nodes, cats, nodes[i].operands[m].node as int),
        unit_keys(nodes, cats)[b] == key_of(nodes, cats, i),
    ensures
        a <= b,
        category_of(nodes, cats, nodes[i].operands[m].node as int) != category_of(nodes, cats, i) ==> a < b,
{
    let n = nodes.len();
    let keys = keys_upto(nodes, cats, n);
    let units = unit_keys(nodes, cats);
    let j = nodes[i].operands[m].node as int;
    assert(value_before_node(nodes, i, m));
    lemma_operand_layer_covers(nodes, cats, i as nat, nodes[i].operands.len(), m);
    lemma_keys_are_keys(nodes, cats, n);
    lemma_by_layer(keys, n);
    if b < a {
        assert(units[b].0 <= units[a].0);
    }
    if a == b {
        assert(units[a] == units[b]);
    }
}

/// The producer of operand `m` of node `i` comes before it.
spec fn value_before_node(nodes: Seq<NodeSpec>, i: int, m: int) -> bool {
    crate::program::function::value_before(nodes, nodes[i].operands[m], i)
}

/// The nodes of a unit all belong to its category.
pub proof fn lemma_unit_has_one_category(nodes: Seq<NodeSpec>, cats: Map<Seq<char>, usize>, u: int, i: int)
    requires
        0 <= u < unit_keys(nodes, cats).len(),
        members(nodes, cats, unit_keys(nodes, cats)[u], nodes.len()).contains(i as usize),
        0 <= i < nodes.len(),
        nodes.len() <= usize::MAX,
    ensures
        is_op(nodes, i),
        category_of(nodes, cats, i) == unit_keys(nodes, cats)[u].1,
{
    lemma_members_contains(nodes, cats, unit_keys(nodes, cats)[u], nodes.len(), i);
}


// ---------------------------------------------------------------------------
// Unit boundaries
// ---------------------------------------------------------------------------

/// Which unit holds each node: `Some(u)` if `units[u]` lists it, the last such unit if several do.
pub open spec fn holder(units: Seq<Seq<usize>>, i: usize) -> Option<usize>
    decreases units.len(),
{
    if units.len() == 0 {
        None
    } else if units.last().contains(i) {
        Some((units.len() - 1) as usize)
    } else {
        holder(units.drop_last(), i)
    }
}

/// The node lists of `units`.
pub open spec fn unit_nodes(units: Seq<Unit>) -> Seq<Seq<usize>> {
    units.map_values(|u: Unit| u.nodes@)
}

/// Which unit holds each node of a function of `n` nodes, indexed by node.
pub fn unit_of(n: usize, units: &Vec<Unit>) -> (held: Vec<Option<usize>>)
    requires
        forall|u: int, k: int| 0 <= u < units@.len() && 0 <= k < units@[u].nodes@.len() ==> #[trigger] units@[u].nodes@[k] < n,
    ensures
        held@.len() == n,
        forall|i: int| 0 <= i < n ==> #[trigger] held@[i] == holder(unit_nodes(units@), i as usize),
{
    let mut held: Vec<Option<usize>> = Vec::new();
    for i in 0..n
        invariant
            held@.len() == i,
            forall|j: int| 0 <= j < i ==> #[trigger] held@[j] == None::<usize>,
    {
        held.push(None);
    }
    let mut u: usize = 0;
    while u < units.len()
        invariant
            u <= units@.len(),
            forall|w: int, k: int| 0 <= w < units@.len() && 0 <= k < units@[w].nodes@.len() ==> #[trigger] units@[w].nodes@[k] < n,
            held@.len() == n,
            forall|i: int| 0 <= i < n ==> #[trigger] held@[i] == holder(unit_nodes(units@).take(u as int), i as usize),
        decreases units@.len() - u,
    {
        let nodes = &units[u].nodes;
        let ghost before = held@;
        let mut k: usize = 0;
        while k < nodes.len()
            invariant
                u < units@.len(),
                *nodes == units@[u as int].nodes,
                forall|w: int, j: int| 0 <= w < units@.len() && 0 <= j < units@[w].nodes@.len() ==> #[trigger] units@[w].nodes@[j] < n,
                held@.len() == n,
                k <= nodes@.len(),
                forall|i: int| 0 <= i < n ==> #[trigger] held@[i] == if nodes@.take(k as int).contains(i as usize) {
                    Some(u)
                } else {
                    before[i]
                },
            decreases nodes@.len() - k,
        {
            let node = nodes[k];
            assert(node < n);
            held.set(node, Some(u));
            proof {
                assert forall|i: int| 0 <= i < n implies #[trigger] held@[i] == if nodes@.take(k + 1).contains(i as usize) {
                    Some(u)
                } else {
                    before[i]
                } by {
                    if nodes@.take(k + 1).contains(i as usize) && i != node {
                        let p = choose|p: int| 0 <= p < k + 1 && #[trigger] nodes@.take(k + 1)[p] == i as usize;
                        assert(nodes@.take(k as int)[p] == i as usize);
                    }
                    if nodes@.take(k as int).contains(i as usize) {
                        let p = choose|p: int| 0 <= p < k && #[trigger] nodes@.take(k as int)[p] == i as usize;
                        assert(nodes@.take(k + 1)[p] == i as usize);
                    }
                    if i == node {
                        assert(nodes@.take(k + 1)[k as int] == node);
                    }
                }
            }
            k = k + 1;
        }
        proof {
            assert(nodes@.take(nodes@.len() as int) == nodes@);
            let all = unit_nodes(units@);
            assert(all.take(u + 1).drop_last() == all.take(u as int));
            assert(all.take(u + 1).last() == nodes@);
        }
        u = u + 1;
    }
    proof {
        assert(unit_nodes(units@).take(units@.len() as int) == unit_nodes(units@));
    }
    held
}

/// Whether value `a` sorts before value `b`: by producer, then by slot.
pub open spec fn value_lt(a: Value, b: Value) -> bool {
    a.node < b.node || (a.node == b.node && a.slot < b.slot)
}

/// Whether `values` is in increasing order, without repeats.
pub open spec fn strictly_sorted(values: Seq<Value>) -> bool {
    forall|a: int, b: int| 0 <= a < b < values.len() ==> value_lt(#[trigger] values[a], #[trigger] values[b])
}

/// Whether value `a` sorts before value `b`, computed.
fn value_less(a: Value, b: Value) -> (lt: bool)
    ensures
        lt == value_lt(a, b),
{
    a.node < b.node || (a.node == b.node && a.slot < b.slot)
}

/// Insert `v` into the sorted `values`, unless it is there already.
fn insert_sorted(values: &mut Vec<Value>, v: Value)
    requires
        strictly_sorted(old(values)@),
    ensures
        strictly_sorted(final(values)@),
        forall|x: Value| final(values)@.contains(x) <==> old(values)@.contains(x) || x == v,
{
    let mut p: usize = 0;
    while p < values.len() && value_less(values[p], v)
        invariant
            values@ == old(values)@,
            p <= values@.len(),
            strictly_sorted(values@),
            forall|q: int| 0 <= q < p ==> value_lt(#[trigger] values@[q], v),
        decreases values@.len() - p,
    {
        p = p + 1;
    }
    if p < values.len() && values[p] == v {
        return;
    }
    let ghost before = values@;
    values.insert(p, v);
    proof {
        assert(values@ == before.insert(p as int, v));
        assert forall|a: int, b: int| 0 <= a < b < values@.len() implies value_lt(#[trigger] values@[a], #[trigger] values@[b]) by {
            if b < p {
                assert(values@[a] == before[a] && values@[b] == before[b]);
            } else if b == p {
                assert(values@[a] == before[a]);
            } else if a < p {
                assert(values@[a] == before[a] && values@[b] == before[b - 1]);
                assert(value_lt(before[a], v));
                if p < before.len() {
                    assert(!value_lt(before[p as int], v));
                    assert(before[p as int] != v);
                    if b - 1 > p {
                        assert(value_lt(before[p as int], before[b - 1]));
                    }
                }
            } else if a == p {
                assert(values@[b] == before[b - 1]);
                assert(!value_lt(before[p as int], v));
                assert(before[p as int] != v);
                if b - 1 > p {
                    assert(value_lt(before[p as int], before[b - 1]));
                }
            } else {
                assert(values@[a] == before[a - 1] && values@[b] == before[b - 1]);
            }
        }
        assert forall|x: Value| #![trigger values@.contains(x)] #![trigger before.contains(x)]
            values@.contains(x) <==> before.contains(x) || x == v by {
            if values@.contains(x) {
                let q = choose|q: int| 0 <= q < values@.len() && values@[q] == x;
                if q < p {
                    assert(before[q] == x);
                } else if q > p {
                    assert(before[q - 1] == x);
                }
            }
            if before.contains(x) {
                let q = choose|q: int| 0 <= q < before.len() && before[q] == x;
                if q < p {
                    assert(values@[q] == x);
                } else {
                    assert(values@[q + 1] == x);
                }
            }
            if x == v {
                assert(values@[p as int] == v);
            }
        }
    }
}

/// Whether operand `k` of node `i` is a read by unit `u` of a value from outside it (`into`), or
/// a read from outside unit `u` of a value it produces (not `into`).
pub open spec fn crossing(nodes: Seq<NodeSpec>, held: Seq<Option<usize>>, u: usize, i: int, k: int, into: bool) -> bool {
    let v = nodes[i].operands[k];
    if into {
        held[i] == Some(u) && held[v.node as int] != Some(u)
    } else {
        held[i] != Some(u) && held[v.node as int] == Some(u)
    }
}

/// Whether unit `u` reads `v` from outside itself (`into`), or produces `v` for something outside
/// itself (not `into`), through some operand of the first `ci` nodes, or of node `ci` before
/// operand `ck`.
pub open spec fn crosses_before(nodes: Seq<NodeSpec>, held: Seq<Option<usize>>, u: usize, v: Value, into: bool, ci: int, ck: int) -> bool {
    exists|i: int, k: int| 0 <= i < nodes.len() && 0 <= k < nodes[i].operands.len()
        && (i < ci || (i == ci && k < ck)) && #[trigger] nodes[i].operands[k] == v && crossing(nodes, held, u, i, k, into)
}

/// Whether unit `u` reads `v` from outside itself (`into`), or produces `v` for something outside
/// itself (not `into`).
pub open spec fn crosses(nodes: Seq<NodeSpec>, held: Seq<Option<usize>>, u: usize, v: Value, into: bool) -> bool {
    crosses_before(nodes, held, u, v, into, nodes.len() as int, 0)
}

/// Whether `values` are the values unit `u` reads from outside itself (`into`), or those it
/// produces for something outside it (not `into`), in increasing order.
pub open spec fn boundary_of(values: Seq<Value>, nodes: Seq<NodeSpec>, held: Seq<Option<usize>>, u: usize, into: bool) -> bool {
    strictly_sorted(values) && forall|v: Value| values.contains(v) <==> crosses(nodes, held, u, v, into)
}

/// Per unit, the values it reads from outside itself and the values it produces that something
/// outside it reads.
///
/// Both are in increasing order, which is the order the entry point produced them, since a value
/// sorts by its producer. Neither repeats a value: a value two nodes of one unit read is one
/// parameter, and a value two other units read is one result.
pub fn boundary_values(entry: &ProgramFunction, held: &Vec<Option<usize>>, units: usize)
    -> (res: (Vec<Vec<Value>>, Vec<Vec<Value>>))
    requires
        held@.len() == entry@.len(),
        forall|i: int| 0 <= i < held@.len() ==> (#[trigger] held@[i] matches Some(u) ==> u < units),
    ensures
        res.0@.len() == units,
        res.1@.len() == units,
        forall|u: int| 0 <= u < units ==> boundary_of(#[trigger] res.0@[u]@, entry@, held@, u as usize, true),
        forall|u: int| 0 <= u < units ==> boundary_of(#[trigger] res.1@[u]@, entry@, held@, u as usize, false),
{
    let ghost nodes = entry@;
    let n = entry.node_count();
    let mut inputs: Vec<Vec<Value>> = Vec::new();
    let mut outputs: Vec<Vec<Value>> = Vec::new();
    for u in 0..units
        invariant
            inputs@.len() == u,
            outputs@.len() == u,
            forall|w: int| 0 <= w < u ==> (#[trigger] inputs@[w])@ == Seq::<Value>::empty(),
            forall|w: int| 0 <= w < u ==> (#[trigger] outputs@[w])@ == Seq::<Value>::empty(),
    {
        inputs.push(Vec::new());
        outputs.push(Vec::new());
    }
    let mut i: usize = 0;
    while i < n
        invariant
            nodes == entry@,
            n == nodes.len(),
            function_wf(nodes),
            held@.len() == n,
            forall|j: int| 0 <= j < held@.len() ==> (#[trigger] held@[j] matches Some(u) ==> u < units),
            i <= n,
            inputs@.len() == units,
            outputs@.len() == units,
            forall|u: int| 0 <= u < units ==> strictly_sorted((#[trigger] inputs@[u])@)
                && forall|v: Value| inputs@[u]@.contains(v) <==> crosses_before(nodes, held@, u as usize, v, true, i as int, 0),
            forall|u: int| 0 <= u < units ==> strictly_sorted((#[trigger] outputs@[u])@)
                && forall|v: Value| outputs@[u]@.contains(v) <==> crosses_before(nodes, held@, u as usize, v, false, i as int, 0),
        decreases n - i,
    {
        let node = entry.node(i);
        let consumer = held[i];
        let mut k: usize = 0;
        while k < node.operands.len()
            invariant
                nodes == entry@,
                n == nodes.len(),
                function_wf(nodes),
                held@.len() == n,
                forall|j: int| 0 <= j < held@.len() ==> (#[trigger] held@[j] matches Some(u) ==> u < units),
                i < n,
                node@ == nodes[i as int],
                consumer == held@[i as int],
                k <= node@.operands.len(),
                inputs@.len() == units,
                outputs@.len() == units,
                forall|u: int| 0 <= u < units ==> strictly_sorted((#[trigger] inputs@[u])@)
                    && forall|v: Value| inputs@[u]@.contains(v) <==> crosses_before(nodes, held@, u as usize, v, true, i as int, k as int),
                forall|u: int| 0 <= u < units ==> strictly_sorted((#[trigger] outputs@[u])@)
                    && forall|v: Value| outputs@[u]@.contains(v) <==> crosses_before(nodes, held@, u as usize, v, false, i as int, k as int),
            decreases node@.operands.len() - k,
        {
            let v = node.operands[k];
            assert(v == nodes[i as int].operands[k as int]);
            assert(v.node < i);
            let producer = held[v.node];
            let ghost old_in = inputs@;
            let ghost old_out = outputs@;
            if producer != consumer {
                match consumer {
                    Some(c) => {
                        insert_sorted(&mut inputs[c], v);
                    },
                    None => {},
                }
                match producer {
                    Some(p) => {
                        insert_sorted(&mut outputs[p], v);
                    },
                    None => {},
                }
            }
            proof {
                lemma_crosses_step(nodes, held@, i as int, k as int);
                assert forall|u: int| 0 <= u < units implies strictly_sorted((#[trigger] inputs@[u])@)
                    && forall|x: Value| inputs@[u]@.contains(x) <==> crosses_before(nodes, held@, u as usize, x, true, i as int, k + 1) by {
                    if !(consumer == Some(u as usize) && producer != consumer) {
                        assert(inputs@[u] == old_in[u]);
                    }
                }
                assert forall|u: int| 0 <= u < units implies strictly_sorted((#[trigger] outputs@[u])@)
                    && forall|x: Value| outputs@[u]@.contains(x) <==> crosses_before(nodes, held@, u as usize, x, false, i as int, k + 1) by {
                    if !(producer == Some(u as usize) && producer != consumer) {
                        assert(outputs@[u] == old_out[u]);
                    }
                }
            }
            k = k + 1;
        }
        proof {
            lemma_crosses_next_node(nodes, held@, i as int, node@.operands.len() as int);
        }
        i = i + 1;
    }
    (inputs, outputs)
}

/// Taking one more operand into account adds what it crosses.
proof fn lemma_crosses_step(nodes: Seq<NodeSpec>, held: Seq<Option<usize>>, i: int, k: int)
    requires
        0 <= i < nodes.len(),
        0 <= k < nodes[i].operands.len(),
    ensures
        forall|u: usize, v: Value, into: bool| #[trigger] crosses_before(nodes, held, u, v, into, i, k + 1)
            <==> crosses_before(nodes, held, u, v, into, i, k) || (nodes[i].operands[k] == v && crossing(nodes, held, u, i, k, into)),
{
    assert forall|u: usize, v: Value, into: bool| #[trigger] crosses_before(nodes, held, u, v, into, i, k + 1)
        <==> crosses_before(nodes, held, u, v, into, i, k) || (nodes[i].operands[k] == v && crossing(nodes, held, u, i, k, into)) by {
        if crosses_before(nodes, held, u, v, into, i, k + 1) {
            let (a, b) = choose|a: int, b: int| 0 <= a < nodes.len() && 0 <= b < nodes[a].operands.len()
                && (a < i || (a == i && b < k + 1)) && #[trigger] nodes[a].operands[b] == v && crossing(nodes, held, u, a, b, into);
            if !(a == i && b == k) {
                assert(crosses_before(nodes, held, u, v, into, i, k));
            }
        }
        if nodes[i].operands[k] == v && crossing(nodes, held, u, i, k, into) {
            assert(crosses_before(nodes, held, u, v, into, i, k + 1));
        }
        if crosses_before(nodes, held, u, v, into, i, k) {
            let (a, b) = choose|a: int, b: int| 0 <= a < nodes.len() && 0 <= b < nodes[a].operands.len()
                && (a < i || (a == i && b < k)) && #[trigger] nodes[a].operands[b] == v && crossing(nodes, held, u, a, b, into);
            assert(crosses_before(nodes, held, u, v, into, i, k + 1));
        }
    }
}

/// Having taken every operand of node `i`, the cursor moves to the next node.
proof fn lemma_crosses_next_node(nodes: Seq<NodeSpec>, held: Seq<Option<usize>>, i: int, len: int)
    requires
        0 <= i < nodes.len(),
        len == nodes[i].operands.len(),
    ensures
        forall|u: usize, v: Value, into: bool| #[trigger] crosses_before(nodes, held, u, v, into, i + 1, 0)
            == crosses_before(nodes, held, u, v, into, i, len),
{
    assert forall|u: usize, v: Value, into: bool| #[trigger] crosses_before(nodes, held, u, v, into, i + 1, 0)
        == crosses_before(nodes, held, u, v, into, i, len) by {
        if crosses_before(nodes, held, u, v, into, i + 1, 0) {
            let (a, b) = choose|a: int, b: int| 0 <= a < nodes.len() && 0 <= b < nodes[a].operands.len()
                && (a < i + 1 || (a == i + 1 && b < 0)) && #[trigger] nodes[a].operands[b] == v && crossing(nodes, held, u, a, b, into);
            assert(crosses_before(nodes, held, u, v, into, i, len));
        }
        if crosses_before(nodes, held, u, v, into, i, len) {
            let (a, b) = choose|a: int, b: int| 0 <= a < nodes.len() && 0 <= b < nodes[a].operands.len()
                && (a < i || (a == i && b < len)) && #[trigger] nodes[a].operands[b] == v && crossing(nodes, held, u, a, b, into);
            assert(crosses_before(nodes, held, u, v, into, i + 1, 0));
        }
    }
}


// ---------------------------------------------------------------------------
// Assembling the contracted functions
// ---------------------------------------------------------------------------

/// The type of value `v` of a function.
pub open spec fn type_of_value(nodes: Seq<NodeSpec>, v: Value) -> (DTypeLike, Seq<Dim>, bool) {
    nodes[v.node as int].outputs[v.slot as int]
}

/// Where value `v` of the entry point lands in the function of a unit with members `members`
/// that reads `ins` from outside: one of its parameters, or the same output of the member that
/// produced it.
pub open spec fn moved(ins: Seq<Value>, members: Seq<usize>, v: Value) -> Value {
    if ins.contains(v) {
        Value { node: ins.index_of(v) as usize, slot: 0 }
    } else {
        Value { node: (ins.len() + members.index_of(v.node)) as usize, slot: v.slot }
    }
}

/// A parameter node of type `t`.
pub open spec fn param_node(t: (DTypeLike, Seq<Dim>, bool)) -> NodeSpec {
    NodeSpec { kind: NodeKind::Parameter, operands: Seq::empty(), outputs: seq![t] }
}

/// A result node returning `v`.
pub open spec fn result_node(v: Value) -> NodeSpec {
    NodeSpec { kind: NodeKind::Result, operands: seq![v], outputs: Seq::empty() }
}

/// Node `i` of the entry point, rebuilt in the function of a unit with members `members` that
/// reads `ins` from outside.
pub open spec fn rebuilt(nodes: Seq<NodeSpec>, ins: Seq<Value>, members: Seq<usize>, i: usize) -> NodeSpec {
    NodeSpec {
        kind: nodes[i as int].kind,
        operands: nodes[i as int].operands.map_values(|v: Value| moved(ins, members, v)),
        outputs: nodes[i as int].outputs,
    }
}

/// The function of a unit: a parameter per value it reads from outside, its members rebuilt over
/// the values their operands landed on, and a result per value it produces for outside.
pub open spec fn unit_function(nodes: Seq<NodeSpec>, members: Seq<usize>, ins: Seq<Value>, outs: Seq<Value>) -> Seq<NodeSpec> {
    Seq::new(ins.len(), |k: int| param_node(type_of_value(nodes, ins[k])))
        + Seq::new(members.len(), |j: int| rebuilt(nodes, ins, members, members[j]))
        + Seq::new(outs.len(), |k: int| result_node(moved(ins, members, outs[k])))
}

/// The nodes of a unit function, by position.
proof fn lemma_unit_function_index(nodes: Seq<NodeSpec>, members: Seq<usize>, ins: Seq<Value>, outs: Seq<Value>)
    ensures
        unit_function(nodes, members, ins, outs).len() == ins.len() + members.len() + outs.len(),
        forall|q: int| 0 <= q < ins.len() ==> #[trigger] unit_function(nodes, members, ins, outs)[q]
            == param_node(type_of_value(nodes, ins[q])),
        forall|q: int| 0 <= q < members.len() ==> #[trigger] unit_function(nodes, members, ins, outs)[ins.len() + q]
            == rebuilt(nodes, ins, members, members[q]),
        forall|q: int| 0 <= q < outs.len() ==> #[trigger] unit_function(nodes, members, ins, outs)[ins.len() + members.len() + q]
            == result_node(moved(ins, members, outs[q])),
{
}

/// The position of `x` in a sequence holding it once.
proof fn lemma_index_of_unique<A>(s: Seq<A>, k: int)
    requires
        0 <= k < s.len(),
        s.no_duplicates(),
    ensures
        s.contains(s[k]),
        s.index_of(s[k]) == k,
{
    assert(s.contains(s[k]));
    let i = s.index_of(s[k]);
    assert(0 <= i < s.len() && s[i] == s[k]);
}

/// A strictly sorted sequence has no repeats.
proof fn lemma_sorted_distinct(values: Seq<Value>)
    requires
        strictly_sorted(values),
    ensures
        values.no_duplicates(),
{
    assert forall|a: int, b: int| 0 <= a < values.len() && 0 <= b < values.len() && a != b implies values[a] != values[b] by {
        if a < b {
            assert(value_lt(values[a], values[b]));
        } else {
            assert(value_lt(values[b], values[a]));
        }
    }
}

/// The members of a key are in increasing order.
proof fn lemma_members_increasing(nodes: Seq<NodeSpec>, cats: Map<Seq<char>, usize>, key: (nat, Option<usize>), n: nat)
    requires
        n <= usize::MAX,
    ensures
        forall|a: int, b: int| 0 <= a < b < members(nodes, cats, key, n).len()
            ==> #[trigger] members(nodes, cats, key, n)[a] < #[trigger] members(nodes, cats, key, n)[b],
        forall|a: int| 0 <= a < members(nodes, cats, key, n).len() ==> #[trigger] members(nodes, cats, key, n)[a] < n,
    decreases n,
{
    if n > 0 {
        lemma_members_increasing(nodes, cats, key, (n - 1) as nat);
        let rest = members(nodes, cats, key, (n - 1) as nat);
        let all = members(nodes, cats, key, n);
        if is_op(nodes, n - 1) && key_of(nodes, cats, n - 1) == key {
            assert(all == rest.push((n - 1) as usize));
            assert forall|a: int, b: int| 0 <= a < b < all.len() implies #[trigger] all[a] < #[trigger] all[b] by {
                assert(all[a] == rest[a]);
                if b < rest.len() {
                    assert(all[b] == rest[b]);
                }
            }
            assert forall|a: int| 0 <= a < all.len() implies #[trigger] all[a] < n by {
                if a < rest.len() {
                    assert(all[a] == rest[a]);
                }
            }
        }
    }
}

/// What a unit function needs of its pieces to be built: its members computing nodes of the
/// entry point listed in increasing order, its inputs read from outside it and its outputs
/// produced by its members, each list without repeats.
pub open spec fn unit_ready(nodes: Seq<NodeSpec>, members: Seq<usize>, ins: Seq<Value>, outs: Seq<Value>) -> bool {
    &&& function_wf(nodes)
    &&& nodes.len() <= usize::MAX
    &&& forall|a: int, b: int| 0 <= a < b < members.len() ==> #[trigger] members[a] < #[trigger] members[b]
    &&& forall|a: int| 0 <= a < members.len() ==> #[trigger] members[a] < nodes.len() && is_op(nodes, members[a] as int)
    &&& ins.no_duplicates()
    &&& forall|k: int| 0 <= k < ins.len() ==> value_before(nodes, #[trigger] ins[k], nodes.len() as int)
        && !members.contains(ins[k].node)
    &&& forall|k: int| 0 <= k < outs.len() ==> members.contains((#[trigger] outs[k]).node)
        && value_before(nodes, outs[k], nodes.len() as int)
    &&& forall|j: int, m: int| 0 <= j < members.len() && 0 <= m < nodes[members[j] as int].operands.len()
        ==> ins.contains(#[trigger] nodes[members[j] as int].operands[m]) || members.contains(nodes[members[j] as int].operands[m].node)
}

/// Build the function of a unit.
fn build_unit(entry: &ProgramFunction, members: &Vec<usize>, ins: &Vec<Value>, outs: &Vec<Value>) -> (f: ProgramFunction)
    requires
        unit_ready(entry@, members@, ins@, outs@),
    ensures
        f@ == unit_function(entry@, members@, ins@, outs@),
{
    let ghost nodes = entry@;
    let ghost spec = unit_function(nodes, members@, ins@, outs@);
    proof {
        lemma_unit_function_index(nodes, members@, ins@, outs@);
    }
    let mut function = ProgramFunction::new();
    let mut moved_to = PairMap::new();
    // A parameter per value read from outside.
    let mut k: usize = 0;
    while k < ins.len()
        invariant
            unit_ready(nodes, members@, ins@, outs@),
            spec == unit_function(nodes, members@, ins@, outs@),
            spec.len() == ins@.len() + members@.len() + outs@.len(),
            forall|q: int| 0 <= q < ins@.len() ==> #[trigger] spec[q] == param_node(type_of_value(nodes, ins@[q])),
            forall|q: int| 0 <= q < members@.len() ==> #[trigger] spec[ins@.len() + q] == rebuilt(nodes, ins@, members@, members@[q]),
            forall|q: int| 0 <= q < outs@.len() ==> #[trigger] spec[ins@.len() + members@.len() + q]
                == result_node(moved(ins@, members@, outs@[q])),
            nodes == entry@,
            k <= ins@.len(),
            function@ == spec.take(k as int),
            forall|v: Value| #[trigger] pair_map_contents(moved_to).contains_key((v.node, v.slot))
                <==> ins@.take(k as int).contains(v),
            forall|v: Value| #[trigger] pair_map_contents(moved_to).contains_key((v.node, v.slot))
                ==> pair_map_contents(moved_to)[(v.node, v.slot)] == (moved(ins@, members@, v).node, moved(ins@, members@, v).slot),
        decreases ins@.len() - k,
    {
        let v = ins[k];
        let ty = entry.type_of(v);
        let t = match ty {
            Some(t) => t.clone(),
            None => {
                proof {
                    assert(value_before(nodes, ins@[k as int], nodes.len() as int));
                }
                vstd::pervasive::unreached()
            },
        };
        let value = function.add_parameter(t);
        moved_to.insert((v.node, v.slot), (value.node, value.slot));
        proof {
            lemma_index_of_unique(ins@, k as int);
            assert(spec.take(k + 1) =~= spec.take(k as int).push(spec[k as int]));
            assert(spec[k as int] == param_node(type_of_value(nodes, ins@[k as int])));
            assert forall|x: Value| #[trigger] pair_map_contents(moved_to).contains_key((x.node, x.slot))
                <==> ins@.take(k + 1).contains(x) by {
                if ins@.take(k as int).contains(x) {
                    let q = choose|q: int| 0 <= q < k && #[trigger] ins@.take(k as int)[q] == x;
                    assert(ins@.take(k + 1)[q] == x);
                }
                if ins@.take(k + 1).contains(x) {
                    let q = choose|q: int| 0 <= q < k + 1 && #[trigger] ins@.take(k + 1)[q] == x;
                    if q < k {
                        assert(ins@.take(k as int)[q] == x);
                    }
                }
                assert(ins@.take(k + 1)[k as int] == v);
            }
        }
        k = k + 1;
    }
    assert(ins@.take(ins@.len() as int) == ins@);
    // The members, over the values their operands landed on.
    let base = ins.len();

    let mut j: usize = 0;
    while j < members.len()
        invariant
            unit_ready(nodes, members@, ins@, outs@),
            spec == unit_function(nodes, members@, ins@, outs@),
            spec.len() == ins@.len() + members@.len() + outs@.len(),
            forall|q: int| 0 <= q < ins@.len() ==> #[trigger] spec[q] == param_node(type_of_value(nodes, ins@[q])),
            forall|q: int| 0 <= q < members@.len() ==> #[trigger] spec[ins@.len() + q] == rebuilt(nodes, ins@, members@, members@[q]),
            forall|q: int| 0 <= q < outs@.len() ==> #[trigger] spec[ins@.len() + members@.len() + q]
                == result_node(moved(ins@, members@, outs@[q])),
            nodes == entry@,
            base == ins@.len(),
            j <= members@.len(),
            function@ == spec.take(base + j),
            forall|v: Value| #[trigger] pair_map_contents(moved_to).contains_key((v.node, v.slot))
                <==> ins@.contains(v) || exists|q: int| 0 <= q < j && members@[q] == v.node
                    && v.slot < nodes[v.node as int].outputs.len(),
            forall|v: Value| #[trigger] pair_map_contents(moved_to).contains_key((v.node, v.slot))
                ==> pair_map_contents(moved_to)[(v.node, v.slot)] == (moved(ins@, members@, v).node, moved(ins@, members@, v).slot),
        decreases members@.len() - j,
    {
        let i = members[j];
        let node = entry.node(i);
        let current = function.node_count();
        proof {
            lemma_index_of_unique(members@, j as int);
            assert forall|m: int| 0 <= m < node@.operands.len() implies pair_map_contents(moved_to).contains_key(
                ((#[trigger] node@.operands[m]).node, node@.operands[m].slot)) by {
                let v = node@.operands[m];
                assert(v == nodes[members@[j as int] as int].operands[m]);
                assert(value_before(nodes, v, i as int));
                if !ins@.contains(v) {
                    assert(members@.contains(v.node));
                    let q = choose|q: int| 0 <= q < members@.len() && members@[q] == v.node;
                    if q >= j {
                        if q > j {
                            assert(members@[j as int] < members@[q]);
                        }
                    }
                    assert(0 <= q < j && members@[q] == v.node && v.slot < nodes[v.node as int].outputs.len());
                }
            }
        }
        let operands = map_operands(node.operands.as_slice(), &moved_to);
        let ghost spec_node = spec[base + j];
        proof {
            assert(members@.no_duplicates()) by {
                assert forall|a: int, b: int| 0 <= a < members@.len() && 0 <= b < members@.len() && a != b implies members@[a] != members@[b] by {
                    if a < b {
                        assert(members@[a] < members@[b]);
                    } else {
                        assert(members@[b] < members@[a]);
                    }
                }
            }
            assert(spec_node == rebuilt(nodes, ins@, members@, members@[j as int]));
            assert(operands@ =~= spec_node.operands) by {
                assert forall|m: int| 0 <= m < operands@.len() implies #[trigger] operands@[m] == spec_node.operands[m] by {
                    let v = node@.operands[m];
                    assert(pair_map_contents(moved_to).contains_key((v.node, v.slot)));
                }
            }
            // Every operand lands on a value already built.
            assert forall|m: int| 0 <= m < operands@.len() implies value_before(function@, #[trigger] operands@[m], function@.len() as int) by {
                let v = node@.operands[m];
                assert(v == nodes[members@[j as int] as int].operands[m]);
                assert(value_before(nodes, v, i as int));
                assert(operands@[m] == moved(ins@, members@, v));
                if ins@.contains(v) {
                    let q = ins@.index_of(v);
                    assert(0 <= q < ins@.len() && ins@[q] == v);
                    assert(operands@[m] == Value { node: q as usize, slot: 0 });
                    assert((q as usize) as int == q);
                    assert(function@[q] == spec[q]);
                } else {
                    let q = members@.index_of(v.node);
                    assert(0 <= q < members@.len() && members@[q] == v.node);
                    if q >= j {
                        if q > j {
                            assert(members@[j as int] < members@[q]);
                        }
                    }
                    assert(operands@[m] == Value { node: (base + q) as usize, slot: v.slot });
                    assert(((base + q) as usize) as int == base + q);
                    assert(function@[base + q] == spec[base + q]);
                }
            }
        }
        let op = match &node.view {
            NodeView::Op(t) => t.copy(),
            _ => {
                proof {
                    assert(is_op(nodes, members@[j as int] as int));
                }
                vstd::pervasive::unreached()
            },
        };
        let produced = function.add_node(op, operands.as_slice(), copy_types(node.output_types.as_slice()));
        let values = match produced {
            Ok(values) => values,
            Err(_) => vstd::pervasive::unreached(),
        };
        proof {
            assert(type_views(node.output_types@) == nodes[i as int].outputs);
            assert(function@ =~= spec.take(base + j + 1)) by {
                assert(spec.take(base + j + 1) =~= spec.take(base + j).push(spec[base + j]));
            }
        }
        let ghost map_before = pair_map_contents(moved_to);
        proof {
            assert forall|key: (usize, usize)| map_before.contains_key(key) implies key.0 != i by {
                let v = Value { node: key.0, slot: key.1 };
                assert(pair_map_contents(moved_to).contains_key((v.node, v.slot)));
                if ins@.contains(v) {
                    let k = choose|k: int| 0 <= k < ins@.len() && ins@[k] == v;
                    assert(!members@.contains(ins@[k].node));
                    assert(members@[j as int] == i);
                } else {
                    let q = choose|q: int| 0 <= q < j && members@[q] == v.node && v.slot < nodes[v.node as int].outputs.len();
                    assert(members@[q] < members@[j as int]);
                }
            }
        }
        let count = values.len();
        assert(count == nodes[i as int].outputs.len()) by {
            assert(type_views(node.output_types@).len() == node.output_types@.len());
        }
        let mut slot: usize = 0;
        while slot < count
            invariant
                count == values@.len(),
                count == nodes[i as int].outputs.len(),
                forall|q: int| 0 <= q < count ==> #[trigger] values@[q] == (Value { node: current, slot: q as usize }),
                slot <= count,
                forall|key: (usize, usize)| #[trigger] pair_map_contents(moved_to).contains_key(key)
                    <==> map_before.contains_key(key) || (key.0 == i && key.1 < slot),
                forall|key: (usize, usize)| #[trigger] pair_map_contents(moved_to).contains_key(key)
                    ==> pair_map_contents(moved_to)[key] == if map_before.contains_key(key) {
                        map_before[key]
                    } else {
                        (current, key.1)
                    },
                forall|key: (usize, usize)| map_before.contains_key(key) ==> key.0 != i,
            decreases count - slot,
        {
            moved_to.insert((i, slot), (values[slot].node, values[slot].slot));
            slot = slot + 1;
        }
        proof {
            assert forall|v: Value| #[trigger] pair_map_contents(moved_to).contains_key((v.node, v.slot))
                <==> ins@.contains(v) || exists|q: int| 0 <= q < j + 1 && members@[q] == v.node
                    && v.slot < nodes[v.node as int].outputs.len() by {
                if exists|q: int| 0 <= q < j + 1 && members@[q] == v.node && v.slot < nodes[v.node as int].outputs.len() {
                    let q = choose|q: int| 0 <= q < j + 1 && members@[q] == v.node && v.slot < nodes[v.node as int].outputs.len();
                    if q < j {
                        assert(map_before.contains_key((v.node, v.slot)));
                    }
                }
                if v.node == i && v.slot < count {
                    assert(0 <= j < j + 1 && members@[j as int] == v.node);
                }
            }
            assert forall|v: Value| #[trigger] pair_map_contents(moved_to).contains_key((v.node, v.slot))
                implies pair_map_contents(moved_to)[(v.node, v.slot)] == (moved(ins@, members@, v).node, moved(ins@, members@, v).slot) by {
                if !map_before.contains_key((v.node, v.slot)) {
                    assert(v.node == i);
                    assert(!ins@.contains(v)) by {
                        if ins@.contains(v) {
                            let k = choose|k: int| 0 <= k < ins@.len() && ins@[k] == v;
                            assert(members@.contains(ins@[k].node));
                        }
                    }
                    assert(members@.index_of(i) == j);
                    assert(((base + j) as usize) == current);
                }
            }
        }
        j = j + 1;
    }
    // A result per value produced for outside.
    let mid = function.node_count();
    let mut k: usize = 0;
    while k < outs.len()
        invariant
            unit_ready(nodes, members@, ins@, outs@),
            spec == unit_function(nodes, members@, ins@, outs@),
            spec.len() == ins@.len() + members@.len() + outs@.len(),
            forall|q: int| 0 <= q < ins@.len() ==> #[trigger] spec[q] == param_node(type_of_value(nodes, ins@[q])),
            forall|q: int| 0 <= q < members@.len() ==> #[trigger] spec[ins@.len() + q] == rebuilt(nodes, ins@, members@, members@[q]),
            forall|q: int| 0 <= q < outs@.len() ==> #[trigger] spec[ins@.len() + members@.len() + q]
                == result_node(moved(ins@, members@, outs@[q])),
            nodes == entry@,
            mid == ins@.len() + members@.len(),
            k <= outs@.len(),
            function@ == spec.take(mid + k),
            forall|v: Value| #[trigger] pair_map_contents(moved_to).contains_key((v.node, v.slot))
                <==> ins@.contains(v) || exists|q: int| 0 <= q < members@.len() && members@[q] == v.node
                    && v.slot < nodes[v.node as int].outputs.len(),
            forall|v: Value| #[trigger] pair_map_contents(moved_to).contains_key((v.node, v.slot))
                ==> pair_map_contents(moved_to)[(v.node, v.slot)] == (moved(ins@, members@, v).node, moved(ins@, members@, v).slot),
        decreases outs@.len() - k,
    {
        let v = outs[k];
        proof {
            assert(members@.contains(v.node) && value_before(nodes, v, nodes.len() as int));
            let q = choose|q: int| 0 <= q < members@.len() && members@[q] == v.node;
            assert(pair_map_contents(moved_to).contains_key((v.node, v.slot)));
        }
        let target = match moved_to.get((v.node, v.slot)) {
            Some((node, slot)) => Value { node, slot },
            None => vstd::pervasive::unreached(),
        };
        proof {
            assert(target == moved(ins@, members@, v));
            assert(members@.no_duplicates()) by {
                assert forall|a: int, b: int| 0 <= a < members@.len() && 0 <= b < members@.len() && a != b implies members@[a] != members@[b] by {
                    if a < b {
                        assert(members@[a] < members@[b]);
                    } else {
                        assert(members@[b] < members@[a]);
                    }
                }
            }
            let q = members@.index_of(v.node);
            assert(0 <= q < members@.len() && members@[q] == v.node);
            assert(!ins@.contains(v)) by {
                if ins@.contains(v) {
                    let x = choose|x: int| 0 <= x < ins@.len() && ins@[x] == v;
                    assert(!members@.contains(ins@[x].node));
                }
            }
            assert(function@[ins@.len() + q] == spec[ins@.len() + q]);
            assert(((ins@.len() + q) as usize) as int == ins@.len() + q);
        }
        match function.add_result(target) {
            Ok(()) => {},
            Err(_) => {
                vstd::pervasive::unreached::<()>();
            },
        }
        proof {
            assert(spec.take(mid + k + 1) =~= spec.take(mid + k).push(spec[mid + k]));
        }
        k = k + 1;
    }
    assert(function@ =~= spec);
    function
}

/// The values `operands` landed on, as `moved_to` records them.
fn map_operands(operands: &[Value], moved_to: &PairMap) -> (mapped: Vec<Value>)
    requires
        forall|m: int| 0 <= m < operands@.len() ==> pair_map_contents(*moved_to).contains_key(((#[trigger] operands@[m]).node, operands@[m].slot)),
    ensures
        mapped@.len() == operands@.len(),
        forall|m: int| 0 <= m < operands@.len() ==> (#[trigger] mapped@[m]).node == pair_map_contents(*moved_to)[(operands@[m].node, operands@[m].slot)].0
            && mapped@[m].slot == pair_map_contents(*moved_to)[(operands@[m].node, operands@[m].slot)].1,
{
    let mut mapped: Vec<Value> = Vec::new();
    for m in 0..operands.len()
        invariant
            forall|q: int| 0 <= q < operands@.len() ==> pair_map_contents(*moved_to).contains_key(((#[trigger] operands@[q]).node, operands@[q].slot)),
            mapped@.len() == m,
            forall|q: int| 0 <= q < m ==> (#[trigger] mapped@[q]).node == pair_map_contents(*moved_to)[(operands@[q].node, operands@[q].slot)].0
                && mapped@[q].slot == pair_map_contents(*moved_to)[(operands@[q].node, operands@[q].slot)].1,
    {
        let v = operands[m];
        match moved_to.get((v.node, v.slot)) {
            Some((node, slot)) => {
                mapped.push(Value { node, slot });
            },
            None => {
                proof {
                    assert(pair_map_contents(*moved_to).contains_key((operands@[m as int].node, operands@[m as int].slot)));
                }
                vstd::pervasive::unreached::<()>();
            },
        }
    }
    mapped
}


/// Where value `v` of the entry point lands in the rewritten entry point: one of its parameters,
/// or the output of the call of the unit that produced it.
pub open spec fn lifted(params: Seq<Value>, held: Seq<Option<usize>>, outs: Seq<Seq<Value>>, v: Value) -> Value {
    if params.contains(v) {
        Value { node: params.index_of(v) as usize, slot: 0 }
    } else {
        let u = held[v.node as int]->Some_0;
        Value { node: (params.len() + u) as usize, slot: outs[u as int].index_of(v) as usize }
    }
}

/// The call of unit `u` in the rewritten entry point: it passes the values the unit reads, and
/// produces the values the unit returns.
pub open spec fn call_node(nodes: Seq<NodeSpec>, params: Seq<Value>, held: Seq<Option<usize>>, ins: Seq<Seq<Value>>, outs: Seq<Seq<Value>>, u: int) -> NodeSpec {
    NodeSpec {
        kind: NodeKind::Call(u as usize),
        operands: ins[u].map_values(|v: Value| lifted(params, held, outs, v)),
        outputs: outs[u].map_values(|v: Value| type_of_value(nodes, v)),
    }
}

/// The rewritten entry point: the parameters of the entry point, a call per unit in order, and
/// the results of the entry point, each over the value it landed on.
pub open spec fn entry_function(nodes: Seq<NodeSpec>, held: Seq<Option<usize>>, ins: Seq<Seq<Value>>, outs: Seq<Seq<Value>>) -> Seq<NodeSpec> {
    let params = parameter_values_of(nodes);
    let results = result_values_of(nodes);
    Seq::new(params.len(), |k: int| param_node(type_of_value(nodes, params[k])))
        + Seq::new(ins.len(), |u: int| call_node(nodes, params, held, ins, outs, u))
        + Seq::new(results.len(), |k: int| result_node(lifted(params, held, outs, results[k])))
}

/// The nodes of the rewritten entry point, by position.
proof fn lemma_entry_function_index(nodes: Seq<NodeSpec>, held: Seq<Option<usize>>, ins: Seq<Seq<Value>>, outs: Seq<Seq<Value>>)
    ensures
        ({
            let params = parameter_values_of(nodes);
            let results = result_values_of(nodes);
            let spec = entry_function(nodes, held, ins, outs);
            &&& spec.len() == params.len() + ins.len() + results.len()
            &&& forall|q: int| 0 <= q < params.len() ==> #[trigger] spec[q] == param_node(type_of_value(nodes, params[q]))
            &&& forall|u: int| 0 <= u < ins.len() ==> #[trigger] spec[params.len() + u] == call_node(nodes, params, held, ins, outs, u)
            &&& forall|q: int| 0 <= q < results.len() ==> #[trigger] spec[params.len() + ins.len() + q]
                == result_node(lifted(params, held, outs, results[q]))
        }),
{
}

/// What the rewritten entry point needs to be built: every value a unit reads is a parameter or
/// returned by an earlier unit, every result of the entry point is a parameter or returned by a
/// unit, and each unit's lists are without repeats.
pub open spec fn entry_ready(nodes: Seq<NodeSpec>, held: Seq<Option<usize>>, ins: Seq<Seq<Value>>, outs: Seq<Seq<Value>>) -> bool {
    let params = parameter_values_of(nodes);
    let results = result_values_of(nodes);
    &&& function_wf(nodes)
    &&& nodes.len() <= usize::MAX
    &&& held.len() == nodes.len()
    &&& ins.len() == outs.len()
    &&& forall|u: int| 0 <= u < ins.len() ==> (#[trigger] ins[u]).no_duplicates() && outs[u].no_duplicates()
    &&& forall|u: int, k: int| 0 <= u < outs.len() && 0 <= k < outs[u].len() ==> held[(#[trigger] outs[u][k]).node as int] == Some(u as usize)
        && value_before(nodes, outs[u][k], nodes.len() as int)
    &&& forall|u: int, k: int| 0 <= u < ins.len() && 0 <= k < ins[u].len() ==> value_before(nodes, #[trigger] ins[u][k], nodes.len() as int)
        && (params.contains(ins[u][k]) || exists|w: int| 0 <= w < u && outs[w].contains(ins[u][k]))
    &&& forall|k: int| 0 <= k < results.len() ==> params.contains(#[trigger] results[k])
        || exists|w: int| 0 <= w < outs.len() && outs[w].contains(results[k])
    &&& forall|k: int| 0 <= k < params.len() ==> held[(#[trigger] params[k]).node as int] is None
}

/// Build the rewritten entry point.
fn build_entry(entry: &ProgramFunction, ins: &Vec<Vec<Value>>, outs: &Vec<Vec<Value>>, Ghost(held): Ghost<Seq<Option<usize>>>)
    -> (f: ProgramFunction)
    requires
        entry_ready(entry@, held, ins@.map_values(|v: Vec<Value>| v@), outs@.map_values(|v: Vec<Value>| v@)),
    ensures
        f@ == entry_function(entry@, held, ins@.map_values(|v: Vec<Value>| v@), outs@.map_values(|v: Vec<Value>| v@)),
{
    let ghost nodes = entry@;
    let ghost iv = ins@.map_values(|v: Vec<Value>| v@);
    let ghost ov = outs@.map_values(|v: Vec<Value>| v@);
    let ghost spec = entry_function(nodes, held, iv, ov);
    let params = entry.parameter_values();
    let results = entry.result_values();
    proof {
        lemma_entry_function_index(nodes, held, iv, ov);
        crate::program::function::lemma_positions(nodes, NodeRole::Parameter);
        crate::program::function::lemma_positions(nodes, NodeRole::Result);
        assert(params@.no_duplicates()) by {
            assert forall|a: int, b: int| 0 <= a < params@.len() && 0 <= b < params@.len() && a != b implies params@[a] != params@[b] by {
                let pa = positions_of(nodes, NodeRole::Parameter)[a];
                let pb = positions_of(nodes, NodeRole::Parameter)[b];
                if a < b {
                    assert(pa < pb);
                } else {
                    assert(pb < pa);
                }
            }
        }
    }
    let mut function = ProgramFunction::new();
    let mut lifted_to = PairMap::new();
    let mut k: usize = 0;
    while k < params.len()
        invariant
            entry_ready(nodes, held, iv, ov),
            nodes == entry@,
            iv == ins@.map_values(|v: Vec<Value>| v@),
            ov == outs@.map_values(|v: Vec<Value>| v@),
            spec == entry_function(nodes, held, iv, ov),
            params@ == parameter_values_of(nodes),
            params@.no_duplicates(),
            spec.len() == params@.len() + iv.len() + result_values_of(nodes).len(),
            forall|q: int| 0 <= q < params@.len() ==> #[trigger] spec[q] == param_node(type_of_value(nodes, params@[q])),
            k <= params@.len(),
            function@ == spec.take(k as int),
            forall|v: Value| #[trigger] pair_map_contents(lifted_to).contains_key((v.node, v.slot))
                <==> params@.take(k as int).contains(v),
            forall|v: Value| #[trigger] pair_map_contents(lifted_to).contains_key((v.node, v.slot))
                ==> pair_map_contents(lifted_to)[(v.node, v.slot)] == (lifted(params@, held, ov, v).node, lifted(params@, held, ov, v).slot),
        decreases params@.len() - k,
    {
        let v = params[k];
        proof {
            crate::program::function::lemma_positions(nodes, NodeRole::Parameter);
            let pos = positions_of(nodes, NodeRole::Parameter)[k as int];
            assert(v == Value { node: pos, slot: 0 });
            assert(nodes[pos as int].kind is Parameter);
        }
        let t = match entry.type_of(v) {
            Some(t) => t.clone(),
            None => vstd::pervasive::unreached(),
        };
        let value = function.add_parameter(t);
        lifted_to.insert((v.node, v.slot), (value.node, value.slot));
        proof {
            lemma_index_of_unique(params@, k as int);
            assert(spec.take(k + 1) =~= spec.take(k as int).push(spec[k as int]));
            assert forall|x: Value| #[trigger] pair_map_contents(lifted_to).contains_key((x.node, x.slot))
                <==> params@.take(k + 1).contains(x) by {
                if params@.take(k as int).contains(x) {
                    let q = choose|q: int| 0 <= q < k && #[trigger] params@.take(k as int)[q] == x;
                    assert(params@.take(k + 1)[q] == x);
                }
                if params@.take(k + 1).contains(x) {
                    let q = choose|q: int| 0 <= q < k + 1 && #[trigger] params@.take(k + 1)[q] == x;
                    if q < k {
                        assert(params@.take(k as int)[q] == x);
                    }
                }
                assert(params@.take(k + 1)[k as int] == v);
            }
        }
        k = k + 1;
    }
    assert(params@.take(params@.len() as int) == params@);
    // A call per unit, in order.
    let base = params.len();
    let mut u: usize = 0;
    while u < ins.len()
        invariant
            entry_ready(nodes, held, iv, ov),
            nodes == entry@,
            iv == ins@.map_values(|v: Vec<Value>| v@),
            ov == outs@.map_values(|v: Vec<Value>| v@),
            iv.len() == ins@.len(),
            ov.len() == outs@.len(),
            spec == entry_function(nodes, held, iv, ov),
            params@ == parameter_values_of(nodes),
            params@.no_duplicates(),
            base == params@.len(),
            spec.len() == params@.len() + iv.len() + result_values_of(nodes).len(),
            forall|q: int| 0 <= q < params@.len() ==> #[trigger] spec[q] == param_node(type_of_value(nodes, params@[q])),
            forall|w: int| 0 <= w < iv.len() ==> #[trigger] spec[params@.len() + w] == call_node(nodes, params@, held, iv, ov, w),
            u <= ins@.len(),
            function@ == spec.take(base + u),
            forall|v: Value| #[trigger] pair_map_contents(lifted_to).contains_key((v.node, v.slot))
                <==> params@.contains(v) || exists|w: int| 0 <= w < u && ov[w].contains(v),
            forall|v: Value| #[trigger] pair_map_contents(lifted_to).contains_key((v.node, v.slot))
                ==> pair_map_contents(lifted_to)[(v.node, v.slot)] == (lifted(params@, held, ov, v).node, lifted(params@, held, ov, v).slot),
        decreases ins@.len() - u,
    {
        let reads = &ins[u];
        let gives = &outs[u];
        let current = function.node_count();
        assert(reads@ == iv[u as int] && gives@ == ov[u as int]);
        proof {
            assert forall|m: int| 0 <= m < reads@.len() implies pair_map_contents(lifted_to).contains_key(
                ((#[trigger] reads@[m]).node, reads@[m].slot)) by {
                assert(reads@[m] == iv[u as int][m]);
            }
        }
        let operands = map_operands(reads.as_slice(), &lifted_to);
        let ghost call = call_node(nodes, params@, held, iv, ov, u as int);
        proof {
            assert(operands@ =~= call.operands);
            assert forall|m: int| 0 <= m < operands@.len() implies value_before(function@, #[trigger] operands@[m], function@.len() as int) by {
                let v = reads@[m];
                assert(v == iv[u as int][m]);
                assert(operands@[m] == lifted(params@, held, ov, v));
                if params@.contains(v) {
                    let q = params@.index_of(v);
                    assert(0 <= q < params@.len() && params@[q] == v);
                    assert(((q as usize) as int) == q);
                    assert(function@[q] == spec[q]);
                } else {
                    let w = choose|w: int| 0 <= w < u && ov[w].contains(v);
                    let x = choose|x: int| 0 <= x < ov[w].len() && ov[w][x] == v;
                    assert(held[ov[w][x].node as int] == Some(w as usize));
                    assert(iv[w].no_duplicates());
                    lemma_index_of_unique(ov[w], x);
                    assert(((base + w) as usize) as int == base + w);
                    assert(function@[base + w] == spec[base + w]);
                }
            }
            assert forall|k: int| 0 <= k < reads@.len() implies value_before(entry@, #[trigger] reads@[k], entry@.len() as int) by {
                assert(reads@[k] == iv[u as int][k]);
            }
            assert forall|k: int| 0 <= k < gives@.len() implies value_before(entry@, #[trigger] gives@[k], entry@.len() as int) by {
                assert(gives@[k] == ov[u as int][k]);
            }
        }
        let signature = Signature { inputs: entry.types_of(reads), outputs: entry.types_of(gives) };
        assert(type_views(signature.inputs@).len() == signature.inputs@.len());
        let produced = function.add_call(u, &signature, operands.as_slice());
        match produced {
            Ok(_) => {},
            Err(_) => {
                vstd::pervasive::unreached::<()>();
            },
        }
        proof {
            assert(type_views(signature.outputs@) =~= call.outputs);
            assert(spec.take(base + u + 1) =~= spec.take(base + u).push(spec[base + u]));
        }
        let ghost map_before = pair_map_contents(lifted_to);
        assert(iv[u as int].no_duplicates());
        let mut slot: usize = 0;
        while slot < gives.len()
            invariant
                entry_ready(nodes, held, iv, ov),
                ov == outs@.map_values(|v: Vec<Value>| v@),
                u < ov.len(),
                gives@ == ov[u as int],
                gives@.no_duplicates(),
                slot <= gives@.len(),
                forall|key: (usize, usize)| #[trigger] pair_map_contents(lifted_to).contains_key(key)
                    <==> map_before.contains_key(key) || exists|q: int| 0 <= q < slot && gives@[q].node == key.0 && gives@[q].slot == key.1,
                forall|q: int| 0 <= q < slot ==> #[trigger] pair_map_contents(lifted_to)[(gives@[q].node, gives@[q].slot)]
                    == (current, q as usize),
                forall|key: (usize, usize)| map_before.contains_key(key) && !(exists|q: int| 0 <= q < slot && gives@[q].node == key.0 && gives@[q].slot == key.1)
                    ==> pair_map_contents(lifted_to)[key] == map_before[key],
            decreases gives@.len() - slot,
        {
            let v = gives[slot];
            lifted_to.insert((v.node, v.slot), (current, slot));
            proof {
                assert forall|q: int| 0 <= q < slot + 1 implies #[trigger] pair_map_contents(lifted_to)[(gives@[q].node, gives@[q].slot)]
                    == (current, q as usize) by {
                    if q < slot {
                        assert(gives@[q] != gives@[slot as int]);
                    }
                }
            }
            slot = slot + 1;
        }
        proof {
            lemma_call_outputs_fresh(nodes, held, iv, ov, params@, u as int, map_before);
            assert forall|v: Value| #[trigger] pair_map_contents(lifted_to).contains_key((v.node, v.slot))
                <==> params@.contains(v) || exists|w: int| 0 <= w < u + 1 && ov[w].contains(v) by {
                if exists|w: int| 0 <= w < u + 1 && ov[w].contains(v) {
                    let w = choose|w: int| 0 <= w < u + 1 && ov[w].contains(v);
                    if w == u {
                        let q = choose|q: int| 0 <= q < gives@.len() && gives@[q] == v;
                        assert(gives@[q].node == v.node && gives@[q].slot == v.slot);
                    }
                }
                if exists|q: int| 0 <= q < gives@.len() && gives@[q].node == v.node && gives@[q].slot == v.slot {
                    let q = choose|q: int| 0 <= q < gives@.len() && gives@[q].node == v.node && gives@[q].slot == v.slot;
                    assert(gives@[q] == v);
                    assert(ov[u as int].contains(v));
                }
            }
            assert forall|v: Value| #[trigger] pair_map_contents(lifted_to).contains_key((v.node, v.slot))
                implies pair_map_contents(lifted_to)[(v.node, v.slot)] == (lifted(params@, held, ov, v).node, lifted(params@, held, ov, v).slot) by {
                if exists|q: int| 0 <= q < gives@.len() && gives@[q].node == v.node && gives@[q].slot == v.slot {
                    let q = choose|q: int| 0 <= q < gives@.len() && gives@[q].node == v.node && gives@[q].slot == v.slot;
                    assert(gives@[q] == v);
                    assert(held[ov[u as int][q].node as int] == Some(u));
                    assert(!params@.contains(v)) by {
                        if params@.contains(v) {
                            let x = choose|x: int| 0 <= x < params@.len() && params@[x] == v;
                            assert(held[params@[x].node as int] is None);
                        }
                    }
                    assert(iv[u as int].no_duplicates());
                    lemma_index_of_unique(ov[u as int], q);
                    assert(((base + u) as usize) == current);
                }
            }
        }
        u = u + 1;
    }
    // The results of the entry point, over the values they landed on.
    let mid = function.node_count();
    let mut k: usize = 0;
    while k < results.len()
        invariant
            entry_ready(nodes, held, iv, ov),
            nodes == entry@,
            ov == outs@.map_values(|v: Vec<Value>| v@),
            iv.len() == ins@.len(),
            ov.len() == outs@.len(),
            spec == entry_function(nodes, held, iv, ov),
            params@ == parameter_values_of(nodes),
            results@ == result_values_of(nodes),
            params@.no_duplicates(),
            base == params@.len(),
            mid == base + iv.len(),
            spec.len() == params@.len() + iv.len() + results@.len(),
            forall|q: int| 0 <= q < params@.len() ==> #[trigger] spec[q] == param_node(type_of_value(nodes, params@[q])),
            forall|w: int| 0 <= w < iv.len() ==> #[trigger] spec[params@.len() + w] == call_node(nodes, params@, held, iv, ov, w),
            forall|q: int| 0 <= q < results@.len() ==> #[trigger] spec[params@.len() + iv.len() + q]
                == result_node(lifted(params@, held, ov, results@[q])),
            k <= results@.len(),
            function@ == spec.take(mid + k),
            forall|v: Value| #[trigger] pair_map_contents(lifted_to).contains_key((v.node, v.slot))
                <==> params@.contains(v) || exists|w: int| 0 <= w < ov.len() && ov[w].contains(v),
            forall|v: Value| #[trigger] pair_map_contents(lifted_to).contains_key((v.node, v.slot))
                ==> pair_map_contents(lifted_to)[(v.node, v.slot)] == (lifted(params@, held, ov, v).node, lifted(params@, held, ov, v).slot),
        decreases results@.len() - k,
    {
        let v = results[k];
        proof {
            assert(pair_map_contents(lifted_to).contains_key((v.node, v.slot)));
        }
        let target = match lifted_to.get((v.node, v.slot)) {
            Some((node, slot)) => Value { node, slot },
            None => vstd::pervasive::unreached(),
        };
        proof {
            assert(target == lifted(params@, held, ov, v));
            if params@.contains(v) {
                let q = params@.index_of(v);
                assert(0 <= q < params@.len() && params@[q] == v);
                assert(((q as usize) as int) == q);
                assert(function@[q] == spec[q]);
            } else {
                let w = choose|w: int| 0 <= w < ov.len() && ov[w].contains(v);
                let x = choose|x: int| 0 <= x < ov[w].len() && ov[w][x] == v;
                assert(held[ov[w][x].node as int] == Some(w as usize));
                assert(iv[w].no_duplicates());
                lemma_index_of_unique(ov[w], x);
                assert(((base + w) as usize) as int == base + w);
                assert(function@[base + w] == spec[base + w]);
            }
        }
        match function.add_result(target) {
            Ok(()) => {},
            Err(_) => {
                vstd::pervasive::unreached::<()>();
            },
        }
        proof {
            assert(spec.take(mid + k + 1) =~= spec.take(mid + k).push(spec[mid + k]));
        }
        k = k + 1;
    }
    assert(function@ =~= spec);
    function
}

/// The values a unit returns are in the lifted map neither as parameters nor as values of an
/// earlier unit.
proof fn lemma_call_outputs_fresh(
    nodes: Seq<NodeSpec>,
    held: Seq<Option<usize>>,
    iv: Seq<Seq<Value>>,
    ov: Seq<Seq<Value>>,
    params: Seq<Value>,
    u: int,
    map: Map<(usize, usize), (usize, usize)>,
)
    requires
        entry_ready(nodes, held, iv, ov),
        params == parameter_values_of(nodes),
        0 <= u < ov.len(),
        ov.len() <= usize::MAX,
        forall|v: Value| #[trigger] map.contains_key((v.node, v.slot))
            <==> params.contains(v) || exists|w: int| 0 <= w < u && ov[w].contains(v),
    ensures
        forall|q: int| 0 <= q < ov[u].len() ==> !map.contains_key(((#[trigger] ov[u][q]).node, ov[u][q].slot)),
{
    assert forall|q: int| 0 <= q < ov[u].len() implies !map.contains_key(((#[trigger] ov[u][q]).node, ov[u][q].slot)) by {
        let v = ov[u][q];
        assert(held[v.node as int] == Some(u as usize));
        if map.contains_key((v.node, v.slot)) {
            assert(params.contains(v) || exists|w: int| 0 <= w < u && ov[w].contains(v));
            if params.contains(v) {
                let x = choose|x: int| 0 <= x < params.len() && params[x] == v;
                assert(held[params[x].node as int] is None);
            } else {
                let w = choose|w: int| 0 <= w < u && ov[w].contains(v);
                let x = choose|x: int| 0 <= x < ov[w].len() && ov[w][x] == v;
                assert(held[ov[w][x].node as int] == Some(w as usize));
            }
        }
    }
}


/// A node listed by exactly one unit is held by that unit; a node no unit lists is held by none.
proof fn lemma_holder(units: Seq<Seq<usize>>, i: usize)
    requires
        forall|a: int, b: int| 0 <= a < units.len() && 0 <= b < units.len() && a != b ==> !(#[trigger] units[a].contains(i) && #[trigger] units[b].contains(i)),
        units.len() <= usize::MAX,
    ensures
        forall|u: int| 0 <= u < units.len() ==> (holder(units, i) == Some(u as usize) <==> #[trigger] units[u].contains(i)),
        holder(units, i) matches Some(u) ==> u < units.len(),
        holder(units, i) is None <==> forall|u: int| 0 <= u < units.len() ==> !(#[trigger] units[u].contains(i)),
    decreases units.len(),
{
    if units.len() > 0 {
        let d = units.drop_last();
        assert forall|a: int, b: int| 0 <= a < d.len() && 0 <= b < d.len() && a != b implies !(#[trigger] d[a].contains(i) && #[trigger] d[b].contains(i)) by {
            assert(d[a] == units[a] && d[b] == units[b]);
        }
        lemma_holder(d, i);
        assert forall|u: int| 0 <= u < units.len() implies (holder(units, i) == Some(u as usize) <==> #[trigger] units[u].contains(i)) by {
            if u < d.len() {
                assert(d[u] == units[u]);
                if units[u].contains(i) {
                    assert(!units[units.len() - 1].contains(i));
                }
            }
        }
        if holder(units, i) is None {
            assert forall|u: int| 0 <= u < units.len() implies !(#[trigger] units[u].contains(i)) by {
                if u < d.len() {
                    assert(d[u] == units[u]);
                }
            }
        }
    }
}

/// A node of a role is among the positions of that role.
proof fn lemma_positions_contains(nodes: Seq<NodeSpec>, role: NodeRole, p: int)
    requires
        0 <= p < nodes.len(),
        nodes.len() <= usize::MAX,
        role_of(nodes[p].kind) == role,
    ensures
        positions_of(nodes, role).contains(p as usize),
    decreases nodes.len(),
{
    let d = nodes.drop_last();
    if p == nodes.len() - 1 {
        assert(positions_of(nodes, role) == positions_of(d, role).push(p as usize));
        assert(positions_of(nodes, role)[positions_of(d, role).len() as int] == p as usize);
    } else {
        assert(d[p] == nodes[p]);
        lemma_positions_contains(d, role, p);
        let k = choose|k: int| 0 <= k < positions_of(d, role).len() && positions_of(d, role)[k] == p as usize;
        assert(positions_of(nodes, role)[k] == p as usize);
    }
}

/// Two increasing sequences holding the same values are equal.
proof fn lemma_sorted_unique(a: Seq<Value>, b: Seq<Value>)
    requires
        strictly_sorted(a),
        strictly_sorted(b),
        forall|v: Value| a.contains(v) <==> b.contains(v),
    ensures
        a == b,
    decreases a.len(),
{
    if a.len() == 0 {
        if b.len() > 0 {
            assert(b.contains(b[0]));
        }
        assert(b.len() == 0);
        assert(a =~= b);
    } else {
        assert(a.contains(a[0]));
        assert(b.len() > 0);
        assert(b.contains(b[0]));
        // The first of each is the least, so they agree.
        let xa = choose|x: int| 0 <= x < b.len() && b[x] == a[0];
        let xb = choose|x: int| 0 <= x < a.len() && a[x] == b[0];
        if xa > 0 {
            assert(value_lt(b[0], b[xa]));
            if xb > 0 {
                assert(value_lt(a[0], a[xb]));
            }
        }
        if xb > 0 {
            assert(value_lt(a[0], a[xb]));
        }
        assert(a[0] == b[0]);
        let ra = a.drop_first();
        let rb = b.drop_first();
        assert forall|v: Value| ra.contains(v) <==> rb.contains(v) by {
            if ra.contains(v) {
                let x = choose|x: int| 0 <= x < ra.len() && ra[x] == v;
                assert(a[x + 1] == v);
                assert(value_lt(a[0], a[x + 1]));
                assert(b.contains(v));
                let y = choose|y: int| 0 <= y < b.len() && b[y] == v;
                assert(y != 0);
                assert(rb[y - 1] == v);
            }
            if rb.contains(v) {
                let x = choose|x: int| 0 <= x < rb.len() && rb[x] == v;
                assert(b[x + 1] == v);
                assert(value_lt(b[0], b[x + 1]));
                assert(a.contains(v));
                let y = choose|y: int| 0 <= y < a.len() && a[y] == v;
                assert(y != 0);
                assert(ra[y - 1] == v);
            }
        }
        assert(strictly_sorted(ra)) by {
            assert forall|p: int, q: int| 0 <= p < q < ra.len() implies value_lt(#[trigger] ra[p], #[trigger] ra[q]) by {
                assert(ra[p] == a[p + 1] && ra[q] == a[q + 1]);
            }
        }
        assert(strictly_sorted(rb)) by {
            assert forall|p: int, q: int| 0 <= p < q < rb.len() implies value_lt(#[trigger] rb[p], #[trigger] rb[q]) by {
                assert(rb[p] == b[p + 1] && rb[q] == b[q + 1]);
            }
        }
        lemma_sorted_unique(ra, rb);
        assert(a =~= seq![a[0]] + ra);
        assert(b =~= seq![b[0]] + rb);
    }
}


// ---------------------------------------------------------------------------
// The whole contraction, stated
// ---------------------------------------------------------------------------

/// The node lists of the units of `nodes`.
pub open spec fn spec_unit_nodes(nodes: Seq<NodeSpec>, cats: Map<Seq<char>, usize>) -> Seq<Seq<usize>> {
    unit_keys(nodes, cats).map_values(|k: (nat, Option<usize>)| members(nodes, cats, k, nodes.len()))
}

/// Which unit holds each node of `nodes`.
pub open spec fn spec_held(nodes: Seq<NodeSpec>, cats: Map<Seq<char>, usize>) -> Seq<Option<usize>> {
    Seq::new(nodes.len(), |i: int| holder(spec_unit_nodes(nodes, cats), i as usize))
}

/// The increasing list of the values unit `u` reads from outside (`into`), or produces for
/// outside (not `into`).
pub open spec fn boundary_seq(nodes: Seq<NodeSpec>, held: Seq<Option<usize>>, u: usize, into: bool) -> Seq<Value> {
    choose|s: Seq<Value>| boundary_of(s, nodes, held, u, into)
}

/// The values each unit reads from outside.
pub open spec fn spec_ins(nodes: Seq<NodeSpec>, cats: Map<Seq<char>, usize>) -> Seq<Seq<Value>> {
    Seq::new(unit_keys(nodes, cats).len(), |u: int| boundary_seq(nodes, spec_held(nodes, cats), u as usize, true))
}

/// The values each unit produces for outside.
pub open spec fn spec_outs(nodes: Seq<NodeSpec>, cats: Map<Seq<char>, usize>) -> Seq<Seq<Value>> {
    Seq::new(unit_keys(nodes, cats).len(), |u: int| boundary_seq(nodes, spec_held(nodes, cats), u as usize, false))
}

/// The functions of the contracted program: one per unit, in order, then the rewritten entry
/// point.
pub open spec fn contracted_functions(nodes: Seq<NodeSpec>, cats: Map<Seq<char>, usize>) -> Seq<Seq<NodeSpec>> {
    Seq::new(unit_keys(nodes, cats).len(), |u: int| unit_function(
        nodes,
        spec_unit_nodes(nodes, cats)[u],
        spec_ins(nodes, cats)[u],
        spec_outs(nodes, cats)[u],
    )).push(entry_function(nodes, spec_held(nodes, cats), spec_ins(nodes, cats), spec_outs(nodes, cats)))
}

/// Whether a function calls no other.
pub open spec fn calls_nothing(nodes: Seq<NodeSpec>) -> bool {
    forall|i: int| 0 <= i < nodes.len() ==> !((#[trigger] nodes[i].kind) is Call)
}

/// Which unit holds a node: the unit of its key, for a computing node, and none otherwise.
proof fn lemma_held(nodes: Seq<NodeSpec>, cats: Map<Seq<char>, usize>, i: int)
    requires
        0 <= i < nodes.len(),
        nodes.len() <= usize::MAX,
    ensures
        forall|w: int| 0 <= w < unit_keys(nodes, cats).len() ==> (spec_held(nodes, cats)[i] == Some(w as usize)
            <==> #[trigger] spec_unit_nodes(nodes, cats)[w].contains(i as usize)),
        forall|w: int| 0 <= w < unit_keys(nodes, cats).len() ==> (#[trigger] spec_unit_nodes(nodes, cats)[w].contains(i as usize)
            <==> is_op(nodes, i) && unit_keys(nodes, cats)[w] == key_of(nodes, cats, i)),
        spec_held(nodes, cats)[i] matches Some(w) ==> w < unit_keys(nodes, cats).len(),
        spec_held(nodes, cats)[i] is None <==> !is_op(nodes, i),
{
    let su = spec_unit_nodes(nodes, cats);
    let keys = unit_keys(nodes, cats);
    lemma_each_node_in_one_unit(nodes, cats, i);
    assert forall|w: int| 0 <= w < keys.len() implies (#[trigger] su[w].contains(i as usize)
        <==> is_op(nodes, i) && keys[w] == key_of(nodes, cats, i)) by {
        assert(su[w] == members(nodes, cats, keys[w], nodes.len()));
    }
    assert forall|a: int, b: int| 0 <= a < su.len() && 0 <= b < su.len() && a != b implies !(#[trigger] su[a].contains(i as usize) && #[trigger] su[b].contains(i as usize)) by {
        if su[a].contains(i as usize) && su[b].contains(i as usize) {
            if a < b {
                assert(keys[a] != keys[b]);
            } else {
                assert(keys[b] != keys[a]);
            }
        }
    }
    lemma_keys_are_keys(nodes, cats, nodes.len());
    lemma_by_layer(keys_upto(nodes, cats, nodes.len()), nodes.len());
    assert(su.len() <= usize::MAX) by {
        assert(keys.no_duplicates());
        lemma_unit_count(nodes, cats);
    }
    lemma_holder(su, i as usize);
    assert(spec_held(nodes, cats)[i] == holder(su, i as usize));
    if !is_op(nodes, i) {
        assert forall|w: int| 0 <= w < su.len() implies !(#[trigger] su[w].contains(i as usize)) by {}
    } else {
        let w = choose|w: int| 0 <= w < keys.len() && #[trigger] keys[w] == key_of(nodes, cats, i);
        assert(su[w].contains(i as usize));
    }
}

/// There are no more units than nodes.
proof fn lemma_unit_count(nodes: Seq<NodeSpec>, cats: Map<Seq<char>, usize>)
    ensures
        unit_keys(nodes, cats).len() <= nodes.len(),
{
    let keys = keys_upto(nodes, cats, nodes.len());
    lemma_keys_count(nodes, cats, nodes.len());
    lemma_by_layer_count(keys, nodes.len());
}

/// No more keys than nodes are seen.
proof fn lemma_keys_count(nodes: Seq<NodeSpec>, cats: Map<Seq<char>, usize>, n: nat)
    ensures
        keys_upto(nodes, cats, n).len() <= n,
    decreases n,
{
    if n > 0 {
        lemma_keys_count(nodes, cats, (n - 1) as nat);
    }
}

/// Ordering keys by layer keeps at most as many as there are.
proof fn lemma_by_layer_count(keys: Seq<(nat, Option<usize>)>, bound: nat)
    ensures
        by_layer(keys, bound).len() <= keys.len(),
{
    lemma_keys_distinct_count(keys, bound);
}

/// The keys by layer are distinct keys of `keys`, so there are no more of them.
proof fn lemma_keys_distinct_count(keys: Seq<(nat, Option<usize>)>, bound: nat)
    ensures
        by_layer(keys, bound).len() <= keys.len(),
    decreases bound,
{
    if bound > 0 {
        lemma_keys_distinct_count(keys, (bound - 1) as nat);
        lemma_layer_counts(keys, bound);
    }
}

/// The keys of the layers below `bound` number at most the keys with a layer below `bound`.
proof fn lemma_layer_counts(keys: Seq<(nat, Option<usize>)>, bound: nat)
    ensures
        by_layer(keys, bound).len() == count_below(keys, bound),
        count_below(keys, bound) <= keys.len(),
    decreases bound,
{
    if bound > 0 {
        lemma_layer_counts(keys, (bound - 1) as nat);
        lemma_with_layer_count(keys, (bound - 1) as nat);
    }
    lemma_count_below_bound(keys, bound);
}

/// The number of keys whose layer is below `bound`.
pub open spec fn count_below(keys: Seq<(nat, Option<usize>)>, bound: nat) -> nat
    decreases bound,
{
    if bound == 0 {
        0
    } else {
        count_below(keys, (bound - 1) as nat) + with_layer(keys, (bound - 1) as nat).len()
    }
}

/// The keys of one layer number the keys with that layer.
proof fn lemma_with_layer_count(keys: Seq<(nat, Option<usize>)>, layer: nat)
    ensures
        with_layer(keys, layer).len() == count_layer(keys, layer),
    decreases keys.len(),
{
    if keys.len() > 0 {
        lemma_with_layer_count(keys.drop_last(), layer);
    }
}

/// The number of keys with layer `layer`.
pub open spec fn count_layer(keys: Seq<(nat, Option<usize>)>, layer: nat) -> nat
    decreases keys.len(),
{
    if keys.len() == 0 {
        0
    } else {
        count_layer(keys.drop_last(), layer) + if keys.last().0 == layer { 1nat } else { 0nat }
    }
}

/// The keys with a layer below `bound` are at most all the keys.
proof fn lemma_count_below_bound(keys: Seq<(nat, Option<usize>)>, bound: nat)
    ensures
        count_below(keys, bound) <= keys.len(),
    decreases keys.len(),
{
    if keys.len() > 0 {
        let d = keys.drop_last();
        lemma_count_below_bound(d, bound);
        lemma_count_below_split(keys, bound);
    } else {
        lemma_count_below_empty(keys, bound);
    }
}

/// No keys, none below any bound.
proof fn lemma_count_below_empty(keys: Seq<(nat, Option<usize>)>, bound: nat)
    requires
        keys.len() == 0,
    ensures
        count_below(keys, bound) == 0,
    decreases bound,
{
    if bound > 0 {
        lemma_count_below_empty(keys, (bound - 1) as nat);
    }
}

/// Counting the keys below `bound` counts those of all but the last, and the last if it is below.
proof fn lemma_count_below_split(keys: Seq<(nat, Option<usize>)>, bound: nat)
    requires
        keys.len() > 0,
    ensures
        count_below(keys, bound) == count_below(keys.drop_last(), bound) + if keys.last().0 < bound { 1nat } else { 0nat },
    decreases bound,
{
    if bound > 0 {
        lemma_count_below_split(keys, (bound - 1) as nat);
    }
}


/// A unit's pieces, as the boundary lists describe them, are ready to be built.
proof fn lemma_unit_ready(nodes: Seq<NodeSpec>, cats: Map<Seq<char>, usize>, u: int, ins: Seq<Value>, outs: Seq<Value>)
    requires
        function_wf(nodes),
        nodes.len() <= usize::MAX,
        0 <= u < unit_keys(nodes, cats).len(),
        boundary_of(ins, nodes, spec_held(nodes, cats), u as usize, true),
        boundary_of(outs, nodes, spec_held(nodes, cats), u as usize, false),
    ensures
        unit_ready(nodes, spec_unit_nodes(nodes, cats)[u], ins, outs),
{
    let held = spec_held(nodes, cats);
    let keys = unit_keys(nodes, cats);
    let m = spec_unit_nodes(nodes, cats)[u];
    assert(m == members(nodes, cats, keys[u], nodes.len()));
    lemma_members_increasing(nodes, cats, keys[u], nodes.len());
    assert forall|a: int| 0 <= a < m.len() implies #[trigger] m[a] < nodes.len() && is_op(nodes, m[a] as int) by {
        lemma_members_contains(nodes, cats, keys[u], nodes.len(), m[a] as int);
        assert(m.contains(m[a]));
    }
    lemma_sorted_distinct(ins);
    assert forall|k: int| 0 <= k < ins.len() implies value_before(nodes, #[trigger] ins[k], nodes.len() as int)
        && !m.contains(ins[k].node) by {
        let v = ins[k];
        assert(ins.contains(v));
        assert(crosses(nodes, held, u as usize, v, true));
        let (i, j) = choose|i: int, j: int| 0 <= i < nodes.len() && 0 <= j < nodes[i].operands.len()
            && (i < nodes.len() as int || (i == nodes.len() as int && j < 0)) && #[trigger] nodes[i].operands[j] == v
            && crossing(nodes, held, u as usize, i, j, true);
        assert(value_before(nodes, nodes[i].operands[j], i));
        lemma_held(nodes, cats, v.node as int);
    }
    assert forall|k: int| 0 <= k < outs.len() implies m.contains((#[trigger] outs[k]).node)
        && value_before(nodes, outs[k], nodes.len() as int) by {
        let v = outs[k];
        assert(outs.contains(v));
        assert(crosses(nodes, held, u as usize, v, false));
        let (i, j) = choose|i: int, j: int| 0 <= i < nodes.len() && 0 <= j < nodes[i].operands.len()
            && (i < nodes.len() as int || (i == nodes.len() as int && j < 0)) && #[trigger] nodes[i].operands[j] == v
            && crossing(nodes, held, u as usize, i, j, false);
        assert(value_before(nodes, nodes[i].operands[j], i));
        lemma_held(nodes, cats, v.node as int);
    }
    assert forall|j: int, q: int| 0 <= j < m.len() && 0 <= q < nodes[m[j] as int].operands.len()
        implies ins.contains(#[trigger] nodes[m[j] as int].operands[q]) || m.contains(nodes[m[j] as int].operands[q].node) by {
        let i = m[j] as int;
        let v = nodes[i].operands[q];
        assert(value_before(nodes, v, i));
        assert(m.contains(m[j]));
        lemma_held(nodes, cats, i);
        lemma_held(nodes, cats, v.node as int);
        assert(held[i] == Some(u as usize));
        if held[v.node as int] != Some(u as usize) {
            assert(crossing(nodes, held, u as usize, i, q, true));
            assert(crosses(nodes, held, u as usize, v, true));
        }
    }
}

/// A value no unit holds the producer of is a parameter.
proof fn lemma_unheld_is_parameter(nodes: Seq<NodeSpec>, cats: Map<Seq<char>, usize>, v: Value, before: int)
    requires
        function_wf(nodes),
        calls_nothing(nodes),
        nodes.len() <= usize::MAX,
        0 <= before <= nodes.len(),
        value_before(nodes, v, before),
        spec_held(nodes, cats)[v.node as int] is None,
    ensures
        parameter_values_of(nodes).contains(v),
{
    lemma_held(nodes, cats, v.node as int);
    let p = v.node as int;
    assert(!is_op(nodes, p));
    assert(!(nodes[p].kind is Call));
    if nodes[p].kind is Result {
        assert(nodes[p].outputs.len() == 0);
    }
    assert(nodes[p].kind is Parameter);
    assert(v.slot == 0);
    lemma_positions_contains(nodes, NodeRole::Parameter, p);
    let k = choose|k: int| 0 <= k < positions_of(nodes, NodeRole::Parameter).len() && positions_of(nodes, NodeRole::Parameter)[k] == v.node;
    assert(parameter_values_of(nodes)[k] == v);
}

/// The rewritten entry point's pieces, as the boundary lists describe them, are ready to be built.
proof fn lemma_entry_ready(nodes: Seq<NodeSpec>, cats: Map<Seq<char>, usize>, ins: Seq<Seq<Value>>, outs: Seq<Seq<Value>>)
    requires
        function_wf(nodes),
        calls_nothing(nodes),
        nodes.len() <= usize::MAX,
        ins.len() == unit_keys(nodes, cats).len(),
        outs.len() == unit_keys(nodes, cats).len(),
        forall|u: int| 0 <= u < ins.len() ==> boundary_of(#[trigger] ins[u], nodes, spec_held(nodes, cats), u as usize, true),
        forall|u: int| 0 <= u < outs.len() ==> boundary_of(#[trigger] outs[u], nodes, spec_held(nodes, cats), u as usize, false),
    ensures
        entry_ready(nodes, spec_held(nodes, cats), ins, outs),
{
    let held = spec_held(nodes, cats);
    let keys = unit_keys(nodes, cats);
    let params = parameter_values_of(nodes);
    let results = result_values_of(nodes);
    lemma_unit_count(nodes, cats);
    assert forall|u: int| 0 <= u < ins.len() implies (#[trigger] ins[u]).no_duplicates() && outs[u].no_duplicates() by {
        assert(boundary_of(outs[u], nodes, held, u as usize, false));
        lemma_sorted_distinct(ins[u]);
        lemma_sorted_distinct(outs[u]);
    }
    assert forall|u: int, k: int| 0 <= u < outs.len() && 0 <= k < outs[u].len() implies held[(#[trigger] outs[u][k]).node as int] == Some(u as usize)
        && value_before(nodes, outs[u][k], nodes.len() as int) by {
        let v = outs[u][k];
        assert(outs[u].contains(v));
        assert(boundary_of(outs[u], nodes, held, u as usize, false));
        let (i, j) = choose|i: int, j: int| 0 <= i < nodes.len() && 0 <= j < nodes[i].operands.len()
            && (i < nodes.len() as int || (i == nodes.len() as int && j < 0)) && #[trigger] nodes[i].operands[j] == v
            && crossing(nodes, held, u as usize, i, j, false);
        assert(value_before(nodes, nodes[i].operands[j], i));
    }
    assert forall|u: int, k: int| 0 <= u < ins.len() && 0 <= k < ins[u].len() implies value_before(nodes, #[trigger] ins[u][k], nodes.len() as int)
        && (params.contains(ins[u][k]) || exists|w: int| 0 <= w < u && outs[w].contains(ins[u][k])) by {
        let v = ins[u][k];
        assert(ins[u].contains(v));
        assert(boundary_of(ins[u], nodes, held, u as usize, true));
        let (i, j) = choose|i: int, j: int| 0 <= i < nodes.len() && 0 <= j < nodes[i].operands.len()
            && (i < nodes.len() as int || (i == nodes.len() as int && j < 0)) && #[trigger] nodes[i].operands[j] == v
            && crossing(nodes, held, u as usize, i, j, true);
        assert(value_before(nodes, nodes[i].operands[j], i));
        lemma_held(nodes, cats, i);
        lemma_held(nodes, cats, v.node as int);
        match held[v.node as int] {
            None => {
                lemma_unheld_is_parameter(nodes, cats, v, nodes.len() as int);
            },
            Some(w) => {
                assert(held[i] == Some(u as usize));
                assert(spec_unit_nodes(nodes, cats)[u].contains(i as usize));
                assert(is_op(nodes, i) && keys[u] == key_of(nodes, cats, i));
                assert(spec_unit_nodes(nodes, cats)[w as int].contains(v.node));
                assert(is_op(nodes, v.node as int) && keys[w as int] == key_of(nodes, cats, v.node as int));
                lemma_units_run_forward(nodes, cats, i, j, w as int, u);
                assert(crossing(nodes, held, w, i, j, false));
                assert(crosses(nodes, held, w, v, false));
                assert(boundary_of(outs[w as int], nodes, held, w, false));
                assert(outs[w as int].contains(v));
            },
        }
    }
    crate::program::function::lemma_positions(nodes, NodeRole::Result);
    crate::program::function::lemma_positions(nodes, NodeRole::Parameter);
    assert forall|k: int| 0 <= k < results.len() implies params.contains(#[trigger] results[k])
        || exists|w: int| 0 <= w < outs.len() && outs[w].contains(results[k]) by {
        let pos = positions_of(nodes, NodeRole::Result)[k] as int;
        assert(nodes[pos].kind is Result);
        let v = nodes[pos].operands[0];
        assert(results[k] == v);
        assert(value_before(nodes, nodes[pos].operands[0], pos));
        lemma_held(nodes, cats, pos);
        lemma_held(nodes, cats, v.node as int);
        match held[v.node as int] {
            None => {
                lemma_unheld_is_parameter(nodes, cats, v, nodes.len() as int);
            },
            Some(w) => {
                assert(crossing(nodes, held, w, pos, 0, false));
                assert(crosses(nodes, held, w, v, false));
                assert(boundary_of(outs[w as int], nodes, held, w, false));
                assert(outs[w as int].contains(v));
            },
        }
    }
    assert forall|k: int| 0 <= k < params.len() implies held[(#[trigger] params[k]).node as int] is None by {
        let pos = positions_of(nodes, NodeRole::Parameter)[k] as int;
        assert(params[k].node == pos);
        lemma_held(nodes, cats, pos);
    }
}


/// Build one function per unit, and then the entry point that calls each of them once.
fn assemble(entry: &ProgramFunction, units: &Vec<Unit>, Ghost(cats): Ghost<Map<Seq<char>, usize>>) -> (functions: Vec<ProgramFunction>)
    requires
        units_of(units@, entry@, cats),
        calls_nothing(entry@),
    ensures
        crate::program::function_views(functions@) == contracted_functions(entry@, cats),
{
    let ghost nodes = entry@;
    let n = entry.node_count();
    let ghost keys = unit_keys(nodes, cats);
    let ghost su = spec_unit_nodes(nodes, cats);
    proof {
        assert forall|u: int, k: int| 0 <= u < units@.len() && 0 <= k < units@[u].nodes@.len() implies #[trigger] units@[u].nodes@[k] < n by {
            lemma_members_increasing(nodes, cats, keys[u], nodes.len());
        }
        assert(unit_nodes(units@) =~= su);
    }
    let held = unit_of(n, units);
    proof {
        assert(held@ =~= spec_held(nodes, cats));
        assert forall|i: int| 0 <= i < held@.len() implies (#[trigger] held@[i] matches Some(u) ==> u < units@.len()) by {
            lemma_held(nodes, cats, i);
        }
    }
    let (inputs, outputs) = boundary_values(entry, &held, units.len());
    let ghost iv = inputs@.map_values(|v: Vec<Value>| v@);
    let ghost ov = outputs@.map_values(|v: Vec<Value>| v@);
    proof {
        assert forall|u: int| 0 <= u < iv.len() implies iv[u] == (#[trigger] spec_ins(nodes, cats))[u] by {
            assert(boundary_of(inputs@[u]@, nodes, held@, u as usize, true));
            let chosen = boundary_seq(nodes, held@, u as usize, true);
            assert(boundary_of(chosen, nodes, held@, u as usize, true));
            lemma_sorted_unique(inputs@[u]@, chosen);
        }
        assert forall|u: int| 0 <= u < ov.len() implies ov[u] == (#[trigger] spec_outs(nodes, cats))[u] by {
            assert(boundary_of(outputs@[u]@, nodes, held@, u as usize, false));
            let chosen = boundary_seq(nodes, held@, u as usize, false);
            assert(boundary_of(chosen, nodes, held@, u as usize, false));
            lemma_sorted_unique(outputs@[u]@, chosen);
        }
        assert(iv =~= spec_ins(nodes, cats));
        assert(ov =~= spec_outs(nodes, cats));
    }
    let mut functions: Vec<ProgramFunction> = Vec::new();
    let mut u: usize = 0;
    while u < units.len()
        invariant
            nodes == entry@,
            function_wf(nodes),
            nodes.len() <= usize::MAX,
            keys == unit_keys(nodes, cats),
            su == spec_unit_nodes(nodes, cats),
            units@.len() == keys.len(),
            forall|w: int| 0 <= w < units@.len() ==> (#[trigger] units@[w]).nodes@ == su[w],
            held@ == spec_held(nodes, cats),
            inputs@.len() == keys.len(),
            outputs@.len() == keys.len(),
            forall|w: int| 0 <= w < keys.len() ==> (#[trigger] inputs@[w])@ == spec_ins(nodes, cats)[w],
            forall|w: int| 0 <= w < keys.len() ==> (#[trigger] outputs@[w])@ == spec_outs(nodes, cats)[w],
            forall|w: int| 0 <= w < keys.len() ==> boundary_of(#[trigger] spec_ins(nodes, cats)[w], nodes, held@, w as usize, true),
            forall|w: int| 0 <= w < keys.len() ==> boundary_of(#[trigger] spec_outs(nodes, cats)[w], nodes, held@, w as usize, false),
            u <= units@.len(),
            crate::program::function_views(functions@) == contracted_functions(nodes, cats).take(u as int),
        decreases units@.len() - u,
    {
        proof {
            lemma_unit_ready(nodes, cats, u as int, spec_ins(nodes, cats)[u as int], spec_outs(nodes, cats)[u as int]);
        }
        let f = build_unit(entry, &units[u].nodes, &inputs[u], &outputs[u]);
        let ghost fv = f@;
        let ghost before = functions@;
        functions.push(f);
        proof {
            let cf = contracted_functions(nodes, cats);
            assert(cf.len() == keys.len() + 1);
            assert(crate::program::function_views(before).len() == before.len());
            assert(before.len() == u);
            assert(cf[u as int] == unit_function(nodes, su[u as int], spec_ins(nodes, cats)[u as int], spec_outs(nodes, cats)[u as int]));
            assert(fv == cf[u as int]);
            assert forall|w: int| 0 <= w < u + 1 implies #[trigger] crate::program::function_views(functions@)[w] == cf.take(u + 1)[w] by {
                if w < u {
                    assert(functions@[w] == before[w]);
                    assert(crate::program::function_views(before)[w] == cf.take(u as int)[w]);
                } else {
                    assert(functions@[w] == functions@[u as int]);
                }
            }
            assert(crate::program::function_views(functions@) =~= contracted_functions(nodes, cats).take(u + 1));
        }
        u = u + 1;
    }
    proof {
        lemma_entry_ready(nodes, cats, iv, ov);
    }
    let last = build_entry(entry, &inputs, &outputs, Ghost(held@));
    let ghost lv = last@;
    let ghost before = functions@;
    functions.push(last);
    proof {
        let cf = contracted_functions(nodes, cats);
        assert(cf.len() == keys.len() + 1);
        assert(lv == cf[keys.len() as int]);
        assert(crate::program::function_views(before).len() == before.len());
        assert(before.len() == keys.len());
        assert forall|w: int| 0 <= w < cf.len() implies #[trigger] crate::program::function_views(functions@)[w] == cf[w] by {
            if w < keys.len() {
                assert(functions@[w] == before[w]);
                assert(crate::program::function_views(before)[w] == cf.take(keys.len() as int)[w]);
            } else {
                assert(functions@[w] == functions@[keys.len() as int]);
            }
        }
        assert(crate::program::function_views(functions@) =~= contracted_functions(nodes, cats));
    }
    functions
}


/// The first call among the first `n` nodes, if any.
pub open spec fn first_call(nodes: Seq<NodeSpec>, n: nat) -> Option<usize>
    decreases n,
{
    if n == 0 {
        None
    } else {
        match first_call(nodes, (n - 1) as nat) {
            Some(i) => Some(i),
            None => if nodes[n - 1].kind is Call {
                Some((n - 1) as usize)
            } else {
                None
            },
        }
    }
}

/// Once found, the first call stays the first call.
proof fn lemma_first_call_stable(nodes: Seq<NodeSpec>, k: nat, m: nat)
    requires
        k <= m,
        first_call(nodes, k) is Some,
    ensures
        first_call(nodes, m) == first_call(nodes, k),
    decreases m,
{
    if m > k {
        lemma_first_call_stable(nodes, k, (m - 1) as nat);
    }
}

/// Without a first call there is no call.
proof fn lemma_no_first_call(nodes: Seq<NodeSpec>, n: nat)
    requires
        n <= nodes.len(),
        first_call(nodes, n) is None,
    ensures
        forall|i: int| 0 <= i < n ==> !((#[trigger] nodes[i].kind) is Call),
    decreases n,
{
    if n > 0 {
        lemma_no_first_call(nodes, (n - 1) as nat);
    }
}

/// Counting the nodes of a role over two runs of nodes adds up.
proof fn lemma_count_concat(a: Seq<NodeSpec>, b: Seq<NodeSpec>, role: NodeRole)
    ensures
        positions_of(a + b, role).len() == positions_of(a, role).len() + positions_of(b, role).len(),
    decreases b.len(),
{
    if b.len() > 0 {
        lemma_count_concat(a, b.drop_last(), role);
        assert((a + b).drop_last() == a + b.drop_last());
        assert((a + b).last() == b.last());
    } else {
        assert(a + b == a);
    }
}

/// A run of nodes of one role counts its length for that role, and nothing for any other.
proof fn lemma_count_uniform(s: Seq<NodeSpec>, of: NodeRole, role: NodeRole)
    requires
        forall|i: int| 0 <= i < s.len() ==> role_of((#[trigger] s[i]).kind) == of,
    ensures
        positions_of(s, role).len() == if of == role { s.len() } else { 0 },
    decreases s.len(),
{
    if s.len() > 0 {
        let d = s.drop_last();
        assert forall|i: int| 0 <= i < d.len() implies role_of((#[trigger] d[i]).kind) == of by {
            assert(d[i] == s[i]);
        }
        lemma_count_uniform(d, of, role);
    }
}

/// The contracted program is consistent, and declares what the input program declared.
proof fn lemma_contracted_wf(p: ProgramSpec, cats: Map<Seq<char>, usize>)
    requires
        program_wf(p),
        function_wf(p.functions.last()),
        calls_nothing(p.functions.last()),
        p.functions.last().len() <= usize::MAX,
    ensures
        program_wf(ProgramSpec { functions: contracted_functions(p.functions.last(), cats), inputs: p.inputs, outputs: p.outputs }),
{
    let nodes = p.functions.last();
    let cf = contracted_functions(nodes, cats);
    let keys = unit_keys(nodes, cats);
    let held = spec_held(nodes, cats);
    let ins = spec_ins(nodes, cats);
    let outs = spec_outs(nodes, cats);
    let params = parameter_values_of(nodes);
    let results = result_values_of(nodes);
    let entry = entry_function(nodes, held, ins, outs);
    assert(cf.last() == entry);
    let pa = Seq::new(params.len(), |k: int| param_node(type_of_value(nodes, params[k])));
    let ca = Seq::new(ins.len(), |u: int| call_node(nodes, params, held, ins, outs, u));
    let ra = Seq::new(results.len(), |k: int| result_node(lifted(params, held, outs, results[k])));
    assert(entry == pa + ca + ra);
    lemma_count_uniform(pa, NodeRole::Parameter, NodeRole::Parameter);
    lemma_count_uniform(ca, NodeRole::Call, NodeRole::Parameter);
    lemma_count_uniform(ra, NodeRole::Result, NodeRole::Parameter);
    lemma_count_uniform(pa, NodeRole::Parameter, NodeRole::Result);
    lemma_count_uniform(ca, NodeRole::Call, NodeRole::Result);
    lemma_count_uniform(ra, NodeRole::Result, NodeRole::Result);
    lemma_count_concat(pa, ca, NodeRole::Parameter);
    lemma_count_concat(pa + ca, ra, NodeRole::Parameter);
    lemma_count_concat(pa, ca, NodeRole::Result);
    lemma_count_concat(pa + ca, ra, NodeRole::Result);
    assert(params.len() == positions_of(nodes, NodeRole::Parameter).len());
    assert(results.len() == positions_of(nodes, NodeRole::Result).len());
    assert forall|f: int, i: int| 0 <= f < cf.len() && 0 <= i < cf[f].len()
        implies (#[trigger] cf[f][i].kind matches NodeKind::Call(callee) ==> callee < cf.len()) by {
        if f < keys.len() {
            let su = spec_unit_nodes(nodes, cats);
            lemma_unit_function_index(nodes, su[f], ins[f], outs[f]);
            let uf = unit_function(nodes, su[f], ins[f], outs[f]);
            assert(cf[f] == uf);
            if ins[f].len() <= i < ins[f].len() + su[f].len() {
                let q = i - ins[f].len();
                lemma_members_contains(nodes, cats, keys[f], nodes.len(), su[f][q] as int);
                assert(su[f] == members(nodes, cats, keys[f], nodes.len()));
                assert(su[f].contains(su[f][q]));
                assert(uf[ins[f].len() + q] == rebuilt(nodes, ins[f], su[f], su[f][q]));
            }
        } else {
            assert(cf[f] == entry);
            if params.len() <= i < params.len() + ins.len() {
                assert(entry[i] == ca[i - params.len()]);
            } else if i < params.len() {
                assert(entry[i] == pa[i]);
            } else {
                assert(entry[i] == ra[i - params.len() - ins.len()]);
            }
        }
    }
}

// ---------------------------------------------------------------------------
// Laws of the contraction
// ---------------------------------------------------------------------------

/// The declarations list the resources in order: a later declaration never names an earlier
/// resource.
proof fn lemma_declarations_ordered(resources: Seq<Seq<Seq<char>>>, j: int, k: int)
    requires
        0 <= j <= k < declarations(resources).len(),
        resources.len() <= usize::MAX,
    ensures
        declarations(resources)[j].1 <= declarations(resources)[k].1,
        declarations(resources)[k].1 < resources.len(),
    decreases resources.len(),
{
    let front = declarations(resources.drop_last());
    let tail = resources.last().map_values(|n: Seq<char>| (n, (resources.len() - 1) as usize));
    assert(declarations(resources) == front + tail);
    if k < front.len() {
        lemma_declarations_ordered(resources.drop_last(), j, k);
        assert(declarations(resources)[j] == front[j]);
        assert(declarations(resources)[k] == front[k]);
    } else {
        assert(declarations(resources)[k] == tail[k - front.len()]);
        assert(tail[k - front.len()].1 == resources.len() - 1);
        if j < front.len() {
            lemma_declarations_ordered(resources.drop_last(), j, j);
            assert(declarations(resources)[j] == front[j]);
        } else {
            assert(declarations(resources)[j] == tail[j - front.len()]);
        }
    }
}

/// Each resource a name is indexed under is that of an earlier declaration of the name.
proof fn lemma_index_from_declarations(decls: Seq<(Seq<char>, usize)>)
    ensures
        index_declarations(decls) matches Indexed::Declared(m) ==> forall|name: Seq<char>| #[trigger] m.contains_key(name)
            ==> exists|j: int| 0 <= j < decls.len() && decls[j] == (name, m[name]),
        index_declarations(decls) matches Indexed::Repeated { name, first, second } ==> exists|j: int, k: int|
            0 <= j < k < decls.len() && decls[j].1 == first && decls[k].1 == second,
    decreases decls.len(),
{
    if decls.len() > 0 {
        let front = decls.drop_last();
        lemma_index_from_declarations(front);
        let d = decls.last();
        match index_declarations(front) {
            Indexed::Declared(m) => {
                if m.contains_key(d.0) && m[d.0] != d.1 {
                    let j = choose|j: int| 0 <= j < front.len() && front[j] == (d.0, m[d.0]);
                    assert(decls[j] == front[j]);
                    assert(decls[decls.len() - 1] == d);
                } else {
                    let m2 = m.insert(d.0, d.1);
                    assert forall|name: Seq<char>| #[trigger] m2.contains_key(name)
                        implies exists|j: int| 0 <= j < decls.len() && decls[j] == (name, m2[name]) by {
                        if name == d.0 {
                            assert(decls[decls.len() - 1] == (name, m2[name]));
                        } else {
                            let j = choose|j: int| 0 <= j < front.len() && front[j] == (name, m[name]);
                            assert(decls[j] == front[j]);
                        }
                    }
                }
            },
            Indexed::Repeated { name, first, second } => {
                let (j, k) = choose|j: int, k: int| 0 <= j < k < front.len() && front[j].1 == first && front[k].1 == second;
                assert(decls[j] == front[j]);
                assert(decls[k] == front[k]);
            },
        }
    }
}

/// In the refusal of a name declared by two resources, the resource that declared it first
/// comes before the other: `first < second`.
pub proof fn lemma_repeated_first_before_second(resources: Seq<Vec<String>>)
    requires
        resources.len() <= usize::MAX,
    ensures
        index_declarations(declarations(resource_names(resources))) matches Indexed::Repeated { name, first, second }
            ==> first < second,
{
    let decls = declarations(resource_names(resources));
    lemma_index_from_declarations(decls);
    if let Indexed::Repeated { name, first, second } = index_declarations(decls) {
        let d = decls.drop_last();
        lemma_index_repeated_at_last(decls);
        let (j, k) = choose|j: int, k: int| 0 <= j < k < decls.len() && decls[j].1 == first && decls[k].1 == second;
        lemma_declarations_ordered(resource_names(resources), j, k);
    }
}

/// The refusal names two different resources.
proof fn lemma_index_repeated_at_last(decls: Seq<(Seq<char>, usize)>)
    ensures
        index_declarations(decls) matches Indexed::Repeated { name, first, second } ==> first != second,
    decreases decls.len(),
{
    if decls.len() > 0 {
        lemma_index_repeated_at_last(decls.drop_last());
    }
}

/// The table `contract` returns has one entry per function of the contracted program: each unit's
/// resource, then `None` for the entry point, which is the last function. The entry point holds
/// no node applying a node type: its parameters, a call of each unit function in order, and its
/// results.
pub proof fn lemma_contract_table(nodes: Seq<NodeSpec>, cats: Map<Seq<char>, usize>)
    ensures
        ({
            let functions = contracted_functions(nodes, cats);
            let units = unit_keys(nodes, cats);
            let table = units.map_values(|k: (nat, Option<usize>)| k.1).push(None);
            let entry = functions.last();
            let params = parameter_values_of(nodes);
            &&& table.len() == functions.len()
            &&& table.last() == None::<usize>
            &&& forall|u: int| 0 <= u < units.len() ==> #[trigger] table[u] == units[u].1
            &&& entry.len() == params.len() + units.len() + result_values_of(nodes).len()
            &&& forall|q: int| 0 <= q < params.len() ==> (#[trigger] entry[q]).kind == NodeKind::Parameter
            &&& forall|u: int| 0 <= u < units.len() ==> (#[trigger] entry[params.len() + u]).kind == NodeKind::Call(u as usize)
            &&& forall|q: int| params.len() + units.len() <= q < entry.len() ==> (#[trigger] entry[q]).kind == NodeKind::Result
            &&& forall|q: int| 0 <= q < entry.len() ==> !((#[trigger] entry[q]).kind is Op)
        }),
{
    let held = spec_held(nodes, cats);
    let ins = spec_ins(nodes, cats);
    let outs = spec_outs(nodes, cats);
    let functions = contracted_functions(nodes, cats);
    let units = unit_keys(nodes, cats);
    let params = parameter_values_of(nodes);
    let results = result_values_of(nodes);
    lemma_entry_function_index(nodes, held, ins, outs);
    let entry = entry_function(nodes, held, ins, outs);
    assert(functions.last() == entry);
    assert forall|q: int| 0 <= q < entry.len() implies !((#[trigger] entry[q]).kind is Op) by {
        if q < params.len() {
        } else if q < params.len() + units.len() {
            assert(entry[params.len() + (q - params.len())] == entry[q]);
        } else {
            assert(entry[params.len() + ins.len() + (q - params.len() - units.len())] == entry[q]);
        }
    }
    assert forall|q: int| params.len() + units.len() <= q < entry.len() implies (#[trigger] entry[q]).kind == NodeKind::Result by {
        assert(entry[params.len() + ins.len() + (q - params.len() - units.len())] == entry[q]);
    }
}

/// Whether a node of kind `kind` applies a node type of `resource`: one that resource declares,
/// or, for `None`, one that no resource declares.
pub open spec fn op_of_resource(kind: NodeKind, resource: Option<usize>, cats: Map<Seq<char>, usize>) -> bool {
    match kind {
        NodeKind::Op { full_name, .. } => match resource {
            Some(r) => cats.contains_key(full_name) && cats[full_name] == r,
            None => !cats.contains_key(full_name),
        },
        _ => false,
    }
}

/// Every unit function holds at least one node applying a node type, and every such node applies
/// a node type of the unit's resource.
pub proof fn lemma_unit_functions_hold_their_resource(nodes: Seq<NodeSpec>, cats: Map<Seq<char>, usize>, u: int)
    requires
        nodes.len() <= usize::MAX,
        0 <= u < unit_keys(nodes, cats).len(),
    ensures
        ({
            let f = contracted_functions(nodes, cats)[u];
            let resource = unit_keys(nodes, cats)[u].1;
            &&& exists|q: int| 0 <= q < f.len() && (#[trigger] f[q]).kind is Op
            &&& forall|q: int| 0 <= q < f.len() && (#[trigger] f[q]).kind is Op ==> op_of_resource(f[q].kind, resource, cats)
        }),
{
    let n = nodes.len();
    let units = unit_keys(nodes, cats);
    let key = units[u];
    let m = members(nodes, cats, key, n);
    let ins = spec_ins(nodes, cats)[u];
    let outs = spec_outs(nodes, cats)[u];
    let f = contracted_functions(nodes, cats)[u];
    assert(spec_unit_nodes(nodes, cats)[u] == m);
    assert(f == unit_function(nodes, m, ins, outs));
    lemma_unit_function_index(nodes, m, ins, outs);
    // The unit has a member.
    let keys = keys_upto(nodes, cats, n);
    lemma_by_layer(keys, n);
    lemma_keys_are_keys(nodes, cats, n);
    assert(units.contains(key));
    assert(keys.contains(key));
    let g = choose|g: int| 0 <= g < keys.len() && keys[g] == key;
    let j = choose|j: int| 0 <= j < n && is_op(nodes, j) && #[trigger] keys[g] == key_of(nodes, cats, j);
    lemma_members_contains(nodes, cats, key, n, j);
    assert(m.contains(j as usize));
    let p = choose|p: int| 0 <= p < m.len() && m[p] == j as usize;
    assert(f[ins.len() + p] == rebuilt(nodes, ins, m, m[p]));
    assert(f[ins.len() + p].kind is Op);
    // Each node applying a node type is a member, of the unit's category.
    assert forall|q: int| 0 <= q < f.len() && (#[trigger] f[q]).kind is Op implies op_of_resource(f[q].kind, key.1, cats) by {
        if q < ins.len() {
            assert(f[q] == param_node(type_of_value(nodes, ins[q])));
        } else if q < ins.len() + m.len() {
            let p2 = q - ins.len();
            assert(f[ins.len() + p2] == rebuilt(nodes, ins, m, m[p2]));
            lemma_members_contains(nodes, cats, key, n, m[p2] as int);
            assert(m.contains(m[p2]));
            lemma_unit_has_one_category(nodes, cats, u, m[p2] as int);
        } else {
            let p3 = q - ins.len() - m.len();
            assert(f[ins.len() + m.len() + p3] == result_node(moved(ins, m, outs[p3])));
        }
    }
}


/// Rewrite `program` so that its computing nodes are grouped into functions of one category
/// each, and report the execution resource each function belongs to.
///
/// `resources` declares, per execution resource, the node type names that resource handles, as
/// full names. Node types no resource declares share one fallback category. Boundary nodes are
/// matched by role, not by name: a parameter stays in the entry point that declares it. One input
/// may fan out to several units.
///
/// The rewritten program holds one function per unit, ordered so that no unit depends on a later
/// one, and then an entry point that declares the same inputs and outputs as `program`'s and holds
/// one call per unit. Every other function `program` holds is dropped.
///
/// The table gives each function's resource, by position, and is `None` for a fallback unit and
/// for the entry point.
///
/// Fails if two resources declare the same node type, or if the entry point already calls a
/// function.
pub fn contract(program: &QuantumProgram, resources: &[Vec<String>])
    -> (res: Result<(QuantumProgram, Vec<Option<usize>>), ContractionError>)
    ensures
        match index_declarations(declarations(resource_names(resources@))) {
            Indexed::Repeated { name, first, second } => res matches Err(ContractionError::RepeatedNodeType {
                name: n, first: f, second: s }) && n@ == name && f == first && s == second,
            Indexed::Declared(cats) => match first_call(program@.functions.last(), program@.functions.last().len()) {
                Some(node) => res == Err::<(QuantumProgram, Vec<Option<usize>>), ContractionError>(ContractionError::EntryPointCall { node }),
                None => res matches Ok((p, table)) && p@.functions == contracted_functions(program@.functions.last(), cats)
                    && p@.inputs == program@.inputs && p@.outputs == program@.outputs
                    && table@ == unit_keys(program@.functions.last(), cats).map_values(|k: (nat, Option<usize>)| k.1).push(None),
            },
        },
{
    let declared = match categories(resources) {
        Ok(index) => index,
        Err(e) => return Err(e),
    };
    let ghost cats = name_index_contents(declared);
    let entry = program.entry_function();
    let ghost nodes = entry@;
    let n = entry.node_count();
    let mut i: usize = 0;
    while i < n
        invariant
            nodes == entry@,
            nodes == program@.functions.last(),
            cats == name_index_contents(declared),
            index_declarations(declarations(resource_names(resources@))) == Indexed::Declared(cats),
            n == nodes.len(),
            i <= n,
            first_call(nodes, i as nat) is None,
        decreases n - i,
    {
        if entry.node(i).role() == NodeRole::Call {
            proof {
                assert(first_call(nodes, (i + 1) as nat) == Some(i));
                lemma_first_call_stable(nodes, (i + 1) as nat, n as nat);
            }
            return Err(ContractionError::EntryPointCall { node: i });
        }
        i = i + 1;
    }
    let count = resources.len();
    proof {
        lemma_no_first_call(nodes, n as nat);
        let decls = declarations(resource_names(resources@));
        assert(resource_names(resources@).len() == count);
        lemma_declarations_bound(resource_names(resources@));
        assert(index_declarations(decls) == Indexed::Declared(cats));
        lemma_index_bound(decls, count, cats);
        assert forall|name: Seq<char>| #[trigger] cats.contains_key(name) implies cats[name] < usize::MAX by {
            assert(cats[name] < count);
        }
    }
    let units = partition(entry, &declared);
    let mut table: Vec<Option<usize>> = Vec::new();
    let mut u: usize = 0;
    while u < units.len()
        invariant
            units_of(units@, nodes, cats),
            u <= units@.len(),
            table@ == unit_keys(nodes, cats).take(u as int).map_values(|k: (nat, Option<usize>)| k.1),
        decreases units@.len() - u,
    {
        table.push(units[u].category);
        proof {
            assert(unit_keys(nodes, cats).take(u + 1) == unit_keys(nodes, cats).take(u as int).push(unit_keys(nodes, cats)[u as int]));
            assert(table@ =~= unit_keys(nodes, cats).take(u + 1).map_values(|k: (nat, Option<usize>)| k.1));
        }
        u = u + 1;
    }
    proof {
        assert(unit_keys(nodes, cats).take(units@.len() as int) == unit_keys(nodes, cats));
    }
    table.push(None);
    let functions = assemble(entry, &units, Ghost(cats));
    let inputs = program.input_structure().copy_tree();
    let outputs = program.output_structure().copy_tree();
    proof {
        lemma_contracted_wf(program@, cats);
    }
    match QuantumProgram::new(functions, inputs, outputs) {
        Ok(contracted) => Ok((contracted, table)),
        Err(_) => vstd::pervasive::unreached(),
    }
}

// ---------------------------------------------------------------------------
// The values crossing a unit's boundary, listed in order
// ---------------------------------------------------------------------------

/// The values among the first `s` outputs of node `i` that cross the boundary of unit `u`.
spec fn slot_values(nodes: Seq<NodeSpec>, held: Seq<Option<usize>>, u: usize, into: bool, i: int, s: nat) -> Seq<Value>
    decreases s,
{
    if s == 0 {
        Seq::empty()
    } else {
        let rest = slot_values(nodes, held, u, into, i, (s - 1) as nat);
        let v = Value { node: i as usize, slot: (s - 1) as usize };
        if s - 1 <= usize::MAX && crosses(nodes, held, u, v, into) { rest.push(v) } else { rest }
    }
}

/// The values of the first `n` nodes that cross the boundary of unit `u`, node by node and
/// output by output.
spec fn node_values(nodes: Seq<NodeSpec>, held: Seq<Option<usize>>, u: usize, into: bool, n: nat) -> Seq<Value>
    decreases n,
{
    if n == 0 {
        Seq::empty()
    } else {
        node_values(nodes, held, u, into, (n - 1) as nat)
            + slot_values(nodes, held, u, into, n - 1, nodes[n - 1].outputs.len())
    }
}

/// The crossing values among the first `s` outputs of node `i`, in order.
proof fn lemma_slot_values(nodes: Seq<NodeSpec>, held: Seq<Option<usize>>, u: usize, into: bool, i: int, s: nat)
    requires
        0 <= i <= usize::MAX,
    ensures
        strictly_sorted(slot_values(nodes, held, u, into, i, s)),
        forall|x: Value| #[trigger] slot_values(nodes, held, u, into, i, s).contains(x)
            <==> x.node == i && x.slot < s && crosses(nodes, held, u, x, into),
    decreases s,
{
    if s > 0 {
        lemma_slot_values(nodes, held, u, into, i, (s - 1) as nat);
        let rest = slot_values(nodes, held, u, into, i, (s - 1) as nat);
        let v = Value { node: i as usize, slot: (s - 1) as usize };
        if s - 1 <= usize::MAX && crosses(nodes, held, u, v, into) {
            let all = rest.push(v);
            assert forall|a: int, b: int| 0 <= a < b < all.len() implies value_lt(#[trigger] all[a], #[trigger] all[b]) by {
                if b < rest.len() {
                    assert(all[a] == rest[a] && all[b] == rest[b]);
                } else {
                    assert(rest.contains(rest[a]));
                    assert(all[a] == rest[a]);
                }
            }
            assert forall|x: Value| #[trigger] all.contains(x) <==> x.node == i && x.slot < s && crosses(nodes, held, u, x, into) by {
                if x.node == i && x.slot < s && crosses(nodes, held, u, x, into) && x.slot == s - 1 {
                    assert(x == v);
                    assert(all[rest.len() as int] == v);
                }
                if rest.contains(x) {
                    let k = choose|k: int| 0 <= k < rest.len() && rest[k] == x;
                    assert(all[k] == x);
                }
                if all.contains(x) {
                    let k = choose|k: int| 0 <= k < all.len() && all[k] == x;
                    if k < rest.len() {
                        assert(rest[k] == x);
                    }
                }
            }
        } else {
            assert forall|x: Value| #[trigger] rest.contains(x) <==> x.node == i && x.slot < s && crosses(nodes, held, u, x, into) by {
                if x.node == i && x.slot < s && crosses(nodes, held, u, x, into) && x.slot == s - 1 {
                    assert(x == v);
                }
            }
        }
    }
}

/// The crossing values of the first `n` nodes, in order.
proof fn lemma_node_values(nodes: Seq<NodeSpec>, held: Seq<Option<usize>>, u: usize, into: bool, n: nat)
    requires
        n <= nodes.len(),
        nodes.len() <= usize::MAX,
    ensures
        strictly_sorted(node_values(nodes, held, u, into, n)),
        forall|x: Value| #[trigger] node_values(nodes, held, u, into, n).contains(x)
            <==> x.node < n && x.slot < nodes[x.node as int].outputs.len() && crosses(nodes, held, u, x, into),
    decreases n,
{
    if n > 0 {
        lemma_node_values(nodes, held, u, into, (n - 1) as nat);
        let front = node_values(nodes, held, u, into, (n - 1) as nat);
        let back = slot_values(nodes, held, u, into, n - 1, nodes[n - 1].outputs.len());
        lemma_slot_values(nodes, held, u, into, n - 1, nodes[n - 1].outputs.len());
        let all = front + back;
        assert forall|a: int, b: int| 0 <= a < b < all.len() implies value_lt(#[trigger] all[a], #[trigger] all[b]) by {
            if b < front.len() {
                assert(all[a] == front[a] && all[b] == front[b]);
            } else if a >= front.len() {
                assert(all[a] == back[a - front.len()] && all[b] == back[b - front.len()]);
            } else {
                assert(front.contains(front[a]));
                assert(back.contains(back[b - front.len()]));
                assert(all[a] == front[a] && all[b] == back[b - front.len()]);
            }
        }
        assert forall|x: Value| #[trigger] all.contains(x)
            <==> x.node < n && x.slot < nodes[x.node as int].outputs.len() && crosses(nodes, held, u, x, into) by {
            if all.contains(x) {
                let k = choose|k: int| 0 <= k < all.len() && all[k] == x;
                if k < front.len() {
                    assert(front[k] == x);
                    assert(front.contains(x));
                } else {
                    assert(back[k - front.len()] == x);
                    assert(back.contains(x));
                    assert(x.node == n - 1);
                }
                assert(x.node < n && x.slot < nodes[x.node as int].outputs.len() && crosses(nodes, held, u, x, into));
            }
            if x.node < n && x.slot < nodes[x.node as int].outputs.len() && crosses(nodes, held, u, x, into) {
                if x.node < n - 1 {
                    assert(front.contains(x));
                    let k = choose|k: int| 0 <= k < front.len() && front[k] == x;
                    assert(all[k] == x);
                } else {
                    assert(back.contains(x));
                    let k = choose|k: int| 0 <= k < back.len() && back[k] == x;
                    assert(all[front.len() + k] == x);
                }
            }
        }
    }
}

/// A value crossing a unit's boundary is one of the function's values.
proof fn lemma_crossing_is_value(nodes: Seq<NodeSpec>, held: Seq<Option<usize>>, u: usize, v: Value, into: bool)
    requires
        function_wf(nodes),
        crosses(nodes, held, u, v, into),
    ensures
        value_before(nodes, v, nodes.len() as int),
{
    let (i, k) = choose|i: int, k: int| 0 <= i < nodes.len() && 0 <= k < nodes[i].operands.len()
        && (i < nodes.len() || (i == nodes.len() && k < 0)) && #[trigger] nodes[i].operands[k] == v
        && crossing(nodes, held, u, i, k, into);
    assert(value_before(nodes, nodes[i].operands[k], i));
}

/// The values a unit reads from outside, and those it produces for outside, are listed in order
/// by `spec_ins` and `spec_outs`.
proof fn lemma_spec_boundaries(nodes: Seq<NodeSpec>, cats: Map<Seq<char>, usize>, u: int)
    requires
        function_wf(nodes),
        nodes.len() <= usize::MAX,
        0 <= u < unit_keys(nodes, cats).len(),
    ensures
        boundary_of(spec_ins(nodes, cats)[u], nodes, spec_held(nodes, cats), u as usize, true),
        boundary_of(spec_outs(nodes, cats)[u], nodes, spec_held(nodes, cats), u as usize, false),
{
    let held = spec_held(nodes, cats);
    let n = nodes.len();
    lemma_unit_count(nodes, cats);
    assert(u <= usize::MAX);
    lemma_node_values(nodes, held, u as usize, true, n);
    lemma_node_values(nodes, held, u as usize, false, n);
    let a = node_values(nodes, held, u as usize, true, n);
    let b = node_values(nodes, held, u as usize, false, n);
    assert forall|v: Value| a.contains(v) <==> crosses(nodes, held, u as usize, v, true) by {
        if crosses(nodes, held, u as usize, v, true) {
            lemma_crossing_is_value(nodes, held, u as usize, v, true);
        }
    }
    assert forall|v: Value| b.contains(v) <==> crosses(nodes, held, u as usize, v, false) by {
        if crosses(nodes, held, u as usize, v, false) {
            lemma_crossing_is_value(nodes, held, u as usize, v, false);
        }
    }
    assert(boundary_of(a, nodes, held, u as usize, true));
    assert(boundary_of(b, nodes, held, u as usize, false));
}

// ---------------------------------------------------------------------------
// Where the parameters and results of a function sit
// ---------------------------------------------------------------------------

/// The nodes of one role in a concatenation: those of the front, then those of the back, shifted.
proof fn lemma_positions_concat(a: Seq<NodeSpec>, b: Seq<NodeSpec>, role: NodeRole)
    requires
        a.len() + b.len() <= usize::MAX,
    ensures
        positions_of(a + b, role) == positions_of(a, role) + positions_of(b, role).map_values(|i: usize| (i + a.len()) as usize),
    decreases b.len(),
{
    if b.len() == 0 {
        assert(a + b =~= a);
        assert(positions_of(b, role).map_values(|i: usize| (i + a.len()) as usize) =~= Seq::<usize>::empty());
        assert(positions_of(a, role) + Seq::<usize>::empty() =~= positions_of(a, role));
    } else {
        let d = b.drop_last();
        lemma_positions_concat(a, d, role);
        assert((a + b).drop_last() =~= a + d);
        assert((a + b).last() == b.last());
        let shift = |i: usize| (i + a.len()) as usize;
        if role_of(b.last().kind) == role {
            assert(positions_of(b, role) == positions_of(d, role).push((b.len() - 1) as usize));
            assert(positions_of(b, role).map_values(shift) =~= positions_of(d, role).map_values(shift).push(((b.len() - 1) + a.len()) as usize));
            assert(positions_of(a + b, role) =~= positions_of(a, role) + positions_of(b, role).map_values(shift));
        } else {
            assert(positions_of(b, role) == positions_of(d, role));
        }
    }
}

/// In nodes all of one role, the nodes of that role are all of them, and of another role none.
proof fn lemma_positions_uniform(s: Seq<NodeSpec>, of: NodeRole, role: NodeRole)
    requires
        s.len() <= usize::MAX,
        forall|i: int| 0 <= i < s.len() ==> role_of((#[trigger] s[i]).kind) == of,
    ensures
        positions_of(s, role) == if of == role { Seq::new(s.len(), |k: int| k as usize) } else { Seq::<usize>::empty() },
    decreases s.len(),
{
    if s.len() > 0 {
        let d = s.drop_last();
        assert forall|i: int| 0 <= i < d.len() implies role_of((#[trigger] d[i]).kind) == of by {
            assert(d[i] == s[i]);
        }
        lemma_positions_uniform(d, of, role);
        assert(role_of(s.last().kind) == of) by {
            assert(s.last() == s[s.len() - 1]);
        }
        if of == role {
            assert(positions_of(s, role) =~= Seq::new(s.len(), |k: int| k as usize));
        }
    }
}

/// The parameters of a unit function are its first nodes, one per value it reads; its results
/// return the values it produces, where they landed.
proof fn lemma_unit_function_ends(nodes: Seq<NodeSpec>, members: Seq<usize>, ins: Seq<Value>, outs: Seq<Value>)
    requires
        forall|a: int| 0 <= a < members.len() ==> #[trigger] members[a] < nodes.len() && is_op(nodes, members[a] as int),
        unit_function(nodes, members, ins, outs).len() <= usize::MAX,
    ensures
        parameter_values_of(unit_function(nodes, members, ins, outs))
            == Seq::new(ins.len(), |k: int| Value { node: k as usize, slot: 0 }),
        result_values_of(unit_function(nodes, members, ins, outs))
            == Seq::new(outs.len(), |k: int| moved(ins, members, outs[k])),
{
    let pa = Seq::new(ins.len(), |k: int| param_node(type_of_value(nodes, ins[k])));
    let ma = Seq::new(members.len(), |j: int| rebuilt(nodes, ins, members, members[j]));
    let ra = Seq::new(outs.len(), |k: int| result_node(moved(ins, members, outs[k])));
    let uf = unit_function(nodes, members, ins, outs);
    assert(uf == pa + ma + ra);
    assert forall|i: int| 0 <= i < ma.len() implies role_of((#[trigger] ma[i]).kind) == NodeRole::Op by {
        assert(ma[i].kind == nodes[members[i] as int].kind);
    }
    lemma_positions_uniform(pa, NodeRole::Parameter, NodeRole::Parameter);
    lemma_positions_uniform(pa, NodeRole::Parameter, NodeRole::Result);
    lemma_positions_uniform(ma, NodeRole::Op, NodeRole::Parameter);
    lemma_positions_uniform(ma, NodeRole::Op, NodeRole::Result);
    lemma_positions_uniform(ra, NodeRole::Result, NodeRole::Parameter);
    lemma_positions_uniform(ra, NodeRole::Result, NodeRole::Result);
    lemma_positions_concat(pa, ma, NodeRole::Parameter);
    lemma_positions_concat(pa + ma, ra, NodeRole::Parameter);
    lemma_positions_concat(pa, ma, NodeRole::Result);
    lemma_positions_concat(pa + ma, ra, NodeRole::Result);
    assert(positions_of(uf, NodeRole::Parameter) =~= Seq::new(pa.len(), |k: int| k as usize));
    assert(parameter_values_of(uf) =~= Seq::new(ins.len(), |k: int| Value { node: k as usize, slot: 0 }));
    let base = (pa + ma).len();
    assert(positions_of(uf, NodeRole::Result) =~= Seq::new(ra.len(), |k: int| (k + base) as usize));
    assert forall|k: int| 0 <= k < outs.len() implies #[trigger] result_values_of(uf)[k] == moved(ins, members, outs[k]) by {
        assert(uf[k + base] == ra[k]);
    }
    assert(result_values_of(uf) =~= Seq::new(outs.len(), |k: int| moved(ins, members, outs[k])));
}

/// The parameters of the rewritten entry point are its first nodes, as in the entry point; its
/// results return the entry point's results, where they landed.
proof fn lemma_entry_function_ends(nodes: Seq<NodeSpec>, held: Seq<Option<usize>>, ins: Seq<Seq<Value>>, outs: Seq<Seq<Value>>)
    requires
        entry_function(nodes, held, ins, outs).len() <= usize::MAX,
    ensures
        parameter_values_of(entry_function(nodes, held, ins, outs))
            == Seq::new(parameter_values_of(nodes).len(), |k: int| Value { node: k as usize, slot: 0 }),
        result_values_of(entry_function(nodes, held, ins, outs)) == Seq::new(result_values_of(nodes).len(),
            |k: int| lifted(parameter_values_of(nodes), held, outs, result_values_of(nodes)[k])),
{
    let params = parameter_values_of(nodes);
    let results = result_values_of(nodes);
    let pa = Seq::new(params.len(), |k: int| param_node(type_of_value(nodes, params[k])));
    let ca = Seq::new(ins.len(), |u: int| call_node(nodes, params, held, ins, outs, u));
    let ra = Seq::new(results.len(), |k: int| result_node(lifted(params, held, outs, results[k])));
    let ef = entry_function(nodes, held, ins, outs);
    assert(ef == pa + ca + ra);
    lemma_positions_uniform(pa, NodeRole::Parameter, NodeRole::Parameter);
    lemma_positions_uniform(pa, NodeRole::Parameter, NodeRole::Result);
    lemma_positions_uniform(ca, NodeRole::Call, NodeRole::Parameter);
    lemma_positions_uniform(ca, NodeRole::Call, NodeRole::Result);
    lemma_positions_uniform(ra, NodeRole::Result, NodeRole::Parameter);
    lemma_positions_uniform(ra, NodeRole::Result, NodeRole::Result);
    lemma_positions_concat(pa, ca, NodeRole::Parameter);
    lemma_positions_concat(pa + ca, ra, NodeRole::Parameter);
    lemma_positions_concat(pa, ca, NodeRole::Result);
    lemma_positions_concat(pa + ca, ra, NodeRole::Result);
    assert(positions_of(ef, NodeRole::Parameter) =~= Seq::new(pa.len(), |k: int| k as usize));
    assert(parameter_values_of(ef) =~= Seq::new(params.len(), |k: int| Value { node: k as usize, slot: 0 }));
    let base = (pa + ca).len();
    assert(positions_of(ef, NodeRole::Result) =~= Seq::new(ra.len(), |k: int| (k + base) as usize));
    assert forall|k: int| 0 <= k < results.len() implies #[trigger] result_values_of(ef)[k] == lifted(params, held, outs, results[k]) by {
        assert(ef[k + base] == ra[k]);
    }
    assert(result_values_of(ef) =~= Seq::new(results.len(), |k: int| lifted(params, held, outs, results[k])));
}

// ---------------------------------------------------------------------------
// The contracted program computes what the program computes
// ---------------------------------------------------------------------------

/// The values of a node's operands.
pub open spec fn operand_values<V>(node: NodeSpec, val: spec_fn(Value) -> V) -> Seq<V> {
    node.operands.map_values(|v: Value| val(v))
}

/// The values node `i` produces.
pub open spec fn produced_values<V>(nodes: Seq<NodeSpec>, i: int, val: spec_fn(Value) -> V) -> Seq<V> {
    Seq::new(nodes[i].outputs.len(), |s: int| val(Value { node: i as usize, slot: s as usize }))
}

/// The values a function returns.
pub open spec fn function_results<V>(nodes: Seq<NodeSpec>, val: spec_fn(Value) -> V) -> Seq<V> {
    result_values_of(nodes).map_values(|v: Value| val(v))
}

/// Whether the values `val` make a run of the function `nodes` on the arguments `args`: each
/// parameter holds its argument, and each node that applies a node type or calls a function
/// turns its operands' values into the values it produces as `acts` allows.
pub open spec fn is_function_run<V>(
    nodes: Seq<NodeSpec>,
    acts: spec_fn(NodeSpec, Seq<V>, Seq<V>) -> bool,
    args: Seq<V>,
    val: spec_fn(Value) -> V,
) -> bool {
    &&& args.len() == parameter_values_of(nodes).len()
    &&& forall|k: int| 0 <= k < args.len() ==> val(#[trigger] parameter_values_of(nodes)[k]) == args[k]
    &&& forall|i: int| 0 <= i < nodes.len() && (nodes[i].kind is Op || nodes[i].kind is Call)
        ==> acts(#[trigger] nodes[i], operand_values(nodes[i], val), produced_values(nodes, i, val))
}

/// Each node gives the values `sem` assigns to its kind and to its operands' values.
pub open spec fn applies<V>(sem: spec_fn(NodeKind, Seq<V>) -> Seq<V>) -> spec_fn(NodeSpec, Seq<V>, Seq<V>) -> bool {
    |node: NodeSpec, ins: Seq<V>, outs: Seq<V>| outs == sem(node.kind, ins)
}

/// Whether a run of the function `f` on the arguments `ins`, its nodes acting as `sem` says,
/// returns `outs`.
pub open spec fn function_computes<V>(f: Seq<NodeSpec>, sem: spec_fn(NodeKind, Seq<V>) -> Seq<V>, ins: Seq<V>, outs: Seq<V>) -> bool {
    exists|val: spec_fn(Value) -> V| #[trigger] is_function_run(f, applies(sem), ins, val) && function_results(f, val) == outs
}

/// A call returns what a run of the function it calls returns; any other node acts as `sem` says.
pub open spec fn applies_calling<V>(functions: Seq<Seq<NodeSpec>>, sem: spec_fn(NodeKind, Seq<V>) -> Seq<V>)
    -> spec_fn(NodeSpec, Seq<V>, Seq<V>) -> bool
{
    |node: NodeSpec, ins: Seq<V>, outs: Seq<V>| match node.kind {
        NodeKind::Call(f) => function_computes(functions[f as int], sem, ins, outs),
        _ => outs == sem(node.kind, ins),
    }
}

/// The values of the rewritten entry point: a parameter holds the value of the entry point's
/// parameter, and a call's outputs the values its unit produces for outside.
pub open spec fn entry_values<V>(nodes: Seq<NodeSpec>, cats: Map<Seq<char>, usize>, val: spec_fn(Value) -> V) -> spec_fn(Value) -> V {
    |w: Value| {
        let params = parameter_values_of(nodes);
        if w.node < params.len() {
            val(params[w.node as int])
        } else {
            val(spec_outs(nodes, cats)[w.node - params.len()][w.slot as int])
        }
    }
}

/// The values of the function of unit `u`: a parameter holds the value it stands for, and a
/// rebuilt member produces what the member produced.
pub open spec fn unit_values<V>(nodes: Seq<NodeSpec>, cats: Map<Seq<char>, usize>, u: int, val: spec_fn(Value) -> V) -> spec_fn(Value) -> V {
    |w: Value| {
        let ins = spec_ins(nodes, cats)[u];
        if w.node < ins.len() {
            val(ins[w.node as int])
        } else {
            val(Value { node: spec_unit_nodes(nodes, cats)[u][w.node - ins.len()], slot: w.slot })
        }
    }
}

/// Whether the functions of the contraction of `nodes` fit in memory.
pub open spec fn contraction_fits(nodes: Seq<NodeSpec>, cats: Map<Seq<char>, usize>) -> bool {
    forall|f: int| 0 <= f < contracted_functions(nodes, cats).len() ==> #[trigger] contracted_functions(nodes, cats)[f].len() <= usize::MAX
}

/// The units of a function are ready to be built, and so is the rewritten entry point.
proof fn lemma_contraction_ready(nodes: Seq<NodeSpec>, cats: Map<Seq<char>, usize>)
    requires
        function_wf(nodes),
        calls_nothing(nodes),
        nodes.len() <= usize::MAX,
    ensures
        forall|u: int| 0 <= u < unit_keys(nodes, cats).len() ==> unit_ready(nodes,
            #[trigger] spec_unit_nodes(nodes, cats)[u], spec_ins(nodes, cats)[u], spec_outs(nodes, cats)[u]),
        entry_ready(nodes, spec_held(nodes, cats), spec_ins(nodes, cats), spec_outs(nodes, cats)),
{
    let ins = spec_ins(nodes, cats);
    let outs = spec_outs(nodes, cats);
    assert forall|u: int| 0 <= u < unit_keys(nodes, cats).len() implies unit_ready(nodes,
        #[trigger] spec_unit_nodes(nodes, cats)[u], ins[u], outs[u]) by {
        lemma_spec_boundaries(nodes, cats, u);
        lemma_unit_ready(nodes, cats, u, ins[u], outs[u]);
    }
    assert forall|u: int| 0 <= u < ins.len() implies boundary_of(#[trigger] ins[u], nodes, spec_held(nodes, cats), u as usize, true) by {
        lemma_spec_boundaries(nodes, cats, u);
    }
    assert forall|u: int| 0 <= u < outs.len() implies boundary_of(#[trigger] outs[u], nodes, spec_held(nodes, cats), u as usize, false) by {
        lemma_spec_boundaries(nodes, cats, u);
    }
    lemma_entry_ready(nodes, cats, ins, outs);
}

/// A value that is a parameter or produced by a unit for outside lands, in the rewritten entry
/// point, on a value that holds it.
proof fn lemma_lifted_value<V>(nodes: Seq<NodeSpec>, cats: Map<Seq<char>, usize>, val: spec_fn(Value) -> V, v: Value)
    requires
        entry_ready(nodes, spec_held(nodes, cats), spec_ins(nodes, cats), spec_outs(nodes, cats)),
        contraction_fits(nodes, cats),
        parameter_values_of(nodes).contains(v)
            || exists|w: int| 0 <= w < spec_outs(nodes, cats).len() && #[trigger] spec_outs(nodes, cats)[w].contains(v),
    ensures
        entry_values(nodes, cats, val)(lifted(parameter_values_of(nodes), spec_held(nodes, cats), spec_outs(nodes, cats), v)) == val(v),
{
    let params = parameter_values_of(nodes);
    let held = spec_held(nodes, cats);
    let outs = spec_outs(nodes, cats);
    let fs = contracted_functions(nodes, cats);
    let ef = entry_function(nodes, held, spec_ins(nodes, cats), outs);
    assert(fs.last() == ef);
    assert(fs[fs.len() - 1].len() <= usize::MAX);
    lemma_entry_function_index(nodes, held, spec_ins(nodes, cats), outs);
    if params.contains(v) {
        let k = params.index_of(v);
        assert(0 <= k < params.len() && params[k] == v);
    } else {
        let w = choose|w: int| 0 <= w < outs.len() && #[trigger] outs[w].contains(v);
        let k = choose|k: int| 0 <= k < outs[w].len() && outs[w][k] == v;
        assert(held[outs[w][k].node as int] == Some(w as usize));
        let u = held[v.node as int]->Some_0;
        assert(u == w);
        let i = outs[w].index_of(v);
        assert(0 <= i < outs[w].len() && outs[w][i] == v);
        lemma_unit_count(nodes, cats);
        let uf = unit_function(nodes, spec_unit_nodes(nodes, cats)[w], spec_ins(nodes, cats)[w], outs[w]);
        assert(fs[w] == uf);
        assert(fs[w].len() <= usize::MAX);
        lemma_unit_function_index(nodes, spec_unit_nodes(nodes, cats)[w], spec_ins(nodes, cats)[w], outs[w]);
        assert(outs[w].len() <= usize::MAX);
        assert(params.len() + w < ef.len());
        let lv = lifted(params, held, outs, v);
        assert(lv.node as int == params.len() + w);
        assert(lv.slot as int == i);
    }
}

/// A value a member of unit `u` reads lands, in the unit's function, on a value that holds it.
proof fn lemma_moved_value<V>(nodes: Seq<NodeSpec>, cats: Map<Seq<char>, usize>, u: int, val: spec_fn(Value) -> V, v: Value)
    requires
        0 <= u < unit_keys(nodes, cats).len(),
        unit_ready(nodes, spec_unit_nodes(nodes, cats)[u], spec_ins(nodes, cats)[u], spec_outs(nodes, cats)[u]),
        contraction_fits(nodes, cats),
        spec_ins(nodes, cats)[u].contains(v) || spec_unit_nodes(nodes, cats)[u].contains(v.node),
    ensures
        unit_values(nodes, cats, u, val)(moved(spec_ins(nodes, cats)[u], spec_unit_nodes(nodes, cats)[u], v)) == val(v),
{
    let ins = spec_ins(nodes, cats)[u];
    let m = spec_unit_nodes(nodes, cats)[u];
    let outs = spec_outs(nodes, cats)[u];
    let fs = contracted_functions(nodes, cats);
    lemma_unit_count(nodes, cats);
    assert(fs[u] == unit_function(nodes, m, ins, outs));
    assert(fs[u].len() <= usize::MAX);
    lemma_unit_function_index(nodes, m, ins, outs);
    if ins.contains(v) {
        let k = ins.index_of(v);
        assert(0 <= k < ins.len() && ins[k] == v);
    } else {
        let j = m.index_of(v.node);
        assert(0 <= j < m.len() && m[j] == v.node);
        assert(Value { node: m[j], slot: v.slot } == v);
    }
}

/// The values of a run of the function, moved into the function of unit `u`, make a run of it
/// on the values the unit reads, returning the values it produces for outside.
proof fn lemma_unit_runs<V>(
    nodes: Seq<NodeSpec>,
    cats: Map<Seq<char>, usize>,
    sem: spec_fn(NodeKind, Seq<V>) -> Seq<V>,
    args: Seq<V>,
    val: spec_fn(Value) -> V,
    u: int,
)
    requires
        function_wf(nodes),
        calls_nothing(nodes),
        nodes.len() <= usize::MAX,
        contraction_fits(nodes, cats),
        is_function_run(nodes, applies(sem), args, val),
        0 <= u < unit_keys(nodes, cats).len(),
    ensures
        is_function_run(contracted_functions(nodes, cats)[u], applies(sem),
            spec_ins(nodes, cats)[u].map_values(|v: Value| val(v)), unit_values(nodes, cats, u, val)),
        function_results(contracted_functions(nodes, cats)[u], unit_values(nodes, cats, u, val))
            == spec_outs(nodes, cats)[u].map_values(|v: Value| val(v)),
{
    let ins = spec_ins(nodes, cats)[u];
    let m = spec_unit_nodes(nodes, cats)[u];
    let outs = spec_outs(nodes, cats)[u];
    let fs = contracted_functions(nodes, cats);
    let uf = unit_function(nodes, m, ins, outs);
    let uv = unit_values(nodes, cats, u, val);
    let a = ins.map_values(|v: Value| val(v));
    lemma_contraction_ready(nodes, cats);
    assert(unit_ready(nodes, m, ins, outs));
    lemma_unit_count(nodes, cats);
    assert(fs[u] == uf);
    assert(fs[u].len() <= usize::MAX);
    lemma_unit_function_index(nodes, m, ins, outs);
    lemma_unit_function_ends(nodes, m, ins, outs);
    // Parameters hold the values read from outside.
    assert forall|k: int| 0 <= k < a.len() implies uv(#[trigger] parameter_values_of(uf)[k]) == a[k] by {
        assert(parameter_values_of(uf)[k] == Value { node: k as usize, slot: 0 });
    }
    // Members act as they did.
    assert forall|i: int| 0 <= i < uf.len() && (uf[i].kind is Op || uf[i].kind is Call)
        implies #[trigger] applies(sem)(uf[i], operand_values(uf[i], uv), produced_values(uf, i, uv)) by {
        if i < ins.len() {
            assert(uf[i] == param_node(type_of_value(nodes, ins[i])));
        } else if i >= ins.len() + m.len() {
            assert(uf[i] == result_node(moved(ins, m, outs[i - ins.len() - m.len()])));
        } else {
            let j = i - ins.len();
            let x = m[j] as int;
            assert(uf[ins.len() + j] == rebuilt(nodes, ins, m, m[j]));
            assert(uf[i] == rebuilt(nodes, ins, m, m[j]));
            assert(x < nodes.len() && is_op(nodes, x));
            assert(applies(sem)(nodes[x], operand_values(nodes[x], val), produced_values(nodes, x, val)));
            assert forall|k: int| 0 <= k < nodes[x].operands.len() implies
                uv(moved(ins, m, #[trigger] nodes[x].operands[k])) == val(nodes[x].operands[k]) by {
                lemma_moved_value(nodes, cats, u, val, nodes[x].operands[k]);
            }
            assert(operand_values(uf[i], uv) =~= operand_values(nodes[x], val));
            assert forall|t: int| 0 <= t < nodes[x].outputs.len() implies
                #[trigger] produced_values(uf, i, uv)[t] == produced_values(nodes, x, val)[t] by {
                assert(i < uf.len());
                assert((i as usize) as int == i);
            }
            assert(produced_values(uf, i, uv) =~= produced_values(nodes, x, val));
        }
    }
    assert(is_function_run(uf, applies(sem), a, uv));
    // Results return the values produced for outside.
    assert forall|k: int| 0 <= k < outs.len() implies #[trigger] function_results(uf, uv)[k] == val(outs[k]) by {
        assert(m.contains(outs[k].node));
        assert(!ins.contains(outs[k])) by {
            if ins.contains(outs[k]) {
                let q = choose|q: int| 0 <= q < ins.len() && ins[q] == outs[k];
                assert(!m.contains(ins[q].node));
            }
        }
        lemma_moved_value(nodes, cats, u, val, outs[k]);
    }
    assert(function_results(uf, uv) =~= outs.map_values(|v: Value| val(v)));
}

/// Contraction keeps what the function computes. Values that make a run of the entry point on
/// some arguments, each node acting as `sem` says, give a run of the rewritten entry point on the
/// same arguments, each call returning what a run of its unit's function returns, with the same
/// results.
pub proof fn lemma_contract_keeps_runs<V>(
    nodes: Seq<NodeSpec>,
    cats: Map<Seq<char>, usize>,
    sem: spec_fn(NodeKind, Seq<V>) -> Seq<V>,
    args: Seq<V>,
    val: spec_fn(Value) -> V,
)
    requires
        function_wf(nodes),
        calls_nothing(nodes),
        nodes.len() <= usize::MAX,
        contraction_fits(nodes, cats),
        is_function_run(nodes, applies(sem), args, val),
    ensures
        is_function_run(contracted_functions(nodes, cats).last(), applies_calling(contracted_functions(nodes, cats), sem),
            args, entry_values(nodes, cats, val)),
        function_results(contracted_functions(nodes, cats).last(), entry_values(nodes, cats, val)) == function_results(nodes, val),
{
    let fs = contracted_functions(nodes, cats);
    let held = spec_held(nodes, cats);
    let ins = spec_ins(nodes, cats);
    let outs = spec_outs(nodes, cats);
    let params = parameter_values_of(nodes);
    let results = result_values_of(nodes);
    let ef = entry_function(nodes, held, ins, outs);
    let ev = entry_values(nodes, cats, val);
    lemma_contraction_ready(nodes, cats);
    assert(fs.last() == ef);
    assert(fs[fs.len() - 1].len() <= usize::MAX);
    lemma_entry_function_index(nodes, held, ins, outs);
    lemma_entry_function_ends(nodes, held, ins, outs);
    lemma_unit_count(nodes, cats);
    // Parameters hold the arguments.
    assert forall|k: int| 0 <= k < args.len() implies ev(#[trigger] parameter_values_of(ef)[k]) == args[k] by {
        assert(parameter_values_of(ef)[k] == Value { node: k as usize, slot: 0 });
        assert(val(params[k]) == args[k]);
    }
    // Each call returns what its unit computes.
    assert forall|i: int| 0 <= i < ef.len() && (ef[i].kind is Op || ef[i].kind is Call)
        implies #[trigger] applies_calling(fs, sem)(ef[i], operand_values(ef[i], ev), produced_values(ef, i, ev)) by {
        if i < params.len() {
            assert(ef[i] == param_node(type_of_value(nodes, params[i])));
        } else if i >= params.len() + ins.len() {
            assert(ef[i] == result_node(lifted(params, held, outs, results[i - params.len() - ins.len()])));
        } else {
            let u = i - params.len();
            let c = call_node(nodes, params, held, ins, outs, u);
            assert(ef[params.len() + u] == c);
            assert(ef[i] == c);
            lemma_unit_runs(nodes, cats, sem, args, val, u);
            let a = ins[u].map_values(|v: Value| val(v));
            assert forall|k: int| 0 <= k < ins[u].len() implies #[trigger] operand_values(c, ev)[k] == a[k] by {
                lemma_lifted_value(nodes, cats, val, ins[u][k]);
            }
            assert(operand_values(c, ev) =~= a);
            let uf = unit_function(nodes, spec_unit_nodes(nodes, cats)[u], ins[u], outs[u]);
            assert(fs[u] == uf);
            assert(fs[u].len() <= usize::MAX);
            lemma_unit_function_index(nodes, spec_unit_nodes(nodes, cats)[u], ins[u], outs[u]);
            assert forall|t: int| 0 <= t < outs[u].len() implies
                #[trigger] produced_values(ef, i, ev)[t] == val(outs[u][t]) by {
                assert(ef[i].outputs.len() == outs[u].len());
            }
            assert(produced_values(ef, i, ev) =~= outs[u].map_values(|v: Value| val(v)));
            assert(is_function_run(fs[u], applies(sem), a, unit_values(nodes, cats, u, val)));
            assert(function_computes(fs[u], sem, operand_values(c, ev), produced_values(ef, i, ev)));
        }
    }
    assert(is_function_run(ef, applies_calling(fs, sem), args, ev));
    // Results read the values the entry point's results read.
    assert forall|k: int| 0 <= k < results.len() implies #[trigger] function_results(ef, ev)[k] == function_results(nodes, val)[k] by {
        lemma_lifted_value(nodes, cats, val, results[k]);
    }
    assert(function_results(ef, ev) =~= function_results(nodes, val));
}

/// A run of the function of unit `u` that a run of the rewritten entry point provides for the
/// call of `u`.
spec fn unit_run<V>(nodes: Seq<NodeSpec>, cats: Map<Seq<char>, usize>, sem: spec_fn(NodeKind, Seq<V>) -> Seq<V>, ev: spec_fn(Value) -> V, u: int)
    -> spec_fn(Value) -> V
{
    let fs = contracted_functions(nodes, cats);
    let i = parameter_values_of(nodes).len() + u;
    choose|uv: spec_fn(Value) -> V| is_function_run(fs[u], applies(sem), operand_values(fs.last()[i], ev), uv)
        && function_results(fs[u], uv) == produced_values(fs.last(), i, ev)
}

/// The values of the entry point read off a run of the rewritten entry point: a parameter's from
/// the parameter it became, any other from the run of its unit.
spec fn reflected_values<V>(nodes: Seq<NodeSpec>, cats: Map<Seq<char>, usize>, sem: spec_fn(NodeKind, Seq<V>) -> Seq<V>, ev: spec_fn(Value) -> V)
    -> spec_fn(Value) -> V
{
    |v: Value| {
        let params = parameter_values_of(nodes);
        if params.contains(v) {
            ev(Value { node: params.index_of(v) as usize, slot: 0 })
        } else {
            let u = spec_held(nodes, cats)[v.node as int]->Some_0 as int;
            unit_run(nodes, cats, sem, ev, u)(moved(spec_ins(nodes, cats)[u], spec_unit_nodes(nodes, cats)[u], v))
        }
    }
}

/// A run of the rewritten entry point gives each call a run of its unit's function.
proof fn lemma_unit_run_exists<V>(
    nodes: Seq<NodeSpec>,
    cats: Map<Seq<char>, usize>,
    sem: spec_fn(NodeKind, Seq<V>) -> Seq<V>,
    args: Seq<V>,
    ev: spec_fn(Value) -> V,
    u: int,
)
    requires
        function_wf(nodes),
        calls_nothing(nodes),
        nodes.len() <= usize::MAX,
        contraction_fits(nodes, cats),
        is_function_run(contracted_functions(nodes, cats).last(), applies_calling(contracted_functions(nodes, cats), sem), args, ev),
        0 <= u < unit_keys(nodes, cats).len(),
    ensures
        ({
            let fs = contracted_functions(nodes, cats);
            let i = parameter_values_of(nodes).len() + u;
            let uv = unit_run(nodes, cats, sem, ev, u);
            &&& fs.last()[i] == call_node(nodes, parameter_values_of(nodes), spec_held(nodes, cats), spec_ins(nodes, cats), spec_outs(nodes, cats), u)
            &&& is_function_run(fs[u], applies(sem), operand_values(fs.last()[i], ev), uv)
            &&& function_results(fs[u], uv) == produced_values(fs.last(), i, ev)
        }),
{
    let fs = contracted_functions(nodes, cats);
    let held = spec_held(nodes, cats);
    let ins = spec_ins(nodes, cats);
    let outs = spec_outs(nodes, cats);
    let params = parameter_values_of(nodes);
    let ef = entry_function(nodes, held, ins, outs);
    assert(fs.last() == ef);
    lemma_entry_function_index(nodes, held, ins, outs);
    lemma_unit_count(nodes, cats);
    let i = params.len() + u;
    assert(ef[i] == call_node(nodes, params, held, ins, outs, u));
    assert(ef[i].kind is Call);
    assert(applies_calling(fs, sem)(ef[i], operand_values(ef[i], ev), produced_values(ef, i, ev)));
    assert(function_computes(fs[u], sem, operand_values(ef[i], ev), produced_values(ef, i, ev)));
}

/// A value that is a parameter or produced by a unit for outside is held, in a run of the
/// rewritten entry point, by the value it landed on.
proof fn lemma_lifted_reflects<V>(
    nodes: Seq<NodeSpec>,
    cats: Map<Seq<char>, usize>,
    sem: spec_fn(NodeKind, Seq<V>) -> Seq<V>,
    args: Seq<V>,
    ev: spec_fn(Value) -> V,
    w: Value,
)
    requires
        function_wf(nodes),
        calls_nothing(nodes),
        nodes.len() <= usize::MAX,
        contraction_fits(nodes, cats),
        is_function_run(contracted_functions(nodes, cats).last(), applies_calling(contracted_functions(nodes, cats), sem), args, ev),
        parameter_values_of(nodes).contains(w)
            || exists|x: int| 0 <= x < spec_outs(nodes, cats).len() && #[trigger] spec_outs(nodes, cats)[x].contains(w),
    ensures
        ev(lifted(parameter_values_of(nodes), spec_held(nodes, cats), spec_outs(nodes, cats), w))
            == reflected_values(nodes, cats, sem, ev)(w),
{
    let params = parameter_values_of(nodes);
    let held = spec_held(nodes, cats);
    let ins = spec_ins(nodes, cats);
    let outs = spec_outs(nodes, cats);
    if !params.contains(w) {
        lemma_contraction_ready(nodes, cats);
        lemma_unit_count(nodes, cats);
        let x = choose|x: int| 0 <= x < outs.len() && #[trigger] outs[x].contains(w);
        let k = choose|k: int| 0 <= k < outs[x].len() && outs[x][k] == w;
        assert(held[outs[x][k].node as int] == Some(x as usize));
        let u = x;
        let fs = contracted_functions(nodes, cats);
        let ef = entry_function(nodes, held, ins, outs);
        assert(fs.last() == ef);
        assert(fs[fs.len() - 1].len() <= usize::MAX);
        lemma_entry_function_index(nodes, held, ins, outs);
        let m = spec_unit_nodes(nodes, cats)[u];
        let uf = unit_function(nodes, m, ins[u], outs[u]);
        assert(fs[u] == uf);
        assert(fs[u].len() <= usize::MAX);
        lemma_unit_function_index(nodes, m, ins[u], outs[u]);
        lemma_unit_function_ends(nodes, m, ins[u], outs[u]);
        lemma_unit_run_exists(nodes, cats, sem, args, ev, u);
        let uv = unit_run(nodes, cats, sem, ev, u);
        let idx = outs[u].index_of(w);
        assert(0 <= idx < outs[u].len() && outs[u][idx] == w);
        let i = params.len() + u;
        let lv = lifted(params, held, outs, w);
        assert(lv.node as int == i && lv.slot as int == idx);
        assert(ef[i].outputs.len() == outs[u].len());
        assert(produced_values(ef, i, ev)[idx] == ev(lv));
        assert(function_results(uf, uv)[idx] == uv(moved(ins[u], m, w)));
    }
}

/// A value a member of unit `u` reads is held, in the run of the unit's function, by the value it
/// landed on.
proof fn lemma_moved_reflects<V>(
    nodes: Seq<NodeSpec>,
    cats: Map<Seq<char>, usize>,
    sem: spec_fn(NodeKind, Seq<V>) -> Seq<V>,
    args: Seq<V>,
    ev: spec_fn(Value) -> V,
    u: int,
    v: Value,
)
    requires
        function_wf(nodes),
        calls_nothing(nodes),
        nodes.len() <= usize::MAX,
        contraction_fits(nodes, cats),
        is_function_run(contracted_functions(nodes, cats).last(), applies_calling(contracted_functions(nodes, cats), sem), args, ev),
        0 <= u < unit_keys(nodes, cats).len(),
        spec_ins(nodes, cats)[u].contains(v) || spec_unit_nodes(nodes, cats)[u].contains(v.node),
    ensures
        unit_run(nodes, cats, sem, ev, u)(moved(spec_ins(nodes, cats)[u], spec_unit_nodes(nodes, cats)[u], v))
            == reflected_values(nodes, cats, sem, ev)(v),
{
    let params = parameter_values_of(nodes);
    let held = spec_held(nodes, cats);
    let ins = spec_ins(nodes, cats);
    let outs = spec_outs(nodes, cats);
    let m = spec_unit_nodes(nodes, cats)[u];
    lemma_contraction_ready(nodes, cats);
    assert(unit_ready(nodes, m, ins[u], outs[u]));
    lemma_unit_count(nodes, cats);
    if ins[u].contains(v) {
        let fs = contracted_functions(nodes, cats);
        let ef = entry_function(nodes, held, ins, outs);
        assert(fs.last() == ef);
        assert(fs[fs.len() - 1].len() <= usize::MAX);
        lemma_entry_function_index(nodes, held, ins, outs);
        let uf = unit_function(nodes, m, ins[u], outs[u]);
        assert(fs[u] == uf);
        assert(fs[u].len() <= usize::MAX);
        lemma_unit_function_index(nodes, m, ins[u], outs[u]);
        lemma_unit_function_ends(nodes, m, ins[u], outs[u]);
        lemma_unit_run_exists(nodes, cats, sem, args, ev, u);
        let q = ins[u].index_of(v);
        assert(0 <= q < ins[u].len() && ins[u][q] == v);
        assert(parameter_values_of(uf)[q] == moved(ins[u], m, v));
        let c = call_node(nodes, params, held, ins, outs, u);
        assert(operand_values(c, ev)[q] == ev(lifted(params, held, outs, v)));
        assert(params.contains(v) || exists|x: int| 0 <= x < u && #[trigger] outs[x].contains(v));
        lemma_lifted_reflects(nodes, cats, sem, args, ev, v);
    } else {
        lemma_held(nodes, cats, v.node as int);
        assert(held[v.node as int] == Some(u as usize));
        assert(!params.contains(v)) by {
            if params.contains(v) {
                let k = choose|k: int| 0 <= k < params.len() && params[k] == v;
                assert(held[params[k].node as int] is None);
            }
        }
    }
}

/// Contraction adds nothing to what the function computes. Each run of the rewritten entry point,
/// each call returning what a run of its unit's function returns and every other node acting as
/// `sem` says, comes from a run of the entry point on the same arguments, each node acting as
/// `sem` says, with the same results.
pub proof fn lemma_contract_reflects_runs<V>(
    nodes: Seq<NodeSpec>,
    cats: Map<Seq<char>, usize>,
    sem: spec_fn(NodeKind, Seq<V>) -> Seq<V>,
    args: Seq<V>,
    ev: spec_fn(Value) -> V,
)
    requires
        function_wf(nodes),
        calls_nothing(nodes),
        nodes.len() <= usize::MAX,
        contraction_fits(nodes, cats),
        is_function_run(contracted_functions(nodes, cats).last(), applies_calling(contracted_functions(nodes, cats), sem), args, ev),
    ensures
        exists|val: spec_fn(Value) -> V| #[trigger] is_function_run(nodes, applies(sem), args, val)
            && function_results(nodes, val) == function_results(contracted_functions(nodes, cats).last(), ev),
{
    let fs = contracted_functions(nodes, cats);
    let held = spec_held(nodes, cats);
    let ins = spec_ins(nodes, cats);
    let outs = spec_outs(nodes, cats);
    let params = parameter_values_of(nodes);
    let results = result_values_of(nodes);
    let ef = entry_function(nodes, held, ins, outs);
    let rv = reflected_values(nodes, cats, sem, ev);
    lemma_contraction_ready(nodes, cats);
    assert(fs.last() == ef);
    assert(fs[fs.len() - 1].len() <= usize::MAX);
    lemma_entry_function_index(nodes, held, ins, outs);
    lemma_entry_function_ends(nodes, held, ins, outs);
    lemma_unit_count(nodes, cats);
    // Parameters hold the arguments.
    assert forall|k: int| 0 <= k < args.len() implies rv(#[trigger] params[k]) == args[k] by {
        assert(params.contains(params[k]));
        crate::program::function::lemma_positions(nodes, NodeRole::Parameter);
        assert(params.no_duplicates()) by {
            assert forall|a: int, b: int| 0 <= a < params.len() && 0 <= b < params.len() && a != b implies params[a] != params[b] by {
                if a < b {
                    assert(positions_of(nodes, NodeRole::Parameter)[a] < positions_of(nodes, NodeRole::Parameter)[b]);
                } else {
                    assert(positions_of(nodes, NodeRole::Parameter)[b] < positions_of(nodes, NodeRole::Parameter)[a]);
                }
            }
        }
        assert(params.index_of(params[k]) == k);
        assert(parameter_values_of(ef)[k] == Value { node: k as usize, slot: 0 });
    }
    // Each member acts as it does in the run of its unit.
    assert forall|x: int| 0 <= x < nodes.len() && (nodes[x].kind is Op || nodes[x].kind is Call)
        implies #[trigger] applies(sem)(nodes[x], operand_values(nodes[x], rv), produced_values(nodes, x, rv)) by {
        assert(nodes[x].kind is Op);
        lemma_held(nodes, cats, x);
        let u = held[x]->Some_0 as int;
        let m = spec_unit_nodes(nodes, cats)[u];
        assert(m.contains(x as usize));
        let j = m.index_of(x as usize);
        assert(0 <= j < m.len() && m[j] == x as usize);
        let uf = unit_function(nodes, m, ins[u], outs[u]);
        assert(fs[u] == uf);
        assert(fs[u].len() <= usize::MAX);
        lemma_unit_function_index(nodes, m, ins[u], outs[u]);
        lemma_unit_run_exists(nodes, cats, sem, args, ev, u);
        let uv = unit_run(nodes, cats, sem, ev, u);
        let i = ins[u].len() + j;
        assert(uf[i] == rebuilt(nodes, ins[u], m, m[j]));
        assert(applies(sem)(uf[i], operand_values(uf[i], uv), produced_values(uf, i, uv)));
        assert(unit_ready(nodes, m, ins[u], outs[u]));
        assert forall|k: int| 0 <= k < nodes[x].operands.len() implies
            #[trigger] operand_values(uf[i], uv)[k] == operand_values(nodes[x], rv)[k] by {
            lemma_moved_reflects(nodes, cats, sem, args, ev, u, nodes[x].operands[k]);
        }
        assert(operand_values(uf[i], uv) =~= operand_values(nodes[x], rv));
        assert forall|t: int| 0 <= t < nodes[x].outputs.len() implies
            #[trigger] produced_values(uf, i, uv)[t] == produced_values(nodes, x, rv)[t] by {
            let w = Value { node: x as usize, slot: t as usize };
            assert(m.contains(w.node));
            lemma_moved_reflects(nodes, cats, sem, args, ev, u, w);
            assert(!ins[u].contains(w)) by {
                if ins[u].contains(w) {
                    let q = choose|q: int| 0 <= q < ins[u].len() && ins[u][q] == w;
                    assert(!m.contains(ins[u][q].node));
                }
            }
            assert(m.index_of(w.node) == j) by {
                assert(m.no_duplicates()) by {
                    assert forall|a: int, b: int| 0 <= a < m.len() && 0 <= b < m.len() && a != b implies m[a] != m[b] by {
                        if a < b {
                            assert(m[a] < m[b]);
                        } else {
                            assert(m[b] < m[a]);
                        }
                    }
                }
            }
            assert(i < uf.len());
            assert((i as usize) as int == i);
        }
        assert(produced_values(uf, i, uv) =~= produced_values(nodes, x, rv));
    }
    assert(is_function_run(nodes, applies(sem), args, rv));
    // Results read what the rewritten entry point's results read.
    assert forall|k: int| 0 <= k < results.len() implies #[trigger] function_results(nodes, rv)[k] == function_results(ef, ev)[k] by {
        lemma_lifted_reflects(nodes, cats, sem, args, ev, results[k]);
    }
    assert(function_results(nodes, rv) =~= function_results(ef, ev));
}

} // verus!
