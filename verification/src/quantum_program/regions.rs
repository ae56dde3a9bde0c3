//! Contracting a [`QuantumProgram`] into single-category regions.
//!
//! See [`QuantumProgram::into_regions`].

use vstd::prelude::*;

use rustworkx_core::dag_algo::lexicographical_topological_sort;
use rustworkx_core::petgraph::graph::{DiGraph, NodeIndex};

use crate::collections::{
    NameIndex, NameSet, PairIndex, PairSet, name_index_contents, name_set_contents, pair_index_contents, pair_set_contents,
};
use crate::quantum_program::{
    Binding, Edge, EntryView, GraphNode, InputSource, NodeKind, PathEntry, Port, QuantumProgram, index_limit, kind_name,
    path_view, port_key_text, port_view, sources_into,
};
use crate::quantum_program::ports::{copy_path, lemma_unique_keys_len, port_key, unique_keys, unique_port_key};
use crate::tensor::{DTypeLike, Dim, TensorType, type_views};
use crate::text::{decimal, push_decimal, push_str};
use crate::quantum_program::heuristic::{
    HeuristicInput, Plan, RegionAssignment, assign_regions, count_upto, heuristic_input, lemma_colour_is_admissible,
    lemma_region_colour_of_member, lemma_regions_follow_edges, lemma_valid_input_intro, plan_upto, region_colour,
    region_members, region_spec, valid_input,
};
use crate::quantum_program::ports::{fresh_key, first_free, numbered};

verus! {

// ---------------------------------------------------------------------------
// What the heuristic reads of a program
// ---------------------------------------------------------------------------

/// The category lists, each name by its characters.
pub open spec fn category_names(categories: Seq<Vec<String>>) -> Seq<Seq<Seq<char>>> {
    Seq::new(categories.len(), |c: int| Seq::new(categories[c]@.len(), |j: int| categories[c]@[j]@))
}

/// The categories among the first `m` whose list holds `name`, in order.
pub open spec fn listed_upto(cats: Seq<Seq<Seq<char>>>, name: Seq<char>, m: nat) -> Seq<usize>
    decreases m,
{
    if m == 0 {
        Seq::empty()
    } else {
        let rest = listed_upto(cats, name, (m - 1) as nat);
        if cats[m - 1].contains(name) { rest.push((m - 1) as usize) } else { rest }
    }
}

/// The colours a node whose type is `name` may take: each category listing it, in order, or
/// the fallback colour `cats.len()` when none does.
pub open spec fn admissible_for(cats: Seq<Seq<Seq<char>>>, name: Seq<char>) -> Seq<usize> {
    let listed = listed_upto(cats, name, cats.len());
    if listed.len() == 0 { seq![cats.len() as usize] } else { listed }
}

/// Whether node `v` was created for a declared program input, for each node.
pub open spec fn source_flags(p: QuantumProgram) -> Seq<bool> {
    Seq::new(p.nodes@.len(), |v: int| p.is_input_source(v))
}

/// The sources of the edges into each node.
pub open spec fn incoming(p: QuantumProgram) -> Seq<Seq<usize>> {
    Seq::new(p.nodes@.len(), |v: int| sources_into(p.edges@, v as usize))
}

/// What the heuristic reads of `p`, given the topological order `topo` and the categories.
pub open spec fn program_input(p: QuantumProgram, categories: Seq<Vec<String>>, topo: Seq<usize>) -> HeuristicInput {
    HeuristicInput {
        preds: incoming(p),
        topo,
        admissible: Seq::new(p.nodes@.len(), |v: int| admissible_for(category_names(categories), kind_name(p.nodes@[v].kind))),
        hoisted: source_flags(p),
        n_colours: (categories.len() + 1) as usize,
    }
}

// ---------------------------------------------------------------------------
// Reading the program
// ---------------------------------------------------------------------------

/// The categories among the first `m` listing `name` are below `m`, in increasing order.
proof fn lemma_listed_bounds(cats: Seq<Seq<Seq<char>>>, name: Seq<char>, m: nat)
    ensures
        forall|i: int| 0 <= i < listed_upto(cats, name, m).len() ==> #[trigger] listed_upto(cats, name, m)[i] < m,
        listed_upto(cats, name, m).len() <= m,
    decreases m,
{
    if m > 0 {
        lemma_listed_bounds(cats, name, (m - 1) as nat);
    }
}

/// A prefix one longer holds what the shorter one holds and the next element.
proof fn lemma_take_next_contains<A>(s: Seq<A>, j: int, t: A)
    requires
        0 <= j < s.len(),
    ensures
        s.take(j + 1).contains(t) == (s.take(j).contains(t) || s[j] == t),
{
    let longer = s.take(j + 1);
    let shorter = s.take(j);
    if longer.contains(t) {
        let x = choose|x: int| 0 <= x < longer.len() && longer[x] == t;
        if x < j {
            assert(shorter[x] == t);
        }
    }
    if shorter.contains(t) {
        let x = choose|x: int| 0 <= x < shorter.len() && shorter[x] == t;
        assert(longer[x] == t);
    }
    if s[j] == t {
        assert(longer[j] == t);
    }
}

/// The full name of the type of `node`.
fn node_type_name(node: &GraphNode) -> (name: &str)
    ensures
        name@ == kind_name(node.kind),
{
    match &node.kind {
        NodeKind::Op(name) => name.as_str(),
        NodeKind::Program(_) => "qiskit.quantum_program",
    }
}

/// For each node, the colours it may take: the categories listing its type, in order, or the
/// fallback colour `categories.len()` for a type that none lists.
fn admissible_colours(nodes: &Vec<GraphNode>, categories: &[Vec<String>]) -> (admissible: Vec<Vec<usize>>)
    requires
        categories.len() < usize::MAX,
    ensures
        admissible.len() == nodes.len(),
        forall|v: int| 0 <= v < nodes.len() ==> #[trigger] admissible[v]@
            == admissible_for(category_names(categories@), kind_name(nodes@[v].kind)),
{
    let ghost cats = category_names(categories@);
    let mut listed = NameIndex::new();
    let mut lists: Vec<Vec<usize>> = Vec::new();
    let ghost mut names: Seq<Seq<char>> = Seq::empty();
    for c in 0..categories.len()
        invariant
            cats == category_names(categories@),
            lists.len() == names.len(),
            forall|s: Seq<char>| #[trigger] name_index_contents(listed).contains_key(s) ==> {
                &&& name_index_contents(listed)[s] < lists.len()
                &&& names[name_index_contents(listed)[s] as int] == s
                &&& lists[name_index_contents(listed)[s] as int]@ == listed_upto(cats, s, c as nat)
                &&& lists[name_index_contents(listed)[s] as int]@.len() > 0
            },
            forall|s: Seq<char>| !(#[trigger] name_index_contents(listed).contains_key(s)) ==> listed_upto(cats, s, c as nat).len() == 0,
    {
        let names_of_c = &categories[c];
        assert(forall|s: Seq<char>| !(#[trigger] name_index_contents(listed).contains_key(s)) ==> listed_upto(cats, s, c as nat).len() == 0);
        for j in 0..names_of_c.len()
            invariant
                cats == category_names(categories@),
                c < categories.len(),
                names_of_c@ == categories@[c as int]@,
                lists.len() == names.len(),
                forall|s: Seq<char>| #[trigger] name_index_contents(listed).contains_key(s) ==> {
                    &&& name_index_contents(listed)[s] < lists.len()
                    &&& names[name_index_contents(listed)[s] as int] == s
                    &&& lists[name_index_contents(listed)[s] as int]@ == listed_upto(cats, s, c as nat)
                        + if cats[c as int].take(j as int).contains(s) { seq![c] } else { Seq::empty() }
                    &&& lists[name_index_contents(listed)[s] as int]@.len() > 0
                },
                forall|s: Seq<char>| !(#[trigger] name_index_contents(listed).contains_key(s)) ==> listed_upto(cats, s, c as nat).len() == 0,
                forall|s: Seq<char>| !(#[trigger] name_index_contents(listed).contains_key(s)) ==> !cats[c as int].take(j as int).contains(s),
        {
            let name = &names_of_c[j];
            let ghost s = name@;
            proof {
                lemma_listed_bounds(cats, s, c as nat);
                assert(cats[c as int][j as int] == s);
                lemma_take_next_contains(cats[c as int], j as int, s);
            }
            match listed.get(name.as_str()) {
                Some(slot) => {
                    let n = lists[slot].len();
                    let last = lists[slot][n - 1];
                    if last != c {
                        proof {
                            if cats[c as int].take(j as int).contains(s) {
                                assert(lists[slot as int]@.last() == c);
                            }
                        }
                        lists[slot].push(c);
                    } else {
                        proof {
                            if !cats[c as int].take(j as int).contains(s) {
                                let l = listed_upto(cats, s, c as nat);
                                assert(lists[slot as int]@ == l);
                                assert(l[l.len() - 1] < c);
                            }
                        }
                    }
                    proof {
                        assert forall|t: Seq<char>| #[trigger] name_index_contents(listed).contains_key(t) && t != s implies
                            cats[c as int].take(j + 1).contains(t) == cats[c as int].take(j as int).contains(t) by {
                            lemma_take_next_contains(cats[c as int], j as int, t);
                        }
                    }
                },
                None => {
                    let ghost before = name_index_contents(listed);
                    let slot = lists.len();
                    listed.insert(name.clone(), slot);
                    let mut fresh: Vec<usize> = Vec::new();
                    fresh.push(c);
                    lists.push(fresh);
                    proof {
                        names = names.push(s);
                        assert forall|t: Seq<char>| #[trigger] before.contains_key(t) implies
                            cats[c as int].take(j + 1).contains(t) == cats[c as int].take(j as int).contains(t) by {
                            lemma_take_next_contains(cats[c as int], j as int, t);
                        }
                        assert forall|t: Seq<char>| !name_index_contents(listed).contains_key(t) implies !cats[c as int].take(j + 1).contains(t) by {
                            lemma_take_next_contains(cats[c as int], j as int, t);
                            assert(!before.contains_key(t));
                            assert(!cats[c as int].take(j as int).contains(t));
                        }
                        lemma_take_next_contains(cats[c as int], j as int, s);
                    }
                },
            }
        }
        proof {
            assert(cats[c as int].take(names_of_c.len() as int) =~= cats[c as int]);
            assert forall|s: Seq<char>| #[trigger] name_index_contents(listed).contains_key(s) implies
                lists[name_index_contents(listed)[s] as int]@ == listed_upto(cats, s, (c + 1) as nat) by {
                assert(cats[c as int].take(names_of_c.len() as int).contains(s) == cats[c as int].contains(s));
            }
            assert forall|s: Seq<char>| !(#[trigger] name_index_contents(listed).contains_key(s)) implies
                listed_upto(cats, s, (c + 1) as nat).len() == 0 by {
                assert(cats[c as int].take(names_of_c.len() as int).contains(s) == cats[c as int].contains(s));
                assert(listed_upto(cats, s, c as nat).len() == 0);
            }
        }
    }

    let fallback = categories.len();
    let mut admissible: Vec<Vec<usize>> = Vec::new();
    for v in 0..nodes.len()
        invariant
            cats == category_names(categories@),
            fallback == categories.len(),
            admissible.len() == v,
            forall|s: Seq<char>| #[trigger] name_index_contents(listed).contains_key(s) ==> {
                &&& name_index_contents(listed)[s] < lists.len()
                &&& lists[name_index_contents(listed)[s] as int]@ == listed_upto(cats, s, categories.len() as nat)
                &&& lists[name_index_contents(listed)[s] as int]@.len() > 0
            },
            forall|s: Seq<char>| !(#[trigger] name_index_contents(listed).contains_key(s)) ==> listed_upto(cats, s, categories.len() as nat).len() == 0,
            forall|u: int| 0 <= u < v ==> #[trigger] admissible[u]@ == admissible_for(cats, kind_name(nodes@[u].kind)),
    {
        let name = node_type_name(&nodes[v]);
        let colours = match listed.get(name) {
            Some(slot) => lists[slot].clone(),
            None => {
                let mut only: Vec<usize> = Vec::new();
                only.push(fallback);
                only
            },
        };
        admissible.push(colours);
        proof {
            assert(admissible[v as int]@ =~= admissible_for(cats, kind_name(nodes@[v as int].kind)));
        }
    }
    admissible
}

/// For each node, the sources of the edges into it, one per edge, in edge order.
fn incoming_sources(n: usize, edges: &Vec<Edge>) -> (preds: Vec<Vec<usize>>)
    requires
        forall|k: int| 0 <= k < edges.len() ==> #[trigger] edges[k].tgt < n,
    ensures
        preds.len() == n,
        forall|v: int| 0 <= v < n ==> #[trigger] preds[v]@ == sources_into(edges@, v as usize),
{
    let mut preds: Vec<Vec<usize>> = Vec::new();
    for v in 0..n
        invariant
            preds.len() == v,
            forall|u: int| 0 <= u < v ==> #[trigger] preds[u]@ == Seq::<usize>::empty(),
    {
        preds.push(Vec::new());
    }
    for k in 0..edges.len()
        invariant
            preds.len() == n,
            forall|j: int| 0 <= j < edges.len() ==> #[trigger] edges[j].tgt < n,
            forall|v: int| 0 <= v < n ==> #[trigger] preds[v]@ == sources_into(edges@.take(k as int), v as usize),
    {
        let e = edges[k];
        let ghost before = preds@;
        preds[e.tgt].push(e.src);
        proof {
            assert forall|v: int| 0 <= v < n implies #[trigger] preds[v]@ == sources_into(edges@.take(k + 1), v as usize) by {
                assert(edges@.take(k + 1).drop_last() =~= edges@.take(k as int));
                if v != e.tgt {
                    assert(preds[v] == before[v]);
                }
            }
        }
    }
    assert(edges@.take(edges.len() as int) =~= edges@);
    preds
}

/// For each node, whether it was created for a declared program input.
fn source_flag_table(p: &QuantumProgram) -> (hoisted: Vec<bool>)
    requires
        p.wf(),
    ensures
        hoisted@ == source_flags(*p),
{
    let n = p.nodes.len();
    let mut hoisted: Vec<bool> = Vec::new();
    for v in 0..n
        invariant
            hoisted.len() == v,
            forall|u: int| 0 <= u < v ==> !#[trigger] hoisted[u],
    {
        hoisted.push(false);
    }
    for k in 0..p.input_sources.len()
        invariant
            p.wf(),
            n == p.nodes.len(),
            hoisted.len() == n,
            forall|v: int| 0 <= v < n ==> #[trigger] hoisted[v]
                == exists|j: int| 0 <= j < k && #[trigger] p.input_sources[j].node == v,
    {
        let v = p.input_sources[k].node;
        hoisted.set(v, true);
        proof {
            assert forall|u: int| 0 <= u < n implies #[trigger] hoisted[u]
                == exists|j: int| 0 <= j < k + 1 && #[trigger] p.input_sources[j].node == u by {
                if u == v {
                    assert(p.input_sources[k as int].node == u);
                }
            }
        }
    }
    assert(hoisted@ =~= source_flags(*p));
    hoisted
}

// ---------------------------------------------------------------------------
// A topological order
// ---------------------------------------------------------------------------

/// The order that `rustworkx_core::dag_algo::lexicographical_topological_sort` gives the graph
/// of `n` nodes joined by `edges`, each node keyed by its index; `None` where it reports an
/// error.
pub uninterp spec fn lexicographic_order(n: usize, edges: Seq<(usize, usize)>) -> Option<Seq<usize>>;

/// Whether `order` lists each of the `n` nodes once, with the source of every edge before its
/// target.
pub open spec fn is_topological(n: nat, edges: Seq<(usize, usize)>, order: Seq<usize>) -> bool {
    &&& order.len() == n
    &&& order.no_duplicates()
    &&& forall|i: int| 0 <= i < n ==> #[trigger] order[i] < n
    &&& forall|k: int, i: int| #![trigger edges[k], order[i]]
        0 <= k < edges.len() && 0 <= i < n && order[i] == edges[k].1
        ==> exists|j: int| 0 <= j < i && order[j] == edges[k].0
}

/// Whether the graph of `n` nodes joined by `edges` has a topological order: whether it is
/// acyclic.
pub open spec fn has_topological_order(n: nat, edges: Seq<(usize, usize)>) -> bool {
    exists|o: Seq<usize>| is_topological(n, edges, o)
}

/// Whether `walk`, a nonempty sequence of edge indices, is a closed walk: each edge ends where
/// the next one starts, and the last ends where the first starts.
pub open spec fn is_closed_walk(edges: Seq<(usize, usize)>, walk: Seq<int>) -> bool {
    &&& walk.len() > 0
    &&& forall|i: int| 0 <= i < walk.len() ==> 0 <= #[trigger] walk[i] < edges.len()
    &&& forall|i: int| 0 <= i < walk.len() ==> edges[#[trigger] walk[i]].1
        == edges[walk[if i + 1 < walk.len() { i + 1 } else { 0 }]].0
}

/// `rustworkx_core::dag_algo::lexicographical_topological_sort` on the graph of `n` nodes
/// joined by `edges`, each node keyed by its index, with no initial nodes.
///
/// The order is named by [`lexicographic_order`]. The function is Kahn's algorithm: it takes
/// nodes whose incoming edges have all been followed, least key first, so an order that lists
/// all `n` nodes lists each once, with the source of every edge before its target, and on an
/// acyclic graph every node is taken. With a key that cannot fail and no initial nodes it
/// reports no error: on a graph with a cycle it returns the nodes it could take, fewer than
/// `n`.
#[verifier::external_body]
fn topological_order(n: usize, edges: &Vec<(usize, usize)>) -> (order: Option<Vec<usize>>)
    requires
        n < index_limit(),
        edges.len() < index_limit(),
        forall|k: int| 0 <= k < edges.len() ==> #[trigger] edges[k].0 < n && edges[k].1 < n,
    ensures
        match order {
            Some(o) => lexicographic_order(n, edges@) == Some(o@),
            None => lexicographic_order(n, edges@) is None,
        },
        order matches Some(o) ==> (o.len() == n ==> is_topological(n as nat, edges@, o@)),
        order is Some,
        has_topological_order(n as nat, edges@) ==> order.unwrap().len() == n,
{
    let mut graph: DiGraph<(), ()> = DiGraph::new();
    for _ in 0..n {
        graph.add_node(());
    }
    for &(a, b) in edges.iter() {
        graph.add_edge(NodeIndex::new(a), NodeIndex::new(b), ());
    }
    let key = |v: NodeIndex| Ok::<usize, std::convert::Infallible>(v.index());
    let order = lexicographical_topological_sort(&graph, key, false, None);
    order.ok().map(|nodes| nodes.iter().map(|v| v.index()).collect())
}

// ---------------------------------------------------------------------------
// The plan
// ---------------------------------------------------------------------------

/// The order the program's nodes are visited in, where the topological sort lists them all.
pub open spec fn program_order(p: QuantumProgram) -> Option<Seq<usize>> {
    match lexicographic_order(p.nodes@.len() as usize, p.edge_pairs()) {
        Some(o) => if o.len() == p.nodes@.len() { Some(o) } else { None },
        None => None,
    }
}

/// What the heuristic reads of `p` under the categories.
pub open spec fn plan_input(p: QuantumProgram, categories: Seq<Vec<String>>) -> HeuristicInput {
    program_input(p, categories, program_order(p).unwrap())
}

/// The heuristic's colours and depths for `p`.
pub open spec fn final_plan(p: QuantumProgram, categories: Seq<Vec<String>>) -> Plan {
    plan_upto(plan_input(p, categories), p.nodes@.len())
}

/// The region of node `v`, none for an input source.
pub open spec fn region_of_node(p: QuantumProgram, categories: Seq<Vec<String>>, v: int) -> Option<usize> {
    region_spec(plan_input(p, categories), final_plan(p, categories), v as usize)
}

/// The number of regions.
pub open spec fn region_count(p: QuantumProgram, categories: Seq<Vec<String>>) -> nat {
    final_plan(p, categories).keys.len()
}

/// The members of region `r`, in the order the nodes are visited.
pub open spec fn members_of(p: QuantumProgram, categories: Seq<Vec<String>>, r: int) -> Seq<usize> {
    let input = plan_input(p, categories);
    region_members(input, final_plan(p, categories), input.topo, r as usize)
}

/// The colour of region `r`: a category's index, or the fallback `categories.len()`.
pub open spec fn colour_of(p: QuantumProgram, categories: Seq<Vec<String>>, r: int) -> usize {
    region_colour(final_plan(p, categories), r as usize)
}

/// Each source of an edge into `v` is the source of some edge into `v`.
proof fn lemma_sources_into(edges: Seq<Edge>, v: usize, k: int)
    requires
        0 <= k < sources_into(edges, v).len(),
    ensures
        exists|m: int| 0 <= m < edges.len() && #[trigger] edges[m].tgt == v && edges[m].src == sources_into(edges, v)[k],
    decreases edges.len(),
{
    let rest = sources_into(edges.drop_last(), v);
    if k < rest.len() {
        lemma_sources_into(edges.drop_last(), v, k);
        let m = choose|m: int| 0 <= m < edges.drop_last().len() && #[trigger] edges.drop_last()[m].tgt == v
            && edges.drop_last()[m].src == rest[k];
        assert(edges[m] == edges.drop_last()[m]);
    } else {
        assert(edges[edges.len() - 1].tgt == v);
    }
}

/// A well-formed program with an order gives the heuristic a well-formed input.
proof fn lemma_valid_plan_input(p: QuantumProgram, categories: Seq<Vec<String>>)
    requires
        p.wf(),
        program_order(p) is Some,
        is_topological(p.nodes@.len(), p.edge_pairs(), program_order(p).unwrap()),
        categories.len() < usize::MAX,
    ensures
        valid_input(plan_input(p, categories)),
{
    let input = plan_input(p, categories);
    let n = p.nodes@.len();
    let order = program_order(p).unwrap();
    let cats = category_names(categories);
    assert forall|v: int, k: int| 0 <= v < n && 0 <= k < input.preds[v].len() implies #[trigger] input.preds[v][k] < n by {
        lemma_sources_into(p.edges@, v as usize, k);
    }
    assert forall|i: int, k: int| 0 <= i < n && 0 <= k < input.preds[input.topo[i] as int].len()
        implies input.topo.take(i).contains(#[trigger] input.preds[input.topo[i] as int][k]) by {
        let v = input.topo[i];
        lemma_sources_into(p.edges@, v, k);
        let m = choose|m: int| 0 <= m < p.edges@.len() && #[trigger] p.edges@[m].tgt == v && p.edges@[m].src == sources_into(p.edges@, v)[k];
        let e = p.edge_pairs()[m];
        assert(e == (p.edges@[m].src, v));
        assert(order[i] == e.1);
        let j = choose|j: int| 0 <= j < i && order[j] == e.0;
        assert(input.topo.take(i)[j] == input.preds[input.topo[i] as int][k]);
    }
    assert forall|v: int, k: int| 0 <= v < n && 0 <= k < input.admissible[v].len()
        implies #[trigger] input.admissible[v][k] < input.n_colours by {
        lemma_listed_bounds(cats, kind_name(p.nodes@[v].kind), cats.len());
    }
    lemma_valid_input_intro(input);
}

/// Whether `hoisted` flags the input sources of `p` and `assignment` is the heuristic's
/// partition of `p` under the categories.
pub open spec fn planned(p: QuantumProgram, categories: Seq<Vec<String>>, hoisted: Seq<bool>, assignment: RegionAssignment) -> bool {
    let plan = final_plan(p, categories);
    let n = p.nodes@.len();
    &&& valid_input(plan_input(p, categories))
    &&& hoisted == source_flags(p)
    &&& assignment.region_of@ == region_table(p, categories)
    &&& assignment.members@.len() == plan.keys.len()
    &&& forall|r: int| 0 <= r < plan.keys.len() ==> #[trigger] assignment.members@[r]@ == members_of(p, categories, r)
    &&& assignment.colour_of_region@.len() == plan.keys.len()
    &&& forall|r: int| 0 <= r < plan.keys.len() ==> #[trigger] assignment.colour_of_region@[r] == colour_of(p, categories, r)
    &&& forall|v: int| 0 <= v < n && !hoisted[v] ==> (#[trigger] region_of_node(p, categories, v) matches Some(r)
        && r < plan.keys.len())
}

/// The heuristic's partition of the program, with the order it visited the nodes in and which
/// nodes are input sources; `None` where the program has no topological order.
fn plan_regions(p: &QuantumProgram, categories: &[Vec<String>]) -> (res: Option<(Vec<usize>, Vec<bool>, RegionAssignment)>)
    requires
        p.wf(),
        categories.len() < usize::MAX,
    ensures
        res is None <==> program_order(*p) is None,
        res is None <==> !has_topological_order(p.nodes@.len(), p.edge_pairs()),
        res matches Some((order, hoisted, assignment)) ==> order@ == plan_input(*p, categories@).topo
            && planned(*p, categories@, hoisted@, assignment),
{
    let n = p.nodes.len();
    let mut pairs: Vec<(usize, usize)> = Vec::new();
    for k in 0..p.edges.len()
        invariant
            pairs@ == p.edge_pairs().take(k as int),
    {
        pairs.push((p.edges[k].src, p.edges[k].tgt));
        assert(pairs@ =~= p.edge_pairs().take(k + 1));
    }
    assert(pairs@ =~= p.edge_pairs());
    let order = match topological_order(n, &pairs) {
        Some(order) => order,
        None => return None,
    };
    if order.len() != n {
        return None;
    }
    proof {
        assert(is_topological(n as nat, p.edge_pairs(), order@));
        lemma_valid_plan_input(*p, categories@);
    }
    let preds = incoming_sources(n, &p.edges);
    let admissible = admissible_colours(&p.nodes, categories);
    let hoisted = source_flag_table(p);
    let ghost input = plan_input(*p, categories@);
    proof {
        assert(heuristic_input(preds@, order@, admissible@, hoisted@, (categories.len() + 1) as usize).preds =~= input.preds);
        assert(heuristic_input(preds@, order@, admissible@, hoisted@, (categories.len() + 1) as usize).admissible =~= input.admissible);
    }
    let assignment = assign_regions(&preds, &order, &admissible, &hoisted, categories.len() + 1);
    assert(assignment.region_of@ =~= region_table(*p, categories@));
    Some((order, hoisted, assignment))
}

// ---------------------------------------------------------------------------
// The ports on region boundaries
// ---------------------------------------------------------------------------

/// Whether edge `e` joins two different regions (an input source counts as in none).
pub open spec fn crosses(region_of: Seq<Option<usize>>, e: Edge) -> bool {
    region_of[e.src as int] != region_of[e.tgt as int]
}

/// The input leaves fed by the first `m` edges that cross a region boundary.
pub open spec fn crossing_targets(p: QuantumProgram, region_of: Seq<Option<usize>>, m: int) -> Set<(usize, usize)> {
    Set::new(|x: (usize, usize)| exists|k: int| 0 <= k < m && crosses(region_of, #[trigger] p.edges@[k])
        && x == (p.edges@[k].tgt, p.edges@[k].to_leaf))
}

/// The output leaves, of nodes other than input sources, read by the first `m` edges that cross
/// a region boundary.
pub open spec fn crossing_sources(p: QuantumProgram, region_of: Seq<Option<usize>>, hoisted: Seq<bool>, m: int) -> Set<(usize, usize)> {
    Set::new(|x: (usize, usize)| exists|k: int| 0 <= k < m && crosses(region_of, #[trigger] p.edges@[k])
        && !hoisted[p.edges@[k].src as int] && x == (p.edges@[k].src, p.edges@[k].from_leaf))
}

/// The input leaves fed by the first `m` program inputs.
pub open spec fn input_leaves(p: QuantumProgram, m: int) -> Set<(usize, usize)> {
    Set::new(|x: (usize, usize)| exists|k: int| 0 <= k < m && x == (#[trigger] p.inputs@[k]).node_leaf())
}

/// The output leaves, of nodes other than input sources, read by the first `m` program outputs.
pub open spec fn output_leaves(p: QuantumProgram, hoisted: Seq<bool>, m: int) -> Set<(usize, usize)> {
    Set::new(|x: (usize, usize)| exists|k: int| 0 <= k < m && !hoisted[p.outputs@[k].node as int]
        && x == (#[trigger] p.outputs@[k]).node_leaf())
}

/// The input leaves fed from outside their region: by an edge that crosses a region boundary,
/// or by a program input. Each gets a key among its region's inputs.
pub open spec fn fed_from_outside(p: QuantumProgram, region_of: Seq<Option<usize>>) -> Set<(usize, usize)> {
    crossing_targets(p, region_of, p.edges@.len() as int) + input_leaves(p, p.inputs@.len() as int)
}

/// The output leaves, of nodes other than input sources, read from outside their region: by an
/// edge that crosses a region boundary, or as a program output. Each gets a key among its
/// region's outputs.
pub open spec fn read_from_outside(p: QuantumProgram, region_of: Seq<Option<usize>>, hoisted: Seq<bool>) -> Set<(usize, usize)> {
    crossing_sources(p, region_of, hoisted, p.edges@.len() as int) + output_leaves(p, hoisted, p.outputs@.len() as int)
}

/// The leaves on the boundary of regions: fed from outside (first) and read from outside
/// (second).
fn boundary_leaves(p: &QuantumProgram, region_of: &Vec<Option<usize>>, hoisted: &Vec<bool>) -> (sets: (PairSet, PairSet))
    requires
        p.wf(),
        region_of.len() == p.nodes.len(),
        hoisted.len() == p.nodes.len(),
    ensures
        pair_set_contents(sets.0) == fed_from_outside(*p, region_of@),
        pair_set_contents(sets.1) == read_from_outside(*p, region_of@, hoisted@),
{
    let mut needs_in = PairSet::new();
    let mut needs_out = PairSet::new();
    for k in 0..p.edges.len()
        invariant
            p.wf(),
            region_of.len() == p.nodes.len(),
            hoisted.len() == p.nodes.len(),
            pair_set_contents(needs_in) == crossing_targets(*p, region_of@, k as int),
            pair_set_contents(needs_out) == crossing_sources(*p, region_of@, hoisted@, k as int),
    {
        let e = p.edges[k];
        if region_of[e.src] != region_of[e.tgt] {
            if !hoisted[e.src] {
                needs_out.insert((e.src, e.from_leaf));
            }
            needs_in.insert((e.tgt, e.to_leaf));
        }
        proof {
            assert(pair_set_contents(needs_in) =~= crossing_targets(*p, region_of@, k + 1));
            assert(pair_set_contents(needs_out) =~= crossing_sources(*p, region_of@, hoisted@, k + 1));
        }
    }
    let ghost crossing_in = pair_set_contents(needs_in);
    for k in 0..p.inputs.len()
        invariant
            pair_set_contents(needs_in) == crossing_in + input_leaves(*p, k as int),
    {
        needs_in.insert((p.inputs[k].node, p.inputs[k].leaf));
        assert(pair_set_contents(needs_in) =~= crossing_in + input_leaves(*p, k + 1));
    }
    let ghost crossing_out = pair_set_contents(needs_out);
    for k in 0..p.outputs.len()
        invariant
            p.wf(),
            hoisted.len() == p.nodes.len(),
            pair_set_contents(needs_out) == crossing_out + output_leaves(*p, hoisted@, k as int),
    {
        let b = &p.outputs[k];
        if !hoisted[b.node] {
            needs_out.insert((b.node, b.leaf));
        }
        assert(pair_set_contents(needs_out) =~= crossing_out + output_leaves(*p, hoisted@, k + 1));
    }
    (needs_in, needs_out)
}

/// The paths of a node's input leaves, or of its output leaves.
pub open spec fn leaf_paths_on(node: GraphNode, input_side: bool) -> Seq<Vec<PathEntry>> {
    if input_side { node.input_leaf_paths@ } else { node.output_leaf_paths@ }
}

/// The types of a node's input leaves, or of its output leaves.
pub open spec fn leaf_types_on(node: GraphNode, input_side: bool) -> Seq<TensorType> {
    if input_side { node.input_leaf_types@ } else { node.output_leaf_types@ }
}

/// The types of the leaves `leaves` of `nodes`, each by its view.
pub open spec fn leaf_type_views(nodes: Seq<GraphNode>, leaves: Seq<(usize, usize)>, input_side: bool) -> Seq<(DTypeLike, Seq<Dim>, bool)> {
    Seq::new(leaves.len(), |i: int| leaf_types_on(nodes[leaves[i].0 as int], input_side)[leaves[i].1 as int]@)
}

/// The leaves of node `v`, among the first `count`, that `needs` holds, in order.
pub open spec fn needed_leaves(v: usize, count: nat, needs: Set<(usize, usize)>) -> Seq<(usize, usize)>
    decreases count,
{
    if count == 0 {
        Seq::empty()
    } else {
        let rest = needed_leaves(v, (count - 1) as nat, needs);
        if needs.contains((v, (count - 1) as usize)) { rest.push((v, (count - 1) as usize)) } else { rest }
    }
}

/// The boundary leaves on one side of the nodes `members`: member by member, and each member's
/// leaves in order.
pub open spec fn boundary_of(nodes: Seq<GraphNode>, members: Seq<usize>, needs: Set<(usize, usize)>, input_side: bool) -> Seq<(usize, usize)>
    decreases members.len(),
{
    if members.len() == 0 {
        Seq::empty()
    } else {
        let v = members.last();
        boundary_of(nodes, members.drop_last(), needs, input_side)
            + needed_leaves(v, leaf_paths_on(nodes[v as int], input_side).len(), needs)
    }
}

/// The label and path of the port at a leaf.
pub open spec fn leaf_port(nodes: Seq<GraphNode>, x: (usize, usize), input_side: bool) -> (Seq<char>, Seq<EntryView>) {
    (nodes[x.0 as int].label@, path_view(leaf_paths_on(nodes[x.0 as int], input_side)[x.1 as int]@))
}

/// The plain keys of the ports at `leaves`.
pub open spec fn port_bases(nodes: Seq<GraphNode>, leaves: Seq<(usize, usize)>, input_side: bool) -> Seq<Seq<char>> {
    Seq::new(leaves.len(), |i: int| port_key_text(leaf_port(nodes, leaves[i], input_side).0, leaf_port(nodes, leaves[i], input_side).1))
}

/// The region keys and ports of the leaves `leaves`, in order.
pub open spec fn port_entries(nodes: Seq<GraphNode>, leaves: Seq<(usize, usize)>, input_side: bool) -> Seq<(Seq<char>, (Seq<char>, Seq<EntryView>))> {
    let keys = unique_keys(port_bases(nodes, leaves, input_side));
    Seq::new(leaves.len(), |i: int| (keys[i], leaf_port(nodes, leaves[i], input_side)))
}

/// Keyed ports as the spec sees them.
pub open spec fn entries_of(ports: Seq<(String, Port)>) -> Seq<(Seq<char>, (Seq<char>, Seq<EntryView>))> {
    Seq::new(ports.len(), |i: int| (ports[i].0@, port_view(ports[i].1)))
}

/// The leaves `needed_leaves` lists are those of `v` below `count` that `needs` holds.
proof fn lemma_needed_leaves(v: usize, count: nat, needs: Set<(usize, usize)>)
    ensures
        forall|x: (usize, usize)| #[trigger] needed_leaves(v, count, needs).contains(x)
            <==> (x.0 == v && x.1 < count && needs.contains(x)),
    decreases count,
{
    if count > 0 {
        lemma_needed_leaves(v, (count - 1) as nat, needs);
        let rest = needed_leaves(v, (count - 1) as nat, needs);
        let x0 = (v, (count - 1) as usize);
        assert forall|x: (usize, usize)| #[trigger] needed_leaves(v, count, needs).contains(x)
            <==> (x.0 == v && x.1 < count && needs.contains(x)) by {
            if x.0 == v && x.1 == count - 1 {
                assert(x == x0);
            }
            if needs.contains(x0) {
                assert(needed_leaves(v, count, needs) == rest.push(x0));
                lemma_push_contains(rest, x0, x);
            } else {
                assert(needed_leaves(v, count, needs) == rest);
            }
        }
    }
}

/// What two sequences joined hold: what either holds.
proof fn lemma_concat_contains<A>(a: Seq<A>, b: Seq<A>, x: A)
    ensures
        (a + b).contains(x) == (a.contains(x) || b.contains(x)),
{
    if (a + b).contains(x) {
        let j = choose|j: int| 0 <= j < (a + b).len() && (a + b)[j] == x;
        if j < a.len() {
            assert(a[j] == x);
        } else {
            assert(b[j - a.len()] == x);
        }
    }
    if a.contains(x) {
        let j = choose|j: int| 0 <= j < a.len() && a[j] == x;
        assert((a + b)[j] == x);
    }
    if b.contains(x) {
        let j = choose|j: int| 0 <= j < b.len() && b[j] == x;
        assert((a + b)[a.len() + j] == x);
    }
}

/// What a sequence holds after a push: what it held, and the new element.
proof fn lemma_push_contains<A>(s: Seq<A>, a: A, x: A)
    ensures
        s.push(a).contains(x) == (s.contains(x) || x == a),
{
    if s.push(a).contains(x) {
        let j = choose|j: int| 0 <= j < s.push(a).len() && s.push(a)[j] == x;
        if j < s.len() {
            assert(s[j] == x);
        }
    }
    if s.contains(x) {
        let j = choose|j: int| 0 <= j < s.len() && s[j] == x;
        assert(s.push(a)[j] == x);
    }
    if x == a {
        assert(s.push(a)[s.len() as int] == x);
    }
}

/// The boundary leaves of `members` are the leaves of members that `needs` holds.
proof fn lemma_boundary_of(nodes: Seq<GraphNode>, members: Seq<usize>, needs: Set<(usize, usize)>, input_side: bool)
    ensures
        forall|x: (usize, usize)| #[trigger] boundary_of(nodes, members, needs, input_side).contains(x)
            <==> (members.contains(x.0) && x.1 < leaf_paths_on(nodes[x.0 as int], input_side).len() && needs.contains(x)),
    decreases members.len(),
{
    if members.len() > 0 {
        let v = members.last();
        let front = members.drop_last();
        lemma_boundary_of(nodes, front, needs, input_side);
        let a = boundary_of(nodes, front, needs, input_side);
        let b = needed_leaves(v, leaf_paths_on(nodes[v as int], input_side).len(), needs);
        lemma_needed_leaves(v, leaf_paths_on(nodes[v as int], input_side).len(), needs);
        assert forall|x: (usize, usize)| #[trigger] boundary_of(nodes, members, needs, input_side).contains(x)
            <==> (members.contains(x.0) && x.1 < leaf_paths_on(nodes[x.0 as int], input_side).len() && needs.contains(x)) by {
            let all = a + b;
            if all.contains(x) {
                let j = choose|j: int| 0 <= j < all.len() && all[j] == x;
                if j < a.len() {
                    assert(a[j] == x);
                    assert(a.contains(x));
                    let m = choose|m: int| 0 <= m < front.len() && front[m] == x.0;
                    assert(members[m] == x.0);
                } else {
                    assert(b[j - a.len()] == x);
                    assert(b.contains(x));
                    assert(members[members.len() - 1] == x.0);
                }
            }
            if members.contains(x.0) && x.1 < leaf_paths_on(nodes[x.0 as int], input_side).len() && needs.contains(x) {
                let m = choose|m: int| 0 <= m < members.len() && members[m] == x.0;
                if m < members.len() - 1 {
                    assert(front[m] == x.0);
                    assert(a.contains(x));
                    let j = choose|j: int| 0 <= j < a.len() && a[j] == x;
                    assert(all[j] == x);
                } else {
                    assert(b.contains(x));
                    let j = choose|j: int| 0 <= j < b.len() && b[j] == x;
                    assert(all[a.len() + j] == x);
                }
            }
        }
    }
}

/// Whether `map` holds each leaf of `leaves` at its position, and what `start` held for any
/// other leaf.
pub open spec fn recorded(map: Map<(usize, usize), usize>, leaves: Seq<(usize, usize)>, start: Map<(usize, usize), usize>) -> bool {
    &&& forall|t: int| 0 <= t < leaves.len() ==> map.get(#[trigger] leaves[t]) == Some(t as usize)
    &&& forall|x: (usize, usize)| !leaves.contains(x) ==> #[trigger] map.get(x) == start.get(x)
}

/// The keyed ports on one side of the region whose members are `members`, in order; the
/// position of each port's leaf is recorded in `positions`.
fn region_ports(
    nodes: &Vec<GraphNode>,
    members: &Vec<usize>,
    needs: &PairSet,
    input_side: bool,
    positions: &mut PairIndex,
) -> (res: (Vec<(String, Port)>, Vec<(usize, usize)>))
    requires
        forall|i: int| 0 <= i < members.len() ==> #[trigger] members[i] < nodes.len(),
        members@.no_duplicates(),
    ensures
        res.1@ == boundary_of(nodes@, members@, pair_set_contents(*needs), input_side),
        entries_of(res.0@) == port_entries(nodes@, boundary_of(nodes@, members@, pair_set_contents(*needs), input_side), input_side),
        recorded(pair_index_contents(*final(positions)), boundary_of(nodes@, members@, pair_set_contents(*needs), input_side),
            pair_index_contents(*old(positions))),
{
    let ghost needs_s = pair_set_contents(*needs);
    let ghost start = pair_index_contents(*positions);
    let mut ports: Vec<(String, Port)> = Vec::new();
    let mut leaves: Vec<(usize, usize)> = Vec::new();
    let mut seen = NameSet::new();
    proof {
        assert(members@.take(0) =~= Seq::<usize>::empty());
        assert(unique_keys(port_bases(nodes@, Seq::empty(), input_side)).to_set() =~= Set::<Seq<char>>::empty());
        assert(entries_of(ports@) =~= port_entries(nodes@, Seq::empty(), input_side));
    }
    for i in 0..members.len()
        invariant
            needs_s == pair_set_contents(*needs),
            start == pair_index_contents(*old(positions)),
            forall|j: int| 0 <= j < members.len() ==> #[trigger] members[j] < nodes.len(),
            members@.no_duplicates(),
            leaves@ == boundary_of(nodes@, members@.take(i as int), needs_s, input_side),
            entries_of(ports@) == port_entries(nodes@, boundary_of(nodes@, members@.take(i as int), needs_s, input_side), input_side),
            name_set_contents(seen) == unique_keys(port_bases(nodes@, boundary_of(nodes@, members@.take(i as int), needs_s, input_side), input_side)).to_set(),
            recorded(pair_index_contents(*positions), boundary_of(nodes@, members@.take(i as int), needs_s, input_side), start),
    {
        let v = members[i];
        let node = &nodes[v];
        let paths = if input_side { &node.input_leaf_paths } else { &node.output_leaf_paths };
        let ghost before = boundary_of(nodes@, members@.take(i as int), needs_s, input_side);
        proof {
            assert(members@.take(i + 1).drop_last() =~= members@.take(i as int));
            assert(members@.take(i + 1).last() == v);
            lemma_boundary_of(nodes@, members@.take(i as int), needs_s, input_side);
            assert(!members@.take(i as int).contains(v)) by {
                if members@.take(i as int).contains(v) {
                    let m = choose|m: int| 0 <= m < i && members@.take(i as int)[m] == v;
                    assert(members[m] == members[i as int]);
                }
            }
            assert(before + needed_leaves(v, 0, needs_s) =~= before);
            assert forall|x: (usize, usize)| #[trigger] before.contains(x) implies x.0 != v by {
                assert(members@.take(i as int).contains(x.0));
            }
        }
        for leaf in 0..paths.len()
            invariant
                needs_s == pair_set_contents(*needs),
                start == pair_index_contents(*old(positions)),
                paths@ == leaf_paths_on(nodes@[v as int], input_side),
                node == nodes@[v as int],
                before == boundary_of(nodes@, members@.take(i as int), needs_s, input_side),
                forall|x: (usize, usize)| #[trigger] before.contains(x) ==> x.0 != v,
                leaves@ == before + needed_leaves(v, leaf as nat, needs_s),
                entries_of(ports@) == port_entries(nodes@, before + needed_leaves(v, leaf as nat, needs_s), input_side),
                name_set_contents(seen) == unique_keys(port_bases(nodes@, before + needed_leaves(v, leaf as nat, needs_s), input_side)).to_set(),
                recorded(pair_index_contents(*positions), before + needed_leaves(v, leaf as nat, needs_s), start),
        {
            let ghost done = before + needed_leaves(v, leaf as nat, needs_s);
            proof {
                lemma_needed_leaves(v, leaf as nat, needs_s);
            }
            if needs.contains((v, leaf)) {
                let x = (v, leaf);
                let ghost bases = port_bases(nodes@, done, input_side);
                let ghost keys = unique_keys(bases);
                let base = port_key(node.label.as_str(), &paths[leaf]);
                let n_ports = ports.len();
                proof {
                    keys.lemma_cardinality_of_set();
                    lemma_unique_keys_len(bases);
                    assert(keys.len() == done.len());
                    assert(done.len() == entries_of(ports@).len());
                    assert(entries_of(ports@).len() == ports@.len());
                    assert(ports@.len() == n_ports);
                    assert(name_set_contents(seen) == keys.to_set());
                    assert(keys.to_set().len() <= keys.len());
                }
                let key = unique_port_key(&mut seen, base);
                let ghost old_map = pair_index_contents(*positions);
                positions.insert(x, n_ports);
                let label = node.label.clone();
                let path = copy_path(&paths[leaf]);
                let ghost old_ports = ports@;
                ports.push((key, Port { label, path }));
                leaves.push(x);
                proof {
                    let next = done.push(x);
                    assert(before + needed_leaves(v, (leaf + 1) as nat, needs_s) =~= next);
                    assert(!done.contains(x)) by {
                        lemma_concat_contains(before, needed_leaves(v, leaf as nat, needs_s), x);
                    }
                    let bases2 = port_bases(nodes@, next, input_side);
                    assert(bases2 =~= bases.push(bases2.last()));
                    assert(bases2.drop_last() =~= bases);
                    let keys2 = unique_keys(bases2);
                    assert(keys2 == keys.push(key@));
                    assert forall|k: Seq<char>| keys2.to_set().contains(k) == keys.to_set().insert(key@).contains(k) by {
                        lemma_push_contains(keys, key@, k);
                    }
                    assert(keys2.to_set() =~= keys.to_set().insert(key@));
                    assert forall|j: int| 0 <= j < next.len() implies #[trigger] entries_of(ports@)[j] == port_entries(nodes@, next, input_side)[j] by {
                        if j < done.len() {
                            assert(entries_of(old_ports)[j] == port_entries(nodes@, done, input_side)[j]);
                            assert(keys2[j] == keys[j]);
                        }
                    }
                    assert(entries_of(ports@) =~= port_entries(nodes@, next, input_side));
                    assert forall|t: int| 0 <= t < next.len() implies pair_index_contents(*positions).get(#[trigger] next[t]) == Some(t as usize) by {
                        if t < done.len() {
                            assert(next[t] == done[t]);
                            assert(done.contains(done[t]));
                        }
                    }
                    assert forall|y: (usize, usize)| !next.contains(y) implies #[trigger] pair_index_contents(*positions).get(y) == start.get(y) by {
                        lemma_push_contains(done, x, y);
                        assert(old_map.get(y) == start.get(y));
                    }
                    assert(recorded(pair_index_contents(*positions), next, start));
                }
            } else {
                proof {
                    assert(before + needed_leaves(v, (leaf + 1) as nat, needs_s) =~= done);
                }
            }
        }
        proof {
            assert(before + needed_leaves(v, leaf_paths_on(nodes@[v as int], input_side).len(), needs_s)
                == boundary_of(nodes@, members@.take(i + 1), needs_s, input_side));
        }
    }
    proof {
        assert(members@.take(members.len() as int) =~= members@);
    }
    (ports, leaves)
}

// ---------------------------------------------------------------------------
// Regions
// ---------------------------------------------------------------------------

/// One region of a contracted program.
pub struct ProgramRegion {
    /// The region node's label in the contracted program.
    pub label: String,
    /// The index of the region's category, or `None` for nodes whose type no category lists.
    pub category: Option<usize>,
    /// The labels of the region's nodes in the program before contraction, in the order they are
    /// run.
    pub members: Vec<String>,
    /// The region program's input keys, each with the member input port it feeds, in the leaf
    /// order of the region node's inputs.
    pub input_ports: Vec<(String, Port)>,
    /// The region program's output keys, each with the member output port it comes from, in
    /// the leaf order of the region node's outputs.
    pub output_ports: Vec<(String, Port)>,
}

/// A [`ProgramRegion`] as the spec sees it.
pub struct RegionView {
    pub label: Seq<char>,
    pub category: Option<usize>,
    pub members: Seq<Seq<char>>,
    pub input_ports: Seq<(Seq<char>, (Seq<char>, Seq<EntryView>))>,
    pub output_ports: Seq<(Seq<char>, (Seq<char>, Seq<EntryView>))>,
}

impl View for ProgramRegion {
    type V = RegionView;

    open spec fn view(&self) -> RegionView {
        RegionView {
            label: self.label@,
            category: self.category,
            members: Seq::new(self.members@.len(), |i: int| self.members@[i]@),
            input_ports: entries_of(self.input_ports@),
            output_ports: entries_of(self.output_ports@),
        }
    }
}

/// The label of region `r`: `region_` and the number.
pub open spec fn region_label(r: nat) -> Seq<char> {
    "region_"@ + decimal(r)
}

/// The category of a region of colour `colour`: none for the fallback colour.
pub open spec fn category_of_colour(colour: usize, n_categories: nat) -> Option<usize> {
    if colour == n_categories { None } else { Some(colour) }
}

/// The region of each node.
pub open spec fn region_table(p: QuantumProgram, categories: Seq<Vec<String>>) -> Seq<Option<usize>> {
    Seq::new(p.nodes@.len(), |v: int| region_of_node(p, categories, v))
}

/// The boundary leaves on one side of region `r`.
pub open spec fn region_boundary(p: QuantumProgram, categories: Seq<Vec<String>>, r: int, input_side: bool) -> Seq<(usize, usize)> {
    let needs = if input_side {
        fed_from_outside(p, region_table(p, categories))
    } else {
        read_from_outside(p, region_table(p, categories), source_flags(p))
    };
    boundary_of(p.nodes@, members_of(p, categories, r), needs, input_side)
}

/// Region `r` of `p` under the categories.
pub open spec fn expected_region(p: QuantumProgram, categories: Seq<Vec<String>>, r: int) -> RegionView {
    let members = members_of(p, categories, r);
    RegionView {
        label: region_label(r as nat),
        category: category_of_colour(colour_of(p, categories, r), categories.len()),
        members: Seq::new(members.len(), |i: int| p.nodes@[members[i] as int].label@),
        input_ports: port_entries(p.nodes@, region_boundary(p, categories, r, true), true),
        output_ports: port_entries(p.nodes@, region_boundary(p, categories, r, false), false),
    }
}

/// The members of a region are the nodes of the order in that region, each once.
proof fn lemma_region_members(input: HeuristicInput, plan: Plan, nodes: Seq<usize>, r: usize)
    requires
        nodes.no_duplicates(),
    ensures
        forall|v: usize| #[trigger] region_members(input, plan, nodes, r).contains(v)
            <==> nodes.contains(v) && region_spec(input, plan, v) == Some(r),
        region_members(input, plan, nodes, r).no_duplicates(),
    decreases nodes.len(),
{
    if nodes.len() > 0 {
        let front = nodes.drop_last();
        let v0 = nodes.last();
        assert(front.no_duplicates()) by {
            assert forall|i: int, j: int| 0 <= i < front.len() && 0 <= j < front.len() && i != j implies front[i] != front[j] by {
                assert(nodes[i] != nodes[j]);
            }
        }
        lemma_region_members(input, plan, front, r);
        let rest = region_members(input, plan, front, r);
        assert(!front.contains(v0)) by {
            if front.contains(v0) {
                let j = choose|j: int| 0 <= j < front.len() && front[j] == v0;
                assert(nodes[j] == nodes[nodes.len() - 1]);
            }
        }
        assert(nodes == front.push(v0));
        assert forall|v: usize| #[trigger] region_members(input, plan, nodes, r).contains(v)
            <==> nodes.contains(v) && region_spec(input, plan, v) == Some(r) by {
            lemma_push_contains(front, v0, v);
            lemma_push_contains(rest, v0, v);
        }
        if region_spec(input, plan, v0) == Some(r) {
            assert(!rest.contains(v0));
            assert forall|i: int, j: int| 0 <= i < rest.push(v0).len() && 0 <= j < rest.push(v0).len() && i != j
                implies rest.push(v0)[i] != rest.push(v0)[j] by {
                if i < rest.len() && j < rest.len() {
                } else if i < rest.len() {
                    assert(rest.contains(rest[i]));
                } else if j < rest.len() {
                    assert(rest.contains(rest[j]));
                }
            }
        }
    }
}

/// The label of region `r`.
fn region_label_string(r: usize) -> (label: String)
    ensures
        label@ == region_label(r as nat),
{
    let mut label = String::from_str("region_");
    push_decimal(&mut label, r);
    label
}

/// The labels of the nodes `members`.
fn member_labels(nodes: &Vec<GraphNode>, members: &Vec<usize>) -> (labels: Vec<String>)
    requires
        forall|i: int| 0 <= i < members.len() ==> #[trigger] members[i] < nodes.len(),
    ensures
        labels@.len() == members@.len(),
        forall|i: int| 0 <= i < members.len() ==> #[trigger] labels@[i]@ == nodes@[members@[i] as int].label@,
{
    let mut labels: Vec<String> = Vec::new();
    for i in 0..members.len()
        invariant
            forall|j: int| 0 <= j < members.len() ==> #[trigger] members[j] < nodes.len(),
            labels@.len() == i,
            forall|j: int| 0 <= j < i ==> #[trigger] labels@[j]@ == nodes@[members@[j] as int].label@,
    {
        labels.push(nodes[members[i]].label.clone());
    }
    labels
}

/// The members of each region are distinct nodes of the program.
proof fn lemma_members_valid(p: QuantumProgram, categories: Seq<Vec<String>>, r: int)
    requires
        p.wf(),
        valid_input(plan_input(p, categories)),
    ensures
        members_of(p, categories, r).no_duplicates(),
        forall|i: int| 0 <= i < members_of(p, categories, r).len() ==> #[trigger] members_of(p, categories, r)[i] < p.nodes@.len(),
        forall|v: usize| #[trigger] members_of(p, categories, r).contains(v) <==> v < p.nodes@.len() && region_of_node(p, categories, v as int) == Some(r as usize),
{
    let input = plan_input(p, categories);
    let plan = final_plan(p, categories);
    lemma_region_members(input, plan, input.topo, r as usize);
    crate::quantum_program::heuristic::lemma_order_covers(input.topo, p.nodes@.len());
    let m = members_of(p, categories, r);
    assert forall|i: int| 0 <= i < m.len() implies #[trigger] m[i] < p.nodes@.len() by {
        assert(m.contains(m[i]));
        let j = choose|j: int| 0 <= j < input.topo.len() && input.topo[j] == m[i];
    }
    assert forall|v: usize| #[trigger] m.contains(v) <==> v < p.nodes@.len() && region_of_node(p, categories, v as int) == Some(r as usize) by {
        if m.contains(v) {
            let j = choose|j: int| 0 <= j < input.topo.len() && input.topo[j] == v;
        }
    }
}

/// The regions of the program, described; and the position of each boundary leaf among its
/// region's input ports (first) and output ports (second).
fn describe_regions(
    p: &QuantumProgram,
    categories: &[Vec<String>],
    hoisted: &Vec<bool>,
    assignment: &RegionAssignment,
    needs_in: &PairSet,
    needs_out: &PairSet,
) -> (res: (Vec<ProgramRegion>, PairIndex, PairIndex, Vec<Vec<(usize, usize)>>, Vec<Vec<(usize, usize)>>))
    requires
        p.wf(),
        planned(*p, categories@, hoisted@, *assignment),
        pair_set_contents(*needs_in) == fed_from_outside(*p, region_table(*p, categories@)),
        pair_set_contents(*needs_out) == read_from_outside(*p, region_table(*p, categories@), source_flags(*p)),
    ensures
        res.0@.len() == region_count(*p, categories@),
        forall|r: int| 0 <= r < region_count(*p, categories@) ==> #[trigger] res.0@[r]@ == expected_region(*p, categories@, r),
        res.3@.len() == region_count(*p, categories@),
        forall|r: int| 0 <= r < region_count(*p, categories@) ==> #[trigger] res.3@[r]@ == region_boundary(*p, categories@, r, true),
        res.4@.len() == region_count(*p, categories@),
        forall|r: int| 0 <= r < region_count(*p, categories@) ==> #[trigger] res.4@[r]@ == region_boundary(*p, categories@, r, false),
        forall|r: int, t: int| 0 <= r < region_count(*p, categories@) && 0 <= t < region_boundary(*p, categories@, r, true).len()
            ==> pair_index_contents(res.1).get(#[trigger] region_boundary(*p, categories@, r, true)[t]) == Some(t as usize),
        forall|r: int, t: int| 0 <= r < region_count(*p, categories@) && 0 <= t < region_boundary(*p, categories@, r, false).len()
            ==> pair_index_contents(res.2).get(#[trigger] region_boundary(*p, categories@, r, false)[t]) == Some(t as usize),
{
    let ghost cats = categories@;
    let n_regions = assignment.members.len();
    let mut regions: Vec<ProgramRegion> = Vec::new();
    let mut in_pos = PairIndex::new();
    let mut out_pos = PairIndex::new();
    let mut in_leaves: Vec<Vec<(usize, usize)>> = Vec::new();
    let mut out_leaves: Vec<Vec<(usize, usize)>> = Vec::new();
    for r in 0..n_regions
        invariant
            p.wf(),
            planned(*p, cats, hoisted@, *assignment),
            cats == categories@,
            n_regions == region_count(*p, cats),
            pair_set_contents(*needs_in) == fed_from_outside(*p, region_table(*p, cats)),
            pair_set_contents(*needs_out) == read_from_outside(*p, region_table(*p, cats), source_flags(*p)),
            regions@.len() == r,
            forall|q: int| 0 <= q < r ==> #[trigger] regions@[q]@ == expected_region(*p, cats, q),
            in_leaves@.len() == r,
            forall|q: int| 0 <= q < r ==> #[trigger] in_leaves@[q]@ == region_boundary(*p, cats, q, true),
            out_leaves@.len() == r,
            forall|q: int| 0 <= q < r ==> #[trigger] out_leaves@[q]@ == region_boundary(*p, cats, q, false),
            forall|q: int, t: int| 0 <= q < r && 0 <= t < region_boundary(*p, cats, q, true).len()
                ==> pair_index_contents(in_pos).get(#[trigger] region_boundary(*p, cats, q, true)[t]) == Some(t as usize),
            forall|q: int, t: int| 0 <= q < r && 0 <= t < region_boundary(*p, cats, q, false).len()
                ==> pair_index_contents(out_pos).get(#[trigger] region_boundary(*p, cats, q, false)[t]) == Some(t as usize),
            forall|x: (usize, usize)| x.0 < p.nodes@.len() && (#[trigger] region_of_node(*p, cats, x.0 as int) matches Some(q) && q >= r)
                ==> pair_index_contents(in_pos).get(x) is None && pair_index_contents(out_pos).get(x) is None,
    {
        let members = &assignment.members[r];
        proof {
            lemma_members_valid(*p, cats, r as int);
        }
        let ghost in_before = pair_index_contents(in_pos);
        let ghost out_before = pair_index_contents(out_pos);
        let (input_ports, inputs_at) = region_ports(&p.nodes, members, needs_in, true, &mut in_pos);
        let (output_ports, outputs_at) = region_ports(&p.nodes, members, needs_out, false, &mut out_pos);
        in_leaves.push(inputs_at);
        out_leaves.push(outputs_at);
        let label = region_label_string(r);
        let colour = assignment.colour_of_region[r];
        let category = if colour == categories.len() { None } else { Some(colour) };
        let labels = member_labels(&p.nodes, members);
        let region = ProgramRegion { label, category, members: labels, input_ports, output_ports };
        regions.push(region);
        proof {
            let bi = region_boundary(*p, cats, r as int, true);
            let bo = region_boundary(*p, cats, r as int, false);
            lemma_boundary_of(p.nodes@, members_of(*p, cats, r as int), fed_from_outside(*p, region_table(*p, cats)), true);
            lemma_boundary_of(p.nodes@, members_of(*p, cats, r as int), read_from_outside(*p, region_table(*p, cats), source_flags(*p)), false);
            assert(regions@[r as int]@.members =~= expected_region(*p, cats, r as int).members);
            assert forall|q: int, t: int| 0 <= q < r + 1 && 0 <= t < region_boundary(*p, cats, q, true).len()
                implies pair_index_contents(in_pos).get(#[trigger] region_boundary(*p, cats, q, true)[t]) == Some(t as usize) by {
                if q < r {
                    let x = region_boundary(*p, cats, q, true)[t];
                    lemma_members_valid(*p, cats, q);
                    lemma_boundary_of(p.nodes@, members_of(*p, cats, q), fed_from_outside(*p, region_table(*p, cats)), true);
                    assert(region_boundary(*p, cats, q, true).contains(x));
                    assert(!bi.contains(x));
                }
            }
            assert forall|q: int, t: int| 0 <= q < r + 1 && 0 <= t < region_boundary(*p, cats, q, false).len()
                implies pair_index_contents(out_pos).get(#[trigger] region_boundary(*p, cats, q, false)[t]) == Some(t as usize) by {
                if q < r {
                    let x = region_boundary(*p, cats, q, false)[t];
                    lemma_members_valid(*p, cats, q);
                    lemma_boundary_of(p.nodes@, members_of(*p, cats, q), read_from_outside(*p, region_table(*p, cats), source_flags(*p)), false);
                    assert(region_boundary(*p, cats, q, false).contains(x));
                    assert(!bo.contains(x));
                }
            }
            assert forall|x: (usize, usize)| x.0 < p.nodes@.len() && (#[trigger] region_of_node(*p, cats, x.0 as int) matches Some(q) && q >= r + 1)
                implies pair_index_contents(in_pos).get(x) is None && pair_index_contents(out_pos).get(x) is None by {
                assert(!bi.contains(x));
                assert(!bo.contains(x));
            }
        }
    }
    (regions, in_pos, out_pos, in_leaves, out_leaves)
}

// ---------------------------------------------------------------------------
// The contracted program
// ---------------------------------------------------------------------------

/// The result of [`QuantumProgram::into_regions`].
pub struct ContractedProgram {
    /// A program equivalent to the one consumed, whose nodes are the input sources, moved over
    /// under their labels, followed by one nested program per region.
    pub program: QuantumProgram,
    /// One entry per region, in an order in which no region depends on a later one.
    pub regions: Vec<ProgramRegion>,
}

/// Errors returned by [`QuantumProgram::into_regions`].
#[derive(Debug, PartialEq, Eq)]
pub enum ContractionError {
    /// The program's graph has no topological order: it contains a cycle.
    Cycle,
}

/// The position of `v` in `s`.
pub open spec fn position_in(s: Seq<usize>, v: usize) -> int {
    choose|i: int| 0 <= i < s.len() && s[i] == v
}

/// The position of the leaf `x` in `leaves`.
pub open spec fn leaf_position(leaves: Seq<(usize, usize)>, x: (usize, usize)) -> int {
    choose|t: int| 0 <= t < leaves.len() && leaves[t] == x
}

/// The position, among the input sources, of node `v`.
pub open spec fn source_position(p: QuantumProgram, v: usize) -> int {
    choose|k: int| 0 <= k < p.input_sources@.len() && p.input_sources@[k].node == v
}

/// The node and leaf of the contracted program that produce output leaf `leaf` of node `v`: the
/// region's output port, or the moved input source itself.
pub open spec fn outer_source(p: QuantumProgram, categories: Seq<Vec<String>>, v: usize, leaf: usize) -> (usize, usize) {
    match region_of_node(p, categories, v as int) {
        Some(r) => ((p.input_sources@.len() + r) as usize, leaf_position(region_boundary(p, categories, r as int, false), (v, leaf)) as usize),
        None => (source_position(p, v) as usize, leaf),
    }
}

/// The node and leaf of the contracted program that consume input leaf `leaf` of node `v`: the
/// region's input port.
pub open spec fn outer_target(p: QuantumProgram, categories: Seq<Vec<String>>, v: usize, leaf: usize) -> (usize, usize) {
    let r = region_of_node(p, categories, v as int).unwrap();
    ((p.input_sources@.len() + r) as usize, leaf_position(region_boundary(p, categories, r as int, true), (v, leaf)) as usize)
}

/// The edge `e` of `p` as an edge of the contracted program.
pub open spec fn outer_edge(p: QuantumProgram, categories: Seq<Vec<String>>, e: Edge) -> Edge {
    let from = outer_source(p, categories, e.src, e.from_leaf);
    let to = outer_target(p, categories, e.tgt, e.to_leaf);
    Edge { src: from.0, from_leaf: from.1, tgt: to.0, to_leaf: to.1 }
}

/// The first `m` edges of `p` that cross a region boundary, as edges of the contracted program.
pub open spec fn outer_edges(p: QuantumProgram, categories: Seq<Vec<String>>, m: nat) -> Seq<Edge>
    decreases m,
{
    if m == 0 {
        Seq::empty()
    } else {
        let rest = outer_edges(p, categories, (m - 1) as nat);
        let e = p.edges@[m - 1];
        if crosses(region_table(p, categories), e) { rest.push(outer_edge(p, categories, e)) } else { rest }
    }
}

/// The edge `e` of `p` inside region `r`, between the positions of its ends among the members.
pub open spec fn inner_edge(p: QuantumProgram, categories: Seq<Vec<String>>, r: int, e: Edge) -> Edge {
    let m = members_of(p, categories, r);
    Edge { src: position_in(m, e.src) as usize, from_leaf: e.from_leaf, tgt: position_in(m, e.tgt) as usize, to_leaf: e.to_leaf }
}

/// The first `m` edges of `p` with both ends in region `r`, as edges of the region program.
pub open spec fn inner_edges(p: QuantumProgram, categories: Seq<Vec<String>>, r: int, m: nat) -> Seq<Edge>
    decreases m,
{
    if m == 0 {
        Seq::empty()
    } else {
        let rest = inner_edges(p, categories, r, (m - 1) as nat);
        let e = p.edges@[m - 1];
        if region_of_node(p, categories, e.src as int) == Some(r as usize) && region_of_node(p, categories, e.tgt as int) == Some(r as usize) {
            rest.push(inner_edge(p, categories, r, e))
        } else {
            rest
        }
    }
}

/// Whether the bindings `bound` give the keys of `ports` to the leaves `leaves` of the members
/// `members`, each leaf's node by its position among the members.
pub open spec fn binds_ports(
    bound: Seq<Binding>,
    ports: Seq<(Seq<char>, (Seq<char>, Seq<EntryView>))>,
    leaves: Seq<(usize, usize)>,
    members: Seq<usize>,
) -> bool {
    &&& bound.len() == leaves.len()
    &&& forall|i: int| 0 <= i < leaves.len() ==> {
        let b = #[trigger] bound[i];
        &&& b.key@ == ports[i].0
        &&& b.node == position_in(members, leaves[i].0)
        &&& b.leaf == leaves[i].1
    }
}

/// Whether `paths` are the one-entry paths of the keys of `ports`, in order.
pub open spec fn keyed_paths(paths: Seq<Vec<PathEntry>>, ports: Seq<(Seq<char>, (Seq<char>, Seq<EntryView>))>) -> bool {
    &&& paths.len() == ports.len()
    &&& forall|i: int| 0 <= i < ports.len() ==> path_view((#[trigger] paths[i])@) == seq![EntryView::Key(ports[i].0)]
}

/// Whether `inner` is the program of region `r`: the members, moved over in order; the edges
/// between them; the region's ports as its inputs and outputs; no input sources.
pub open spec fn region_program(inner: QuantumProgram, p: QuantumProgram, categories: Seq<Vec<String>>, r: int) -> bool {
    let m = members_of(p, categories, r);
    let region = expected_region(p, categories, r);
    &&& inner.nodes@.len() == m.len()
    &&& forall|i: int| 0 <= i < m.len() ==> #[trigger] inner.nodes@[i] == p.nodes@[m[i] as int]
    &&& inner.edges@ == inner_edges(p, categories, r, p.edges@.len())
    &&& binds_ports(inner.inputs@, region.input_ports, region_boundary(p, categories, r, true), m)
    &&& binds_ports(inner.outputs@, region.output_ports, region_boundary(p, categories, r, false), m)
    &&& inner.input_sources@.len() == 0
}

/// Whether `node` is the node of region `r`: its label, its program, and one leaf per port keyed
/// by the port's key.
pub open spec fn region_node(node: GraphNode, p: QuantumProgram, categories: Seq<Vec<String>>, r: int) -> bool {
    let region = expected_region(p, categories, r);
    &&& node.label@ == region.label
    &&& node.kind matches NodeKind::Program(inner) && region_program(*inner, p, categories, r)
    &&& keyed_paths(node.input_leaf_paths@, region.input_ports)
    &&& keyed_paths(node.output_leaf_paths@, region.output_ports)
    &&& region_leaf_types(node, p, categories, r)
}

/// Whether the leaves of `node` have the types of the boundary leaves of region `r`.
#[verifier::opaque]
pub open spec fn region_leaf_types(node: GraphNode, p: QuantumProgram, categories: Seq<Vec<String>>, r: int) -> bool {
    &&& type_views(node.input_leaf_types@) == leaf_type_views(p.nodes@, region_boundary(p, categories, r, true), true)
    &&& type_views(node.output_leaf_types@) == leaf_type_views(p.nodes@, region_boundary(p, categories, r, false), false)
}

/// Whether `c` is the contraction of `p` under the categories.
pub open spec fn contracts(c: ContractedProgram, p: QuantumProgram, categories: Seq<Vec<String>>) -> bool {
    let h = p.input_sources@.len();
    let n_regions = region_count(p, categories);
    let q = c.program;
    &&& valid_input(plan_input(p, categories))
    &&& c.regions@.len() == n_regions
    &&& forall|r: int| 0 <= r < n_regions ==> #[trigger] c.regions@[r]@ == expected_region(p, categories, r)
    &&& q.nodes@.len() == h + n_regions
    &&& forall|k: int| 0 <= k < h ==> #[trigger] q.nodes@[k] == p.nodes@[p.input_sources@[k].node as int]
    &&& forall|r: int| 0 <= r < n_regions ==> region_node(#[trigger] q.nodes@[h + r], p, categories, r)
    &&& q.edges@ == outer_edges(p, categories, p.edges@.len())
    &&& q.input_sources@.len() == h
    &&& forall|k: int| 0 <= k < h ==> (#[trigger] q.input_sources@[k]).key@ == p.input_sources@[k].key@
        && q.input_sources@[k].node == k
    &&& q.inputs@.len() == p.inputs@.len()
    &&& forall|k: int| 0 <= k < p.inputs@.len() ==> (#[trigger] q.inputs@[k]).key@ == p.inputs@[k].key@
        && q.inputs@[k].node_leaf() == outer_target(p, categories, p.inputs@[k].node, p.inputs@[k].leaf)
    &&& q.outputs@.len() == p.outputs@.len()
    &&& forall|k: int| 0 <= k < p.outputs@.len() ==> (#[trigger] q.outputs@[k]).key@ == p.outputs@[k].key@
        && q.outputs@[k].node_leaf() == outer_source(p, categories, p.outputs@[k].node, p.outputs@[k].leaf)
}

/// The nodes, each in a slot of its own, in reverse order: node `v` in slot `n - 1 - v`.
fn into_slots(nodes: Vec<GraphNode>) -> (slots: Vec<Option<GraphNode>>)
    ensures
        slots@.len() == nodes@.len(),
        forall|v: int| 0 <= v < nodes@.len() ==> #[trigger] slots@[nodes@.len() - 1 - v] == Some(nodes@[v]),
{
    let mut nodes = nodes;
    let ghost all = nodes@;
    let mut slots: Vec<Option<GraphNode>> = Vec::new();
    while nodes.len() > 0
        invariant
            nodes@ == all.take(nodes@.len() as int),
            nodes@.len() + slots@.len() == all.len(),
            forall|i: int| 0 <= i < slots@.len() ==> #[trigger] slots@[i] == Some(all[all.len() - 1 - i]),
        decreases nodes@.len(),
    {
        let node = nodes.pop().unwrap();
        slots.push(Some(node));
        assert(nodes@ =~= all.take(nodes@.len() as int));
    }
    slots
}

/// For each node in a region, its position among the region's members.
fn member_positions(n: usize, members: &Vec<Vec<usize>>, Ghost(p): Ghost<QuantumProgram>, Ghost(cats): Ghost<Seq<Vec<String>>>)
    -> (positions: Vec<usize>)
    requires
        p.wf(),
        valid_input(plan_input(p, cats)),
        n == p.nodes@.len(),
        members@.len() == region_count(p, cats),
        forall|r: int| 0 <= r < members@.len() ==> #[trigger] members@[r]@ == members_of(p, cats, r),
    ensures
        positions@.len() == n,
        forall|v: int| 0 <= v < n && (#[trigger] region_of_node(p, cats, v)) is Some && region_of_node(p, cats, v).unwrap() < members@.len()
            ==> positions@[v] == position_in(members_of(p, cats, region_of_node(p, cats, v).unwrap() as int), v as usize),
{
    let mut positions: Vec<usize> = Vec::new();
    for v in 0..n
        invariant
            positions@.len() == v,
    {
        positions.push(0);
    }
    for r in 0..members.len()
        invariant
            p.wf(),
            valid_input(plan_input(p, cats)),
            n == p.nodes@.len(),
            positions@.len() == n,
            members@.len() == region_count(p, cats),
            forall|q: int| 0 <= q < members@.len() ==> #[trigger] members@[q]@ == members_of(p, cats, q),
            forall|v: int| 0 <= v < n && (#[trigger] region_of_node(p, cats, v)) is Some && region_of_node(p, cats, v).unwrap() < r
                ==> positions@[v] == position_in(members_of(p, cats, region_of_node(p, cats, v).unwrap() as int), v as usize),
    {
        let m = &members[r];
        proof {
            lemma_members_valid(p, cats, r as int);
        }
        for i in 0..m.len()
            invariant
                p.wf(),
                valid_input(plan_input(p, cats)),
                n == p.nodes@.len(),
                positions@.len() == n,
                m@ == members_of(p, cats, r as int),
                m@.no_duplicates(),
                forall|j: int| 0 <= j < m@.len() ==> #[trigger] m@[j] < n,
                forall|v: usize| #[trigger] m@.contains(v) <==> v < n && region_of_node(p, cats, v as int) == Some(r),
                forall|v: int| 0 <= v < n && (#[trigger] region_of_node(p, cats, v)) is Some && region_of_node(p, cats, v).unwrap() < r
                    ==> positions@[v] == position_in(members_of(p, cats, region_of_node(p, cats, v).unwrap() as int), v as usize),
                forall|j: int| 0 <= j < i ==> positions@[#[trigger] m@[j] as int] == position_in(m@, m@[j]),
        {
            let v = m[i];
            proof {
                assert(m@.contains(v));
                let c = position_in(m@, v);
                assert(m@[c] == v);
                assert(c == i);
            }
            let ghost before = positions@;
            positions.set(v, i);
            proof {
                assert forall|j: int| 0 <= j < i + 1 implies positions@[#[trigger] m@[j] as int] == position_in(m@, m@[j]) by {
                    if j < i {
                        assert(m@[j] != v);
                    }
                }
            }
        }
        proof {
            assert forall|v: int| 0 <= v < n && (#[trigger] region_of_node(p, cats, v)) is Some && region_of_node(p, cats, v).unwrap() < r + 1
                implies positions@[v] == position_in(members_of(p, cats, region_of_node(p, cats, v).unwrap() as int), v as usize) by {
                if region_of_node(p, cats, v) == Some(r) {
                    assert(m@.contains(v as usize));
                    let j = choose|j: int| 0 <= j < m@.len() && m@[j] == v as usize;
                }
            }
        }
    }
    positions
}

/// For each input source node, its position among the input sources.
fn source_positions(p: &QuantumProgram) -> (positions: Vec<usize>)
    requires
        p.wf(),
    ensures
        positions@.len() == p.nodes@.len(),
        forall|v: int| 0 <= v < p.nodes@.len() && #[trigger] p.is_input_source(v) ==> positions@[v] == source_position(*p, v as usize),
{
    let n = p.nodes.len();
    let mut positions: Vec<usize> = Vec::new();
    for v in 0..n
        invariant
            positions@.len() == v,
    {
        positions.push(0);
    }
    for k in 0..p.input_sources.len()
        invariant
            p.wf(),
            n == p.nodes@.len(),
            positions@.len() == n,
            forall|j: int| 0 <= j < k ==> positions@[(#[trigger] p.input_sources@[j]).node as int] == j,
    {
        let v = p.input_sources[k].node;
        let ghost before = positions@;
        positions.set(v, k);
        proof {
            assert forall|j: int| 0 <= j < k + 1 implies positions@[(#[trigger] p.input_sources@[j]).node as int] == j by {
                if j < k {
                    assert(p.input_sources@[j].node != v);
                }
            }
        }
    }
    proof {
        assert forall|v: int| 0 <= v < n && #[trigger] p.is_input_source(v) implies positions@[v] == source_position(*p, v as usize) by {
            let k = source_position(*p, v as usize);
            assert(p.input_sources@[k].node == v);
        }
    }
    positions
}

/// For each region, the edges of `p` with both ends in it, between the positions of their ends
/// among its members, in edge order.
fn region_edges(
    edges: &Vec<Edge>,
    region_of: &Vec<Option<usize>>,
    member_pos: &Vec<usize>,
    n_regions: usize,
    Ghost(p): Ghost<QuantumProgram>,
    Ghost(cats): Ghost<Seq<Vec<String>>>,
    Ghost(hoisted): Ghost<Seq<bool>>,
    Ghost(assignment): Ghost<RegionAssignment>,
) -> (buckets: Vec<Vec<Edge>>)
    requires
        p.wf(),
        planned(p, cats, hoisted, assignment),
        edges@ == p.edges@,
        region_of@ == region_table(p, cats),
        n_regions == region_count(p, cats),
        member_pos@.len() == p.nodes@.len(),
        forall|v: int| 0 <= v < p.nodes@.len() && (#[trigger] region_of_node(p, cats, v)) is Some && region_of_node(p, cats, v).unwrap() < n_regions
            ==> member_pos@[v] == position_in(members_of(p, cats, region_of_node(p, cats, v).unwrap() as int), v as usize),
    ensures
        buckets@.len() == n_regions,
        forall|r: int| 0 <= r < n_regions ==> (#[trigger] buckets@[r])@ == inner_edges(p, cats, r, p.edges@.len()),
{
    let mut buckets: Vec<Vec<Edge>> = Vec::new();
    for r in 0..n_regions
        invariant
            buckets@.len() == r,
            forall|q: int| 0 <= q < r ==> (#[trigger] buckets@[q])@ == Seq::<Edge>::empty(),
    {
        buckets.push(Vec::new());
    }
    for k in 0..edges.len()
        invariant
            p.wf(),
            planned(p, cats, hoisted, assignment),
            edges@ == p.edges@,
            region_of@ == region_table(p, cats),
            n_regions == region_count(p, cats),
            member_pos@.len() == p.nodes@.len(),
            forall|v: int| 0 <= v < p.nodes@.len() && (#[trigger] region_of_node(p, cats, v)) is Some && region_of_node(p, cats, v).unwrap() < n_regions
                ==> member_pos@[v] == position_in(members_of(p, cats, region_of_node(p, cats, v).unwrap() as int), v as usize),
            buckets@.len() == n_regions,
            forall|q: int| 0 <= q < n_regions ==> (#[trigger] buckets@[q])@ == inner_edges(p, cats, q, k as nat),
    {
        let e = edges[k];
        proof {
            assert(p.edges@[k as int] == e);
        }
        match region_of[e.src] {
            Some(r) => {
                if region_of[e.tgt] == Some(r) {
                    proof {
                        assert(region_of_node(p, cats, e.src as int) == Some(r));
                        assert(!hoisted[e.src as int]) by {
                            if hoisted[e.src as int] {
                                assert(region_of_node(p, cats, e.src as int) is None);
                            }
                        }
                    }
                    let inner = Edge { src: member_pos[e.src], from_leaf: e.from_leaf, tgt: member_pos[e.tgt], to_leaf: e.to_leaf };
                    let ghost before = buckets@;
                    buckets[r].push(inner);
                    proof {
                        assert forall|q: int| 0 <= q < n_regions implies (#[trigger] buckets@[q])@ == inner_edges(p, cats, q, (k + 1) as nat) by {
                            if q != r {
                                assert(buckets@[q] == before[q]);
                            }
                        }
                    }
                } else {
                    proof {
                        assert forall|q: int| 0 <= q < n_regions implies (#[trigger] buckets@[q])@ == inner_edges(p, cats, q, (k + 1) as nat) by {
                        }
                    }
                }
            },
            None => {
                proof {
                    assert forall|q: int| 0 <= q < n_regions implies (#[trigger] buckets@[q])@ == inner_edges(p, cats, q, (k + 1) as nat) by {
                    }
                }
            },
        }
    }
    buckets
}

/// Bindings giving the keys of `ports` to the leaves `leaves`, each leaf's node by its position
/// among the members.
fn port_bindings(ports: &Vec<(String, Port)>, leaves: &Vec<(usize, usize)>, member_pos: &Vec<usize>, Ghost(members): Ghost<Seq<usize>>)
    -> (bound: Vec<Binding>)
    requires
        ports@.len() == leaves@.len(),
        forall|i: int| 0 <= i < leaves@.len() ==> (#[trigger] leaves@[i]).0 < member_pos@.len()
            && member_pos@[leaves@[i].0 as int] == position_in(members, leaves@[i].0),
    ensures
        binds_ports(bound@, entries_of(ports@), leaves@, members),
{
    let mut bound: Vec<Binding> = Vec::new();
    for i in 0..leaves.len()
        invariant
            ports@.len() == leaves@.len(),
            forall|j: int| 0 <= j < leaves@.len() ==> (#[trigger] leaves@[j]).0 < member_pos@.len()
                && member_pos@[leaves@[j].0 as int] == position_in(members, leaves@[j].0),
            bound@.len() == i,
            forall|j: int| 0 <= j < i ==> {
                let b = #[trigger] bound@[j];
                &&& b.key@ == entries_of(ports@)[j].0
                &&& b.node == position_in(members, leaves@[j].0)
                &&& b.leaf == leaves@[j].1
            },
    {
        let (v, leaf) = leaves[i];
        let key = ports[i].0.clone();
        bound.push(Binding { key, node: member_pos[v], leaf });
    }
    bound
}

/// Copies of the types of the boundary leaves `leaves` of a region, read from its members
/// `nodes`, the region's nodes of `all` in the order `members`.
fn boundary_types(
    nodes: &Vec<GraphNode>,
    leaves: &Vec<(usize, usize)>,
    member_pos: &Vec<usize>,
    input_side: bool,
    Ghost(all): Ghost<Seq<GraphNode>>,
    Ghost(members): Ghost<Seq<usize>>,
) -> (types: Vec<TensorType>)
    requires
        nodes@.len() == members.len(),
        forall|j: int| 0 <= j < members.len() ==> #[trigger] nodes@[j] == all[members[j] as int],
        forall|i: int| 0 <= i < leaves@.len() ==> {
            let x = #[trigger] leaves@[i];
            &&& x.0 < member_pos@.len()
            &&& member_pos@[x.0 as int] == position_in(members, x.0)
            &&& 0 <= position_in(members, x.0) < members.len()
            &&& members[position_in(members, x.0)] == x.0
            &&& x.1 < leaf_types_on(all[x.0 as int], input_side).len()
        },
    ensures
        type_views(types@) == leaf_type_views(all, leaves@, input_side),
{
    let mut types: Vec<TensorType> = Vec::new();
    for i in 0..leaves.len()
        invariant
            nodes@.len() == members.len(),
            forall|j: int| 0 <= j < members.len() ==> #[trigger] nodes@[j] == all[members[j] as int],
            forall|i: int| 0 <= i < leaves@.len() ==> {
                let x = #[trigger] leaves@[i];
                &&& x.0 < member_pos@.len()
                &&& member_pos@[x.0 as int] == position_in(members, x.0)
                &&& 0 <= position_in(members, x.0) < members.len()
                &&& members[position_in(members, x.0)] == x.0
                &&& x.1 < leaf_types_on(all[x.0 as int], input_side).len()
            },
            types@.len() == i,
            forall|j: int| 0 <= j < i ==> (#[trigger] types@[j])@ == leaf_type_views(all, leaves@, input_side)[j],
    {
        let (v, leaf) = leaves[i];
        let at = member_pos[v];
        let node = &nodes[at];
        assert(*node == all[v as int]);
        let t = if input_side { node.input_leaf_types[leaf].clone() } else { node.output_leaf_types[leaf].clone() };
        types.push(t);
    }
    assert(type_views(types@) =~= leaf_type_views(all, leaves@, input_side));
    types
}

/// The one-entry paths of the keys of `ports`, in order.
fn key_paths(ports: &Vec<(String, Port)>) -> (paths: Vec<Vec<PathEntry>>)
    ensures
        keyed_paths(paths@, entries_of(ports@)),
{
    let mut paths: Vec<Vec<PathEntry>> = Vec::new();
    for i in 0..ports.len()
        invariant
            paths@.len() == i,
            forall|j: int| 0 <= j < i ==> path_view((#[trigger] paths@[j])@) == seq![EntryView::Key(entries_of(ports@)[j].0)],
    {
        let mut path: Vec<PathEntry> = Vec::new();
        path.push(PathEntry::Key(ports[i].0.clone()));
        assert(path_view(path@) =~= seq![EntryView::Key(entries_of(ports@)[i as int].0)]);
        paths.push(path);
    }
    paths
}

/// Whether the tables that wire the contracted program are those of `p` under the categories:
/// the region of each node, the position of each boundary leaf among its region's input ports
/// (`ins`) and output ports (`outs`), the position of each input source node, the number `h`
/// of input sources and the number `total` of nodes of the contracted program.
pub open spec fn wiring(
    p: QuantumProgram,
    cats: Seq<Vec<String>>,
    hoisted: Seq<bool>,
    assignment: RegionAssignment,
    region_of: Seq<Option<usize>>,
    ins: Map<(usize, usize), usize>,
    outs: Map<(usize, usize), usize>,
    src_pos: Seq<usize>,
    h: usize,
    total: usize,
) -> bool {
    &&& p.wf()
    &&& planned(p, cats, hoisted, assignment)
    &&& region_of == region_table(p, cats)
    &&& h == p.input_sources@.len()
    &&& total == h + region_count(p, cats)
    &&& forall|r: int, t: int| 0 <= r < region_count(p, cats) && 0 <= t < region_boundary(p, cats, r, true).len()
        ==> ins.get(#[trigger] region_boundary(p, cats, r, true)[t]) == Some(t as usize)
    &&& forall|r: int, t: int| 0 <= r < region_count(p, cats) && 0 <= t < region_boundary(p, cats, r, false).len()
        ==> outs.get(#[trigger] region_boundary(p, cats, r, false)[t]) == Some(t as usize)
    &&& src_pos.len() == p.nodes@.len()
    &&& forall|v: int| 0 <= v < p.nodes@.len() && #[trigger] p.is_input_source(v) ==> src_pos[v] == source_position(p, v as usize)
}

/// The node and leaf of the contracted program that produce output leaf `leaf` of node `v`.
fn source_of(
    region_of: &Vec<Option<usize>>,
    out_pos: &PairIndex,
    src_pos: &Vec<usize>,
    h: usize,
    total: usize,
    v: usize,
    leaf: usize,
    Ghost(p): Ghost<QuantumProgram>,
    Ghost(cats): Ghost<Seq<Vec<String>>>,
    Ghost(hoisted): Ghost<Seq<bool>>,
    Ghost(assignment): Ghost<RegionAssignment>,
    Ghost(ins): Ghost<Map<(usize, usize), usize>>,
) -> (res: (usize, usize))
    requires
        wiring(p, cats, hoisted, assignment, region_of@, ins, pair_index_contents(*out_pos), src_pos@, h, total),
        v < p.nodes@.len(),
        leaf < p.nodes@[v as int].output_leaf_paths@.len(),
        read_from_outside(p, region_table(p, cats), source_flags(p)).contains((v, leaf)) || p.is_input_source(v as int),
    ensures
        res == outer_source(p, cats, v, leaf),
{
    match region_of[v] {
        Some(r) => {
            let ghost b = region_boundary(p, cats, r as int, false);
            proof {
                assert(region_of_node(p, cats, v as int) == Some(r));
                assert(!hoisted[v as int]);
                assert(r < region_count(p, cats));
                lemma_members_valid(p, cats, r as int);
                lemma_boundary_of(p.nodes@, members_of(p, cats, r as int), read_from_outside(p, region_table(p, cats), source_flags(p)), false);
                assert(b.contains((v, leaf)));
                let t = leaf_position(b, (v, leaf));
                assert(b[t] == (v, leaf));
            }
            match out_pos.get((v, leaf)) {
                Some(t) => (h + r, t),
                None => {
                    proof {
                        let t = leaf_position(b, (v, leaf));
                        assert(pair_index_contents(*out_pos).get(b[t]) == Some(t as usize));
                    }
                    vstd::pervasive::unreached()
                },
            }
        },
        None => {
            proof {
                assert(region_of_node(p, cats, v as int) is None);
                assert(hoisted[v as int]);
            }
            (src_pos[v], leaf)
        },
    }
}

/// The node and leaf of the contracted program that consume input leaf `leaf` of node `v`.
fn target_of(
    region_of: &Vec<Option<usize>>,
    in_pos: &PairIndex,
    h: usize,
    total: usize,
    v: usize,
    leaf: usize,
    Ghost(p): Ghost<QuantumProgram>,
    Ghost(cats): Ghost<Seq<Vec<String>>>,
    Ghost(hoisted): Ghost<Seq<bool>>,
    Ghost(assignment): Ghost<RegionAssignment>,
    Ghost(outs): Ghost<Map<(usize, usize), usize>>,
    Ghost(src_pos): Ghost<Seq<usize>>,
) -> (res: (usize, usize))
    requires
        wiring(p, cats, hoisted, assignment, region_of@, pair_index_contents(*in_pos), outs, src_pos, h, total),
        v < p.nodes@.len(),
        leaf < p.nodes@[v as int].input_leaf_paths@.len(),
        fed_from_outside(p, region_table(p, cats)).contains((v, leaf)),
    ensures
        res == outer_target(p, cats, v, leaf),
{
    proof {
        if hoisted[v as int] {
            assert(p.is_input_source(v as int));
            let k = choose|k: int| 0 <= k < p.input_sources@.len() && #[trigger] p.input_sources@[k].node == v;
            assert(p.input_sources@[k].node == v);
        }
    }
    match region_of[v] {
        Some(r) => {
            let ghost b = region_boundary(p, cats, r as int, true);
            proof {
                assert(region_of_node(p, cats, v as int) == Some(r));
                assert(r < region_count(p, cats));
                lemma_members_valid(p, cats, r as int);
                lemma_boundary_of(p.nodes@, members_of(p, cats, r as int), fed_from_outside(p, region_table(p, cats)), true);
                assert(b.contains((v, leaf)));
                let t = leaf_position(b, (v, leaf));
                assert(b[t] == (v, leaf));
            }
            match in_pos.get((v, leaf)) {
                Some(t) => (h + r, t),
                None => {
                    proof {
                        let t = leaf_position(b, (v, leaf));
                        assert(pair_index_contents(*in_pos).get(b[t]) == Some(t as usize));
                    }
                    vstd::pervasive::unreached()
                },
            }
        },
        None => {
            proof {
                assert(region_of_node(p, cats, v as int) is None);
            }
            vstd::pervasive::unreached()
        },
    }
}

/// The edges of `p` that cross a region boundary, as edges of the contracted program.
fn outer_edge_list(
    edges: &Vec<Edge>,
    region_of: &Vec<Option<usize>>,
    in_pos: &PairIndex,
    out_pos: &PairIndex,
    src_pos: &Vec<usize>,
    h: usize,
    total: usize,
    Ghost(p): Ghost<QuantumProgram>,
    Ghost(cats): Ghost<Seq<Vec<String>>>,
    Ghost(hoisted): Ghost<Seq<bool>>,
    Ghost(assignment): Ghost<RegionAssignment>,
) -> (outer: Vec<Edge>)
    requires
        wiring(p, cats, hoisted, assignment, region_of@, pair_index_contents(*in_pos), pair_index_contents(*out_pos), src_pos@, h, total),
        edges@ == p.edges@,
    ensures
        outer@ == outer_edges(p, cats, p.edges@.len()),
{
    let ghost table = region_table(p, cats);
    let mut outer: Vec<Edge> = Vec::new();
    for k in 0..edges.len()
        invariant
            wiring(p, cats, hoisted, assignment, region_of@, pair_index_contents(*in_pos), pair_index_contents(*out_pos), src_pos@, h, total),
            edges@ == p.edges@,
            table == region_table(p, cats),
            outer@ == outer_edges(p, cats, k as nat),
    {
        let e = edges[k];
        proof {
            assert(p.edges@[k as int] == e);
        }
        if region_of[e.src] != region_of[e.tgt] {
            proof {
                assert(crosses(table, e));
                if !hoisted[e.src as int] {
                    assert(crossing_sources(p, table, hoisted, p.edges@.len() as int).contains((e.src, e.from_leaf)));
                } else {
                    assert(p.is_input_source(e.src as int));
                }
                assert(crossing_targets(p, table, p.edges@.len() as int).contains((e.tgt, e.to_leaf)));
            }
            let from = source_of(region_of, out_pos, src_pos, h, total, e.src, e.from_leaf,
                Ghost(p), Ghost(cats), Ghost(hoisted), Ghost(assignment), Ghost(pair_index_contents(*in_pos)));
            let to = target_of(region_of, in_pos, h, total, e.tgt, e.to_leaf,
                Ghost(p), Ghost(cats), Ghost(hoisted), Ghost(assignment), Ghost(pair_index_contents(*out_pos)), Ghost(src_pos@));
            outer.push(Edge { src: from.0, from_leaf: from.1, tgt: to.0, to_leaf: to.1 });
        }
    }
    outer
}

/// The program inputs of `p`, each feeding the region port of the leaf it fed.
fn outer_inputs(
    inputs: &Vec<Binding>,
    region_of: &Vec<Option<usize>>,
    in_pos: &PairIndex,
    h: usize,
    total: usize,
    Ghost(p): Ghost<QuantumProgram>,
    Ghost(cats): Ghost<Seq<Vec<String>>>,
    Ghost(hoisted): Ghost<Seq<bool>>,
    Ghost(assignment): Ghost<RegionAssignment>,
    Ghost(outs): Ghost<Map<(usize, usize), usize>>,
    Ghost(src_pos): Ghost<Seq<usize>>,
) -> (bound: Vec<Binding>)
    requires
        wiring(p, cats, hoisted, assignment, region_of@, pair_index_contents(*in_pos), outs, src_pos, h, total),
        inputs@ == p.inputs@,
    ensures
        bound@.len() == p.inputs@.len(),
        forall|k: int| 0 <= k < p.inputs@.len() ==> (#[trigger] bound@[k]).key@ == p.inputs@[k].key@
            && bound@[k].node_leaf() == outer_target(p, cats, p.inputs@[k].node, p.inputs@[k].leaf),
{
    let mut bound: Vec<Binding> = Vec::new();
    for k in 0..inputs.len()
        invariant
            wiring(p, cats, hoisted, assignment, region_of@, pair_index_contents(*in_pos), outs, src_pos, h, total),
            inputs@ == p.inputs@,
            bound@.len() == k,
            forall|j: int| 0 <= j < k ==> (#[trigger] bound@[j]).key@ == p.inputs@[j].key@
                && bound@[j].node_leaf() == outer_target(p, cats, p.inputs@[j].node, p.inputs@[j].leaf),
    {
        let b = &inputs[k];
        proof {
            assert(p.inputs@[k as int] == *b);
            assert(input_leaves(p, p.inputs@.len() as int).contains((b.node, b.leaf)));
        }
        let to = target_of(region_of, in_pos, h, total, b.node, b.leaf,
            Ghost(p), Ghost(cats), Ghost(hoisted), Ghost(assignment), Ghost(outs), Ghost(src_pos));
        bound.push(Binding { key: b.key.clone(), node: to.0, leaf: to.1 });
    }
    bound
}

/// The program outputs of `p`, each reading the region port, or the input source, that
/// produces the leaf it read.
fn outer_outputs(
    outputs: &Vec<Binding>,
    region_of: &Vec<Option<usize>>,
    out_pos: &PairIndex,
    src_pos: &Vec<usize>,
    h: usize,
    total: usize,
    Ghost(p): Ghost<QuantumProgram>,
    Ghost(cats): Ghost<Seq<Vec<String>>>,
    Ghost(hoisted): Ghost<Seq<bool>>,
    Ghost(assignment): Ghost<RegionAssignment>,
    Ghost(ins): Ghost<Map<(usize, usize), usize>>,
) -> (bound: Vec<Binding>)
    requires
        wiring(p, cats, hoisted, assignment, region_of@, ins, pair_index_contents(*out_pos), src_pos@, h, total),
        outputs@ == p.outputs@,
    ensures
        bound@.len() == p.outputs@.len(),
        forall|k: int| 0 <= k < p.outputs@.len() ==> (#[trigger] bound@[k]).key@ == p.outputs@[k].key@
            && bound@[k].node_leaf() == outer_source(p, cats, p.outputs@[k].node, p.outputs@[k].leaf),
{
    let mut bound: Vec<Binding> = Vec::new();
    for k in 0..outputs.len()
        invariant
            wiring(p, cats, hoisted, assignment, region_of@, ins, pair_index_contents(*out_pos), src_pos@, h, total),
            outputs@ == p.outputs@,
            bound@.len() == k,
            forall|j: int| 0 <= j < k ==> (#[trigger] bound@[j]).key@ == p.outputs@[j].key@
                && bound@[j].node_leaf() == outer_source(p, cats, p.outputs@[j].node, p.outputs@[j].leaf),
    {
        let b = &outputs[k];
        proof {
            assert(p.outputs@[k as int] == *b);
            if !hoisted[b.node as int] {
                assert(output_leaves(p, hoisted, p.outputs@.len() as int).contains((b.node, b.leaf)));
            } else {
                assert(p.is_input_source(b.node as int));
            }
        }
        let from = source_of(region_of, out_pos, src_pos, h, total, b.node, b.leaf,
            Ghost(p), Ghost(cats), Ghost(hoisted), Ghost(assignment), Ghost(ins));
        bound.push(Binding { key: b.key.clone(), node: from.0, leaf: from.1 });
    }
    bound
}

/// A copy of `edges`.
fn copy_edges(edges: &Vec<Edge>) -> (copy: Vec<Edge>)
    ensures
        copy@ == edges@,
{
    let mut copy: Vec<Edge> = Vec::new();
    for i in 0..edges.len()
        invariant
            copy@ == edges@.take(i as int),
    {
        copy.push(edges[i]);
        assert(copy@ =~= edges@.take(i + 1));
    }
    assert(edges@.take(edges.len() as int) =~= edges@);
    copy
}

/// The contracted program: the input sources moved over first, then one node per region holding
/// the region's program, wired by the tables the plan produced.
fn assemble(
    p: QuantumProgram,
    categories: &[Vec<String>],
    hoisted: &Vec<bool>,
    assignment: &RegionAssignment,
    regions: Vec<ProgramRegion>,
    in_pos: &PairIndex,
    out_pos: &PairIndex,
    in_leaves: &Vec<Vec<(usize, usize)>>,
    out_leaves: &Vec<Vec<(usize, usize)>>,
) -> (c: ContractedProgram)
    requires
        p.wf(),
        planned(p, categories@, hoisted@, *assignment),
        regions@.len() == region_count(p, categories@),
        forall|r: int| 0 <= r < region_count(p, categories@) ==> #[trigger] regions@[r]@ == expected_region(p, categories@, r),
        in_leaves@.len() == region_count(p, categories@),
        forall|r: int| 0 <= r < region_count(p, categories@) ==> #[trigger] in_leaves@[r]@ == region_boundary(p, categories@, r, true),
        out_leaves@.len() == region_count(p, categories@),
        forall|r: int| 0 <= r < region_count(p, categories@) ==> #[trigger] out_leaves@[r]@ == region_boundary(p, categories@, r, false),
        forall|r: int, t: int| 0 <= r < region_count(p, categories@) && 0 <= t < region_boundary(p, categories@, r, true).len()
            ==> pair_index_contents(*in_pos).get(#[trigger] region_boundary(p, categories@, r, true)[t]) == Some(t as usize),
        forall|r: int, t: int| 0 <= r < region_count(p, categories@) && 0 <= t < region_boundary(p, categories@, r, false).len()
            ==> pair_index_contents(*out_pos).get(#[trigger] region_boundary(p, categories@, r, false)[t]) == Some(t as usize),
    ensures
        contracts(c, p, categories@),
{
    let ghost p0 = p;
    let ghost cats = categories@;
    let n = p.nodes.len();
    let h = p.input_sources.len();
    let n_regions = regions.len();
    let member_pos = member_positions(n, &assignment.members, Ghost(p0), Ghost(cats));
    let src_pos = source_positions(&p);
    let buckets = region_edges(&p.edges, &assignment.region_of, &member_pos, n_regions, Ghost(p0), Ghost(cats), Ghost(hoisted@), Ghost(*assignment));
    let QuantumProgram { nodes, edges, inputs, input_sources, outputs } = p;
    let mut slots = into_slots(nodes);

    // The input sources, moved over first.
    let mut outer_nodes: Vec<GraphNode> = Vec::new();
    for k in 0..h
        invariant
            p0.wf(),
            n == p0.nodes@.len(),
            h == p0.input_sources@.len(),
            input_sources@ == p0.input_sources@,
            slots@.len() == n,
            forall|v: int| 0 <= v < n && !(exists|j: int| 0 <= j < k && (#[trigger] p0.input_sources@[j]).node == v)
                ==> #[trigger] slots@[n - 1 - v] == Some(p0.nodes@[v]),
            outer_nodes@.len() == k,
            forall|j: int| 0 <= j < k ==> #[trigger] outer_nodes@[j] == p0.nodes@[p0.input_sources@[j].node as int],
    {
        let v = input_sources[k].node;
        proof {
            assert(p0.input_sources@[k as int].node == v);
            assert(!(exists|j: int| 0 <= j < k && (#[trigger] p0.input_sources@[j]).node == v)) by {
                if exists|j: int| 0 <= j < k && (#[trigger] p0.input_sources@[j]).node == v {
                    let j = choose|j: int| 0 <= j < k && (#[trigger] p0.input_sources@[j]).node == v;
                    assert(p0.input_sources@[j].node != p0.input_sources@[k as int].node);
                }
            }
            assert(slots@[n - 1 - v] == Some(p0.nodes@[v as int]));
        }
        let ghost before = slots@;
        let taken = slots[n - 1 - v].take();
        match taken {
            Some(node) => {
                outer_nodes.push(node);
            },
            None => {
                vstd::pervasive::unreached()
            },
        }
        proof {
            assert forall|u: int| 0 <= u < n && !(exists|j: int| 0 <= j < k + 1 && (#[trigger] p0.input_sources@[j]).node == u)
                implies #[trigger] slots@[n - 1 - u] == Some(p0.nodes@[u]) by {
                assert(u != v);
                assert(!(exists|j: int| 0 <= j < k && (#[trigger] p0.input_sources@[j]).node == u)) by {
                    if exists|j: int| 0 <= j < k && (#[trigger] p0.input_sources@[j]).node == u {
                        let j = choose|j: int| 0 <= j < k && (#[trigger] p0.input_sources@[j]).node == u;
                        assert(0 <= j < k + 1 && p0.input_sources@[j].node == u);
                    }
                }
                assert(slots@[n - 1 - u] == before[n - 1 - u]);
            }
        }
    }

    // One node per region, holding the region's program.
    for r in 0..n_regions
        invariant
            p0.wf(),
            planned(p0, cats, hoisted@, *assignment),
            cats == categories@,
            n == p0.nodes@.len(),
            h == p0.input_sources@.len(),
            n_regions == region_count(p0, cats),
            regions@.len() == n_regions,
            forall|q: int| 0 <= q < n_regions ==> #[trigger] regions@[q]@ == expected_region(p0, cats, q),
            in_leaves@.len() == n_regions,
            forall|q: int| 0 <= q < n_regions ==> #[trigger] in_leaves@[q]@ == region_boundary(p0, cats, q, true),
            out_leaves@.len() == n_regions,
            forall|q: int| 0 <= q < n_regions ==> #[trigger] out_leaves@[q]@ == region_boundary(p0, cats, q, false),
            buckets@.len() == n_regions,
            forall|q: int| 0 <= q < n_regions ==> (#[trigger] buckets@[q])@ == inner_edges(p0, cats, q, p0.edges@.len()),
            member_pos@.len() == n,
            forall|v: int| 0 <= v < n && (#[trigger] region_of_node(p0, cats, v)) is Some && region_of_node(p0, cats, v).unwrap() < n_regions
                ==> member_pos@[v] == position_in(members_of(p0, cats, region_of_node(p0, cats, v).unwrap() as int), v as usize),
            slots@.len() == n,
            forall|v: int| 0 <= v < n && !hoisted@[v] && region_of_node(p0, cats, v).unwrap() >= r
                ==> #[trigger] slots@[n - 1 - v] == Some(p0.nodes@[v]),
            outer_nodes@.len() == h + r,
            forall|j: int| 0 <= j < h ==> #[trigger] outer_nodes@[j] == p0.nodes@[p0.input_sources@[j].node as int],
            forall|q: int| 0 <= q < r ==> region_node(#[trigger] outer_nodes@[h + q], p0, cats, q),
    {
        let members = &assignment.members[r];
        let ghost m = members_of(p0, cats, r as int);
        proof {
            lemma_members_valid(p0, cats, r as int);
            assert(members@ == m);
        }
        let mut inner_nodes: Vec<GraphNode> = Vec::new();
        for i in 0..members.len()
            invariant
                p0.wf(),
                planned(p0, cats, hoisted@, *assignment),
                n == p0.nodes@.len(),
                r < n_regions,
                n_regions == region_count(p0, cats),
                members@ == m,
                m == members_of(p0, cats, r as int),
                m.no_duplicates(),
                forall|j: int| 0 <= j < m.len() ==> #[trigger] m[j] < n,
                forall|v: usize| #[trigger] m.contains(v) <==> v < n && region_of_node(p0, cats, v as int) == Some(r),
                slots@.len() == n,
                forall|v: int| 0 <= v < n && !hoisted@[v] && region_of_node(p0, cats, v).unwrap() >= r
                    && !(region_of_node(p0, cats, v).unwrap() == r && m.take(i as int).contains(v as usize))
                    ==> #[trigger] slots@[n - 1 - v] == Some(p0.nodes@[v]),
                inner_nodes@.len() == i,
                forall|j: int| 0 <= j < i ==> #[trigger] inner_nodes@[j] == p0.nodes@[m[j] as int],
        {
            let v = members[i];
            proof {
                assert(m.contains(v));
                assert(!hoisted@[v as int]) by {
                    if hoisted@[v as int] {
                        assert(region_of_node(p0, cats, v as int) is None);
                    }
                }
                assert(!m.take(i as int).contains(v)) by {
                    if m.take(i as int).contains(v) {
                        let j = choose|j: int| 0 <= j < i && m.take(i as int)[j] == v;
                        assert(m[j] == m[i as int]);
                    }
                }
            }
            let ghost before = slots@;
            let taken = slots[n - 1 - v].take();
            match taken {
                Some(node) => {
                    inner_nodes.push(node);
                },
                None => {
                    vstd::pervasive::unreached()
                },
            }
            proof {
                assert forall|u: int| 0 <= u < n && !hoisted@[u] && region_of_node(p0, cats, u).unwrap() >= r
                    && !(region_of_node(p0, cats, u).unwrap() == r && m.take(i + 1).contains(u as usize))
                    implies #[trigger] slots@[n - 1 - u] == Some(p0.nodes@[u]) by {
                    lemma_take_next_contains(m, i as int, u as usize);
                    assert(u != v);
                    assert(slots@[n - 1 - u] == before[n - 1 - u]);
                }
            }
        }
        let region = &regions[r];
        let ghost expected = expected_region(p0, cats, r as int);
        proof {
            assert(region@ == expected);
            lemma_boundary_of(p0.nodes@, m, fed_from_outside(p0, region_table(p0, cats)), true);
            lemma_boundary_of(p0.nodes@, m, read_from_outside(p0, region_table(p0, cats), source_flags(p0)), false);
            assert forall|i: int| 0 <= i < in_leaves@[r as int]@.len() implies (#[trigger] in_leaves@[r as int]@[i]).0 < member_pos@.len()
                && member_pos@[in_leaves@[r as int]@[i].0 as int] == position_in(m, in_leaves@[r as int]@[i].0) by {
                let x = in_leaves@[r as int]@[i];
                assert(region_boundary(p0, cats, r as int, true).contains(x));
                assert(m.contains(x.0));
            }
            assert forall|i: int| 0 <= i < out_leaves@[r as int]@.len() implies (#[trigger] out_leaves@[r as int]@[i]).0 < member_pos@.len()
                && member_pos@[out_leaves@[r as int]@[i].0 as int] == position_in(m, out_leaves@[r as int]@[i].0) by {
                let x = out_leaves@[r as int]@[i];
                assert(region_boundary(p0, cats, r as int, false).contains(x));
                assert(m.contains(x.0));
            }
            assert(region.input_ports@.len() == in_leaves@[r as int]@.len()) by {
                assert(entries_of(region.input_ports@).len() == expected.input_ports.len());
            }
            assert(region.output_ports@.len() == out_leaves@[r as int]@.len()) by {
                assert(entries_of(region.output_ports@).len() == expected.output_ports.len());
            }
        }
        proof {
            assert forall|i: int| 0 <= i < in_leaves@[r as int]@.len() implies {
                let x = #[trigger] in_leaves@[r as int]@[i];
                &&& 0 <= position_in(m, x.0) < m.len()
                &&& m[position_in(m, x.0)] == x.0
                &&& x.1 < leaf_types_on(p0.nodes@[x.0 as int], true).len()
            } by {
                let x = in_leaves@[r as int]@[i];
                assert(region_boundary(p0, cats, r as int, true).contains(x));
                assert(m.contains(x.0));
                assert(p0.nodes[x.0 as int] == p0.nodes@[x.0 as int]);
            }
            assert forall|i: int| 0 <= i < out_leaves@[r as int]@.len() implies {
                let x = #[trigger] out_leaves@[r as int]@[i];
                &&& 0 <= position_in(m, x.0) < m.len()
                &&& m[position_in(m, x.0)] == x.0
                &&& x.1 < leaf_types_on(p0.nodes@[x.0 as int], false).len()
            } by {
                let x = out_leaves@[r as int]@[i];
                assert(region_boundary(p0, cats, r as int, false).contains(x));
                assert(m.contains(x.0));
                assert(p0.nodes[x.0 as int] == p0.nodes@[x.0 as int]);
            }
        }
        let in_types = boundary_types(&inner_nodes, &in_leaves[r], &member_pos, true, Ghost(p0.nodes@), Ghost(m));
        let out_types = boundary_types(&inner_nodes, &out_leaves[r], &member_pos, false, Ghost(p0.nodes@), Ghost(m));
        let inner_inputs = port_bindings(&region.input_ports, &in_leaves[r], &member_pos, Ghost(m));
        let inner_outputs = port_bindings(&region.output_ports, &out_leaves[r], &member_pos, Ghost(m));
        let inner_edges = copy_edges(&buckets[r]);
        let inner = QuantumProgram {
            nodes: inner_nodes,
            edges: inner_edges,
            inputs: inner_inputs,
            input_sources: Vec::new(),
            outputs: inner_outputs,
        };
        let node = GraphNode {
            label: region.label.clone(),
            kind: NodeKind::Program(Box::new(inner)),
            input_leaf_paths: key_paths(&region.input_ports),
            output_leaf_paths: key_paths(&region.output_ports),
            input_leaf_types: in_types,
            output_leaf_types: out_types,
        };
        outer_nodes.push(node);
        proof {
            assert(region_program(inner, p0, cats, r as int));
            assert(region_leaf_types(outer_nodes@[h + r], p0, cats, r as int)) by {
                reveal(region_leaf_types);
            }
            assert(region_node(outer_nodes@[h + r], p0, cats, r as int));
            assert forall|u: int| 0 <= u < n && !hoisted@[u] && region_of_node(p0, cats, u).unwrap() >= r + 1
                implies #[trigger] slots@[n - 1 - u] == Some(p0.nodes@[u]) by {
            }
        }
    }

    // The wiring.
    let total = outer_nodes.len();
    let outer_edges = outer_edge_list(&edges, &assignment.region_of, in_pos, out_pos, &src_pos, h, total,
        Ghost(p0), Ghost(cats), Ghost(hoisted@), Ghost(*assignment));
    let outer_ins = outer_inputs(&inputs, &assignment.region_of, in_pos, h, total,
        Ghost(p0), Ghost(cats), Ghost(hoisted@), Ghost(*assignment), Ghost(pair_index_contents(*out_pos)), Ghost(src_pos@));
    let outer_outs = outer_outputs(&outputs, &assignment.region_of, out_pos, &src_pos, h, total,
        Ghost(p0), Ghost(cats), Ghost(hoisted@), Ghost(*assignment), Ghost(pair_index_contents(*in_pos)));
    let mut sources: Vec<InputSource> = Vec::new();
    for k in 0..h
        invariant
            h == p0.input_sources@.len(),
            input_sources@ == p0.input_sources@,
            sources@.len() == k,
            forall|j: int| 0 <= j < k ==> (#[trigger] sources@[j]).key@ == p0.input_sources@[j].key@ && sources@[j].node == j,
    {
        sources.push(InputSource { key: input_sources[k].key.clone(), node: k });
    }
    let program = QuantumProgram { nodes: outer_nodes, edges: outer_edges, inputs: outer_ins, input_sources: sources, outputs: outer_outs };
    ContractedProgram { program, regions }
}

impl QuantumProgram {
    /// Partition this program into regions of same-category nodes, returning an equivalent
    /// program whose nodes are those regions.
    ///
    /// Each entry of `categories` lists node type names (full names such as
    /// `"qiskit.shot_loop"`), matched by exact string equality. Node types that appear in no
    /// entry share one fallback category, reported as a region category of `None`. A type
    /// listed in several entries may take any of them.
    ///
    /// Regions are convex: a path that leaves a region never comes back to it, so the
    /// contracted graph is acyclic, and the regions are listed in an order in which no region
    /// depends on a later one. Nodes with no path between them may share a region.
    ///
    /// The nodes created for declared program inputs join no region: they are moved into the
    /// contracted program under their labels, ahead of the region nodes.
    ///
    /// A region's inputs and outputs are keyed `"{member_label}.{port_path}"`, or just
    /// `"{member_label}"` for a root port, with `#1`, `#2`, … appended where a key would repeat
    /// on the same side of the same region.
    ///
    /// The contracted program keeps the keys and order of the program's inputs, input sources
    /// and outputs.
    ///
    /// The program is refused with [`ContractionError::Cycle`] exactly when its edges form a
    /// cycle: when it has no topological order.
    pub fn into_regions(self, categories: &[Vec<String>]) -> (res: Result<ContractedProgram, ContractionError>)
        requires
            self.wf(),
            categories.len() < usize::MAX,
        ensures
            res is Err <==> program_order(self) is None,
            res is Err <==> !has_topological_order(self.nodes@.len(), self.edge_pairs()),
            res is Err <==> exists|walk: Seq<int>| is_closed_walk(self.edge_pairs(), walk),
            res matches Ok(c) ==> contracts(c, self, categories@),
    {
        proof {
            let n = self.nodes@.len();
            let edges = self.edge_pairs();
            assert forall|k: int| 0 <= k < edges.len() implies #[trigger] edges[k].0 < n && edges[k].1 < n by {
                assert(self.edges[k].src < n);
            }
            if exists|walk: Seq<int>| is_closed_walk(edges, walk) {
                let walk = choose|walk: Seq<int>| is_closed_walk(edges, walk);
                lemma_cycle_has_no_order(n, edges, walk);
            } else {
                lemma_acyclic_has_order(n, edges);
            }
        }
        let (order, hoisted, assignment) = match plan_regions(&self, categories) {
            Some(plan) => plan,
            None => return Err(ContractionError::Cycle),
        };
        let (needs_in, needs_out) = boundary_leaves(&self, &assignment.region_of, &hoisted);
        let (regions, in_pos, out_pos, in_leaves, out_leaves) =
            describe_regions(&self, categories, &hoisted, &assignment, &needs_in, &needs_out);
        let contracted = assemble(self, categories, &hoisted, &assignment, regions, &in_pos, &out_pos, &in_leaves, &out_leaves);
        Ok(contracted)
    }
}

// ---------------------------------------------------------------------------
// What a contraction keeps
// ---------------------------------------------------------------------------

/// The contracted program has the inputs, input sources and outputs of the program it contracts,
/// with the same keys in the same order.
pub proof fn lemma_contraction_keeps_io_keys(c: ContractedProgram, p: QuantumProgram, categories: Seq<Vec<String>>)
    requires
        contracts(c, p, categories),
    ensures
        c.program.input_keys() == p.input_keys(),
        c.program.input_source_keys() == p.input_source_keys(),
        c.program.output_keys() == p.output_keys(),
{
    assert(c.program.input_keys() =~= p.input_keys());
    assert(c.program.input_source_keys() =~= p.input_source_keys());
    assert(c.program.output_keys() =~= p.output_keys());
}

/// Input leaf `leaf` of node `v`, fed from outside its region, is consumed in the contracted
/// program by a leaf of the same type.
proof fn lemma_outer_target_type(c: ContractedProgram, p: QuantumProgram, categories: Seq<Vec<String>>, v: usize, leaf: usize)
    requires
        p.wf(),
        contracts(c, p, categories),
        v < p.nodes@.len(),
        leaf < p.nodes@[v as int].input_leaf_paths.len(),
        fed_from_outside(p, region_table(p, categories)).contains((v, leaf)),
    ensures
        ({
            let t = outer_target(p, categories, v, leaf);
            c.program.nodes@[t.0 as int].input_leaf_types@[t.1 as int]@ == p.nodes@[v as int].input_leaf_types@[leaf as int]@
        }),
{
    let input = plan_input(p, categories);
    let q = c.program;
    let h = p.input_sources@.len();
    let table = region_table(p, categories);
    if input.hoisted[v as int] {
        let k = choose|k: int| 0 <= k < p.input_sources@.len() && #[trigger] p.input_sources@[k].node == v;
        assert(p.input_sources@[k].node == v);
    }
    crate::quantum_program::heuristic::lemma_key_recorded_pub(input, v);
    let r = region_of_node(p, categories, v as int).unwrap();
    lemma_members_valid(p, categories, r as int);
    let bi = region_boundary(p, categories, r as int, true);
    lemma_boundary_of(p.nodes@, members_of(p, categories, r as int), fed_from_outside(p, table), true);
    assert(bi.contains((v, leaf)));
    let t = leaf_position(bi, (v, leaf));
    assert(bi[t] == (v, leaf));
    assert(region_node(q.nodes@[h + r], p, categories, r as int));
    reveal(region_leaf_types);
    let node = q.nodes@[h + r];
    lemma_node_count_bound(p, categories);
    crate::quantum_program::heuristic::lemma_region_count(input);
    assert(node.input_leaf_paths@.len() == bi.len());
    assert(node.input_leaf_paths@.len() == node.input_leaf_paths.len());
    assert(outer_target(p, categories, v, leaf).0 as int == h + r);
    assert(outer_target(p, categories, v, leaf).1 as int == t);
    assert(type_views(node.input_leaf_types@)[t] == leaf_type_views(p.nodes@, bi, true)[t]);
    assert(type_views(node.input_leaf_types@).len() == bi.len());
    assert(node.input_leaf_types@.len() == bi.len());
    assert(type_views(node.input_leaf_types@)[t] == node.input_leaf_types@[t]@);
    assert(leaf_type_views(p.nodes@, bi, true)[t] == p.nodes@[v as int].input_leaf_types@[leaf as int]@);
}

/// Output leaf `leaf` of node `v`, read from outside its region or produced by an input
/// source, is produced in the contracted program by a leaf of the same type.
proof fn lemma_outer_source_type(c: ContractedProgram, p: QuantumProgram, categories: Seq<Vec<String>>, v: usize, leaf: usize)
    requires
        p.wf(),
        contracts(c, p, categories),
        v < p.nodes@.len(),
        leaf < p.nodes@[v as int].output_leaf_paths.len(),
        read_from_outside(p, region_table(p, categories), source_flags(p)).contains((v, leaf)) || p.is_input_source(v as int),
    ensures
        ({
            let s = outer_source(p, categories, v, leaf);
            c.program.nodes@[s.0 as int].output_leaf_types@[s.1 as int]@ == p.nodes@[v as int].output_leaf_types@[leaf as int]@
        }),
{
    let input = plan_input(p, categories);
    let q = c.program;
    let h = p.input_sources@.len();
    let table = region_table(p, categories);
    if input.hoisted[v as int] {
        let k = source_position(p, v);
        assert(p.is_input_source(v as int));
        assert(0 <= k < h && p.input_sources@[k].node == v);
        assert(q.nodes@[k] == p.nodes@[v as int]);
    } else {
        crate::quantum_program::heuristic::lemma_key_recorded_pub(input, v);
        let r = region_of_node(p, categories, v as int).unwrap();
        lemma_members_valid(p, categories, r as int);
        let bo = region_boundary(p, categories, r as int, false);
        lemma_boundary_of(p.nodes@, members_of(p, categories, r as int), read_from_outside(p, table, source_flags(p)), false);
        assert(bo.contains((v, leaf)));
        let t = leaf_position(bo, (v, leaf));
        assert(bo[t] == (v, leaf));
        assert(region_node(q.nodes@[h + r], p, categories, r as int));
        reveal(region_leaf_types);
        let node = q.nodes@[h + r];
        lemma_node_count_bound(p, categories);
        crate::quantum_program::heuristic::lemma_region_count(input);
        assert(node.output_leaf_paths@.len() == bo.len());
        assert(node.output_leaf_paths@.len() == node.output_leaf_paths.len());
        assert(outer_source(p, categories, v, leaf).0 as int == h + r);
        assert(outer_source(p, categories, v, leaf).1 as int == t);
        assert(type_views(node.output_leaf_types@)[t] == leaf_type_views(p.nodes@, bo, false)[t]);
        assert(type_views(node.output_leaf_types@).len() == bo.len());
        assert(node.output_leaf_types@.len() == bo.len());
        assert(type_views(node.output_leaf_types@)[t] == node.output_leaf_types@[t]@);
        assert(leaf_type_views(p.nodes@, bo, false)[t] == p.nodes@[v as int].output_leaf_types@[leaf as int]@);
    }
}

/// The contracted program has the inputs and outputs of the program it contracts, with the same
/// keys in the same order and the same leaf types: its flat arguments and results are those of
/// the program.
pub proof fn lemma_contraction_keeps_io_types(c: ContractedProgram, p: QuantumProgram, categories: Seq<Vec<String>>)
    requires
        p.wf(),
        contracts(c, p, categories),
    ensures
        c.program.input_type_views() == p.input_type_views(),
        c.program.output_type_views() == p.output_type_views(),
{
    let input = plan_input(p, categories);
    let q = c.program;
    assert forall|k: int| 0 <= k < p.inputs@.len() implies #[trigger] q.input_type_views()[k] == p.input_type_views()[k] by {
        let b = p.inputs@[k];
        assert(p.inputs[k] == b);
        assert(input_leaves(p, p.inputs@.len() as int).contains((b.node, b.leaf)));
        lemma_outer_target_type(c, p, categories, b.node, b.leaf);
        assert(q.inputs[k] == q.inputs@[k]);
    }
    assert(q.input_type_views() =~= p.input_type_views());
    assert forall|k: int| 0 <= k < p.outputs@.len() implies #[trigger] q.output_type_views()[k] == p.output_type_views()[k] by {
        let b = p.outputs@[k];
        assert(p.outputs[k] == b);
        if !input.hoisted[b.node as int] {
            assert(output_leaves(p, source_flags(p), p.outputs@.len() as int).contains((b.node, b.leaf)));
        } else {
            assert(p.is_input_source(b.node as int));
        }
        lemma_outer_source_type(c, p, categories, b.node, b.leaf);
        assert(q.outputs[k] == q.outputs@[k]);
    }
    assert(q.output_type_views() =~= p.output_type_views());
}

/// Each edge of the contracted program comes from an edge of the program it contracts that
/// crosses a region boundary.
proof fn lemma_outer_edge_origin(p: QuantumProgram, categories: Seq<Vec<String>>, m: nat, k: int)
    requires
        m <= p.edges@.len(),
        0 <= k < outer_edges(p, categories, m).len(),
    ensures
        exists|j: int| 0 <= j < m && crosses(region_table(p, categories), #[trigger] p.edges@[j])
            && outer_edges(p, categories, m)[k] == outer_edge(p, categories, p.edges@[j]),
    decreases m,
{
    let rest = outer_edges(p, categories, (m - 1) as nat);
    if k < rest.len() {
        lemma_outer_edge_origin(p, categories, (m - 1) as nat, k);
        let j = choose|j: int| 0 <= j < m - 1 && crosses(region_table(p, categories), #[trigger] p.edges@[j])
            && rest[k] == outer_edge(p, categories, p.edges@[j]);
        assert(outer_edges(p, categories, m)[k] == rest[k]);
    } else {
        assert(crosses(region_table(p, categories), p.edges@[m - 1]));
    }
}

/// The source of an edge into `v` is listed among the sources into `v`.
proof fn lemma_source_listed(edges: Seq<Edge>, v: usize, m: int)
    requires
        0 <= m < edges.len(),
        edges[m].tgt == v,
    ensures
        exists|k: int| 0 <= k < sources_into(edges, v).len() && #[trigger] sources_into(edges, v)[k] == edges[m].src,
    decreases edges.len(),
{
    let front = edges.drop_last();
    if m < edges.len() - 1 {
        lemma_source_listed(front, v, m);
        let k = choose|k: int| 0 <= k < sources_into(front, v).len() && #[trigger] sources_into(front, v)[k] == front[m].src;
        assert(sources_into(edges, v)[k] == edges[m].src);
    } else {
        let k = sources_into(front, v).len() as int;
        assert(sources_into(edges, v)[k] == edges[m].src);
    }
}

/// Every edge of the contracted program between two region nodes goes from an earlier region to
/// a later one: the regions are listed in an order in which no region depends on a later one.
pub proof fn lemma_region_edges_go_forward(c: ContractedProgram, p: QuantumProgram, categories: Seq<Vec<String>>, k: int)
    requires
        p.wf(),
        contracts(c, p, categories),
        0 <= k < c.program.edges@.len(),
        c.program.edges@[k].src >= p.input_sources@.len(),
    ensures
        c.program.edges@[k].src < c.program.edges@[k].tgt,
{
    let input = plan_input(p, categories);
    let table = region_table(p, categories);
    lemma_outer_edge_origin(p, categories, p.edges@.len(), k);
    let j = choose|j: int| 0 <= j < p.edges@.len() && crosses(table, #[trigger] p.edges@[j])
        && outer_edges(p, categories, p.edges@.len())[k] == outer_edge(p, categories, p.edges@[j]);
    let e = p.edges@[j];
    let h = p.input_sources@.len();
    if input.hoisted[e.src as int] {
        let s = source_position(p, e.src);
        assert(p.is_input_source(e.src as int));
        assert(0 <= s < h);
    } else {
        assert(!input.hoisted[e.tgt as int]) by {
            if input.hoisted[e.tgt as int] {
                let q = choose|q: int| 0 <= q < p.input_sources@.len() && #[trigger] p.input_sources@[q].node == e.tgt;
                assert(p.input_sources@[q].node == e.tgt);
            }
        }
        lemma_source_listed(p.edges@, e.tgt, j);
        let kk = choose|kk: int| 0 <= kk < sources_into(p.edges@, e.tgt).len() && #[trigger] sources_into(p.edges@, e.tgt)[kk] == e.src;
        assert(input.preds[e.tgt as int][kk] == e.src);
        lemma_regions_follow_edges(input, e.tgt, kk);
        crate::quantum_program::heuristic::lemma_key_recorded_pub(input, e.src);
        crate::quantum_program::heuristic::lemma_key_recorded_pub(input, e.tgt);
        let ru = region_of_node(p, categories, e.src as int).unwrap();
        let rv = region_of_node(p, categories, e.tgt as int).unwrap();
        assert(table[e.src as int] == Some(ru));
        assert(table[e.tgt as int] == Some(rv));
        assert(ru != rv);
        assert(c.program.nodes.len() == c.program.nodes@.len());
        assert(c.program.edges@[k].src == h + ru);
        assert(c.program.edges@[k].tgt == h + rv);
    }
}

/// Along an edge of a graph in topological order, the source stands before the target.
proof fn lemma_edge_goes_forward(n: nat, edges: Seq<(usize, usize)>, o: Seq<usize>, k: int)
    requires
        is_topological(n, edges, o),
        0 <= k < edges.len(),
        edges[k].0 < n,
        edges[k].1 < n,
    ensures
        o.contains(edges[k].0),
        o.contains(edges[k].1),
        o.index_of(edges[k].0) < o.index_of(edges[k].1),
{
    crate::quantum_program::heuristic::lemma_order_covers(o, n);
    assert(o.contains(edges[k].1 as usize));
    let i = o.index_of(edges[k].1);
    o.index_of_first_ensures(edges[k].1);
    assert(o[i] == edges[k].1);
    let j = choose|j: int| 0 <= j < i && o[j] == edges[k].0;
    o.index_of_first_ensures(edges[k].0);
    assert(o.index_of(edges[k].0) == j);
}

/// Along the first `m + 1` edges of a closed walk the position in a topological order rises
/// by at least `m`.
proof fn lemma_walk_rises(n: nat, edges: Seq<(usize, usize)>, o: Seq<usize>, walk: Seq<int>, m: int)
    requires
        is_topological(n, edges, o),
        is_closed_walk(edges, walk),
        forall|k: int| 0 <= k < edges.len() ==> #[trigger] edges[k].0 < n && edges[k].1 < n,
        0 <= m < walk.len(),
    ensures
        o.index_of(edges[walk[m]].1) >= o.index_of(edges[walk[0]].0) + m + 1,
    decreases m,
{
    assert(0 <= walk[m] < edges.len());
    lemma_edge_goes_forward(n, edges, o, walk[m]);
    if m > 0 {
        lemma_walk_rises(n, edges, o, walk, m - 1);
        assert(edges[walk[m - 1]].1 == edges[walk[m]].0);
    }
}

/// A graph with a closed walk has no topological order.
pub proof fn lemma_cycle_has_no_order(n: nat, edges: Seq<(usize, usize)>, walk: Seq<int>)
    requires
        forall|k: int| 0 <= k < edges.len() ==> #[trigger] edges[k].0 < n && edges[k].1 < n,
        is_closed_walk(edges, walk),
    ensures
        !has_topological_order(n, edges),
{
    if has_topological_order(n, edges) {
        let o = choose|o: Seq<usize>| is_topological(n, edges, o);
        let last = walk.len() - 1;
        lemma_walk_rises(n, edges, o, walk, last);
        assert(edges[walk[last]].1 == edges[walk[0]].0);
    }
}

/// A sequence of distinct nodes below `n` holds at most `n` of them.
proof fn lemma_distinct_below(s: Seq<usize>, n: nat)
    requires
        s.no_duplicates(),
        forall|i: int| 0 <= i < s.len() ==> #[trigger] s[i] < n,
    ensures
        s.len() <= n,
{
    broadcast use vstd::seq_lib::seq_to_set_is_finite;
    let t = s.map_values(|x: usize| x as int);
    assert(t.no_duplicates()) by {
        assert forall|i: int, j: int| 0 <= i < t.len() && 0 <= j < t.len() && i != j implies t[i] != t[j] by {
            assert(s[i] != s[j]);
        }
    }
    t.unique_seq_to_set();
    vstd::set_lib::lemma_int_range(0, n as int);
    let range = vstd::set_lib::set_int_range(0, n as int);
    assert(t.to_set().subset_of(range)) by {
        assert forall|x: int| t.to_set().contains(x) implies range.contains(x) by {
            let i = choose|i: int| 0 <= i < t.len() && t[i] == x;
            assert(s[i] < n);
        }
    }
    vstd::set_lib::lemma_len_subset(t.to_set(), range);
}

/// A sequence of distinct nodes holding every node below `n` holds at least `n` of them.
proof fn lemma_distinct_covering(s: Seq<usize>, n: nat)
    requires
        n <= usize::MAX,
        s.no_duplicates(),
        forall|v: usize| v < n ==> #[trigger] s.contains(v),
    ensures
        s.len() >= n,
{
    broadcast use vstd::seq_lib::seq_to_set_is_finite;
    let t = s.map_values(|x: usize| x as int);
    assert(t.no_duplicates()) by {
        assert forall|i: int, j: int| 0 <= i < t.len() && 0 <= j < t.len() && i != j implies t[i] != t[j] by {
            assert(s[i] != s[j]);
        }
    }
    t.unique_seq_to_set();
    vstd::set_lib::lemma_int_range(0, n as int);
    let range = vstd::set_lib::set_int_range(0, n as int);
    assert(range.subset_of(t.to_set())) by {
        assert forall|x: int| range.contains(x) implies t.to_set().contains(x) by {
            let v = x as usize;
            assert(s.contains(v));
            let i = choose|i: int| 0 <= i < s.len() && s[i] == v;
            assert(t[i] == x);
        }
    }
    vstd::set_lib::lemma_len_subset(range, t.to_set());
}

/// Whether each node below `n` outside `placed` has an edge into it from another node outside
/// `placed`.
spec fn stuck(n: nat, edges: Seq<(usize, usize)>, placed: Seq<usize>) -> bool {
    forall|v: usize| v < n && !placed.contains(v) ==> exists|k: int| 0 <= k < edges.len()
        && #[trigger] edges[k].1 == v && !placed.contains(edges[k].0)
}

/// An edge into `v` from a node outside `placed`.
spec fn entering_edge(edges: Seq<(usize, usize)>, placed: Seq<usize>, v: usize) -> int {
    choose|k: int| 0 <= k < edges.len() && #[trigger] edges[k].1 == v && !placed.contains(edges[k].0)
}

/// The node reached from `start` by going back `i` times along entering edges.
spec fn back_node(edges: Seq<(usize, usize)>, placed: Seq<usize>, start: usize, i: nat) -> usize
    decreases i,
{
    if i == 0 {
        start
    } else {
        edges[entering_edge(edges, placed, back_node(edges, placed, start, (i - 1) as nat))].0
    }
}

/// Going back from a node outside `placed` stays outside `placed`, along edges of the graph.
proof fn lemma_back_chain(n: nat, edges: Seq<(usize, usize)>, placed: Seq<usize>, start: usize, i: nat)
    requires
        forall|k: int| 0 <= k < edges.len() ==> #[trigger] edges[k].0 < n && edges[k].1 < n,
        stuck(n, edges, placed),
        start < n,
        !placed.contains(start),
    ensures
        back_node(edges, placed, start, i) < n,
        !placed.contains(back_node(edges, placed, start, i)),
        0 <= entering_edge(edges, placed, back_node(edges, placed, start, i)) < edges.len(),
        edges[entering_edge(edges, placed, back_node(edges, placed, start, i))].1 == back_node(edges, placed, start, i),
        edges[entering_edge(edges, placed, back_node(edges, placed, start, i))].0 == back_node(edges, placed, start, i + 1),
    decreases i,
{
    if i > 0 {
        lemma_back_chain(n, edges, placed, start, (i - 1) as nat);
    }
    let v = back_node(edges, placed, start, i);
    assert(exists|k: int| 0 <= k < edges.len() && #[trigger] edges[k].1 == v && !placed.contains(edges[k].0));
    let k = entering_edge(edges, placed, v);
    assert(edges[k].0 < n);
}

/// Going back from a node outside `placed` for `n` steps meets some node twice.
proof fn lemma_chain_repeats(n: nat, edges: Seq<(usize, usize)>, placed: Seq<usize>, start: usize) -> (ab: (nat, nat))
    requires
        forall|k: int| 0 <= k < edges.len() ==> #[trigger] edges[k].0 < n && edges[k].1 < n,
        stuck(n, edges, placed),
        start < n,
        !placed.contains(start),
    ensures
        ab.0 < ab.1 <= n,
        back_node(edges, placed, start, ab.0) == back_node(edges, placed, start, ab.1),
{
    let c = Seq::new(n + 1, |i: int| back_node(edges, placed, start, i as nat));
    assert forall|i: int| 0 <= i < c.len() implies #[trigger] c[i] < n by {
        lemma_back_chain(n, edges, placed, start, i as nat);
    }
    if c.no_duplicates() {
        lemma_distinct_below(c, n);
    }
    let (x, y) = choose|x: int, y: int| 0 <= x < c.len() && 0 <= y < c.len() && x != y && c[x] == c[y];
    if x < y { (x as nat, y as nat) } else { (y as nat, x as nat) }
}

/// The walk back from node `b` to node `a` of the chain, read forwards: its edge `t` enters
/// node `b - 1 - t`.
spec fn chain_walk(edges: Seq<(usize, usize)>, placed: Seq<usize>, start: usize, a: nat, b: nat) -> Seq<int> {
    Seq::new((b - a) as nat, |t: int| entering_edge(edges, placed, back_node(edges, placed, start, (b - 1 - t) as nat)))
}

/// Each edge of the walk from a repeated node back to itself ends where the next one starts.
proof fn lemma_chain_walk_link(n: nat, edges: Seq<(usize, usize)>, placed: Seq<usize>, start: usize, a: nat, b: nat, t: int)
    requires
        forall|k: int| 0 <= k < edges.len() ==> #[trigger] edges[k].0 < n && edges[k].1 < n,
        stuck(n, edges, placed),
        start < n,
        !placed.contains(start),
        a < b,
        back_node(edges, placed, start, a) == back_node(edges, placed, start, b),
        0 <= t < b - a,
    ensures
        ({
            let walk = chain_walk(edges, placed, start, a, b);
            &&& 0 <= walk[t] < edges.len()
            &&& edges[walk[t]].1 == edges[walk[if t + 1 < walk.len() { t + 1 } else { 0 }]].0
        }),
{
    let walk = chain_walk(edges, placed, start, a, b);
    lemma_back_chain(n, edges, placed, start, (b - 1 - t) as nat);
    if t + 1 < walk.len() {
        lemma_back_chain(n, edges, placed, start, (b - 2 - t) as nat);
        assert((b - 2 - t) as nat + 1 == (b - 1 - t) as nat);
    } else {
        lemma_back_chain(n, edges, placed, start, (b - 1) as nat);
        assert((b - 1 - t) as nat == a);
        assert((b - 1) as nat + 1 == b);
    }
}

/// A graph whose every node outside `placed` is entered from outside `placed`, with some node
/// outside `placed`, has a closed walk.
proof fn lemma_stuck_has_cycle(n: nat, edges: Seq<(usize, usize)>, placed: Seq<usize>, start: usize)
    requires
        forall|k: int| 0 <= k < edges.len() ==> #[trigger] edges[k].0 < n && edges[k].1 < n,
        stuck(n, edges, placed),
        start < n,
        !placed.contains(start),
    ensures
        exists|walk: Seq<int>| is_closed_walk(edges, walk),
{
    let (a, b) = lemma_chain_repeats(n, edges, placed, start);
    let walk = chain_walk(edges, placed, start, a, b);
    assert forall|t: int| 0 <= t < walk.len() implies 0 <= #[trigger] walk[t] < edges.len() by {
        lemma_chain_walk_link(n, edges, placed, start, a, b, t);
    }
    assert forall|t: int| 0 <= t < walk.len() implies edges[#[trigger] walk[t]].1
        == edges[walk[if t + 1 < walk.len() { t + 1 } else { 0 }]].0 by {
        lemma_chain_walk_link(n, edges, placed, start, a, b, t);
    }
    assert(is_closed_walk(edges, walk));
}

/// Whether `placed` lists distinct nodes below `n`, each after the sources of its incoming
/// edges.
spec fn placed_in_order(n: nat, edges: Seq<(usize, usize)>, placed: Seq<usize>) -> bool {
    &&& placed.no_duplicates()
    &&& forall|i: int| 0 <= i < placed.len() ==> #[trigger] placed[i] < n
    &&& forall|k: int, i: int| #![trigger edges[k], placed[i]]
        0 <= k < edges.len() && 0 <= i < placed.len() && placed[i] == edges[k].1
        ==> exists|j: int| 0 <= j < i && placed[j] == edges[k].0
}

/// Whether `v` is a node below `n` outside `placed` whose incoming edges all come from
/// `placed`.
spec fn ready(n: nat, edges: Seq<(usize, usize)>, placed: Seq<usize>, v: usize) -> bool {
    &&& v < n
    &&& !placed.contains(v)
    &&& forall|k: int| 0 <= k < edges.len() && #[trigger] edges[k].1 == v ==> placed.contains(edges[k].0)
}

/// An order that lists nodes after the sources of their incoming edges extends to a
/// topological order of a graph with no closed walk.
proof fn lemma_extend_order(n: nat, edges: Seq<(usize, usize)>, placed: Seq<usize>) -> (o: Seq<usize>)
    requires
        n <= usize::MAX,
        forall|k: int| 0 <= k < edges.len() ==> #[trigger] edges[k].0 < n && edges[k].1 < n,
        forall|walk: Seq<int>| !is_closed_walk(edges, walk),
        placed_in_order(n, edges, placed),
        placed.len() <= n,
    ensures
        is_topological(n, edges, o),
    decreases n - placed.len(),
{
    if placed.len() == n {
        placed
    } else {
        if !exists|v: usize| ready(n, edges, placed, v) {
            if forall|v: usize| v < n ==> #[trigger] placed.contains(v) {
                lemma_distinct_covering(placed, n);
            }
            let start = choose|v: usize| v < n && !placed.contains(v);
            assert forall|v: usize| v < n && !placed.contains(v) implies exists|k: int| 0 <= k < edges.len()
                && #[trigger] edges[k].1 == v && !placed.contains(edges[k].0) by {
                assert(!ready(n, edges, placed, v));
            }
            lemma_stuck_has_cycle(n, edges, placed, start);
        }
        let v = choose|v: usize| ready(n, edges, placed, v);
        let next = placed.push(v);
        assert(next.no_duplicates()) by {
            assert forall|i: int, j: int| 0 <= i < next.len() && 0 <= j < next.len() && i != j implies next[i] != next[j] by {
                if i < placed.len() && j < placed.len() {
                    assert(placed[i] != placed[j]);
                } else if i < placed.len() {
                    assert(placed.contains(next[i]));
                } else {
                    assert(placed.contains(next[j]));
                }
            }
        }
        assert forall|k: int, i: int| #![trigger edges[k], next[i]]
            0 <= k < edges.len() && 0 <= i < next.len() && next[i] == edges[k].1
            implies exists|j: int| 0 <= j < i && next[j] == edges[k].0 by {
            if i < placed.len() {
                assert(placed[i] == edges[k].1);
                let j = choose|j: int| 0 <= j < i && placed[j] == edges[k].0;
                assert(next[j] == edges[k].0);
            } else {
                assert(placed.contains(edges[k].0));
                let j = choose|j: int| 0 <= j < placed.len() && placed[j] == edges[k].0;
                assert(next[j] == edges[k].0);
            }
        }
        lemma_extend_order(n, edges, next)
    }
}

/// A graph whose edges form no closed walk has a topological order.
pub proof fn lemma_acyclic_has_order(n: nat, edges: Seq<(usize, usize)>)
    requires
        n <= usize::MAX,
        forall|k: int| 0 <= k < edges.len() ==> #[trigger] edges[k].0 < n && edges[k].1 < n,
        forall|walk: Seq<int>| !is_closed_walk(edges, walk),
    ensures
        has_topological_order(n, edges),
{
    let o = lemma_extend_order(n, edges, Seq::empty());
}

/// Every region has at least one member.
pub proof fn lemma_regions_have_members(c: ContractedProgram, p: QuantumProgram, categories: Seq<Vec<String>>, r: int)
    requires
        p.wf(),
        contracts(c, p, categories),
        0 <= r < c.regions@.len(),
    ensures
        c.regions@[r]@.members.len() > 0,
{
    let input = plan_input(p, categories);
    crate::quantum_program::heuristic::lemma_regions_nonempty(input, r as usize);
    assert(c.regions@[r]@ == expected_region(p, categories, r));
}

/// Every node other than the input sources is a member of exactly one region; an input source
/// is a member of none.
pub proof fn lemma_node_in_one_region(c: ContractedProgram, p: QuantumProgram, categories: Seq<Vec<String>>, v: usize)
    requires
        p.wf(),
        contracts(c, p, categories),
        v < p.nodes@.len(),
    ensures
        p.is_input_source(v as int) ==> forall|r: int| 0 <= r < region_count(p, categories) ==> !#[trigger] members_of(p, categories, r).contains(v),
        !p.is_input_source(v as int) ==> exists|r: int| 0 <= r < region_count(p, categories) && #[trigger] members_of(p, categories, r).contains(v),
        forall|q: int, r: int| 0 <= q < region_count(p, categories) && 0 <= r < region_count(p, categories)
            && #[trigger] members_of(p, categories, q).contains(v) && #[trigger] members_of(p, categories, r).contains(v) ==> q == r,
{
    let input = plan_input(p, categories);
    crate::quantum_program::heuristic::lemma_region_count(input);
    assert forall|r: int| 0 <= r < region_count(p, categories) implies
        (#[trigger] members_of(p, categories, r).contains(v) <==> region_of_node(p, categories, v as int) == Some(r as usize)) by {
        lemma_members_valid(p, categories, r);
    }
    assert forall|q: int, r: int| 0 <= q < region_count(p, categories) && 0 <= r < region_count(p, categories)
        && #[trigger] members_of(p, categories, q).contains(v) && #[trigger] members_of(p, categories, r).contains(v) implies q == r by {
        lemma_members_valid(p, categories, q);
        lemma_members_valid(p, categories, r);
        assert(q as usize == r as usize);
    }
    if !p.is_input_source(v as int) {
        assert(!input.hoisted[v as int]);
        crate::quantum_program::heuristic::lemma_key_recorded_pub(input, v);
        let r = region_of_node(p, categories, v as int).unwrap();
        lemma_members_valid(p, categories, r as int);
        assert(members_of(p, categories, r as int).contains(v));
    } else {
        assert(input.hoisted[v as int]);
        assert(region_of_node(p, categories, v as int) is None);
    }
}

/// Whether the categories among the first `m` that list `name` are none.
proof fn lemma_listed_none(cats: Seq<Seq<Seq<char>>>, name: Seq<char>, m: nat)
    requires
        listed_upto(cats, name, m).len() == 0,
    ensures
        forall|c: int| 0 <= c < m ==> !(#[trigger] cats[c]).contains(name),
    decreases m,
{
    if m > 0 {
        lemma_listed_none(cats, name, (m - 1) as nat);
    }
}

/// A category listed for `name` is one whose list holds it.
proof fn lemma_listed_holds(cats: Seq<Seq<Seq<char>>>, name: Seq<char>, m: nat, c: usize)
    requires
        listed_upto(cats, name, m).contains(c),
        m <= usize::MAX,
    ensures
        c < m,
        cats[c as int].contains(name),
    decreases m,
{
    let rest = listed_upto(cats, name, (m - 1) as nat);
    if cats[m - 1].contains(name) {
        lemma_push_contains(rest, (m - 1) as usize, c);
    }
    if rest.contains(c) {
        lemma_listed_holds(cats, name, (m - 1) as nat, c);
    }
}

/// A region's category lists the type of each of its members; a region without a category holds
/// only nodes whose type no category lists.
pub proof fn lemma_region_category(c: ContractedProgram, p: QuantumProgram, categories: Seq<Vec<String>>, r: int, i: int)
    requires
        p.wf(),
        contracts(c, p, categories),
        categories.len() < usize::MAX,
        0 <= r < region_count(p, categories),
        0 <= i < members_of(p, categories, r).len(),
    ensures
        ({
            let cats = category_names(categories);
            let name = kind_name(p.nodes@[members_of(p, categories, r)[i] as int].kind);
            match c.regions@[r]@.category {
                Some(cat) => cat < categories.len() && cats[cat as int].contains(name),
                None => forall|cat: int| 0 <= cat < categories.len() ==> !(#[trigger] cats[cat]).contains(name),
            }
        }),
{
    let input = plan_input(p, categories);
    let cats = category_names(categories);
    let v = members_of(p, categories, r)[i];
    let name = kind_name(p.nodes@[v as int].kind);
    lemma_members_valid(p, categories, r);
    assert(members_of(p, categories, r).contains(v));
    assert(!input.hoisted[v as int]);
    lemma_region_colour_of_member(input, v);
    lemma_colour_is_admissible(input, v);
    let colour = final_plan(p, categories).colour[v as int];
    assert(colour_of(p, categories, r) == colour);
    let listed = listed_upto(cats, name, cats.len());
    if listed.len() == 0 {
        lemma_listed_none(cats, name, cats.len());
        assert(input.admissible[v as int] == seq![categories.len() as usize]);
    } else {
        lemma_listed_holds(cats, name, cats.len(), colour);
    }
}

/// No key repeats among the keys given to a sequence of ports.
proof fn lemma_unique_keys_distinct(bases: Seq<Seq<char>>)
    ensures
        unique_keys(bases).no_duplicates(),
    decreases bases.len(),
{
    if bases.len() > 0 {
        let before = unique_keys(bases.drop_last());
        lemma_unique_keys_distinct(bases.drop_last());
        let seen = before.to_set();
        let key = fresh_key(seen, bases.last());
        lemma_fresh_key_is_fresh(seen, bases.last());
        assert forall|i: int, j: int| 0 <= i < before.push(key).len() && 0 <= j < before.push(key).len() && i != j
            implies before.push(key)[i] != before.push(key)[j] by {
            if i == before.len() {
                assert(before.contains(before[j]));
            } else if j == before.len() {
                assert(before.contains(before[i]));
            }
        }
    }
}

/// A key made fresh against a finite set of keys is not among them.
proof fn lemma_fresh_key_is_fresh(seen: Set<Seq<char>>, base: Seq<char>)
    requires
        seen.finite(),
    ensures
        !seen.contains(fresh_key(seen, base)),
{
    if seen.contains(base) {
        crate::quantum_program::ports::lemma_some_alternative_free(seen, base);
    }
}

/// Each key is its plain key, or the plain key numbered from 1 on.
proof fn lemma_unique_key_form(bases: Seq<Seq<char>>, i: int)
    requires
        0 <= i < bases.len(),
    ensures
        unique_keys(bases)[i] == bases[i] || exists|n: nat| n >= 1 && unique_keys(bases)[i] == numbered(bases[i], n),
    decreases bases.len(),
{
    let before = unique_keys(bases.drop_last());
    lemma_unique_keys_len(bases.drop_last());
    if i < bases.len() - 1 {
        lemma_unique_key_form(bases.drop_last(), i);
        assert(unique_keys(bases)[i] == before[i]);
    } else {
        let seen = before.to_set();
        if seen.contains(bases.last()) {
            broadcast use vstd::seq_lib::seq_to_set_is_finite;
            crate::quantum_program::ports::lemma_some_alternative_free(seen, bases.last());
            let n = choose|n: nat| first_free(seen, bases.last(), n);
            assert(unique_keys(bases)[i] == numbered(bases[i], n));
        }
    }
}

/// Whether `key` is `base`, or `base` followed by `#n` with `n` from 1 on.
pub open spec fn key_from_base(key: Seq<char>, base: Seq<char>) -> bool {
    key == base || exists|n: nat| n >= 1 && key == numbered(base, n)
}

/// Each key of a region's ports is the port's plain key, `"{member_label}.{port_path}"` or
/// `"{member_label}"` for a root port, or that key followed by `#n` with `n` from 1 on.
pub proof fn lemma_region_key_form(c: ContractedProgram, p: QuantumProgram, categories: Seq<Vec<String>>, r: int, input_side: bool, i: int)
    requires
        contracts(c, p, categories),
        0 <= r < region_count(p, categories),
        0 <= i < (if input_side { c.regions@[r]@.input_ports } else { c.regions@[r]@.output_ports }).len(),
    ensures
        ({
            let entry = if input_side { c.regions@[r]@.input_ports[i] } else { c.regions@[r]@.output_ports[i] };
            key_from_base(entry.0, port_key_text(entry.1.0, entry.1.1))
        }),
{
    let leaves = region_boundary(p, categories, r, input_side);
    let bases = port_bases(p.nodes@, leaves, input_side);
    let keys = unique_keys(bases);
    lemma_unique_keys_len(bases);
    lemma_unique_key_form(bases, i);
    assert(c.regions@[r]@ == expected_region(p, categories, r));
    let entries = port_entries(p.nodes@, leaves, input_side);
    let entry = if input_side { c.regions@[r]@.input_ports[i] } else { c.regions@[r]@.output_ports[i] };
    assert(entry == entries[i]);
    assert(entry.0 == keys[i]);
    assert(port_key_text(entry.1.0, entry.1.1) == bases[i]);
    if keys[i] != bases[i] {
        let n = choose|n: nat| n >= 1 && keys[i] == numbered(bases[i], n);
        assert(n >= 1 && entry.0 == numbered(port_key_text(entry.1.0, entry.1.1), n));
    }
}

/// The keys of a region's inputs are distinct, and so are the keys of its outputs.
pub proof fn lemma_region_keys_distinct(c: ContractedProgram, p: QuantumProgram, categories: Seq<Vec<String>>, r: int)
    requires
        contracts(c, p, categories),
        0 <= r < region_count(p, categories),
    ensures
        forall|i: int, j: int| 0 <= i < j < c.regions@[r]@.input_ports.len()
            ==> (#[trigger] c.regions@[r]@.input_ports[i]).0 != (#[trigger] c.regions@[r]@.input_ports[j]).0,
        forall|i: int, j: int| 0 <= i < j < c.regions@[r]@.output_ports.len()
            ==> (#[trigger] c.regions@[r]@.output_ports[i]).0 != (#[trigger] c.regions@[r]@.output_ports[j]).0,
{
    let bi = region_boundary(p, categories, r, true);
    let bo = region_boundary(p, categories, r, false);
    let ki = unique_keys(port_bases(p.nodes@, bi, true));
    let ko = unique_keys(port_bases(p.nodes@, bo, false));
    lemma_unique_keys_distinct(port_bases(p.nodes@, bi, true));
    lemma_unique_keys_distinct(port_bases(p.nodes@, bo, false));
    lemma_unique_keys_len(port_bases(p.nodes@, bi, true));
    lemma_unique_keys_len(port_bases(p.nodes@, bo, false));
    let region = c.regions@[r]@;
    assert(region == expected_region(p, categories, r));
    assert forall|i: int, j: int| 0 <= i < j < region.input_ports.len()
        implies (#[trigger] region.input_ports[i]).0 != (#[trigger] region.input_ports[j]).0 by {
        assert(region.input_ports[i].0 == ki[i]);
        assert(region.input_ports[j].0 == ki[j]);
    }
    assert forall|i: int, j: int| 0 <= i < j < region.output_ports.len()
        implies (#[trigger] region.output_ports[i]).0 != (#[trigger] region.output_ports[j]).0 by {
        assert(region.output_ports[i].0 == ko[i]);
        assert(region.output_ports[j].0 == ko[j]);
    }
}

// ---------------------------------------------------------------------------
// The contracted program is well formed
// ---------------------------------------------------------------------------

/// The hoisted nodes among the first `k` of the order.
spec fn hoisted_seen(input: HeuristicInput, k: nat) -> Set<usize> {
    Set::new(|v: usize| exists|i: int| 0 <= i < k && input.topo[i] == v && input.hoisted[v as int])
}

/// The hoisted nodes among the first `k` of the order are as many as the count says.
proof fn lemma_hoisted_seen(input: HeuristicInput, k: nat)
    requires
        valid_input(input),
        k <= input.topo.len(),
    ensures
        hoisted_seen(input, k).finite(),
        hoisted_seen(input, k).len() == count_upto(input, k, true),
    decreases k,
{
    if k == 0 {
        assert(hoisted_seen(input, 0) =~= Set::<usize>::empty());
    } else {
        lemma_hoisted_seen(input, (k - 1) as nat);
        let before = hoisted_seen(input, (k - 1) as nat);
        let v = input.topo[k - 1];
        if input.hoisted[v as int] {
            assert(!before.contains(v)) by {
                if before.contains(v) {
                    let i = choose|i: int| 0 <= i < k - 1 && input.topo[i] == v && input.hoisted[v as int];
                    assert(input.topo[i] == input.topo[k - 1]);
                }
            }
            assert(hoisted_seen(input, k) =~= before.insert(v));
        } else {
            assert(hoisted_seen(input, k) =~= before);
        }
    }
}

/// The input sources and the regions together are no more than the nodes.
proof fn lemma_node_count_bound(p: QuantumProgram, categories: Seq<Vec<String>>)
    requires
        p.wf(),
        valid_input(plan_input(p, categories)),
    ensures
        p.input_sources@.len() + region_count(p, categories) <= p.nodes@.len(),
{
    let input = plan_input(p, categories);
    let n = p.nodes@.len();
    let h = p.input_sources@.len();
    let sources = Seq::new(h, |k: int| p.input_sources@[k].node);
    assert(sources.no_duplicates()) by {
        assert forall|j: int, k: int| 0 <= j < sources.len() && 0 <= k < sources.len() && j != k implies sources[j] != sources[k] by {
            assert(p.input_sources@[j].node != p.input_sources@[k].node);
        }
    }
    sources.unique_seq_to_set();
    crate::quantum_program::heuristic::lemma_order_covers(input.topo, n);
    lemma_hoisted_seen(input, n);
    assert(sources.to_set().subset_of(hoisted_seen(input, n))) by {
        assert forall|v: usize| sources.to_set().contains(v) implies hoisted_seen(input, n).contains(v) by {
            let k = choose|k: int| 0 <= k < sources.len() && sources[k] == v;
            assert(p.input_sources@[k].node == v);
            assert(p.is_input_source(v as int));
            assert(input.topo.contains(v));
            let i = choose|i: int| 0 <= i < input.topo.len() && input.topo[i] == v;
        }
    }
    vstd::set_lib::lemma_len_subset(sources.to_set(), hoisted_seen(input, n));
    crate::quantum_program::heuristic::lemma_keys_within_unhoisted(input, n);
    crate::quantum_program::heuristic::lemma_counts_sum(input, n);
}

/// The first `m` edges crossing a region boundary are at most `m`.
proof fn lemma_outer_edges_len(p: QuantumProgram, categories: Seq<Vec<String>>, m: nat)
    ensures
        outer_edges(p, categories, m).len() <= m,
    decreases m,
{
    if m > 0 {
        lemma_outer_edges_len(p, categories, (m - 1) as nat);
    }
}

/// The first `m` edges inside a region are at most `m`, and each is an edge of `p` inside it.
proof fn lemma_inner_edges(p: QuantumProgram, categories: Seq<Vec<String>>, r: int, m: nat, k: int)
    requires
        m <= p.edges@.len(),
    ensures
        inner_edges(p, categories, r, m).len() <= m,
        0 <= k < inner_edges(p, categories, r, m).len() ==> exists|j: int| 0 <= j < m
            && region_of_node(p, categories, (#[trigger] p.edges@[j]).src as int) == Some(r as usize)
            && region_of_node(p, categories, p.edges@[j].tgt as int) == Some(r as usize)
            && inner_edges(p, categories, r, m)[k] == inner_edge(p, categories, r, p.edges@[j]),
    decreases m,
{
    if m > 0 {
        lemma_inner_edges(p, categories, r, (m - 1) as nat, k);
        let rest = inner_edges(p, categories, r, (m - 1) as nat);
        if 0 <= k < rest.len() {
            let j = choose|j: int| 0 <= j < m - 1
                && region_of_node(p, categories, (#[trigger] p.edges@[j]).src as int) == Some(r as usize)
                && region_of_node(p, categories, p.edges@[j].tgt as int) == Some(r as usize)
                && rest[k] == inner_edge(p, categories, r, p.edges@[j]);
            assert(inner_edges(p, categories, r, m)[k] == rest[k]);
        }
    }
}

/// The members of a region are no more than the nodes.
proof fn lemma_members_len(input: HeuristicInput, plan: Plan, nodes: Seq<usize>, r: usize)
    ensures
        region_members(input, plan, nodes, r).len() <= nodes.len(),
    decreases nodes.len(),
{
    if nodes.len() > 0 {
        lemma_members_len(input, plan, nodes.drop_last(), r);
    }
}

/// The program of each region is well formed.
proof fn lemma_region_program_wf(inner: QuantumProgram, p: QuantumProgram, categories: Seq<Vec<String>>, r: int)
    requires
        p.wf(),
        valid_input(plan_input(p, categories)),
        0 <= r < region_count(p, categories),
        region_program(inner, p, categories, r),
    ensures
        inner.wf(),
{
    let input = plan_input(p, categories);
    let m = members_of(p, categories, r);
    lemma_members_valid(p, categories, r);
    lemma_members_len(input, final_plan(p, categories), input.topo, r as usize);
    lemma_inner_edges(p, categories, r, p.edges@.len(), 0);
    assert forall|k: int| 0 <= k < inner.edges@.len() implies {
        let e = #[trigger] inner.edges@[k];
        &&& e.src < inner.nodes@.len()
        &&& e.tgt < inner.nodes@.len()
        &&& e.from_leaf < inner.nodes@[e.src as int].output_leaf_paths.len()
        &&& e.to_leaf < inner.nodes@[e.tgt as int].input_leaf_paths.len()
    } by {
        lemma_inner_edges(p, categories, r, p.edges@.len(), k);
        let j = choose|j: int| 0 <= j < p.edges@.len()
            && region_of_node(p, categories, (#[trigger] p.edges@[j]).src as int) == Some(r as usize)
            && region_of_node(p, categories, p.edges@[j].tgt as int) == Some(r as usize)
            && inner.edges@[k] == inner_edge(p, categories, r, p.edges@[j]);
        let e = p.edges@[j];
        assert(m.contains(e.src));
        assert(m.contains(e.tgt));
        let s = position_in(m, e.src);
        let t = position_in(m, e.tgt);
        assert(inner.nodes@[s] == p.nodes@[e.src as int]);
        assert(inner.nodes@[t] == p.nodes@[e.tgt as int]);
    }
    let bi = region_boundary(p, categories, r, true);
    let bo = region_boundary(p, categories, r, false);
    lemma_boundary_of(p.nodes@, m, fed_from_outside(p, region_table(p, categories)), true);
    lemma_boundary_of(p.nodes@, m, read_from_outside(p, region_table(p, categories), source_flags(p)), false);
    assert forall|k: int| 0 <= k < inner.inputs@.len() implies {
        let b = #[trigger] inner.inputs@[k];
        b.node < inner.nodes@.len() && b.leaf < inner.nodes@[b.node as int].input_leaf_paths.len()
    } by {
        assert(bi.contains(bi[k]));
        let pos = position_in(m, bi[k].0);
        assert(inner.nodes@[pos] == p.nodes@[bi[k].0 as int]);
    }
    assert forall|k: int| 0 <= k < inner.outputs@.len() implies {
        let b = #[trigger] inner.outputs@[k];
        b.node < inner.nodes@.len() && b.leaf < inner.nodes@[b.node as int].output_leaf_paths.len()
    } by {
        assert(bo.contains(bo[k]));
        let pos = position_in(m, bo[k].0);
        assert(inner.nodes@[pos] == p.nodes@[bo[k].0 as int]);
    }
}

/// The contracted program is well formed, and so is the program of each of its regions.
pub proof fn lemma_contraction_is_well_formed(c: ContractedProgram, p: QuantumProgram, categories: Seq<Vec<String>>)
    requires
        p.wf(),
        contracts(c, p, categories),
    ensures
        c.program.wf(),
        forall|r: int| 0 <= r < region_count(p, categories) ==> ((#[trigger] c.program.nodes@[p.input_sources@.len() + r]).kind
            matches NodeKind::Program(inner) && inner.wf()),
{
    let input = plan_input(p, categories);
    let q = c.program;
    let h = p.input_sources@.len();
    let n_regions = region_count(p, categories);
    let table = region_table(p, categories);
    lemma_node_count_bound(p, categories);
    lemma_outer_edges_len(p, categories, p.edges@.len());
    crate::quantum_program::heuristic::lemma_region_count(input);

    // Where an outer port lands, and how many leaves the node there has.
    assert forall|v: usize, leaf: usize| v < p.nodes@.len() && leaf < p.nodes@[v as int].output_leaf_paths.len()
        && (read_from_outside(p, table, source_flags(p)).contains((v, leaf)) || p.is_input_source(v as int))
        implies ({
            let s = #[trigger] outer_source(p, categories, v, leaf);
            s.0 < q.nodes@.len() && s.1 < q.nodes@[s.0 as int].output_leaf_paths.len()
        }) by {
        if input.hoisted[v as int] {
            let k = source_position(p, v);
            assert(p.is_input_source(v as int));
            assert(0 <= k < h && p.input_sources@[k].node == v);
            assert(q.nodes@[k] == p.nodes@[v as int]);
        } else {
            crate::quantum_program::heuristic::lemma_key_recorded_pub(input, v);
            let r = region_of_node(p, categories, v as int).unwrap();
            lemma_members_valid(p, categories, r as int);
            let bo = region_boundary(p, categories, r as int, false);
            lemma_boundary_of(p.nodes@, members_of(p, categories, r as int), read_from_outside(p, table, source_flags(p)), false);
            assert(bo.contains((v, leaf)));
            assert(region_node(q.nodes@[h + r], p, categories, r as int));
        }
    }
    assert forall|v: usize, leaf: usize| v < p.nodes@.len() && leaf < p.nodes@[v as int].input_leaf_paths.len()
        && fed_from_outside(p, table).contains((v, leaf))
        implies ({
            let t = #[trigger] outer_target(p, categories, v, leaf);
            t.0 < q.nodes@.len() && t.1 < q.nodes@[t.0 as int].input_leaf_paths.len()
        }) by {
        if input.hoisted[v as int] {
            let k = choose|k: int| 0 <= k < p.input_sources@.len() && #[trigger] p.input_sources@[k].node == v;
            assert(p.input_sources@[k].node == v);
        }
        crate::quantum_program::heuristic::lemma_key_recorded_pub(input, v);
        let r = region_of_node(p, categories, v as int).unwrap();
        lemma_members_valid(p, categories, r as int);
        let bi = region_boundary(p, categories, r as int, true);
        lemma_boundary_of(p.nodes@, members_of(p, categories, r as int), fed_from_outside(p, table), true);
        assert(bi.contains((v, leaf)));
        assert(region_node(q.nodes@[h + r], p, categories, r as int));
    }

    assert forall|k: int| 0 <= k < q.edges@.len() implies {
        let e = #[trigger] q.edges@[k];
        &&& e.src < q.nodes@.len()
        &&& e.tgt < q.nodes@.len()
        &&& e.from_leaf < q.nodes@[e.src as int].output_leaf_paths.len()
        &&& e.to_leaf < q.nodes@[e.tgt as int].input_leaf_paths.len()
    } by {
        lemma_outer_edge_origin(p, categories, p.edges@.len(), k);
        let j = choose|j: int| 0 <= j < p.edges@.len() && crosses(table, #[trigger] p.edges@[j])
            && outer_edges(p, categories, p.edges@.len())[k] == outer_edge(p, categories, p.edges@[j]);
        let e = p.edges@[j];
        if !input.hoisted[e.src as int] {
            assert(crossing_sources(p, table, source_flags(p), p.edges@.len() as int).contains((e.src, e.from_leaf)));
        } else {
            assert(p.is_input_source(e.src as int));
        }
        assert(crossing_targets(p, table, p.edges@.len() as int).contains((e.tgt, e.to_leaf)));
        let s = outer_source(p, categories, e.src, e.from_leaf);
        let t = outer_target(p, categories, e.tgt, e.to_leaf);
    }
    assert forall|k: int| 0 <= k < q.inputs@.len() implies {
        let b = #[trigger] q.inputs@[k];
        b.node < q.nodes@.len() && b.leaf < q.nodes@[b.node as int].input_leaf_paths.len()
    } by {
        let b = p.inputs@[k];
        assert(input_leaves(p, p.inputs@.len() as int).contains((b.node, b.leaf)));
        let t = outer_target(p, categories, b.node, b.leaf);
    }
    assert forall|k: int| 0 <= k < q.outputs@.len() implies {
        let b = #[trigger] q.outputs@[k];
        b.node < q.nodes@.len() && b.leaf < q.nodes@[b.node as int].output_leaf_paths.len()
    } by {
        let b = p.outputs@[k];
        if !input.hoisted[b.node as int] {
            assert(output_leaves(p, source_flags(p), p.outputs@.len() as int).contains((b.node, b.leaf)));
        } else {
            assert(p.is_input_source(b.node as int));
        }
        let s = outer_source(p, categories, b.node, b.leaf);
    }
    assert forall|k: int| 0 <= k < q.input_sources@.len() implies {
        let s = #[trigger] q.input_sources@[k];
        s.node < q.nodes@.len() && q.nodes@[s.node as int].input_leaf_paths.len() == 0
    } by {
        assert(q.nodes@[k] == p.nodes@[p.input_sources@[k].node as int]);
    }
    assert forall|v: int| 0 <= v < q.nodes@.len() implies (#[trigger] q.nodes[v]).input_leaf_types.len() == q.nodes[v].input_leaf_paths.len()
        && q.nodes[v].output_leaf_types.len() == q.nodes[v].output_leaf_paths.len() by {
        if v < h {
            assert(q.nodes@[v] == p.nodes@[p.input_sources@[v].node as int]);
            assert(p.nodes[p.input_sources@[v].node as int] == p.nodes@[p.input_sources@[v].node as int]);
        } else {
            let r = v - h;
            assert(region_node(q.nodes@[h + r], p, categories, r));
            reveal(region_leaf_types);
            assert(type_views(q.nodes[v].input_leaf_types@).len() == q.nodes[v].input_leaf_types@.len());
            assert(type_views(q.nodes[v].output_leaf_types@).len() == q.nodes[v].output_leaf_types@.len());
        }
    }
    assert forall|r: int| 0 <= r < n_regions implies ((#[trigger] q.nodes@[h + r]).kind matches NodeKind::Program(inner) && inner.wf()) by {
        assert(region_node(q.nodes@[h + r], p, categories, r));
        if let NodeKind::Program(inner) = q.nodes@[h + r].kind {
            lemma_region_program_wf(*inner, p, categories, r);
        }
    }
}

// ---------------------------------------------------------------------------
// No edge is lost
// ---------------------------------------------------------------------------

/// Each of the first `m` edges that crosses a region boundary is among the first `m` outer edges.
proof fn lemma_crossing_edge_kept(p: QuantumProgram, categories: Seq<Vec<String>>, m: nat, j: int)
    requires
        0 <= j < m <= p.edges@.len(),
        crosses(region_table(p, categories), p.edges@[j]),
    ensures
        outer_edges(p, categories, m).contains(outer_edge(p, categories, p.edges@[j])),
    decreases m,
{
    let rest = outer_edges(p, categories, (m - 1) as nat);
    if j < m - 1 {
        lemma_crossing_edge_kept(p, categories, (m - 1) as nat, j);
        let k = choose|k: int| 0 <= k < rest.len() && rest[k] == outer_edge(p, categories, p.edges@[j]);
        if crosses(region_table(p, categories), p.edges@[m - 1]) {
            assert(outer_edges(p, categories, m)[k] == rest[k]);
        }
    } else {
        assert(outer_edges(p, categories, m) == rest.push(outer_edge(p, categories, p.edges@[j])));
        assert(outer_edges(p, categories, m)[rest.len() as int] == outer_edge(p, categories, p.edges@[j]));
    }
}

/// Each of the first `m` edges with both ends in region `r` is among the first `m` edges of the
/// region's program.
proof fn lemma_inner_edge_kept(p: QuantumProgram, categories: Seq<Vec<String>>, r: int, m: nat, j: int)
    requires
        0 <= j < m <= p.edges@.len(),
        region_of_node(p, categories, p.edges@[j].src as int) == Some(r as usize),
        region_of_node(p, categories, p.edges@[j].tgt as int) == Some(r as usize),
    ensures
        inner_edges(p, categories, r, m).contains(inner_edge(p, categories, r, p.edges@[j])),
    decreases m,
{
    let rest = inner_edges(p, categories, r, (m - 1) as nat);
    let e = p.edges@[m - 1];
    if j < m - 1 {
        lemma_inner_edge_kept(p, categories, r, (m - 1) as nat, j);
        let k = choose|k: int| 0 <= k < rest.len() && rest[k] == inner_edge(p, categories, r, p.edges@[j]);
        if region_of_node(p, categories, e.src as int) == Some(r as usize) && region_of_node(p, categories, e.tgt as int) == Some(r as usize) {
            assert(inner_edges(p, categories, r, m)[k] == rest[k]);
        }
    } else {
        assert(inner_edges(p, categories, r, m) == rest.push(inner_edge(p, categories, r, p.edges@[j])));
        assert(inner_edges(p, categories, r, m)[rest.len() as int] == inner_edge(p, categories, r, p.edges@[j]));
    }
}

/// Contraction loses no edge. An edge that crosses a region boundary is an edge of the contracted
/// program, between the outer ports of its two ends; an edge inside a region joins two members of
/// one region, and is an edge of that region's program, between the positions of its ends among
/// the members.
pub proof fn lemma_contraction_keeps_edges(c: ContractedProgram, p: QuantumProgram, categories: Seq<Vec<String>>, j: int)
    requires
        p.wf(),
        contracts(c, p, categories),
        0 <= j < p.edges@.len(),
    ensures
        crosses(region_table(p, categories), p.edges@[j])
            ==> c.program.edges@.contains(outer_edge(p, categories, p.edges@[j])),
        !crosses(region_table(p, categories), p.edges@[j]) ==> exists|r: int| {
            &&& 0 <= r < region_count(p, categories)
            &&& region_of_node(p, categories, p.edges@[j].src as int) == Some(r as usize)
            &&& region_of_node(p, categories, p.edges@[j].tgt as int) == Some(r as usize)
            &&& (#[trigger] c.program.nodes@[p.input_sources@.len() + r]).kind matches NodeKind::Program(inner)
                && inner.edges@.contains(inner_edge(p, categories, r, p.edges@[j]))
        },
{
    let e = p.edges@[j];
    let input = plan_input(p, categories);
    let table = region_table(p, categories);
    if crosses(table, e) {
        lemma_crossing_edge_kept(p, categories, p.edges@.len(), j);
    } else {
        // The target of an edge has an input leaf, so it is no input source and lies in a region.
        assert(!p.is_input_source(e.tgt as int)) by {
            if p.is_input_source(e.tgt as int) {
                let k = choose|k: int| 0 <= k < p.input_sources@.len() && #[trigger] p.input_sources@[k].node == e.tgt;
                assert(p.nodes@[p.input_sources@[k].node as int].input_leaf_paths.len() == 0);
            }
        }
        assert(!input.hoisted[e.tgt as int]);
        crate::quantum_program::heuristic::lemma_key_recorded_pub(input, e.tgt);
        crate::quantum_program::heuristic::lemma_region_count(input);
        let r = region_of_node(p, categories, e.tgt as int).unwrap() as int;
        assert(table[e.src as int] == table[e.tgt as int]);
        lemma_inner_edge_kept(p, categories, r, p.edges@.len(), j);
        let h = p.input_sources@.len();
        assert(region_node(c.program.nodes@[h + r], p, categories, r));
        if let NodeKind::Program(inner) = c.program.nodes@[h + r].kind {
            assert(inner.edges@ == inner_edges(p, categories, r, p.edges@.len()));
        }
    }
}

/// The program a program node holds; another node holds none, and gives an arbitrary value.
pub open spec fn held_program(node: GraphNode) -> QuantumProgram {
    match node.kind {
        NodeKind::Program(inner) => *inner,
        NodeKind::Op(_) => arbitrary(),
    }
}

/// Whether `e` is an edge of `p` that crosses a region boundary, as an edge between outer ports.
pub open spec fn outer_edge_of_program(p: QuantumProgram, categories: Seq<Vec<String>>, e: Edge) -> bool {
    exists|j: int| 0 <= j < p.edges@.len() && crosses(region_table(p, categories), #[trigger] p.edges@[j])
        && e == outer_edge(p, categories, p.edges@[j])
}

/// Whether `e` is an edge of `p` inside region `r`, as an edge between member positions.
pub open spec fn inner_edge_of_program(p: QuantumProgram, categories: Seq<Vec<String>>, r: int, e: Edge) -> bool {
    exists|j: int| 0 <= j < p.edges@.len()
        && region_of_node(p, categories, (#[trigger] p.edges@[j]).src as int) == Some(r as usize)
        && region_of_node(p, categories, p.edges@[j].tgt as int) == Some(r as usize)
        && e == inner_edge(p, categories, r, p.edges@[j])
}

/// Contraction adds no edge: each edge of the contracted program is an edge of the program that
/// crosses a region boundary, between the outer ports of its ends, and each edge of a region's
/// program is an edge of the program inside that region.
pub proof fn lemma_contraction_adds_no_edge(c: ContractedProgram, p: QuantumProgram, categories: Seq<Vec<String>>)
    requires
        contracts(c, p, categories),
    ensures
        forall|k: int| 0 <= k < c.program.edges@.len()
            ==> outer_edge_of_program(p, categories, #[trigger] c.program.edges@[k]),
        forall|r: int| 0 <= r < region_count(p, categories)
            ==> (#[trigger] c.program.nodes@[p.input_sources@.len() + r]).kind is Program,
        forall|r: int, k: int| 0 <= r < region_count(p, categories)
            && 0 <= k < held_program(c.program.nodes@[p.input_sources@.len() + r]).edges@.len()
            ==> inner_edge_of_program(p, categories, r, #[trigger] held_program(c.program.nodes@[p.input_sources@.len() + r]).edges@[k]),
{
    assert forall|k: int| 0 <= k < c.program.edges@.len()
        implies outer_edge_of_program(p, categories, #[trigger] c.program.edges@[k]) by {
        lemma_outer_edge_origin(p, categories, p.edges@.len(), k);
    }
    let h = p.input_sources@.len();
    assert forall|r: int| 0 <= r < region_count(p, categories) implies (#[trigger] c.program.nodes@[h + r]).kind is Program by {
        assert(region_node(c.program.nodes@[h + r], p, categories, r));
    }
    assert forall|r: int, k: int| 0 <= r < region_count(p, categories)
        && 0 <= k < held_program(c.program.nodes@[h + r]).edges@.len()
        implies inner_edge_of_program(p, categories, r, #[trigger] held_program(c.program.nodes@[h + r]).edges@[k]) by {
        assert(region_node(c.program.nodes@[h + r], p, categories, r));
        lemma_inner_edges(p, categories, r, p.edges@.len(), k);
    }
}

// ---------------------------------------------------------------------------
// The contracted program computes what the program computes
// ---------------------------------------------------------------------------

/// A node other than an input source lies in a region; an input source in none.
proof fn lemma_region_of(p: QuantumProgram, categories: Seq<Vec<String>>, v: usize)
    requires
        p.wf(),
        valid_input(plan_input(p, categories)),
        v < p.nodes@.len(),
    ensures
        p.is_input_source(v as int) <==> region_of_node(p, categories, v as int) is None,
        !p.is_input_source(v as int) ==> region_of_node(p, categories, v as int).unwrap() < region_count(p, categories),
        !p.is_input_source(v as int) ==> members_of(p, categories, region_of_node(p, categories, v as int).unwrap() as int).contains(v),
{
    let input = plan_input(p, categories);
    assert(input.hoisted[v as int] == p.is_input_source(v as int));
    if !p.is_input_source(v as int) {
        crate::quantum_program::heuristic::lemma_key_recorded_pub(input, v);
        let r = region_of_node(p, categories, v as int).unwrap();
        lemma_members_valid(p, categories, r as int);
    }
}

/// The boundary of each region has as many leaves on each side as its node in the contracted
/// program, and the region nodes follow the input sources.
proof fn lemma_region_sides(c: ContractedProgram, p: QuantumProgram, categories: Seq<Vec<String>>, r: int)
    requires
        contracts(c, p, categories),
        0 <= r < region_count(p, categories),
    ensures
        p.input_sources@.len() + r < c.program.nodes.len(),
        region_boundary(p, categories, r, true).len() == c.program.nodes@[p.input_sources@.len() + r].input_leaf_paths.len(),
        region_boundary(p, categories, r, false).len() == c.program.nodes@[p.input_sources@.len() + r].output_leaf_paths.len(),
{
    let h = p.input_sources@.len();
    assert(region_node(c.program.nodes@[h + r], p, categories, r));
}

/// Where an input leaf fed from outside its region sits among the region node's input leaves.
proof fn lemma_outer_target_reads(c: ContractedProgram, p: QuantumProgram, categories: Seq<Vec<String>>, v: usize, leaf: usize)
    requires
        p.wf(),
        contracts(c, p, categories),
        v < p.nodes@.len(),
        leaf < p.nodes@[v as int].input_leaf_paths.len(),
        fed_from_outside(p, region_table(p, categories)).contains((v, leaf)),
        !p.is_input_source(v as int),
    ensures
        ({
            let r = region_of_node(p, categories, v as int).unwrap();
            let t = outer_target(p, categories, v, leaf);
            &&& r < region_count(p, categories)
            &&& t.0 == p.input_sources@.len() + r
            &&& 0 <= t.1 < region_boundary(p, categories, r as int, true).len()
            &&& region_boundary(p, categories, r as int, true)[t.1 as int] == (v, leaf)
        }),
{
    lemma_region_of(p, categories, v);
    let r = region_of_node(p, categories, v as int).unwrap();
    let b = region_boundary(p, categories, r as int, true);
    lemma_boundary_of(p.nodes@, members_of(p, categories, r as int), fed_from_outside(p, region_table(p, categories)), true);
    assert(b.contains((v, leaf)));
    lemma_region_sides(c, p, categories, r as int);
}

/// Where an output leaf read from outside its region, or of an input source, sits in the
/// contracted program: among the region node's output leaves, or on the moved input source.
proof fn lemma_outer_source_reads(c: ContractedProgram, p: QuantumProgram, categories: Seq<Vec<String>>, v: usize, leaf: usize)
    requires
        p.wf(),
        contracts(c, p, categories),
        v < p.nodes@.len(),
        leaf < p.nodes@[v as int].output_leaf_paths.len(),
        p.is_input_source(v as int)
            || read_from_outside(p, region_table(p, categories), source_flags(p)).contains((v, leaf)),
    ensures
        ({
            let s = outer_source(p, categories, v, leaf);
            let h = p.input_sources@.len();
            &&& p.is_input_source(v as int) ==> s.0 < h && p.input_sources@[s.0 as int].node == v && s.1 == leaf
            &&& !p.is_input_source(v as int) ==> {
                let r = region_of_node(p, categories, v as int).unwrap();
                &&& r < region_count(p, categories)
                &&& s.0 == h + r
                &&& 0 <= s.1 < region_boundary(p, categories, r as int, false).len()
                &&& region_boundary(p, categories, r as int, false)[s.1 as int] == (v, leaf)
            }
        }),
{
    lemma_region_of(p, categories, v);
    if p.is_input_source(v as int) {
        let k = source_position(p, v);
        assert(0 <= k < p.input_sources@.len() && p.input_sources@[k].node == v);
    } else {
        let r = region_of_node(p, categories, v as int).unwrap();
        let b = region_boundary(p, categories, r as int, false);
        lemma_boundary_of(p.nodes@, members_of(p, categories, r as int), read_from_outside(p, region_table(p, categories), source_flags(p)), false);
        assert(b.contains((v, leaf)));
        lemma_region_sides(c, p, categories, r as int);
    }
}

/// The values at the input leaves of node `v`, as `inval` gives them.
pub open spec fn values_in<V>(p: QuantumProgram, inval: spec_fn(int, int) -> V, v: int) -> Seq<V> {
    Seq::new(p.nodes@[v].input_leaf_paths@.len(), |l: int| inval(v, l))
}

/// The values at the output leaves of node `v`, as `outval` gives them.
pub open spec fn values_out<V>(p: QuantumProgram, outval: spec_fn(int, int) -> V, v: int) -> Seq<V> {
    Seq::new(p.nodes@[v].output_leaf_paths@.len(), |l: int| outval(v, l))
}

/// The values of the program's outputs, in order.
pub open spec fn results_of<V>(p: QuantumProgram, outval: spec_fn(int, int) -> V) -> Seq<V> {
    Seq::new(p.outputs@.len(), |k: int| outval(p.outputs@[k].node as int, p.outputs@[k].leaf as int))
}

/// Whether values at the input leaves (`inval`) and output leaves (`outval`) of the nodes make a
/// run of `p` on the arguments `args`: each edge carries the value of its source leaf to its
/// target leaf; each program input carries its argument; and each node other than an input
/// source turns the values at its input leaves into those at its output leaves as `acts` allows.
/// The values of the input sources are the program's other arguments, and are free.
pub open spec fn is_run<V>(
    p: QuantumProgram,
    acts: spec_fn(GraphNode, Seq<V>, Seq<V>) -> bool,
    args: Seq<V>,
    inval: spec_fn(int, int) -> V,
    outval: spec_fn(int, int) -> V,
) -> bool {
    &&& forall|j: int| 0 <= j < p.edges@.len() ==> inval((#[trigger] p.edges@[j]).tgt as int, p.edges@[j].to_leaf as int)
        == outval(p.edges@[j].src as int, p.edges@[j].from_leaf as int)
    &&& args.len() == p.inputs@.len()
    &&& forall|k: int| 0 <= k < p.inputs@.len() ==> inval((#[trigger] p.inputs@[k]).node as int, p.inputs@[k].leaf as int) == args[k]
    &&& forall|v: int| 0 <= v < p.nodes@.len() && !p.is_input_source(v)
        ==> acts(#[trigger] p.nodes@[v], values_in(p, inval, v), values_out(p, outval, v))
}

/// Each node gives the values `sem` assigns to it and to the values at its inputs.
pub open spec fn acts_as<V>(sem: spec_fn(GraphNode, Seq<V>) -> Seq<V>) -> spec_fn(GraphNode, Seq<V>, Seq<V>) -> bool {
    |node: GraphNode, ins: Seq<V>, outs: Seq<V>| outs == sem(node, ins)
}

/// Whether a run of `inner` on the arguments `ins`, its nodes acting as `sem` says, gives the
/// results `outs`.
pub open spec fn computes<V>(inner: QuantumProgram, sem: spec_fn(GraphNode, Seq<V>) -> Seq<V>, ins: Seq<V>, outs: Seq<V>) -> bool {
    exists|inval: spec_fn(int, int) -> V, outval: spec_fn(int, int) -> V|
        #[trigger] is_run(inner, acts_as(sem), ins, inval, outval) && results_of(inner, outval) == outs
}

/// A node holding a program computes what a run of that program gives, its own nodes acting as
/// `sem` says; any other node acts as `sem` says.
pub open spec fn acts_nested<V>(sem: spec_fn(GraphNode, Seq<V>) -> Seq<V>) -> spec_fn(GraphNode, Seq<V>, Seq<V>) -> bool {
    |node: GraphNode, ins: Seq<V>, outs: Seq<V>| match node.kind {
        NodeKind::Program(inner) => computes(*inner, sem, ins, outs),
        NodeKind::Op(_) => outs == sem(node, ins),
    }
}

/// The values at the input leaves of the contracted program: each input port of a region node
/// has the value of the member leaf it feeds.
pub open spec fn contracted_inputs<V>(p: QuantumProgram, categories: Seq<Vec<String>>, inval: spec_fn(int, int) -> V) -> spec_fn(int, int) -> V {
    |n: int, l: int| {
        let b = region_boundary(p, categories, n - p.input_sources@.len(), true)[l];
        inval(b.0 as int, b.1 as int)
    }
}

/// The values at the output leaves of the contracted program: an input source keeps its values,
/// and each output port of a region node has the value of the member leaf it reads.
pub open spec fn contracted_outputs<V>(p: QuantumProgram, categories: Seq<Vec<String>>, outval: spec_fn(int, int) -> V) -> spec_fn(int, int) -> V {
    |n: int, l: int| if n < p.input_sources@.len() {
        outval(p.input_sources@[n].node as int, l)
    } else {
        let b = region_boundary(p, categories, n - p.input_sources@.len(), false)[l];
        outval(b.0 as int, b.1 as int)
    }
}

/// Values at the leaves of the members of region `r`, by their positions in the region's
/// program.
pub open spec fn member_values<V>(p: QuantumProgram, categories: Seq<Vec<String>>, r: int, val: spec_fn(int, int) -> V) -> spec_fn(int, int) -> V {
    |i: int, l: int| val(members_of(p, categories, r)[i] as int, l)
}

/// The position of a member among the members is where it sits.
proof fn lemma_position_of_member(m: Seq<usize>, v: usize)
    requires
        m.contains(v),
    ensures
        0 <= position_in(m, v) < m.len(),
        m[position_in(m, v)] == v,
{
}

/// The values of a run, moved onto the members of region `r`, make a run of the region's program
/// on the values at the region node's inputs, with the values at its outputs as results.
proof fn lemma_region_runs<V>(
    c: ContractedProgram,
    p: QuantumProgram,
    categories: Seq<Vec<String>>,
    sem: spec_fn(GraphNode, Seq<V>) -> Seq<V>,
    args: Seq<V>,
    inval: spec_fn(int, int) -> V,
    outval: spec_fn(int, int) -> V,
    r: int,
)
    requires
        p.wf(),
        contracts(c, p, categories),
        is_run(p, acts_as(sem), args, inval, outval),
        0 <= r < region_count(p, categories),
    ensures
        ({
            let h = p.input_sources@.len();
            let inner = held_program(c.program.nodes@[h + r]);
            &&& c.program.nodes@[h + r].kind is Program
            &&& is_run(inner, acts_as(sem), values_in(c.program, contracted_inputs(p, categories, inval), h + r),
                member_values(p, categories, r, inval), member_values(p, categories, r, outval))
            &&& results_of(inner, member_values(p, categories, r, outval))
                == values_out(c.program, contracted_outputs(p, categories, outval), h + r)
        }),
{
    let h = p.input_sources@.len();
    let q = c.program;
    let node = q.nodes@[h + r];
    assert(region_node(node, p, categories, r));
    let inner = held_program(node);
    assert(region_program(inner, p, categories, r));
    let m = members_of(p, categories, r);
    lemma_members_valid(p, categories, r);
    lemma_region_sides(c, p, categories, r);
    let bi = region_boundary(p, categories, r, true);
    let bo = region_boundary(p, categories, r, false);
    lemma_boundary_of(p.nodes@, m, fed_from_outside(p, region_table(p, categories)), true);
    lemma_boundary_of(p.nodes@, m, read_from_outside(p, region_table(p, categories), source_flags(p)), false);
    let ins = values_in(q, contracted_inputs(p, categories, inval), h + r);
    let outs = values_out(q, contracted_outputs(p, categories, outval), h + r);
    let min = member_values(p, categories, r, inval);
    let mout = member_values(p, categories, r, outval);

    // Edges between members carry values as the program's edges do.
    assert forall|j: int| 0 <= j < inner.edges@.len() implies min((#[trigger] inner.edges@[j]).tgt as int, inner.edges@[j].to_leaf as int)
        == mout(inner.edges@[j].src as int, inner.edges@[j].from_leaf as int) by {
        lemma_inner_edges(p, categories, r, p.edges@.len(), j);
        let i = choose|i: int| 0 <= i < p.edges@.len()
            && region_of_node(p, categories, (#[trigger] p.edges@[i]).src as int) == Some(r as usize)
            && region_of_node(p, categories, p.edges@[i].tgt as int) == Some(r as usize)
            && inner.edges@[j] == inner_edge(p, categories, r, p.edges@[i]);
        let e = p.edges@[i];
        assert(m.contains(e.src));
        assert(m.contains(e.tgt));
        lemma_position_of_member(m, e.src);
        lemma_position_of_member(m, e.tgt);
        assert(inner.nodes.len() == m.len());
        let s = position_in(m, e.src);
        let t = position_in(m, e.tgt);
        assert(inner.edges@[j].src as int == s);
        assert(inner.edges@[j].tgt as int == t);
        assert(min(t, e.to_leaf as int) == inval(e.tgt as int, e.to_leaf as int));
        assert(mout(s, e.from_leaf as int) == outval(e.src as int, e.from_leaf as int));
    }
    // The region program's inputs carry the values at the region node's inputs.
    assert(ins.len() == inner.inputs@.len());
    assert forall|k: int| 0 <= k < inner.inputs@.len() implies min((#[trigger] inner.inputs@[k]).node as int, inner.inputs@[k].leaf as int)
        == ins[k] by {
        assert(bi.contains(bi[k]));
        lemma_position_of_member(m, bi[k].0);
    }
    // Each member acts as it does in the program.
    assert forall|i: int| 0 <= i < inner.nodes@.len() && !inner.is_input_source(i)
        implies #[trigger] acts_as(sem)(inner.nodes@[i], values_in(inner, min, i), values_out(inner, mout, i)) by {
        let v = m[i];
        assert(m.contains(v));
        assert(inner.nodes@[i] == p.nodes@[v as int]);
        lemma_region_of(p, categories, v);
        assert(!p.is_input_source(v as int));
        assert(acts_as(sem)(p.nodes@[v as int], values_in(p, inval, v as int), values_out(p, outval, v as int)));
        assert(values_in(inner, min, i) =~= values_in(p, inval, v as int));
        assert(values_out(inner, mout, i) =~= values_out(p, outval, v as int));
    }
    assert(is_run(inner, acts_as(sem), ins, min, mout));
    // The region program's results are the values at the region node's outputs.
    assert forall|k: int| 0 <= k < outs.len() implies #[trigger] results_of(inner, mout)[k] == outs[k] by {
        assert(bo.contains(bo[k]));
        lemma_position_of_member(m, bo[k].0);
    }
    assert(results_of(inner, mout) =~= outs);
}

/// Contraction keeps what the program computes. Values at the leaves that make a run of the
/// program on some arguments, each node acting as `sem` says, make a run of the contracted program
/// on the same arguments once moved onto its leaves: the input sources keep their values, and
/// each region node computes, by a run of its own program, what its members compute. The results
/// are the same.
#[verifier::rlimit(40)]
pub proof fn lemma_contraction_keeps_runs<V>(
    c: ContractedProgram,
    p: QuantumProgram,
    categories: Seq<Vec<String>>,
    sem: spec_fn(GraphNode, Seq<V>) -> Seq<V>,
    args: Seq<V>,
    inval: spec_fn(int, int) -> V,
    outval: spec_fn(int, int) -> V,
)
    requires
        p.wf(),
        contracts(c, p, categories),
        is_run(p, acts_as(sem), args, inval, outval),
    ensures
        is_run(c.program, acts_nested(sem), args, contracted_inputs(p, categories, inval), contracted_outputs(p, categories, outval)),
        results_of(c.program, contracted_outputs(p, categories, outval)) == results_of(p, outval),
        forall|k: int, l: int| 0 <= k < p.input_sources@.len()
            ==> #[trigger] contracted_outputs(p, categories, outval)(k, l) == outval(p.input_sources@[k].node as int, l),
{
    let h = p.input_sources@.len();
    let q = c.program;
    let cin = contracted_inputs(p, categories, inval);
    let cout = contracted_outputs(p, categories, outval);
    let table = region_table(p, categories);
    lemma_node_count_bound(p, categories);

    // Edges: each edge of the contracted program is a crossing edge of the program.
    assert forall|k: int| 0 <= k < q.edges@.len() implies cin((#[trigger] q.edges@[k]).tgt as int, q.edges@[k].to_leaf as int)
        == cout(q.edges@[k].src as int, q.edges@[k].from_leaf as int) by {
        lemma_outer_edge_origin(p, categories, p.edges@.len(), k);
        let j = choose|j: int| 0 <= j < p.edges@.len() && crosses(table, #[trigger] p.edges@[j])
            && outer_edges(p, categories, p.edges@.len())[k] == outer_edge(p, categories, p.edges@[j]);
        let e = p.edges@[j];
        assert(crossing_targets(p, table, p.edges@.len() as int).contains((e.tgt, e.to_leaf)));
        assert(!p.is_input_source(e.tgt as int)) by {
            if p.is_input_source(e.tgt as int) {
                let i = choose|i: int| 0 <= i < p.input_sources@.len() && #[trigger] p.input_sources@[i].node == e.tgt;
                assert(p.nodes@[p.input_sources@[i].node as int].input_leaf_paths.len() == 0);
            }
        }
        lemma_outer_target_reads(c, p, categories, e.tgt, e.to_leaf);
        if !p.is_input_source(e.src as int) {
            lemma_region_of(p, categories, e.src);
            assert(crossing_sources(p, table, source_flags(p), p.edges@.len() as int).contains((e.src, e.from_leaf)));
        }
        lemma_outer_source_reads(c, p, categories, e.src, e.from_leaf);
    }
    // Program inputs feed the region ports of the leaves they fed.
    assert forall|k: int| 0 <= k < q.inputs@.len() implies cin((#[trigger] q.inputs@[k]).node as int, q.inputs@[k].leaf as int)
        == args[k] by {
        let b = p.inputs@[k];
        assert(input_leaves(p, p.inputs@.len() as int).contains((b.node, b.leaf)));
        assert(!p.is_input_source(b.node as int)) by {
            if p.is_input_source(b.node as int) {
                let i = choose|i: int| 0 <= i < p.input_sources@.len() && #[trigger] p.input_sources@[i].node == b.node;
                assert(p.nodes@[p.input_sources@[i].node as int].input_leaf_paths.len() == 0);
            }
        }
        lemma_outer_target_reads(c, p, categories, b.node, b.leaf);
    }
    // Nodes: the input sources are moved; each region node computes what its members compute.
    assert forall|v: int| 0 <= v < q.nodes@.len() && !q.is_input_source(v)
        implies #[trigger] acts_nested(sem)(q.nodes@[v], values_in(q, cin, v), values_out(q, cout, v)) by {
        if v < h {
            assert(q.input_sources@[v].node == v);
        } else {
            let r = v - h;
            lemma_region_runs(c, p, categories, sem, args, inval, outval, r);
            let inner = held_program(q.nodes@[v]);
            let min = member_values(p, categories, r, inval);
            let mout = member_values(p, categories, r, outval);
            assert(is_run(inner, acts_as(sem), values_in(q, cin, v), min, mout));
            assert(computes(inner, sem, values_in(q, cin, v), values_out(q, cout, v)));
        }
    }
    assert(is_run(q, acts_nested(sem), args, cin, cout));
    // Results: each program output reads the region port of the leaf it read.
    assert forall|k: int| 0 <= k < p.outputs@.len() implies #[trigger] results_of(q, cout)[k] == results_of(p, outval)[k] by {
        let b = p.outputs@[k];
        if !p.is_input_source(b.node as int) {
            lemma_region_of(p, categories, b.node);
            assert(output_leaves(p, source_flags(p), p.outputs@.len() as int).contains((b.node, b.leaf)));
        }
        lemma_outer_source_reads(c, p, categories, b.node, b.leaf);
    }
    assert(results_of(q, cout) =~= results_of(p, outval));
}

/// A run of the program of region `r` that gives the values at the region node's outputs from
/// those at its inputs, as a run of the contracted program provides one.
spec fn region_run<V>(
    c: ContractedProgram,
    p: QuantumProgram,
    sem: spec_fn(GraphNode, Seq<V>) -> Seq<V>,
    qin: spec_fn(int, int) -> V,
    qout: spec_fn(int, int) -> V,
    r: int,
) -> (spec_fn(int, int) -> V, spec_fn(int, int) -> V) {
    let v = p.input_sources@.len() + r;
    let inner = held_program(c.program.nodes@[v]);
    choose|a: spec_fn(int, int) -> V, b: spec_fn(int, int) -> V|
        is_run(inner, acts_as(sem), values_in(c.program, qin, v), a, b)
            && results_of(inner, b) == values_out(c.program, qout, v)
}

/// The values at the input leaves of the program, read off the runs of the regions.
spec fn reflected_inputs<V>(
    c: ContractedProgram,
    p: QuantumProgram,
    categories: Seq<Vec<String>>,
    sem: spec_fn(GraphNode, Seq<V>) -> Seq<V>,
    qin: spec_fn(int, int) -> V,
    qout: spec_fn(int, int) -> V,
) -> spec_fn(int, int) -> V {
    |v: int, l: int| {
        let r = region_of_node(p, categories, v).unwrap() as int;
        (region_run(c, p, sem, qin, qout, r).0)(position_in(members_of(p, categories, r), v as usize), l)
    }
}

/// The values at the output leaves of the program: an input source's from its moved node, any
/// other node's off the run of its region.
spec fn reflected_outputs<V>(
    c: ContractedProgram,
    p: QuantumProgram,
    categories: Seq<Vec<String>>,
    sem: spec_fn(GraphNode, Seq<V>) -> Seq<V>,
    qin: spec_fn(int, int) -> V,
    qout: spec_fn(int, int) -> V,
) -> spec_fn(int, int) -> V {
    |v: int, l: int| if p.is_input_source(v) {
        qout(source_position(p, v as usize), l)
    } else {
        let r = region_of_node(p, categories, v).unwrap() as int;
        (region_run(c, p, sem, qin, qout, r).1)(position_in(members_of(p, categories, r), v as usize), l)
    }
}

/// A run of the contracted program gives each region node a run of its program.
proof fn lemma_region_run_exists<V>(
    c: ContractedProgram,
    p: QuantumProgram,
    categories: Seq<Vec<String>>,
    sem: spec_fn(GraphNode, Seq<V>) -> Seq<V>,
    args: Seq<V>,
    qin: spec_fn(int, int) -> V,
    qout: spec_fn(int, int) -> V,
    r: int,
)
    requires
        p.wf(),
        contracts(c, p, categories),
        is_run(c.program, acts_nested(sem), args, qin, qout),
        0 <= r < region_count(p, categories),
    ensures
        ({
            let v = p.input_sources@.len() + r;
            let inner = held_program(c.program.nodes@[v]);
            let run = region_run(c, p, sem, qin, qout, r);
            &&& region_program(inner, p, categories, r)
            &&& is_run(inner, acts_as(sem), values_in(c.program, qin, v), run.0, run.1)
            &&& results_of(inner, run.1) == values_out(c.program, qout, v)
        }),
{
    let h = p.input_sources@.len();
    let q = c.program;
    let v = h + r;
    assert(region_node(q.nodes@[v], p, categories, r));
    lemma_region_sides(c, p, categories, r);
    assert(!q.is_input_source(v)) by {
        if q.is_input_source(v) {
            let k = choose|k: int| 0 <= k < q.input_sources@.len() && #[trigger] q.input_sources@[k].node == v;
            assert(q.input_sources@[k].node == k);
        }
    }
    assert(acts_nested(sem)(q.nodes@[v], values_in(q, qin, v), values_out(q, qout, v)));
    let inner = held_program(q.nodes@[v]);
    assert(computes(inner, sem, values_in(q, qin, v), values_out(q, qout, v)));
}

/// An input leaf fed from outside its region has, in the runs of the regions, the value at its
/// region port.
proof fn lemma_port_input_value<V>(
    c: ContractedProgram,
    p: QuantumProgram,
    categories: Seq<Vec<String>>,
    sem: spec_fn(GraphNode, Seq<V>) -> Seq<V>,
    args: Seq<V>,
    qin: spec_fn(int, int) -> V,
    qout: spec_fn(int, int) -> V,
    v: usize,
    leaf: usize,
)
    requires
        p.wf(),
        contracts(c, p, categories),
        is_run(c.program, acts_nested(sem), args, qin, qout),
        v < p.nodes@.len(),
        leaf < p.nodes@[v as int].input_leaf_paths.len(),
        fed_from_outside(p, region_table(p, categories)).contains((v, leaf)),
        !p.is_input_source(v as int),
    ensures
        ({
            let t = outer_target(p, categories, v, leaf);
            reflected_inputs(c, p, categories, sem, qin, qout)(v as int, leaf as int) == qin(t.0 as int, t.1 as int)
        }),
{
    lemma_outer_target_reads(c, p, categories, v, leaf);
    let r = region_of_node(p, categories, v as int).unwrap() as int;
    let h = p.input_sources@.len();
    let t = outer_target(p, categories, v, leaf);
    lemma_region_run_exists(c, p, categories, sem, args, qin, qout, r);
    let inner = held_program(c.program.nodes@[h + r]);
    let run = region_run(c, p, sem, qin, qout, r);
    let m = members_of(p, categories, r);
    let bi = region_boundary(p, categories, r, true);
    lemma_members_valid(p, categories, r);
    lemma_region_sides(c, p, categories, r);
    let i = t.1 as int;
    assert(bi[i] == (v, leaf));
    assert(inner.inputs@[i].node == position_in(m, v) && inner.inputs@[i].leaf == leaf);
    assert(run.0(inner.inputs@[i].node as int, inner.inputs@[i].leaf as int) == values_in(c.program, qin, h + r)[i]);
    lemma_region_of(p, categories, v);
    lemma_position_of_member(m, v);
    assert(inner.nodes.len() == m.len());
}

/// An output leaf read from outside its region, or of an input source, has, in the runs of the
/// regions, the value at the place the contracted program moved it to.
proof fn lemma_port_output_value<V>(
    c: ContractedProgram,
    p: QuantumProgram,
    categories: Seq<Vec<String>>,
    sem: spec_fn(GraphNode, Seq<V>) -> Seq<V>,
    args: Seq<V>,
    qin: spec_fn(int, int) -> V,
    qout: spec_fn(int, int) -> V,
    v: usize,
    leaf: usize,
)
    requires
        p.wf(),
        contracts(c, p, categories),
        is_run(c.program, acts_nested(sem), args, qin, qout),
        v < p.nodes@.len(),
        leaf < p.nodes@[v as int].output_leaf_paths.len(),
        p.is_input_source(v as int)
            || read_from_outside(p, region_table(p, categories), source_flags(p)).contains((v, leaf)),
    ensures
        ({
            let s = outer_source(p, categories, v, leaf);
            reflected_outputs(c, p, categories, sem, qin, qout)(v as int, leaf as int) == qout(s.0 as int, s.1 as int)
        }),
{
    lemma_outer_source_reads(c, p, categories, v, leaf);
    lemma_region_of(p, categories, v);
    let h = p.input_sources@.len();
    let s = outer_source(p, categories, v, leaf);
    if p.is_input_source(v as int) {
        assert(s.0 as int == source_position(p, v));
    } else {
        let r = region_of_node(p, categories, v as int).unwrap() as int;
        lemma_region_run_exists(c, p, categories, sem, args, qin, qout, r);
        let inner = held_program(c.program.nodes@[h + r]);
        let run = region_run(c, p, sem, qin, qout, r);
        let m = members_of(p, categories, r);
        let bo = region_boundary(p, categories, r, false);
        lemma_members_valid(p, categories, r);
        lemma_region_sides(c, p, categories, r);
        let i = s.1 as int;
        assert(bo[i] == (v, leaf));
        assert(inner.outputs@[i].node == position_in(m, v) && inner.outputs@[i].leaf == leaf);
        assert(results_of(inner, run.1)[i] == values_out(c.program, qout, h + r)[i]);
        lemma_position_of_member(m, v);
        assert(inner.nodes.len() == m.len());
    }
}

/// Contraction adds nothing to what the program computes. Each run of the contracted program, its
/// region nodes computing by runs of their programs and every other node acting as `sem` says,
/// comes from a run of the program on the same arguments, its nodes acting as `sem` says, with the
/// same values at the input sources and the same results.
pub proof fn lemma_contraction_reflects_runs<V>(
    c: ContractedProgram,
    p: QuantumProgram,
    categories: Seq<Vec<String>>,
    sem: spec_fn(GraphNode, Seq<V>) -> Seq<V>,
    args: Seq<V>,
    qin: spec_fn(int, int) -> V,
    qout: spec_fn(int, int) -> V,
)
    requires
        p.wf(),
        contracts(c, p, categories),
        is_run(c.program, acts_nested(sem), args, qin, qout),
    ensures
        exists|inval: spec_fn(int, int) -> V, outval: spec_fn(int, int) -> V| {
            &&& #[trigger] is_run(p, acts_as(sem), args, inval, outval)
            &&& results_of(p, outval) == results_of(c.program, qout)
            &&& forall|k: int, l: int| 0 <= k < p.input_sources@.len()
                ==> outval(p.input_sources@[k].node as int, l) == #[trigger] qout(k, l)
        },
{
    let h = p.input_sources@.len();
    let q = c.program;
    let rin = reflected_inputs(c, p, categories, sem, qin, qout);
    let rout = reflected_outputs(c, p, categories, sem, qin, qout);
    let table = region_table(p, categories);

    // Nodes: each acts as its place in its region's run says.
    assert forall|v: int| 0 <= v < p.nodes@.len() && !p.is_input_source(v)
        implies #[trigger] acts_as(sem)(p.nodes@[v], values_in(p, rin, v), values_out(p, rout, v)) by {
        lemma_region_of(p, categories, v as usize);
        let r = region_of_node(p, categories, v).unwrap() as int;
        lemma_region_run_exists(c, p, categories, sem, args, qin, qout, r);
        let inner = held_program(q.nodes@[h + r]);
        let run = region_run(c, p, sem, qin, qout, r);
        let m = members_of(p, categories, r);
        lemma_members_valid(p, categories, r);
        lemma_position_of_member(m, v as usize);
        let i = position_in(m, v as usize);
        assert(inner.nodes@[i] == p.nodes@[v]);
        assert(!inner.is_input_source(i));
        assert(acts_as(sem)(inner.nodes@[i], values_in(inner, run.0, i), values_out(inner, run.1, i)));
        assert(values_in(p, rin, v) =~= values_in(inner, run.0, i));
        assert(values_out(p, rout, v) =~= values_out(inner, run.1, i));
    }
    // Edges: inside a region by the region's run; across regions by the contracted program's.
    assert forall|j: int| 0 <= j < p.edges@.len() implies rin((#[trigger] p.edges@[j]).tgt as int, p.edges@[j].to_leaf as int)
        == rout(p.edges@[j].src as int, p.edges@[j].from_leaf as int) by {
        let e = p.edges@[j];
        assert(!p.is_input_source(e.tgt as int)) by {
            if p.is_input_source(e.tgt as int) {
                let i = choose|i: int| 0 <= i < p.input_sources@.len() && #[trigger] p.input_sources@[i].node == e.tgt;
                assert(p.nodes@[p.input_sources@[i].node as int].input_leaf_paths.len() == 0);
            }
        }
        lemma_region_of(p, categories, e.tgt);
        lemma_region_of(p, categories, e.src);
        if crosses(table, e) {
            lemma_crossing_edge_kept(p, categories, p.edges@.len(), j);
            let k = choose|k: int| 0 <= k < q.edges@.len() && q.edges@[k] == outer_edge(p, categories, e);
            assert(q.edges@[k] == outer_edge(p, categories, e));
            assert(crossing_targets(p, table, p.edges@.len() as int).contains((e.tgt, e.to_leaf)));
            lemma_port_input_value(c, p, categories, sem, args, qin, qout, e.tgt, e.to_leaf);
            if !p.is_input_source(e.src as int) {
                assert(crossing_sources(p, table, source_flags(p), p.edges@.len() as int).contains((e.src, e.from_leaf)));
            }
            lemma_port_output_value(c, p, categories, sem, args, qin, qout, e.src, e.from_leaf);
        } else {
            let r = region_of_node(p, categories, e.tgt as int).unwrap() as int;
            assert(table[e.src as int] == table[e.tgt as int]);
            lemma_region_run_exists(c, p, categories, sem, args, qin, qout, r);
            let inner = held_program(q.nodes@[h + r]);
            let run = region_run(c, p, sem, qin, qout, r);
            let m = members_of(p, categories, r);
            lemma_members_valid(p, categories, r);
            lemma_inner_edge_kept(p, categories, r, p.edges@.len(), j);
            let k = choose|k: int| 0 <= k < inner.edges@.len() && inner.edges@[k] == inner_edge(p, categories, r, e);
            assert(inner.edges@[k] == inner_edge(p, categories, r, e));
            lemma_position_of_member(m, e.src);
            lemma_position_of_member(m, e.tgt);
            assert(inner.nodes.len() == m.len());
            assert(inner.edges@[k].src as int == position_in(m, e.src));
            assert(inner.edges@[k].tgt as int == position_in(m, e.tgt));
        }
    }
    // Program inputs: each feeds the region port of the leaf it feeds.
    assert forall|k: int| 0 <= k < p.inputs@.len() implies rin((#[trigger] p.inputs@[k]).node as int, p.inputs@[k].leaf as int)
        == args[k] by {
        let b = p.inputs@[k];
        assert(input_leaves(p, p.inputs@.len() as int).contains((b.node, b.leaf)));
        assert(!p.is_input_source(b.node as int)) by {
            if p.is_input_source(b.node as int) {
                let i = choose|i: int| 0 <= i < p.input_sources@.len() && #[trigger] p.input_sources@[i].node == b.node;
                assert(p.nodes@[p.input_sources@[i].node as int].input_leaf_paths.len() == 0);
            }
        }
        lemma_port_input_value(c, p, categories, sem, args, qin, qout, b.node, b.leaf);
        assert(q.inputs@[k].node_leaf() == outer_target(p, categories, b.node, b.leaf));
    }
    assert(is_run(p, acts_as(sem), args, rin, rout));
    // Results: each program output reads the place its leaf was moved to.
    assert forall|k: int| 0 <= k < p.outputs@.len() implies #[trigger] results_of(p, rout)[k] == results_of(q, qout)[k] by {
        let b = p.outputs@[k];
        if !p.is_input_source(b.node as int) {
            lemma_region_of(p, categories, b.node);
            assert(output_leaves(p, source_flags(p), p.outputs@.len() as int).contains((b.node, b.leaf)));
        }
        lemma_port_output_value(c, p, categories, sem, args, qin, qout, b.node, b.leaf);
    }
    assert(results_of(p, rout) =~= results_of(q, qout));
    // Input sources: each keeps the values of its moved node.
    assert forall|k: int, l: int| 0 <= k < h implies rout(p.input_sources@[k].node as int, l) == #[trigger] qout(k, l) by {
        let v = p.input_sources@[k].node;
        assert(p.is_input_source(v as int));
        let i = source_position(p, v);
        assert(0 <= i < h && p.input_sources@[i].node == v);
        assert(i == k);
    }
}

} // verus!
