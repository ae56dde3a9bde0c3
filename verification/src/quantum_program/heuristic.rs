//! Partitioning a program graph into convex regions of one category each.

use vstd::prelude::*;

use crate::collections::{PairIndex, pair_index_contents};

verus! {

// ---------------------------------------------------------------------------
// The partitioning heuristic, stated over plain values
// ---------------------------------------------------------------------------

/// What the heuristic reads of a graph: per node the sources of its incoming edges (one entry
/// per edge), a topological order, the colours each node may take, and which nodes are
/// hoisted out of every region.
pub struct HeuristicInput {
    pub preds: Seq<Seq<usize>>,
    pub topo: Seq<usize>,
    pub admissible: Seq<Seq<usize>>,
    pub hoisted: Seq<bool>,
    pub n_colours: usize,
}

/// The colour and depth given to each node so far, and the `(colour, depth)` keys in the
/// order they were first used.
pub struct Plan {
    pub colour: Seq<usize>,
    pub depth: Seq<usize>,
    pub keys: Seq<(usize, usize)>,
}

/// The larger of two optional depths.
pub open spec fn max_opt(a: Option<usize>, b: Option<usize>) -> Option<usize> {
    match (a, b) {
        (Some(x), Some(y)) => Some(if x >= y { x } else { y }),
        (Some(x), None) => Some(x),
        (None, y) => y,
    }
}

/// The deepest of the non-hoisted nodes in `preds` that are coloured `c`.
pub open spec fn deepest_of(preds: Seq<usize>, hoisted: Seq<bool>, plan: Plan, c: usize) -> Option<usize>
    decreases preds.len(),
{
    if preds.len() == 0 {
        None
    } else {
        let rest = deepest_of(preds.drop_last(), hoisted, plan, c);
        let u = preds.last();
        if hoisted[u as int] || plan.colour[u as int] != c {
            rest
        } else {
            max_opt(rest, Some(plan.depth[u as int]))
        }
    }
}

/// The deepest of the non-hoisted nodes in `preds` coloured by any of the first `t` colours
/// other than `c`.
pub open spec fn deepest_other(preds: Seq<usize>, hoisted: Seq<bool>, plan: Plan, c: usize, t: nat) -> Option<usize>
    decreases t,
{
    if t == 0 {
        None
    } else {
        let colour = (t - 1) as usize;
        let rest = deepest_other(preds, hoisted, plan, c, (t - 1) as nat);
        if t - 1 == c as int {
            rest
        } else {
            max_opt(rest, deepest_of(preds, hoisted, plan, colour))
        }
    }
}

/// The depth node `v` takes if coloured `c`: `max(M_c, M_≠c + 1)`.
pub open spec fn depth_for(input: HeuristicInput, plan: Plan, v: usize, c: usize) -> usize {
    let preds = input.preds[v as int];
    let same = match deepest_of(preds, input.hoisted, plan, c) {
        Some(d) => d,
        None => 0,
    };
    match deepest_other(preds, input.hoisted, plan, c, input.n_colours as nat) {
        Some(d) => if same >= d + 1 { same } else { (d + 1) as usize },
        None => same,
    }
}

/// The strict lexicographic order on `(depth, key_is_new, colour)` candidates.
pub open spec fn candidate_lt(a: (usize, bool, usize), b: (usize, bool, usize)) -> bool {
    a.0 < b.0 || (a.0 == b.0 && ((!a.1 && b.1) || (a.1 == b.1 && a.2 < b.2)))
}

/// The candidate of colour `c` for node `v`.
pub open spec fn candidate(input: HeuristicInput, plan: Plan, v: usize, c: usize) -> (usize, bool, usize) {
    let d = depth_for(input, plan, v, c);
    (d, !plan.keys.contains((c, d)), c)
}

/// The least candidate over the colours `adm`, the first one of them winning ties.
pub open spec fn best_candidate(input: HeuristicInput, plan: Plan, v: usize, adm: Seq<usize>) -> Option<(usize, bool, usize)>
    decreases adm.len(),
{
    if adm.len() == 0 {
        None
    } else {
        let rest = best_candidate(input, plan, v, adm.drop_last());
        let cand = candidate(input, plan, v, adm.last());
        match rest {
            Some(best) => if candidate_lt(cand, best) { Some(cand) } else { Some(best) },
            None => Some(cand),
        }
    }
}

/// The plan after the first `k` nodes of the topological order.
pub open spec fn plan_upto(input: HeuristicInput, k: nat) -> Plan
    decreases k,
{
    if k == 0 {
        Plan {
            colour: Seq::new(input.preds.len(), |i: int| 0usize),
            depth: Seq::new(input.preds.len(), |i: int| 0usize),
            keys: Seq::empty(),
        }
    } else {
        let p = plan_upto(input, (k - 1) as nat);
        let v = input.topo[k - 1];
        if input.hoisted[v as int] {
            p
        } else {
            let chosen = best_candidate(input, p, v, input.admissible[v as int]).unwrap();
            let key = (chosen.2, chosen.0);
            Plan {
                colour: p.colour.update(v as int, chosen.2),
                depth: p.depth.update(v as int, chosen.0),
                keys: if p.keys.contains(key) { p.keys } else { p.keys.push(key) },
            }
        }
    }
}

/// Whether key `a` sorts before key `b` by `(depth, colour)`.
pub open spec fn key_before(a: (usize, usize), b: (usize, usize)) -> bool {
    a.1 < b.1 || (a.1 == b.1 && a.0 < b.0)
}

/// How many of `keys` sort before `key`: the region number of `key`.
pub open spec fn rank_of(keys: Seq<(usize, usize)>, key: (usize, usize)) -> nat
    decreases keys.len(),
{
    if keys.len() == 0 {
        0
    } else {
        rank_of(keys.drop_last(), key) + if key_before(keys.last(), key) { 1nat } else { 0nat }
    }
}

/// Whether predecessor `k` of the `i`th node of the order comes before it in the order.
pub open spec fn visited_before(input: HeuristicInput, i: int, k: int) -> bool {
    exists|j: int| 0 <= j < i && input.topo[j] == input.preds[input.topo[i] as int][k]
}

/// Whether the graph read by the heuristic is well formed: every index in range, the order
/// a permutation of the nodes that puts every edge's source before its target, and every node
/// with at least one admissible colour.
pub open spec fn valid_input(input: HeuristicInput) -> bool {
    let n = input.preds.len();
    &&& input.topo.len() == n
    &&& input.admissible.len() == n
    &&& input.hoisted.len() == n
    &&& input.topo.no_duplicates()
    &&& forall|i: int| 0 <= i < n ==> #[trigger] input.topo[i] < n
    &&& forall|v: int, k: int| 0 <= v < n && 0 <= k < input.preds[v].len() ==> #[trigger] input.preds[v][k] < n
    &&& forall|i: int, k: int| #![trigger input.preds[input.topo[i] as int][k]] #![trigger visited_before(input, i, k)]
        0 <= i < n && 0 <= k < input.preds[input.topo[i] as int].len() ==> visited_before(input, i, k)
    &&& forall|v: int| 0 <= v < n ==> #[trigger] input.admissible[v].len() > 0
    &&& forall|v: int, k: int| 0 <= v < n && 0 <= k < input.admissible[v].len()
        ==> #[trigger] input.admissible[v][k] < input.n_colours
}

} // verus!

verus! {

/// The input is well formed when each clause holds, with "every edge's source before its target"
/// read as: the order's prefix before each node holds each of that node's predecessors.
pub proof fn lemma_valid_input_intro(input: HeuristicInput)
    requires
        ({
            let n = input.preds.len();
            &&& input.topo.len() == n
            &&& input.admissible.len() == n
            &&& input.hoisted.len() == n
            &&& input.topo.no_duplicates()
            &&& forall|i: int| 0 <= i < n ==> #[trigger] input.topo[i] < n
            &&& forall|v: int, k: int| 0 <= v < n && 0 <= k < input.preds[v].len() ==> #[trigger] input.preds[v][k] < n
            &&& forall|i: int, k: int| 0 <= i < n && 0 <= k < input.preds[input.topo[i] as int].len()
                ==> input.topo.take(i).contains(#[trigger] input.preds[input.topo[i] as int][k])
            &&& forall|v: int| 0 <= v < n ==> #[trigger] input.admissible[v].len() > 0
            &&& forall|v: int, k: int| 0 <= v < n && 0 <= k < input.admissible[v].len()
                ==> #[trigger] input.admissible[v][k] < input.n_colours
        }),
    ensures
        valid_input(input),
{
    let n = input.preds.len();
    assert forall|i: int, k: int| #![trigger input.preds[input.topo[i] as int][k]] #![trigger visited_before(input, i, k)]
        0 <= i < n && 0 <= k < input.preds[input.topo[i] as int].len() implies visited_before(input, i, k) by {
        let x = input.preds[input.topo[i] as int][k];
        assert(input.topo.take(i).contains(x));
        let j = choose|j: int| 0 <= j < input.topo.take(i).len() && input.topo.take(i)[j] == x;
        assert(input.topo[j] == x);
    }
}

/// The plan whose colours and depths are `colour` and `depth`; its keys are irrelevant to the
/// deepest-predecessor tables.
pub open spec fn plan_of(colour: Seq<usize>, depth: Seq<usize>) -> Plan {
    Plan { colour, depth, keys: Seq::empty() }
}

/// For each colour, the deepest non-hoisted node of `preds` of that colour.
///
/// `deepest` starts with no entries, and comes back with the entry of each colour that some
/// predecessor has; `touched` lists those colours once each.
fn deepest_table(
    preds: &Vec<usize>,
    hoisted: &Vec<bool>,
    colour_of: &Vec<usize>,
    depth_of: &Vec<usize>,
    n_colours: usize,
    deepest: &mut Vec<Option<usize>>,
    touched: &mut Vec<usize>,
)
    requires
        old(deepest).len() == n_colours,
        forall|c: int| 0 <= c < n_colours ==> #[trigger] old(deepest)[c] is None,
        old(touched).len() == 0,
        hoisted.len() == colour_of.len(),
        depth_of.len() == colour_of.len(),
        forall|k: int| 0 <= k < preds.len() ==> #[trigger] preds[k] < colour_of.len(),
        forall|u: int| 0 <= u < colour_of.len() ==> #[trigger] colour_of[u] < n_colours,
    ensures
        final(deepest).len() == n_colours,
        forall|c: int| 0 <= c < n_colours ==> #[trigger] final(deepest)[c]
            == deepest_of(preds@, hoisted@, plan_of(colour_of@, depth_of@), c as usize),
        final(touched)@.no_duplicates(),
        forall|k: int| 0 <= k < final(touched).len() ==> #[trigger] final(touched)[k] < n_colours
            && final(deepest)[final(touched)[k] as int] is Some,
        forall|c: int| 0 <= c < n_colours && (#[trigger] final(deepest)[c]) is Some
            ==> final(touched)@.contains(c as usize),
{
    let ghost plan = plan_of(colour_of@, depth_of@);
    let mut j: usize = 0;
    while j < preds.len()
        invariant
            j <= preds.len(),
            deepest.len() == n_colours,
            hoisted.len() == colour_of.len(),
            depth_of.len() == colour_of.len(),
            plan == plan_of(colour_of@, depth_of@),
            forall|k: int| 0 <= k < preds.len() ==> #[trigger] preds[k] < colour_of.len(),
            forall|u: int| 0 <= u < colour_of.len() ==> #[trigger] colour_of[u] < n_colours,
            forall|c: int| 0 <= c < n_colours ==> #[trigger] deepest[c]
                == deepest_of(preds@.take(j as int), hoisted@, plan, c as usize),
            touched@.no_duplicates(),
            forall|k: int| 0 <= k < touched.len() ==> #[trigger] touched[k] < n_colours
                && deepest[touched[k] as int] is Some,
            forall|c: int| 0 <= c < n_colours && (#[trigger] deepest[c]) is Some
                ==> touched@.contains(c as usize),
        decreases preds.len() - j,
    {
        let u = preds[j];
        assert(preds@.take(j + 1).drop_last() == preds@.take(j as int));
        if !hoisted[u] {
            let colour = colour_of[u];
            let depth = depth_of[u];
            match deepest[colour] {
                Some(best) => {
                    let deeper = if best >= depth { best } else { depth };
                    deepest.set(colour, Some(deeper));
                },
                None => {
                    let ghost before = touched@;
                    deepest.set(colour, Some(depth));
                    touched.push(colour);
                    assert(touched@ == before.push(colour));
                    assert forall|x: usize| before.contains(x) implies touched@.contains(x) by {
                        let k = choose|k: int| 0 <= k < before.len() && before[k] == x;
                        assert(touched@[k] == x);
                    }
                    assert(touched@[touched.len() - 1] == colour);
                },
            }
        }
        j = j + 1;
    }
    assert(preds@.take(preds.len() as int) == preds@);
}

} // verus!

verus! {

/// The largest entry of `table` among its first `t` colours other than `c`.
pub open spec fn table_max_except(table: Seq<Option<usize>>, c: usize, t: nat) -> Option<usize>
    decreases t,
{
    if t == 0 {
        None
    } else {
        let rest = table_max_except(table, c, (t - 1) as nat);
        if t - 1 == c as int {
            rest
        } else {
            max_opt(rest, table[t - 1])
        }
    }
}

/// `table_max_except` is the largest entry, and is `None` exactly when there is none.
proof fn lemma_table_max_except(table: Seq<Option<usize>>, c: usize, n: nat)
    requires
        n <= table.len(),
    ensures
        (table_max_except(table, c, n) is None) <==> (forall|t: int| 0 <= t < n && t != c ==> #[trigger] table[t] is None),
        table_max_except(table, c, n) matches Some(d) ==> {
            &&& exists|t: int| 0 <= t < n && t != c && #[trigger] table[t] == Some(d)
            &&& forall|t: int| 0 <= t < n && t != c && (#[trigger] table[t]) is Some ==> table[t]->0 <= d
        },
    decreases n,
{
    if n > 0 {
        lemma_table_max_except(table, c, (n - 1) as nat);
        let rest = table_max_except(table, c, (n - 1) as nat);
        if let Some(d) = table_max_except(table, c, n) {
            if n - 1 != c as int {
                match (rest, table[n - 1]) {
                    (Some(x), Some(y)) => {
                        if x >= y {
                            let t = choose|t: int| 0 <= t < n - 1 && t != c && #[trigger] table[t] == Some(x);
                            assert(table[t] == Some(d));
                        } else {
                            assert(table[n - 1] == Some(d));
                        }
                    },
                    (Some(x), None) => {
                        let t = choose|t: int| 0 <= t < n - 1 && t != c && #[trigger] table[t] == Some(x);
                        assert(table[t] == Some(d));
                    },
                    (None, y) => {
                        assert(table[n - 1] == Some(d));
                    },
                }
            } else {
                let t = choose|t: int| 0 <= t < n - 1 && t != c && #[trigger] table[t] == Some(d);
                assert(table[t] == Some(d));
            }
        }
    }
}

/// Two optional maxima characterised the same way are equal.
proof fn lemma_table_max_except_unique(table: Seq<Option<usize>>, c: usize, n: nat, m: Option<usize>)
    requires
        n <= table.len(),
        m is None ==> forall|t: int| 0 <= t < n && t != c ==> #[trigger] table[t] is None,
        m matches Some(d) ==> {
            &&& exists|t: int| 0 <= t < n && t != c && #[trigger] table[t] == Some(d)
            &&& forall|t: int| 0 <= t < n && t != c && (#[trigger] table[t]) is Some ==> table[t]->0 <= d
        },
    ensures
        table_max_except(table, c, n) == m,
{
    lemma_table_max_except(table, c, n);
    match (table_max_except(table, c, n), m) {
        (Some(x), Some(y)) => {
            let t1 = choose|t: int| 0 <= t < n && t != c && #[trigger] table[t] == Some(x);
            let t2 = choose|t: int| 0 <= t < n && t != c && #[trigger] table[t] == Some(y);
            assert(table[t1] is Some);
            assert(table[t2] is Some);
        },
        (Some(x), None) => {
            let t1 = choose|t: int| 0 <= t < n && t != c && #[trigger] table[t] == Some(x);
        },
        (None, Some(y)) => {
            let t2 = choose|t: int| 0 <= t < n && t != c && #[trigger] table[t] == Some(y);
        },
        (None, None) => {},
    }
}

/// With `table` holding each colour's deepest predecessor, `deepest_other` reads it off `table`.
proof fn lemma_deepest_other_is_table_max(
    preds: Seq<usize>,
    hoisted: Seq<bool>,
    plan: Plan,
    table: Seq<Option<usize>>,
    c: usize,
    t: nat,
)
    requires
        t <= table.len(),
        forall|x: int| 0 <= x < table.len() ==> #[trigger] table[x] == deepest_of(preds, hoisted, plan, x as usize),
    ensures
        deepest_other(preds, hoisted, plan, c, t) == table_max_except(table, c, t),
    decreases t,
{
    if t > 0 {
        lemma_deepest_other_is_table_max(preds, hoisted, plan, table, c, (t - 1) as nat);
        assert(table[t - 1] == deepest_of(preds, hoisted, plan, (t - 1) as usize));
    }
}

/// The deepest entry of `table` over the colours in `touched`, and the deepest over those of
/// another colour than that one.
fn first_and_second(touched: &Vec<usize>, table: &Vec<Option<usize>>) -> (res: (
    Option<(usize, usize)>,
    Option<(usize, usize)>,
))
    requires
        touched@.no_duplicates(),
        forall|k: int| 0 <= k < touched.len() ==> #[trigger] touched[k] < table.len() && table[touched[k] as int] is Some,
    ensures
        res.0 is None <==> touched.len() == 0,
        res.0 matches Some((d1, c1)) ==> {
            &&& touched@.contains(c1)
            &&& table[c1 as int] == Some(d1)
            &&& forall|k: int| 0 <= k < touched.len() ==> table[#[trigger] touched[k] as int]->0 <= d1
        },
        res.1 is None ==> forall|k: int| 0 <= k < touched.len() ==> #[trigger] touched[k] == res.0.unwrap().1,
        res.1 matches Some((d2, c2)) ==> {
            &&& res.0 is Some
            &&& c2 != res.0.unwrap().1
            &&& touched@.contains(c2)
            &&& table[c2 as int] == Some(d2)
            &&& forall|k: int| 0 <= k < touched.len() && #[trigger] touched[k] != res.0.unwrap().1
                ==> table[touched[k] as int]->0 <= d2
        },
{
    let mut first: Option<(usize, usize)> = None;
    let mut second: Option<(usize, usize)> = None;
    let mut i: usize = 0;
    while i < touched.len()
        invariant
            i <= touched.len(),
            touched@.no_duplicates(),
            forall|k: int| 0 <= k < touched.len() ==> #[trigger] touched[k] < table.len() && table[touched[k] as int] is Some,
            first is None <==> i == 0,
            first matches Some((d1, c1)) ==> {
                &&& touched@.take(i as int).contains(c1)
                &&& table[c1 as int] == Some(d1)
                &&& forall|k: int| 0 <= k < i ==> table[#[trigger] touched[k] as int]->0 <= d1
            },
            second is None ==> forall|k: int| 0 <= k < i ==> #[trigger] touched[k] == first.unwrap().1,
            second matches Some((d2, c2)) ==> {
                &&& first is Some
                &&& c2 != first.unwrap().1
                &&& touched@.take(i as int).contains(c2)
                &&& table[c2 as int] == Some(d2)
                &&& forall|k: int| 0 <= k < i && #[trigger] touched[k] != first.unwrap().1
                    ==> table[touched[k] as int]->0 <= d2
            },
        decreases touched.len() - i,
    {
        let colour = touched[i];
        let depth = match table[colour] {
            Some(d) => d,
            None => 0,
        };
        let ghost old_first = first;
        let ghost old_second = second;
        assert(touched@.take(i + 1) == touched@.take(i as int).push(colour));
        proof {
            // The colours seen so far are distinct from this one.
            assert forall|k: int| 0 <= k < i implies #[trigger] touched[k] != colour by {
                assert(touched@[k] != touched@[i as int]);
            }
            if let Some((d1, c1)) = old_first {
                let k1 = choose|k: int| 0 <= k < i && touched@.take(i as int)[k] == c1;
                assert(touched[k1] == c1);
            }
        }
        let replace_first = match first {
            None => true,
            Some((best, _)) => depth > best,
        };
        if replace_first {
            second = first;
            first = Some((depth, colour));
        } else {
            let replace_second = match second {
                None => true,
                Some((runner_up, _)) => depth > runner_up,
            };
            if replace_second {
                second = Some((depth, colour));
            }
        }
        proof {
            if let Some((d1, c1)) = old_first {
                let k1 = choose|k: int| 0 <= k < i && touched@.take(i as int)[k] == c1;
                assert(touched@.take(i + 1)[k1] == c1);
            }
            if let Some((d2, c2)) = old_second {
                let k2 = choose|k: int| 0 <= k < i && touched@.take(i as int)[k] == c2;
                assert(touched@.take(i + 1)[k2] == c2);
            }
            assert(touched@.take(i + 1)[i as int] == colour);
        }
        i = i + 1;
    }
    assert(touched@.take(touched.len() as int) == touched@);
    (first, second)
}

} // verus!

verus! {

/// The table of each colour's deepest predecessor of `v`, with the colours it holds.
pub open spec fn table_facts(
    input: HeuristicInput,
    plan: Plan,
    v: usize,
    table: Seq<Option<usize>>,
    touched: Seq<usize>,
) -> bool {
    &&& table.len() == input.n_colours
    &&& forall|c: int| 0 <= c < input.n_colours ==> #[trigger] table[c]
        == deepest_of(input.preds[v as int], input.hoisted, plan, c as usize)
    &&& touched.no_duplicates()
    &&& forall|k: int| 0 <= k < touched.len() ==> #[trigger] touched[k] < input.n_colours
        && table[touched[k] as int] is Some
    &&& forall|c: int| 0 <= c < input.n_colours && (#[trigger] table[c]) is Some ==> touched.contains(c as usize)
}

/// Candidate order, computed.
fn candidate_less(a: (usize, bool, usize), b: (usize, bool, usize)) -> (lt: bool)
    ensures
        lt == candidate_lt(a, b),
{
    a.0 < b.0 || (a.0 == b.0 && ((!a.1 && b.1) || (a.1 == b.1 && a.2 < b.2)))
}

/// The depth and colour the heuristic gives node `v`: the least candidate over its admissible
/// colours.
fn choose_colour(
    adm: &Vec<usize>,
    table: &Vec<Option<usize>>,
    touched: &Vec<usize>,
    first: Option<(usize, usize)>,
    second: Option<(usize, usize)>,
    key_of: &PairIndex,
    Ghost(input): Ghost<HeuristicInput>,
    Ghost(plan): Ghost<Plan>,
    Ghost(bound): Ghost<usize>,
    v: usize,
) -> (chosen: (usize, usize))
    requires
        adm.len() > 0,
        adm@ == input.admissible[v as int],
        forall|k: int| 0 <= k < adm.len() ==> #[trigger] adm[k] < input.n_colours,
        table_facts(input, plan, v, table@, touched@),
        bound < usize::MAX,
        forall|c: int| 0 <= c < table.len() && (#[trigger] table[c]) is Some ==> table[c]->0 <= bound,
        first is None <==> touched.len() == 0,
        first matches Some((d1, c1)) ==> {
            &&& touched@.contains(c1)
            &&& table[c1 as int] == Some(d1)
            &&& forall|k: int| 0 <= k < touched.len() ==> table[#[trigger] touched[k] as int]->0 <= d1
        },
        second is None ==> forall|k: int| 0 <= k < touched.len() ==> #[trigger] touched[k] == first.unwrap().1,
        second matches Some((d2, c2)) ==> {
            &&& first is Some
            &&& c2 != first.unwrap().1
            &&& touched@.contains(c2)
            &&& table[c2 as int] == Some(d2)
            &&& forall|k: int| 0 <= k < touched.len() && #[trigger] touched[k] != first.unwrap().1
                ==> table[touched[k] as int]->0 <= d2
        },
        forall|key: (usize, usize)| #[trigger] pair_index_contents(*key_of).dom().contains(key) <==> plan.keys.contains(key),
    ensures
        best_candidate(input, plan, v, adm@) matches Some(best) && best.0 == chosen.0 && best.2 == chosen.1,
        chosen.0 <= bound + 1,
        chosen.1 < input.n_colours,
{
    let mut chosen: Option<(usize, bool, usize)> = None;
    let mut k: usize = 0;
    while k < adm.len()
        invariant
            0 < adm.len(),
            k <= adm.len(),
            adm@ == input.admissible[v as int],
            forall|k: int| 0 <= k < adm.len() ==> #[trigger] adm[k] < input.n_colours,
            table_facts(input, plan, v, table@, touched@),
            bound < usize::MAX,
            forall|c: int| 0 <= c < table.len() && (#[trigger] table[c]) is Some ==> table[c]->0 <= bound,
            first is None <==> touched.len() == 0,
            first matches Some((d1, c1)) ==> {
                &&& touched@.contains(c1)
                &&& table[c1 as int] == Some(d1)
                &&& forall|k: int| 0 <= k < touched.len() ==> table[#[trigger] touched[k] as int]->0 <= d1
            },
            second is None ==> forall|k: int| 0 <= k < touched.len() ==> #[trigger] touched[k] == first.unwrap().1,
            second matches Some((d2, c2)) ==> {
                &&& first is Some
                &&& c2 != first.unwrap().1
                &&& touched@.contains(c2)
                &&& table[c2 as int] == Some(d2)
                &&& forall|k: int| 0 <= k < touched.len() && #[trigger] touched[k] != first.unwrap().1
                    ==> table[touched[k] as int]->0 <= d2
            },
            forall|key: (usize, usize)| #[trigger] pair_index_contents(*key_of).dom().contains(key) <==> plan.keys.contains(key),
            chosen == best_candidate(input, plan, v, adm@.take(k as int)),
            k > 0 ==> chosen is Some,
            chosen matches Some(c) ==> c.0 <= bound + 1 && c.2 < input.n_colours,
        decreases adm.len() - k,
    {
        let colour = adm[k];
        let same = match table[colour] {
            Some(d) => d,
            None => 0,
        };
        let different = match first {
            Some((depth, c)) => if c != colour {
                Some(depth)
            } else {
                match second {
                    Some((depth2, _)) => Some(depth2),
                    None => None,
                }
            },
            None => None,
        };
        proof {
            let preds = input.preds[v as int];
            lemma_deepest_other_is_table_max(preds, input.hoisted, plan, table@, colour, input.n_colours as nat);
            assert forall|t: int| 0 <= t < input.n_colours && (#[trigger] table@[t]) is Some implies touched@.contains(t as usize) by {}
            if let Some((d1, c1)) = first {
                let k1 = choose|k: int| 0 <= k < touched.len() && touched@[k] == c1;
                if c1 != colour {
                    assert(table@[c1 as int] == Some(d1));
                    assert forall|t: int| 0 <= t < input.n_colours && t != colour && (#[trigger] table@[t]) is Some
                        implies table@[t]->0 <= d1 by {
                        let kt = choose|k: int| 0 <= k < touched.len() && touched@[k] == t as usize;
                        assert(table@[touched[kt] as int]->0 <= d1);
                    }
                } else {
                    if let Some((d2, c2)) = second {
                        assert(table@[c2 as int] == Some(d2));
                        let k2 = choose|k: int| 0 <= k < touched.len() && touched@[k] == c2;
                        assert forall|t: int| 0 <= t < input.n_colours && t != colour && (#[trigger] table@[t]) is Some
                            implies table@[t]->0 <= d2 by {
                            let kt = choose|k: int| 0 <= k < touched.len() && touched@[k] == t as usize;
                            assert(touched[kt] != c1);
                        }
                    } else {
                        assert forall|t: int| 0 <= t < input.n_colours && t != colour implies #[trigger] table@[t] is None by {
                            if table@[t] is Some {
                                let kt = choose|k: int| 0 <= k < touched.len() && touched@[k] == t as usize;
                                assert(touched[kt] == c1);
                            }
                        }
                    }
                }
            } else {
                assert forall|t: int| 0 <= t < input.n_colours && t != colour implies #[trigger] table@[t] is None by {
                    if table@[t] is Some {
                        assert(touched@.contains(t as usize));
                    }
                }
            }
            lemma_table_max_except_unique(table@, colour, input.n_colours as nat, different);
        }
        let depth = match different {
            Some(d) => if same >= d + 1 { same } else { d + 1 },
            None => same,
        };
        let key_is_new = key_of.get((colour, depth)).is_none();
        let cand = (depth, key_is_new, colour);
        assert(cand == candidate(input, plan, v, colour));
        let better = match chosen {
            None => true,
            Some(best) => candidate_less(cand, best),
        };
        if better {
            chosen = Some(cand);
        }
        assert(adm@.take(k + 1).drop_last() == adm@.take(k as int));
        k = k + 1;
    }
    assert(adm@.take(adm.len() as int) == adm@);
    let best = chosen.unwrap();
    (best.0, best.2)
}

} // verus!

verus! {

/// The heuristic's reading of a graph given as vectors.
pub open spec fn heuristic_input(
    preds: Seq<Vec<usize>>,
    topo: Seq<usize>,
    admissible: Seq<Vec<usize>>,
    hoisted: Seq<bool>,
    n_colours: usize,
) -> HeuristicInput {
    HeuristicInput {
        preds: preds.map_values(|p: Vec<usize>| p@),
        topo,
        admissible: admissible.map_values(|a: Vec<usize>| a@),
        hoisted,
        n_colours,
    }
}

/// A deepest-predecessor entry is no deeper than the deepest node.
proof fn lemma_deepest_of_bounded(preds: Seq<usize>, hoisted: Seq<bool>, plan: Plan, c: usize, bound: usize)
    requires
        forall|k: int| 0 <= k < preds.len() ==> 0 <= #[trigger] preds[k] < plan.depth.len(),
        forall|u: int| 0 <= u < plan.depth.len() ==> #[trigger] plan.depth[u] <= bound,
    ensures
        deepest_of(preds, hoisted, plan, c) matches Some(d) ==> d <= bound,
    decreases preds.len(),
{
    if preds.len() > 0 {
        lemma_deepest_of_bounded(preds.drop_last(), hoisted, plan, c, bound);
        assert(preds.last() == preds[preds.len() - 1]);
    }
}

/// The deepest-predecessor entries read only the colours and depths of a plan.
proof fn lemma_deepest_of_same_tables(preds: Seq<usize>, hoisted: Seq<bool>, a: Plan, b: Plan, c: usize)
    requires
        a.colour == b.colour,
        a.depth == b.depth,
    ensures
        deepest_of(preds, hoisted, a, c) == deepest_of(preds, hoisted, b, c),
    decreases preds.len(),
{
    if preds.len() > 0 {
        lemma_deepest_of_same_tables(preds.drop_last(), hoisted, a, b, c);
    }
}

/// An order of `n` distinct nodes below `n` holds every node.
pub proof fn lemma_order_covers(topo: Seq<usize>, n: nat)
    requires
        topo.len() == n,
        topo.no_duplicates(),
        forall|i: int| 0 <= i < n ==> #[trigger] topo[i] < n,
    ensures
        forall|v: usize| v < n ==> #[trigger] topo.contains(v),
{
    broadcast use vstd::seq_lib::seq_to_set_is_finite;
    let s = topo.map_values(|x: usize| x as int);
    assert(s.no_duplicates()) by {
        assert forall|i: int, j: int| 0 <= i < s.len() && 0 <= j < s.len() && i != j implies s[i] != s[j] by {
            assert(topo[i] != topo[j]);
        }
    }
    s.unique_seq_to_set();
    vstd::set_lib::lemma_int_range(0, n as int);
    let range = vstd::set_lib::set_int_range(0, n as int);
    assert(s.to_set().subset_of(range)) by {
        assert forall|x: int| s.to_set().contains(x) implies range.contains(x) by {
            let i = choose|i: int| 0 <= i < s.len() && s[i] == x;
            assert(topo[i] < n);
        }
    }
    vstd::set_lib::lemma_subset_equality(s.to_set(), range);
    assert forall|v: usize| v < n implies #[trigger] topo.contains(v) by {
        assert(range.contains(v as int));
        assert(s.to_set().contains(v as int));
        let i = choose|i: int| 0 <= i < s.len() && s[i] == v as int;
        assert(topo[i] == v);
    }
}

/// A vector of `n` copies of `value`.
fn filled<T: Copy>(value: T, n: usize) -> (v: Vec<T>)
    ensures
        v@ == Seq::new(n as nat, |i: int| value),
{
    let mut v: Vec<T> = Vec::new();
    for i in 0..n
        invariant
            v@ == Seq::new(i as nat, |j: int| value),
    {
        v.push(value);
    }
    v
}

/// The colour, depth and key the heuristic gives each node, in topological order.
struct Colouring {
    colour_of: Vec<usize>,
    depth_of: Vec<usize>,
    keys: Vec<(usize, usize)>,
    node_key: Vec<Option<usize>>,
}

/// Colour every non-hoisted node, visiting them in topological order.
fn colour_nodes(
    preds: &Vec<Vec<usize>>,
    topo_order: &Vec<usize>,
    admissible: &Vec<Vec<usize>>,
    hoisted: &Vec<bool>,
    n_colours: usize,
) -> (colouring: Colouring)
    requires
        valid_input(heuristic_input(preds@, topo_order@, admissible@, hoisted@, n_colours)),
    ensures
        ({
            let input = heuristic_input(preds@, topo_order@, admissible@, hoisted@, n_colours);
            let plan = plan_upto(input, preds.len() as nat);
            &&& colouring.colour_of@ == plan.colour
            &&& colouring.depth_of@ == plan.depth
            &&& colouring.keys@ == plan.keys
            &&& plan.keys.no_duplicates()
            &&& colouring.node_key.len() == preds.len()
            &&& forall|v: int| 0 <= v < preds.len() ==> (#[trigger] colouring.node_key[v] is Some <==> !hoisted[v])
            &&& forall|v: int| 0 <= v < preds.len() && #[trigger] colouring.node_key[v] is Some ==> {
                &&& colouring.node_key[v]->0 < plan.keys.len()
                &&& plan.keys[colouring.node_key[v]->0 as int] == (plan.colour[v], plan.depth[v])
            }
        }),
{
    let ghost input = heuristic_input(preds@, topo_order@, admissible@, hoisted@, n_colours);
    let n_bound = preds.len();
    let mut colour_of: Vec<usize> = filled(0usize, n_bound);
    let mut depth_of: Vec<usize> = filled(0usize, n_bound);
    let mut keys: Vec<(usize, usize)> = Vec::new();
    let mut key_of = PairIndex::new();
    let mut node_key: Vec<Option<usize>> = filled(None, n_bound);
    let mut deepest: Vec<Option<usize>> = filled(None, n_colours);
    let mut touched: Vec<usize> = Vec::new();
    assert(colour_of@ == plan_upto(input, 0).colour);
    assert(depth_of@ == plan_upto(input, 0).depth);
    if n_bound > 0 {
        assert(input.admissible[0].len() > 0);
        assert(input.admissible[0][0] < n_colours);
    }

    let mut i: usize = 0;
    while i < n_bound
        invariant
            i <= n_bound,
            n_bound == preds.len(),
            n_bound > 0 ==> n_colours > 0,
            valid_input(input),
            input == heuristic_input(preds@, topo_order@, admissible@, hoisted@, n_colours),
            colour_of@ == plan_upto(input, i as nat).colour,
            depth_of@ == plan_upto(input, i as nat).depth,
            keys@ == plan_upto(input, i as nat).keys,
            colour_of.len() == n_bound,
            depth_of.len() == n_bound,
            node_key.len() == n_bound,
            deepest.len() == n_colours,
            forall|c: int| 0 <= c < n_colours ==> #[trigger] deepest[c] is None,
            forall|u: int| 0 <= u < n_bound ==> #[trigger] colour_of[u] < n_colours,
            forall|u: int| 0 <= u < n_bound ==> #[trigger] depth_of[u] <= i,
            keys@.no_duplicates(),
            forall|key: (usize, usize)| #[trigger] pair_index_contents(key_of).dom().contains(key) <==> keys@.contains(key),
            forall|j: int| 0 <= j < keys.len() ==> #[trigger] pair_index_contents(key_of)[keys[j]] == j,
            forall|v: int| 0 <= v < n_bound ==> (#[trigger] node_key[v] is Some
                <==> (!hoisted[v] && topo_order@.take(i as int).contains(v as usize))),
            forall|v: int| 0 <= v < n_bound && #[trigger] node_key[v] is Some ==> {
                &&& node_key[v]->0 < keys.len()
                &&& keys[node_key[v]->0 as int] == (colour_of[v], depth_of[v])
            },
        decreases n_bound - i,
    {
        let v = topo_order[i];
        let ghost plan = plan_upto(input, i as nat);
        assert(topo_order@.take(i + 1) == topo_order@.take(i as int).push(v));
        proof {
            // `v` has not been visited before.
            if topo_order@.take(i as int).contains(v) {
                let j = choose|j: int| 0 <= j < i && topo_order@.take(i as int)[j] == v;
                assert(topo_order@[j] == topo_order@[i as int]);
            }
        }
        if !hoisted[v] {
            touched.clear();
            let ghost vp = preds[v as int];
            assert(input.preds[v as int] == preds[v as int]@);
            deepest_table(&preds[v], hoisted, &colour_of, &depth_of, n_colours, &mut deepest, &mut touched);
            proof {
                assert forall|c: int| 0 <= c < n_colours && (#[trigger] deepest[c]) is Some implies deepest[c]->0 <= i by {
                    lemma_deepest_of_bounded(preds[v as int]@, hoisted@, plan_of(colour_of@, depth_of@), c as usize, i);
                }
                assert forall|c: int| 0 <= c < n_colours implies #[trigger] deepest[c]
                    == deepest_of(input.preds[v as int], input.hoisted, plan, c as usize) by {
                    assert(deepest_of(preds[v as int]@, hoisted@, plan_of(colour_of@, depth_of@), c as usize)
                        == deepest_of(input.preds[v as int], input.hoisted, plan, c as usize)) by {
                        lemma_deepest_of_same_tables(input.preds[v as int], input.hoisted, plan_of(colour_of@, depth_of@), plan, c as usize);
                    }
                }
            }
            let (first, second) = first_and_second(&touched, &deepest);
            assert(input.admissible[v as int] == admissible[v as int]@);
            let (depth, colour) = choose_colour(
                &admissible[v], &deepest, &touched, first, second, &key_of,
                Ghost(input), Ghost(plan), Ghost(i), v,
            );
            let mut t: usize = 0;
            assert(touched@.subrange(0, touched.len() as int) == touched@);
            while t < touched.len()
                invariant
                    t <= touched.len(),
                    deepest.len() == n_colours,
                    forall|k: int| 0 <= k < touched.len() ==> #[trigger] touched[k] < n_colours,
                    forall|c: int| 0 <= c < n_colours && (#[trigger] deepest[c]) is Some
                        ==> touched@.subrange(t as int, touched.len() as int).contains(c as usize),
                decreases touched.len() - t,
            {
                let c = touched[t];
                deepest.set(c, None);
                proof {
                    assert forall|x: int| 0 <= x < n_colours && (#[trigger] deepest[x]) is Some
                        implies touched@.subrange(t + 1, touched.len() as int).contains(x as usize) by {
                        let k = choose|k: int| 0 <= k < touched.len() - t
                            && touched@.subrange(t as int, touched.len() as int)[k] == x as usize;
                        assert(k != 0);
                        assert(touched@.subrange(t + 1, touched.len() as int)[k - 1] == x as usize);
                    }
                }
                t = t + 1;
            }
            colour_of.set(v, colour);
            depth_of.set(v, depth);
            let ghost old_keys = keys@;
            let key = match key_of.get((colour, depth)) {
                Some(existing) => existing,
                None => {
                    let fresh = keys.len();
                    keys.push((colour, depth));
                    key_of.insert((colour, depth), fresh);
                    proof {
                        assert(keys@ == old_keys.push((colour, depth)));
                        assert forall|key: (usize, usize)| #[trigger] keys@.contains(key)
                            <==> (old_keys.contains(key) || key == (colour, depth)) by {
                            if keys@.contains(key) {
                                let j = choose|j: int| 0 <= j < keys.len() && keys@[j] == key;
                                if j < old_keys.len() {
                                    assert(old_keys[j] == key);
                                }
                            }
                            if old_keys.contains(key) {
                                let j = choose|j: int| 0 <= j < old_keys.len() && old_keys[j] == key;
                                assert(keys@[j] == key);
                            }
                            if key == (colour, depth) {
                                assert(keys@[fresh as int] == key);
                            }
                        }
                        assert forall|j: int| 0 <= j < keys.len() implies #[trigger] pair_index_contents(key_of)[keys[j]] == j by {
                            if j < old_keys.len() {
                                assert(old_keys[j] != (colour, depth));
                            }
                        }
                    }
                    fresh
                },
            };
            proof {
                if old_keys.contains((colour, depth)) {
                    assert(keys@ == old_keys);
                }
            }
            node_key.set(v, Some(key));
        }
        proof {
            assert forall|u: usize| u != v implies (#[trigger] topo_order@.take(i + 1).contains(u)
                <==> topo_order@.take(i as int).contains(u)) by {
                if topo_order@.take(i + 1).contains(u) {
                    let j = choose|j: int| 0 <= j < i + 1 && #[trigger] topo_order@.take(i + 1)[j] == u;
                    assert(topo_order@.take(i as int)[j] == u);
                }
                if topo_order@.take(i as int).contains(u) {
                    let j = choose|j: int| 0 <= j < i && #[trigger] topo_order@.take(i as int)[j] == u;
                    assert(topo_order@.take(i + 1)[j] == u);
                }
            }
            assert(topo_order@.take(i + 1)[i as int] == v);
        }
        i = i + 1;
    }
    assert(topo_order@.take(n_bound as int) == topo_order@);
    proof {
        lemma_order_covers(topo_order@, n_bound as nat);
    }
    Colouring { colour_of, depth_of, keys, node_key }
}

} // verus!

verus! {

/// The region of node `v` under `plan`: the rank of its key, or none for a hoisted node.
pub open spec fn region_spec(input: HeuristicInput, plan: Plan, v: usize) -> Option<usize> {
    if input.hoisted[v as int] {
        None
    } else {
        Some(rank_of(plan.keys, (plan.colour[v as int], plan.depth[v as int])) as usize)
    }
}

/// The nodes of `nodes` in region `r`, in order.
pub open spec fn region_members(input: HeuristicInput, plan: Plan, nodes: Seq<usize>, r: usize) -> Seq<usize>
    decreases nodes.len(),
{
    if nodes.len() == 0 {
        Seq::empty()
    } else {
        let rest = region_members(input, plan, nodes.drop_last(), r);
        if region_spec(input, plan, nodes.last()) == Some(r) {
            rest.push(nodes.last())
        } else {
            rest
        }
    }
}

/// A rank counts at most every key, and a key held among them sorts after itself never.
proof fn lemma_rank_bound(keys: Seq<(usize, usize)>, key: (usize, usize))
    ensures
        rank_of(keys, key) <= keys.len(),
        keys.contains(key) ==> rank_of(keys, key) < keys.len(),
    decreases keys.len(),
{
    if keys.len() > 0 {
        lemma_rank_bound(keys.drop_last(), key);
        if keys.contains(key) && keys.last() != key {
            let j = choose|j: int| 0 <= j < keys.len() && keys[j] == key;
            assert(keys.drop_last()[j] == key);
        }
    }
}

/// A key sorting no later than another has no greater rank, and a strictly earlier key held
/// among them has a strictly smaller one.
proof fn lemma_rank_monotone(keys: Seq<(usize, usize)>, a: (usize, usize), b: (usize, usize))
    requires
        key_before(a, b) || a == b,
    ensures
        rank_of(keys, a) <= rank_of(keys, b),
        key_before(a, b) && keys.contains(a) ==> rank_of(keys, a) < rank_of(keys, b),
    decreases keys.len(),
{
    if keys.len() > 0 {
        lemma_rank_monotone(keys.drop_last(), a, b);
        if key_before(a, b) && keys.contains(a) && keys.last() != a {
            let j = choose|j: int| 0 <= j < keys.len() && keys[j] == a;
            assert(keys.drop_last()[j] == a);
        }
    }
}

/// Distinct keys have distinct ranks.
proof fn lemma_rank_injective(keys: Seq<(usize, usize)>, a: (usize, usize), b: (usize, usize))
    requires
        keys.contains(a),
        keys.contains(b),
        a != b,
    ensures
        rank_of(keys, a) != rank_of(keys, b),
{
    if key_before(a, b) {
        lemma_rank_monotone(keys, a, b);
    } else {
        assert(key_before(b, a));
        lemma_rank_monotone(keys, b, a);
    }
}

/// Whether some key of `keys` has rank `r`.
pub open spec fn rank_taken(keys: Seq<(usize, usize)>, r: usize) -> bool {
    exists|x: int| 0 <= x < keys.len() && #[trigger] rank_of(keys, keys[x]) == r
}

/// The ranks of distinct keys are exactly `0 .. keys.len()`.
proof fn lemma_ranks_cover(keys: Seq<(usize, usize)>)
    requires
        keys.no_duplicates(),
        keys.len() <= usize::MAX,
    ensures
        forall|r: usize| r < keys.len() ==> #[trigger] rank_taken(keys, r),
{
    let ranks = Seq::new(keys.len(), |x: int| rank_of(keys, keys[x]) as usize);
    assert forall|x: int| 0 <= x < keys.len() implies #[trigger] ranks[x] < keys.len() by {
        lemma_rank_bound(keys, keys[x]);
    }
    assert(ranks.no_duplicates()) by {
        assert forall|x: int, y: int| 0 <= x < ranks.len() && 0 <= y < ranks.len() && x != y implies ranks[x] != ranks[y] by {
            lemma_rank_bound(keys, keys[x]);
            lemma_rank_bound(keys, keys[y]);
            assert(keys[x] != keys[y]);
            lemma_rank_injective(keys, keys[x], keys[y]);
        }
    }
    lemma_order_covers(ranks, keys.len());
    assert forall|r: usize| r < keys.len() implies #[trigger] rank_taken(keys, r) by {
        assert(ranks.contains(r));
        let x = choose|x: int| 0 <= x < ranks.len() && ranks[x] == r;
        lemma_rank_bound(keys, keys[x]);
    }
}

/// The heuristic's partition: the region of each node (none for a hoisted node), the members
/// of each region in topological order, and the colour of each region.
pub struct RegionAssignment {
    pub region_of: Vec<Option<usize>>,
    pub members: Vec<Vec<usize>>,
    pub colour_of_region: Vec<usize>,
}

/// Number the regions by `(depth, colour)` and list their members.
fn number_regions(
    colouring: &Colouring,
    topo_order: &Vec<usize>,
    hoisted: &Vec<bool>,
    Ghost(input): Ghost<HeuristicInput>,
) -> (assignment: RegionAssignment)
    requires
        valid_input(input),
        input.topo == topo_order@,
        input.hoisted == hoisted@,
        ({
            let plan = plan_upto(input, input.preds.len() as nat);
            &&& colouring.colour_of@ == plan.colour
            &&& colouring.depth_of@ == plan.depth
            &&& colouring.keys@ == plan.keys
            &&& plan.keys.no_duplicates()
            &&& colouring.node_key.len() == input.preds.len()
            &&& forall|v: int| 0 <= v < input.preds.len() ==> (#[trigger] colouring.node_key[v] is Some <==> !hoisted[v])
            &&& forall|v: int| 0 <= v < input.preds.len() && #[trigger] colouring.node_key[v] is Some ==> {
                &&& colouring.node_key[v]->0 < plan.keys.len()
                &&& plan.keys[colouring.node_key[v]->0 as int] == (plan.colour[v], plan.depth[v])
            }
        }),
    ensures
        ({
            let plan = plan_upto(input, input.preds.len() as nat);
            &&& assignment.region_of.len() == input.preds.len()
            &&& forall|v: int| 0 <= v < input.preds.len() ==> #[trigger] assignment.region_of[v] == region_spec(input, plan, v as usize)
            &&& assignment.members.len() == plan.keys.len()
            &&& forall|r: int| 0 <= r < plan.keys.len() ==> #[trigger] assignment.members[r]@
                == region_members(input, plan, input.topo, r as usize)
            &&& assignment.colour_of_region.len() == plan.keys.len()
            &&& forall|x: int| 0 <= x < plan.keys.len() ==> #[trigger] assignment.colour_of_region[rank_of(plan.keys, plan.keys[x]) as int]
                == plan.keys[x].0
        }),
{
    let ghost plan = plan_upto(input, input.preds.len() as nat);
    let keys = &colouring.keys;
    let n_keys = keys.len();

    // The rank of each key.
    let mut region_of_key: Vec<usize> = Vec::new();
    for x in 0..n_keys
        invariant
            n_keys == keys.len(),
            region_of_key.len() == x,
            forall|y: int| 0 <= y < x ==> #[trigger] region_of_key[y] == rank_of(keys@, keys@[y]),
    {
        let mut count: usize = 0;
        for j in 0..n_keys
            invariant
                n_keys == keys.len(),
                x < n_keys,
                count == rank_of(keys@.take(j as int), keys@[x as int]),
                count <= j,
        {
            assert(keys@.take(j + 1).drop_last() == keys@.take(j as int));
            let a = keys[j];
            let b = keys[x];
            if a.1 < b.1 || (a.1 == b.1 && a.0 < b.0) {
                count = count + 1;
            }
        }
        assert(keys@.take(n_keys as int) == keys@);
        region_of_key.push(count);
    }

    // The colour of each region.
    let mut colour_of_region: Vec<usize> = filled(0usize, n_keys);
    for x in 0..n_keys
        invariant
            n_keys == keys.len(),
            keys@ == plan.keys,
            plan.keys.no_duplicates(),
            region_of_key.len() == n_keys,
            forall|y: int| 0 <= y < n_keys ==> #[trigger] region_of_key[y] == rank_of(keys@, keys@[y]),
            colour_of_region.len() == n_keys,
            forall|y: int| 0 <= y < x ==> #[trigger] colour_of_region[rank_of(keys@, keys@[y]) as int] == keys@[y].0,
    {
        proof {
            lemma_rank_bound(keys@, keys@[x as int]);
            assert forall|y: int| 0 <= y < x implies rank_of(keys@, keys@[y]) != rank_of(keys@, keys@[x as int]) by {
                lemma_rank_injective(keys@, keys@[y], keys@[x as int]);
            }
        }
        let ghost before = colour_of_region@;
        colour_of_region.set(region_of_key[x], keys[x].0);
        proof {
            assert forall|y: int| 0 <= y < x + 1 implies #[trigger] colour_of_region[rank_of(keys@, keys@[y]) as int] == keys@[y].0 by {
                lemma_rank_bound(keys@, keys@[y]);
                if y < x {
                    assert(keys@[y] != keys@[x as int]);
                    lemma_rank_injective(keys@, keys@[y], keys@[x as int]);
                    assert(before[rank_of(keys@, keys@[y]) as int] == keys@[y].0);
                }
            }
        }
    }

    // The region of each node.
    let n_bound = colouring.node_key.len();
    let mut region_of: Vec<Option<usize>> = Vec::new();
    for v in 0..n_bound
        invariant
            n_bound == colouring.node_key.len(),
            n_bound == input.preds.len(),
            n_keys == keys.len(),
            keys@ == plan.keys,
            colouring.colour_of@ == plan.colour,
            colouring.depth_of@ == plan.depth,
            input.hoisted == hoisted@,
            region_of_key.len() == n_keys,
            forall|y: int| 0 <= y < n_keys ==> #[trigger] region_of_key[y] == rank_of(keys@, keys@[y]),
            forall|u: int| 0 <= u < n_bound ==> (#[trigger] colouring.node_key[u] is Some <==> !hoisted[u]),
            forall|u: int| 0 <= u < n_bound && #[trigger] colouring.node_key[u] is Some ==> {
                &&& colouring.node_key[u]->0 < plan.keys.len()
                &&& plan.keys[colouring.node_key[u]->0 as int] == (plan.colour[u], plan.depth[u])
            },
            hoisted.len() == n_bound,
            region_of.len() == v,
            forall|u: int| 0 <= u < v ==> #[trigger] region_of[u] == region_spec(input, plan, u as usize),
    {
        match colouring.node_key[v] {
            Some(key) => region_of.push(Some(region_of_key[key])),
            None => region_of.push(None),
        }
    }

    // The members of each region, in topological order.
    let mut members: Vec<Vec<usize>> = Vec::new();
    for r in 0..n_keys
        invariant
            n_bound == input.preds.len(),
            region_of.len() == n_bound,
            topo_order@ == input.topo,
            valid_input(input),
            forall|u: int| 0 <= u < n_bound ==> #[trigger] region_of[u] == region_spec(input, plan, u as usize),
            members.len() == r,
            forall|q: int| 0 <= q < r ==> #[trigger] members[q]@ == region_members(input, plan, input.topo, q as usize),
    {
        let mut in_region: Vec<usize> = Vec::new();
        for i in 0..topo_order.len()
            invariant
                n_bound == input.preds.len(),
                region_of.len() == n_bound,
                topo_order@ == input.topo,
                valid_input(input),
                forall|u: int| 0 <= u < n_bound ==> #[trigger] region_of[u] == region_spec(input, plan, u as usize),
                in_region@ == region_members(input, plan, input.topo.take(i as int), r),
        {
            assert(input.topo.take(i + 1).drop_last() == input.topo.take(i as int));
            let v = topo_order[i];
            if region_of[v] == Some(r) {
                in_region.push(v);
            }
        }
        assert(input.topo.take(topo_order.len() as int) == input.topo);
        members.push(in_region);
    }

    RegionAssignment { region_of, members, colour_of_region }
}

} // verus!

verus! {

/// Run the partitioning heuristic over a graph given by its incoming edges.
///
/// Each non-hoisted node takes a colour from `admissible` and a depth: the least candidate
/// `(depth, key_is_new, colour)` over its admissible colours, where a colour `c` gives the
/// depth `max(M_c, M_≠c + 1)` over the deepest predecessor of that colour and of any other.
/// The regions are the classes of equal `(colour, depth)`, numbered by `(depth, colour)`.
pub(crate) fn assign_regions(
    preds: &Vec<Vec<usize>>,
    topo_order: &Vec<usize>,
    admissible: &Vec<Vec<usize>>,
    hoisted: &Vec<bool>,
    n_colours: usize,
) -> (assignment: RegionAssignment)
    requires
        valid_input(heuristic_input(preds@, topo_order@, admissible@, hoisted@, n_colours)),
    ensures
        ({
            let input = heuristic_input(preds@, topo_order@, admissible@, hoisted@, n_colours);
            let plan = plan_upto(input, preds.len() as nat);
            &&& assignment.region_of.len() == preds.len()
            &&& forall|v: int| 0 <= v < preds.len() ==> #[trigger] assignment.region_of[v] == region_spec(input, plan, v as usize)
            &&& assignment.members.len() == plan.keys.len()
            &&& forall|r: int| 0 <= r < plan.keys.len() ==> #[trigger] assignment.members[r]@
                == region_members(input, plan, input.topo, r as usize)
            &&& forall|r: int| 0 <= r < plan.keys.len() ==> #[trigger] assignment.members[r]@.len() > 0
            &&& assignment.colour_of_region.len() == plan.keys.len()
            &&& forall|x: int| 0 <= x < plan.keys.len() ==> #[trigger] assignment.colour_of_region[rank_of(plan.keys, plan.keys[x]) as int]
                == plan.keys[x].0
            &&& forall|r: int| 0 <= r < plan.keys.len() ==> #[trigger] assignment.colour_of_region[r] == region_colour(plan, r as usize)
            &&& forall|v: int| 0 <= v < preds.len() && !hoisted[v] ==> (#[trigger] region_spec(input, plan, v as usize) matches Some(r)
                && r < plan.keys.len())
        }),
{
    let colouring = colour_nodes(preds, topo_order, admissible, hoisted, n_colours);
    let ghost input = heuristic_input(preds@, topo_order@, admissible@, hoisted@, n_colours);
    let assignment = number_regions(&colouring, topo_order, hoisted, Ghost(input));
    proof {
        let n = preds.len() as nat;
        let plan = plan_upto(input, n);
        lemma_plan_keys_grow(input, n, n);
        lemma_plan_lengths(input, n);
        lemma_ranks_cover(plan.keys);
        assert forall|r: int| 0 <= r < plan.keys.len() implies #[trigger] assignment.colour_of_region[r] == region_colour(plan, r as usize) by {
            assert(rank_taken(plan.keys, r as usize));
        }
        assert forall|v: int| 0 <= v < preds.len() && !hoisted[v] implies (#[trigger] region_spec(input, plan, v as usize) matches Some(r)
            && r < plan.keys.len()) by {
            lemma_key_recorded(input, v as usize);
            lemma_rank_bound(plan.keys, (plan.colour[v], plan.depth[v]));
        }
        assert forall|r: int| 0 <= r < plan.keys.len() implies #[trigger] assignment.members[r]@.len() > 0 by {
            lemma_regions_nonempty(input, r as usize);
        }
    }
    assignment
}

/// The colour of region `r`: that of the key ranked `r`.
pub open spec fn region_colour(plan: Plan, r: usize) -> usize {
    plan.keys[choose|x: int| 0 <= x < plan.keys.len() && rank_of(plan.keys, plan.keys[x]) == r].0
}

// ---------------------------------------------------------------------------
// Why the regions are convex
// ---------------------------------------------------------------------------

/// The best candidate is one of the admissible colours, at the depth that colour gives.
proof fn lemma_best_candidate(input: HeuristicInput, plan: Plan, v: usize, adm: Seq<usize>)
    requires
        adm.len() > 0,
    ensures
        best_candidate(input, plan, v, adm) matches Some(best) && adm.contains(best.2)
            && best.0 == depth_for(input, plan, v, best.2),
    decreases adm.len(),
{
    if adm.len() > 1 {
        lemma_best_candidate(input, plan, v, adm.drop_last());
        let best = best_candidate(input, plan, v, adm.drop_last()).unwrap();
        let j = choose|j: int| 0 <= j < adm.drop_last().len() && adm.drop_last()[j] == best.2;
        assert(adm[j] == best.2);
    }
    assert(adm[adm.len() - 1] == adm.last());
}

/// A deepest-predecessor entry is at least as deep as each predecessor of its colour.
proof fn lemma_deepest_of_covers(preds: Seq<usize>, hoisted: Seq<bool>, plan: Plan, k: int)
    requires
        0 <= k < preds.len(),
        !hoisted[preds[k] as int],
    ensures
        deepest_of(preds, hoisted, plan, plan.colour[preds[k] as int]) matches Some(d)
            && d >= plan.depth[preds[k] as int],
    decreases preds.len(),
{
    if k < preds.len() - 1 {
        lemma_deepest_of_covers(preds.drop_last(), hoisted, plan, k);
        assert(preds.drop_last()[k] == preds[k]);
    }
}

/// The deepest node of another colour is at least as deep as the deepest of each such colour.
proof fn lemma_deepest_other_covers(preds: Seq<usize>, hoisted: Seq<bool>, plan: Plan, c: usize, other: usize, t: nat)
    requires
        other != c,
        other < t,
        deepest_of(preds, hoisted, plan, other) is Some,
    ensures
        deepest_other(preds, hoisted, plan, c, t) matches Some(d)
            && d >= deepest_of(preds, hoisted, plan, other)->0,
    decreases t,
{
    if other < t - 1 {
        lemma_deepest_other_covers(preds, hoisted, plan, c, other, (t - 1) as nat);
    }
}

/// A node's step reads the colours and depths that its predecessors end with.
proof fn lemma_plan_stable(input: HeuristicInput, j: int, k: nat)
    requires
        valid_input(input),
        0 <= j < k <= input.topo.len(),
    ensures
        plan_upto(input, k).colour[input.topo[j] as int] == plan_upto(input, (j + 1) as nat).colour[input.topo[j] as int],
        plan_upto(input, k).depth[input.topo[j] as int] == plan_upto(input, (j + 1) as nat).depth[input.topo[j] as int],
        plan_upto(input, k).colour.len() == input.preds.len(),
        plan_upto(input, k).depth.len() == input.preds.len(),
    decreases k,
{
    lemma_plan_lengths(input, k);
    if k > j + 1 {
        lemma_plan_stable(input, j, (k - 1) as nat);
        assert(input.topo[k - 1] != input.topo[j]);
    }
}

/// The tables of a plan cover every node, and it holds at most one key per step.
proof fn lemma_plan_lengths(input: HeuristicInput, k: nat)
    requires
        valid_input(input),
        k <= input.topo.len(),
    ensures
        plan_upto(input, k).colour.len() == input.preds.len(),
        plan_upto(input, k).depth.len() == input.preds.len(),
        plan_upto(input, k).keys.len() <= k,
    decreases k,
{
    if k > 0 {
        lemma_plan_lengths(input, (k - 1) as nat);
    }
}

/// The deepest node of another colour is no deeper than the deepest node.
proof fn lemma_deepest_other_bounded(preds: Seq<usize>, hoisted: Seq<bool>, plan: Plan, c: usize, t: nat, bound: usize)
    requires
        forall|k: int| 0 <= k < preds.len() ==> 0 <= #[trigger] preds[k] < plan.depth.len(),
        forall|u: int| 0 <= u < plan.depth.len() ==> #[trigger] plan.depth[u] <= bound,
    ensures
        deepest_other(preds, hoisted, plan, c, t) matches Some(d) ==> d <= bound,
    decreases t,
{
    if t > 0 {
        lemma_deepest_other_bounded(preds, hoisted, plan, c, (t - 1) as nat, bound);
        lemma_deepest_of_bounded(preds, hoisted, plan, (t - 1) as usize, bound);
    }
}

/// After `k` steps no node is deeper than `k`.
proof fn lemma_plan_depths(input: HeuristicInput, k: nat)
    requires
        valid_input(input),
        k <= input.topo.len(),
        input.preds.len() <= usize::MAX,
    ensures
        forall|u: int| 0 <= u < input.preds.len() ==> #[trigger] plan_upto(input, k).depth[u] <= k,
    decreases k,
{
    lemma_plan_lengths(input, k);
    if k > 0 {
        lemma_plan_depths(input, (k - 1) as nat);
        lemma_plan_lengths(input, (k - 1) as nat);
        let v = input.topo[k - 1];
        let before = plan_upto(input, (k - 1) as nat);
        if !input.hoisted[v as int] {
            assert(input.admissible[v as int].len() > 0);
            lemma_best_candidate(input, before, v, input.admissible[v as int]);
            let best = best_candidate(input, before, v, input.admissible[v as int]).unwrap();
            let preds = input.preds[v as int];
            assert forall|j: int| 0 <= j < preds.len() implies 0 <= #[trigger] preds[j] < before.depth.len() by {
                assert(input.preds[v as int][j] < input.preds.len());
            }
            lemma_deepest_of_bounded(preds, input.hoisted, before, best.2, (k - 1) as usize);
            lemma_deepest_other_bounded(preds, input.hoisted, before, best.2, input.n_colours as nat, (k - 1) as usize);
            assert(plan_upto(input, k).depth == before.depth.update(v as int, best.0));
        }
    }
}

/// A node keeps the colour and depth given at its own step.
proof fn lemma_plan_final(input: HeuristicInput, j: int)
    requires
        valid_input(input),
        0 <= j < input.topo.len(),
    ensures
        plan_upto(input, input.preds.len()).colour[input.topo[j] as int] == plan_upto(input, (j + 1) as nat).colour[input.topo[j] as int],
        plan_upto(input, input.preds.len()).depth[input.topo[j] as int] == plan_upto(input, (j + 1) as nat).depth[input.topo[j] as int],
{
    if j + 1 < input.preds.len() {
        lemma_plan_stable(input, j, input.preds.len());
    }
}

/// Along an edge between non-hoisted nodes the depth never falls, and it rises across a change
/// of colour: `d(v) >= d(u) + [c(u) != c(v)]`.
pub proof fn lemma_depth_along_edge(input: HeuristicInput, v: usize, k: int)
    requires
        valid_input(input),
        0 <= v < input.preds.len(),
        0 <= k < input.preds[v as int].len(),
        !input.hoisted[v as int],
        !input.hoisted[input.preds[v as int][k] as int],
        input.preds.len() <= usize::MAX,
    ensures
        ({
            let plan = plan_upto(input, input.preds.len());
            let u = input.preds[v as int][k];
            &&& plan.depth[u as int] <= plan.depth[v as int]
            &&& plan.colour[u as int] != plan.colour[v as int] ==> plan.depth[u as int] < plan.depth[v as int]
        }),
{
    let n = input.preds.len();
    let u = input.preds[v as int][k];
    lemma_order_covers(input.topo, n);
    assert(input.topo.contains(v));
    let i = choose|i: int| 0 <= i < n && input.topo[i] == v;
    assert(input.preds[input.topo[i] as int][k] == u);
    let j = choose|j: int| 0 <= j < i && input.topo[j] == #[trigger] input.preds[input.topo[i] as int][k];
    lemma_plan_final(input, i);
    lemma_plan_final(input, j);
    // At the step of `v`, its predecessor `u` already has its final colour and depth.
    lemma_plan_stable(input, j, i as nat);
    let before = plan_upto(input, i as nat);
    let after = plan_upto(input, (i + 1) as nat);
    assert(input.admissible[v as int].len() > 0);
    lemma_best_candidate(input, before, v, input.admissible[v as int]);
    let best = best_candidate(input, before, v, input.admissible[v as int]).unwrap();
    assert(after.colour[v as int] == best.2);
    assert(after.depth[v as int] == best.0);
    lemma_plan_lengths(input, i as nat);
    lemma_plan_depths(input, i as nat);
    let preds = input.preds[v as int];
    assert forall|x: int| 0 <= x < preds.len() implies 0 <= #[trigger] preds[x] < before.depth.len() by {
        assert(input.preds[v as int][x] < input.preds.len());
    }
    lemma_deepest_of_bounded(preds, input.hoisted, before, best.2, i as usize);
    lemma_deepest_other_bounded(preds, input.hoisted, before, best.2, input.n_colours as nat, i as usize);
    lemma_deepest_of_covers(preds, input.hoisted, before, k);
    let cu = before.colour[u as int];
    if cu != best.2 {
        let j2 = choose|j2: int| 0 <= j2 < input.admissible[v as int].len() && input.admissible[v as int][j2] == best.2;
        assert(best.2 < input.n_colours);
        assert(cu < input.n_colours) by {
            lemma_plan_colours(input, i as nat, u);
        }
        lemma_deepest_other_covers(preds, input.hoisted, before, best.2, cu, input.n_colours as nat);
    }
}

/// Every colour a plan gives is below the colour count.
proof fn lemma_plan_colours(input: HeuristicInput, k: nat, u: usize)
    requires
        valid_input(input),
        k <= input.topo.len(),
        u < input.preds.len(),
    ensures
        plan_upto(input, k).colour[u as int] < input.n_colours,
    decreases k,
{
    assert(input.admissible[u as int].len() > 0);
    assert(input.admissible[u as int][0] < input.n_colours);
    lemma_plan_lengths(input, k);
    if k > 0 {
        lemma_plan_colours(input, (k - 1) as nat, u);
        lemma_plan_lengths(input, (k - 1) as nat);
        let v = input.topo[k - 1];
        let before = plan_upto(input, (k - 1) as nat);
        if !input.hoisted[v as int] {
            assert(input.admissible[v as int].len() > 0);
            lemma_best_candidate(input, before, v, input.admissible[v as int]);
            let best = best_candidate(input, before, v, input.admissible[v as int]).unwrap();
            let j = choose|j: int| 0 <= j < input.admissible[v as int].len() && input.admissible[v as int][j] == best.2;
            assert(best.2 < input.n_colours);
            assert(plan_upto(input, k).colour == before.colour.update(v as int, best.2));
        } else {
            assert(plan_upto(input, k) == before);
        }
    } else {
        assert(plan_upto(input, 0).colour[u as int] == 0);
    }
}

} // verus!

verus! {

/// Keys only accumulate, and never repeat.
proof fn lemma_plan_keys_grow(input: HeuristicInput, k1: nat, k2: nat)
    requires
        valid_input(input),
        k1 <= k2 <= input.topo.len(),
    ensures
        plan_upto(input, k2).keys.len() >= plan_upto(input, k1).keys.len(),
        forall|x: int| 0 <= x < plan_upto(input, k1).keys.len() ==> #[trigger] plan_upto(input, k2).keys[x] == plan_upto(input, k1).keys[x],
        plan_upto(input, k2).keys.no_duplicates(),
    decreases k2,
{
    if k2 > 0 {
        if k1 < k2 {
            lemma_plan_keys_grow(input, k1, (k2 - 1) as nat);
        } else {
            lemma_plan_keys_grow(input, (k2 - 1) as nat, (k2 - 1) as nat);
        }
        let before = plan_upto(input, (k2 - 1) as nat);
        let after = plan_upto(input, k2);
        if !after.keys.no_duplicates() {
            let (x, y) = choose|x: int, y: int| 0 <= x < after.keys.len() && 0 <= y < after.keys.len() && x != y && after.keys[x] == after.keys[y];
            if x == before.keys.len() {
                assert(before.keys.contains(after.keys[y]));
            } else if y == before.keys.len() {
                assert(before.keys.contains(after.keys[x]));
            }
        }
    }
}

/// A non-hoisted node's key is among the keys of the whole plan.
proof fn lemma_key_recorded(input: HeuristicInput, v: usize)
    requires
        valid_input(input),
        v < input.preds.len(),
        !input.hoisted[v as int],
    ensures
        ({
            let plan = plan_upto(input, input.preds.len());
            plan.keys.contains((plan.colour[v as int], plan.depth[v as int]))
        }),
{
    let n = input.preds.len();
    lemma_order_covers(input.topo, n);
    assert(input.topo.contains(v));
    let j = choose|j: int| 0 <= j < n && input.topo[j] == v;
    lemma_plan_final(input, j);
    let after = plan_upto(input, (j + 1) as nat);
    let key = (after.colour[v as int], after.depth[v as int]);
    assert(after.keys.contains(key)) by {
        lemma_plan_lengths(input, j as nat);
        let before = plan_upto(input, j as nat);
        assert(input.admissible[v as int].len() > 0);
        lemma_best_candidate(input, before, v, input.admissible[v as int]);
        if !before.keys.contains(key) {
            assert(after.keys[after.keys.len() - 1] == key);
        }
    }
    let x = choose|x: int| 0 <= x < after.keys.len() && after.keys[x] == key;
    lemma_plan_keys_grow(input, (j + 1) as nat, n);
    assert(plan_upto(input, n).keys[x] == key);
}

/// Each key of a plan is that of a non-hoisted node visited before, as that node's own step set
/// it.
proof fn lemma_key_owned(input: HeuristicInput, k: nat, x: int)
    requires
        valid_input(input),
        k <= input.topo.len(),
        0 <= x < plan_upto(input, k).keys.len(),
    ensures
        exists|j: int| 0 <= j < k && !input.hoisted[#[trigger] input.topo[j] as int]
            && plan_upto(input, k).keys[x] == (plan_upto(input, (j + 1) as nat).colour[input.topo[j] as int],
                plan_upto(input, (j + 1) as nat).depth[input.topo[j] as int]),
    decreases k,
{
    let before = plan_upto(input, (k - 1) as nat);
    let v = input.topo[k - 1];
    if x < before.keys.len() {
        lemma_plan_keys_grow(input, (k - 1) as nat, k);
        lemma_key_owned(input, (k - 1) as nat, x);
    } else {
        lemma_plan_lengths(input, (k - 1) as nat);
        assert(!input.hoisted[v as int]);
        assert(input.topo[k - 1] == v);
    }
}

/// A node of `nodes` in region `r` is listed among that region's members.
proof fn lemma_member_listed(input: HeuristicInput, plan: Plan, nodes: Seq<usize>, r: usize, j: int)
    requires
        0 <= j < nodes.len(),
        region_spec(input, plan, nodes[j]) == Some(r),
    ensures
        region_members(input, plan, nodes, r).contains(nodes[j]),
    decreases nodes.len(),
{
    if j < nodes.len() - 1 {
        lemma_member_listed(input, plan, nodes.drop_last(), r, j);
        let rest = region_members(input, plan, nodes.drop_last(), r);
        let i = choose|i: int| 0 <= i < rest.len() && rest[i] == nodes.drop_last()[j];
        if region_spec(input, plan, nodes.last()) == Some(r) {
            assert(rest.push(nodes.last())[i] == nodes[j]);
        }
    } else {
        let rest = region_members(input, plan, nodes.drop_last(), r);
        assert(rest.push(nodes.last())[rest.len() as int] == nodes[j]);
    }
}

/// Every region has a member.
pub proof fn lemma_regions_nonempty(input: HeuristicInput, r: usize)
    requires
        valid_input(input),
        input.preds.len() <= usize::MAX,
        r < plan_upto(input, input.preds.len()).keys.len(),
    ensures
        region_members(input, plan_upto(input, input.preds.len()), input.topo, r).len() > 0,
{
    let n = input.preds.len();
    let plan = plan_upto(input, n);
    lemma_plan_keys_grow(input, n, n);
    lemma_plan_lengths(input, n);
    lemma_ranks_cover(plan.keys);
    assert(rank_taken(plan.keys, r));
    let x = choose|x: int| 0 <= x < plan.keys.len() && #[trigger] rank_of(plan.keys, plan.keys[x]) == r;
    lemma_key_owned(input, n, x);
    let j = choose|j: int| 0 <= j < n && !input.hoisted[#[trigger] input.topo[j] as int]
        && plan.keys[x] == (plan_upto(input, (j + 1) as nat).colour[input.topo[j] as int],
            plan_upto(input, (j + 1) as nat).depth[input.topo[j] as int]);
    lemma_plan_final(input, j);
    let v = input.topo[j];
    assert(region_spec(input, plan, v) == Some(r));
    lemma_member_listed(input, plan, input.topo, r, j);
}

/// Regions are numbered in dataflow order: along every edge between two non-hoisted nodes the
/// region number never decreases, so a path that leaves a region cannot come back to it, and
/// numbering the regions by `(depth, colour)` is a topological order of the contracted graph.
pub proof fn lemma_regions_follow_edges(input: HeuristicInput, v: usize, k: int)
    requires
        valid_input(input),
        input.preds.len() <= usize::MAX,
        0 <= v < input.preds.len(),
        0 <= k < input.preds[v as int].len(),
        !input.hoisted[v as int],
        !input.hoisted[input.preds[v as int][k] as int],
    ensures
        ({
            let plan = plan_upto(input, input.preds.len());
            let u = input.preds[v as int][k];
            &&& region_spec(input, plan, u) matches Some(ru)
            &&& region_spec(input, plan, v) matches Some(rv)
            &&& ru <= rv
            &&& plan.colour[u as int] != plan.colour[v as int] ==> ru < rv
        }),
{
    let n = input.preds.len();
    let plan = plan_upto(input, n);
    let u = input.preds[v as int][k];
    lemma_depth_along_edge(input, v, k);
    lemma_plan_lengths(input, n);
    let ku = (plan.colour[u as int], plan.depth[u as int]);
    let kv = (plan.colour[v as int], plan.depth[v as int]);
    lemma_key_recorded(input, u);
    lemma_key_recorded(input, v);
    lemma_rank_bound(plan.keys, ku);
    lemma_rank_bound(plan.keys, kv);
    lemma_rank_monotone(plan.keys, ku, kv);
}

/// Nodes in one region have one colour.
pub proof fn lemma_region_has_one_colour(input: HeuristicInput, u: usize, v: usize)
    requires
        valid_input(input),
        input.preds.len() <= usize::MAX,
        u < input.preds.len(),
        v < input.preds.len(),
        !input.hoisted[u as int],
        !input.hoisted[v as int],
        region_spec(input, plan_upto(input, input.preds.len()), u) == region_spec(input, plan_upto(input, input.preds.len()), v),
    ensures
        plan_upto(input, input.preds.len()).colour[u as int] == plan_upto(input, input.preds.len()).colour[v as int],
        plan_upto(input, input.preds.len()).depth[u as int] == plan_upto(input, input.preds.len()).depth[v as int],
{
    let n = input.preds.len();
    let plan = plan_upto(input, n);
    let ku = (plan.colour[u as int], plan.depth[u as int]);
    let kv = (plan.colour[v as int], plan.depth[v as int]);
    lemma_plan_lengths(input, n);
    lemma_key_recorded(input, u);
    lemma_key_recorded(input, v);
    lemma_rank_bound(plan.keys, ku);
    lemma_rank_bound(plan.keys, kv);
    if ku != kv {
        lemma_plan_keys_grow(input, n, n);
        lemma_rank_injective(plan.keys, ku, kv);
    }
}

/// Each node takes one of its admissible colours.
pub proof fn lemma_colour_is_admissible(input: HeuristicInput, v: usize)
    requires
        valid_input(input),
        v < input.preds.len(),
        !input.hoisted[v as int],
    ensures
        input.admissible[v as int].contains(plan_upto(input, input.preds.len()).colour[v as int]),
{
    let n = input.preds.len();
    lemma_order_covers(input.topo, n);
    assert(input.topo.contains(v));
    let j = choose|j: int| 0 <= j < n && input.topo[j] == v;
    lemma_plan_final(input, j);
    lemma_plan_lengths(input, j as nat);
    let before = plan_upto(input, j as nat);
    assert(input.admissible[v as int].len() > 0);
    lemma_best_candidate(input, before, v, input.admissible[v as int]);
}

/// The colour of a node's region is the node's colour.
pub proof fn lemma_region_colour_of_member(input: HeuristicInput, v: usize)
    requires
        valid_input(input),
        input.preds.len() <= usize::MAX,
        v < input.preds.len(),
        !input.hoisted[v as int],
    ensures
        region_colour(plan_upto(input, input.preds.len()), region_spec(input, plan_upto(input, input.preds.len()), v).unwrap())
            == plan_upto(input, input.preds.len()).colour[v as int],
{
    let n = input.preds.len();
    let plan = plan_upto(input, n);
    let key = (plan.colour[v as int], plan.depth[v as int]);
    lemma_plan_lengths(input, n);
    lemma_key_recorded(input, v);
    lemma_rank_bound(plan.keys, key);
    lemma_plan_keys_grow(input, n, n);
    let r = rank_of(plan.keys, key) as usize;
    assert(r == rank_of(plan.keys, key));
    let xv = choose|x: int| 0 <= x < plan.keys.len() && plan.keys[x] == key;
    assert(rank_of(plan.keys, plan.keys[xv]) == r);
    let x = choose|x: int| 0 <= x < plan.keys.len() && rank_of(plan.keys, plan.keys[x]) == r;
    if plan.keys[x] != key {
        lemma_rank_injective(plan.keys, plan.keys[x], key);
    }
}

/// There are no more regions than nodes.
pub proof fn lemma_region_count(input: HeuristicInput)
    requires
        valid_input(input),
    ensures
        plan_upto(input, input.preds.len()).keys.len() <= input.preds.len(),
{
    lemma_plan_lengths(input, input.preds.len());
}

/// A node that is not hoisted has a region, one of those numbered.
pub proof fn lemma_key_recorded_pub(input: HeuristicInput, v: usize)
    requires
        valid_input(input),
        input.preds.len() <= usize::MAX,
        v < input.preds.len(),
        !input.hoisted[v as int],
    ensures
        region_spec(input, plan_upto(input, input.preds.len()), v) is Some,
        region_spec(input, plan_upto(input, input.preds.len()), v).unwrap() < plan_upto(input, input.preds.len()).keys.len(),
{
    let n = input.preds.len();
    let plan = plan_upto(input, n);
    lemma_plan_lengths(input, n);
    lemma_key_recorded(input, v);
    lemma_rank_bound(plan.keys, (plan.colour[v as int], plan.depth[v as int]));
}

/// How many of the first `k` nodes of the order are hoisted (`true`) or not (`false`).
pub open spec fn count_upto(input: HeuristicInput, k: nat, hoisted: bool) -> nat
    decreases k,
{
    if k == 0 {
        0
    } else {
        count_upto(input, (k - 1) as nat, hoisted) + if input.hoisted[input.topo[k - 1] as int] == hoisted { 1nat } else { 0nat }
    }
}

/// Each of the first `k` nodes of the order is hoisted or not.
pub proof fn lemma_counts_sum(input: HeuristicInput, k: nat)
    ensures
        count_upto(input, k, true) + count_upto(input, k, false) == k,
    decreases k,
{
    if k > 0 {
        lemma_counts_sum(input, (k - 1) as nat);
    }
}

/// There are no more regions than nodes that are not hoisted.
pub proof fn lemma_keys_within_unhoisted(input: HeuristicInput, k: nat)
    requires
        valid_input(input),
        k <= input.topo.len(),
    ensures
        plan_upto(input, k).keys.len() <= count_upto(input, k, false),
    decreases k,
{
    if k > 0 {
        lemma_keys_within_unhoisted(input, (k - 1) as nat);
    }
}

} // verus!
