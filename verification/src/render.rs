//! Rendering a program as a text listing and as a Graphviz drawing.

use vstd::prelude::*;

use crate::data_tree::leaf_paths;
use crate::program::{ProgramSpec, QuantumProgram, program_wf};
use crate::program::function::{
    Node, NodeKind, NodeRole, NodeSpec, NodeView, ProgramFunction, Value, function_wf, kind_name,
    lemma_positions_push, positions_of, role_of, value_before,
};
use crate::tensor::{DTypeLike, Dim, TensorType, push_type, type_text, type_views};
use crate::text::{concat, decimal, join, lemma_concat_push, lemma_join_push, lemma_texts_push, push_char, push_decimal, push_str};
use vstd::string::StrSliceExecFns;

verus! {

// ---------------------------------------------------------------------------
// What the texts say
// ---------------------------------------------------------------------------

/// How a value of a function is written: `%n` after its producer, with `.slot` added when the
/// producer has more than one output.
pub open spec fn value_text(nodes: Seq<NodeSpec>, v: Value) -> Seq<char> {
    if nodes[v.node as int].outputs.len() > 1 {
        "%"@ + decimal(v.node as nat) + "."@ + decimal(v.slot as nat)
    } else {
        "%"@ + decimal(v.node as nat)
    }
}

/// How a tensor type, by its view, is written.
pub open spec fn type_view_text(t: (DTypeLike, Seq<Dim>, bool)) -> Seq<char> {
    type_text(t.0, t.1)
}

/// How the output types of a node are written: the type alone, or the types in parentheses.
pub open spec fn outputs_text(outputs: Seq<(DTypeLike, Seq<Dim>, bool)>) -> Seq<char> {
    if outputs.len() == 1 {
        type_view_text(outputs[0])
    } else {
        "("@ + join(outputs.map_values(|t: (DTypeLike, Seq<Dim>, bool)| type_view_text(t)), ", "@) + ")"@
    }
}

/// How the operands of a node are written: nothing, or the values in parentheses.
pub open spec fn operands_text(nodes: Seq<NodeSpec>, operands: Seq<Value>) -> Seq<char> {
    if operands.len() == 0 {
        Seq::empty()
    } else {
        "("@ + join(operands.map_values(|v: Value| value_text(nodes, v)), ", "@) + ")"@
    }
}

/// The name of the input or output that node `i` of function `f` declares: the dotted path of
/// the matching leaf of the program's structure, for a boundary node of the entry point whose
/// path is not empty.
pub open spec fn io_name(p: ProgramSpec, f: int, i: int) -> Option<Seq<char>> {
    let nodes = p.functions[f];
    let role = role_of(nodes[i].kind);
    let paths = if role == NodeRole::Parameter {
        leaf_paths(p.inputs, Seq::empty())
    } else {
        leaf_paths(p.outputs, Seq::empty())
    };
    let k = positions_of(nodes.take(i), role).len();
    if f == p.functions.len() - 1 && (role == NodeRole::Parameter || role == NodeRole::Result) && k < paths.len()
        && paths[k as int].len() > 0 {
        Some(paths[k as int])
    } else {
        None
    }
}

/// What follows the type name of a node in a listing: a boundary node's name, a callee, or the
/// payload a node type describes itself by.
pub open spec fn listing_suffix(kind: NodeKind, name: Option<Seq<char>>) -> Seq<char> {
    match kind {
        NodeKind::Parameter | NodeKind::Result => match name {
            Some(n) => " "@ + n,
            None => Seq::empty(),
        },
        NodeKind::Call(callee) => " @"@ + decimal(callee as nat),
        NodeKind::Op { description, .. } => match description {
            Some(d) => "["@ + d + "]"@,
            None => Seq::empty(),
        },
    }
}

/// The line of node `i` of function `f`; a node without outputs has none.
pub open spec fn node_line(p: ProgramSpec, f: int, i: int) -> Seq<char> {
    let nodes = p.functions[f];
    let node = nodes[i];
    if node.outputs.len() == 0 {
        Seq::empty()
    } else {
        "\n  %"@ + decimal(i as nat) + ": "@ + outputs_text(node.outputs) + " = "@ + kind_name(node.kind)
            + listing_suffix(node.kind, io_name(p, f, i)) + operands_text(nodes, node.operands)
    }
}

/// The line of node `i` of function `f` in its results section, if it is a result.
pub open spec fn result_line(p: ProgramSpec, f: int, i: int) -> Seq<char> {
    let nodes = p.functions[f];
    if nodes[i].kind is Result {
        let value = value_text(nodes, nodes[i].operands[0]);
        match io_name(p, f, i) {
            Some(name) => "\n    "@ + name + " = "@ + value,
            None => "\n    "@ + value,
        }
    } else {
        Seq::empty()
    }
}

/// The results section of function `f`, if it has results.
pub open spec fn results_section(p: ProgramSpec, f: int) -> Seq<char> {
    let nodes = p.functions[f];
    if positions_of(nodes, NodeRole::Result).len() == 0 {
        Seq::empty()
    } else {
        "\n  results:"@ + concat(Seq::new(nodes.len(), |i: int| result_line(p, f, i)))
    }
}

/// The header of the block of function `f`: its number, and whether it is the entry point,
/// after a blank line unless it is the first.
pub open spec fn block_header(p: ProgramSpec, f: int) -> Seq<char> {
    (if f > 0 { "\n\n"@ } else { Seq::empty() }) + "@"@ + decimal(f as nat) + ":"@
        + (if f == p.functions.len() - 1 { " // entry point"@ } else { Seq::empty() })
}

/// The node lines of function `f`.
pub open spec fn block_lines(p: ProgramSpec, f: int) -> Seq<char> {
    concat(Seq::new(p.functions[f].len(), |i: int| node_line(p, f, i)))
}

/// The block of function `f`: its header, a line per node with outputs, and its results.
pub open spec fn block_text(p: ProgramSpec, f: int) -> Seq<char> {
    block_header(p, f) + block_lines(p, f) + results_section(p, f)
}

/// The listing of a program: one block per function.
pub open spec fn listing_text(p: ProgramSpec) -> Seq<char> {
    concat(Seq::new(p.functions.len(), |f: int| block_text(p, f)))
}

// ---------------------------------------------------------------------------
// Writing a listing
// ---------------------------------------------------------------------------

/// Append how `v` is written.
fn push_value(s: &mut String, function: &ProgramFunction, v: Value)
    requires
        value_before(function@, v, function@.len() as int),
    ensures
        final(s)@ == old(s)@ + value_text(function@, v),
{
    push_str(s, "%");
    push_decimal(s, v.node);
    let producer = function.node(v.node);
    assert(type_views(producer.output_types@).len() == producer.output_types@.len());
    if producer.output_types.len() > 1 {
        push_str(s, ".");
        push_decimal(s, v.slot);
    }
}

/// Append `values`, separated by commas.
fn push_values(s: &mut String, function: &ProgramFunction, values: &[Value])
    requires
        forall|k: int| 0 <= k < values@.len() ==> value_before(function@, #[trigger] values@[k], function@.len() as int),
    ensures
        final(s)@ == old(s)@ + join(values@.map_values(|v: Value| value_text(function@, v)), ", "@),
{
    let ghost start = s@;
    let ghost f = function@;
    for k in 0..values.len()
        invariant
            f == function@,
            forall|j: int| 0 <= j < values@.len() ==> value_before(f, #[trigger] values@[j], f.len() as int),
            s@ == start + join(values@.take(k as int).map_values(|v: Value| value_text(f, v)), ", "@),
    {
        let ghost parts = values@.take(k as int).map_values(|v: Value| value_text(f, v));
        if k > 0 {
            push_str(s, ", ");
        }
        push_value(s, function, values[k]);
        proof {
            assert(values@.take(k + 1).map_values(|v: Value| value_text(f, v)) =~= parts.push(value_text(f, values@[k as int])));
            lemma_join_push(parts, value_text(f, values@[k as int]), ", "@);
        }
    }
    assert(values@.take(values.len() as int) == values@);
}

/// Append how the output types `types` are written.
fn push_outputs(s: &mut String, types: &[TensorType])
    ensures
        final(s)@ == old(s)@ + outputs_text(type_views(types@)),
{
    let ghost views = type_views(types@);
    if types.len() == 1 {
        push_type(s, &types[0]);
        return;
    }
    push_str(s, "(");
    let ghost start = s@;
    for k in 0..types.len()
        invariant
            views == type_views(types@),
            s@ == start + join(type_views(types@.take(k as int)).map_values(|t: (DTypeLike, Seq<Dim>, bool)| type_view_text(t)), ", "@),
    {
        let ghost parts = type_views(types@.take(k as int)).map_values(|t: (DTypeLike, Seq<Dim>, bool)| type_view_text(t));
        if k > 0 {
            push_str(s, ", ");
        }
        push_type(s, &types[k]);
        proof {
            assert(type_views(types@.take(k + 1)).map_values(|t: (DTypeLike, Seq<Dim>, bool)| type_view_text(t))
                =~= parts.push(type_view_text(types@[k as int]@)));
            lemma_join_push(parts, type_view_text(types@[k as int]@), ", "@);
        }
    }
    assert(types@.take(types.len() as int) == types@);
    push_str(s, ")");
}

/// The name of node `i` of function `f`, given the dotted paths of the program's inputs and
/// outputs and how many parameters and results come before it.
fn io_name_of<'a>(
    program: &QuantumProgram,
    f: usize,
    i: usize,
    role: NodeRole,
    seen_params: usize,
    seen_results: usize,
    input_paths: &'a Vec<String>,
    output_paths: &'a Vec<String>,
) -> (name: Option<&'a String>)
    requires
        f < program@.functions.len(),
        i < program@.functions[f as int].len(),
        role == role_of(program@.functions[f as int][i as int].kind),
        seen_params == positions_of(program@.functions[f as int].take(i as int), NodeRole::Parameter).len(),
        seen_results == positions_of(program@.functions[f as int].take(i as int), NodeRole::Result).len(),
        input_paths@.map_values(|p: String| p@) == leaf_paths(program@.inputs, Seq::empty()),
        output_paths@.map_values(|p: String| p@) == leaf_paths(program@.outputs, Seq::empty()),
    ensures
        match name {
            Some(n) => io_name(program@, f as int, i as int) == Some(n@),
            None => io_name(program@, f as int, i as int) is None,
        },
{
    let entry = program.entry();
    if f != entry {
        return None;
    }
    let (paths, k) = match role {
        NodeRole::Parameter => (input_paths, seen_params),
        NodeRole::Result => (output_paths, seen_results),
        _ => return None,
    };
    if k < paths.len() && !paths[k].as_str().is_empty() {
        assert(paths@.map_values(|p: String| p@)[k as int] == paths@[k as int]@);
        Some(&paths[k])
    } else {
        proof {
            if k < paths.len() {
                assert(paths@.map_values(|p: String| p@)[k as int] == paths@[k as int]@);
            }
        }
        None
    }
}

/// Append what follows the type name of `node` in a listing.
fn push_suffix(s: &mut String, node: &Node, name: Option<&String>)
    ensures
        final(s)@ == old(s)@ + listing_suffix(node@.kind, match name {
            Some(n) => Some(n@),
            None => None,
        }),
{
    match &node.view {
        NodeView::Parameter | NodeView::Result => {
            match name {
                Some(n) => {
                    push_str(s, " ");
                    push_str(s, n.as_str());
                },
                None => {},
            }
        },
        NodeView::Call(callee) => {
            push_str(s, " @");
            push_decimal(s, *callee);
        },
        NodeView::Op(t) => {
            match &t.description {
                Some(d) => {
                    push_str(s, "[");
                    push_str(s, d.as_str());
                    push_str(s, "]");
                },
                None => {},
            }
        },
    }
}

/// Append how the operands of node `i` of `function` are written.
fn push_operands(s: &mut String, function: &ProgramFunction, i: usize)
    requires
        i < function@.len(),
        function_wf(function@),
    ensures
        final(s)@ == old(s)@ + operands_text(function@, function@[i as int].operands),
{
    let node = function.node(i);
    if node.operands.len() > 0 {
        push_str(s, "(");
        proof {
            assert forall|k: int| 0 <= k < node.operands@.len() implies value_before(function@, #[trigger] node.operands@[k], function@.len() as int) by {
                assert(node@.operands[k] == node.operands@[k]);
                assert(value_before(function@, function@[i as int].operands[k], i as int));
            }
        }
        push_values(s, function, node.operands.as_slice());
        push_str(s, ")");
    }
}

/// Append the line of node `i` of function `f`.
fn push_node_line(
    s: &mut String,
    program: &QuantumProgram,
    f: usize,
    i: usize,
    name: Option<&String>,
)
    requires
        f < program@.functions.len(),
        i < program@.functions[f as int].len(),
        function_wf(program@.functions[f as int]),
        match name {
            Some(n) => io_name(program@, f as int, i as int) == Some(n@),
            None => io_name(program@, f as int, i as int) is None,
        },
    ensures
        final(s)@ == old(s)@ + node_line(program@, f as int, i as int),
{
    let function = &program.functions()[f];
    assert(function@ == program@.functions[f as int]);
    let node = function.node(i);
    assert(type_views(node.output_types@).len() == node.output_types@.len());
    if node.output_types.len() == 0 {
        return;
    }
    push_str(s, "\n  %");
    push_decimal(s, i);
    push_str(s, ": ");
    push_outputs(s, node.output_types.as_slice());
    push_str(s, " = ");
    let full = node.full_name();
    push_str(s, full.as_str());
    push_suffix(s, node, name);
    push_operands(s, function, i);
}

/// Append the lines of the nodes of function `f`.
fn push_node_lines(
    s: &mut String,
    program: &QuantumProgram,
    f: usize,
    input_paths: &Vec<String>,
    output_paths: &Vec<String>,
)
    requires
        f < program@.functions.len(),
        input_paths@.map_values(|p: String| p@) == leaf_paths(program@.inputs, Seq::empty()),
        output_paths@.map_values(|p: String| p@) == leaf_paths(program@.outputs, Seq::empty()),
    ensures
        final(s)@ == old(s)@ + concat(Seq::new(program@.functions[f as int].len(), |j: int| node_line(program@, f as int, j))),
{
    let ghost p = program@;
    let function = &program.functions()[f];
    let n = function.node_count();
    assert(function@ == p.functions[f as int]);
    let ghost header = s@;
    let mut seen_params: usize = 0;
    let mut seen_results: usize = 0;
    let mut i: usize = 0;
    while i < n
        invariant
            p == program@,
            f < p.functions.len(),
            function@ == p.functions[f as int],
            n == function@.len(),
            function_wf(function@),
            i <= n,
            seen_params == positions_of(function@.take(i as int), NodeRole::Parameter).len(),
            seen_results == positions_of(function@.take(i as int), NodeRole::Result).len(),
            seen_params <= i,
            seen_results <= i,
            input_paths@.map_values(|q: String| q@) == leaf_paths(p.inputs, Seq::empty()),
            output_paths@.map_values(|q: String| q@) == leaf_paths(p.outputs, Seq::empty()),
            s@ == header + concat(Seq::new(i as nat, |j: int| node_line(p, f as int, j))),
        decreases n - i,
    {
        let role = function.node(i).role();
        let name = io_name_of(program, f, i, role, seen_params, seen_results, input_paths, output_paths);
        push_node_line(s, program, f, i, name);
        proof {
            lemma_texts_push(|j: int| node_line(p, f as int, j), i as nat);
            lemma_concat_push(Seq::new(i as nat, |j: int| node_line(p, f as int, j)), node_line(p, f as int, i as int));
            assert(function@.take(i + 1) == function@.take(i as int).push(function@[i as int]));
            lemma_positions_push(function@.take(i as int), function@[i as int], NodeRole::Parameter);
            lemma_positions_push(function@.take(i as int), function@[i as int], NodeRole::Result);
        }
        if role == NodeRole::Parameter {
            seen_params = seen_params + 1;
        } else if role == NodeRole::Result {
            seen_results = seen_results + 1;
        }
        i = i + 1;
    }
}

/// Append the line of node `i` of function `f` in its results section.
fn push_result_line(s: &mut String, program: &QuantumProgram, f: usize, i: usize, name: Option<&String>)
    requires
        f < program@.functions.len(),
        i < program@.functions[f as int].len(),
        function_wf(program@.functions[f as int]),
        match name {
            Some(n) => io_name(program@, f as int, i as int) == Some(n@),
            None => io_name(program@, f as int, i as int) is None,
        },
    ensures
        final(s)@ == old(s)@ + result_line(program@, f as int, i as int),
{
    let function = &program.functions()[f];
    assert(function@ == program@.functions[f as int]);
    let node = function.node(i);
    if node.role() != NodeRole::Result {
        return;
    }
    assert(node@.operands.len() == 1);
    let value = node.operands[0];
    assert(value == function@[i as int].operands[0]);
    assert(value_before(function@, function@[i as int].operands[0], i as int));
    match name {
        Some(n) => {
            push_str(s, "\n    ");
            push_str(s, n.as_str());
            push_str(s, " = ");
        },
        None => {
            push_str(s, "\n    ");
        },
    }
    push_value(s, function, value);
}

/// Append the results section of function `f`.
fn push_results(
    s: &mut String,
    program: &QuantumProgram,
    f: usize,
    input_paths: &Vec<String>,
    output_paths: &Vec<String>,
)
    requires
        f < program@.functions.len(),
        input_paths@.map_values(|p: String| p@) == leaf_paths(program@.inputs, Seq::empty()),
        output_paths@.map_values(|p: String| p@) == leaf_paths(program@.outputs, Seq::empty()),
    ensures
        final(s)@ == old(s)@ + results_section(program@, f as int),
{
    let ghost p = program@;
    let function = &program.functions()[f];
    let n = function.node_count();
    assert(function@ == p.functions[f as int]);
    let results = function.results();
    if results.len() == 0 {
        return;
    }
    push_str(s, "\n  results:");
    let ghost opened = s@;
    let mut seen_params: usize = 0;
    let mut seen_results: usize = 0;
    let mut i: usize = 0;
    while i < n
        invariant
            p == program@,
            f < p.functions.len(),
            function@ == p.functions[f as int],
            n == function@.len(),
            function_wf(function@),
            i <= n,
            seen_params == positions_of(function@.take(i as int), NodeRole::Parameter).len(),
            seen_results == positions_of(function@.take(i as int), NodeRole::Result).len(),
            seen_params <= i,
            seen_results <= i,
            input_paths@.map_values(|q: String| q@) == leaf_paths(p.inputs, Seq::empty()),
            output_paths@.map_values(|q: String| q@) == leaf_paths(p.outputs, Seq::empty()),
            s@ == opened + concat(Seq::new(i as nat, |j: int| result_line(p, f as int, j))),
        decreases n - i,
    {
        let role = function.node(i).role();
        let name = io_name_of(program, f, i, role, seen_params, seen_results, input_paths, output_paths);
        push_result_line(s, program, f, i, name);
        proof {
            lemma_texts_push(|j: int| result_line(p, f as int, j), i as nat);
            lemma_concat_push(Seq::new(i as nat, |j: int| result_line(p, f as int, j)), result_line(p, f as int, i as int));
            assert(function@.take(i + 1) == function@.take(i as int).push(function@[i as int]));
            lemma_positions_push(function@.take(i as int), function@[i as int], NodeRole::Parameter);
            lemma_positions_push(function@.take(i as int), function@[i as int], NodeRole::Result);
        }
        if role == NodeRole::Parameter {
            seen_params = seen_params + 1;
        } else if role == NodeRole::Result {
            seen_results = seen_results + 1;
        }
        i = i + 1;
    }
}

/// Append the block of function `f`.
fn push_block(
    s: &mut String,
    program: &QuantumProgram,
    f: usize,
    input_paths: &Vec<String>,
    output_paths: &Vec<String>,
)
    requires
        f < program@.functions.len(),
        input_paths@.map_values(|p: String| p@) == leaf_paths(program@.inputs, Seq::empty()),
        output_paths@.map_values(|p: String| p@) == leaf_paths(program@.outputs, Seq::empty()),
    ensures
        final(s)@ == old(s)@ + block_text(program@, f as int),
{
    let ghost start = s@;
    push_header(s, program, f);
    let ghost after_header = s@;
    push_node_lines(s, program, f, input_paths, output_paths);
    let ghost after_lines = s@;
    push_results(s, program, f, input_paths, output_paths);
    assert(s@ =~= start + block_text(program@, f as int));
}

/// Append the header of the block of function `f`.
fn push_header(s: &mut String, program: &QuantumProgram, f: usize)
    requires
        f < program@.functions.len(),
    ensures
        final(s)@ == old(s)@ + block_header(program@, f as int),
{
    let ghost start = s@;
    let entry = program.entry();
    if f > 0 {
        push_str(s, "\n\n");
    }
    push_str(s, "@");
    push_decimal(s, f);
    push_str(s, ":");
    if f == entry {
        push_str(s, " // entry point");
    }
    assert(s@ =~= start + block_header(program@, f as int));
}

/// Render a program as a listing with one block per function and one line per node.
///
/// This produces text like the following:
///
/// ```text
/// @0: // entry point
///   %0: F64[4, 2] = qiskit.parameter angles
///   %1: Bit[4, 100, 2] = qiskit.shot_loop[circuits=1, shots=100](%0)
///   %2: F64[4, 2] = qiskit.mean[axis=1](%1)
///   results:
///     excited = %2
/// ```
pub fn listing(program: &QuantumProgram) -> (text: String)
    ensures
        text@ == listing_text(program@),
{
    let ghost p = program@;
    let mut s = String::new();
    let functions = program.functions();
    let count = functions.len();
    assert(crate::program::function_views(functions@).len() == count);
    let input_paths = program.input_structure().dotted_paths();
    let output_paths = program.output_structure().dotted_paths();
    let mut f: usize = 0;
    while f < count
        invariant
            p == program@,
            count == p.functions.len(),
            f <= count,
            input_paths@.map_values(|q: String| q@) == leaf_paths(p.inputs, Seq::empty()),
            output_paths@.map_values(|q: String| q@) == leaf_paths(p.outputs, Seq::empty()),
            s@ == concat(Seq::new(f as nat, |g: int| block_text(p, g))),
        decreases count - f,
    {
        push_block(&mut s, program, f, &input_paths, &output_paths);
        proof {
            lemma_texts_push(|g: int| block_text(p, g), f as nat);
            lemma_concat_push(Seq::new(f as nat, |g: int| block_text(p, g)), block_text(p, f as int));
        }
        f = f + 1;
    }
    s
}


// ---------------------------------------------------------------------------
// What a drawing says
// ---------------------------------------------------------------------------

/// How a character is written inside a quoted `dot` string.
pub open spec fn escape_char(c: char) -> Seq<char> {
    if c == '"' {
        seq!['\\', '"']
    } else if c == '\\' {
        seq!['\\', '\\']
    } else if c == '\n' {
        seq!['\\', 'n']
    } else {
        seq![c]
    }
}

/// `text` with its quotes, backslashes and line breaks escaped.
pub open spec fn escaped(text: Seq<char>) -> Seq<char>
    decreases text.len(),
{
    if text.len() == 0 {
        Seq::empty()
    } else {
        escaped(text.drop_last()) + escape_char(text.last())
    }
}

/// `text` as a quoted `dot` string.
pub open spec fn quoted(text: Seq<char>) -> Seq<char> {
    seq!['"'] + escaped(text) + seq!['"']
}

/// Whether a drawing frames each function: when there is more than one.
pub open spec fn clustered(p: ProgramSpec) -> bool {
    p.functions.len() > 1
}

/// The indentation of the lines inside a function's part of a drawing.
pub open spec fn indent(p: ProgramSpec) -> Seq<char> {
    if clustered(p) { "    "@ } else { "  "@ }
}

/// The `dot` identifier of node `i` of function `f`.
pub open spec fn box_id(f: int, i: int) -> Seq<char> {
    "f"@ + decimal(f as nat) + "n"@ + decimal(i as nat)
}

/// How a node of `role` is drawn.
pub open spec fn attributes_text(role: NodeRole) -> Seq<char> {
    match role {
        NodeRole::Parameter => "shape=ellipse, style=filled, fillcolor=lightblue"@,
        NodeRole::Op => "shape=box"@,
        NodeRole::Call => "shape=box3d, style=filled, fillcolor=lightyellow"@,
        NodeRole::Result => "shape=ellipse, style=filled, fillcolor=lightgrey"@,
    }
}

/// What a node's box says under its type name: a boundary node's name, a callee, or the
/// payload a node type describes itself by.
pub open spec fn box_description(p: ProgramSpec, f: int, i: int) -> Option<Seq<char>> {
    match p.functions[f][i].kind {
        NodeKind::Parameter | NodeKind::Result => io_name(p, f, i),
        NodeKind::Call(callee) => Some("@"@ + decimal(callee as nat)),
        NodeKind::Op { description, .. } => description,
    }
}

/// The caption of a node's box.
pub open spec fn caption(p: ProgramSpec, f: int, i: int) -> Seq<char> {
    match box_description(p, f, i) {
        Some(text) => kind_name(p.functions[f][i].kind) + "\n"@ + text,
        None => kind_name(p.functions[f][i].kind),
    }
}

/// The line of the box of node `i` of function `f`.
pub open spec fn box_line(p: ProgramSpec, f: int, i: int) -> Seq<char> {
    "\n"@ + indent(p) + box_id(f, i) + " ["@ + attributes_text(role_of(p.functions[f][i].kind)) + ", label="@
        + quoted(caption(p, f, i)) + "];"@
}

/// Thin spaces that keep an edge label clear of its arrow.
pub open spec fn pad() -> Seq<char> {
    seq!['\u{2009}', '\u{2009}']
}

/// The label of the edge of operand `k` of a node reading `v`, of type `t`.
pub open spec fn edge_label(v: Value, k: int, t: (DTypeLike, Seq<Dim>, bool)) -> Seq<char> {
    pad() + decimal(v.slot as nat) + seq![' ', '\u{2192}', ' '] + decimal(k as nat) + pad() + "\n"@ + pad()
        + type_view_text(t) + pad()
}

/// The line of the edge of operand `k` of node `i` of function `f`.
pub open spec fn edge_line(p: ProgramSpec, f: int, i: int, k: int) -> Seq<char> {
    let nodes = p.functions[f];
    let v = nodes[i].operands[k];
    "\n"@ + indent(p) + box_id(f, v.node as int) + " -> "@ + box_id(f, i) + " [label="@
        + quoted(edge_label(v, k, nodes[v.node as int].outputs[v.slot as int])) + "];"@
}

/// The lines of the edges into node `i` of function `f`, one per operand.
pub open spec fn edge_lines(p: ProgramSpec, f: int, i: int) -> Seq<char> {
    concat(Seq::new(p.functions[f][i].operands.len(), |k: int| edge_line(p, f, i, k)))
}

/// The label of the frame around function `f`.
pub open spec fn frame_label(p: ProgramSpec, f: int) -> Seq<char> {
    "@"@ + decimal(f as nat) + (if f == p.functions.len() - 1 { " (entry point)"@ } else { Seq::empty() })
}

/// The opening of the frame around function `f`, if functions are framed.
pub open spec fn frame_open(p: ProgramSpec, f: int) -> Seq<char> {
    if clustered(p) {
        "\n  subgraph cluster_"@ + decimal(f as nat) + " {"@ + "\n    label="@ + quoted(frame_label(p, f)) + ";"@
    } else {
        Seq::empty()
    }
}

/// The close of the frame around a function, if functions are framed.
pub open spec fn frame_close(p: ProgramSpec) -> Seq<char> {
    if clustered(p) { "\n  }"@ } else { Seq::empty() }
}

/// The part of a drawing for function `f`: a box per node, then an edge per operand.
pub open spec fn function_drawing(p: ProgramSpec, f: int) -> Seq<char> {
    frame_open(p, f) + concat(Seq::new(p.functions[f].len(), |i: int| box_line(p, f, i)))
        + concat(Seq::new(p.functions[f].len(), |i: int| edge_lines(p, f, i))) + frame_close(p)
}

/// The opening of a drawing.
pub open spec fn drawing_head() -> Seq<char> {
    "digraph program {"@ + "\n  node [fontname=\"Helvetica\", fontsize=10];"@
        + "\n  edge [fontname=\"Helvetica\", fontsize=9];"@
}

/// The drawing of a program as Graphviz `dot` source.
pub open spec fn dot_text(p: ProgramSpec) -> Seq<char> {
    drawing_head() + concat(Seq::new(p.functions.len(), |f: int| function_drawing(p, f))) + "\n}"@
}

// ---------------------------------------------------------------------------
// What a drawing shows
// ---------------------------------------------------------------------------

/// Whether `part` appears in `text` as a run of consecutive characters.
pub open spec fn holds_text(text: Seq<char>, part: Seq<char>) -> bool {
    exists|a: int| 0 <= a && a + part.len() <= text.len() && #[trigger] text.subrange(a, a + part.len()) == part
}

/// A run held by the middle of a text is held by the whole.
proof fn lemma_holds_within(before: Seq<char>, middle: Seq<char>, after: Seq<char>, part: Seq<char>)
    requires
        holds_text(middle, part),
    ensures
        holds_text(before + middle + after, part),
{
    let a = choose|a: int| 0 <= a && a + part.len() <= middle.len() && #[trigger] middle.subrange(a, a + part.len()) == part;
    let whole = before + middle + after;
    let b = before.len() + a;
    assert(whole.subrange(b, b + part.len()) =~= middle.subrange(a, a + part.len()));
}

/// A run held by one part of a concatenation is held by the concatenation.
proof fn lemma_holds_in_concat(parts: Seq<Seq<char>>, j: int, part: Seq<char>)
    requires
        0 <= j < parts.len(),
        holds_text(parts[j], part),
    ensures
        holds_text(concat(parts), part),
    decreases parts.len(),
{
    let front = parts.drop_last();
    if j == parts.len() - 1 {
        lemma_holds_within(concat(front), parts.last(), Seq::empty(), part);
        assert(concat(front) + parts.last() + Seq::<char>::empty() =~= concat(parts));
    } else {
        assert(front[j] == parts[j]);
        lemma_holds_in_concat(front, j, part);
        lemma_holds_within(Seq::empty(), concat(front), parts.last(), part);
        assert(Seq::<char>::empty() + concat(front) + parts.last() =~= concat(parts));
    }
}

/// Whether a character is written unchanged inside a quoted `dot` string.
pub open spec fn plain_char(c: char) -> bool {
    c != '"' && c != '\\' && c != '\n'
}

/// Escaping a concatenation escapes each part.
proof fn lemma_escaped_concat(a: Seq<char>, b: Seq<char>)
    ensures
        escaped(a + b) == escaped(a) + escaped(b),
    decreases b.len(),
{
    if b.len() == 0 {
        assert(a + b =~= a);
        assert(escaped(a) + escaped(b) =~= escaped(a));
    } else {
        lemma_escaped_concat(a, b.drop_last());
        assert((a + b).drop_last() =~= a + b.drop_last());
        assert((a + b).last() == b.last());
        assert(escaped(a + b) =~= escaped(a) + escaped(b));
    }
}

/// Text of plain characters is written unchanged.
proof fn lemma_escaped_plain(t: Seq<char>)
    requires
        forall|i: int| 0 <= i < t.len() ==> plain_char(#[trigger] t[i]),
    ensures
        escaped(t) == t,
    decreases t.len(),
{
    if t.len() > 0 {
        lemma_escaped_plain(t.drop_last());
        assert(plain_char(t[t.len() - 1]));
        assert(escaped(t) =~= t.drop_last() + seq![t.last()]);
        assert(t.drop_last() + seq![t.last()] =~= t);
    }
}

/// A number in decimal is written with digits alone.
proof fn lemma_decimal_plain(n: nat)
    ensures
        forall|i: int| 0 <= i < decimal(n).len() ==> plain_char(#[trigger] decimal(n)[i]),
    decreases n,
{
    if n >= 10 {
        lemma_decimal_plain(n / 10);
        assert forall|i: int| 0 <= i < decimal(n).len() implies plain_char(#[trigger] decimal(n)[i]) by {
            if i < decimal(n / 10).len() {
                assert(decimal(n)[i] == decimal(n / 10)[i]);
            }
        }
    }
}

/// The marker an edge of a drawing carries: from the box of node `u` of function `f` to that of
/// node `i`, labelled with the slot `slot` it reads and the position `k` of the operand it fills.
pub open spec fn edge_marker(f: int, u: int, i: int, slot: nat, k: nat) -> Seq<char> {
    box_id(f, u) + " -> "@ + box_id(f, i) + " [label="@ + seq!['"'] + pad() + decimal(slot)
        + seq![' ', '\u{2192}', ' '] + decimal(k) + pad()
}

/// A text holds itself.
proof fn lemma_holds_self(t: Seq<char>)
    ensures
        holds_text(t, t),
{
    let a: int = 0;
    assert(t.subrange(a, a + t.len()) =~= t);
}

/// The head of an edge label, up to the operand's position, is written unchanged.
proof fn lemma_label_head_plain(slot: nat, k: nat)
    ensures
        ({
            let head = pad() + decimal(slot) + seq![' ', '\u{2192}', ' '] + decimal(k) + pad();
            escaped(head) == head
        }),
{
    let d1 = decimal(slot);
    let d2 = decimal(k);
    let head = pad() + d1 + seq![' ', '\u{2192}', ' '] + d2 + pad();
    lemma_decimal_plain(slot);
    lemma_decimal_plain(k);
    assert forall|c: int| 0 <= c < head.len() implies plain_char(#[trigger] head[c]) by {
        if c < 2 {
        } else if c < 2 + d1.len() {
            assert(head[c] == d1[c - 2]);
        } else if c < 2 + d1.len() + 3 {
        } else if c < 2 + d1.len() + 3 + d2.len() {
            assert(head[c] == d2[c - 2 - d1.len() - 3]);
        }
    }
    lemma_escaped_plain(head);
}

/// The line of the edge of operand `k` holds its marker.
proof fn lemma_edge_line_marker(p: ProgramSpec, f: int, i: int, k: int)
    requires
        0 <= f < p.functions.len(),
        0 <= i < p.functions[f].len(),
        0 <= k < p.functions[f][i].operands.len(),
    ensures
        ({
            let v = p.functions[f][i].operands[k];
            holds_text(edge_line(p, f, i, k), edge_marker(f, v.node as int, i, v.slot as nat, k as nat))
        }),
{
    let nodes = p.functions[f];
    let v = nodes[i].operands[k];
    let t = nodes[v.node as int].outputs[v.slot as int];
    let position = decimal(k as nat);
    let head = pad() + decimal(v.slot as nat) + seq![' ', '\u{2192}', ' '] + position + pad();
    let tail = "\n"@ + pad() + type_view_text(t) + pad();
    assert(edge_label(v, k, t) =~= head + tail);
    lemma_label_head_plain(v.slot as nat, k as nat);
    lemma_escaped_concat(head, tail);
    let marker = edge_marker(f, v.node as int, i, v.slot as nat, k as nat);
    let before = "\n"@ + indent(p);
    let after = escaped(tail) + seq!['"'] + "];"@;
    assert(quoted(edge_label(v, k, t)) =~= seq!['"'] + head + escaped(tail) + seq!['"']);
    assert(edge_line(p, f, i, k) =~= before + marker + after);
    lemma_holds_self(marker);
    lemma_holds_within(before, marker, after, marker);
}

/// Each edge of a drawing says which operand it fills: for operand `k` of node `i` of function
/// `f`, reading slot `s` of node `u`, the drawing holds an edge from `u` to `i` labelled `s → k`.
/// Two operands of a node read from the same slot are told apart by their positions.
pub proof fn lemma_dot_labels_operand_positions(p: ProgramSpec, f: int, i: int, k: int)
    requires
        0 <= f < p.functions.len(),
        0 <= i < p.functions[f].len(),
        0 <= k < p.functions[f][i].operands.len(),
    ensures
        ({
            let v = p.functions[f][i].operands[k];
            holds_text(dot_text(p), edge_marker(f, v.node as int, i, v.slot as nat, k as nat))
        }),
{
    let nodes = p.functions[f];
    let v = nodes[i].operands[k];
    let marker = edge_marker(f, v.node as int, i, v.slot as nat, k as nat);
    lemma_edge_line_marker(p, f, i, k);
    let lines = Seq::new(nodes[i].operands.len(), |q: int| edge_line(p, f, i, q));
    assert(lines[k] == edge_line(p, f, i, k));
    lemma_holds_in_concat(lines, k, marker);
    let all_lines = Seq::new(nodes.len(), |q: int| edge_lines(p, f, q));
    assert(all_lines[i] == edge_lines(p, f, i));
    lemma_holds_in_concat(all_lines, i, marker);
    let boxes = concat(Seq::new(nodes.len(), |q: int| box_line(p, f, q)));
    lemma_holds_within(frame_open(p, f) + boxes, concat(all_lines), frame_close(p), marker);
    assert(function_drawing(p, f) == frame_open(p, f) + boxes + concat(all_lines) + frame_close(p));
    let drawings = Seq::new(p.functions.len(), |g: int| function_drawing(p, g));
    assert(drawings[f] == function_drawing(p, f));
    lemma_holds_in_concat(drawings, f, marker);
    lemma_holds_within(drawing_head(), concat(drawings), "\n}"@, marker);
}

// ---------------------------------------------------------------------------
// Writing a drawing
// ---------------------------------------------------------------------------

/// Append `text` as a quoted `dot` string.
fn push_quoted(s: &mut String, text: &str)
    ensures
        final(s)@ == old(s)@ + quoted(text@),
{
    let ghost start = s@;
    push_char(s, '"');
    let n = text.unicode_len();
    let mut i: usize = 0;
    while i < n
        invariant
            n == text@.len(),
            i <= n,
            s@ == start + seq!['"'] + escaped(text@.take(i as int)),
        decreases n - i,
    {
        let c = text.get_char(i);
        let ghost before = s@;
        if c == '"' {
            push_str(s, "\\\"");
        } else if c == '\\' {
            push_str(s, "\\\\");
        } else if c == '\n' {
            push_str(s, "\\n");
        } else {
            push_char(s, c);
        }
        proof {
            reveal_strlit("\\\"");
            reveal_strlit("\\\\");
            reveal_strlit("\\n");
            assert(text@.take(i + 1).drop_last() == text@.take(i as int));
            assert(s@ == before + escape_char(c));
        }
        i = i + 1;
    }
    assert(text@.take(n as int) == text@);
    push_char(s, '"');
    assert(s@ =~= start + quoted(text@));
}

/// How a node of `role` is drawn.
fn attributes(role: NodeRole) -> (text: &'static str)
    ensures
        text@ == attributes_text(role),
{
    match role {
        NodeRole::Parameter => "shape=ellipse, style=filled, fillcolor=lightblue",
        NodeRole::Op => "shape=box",
        NodeRole::Call => "shape=box3d, style=filled, fillcolor=lightyellow",
        NodeRole::Result => "shape=ellipse, style=filled, fillcolor=lightgrey",
    }
}

/// Append the `dot` identifier of node `i` of function `f`.
fn push_box_id(s: &mut String, f: usize, i: usize)
    ensures
        final(s)@ == old(s)@ + box_id(f as int, i as int),
{
    let ghost start = s@;
    push_str(s, "f");
    push_decimal(s, f);
    push_str(s, "n");
    push_decimal(s, i);
    assert(s@ =~= start + box_id(f as int, i as int));
}

/// The caption of the box of node `i` of function `f`.
fn caption_of(program: &QuantumProgram, f: usize, i: usize, name: Option<&String>) -> (text: String)
    requires
        f < program@.functions.len(),
        i < program@.functions[f as int].len(),
        match name {
            Some(n) => io_name(program@, f as int, i as int) == Some(n@),
            None => io_name(program@, f as int, i as int) is None,
        },
    ensures
        text@ == caption(program@, f as int, i as int),
{
    let function = &program.functions()[f];
    assert(function@ == program@.functions[f as int]);
    let node = function.node(i);
    let mut text = node.full_name();
    let ghost head = text@;
    match &node.view {
        NodeView::Parameter | NodeView::Result => {
            match name {
                Some(n) => {
                    push_str(&mut text, "\n");
                    push_str(&mut text, n.as_str());
                },
                None => {},
            }
        },
        NodeView::Call(callee) => {
            push_str(&mut text, "\n@");
            push_decimal(&mut text, *callee);
            proof {
                reveal_strlit("\n@");
                reveal_strlit("\n");
                reveal_strlit("@");
            }
            assert(text@ =~= head + "\n"@ + ("@"@ + decimal(*callee as nat)));
        },
        NodeView::Op(t) => {
            match &t.description {
                Some(d) => {
                    push_str(&mut text, "\n");
                    push_str(&mut text, d.as_str());
                },
                None => {},
            }
        },
    }
    text
}

/// Append the line of the box of node `i` of function `f`.
fn push_box_line(s: &mut String, program: &QuantumProgram, f: usize, i: usize, name: Option<&String>)
    requires
        f < program@.functions.len(),
        i < program@.functions[f as int].len(),
        match name {
            Some(n) => io_name(program@, f as int, i as int) == Some(n@),
            None => io_name(program@, f as int, i as int) is None,
        },
    ensures
        final(s)@ == old(s)@ + box_line(program@, f as int, i as int),
{
    let ghost start = s@;
    let functions = program.functions();
    let clustered = functions.len() > 1;
    assert(crate::program::function_views(functions@).len() == functions.len());
    let function = &functions[f];
    assert(function@ == program@.functions[f as int]);
    push_str(s, "\n");
    if clustered {
        push_str(s, "    ");
    } else {
        push_str(s, "  ");
    }
    push_box_id(s, f, i);
    push_str(s, " [");
    push_str(s, attributes(function.node(i).role()));
    push_str(s, ", label=");
    let text = caption_of(program, f, i, name);
    push_quoted(s, text.as_str());
    push_str(s, "];");
    assert(s@ =~= start + box_line(program@, f as int, i as int));
}

/// Append the line of the edge of operand `k` of node `i` of function `f`.
fn push_edge_line(s: &mut String, program: &QuantumProgram, f: usize, i: usize, k: usize)
    requires
        f < program@.functions.len(),
        i < program@.functions[f as int].len(),
        k < program@.functions[f as int][i as int].operands.len(),
        function_wf(program@.functions[f as int]),
    ensures
        final(s)@ == old(s)@ + edge_line(program@, f as int, i as int, k as int),
{
    let ghost start = s@;
    let ghost p = program@;
    let functions = program.functions();
    let clustered = functions.len() > 1;
    assert(crate::program::function_views(functions@).len() == functions.len());
    let function = &functions[f];
    assert(function@ == p.functions[f as int]);
    let node = function.node(i);
    let v = node.operands[k];
    assert(v == p.functions[f as int][i as int].operands[k as int]);
    assert(value_before(function@, v, i as int));
    let producer = function.node(v.node);
    let ty = &producer.output_types[v.slot];
    assert(ty@ == p.functions[f as int][v.node as int].outputs[v.slot as int]);
    push_str(s, "\n");
    if clustered {
        push_str(s, "    ");
    } else {
        push_str(s, "  ");
    }
    push_box_id(s, f, v.node);
    push_str(s, " -> ");
    push_box_id(s, f, i);
    push_str(s, " [label=");
    let mut label = String::new();
    push_str(&mut label, "\u{2009}\u{2009}");
    push_decimal(&mut label, v.slot);
    push_str(&mut label, " \u{2192} ");
    push_decimal(&mut label, k);
    push_str(&mut label, "\u{2009}\u{2009}\n\u{2009}\u{2009}");
    push_type(&mut label, ty);
    push_str(&mut label, "\u{2009}\u{2009}");
    proof {
        reveal_strlit("\u{2009}\u{2009}");
        reveal_strlit(" \u{2192} ");
        reveal_strlit("\u{2009}\u{2009}\n\u{2009}\u{2009}");
        reveal_strlit("\n");
        assert("\u{2009}\u{2009}\n\u{2009}\u{2009}"@ =~= pad() + "\n"@ + pad());
        assert(label@ =~= edge_label(v, k as int, ty@));
    }
    push_quoted(s, label.as_str());
    push_str(s, "];");
    assert(s@ =~= start + edge_line(p, f as int, i as int, k as int));
}

/// Append the lines of the edges into node `i` of function `f`.
fn push_edge_lines(s: &mut String, program: &QuantumProgram, f: usize, i: usize)
    requires
        f < program@.functions.len(),
        i < program@.functions[f as int].len(),
        function_wf(program@.functions[f as int]),
    ensures
        final(s)@ == old(s)@ + edge_lines(program@, f as int, i as int),
{
    let ghost p = program@;
    let ghost start = s@;
    let function = &program.functions()[f];
    assert(function@ == p.functions[f as int]);
    let count = function.node(i).operands.len();
    let mut k: usize = 0;
    while k < count
        invariant
            p == program@,
            f < p.functions.len(),
            i < p.functions[f as int].len(),
            function_wf(p.functions[f as int]),
            count == p.functions[f as int][i as int].operands.len(),
            k <= count,
            s@ == start + concat(Seq::new(k as nat, |j: int| edge_line(p, f as int, i as int, j))),
        decreases count - k,
    {
        push_edge_line(s, program, f, i, k);
        proof {
            lemma_texts_push(|j: int| edge_line(p, f as int, i as int, j), k as nat);
            lemma_concat_push(Seq::new(k as nat, |j: int| edge_line(p, f as int, i as int, j)), edge_line(p, f as int, i as int, k as int));
        }
        k = k + 1;
    }
}

/// Append the part of a drawing for function `f`.
fn push_function_drawing(
    s: &mut String,
    program: &QuantumProgram,
    f: usize,
    input_paths: &Vec<String>,
    output_paths: &Vec<String>,
)
    requires
        f < program@.functions.len(),
        input_paths@.map_values(|p: String| p@) == leaf_paths(program@.inputs, Seq::empty()),
        output_paths@.map_values(|p: String| p@) == leaf_paths(program@.outputs, Seq::empty()),
    ensures
        final(s)@ == old(s)@ + function_drawing(program@, f as int),
{
    let ghost p = program@;
    let ghost start = s@;
    let functions = program.functions();
    let clustered = functions.len() > 1;
    assert(crate::program::function_views(functions@).len() == functions.len());
    let entry = program.entry();
    if clustered {
        push_str(s, "\n  subgraph cluster_");
        push_decimal(s, f);
        push_str(s, " {");
        push_str(s, "\n    label=");
        let mut label = String::from_str("@");
        push_decimal(&mut label, f);
        if f == entry {
            push_str(&mut label, " (entry point)");
        }
        push_quoted(s, label.as_str());
        push_str(s, ";");
    }
    assert(s@ =~= start + frame_open(p, f as int));
    let ghost opened = s@;
    let function = &functions[f];
    let n = function.node_count();
    assert(function@ == p.functions[f as int]);
    let mut seen_params: usize = 0;
    let mut seen_results: usize = 0;
    let mut i: usize = 0;
    while i < n
        invariant
            p == program@,
            f < p.functions.len(),
            function@ == p.functions[f as int],
            n == function@.len(),
            function_wf(function@),
            i <= n,
            seen_params == positions_of(function@.take(i as int), NodeRole::Parameter).len(),
            seen_results == positions_of(function@.take(i as int), NodeRole::Result).len(),
            seen_params <= i,
            seen_results <= i,
            input_paths@.map_values(|q: String| q@) == leaf_paths(p.inputs, Seq::empty()),
            output_paths@.map_values(|q: String| q@) == leaf_paths(p.outputs, Seq::empty()),
            s@ == opened + concat(Seq::new(i as nat, |j: int| box_line(p, f as int, j))),
        decreases n - i,
    {
        let role = function.node(i).role();
        let name = io_name_of(program, f, i, role, seen_params, seen_results, input_paths, output_paths);
        push_box_line(s, program, f, i, name);
        proof {
            lemma_texts_push(|j: int| box_line(p, f as int, j), i as nat);
            lemma_concat_push(Seq::new(i as nat, |j: int| box_line(p, f as int, j)), box_line(p, f as int, i as int));
            assert(function@.take(i + 1) == function@.take(i as int).push(function@[i as int]));
            lemma_positions_push(function@.take(i as int), function@[i as int], NodeRole::Parameter);
            lemma_positions_push(function@.take(i as int), function@[i as int], NodeRole::Result);
        }
        if role == NodeRole::Parameter {
            seen_params = seen_params + 1;
        } else if role == NodeRole::Result {
            seen_results = seen_results + 1;
        }
        i = i + 1;
    }
    let ghost boxed = s@;
    let mut i: usize = 0;
    while i < n
        invariant
            p == program@,
            f < p.functions.len(),
            function@ == p.functions[f as int],
            n == function@.len(),
            function_wf(function@),
            i <= n,
            s@ == boxed + concat(Seq::new(i as nat, |j: int| edge_lines(p, f as int, j))),
        decreases n - i,
    {
        push_edge_lines(s, program, f, i);
        proof {
            lemma_texts_push(|j: int| edge_lines(p, f as int, j), i as nat);
            lemma_concat_push(Seq::new(i as nat, |j: int| edge_lines(p, f as int, j)), edge_lines(p, f as int, i as int));
        }
        i = i + 1;
    }
    if clustered {
        push_str(s, "\n  }");
    }
    assert(s@ =~= start + function_drawing(p, f as int));
}

/// Render a program as Graphviz `dot` source: a box per node and an edge per operand, each
/// function framed when there is more than one.
pub fn dot(program: &QuantumProgram) -> (text: String)
    ensures
        text@ == dot_text(program@),
{
    let ghost p = program@;
    let mut s = String::new();
    push_str(&mut s, "digraph program {");
    push_str(&mut s, "\n  node [fontname=\"Helvetica\", fontsize=10];");
    push_str(&mut s, "\n  edge [fontname=\"Helvetica\", fontsize=9];");
    assert(s@ =~= drawing_head());
    let functions = program.functions();
    let count = functions.len();
    assert(crate::program::function_views(functions@).len() == count);
    let input_paths = program.input_structure().dotted_paths();
    let output_paths = program.output_structure().dotted_paths();
    let mut f: usize = 0;
    while f < count
        invariant
            p == program@,
            count == p.functions.len(),
            f <= count,
            input_paths@.map_values(|q: String| q@) == leaf_paths(p.inputs, Seq::empty()),
            output_paths@.map_values(|q: String| q@) == leaf_paths(p.outputs, Seq::empty()),
            s@ == drawing_head() + concat(Seq::new(f as nat, |g: int| function_drawing(p, g))),
        decreases count - f,
    {
        push_function_drawing(&mut s, program, f, &input_paths, &output_paths);
        proof {
            lemma_texts_push(|g: int| function_drawing(p, g), f as nat);
            lemma_concat_push(Seq::new(f as nat, |g: int| function_drawing(p, g)), function_drawing(p, f as int));
        }
        f = f + 1;
    }
    push_str(&mut s, "\n}");
    s
}

} // verus!
