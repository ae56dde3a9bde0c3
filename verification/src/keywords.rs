//! Calling a program by keyword: the declared inputs a call must name, and how a call that names
//! the wrong ones is refused.
//!
//! A program whose input structure is a branch of named leaves can be called with one keyword
//! argument per leaf. The call must name every declared input and nothing else; otherwise it is
//! refused with a message that lists the declared inputs, the missing ones and the unexpected
//! ones.

use vstd::prelude::*;

use crate::data_tree::{DataTree, TreeView, lemma_children_view_len};
use crate::tensor::{DTypeLike, Dim, TensorType, named_type_views};
use crate::text::{join, lemma_join_push, push_str};

verus! {

/// The views of a sequence of strings.
pub open spec fn string_views(strings: Seq<String>) -> Seq<Seq<char>> {
    Seq::new(strings.len(), |i: int| strings[i]@)
}

/// The type a leaf holds; a branch holds none, and gives an arbitrary value.
pub open spec fn leaf_value(tree: TreeView<TensorType>) -> TensorType {
    match tree {
        TreeView::Leaf(t) => t,
        TreeView::Branch(_) => arbitrary(),
    }
}

/// Whether every child is a leaf under a name.
pub open spec fn named_leaves(children: Seq<(Option<Seq<char>>, TreeView<TensorType>)>) -> bool {
    forall|i: int| 0 <= i < children.len() ==> (#[trigger] children[i]).0 is Some && children[i].1 is Leaf
}

/// The inputs a keyword call names, with their types: the children of a branch of named leaves,
/// in order. A leaf, or a branch with a positional child or a child that is not a leaf, takes no
/// keyword call.
pub open spec fn keyword_view(tree: TreeView<TensorType>) -> Option<Seq<(Seq<char>, (DTypeLike, Seq<Dim>, bool))>> {
    match tree {
        TreeView::Leaf(_) => None,
        TreeView::Branch(children) => if named_leaves(children) {
            Some(Seq::new(children.len(), |i: int| (children[i].0.unwrap(), leaf_value(children[i].1)@)))
        } else {
            None
        },
    }
}

/// The declared inputs of a program with input structure `declared`, by name, if it can be called
/// by keyword.
pub fn keyword_inputs(declared: &DataTree<TensorType>) -> (res: Option<Vec<(String, TensorType)>>)
    ensures
        match keyword_view(declared@) {
            None => res is None,
            Some(inputs) => res matches Some(v) && named_type_views(v@) == inputs,
        },
{
    let children = match declared {
        DataTree::Leaf(_) => return None,
        DataTree::Branch(children) => children,
    };
    let ghost view = declared@->Branch_0;
    proof {
        lemma_children_view_len(children@);
    }
    let mut inputs: Vec<(String, TensorType)> = Vec::new();
    for i in 0..children.len()
        invariant
            view == declared@->Branch_0,
            declared@ == TreeView::Branch(view),
            view.len() == children@.len(),
            forall|k: int| 0 <= k < children@.len() ==> #[trigger] view[k]
                == (crate::data_tree::key_view(children@[k].0), crate::data_tree::tree_view(children@[k].1)),
            forall|k: int| 0 <= k < i ==> (#[trigger] view[k]).0 is Some && view[k].1 is Leaf,
            inputs@.len() == i,
            named_type_views(inputs@) == Seq::new(i as nat, |k: int| (view[k].0.unwrap(), leaf_value(view[k].1)@)),
    {
        let (key, child) = &children[i];
        assert(view[i as int] == (crate::data_tree::key_view(*key), crate::data_tree::tree_view(*child)));
        let name = match key {
            Some(name) => name,
            None => return None,
        };
        let ty = match child {
            DataTree::Leaf(ty) => ty,
            DataTree::Branch(_) => return None,
        };
        let entry = (name.clone(), ty.clone());
        let ghost before = inputs@;
        inputs.push(entry);
        proof {
            assert(inputs@ == before.push(entry));
            assert(named_type_views(inputs@) =~= Seq::new((i + 1) as nat, |k: int| (view[k].0.unwrap(), leaf_value(view[k].1)@))) by {
                assert forall|k: int| 0 <= k < i + 1 implies #[trigger] named_type_views(inputs@)[k]
                    == (view[k].0.unwrap(), leaf_value(view[k].1)@) by {
                    if k < i {
                        assert(inputs@[k] == before[k]);
                        assert(named_type_views(before)[k] == (view[k].0.unwrap(), leaf_value(view[k].1)@));
                    }
                }
            }
        }
    }
    assert(named_leaves(view));
    assert(named_type_views(inputs@) =~= keyword_view(declared@).unwrap());
    Some(inputs)
}

/// Whether `text` is one of `strings`.
fn holds(strings: &[String], text: &String) -> (found: bool)
    ensures
        found == string_views(strings@).contains(text@),
{
    for i in 0..strings.len()
        invariant
            !string_views(strings@).take(i as int).contains(text@),
    {
        if strings[i] == *text {
            assert(string_views(strings@)[i as int] == text@);
            return true;
        }
        assert(string_views(strings@).take(i + 1) =~= string_views(strings@).take(i as int).push(strings@[i as int]@));
    }
    assert(string_views(strings@).take(strings@.len() as int) =~= string_views(strings@));
    false
}

/// The first `m` of `items` that `others` does not hold, in order.
pub open spec fn absent(items: Seq<Seq<char>>, others: Seq<Seq<char>>, m: nat) -> Seq<Seq<char>>
    decreases m,
{
    if m == 0 || m > items.len() {
        Seq::empty()
    } else if others.contains(items[m - 1]) {
        absent(items, others, (m - 1) as nat)
    } else {
        absent(items, others, (m - 1) as nat).push(items[m - 1])
    }
}

/// Those of `items` that `others` does not hold, in order.
fn absent_from(items: &[String], others: &[String]) -> (res: Vec<String>)
    ensures
        string_views(res@) == absent(string_views(items@), string_views(others@), items@.len()),
{
    let ghost iv = string_views(items@);
    let ghost ov = string_views(others@);
    let mut res: Vec<String> = Vec::new();
    for i in 0..items.len()
        invariant
            iv == string_views(items@),
            ov == string_views(others@),
            string_views(res@) == absent(iv, ov, i as nat),
    {
        assert(iv[i as int] == items@[i as int]@);
        if !holds(others, &items[i]) {
            let ghost before = res@;
            res.push(items[i].clone());
            assert(string_views(res@) =~= string_views(before).push(iv[i as int]));
        }
    }
    res
}

/// How a list of names is displayed: each quoted, comma-separated, in brackets.
pub open spec fn name_list_text(names: Seq<Seq<char>>) -> Seq<char> {
    "["@ + join(Seq::new(names.len(), |i: int| "'"@ + names[i] + "'"@), ", "@) + "]"@
}

/// How `names` is displayed, e.g. `['a', 'b']`.
pub fn name_list(names: &[String]) -> (text: String)
    ensures
        text@ == name_list_text(string_views(names@)),
{
    let ghost views = string_views(names@);
    let ghost quote = |i: int| "'"@ + views[i] + "'"@;
    let mut text = String::new();
    push_str(&mut text, "[");
    for i in 0..names.len()
        invariant
            views == string_views(names@),
            quote == (|i: int| "'"@ + views[i] + "'"@),
            text@ == "["@ + join(Seq::new(i as nat, quote), ", "@),
    {
        proof {
            assert(Seq::new((i + 1) as nat, quote) =~= Seq::new(i as nat, quote).push(quote(i as int)));
            lemma_join_push(Seq::new(i as nat, quote), quote(i as int), ", "@);
            assert(views[i as int] == names@[i as int]@);
        }
        if i > 0 {
            push_str(&mut text, ", ");
        }
        push_str(&mut text, "'");
        push_str(&mut text, names[i].as_str());
        push_str(&mut text, "'");
    }
    push_str(&mut text, "]");
    assert(Seq::new(views.len(), |i: int| "'"@ + views[i] + "'"@) =~= Seq::new(names@.len(), quote));
    text
}

/// How a call naming the wrong inputs is refused.
pub open spec fn refusal_text(names: Seq<Seq<char>>, missing: Seq<Seq<char>>, unexpected: Seq<Seq<char>>) -> Seq<char> {
    "this program takes inputs "@ + name_list_text(names) + "; missing "@ + name_list_text(missing)
        + ", unexpected "@ + name_list_text(unexpected)
}

/// Check the keywords of a call, `keys`, against the declared inputs, `names`.
///
/// The call is accepted when it names every declared input and nothing else; otherwise the
/// refusal lists the declared inputs, those the call leaves out, in declared order, and the keys
/// that name no input, in the order given.
pub fn check_keywords(names: &[String], keys: &[String]) -> (res: Result<(), String>)
    ensures
        ({
            let missing = absent(string_views(names@), string_views(keys@), names@.len());
            let unexpected = absent(string_views(keys@), string_views(names@), keys@.len());
            if missing.len() == 0 && unexpected.len() == 0 {
                res is Ok
            } else {
                res matches Err(text) && text@ == refusal_text(string_views(names@), missing, unexpected)
            }
        }),
{
    let missing = absent_from(names, keys);
    let unexpected = absent_from(keys, names);
    assert(string_views(missing@).len() == missing@.len());
    assert(string_views(unexpected@).len() == unexpected@.len());
    if missing.len() == 0 && unexpected.len() == 0 {
        return Ok(());
    }
    let mut text = String::new();
    push_str(&mut text, "this program takes inputs ");
    let declared = name_list(names);
    push_str(&mut text, declared.as_str());
    push_str(&mut text, "; missing ");
    let left_out = name_list(missing.as_slice());
    push_str(&mut text, left_out.as_str());
    push_str(&mut text, ", unexpected ");
    let extra = name_list(unexpected.as_slice());
    push_str(&mut text, extra.as_str());
    Err(text)
}

/// None of the first `m` items is absent exactly when `others` holds each of them.
proof fn lemma_none_absent(items: Seq<Seq<char>>, others: Seq<Seq<char>>, m: nat)
    requires
        m <= items.len(),
    ensures
        (absent(items, others, m).len() == 0) <==> (forall|i: int| 0 <= i < m ==> others.contains(#[trigger] items[i])),
    decreases m,
{
    if m > 0 {
        lemma_none_absent(items, others, (m - 1) as nat);
    }
}

/// A call is accepted exactly when the keys it gives and the declared inputs are the same names,
/// in whatever order.
pub proof fn lemma_accepted_exactly_when_names_match(names: Seq<Seq<char>>, keys: Seq<Seq<char>>)
    ensures
        (absent(names, keys, names.len()).len() == 0 && absent(keys, names, keys.len()).len() == 0)
            <==> names.to_set() == keys.to_set(),
{
    lemma_none_absent(names, keys, names.len());
    lemma_none_absent(keys, names, keys.len());
    if names.to_set() == keys.to_set() {
        assert forall|i: int| 0 <= i < names.len() implies keys.contains(#[trigger] names[i]) by {
            assert(names.to_set().contains(names[i]));
        }
        assert forall|i: int| 0 <= i < keys.len() implies names.contains(#[trigger] keys[i]) by {
            assert(keys.to_set().contains(keys[i]));
        }
    }
    if absent(names, keys, names.len()).len() == 0 && absent(keys, names, keys.len()).len() == 0 {
        assert forall|n: Seq<char>| names.to_set().contains(n) == keys.to_set().contains(n) by {
            if names.contains(n) {
                let i = choose|i: int| 0 <= i < names.len() && names[i] == n;
                assert(keys.contains(names[i]));
            }
            if keys.contains(n) {
                let i = choose|i: int| 0 <= i < keys.len() && keys[i] == n;
                assert(names.contains(keys[i]));
            }
        }
        assert(names.to_set() =~= keys.to_set());
    }
}

} // verus!
