//! Addressing the values of a data tree: by dotted path, by position among the children, and
//! through the mapping form of a branch that names its children.
//!
//! A dotted path is a list of segments joined by `.`. A segment of digits addresses a child by its
//! position and any other segment by its name, which is what makes a name with a dot in it, or one
//! of all digits, unreachable this way. The empty path addresses the whole tree.

use vstd::prelude::*;

use crate::data_tree::{
    DataTree, TreeView, child_path, find_child_ref, first_named, leaf_paths, leaf_paths_of, leaves, leaves_of,
    lemma_children_view_len, lemma_leaves_of_take, segment,
};
use crate::text::digit_char;
use crate::text::{decimal, push_char, push_decimal, push_str};

verus! {

/// The value of a decimal digit.
pub open spec fn digit_value(c: char) -> Option<nat> {
    if c == '0' { Some(0) }
    else if c == '1' { Some(1) }
    else if c == '2' { Some(2) }
    else if c == '3' { Some(3) }
    else if c == '4' { Some(4) }
    else if c == '5' { Some(5) }
    else if c == '6' { Some(6) }
    else if c == '7' { Some(7) }
    else if c == '8' { Some(8) }
    else if c == '9' { Some(9) }
    else { None }
}

/// Whether a segment addresses by position: it is non-empty and all digits.
pub open spec fn is_digits(seg: Seq<char>) -> bool {
    seg.len() > 0 && forall|i: int| 0 <= i < seg.len() ==> (#[trigger] digit_value(seg[i])) is Some
}

/// The number a string of digits writes.
pub open spec fn digits_value(seg: Seq<char>) -> nat
    decreases seg.len(),
{
    if seg.len() == 0 {
        0
    } else {
        digits_value(seg.drop_last()) * 10 + match digit_value(seg.last()) {
            Some(d) => d,
            None => 0,
        }
    }
}

/// `text` split at each `.`: one segment more than it has dots.
pub open spec fn split_dots(text: Seq<char>) -> Seq<Seq<char>>
    decreases text.len(),
{
    if text.len() == 0 {
        seq![Seq::empty()]
    } else {
        let rest = split_dots(text.drop_last());
        if text.last() == '.' {
            rest.push(Seq::empty())
        } else {
            rest.update(rest.len() - 1, rest.last().push(text.last()))
        }
    }
}

/// The segments of a dotted path; the empty path has none.
pub open spec fn path_segments(path: Seq<char>) -> Seq<Seq<char>> {
    if path.len() == 0 { Seq::empty() } else { split_dots(path) }
}

/// The child a segment addresses: by position for digits, else the first child of that name. A
/// leaf has no children.
pub open spec fn at_segment<T>(tree: TreeView<T>, seg: Seq<char>) -> Option<TreeView<T>> {
    match tree {
        TreeView::Leaf(_) => None,
        TreeView::Branch(children) => if is_digits(seg) {
            if digits_value(seg) < children.len() { Some(children[digits_value(seg) as int].1) } else { None }
        } else {
            first_named(children, seg, 0)
        },
    }
}

/// The subtree that a list of segments addresses, one segment after another.
pub open spec fn at_segments<T>(tree: TreeView<T>, segs: Seq<Seq<char>>) -> Option<TreeView<T>>
    decreases segs.len(),
{
    if segs.len() == 0 {
        Some(tree)
    } else {
        match at_segments(tree, segs.drop_last()) {
            Some(node) => at_segment(node, segs.last()),
            None => None,
        }
    }
}

/// The subtree a dotted path addresses.
pub open spec fn at_path<T>(tree: TreeView<T>, path: Seq<char>) -> Option<TreeView<T>> {
    at_segments(tree, path_segments(path))
}

/// The value of digit `c`, if it is one.
fn digit_of(c: char) -> (d: Option<usize>)
    ensures
        match digit_value(c) {
            Some(v) => d == Some(v as usize),
            None => d is None,
        },
{
    if c == '0' { Some(0) }
    else if c == '1' { Some(1) }
    else if c == '2' { Some(2) }
    else if c == '3' { Some(3) }
    else if c == '4' { Some(4) }
    else if c == '5' { Some(5) }
    else if c == '6' { Some(6) }
    else if c == '7' { Some(7) }
    else if c == '8' { Some(8) }
    else if c == '9' { Some(9) }
    else { None }
}

/// Whether `seg` addresses by position, and if so the position when it fits a `usize`.
fn segment_position(seg: &str) -> (pos: Option<Option<usize>>)
    ensures
        pos is None <==> !is_digits(seg@),
        pos matches Some(Some(v)) ==> v == digits_value(seg@),
        pos matches Some(None) ==> digits_value(seg@) > usize::MAX,
{
    let n = seg.unicode_len();
    if n == 0 {
        return None;
    }
    let mut value: usize = 0;
    let mut fits = true;
    let mut i: usize = 0;
    while i < n
        invariant
            n == seg@.len(),
            0 < n,
            i <= n,
            forall|k: int| 0 <= k < i ==> (#[trigger] digit_value(seg@[k])) is Some,
            fits ==> value == digits_value(seg@.take(i as int)),
            !fits ==> digits_value(seg@.take(i as int)) > usize::MAX,
        decreases n - i,
    {
        let c = seg.get_char(i);
        let d = match digit_of(c) {
            Some(d) => d,
            None => {
                assert(!is_digits(seg@)) by {
                    assert(digit_value(seg@[i as int]) is None);
                }
                return None;
            },
        };
        proof {
            assert(seg@.take(i + 1).drop_last() == seg@.take(i as int));
            assert(seg@.take(i + 1).last() == c);
        }
        if fits {
            match value.checked_mul(10) {
                Some(tens) => match tens.checked_add(d) {
                    Some(next) => {
                        value = next;
                    },
                    None => {
                        fits = false;
                    },
                },
                None => {
                    fits = false;
                },
            }
        } else {
            assert(digits_value(seg@.take(i + 1)) >= digits_value(seg@.take(i as int)));
        }
        i = i + 1;
    }
    assert(seg@.take(n as int) == seg@);
    if fits { Some(Some(value)) } else { Some(None) }
}

/// The child `seg` addresses in `tree`.
fn child_at_segment<'a, T>(tree: &'a DataTree<T>, seg: &String) -> (found: Option<&'a DataTree<T>>)
    ensures
        match found {
            Some(child) => at_segment(tree@, seg@) == Some(child@),
            None => at_segment(tree@, seg@) is None,
        },
{
    match segment_position(seg.as_str()) {
        Some(Some(index)) => match find_child_ref(tree, &None, index) {
            Some(child) => Some(child),
            None => None,
        },
        Some(None) => {
            if let DataTree::Branch(children) = tree {
                proof {
                    lemma_children_view_len(children@);
                }
                let count = children.len();
                assert(children@.len() == count);
            }
            None
        },
        None => {
            let key = Some(seg.clone());
            match find_child_ref(tree, &key, 0) {
                Some(child) => Some(child),
                None => None,
            }
        },
    }
}

/// `path` split at each `.`.
fn split_path(path: &str) -> (segs: Vec<String>)
    ensures
        segs@.len() == path_segments(path@).len(),
        forall|k: int| 0 <= k < segs@.len() ==> #[trigger] segs@[k]@ == path_segments(path@)[k],
{
    let n = path.unicode_len();
    let mut segs: Vec<String> = Vec::new();
    if n == 0 {
        return segs;
    }
    let mut current = String::new();
    let mut i: usize = 0;
    while i < n
        invariant
            n == path@.len(),
            i <= n,
            segs@.len() + 1 == split_dots(path@.take(i as int)).len(),
            forall|k: int| 0 <= k < segs@.len() ==> #[trigger] segs@[k]@ == split_dots(path@.take(i as int))[k],
            current@ == split_dots(path@.take(i as int)).last(),
        decreases n - i,
    {
        let c = path.get_char(i);
        proof {
            assert(path@.take(i + 1).drop_last() == path@.take(i as int));
            assert(path@.take(i + 1).last() == c);
        }
        if c == '.' {
            segs.push(current);
            current = String::new();
        } else {
            push_char(&mut current, c);
        }
        i = i + 1;
    }
    segs.push(current);
    assert(path@.take(n as int) == path@);
    segs
}

/// Once a prefix of the segments addresses nothing, so do all of them.
proof fn lemma_nothing_stays_nothing<T>(tree: TreeView<T>, segs: Seq<Seq<char>>, k: int)
    requires
        0 <= k <= segs.len(),
        at_segments(tree, segs.take(k)) is None,
    ensures
        at_segments(tree, segs) is None,
    decreases segs.len() - k,
{
    if k < segs.len() {
        assert(segs.take(k + 1).drop_last() == segs.take(k));
        lemma_nothing_stays_nothing(tree, segs, k + 1);
    } else {
        assert(segs.take(k) == segs);
    }
}

impl<T> DataTree<T> {
    /// The subtree a dotted path addresses, if any: each segment of digits addresses a child by
    /// position, any other by name (the first child of that name). The empty path addresses the
    /// whole tree.
    pub fn get_by_str_key(&self, path: &str) -> (found: Option<&DataTree<T>>)
        ensures
            match at_path(self@, path@) {
                Some(t) => found matches Some(node) && node@ == t,
                None => found is None,
            },
    {
        let segs = split_path(path);
        let ghost sv = path_segments(path@);
        let mut node: &DataTree<T> = self;
        assert(sv.take(0) =~= Seq::<Seq<char>>::empty());
        for k in 0..segs.len()
            invariant
                sv == path_segments(path@),
                segs@.len() == sv.len(),
                forall|j: int| 0 <= j < segs@.len() ==> #[trigger] segs@[j]@ == sv[j],
                at_segments(self@, sv.take(k as int)) == Some(node@),
        {
            assert(sv.take(k + 1).drop_last() == sv.take(k as int));
            assert(sv.take(k + 1).last() == sv[k as int]);
            assert(segs@[k as int]@ == sv[k as int]);
            match child_at_segment(node, &segs[k]) {
                Some(child) => {
                    node = child;
                },
                None => {
                    proof {
                        lemma_nothing_stays_nothing(self@, sv, k + 1);
                    }
                    return None;
                },
            }
        }
        assert(sv.take(segs@.len() as int) == sv);
        Some(node)
    }
}

// ---------------------------------------------------------------------------
// Positions
// ---------------------------------------------------------------------------

/// The children of a branch; a leaf has none.
pub open spec fn children_of<T>(tree: TreeView<T>) -> Seq<(Option<Seq<char>>, TreeView<T>)> {
    match tree {
        TreeView::Leaf(_) => Seq::empty(),
        TreeView::Branch(children) => children,
    }
}

/// The index that `position` stands for among `n` children, counting back from the end when
/// negative, if a child sits there.
pub open spec fn resolved_position(position: int, n: nat) -> Option<nat> {
    let index = if position < 0 { position + n } else { position };
    if 0 <= index < n { Some(index as nat) } else { None }
}

/// A position among the children that addresses nothing.
#[derive(Debug, PartialEq, Eq)]
pub struct PositionError {
    pub position: isize,
    pub children: usize,
}

/// How a signed number is written in decimal.
pub open spec fn signed_decimal(n: int) -> Seq<char> {
    if n < 0 { seq!['-'] + decimal((-n) as nat) } else { decimal(n as nat) }
}

/// How a position that addresses nothing is reported.
pub open spec fn position_error_text(e: PositionError) -> Seq<char> {
    "position "@ + signed_decimal(e.position as int) + " addresses nothing in a data tree with "@
        + decimal(e.children as nat) + " children"@
}

impl PositionError {
    /// How this error is displayed.
    pub fn to_string(&self) -> (text: String)
        ensures
            text@ == position_error_text(*self),
    {
        let mut text = String::new();
        push_str(&mut text, "position ");
        let ghost head = text@;
        if self.position < 0 {
            push_str(&mut text, "-");
            let magnitude: usize = (-(self.position + 1)) as usize + 1;
            assert(magnitude == -(self.position as int));
            push_decimal(&mut text, magnitude);
            proof {
                reveal_strlit("-");
                assert(text@ =~= head + signed_decimal(self.position as int));
            }
        } else {
            push_decimal(&mut text, self.position as usize);
        }
        assert(text@ == head + signed_decimal(self.position as int));
        push_str(&mut text, " addresses nothing in a data tree with ");
        push_decimal(&mut text, self.children);
        push_str(&mut text, " children");
        text
    }
}

impl<T> DataTree<T> {
    /// The number of children; a leaf has none.
    pub fn child_count(&self) -> (n: usize)
        ensures
            n == children_of(self@).len(),
    {
        match self {
            DataTree::Leaf(_) => 0,
            DataTree::Branch(children) => {
                proof {
                    lemma_children_view_len(children@);
                }
                children.len()
            },
        }
    }

    /// The child at `position` among the children, counting back from the end when negative.
    pub fn child_at_position(&self, position: isize) -> (res: Result<&DataTree<T>, PositionError>)
        ensures
            match resolved_position(position as int, children_of(self@).len()) {
                Some(index) => res matches Ok(child) && child@ == children_of(self@)[index as int].1,
                None => res == Err::<&DataTree<T>, PositionError>(
                    PositionError { position, children: children_of(self@).len() as usize }),
            },
    {
        let n = self.child_count();
        let refuse = PositionError { position, children: n };
        let index: usize = if position < 0 {
            let back: usize = (-(position + 1)) as usize + 1;
            if back > n {
                return Err(refuse);
            }
            n - back
        } else {
            let forward = position as usize;
            if forward >= n {
                return Err(refuse);
            }
            forward
        };
        match self {
            DataTree::Leaf(_) => Err(refuse),
            DataTree::Branch(children) => {
                proof {
                    lemma_children_view_len(children@);
                }
                Ok(&children[index].1)
            },
        }
    }
}

// ---------------------------------------------------------------------------
// The leaf value and the mapping form
// ---------------------------------------------------------------------------

/// Why a tree has no value of the form asked for.
#[derive(Debug, PartialEq, Eq)]
pub enum FormError {
    /// A branch holds children, not a leaf value.
    NoLeafValue,
    /// A leaf has no children to name.
    LeafHasNoMapping,
    /// A branch of unnamed children has no names to map.
    UnnamedChildren,
    /// A branch that names some of its children and not others has neither form.
    MixedChildren,
}

/// How a form error is displayed.
pub open spec fn form_error_text(e: FormError) -> Seq<char> {
    match e {
        FormError::NoLeafValue => "a branch of a data tree has no leaf value"@,
        FormError::LeafHasNoMapping => "a leaf of a data tree has no mapping form"@,
        FormError::UnnamedChildren => "a data tree branch of unnamed children has no mapping form"@,
        FormError::MixedChildren =>
            "a data tree branch mixing named and unnamed children has neither a mapping form nor a sequence form"@,
    }
}

impl FormError {
    /// How this error is displayed.
    pub fn to_string(&self) -> (text: String)
        ensures
            text@ == form_error_text(*self),
    {
        match self {
            FormError::NoLeafValue => String::from_str("a branch of a data tree has no leaf value"),
            FormError::LeafHasNoMapping => String::from_str("a leaf of a data tree has no mapping form"),
            FormError::UnnamedChildren => String::from_str("a data tree branch of unnamed children has no mapping form"),
            FormError::MixedChildren => String::from_str(
                "a data tree branch mixing named and unnamed children has neither a mapping form nor a sequence form",
            ),
        }
    }
}

/// Whether every child is named.
pub open spec fn all_named<T>(children: Seq<(Option<Seq<char>>, TreeView<T>)>) -> bool {
    forall|i: int| 0 <= i < children.len() ==> (#[trigger] children[i]).0 is Some
}

/// Whether no child is named.
pub open spec fn none_named<T>(children: Seq<(Option<Seq<char>>, TreeView<T>)>) -> bool {
    forall|i: int| 0 <= i < children.len() ==> (#[trigger] children[i]).0 is None
}

/// Whether a tree has a mapping form: a branch naming all of its children has one, a leaf or a
/// branch naming none has none, and a branch naming only some is neither.
pub open spec fn mapping_form<T>(tree: TreeView<T>) -> Result<bool, FormError> {
    match tree {
        TreeView::Leaf(_) => Ok(false),
        TreeView::Branch(children) => if all_named(children) {
            Ok(true)
        } else if none_named(children) {
            Ok(false)
        } else {
            Err(FormError::MixedChildren)
        },
    }
}

/// The names of the children of a tree with a mapping form, in order, or why it has none.
pub open spec fn mapping_keys<T>(tree: TreeView<T>) -> Result<Seq<Seq<char>>, FormError> {
    match mapping_form(tree) {
        Ok(true) => Ok(Seq::new(children_of(tree).len(), |i: int| children_of(tree)[i].0.unwrap())),
        Ok(false) => Err(if tree is Leaf { FormError::LeafHasNoMapping } else { FormError::UnnamedChildren }),
        Err(e) => Err(e),
    }
}

impl<T> DataTree<T> {
    /// The value a leaf holds; a branch holds none.
    pub fn leaf_value(&self) -> (res: Result<&T, FormError>)
        ensures
            match self@ {
                TreeView::Leaf(v) => res == Ok::<&T, FormError>(&v),
                TreeView::Branch(_) => res == Err::<&T, FormError>(FormError::NoLeafValue),
            },
    {
        match self {
            DataTree::Leaf(value) => Ok(value),
            DataTree::Branch(_) => Err(FormError::NoLeafValue),
        }
    }

    /// Whether this tree names its children, which is what gives it a mapping form. A leaf has no
    /// children to name; a branch must name all of its children or none.
    pub fn is_mapping(&self) -> (res: Result<bool, FormError>)
        ensures
            res == mapping_form(self@),
    {
        let children = match self {
            DataTree::Leaf(_) => return Ok(false),
            DataTree::Branch(children) => children,
        };
        proof {
            lemma_children_view_len(children@);
        }
        let ghost view = children_of(self@);
        let mut named: usize = 0;
        let mut unnamed: usize = 0;
        for i in 0..children.len()
            invariant
                view == children_of(self@),
                self@ == TreeView::Branch(view),
                view.len() == children@.len(),
                forall|k: int| 0 <= k < children@.len() ==> #[trigger] view[k]
                    == (crate::data_tree::key_view(children@[k].0), crate::data_tree::tree_view(children@[k].1)),
                named + unnamed == i,
                named == 0 <==> (forall|k: int| 0 <= k < i ==> (#[trigger] view[k]).0 is None),
                unnamed == 0 <==> (forall|k: int| 0 <= k < i ==> (#[trigger] view[k]).0 is Some),
        {
            assert(view[i as int].0 == crate::data_tree::key_view(children@[i as int].0));
            if children[i].0.is_some() {
                named = named + 1;
            } else {
                unnamed = unnamed + 1;
            }
        }
        if unnamed == 0 {
            Ok(true)
        } else if named == 0 {
            Ok(false)
        } else {
            Err(FormError::MixedChildren)
        }
    }

    /// The name of every child, in order, for a tree with a mapping form; or why it has none.
    pub fn keys(&self) -> (res: Result<Vec<String>, FormError>)
        ensures
            match mapping_keys(self@) {
                Ok(names) => res matches Ok(keys) && keys@.len() == names.len()
                    && forall|i: int| 0 <= i < names.len() ==> #[trigger] keys@[i]@ == names[i],
                Err(e) => res == Err::<Vec<String>, FormError>(e),
            },
    {
        match self.is_mapping() {
            Ok(true) => {},
            Ok(false) => {
                return Err(match self {
                    DataTree::Leaf(_) => FormError::LeafHasNoMapping,
                    DataTree::Branch(_) => FormError::UnnamedChildren,
                });
            },
            Err(e) => return Err(e),
        }
        let children = match self {
            DataTree::Leaf(_) => return Err(FormError::LeafHasNoMapping),
            DataTree::Branch(children) => children,
        };
        proof {
            lemma_children_view_len(children@);
        }
        let ghost view = children_of(self@);
        let mut keys: Vec<String> = Vec::new();
        for i in 0..children.len()
            invariant
                view == children_of(self@),
                self@ == TreeView::Branch(view),
                all_named(view),
                view.len() == children@.len(),
                forall|k: int| 0 <= k < children@.len() ==> #[trigger] view[k]
                    == (crate::data_tree::key_view(children@[k].0), crate::data_tree::tree_view(children@[k].1)),
                keys@.len() == i,
                forall|k: int| 0 <= k < i ==> #[trigger] keys@[k]@ == view[k].0.unwrap(),
        {
            assert(view[i as int].0 == crate::data_tree::key_view(children@[i as int].0));
            assert(view[i as int].0 is Some);
            match &children[i].0 {
                Some(name) => keys.push(name.clone()),
                None => {},
            }
        }
        Ok(keys)
    }
}

// ---------------------------------------------------------------------------
// A leaf's dotted path addresses it
// ---------------------------------------------------------------------------

/// Whether a dotted path can reach a child by this name: it is non-empty, holds no dot, and is not
/// all digits, which would make it a position.
pub open spec fn reachable_name(name: Seq<char>) -> bool {
    name.len() > 0 && !name.contains('.') && !is_digits(name)
}

/// Whether a dotted path can reach a child named `name`: the name is non-empty, holds no dot, and
/// is not all digits.
pub fn is_reachable_name(name: &str) -> (ok: bool)
    ensures
        ok == reachable_name(name@),
{
    let n = name.unicode_len();
    if n == 0 {
        return false;
    }
    let mut i: usize = 0;
    while i < n
        invariant
            n == name@.len(),
            i <= n,
            forall|k: int| 0 <= k < i ==> name@[k] != '.',
        decreases n - i,
    {
        if name.get_char(i) == '.' {
            assert(name@.contains('.')) by {
                assert(name@[i as int] == '.');
            }
            return false;
        }
        i = i + 1;
    }
    assert(!name@.contains('.'));
    segment_position(name).is_none()
}

/// Whether a dotted path reaches every value of a tree by name or position: each name is reachable
/// and none repeats among its siblings.
pub open spec fn addressable<T>(tree: TreeView<T>) -> bool
    decreases tree, 0nat,
{
    match tree {
        TreeView::Leaf(_) => true,
        TreeView::Branch(children) => addressable_children(children, children.len()),
    }
}

/// Whether the first `n` children are addressable, their names reachable and distinct.
pub open spec fn addressable_children<T>(children: Seq<(Option<Seq<char>>, TreeView<T>)>, n: nat) -> bool
    decreases children, n,
{
    if n == 0 || n > children.len() {
        true
    } else {
        &&& addressable_children(children, (n - 1) as nat)
        &&& addressable(children[n - 1].1)
        &&& match children[n - 1].0 {
            Some(name) => reachable_name(name)
                && forall|j: int| 0 <= j < n - 1 ==> (#[trigger] children[j]).0 != Some(name),
            None => true,
        }
    }
}

/// A digit reads back as its value.
proof fn lemma_digit_reads_back(d: nat)
    requires
        d < 10,
    ensures
        digit_value(digit_char(d)) == Some(d),
{
    assert(d == 0 || d == 1 || d == 2 || d == 3 || d == 4 || d == 5 || d == 6 || d == 7 || d == 8 || d == 9);
}

/// A number in decimal is a segment of digits that reads back as the number.
proof fn lemma_decimal_reads_back(n: nat)
    ensures
        is_digits(decimal(n)),
        digits_value(decimal(n)) == n,
        !decimal(n).contains('.'),
    decreases n,
{
    if n < 10 {
        lemma_digit_reads_back(n);
        assert(decimal(n) == seq![digit_char(n)]);
        assert(decimal(n).drop_last() =~= Seq::<char>::empty());
        assert(decimal(n).last() == digit_char(n));
        assert(digits_value(Seq::<char>::empty()) == 0);
        assert(digits_value(decimal(n)) == digits_value(decimal(n).drop_last()) * 10 + n);
    } else {
        lemma_digit_reads_back(n % 10);
        lemma_decimal_reads_back(n / 10);
        let head = decimal(n / 10);
        assert(decimal(n) == head.push(digit_char(n % 10)));
        assert(decimal(n).drop_last() =~= head);
        assert(decimal(n).last() == digit_char(n % 10));
        assert(digits_value(decimal(n)) == digits_value(head) * 10 + n % 10);
        assert((n / 10) * 10 + n % 10 == n);
        assert forall|i: int| 0 <= i < decimal(n).len() implies (#[trigger] digit_value(decimal(n)[i])) is Some by {
            if i < head.len() {
                assert(decimal(n)[i] == head[i]);
            }
        }
        if decimal(n).contains('.') {
            let i = choose|i: int| 0 <= i < decimal(n).len() && decimal(n)[i] == '.';
            if i < head.len() {
                assert(head[i] == '.');
            }
        }
    }
}

/// Appending text without dots to a path extends its last segment.
proof fn lemma_split_extends_last(p: Seq<char>, b: Seq<char>)
    requires
        !b.contains('.'),
    ensures
        split_dots(p + b) == split_dots(p).update(split_dots(p).len() - 1, split_dots(p).last() + b),
    decreases b.len(),
{
    lemma_split_nonempty(p);
    if b.len() == 0 {
        assert(p + b =~= p);
        assert(split_dots(p).last() + b =~= split_dots(p).last());
        assert(split_dots(p).update(split_dots(p).len() - 1, split_dots(p).last()) =~= split_dots(p));
    } else {
        let front = b.drop_last();
        assert(!front.contains('.')) by {
            if front.contains('.') {
                let i = choose|i: int| 0 <= i < front.len() && front[i] == '.';
                assert(b[i] == '.');
            }
        }
        lemma_split_extends_last(p, front);
        assert((p + b).drop_last() =~= p + front);
        assert((p + b).last() == b.last());
        assert(b.last() != '.') by {
            assert(b[b.len() - 1] == b.last());
        }
        lemma_split_nonempty(p + front);
        assert(split_dots(p).last() + front + seq![b.last()] =~= split_dots(p).last() + b) by {
            assert(front.push(b.last()) =~= b);
        }
        assert(split_dots(p + b) =~= split_dots(p).update(split_dots(p).len() - 1, split_dots(p).last() + b));
    }
}

/// Splitting text always gives at least one segment.
proof fn lemma_split_nonempty(p: Seq<char>)
    ensures
        split_dots(p).len() >= 1,
    decreases p.len(),
{
    if p.len() > 0 {
        lemma_split_nonempty(p.drop_last());
    }
}

/// The segments of a child's dotted path are those of the parent's, and the child's segment.
proof fn lemma_child_path_segments(path: Seq<char>, seg: Seq<char>)
    requires
        seg.len() > 0,
        !seg.contains('.'),
    ensures
        path_segments(child_path(path, seg)) == path_segments(path).push(seg),
{
    if path.len() == 0 {
        lemma_split_extends_last(Seq::empty(), seg);
        assert(Seq::<char>::empty() + seg =~= seg);
        assert(split_dots(Seq::<char>::empty()) == seq![Seq::<char>::empty()]);
        assert(split_dots(seg) =~= seq![seg]);
        assert(path_segments(path) =~= Seq::<Seq<char>>::empty());
    } else {
        reveal_strlit(".");
        let dotted = path + "."@;
        assert(dotted.drop_last() =~= path);
        assert(dotted.last() == '.');
        lemma_split_nonempty(path);
        assert(split_dots(dotted) == split_dots(path).push(Seq::empty()));
        lemma_split_extends_last(dotted, seg);
        assert(Seq::<char>::empty() + seg =~= seg);
        assert(split_dots(dotted + seg) =~= split_dots(path).push(seg));
    }
}

/// A child whose name no earlier sibling has is the first child of that name.
proof fn lemma_first_named_is<T>(children: Seq<(Option<Seq<char>>, TreeView<T>)>, name: Seq<char>, i: int, from: nat)
    requires
        0 <= from <= i < children.len(),
        children[i].0 == Some(name),
        forall|j: int| 0 <= j < i ==> (#[trigger] children[j]).0 != Some(name),
    ensures
        first_named(children, name, from) == Some(children[i].1),
    decreases i - from,
{
    if from < i {
        lemma_first_named_is(children, name, i, from + 1);
    }
}

/// A tree has as many leaf paths as leaves.
proof fn lemma_leaf_paths_len<T>(tree: TreeView<T>, path: Seq<char>)
    ensures
        leaf_paths(tree, path).len() == leaves(tree).len(),
    decreases tree, 0nat,
{
    if let TreeView::Branch(children) = tree {
        lemma_leaf_paths_of_len(children, path, children.len());
        assert(children.take(children.len() as int) == children);
    }
}

/// The first `n` children have as many leaf paths as leaves.
proof fn lemma_leaf_paths_of_len<T>(children: Seq<(Option<Seq<char>>, TreeView<T>)>, path: Seq<char>, n: nat)
    requires
        n <= children.len(),
    ensures
        leaf_paths_of(children, path, n).len() == leaves_of(children.take(n as int)).len(),
    decreases children, n,
{
    if n == 0 {
        assert(children.take(0) =~= Seq::<(Option<Seq<char>>, TreeView<T>)>::empty());
    } else {
        let i = n - 1;
        lemma_leaf_paths_of_len(children, path, (n - 1) as nat);
        lemma_leaves_of_take(children, i);
        assert(decreases_to!(children => children[i].1)) by {
            assert(decreases_to!(children => children[i]));
        }
        lemma_leaf_paths_len(children[i].1, child_path(path, segment(children[i].0, i as nat)));
    }
}

/// Each leaf of a subtree reached at `path` is reached at its own dotted path under `path`.
proof fn lemma_paths_address<T>(root: TreeView<T>, tree: TreeView<T>, path: Seq<char>, k: int)
    requires
        addressable(tree),
        at_path(root, path) == Some(tree),
        0 <= k < leaves(tree).len(),
    ensures
        at_path(root, leaf_paths(tree, path)[k]) == Some(TreeView::Leaf(leaves(tree)[k])),
    decreases tree, 0nat,
{
    lemma_leaf_paths_len(tree, path);
    match tree {
        TreeView::Leaf(v) => {},
        TreeView::Branch(children) => {
            assert(children.take(children.len() as int) == children);
            lemma_paths_address_children(root, children, path, children.len(), k);
        },
    }
}

/// Each leaf of the first `n` children of a branch reached at `path` is reached at its own dotted
/// path under `path`.
proof fn lemma_paths_address_children<T>(root: TreeView<T>, children: Seq<(Option<Seq<char>>, TreeView<T>)>, path: Seq<char>, n: nat, k: int)
    requires
        n <= children.len(),
        addressable_children(children, children.len()),
        at_path(root, path) == Some(TreeView::Branch(children)),
        0 <= k < leaves_of(children.take(n as int)).len(),
    ensures
        at_path(root, leaf_paths_of(children, path, n)[k])
            == Some(TreeView::Leaf(leaves_of(children.take(n as int))[k])),
    decreases children, n,
{
    if n == 0 {
        assert(children.take(0) =~= Seq::<(Option<Seq<char>>, TreeView<T>)>::empty());
        return;
    }
    let i = n - 1;
    lemma_addressable_prefix(children, n, children.len());
    lemma_leaf_paths_of_len(children, path, (n - 1) as nat);
    lemma_leaves_of_take(children, i);
    let before = leaves_of(children.take(i));
    let child = children[i].1;
    let seg = segment(children[i].0, i as nat);
    let cp = child_path(path, seg);
    let earlier = leaf_paths_of(children, path, (n - 1) as nat);
    assert(leaf_paths_of(children, path, n) == earlier + leaf_paths(child, cp));
    lemma_leaf_paths_len(child, cp);
    if k < before.len() {
        lemma_paths_address_children(root, children, path, (n - 1) as nat, k);
        assert(leaf_paths_of(children, path, n)[k] == earlier[k]);
        assert(leaves_of(children.take(n as int))[k] == before[k]);
    } else {
        match children[i].0 {
            Some(name) => {
                lemma_first_named_is(children, name, i, 0);
            },
            None => {
                lemma_decimal_reads_back(i as nat);
            },
        }
        lemma_child_path_segments(path, seg);
        assert(path_segments(cp).drop_last() =~= path_segments(path));
        assert(at_segment(TreeView::Branch(children), seg) == Some(child));
        assert(at_path(root, cp) == Some(child));
        assert(decreases_to!(children => child)) by {
            assert(decreases_to!(children => children[i]));
        }
        lemma_paths_address(root, child, cp, k - before.len());
        assert(leaf_paths_of(children, path, n)[k] == leaf_paths(child, cp)[k - before.len()]);
        assert(leaves_of(children.take(n as int))[k] == leaves(child)[k - before.len()]);
    }
}

/// The first `n` children of addressable children are addressable.
proof fn lemma_addressable_prefix<T>(children: Seq<(Option<Seq<char>>, TreeView<T>)>, n: nat, m: nat)
    requires
        n <= m <= children.len(),
        addressable_children(children, m),
    ensures
        addressable_children(children, n),
        n > 0 ==> addressable(children[n - 1].1),
        n > 0 ==> match children[n - 1].0 {
            Some(name) => reachable_name(name)
                && forall|j: int| 0 <= j < n - 1 ==> (#[trigger] children[j]).0 != Some(name),
            None => true,
        },
    decreases m - n,
{
    if n < m {
        lemma_addressable_prefix(children, n, (m - 1) as nat);
    }
}

/// Every leaf of a tree is addressed by its own dotted path, provided a dotted path can reach
/// each name: names that are non-empty, hold no dot, are not all digits, and do not repeat among
/// siblings.
pub proof fn lemma_dotted_paths_address_leaves<T>(tree: TreeView<T>, k: int)
    requires
        addressable(tree),
        0 <= k < leaves(tree).len(),
    ensures
        leaf_paths(tree, Seq::empty()).len() == leaves(tree).len(),
        at_path(tree, leaf_paths(tree, Seq::empty())[k])
            == Some(TreeView::Leaf(leaves(tree)[k])),
{
    lemma_leaf_paths_len(tree, Seq::empty());
    assert(path_segments(Seq::<char>::empty()) =~= Seq::<Seq<char>>::empty());
    lemma_paths_address(tree, tree, Seq::empty(), k);
}

} // verus!
