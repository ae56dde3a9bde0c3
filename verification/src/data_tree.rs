//! Trees of values with named or positional branches, used for the inputs and outputs of nodes.

use vstd::prelude::*;

use crate::text::{decimal, push_decimal, push_str};

verus! {

/// A tree whose leaves hold values and whose branches hold children, each named or positional.
#[derive(Debug)]
pub enum DataTree<T> {
    Leaf(T),
    Branch(Vec<(Option<String>, DataTree<T>)>),
}

/// The mathematical shape of a [`DataTree`]: the same tree, with names as character sequences.
pub enum TreeView<T> {
    Leaf(T),
    Branch(Seq<(Option<Seq<char>>, TreeView<T>)>),
}

/// The view of a child key.
pub open spec fn key_view(key: Option<String>) -> Option<Seq<char>> {
    match key {
        Some(name) => Some(name@),
        None => None,
    }
}

/// The view of a tree.
pub open spec fn tree_view<T>(tree: DataTree<T>) -> TreeView<T>
    decreases tree,
{
    match tree {
        DataTree::Leaf(value) => TreeView::Leaf(value),
        DataTree::Branch(children) => TreeView::Branch(children_view(children@)),
    }
}

/// The view of a list of children.
pub open spec fn children_view<T>(children: Seq<(Option<String>, DataTree<T>)>) -> Seq<(Option<Seq<char>>, TreeView<T>)>
    decreases children,
{
    if children.len() == 0 {
        Seq::empty()
    } else {
        children_view(children.drop_last()).push((key_view(children.last().0), tree_view(children.last().1)))
    }
}

impl<T> View for DataTree<T> {
    type V = TreeView<T>;

    open spec fn view(&self) -> TreeView<T> {
        tree_view(*self)
    }
}

/// The leaves of a tree, in depth-first order.
pub open spec fn leaves<T>(tree: TreeView<T>) -> Seq<T>
    decreases tree,
{
    match tree {
        TreeView::Leaf(value) => seq![value],
        TreeView::Branch(children) => leaves_of(children),
    }
}

/// The leaves of a list of children, in depth-first order.
pub open spec fn leaves_of<T>(children: Seq<(Option<Seq<char>>, TreeView<T>)>) -> Seq<T>
    decreases children,
{
    if children.len() == 0 {
        Seq::empty()
    } else {
        leaves_of(children.drop_last()) + leaves(children.last().1)
    }
}


/// The children of a list, viewed, taking one more child adds its view.
proof fn lemma_children_view_take<T>(children: Seq<(Option<String>, DataTree<T>)>, i: int)
    requires
        0 <= i < children.len(),
    ensures
        children_view(children.take(i + 1)) == children_view(children.take(i)).push(
            (key_view(children[i].0), tree_view(children[i].1)),
        ),
{
    assert(children.take(i + 1).drop_last() == children.take(i));
}

/// The view of all the children is the view of the whole list taken.
pub proof fn lemma_children_view_len<T>(children: Seq<(Option<String>, DataTree<T>)>)
    ensures
        children_view(children).len() == children.len(),
        forall|i: int| 0 <= i < children.len() ==> #[trigger] children_view(children)[i]
            == (key_view(children[i].0), tree_view(children[i].1)),
    decreases children.len(),
{
    if children.len() > 0 {
        lemma_children_view_len(children.drop_last());
    }
}

/// The values a sequence of references refers to.
pub open spec fn deref_all<T>(refs: Seq<&T>) -> Seq<T> {
    refs.map_values(|r: &T| *r)
}

/// Append the references to the leaves of `tree` to `out`, in depth-first order.
fn collect_leaves<'a, T>(tree: &'a DataTree<T>, out: &mut Vec<&'a T>)
    ensures
        deref_all(final(out)@) == deref_all(old(out)@) + leaves(tree@),
    decreases tree,
{
    match tree {
        DataTree::Leaf(value) => {
            let ghost before = out@;
            out.push(value);
            assert(deref_all(out@) =~= deref_all(before) + seq![*value]);
        },
        DataTree::Branch(children) => {
            let ghost start = out@;
            let mut i: usize = 0;
            while i < children.len()
                invariant
                    i <= children.len(),
                    *tree == DataTree::Branch(*children),
                    deref_all(out@) == deref_all(start) + leaves_of(children_view(children@.take(i as int))),
                decreases children.len() - i,
            {
                proof {
                    lemma_children_view_take(children@, i as int);
                    assert(decreases_to!(*tree => children@[i as int].1)) by {
                        assert(decreases_to!(*tree => tree->Branch_0));
                        assert(tree->Branch_0 == *children);
                        assert(decreases_to!(*children => children@));
                        assert(decreases_to!(children@ => children@[i as int]));
                        assert(decreases_to!(children@[i as int] => children@[i as int].1));
                    }
                }
                collect_leaves(&children[i].1, out);
                proof {
                    let cv = children_view(children@.take(i + 1));
                    assert(cv.drop_last() == children_view(children@.take(i as int)));
                    assert(deref_all(out@) =~= deref_all(start) + leaves_of(children_view(children@.take(i + 1))));
                }
                i = i + 1;
            }
            assert(children@.take(children.len() as int) == children@);
            assert(deref_all(out@) =~= deref_all(start) + leaves(tree@));
        },
    }
}

impl<T> DataTree<T> {
    /// An empty branch.
    pub fn new() -> (tree: Self)
        ensures
            tree@ == TreeView::<T>::Branch(Seq::empty()),
    {
        DataTree::Branch(Vec::new())
    }

    /// An empty branch, with room for `capacity` children.
    pub fn with_capacity(capacity: usize) -> (tree: Self)
        ensures
            tree@ == TreeView::<T>::Branch(Seq::empty()),
    {
        DataTree::Branch(Vec::with_capacity(capacity))
    }

    /// A single leaf holding `value`.
    pub fn new_leaf(value: T) -> (tree: Self)
        ensures
            tree@ == TreeView::Leaf(value),
    {
        DataTree::Leaf(value)
    }

    /// Whether this tree is a branch with no children.
    pub fn is_empty(&self) -> (empty: bool)
        ensures
            empty == (self@ matches TreeView::Branch(children) && children.len() == 0),
    {
        match self {
            DataTree::Leaf(_) => false,
            DataTree::Branch(children) => {
                proof {
                    lemma_children_view_len(children@);
                }
                children.len() == 0
            },
        }
    }

    /// Whether this tree is a single leaf.
    pub fn is_leaf(&self) -> (leaf: bool)
        ensures
            leaf == (self@ is Leaf),
    {
        match self {
            DataTree::Leaf(_) => true,
            DataTree::Branch(_) => false,
        }
    }

    /// The value of a single-leaf tree.
    pub fn unwrap_leaf(self) -> (value: T)
        requires
            self@ is Leaf,
        ensures
            self@ == TreeView::Leaf(value),
    {
        match self {
            DataTree::Leaf(value) => value,
            DataTree::Branch(_) => vstd::pervasive::unreached(),
        }
    }

    /// References to the leaves, in depth-first order.
    pub fn leaf_refs(&self) -> (refs: Vec<&T>)
        ensures
            deref_all(refs@) == leaves(self@),
    {
        let mut refs: Vec<&T> = Vec::new();
        assert(deref_all(refs@) =~= Seq::<T>::empty());
        collect_leaves(self, &mut refs);
        assert(deref_all(refs@) =~= leaves(self@));
        refs
    }

    /// The number of leaves.
    pub fn leaf_count(&self) -> (count: usize)
        ensures
            count == leaves(self@).len(),
    {
        let refs = self.leaf_refs();
        assert(deref_all(refs@).len() == refs@.len());
        refs.len()
    }

    /// Append a child holding `value` under `key`.
    pub fn insert_leaf(&mut self, key: &str, value: T)
        requires
            old(self)@ is Branch,
        ensures
            final(self)@ == TreeView::Branch(old(self)@->Branch_0.push((Some(key@), TreeView::Leaf(value)))),
    {
        let name = String::from_str(key);
        self.push_child(Some(name), DataTree::Leaf(value));
    }

    /// Append a positional child holding `value`.
    pub fn push_leaf(&mut self, value: T)
        requires
            old(self)@ is Branch,
        ensures
            final(self)@ == TreeView::Branch(old(self)@->Branch_0.push((None::<Seq<char>>, TreeView::Leaf(value)))),
    {
        self.push_child(None, DataTree::Leaf(value));
    }

    /// Append a positional child holding the tree `branch`.
    pub fn push_branch(&mut self, branch: DataTree<T>)
        requires
            old(self)@ is Branch,
        ensures
            final(self)@ == TreeView::Branch(old(self)@->Branch_0.push((None::<Seq<char>>, branch@))),
    {
        self.push_child(None, branch);
    }

    /// Append a child under `key`.
    fn push_child(&mut self, key: Option<String>, child: DataTree<T>)
        requires
            old(self)@ is Branch,
        ensures
            final(self)@ == TreeView::Branch(old(self)@->Branch_0.push((key_view(key), child@))),
    {
        match self {
            DataTree::Branch(children) => {
                let ghost before = children@;
                children.push((key, child));
                assert(children@.drop_last() == before);
            },
            DataTree::Leaf(_) => {},
        }
    }
}


// ---------------------------------------------------------------------------
// Paths
// ---------------------------------------------------------------------------

/// The path segment of a child: its name, or its position.
pub open spec fn segment(key: Option<Seq<char>>, index: nat) -> Seq<char> {
    match key {
        Some(name) => name,
        None => decimal(index),
    }
}

/// The dotted path of a child at `segment` under `path`.
pub open spec fn child_path(path: Seq<char>, segment: Seq<char>) -> Seq<char> {
    if path.len() == 0 {
        segment
    } else {
        path + "."@ + segment
    }
}

/// The dotted path of every leaf of `tree` under `path`, in depth-first order.
pub open spec fn leaf_paths<T>(tree: TreeView<T>, path: Seq<char>) -> Seq<Seq<char>>
    decreases tree, 0nat,
{
    match tree {
        TreeView::Leaf(_) => seq![path],
        TreeView::Branch(children) => leaf_paths_of(children, path, children.len()),
    }
}

/// The dotted paths of the leaves of the first `n` children.
pub open spec fn leaf_paths_of<T>(children: Seq<(Option<Seq<char>>, TreeView<T>)>, path: Seq<char>, n: nat) -> Seq<Seq<char>>
    decreases children, n,
{
    if n == 0 || n > children.len() {
        Seq::empty()
    } else {
        leaf_paths_of(children, path, (n - 1) as nat) + leaf_paths(
            children[n - 1].1,
            child_path(path, segment(children[n - 1].0, (n - 1) as nat)),
        )
    }
}

/// Append the dotted path of `segment` under `path`.
fn child_path_string(path: &String, key: &Option<String>, index: usize) -> (p: String)
    ensures
        p@ == child_path(path@, segment(key_view(*key), index as nat)),
{
    let mut p = path.clone();
    if !path.as_str().is_empty() {
        push_str(&mut p, ".");
    }
    match key {
        Some(name) => push_str(&mut p, name.as_str()),
        None => push_decimal(&mut p, index),
    }
    proof {
        if path@.len() == 0 {
            assert(p@ == path@ + segment(key_view(*key), index as nat));
            assert(path@ == Seq::<char>::empty());
            assert(p@ == segment(key_view(*key), index as nat));
        }
    }
    p
}

/// Append the dotted paths of the leaves of `tree` under `path` to `out`.
fn collect_paths<T>(tree: &DataTree<T>, path: String, out: &mut Vec<String>)
    ensures
        final(out)@.map_values(|p: String| p@) == old(out)@.map_values(|p: String| p@) + leaf_paths(tree@, path@),
    decreases tree,
{
    let ghost start = old(out)@.map_values(|p: String| p@);
    match tree {
        DataTree::Leaf(_) => {
            let ghost before = out@;
            let ghost pv = path@;
            out.push(path);
            assert(out@.map_values(|p: String| p@) =~= before.map_values(|p: String| p@) + seq![pv]);
        },
        DataTree::Branch(children) => {
            proof {
                lemma_children_view_len(children@);
            }
            let ghost cv = children_view(children@);
            let mut i: usize = 0;
            while i < children.len()
                invariant
                    i <= children.len(),
                    *tree == DataTree::Branch(*children),
                    cv == children_view(children@),
                    cv.len() == children.len(),
                    forall|k: int| 0 <= k < children.len() ==> #[trigger] cv[k]
                        == (key_view(children@[k].0), tree_view(children@[k].1)),
                    out@.map_values(|p: String| p@) == start + leaf_paths_of(cv, path@, i as nat),
                decreases children.len() - i,
            {
                proof {
                    assert(decreases_to!(*tree => children@[i as int].1)) by {
                        assert(decreases_to!(*tree => tree->Branch_0));
                        assert(tree->Branch_0 == *children);
                        assert(decreases_to!(*children => children@));
                        assert(decreases_to!(children@ => children@[i as int]));
                        assert(decreases_to!(children@[i as int] => children@[i as int].1));
                    }
                }
                let p = child_path_string(&path, &children[i].0, i);
                collect_paths(&children[i].1, p, out);
                i = i + 1;
            }
        },
    }
}

impl<T> DataTree<T> {
    /// The dotted path of every leaf, in depth-first order: names joined by `.`, a positional
    /// child addressed by its position, and the root leaf by the empty path.
    pub fn dotted_paths(&self) -> (paths: Vec<String>)
        ensures
            paths@.map_values(|p: String| p@) == leaf_paths(self@, Seq::empty()),
    {
        let mut paths: Vec<String> = Vec::new();
        let root = String::new();
        assert(paths@.map_values(|p: String| p@) =~= Seq::<Seq<char>>::empty());
        collect_paths(self, root, &mut paths);
        assert(paths@.map_values(|p: String| p@) =~= leaf_paths(self@, Seq::empty()));
        paths
    }
}


// ---------------------------------------------------------------------------
// Matching a tree against a template
// ---------------------------------------------------------------------------

/// Why a tree does not match a template.
#[derive(Debug, PartialEq, Eq)]
pub enum TreeMatchError {
    /// The template has a child at `path` that the tree lacks.
    MissingPath { path: String },
    /// The template has a leaf at `path` where the tree has a branch.
    ExpectedLeaf { path: String },
}

/// A mismatch, with its path as characters.
pub enum MatchFailure {
    MissingPath(Seq<char>),
    ExpectedLeaf(Seq<char>),
}

/// The view of a mismatch.
pub open spec fn failure_of(e: TreeMatchError) -> MatchFailure {
    match e {
        TreeMatchError::MissingPath { path } => MatchFailure::MissingPath(path@),
        TreeMatchError::ExpectedLeaf { path } => MatchFailure::ExpectedLeaf(path@),
    }
}

/// The first of the children from position `from` on named `name`.
pub open spec fn first_named<U>(children: Seq<(Option<Seq<char>>, TreeView<U>)>, name: Seq<char>, from: nat) -> Option<TreeView<U>>
    decreases children.len() - from,
{
    if from >= children.len() {
        None
    } else if children[from as int].0 == Some(name) {
        Some(children[from as int].1)
    } else {
        first_named(children, name, from + 1)
    }
}

/// The child of `args` that matches a template child keyed `key` at position `index`: the first
/// child of that name, or for a positional child the child at that position.
pub open spec fn find_child<U>(args: TreeView<U>, key: Option<Seq<char>>, index: nat) -> Option<TreeView<U>> {
    match args {
        TreeView::Leaf(_) => None,
        TreeView::Branch(children) => match key {
            Some(name) => first_named(children, name, 0),
            None => if index < children.len() { Some(children[index as int].1) } else { None },
        },
    }
}

/// The leaves of `args` in the order of `template`'s leaves, or why `args` does not match it.
pub open spec fn flatten_spec<S, U>(template: TreeView<S>, args: TreeView<U>, path: Seq<char>) -> Result<Seq<U>, MatchFailure>
    decreases template, 0nat,
{
    match template {
        TreeView::Leaf(_) => match args {
            TreeView::Leaf(value) => Ok(seq![value]),
            TreeView::Branch(_) => Err(MatchFailure::ExpectedLeaf(path)),
        },
        TreeView::Branch(children) => flatten_children(children, args, path, children.len()),
    }
}

/// [`flatten_spec`] over the first `n` children of a template branch.
pub open spec fn flatten_children<S, U>(
    children: Seq<(Option<Seq<char>>, TreeView<S>)>,
    args: TreeView<U>,
    path: Seq<char>,
    n: nat,
) -> Result<Seq<U>, MatchFailure>
    decreases children, n,
{
    if n == 0 || n > children.len() {
        Ok(Seq::empty())
    } else {
        match flatten_children(children, args, path, (n - 1) as nat) {
            Err(e) => Err(e),
            Ok(prefix) => {
                let key = children[n - 1].0;
                let p = child_path(path, segment(key, (n - 1) as nat));
                match find_child(args, key, (n - 1) as nat) {
                    None => Err(MatchFailure::MissingPath(p)),
                    Some(sub) => match flatten_spec(children[n - 1].1, sub, p) {
                        Err(e) => Err(e),
                        Ok(rest) => Ok(prefix + rest),
                    },
                }
            },
        }
    }
}

/// Over the first `n` children of a template of named children, two argument branches with
/// the same first child under every name flatten the same way.
proof fn lemma_flatten_children_by_name<S, U>(
    children: Seq<(Option<Seq<char>>, TreeView<S>)>,
    a: Seq<(Option<Seq<char>>, TreeView<U>)>,
    b: Seq<(Option<Seq<char>>, TreeView<U>)>,
    path: Seq<char>,
    n: nat,
)
    requires
        forall|j: int| 0 <= j < children.len() ==> (#[trigger] children[j]).0 is Some,
        forall|name: Seq<char>| #[trigger] first_named(a, name, 0) == first_named(b, name, 0),
    ensures
        flatten_children(children, TreeView::Branch(a), path, n) == flatten_children(children, TreeView::Branch(b), path, n),
    decreases n,
{
    if n > 0 && n <= children.len() {
        lemma_flatten_children_by_name(children, a, b, path, (n - 1) as nat);
        let c = children[n - 1];
        assert(c.0 is Some);
        let name = c.0->Some_0;
        assert(first_named(a, name, 0) == first_named(b, name, 0));
        assert(find_child(TreeView::Branch(a), c.0, (n - 1) as nat) == find_child(TreeView::Branch(b), c.0, (n - 1) as nat));
    }
}

/// A template of named children takes each child of the arguments by its name, the first child
/// of that name, wherever it stands: two argument branches that have the same first child under
/// every name, in whatever order, flatten the same way.
pub proof fn lemma_flatten_by_name<S, U>(
    children: Seq<(Option<Seq<char>>, TreeView<S>)>,
    a: Seq<(Option<Seq<char>>, TreeView<U>)>,
    b: Seq<(Option<Seq<char>>, TreeView<U>)>,
    path: Seq<char>,
)
    requires
        forall|j: int| 0 <= j < children.len() ==> (#[trigger] children[j]).0 is Some,
        forall|name: Seq<char>| #[trigger] first_named(a, name, 0) == first_named(b, name, 0),
    ensures
        flatten_spec(TreeView::Branch(children), TreeView::Branch(a), path)
            == flatten_spec(TreeView::Branch(children), TreeView::Branch(b), path),
{
    lemma_flatten_children_by_name(children, a, b, path, children.len());
}

/// Over the first `n` children of a template, a named child `j < n` that the arguments lack
/// makes flattening fail.
proof fn lemma_flatten_children_missing<S, U>(
    children: Seq<(Option<Seq<char>>, TreeView<S>)>,
    a: Seq<(Option<Seq<char>>, TreeView<U>)>,
    path: Seq<char>,
    j: int,
    n: nat,
)
    requires
        0 <= j < n <= children.len(),
        children[j].0 matches Some(name) && first_named(a, name, 0) is None,
    ensures
        flatten_children(children, TreeView::Branch(a), path, n) is Err,
    decreases n,
{
    if j < n - 1 {
        lemma_flatten_children_missing(children, a, path, j, (n - 1) as nat);
    } else {
        let args = TreeView::Branch(a);
        assert(find_child(args, children[j].0, j as nat) is None);
    }
}

/// A named child of the template that no child of the arguments bears makes flattening fail:
/// no other child stands in for it.
pub proof fn lemma_flatten_missing_name<S, U>(
    children: Seq<(Option<Seq<char>>, TreeView<S>)>,
    a: Seq<(Option<Seq<char>>, TreeView<U>)>,
    path: Seq<char>,
    j: int,
)
    requires
        0 <= j < children.len(),
        children[j].0 matches Some(name) && first_named(a, name, 0) is None,
    ensures
        flatten_spec(TreeView::Branch(children), TreeView::Branch(a), path) is Err,
{
    lemma_flatten_children_missing(children, a, path, j, children.len());
}

/// When a template of named children matches, the values for each child come from the first
/// child of the arguments bearing its name: flattening that child alone against the template's
/// child gives them.
pub proof fn lemma_flatten_takes_named_child<S, U>(
    children: Seq<(Option<Seq<char>>, TreeView<S>)>,
    a: Seq<(Option<Seq<char>>, TreeView<U>)>,
    path: Seq<char>,
    n: nat,
)
    requires
        0 < n <= children.len(),
        children[n - 1].0 matches Some(name),
        flatten_children(children, TreeView::Branch(a), path, n) is Ok,
    ensures
        ({
            let name = children[n - 1].0->Some_0;
            let p = child_path(path, segment(children[n - 1].0, (n - 1) as nat));
            &&& first_named(a, name, 0) is Some
            &&& flatten_spec(children[n - 1].1, first_named(a, name, 0)->Some_0, p) matches Ok(rest)
            &&& flatten_children(children, TreeView::Branch(a), path, n)
                == Ok::<Seq<U>, MatchFailure>(flatten_children(children, TreeView::Branch(a), path, (n - 1) as nat)->Ok_0 + rest)
        }),
{
}

/// Once the children fail to match, every longer run of them fails the same way.
proof fn lemma_flatten_err_propagates<S, U>(
    children: Seq<(Option<Seq<char>>, TreeView<S>)>,
    args: TreeView<U>,
    path: Seq<char>,
    k: nat,
    m: nat,
)
    requires
        k <= m <= children.len(),
        flatten_children(children, args, path, k) is Err,
    ensures
        flatten_children(children, args, path, m) == flatten_children(children, args, path, k),
    decreases m,
{
    if m > k {
        lemma_flatten_err_propagates(children, args, path, k, (m - 1) as nat);
    }
}

/// The child of `args` matching a template child keyed `key` at position `index`.
pub(crate) fn find_child_ref<'a, U>(args: &'a DataTree<U>, key: &Option<String>, index: usize) -> (found: Option<&'a DataTree<U>>)
    ensures
        match found {
            Some(child) => find_child(args@, key_view(*key), index as nat) == Some(child@)
                && decreases_to!(*args => *child),
            None => find_child(args@, key_view(*key), index as nat) is None,
        },
{
    match args {
        DataTree::Leaf(_) => None,
        DataTree::Branch(children) => {
            proof {
                lemma_children_view_len(children@);
            }
            let ghost cv = children_view(children@);
            match key {
                Some(name) => {
                    let mut i: usize = 0;
                    while i < children.len()
                        invariant
                            i <= children.len(),
                            *args == DataTree::Branch(*children),
                            cv == children_view(children@),
                            cv.len() == children.len(),
                            forall|k: int| 0 <= k < children.len() ==> #[trigger] cv[k]
                                == (key_view(children@[k].0), tree_view(children@[k].1)),
                            first_named(cv, name@, 0) == first_named(cv, name@, i as nat),
                            key_view(*key) == Some(name@),
                        decreases children.len() - i,
                    {
                        let matches_key = match &children[i].0 {
                            Some(k) => *k == *name,
                            None => false,
                        };
                        proof {
                            assert(cv[i as int] == (key_view(children@[i as int].0), tree_view(children@[i as int].1)));
                        }
                        if matches_key {
                            proof {
                                assert(cv[i as int].0 == Some(name@));
                                assert(args@ == TreeView::Branch(cv));
                                assert(first_named(cv, name@, i as nat) == Some(cv[i as int].1));
                                assert(key_view(*key) == Some(name@));
                                assert(decreases_to!(*args => args->Branch_0));
                                assert(args->Branch_0 == *children);
                                assert(decreases_to!(*children => children@));
                                assert(decreases_to!(children@ => children@[i as int]));
                                assert(decreases_to!(children@[i as int] => children@[i as int].1));
                            }
                            return Some(&children[i].1);
                        }
                        i = i + 1;
                    }
                    None
                },
                None => {
                    if index < children.len() {
                        proof {
                            assert(decreases_to!(*args => args->Branch_0));
                            assert(args->Branch_0 == *children);
                            assert(decreases_to!(*children => children@));
                            assert(decreases_to!(children@ => children@[index as int]));
                            assert(decreases_to!(children@[index as int] => children@[index as int].1));
                        }
                        Some(&children[index].1)
                    } else {
                        None
                    }
                },
            }
        },
    }
}

/// Append to `out` the leaves of `args` in the order of `template`'s leaves.
fn flatten_into<'a, S, U>(template: &DataTree<S>, args: &'a DataTree<U>, path: String, out: &mut Vec<&'a U>)
    -> (res: Result<(), TreeMatchError>)
    ensures
        match flatten_spec(template@, args@, path@) {
            Ok(values) => res is Ok && deref_all(final(out)@) == deref_all(old(out)@) + values,
            Err(f) => res matches Err(e) && failure_of(e) == f,
        },
    decreases template,
{
    match template {
        DataTree::Leaf(_) => match args {
            DataTree::Leaf(value) => {
                let ghost before = out@;
                out.push(value);
                assert(deref_all(out@) =~= deref_all(before) + seq![*value]);
                Ok(())
            },
            DataTree::Branch(_) => Err(TreeMatchError::ExpectedLeaf { path }),
        },
        DataTree::Branch(children) => {
            proof {
                lemma_children_view_len(children@);
            }
            let ghost cv = children_view(children@);
            let ghost start = deref_all(out@);
            let mut i: usize = 0;
            while i < children.len()
                invariant
                    i <= children.len(),
                    *template == DataTree::Branch(*children),
                    cv == children_view(children@),
                    cv.len() == children.len(),
                    forall|k: int| 0 <= k < children.len() ==> #[trigger] cv[k]
                        == (key_view(children@[k].0), tree_view(children@[k].1)),
                    flatten_children(cv, args@, path@, i as nat) matches Ok(prefix)
                        && deref_all(out@) == start + prefix,
                decreases children.len() - i,
            {
                let p = child_path_string(&path, &children[i].0, i);
                match find_child_ref(args, &children[i].0, i) {
                    None => {
                        proof {
                            assert(cv[i as int] == (key_view(children@[i as int].0), tree_view(children@[i as int].1)));
                            lemma_flatten_err_propagates(cv, args@, path@, (i + 1) as nat, cv.len());
                        }
                        return Err(TreeMatchError::MissingPath { path: p });
                    },
                    Some(sub) => {
                        proof {
                            assert(decreases_to!(*template => children@[i as int].1)) by {
                                assert(decreases_to!(*template => template->Branch_0));
                                assert(template->Branch_0 == *children);
                                assert(decreases_to!(*children => children@));
                                assert(decreases_to!(children@ => children@[i as int]));
                                assert(decreases_to!(children@[i as int] => children@[i as int].1));
                            }
                        }
                        let ghost before = deref_all(out@);
                        let r = flatten_into(&children[i].1, sub, p, out);
                        proof {
                            assert(cv[i as int] == (key_view(children@[i as int].0), tree_view(children@[i as int].1)));
                        }
                        if r.is_err() {
                            proof {
                                lemma_flatten_err_propagates(cv, args@, path@, (i + 1) as nat, cv.len());
                            }
                            return r;
                        }
                        assert(deref_all(out@) =~= start + flatten_children(cv, args@, path@, (i + 1) as nat)->Ok_0);
                    },
                }
                i = i + 1;
            }
            Ok(())
        },
    }
}

impl<S> DataTree<S> {
    /// The leaves of `args` in the order of this template's leaves.
    ///
    /// Each child of a template branch is looked up in the matching branch of `args`: a named
    /// child by its name (the first child of that name), a positional child by its position.
    /// A child `args` lacks is reported at its dotted path, as is a branch where the template
    /// has a leaf.
    pub fn flatten_against<'a, U>(&self, args: &'a DataTree<U>) -> (res: Result<Vec<&'a U>, TreeMatchError>)
        ensures
            match flatten_spec(self@, args@, Seq::empty()) {
                Ok(values) => res matches Ok(refs) && deref_all(refs@) == values,
                Err(f) => res matches Err(e) && failure_of(e) == f,
            },
    {
        let mut out: Vec<&'a U> = Vec::new();
        let root = String::new();
        assert(deref_all(out@) =~= Seq::<U>::empty());
        match flatten_into(self, args, root, &mut out) {
            Ok(()) => {
                assert(deref_all(out@) =~= flatten_spec(self@, args@, Seq::empty())->Ok_0);
                Ok(out)
            },
            Err(e) => Err(e),
        }
    }
}


// ---------------------------------------------------------------------------
// Filling a template with values
// ---------------------------------------------------------------------------

/// The number of values a template takes and the number it was given, when they differ.
#[derive(Debug, PartialEq, Eq)]
pub struct ArityMismatch {
    pub expected: usize,
    pub actual: usize,
}

/// `template` with its leaves replaced, in depth-first order, by `values`.
pub open spec fn fill<S, U>(template: TreeView<S>, values: Seq<U>) -> TreeView<U>
    decreases template, 0nat,
{
    match template {
        TreeView::Leaf(_) => TreeView::Leaf(values[0]),
        TreeView::Branch(children) => TreeView::Branch(fill_children(children, values, children.len())),
    }
}

/// The first `n` children of a template branch filled from `values`.
pub open spec fn fill_children<S, U>(children: Seq<(Option<Seq<char>>, TreeView<S>)>, values: Seq<U>, n: nat)
    -> Seq<(Option<Seq<char>>, TreeView<U>)>
    decreases children, n,
{
    if n == 0 || n > children.len() {
        Seq::empty()
    } else {
        let used = leaves_of(children.take(n - 1)).len();
        fill_children(children, values, (n - 1) as nat).push(
            (children[n - 1].0, fill(children[n - 1].1, values.skip(used as int))),
        )
    }
}

/// Taking one more child adds its leaves.
pub proof fn lemma_leaves_of_take<T>(children: Seq<(Option<Seq<char>>, TreeView<T>)>, i: int)
    requires
        0 <= i < children.len(),
    ensures
        leaves_of(children.take(i + 1)) == leaves_of(children.take(i)) + leaves(children[i].1),
{
    assert(children.take(i + 1).drop_last() == children.take(i));
}

/// A prefix of the children has no more leaves than the whole list.
proof fn lemma_leaves_of_prefix<T>(children: Seq<(Option<Seq<char>>, TreeView<T>)>, i: int)
    requires
        0 <= i <= children.len(),
    ensures
        leaves_of(children.take(i)).len() <= leaves_of(children).len(),
    decreases children.len() - i,
{
    if i < children.len() {
        lemma_leaves_of_take(children, i);
        lemma_leaves_of_prefix(children, i + 1);
    } else {
        assert(children.take(i) == children);
    }
}

/// A copy of a child key.
fn clone_key(key: &Option<String>) -> (copy: Option<String>)
    ensures
        key_view(copy) == key_view(*key),
{
    match key {
        Some(name) => Some(name.clone()),
        None => None,
    }
}

/// Build `template` with its leaves taken in order from the front of `values`.
fn fill_from<S, U>(template: &DataTree<S>, values: &mut Vec<U>) -> (tree: DataTree<U>)
    requires
        old(values).len() >= leaves(template@).len(),
    ensures
        tree@ == fill(template@, old(values)@),
        final(values)@ == old(values)@.skip(leaves(template@).len() as int),
    decreases template,
{
    let ghost initial = values@;
    match template {
        DataTree::Leaf(_) => {
            let value = values.remove(0);
            assert(values@ == initial.skip(1));
            DataTree::Leaf(value)
        },
        DataTree::Branch(children) => {
            proof {
                lemma_children_view_len(children@);
            }
            let ghost cv = children_view(children@);
            let mut filled: Vec<(Option<String>, DataTree<U>)> = Vec::new();
            let mut i: usize = 0;
            assert(cv.take(0) == Seq::<(Option<Seq<char>>, TreeView<S>)>::empty());
            assert(initial.skip(0) == initial);
            while i < children.len()
                invariant
                    i <= children.len(),
                    *template == DataTree::Branch(*children),
                    cv == children_view(children@),
                    cv.len() == children.len(),
                    forall|k: int| 0 <= k < children.len() ==> #[trigger] cv[k]
                        == (key_view(children@[k].0), tree_view(children@[k].1)),
                    initial.len() >= leaves_of(cv).len(),
                    values@ == initial.skip(leaves_of(cv.take(i as int)).len() as int),
                    children_view(filled@) == fill_children(cv, initial, i as nat),
                decreases children.len() - i,
            {
                proof {
                    assert(decreases_to!(*template => children@[i as int].1)) by {
                        assert(decreases_to!(*template => template->Branch_0));
                        assert(template->Branch_0 == *children);
                        assert(decreases_to!(*children => children@));
                        assert(decreases_to!(children@ => children@[i as int]));
                        assert(decreases_to!(children@[i as int] => children@[i as int].1));
                    }
                    lemma_leaves_of_take(cv, i as int);
                    lemma_leaves_of_prefix(cv, i + 1);
                }
                let ghost before = values@;
                let sub = fill_from(&children[i].1, values);
                let key = clone_key(&children[i].0);
                let ghost old_filled = filled@;
                filled.push((key, sub));
                proof {
                    assert(filled@.drop_last() == old_filled);
                    let used = leaves_of(cv.take(i as int)).len();
                    assert(before == initial.skip(used as int));
                    assert(values@ =~= initial.skip(leaves_of(cv.take(i + 1)).len() as int));
                }
                i = i + 1;
            }
            proof {
                assert(cv.take(cv.len() as int) == cv);
            }
            DataTree::Branch(filled)
        },
    }
}

impl<T: Copy> DataTree<T> {
    /// A copy of this tree.
    pub fn copy_tree(&self) -> (copy: DataTree<T>)
        ensures
            copy@ == self@,
        decreases self,
    {
        match self {
            DataTree::Leaf(value) => DataTree::Leaf(*value),
            DataTree::Branch(children) => {
                proof {
                    lemma_children_view_len(children@);
                }
                let mut copied: Vec<(Option<String>, DataTree<T>)> = Vec::new();
                let mut i: usize = 0;
                while i < children.len()
                    invariant
                        i <= children.len(),
                        *self == DataTree::Branch(*children),
                        children_view(copied@) == children_view(children@.take(i as int)),
                    decreases children.len() - i,
                {
                    proof {
                        assert(decreases_to!(*self => children@[i as int].1)) by {
                            assert(decreases_to!(*self => self->Branch_0));
                            assert(self->Branch_0 == *children);
                            assert(decreases_to!(*children => children@));
                            assert(decreases_to!(children@ => children@[i as int]));
                            assert(decreases_to!(children@[i as int] => children@[i as int].1));
                        }
                    }
                    let sub = children[i].1.copy_tree();
                    let key = clone_key(&children[i].0);
                    let ghost before = copied@;
                    copied.push((key, sub));
                    proof {
                        assert(copied@.drop_last() == before);
                        lemma_children_view_take(children@, i as int);
                    }
                    i = i + 1;
                }
                proof {
                    assert(children@.take(children.len() as int) == children@);
                }
                DataTree::Branch(copied)
            },
        }
    }
}

impl<S> DataTree<S> {
    /// A tree shaped like this one whose leaves are `values`, in depth-first order.
    ///
    /// Fails if `values` does not hold exactly one value per leaf.
    pub fn unflatten<U>(&self, values: Vec<U>) -> (res: Result<DataTree<U>, ArityMismatch>)
        ensures
            match res {
                Ok(tree) => values.len() == leaves(self@).len() && tree@ == fill(self@, values@),
                Err(e) => values.len() != leaves(self@).len() && e.expected == leaves(self@).len()
                    && e.actual == values.len(),
            },
    {
        let expected = self.leaf_count();
        if values.len() != expected {
            return Err(ArityMismatch { expected, actual: values.len() });
        }
        let mut values = values;
        let tree = fill_from(self, &mut values);
        Ok(tree)
    }
}


/// The leaves of the first `i` children come first among the leaves of all of them.
proof fn lemma_leaves_of_prefix_items<T>(children: Seq<(Option<Seq<char>>, TreeView<T>)>, i: int)
    requires
        0 <= i <= children.len(),
    ensures
        leaves_of(children.take(i)).len() <= leaves_of(children).len(),
        forall|k: int| 0 <= k < leaves_of(children.take(i)).len()
            ==> #[trigger] leaves_of(children)[k] == leaves_of(children.take(i))[k],
    decreases children.len() - i,
{
    if i < children.len() {
        lemma_leaves_of_take(children, i);
        lemma_leaves_of_prefix_items(children, i + 1);
    } else {
        assert(children.take(i) == children);
    }
}

/// Filling a template takes its leaves, in order, from the front of the values.
pub proof fn lemma_leaves_of_fill<S, U>(template: TreeView<S>, values: Seq<U>)
    requires
        values.len() >= leaves(template).len(),
    ensures
        leaves(fill(template, values)) == values.take(leaves(template).len() as int),
    decreases template, 0nat,
{
    match template {
        TreeView::Leaf(_) => {
            assert(leaves(fill(template, values)) =~= values.take(1));
        },
        TreeView::Branch(children) => {
            assert(children.take(children.len() as int) == children);
            lemma_leaves_of_fill_children(children, values, children.len());
        },
    }
}

/// Filling the first `n` children of a template branch takes their leaves from the front of
/// the values.
proof fn lemma_leaves_of_fill_children<S, U>(children: Seq<(Option<Seq<char>>, TreeView<S>)>, values: Seq<U>, n: nat)
    requires
        n <= children.len(),
        values.len() >= leaves_of(children.take(n as int)).len(),
    ensures
        leaves_of(fill_children(children, values, n)) == values.take(leaves_of(children.take(n as int)).len() as int),
    decreases children, n,
{
    if n == 0 {
        assert(leaves_of(fill_children(children, values, n)) =~= values.take(0));
    } else {
        let i = n - 1;
        let used = leaves_of(children.take(i)).len();
        let child = children[i].1;
        lemma_leaves_of_take(children, i);
        lemma_leaves_of_fill_children(children, values, (n - 1) as nat);
        assert(decreases_to!(children => child)) by {
            assert(decreases_to!(children => children[i]));
            assert(decreases_to!(children[i] => children[i].1));
        }
        lemma_leaves_of_fill(child, values.skip(used as int));
        let filled = fill_children(children, values, (n - 1) as nat);
        let entry = (children[i].0, fill(child, values.skip(used as int)));
        assert(fill_children(children, values, n) == filled.push(entry));
        assert(filled.push(entry).drop_last() == filled);
        assert(leaves_of(fill_children(children, values, n)) == leaves_of(filled) + leaves(entry.1));
        assert(values.take(used as int) + values.skip(used as int).take(leaves(child).len() as int)
            =~= values.take((used + leaves(child).len()) as int));
    }
}

/// Filling a template only reads as many values as it has leaves: a tree filled with values that
/// begin with its own leaves is the tree itself.
pub proof fn lemma_fill_with_own_leaves<T>(tree: TreeView<T>, values: Seq<T>)
    requires
        values.len() >= leaves(tree).len(),
        values.take(leaves(tree).len() as int) == leaves(tree),
    ensures
        fill(tree, values) == tree,
    decreases tree, 0nat,
{
    match tree {
        TreeView::Leaf(v) => {
            assert(values.take(1)[0] == v);
        },
        TreeView::Branch(children) => {
            assert(children.take(children.len() as int) == children);
            lemma_fill_children_with_own_leaves(children, values, children.len());
            assert(fill_children(children, values, children.len()) =~= children);
        },
    }
}

/// The first `n` children of a branch, filled with values that begin with the leaves of all of
/// the children, are those children.
proof fn lemma_fill_children_with_own_leaves<T>(children: Seq<(Option<Seq<char>>, TreeView<T>)>, values: Seq<T>, n: nat)
    requires
        n <= children.len(),
        values.len() >= leaves_of(children).len(),
        values.take(leaves_of(children).len() as int) == leaves_of(children),
    ensures
        fill_children(children, values, n) == children.take(n as int),
    decreases children, n,
{
    if n == 0 {
        assert(fill_children(children, values, n) =~= children.take(0));
    } else {
        let i = n - 1;
        let used = leaves_of(children.take(i)).len();
        let child = children[i].1;
        let rest = values.skip(used as int);
        lemma_leaves_of_take(children, i);
        lemma_leaves_of_prefix_items(children, i + 1);
        lemma_fill_children_with_own_leaves(children, values, (n - 1) as nat);
        assert(rest.len() >= leaves(child).len());
        assert(rest.take(leaves(child).len() as int) =~= leaves(child)) by {
            assert forall|k: int| 0 <= k < leaves(child).len() implies rest.take(leaves(child).len() as int)[k] == leaves(child)[k] by {
                let whole = leaves_of(children.take(i + 1));
                assert(whole[used + k] == leaves(child)[k]);
                assert(leaves_of(children)[used + k] == whole[used + k]);
                assert(values.take(leaves_of(children).len() as int)[used + k] == values[used + k]);
            }
        }
        assert(decreases_to!(children => child)) by {
            assert(decreases_to!(children => children[i]));
            assert(decreases_to!(children[i] => children[i].1));
        }
        lemma_fill_with_own_leaves(child, rest);
        assert(fill_children(children, values, n) =~= children.take(n as int));
    }
}

// ---------------------------------------------------------------------------
// Trees of views
// ---------------------------------------------------------------------------

/// `tree` with each leaf replaced by its view.
pub open spec fn view_leaves<T: View>(tree: TreeView<T>) -> TreeView<T::V>
    decreases tree, 0nat,
{
    match tree {
        TreeView::Leaf(value) => TreeView::Leaf(value@),
        TreeView::Branch(children) => TreeView::Branch(view_children(children, children.len())),
    }
}

/// The first `n` children of a branch with their leaves replaced by their views.
pub open spec fn view_children<T: View>(children: Seq<(Option<Seq<char>>, TreeView<T>)>, n: nat)
    -> Seq<(Option<Seq<char>>, TreeView<T::V>)>
    decreases children, n,
{
    if n == 0 || n > children.len() {
        Seq::empty()
    } else {
        view_children(children, (n - 1) as nat).push((children[n - 1].0, view_leaves(children[n - 1].1)))
    }
}

/// The viewed children keep their keys and view each subtree.
pub proof fn lemma_view_children<T: View>(children: Seq<(Option<Seq<char>>, TreeView<T>)>, n: nat)
    requires
        n <= children.len(),
    ensures
        view_children(children, n).len() == n,
        forall|i: int| 0 <= i < n ==> #[trigger] view_children(children, n)[i]
            == (children[i].0, view_leaves(children[i].1)),
    decreases n,
{
    if n > 0 {
        lemma_view_children(children, (n - 1) as nat);
    }
}

/// Viewing the leaves of a template changes nothing about what it accepts or how it orders the
/// leaves it matches.
pub proof fn lemma_flatten_view<S: View, U>(template: TreeView<S>, args: TreeView<U>, path: Seq<char>)
    ensures
        flatten_spec(view_leaves(template), args, path) == flatten_spec(template, args, path),
    decreases template, 0nat,
{
    match template {
        TreeView::Leaf(value) => {
            let viewed = TreeView::<S::V>::Leaf(value@);
            assert(view_leaves(template) == viewed);
            match args {
                TreeView::Leaf(a) => {
                    assert(flatten_spec(viewed, args, path) == Ok::<Seq<U>, MatchFailure>(seq![a]));
                    assert(flatten_spec(template, args, path) == Ok::<Seq<U>, MatchFailure>(seq![a]));
                },
                TreeView::Branch(_) => {
                    assert(flatten_spec(viewed, args, path) == Err::<Seq<U>, MatchFailure>(MatchFailure::ExpectedLeaf(path)));
                },
            }
        },
        TreeView::Branch(children) => {
            lemma_view_children(children, children.len());
            lemma_flatten_children_view(children, args, path, children.len());
        },
    }
}

/// [`lemma_flatten_view`] over the first `n` children of a template branch.
proof fn lemma_flatten_children_view<S: View, U>(
    children: Seq<(Option<Seq<char>>, TreeView<S>)>,
    args: TreeView<U>,
    path: Seq<char>,
    n: nat,
)
    requires
        n <= children.len(),
    ensures
        flatten_children(view_children(children, children.len()), args, path, n)
            == flatten_children(children, args, path, n),
    decreases children, n,
{
    lemma_view_children(children, children.len());
    if n > 0 {
        lemma_flatten_children_view(children, args, path, (n - 1) as nat);
        let key = children[n - 1].0;
        let p = child_path(path, segment(key, (n - 1) as nat));
        match find_child(args, key, (n - 1) as nat) {
            None => {},
            Some(sub) => {
                assert(decreases_to!(children => children[n - 1].1)) by {
                    assert(decreases_to!(children => children[n - 1]));
                }
                lemma_flatten_view(children[n - 1].1, sub, p);
            },
        }
    }
}

/// The leaves of a viewed tree are the views of its leaves.
pub proof fn lemma_leaves_view<T: View>(tree: TreeView<T>)
    ensures
        leaves(view_leaves(tree)) == leaves(tree).map_values(|v: T| v@),
    decreases tree, 0nat,
{
    match tree {
        TreeView::Leaf(value) => {
            assert(leaves(tree).map_values(|v: T| v@) =~= seq![value@]);
        },
        TreeView::Branch(children) => {
            lemma_leaves_of_view(children, children.len());
            assert(children.take(children.len() as int) == children);
        },
    }
}

/// [`lemma_leaves_view`] over the first `n` children of a branch.
proof fn lemma_leaves_of_view<T: View>(children: Seq<(Option<Seq<char>>, TreeView<T>)>, n: nat)
    requires
        n <= children.len(),
    ensures
        leaves_of(view_children(children, n)) == leaves_of(children.take(n as int)).map_values(|v: T| v@),
    decreases children, n,
{
    if n == 0 {
        assert(children.take(0) == Seq::<(Option<Seq<char>>, TreeView<T>)>::empty());
        assert(leaves_of(children.take(0)).map_values(|v: T| v@) =~= Seq::<T::V>::empty());
    } else {
        lemma_leaves_of_view(children, (n - 1) as nat);
        assert(decreases_to!(children => children[n - 1].1)) by {
            assert(decreases_to!(children => children[n - 1]));
        }
        lemma_leaves_view(children[n - 1].1);
        let vc = view_children(children, n);
        assert(vc.drop_last() == view_children(children, (n - 1) as nat));
        assert(children.take(n as int).drop_last() == children.take(n - 1));
        let a = leaves_of(children.take(n - 1));
        let b = leaves(children[n - 1].1);
        assert((a + b).map_values(|v: T| v@) =~= a.map_values(|v: T| v@) + b.map_values(|v: T| v@));
    }
}

/// Filling a viewed template is filling the template.
pub proof fn lemma_fill_view<S: View, U>(template: TreeView<S>, values: Seq<U>)
    ensures
        fill(view_leaves(template), values) == fill(template, values),
    decreases template, 0nat,
{
    match template {
        TreeView::Leaf(value) => {
            let viewed = TreeView::<S::V>::Leaf(value@);
            assert(view_leaves(template) == viewed);
            assert(fill(viewed, values) == TreeView::<U>::Leaf(values[0]));
            assert(fill(template, values) == TreeView::<U>::Leaf(values[0]));
        },
        TreeView::Branch(children) => {
            lemma_view_children(children, children.len());
            lemma_fill_children_view(children, values, children.len());
        },
    }
}

/// [`lemma_fill_view`] over the first `n` children of a template branch.
proof fn lemma_fill_children_view<S: View, U>(children: Seq<(Option<Seq<char>>, TreeView<S>)>, values: Seq<U>, n: nat)
    requires
        n <= children.len(),
    ensures
        fill_children(view_children(children, children.len()), values, n) == fill_children(children, values, n),
    decreases children, n,
{
    lemma_view_children(children, children.len());
    if n > 0 {
        lemma_fill_children_view(children, values, (n - 1) as nat);
        let vc = view_children(children, children.len());
        lemma_view_children(children, (n - 1) as nat);
        assert(vc.take(n - 1) =~= view_children(children, (n - 1) as nat));
        lemma_leaves_of_view(children, (n - 1) as nat);
        let used = leaves_of(children.take(n - 1)).len();
        assert(decreases_to!(children => children[n - 1].1)) by {
            assert(decreases_to!(children => children[n - 1]));
        }
        lemma_fill_view(children[n - 1].1, values.skip(used as int));
    }
}

} // verus!
