use qiskit_providers::data_tree::DataTree;

/// A tree with named, positional and nested children.
fn sample() -> DataTree<i64> {
    let mut inner = DataTree::new();
    inner.push_leaf(3);
    inner.insert_leaf("d", 4);
    let mut tree = DataTree::new();
    tree.insert_leaf("a", 1);
    tree.push_leaf(2);
    tree.push_branch(inner);
    tree.insert_leaf("e", 5);
    tree
}

#[test]
fn unflattening_a_tree_with_its_own_leaves_gives_it_back() {
    let tree = sample();
    let leaves: Vec<i64> = tree.leaf_refs().into_iter().copied().collect();
    assert_eq!(leaves, vec![1, 2, 3, 4, 5]);
    let rebuilt = tree.unflatten(leaves).unwrap();
    assert_eq!(format!("{rebuilt:?}"), format!("{tree:?}"));
}

#[test]
fn unflattening_puts_the_values_at_the_leaves_in_order() {
    let tree = sample();
    let filled = tree.unflatten(vec!["v", "w", "x", "y", "z"]).unwrap();
    let leaves: Vec<&str> = filled.leaf_refs().into_iter().copied().collect();
    assert_eq!(leaves, vec!["v", "w", "x", "y", "z"]);
    assert_eq!(filled.dotted_paths(), tree.dotted_paths());
}

#[test]
fn unflattening_with_the_wrong_number_of_values_fails() {
    let tree = sample();
    let err = tree.unflatten(vec![0u8; 4]).unwrap_err();
    assert_eq!((err.expected, err.actual), (5, 4));
    assert!(DataTree::new_leaf(()).unflatten(Vec::<u8>::new()).is_err());
}
