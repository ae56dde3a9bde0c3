use qiskit_providers::addressing::{FormError, PositionError, is_reachable_name};
use qiskit_providers::data_tree::DataTree;

/// The tree `{"counts": [3, 4], "ev": 10}`.
fn example() -> DataTree<i64> {
    let mut counts = DataTree::new();
    counts.push_leaf(3);
    counts.push_leaf(4);
    let mut tree = DataTree::Branch(vec![(Some("counts".to_string()), counts)]);
    tree.insert_leaf("ev", 10);
    tree
}

fn leaf(tree: Option<&DataTree<i64>>) -> Option<i64> {
    tree.and_then(|t| t.leaf_value().ok().copied())
}

#[test]
fn a_dotted_path_addresses_by_name_and_by_position() {
    let tree = example();
    assert_eq!(leaf(tree.get_by_str_key("ev")), Some(10));
    let counts = tree.get_by_str_key("counts").unwrap();
    assert_eq!(counts.child_count(), 2);
    assert_eq!(leaf(counts.get_by_str_key("1")), Some(4));
    assert_eq!(leaf(tree.get_by_str_key("counts.1")), Some(4));
    assert_eq!(leaf(tree.get_by_str_key("counts.0")), Some(3));
    assert_eq!(leaf(tree.get_by_str_key("1")), Some(10), "a segment of digits is a position");
}

#[test]
fn a_path_to_nothing_addresses_nothing() {
    let tree = example();
    for path in ["missing", "counts.2", "counts.x", "ev.0", "counts..1", "counts.", ".counts", "99999999999999999999999"] {
        assert!(tree.get_by_str_key(path).is_none(), "{path:?}");
    }
    assert!(tree.get_by_str_key("").is_some(), "the empty path is the whole tree");
}

#[test]
fn a_position_counts_back_from_the_end_when_negative() {
    let tree = example();
    assert_eq!(leaf(tree.child_at_position(-1).ok()), Some(10));
    assert_eq!(tree.child_at_position(-2).unwrap().child_count(), 2);
    assert_eq!(leaf(tree.child_at_position(1).ok()), Some(10));
    let err = tree.child_at_position(2).unwrap_err();
    assert_eq!(err, PositionError { position: 2, children: 2 });
    assert_eq!(err.to_string(), "position 2 addresses nothing in a data tree with 2 children");
    assert_eq!(
        tree.child_at_position(-3).unwrap_err().to_string(),
        "position -3 addresses nothing in a data tree with 2 children"
    );
    assert_eq!(
        DataTree::new_leaf(1).child_at_position(isize::MIN).unwrap_err().to_string(),
        format!("position {} addresses nothing in a data tree with 0 children", isize::MIN)
    );
}

#[test]
fn only_a_branch_naming_its_children_has_a_mapping_form() {
    let tree = example();
    assert_eq!(tree.is_mapping(), Ok(true));
    assert_eq!(tree.keys(), Ok(vec!["counts".to_string(), "ev".to_string()]));

    let counts = tree.get_by_str_key("counts").unwrap();
    assert_eq!(counts.is_mapping(), Ok(false));
    assert_eq!(counts.keys(), Err(FormError::UnnamedChildren));

    let single = DataTree::new_leaf(0);
    assert!(single.is_leaf() && !tree.is_leaf());
    assert_eq!(single.is_mapping(), Ok(false));
    assert_eq!(single.keys().unwrap_err().to_string(), "a leaf of a data tree has no mapping form");
    assert_eq!(single.leaf_value(), Ok(&0));
    assert_eq!(tree.leaf_value().unwrap_err().to_string(), "a branch of a data tree has no leaf value");

    let mut mixed = DataTree::new();
    mixed.insert_leaf("a", 1);
    mixed.push_leaf(2);
    assert_eq!(mixed.is_mapping(), Err(FormError::MixedChildren));
    assert_eq!(
        mixed.keys().unwrap_err().to_string(),
        "a data tree branch mixing named and unnamed children has neither a mapping form nor a sequence form"
    );
    assert_eq!(DataTree::<u8>::new().is_mapping(), Ok(true));
    assert_eq!(DataTree::<u8>::new().keys(), Ok(vec![]));
}

#[test]
fn every_leaf_is_addressed_by_its_dotted_path() {
    let mut inner = DataTree::new();
    inner.push_leaf(30);
    inner.insert_leaf("d", 40);
    let mut deep = DataTree::new();
    deep.push_leaf(60);
    inner.push_branch(deep);
    let mut tree = DataTree::new();
    tree.insert_leaf("a", 10);
    tree.push_leaf(20);
    tree.push_branch(inner);
    tree.insert_leaf("e", 50);
    let paths = tree.dotted_paths();
    assert_eq!(paths, vec!["a", "1", "2.0", "2.d", "2.2.0", "e"]);
    let leaves: Vec<i64> = tree.leaf_refs().into_iter().copied().collect();
    for (path, value) in paths.iter().zip(leaves) {
        assert_eq!(leaf(tree.get_by_str_key(path)), Some(value), "{path}");
    }
}

#[test]
fn a_name_with_a_dot_or_of_all_digits_is_unreachable() {
    for name in ["counts", "ev", "a1", "1a", "_", "x y"] {
        assert!(is_reachable_name(name), "{name:?}");
    }
    for name in ["", "a.b", ".", "0", "12", "007"] {
        assert!(!is_reachable_name(name), "{name:?}");
    }
}
