use qiskit_providers::data_tree::DataTree;
use qiskit_providers::keywords::{check_keywords, keyword_inputs, name_list};
use qiskit_providers::tensor::{DType, DTypeLike, Dim, TensorType};

fn f64_type(shape: &[usize]) -> TensorType {
    TensorType {
        dtype: DTypeLike::Concrete(DType::F64),
        shape: shape.iter().copied().map(Dim::Fixed).collect(),
        broadcastable: false,
    }
}

fn strings(names: &[&str]) -> Vec<String> {
    names.iter().map(|n| n.to_string()).collect()
}

#[test]
fn keyword_inputs_lists_named_leaves_in_order() {
    let mut declared = DataTree::new();
    declared.insert_leaf("theta", f64_type(&[2]));
    declared.insert_leaf("phi", f64_type(&[]));
    assert_eq!(
        keyword_inputs(&declared),
        Some(vec![("theta".to_string(), f64_type(&[2])), ("phi".to_string(), f64_type(&[]))])
    );
    assert_eq!(keyword_inputs(&DataTree::<TensorType>::new()), Some(vec![]));
}

#[test]
fn keyword_inputs_refuses_a_leaf_a_position_or_a_nested_branch() {
    assert_eq!(keyword_inputs(&DataTree::new_leaf(f64_type(&[1]))), None);

    let mut positional = DataTree::new();
    positional.insert_leaf("a", f64_type(&[1]));
    positional.push_leaf(f64_type(&[1]));
    assert_eq!(keyword_inputs(&positional), None);

    let mut inner = DataTree::new();
    inner.insert_leaf("x", f64_type(&[1]));
    let mut nested = DataTree::Branch(vec![(Some("outer".to_string()), inner)]);
    assert_eq!(keyword_inputs(&nested), None);
    nested.insert_leaf("b", f64_type(&[1]));
    assert_eq!(keyword_inputs(&nested), None);
}

#[test]
fn check_keywords_accepts_the_declared_inputs_in_any_order() {
    assert_eq!(check_keywords(&strings(&["a", "b"]), &strings(&["b", "a"])), Ok(()));
    assert_eq!(check_keywords(&[], &[]), Ok(()));
}

#[test]
fn check_keywords_names_what_is_missing_and_what_is_unexpected() {
    assert_eq!(
        check_keywords(&strings(&["a", "b", "c"]), &strings(&["c", "d", "e"])),
        Err("this program takes inputs ['a', 'b', 'c']; missing ['a', 'b'], unexpected ['d', 'e']".to_string())
    );
    assert_eq!(
        check_keywords(&strings(&["a"]), &[]),
        Err("this program takes inputs ['a']; missing ['a'], unexpected []".to_string())
    );
    assert_eq!(
        check_keywords(&[], &strings(&["z"])),
        Err("this program takes inputs []; missing [], unexpected ['z']".to_string())
    );
}

#[test]
fn name_lists_quote_each_name() {
    assert_eq!(name_list(&[]), "[]");
    assert_eq!(name_list(&strings(&["x"])), "['x']");
    assert_eq!(name_list(&strings(&["x", "y z"])), "['x', 'y z']");
}
