use qiskit_providers::data_tree::DataTree;
use qiskit_providers::program_node::{
    missing_call_text, output_leaf_types, CallError, CallInputError, MissingCallError, ProgramNode, ProgramNodeExt,
};
use qiskit_providers::tensor::{DType, DTypeLike, Dim, Tensor, TensorType};

/// A node whose output types do not depend on its inputs: it resolves its output template.
struct FixedNode;

impl ProgramNode for FixedNode {
    type CallError = MissingCallError;
    fn name(&self) -> &str {
        "fixed"
    }
    fn namespace(&self) -> &str {
        "test"
    }
    fn input_types(&self) -> DataTree<TensorType> {
        DataTree::new_leaf(TensorType {
            dtype: DTypeLike::Concrete(DType::F64),
            shape: vec![Dim::Fixed(3)],
            broadcastable: false,
        })
    }
    fn output_types(&self) -> DataTree<TensorType> {
        DataTree::new_leaf(TensorType {
            dtype: DTypeLike::Concrete(DType::Bit),
            shape: vec![Dim::Fixed(5)],
            broadcastable: false,
        })
    }
    fn implements_call(&self) -> bool {
        false
    }
    fn call_flat(&self, _args: &[Tensor]) -> Result<Vec<Tensor>, MissingCallError> {
        Err(MissingCallError::new(self.full_name()))
    }
    fn resolve_types_flat(&self, _input_types: &[TensorType]) -> Result<Vec<TensorType>, MissingCallError> {
        Ok(output_leaf_types(self))
    }
}

#[test]
fn test_default_resolve_types_flat_returns_output_types() {
    let node = FixedNode;
    let input = TensorType {
        dtype: DTypeLike::Concrete(DType::F64),
        shape: vec![Dim::Fixed(999)],
        broadcastable: false,
    };
    let result = node.resolve_types_flat(&[input]).unwrap();
    assert_eq!(result.len(), 1);
    assert!(matches!(result[0].dtype, DTypeLike::Concrete(DType::Bit)));
    assert_eq!(result[0].shape, vec![Dim::Fixed(5)]);
}

#[test]
fn test_default_resolve_types_tree_wrapper() {
    let node = FixedNode;
    let input = DataTree::new_leaf(TensorType {
        dtype: DTypeLike::Concrete(DType::F64),
        shape: vec![Dim::Fixed(3)],
        broadcastable: false,
    });
    let result = node.resolve_types(&input).unwrap();
    let leaf = result.unwrap_leaf();
    assert!(matches!(leaf.dtype, DTypeLike::Concrete(DType::Bit)));
    assert_eq!(leaf.shape, vec![Dim::Fixed(5)]);
}

#[test]
fn test_resolve_types_input_mismatch_errors() {
    let node = FixedNode;
    // A branch where a leaf is expected.
    let mut input = DataTree::new();
    input.insert_leaf(
        "a",
        TensorType {
            dtype: DTypeLike::Concrete(DType::F64),
            shape: vec![],
            broadcastable: false,
        },
    );
    let err = node.resolve_types(&input).unwrap_err();
    assert!(matches!(
        err,
        CallError::Input(CallInputError::ExpectedLeaf { ref key }) if key.is_empty()
    ));
}

#[test]
fn a_missing_child_is_reported_by_its_path() {
    struct Pair;
    impl ProgramNode for Pair {
        type CallError = MissingCallError;
        fn name(&self) -> &str {
            "pair"
        }
        fn namespace(&self) -> &str {
            "test"
        }
        fn input_types(&self) -> DataTree<TensorType> {
            let mut t = DataTree::new();
            t.insert_leaf("x", TensorType { dtype: DTypeLike::Concrete(DType::F64), shape: vec![], broadcastable: true });
            t.insert_leaf("y", TensorType { dtype: DTypeLike::Concrete(DType::F64), shape: vec![], broadcastable: true });
            t
        }
        fn output_types(&self) -> DataTree<TensorType> {
            DataTree::new()
        }
        fn implements_call(&self) -> bool {
            false
        }
        fn call_flat(&self, _args: &[Tensor]) -> Result<Vec<Tensor>, MissingCallError> {
            Err(MissingCallError::new(self.full_name()))
        }
        fn resolve_types_flat(&self, _input_types: &[TensorType]) -> Result<Vec<TensorType>, MissingCallError> {
            Ok(output_leaf_types(self))
        }
    }
    let mut input = DataTree::new();
    input.insert_leaf("x", TensorType { dtype: DTypeLike::Concrete(DType::F64), shape: vec![], broadcastable: true });
    let err = Pair.resolve_types(&input).unwrap_err();
    assert!(matches!(err, CallError::Input(CallInputError::MissingInput { ref key }) if key == "y"));
    assert_eq!(Pair.full_name(), "test.pair");
}

#[test]
fn a_missing_call_names_the_node_in_quotes() {
    let e = MissingCallError::new("qiskit.shot_loop".to_string());
    assert_eq!(e, MissingCallError("qiskit.shot_loop".to_string()));
    assert_eq!(e.to_string(), "node \"qiskit.shot_loop\" does not implement call()");
}

#[test]
fn a_missing_call_writes_the_name_as_its_debug_form() {
    let name = "a\"b\\c\nd\te\r\u{1}\u{1f}\u{7f}\0\u{ad}\u{200b}\u{301}é'q";
    let e = MissingCallError::new(name.to_string());
    assert_eq!(e.to_string(), format!("node {:?} does not implement call()", name));
}

#[test]
fn a_node_reports_its_missing_call_by_full_name() {
    let err = FixedNode.call(&DataTree::new_leaf(Tensor::new(DType::F64, vec![3], vec![0, 0, 0]).unwrap())).unwrap_err();
    assert!(matches!(err, CallError::Call(MissingCallError(ref name)) if name == "test.fixed"));
}

#[test]
fn a_missing_call_escapes_invisible_characters_of_the_name() {
    let e = MissingCallError::new("x\u{200b}y\u{ad}".to_string());
    assert_eq!(e.to_string(), "node \"x\\u{200b}y\\u{ad}\" does not implement call()");
}

#[test]
fn the_message_wraps_the_debug_form_it_is_given() {
    assert_eq!(missing_call_text("\"n\""), "node \"n\" does not implement call()");
}
