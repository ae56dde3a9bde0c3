use qiskit_providers::tensor::{DType, DTypeLike, Dim, TensorType, type_string};

#[test]
fn dtype_names_parse_to_their_element_types() {
    let cases = [
        ("c128", DType::C128),
        ("c64", DType::C64),
        ("f64", DType::F64),
        ("f32", DType::F32),
        ("i64", DType::I64),
        ("i32", DType::I32),
        ("i16", DType::I16),
        ("i8", DType::I8),
        ("u64", DType::U64),
        ("u32", DType::U32),
        ("u16", DType::U16),
        ("u8", DType::U8),
        ("bit", DType::Bit),
    ];
    for (name, dtype) in cases {
        assert_eq!(DType::parse(name), Some(dtype), "{name}");
    }
}

#[test]
fn unknown_dtype_names_are_refused() {
    for name in ["F64", "float", "", "bool", "f16", " f64"] {
        assert_eq!(DType::parse(name), None, "{name:?}");
    }
}

#[test]
fn dtypes_display_by_their_variant_names() {
    assert_eq!(DType::U16.to_string(), "U16");
    assert_eq!(DType::C64.name(), "C64");
    assert_eq!(DType::Bit.name(), "Bit");
    let ty = TensorType {
        dtype: DTypeLike::Concrete(DType::I8),
        shape: vec![Dim::Fixed(4), Dim::Named("n".to_string())],
        broadcastable: false,
    };
    assert_eq!(type_string(&ty), "I8[4, n]");
}
