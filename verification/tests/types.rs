//! Types and declarations.
use xia::ast::{ElemType, EnumDef, Function, Param, Program, StructDef, Type, VariantDef};
use xia::parser::nested_array;

#[test]
fn arrays_stack_and_peel() {
    let row = Type::array_of(Type::Int).unwrap();
    assert_eq!(row, Type::Array(ElemType::Int, 1));
    let grid = Type::array_of(row).unwrap();
    assert_eq!(grid, Type::Array(ElemType::Int, 2));
    assert_eq!(grid.array_elem(), Some(row));
    assert_eq!(row.array_elem(), Some(Type::Int));
    assert_eq!(Type::Int.array_elem(), None);
    assert_eq!(Type::array_of(Type::Unit), None);
    assert_eq!(nested_array(Type::Array(ElemType::Int, 255)), None);
    assert_eq!(nested_array(grid), Some(Type::Array(ElemType::Int, 3)));
}

#[test]
fn bases_and_types_determine_each_other() {
    for base in [
        ElemType::Int,
        ElemType::Float,
        ElemType::Bool,
        ElemType::Str,
        ElemType::Struct(3),
        ElemType::Enum(4),
    ] {
        assert_eq!(ElemType::from_type(base.to_type()), Some(base));
    }
    assert_eq!(ElemType::from_type(Type::Unit), None);
    assert_eq!(ElemType::from_type(Type::Array(ElemType::Int, 1)), None);
}

#[test]
fn heap_types_are_counted() {
    assert!(Type::Str.is_heap());
    assert!(Type::Array(ElemType::Int, 1).is_heap());
    assert!(Type::Struct(0).is_heap());
    assert!(Type::Enum(0).is_heap());
    assert!(!Type::Int.is_heap());
    assert!(!Type::Float.is_heap());
    assert!(!Type::Bool.is_heap());
    assert!(!Type::Unit.is_heap());
}

#[test]
fn types_show_themselves() {
    assert_eq!(Type::Array(ElemType::Str, 2).to_text(), "[[str]]");
    assert_eq!(Type::Struct(7).to_text(), "struct#7");
    assert_eq!(Type::Unit.to_text(), "unit");
    assert_eq!(ElemType::Enum(12).to_text(), "enum#12");
}

#[test]
fn fields_and_variants_are_found_by_name() {
    let s = StructDef {
        name: "P".into(),
        fields: vec![
            Param { name: "x".into(), ty: Type::Int },
            Param { name: "y".into(), ty: Type::Str },
        ],
        line: 1,
    };
    assert_eq!(s.field("y"), Some((1, Type::Str)));
    assert_eq!(s.field("z"), None);
    let e = EnumDef {
        name: "E".into(),
        variants: vec![
            VariantDef { name: "A".into(), fields: vec![] },
            VariantDef { name: "B".into(), fields: vec![Type::Int] },
        ],
        line: 1,
    };
    assert_eq!(e.variant("B"), Some(1));
    assert_eq!(e.variant("C"), None);
    assert_eq!(Function::method_symbol("P", "get"), "P.get");
    assert!(Program::default().functions.is_empty());
}
