//! Trees out of source text.
use xia::ast::{BinOp, ElemType, ExprKind, Stmt, Type};
use xia::parser::parse;


#[test]
fn parses_simple_function() {
    let src = "fn main() -> int:\n    return 0\n";
    let prog = parse(src).unwrap();
    assert_eq!(prog.functions.len(), 1);
    let f = &prog.functions[0];
    assert_eq!(f.name, "main");
    assert_eq!(f.ret, Type::Int);
    assert!(matches!(f.body[0], Stmt::Return { .. }));
}

#[test]
fn parses_params_and_let() {
    let src = "fn add(a: int, b: int) -> int:\n    let c = a + b\n    return c\n";
    let prog = parse(src).unwrap();
    let f = &prog.functions[0];
    assert_eq!(f.params.len(), 2);
    assert!(matches!(&f.body[0], Stmt::Let { name, .. } if name == "c"));
}

#[test]
fn precedence_mul_over_add() {
    let src = "fn f() -> int:\n    return 1 + 2 * 3\n";
    let prog = parse(src).unwrap();
    let Stmt::Return { value: Some(e), .. } = &prog.functions[0].body[0] else {
        panic!("expected return");
    };
    // Must parse as 1 + (2 * 3)
    let ExprKind::Binary(_, BinOp::Add, rhs) = &e.kind else {
        panic!("expected top-level add, got {:?}", e.kind);
    };
    assert!(matches!(&rhs.kind, ExprKind::Binary(_, BinOp::Mul, _)));
}

#[test]
fn parses_if_elif_else() {
    let src = "fn f(x: int) -> int:\n    if x > 0:\n        return 1\n    elif x < 0:\n        return -1\n    else:\n        return 0\n";
    let prog = parse(src).unwrap();
    let Stmt::If { else_block: Some(else_b), .. } = &prog.functions[0].body[0] else {
        panic!("expected if with else");
    };
    // elif desugars to a nested If inside else_block
    assert!(matches!(&else_b[0], Stmt::If { .. }));
}

#[test]
fn parses_while_with_nested_block() {
    let src = "fn f() :\n    while true:\n        if false:\n            break\n        continue\n";
    let prog = parse(src).unwrap();
    let Stmt::While { body, .. } = &prog.functions[0].body[0] else {
        panic!("expected while");
    };
    assert_eq!(body.len(), 2);
}

#[test]
fn parses_extern_varargs() {
    let src = "extern fn printf(fmt: str, ...) -> int\nfn main() -> int:\n    printf(\"hi\\n\")\n    return 0\n";
    let prog = parse(src).unwrap();
    let e = &prog.externs[0];
    assert_eq!(e.name, "printf");
    assert!(e.varargs);
    assert_eq!(e.params, vec![Type::Str]);
    assert_eq!(e.ret, Type::Int);
}

#[test]
fn parses_call_with_args() {
    let src = "fn main():\n    let x = add(1, mul(2, 3))\n";
    let prog = parse(src).unwrap();
    let Stmt::Let { value, .. } = &prog.functions[0].body[0] else {
        panic!("expected let");
    };
    let ExprKind::Call(name, args) = &value.kind else {
        panic!("expected call");
    };
    assert_eq!(name, "add");
    assert_eq!(args.len(), 2);
    assert!(matches!(&args[1].kind, ExprKind::Call(n, _) if n == "mul"));
}

#[test]
fn parses_array_literal_type_and_indexing() {
    let src = "fn f():\n    let xs: [int] = [1, 2, 3]\n    let y = xs[0]\n";
    let prog = parse(src).unwrap();
    let Stmt::Let { ty, value, .. } = &prog.functions[0].body[0] else {
        panic!("expected let");
    };
    assert_eq!(*ty, Some(Type::Array(ElemType::Int, 1)));
    let ExprKind::ArrayLit(elems) = &value.kind else {
        panic!("expected array literal");
    };
    assert_eq!(elems.len(), 3);
    let Stmt::Let { value, .. } = &prog.functions[0].body[1] else {
        panic!("expected let");
    };
    assert!(matches!(&value.kind, ExprKind::Index(..)));
}

#[test]
fn parses_index_assignment() {
    let src = "fn f(xs: [str]):\n    xs[1] = \"two\"\n";
    let prog = parse(src).unwrap();
    assert_eq!(prog.functions[0].params[0].ty, Type::Array(ElemType::Str, 1));
    assert!(matches!(
        &prog.functions[0].body[0],
        Stmt::IndexAssign { .. }
    ));
}

#[test]
fn rejects_bad_assignment_target() {
    assert!(parse("fn f():\n    f() = 1\n").is_err());
}

#[test]
fn fstring_desugars_to_concat_with_str_calls() {
    let src = "fn f(x: int):\n    let s = f\"a {x}!\"\n    print(s)\n";
    let prog = parse(src).unwrap();
    let Stmt::Let { value, .. } = &prog.functions[0].body[0] else {
        panic!("expected let");
    };
    // ("a " + str(x)) + "!"
    let ExprKind::Binary(lhs, BinOp::Add, rhs) = &value.kind else {
        panic!("expected concat, got {:?}", value.kind);
    };
    assert!(matches!(&rhs.kind, ExprKind::Str(s) if s == "!"));
    let ExprKind::Binary(a, BinOp::Add, b) = &lhs.kind else {
        panic!("expected nested concat");
    };
    assert!(matches!(&a.kind, ExprKind::Str(s) if s == "a "));
    assert!(matches!(&b.kind, ExprKind::Call(n, _) if n == "str"));
}

#[test]
fn fstring_brace_escapes_and_errors() {
    let src = "fn f():\n    print(f\"{{x}}\")\n";
    let prog = parse(src).unwrap();
    let Stmt::Expr(e) = &prog.functions[0].body[0] else { panic!() };
    let ExprKind::Call(_, args) = &e.kind else { panic!() };
    assert!(matches!(&args[0].kind, ExprKind::Str(s) if s == "{x}"));

    assert!(parse("fn f():\n    print(f\"{}\")\n").is_err());
    assert!(parse("fn f():\n    print(f\"{x\")\n").is_err());
    assert!(parse("fn f():\n    print(f\"x}\")\n").is_err());
}

#[test]
fn parses_struct_decl_and_field_access() {
    let src = "struct Point:\n    x: int\n    y: int\nfn f(p: Point) -> int:\n    p.x = 5\n    return p.x + p.y\n";
    let prog = parse(src).unwrap();
    assert_eq!(prog.structs.len(), 1);
    assert_eq!(prog.structs[0].name, "Point");
    assert_eq!(prog.structs[0].fields.len(), 2);
    assert_eq!(prog.functions[0].params[0].ty, Type::Struct(0));
    assert!(matches!(
        &prog.functions[0].body[0],
        Stmt::FieldAssign { field, .. } if field == "x"
    ));
}

#[test]
fn struct_types_resolve_in_any_order() {
    let src = "fn f(p: Point) -> int:\n    return p.x\nstruct Point:\n    x: int\n";
    assert!(parse(src).is_ok());
}

#[test]
fn struct_errors() {
    assert!(parse("struct P:\n    x: int\n    x: int\n").is_err(), "dup field");
    assert!(parse("struct P:\n    x: int\nstruct P:\n    y: int\n").is_err(), "dup struct");
    assert!(parse("fn f(p: Nope) -> int:\n    return 0\n").is_err(), "unknown type");
}

#[test]
fn parses_for_range_two_args() {
    let src = "fn f():\n    for i in range(1, 10):\n        print(i)\n";
    let prog = parse(src).unwrap();
    let Stmt::For { var, start, end, body, .. } = &prog.functions[0].body[0] else {
        panic!("expected for");
    };
    assert_eq!(var, "i");
    assert!(matches!(start.kind, ExprKind::Int(1)));
    assert!(matches!(end.kind, ExprKind::Int(10)));
    assert_eq!(body.len(), 1);
}

#[test]
fn for_range_one_arg_starts_at_zero() {
    let src = "fn f():\n    for i in range(5):\n        print(i)\n";
    let prog = parse(src).unwrap();
    let Stmt::For { start, end, .. } = &prog.functions[0].body[0] else {
        panic!("expected for");
    };
    assert!(matches!(start.kind, ExprKind::Int(0)));
    assert!(matches!(end.kind, ExprKind::Int(5)));
}

#[test]
fn for_over_array_parses_as_foreach() {
    let src = "fn f(items: [str]):\n    for x in items:\n        print(x)\n";
    let prog = parse(src).unwrap();
    let Stmt::ForEach { var, iterable, .. } = &prog.functions[0].body[0] else {
        panic!("expected foreach");
    };
    assert_eq!(var, "x");
    assert!(matches!(&iterable.kind, ExprKind::Var(n) if n == "items"));
}

#[test]
fn range_arity_checked() {
    assert!(parse("fn f():\n    for i in range(1, 2, 3):\n        print(i)\n").is_err());
}

#[test]
fn error_on_missing_colon() {
    let src = "fn main()\n    return 0\n";
    assert!(parse(src).is_err());
}

#[test]
fn error_on_statement_at_top_level() {
    let src = "let x = 1\n";
    assert!(parse(src).is_err());
}
