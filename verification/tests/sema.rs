//! Type checking.
use xia::ast::{ElemType, ExprKind, Program, Stmt, Type};
use xia::parser::parse;
use xia::sema::Analyzer;


fn analyze(src: &str) -> Result<Program, String> {
    let mut prog = parse(src).map_err(|e| e.to_text())?;
    Analyzer::new()
        .analyze(&mut prog)
        .map_err(|e| e.to_text())?;
    Ok(prog)
}

#[test]
fn infers_let_types() {
    let prog = analyze("fn main() -> int:\n    let x = 1 + 2\n    return x\n").unwrap();
    let Stmt::Let { ty, .. } = &prog.functions[0].body[0] else {
        panic!()
    };
    assert_eq!(*ty, Some(Type::Int));
}

#[test]
fn rejects_type_mismatch() {
    assert!(analyze("fn main():\n    let x = 1 + 2.0\n").is_err());
    assert!(analyze("fn main():\n    let x: float = 1\n").is_err());
    assert!(analyze("fn main() -> int:\n    return true\n").is_err());
}

#[test]
fn rejects_undefined_names() {
    assert!(analyze("fn main():\n    let x = y\n").is_err());
    assert!(analyze("fn main():\n    foo()\n").is_err());
}

#[test]
fn rejects_non_bool_condition() {
    assert!(analyze("fn main():\n    if 1:\n        return\n").is_err());
    assert!(analyze("fn main():\n    while 1.5:\n        return\n").is_err());
}

#[test]
fn scoping_blocks_shadow_and_expire() {
    // y defined in if-block is not visible after it
    assert!(
        analyze("fn main():\n    if true:\n        let y = 1\n    let z = y\n").is_err()
    );
}

#[test]
fn checks_extern_calls() {
    let src = "extern fn printf(fmt: str, ...) -> int\nfn main() -> int:\n    printf(\"%d\\n\", 42)\n    return 0\n";
    assert!(analyze(src).is_ok());
    // wrong first arg type
    let bad = "extern fn printf(fmt: str, ...) -> int\nfn main() -> int:\n    printf(1)\n    return 0\n";
    assert!(analyze(bad).is_err());
}

#[test]
fn for_range_bounds_must_be_int() {
    assert!(analyze("fn main():\n    for i in range(1.5):\n        print(i)\n").is_err());
    assert!(analyze("fn main():\n    for i in range(0, true):\n        print(i)\n").is_err());
}

#[test]
fn for_var_scoped_to_loop_and_allows_break() {
    assert!(analyze("fn main():\n    for i in range(3):\n        print(i)\n    print(i)\n").is_err());
    assert!(analyze("fn main():\n    for i in range(3):\n        break\n").is_ok());
}

#[test]
fn foreach_var_has_element_type() {
    let prog = analyze(
        "fn main():\n    let xs = [\"a\", \"b\"]\n    for s in xs:\n        print(s + \"!\")\n",
    )
    .unwrap();
    let Stmt::ForEach { iterable, .. } = &prog.functions[0].body[1] else {
        panic!()
    };
    assert_eq!(iterable.ty, Some(Type::Array(ElemType::Str, 1)));
    // iterating a non-array is rejected
    assert!(analyze("fn main():\n    for x in 5:\n        print(x)\n").is_err());
    assert!(analyze("fn main():\n    for c in \"abc\":\n        print(c)\n").is_err());
}

#[test]
fn break_outside_loop_rejected() {
    assert!(analyze("fn main():\n    break\n").is_err());
}

#[test]
fn array_literal_infers_and_checks() {
    let prog =
        analyze("fn main():\n    let xs = [1, 2, 3]\n    print(xs[0] + 1)\n").unwrap();
    let Stmt::Let { ty, .. } = &prog.functions[0].body[0] else {
        panic!()
    };
    assert_eq!(*ty, Some(Type::Array(ElemType::Int, 1)));
    assert!(analyze("fn main():\n    let xs = [1, true]\n").is_err());
    assert!(analyze("fn main():\n    let xs = [1]\n    let y = xs[true]\n").is_err());
}

#[test]
fn nested_arrays_infer_and_peel_dimensions() {
    // A literal of arrays infers an extra dimension.
    let prog = analyze(
        "fn main():\n    let g = [[1, 2], [3, 4]]\n    print(g[0][1])\n",
    )
    .unwrap();
    let Stmt::Let { ty, .. } = &prog.functions[0].body[0] else {
        panic!()
    };
    assert_eq!(*ty, Some(Type::Array(ElemType::Int, 2)));
    // indexing once yields a [int], twice an int
    assert!(
        analyze("fn main():\n    let g = [[1]]\n    let r: [int] = g[0]\n    print(r[0])\n")
            .is_ok()
    );
    // a row of the wrong base type is rejected
    assert!(analyze("fn main():\n    let g = [[1], [\"a\"]]\n").is_err());
    // pushing a mismatched row is rejected
    assert!(
        analyze("fn main():\n    let g: [[int]] = []\n    push(g, [\"a\"])\n").is_err()
    );
    // a whole nested array still isn't printable
    assert!(analyze("fn main():\n    let g = [[1]]\n    print(g)\n").is_err());
}

#[test]
fn empty_array_needs_annotation() {
    assert!(analyze("fn main():\n    let xs = []\n").is_err());
    assert!(
        analyze("fn main():\n    let xs: [str] = []\n    push(xs, \"a\")\n    print(len(xs))\n")
            .is_ok()
    );
}

#[test]
fn push_and_len_builtins_type_check() {
    assert!(analyze("fn main():\n    let xs = [1]\n    push(xs, \"a\")\n").is_err());
    assert!(analyze("fn main():\n    push(1, 2)\n").is_err());
    assert!(analyze("fn main():\n    print(len(\"abc\"))\n").is_ok());
    assert!(analyze("fn main():\n    print(len(5))\n").is_err());
}

#[test]
fn pop_find_and_string_indexing() {
    let prog = analyze(
        "fn main():\n    let s = \"abc\"\n    print(s[0])\n    print(find(s, \"b\"))\n    let xs = [1, 2]\n    print(pop(xs))\n",
    )
    .unwrap();
    let Stmt::Expr(e) = &prog.functions[0].body[1] else { panic!() };
    let ExprKind::Call(_, args) = &e.kind else { panic!() };
    assert_eq!(args[0].ty, Some(Type::Str), "s[i] is a str");
    // rejections
    assert!(analyze("fn main():\n    print(pop(\"abc\"))\n").is_err());
    assert!(analyze("fn main():\n    print(find(1, \"a\"))\n").is_err());
    assert!(analyze("fn main():\n    let s = \"abc\"\n    s[0] = \"x\"\n").is_err());
}

#[test]
fn arrays_not_printable_or_comparable() {
    assert!(analyze("fn main():\n    let xs = [1]\n    print(xs)\n").is_err());
    assert!(
        analyze("fn main():\n    let a = [1]\n    let b = [1]\n    let e = a == b\n").is_err()
    );
}

#[test]
fn index_assign_checks_types() {
    assert!(analyze("fn main():\n    let xs = [1]\n    xs[0] = 2\n").is_ok());
    assert!(analyze("fn main():\n    let xs = [1]\n    xs[0] = \"s\"\n").is_err());
    assert!(analyze("fn main():\n    let s = \"x\"\n    s[0] = \"y\"\n").is_err());
}

#[test]
fn str_builtin_and_fstrings_type_check() {
    assert!(analyze("fn main():\n    print(str(42) + str(1.5) + str(true))\n").is_ok());
    let prog = analyze("fn main():\n    let s = f\"n = {1 + 2}\"\n    print(s)\n").unwrap();
    let Stmt::Let { ty, .. } = &prog.functions[0].body[0] else {
        panic!()
    };
    assert_eq!(*ty, Some(Type::Str));
    // arrays can't be converted/interpolated
    assert!(analyze("fn main():\n    let xs = [1]\n    print(f\"{xs}\")\n").is_err());
    assert!(analyze("fn f():\n    return\nfn main():\n    print(str(f()))\n").is_err());
}

#[test]
fn string_concat_types_as_str() {
    let prog =
        analyze("fn main():\n    let s = \"a\" + \"b\"\n    print(s)\n").unwrap();
    let Stmt::Let { ty, .. } = &prog.functions[0].body[0] else {
        panic!()
    };
    assert_eq!(*ty, Some(Type::Str));
}

#[test]
fn struct_constructor_and_fields_type_check() {
    let src = "struct Point:\n    x: int\n    y: int\nfn main():\n    let p = Point(1, 2)\n    print(p.x + p.y)\n";
    let prog = analyze(src).unwrap();
    let Stmt::Let { ty, .. } = &prog.functions[0].body[0] else {
        panic!()
    };
    assert_eq!(*ty, Some(Type::Struct(0)));

    // wrong arity
    assert!(
        analyze("struct P:\n    x: int\n    y: int\nfn main():\n    let p = P(1)\n").is_err(),
        "too few fields"
    );
    // wrong field type
    assert!(
        analyze("struct P:\n    x: int\nfn main():\n    let p = P(true)\n").is_err(),
        "field type mismatch"
    );
    // unknown field access
    assert!(
        analyze("struct P:\n    x: int\nfn main():\n    let p = P(1)\n    print(p.z)\n")
            .is_err(),
        "unknown field"
    );
    // field assignment is type-checked
    assert!(
        analyze("struct P:\n    x: int\nfn main():\n    let p = P(1)\n    p.x = \"s\"\n")
            .is_err(),
        "field assign type mismatch"
    );
}

#[test]
fn structs_not_printable_or_comparable() {
    assert!(
        analyze("struct P:\n    x: int\nfn main():\n    let p = P(1)\n    print(p)\n").is_err(),
        "struct not printable"
    );
    assert!(
        analyze(
            "struct P:\n    x: int\nfn main():\n    let a = P(1)\n    let b = P(1)\n    let e = a == b\n"
        )
        .is_err(),
        "struct not comparable"
    );
    // and a struct can't be str()'d or interpolated
    assert!(
        analyze("struct P:\n    x: int\nfn main():\n    let p = P(1)\n    print(str(p))\n")
            .is_err()
    );
}

#[test]
fn methods_type_check_and_dispatch_on_receiver() {
    let src = "struct Point:\n    x: int\n    y: int\nfn (p: Point) area() -> int:\n    return p.x * p.y\nfn main() -> int:\n    let p = Point(3, 4)\n    return p.area()\n";
    let prog = analyze(src).unwrap();
    // the call resolves to int
    let Stmt::Return { value: Some(e), .. } = &prog.functions[1].body[1] else {
        panic!()
    };
    assert_eq!(e.ty, Some(Type::Int));

    // method args are checked
    let with_arg = "struct V:\n    n: int\nfn (v: V) plus(k: int) -> int:\n    return v.n + k\nfn main() -> int:\n    let v = V(1)\n    return v.plus(2)\n";
    assert!(analyze(with_arg).is_ok());
    // wrong arg type
    assert!(
        analyze("struct V:\n    n: int\nfn (v: V) plus(k: int) -> int:\n    return v.n + k\nfn main() -> int:\n    let v = V(1)\n    return v.plus(true)\n")
            .is_err(),
        "arg type mismatch"
    );
    // wrong arity
    assert!(
        analyze("struct V:\n    n: int\nfn (v: V) plus(k: int) -> int:\n    return v.n + k\nfn main() -> int:\n    let v = V(1)\n    return v.plus()\n")
            .is_err(),
        "arity mismatch"
    );
}

#[test]
fn calling_unknown_method_or_on_non_struct_rejected() {
    // unknown method on a struct
    assert!(
        analyze("struct P:\n    x: int\nfn main():\n    let p = P(1)\n    p.nope()\n").is_err(),
        "unknown method"
    );
    // method call on a non-struct
    assert!(
        analyze("fn main():\n    let n = 5\n    n.area()\n").is_err(),
        "non-struct receiver"
    );
}

#[test]
fn same_method_name_on_different_structs_is_fine() {
    let src = "struct A:\n    n: int\nstruct B:\n    n: int\nfn (a: A) get() -> int:\n    return a.n\nfn (b: B) get() -> int:\n    return b.n + 1\nfn main() -> int:\n    let a = A(1)\n    let b = B(1)\n    return a.get() + b.get()\n";
    assert!(analyze(src).is_ok());
    // a duplicate method on the same struct is rejected
    assert!(
        analyze("struct A:\n    n: int\nfn (a: A) get() -> int:\n    return a.n\nfn (a: A) get() -> int:\n    return 0\nfn main():\n    return\n")
            .is_err(),
        "duplicate method"
    );
}

#[test]
fn method_receiver_must_be_a_struct() {
    // a method can't be declared on a builtin type
    assert!(parse("fn (x: int) f() -> int:\n    return x\n").is_ok(), "parses fine");
    assert!(
        analyze("fn (x: int) f() -> int:\n    return x\nfn main():\n    return\n").is_err(),
        "non-struct receiver rejected by sema"
    );
}

#[test]
fn enum_construction_and_match_type_check() {
    let src = "enum Opt:\n    Some(int)\n    None\nfn unwrap(o: Opt) -> int:\n    match o:\n        Some(n):\n            return n\n        None:\n            return -1\nfn main() -> int:\n    return unwrap(Some(7)) + unwrap(None)\n";
    let prog = analyze(src).unwrap();
    // `Some(7)` is rewritten to an EnumInit with the enum's type.
    let Stmt::Return { value: Some(e), .. } = &prog.functions[1].body[0] else {
        panic!("expected return");
    };
    let ExprKind::Binary(lhs, _, _) = &e.kind else { panic!() };
    let ExprKind::Call(_, args) = &lhs.kind else { panic!("expected call to unwrap") };
    assert!(matches!(&args[0].kind, ExprKind::EnumInit(_, _, a) if a.len() == 1));
    assert_eq!(args[0].ty, Some(Type::Enum(0)));
}

#[test]
fn match_arm_bindings_have_payload_types() {
    // The binding `n` from `Some(n)` is an int inside the arm.
    let src = "enum Box:\n    Val(str)\n    Empty\nfn show(b: Box):\n    match b:\n        Val(s):\n            print(s + \"!\")\n        Empty:\n            print(\"empty\")\nfn main():\n    return\n";
    assert!(analyze(src).is_ok());
    // wrong use of the binding's type is rejected
    let bad = "enum Box:\n    Val(str)\n    Empty\nfn f(b: Box):\n    match b:\n        Val(s):\n            print(s + 1)\n        Empty:\n            return\nfn main():\n    return\n";
    assert!(analyze(bad).is_err(), "binding s is a str, not int");
}

#[test]
fn match_must_be_exhaustive_or_have_wildcard() {
    let missing = "enum E:\n    A\n    B\n    C\nfn f(e: E) -> int:\n    match e:\n        A:\n            return 1\n        B:\n            return 2\n";
    assert!(analyze(missing).is_err(), "C is not covered");
    let wild = "enum E:\n    A\n    B\n    C\nfn f(e: E) -> int:\n    match e:\n        A:\n            return 1\n        _:\n            return 0\n";
    assert!(analyze(wild).is_ok(), "wildcard makes it exhaustive");
    let full = "enum E:\n    A\n    B\nfn f(e: E) -> int:\n    match e:\n        A:\n            return 1\n        B:\n            return 2\n";
    assert!(analyze(full).is_ok());
}

#[test]
fn match_rejects_bad_arms() {
    // unknown variant
    assert!(
        analyze("enum E:\n    A\n    B\nfn f(e: E):\n    match e:\n        A:\n            return\n        Z:\n            return\n").is_err(),
        "unknown variant Z"
    );
    // duplicate arm
    assert!(
        analyze("enum E:\n    A\n    B\nfn f(e: E):\n    match e:\n        A:\n            return\n        A:\n            return\n        B:\n            return\n").is_err(),
        "duplicate A"
    );
    // wrong binding arity
    assert!(
        analyze("enum E:\n    Pair(int, int)\nfn f(e: E):\n    match e:\n        Pair(a):\n            return\n").is_err(),
        "Pair carries two fields"
    );
    // match on a non-enum
    assert!(
        analyze("fn main():\n    let x = 5\n    match x:\n        A:\n            return\n").is_err(),
        "scrutinee must be an enum"
    );
}

#[test]
fn enum_constructor_payload_is_checked() {
    // wrong payload arity
    assert!(
        analyze("enum Opt:\n    Some(int)\n    None\nfn main():\n    let o = Some()\n").is_err(),
        "Some needs one value"
    );
    // wrong payload type
    assert!(
        analyze("enum Opt:\n    Some(int)\n    None\nfn main():\n    let o = Some(true)\n").is_err(),
        "Some takes an int"
    );
    // nullary variant used as a value
    assert!(
        analyze("enum Opt:\n    Some(int)\n    None\nfn use(o: Opt) -> int:\n    return 0\nfn main() -> int:\n    return use(None)\n").is_ok()
    );
}

#[test]
fn enum_and_variant_names_must_not_collide() {
    // two enums sharing a variant name
    assert!(
        analyze("enum A:\n    X\n    Y\nenum B:\n    X\n    Z\nfn main():\n    return\n").is_err(),
        "variant X defined twice"
    );
    // enum name colliding with a struct
    assert!(
        analyze("struct P:\n    x: int\nenum P:\n    A\nfn main():\n    return\n").is_err(),
        "P is both a struct and an enum"
    );
    // variant colliding with a struct constructor
    assert!(
        analyze("struct Pair:\n    a: int\nenum E:\n    Pair(int)\n    Empty\nfn main():\n    return\n").is_err(),
        "variant Pair collides with struct Pair"
    );
}

#[test]
fn enums_not_printable_or_comparable() {
    assert!(
        analyze("enum E:\n    A\n    B\nfn f(e: E):\n    print(e)\n").is_err(),
        "enum not printable"
    );
    assert!(
        analyze("enum E:\n    A\n    B\nfn f(a: E, b: E) -> bool:\n    return a == b\n").is_err(),
        "enum not comparable"
    );
}

#[test]
fn struct_name_cannot_collide_with_builtin_or_fn() {
    assert!(
        analyze("struct print:\n    x: int\nfn main():\n    return\n").is_err(),
        "struct shadowing a builtin is rejected"
    );
}
