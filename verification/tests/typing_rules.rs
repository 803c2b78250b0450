//! Types, scopes and errors of the analysis in detail.
use xia::ast::{ElemType, ExprKind, Pattern, Program, Stmt, Type};
use xia::driver::analyze_source;
use xia::parser::parse;
use xia::sema::{Analyzer, SymbolTable};

fn message(src: &str) -> String {
    let d = analyze_source(src).unwrap_err();
    assert_eq!(d.phase, "semantic", "for {src:?}: {}", d.message);
    d.message
}

fn accepted(src: &str) -> Program {
    match analyze_source(src) {
        Ok(p) => p,
        Err(d) => panic!("{}", d.to_text()),
    }
}

/// A `main` with these statements.
fn main_of(lines: &[&str]) -> String {
    let mut src = String::from("fn main():\n");
    for l in lines {
        src.push_str("    ");
        src.push_str(l);
        src.push('\n');
    }
    src
}

#[test]
fn every_statement_error_has_its_message() {
    let cases: Vec<(Vec<&str>, &str)> = vec![
        (vec!["let xs = []"], "cannot infer the element type of `[]`; annotate the binding, e.g. `let xs: [int] = []`"),
        (vec!["let u = print(1)"], "cannot bind `u` to a unit (no-value) expression"),
        (vec!["let x: float = 1"], "type mismatch: `x` declared as float but initialized with int"),
        (vec!["let x = 1", "let x = 2"], "`x` is already defined in this scope"),
        (vec!["y = 1"], "assignment to undefined variable `y`"),
        (vec!["let x = 1", "x = true"], "type mismatch: cannot assign bool to `x` of type int"),
        (vec!["let x = 1", "x[0] = 1"], "cannot index-assign into a value of type int"),
        (vec!["let xs = [1]", "xs[true] = 1"], "array index must be int, found bool"),
        (vec!["let xs = [1]", "xs[0] = true"], "type mismatch: cannot store bool in an array of int"),
        (vec!["let x = 1", "x.f = 1"], "type int has no fields to assign"),
        (vec!["return 1"], "return type mismatch: function returns unit but got int"),
        (vec!["if 1:", "    return"], "if condition must be bool, found int"),
        (vec!["while 1:", "    return"], "while condition must be bool, found int"),
        (vec!["for i in range(true):", "    return"], "range end must be int, found bool"),
        (vec!["for i in range(true, 1):", "    return"], "range start must be int, found bool"),
        (vec!["for x in 5:", "    return"], "for-in iterates over an array, found int"),
        (vec!["break"], "`break`/`continue` outside of a loop"),
        (vec!["continue"], "`break`/`continue` outside of a loop"),
        (vec!["match 5:", "    A: return"], "match scrutinee must be an enum, found int"),
    ];
    for (lines, expected) in cases {
        assert_eq!(message(&main_of(&lines)), expected, "for {lines:?}");
    }
}

#[test]
fn every_expression_error_has_its_message() {
    let cases: Vec<(&str, &str)> = vec![
        ("print(y)", "undefined variable `y`"),
        ("print(-true)", "cannot negate a value of type bool"),
        ("print(not 1)", "`not` requires bool, found int"),
        ("print(1 + true)", "operand type mismatch: int vs bool"),
        ("print(true + true)", "arithmetic requires int or float, found bool"),
        ("print(\"a\" - \"b\")", "arithmetic requires int or float, found str"),
        ("print(\"a\" < \"b\")", "ordering comparison requires int or float, found str"),
        ("print(1 and 2)", "`and`/`or` require bool, found int"),
        ("print([1] == [1])", "cannot compare values of type [int]"),
        ("print()", "print takes exactly 1 argument, got 0"),
        ("print([1])", "cannot print a value of type [int]"),
        ("print(str(1, 2))", "str takes exactly 1 argument, got 2"),
        ("print(str([1]))", "cannot convert a value of type [int] to str"),
        ("print(len())", "len takes exactly 1 argument, got 0"),
        ("print(len(1))", "len requires a str or array, found int"),
        ("print(pop())", "pop takes exactly 1 argument, got 0"),
        ("print(pop(1))", "pop requires an array, found int"),
        ("print(find(\"a\"))", "find takes exactly 2 arguments, got 1"),
        ("print(find(\"a\", 1))", "find requires str arguments, found int"),
        ("push([1])", "push takes exactly 2 arguments, got 1"),
        ("push(1, 2)", "push requires an array, found int"),
        ("push([1], true)", "cannot push bool onto an array of int"),
        ("foo()", "call to undefined function `foo`"),
        ("print([print(1)])", "arrays of unit are not supported"),
        ("print(len([1, true]))", "array elements must all have the same type: expected int, found bool"),
        ("print(len([]))", "cannot infer the element type of `[]` here"),
        ("print(1[0])", "cannot index a value of type int"),
        ("print(\"a\"[true])", "index must be int, found bool"),
        ("print(1.x)", ""),
        ("let n = 5", ""),
    ];
    for (line, expected) in cases {
        if expected.is_empty() {
            continue;
        }
        assert_eq!(message(&main_of(&[line])), expected, "for {line:?}");
    }
}

#[test]
fn calls_are_checked_against_signatures() {
    let f = "fn f(a: int, b: str) -> int:\n    return a\n";
    let case = |call: &str| message(&format!("{f}fn main():\n    {call}\n"));
    assert_eq!(case("f(1)"), "`f` expects 2 argument(s), got 1");
    assert_eq!(case("f(1, 2)"), "argument 2 of `f`: expected str, found int");
    let x = "extern fn printf(fmt: str, ...) -> int\n";
    let case = |call: &str| message(&format!("{x}fn main():\n    {call}\n"));
    assert_eq!(case("printf()"), "`printf` expects at least 1 argument(s), got 0");
    assert_eq!(
        case("printf(\"x\", print(1))"),
        "cannot pass a unit value as a vararg"
    );
}

#[test]
fn structs_and_methods_are_checked() {
    let p = "struct P:\n    x: int\n    y: str\nfn (p: P) get(k: int) -> int:\n    return p.x + k\n";
    let case = |line: &str| message(&format!("{p}fn main():\n    let p = P(1, \"a\")\n    {line}\n"));
    assert_eq!(case("let q = P(1)"), "`P` has 2 field(s), got 1 argument(s)");
    assert_eq!(case("let q = P(1, 2)"), "field `y` of `P` is str, found int");
    assert_eq!(case("print(p.z)"), "`P` has no field `z`");
    assert_eq!(case("p.z = 1"), "`P` has no field `z`");
    assert_eq!(
        case("p.x = \"s\""),
        "type mismatch: field `x` of `P` is int, found str"
    );
    assert_eq!(case("p.nope()"), "`P` has no method `nope`");
    assert_eq!(
        case("p.get()"),
        "method `get` of `P` expects 1 argument(s), got 0"
    );
    assert_eq!(
        case("p.get(true)"),
        "argument 1 of `get`: expected int, found bool"
    );
    assert_eq!(case("print(p)"), "cannot print a value of type P");
    assert_eq!(case("print([p] == [p])"), "cannot compare values of type [P]");
    assert_eq!(case("let n = 5\n    n.get()"), "type int has no methods to call");
    assert_eq!(case("let n = 5\n    print(n.x)"), "type int has no fields");
}

#[test]
fn enums_are_checked() {
    let e = "enum Opt:\n    Some(int)\n    Nil\n    Pair(int, str)\n";
    let case = |body: &str| message(&format!("{e}fn f(o: Opt):\n{body}"));
    assert_eq!(
        case("    let x = Some()\n"),
        "variant `Some` takes 1 payload value(s), got 0"
    );
    assert_eq!(
        case("    let x = Some(true)\n"),
        "payload of `Some`: expected int, found bool"
    );
    assert_eq!(
        case("    match o:\n        Some(n): return\n        Pair(a, b): return\n"),
        "non-exhaustive match on `Opt`: missing Nil (add the variant(s) or a `_` arm)"
    );
    assert_eq!(
        case("    match o:\n        Pair(a, b): return\n"),
        "non-exhaustive match on `Opt`: missing Some, Nil (add the variant(s) or a `_` arm)"
    );
    assert_eq!(
        case("    match o:\n        Z: return\n"),
        "`Opt` has no variant `Z`"
    );
    assert_eq!(
        case("    match o:\n        Nil: return\n        Nil: return\n"),
        "duplicate match arm for variant `Nil`"
    );
    assert_eq!(
        case("    match o:\n        _: return\n        _: return\n"),
        "duplicate `_` arm in match"
    );
    assert_eq!(
        case("    match o:\n        Pair(a): return\n"),
        "variant `Pair` binds 1 value(s) but carries 2 field(s)"
    );
    assert_eq!(
        case("    match o:\n        Pair(a, a): return\n"),
        "duplicate binding `a` in pattern"
    );
}

#[test]
fn declarations_must_not_collide() {
    let cases = [
        ("struct print:\n    x: int\n", "struct `print` collides with a builtin"),
        ("enum len:\n    A\n", "enum `len` collides with a builtin"),
        (
            "struct P:\n    x: int\nenum P:\n    A\n",
            "`P` is declared as both a struct and an enum",
        ),
        (
            "enum E:\n    push\n",
            "variant `push` collides with a builtin or struct of the same name",
        ),
        (
            "enum A:\n    X\nenum B:\n    X\n",
            "variant `X` is defined in more than one enum (names are global)",
        ),
        (
            "extern fn f() -> int\nextern fn f() -> int\n",
            "duplicate declaration of `f`",
        ),
        (
            "fn f():\n    return\nfn f():\n    return\n",
            "duplicate definition of `f`",
        ),
        (
            "struct P:\n    x: int\nfn P():\n    return\n",
            "`P` is defined as both a struct and a function",
        ),
        (
            "enum E:\n    A\nfn A():\n    return\n",
            "`A` collides with an enum or variant of the same name",
        ),
        (
            "fn (x: int) f() -> int:\n    return x\n",
            "method receiver `x` must be a struct, found int",
        ),
        (
            "struct A:\n    n: int\nfn (a: A) g() -> int:\n    return 1\nfn (a: A) g() -> int:\n    return 2\n",
            "duplicate method `g` on `A`",
        ),
        (
            "fn f(a: int, a: int):\n    return\n",
            "duplicate parameter `a` in `f`",
        ),
    ];
    for (src, expected) in cases {
        assert_eq!(message(src), expected, "for {src:?}");
    }
}

#[test]
fn every_expression_carries_its_type() {
    let prog = accepted("fn main():\n    let xs = [1, 2]\n    print(xs[0] + len(xs))\n");
    let Stmt::Expr(e) = &prog.functions[0].body[1] else {
        panic!()
    };
    assert_eq!(e.ty, Some(Type::Unit));
    let ExprKind::Call(_, args) = &e.kind else {
        panic!()
    };
    assert_eq!(args[0].ty, Some(Type::Int));
    let ExprKind::Binary(a, _, b) = &args[0].kind else {
        panic!()
    };
    assert_eq!(a.ty, Some(Type::Int));
    assert_eq!(b.ty, Some(Type::Int));
    let ExprKind::Index(xs, _) = &a.kind else {
        panic!()
    };
    assert_eq!(xs.ty, Some(Type::Array(ElemType::Int, 1)));
}

#[test]
fn patterns_learn_their_types() {
    let prog = accepted("enum E:\n    A(int, str)\nfn f(e: E):\n    match e:\n        A(n, s): print(s)\n");
    let Stmt::Match { arms, .. } = &prog.functions[0].body[0] else {
        panic!()
    };
    assert!(matches!(&arms[0].pattern, Pattern::Variant { types, .. }
        if *types == vec![Type::Int, Type::Str]));
}

#[test]
fn blocks_expire() {
    // a name of a closed block can be declared and used anew
    accepted("fn main():\n    if true:\n        let y = 1\n        print(y)\n    let y = \"s\"\n    print(y + \"!\")\n");
    assert_eq!(
        message("fn main():\n    while true:\n        let y = 1\n        break\n    print(y)\n"),
        "undefined variable `y`"
    );
    assert_eq!(
        message("enum E:\n    A(int)\nfn f(e: E):\n    match e:\n        A(n): print(n)\n    print(n)\n"),
        "undefined variable `n`"
    );
}

#[test]
fn symbol_tables_shadow_inside_out() {
    let mut t = SymbolTable::new();
    assert!(t.declare("x", Type::Int));
    assert!(!t.declare("x", Type::Bool));
    assert_eq!(t.lookup("x"), Some(Type::Bool));
    t.push();
    assert!(t.declare("x", Type::Str));
    assert_eq!(t.lookup("x"), Some(Type::Str));
    t.pop();
    assert_eq!(t.lookup("x"), Some(Type::Bool));
    assert_eq!(t.lookup("y"), None);
    t.pop();
    assert_eq!(t.lookup("x"), None);
    // there is nothing left to close
    t.pop();
    assert_eq!(t.lookup("x"), None);
    t.push();
    assert!(t.declare("x", Type::Int));
}

#[test]
fn types_are_named_as_declared() {
    let mut prog = parse("struct P:\n    x: int\nenum E:\n    A\nfn f(ps: [[P]], e: E):\n    print(1)\n").unwrap();
    let mut a = Analyzer::new();
    a.analyze(&mut prog).unwrap();
    assert_eq!(a.name_of_type(Type::Struct(0)), "P");
    assert_eq!(a.name_of_type(Type::Enum(0)), "E");
    assert_eq!(a.name_of_type(Type::Int), "int");
    assert_eq!(a.name_of_type(Type::Array(ElemType::Enum(0), 1)), "[E]");
    assert_eq!(a.name_of_type(prog.functions[0].params[0].ty), "[[P]]");
}

#[test]
fn accepted_programs_are_analyzed_again() {
    let mut prog = parse("enum E:\n    A(int)\n    B\nstruct P:\n    e: E\nfn f(p: P) -> E:\n    let q = P(A(1))\n    let es = [q.e, B]\n    return es[0]\n").unwrap();
    assert!(Analyzer::new().analyze(&mut prog).is_ok());
    assert!(Analyzer::new().analyze(&mut prog).is_ok());
    let Stmt::Let { ty, .. } = &prog.functions[0].body[1] else {
        panic!()
    };
    assert_eq!(*ty, Some(Type::Array(ElemType::Enum(0), 1)));
}

#[test]
fn signatures_stay_with_the_analyzer() {
    let mut prog = parse("fn f(a: int) -> str:\n    return str(a)\n").unwrap();
    let mut a = Analyzer::new();
    a.analyze(&mut prog).unwrap();
    let sig = a.functions.get("f").unwrap();
    assert_eq!(sig.params, vec![Type::Int]);
    assert_eq!(sig.ret, Type::Str);
    assert!(!sig.varargs);
    assert!(a.functions.get("g").is_none());
}

#[test]
fn errors_point_at_the_source() {
    let d = analyze_source("fn main() -> int:\n    return \"oops\"\n").unwrap_err();
    let out = d.render("bad.xia", "fn main() -> int:\n    return \"oops\"\n");
    assert_eq!(
        out,
        "return type mismatch: function returns int but got str\n  --> bad.xia:2:12\n   |\n 2 |     return \"oops\"\n   |            ^^^^^^\n"
    );
}
