//! Trees and errors of the parser in detail.
use xia::ast::{BinOp, ElemType, Expr, ExprKind, Pattern, Stmt, Type, UnOp};
use xia::lexer::lex;
use xia::parser::{parse, Parser};

fn message(src: &str) -> String {
    let d = parse(src).unwrap_err();
    assert_eq!(d.phase, "parse");
    d.message
}

fn expr(src: &str) -> Expr {
    Parser::new(lex(src).unwrap()).parse_expression().unwrap()
}

/// A tree in full parentheses.
fn shape(e: &Expr) -> String {
    match &e.kind {
        ExprKind::Int(n) => format!("{n}"),
        ExprKind::Var(n) => n.clone(),
        ExprKind::Bool(b) => format!("{b}"),
        ExprKind::Str(s) => format!("{s:?}"),
        ExprKind::Unary(UnOp::Neg, a) => format!("(- {})", shape(a)),
        ExprKind::Unary(UnOp::Not, a) => format!("(not {})", shape(a)),
        ExprKind::Binary(a, op, b) => format!("({} {:?} {})", shape(a), op, shape(b)),
        ExprKind::Call(n, args) => {
            let args: Vec<String> = args.iter().map(shape).collect();
            format!("{n}({})", args.join(", "))
        }
        ExprKind::MethodCall(r, n, args) => {
            let args: Vec<String> = args.iter().map(shape).collect();
            format!("{}.{n}({})", shape(r), args.join(", "))
        }
        ExprKind::Index(a, b) => format!("{}[{}]", shape(a), shape(b)),
        ExprKind::Field(a, n) => format!("{}.{n}", shape(a)),
        ExprKind::ArrayLit(es) => {
            let es: Vec<String> = es.iter().map(shape).collect();
            format!("[{}]", es.join(", "))
        }
        other => format!("{other:?}"),
    }
}

#[test]
fn operators_bind_by_level() {
    assert_eq!(shape(&expr("a or b and not c == d\n")), "(a Or (b And (not (c Eq d))))");
    assert_eq!(shape(&expr("1 - 2 - 3\n")), "((1 Sub 2) Sub 3)");
    assert_eq!(shape(&expr("-a * b % c\n")), "(((- a) Mul b) Rem c)");
    assert_eq!(shape(&expr("(1 + 2) * 3\n")), "((1 Add 2) Mul 3)");
    assert_eq!(shape(&expr("not not a\n")), "(not (not a))");
}

#[test]
fn comparisons_do_not_chain() {
    // the second `<` is left for whoever asked for the expression
    assert_eq!(shape(&expr("a < b < c\n")), "(a Lt b)");
    assert!(parse("fn f():\n    let x = 1 < 2 < 3\n").is_err());
}

#[test]
fn suffixes_nest_from_the_left() {
    assert_eq!(shape(&expr("a.b[1].c(2, 3)[x]\n")), "a.b[1].c(2, 3)[x]");
    assert_eq!(shape(&expr("f(1,)[0]\n")), "f(1)[0]");
    assert_eq!(shape(&expr("[1, 2,]\n")), "[1, 2]");
}

#[test]
fn spans_of_interpolations_are_those_of_the_literal() {
    let e = expr("f\"a {x + 1}\"\n");
    let ExprKind::Binary(_, BinOp::Add, call) = &e.kind else {
        panic!()
    };
    let ExprKind::Call(name, args) = &call.kind else {
        panic!()
    };
    assert_eq!(name, "str");
    assert_eq!(args[0].span, e.span);
    let ExprKind::Binary(x, _, _) = &args[0].kind else {
        panic!()
    };
    assert_eq!(x.span, e.span);
}

#[test]
fn interpolations_nest() {
    // quotes inside an interpolation are escaped
    let e = expr("f\"<{f(\\\"x\\\")}>\"\n");
    assert_eq!(shape(&e), "((\"<\" Add str(f(\"x\"))) Add \">\")");
    assert_eq!(shape(&expr("f\"\"\n")), "\"\"");
    assert_eq!(shape(&expr("f\"{1}{2}\"\n")), "(str(1) Add str(2))");
}

#[test]
fn interpolation_errors_name_the_literal() {
    assert_eq!(
        message("fn f():\n    print(f\"{}\")\n"),
        "in f-string: empty `{}` interpolation"
    );
    assert_eq!(message("fn f():\n    print(f\"{x\")\n"), "in f-string: unterminated `{`");
    assert_eq!(
        message("fn f():\n    print(f\"x}\")\n"),
        "in f-string: unmatched `}` (use `}}` for a literal)"
    );
    assert_eq!(
        message("fn f():\n    print(f\"{a b}\")\n"),
        "in f-string: unexpected identifier `b` after expression"
    );
    assert_eq!(
        message("fn f():\n    print(f\"{a ?}\")\n"),
        "in f-string: unexpected character `?`"
    );
}

#[test]
fn nested_array_types_count_dimensions() {
    let prog = parse("fn f(g: [[int]], h: [[[str]]]):\n    return\n").unwrap();
    assert_eq!(prog.functions[0].params[0].ty, Type::Array(ElemType::Int, 2));
    assert_eq!(prog.functions[0].params[1].ty, Type::Array(ElemType::Str, 3));
}

#[test]
fn methods_have_a_receiver() {
    let prog = parse("struct P:\n    x: int\nfn (p: P) get(k: int) -> int:\n    return p.x + k\n").unwrap();
    let f = &prog.functions[0];
    let recv = f.recv.as_ref().unwrap();
    assert_eq!(recv.name, "p");
    assert_eq!(recv.ty, Type::Struct(0));
    assert_eq!(f.name, "get");
    assert_eq!(f.params.len(), 1);
}

#[test]
fn enums_and_matches() {
    let src = "enum E:\n    A(int, str)\n    B\nfn f(e: E) -> int:\n    match e:\n        A(n, s): return n\n        B:\n            return 0\n        _: return 1\n";
    let prog = parse(src).unwrap();
    assert_eq!(prog.enums[0].variants[0].fields, vec![Type::Int, Type::Str]);
    assert!(prog.enums[0].variants[1].fields.is_empty());
    let Stmt::Match { arms, .. } = &prog.functions[0].body[0] else {
        panic!()
    };
    assert_eq!(arms.len(), 3);
    assert!(matches!(&arms[0].pattern, Pattern::Variant { name, bindings, .. }
        if name == "A" && bindings.len() == 2));
    assert!(matches!(&arms[2].pattern, Pattern::Wildcard));
    assert_eq!(arms[0].body.len(), 1);
}

#[test]
fn type_ids_follow_declarations() {
    let src = "fn f(b: B, e: E, a: A):\n    return\nstruct A:\n    x: int\nenum E:\n    V\nstruct B:\n    x: int\n";
    let prog = parse(src).unwrap();
    assert_eq!(prog.structs[0].name, "A");
    assert_eq!(prog.structs[1].name, "B");
    assert_eq!(prog.functions[0].params[0].ty, Type::Struct(1));
    assert_eq!(prog.functions[0].params[1].ty, Type::Enum(0));
    assert_eq!(prog.functions[0].params[2].ty, Type::Struct(0));
}

#[test]
fn every_parse_error_has_its_message() {
    let cases = [
        ("fn main()\n    return 0\n", "expected `Colon`, found newline"),
        ("fn 1():\n    return\n", "expected identifier, found integer `1`"),
        (
            "let x = 1\n",
            "expected `fn`, `struct` or `extern` at top level, found `Let`",
        ),
        ("fn f(p: Nope):\n    return\n", "unknown type `Nope`"),
        ("extern fn f(Nope) -> int\n", "unknown type `Nope`"),
        ("struct P:\n    x: int\n    x: int\n", "duplicate field `x` in `P`"),
        (
            "struct P:\n    x: int\nstruct P:\n    y: int\n",
            "duplicate struct `P`",
        ),
        ("enum E:\n    A\nenum E:\n    B\n", "duplicate enum `E`"),
        ("fn f():\n    f() = 1\n", "invalid assignment target"),
        (
            "fn f():\n    for i in range(1, 2, 3):\n        print(i)\n",
            "range takes 1 or 2 arguments, got 3",
        ),
        ("fn f():\n    let x = )\n", "unexpected `RParen` in expression"),
        (
            "fn f():\n    else:\n        return\n",
            "unexpected `Else` at start of statement",
        ),
    ];
    for (src, expected) in cases {
        assert_eq!(message(src), expected, "for {src:?}");
    }
}

#[test]
fn elif_is_an_if_in_the_else() {
    let src = "fn f(x: int):\n    if x > 0:\n        return\n    elif x < 0:\n        return\n    elif x == 0:\n        return\n    else:\n        return\n";
    let prog = parse(src).unwrap();
    let mut depth = 0;
    let mut here = &prog.functions[0].body[0];
    while let Stmt::If { else_block: Some(b), .. } = here {
        depth += 1;
        here = &b[0];
    }
    assert_eq!(depth, 3);
    assert!(matches!(here, Stmt::Return { .. }));
}

#[test]
fn lex_errors_come_first() {
    let d = parse("fn f(:\n    ?\n").unwrap_err();
    assert_eq!(d.phase, "lex");
}

/// Conditionals in full.
fn branches(stmts: &[Stmt]) -> String {
    let words: Vec<String> = stmts
        .iter()
        .map(|s| match s {
            Stmt::If { cond, then_block, else_block } => format!(
                "if {} [{}] [{}]",
                shape(cond),
                branches(then_block),
                else_block.as_ref().map_or("-".to_string(), |b| branches(b))
            ),
            Stmt::Expr(e) => shape(e),
            _ => panic!(),
        })
        .collect();
    words.join("; ")
}

#[test]
fn elif_reads_as_a_nested_if() {
    let chain = "fn f(a: bool, b: bool):\n    if a:\n        g(1)\n    elif b:\n        g(2)\n    else:\n        g(3)\n";
    let nested = "fn f(a: bool, b: bool):\n    if a:\n        g(1)\n    else:\n        if b:\n            g(2)\n        else:\n            g(3)\n";
    let one = branches(&parse(chain).unwrap().functions[0].body);
    let other = branches(&parse(nested).unwrap().functions[0].body);
    assert_eq!(one, "if a [g(1)] [if b [g(2)] [g(3)]]");
    assert_eq!(one, other);
}

#[test]
fn conditionals_are_parsed_from_their_if_on() {
    let mut p = Parser::new(lex("if a:\n    return\nelif b:\n    return\nelse:\n    return\n").unwrap());
    let Ok(Stmt::If { else_block: Some(nested), .. }) = p.parse_if() else {
        panic!()
    };
    assert!(matches!(nested.as_slice(), [Stmt::If { else_block: Some(_), .. }]));
    let e = Parser::new(lex("elif a:\n    return\n").unwrap()).parse_if().unwrap_err();
    assert!(e.message.starts_with("expected "), "{}", e.message);
    assert!(Parser::new(lex("if a\n").unwrap()).parse_if().is_err());
}
