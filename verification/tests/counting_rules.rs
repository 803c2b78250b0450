//! Retains and releases in detail.
use xia::arc::ArcInserter;
use xia::ast::{ExprKind, Program, Stmt};
use xia::driver::analyze_source;

fn counted(src: &str) -> Program {
    let mut prog = match analyze_source(src) {
        Ok(p) => p,
        Err(d) => panic!("{}", d.to_text()),
    };
    ArcInserter::new().run(&mut prog);
    prog
}

/// The statements of a block, one word each.
fn words(stmts: &[Stmt]) -> Vec<String> {
    stmts
        .iter()
        .map(|s| match s {
            Stmt::Let { name, .. } => format!("let {name}"),
            Stmt::Retain(n) => format!("retain {n}"),
            Stmt::Release(n) => format!("release {n}"),
            Stmt::Return { .. } => "return".to_string(),
            Stmt::Break { .. } => "break".to_string(),
            Stmt::Continue { .. } => "continue".to_string(),
            Stmt::If { .. } => "if".to_string(),
            Stmt::While { .. } => "while".to_string(),
            Stmt::For { .. } => "for".to_string(),
            Stmt::ForEach { .. } => "foreach".to_string(),
            Stmt::Match { .. } => "match".to_string(),
            Stmt::Expr(_) => "expr".to_string(),
            Stmt::Assign { name, .. } => format!("assign {name}"),
            Stmt::IndexAssign { .. } => "index".to_string(),
            Stmt::FieldAssign { .. } => "field".to_string(),
        })
        .collect()
}

#[test]
fn locals_go_in_reverse_order() {
    let p = counted("fn main():\n    let a = \"x\"\n    let b = \"y\"\n    let n = 1\n    print(n)\n");
    assert_eq!(
        words(&p.functions[0].body),
        ["let a", "let b", "let n", "expr", "release b", "release a"]
    );
}

#[test]
fn returns_release_everything_but_the_result() {
    let p = counted("fn f(s: str) -> str:\n    let t = s + \"!\"\n    if true:\n        let u = t\n        return u\n    return t\n");
    let body = &p.functions[0].body;
    assert_eq!(
        words(body),
        [
            "retain s", "let t", "if", "let $arc1", "retain $arc1", "release t", "release s",
            "return"
        ]
    );
    let Stmt::If { then_block, .. } = &body[2] else {
        panic!()
    };
    assert_eq!(
        words(then_block),
        [
            "let u", "retain u", "let $arc0", "retain $arc0", "release u", "release t",
            "release s", "return"
        ]
    );
}

#[test]
fn jumps_release_out_to_the_loop() {
    let p = counted("fn main():\n    let a = \"a\"\n    while true:\n        let b = \"b\"\n        if true:\n            let c = \"c\"\n            continue\n        break\n    print(a)\n");
    let Stmt::While { body, .. } = &p.functions[0].body[1] else {
        panic!()
    };
    assert_eq!(words(body), ["let b", "if", "release b", "break"]);
    let Stmt::If { then_block, .. } = &body[1] else {
        panic!()
    };
    assert_eq!(words(then_block), ["let c", "release c", "release b", "continue"]);
}

#[test]
fn loop_variables_and_arm_bindings_arrive_retained() {
    let p = counted("fn f(xs: [str]):\n    for x in xs:\n        print(x)\n    for i in range(2):\n        print(i)\n");
    let Stmt::ForEach { body, .. } = &p.functions[0].body[1] else {
        panic!()
    };
    assert_eq!(words(body), ["expr", "release x"]);
    let Stmt::For { body, .. } = &p.functions[0].body[2] else {
        panic!()
    };
    assert_eq!(words(body), ["expr"]);
    let p = counted("enum E:\n    A(str, int)\n    B\nfn f(e: E):\n    match e:\n        A(s, n): print(s)\n        B: return\n");
    let Stmt::Match { arms, .. } = &p.functions[0].body[1] else {
        panic!()
    };
    assert_eq!(words(&arms[0].body), ["expr", "release s"]);
    assert_eq!(words(&arms[1].body), ["release e", "return"]);
}

#[test]
fn receivers_are_counted_like_parameters() {
    let p = counted("struct P:\n    x: int\nfn (p: P) get(s: str) -> int:\n    return p.x\n");
    assert_eq!(
        words(&p.functions[0].body),
        ["retain p", "retain s", "let $arc0", "release s", "release p", "return"]
    );
}

#[test]
fn unowned_returns_stay_as_they_are() {
    let p = counted("fn f() -> str:\n    return \"x\"\n");
    assert_eq!(words(&p.functions[0].body), ["return"]);
}

#[test]
fn hidden_bindings_are_named_with_primes() {
    let p = counted("fn f(s: str) -> str:\n    if true:\n        let s = s + \"!\"\n        s = s + \"?\"\n        if true:\n            let s = 1\n            print(s)\n        return s\n    let t = s\n    return t\n");
    let body = &p.functions[0].body;
    let Stmt::If { then_block, .. } = &body[1] else {
        panic!()
    };
    assert_eq!(
        words(then_block),
        [
            "let s", "assign s", "if", "let $arc0", "retain $arc0", "release s", "release s'",
            "return"
        ]
    );
    let Stmt::If { then_block, .. } = &then_block[2] else {
        panic!()
    };
    assert_eq!(words(then_block), ["let s", "expr"]);
    assert_eq!(words(body)[2..4], ["let t", "retain t"]);
}

#[test]
fn locals_that_hide_parameters_go_first() {
    let p = counted("fn f(s: str, t: str):\n    let s = t + \"!\"\n    let t = 1\n    print(s)\n    print(t)\n");
    assert_eq!(
        words(&p.functions[0].body),
        [
            "retain s", "retain t", "let s", "let t", "expr", "expr", "release s", "release t'",
            "release s'"
        ]
    );
}

#[test]
fn programs_without_heap_values_are_left_alone() {
    let sources = [
        "fn f(n: int) -> int:\n    let x = n\n    if x > 1:\n        let x = 2.5\n        print(x)\n        if true:\n            let x = true\n            print(x)\n    for x in range(3):\n        let n = x + 1\n        if n == 2:\n            break\n        continue\n    while x < n:\n        x = x + 1\n    return x\n",
        "enum E:\n    A(int, bool)\n    B\nfn f(n: int) -> int:\n    match A(n, true):\n        A(n, b):\n            print(b)\n            return n\n        B: return 0\n    return n\nfn main():\n    for x in [1, 2]:\n        if x == 1:\n            continue\n        let x = x + 1\n        print(x)\n    print(f(3))\n",
    ];
    for src in sources {
        let before = analyze_source(src).unwrap();
        assert_eq!(counted(src), before, "{src}");
    }
}

/// A block as it was before references were counted in it.
fn restored(stmts: &[Stmt]) -> Vec<String> {
    let mut out: Vec<String> = Vec::new();
    let mut i = 0;
    while i < stmts.len() {
        match &stmts[i] {
            Stmt::Retain(_) | Stmt::Release(_) => {}
            Stmt::Let { name, value, .. } if name.starts_with('$') => {
                let mut k = i + 1;
                while k < stmts.len() && matches!(stmts[k], Stmt::Retain(_) | Stmt::Release(_)) {
                    k += 1;
                }
                match stmts.get(k) {
                    Some(Stmt::Return { value: Some(e), line }) if e.kind == ExprKind::Var(name.clone()) => {
                        out.push(format!("return {line} {value:?}"));
                        i = k;
                    }
                    _ => out.push(format!("expr {value:?}")),
                }
            }
            Stmt::Return { value: Some(e), line } => out.push(format!("return {line} {e:?}")),
            Stmt::Expr(e) => out.push(format!("expr {e:?}")),
            Stmt::If { cond, then_block, else_block } => out.push(format!(
                "if {cond:?} {:?} {:?}",
                restored(then_block),
                else_block.as_ref().map(|b| restored(b))
            )),
            Stmt::While { cond, body } => out.push(format!("while {cond:?} {:?}", restored(body))),
            Stmt::ForEach { var, iterable, body, line } => {
                out.push(format!("each {var} {iterable:?} {line} {:?}", restored(body)))
            }
            other => out.push(format!("{other:?}")),
        }
        i += 1;
    }
    out
}

#[test]
fn counting_only_inserts() {
    let src = "fn g() -> str:\n    return \"x\"\nfn f(s: str, xs: [str]) -> str:\n    let t = s\n    g()\n    s\n    for x in xs:\n        if x == t:\n            let s = x + \"!\"\n            return s\n        elif true:\n            break\n        else:\n            g()\n            continue\n    for x in [\"a\", \"b\"]:\n        let s = x\n        while true:\n            return s + t\n    if s == \"\":\n        let s = 1\n        print(s)\n    return t\n";
    let before = analyze_source(src).unwrap();
    let after = counted(src);
    assert_ne!(before, after);
    for (b, a) in before.functions.iter().zip(&after.functions) {
        assert_eq!(restored(&a.body), restored(&b.body), "{}", b.name);
        assert_eq!(a.params, b.params);
    }
}

#[test]
fn temporaries_are_counted_up() {
    let mut arc = ArcInserter::new();
    assert_eq!(arc.fresh_tmp(), "$arc0");
    assert_eq!(arc.fresh_tmp(), "$arc1");
}

#[test]
fn bare_variables_are_retained() {
    let p = counted("fn f(s: str):\n    s\n    s + \"!\"\n");
    assert_eq!(
        words(&p.functions[0].body),
        [
            "retain s", "let $arc0", "retain $arc0", "release $arc0", "let $arc1", "release $arc1",
            "release s"
        ]
    );
}

#[test]
fn loops_own_fresh_arrays() {
    let p = counted("fn g() -> [int]:\n    return [1]\nfn f(xs: [int]) -> int:\n    for x in g():\n        if x == 1:\n            break\n        return x\n    for x in xs:\n        return x\n    return 0\n");
    let body = &p.functions[1].body;
    let Stmt::ForEach { body: first, .. } = &body[1] else {
        panic!()
    };
    assert_eq!(words(first), ["if", "let $arc0", "release in x", "release xs", "return"]);
    let Stmt::If { then_block, .. } = &first[0] else {
        panic!()
    };
    assert_eq!(words(then_block), ["break"]);
    let Stmt::ForEach { body: second, .. } = &body[2] else {
        panic!()
    };
    assert_eq!(words(second), ["let $arc1", "release xs", "return"]);
}

#[test]
fn temporaries_are_numbered() {
    let p = counted("fn g() -> str:\n    return \"x\"\nfn f():\n    g()\n    g()\nfn h(s: str):\n    g()\n    s\n");
    assert_eq!(
        words(&p.functions[1].body),
        ["let $arc0", "release $arc0", "let $arc1", "release $arc1"]
    );
    assert_eq!(words(&p.functions[2].body)[1..3], ["let $arc2", "release $arc2"]);
}
