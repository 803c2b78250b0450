//! Retains and releases.
use xia::arc::ArcInserter;
use xia::ast::{Program, Stmt};
use xia::parser::parse;
use xia::sema::Analyzer;


fn lower(src: &str) -> Program {
    let mut prog = parse(src).unwrap();
    Analyzer::new().analyze(&mut prog).unwrap();
    ArcInserter::new().run(&mut prog);
    prog
}

fn count(stmts: &[Stmt], retain: &mut usize, release: &mut usize) {
    for s in stmts {
        match s {
            Stmt::Retain(_) => *retain += 1,
            Stmt::Release(_) => *release += 1,
            Stmt::If { then_block, else_block, .. } => {
                count(then_block, retain, release);
                if let Some(b) = else_block {
                    count(b, retain, release);
                }
            }
            Stmt::While { body, .. } | Stmt::For { body, .. } => {
                count(body, retain, release)
            }
            _ => {}
        }
    }
}

fn balance(prog: &Program) -> (usize, usize) {
    let (mut retain, mut release) = (0, 0);
    for f in &prog.functions {
        count(&f.body, &mut retain, &mut release);
    }
    (retain, release)
}

#[test]
fn fresh_string_released_at_scope_end() {
    let prog = lower("fn main():\n    let s = \"hi\"\n    print(s)\n");
    let (retain, release) = balance(&prog);
    assert_eq!(retain, 0, "fresh value needs no retain");
    assert_eq!(release, 1, "owned local released at scope end");
}

#[test]
fn alias_gets_retained() {
    let prog = lower("fn main():\n    let a = \"x\"\n    let b = a\n    print(b)\n");
    let (retain, release) = balance(&prog);
    assert_eq!(retain, 1, "alias `let b = a` retains");
    assert_eq!(release, 2, "both bindings release");
}

#[test]
fn heap_params_retained_and_released() {
    let prog = lower("fn f(s: str):\n    print(s)\n");
    let (retain, release) = balance(&prog);
    assert_eq!((retain, release), (1, 1));
}

#[test]
fn return_transfers_ownership() {
    let src = "fn f() -> str:\n    let s = \"hi\"\n    return s\n";
    let prog = lower(src);
    let body = &prog.functions[0].body;
    // let s / let $ret = s / retain $ret / release s / return $ret
    assert!(matches!(&body[2], Stmt::Retain(n) if n.starts_with("$arc")));
    assert!(matches!(&body[3], Stmt::Release(n) if n == "s"));
    assert!(matches!(&body[4], Stmt::Return { .. }));
}

#[test]
fn discarded_heap_expr_bound_and_released() {
    let src = "fn f() -> str:\n    return \"x\"\nfn main():\n    f()\n";
    let prog = lower(src);
    let main = prog.functions.iter().find(|f| f.name == "main").unwrap();
    assert!(matches!(&main.body[0], Stmt::Let { name, .. } if name.starts_with("$arc")));
    assert!(matches!(&main.body[1], Stmt::Release(_)));
}

#[test]
fn break_releases_loop_locals() {
    let src = "fn main():\n    while true:\n        let s = \"x\"\n        break\n";
    let prog = lower(src);
    let Stmt::While { body, .. } = &prog.functions[0].body[0] else {
        panic!()
    };
    let release_before_break = body
        .iter()
        .position(|s| matches!(s, Stmt::Release(n) if n == "s"))
        .unwrap();
    let break_pos = body
        .iter()
        .position(|s| matches!(s, Stmt::Break { .. }))
        .unwrap();
    assert!(release_before_break < break_pos);
}

#[test]
fn inner_scope_released_at_block_end() {
    let src = "fn main():\n    if true:\n        let s = \"x\"\n        print(s)\n";
    let prog = lower(src);
    let Stmt::If { then_block, .. } = &prog.functions[0].body[0] else {
        panic!()
    };
    assert!(matches!(then_block.last().unwrap(), Stmt::Release(n) if n == "s"));
}

#[test]
fn arrays_are_arc_managed_like_strings() {
    let prog = lower("fn main():\n    let xs = [1, 2]\n    print(len(xs))\n");
    assert_eq!(balance(&prog), (0, 1), "array binding released at scope end");
    let prog =
        lower("fn main():\n    let xs = [\"a\"]\n    let ys = xs\n    print(len(ys))\n");
    assert_eq!(balance(&prog), (1, 2), "alias retains; both bindings release");
}

#[test]
fn non_heap_code_untouched() {
    let prog = lower("fn main() -> int:\n    let x = 1\n    return x + 1\n");
    assert_eq!(balance(&prog), (0, 0));
}
