//! IR of each construct.
use xia::codegen::CodeGen;
use xia::driver::{analyze_source, compile_program, compile_to_ir};
use xia::ir::{Callee, Ins, Rt};

fn ir(src: &str) -> String {
    match compile_to_ir(src) {
        Ok(t) => t,
        Err(m) => panic!("{m}"),
    }
}

/// The text of one function.
fn body(text: &str, name: &str) -> String {
    let from = text.find(&format!("@{name}(")).unwrap();
    let head = text[..from].rfind("define").unwrap();
    let tail = text[head..].find("\n}\n").unwrap();
    text[head..head + tail].to_string()
}

#[test]
fn arithmetic_is_exact_text() {
    let t = ir("fn add(a: int, b: int) -> int:\n    return a + b\n");
    assert_eq!(
        body(&t, "add"),
        "define i64 @add(i64 %p0, i64 %p1) {\nentry0:\n  %t1 = alloca i64\n  store i64 %p0, ptr %t1\n  %t3 = alloca i64\n  store i64 %p1, ptr %t3\n  %t5 = load i64, ptr %t1\n  %t6 = load i64, ptr %t3\n  %t7 = add i64 %t5, %t6\n  ret i64 %t7"
    );
}

#[test]
fn every_block_ends_once() {
    let src = "fn f(n: int, xs: [int]) -> int:\n    let s = 0\n    for i in range(n):\n        if i == 2:\n            continue\n        elif i == 5:\n            break\n        else:\n            s = s + i\n    for x in xs:\n        s = s + x\n    while s > 10 and n > 0:\n        s = s - 1\n    return s\n";
    let p = analyze_source(src).unwrap();
    let m = compile_program(p).unwrap();
    for f in &m.functions {
        let ends = |i: &Ins| {
            matches!(
                i,
                Ins::Br(_) | Ins::CondBr(..) | Ins::Ret(..) | Ins::RetVoid | Ins::Unreachable
            )
        };
        assert!(matches!(f.code[0], Ins::Label(_)));
        for k in 1..f.code.len() {
            assert_eq!(matches!(f.code[k], Ins::Label(_)), ends(&f.code[k - 1]), "{} {k}", f.name);
        }
        assert!(ends(f.code.last().unwrap()));
    }
}

#[test]
fn runtime_is_complete_and_no_more() {
    let t = ir("fn main() -> int:\n    return 1\n");
    assert!(!t.contains("xia_retain"));
    assert!(!t.contains("@malloc"));
    let t = ir("fn main():\n    let xs = [\"a\"]\n    xs[0] = \"b\"\n    print(xs[0])\n");
    for name in [
        "xia_arr_set", "xia_arr_get", "xia_arr_push", "xia_arr_new", "xia_bounds_fail",
        "xia_release", "xia_retain",
    ] {
        assert!(t.contains(&format!("@{name}(")), "{name}");
        assert_eq!(t.matches(&format!("define internal void @{name}(")).count()
            + t.matches(&format!("define internal ptr @{name}(")).count()
            + t.matches(&format!("define internal i64 @{name}(")).count(), 1, "{name}");
    }
    assert!(!t.contains("xia_str_concat"));
}

#[test]
fn structs_own_their_heap_fields() {
    let t = ir("struct P:\n    x: int\n    name: str\nfn main():\n    let p = P(1, \"a\")\n    p.name = \"b\"\n    print(p.name)\n    p.x = 2\n    print(p.x)\n");
    assert!(t.contains("call ptr @xia_new(ptr @xia_drop_P, i64 2)"));
    let drop = body(&t, "xia_drop_P");
    assert!(drop.contains("getelementptr i64, ptr %p0, i64 1"));
    assert!(drop.contains("call void @xia_release"));
    // the plain field is left alone
    assert!(!drop.contains("i64 0"));
    // a struct without heap fields has kind 0
    let t = ir("struct Q:\n    x: int\nfn main():\n    let q = Q(1)\n    print(q.x)\n");
    assert!(t.contains("call ptr @xia_new(ptr null, i64 1)"));
    assert!(!t.contains("xia_drop_Q"));
}

#[test]
fn methods_are_direct_calls() {
    let t = ir("struct P:\n    x: int\nfn (p: P) plus(k: int) -> int:\n    return p.x + k\nfn main() -> int:\n    let p = P(1)\n    return p.plus(2)\n");
    assert!(t.contains("define i64 @P.plus(ptr %p0, i64 %p1)"));
    assert!(t.contains("call i64 @P.plus(ptr"));
}

#[test]
fn enums_carry_a_tag() {
    let t = ir("enum L:\n    Nil\n    Cons(int, L)\nfn sum(l: L) -> int:\n    match l:\n        Nil: return 0\n        Cons(n, rest): return n + sum(rest)\nfn main() -> int:\n    return sum(Cons(1, Cons(2, Nil)))\n");
    // the tag and two payload words
    assert!(t.contains("call ptr @xia_new(ptr @xia_drop_L, i64 3)"));
    assert!(t.contains("store i64 1, ptr"));
    let sum = body(&t, "sum");
    assert!(sum.contains("icmp eq i64"));
    assert!(sum.contains("match.arm"));
    assert!(sum.contains("unreachable"));
    // every arm returns, so nothing follows the match
    assert!(!sum.contains("match.end"));
    let drop = body(&t, "xia_drop_L");
    assert!(drop.contains("icmp eq i64 %t1, 1"));
    assert!(drop.contains("getelementptr i64, ptr %p0, i64 2"));
}

#[test]
fn temporaries_are_released_behind_the_statement() {
    let t = ir("fn f(a: str):\n    print(a + \"x\" + \"y\")\n");
    let f = body(&t, "f");
    let concats = f.matches("call ptr @xia_str_concat").count();
    assert_eq!(concats, 2);
    // both, and the parameter
    assert_eq!(f.matches("call void @xia_release").count(), 3);
    let last_concat = f.rfind("xia_str_concat").unwrap();
    let printf = f.find("@printf").unwrap();
    let release = f.find("xia_release").unwrap();
    assert!(last_concat < printf && printf < release);
}

#[test]
fn call_results_are_owned_by_the_caller() {
    let t = ir("fn xs() -> [int]:\n    return [1]\nfn main() -> int:\n    return len(xs())\n");
    let main = body(&t, "xia_main");
    assert_eq!(main.matches("call void @xia_release").count(), 1);
}

#[test]
fn short_circuits_release_on_their_own_path() {
    let t = ir("fn f(a: str, b: str) -> bool:\n    return a + b == \"x\" and b + a == \"y\"\n");
    let f = body(&t, "f");
    assert!(f.contains("sc.rhs"));
    assert!(f.contains("phi i1 [ false, %entry0 ]"));
}

#[test]
fn literals_are_interned_and_escaped() {
    let t = ir("fn main():\n    print(\"a\\\"\\\\\\n\")\n    print(\"a\\\"\\\\\\n\")\n    print(\"é\")\n");
    assert_eq!(t.matches("c\"a\\22\\5C\\0A\\00\"").count(), 1);
    assert!(t.contains("[5 x i8] c\"a\\22\\5C\\0A\\00\""));
    assert!(t.contains("[3 x i8] c\"\\C3\\A9\\00\""));
}

#[test]
fn foreign_functions_keep_their_types() {
    let t = ir("extern fn printf(fmt: str, ...) -> int\nextern fn getenv(name: str) -> str\nfn main() -> int:\n    printf(\"%d\\n\", 1)\n    print(getenv(\"HOME\"))\n    return 0\n");
    assert!(t.contains("declare i64 @printf(ptr, ...)"));
    assert!(t.contains("call i64 (ptr, ...) @printf(ptr"));
    // the builtin goes through a type of its own
    assert!(t.contains("call i32 (ptr, ...) @printf(ptr"));
    assert_eq!(t.matches("declare i64 @printf").count() + t.matches("declare i32 @printf").count(), 1);
    assert!(t.contains("call ptr @xia_str_dup(ptr"));
}

#[test]
fn floats_keep_their_text() {
    let t = ir("fn f(x: float) -> float:\n    return -x * 2.50\n");
    assert!(t.contains("fneg double"));
    assert!(t.contains(", 2.50\n"));
}

#[test]
fn the_entry_point_truncates() {
    let t = ir("fn main() -> int:\n    return 7\n");
    assert_eq!(
        body(&t, "main"),
        "define i32 @main() {\nentry0:\n  %t1 = call i64 @xia_main()\n  %t2 = trunc i64 %t1 to i32\n  ret i32 %t2"
    );
    let t = ir("fn main():\n    print(1)\n");
    assert!(body(&t, "main").ends_with("call void @xia_main()\n  ret i32 0"));
    let t = ir("fn f():\n    print(1)\n");
    assert!(!t.contains("@main("));
}

#[test]
fn lowering_errors() {
    assert_eq!(
        compile_to_ir("fn f(n: int) -> int:\n    if n > 0:\n        return 1\n").unwrap_err(),
        "function `f` may end without returning a int value"
    );
    assert_eq!(
        compile_to_ir("fn main(n: int):\n    print(n)\n").unwrap_err(),
        "codegen: `main` must not take parameters"
    );
    assert_eq!(
        compile_to_ir("fn main():\n    print(pop([1]))\n").unwrap_err(),
        "codegen: unknown function `pop` (line 2)"
    );
    assert_eq!(
        compile_to_ir("fn main():\n    print(\"a\"[0])\n").unwrap_err(),
        "codegen: indexing a non-array"
    );
    assert_eq!(
        compile_to_ir("fn main():\n    print(y)\n").unwrap_err(),
        "semantic error (line 2): undefined variable `y`"
    );
    assert_eq!(
        compile_to_ir("fn main(\n").unwrap_err().split(':').next().unwrap(),
        "parse error (line 1)"
    );
}

#[test]
fn failed_lowering_leaves_the_module_alone() {
    let mut cg = CodeGen::new();
    let good = analyze_source("fn f():\n    print(1)\n").unwrap();
    cg.compile(&good).unwrap();
    let before = cg.module.to_text();
    let bad = analyze_source("fn f(n: int) -> int:\n    print(n)\n").unwrap();
    assert!(cg.compile(&bad).is_err());
    assert_eq!(cg.module.to_text(), before);
}

#[test]
fn release_looks_at_the_kind() {
    let p = analyze_source("fn f(s: str):\n    print(s)\n").unwrap();
    let m = compile_program(p).unwrap();
    let release = m.functions.iter().find(|f| f.name == "xia_release").unwrap();
    let own_calls = release
        .code
        .iter()
        .filter(|i| matches!(i, Ins::Call(_, Callee::Runtime(Rt::Release), 1)))
        .count();
    assert_eq!(own_calls, 1);
    let pointers = release
        .code
        .iter()
        .filter(|i| matches!(i, Ins::Call(_, Callee::Pointer(_), 1)))
        .count();
    assert_eq!(pointers, 1);
}
