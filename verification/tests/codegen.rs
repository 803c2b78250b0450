//! IR text.
use xia::driver::compile_to_ir;


#[test]
fn compiles_arithmetic_function() {
    let ir = compile_to_ir("fn add(a: int, b: int) -> int:\n    return a + b\n").unwrap();
    assert!(ir.contains("define i64 @add"));
    assert!(ir.contains("add i64"));
}

#[test]
fn emits_c_main_shim() {
    let ir = compile_to_ir("fn main() -> int:\n    return 7\n").unwrap();
    assert!(ir.contains("define i64 @xia_main"));
    assert!(ir.contains("define i32 @main"));
    assert!(ir.contains("call i64 @xia_main"));
}

#[test]
fn compiles_fib_with_control_flow() {
    let src = "fn fib(n: int) -> int:\n    if n < 2:\n        return n\n    return fib(n - 1) + fib(n - 2)\n";
    let ir = compile_to_ir(src).unwrap();
    assert!(ir.contains("define i64 @fib"));
    assert!(ir.contains("br i1"));
    assert!(ir.contains("call i64 @fib"));
}

#[test]
fn compiles_while_loop_with_break() {
    let src = "fn main() -> int:\n    let i = 0\n    while true:\n        i = i + 1\n        if i > 10:\n            break\n    return i\n";
    let ir = compile_to_ir(src).unwrap();
    assert!(ir.contains("loop.cond"));
    assert!(ir.contains("loop.end"));
}

#[test]
fn for_loop_has_increment_block() {
    let src = "fn main() -> int:\n    let sum = 0\n    for i in range(1, 5):\n        if i == 3:\n            continue\n        sum = sum + i\n    return sum\n";
    let ir = compile_to_ir(src).unwrap();
    assert!(ir.contains("for.cond"));
    assert!(ir.contains("for.inc"));
    assert!(ir.contains("for.end"));
    // `continue` must branch to the increment, never back to the test.
    assert!(ir.contains("br label %for.inc"));
}

#[test]
fn declares_externs_without_bodies() {
    let src = "extern fn putchar(c: int) -> int\nfn main() -> int:\n    putchar(65)\n    return 0\n";
    let ir = compile_to_ir(src).unwrap();
    assert!(ir.contains("declare i64 @putchar(i64)"));
}

#[test]
fn short_circuit_uses_phi() {
    let src = "fn f(a: bool, b: bool) -> bool:\n    return a and b\n";
    let ir = compile_to_ir(src).unwrap();
    assert!(ir.contains("phi i1"));
}

#[test]
fn string_program_emits_arc_runtime() {
    let src = "fn greet(name: str) -> str:\n    return \"hello, \" + name\nfn main() -> int:\n    let g = greet(\"world\")\n    print(g)\n    return 0\n";
    let ir = compile_to_ir(src).unwrap();
    assert!(ir.contains("define internal void @xia_retain"));
    assert!(ir.contains("define internal void @xia_release"));
    assert!(ir.contains("define internal ptr @xia_str_concat"));
    assert!(ir.contains("declare ptr @malloc"));
    assert!(ir.contains("declare void @free"));
    assert!(ir.contains("@printf"));
}

#[test]
fn string_literals_are_immortal_constants() {
    let ir = compile_to_ir("fn main():\n    print(\"hi\")\n").unwrap();
    assert!(ir.contains("i64 -1"), "literal header must be -1 (immortal)");
    assert!(ir.contains("c\"hi\\00\""));
}

#[test]
fn str_equality_uses_strcmp() {
    let src = "fn f(a: str, b: str) -> bool:\n    return a == b\n";
    let ir = compile_to_ir(src).unwrap();
    assert!(ir.contains("xia_str_eq"));
    assert!(ir.contains("@strcmp"));
}

#[test]
fn discarded_concat_is_released() {
    let src = "fn main():\n    let a = \"x\"\n    let b = a + \"y\"\n    print(b)\n";
    let ir = compile_to_ir(src).unwrap();
    assert!(ir.contains("call void @xia_release"));
}

#[test]
fn extern_str_result_is_duplicated() {
    let src = "extern fn getenv(name: str) -> str\nfn main():\n    let p = getenv(\"PATH\")\n    print(p)\n";
    let ir = compile_to_ir(src).unwrap();
    assert!(ir.contains("xia_str_dup"));
}

#[test]
fn arrays_lower_to_runtime_calls() {
    let src = "fn main() -> int:\n    let xs = [10, 20, 30]\n    xs[1] = 5\n    push(xs, 40)\n    return xs[1] + len(xs)\n";
    let ir = compile_to_ir(src).unwrap();
    assert!(ir.contains("xia_arr_new"));
    assert!(ir.contains("xia_arr_push"));
    assert!(ir.contains("xia_arr_get"));
    assert!(ir.contains("xia_arr_set"));
    assert!(ir.contains("xia_bounds_fail"));
}

#[test]
fn str_arrays_use_heap_element_kind() {
    let src = "fn main():\n    let xs = [\"a\", \"b\"]\n    print(xs[0])\n";
    let ir = compile_to_ir(src).unwrap();
    // kind 2 = heap elements; release loops over them when the array dies
    assert!(ir.contains("@xia_arr_new(i64 2,"));
    assert!(ir.contains("elem.loop"));
}

#[test]
fn foreach_lowers_with_per_iteration_get() {
    let src = "fn sum(xs: [int]) -> int:\n    let total = 0\n    for n in xs:\n        total = total + n\n    return total\n";
    let ir = compile_to_ir(src).unwrap();
    assert!(ir.contains("foreach.cond"));
    assert!(ir.contains("foreach.inc"));
    assert!(ir.contains("xia_arr_get"));
}

#[test]
fn foreach_over_fresh_literal_released_after_loop() {
    let src = "fn main():\n    for s in [\"a\", \"b\"]:\n        print(s)\n";
    let ir = compile_to_ir(src).unwrap();
    assert!(ir.contains("foreach.end"));
    assert!(ir.contains("call void @xia_release"));
}

#[test]
fn str_conversion_uses_snprintf() {
    let src = "fn main():\n    print(f\"n = {7} x = {2.5}\")\n";
    let ir = compile_to_ir(src).unwrap();
    assert!(ir.contains("xia_int_to_str"));
    assert!(ir.contains("xia_float_to_str"));
    assert!(ir.contains("@snprintf"));
    assert!(ir.contains("xia_str_concat"));
}

#[test]
fn float_ops_lower_to_float_instructions() {
    let src = "fn f(x: float) -> float:\n    return x * 2.0 + 0.5\n";
    let ir = compile_to_ir(src).unwrap();
    assert!(ir.contains("fmul double"));
    assert!(ir.contains("fadd double"));
}
