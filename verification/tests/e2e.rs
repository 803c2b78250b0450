//! Programs are compiled and their code is run, on a machine that keeps an
//! eye on memory: nothing is used or freed twice, and nothing is left at the
//! end.
use std::collections::BTreeMap;
use xia::codegen::Module;
use xia::driver::{check, compile_source, exit_code};
use xia::ir::{Callee, Conv, Fixed, Ins, Label, Libc, Op, Pred, Ty, Val};

/// Heap addresses begin here; below are literals and stack slots.
const HEAP: usize = 1 << 20;
/// Addresses of functions.
const CODE: i64 = 1 << 40;

struct Machine<'m> {
    module: &'m Module,
    mem: Vec<u8>,
    /// Where the next literal or stack slot goes.
    stack: usize,
    live: BTreeMap<usize, usize>,
    lits: Vec<i64>,
    fixed: [i64; 3],
    out: String,
}

/// The end of the program, with its exit code.
struct Exit(i32);

impl<'m> Machine<'m> {
    fn new(module: &'m Module) -> Self {
        let mut m = Machine {
            module,
            mem: vec![0; HEAP],
            stack: 16,
            live: BTreeMap::new(),
            lits: Vec::new(),
            fixed: [0; 3],
            out: String::new(),
        };
        let lits: Vec<i64> = module.lits.iter().map(|s| m.literal(s)).collect();
        m.lits = lits;
        m.fixed = [
            m.literal("%lld"),
            m.literal("%g"),
            m.literal("xia: index %lld out of bounds for array of length %lld\n"),
        ];
        m
    }

    /// An immortal string.
    fn literal(&mut self, s: &str) -> i64 {
        let at = self.slot(16 + s.len() + 1);
        self.store(at + 8, 8, -1);
        for (k, b) in s.bytes().enumerate() {
            self.store(at + 16 + k as i64, 1, b as i64);
        }
        at + 16
    }

    fn slot(&mut self, size: usize) -> i64 {
        let at = self.stack;
        self.stack += (size + 7) / 8 * 8;
        assert!(self.stack < HEAP, "stack overflow");
        at as i64
    }

    fn allowed(&self, at: usize, size: usize) {
        if at < HEAP {
            assert!(at >= 16 && at + size <= self.stack, "stray access at {at}");
        } else {
            let (start, len) = self.live.range(..=at).next_back().expect("stray access");
            assert!(at + size <= start + len, "access outside a live block at {at}");
        }
    }

    fn load(&self, at: i64, size: usize) -> i64 {
        let at = at as usize;
        self.allowed(at, size);
        let mut bytes = [0u8; 8];
        bytes[..size].copy_from_slice(&self.mem[at..at + size]);
        i64::from_le_bytes(bytes)
    }

    fn store(&mut self, at: i64, size: usize, v: i64) {
        let at = at as usize;
        self.allowed(at, size);
        self.mem[at..at + size].copy_from_slice(&v.to_le_bytes()[..size]);
    }

    fn text(&self, at: i64) -> Vec<u8> {
        let mut s = Vec::new();
        let mut k = at;
        loop {
            let b = self.load(k, 1) as u8;
            if b == 0 {
                return s;
            }
            s.push(b);
            k += 1;
        }
    }

    fn malloc(&mut self, size: i64) -> i64 {
        let at = self.mem.len();
        let size = size as usize;
        self.mem.resize(at + (size + 23) / 8 * 8, 0xAA);
        self.live.insert(at, size);
        at as i64
    }

    fn free(&mut self, at: i64) {
        assert!(self.live.remove(&(at as usize)).is_some(), "freed twice, or never made: {at}");
    }

    fn format(&self, format: i64, args: &[i64]) -> String {
        let f = String::from_utf8(self.text(format)).unwrap();
        let mut out = String::new();
        let mut args = args.iter();
        let mut rest = f.as_str();
        while let Some(p) = rest.find('%') {
            out.push_str(&rest[..p]);
            rest = &rest[p + 1..];
            if let Some(r) = rest.strip_prefix("lld") {
                out.push_str(&args.next().unwrap().to_string());
                rest = r;
            } else if let Some(r) = rest.strip_prefix('d') {
                out.push_str(&(*args.next().unwrap() as i32).to_string());
                rest = r;
            } else if let Some(r) = rest.strip_prefix('g') {
                let x = f64::from_bits(*args.next().unwrap() as u64);
                let shown = format!("{x:.5}");
                out.push_str(shown.trim_end_matches('0').trim_end_matches('.'));
                rest = r;
            } else if let Some(r) = rest.strip_prefix('s') {
                out.push_str(&String::from_utf8(self.text(*args.next().unwrap())).unwrap());
                rest = r;
            } else {
                panic!("format {f}");
            }
        }
        out.push_str(rest);
        out
    }

    fn strcmp(&self, a: i64, b: i64) -> i64 {
        i64::from(self.text(a) != self.text(b))
    }

    fn c(&mut self, c: Libc, args: &[i64]) -> Result<i64, Exit> {
        Ok(match c {
            Libc::Printf => {
                let s = self.format(args[0], &args[1..]);
                self.out.push_str(&s);
                s.len() as i64
            }
            Libc::Snprintf => {
                let s = self.format(args[2], &args[3..]);
                if args[0] != 0 {
                    for (k, b) in s.bytes().chain([0]).take(args[1] as usize).enumerate() {
                        self.store(args[0] + k as i64, 1, b as i64);
                    }
                }
                s.len() as i64
            }
            Libc::Strlen => self.text(args[0]).len() as i64,
            Libc::Compare => self.strcmp(args[0], args[1]),
            Libc::Malloc => self.malloc(args[0]),
            Libc::Free => {
                self.free(args[0]);
                0
            }
            Libc::Exit => return Err(Exit(args[0] as i32)),
        })
    }

    fn find(&self, name: &str) -> Option<usize> {
        self.module.functions.iter().position(|f| f.name == name)
    }

    fn call(&mut self, callee: Callee, target: i64, args: Vec<i64>) -> Result<i64, Exit> {
        let name = match callee {
            Callee::C(c) => return self.c(c, &args),
            Callee::Pointer(_) => return self.run((target - CODE) as usize, &args),
            Callee::Symbol(i) => self.module.symbols[i].name.clone(),
            Callee::Runtime(rt) => xia::runtime::name_of(rt).to_string(),
        };
        if let Some(f) = self.find(&name) {
            return self.run(f, &args);
        }
        Ok(match name.as_str() {
            "printf" => self.c(Libc::Printf, &args)?,
            "llabs" => args[0].abs(),
            other => panic!("unknown function {other}"),
        })
    }

    fn size(t: Ty) -> usize {
        match t {
            Ty::I1 | Ty::I8 => 1,
            Ty::I32 => 4,
            _ => 8,
        }
    }

    fn run(&mut self, f: usize, args: &[i64]) -> Result<i64, Exit> {
        let module = self.module;
        let code = &module.functions[f].code;
        let frame = self.stack;
        let mut regs = vec![0i64; code.len()];
        let mut passed = Vec::new();
        let entry = match code[0] {
            Ins::Label(l) => l,
            _ => unreachable!(),
        };
        let (mut here, mut before) = (entry, entry);
        let place = |l: Label| {
            code.iter()
                .position(|i| matches!(i, Ins::Label(m) if *m == l))
                .unwrap()
        };
        let mut pc = 0;
        let result = loop {
            let fns = &module.functions;
            let lits = self.lits.clone();
            let fixed = self.fixed;
            let r = regs.clone();
            let drop_of = |name: &str| {
                CODE + fns
                    .iter()
                    .position(|f| f.name == format!("xia_drop_{name}"))
                    .unwrap() as i64
            };
            let v = |v: Val| match v {
                Val::Reg(n) => r[n],
                Val::Param(n) => args[n],
                Val::Int(n) => n,
                Val::Bool(b) => i64::from(b),
                Val::Float(n) => module.floats[n].parse::<f64>().unwrap().to_bits() as i64,
                Val::Null => 0,
                Val::Lit(n) => lits[n],
                Val::Fixed(Fixed::IntFormat) => fixed[0],
                Val::Fixed(Fixed::FloatFormat) => fixed[1],
                Val::Fixed(Fixed::OutOfBounds) => fixed[2],
                Val::DropStruct(id) => drop_of(&module.struct_names[id as usize]),
                Val::DropEnum(id) => drop_of(&module.enum_names[id as usize]),
            };
            let x = |w: Val| f64::from_bits(v(w) as u64);
            match code[pc] {
                Ins::Label(l) => here = l,
                Ins::Br(l) => {
                    before = here;
                    pc = place(l);
                    continue;
                }
                Ins::CondBr(c, a, b) => {
                    before = here;
                    pc = place(if v(c) != 0 { a } else { b });
                    continue;
                }
                Ins::Ret(_, w) => break v(w),
                Ins::RetVoid => break 0,
                Ins::Unreachable => panic!("unreachable reached"),
                Ins::Alloca(t) => regs[pc] = self.slot(Self::size(t)),
                Ins::Store(t, w, p) => {
                    let (at, word) = (v(p), v(w));
                    self.store(at, Self::size(t), word);
                }
                Ins::Load(t, p) => {
                    let word = self.load(v(p), Self::size(t));
                    regs[pc] = word;
                }
                Ins::Bin(op, t, a, b) => {
                    regs[pc] = match op {
                        Op::Add => v(a).wrapping_add(v(b)),
                        Op::Sub => v(a).wrapping_sub(v(b)),
                        Op::Mul => v(a).wrapping_mul(v(b)),
                        Op::SDiv => v(a).wrapping_div(v(b)),
                        Op::SRem => v(a).wrapping_rem(v(b)),
                        Op::Xor => (v(a) ^ v(b)) & if t == Ty::I1 { 1 } else { -1 },
                        Op::FAdd => (x(a) + x(b)).to_bits() as i64,
                        Op::FSub => (x(a) - x(b)).to_bits() as i64,
                        Op::FMul => (x(a) * x(b)).to_bits() as i64,
                        Op::FDiv => (x(a) / x(b)).to_bits() as i64,
                        Op::FRem => (x(a) % x(b)).to_bits() as i64,
                    }
                }
                Ins::Cmp(p, _, a, b) => {
                    regs[pc] = i64::from(match p {
                        Pred::Eq => v(a) == v(b),
                        Pred::Ne => v(a) != v(b),
                        Pred::Slt => v(a) < v(b),
                        Pred::Sle => v(a) <= v(b),
                        Pred::Sgt => v(a) > v(b),
                        Pred::Sge => v(a) >= v(b),
                        Pred::Ult => (v(a) as u64) < v(b) as u64,
                        Pred::FEq => x(a) == x(b),
                        Pred::FNe => x(a) != x(b),
                        Pred::FLt => x(a) < x(b),
                        Pred::FLe => x(a) <= x(b),
                        Pred::FGt => x(a) > x(b),
                        Pred::FGe => x(a) >= x(b),
                    })
                }
                Ins::FNeg(w) => regs[pc] = (-x(w)).to_bits() as i64,
                Ins::Convert(c, w) => {
                    regs[pc] = match c {
                        Conv::WordBool => v(w) & 1,
                        Conv::Trunc32 | Conv::Sext32 => v(w) as i32 as i64,
                        _ => v(w),
                    }
                }
                Ins::Select(c, _, a, b) => regs[pc] = if v(c) != 0 { v(a) } else { v(b) },
                Ins::Phi(_, a, la, b, lb) => {
                    assert!(before == la || before == lb);
                    regs[pc] = if before == la { v(a) } else { v(b) };
                }
                Ins::Gep(t, p, i) => regs[pc] = v(p) + Self::size(t) as i64 * v(i),
                Ins::Arg(_, w) => passed.push(v(w)),
                Ins::Call(_, callee, n) => {
                    let given: Vec<i64> = std::mem::take(&mut passed);
                    assert_eq!(given.len(), n);
                    let target = match callee {
                        Callee::Pointer(w) => v(w),
                        _ => 0,
                    };
                    let word = self.call(callee, target, given)?;
                    regs[pc] = word;
                }
                Ins::Memcpy(d, s, n, _) => {
                    for k in 0..v(n) {
                        let b = self.load(v(s) + k, 1);
                        self.store(v(d) + k, 1, b);
                    }
                }
            }
            pc += 1;
        };
        self.stack = frame;
        Ok(result)
    }
}

fn compile_and_run(name: &str, source: &str) -> (String, i32) {
    let module = compile_source(&format!("{name}.xia"), source).unwrap();
    let mut m = Machine::new(&module);
    let main = m.find("main").unwrap();
    match m.run(main, &[]) {
        Ok(code) => {
            assert!(m.live.is_empty(), "left at the end: {:?}", m.live);
            (m.out, exit_code(Some(code as i32)) as i32)
        }
        Err(Exit(code)) => (m.out, exit_code(Some(code)) as i32),
    }
}

#[test]
fn fib_prints_sequence_and_exits_zero() {
    let src = "fn fib(n: int) -> int:\n    if n < 2:\n        return n\n    return fib(n - 1) + fib(n - 2)\nfn main() -> int:\n    let i = 0\n    while i <= 10:\n        print(fib(i))\n        i = i + 1\n    return 0\n";
    let (stdout, code) = compile_and_run("e2e_fib", src);
    assert_eq!(stdout, "0\n1\n1\n2\n3\n5\n8\n13\n21\n34\n55\n");
    assert_eq!(code, 0);
}

#[test]
fn exit_code_propagates_from_main() {
    let src = "fn main() -> int:\n    return 42\n";
    let (_, code) = compile_and_run("e2e_exit", src);
    assert_eq!(code, 42);
}

#[test]
fn strings_arc_and_concat() {
    let src = r#"fn greet(name: str) -> str:
    return "hello, " + name + "!"

fn shadow(s: str) -> str:
    let alias = s
    return alias

fn main() -> int:
    let g = greet("world")
    print(g)
    let a = shadow(g)
    a = a + " bye"
    print(a)
    if g == "hello, world!":
        print("eq works")
    let i = 0
    while i < 3:
        let tmp = g + " loop"
        print(tmp)
        i = i + 1
    return 0
"#;
    let (stdout, code) = compile_and_run("e2e_strings", src);
    assert_eq!(
        stdout,
        "hello, world!\nhello, world! bye\neq works\nhello, world! loop\nhello, world! loop\nhello, world! loop\n"
    );
    assert_eq!(code, 0);
}

#[test]
fn for_range_with_break_and_continue() {
    let src = "fn main() -> int:\n    let sum = 0\n    for i in range(10):\n        if i == 2:\n            continue\n        if i == 5:\n            break\n        sum = sum + i\n    for j in range(3, 5):\n        print(j)\n    return sum\n";
    let (stdout, code) = compile_and_run("e2e_for", src);
    assert_eq!(stdout, "3\n4\n");
    assert_eq!(code, 0 + 1 + 3 + 4);
}

#[test]
fn arrays_index_push_len_and_growth() {
    let src = "fn main() -> int:\n    let xs = [10, 20, 30]\n    xs[1] = 21\n    for i in range(100):\n        push(xs, i)\n    print(len(xs))\n    print(xs[1])\n    print(xs[102])\n    let sum = 0\n    for n in [1, 2, 3, 4]:\n        sum = sum + n\n    print(sum)\n    return 0\n";
    let (stdout, code) = compile_and_run("e2e_arrays", src);
    assert_eq!(stdout, "103\n21\n99\n10\n");
    assert_eq!(code, 0);
}

#[test]
fn string_arrays_with_arc() {
    let src = r#"fn names() -> [str]:
    let xs = ["ada", "grace"]
    push(xs, "alan" + " turing")
    return xs

fn main() -> int:
    let xs = names()
    xs[0] = xs[0] + "!"
    for name in xs:
        print(name)
    print(len(xs))
    return 0
"#;
    let (stdout, code) = compile_and_run("e2e_str_arrays", src);
    assert_eq!(stdout, "ada!\ngrace\nalan turing\n3\n");
    assert_eq!(code, 0);
}

#[test]
fn out_of_bounds_index_traps() {
    let src = "fn main() -> int:\n    let xs = [1, 2]\n    print(xs[5])\n    return 0\n";
    let (stdout, code) = compile_and_run("e2e_oob", src);
    assert_eq!(code, 1, "bounds failure must exit(1)");
    assert!(stdout.contains("out of bounds"), "got: {stdout}");
}

#[test]
fn extern_ffi_calls_libc_directly() {
    let src = "extern fn printf(fmt: str, ...) -> int\nextern fn llabs(n: int) -> int\nfn main() -> int:\n    printf(\"%lld\\n\", llabs(0 - 9))\n    return 0\n";
    let (stdout, code) = compile_and_run("e2e_ffi", src);
    assert_eq!(stdout, "9\n");
    assert_eq!(code, 0);
}

#[test]
fn floats_and_bools_print() {
    let src = "fn main() -> int:\n    print(2.5 * 2.0)\n    print(true)\n    print(1 < 2 and not false)\n    return 0\n";
    let (stdout, code) = compile_and_run("e2e_misc", src);
    assert_eq!(stdout, "5\ntrue\ntrue\n");
    assert_eq!(code, 0);
}

#[test]
fn emit_ir_writes_textual_llvm() {
    let module = compile_source("e2e_ir.xia", "fn main() -> int:\n    return 0\n").unwrap();
    let ir = module.to_text();
    assert!(ir.contains("define"));
}

#[test]
fn check_rejects_bad_programs() {
    let stderr = check("e2e_bad.xia", "fn main() -> int:\n    return \"oops\"\n").unwrap_err();
    assert!(stderr.contains("return type mismatch"));
    // Diagnostics point into the source with a caret underline.
    assert!(stderr.contains("e2e_bad.xia:2:12"), "got: {stderr}");
    assert!(stderr.contains("return \"oops\""), "got: {stderr}");
    assert!(stderr.contains("^^^^^^"), "got: {stderr}");
}

#[test]
fn structs_methods_and_interpolation_run() {
    let src = r#"struct Point:
    x: int
    name: str

struct Pair:
    a: Point
    b: Point

fn (p: Point) shifted(by: int) -> Point:
    return Point(p.x + by, p.name + "'")

fn (p: Point) show() -> str:
    return f"{p.name}={p.x}"

fn swap(p: Pair) -> Pair:
    return Pair(p.b, p.a)

fn main():
    let p = Point(1, "p")
    let q = p.shifted(4)
    print(q.show())
    let both = Pair(p, q)
    let back = swap(both)
    print(back.a.show() + " " + back.b.show())
    back.a.x = 7
    print(q.x)
    back.b = back.a
    print(back.b.name)
    p.shifted(1).show()
    p.name = p.name
    print(f"{{{p.name}}} {1 + 2} {true} {2.5}")
"#;
    let (stdout, code) = compile_and_run("structs", src);
    assert_eq!(stdout, "p'=5\np'=5 p=1\n7\np'\n{p} 3 true 2.5\n");
    assert_eq!(code, 0);
}

#[test]
fn enums_and_matches_run() {
    let src = r#"enum List:
    Nil
    Cons(str, List)

enum Shape:
    Circle(int)
    Rect(int, int)
    Nothing

fn area(s: Shape) -> int:
    match s:
        Circle(r): return r * r * 3
        Rect(w, h): return w * h
        _: return 0

fn join(l: List) -> str:
    match l:
        Nil: return "."
        Cons(head, tail): return head + join(tail)

fn build(n: int) -> List:
    let l = Nil
    for i in range(n):
        l = Cons(str(i), l)
    return l

fn main() -> int:
    print(join(build(4)))
    print(join(Cons("x", Cons("y", Nil))))
    let shapes = [Circle(2), Rect(3, 4), Nothing]
    let sum = 0
    for s in shapes:
        sum = sum + area(s)
        match s:
            Rect(w, h):
                if w == 3:
                    continue
            _:
                print("other")
    return sum
"#;
    let (stdout, code) = compile_and_run("enums", src);
    assert_eq!(stdout, "3210.\nxy.\nother\nother\n");
    assert_eq!(code, 24);
}

#[test]
fn nested_arrays_and_loops_run() {
    let src = r#"fn grid(n: int) -> [[str]]:
    let rows: [[str]] = []
    for r in range(n):
        let row: [str] = []
        for c in range(n):
            push(row, str(r) + str(c))
        push(rows, row)
    return rows

fn main() -> int:
    let g = grid(3)
    g[1][2] = g[0][0] + "!"
    for row in g:
        let line = ""
        for cell in row:
            if cell == "01":
                continue
            if cell == "20":
                break
            line = line + cell + " "
        print(line)
    print(len(g[2]) + len(g[1][2]))
    print(grid(2)[1][0])
    return len(grid(5))
"#;
    let (stdout, code) = compile_and_run("grid", src);
    assert_eq!(stdout, "00 02 \n10 11 00! \n\n6\n10\n");
    assert_eq!(code, 5);
}

#[test]
fn short_circuits_do_not_evaluate() {
    let src = r#"fn loud(s: str, b: bool) -> bool:
    print(s)
    return b

fn main():
    print(loud("a" + "1", false) and loud("b", true))
    print(loud("c", true) or loud("d" + "1", false))
    print(loud("e", true) and loud("f" + "1", true) and not loud("g", false))
    let i = 0
    while i < 3 and str(i) + "x" != "2x":
        i = i + 1
    print(i)
    print("a" + "b" == "ab" or "c" + "d" == "x")
"#;
    let (stdout, code) = compile_and_run("sc", src);
    assert_eq!(stdout, "a1\nfalse\nc\ntrue\ne\nf1\ng\ntrue\n2\ntrue\n");
    assert_eq!(code, 0);
}

#[test]
fn early_exits_release_everything() {
    let src = r#"fn pick(xs: [str], want: str) -> str:
    let note = "searching " + want
    for x in xs:
        let shown = x + "?"
        if x == want:
            return shown
        while true:
            let inner = shown + note
            if len(inner) > 3:
                break
            return inner
    return note

fn main():
    let xs = ["a", "b" + "c", "d"]
    print(pick(xs, "bc"))
    print(pick(xs, "zz"))
    let s = pick(xs, "a") + pick(xs, "d")
    s = s
    print(s)
    pick(xs, "x" + "y")
    xs[1] + "lonely"
    len([1, 2, 3])
"#;
    let (stdout, code) = compile_and_run("exits", src);
    assert_eq!(stdout, "bc?\nsearching zz\na?d?\n");
    assert_eq!(code, 0);
}

#[test]
fn shadowed_names_are_counted_apart() {
    let src = r#"fn early(s: str) -> int:
    if true:
        let s = 1
        return s
    return 0

fn inner(s: str) -> str:
    while true:
        let s = s + "?"
        if len(s) > 2:
            let s = s + "!"
            return s
        break
    return s

fn each(xs: [str]) -> str:
    for x in xs:
        if x == "b":
            let x = x + x
            return x
        let n = 0
        while n < 2:
            let x = "y" + x
            n = n + 1
            if x == "ya":
                continue
            break
    return "none"

enum E:
    A(str)
    B

fn arm(e: E, s: str) -> str:
    match e:
        A(s):
            let t = s
            if t == "k":
                let t = t + s
                return t
            return s
        B: return s

fn main():
    let v = "v" + "w"
    print(early(v))
    print(inner(v))
    print(inner(""))
    print(each(["a" + "", "b" + ""]))
    print(each([v]))
    print(arm(A("k" + ""), v))
    print(arm(A("m" + ""), v))
    print(arm(B, v))
    for i in range(2):
        let v = [v, str(i)]
        for v in v:
            print(v)
"#;
    let (stdout, code) = compile_and_run("shadow", src);
    assert_eq!(
        stdout,
        "1\nvw?!\n\nbb\nnone\nkk\nm\nvw\nvw\n0\nvw\n1\n"
    );
    assert_eq!(code, 0);
}

#[test]
fn locals_may_hide_parameters() {
    let src = r#"fn f(s: str, t: str):
    let s = s + t
    let t = len(s)
    print(s + str(t))

fn main():
    let a = "a" + "b"
    f(a, a)
    f(a, a + "!")
    print(a)
"#;
    let (stdout, code) = compile_and_run("hide_params", src);
    assert_eq!(stdout, "abab4\nabab!5\nab\n");
    assert_eq!(code, 0);
}

#[test]
fn bare_variables_stay_alive() {
    let src = r#"fn f(s: str) -> str:
    s
    let t = s + "!"
    t
    t
    return t

fn main():
    print(f("a" + "b"))
"#;
    let (stdout, code) = compile_and_run("bare", src);
    assert_eq!(stdout, "ab!\n");
    assert_eq!(code, 0);
}

#[test]
fn jumps_out_of_loops_release_their_arrays() {
    let src = r#"fn make(n: int) -> [str]:
    let xs = ["a" + str(n)]
    push(xs, "b" + str(n))
    return xs

fn find_it(n: int) -> str:
    for x in make(n):
        for y in make(n + 1):
            if x + y == "b1b2":
                return x
            if y == "b3":
                break
            if x == "a1":
                continue
    return "none"

fn main():
    print(find_it(1))
    print(find_it(2))
"#;
    let (stdout, code) = compile_and_run("held", src);
    assert_eq!(stdout, "b1\nnone\n");
    assert_eq!(code, 0);
}

#[test]
fn destructors_defined_by_the_program_are_not_made_again() {
    let src = "struct Point:\n    name: str\nfn xia_drop_Point(p: Point):\n    print(\"mine\")\nfn main():\n    print(1)\n";
    let module = compile_source("drops.xia", src).unwrap();
    let made = module.functions.iter().filter(|f| f.name == "xia_drop_Point");
    assert_eq!(made.count(), 1);
}
