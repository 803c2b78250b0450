//! What holds of every program, seen on some.
use xia::codegen::FnCode;
use xia::driver::{analyze_source, check, compile_program, compile_source, compile_to_ir};
use xia::ir::{Callee, Ins, Label, Libc, Mark, Rt, Ty, Val};
use xia::lexer::{lex, TokKind};
use xia::sema::Analyzer;

const PROGRAMS: [&str; 6] = [
    "fn fib(n: int) -> int:\n    if n < 2:\n        return n\n    return fib(n - 1) + fib(n - 2)\nfn main() -> int:\n    print(fib(10))\n    return 0\n",
    "fn main():\n    let xs = [\"a\", \"b\"]\n    for x in xs:\n        if x == \"a\" or x == \"b\" and len(x) > 0:\n            continue\n        print(x + \"!\")\n    push(xs, \"c\")\n    while len(xs) > 100:\n        break\n",
    "struct P:\n    x: int\n    name: str\nfn (p: P) show() -> str:\n    return p.name + str(p.x)\nfn main():\n    let p = P(1, \"a\")\n    p.name = p.show()\n    print(f\"{p.show()} {p.x}\")\n",
    "enum L:\n    Nil\n    Cons(int, L)\nfn sum(l: L) -> int:\n    match l:\n        Nil: return 0\n        Cons(n, rest): return n + sum(rest)\nfn main() -> int:\n    return sum(Cons(1, Cons(2, Nil)))\n",
    "fn main():\n    let grid = [[1, 2], [3]]\n    grid[0][1] = 5\n    for i in range(1, 3):\n        for row in grid:\n            if len(row) == i:\n                break\n            elif true:\n                continue\n            else:\n                print(i)\n",
    "extern fn getenv(name: str) -> str\nextern fn sqrt(x: float) -> float\nfn main():\n    let h = getenv(\"HOME\")\n    h\n    print(sqrt(2.0) * 1.5)\n    print(not (1 > 2) == true)\n",
];

fn functions(src: &str) -> Vec<FnCode> {
    let p = match analyze_source(src) {
        Ok(p) => p,
        Err(d) => panic!("{}", d.to_text()),
    };
    compile_program(p).unwrap().functions
}

fn targets(i: &Ins) -> Vec<Label> {
    match i {
        Ins::Br(a) => vec![*a],
        Ins::CondBr(_, a, b) => vec![*a, *b],
        Ins::Phi(_, _, a, _, b) => vec![*a, *b],
        _ => vec![],
    }
}

#[test]
fn branches_stay_inside() {
    for src in PROGRAMS {
        for f in functions(src) {
            let mut blocks: Vec<Label> = Vec::new();
            for i in &f.code {
                if let Ins::Label(l) = i {
                    assert!(!blocks.contains(l), "{} {:?}", f.name, l);
                    blocks.push(*l);
                }
            }
            for i in &f.code {
                for l in targets(i) {
                    assert!(blocks.contains(&l), "{} {:?}", f.name, l);
                }
            }
        }
    }
}

fn operands(i: &Ins) -> Vec<Val> {
    match *i {
        Ins::CondBr(v, _, _)
        | Ins::Ret(_, v)
        | Ins::Load(_, v)
        | Ins::FNeg(v)
        | Ins::Convert(_, v)
        | Ins::Arg(_, v) => vec![v],
        Ins::Store(_, a, b) | Ins::Bin(_, _, a, b) | Ins::Cmp(_, _, a, b) | Ins::Gep(_, a, b) => {
            vec![a, b]
        }
        Ins::Phi(_, a, _, b, _) => vec![a, b],
        Ins::Select(a, _, b, c) | Ins::Memcpy(a, b, c, _) => vec![a, b, c],
        _ => vec![],
    }
}

#[test]
fn values_come_first() {
    for src in PROGRAMS {
        for f in functions(src) {
            if f.name == "xia_release" {
                continue;
            }
            for (at, i) in f.code.iter().enumerate() {
                for v in operands(i) {
                    if let Val::Reg(r) = v {
                        assert!(r < at, "{} {at}", f.name);
                    }
                }
                if let Ins::Call(_, _, n) = i {
                    assert!(f.code[at - n..at].iter().all(|a| matches!(a, Ins::Arg(..))));
                }
            }
        }
    }
}

#[test]
fn what_is_accepted_is_compiled() {
    for src in PROGRAMS {
        assert!(check("p.xia", src).is_ok());
        assert!(compile_source("p.xia", src).is_ok());
    }
}

#[test]
fn what_is_left_to_lowering() {
    let cases = [
        ("fn main():\n    print(find(\"ab\", \"b\"))\n", "codegen: unknown function `find` (line 2)"),
        ("fn main():\n    print(pop([1]))\n", "codegen: unknown function `pop` (line 2)"),
        ("fn f(s: str) -> str:\n    return s[0]\n", "codegen: indexing a non-array"),
        ("fn f():\n    return print(1)\n", "codegen: `print` returns no value (line 2)"),
        ("fn f(b: bool) -> str:\n    while b:\n        return \"x\"\n", "function `f` may end without returning a str value"),
        ("fn main(n: int):\n    print(n)\n", "codegen: `main` must not take parameters"),
    ];
    for (src, expected) in cases {
        assert!(check("p.xia", src).is_ok(), "{src}");
        assert_eq!(compile_to_ir(src).unwrap_err(), expected);
    }
}

#[test]
fn lines_are_joined_inside_brackets() {
    let toks = lex("let xs = [\n    1,\n        2 # two\n\n]\nf(\n  x)\n").unwrap();
    let mut depth = 0;
    for t in &toks {
        match t.kind {
            TokKind::LBracket | TokKind::LParen => depth += 1,
            TokKind::RBracket | TokKind::RParen => depth -= 1,
            TokKind::Newline | TokKind::Indent | TokKind::Dedent => assert_eq!(depth, 0),
            _ => {}
        }
    }
    let newlines = toks.iter().filter(|t| t.kind == TokKind::Newline).count();
    assert_eq!(newlines, 2);
    // a bracket that is never closed leaves only the dedents of open blocks
    let toks = lex("if a:\n    f(\n").unwrap();
    let last: Vec<TokKind> = toks.into_iter().rev().take(3).map(|t| t.kind).collect();
    assert_eq!(last, [TokKind::Eof, TokKind::Dedent, TokKind::LParen]);
}

#[test]
fn continue_goes_to_the_increment() {
    let fns = functions("fn f(n: int):\n    for i in range(n):\n        continue\n");
    let code = &fns.iter().find(|f| f.name == "f").unwrap().code;
    let at = code
        .iter()
        .position(|i| matches!(i, Ins::Label(l) if l.mark == Mark::ForInc))
        .unwrap();
    let next = match code[at] {
        Ins::Label(l) => l,
        _ => unreachable!(),
    };
    assert!(matches!(code[at - 1], Ins::Br(l) if l == next));
    assert!(matches!(code[at + 1], Ins::Load(Ty::I64, _)));
    assert!(matches!(code[at + 2], Ins::Bin(_, Ty::I64, _, Val::Int(1))));
    assert!(matches!(code[at + 3], Ins::Store(Ty::I64, _, _)));
    assert!(matches!(code[at + 4], Ins::Br(l) if l.mark == Mark::ForCond));
}

/// Runs straight-line code on a memory of words; calls are answered from
/// `returns` and logged.
fn run(code: &[Ins], args: &[i64], returns: &[i64], mem: &mut Vec<i64>) -> (Vec<(Callee, Vec<i64>)>, Option<i64>) {
    let mut regs = vec![0i64; code.len()];
    let mut log = Vec::new();
    let mut passed = Vec::new();
    let mut pc = 0;
    let place = |l: Label| {
        code.iter()
            .position(|i| matches!(i, Ins::Label(m) if *m == l))
            .unwrap()
    };
    loop {
        let value = |v: Val| match v {
            Val::Reg(n) => regs[n],
            Val::Param(n) => args[n],
            Val::Int(n) => n,
            _ => 0,
        };
        match code[pc] {
            Ins::Label(_) => {}
            Ins::Br(l) => {
                pc = place(l);
                continue;
            }
            Ins::CondBr(c, a, b) => {
                pc = place(if value(c) != 0 { a } else { b });
                continue;
            }
            Ins::Ret(_, v) => return (log, Some(value(v))),
            Ins::RetVoid => return (log, None),
            Ins::Cmp(_, _, a, b) => regs[pc] = i64::from(value(a) == value(b)),
            Ins::Bin(_, _, a, b) => regs[pc] = value(a) + value(b),
            Ins::Gep(t, p, x) => {
                regs[pc] = value(p) + if t == Ty::I64 { 8 * value(x) } else { value(x) }
            }
            Ins::Load(_, p) => regs[pc] = mem[value(p) as usize],
            Ins::Store(_, v, p) => {
                let (at, word) = (value(p) as usize, value(v));
                mem[at] = word;
            }
            Ins::Memcpy(d, s, n, _) => {
                for k in 0..value(n) {
                    let word = mem[(value(s) + k) as usize];
                    mem[(value(d) + k) as usize] = word;
                }
            }
            Ins::Arg(_, v) => passed.push(value(v)),
            Ins::Call(_, callee, _) => {
                regs[pc] = returns.get(log.len()).copied().unwrap_or(0);
                log.push((callee, std::mem::take(&mut passed)));
            }
            other => panic!("{other:?}"),
        }
        pc += 1;
    }
}

#[test]
fn concatenation_holds_both_texts() {
    let fns = functions("fn f(a: str, b: str) -> str:\n    return a + b\n");
    let code = &fns.iter().find(|f| f.name == "xia_str_concat").unwrap().code;
    let mut mem = vec![9i64; 64];
    mem[10] = 'h' as i64;
    mem[11] = 'i' as i64;
    mem[20] = '!' as i64;
    let (log, result) = run(code, &[10, 20], &[2, 1, 40], &mut mem);
    assert_eq!(result, Some(40));
    assert_eq!(
        log,
        [
            (Callee::C(Libc::Strlen), vec![10]),
            (Callee::C(Libc::Strlen), vec![20]),
            (Callee::Runtime(Rt::AllocStr), vec![3]),
        ]
    );
    assert_eq!(mem[40..45], ['h' as i64, 'i' as i64, '!' as i64, 0, 9]);
}

#[test]
fn destructors_release_what_is_owned() {
    let fns = functions("struct P:\n    a: str\n    n: int\n    b: [int]\nfn main():\n    let p = P(\"x\", 1, [2])\n    print(p.n)\n");
    let code = &fns.iter().find(|f| f.name == "xia_drop_P").unwrap().code;
    let mut mem = vec![0i64; 64];
    mem[8] = 100;
    mem[16] = 200;
    mem[24] = 300;
    let (log, _) = run(code, &[8], &[], &mut mem);
    assert_eq!(
        log,
        [
            (Callee::Runtime(Rt::Release), vec![100]),
            (Callee::Runtime(Rt::Release), vec![300]),
        ]
    );
    let fns = functions("enum E:\n    A(int)\n    B(str, int, str)\n    C(str)\nfn main():\n    let e = C(\"x\")\n    match e:\n        _: print(1)\n");
    let code = &fns.iter().find(|f| f.name == "xia_drop_E").unwrap().code;
    let released = |tag: i64| {
        let mut mem = vec![0i64; 64];
        mem[8] = tag;
        mem[16] = 100;
        mem[24] = 200;
        mem[32] = 300;
        let (log, _) = run(code, &[8], &[], &mut mem);
        log.into_iter().map(|(_, args)| args[0]).collect::<Vec<i64>>()
    };
    assert_eq!(released(0), Vec::<i64>::new());
    assert_eq!(released(1), [100, 300]);
    assert_eq!(released(2), [100]);
}

#[test]
fn analysis_settles_a_program() {
    for src in PROGRAMS {
        let once = analyze_source(src).unwrap();
        let mut twice = analyze_source(src).unwrap();
        assert!(Analyzer::new().analyze(&mut twice).is_ok(), "{src}");
        assert_eq!(once, twice);
    }
}
