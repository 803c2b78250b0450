//! The pipeline from source text to IR text (lex, parse, analyze, count
//! references, lower), and the decisions of the `xia` command line.
use vstd::prelude::*;
use crate::arc::ArcInserter;
use crate::ast::{Program, ProgramV};
use crate::backend::OptLevel;
use crate::codegen::{CodeGen, Module};
use crate::counting::arc_program;
use crate::diag::{rendered, Diagnostic, Fault, Span};
use crate::grammar::program_of;
use crate::lexer::lexed;
use crate::lowering::{lowered, ModuleV};
use crate::parser::parse;
use crate::printing::module_text;
use crate::resolution::law_types_resolve;
use crate::sema::Analyzer;
use crate::text::cat2;
use crate::typing::{analyzed, fresh_state};

verus! {

/// The program that a source text spells, type-checked, or the first fault.
pub open spec fn checked_source(source: Seq<char>) -> Result<ProgramV, Fault> {
    match program_of(source) {
        Err(f) => Err(f),
        Ok(p) => if p.enums.len() > u32::MAX {
            Err(too_many_enums())
        } else {
            let (p1, st, r) = analyzed(fresh_state(), p);
            match r {
                Ok(_) => Ok(p1),
                Err(f) => Err(f),
            }
        },
    }
}

/// Enums are numbered by 32 bits.
pub open spec fn too_many_enums() -> Fault {
    Fault { span: Span::of_line(0), message: "too many enums"@ }
}

/// The phase that finds the first fault of a source text.
pub open spec fn faulty_phase(source: Seq<char>) -> Seq<char> {
    if lexed(source) is Err {
        "lex"@
    } else if program_of(source) is Err {
        "parse"@
    } else {
        "semantic"@
    }
}

/// Lexes, parses and type-checks a source text.
pub fn analyze_source(source: &str) -> (r: Result<Program, Diagnostic>)
    ensures
        match r {
            Ok(p) => checked_source(source@) == Ok::<_, Fault>(p@),
            Err(d) => {
                &&& checked_source(source@) matches Err(f) && d.span == f.span && d.message@
                    == f.message
                &&& d.phase@ == faulty_phase(source@)
            },
        },
{
    let mut program = match parse(source) {
        Ok(p) => p,
        Err(d) => {
            return Err(d);
        },
    };
    assert(program@.enums.len() == program.enums@.len());
    if program.enums.len() > u32::MAX as usize {
        return Err(
            Diagnostic {
                phase: "semantic",
                span: Span::line_only(0),
                message: String::from_str("too many enums"),
            },
        );
    }
    proof {
        law_types_resolve(source@);
    }
    let mut analyzer = Analyzer::new();
    match analyzer.analyze(&mut program) {
        Ok(_) => Ok(program),
        Err(e) => Err(e.into_diagnostic()),
    }
}

/// The front end: a source text to a typed program, or a rendered diagnostic.
pub fn frontend(path: &str, source: &str) -> (r: Result<Program, String>)
    ensures
        match r {
            Ok(p) => checked_source(source@) == Ok::<_, Fault>(p@),
            Err(m) => checked_source(source@) matches Err(f) && m@ == rendered(
                f.message,
                f.span,
                path@,
                source@,
            ),
        },
{
    match analyze_source(source) {
        Ok(p) => Ok(p),
        Err(d) => Err(d.render(path, source)),
    }
}

/// Type-checks a source text without generating code.
pub fn check(path: &str, source: &str) -> (r: Result<(), String>)
    ensures
        match r {
            Ok(_) => checked_source(source@) is Ok,
            Err(m) => checked_source(source@) matches Err(f) && m@ == rendered(
                f.message,
                f.span,
                path@,
                source@,
            ),
        },
{
    match frontend(path, source) {
        Ok(_) => Ok(()),
        Err(m) => Err(m),
    }
}

/// What a typed program is compiled to.
pub open spec fn compiled(p: ProgramV) -> Result<ModuleV, Seq<char>> {
    lowered(arc_program(0, p).0)
}

/// Counts references and lowers a typed program.
pub fn compile_program(program: Program) -> (r: Result<Module, String>)
    ensures
        match r {
            Ok(m) => compiled(program@) == Ok::<_, Seq<char>>(m@),
            Err(e) => compiled(program@) matches Err(f) && e@ == f,
        },
{
    let mut counted = program;
    let mut arc = ArcInserter::new();
    arc.run(&mut counted);
    let mut cg = CodeGen::new();
    match cg.compile(&counted) {
        Ok(_) => Ok(cg.module),
        Err(m) => Err(m),
    }
}

/// The whole pipeline: a source text to a module, or what is wrong.
pub fn compile_source(path: &str, source: &str) -> (r: Result<Module, String>)
    ensures
        match checked_source(source@) {
            Err(f) => r matches Err(m) && m@ == rendered(f.message, f.span, path@, source@),
            Ok(p) => match compiled(p) {
                Ok(module) => r matches Ok(m) && m@ == module,
                Err(e) => r matches Err(m) && m@ == e,
            },
        },
{
    match frontend(path, source) {
        Ok(p) => compile_program(p),
        Err(m) => Err(m),
    }
}

/// The one-line form of a fault.
pub open spec fn fault_line(phase: Seq<char>, f: Fault) -> Seq<char> {
    phase + " error (line "@ + crate::text::dec(f.span.line as nat) + "): "@ + f.message
}

/// Run the full front-end + codegen pipeline, returning the IR as text.
pub fn compile_to_ir(source: &str) -> (r: Result<String, String>)
    ensures
        match checked_source(source@) {
            Err(f) => r matches Err(m) && m@ == fault_line(faulty_phase(source@), f),
            Ok(p) => match compiled(p) {
                Ok(module) => r matches Ok(s) && s@ == module_text(module),
                Err(e) => r matches Err(m) && m@ == e,
            },
        },
{
    let program = match analyze_source(source) {
        Ok(p) => p,
        Err(d) => {
            return Err(d.to_text());
        },
    };
    match compile_program(program) {
        Ok(m) => Ok(m.to_text()),
        Err(m) => Err(m),
    }
}

// ----- the command line -----------------------------------------------------------------------
/// The level that the flags ask for; size wins over speed.
pub fn pick_opt(release: bool, opt_size: bool) -> (o: OptLevel)
    ensures
        o == (if opt_size {
            OptLevel::Size
        } else if release {
            OptLevel::Speed
        } else {
            OptLevel::Unoptimized
        }),
{
    if opt_size {
        OptLevel::Size
    } else if release {
        OptLevel::Speed
    } else {
        OptLevel::Unoptimized
    }
}

/// What a build produces.
#[derive(Debug, Clone, Copy, PartialEq, Eq, Structural)]
pub enum Emit {
    /// Textual LLVM IR (.ll)
    Ir,
    /// A relocatable object file (.o / .obj)
    Obj,
    /// A linked native executable
    Exe,
}

/// The extension of a file of that sort.
pub open spec fn extension(emit: Emit, windows: bool) -> Seq<char> {
    match emit {
        Emit::Ir => ".ll"@,
        Emit::Obj => if windows {
            ".obj"@
        } else {
            ".o"@
        },
        Emit::Exe => if windows {
            ".exe"@
        } else {
            ""@
        },
    }
}

/// The file name that a source file's stem gives an output.
pub fn output_name(stem: &str, emit: Emit, windows: bool) -> (s: String)
    ensures
        s@ == stem@ + extension(emit, windows),
{
    let ext = match emit {
        Emit::Ir => ".ll",
        Emit::Obj => if windows {
            ".obj"
        } else {
            ".o"
        },
        Emit::Exe => if windows {
            ".exe"
        } else {
            ""
        },
    };
    cat2(stem, ext)
}

/// An executable can be linked for the host alone.
pub fn check_target(given: bool, triple: &str, host: &str) -> (r: Result<(), String>)
    ensures
        match r {
            Ok(_) => !given || triple@ == host@,
            Err(m) => given && triple@ != host@ && m@
                == "cross-linking is not supported; use --emit obj and link on the target system"@,
        },
{
    if given && !crate::text::same(triple, host) {
        Err(
            String::from_str(
                "cross-linking is not supported; use --emit obj and link on the target system",
            ),
        )
    } else {
        Ok(())
    }
}

/// The exit code to hand on: that of the program, held to a byte; one where a
/// signal ended it.
pub fn exit_code(status: Option<i32>) -> (code: u8)
    ensures
        code == (match status {
            None => 1int,
            Some(n) => if n < 0 {
                0
            } else if n > 255 {
                255
            } else {
                n as int
            },
        }),
{
    match status {
        None => 1,
        Some(n) => if n < 0 {
            0
        } else if n > 255 {
            255
        } else {
            n as u8
        },
    }
}

} // verus!
