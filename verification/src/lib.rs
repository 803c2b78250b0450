//! The Xia compiler as a library: lexing, parsing, type checking, reference
//! counting and lowering to LLVM IR text.
pub mod acceptance;
pub mod agreement;
pub mod arc;
pub mod ast;
pub mod backend;
pub mod balance;
pub mod branching;
pub mod calling;
pub mod codegen;
pub mod computing;
pub mod constants;
pub mod counting;
pub mod declarations;
pub mod denotation;
pub mod destructors;
pub mod diag;
pub mod driver;
pub mod execution;
pub mod flow;
pub mod grammar;
pub mod ir;
pub mod layout;
pub mod lexer;
pub mod linker;
pub mod lowering;
pub mod machine;
pub mod naming;
pub mod operators;
pub mod order;
pub mod parser;
pub mod phrases;
pub mod printing;
pub mod reading;
pub mod recheck;
pub mod resolution;
pub mod restoring;
pub mod rules;
pub mod runtime;
pub mod sema;
pub mod shape;
pub mod soundness;
pub mod spelling;
pub mod text;
pub mod statements;
pub mod tidy;
pub mod tools;
pub mod typing;
pub mod wording;
pub mod writing;
