//! A small scripting-language toolchain: source text is tokenized, parsed
//! into a syntax tree, lowered into a flat bytecode program with a
//! deduplicated constant pool, and executed by a stack-based virtual
//! machine whose procedure calls are performed by splicing the callee's
//! instructions into the running program and relocating jump targets.

pub mod ast;
pub mod compiler;
pub mod lexer;
pub mod parser;
pub mod value;
pub mod vm;
