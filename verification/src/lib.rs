//! A compiler for the SITPL teaching language: a lexer with significant
//! indentation, a recursive-descent parser, a scope-aware symbol table that
//! allocates VM registers, a generator of VM assembly text and an assembler
//! that turns that text into the VM's binary format.

pub mod text;
pub mod ast;
pub mod lexer;
pub mod parser;
pub mod semantic;
pub mod codegen;
pub mod vm_format;
pub mod assembler;
