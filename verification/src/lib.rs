//! Etch: the verified core of a circuit-description language toolchain.
//!
//! The crate holds the parts of the toolchain that are pure logic over
//! characters, integers and finite collections: the lexer, the parser and
//! name resolution of the Etch language, value-with-diagnostics
//! accumulation, the semantic type algebra, an S-expression reader/printer
//! for KiCad library data, editor support (highlighting, positions,
//! completions, hovers and semantic tokens), KiCad symbol-library
//! text processing, circuit connectivity, schematic layering, the checks
//! the interpreter makes before a native call, import-path normalization,
//! and the command-line rules on file names, simulation steps and reports.
pub mod results;
pub mod text;
pub mod sexpr;
pub mod highlighting;
pub mod ast;
pub mod operations;
pub mod tokenizer;
pub mod kicad;
pub mod circuit;
pub mod layering;
pub mod resolver;
pub mod semantic;
pub mod lexer;
pub mod parser;
pub mod scoping;
pub mod compile;
pub mod typing;
pub mod cli;
pub mod natives;
pub mod paths;
pub mod editor;
