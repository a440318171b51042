//! Core of an ahead-of-time compiler for MiniJava: a position-tracked ASCII
//! source view, diagnostics, the lexer, the parser and the printer of
//! syntax trees, semantic analysis, a sea-of-nodes graph, its lowering to
//! a block-structured low-level representation, and linear-scan register
//! allocation for x86-64.
pub mod asciifile;
pub mod firm;
pub mod lowering;
pub mod strtab;
pub mod ast;
pub mod type_checking;
pub mod optimization;
pub mod lexer;
pub mod parser;
pub mod print;
pub mod diagnostics;
