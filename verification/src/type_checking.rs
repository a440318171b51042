//! Semantic analysis: the declarations of a program are collected into a
//! type system, and then every method body is checked against it.
pub mod type_system;
pub mod scoped;
pub mod method_body_typechecker;
pub mod semantics;
