//! kanso: the front end and runtime pieces of an interpreter for a language
//! whose programs have one canonical rendering.

pub mod ast;
pub mod diag;
pub mod eval;
pub mod hako;
pub mod handed;
pub mod hash;
pub mod infer;
pub mod inline;
pub mod lexer;
pub mod linear;
pub mod number;
pub mod passes;
pub mod text;
