//! A compiler for Pajson, an emoji programming language, to C.
//!
//! The pipeline has three stages: [`tokenizer`] turns source characters into
//! tokens, [`parser`] builds a syntax tree from the tokens and checks that every
//! variable is assigned before it is read, and [`compiler`] prints the tree as
//! a C program.
#![allow(non_snake_case)]

pub mod text;
pub mod scan;
pub mod tokenizer;
pub mod parser;
pub mod compiler;
pub mod scan_laws;
pub mod parse_laws;
pub mod expr_laws;
