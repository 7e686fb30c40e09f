//! A small expression-language compiler core: an SSA-style intermediate
//! representation, lowering from the syntax tree, constant folding, and a
//! code generator that lays nested conditionals out as basic blocks.

pub mod ast;
pub mod lexer;
pub mod parser;
pub mod ir;
pub mod sem;
pub mod lower;
pub mod opt;
pub mod codegen;
pub mod run;
pub mod laws;
pub mod round_trip;
