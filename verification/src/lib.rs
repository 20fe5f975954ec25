//! An optimizing compiler for Brainfuck, with a control-flow graph of basic
//! blocks and value-numbered byte computations in an e-graph.

pub mod arena;
pub mod ast;
pub mod node;
pub mod egraph;
pub mod block;
pub mod cfg;
pub mod parse;
pub mod pretty;
pub mod properties;
pub mod run;
pub mod optimize;
