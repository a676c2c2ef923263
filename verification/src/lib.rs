//! An eight-symbol instruction set over a flat byte tape, with two execution
//! strategies: a tree-walking reference interpreter (`machine`), and a
//! lowering of the operator tree into a control-flow-graph shaped unit of
//! basic blocks (`codegen`), runnable in process or serialized for an
//! external native backend.
//!
//! The operator tree is built by either of two front ends — a byte-to-token
//! lexer feeding a single-pass bracket-matching builder, or a grammar-driven
//! parser emitting a tree of Command and Loop nodes — which
//! `ast::grammar::theorem_front_ends_agree` proves interchangeable. The
//! interpreter and the unit runner both compute a fuel-metered reference
//! semantics exactly, and `codegen::theorem_backends_agree` proves that a
//! lowered unit reproduces the interpreter's behaviour — output, tape,
//! cursor, and failures — for every program and every input.

pub mod ast;
pub mod codegen;
pub mod machine;
pub mod tape;
