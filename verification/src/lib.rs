//! Execution core of a language that compiles to Geometry Dash level data:
//! the value arena, the bytecode, the context-splitting interpreter and the
//! pass that resolves arbitrary ids and serialises the emitted objects.

pub mod blocks;
pub mod bytecode;
pub mod calls;
pub mod contexts;
pub mod control;
pub mod data;
pub mod display;
pub mod emit;
pub mod equality;
pub mod error;
pub mod float;
pub mod flow;
pub mod globals;
pub mod ids;
pub mod interpreter;
pub mod iteration;
pub mod level;
pub mod macros;
pub mod machine;
pub mod memory;
pub mod objects;
pub mod ops;
pub mod packages;
pub mod resolve;
pub mod serialize;
pub mod sources;
pub mod text;
pub mod value;
pub mod value_ops;
