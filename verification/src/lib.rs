//! Prana: the verified core of a small CPU inference engine.
pub mod arith;
pub mod bench;
pub mod bytes;
pub mod cli;
pub mod demo;
pub mod double_bits;
pub mod engine;
pub mod float_bits;
pub mod graph;
pub mod kernels;
pub mod laws;
pub mod model;
pub mod tensor;
pub mod text;
