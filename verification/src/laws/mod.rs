//! What the operations are for, said of their results.
//!
//! The contracts say what each function computes; the laws in here say what follows
//! for whoever uses it: which inputs a result depends on, how the results of two calls
//! relate, and what every value of a result is in terms of the operations on singles.
pub mod attention;
pub mod bpe;
pub mod checkpoint_file;
pub mod command_line;
pub mod encoding;
pub mod engine;
pub mod floats;
pub mod forward;
pub mod generation;
pub mod gguf_file;
pub mod graph;
pub mod loading;
pub mod numerics;
pub mod packing;
pub mod quantization;
pub mod sampling;
pub mod sentence;
pub mod sharing;
pub mod trials;
pub mod vocabulary;
pub mod wording;
