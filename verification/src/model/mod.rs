//! Models: weights, tokenizers, the forward pass and generation.
pub mod any_tokenizer;
pub mod bpe;
pub mod checkpoint;
pub mod config;
pub mod generate;
pub mod gguf;
pub mod gguf_format;
pub mod gguf_load;
pub mod gguf_tokenizer;
pub mod infer;
pub mod infer_team;
pub mod messages;
pub mod pieces;
pub mod pretokenize;
pub mod sampler;
pub mod team_pass;
pub mod tokenizer;
pub mod weights;
pub mod work;

pub use config::{Activation, Config, Precision};
pub use sampler::{Sampler, XorShift};
pub use weights::{Embedding, Layer, Linear, Model};
