//! Hyperparameters of a model.
use vstd::prelude::*;

verus! {

/// The single 10000, the usual RoPE frequency base.
pub const ROPE_THETA_DEFAULT: u32 = 0x461c_4000;

/// The single 1e-5, RMSNorm epsilon of llama models.
pub const NORM_EPS_LLAMA: u32 = 0x3727_c5ac;

/// The single 1e-6, RMSNorm epsilon of qwen2 and gemma models.
pub const NORM_EPS_SMALL: u32 = 0x3586_37bd;

/// MLP gate activation.
#[derive(Debug, Clone, Copy, PartialEq, Eq, Structural)]
pub enum Activation {
    /// SwiGLU gate (Llama, Qwen2, TinyStories).
    Silu,
    /// Tanh-approximated GELU gate (Gemma).
    GeluTanh,
}

/// Weight precision selected at load time.
#[derive(Debug, Clone, Copy, PartialEq, Eq, Structural)]
pub enum Precision {
    F32,
    /// Re-quantize all projection matrices to Q8 groups at load.
    Q8,
}

/// Model hyperparameters, from a checkpoint header or GGUF metadata. Real
/// numbers are singles, by their bits.
#[derive(Debug, Clone, Copy, PartialEq, Eq, Structural)]
pub struct Config {
    pub dim: usize,
    pub hidden_dim: usize,
    pub n_layers: usize,
    pub n_heads: usize,
    pub n_kv_heads: usize,
    pub vocab_size: usize,
    pub seq_len: usize,
    /// The classifier shares the token-embedding matrix.
    pub shared_classifier: bool,
    /// RoPE frequency base.
    pub rope_theta: u32,
    /// Per-head width; usually `dim / n_heads`, but Gemma decouples them.
    pub head_dim: usize,
    /// RMSNorm epsilon.
    pub norm_eps: u32,
    /// Rotate across half heads (Qwen2, Gemma) instead of adjacent pairs.
    pub rope_neox: bool,
    /// MLP gate activation.
    pub act: Activation,
    /// Token embedding scale on lookup; the square root of `dim` for Gemma.
    pub emb_scale: u32,
}

impl Config {
    /// Width of the keys and values of one position.
    pub open spec fn kv_width(self) -> int {
        self.n_kv_heads * self.head_dim
    }

    /// Width of the queries of one position.
    pub open spec fn q_width(self) -> int {
        self.n_heads * self.head_dim
    }

    pub fn kv_dim(&self) -> (n: usize)
        requires
            self.kv_width() <= usize::MAX,
        ensures
            n == self.kv_width(),
    {
        self.n_kv_heads * self.head_dim
    }

    pub fn q_dim(&self) -> (n: usize)
        requires
            self.q_width() <= usize::MAX,
        ensures
            n == self.q_width(),
    {
        self.n_heads * self.head_dim
    }
}

} // verus!
