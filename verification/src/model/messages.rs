//! Errors of the loaders in words.
use crate::model::checkpoint::CheckpointError;
use crate::model::gguf::{GGML_Q4_0, GGML_Q8_0};
use crate::model::gguf_format::{ErrorView, GgufError};
use crate::model::tokenizer::TokenizerError;
use crate::text::{decimal, owned, push_decimal, same_text};
use vstd::prelude::*;

verus! {

impl CheckpointError {
    /// The error in words.
    pub open spec fn text(self) -> Seq<char> {
        match self {
            CheckpointError::Truncated => "checkpoint truncated"@,
            CheckpointError::BadHeader => "bad checkpoint header"@,
        }
    }

    /// The error in words.
    pub fn message(&self) -> (m: String)
        ensures
            m@ == self.text(),
    {
        match self {
            CheckpointError::Truncated => owned("checkpoint truncated"),
            CheckpointError::BadHeader => owned("bad checkpoint header"),
        }
    }
}

impl TokenizerError {
    /// The error in words.
    pub open spec fn text(self) -> Seq<char> {
        match self {
            TokenizerError::Truncated => "tokenizer.bin truncated"@,
        }
    }

    /// The error in words.
    pub fn message(&self) -> (m: String)
        ensures
            m@ == self.text(),
    {
        match self {
            TokenizerError::Truncated => owned("tokenizer.bin truncated"),
        }
    }
}

impl ErrorView {
    /// The error in words.
    pub open spec fn text(self) -> Seq<char> {
        match self {
            ErrorView::Truncated => "gguf truncated"@,
            ErrorView::BadMagic => "not a GGUF file (bad magic)"@,
            ErrorView::UnsupportedVersion(v) => "unsupported GGUF version "@ + decimal(v as nat),
            ErrorView::UnsupportedValueType(t) => "unsupported gguf value type "@ + decimal(
                t as nat,
            ),
            ErrorView::MissingTensor(n) => "missing tensor '"@ + n + "'"@,
            ErrorView::OutOfRange => "tensor data out of range"@,
            ErrorView::NotBlockAligned(n, t) => if t == GGML_Q8_0 {
                "Q8_0 tensor '"@ + n + "' not block-aligned"@
            } else if t == GGML_Q4_0 {
                "Q4_0 tensor '"@ + n + "' not block-aligned"@
            } else {
                "K-quant tensor '"@ + n + "' not 256-aligned"@
            },
            ErrorView::UnsupportedType(n, t) => "tensor '"@ + n + "': unsupported ggml type "@
                + decimal(t as nat),
            ErrorView::NotTwoDimensional(n) => "tensor '"@ + n + "' is not 2-D"@,
            ErrorView::MissingMetadata(key) => if key == "general.architecture"@ || key
                == "tokenizer.ggml.tokens"@ {
                "missing "@ + key
            } else {
                "missing metadata '"@ + key + "'"@
            },
            ErrorView::UnsupportedArchitecture(a) => "unsupported architecture '"@ + a
                + "' (only llama, qwen2 and gemma)"@,
            ErrorView::ScoreMismatch => "tokenizer scores do not match the vocabulary"@,
            ErrorView::EmbeddingMismatch => "token_embd.weight size mismatch with vocab"@,
            ErrorView::BadHeads => "attention heads do not fit together"@,
        }
    }
}

/// `before`, then `name`, then `after`.
fn around(before: &str, name: &str, after: &str) -> (m: String)
    ensures
        m@ == before@ + name@ + after@,
{
    let mut m = owned(before);
    m.push_str(name);
    m.push_str(after);
    m
}

/// `before`, then a number.
fn numbered(before: &str, n: u32) -> (m: String)
    ensures
        m@ == before@ + decimal(n as nat),
{
    let mut m = owned(before);
    push_decimal(&mut m, n as u64);
    m
}

impl GgufError {
    /// The error in words.
    pub fn message(&self) -> (m: String)
        ensures
            m@ == self@.text(),
    {
        match self {
            GgufError::Truncated => owned("gguf truncated"),
            GgufError::BadMagic => owned("not a GGUF file (bad magic)"),
            GgufError::UnsupportedVersion(v) => numbered("unsupported GGUF version ", *v),
            GgufError::UnsupportedValueType(t) => numbered("unsupported gguf value type ", *t),
            GgufError::MissingTensor(n) => around("missing tensor '", n.as_str(), "'"),
            GgufError::OutOfRange => owned("tensor data out of range"),
            GgufError::NotBlockAligned(n, t) => if *t == GGML_Q8_0 {
                around("Q8_0 tensor '", n.as_str(), "' not block-aligned")
            } else if *t == GGML_Q4_0 {
                around("Q4_0 tensor '", n.as_str(), "' not block-aligned")
            } else {
                around("K-quant tensor '", n.as_str(), "' not 256-aligned")
            },
            GgufError::UnsupportedType(n, t) => {
                let mut m = around("tensor '", n.as_str(), "': unsupported ggml type ");
                push_decimal(&mut m, *t as u64);
                m
            },
            GgufError::NotTwoDimensional(n) => around("tensor '", n.as_str(), "' is not 2-D"),
            GgufError::MissingMetadata(key) => if same_text(key.as_str(), "general.architecture")
                || same_text(key.as_str(), "tokenizer.ggml.tokens") {
                let mut m = owned("missing ");
                m.push_str(key.as_str());
                m
            } else {
                around("missing metadata '", key.as_str(), "'")
            },
            GgufError::UnsupportedArchitecture(a) => around(
                "unsupported architecture '",
                a.as_str(),
                "' (only llama, qwen2 and gemma)",
            ),
            GgufError::ScoreMismatch => owned("tokenizer scores do not match the vocabulary"),
            GgufError::EmbeddingMismatch => owned("token_embd.weight size mismatch with vocab"),
            GgufError::BadHeads => owned("attention heads do not fit together"),
        }
    }
}

} // verus!
