//! Laws of the wording of errors.
use crate::model::checkpoint::CheckpointError;
use crate::model::gguf_format::ErrorView;
use crate::model::tokenizer::TokenizerError;
use crate::text::decimal;
use vstd::prelude::*;

verus! {

/// What is wrong with a checkpoint or its vocabulary, in words.
pub proof fn law_checkpoint_errors_in_words()
    ensures
        CheckpointError::Truncated.text() == "checkpoint truncated"@,
        CheckpointError::BadHeader.text() == "bad checkpoint header"@,
        TokenizerError::Truncated.text() == "tokenizer.bin truncated"@,
{
}

/// What is wrong with a model file, in words: numbers in decimal, names in quotes.
pub proof fn law_file_errors_in_words(name: Seq<char>, n: u32)
    ensures
        ErrorView::Truncated.text() == "gguf truncated"@,
        ErrorView::BadMagic.text() == "not a GGUF file (bad magic)"@,
        ErrorView::UnsupportedVersion(n).text() == "unsupported GGUF version "@ + decimal(n as nat),
        ErrorView::UnsupportedValueType(n).text() == "unsupported gguf value type "@ + decimal(
            n as nat,
        ),
        ErrorView::MissingTensor(name).text() == "missing tensor '"@ + name + "'"@,
        ErrorView::OutOfRange.text() == "tensor data out of range"@,
        n == 8 ==> ErrorView::NotBlockAligned(name, n).text() == "Q8_0 tensor '"@ + name
            + "' not block-aligned"@,
        n == 2 ==> ErrorView::NotBlockAligned(name, n).text() == "Q4_0 tensor '"@ + name
            + "' not block-aligned"@,
        n == 12 || n == 14 ==> ErrorView::NotBlockAligned(name, n).text() == "K-quant tensor '"@
            + name + "' not 256-aligned"@,
        ErrorView::UnsupportedType(name, n).text() == "tensor '"@ + name
            + "': unsupported ggml type "@ + decimal(n as nat),
        ErrorView::NotTwoDimensional(name).text() == "tensor '"@ + name + "' is not 2-D"@,
        name == "general.architecture"@ || name == "tokenizer.ggml.tokens"@
            ==> ErrorView::MissingMetadata(name).text() == "missing "@ + name,
        name != "general.architecture"@ && name != "tokenizer.ggml.tokens"@
            ==> ErrorView::MissingMetadata(name).text() == "missing metadata '"@ + name + "'"@,
        ErrorView::UnsupportedArchitecture(name).text() == "unsupported architecture '"@ + name
            + "' (only llama, qwen2 and gemma)"@,
        ErrorView::ScoreMismatch.text() == "tokenizer scores do not match the vocabulary"@,
        ErrorView::EmbeddingMismatch.text() == "token_embd.weight size mismatch with vocab"@,
        ErrorView::BadHeads.text() == "attention heads do not fit together"@,
{
}

} // verus!
