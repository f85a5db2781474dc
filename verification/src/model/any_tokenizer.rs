//! The tokenizer of a model, of either family.
use crate::model::bpe::{prompt_ids, token_bytes, BpeTokenizer};
use crate::model::tokenizer::{decoded, encoded, Tokenizer, BOS, EOS};
use vstd::prelude::*;

verus! {

pub enum AnyTokenizer {
    SentencePiece(Tokenizer),
    Bpe(BpeTokenizer),
}

impl AnyTokenizer {
    pub open spec fn wf(&self) -> bool {
        match self {
            AnyTokenizer::SentencePiece(t) => t.wf(),
            AnyTokenizer::Bpe(t) => t.wf(),
        }
    }

    /// No special token is the empty text, which would be found everywhere.
    pub open spec fn encodes(&self) -> bool {
        match self {
            AnyTokenizer::SentencePiece(t) => true,
            AnyTokenizer::Bpe(t) => t@.specials_wf(),
        }
    }

    /// The tokens of a prompt.
    pub open spec fn prompt(&self, text: Seq<char>) -> Seq<u32> {
        match self {
            AnyTokenizer::SentencePiece(t) => encoded(t@, text, true, false),
            AnyTokenizer::Bpe(t) => prompt_ids(t@, text),
        }
    }

    /// What `token` is written as behind `prev`.
    pub open spec fn written(&self, prev: u32, token: u32) -> Seq<u8> {
        match self {
            AnyTokenizer::SentencePiece(t) => decoded(t@, prev, token),
            AnyTokenizer::Bpe(t) => token_bytes(t@, token),
        }
    }

    /// Tokens that end a text.
    pub open spec fn stops(&self, token: u32) -> bool {
        match self {
            AnyTokenizer::SentencePiece(t) => token == BOS || token == EOS,
            AnyTokenizer::Bpe(t) => t@.eos_id == Some(token) || t@.bos_id == Some(token),
        }
    }

    /// Number of tokens in the vocabulary.
    pub open spec fn size(&self) -> nat {
        match self {
            AnyTokenizer::SentencePiece(t) => t@.pieces.len(),
            AnyTokenizer::Bpe(t) => t@.vocab.len(),
        }
    }

    /// Encode a prompt, with the start-of-text token where the family has one.
    pub fn encode_prompt(&self, text: &str) -> (out: Vec<u32>)
        requires
            self.wf(),
            self.encodes(),
        ensures
            out@ == self.prompt(text@),
    {
        match self {
            AnyTokenizer::SentencePiece(t) => t.encode(text, true, false),
            AnyTokenizer::Bpe(t) => t.encode_prompt(text),
        }
    }

    /// Decode one token, given the one before it.
    pub fn decode(&self, prev: u32, token: u32) -> (out: Vec<u8>)
        requires
            self.wf(),
        ensures
            out@ == self.written(prev, token),
    {
        match self {
            AnyTokenizer::SentencePiece(t) => t.decode(prev, token),
            AnyTokenizer::Bpe(t) => t.decode(prev, token),
        }
    }

    /// Whether a token ends the text.
    pub fn is_stop(&self, token: u32) -> (b: bool)
        ensures
            b == self.stops(token),
    {
        match self {
            AnyTokenizer::SentencePiece(t) => token == BOS || token == EOS,
            AnyTokenizer::Bpe(t) => t.is_stop(token),
        }
    }

    /// Number of tokens in the vocabulary.
    pub fn vocab_size(&self) -> (n: usize)
        ensures
            n == self.size(),
    {
        match self {
            AnyTokenizer::SentencePiece(t) => t.vocab_size(),
            AnyTokenizer::Bpe(t) => t.vocab_size(),
        }
    }
}

} // verus!
