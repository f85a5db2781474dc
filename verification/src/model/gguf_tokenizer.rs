//! The tokenizer embedded in a GGUF file.
use crate::model::any_tokenizer::AnyTokenizer;
use crate::model::bpe::{lemma_specials_stay_texts, longest_first, special_views, BpeTokenizer, BpeView};
use crate::model::gguf::{as_single, meta_index, Gguf};
use crate::model::gguf_format::{as_index, value_views, ErrorView, GgufError, GgufView, Value, ValueView};
use crate::model::pieces::{piece_views, text_views};
use crate::model::tokenizer::{Tokenizer, VocabView};
use crate::text::{from_utf8_lossy, to_chars, utf8_lossy};
use vstd::prelude::*;
use vstd::utf8::encode_utf8;

verus! {

/// The array under `key`, if there is one.
pub open spec fn meta_array(g: GgufView, key: Seq<char>) -> Option<Seq<ValueView>> {
    if g.metadata.dom().contains(key) {
        match g.metadata[key] {
            ValueView::Arr(items) => Some(items),
            _ => None,
        }
    } else {
        None
    }
}

/// The text of a value; other values than strings have none.
pub open spec fn value_text(v: ValueView) -> Seq<char> {
    match v {
        ValueView::Str(s) => utf8_lossy(s),
        _ => seq![],
    }
}

/// A text with the word marker U+2581 written as a space.
pub open spec fn unmarked(text: Seq<char>) -> Seq<char> {
    Seq::new(
        text.len(),
        |i: int|
            if text[i] == '\u{2581}' {
                ' '
            } else {
                text[i]
            },
    )
}

/// The score of a value; other values than real numbers count as zero.
pub open spec fn value_score(v: ValueView) -> u32 {
    match as_single(v) {
        Some(x) => x,
        None => 0,
    }
}

/// The id under `key`, if there is one that fits.
pub open spec fn meta_id(g: GgufView, key: Seq<char>) -> Option<u32> {
    match meta_index(g, key) {
        Some(n) => if n <= u32::MAX {
            Some(n as u32)
        } else {
            None
        },
        None => None,
    }
}

/// The flag under `key`; absent is false.
pub open spec fn meta_flag(g: GgufView, key: Seq<char>) -> bool {
    g.metadata.dom().contains(key) && g.metadata[key] == ValueView::Bool(true)
}

/// Control and user-defined tokens, which are matched as they stand.
pub open spec fn is_special_type(v: ValueView) -> bool {
    as_index(v) == Some(3int) || as_index(v) == Some(4int)
}

/// The special ones among the first `n` tokens.
pub open spec fn special_tokens(tokens: Seq<ValueView>, types: Seq<ValueView>, n: nat) -> Seq<
    (Seq<char>, u32),
>
    decreases n,
{
    if n == 0 {
        seq![]
    } else {
        let rest = special_tokens(tokens, types, (n - 1) as nat);
        let i = n - 1;
        if i < types.len() && is_special_type(types[i]) && value_text(tokens[i]).len() > 0 {
            rest.push((value_text(tokens[i]), i as u32))
        } else {
            rest
        }
    }
}

/// The texts of some values.
pub open spec fn value_texts(items: Seq<ValueView>) -> Seq<Seq<char>> {
    Seq::new(items.len(), |i: int| value_text(items[i]))
}

/// The SentencePiece vocabulary in the metadata.
pub open spec fn sentence_pieces(tokens: Seq<ValueView>, scores: Option<Seq<ValueView>>) -> VocabView {
    VocabView {
        pieces: Seq::new(
            tokens.len(),
            |i: int|
                match tokens[i] {
                    ValueView::Str(s) => encode_utf8(unmarked(utf8_lossy(s))),
                    _ => seq![],
                },
        ),
        scores: Seq::new(
            tokens.len(),
            |i: int|
                match scores {
                    Some(s) => value_score(s[i]),
                    None => 0,
                },
        ),
    }
}

/// The byte-level BPE tokenizer in the metadata.
pub open spec fn bpe_view(g: GgufView, tokens: Seq<ValueView>, merges: Seq<ValueView>) -> BpeView {
    let types = match meta_array(g, "tokenizer.ggml.token_type"@) {
        Some(t) => t,
        None => seq![],
    };
    BpeView {
        vocab: value_texts(tokens),
        merges: value_texts(merges),
        bos_id: meta_id(g, "tokenizer.ggml.bos_token_id"@),
        eos_id: meta_id(g, "tokenizer.ggml.eos_token_id"@),
        add_bos: meta_flag(g, "tokenizer.ggml.add_bos_token"@),
        specials: longest_first(special_tokens(tokens, types, tokens.len())),
    }
}

/// What keeps the tokenizer from being read.
pub open spec fn tokenizer_error(g: GgufView) -> Option<ErrorView> {
    match meta_array(g, "tokenizer.ggml.tokens"@) {
        None => Some(ErrorView::MissingMetadata("tokenizer.ggml.tokens"@)),
        Some(tokens) => if tokens.len() > u32::MAX {
            Some(ErrorView::OutOfRange)
        } else {
            match meta_array(g, "tokenizer.ggml.merges"@) {
                Some(merges) => if merges.len() > u32::MAX {
                    Some(ErrorView::OutOfRange)
                } else {
                    None
                },
                None => match meta_array(g, "tokenizer.ggml.scores"@) {
                    Some(scores) => if scores.len() != tokens.len() {
                        Some(ErrorView::ScoreMismatch)
                    } else {
                        None
                    },
                    None => None,
                },
            }
        },
    }
}

/// `t` is the tokenizer in the metadata: BPE where there are merges, else SentencePiece.
pub open spec fn is_tokenizer(g: GgufView, t: AnyTokenizer) -> bool {
    let tokens = meta_array(g, "tokenizer.ggml.tokens"@)->0;
    &&& t.wf()
    &&& t.encodes()
    &&& t.size() == tokens.len()
    &&& match meta_array(g, "tokenizer.ggml.merges"@) {
        Some(merges) => t matches AnyTokenizer::Bpe(b) && b@ == bpe_view(g, tokens, merges),
        None => t matches AnyTokenizer::SentencePiece(s) && s@ == sentence_pieces(
            tokens,
            meta_array(g, "tokenizer.ggml.scores"@),
        ),
    }
}

/// The text of a value.
fn text_of(v: &Value) -> (s: String)
    ensures
        s@ == value_text(v@),
{
    match v {
        Value::Str(s) => from_utf8_lossy(s.as_slice()),
        _ => {
            let s = String::new();
            proof {
                assert(s@ =~= seq![]);
            }
            s
        },
    }
}

/// The texts of some values.
fn texts_of(items: &Vec<Value>) -> (out: Vec<String>)
    ensures
        text_views(out@) == value_texts(value_views(items@)),
{
    let mut out: Vec<String> = Vec::new();
    let mut i: usize = 0;
    let ghost all = value_texts(value_views(items@));
    while i < items.len()
        invariant
            all == value_texts(value_views(items@)),
            i <= items.len(),
            text_views(out@) == all.take(i as int),
        decreases items.len() - i,
    {
        let ghost before = out@;
        let s = text_of(&items[i]);
        let ghost t = s@;
        out.push(s);
        proof {
            assert(text_views(out@) =~= text_views(before).push(t));
            assert(text_views(out@) =~= all.take(i + 1));
        }
        i += 1;
    }
    proof {
        assert(all.take(i as int) =~= all);
    }
    out
}

/// A text with the word marker written as a space, as bytes.
fn unmark(text: &str) -> (out: Vec<u8>)
    ensures
        out@ == encode_utf8(unmarked(text@)),
{
    let chars = to_chars(text);
    let mut s = String::new();
    let mut i: usize = 0;
    while i < chars.len()
        invariant
            chars@ == text@,
            i <= chars.len(),
            s@ == unmarked(text@).take(i as int),
        decreases chars.len() - i,
    {
        if chars[i] == '\u{2581}' {
            s.push(' ');
        } else {
            s.push(chars[i]);
        }
        proof {
            assert(s@ =~= unmarked(text@).take(i + 1));
        }
        i += 1;
    }
    proof {
        assert(unmarked(text@).take(i as int) =~= unmarked(text@));
    }
    let bytes = s.as_str().as_bytes();
    let out = crate::bytes::copy_window(bytes, 0, bytes.len());
    proof {
        assert(out@ =~= bytes@);
    }
    out
}

/// The pieces of a SentencePiece vocabulary.
fn read_pieces(tokens: &Vec<Value>) -> (out: Vec<Vec<u8>>)
    ensures
        piece_views(out@) == sentence_pieces(value_views(tokens@), None).pieces,
{
    let mut out: Vec<Vec<u8>> = Vec::new();
    let mut i: usize = 0;
    let ghost all = sentence_pieces(value_views(tokens@), None).pieces;
    while i < tokens.len()
        invariant
            all == sentence_pieces(value_views(tokens@), None).pieces,
            i <= tokens.len(),
            piece_views(out@) == all.take(i as int),
        decreases tokens.len() - i,
    {
        let ghost before = out@;
        let piece: Vec<u8> = match &tokens[i] {
            Value::Str(s) => unmark(from_utf8_lossy(s.as_slice()).as_str()),
            _ => {
                let e: Vec<u8> = Vec::new();
                proof {
                    assert(e@ =~= seq![]);
                }
                e
            },
        };
        let ghost p = piece@;
        proof {
            assert(value_views(tokens@)[i as int] == tokens[i as int]@);
            assert(all[i as int] == p);
        }
        out.push(piece);
        proof {
            assert(piece_views(out@) =~= piece_views(before).push(p));
            assert(piece_views(out@) =~= all.take(i + 1));
        }
        i += 1;
    }
    proof {
        assert(all.take(i as int) =~= all);
    }
    out
}

/// The scores of some values.
fn read_scores(scores: &Vec<Value>) -> (out: Vec<u32>)
    ensures
        out@.len() == scores@.len(),
        forall|i: int|
            0 <= i < out@.len() ==> #[trigger] out@[i] == value_score(scores@[i]@),
{
    let mut out: Vec<u32> = Vec::new();
    let mut i: usize = 0;
    while i < scores.len()
        invariant
            i <= scores.len(),
            out@.len() == i,
            forall|k: int| 0 <= k < i ==> #[trigger] out@[k] == value_score(scores@[k]@),
        decreases scores.len() - i,
    {
        let x: u32 = match scores[i].as_f32() {
            Some(x) => x,
            None => 0,
        };
        out.push(x);
        i += 1;
    }
    out
}

impl Gguf {
    /// The array under `key`.
    fn array(&self, key: &str) -> (r: Option<&Vec<Value>>)
        ensures
            match r {
                Some(items) => meta_array(self@, key@) == Some(value_views(items@)),
                None => meta_array(self@, key@) is None,
            },
    {
        match self.meta(key) {
            Some(v) => match v {
                Value::Arr(items) => {
                    proof {
                        crate::model::gguf_format::lemma_array_view(*items);
                    }
                    Some(items)
                },
                _ => None,
            },
            None => None,
        }
    }

    /// The id under `key`.
    fn id(&self, key: &str) -> (r: Option<u32>)
        ensures
            r == meta_id(self@, key@),
    {
        match self.meta(key) {
            Some(v) => match v.as_usize() {
                Some(n) => if n as u64 <= u32::MAX as u64 {
                    Some(n as u32)
                } else {
                    None
                },
                None => None,
            },
            None => None,
        }
    }

    /// The flag under `key`.
    fn flag(&self, key: &str) -> (b: bool)
        ensures
            b == meta_flag(self@, key@),
    {
        match self.meta(key) {
            Some(v) => match v {
                Value::Bool(b) => *b,
                _ => false,
            },
            None => false,
        }
    }

    /// The special tokens of a vocabulary.
    fn specials(&self, tokens: &Vec<Value>) -> (out: Vec<(String, u32)>)
        requires
            tokens@.len() <= u32::MAX,
        ensures
            special_views(out@) == special_tokens(
                value_views(tokens@),
                (match meta_array(self@, "tokenizer.ggml.token_type"@) {
                    Some(t) => t,
                    None => seq![],
                }),
                tokens@.len(),
            ),
            forall|i: int| 0 <= i < out@.len() ==> (#[trigger] out@[i]).0@.len() > 0,
    {
        let ghost all = value_views(tokens@);
        let none: Vec<Value> = Vec::new();
        let types: &Vec<Value> = match self.array("tokenizer.ggml.token_type") {
            Some(t) => t,
            None => {
                proof {
                    assert(value_views(none@) =~= seq![]);
                }
                &none
            },
        };
        let ghost ty = value_views(types@);
        let mut out: Vec<(String, u32)> = Vec::new();
        let mut i: usize = 0;
        proof {
            assert(special_views(out@) =~= seq![]);
        }
        while i < tokens.len()
            invariant
                tokens@.len() <= u32::MAX,
                all == value_views(tokens@),
                ty == value_views(types@),
                i <= tokens.len(),
                special_views(out@) == special_tokens(all, ty, i as nat),
                forall|k: int| 0 <= k < out@.len() ==> (#[trigger] out@[k]).0@.len() > 0,
            decreases tokens.len() - i,
        {
            let special: bool = i < types.len() && (match types[i].as_usize() {
                Some(t) => t == 3 || t == 4,
                None => false,
            });
            proof {
                assert(all[i as int] == tokens[i as int]@);
                if i < types.len() {
                    assert(ty[i as int] == types[i as int]@);
                }
            }
            if special {
                let text = text_of(&tokens[i]);
                let chars = to_chars(text.as_str());
                if chars.len() > 0 {
                    let ghost before = out@;
                    let ghost t = text@;
                    out.push((text, i as u32));
                    proof {
                        assert(special_views(out@) =~= special_views(before).push((t, i as u32)));
                    }
                }
            }
            i += 1;
        }
        out
    }

    /// The embedded tokenizer.
    pub fn tokenizer(&self) -> (r: Result<AnyTokenizer, GgufError>)
        ensures
            match tokenizer_error(self@) {
                Some(e) => r matches Err(x) && x@ == e,
                None => r matches Ok(t) && is_tokenizer(self@, t),
            },
    {
        let tokens = match self.array("tokenizer.ggml.tokens") {
            Some(t) => t,
            None => {
                return Err(GgufError::MissingMetadata("tokenizer.ggml.tokens".to_owned()));
            },
        };
        if tokens.len() as u64 > u32::MAX as u64 {
            return Err(GgufError::OutOfRange);
        }
        if let Some(merges) = self.array("tokenizer.ggml.merges") {
            if merges.len() as u64 > u32::MAX as u64 {
                return Err(GgufError::OutOfRange);
            }
            let vocab = texts_of(tokens);
            let list = texts_of(merges);
            let ghost texts = text_views(vocab@);
            proof {
                assert(texts.len() == tokens@.len());
                assert(text_views(list@).len() == merges@.len());
            }
            let bos: Option<u32> = self.id("tokenizer.ggml.bos_token_id");
            let eos: Option<u32> = self.id("tokenizer.ggml.eos_token_id");
            let add_bos: bool = self.flag("tokenizer.ggml.add_bos_token");
            let specials = self.specials(tokens);
            proof {
                assert forall|i: int| 0 <= i < specials@.len() implies (
                #[trigger] special_views(specials@)[i]).0.len() > 0 by {
                    assert(specials@[i].0@.len() > 0);
                }
                lemma_specials_stay_texts(special_views(specials@));
            }
            let t = BpeTokenizer::new(vocab, list.as_slice(), bos, eos, add_bos);
            let t = t.with_specials(specials);
            return Ok(AnyTokenizer::Bpe(t));
        }
        let pieces = read_pieces(tokens);
        let ghost p = piece_views(pieces@);
        let ghost stored = meta_array(self@, "tokenizer.ggml.scores"@);
        proof {
            assert(p.len() == tokens@.len());
        }
        let scores: Vec<u32> = match self.array("tokenizer.ggml.scores") {
            Some(s) => {
                if s.len() != tokens.len() {
                    return Err(GgufError::ScoreMismatch);
                }
                read_scores(s)
            },
            None => vec![0u32; tokens.len()],
        };
        proof {
            let v = sentence_pieces(value_views(tokens@), stored);
            assert(p =~= v.pieces);
            assert(scores@ =~= v.scores);
        }
        Ok(AnyTokenizer::SentencePiece(Tokenizer::from_parts(pieces, scores)))
    }
}

} // verus!
