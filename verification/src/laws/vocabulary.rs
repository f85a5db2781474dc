//! Laws of the vocabulary that a model file brings along.
use crate::model::gguf_format::{ErrorView, GgufView, ValueView};
use crate::model::gguf_tokenizer::{
    bpe_view, is_tokenizer, meta_array, sentence_pieces, special_tokens, tokenizer_error, unmarked, value_score, value_text,
};
use crate::double_bits::narrowed;
use crate::model::any_tokenizer::AnyTokenizer;
use crate::model::bpe::longest_first;
use crate::text::utf8_lossy;
use vstd::prelude::*;
use vstd::utf8::encode_utf8;

verus! {

/// The pieces of a scored vocabulary are the tokens' texts, spaces for the marks that stand
/// for them, and its scores those of the file, or zero.
pub proof fn law_scored_vocabulary(
    tokens: Seq<ValueView>,
    scores: Option<Seq<ValueView>>,
    i: int,
    s: Seq<u8>,
    text: Seq<char>,
    x: u32,
)
    requires
        0 <= i < tokens.len(),
        tokens[i] == ValueView::Str(s),
    ensures
        sentence_pieces(tokens, scores).pieces.len() == tokens.len(),
        sentence_pieces(tokens, scores).scores.len() == tokens.len(),
        text.len() == utf8_lossy(s).len() && (forall|j: int|
            0 <= j < text.len() ==> #[trigger] text[j] == (if utf8_lossy(s)[j] as int == 0x2581 {
                ' '
            } else {
                utf8_lossy(s)[j]
            })) ==> sentence_pieces(tokens, scores).pieces[i] == encode_utf8(text),
        scores matches Some(v) ==> (v[i] == ValueView::F32(x) ==> sentence_pieces(
            tokens,
            scores,
        ).scores[i] == x),
        scores is None ==> sentence_pieces(tokens, scores).scores[i] == 0,
{
    let t = utf8_lossy(s);
    if text.len() == t.len() && (forall|j: int|
        0 <= j < text.len() ==> #[trigger] text[j] == (if t[j] as int == 0x2581 {
            ' '
        } else {
            t[j]
        })) {
        assert(text =~= unmarked(t));
    }
}

/// The texts of a merging vocabulary are those of the file, in order, and so are its
/// merges.
pub proof fn law_merging_vocabulary(
    g: GgufView,
    tokens: Seq<ValueView>,
    merges: Seq<ValueView>,
    i: int,
    s: Seq<u8>,
)
    ensures
        bpe_view(g, tokens, merges).vocab.len() == tokens.len(),
        bpe_view(g, tokens, merges).merges.len() == merges.len(),
        0 <= i < tokens.len() && tokens[i] == ValueView::Str(s) ==> bpe_view(
            g,
            tokens,
            merges,
        ).vocab[i] == utf8_lossy(s),
        0 <= i < merges.len() && merges[i] == ValueView::Str(s) ==> bpe_view(
            g,
            tokens,
            merges,
        ).merges[i] == utf8_lossy(s),
{
}

/// Metadata entry `key` is the number `n`.
pub open spec fn names(g: GgufView, key: Seq<char>, n: u32) -> bool {
    g.metadata.dom().contains(key) && g.metadata[key] == ValueView::U32(n)
}

/// The tokens that begin and end a text are those that the file names, and the first is added
/// to prompts where the file says so.
pub proof fn law_named_tokens(
    g: GgufView,
    tokens: Seq<ValueView>,
    merges: Seq<ValueView>,
    n: u32,
)
    ensures
        names(g, "tokenizer.ggml.bos_token_id"@, n) ==> bpe_view(g, tokens, merges).bos_id == Some(n),
        names(g, "tokenizer.ggml.eos_token_id"@, n) ==> bpe_view(g, tokens, merges).eos_id == Some(n),
        !g.metadata.dom().contains("tokenizer.ggml.bos_token_id"@) ==> bpe_view(
            g,
            tokens,
            merges,
        ).bos_id is None,
        !g.metadata.dom().contains("tokenizer.ggml.eos_token_id"@) ==> bpe_view(
            g,
            tokens,
            merges,
        ).eos_id is None,
        bpe_view(g, tokens, merges).add_bos <==> g.metadata.dom().contains(
            "tokenizer.ggml.add_bos_token"@,
        ) && g.metadata["tokenizer.ggml.add_bos_token"@] == ValueView::Bool(true),
{
}

/// A value that says that a token is special: the number 3 or 4.
pub open spec fn says_special(v: ValueView) -> bool {
    match v {
        ValueView::U8(x) => x == 3 || x == 4,
        ValueView::U16(x) => x == 3 || x == 4,
        ValueView::U32(x) => x == 3 || x == 4,
        ValueView::U64(x) => x == 3 || x == 4,
        ValueView::I8(x) => x == 3 || x == 4,
        ValueView::I16(x) => x == 3 || x == 4,
        ValueView::I32(x) => x == 3 || x == 4,
        ValueView::I64(x) => x == 3 || x == 4,
        _ => false,
    }
}

/// The special tokens are those whose type says so and that have a text, each with its own
/// number.
pub proof fn law_special_tokens_by_type(
    tokens: Seq<ValueView>,
    types: Seq<ValueView>,
    n: nat,
    text: Seq<char>,
)
    requires
        n < tokens.len(),
    ensures
        special_tokens(tokens, types, 0) == Seq::<(Seq<char>, u32)>::empty(),
        text == value_text(tokens[n as int]) && text.len() > 0 && n < types.len() && says_special(
            types[n as int],
        ) ==> special_tokens(tokens, types, n + 1) == special_tokens(tokens, types, n).push(
            (text, n as u32),
        ),
        value_text(tokens[n as int]).len() == 0 || n >= types.len() || !says_special(
            types[n as int],
        ) ==> special_tokens(tokens, types, n + 1) == special_tokens(tokens, types, n),
{
}

/// The special tokens of a file are tried longest first.
pub proof fn law_special_tokens_of_a_file(
    g: GgufView,
    tokens: Seq<ValueView>,
    merges: Seq<ValueView>,
    types: Seq<ValueView>,
)
    ensures
        g.metadata.dom().contains("tokenizer.ggml.token_type"@)
            && g.metadata["tokenizer.ggml.token_type"@] == ValueView::Arr(types) ==> bpe_view(
            g,
            tokens,
            merges,
        ).specials == longest_first(special_tokens(tokens, types, tokens.len())),
        !g.metadata.dom().contains("tokenizer.ggml.token_type"@) ==> bpe_view(
            g,
            tokens,
            merges,
        ).specials == longest_first(special_tokens(tokens, Seq::empty(), tokens.len())),
{
}

/// A text in the metadata is what its bytes spell; anything else is none.
pub proof fn law_text_of_a_value(v: ValueView)
    ensures
        v matches ValueView::Str(s) ==> value_text(v) == utf8_lossy(s),
        !(v is Str) ==> value_text(v).len() == 0,
{
}

/// A file's vocabulary is refused without tokens, or with scores for another number of
/// them, where there are no merges.
pub proof fn law_when_a_vocabulary_is_refused(
    g: GgufView,
    tokens: Seq<ValueView>,
    scores: Seq<ValueView>,
)
    ensures
        meta_array(g, "tokenizer.ggml.tokens"@) is None <==> tokenizer_error(g) == Some(
            ErrorView::MissingMetadata("tokenizer.ggml.tokens"@),
        ),
        meta_array(g, "tokenizer.ggml.tokens"@) == Some(tokens) && tokens.len() <= u32::MAX
            && meta_array(g, "tokenizer.ggml.merges"@) is None && meta_array(
            g,
            "tokenizer.ggml.scores"@,
        ) == Some(scores) ==> tokenizer_error(g) == (if scores.len() == tokens.len() {
            None
        } else {
            Some(ErrorView::ScoreMismatch)
        }),
        meta_array(g, "tokenizer.ggml.tokens"@) == Some(tokens) && tokens.len() <= u32::MAX
            && meta_array(g, "tokenizer.ggml.merges"@) is None && meta_array(
            g,
            "tokenizer.ggml.scores"@,
        ) is None ==> tokenizer_error(g) is None,
{
}

/// A file with merges has a merging vocabulary, and one without them a scored one.
pub proof fn law_kind_of_vocabulary(
    g: GgufView,
    t: AnyTokenizer,
    tokens: Seq<ValueView>,
    merges: Seq<ValueView>,
)
    requires
        is_tokenizer(g, t),
        meta_array(g, "tokenizer.ggml.tokens"@) == Some(tokens),
    ensures
        t.size() == tokens.len(),
        meta_array(g, "tokenizer.ggml.merges"@) == Some(merges) ==> (t matches AnyTokenizer::Bpe(b)
            && b@ == bpe_view(g, tokens, merges)),
        meta_array(g, "tokenizer.ggml.merges"@) is None ==> (t matches AnyTokenizer::SentencePiece(
            s,
        ) && s@ == sentence_pieces(tokens, meta_array(g, "tokenizer.ggml.scores"@))),
{
}

/// A score is a single as it is, a double as the nearest single, and zero for anything else.
pub proof fn law_score_of_a_value(v: ValueView)
    ensures
        v matches ValueView::F32(x) ==> value_score(v) == x,
        v matches ValueView::F64(x) ==> value_score(v) == narrowed(x),
        !(v is F32) && !(v is F64) ==> value_score(v) == 0,
{
}

/// A list in the metadata is found under its name.
pub proof fn law_list_by_name(g: GgufView, key: Seq<char>, items: Seq<ValueView>)
    ensures
        g.metadata.dom().contains(key) && g.metadata[key] == ValueView::Arr(items) ==> meta_array(
            g,
            key,
        ) == Some(items),
        !g.metadata.dom().contains(key) ==> meta_array(g, key) is None,
{
}

} // verus!
