//! Laws of the scored vocabulary: how a text becomes its tokens, and tokens become bytes.
use crate::float_bits::greater32;
use crate::laws::encoding::{is_first, is_unknown, law_first_place};
use crate::model::any_tokenizer::AnyTokenizer;
use crate::model::tokenizer::{
    best_merge, best_pair, decoded, dummy_prefix, encoded, entries_fit, entry_offset, file_vocab,
    merged, replace_pair, seed_char, seed_text, VocabView,
};
use vstd::prelude::*;
use vstd::utf8::encode_scalar;

verus! {

/// Together, the pieces of two tokens spell the piece of token `id`, and of no token before
/// it.
pub open spec fn spells(v: VocabView, a: u32, b: u32, id: int) -> bool {
    &&& a < v.pieces.len()
    &&& b < v.pieces.len()
    &&& is_first(v.pieces, v.pieces[a as int] + v.pieces[b as int], id)
}

/// Together, the pieces of two tokens spell no piece, or one of them has none.
pub open spec fn spells_nothing(v: VocabView, a: u32, b: u32) -> bool {
    a < v.pieces.len() && b < v.pieces.len() ==> is_unknown(
        v.pieces,
        v.pieces[a as int] + v.pieces[b as int],
    )
}

proof fn lemma_joined(v: VocabView, a: u32, b: u32, id: int)
    requires
        v.wf(),
    ensures
        spells(v, a, b, id) ==> v.joined(a, b) == Some(id as u32),
        spells_nothing(v, a, b) <==> v.joined(a, b) is None,
        v.joined(a, b) matches Some(found) ==> spells(v, a, b, found as int),
{
    if a < v.pieces.len() && b < v.pieces.len() {
        let s = v.pieces[a as int] + v.pieces[b as int];
        law_first_place(v.pieces, s, id);
        crate::model::pieces::law_first_index(v.pieces, s);
    }
}

/// Pair `i` of the tokens is the one to join, into `id`: it scores more than every pair
/// before it that spells a piece, and no pair behind it scores more.
pub open spec fn is_best(v: VocabView, tokens: Seq<u32>, i: int, id: int) -> bool {
    &&& 0 <= i
    &&& i + 1 < tokens.len()
    &&& spells(v, tokens[i], tokens[i + 1], id)
    &&& forall|j: int, other: int|
        0 <= j < i && #[trigger] spells(v, tokens[j], tokens[j + 1], other) ==> greater32(
            v.scores[id],
            v.scores[other],
        )
    &&& forall|j: int, other: int|
        i < j && j + 1 < tokens.len() && #[trigger] spells(v, tokens[j], tokens[j + 1], other)
            ==> !greater32(v.scores[other], v.scores[id])
}

proof fn lemma_best(v: VocabView, tokens: Seq<u32>, i: int, id: int, n: nat)
    requires
        v.wf(),
        is_best(v, tokens, i, id),
        i < n < tokens.len(),
    ensures
        best_merge(v, tokens, n) == Some((i, id as u32)),
    decreases n,
{
    lemma_joined(v, tokens[n - 1], tokens[n as int], id);
    if n > i + 1 {
        lemma_best(v, tokens, i, id, (n - 1) as nat);
        if let Some(other) = v.joined(tokens[n - 1], tokens[n as int]) {
            assert(spells(v, tokens[n - 1], tokens[n - 1 + 1], other as int));
        }
    } else {
        lemma_earlier(v, tokens, i as nat);
        match best_merge(v, tokens, i as nat) {
            Some((j, other)) => {
                assert(spells(v, tokens[j], tokens[j + 1], other as int));
            },
            None => {},
        }
    }
}

proof fn lemma_earlier(v: VocabView, tokens: Seq<u32>, n: nat)
    requires
        v.wf(),
        n < tokens.len(),
    ensures
        match best_merge(v, tokens, n) {
            Some((j, other)) => 0 <= j < n && spells(v, tokens[j], tokens[j + 1], other as int),
            None => forall|j: int|
                0 <= j < n ==> spells_nothing(v, #[trigger] tokens[j], tokens[j + 1]),
        },
    decreases n,
{
    if n > 0 {
        lemma_earlier(v, tokens, (n - 1) as nat);
        lemma_joined(v, tokens[n - 1], tokens[n as int], 0);
        assert(tokens[n - 1 + 1] == tokens[n as int]);
    }
}

/// Merging joins the best pair and goes on with what that leaves.
pub proof fn law_merging_joins_the_best_pair(v: VocabView, tokens: Seq<u32>, i: int, id: int)
    requires
        v.wf(),
        is_best(v, tokens, i, id),
    ensures
        merged(v, tokens) == merged(
            v,
            tokens.take(i) + seq![id as u32] + tokens.skip(i + 2),
        ),
{
    lemma_best(v, tokens, i, id, (tokens.len() - 1) as nat);
    assert(replace_pair(tokens, i, id as u32) =~= tokens.take(i) + seq![id as u32] + tokens.skip(
        i + 2,
    ));
}

/// Tokens of which no two neighbours spell a piece are left alone.
pub proof fn law_merging_is_done(v: VocabView, tokens: Seq<u32>)
    requires
        v.wf(),
        forall|j: int|
            0 <= j && j + 1 < tokens.len() ==> spells_nothing(
                v,
                #[trigger] tokens[j],
                tokens[j + 1],
            ),
    ensures
        merged(v, tokens) == tokens,
{
    if tokens.len() > 0 {
        let n = (tokens.len() - 1) as nat;
        lemma_earlier(v, tokens, n);
        if let Some((j, other)) = best_merge(v, tokens, n) {
            assert(spells_nothing(v, tokens[j], tokens[j + 1]));
            lemma_joined(v, tokens[j], tokens[j + 1], other as int);
        }
    }
}

/// Merging goes on for as long as two neighbours spell a piece.
pub proof fn law_merging_leaves_nothing_to_join(v: VocabView, tokens: Seq<u32>, j: int)
    requires
        v.wf(),
        0 <= j,
        j + 1 < merged(v, tokens).len(),
    ensures
        spells_nothing(v, merged(v, tokens)[j], merged(v, tokens)[j + 1]),
    decreases tokens.len(),
{
    if tokens.len() > 0 {
        let n = (tokens.len() - 1) as nat;
        lemma_earlier(v, tokens, n);
        match best_pair(v, tokens) {
            None => {
                assert(tokens[j] == tokens[j]);
            },
            Some((i, id)) => {
                law_merging_leaves_nothing_to_join(v, replace_pair(tokens, i, id), j);
            },
        }
    }
}

/// A character becomes its own piece where the vocabulary has one, and one token for every
/// byte of it, three above the byte, where it has none.
pub proof fn law_characters_become_tokens(v: VocabView, text: Seq<char>, c: char, i: int)
    ensures
        seed_text(v, Seq::empty()) == Seq::<u32>::empty(),
        is_first(v.pieces, encode_scalar(c as u32), i) ==> seed_text(v, text.push(c)) == seed_text(
            v,
            text,
        ).push(i as u32),
        is_unknown(v.pieces, encode_scalar(c as u32)) ==> seed_text(v, text.push(c)) == seed_text(
            v,
            text,
        ) + encode_scalar(c as u32).map_values(|b: u8| (b + 3) as u32),
{
    law_first_place(v.pieces, encode_scalar(c as u32), i);
    assert(text.push(c).drop_last() =~= text);
    assert(text.push(c).last() == c);
    let bytes = encode_scalar(c as u32);
    if is_first(v.pieces, bytes, i) {
        assert(seed_text(v, text) + seq![i as u32] =~= seed_text(v, text).push(i as u32));
    }
    if is_unknown(v.pieces, bytes) {
        assert(seed_char(v, c) =~= bytes.map_values(|b: u8| (b + 3) as u32));
    }
}

/// What is merged is the token that begins a sequence, if asked for, the piece of one space
/// before any text, and the tokens of the text's characters; the token that ends a sequence
/// comes behind what merging gives.
pub proof fn law_encoding(v: VocabView, text: Seq<char>, space: int)
    requires
        text.len() > 0 ==> is_first(v.pieces, seq![32u8], space),
    ensures
        text.len() > 0 ==> encoded(v, text, false, false) == merged(
            v,
            seq![space as u32] + seed_text(v, text),
        ),
        text.len() > 0 ==> encoded(v, text, true, false) == merged(
            v,
            seq![1u32, space as u32] + seed_text(v, text),
        ),
        text.len() == 0 ==> encoded(v, text, true, false) == merged(v, seq![1u32]) && encoded(
            v,
            text,
            false,
            false,
        ) == merged(v, Seq::empty()),
        encoded(v, text, false, true) == encoded(v, text, false, false).push(2),
        encoded(v, text, true, true) == encoded(v, text, true, false).push(2),
{
    law_first_place(v.pieces, seq![32u8], space);
    let seeds = seed_text(v, text);
    let prefix = dummy_prefix(v, text);
    if text.len() > 0 {
        assert(seq![1u32] + prefix + seeds =~= seq![1u32, space as u32] + seeds);
        assert(Seq::<u32>::empty() + prefix + seeds =~= seq![space as u32] + seeds);
    } else {
        assert(seq![1u32] + prefix + seeds =~= seq![1u32]);
        assert(Seq::<u32>::empty() + prefix + seeds =~= Seq::<u32>::empty());
    }
}

/// Without a piece of one space nothing is put before the text.
pub proof fn law_encoding_without_space(v: VocabView, text: Seq<char>)
    requires
        is_unknown(v.pieces, seq![32u8]),
    ensures
        encoded(v, text, false, false) == merged(v, seed_text(v, text)),
        encoded(v, text, true, false) == merged(v, seq![1u32] + seed_text(v, text)),
{
    law_first_place(v.pieces, seq![32u8], 0);
    let seeds = seed_text(v, text);
    let prefix = dummy_prefix(v, text);
    assert(seq![1u32] + prefix + seeds =~= seq![1u32] + seeds);
    assert(Seq::<u32>::empty() + prefix + seeds =~= seeds);
}

/// The hexadecimal digit of a number below 16, in upper or lower case.
pub open spec fn is_digit_of(b: u8, n: int) -> bool {
    ||| 0 <= n < 10 && b == 48 + n
    ||| 10 <= n < 16 && b == 55 + n
    ||| 10 <= n < 16 && b == 87 + n
}

/// A token writes its piece, without a leading space behind the token that begins a
/// sequence; the piece `<0xHL>` writes the one byte that its two digits name, and a token without
/// piece writes nothing.
pub proof fn law_token_writes_its_piece(v: VocabView, prev: u32, token: u32, h: int, l: int)
    ensures
        token >= v.pieces.len() ==> decoded(v, prev, token) == Seq::<u8>::empty(),
        token < v.pieces.len() ==> {
            let piece = v.pieces[token as int];
            &&& piece.len() == 6 && piece[0] == 60 && piece[1] == 48 && piece[2] == 120 && piece[5]
                == 62 && is_digit_of(piece[3], h) && is_digit_of(piece[4], l) ==> decoded(
                v,
                prev,
                token,
            ) == seq![(16 * h + l) as u8]
            &&& piece.len() != 6 || piece[0] != 60 ==> decoded(v, prev, token) == (if prev == 1
                && piece.len() > 0 && piece[0] == 32 {
                piece.subrange(1, piece.len() as int)
            } else {
                piece
            })
        },
{
}

/// A vocabulary file holds, behind four bytes, an entry for every piece: its score, the
/// number of its bytes, and the bytes.
pub proof fn law_vocabulary_file(data: Seq<u8>, n: nat, at: Seq<int>, i: int)
    requires
        at.len() == n + 1,
        at[0] == 4,
        forall|j: int|
            0 <= j < n ==> #[trigger] at[j + 1] == at[j] + 8 + data[at[j] + 4] + 256 * data[at[j] + 5]
                + 65536 * data[at[j] + 6] + 16777216 * data[at[j] + 7],
        0 <= i < n,
        forall|j: int| 0 <= j <= n ==> at[n as int] <= data.len() && 0 <= #[trigger] at[j],
    ensures
        file_vocab(data, n).pieces.len() == n,
        file_vocab(data, n).scores.len() == n,
        file_vocab(data, n).pieces[i] == data.subrange(at[i] + 8, at[i + 1]),
        file_vocab(data, n).scores[i] == data[at[i]] + 256 * data[at[i] + 1] + 65536 * data[at[i] + 2]
            + 16777216 * data[at[i] + 3],
        entries_fit(data, n),
{
    lemma_offset(data, n, at, i as nat);
    lemma_offset(data, n, at, (i + 1) as nat);
    lemma_fit(data, n, at, n);
    assert(at[i + 1] == at[i + 1]);
}

proof fn lemma_offset(data: Seq<u8>, n: nat, at: Seq<int>, i: nat)
    requires
        at.len() == n + 1,
        at[0] == 4,
        forall|j: int|
            0 <= j < n ==> #[trigger] at[j + 1] == at[j] + 8 + data[at[j] + 4] + 256 * data[at[j] + 5]
                + 65536 * data[at[j] + 6] + 16777216 * data[at[j] + 7],
        i <= n,
    ensures
        entry_offset(data, i) == at[i as int],
    decreases i,
{
    if i > 0 {
        lemma_offset(data, n, at, (i - 1) as nat);
        assert(at[i - 1 + 1] == at[i as int]);
    }
}

proof fn lemma_fit(data: Seq<u8>, n: nat, at: Seq<int>, i: nat)
    requires
        at.len() == n + 1,
        at[0] == 4,
        forall|j: int|
            0 <= j < n ==> #[trigger] at[j + 1] == at[j] + 8 + data[at[j] + 4] + 256 * data[at[j] + 5]
                + 65536 * data[at[j] + 6] + 16777216 * data[at[j] + 7],
        i <= n,
        at[i as int] <= data.len(),
    ensures
        entries_fit(data, i),
    decreases i,
{
    if i > 0 {
        assert(at[i - 1 + 1] == at[i as int]);
        lemma_fit(data, n, at, (i - 1) as nat);
        lemma_offset(data, n, at, (i - 1) as nat);
        lemma_offset(data, n, at, i);
    }
}

/// Generation stops at the tokens that begin and end a sequence, 1 and 2, or those that the
/// vocabulary names.
pub proof fn law_stop_tokens(t: AnyTokenizer, token: u32)
    ensures
        t is SentencePiece ==> (t.stops(token) <==> token == 1 || token == 2),
        t matches AnyTokenizer::Bpe(b) ==> (t.stops(token) <==> b@.eos_id == Some(token)
            || b@.bos_id == Some(token)),
{
}

/// A prompt of the scored vocabulary begins a sequence and does not end it.
pub proof fn law_sentence_prompt(t: AnyTokenizer, text: Seq<char>, prev: u32, token: u32)
    ensures
        t matches AnyTokenizer::SentencePiece(s) ==> t.prompt(text) == encoded(s@, text, true, false)
            && t.written(prev, token) == decoded(s@, prev, token) && t.size() == s@.pieces.len(),
        t matches AnyTokenizer::Bpe(b) ==> t.prompt(text) == crate::model::bpe::prompt_ids(b@, text)
            && t.written(prev, token) == crate::model::bpe::token_bytes(b@, token) && t.size()
            == b@.vocab.len(),
{
}

} // verus!
