//! The Llama SentencePiece tokenizer: scored byte pieces, greedy merging.
use crate::bytes::{copy_window, read_u32, u32_at, window};
use crate::float_bits::{greater32, greater_f32, is_nan32};
use crate::model::pieces::{first_index, law_first_index, piece_views, PieceIndex};
use crate::text::{lemma_encode_utf8_char, lemma_encode_utf8_concat};
use vstd::prelude::*;
use vstd::utf8::{encode_scalar, encode_utf8};

verus! {

/// Begins a sequence.
pub const BOS: u32 = 1;

/// Ends a sequence.
pub const EOS: u32 = 2;

/// The pieces and scores of a vocabulary.
pub struct VocabView {
    pub pieces: Seq<Seq<u8>>,
    pub scores: Seq<u32>,
}

impl VocabView {
    /// One score per piece, and ids that fit.
    pub open spec fn wf(self) -> bool {
        self.pieces.len() == self.scores.len() && self.pieces.len() <= u32::MAX
    }

    /// The piece of a token that the vocabulary has.
    pub open spec fn has(self, token: u32) -> bool {
        token < self.pieces.len()
    }

    pub open spec fn piece(self, token: u32) -> Seq<u8> {
        self.pieces[token as int]
    }

    /// The token that spells `a` and `b` together, if both are in the
    /// vocabulary and so is their concatenation.
    pub open spec fn joined(self, a: u32, b: u32) -> Option<u32> {
        if self.has(a) && self.has(b) {
            match first_index(self.pieces, self.piece(a) + self.piece(b)) {
                Some(i) => Some(i as u32),
                None => None,
            }
        } else {
            None
        }
    }
}

/// The best merge among the first `n` adjacent pairs: the position, and the
/// token that replaces the pair. A later pair wins only with a greater score.
pub open spec fn best_merge(v: VocabView, tokens: Seq<u32>, n: nat) -> Option<(int, u32)>
    decreases n,
{
    if n == 0 {
        None
    } else {
        let best = best_merge(v, tokens, (n - 1) as nat);
        match v.joined(tokens[n - 1], tokens[n as int]) {
            None => best,
            Some(id) => match best {
                None => Some((n - 1, id)),
                Some((i, other)) => if greater32(v.scores[id as int], v.scores[other as int]) {
                    Some((n - 1, id))
                } else {
                    best
                },
            },
        }
    }
}

/// The best merge of a whole sequence.
pub open spec fn best_pair(v: VocabView, tokens: Seq<u32>) -> Option<(int, u32)> {
    if tokens.len() == 0 {
        None
    } else {
        best_merge(v, tokens, (tokens.len() - 1) as nat)
    }
}

/// The pair at `i` replaced by one token.
pub open spec fn replace_pair(tokens: Seq<u32>, i: int, id: u32) -> Seq<u32> {
    tokens.update(i, id).remove(i + 1)
}

/// Merging the best pair until no two neighbours spell a piece.
pub open spec fn merged(v: VocabView, tokens: Seq<u32>) -> Seq<u32>
    decreases tokens.len(),
{
    match best_pair(v, tokens) {
        None => tokens,
        Some((i, id)) => if 0 <= i && i + 1 < tokens.len() {
            merged(v, replace_pair(tokens, i, id))
        } else {
            tokens
        },
    }
}

/// The tokens of one character before merging: its own piece, or one
/// fallback token per byte. Fallback tokens follow the three special ones.
pub open spec fn seed_char(v: VocabView, c: char) -> Seq<u32> {
    let bytes = encode_scalar(c as u32);
    match first_index(v.pieces, bytes) {
        Some(i) => seq![i as u32],
        None => Seq::new(bytes.len(), |k: int| (bytes[k] + 3) as u32),
    }
}

/// The tokens of a text before merging.
pub open spec fn seed_text(v: VocabView, text: Seq<char>) -> Seq<u32>
    decreases text.len(),
{
    if text.len() == 0 {
        seq![]
    } else {
        seed_text(v, text.drop_last()) + seed_char(v, text.last())
    }
}

/// The space that word-initial pieces carry, in front of any text.
pub open spec fn dummy_prefix(v: VocabView, text: Seq<char>) -> Seq<u32> {
    if text.len() == 0 {
        seq![]
    } else {
        match first_index(v.pieces, seq![32u8]) {
            Some(i) => seq![i as u32],
            None => seq![],
        }
    }
}

/// The tokens of a text.
pub open spec fn encoded(v: VocabView, text: Seq<char>, bos: bool, eos: bool) -> Seq<u32> {
    let start = if bos {
        seq![BOS]
    } else {
        seq![]
    };
    let body = merged(v, start + dummy_prefix(v, text) + seed_text(v, text));
    if eos {
        body.push(EOS)
    } else {
        body
    }
}

/// The value of a hexadecimal digit.
pub open spec fn hex_nibble(b: u8) -> Option<int> {
    if 48 <= b <= 57 {
        Some(b - 48)
    } else if 65 <= b <= 70 {
        Some(b - 55)
    } else if 97 <= b <= 102 {
        Some(b - 87)
    } else {
        None
    }
}

/// The number that two characters stand for in base sixteen; a plus sign may
/// stand in front of a single digit.
pub open spec fn hex_pair(a: u8, b: u8) -> Option<int> {
    match hex_nibble(b) {
        None => None,
        Some(low) => if a == 43 {
            Some(low)
        } else {
            match hex_nibble(a) {
                None => None,
                Some(high) => Some(16 * high + low),
            }
        },
    }
}

/// The byte that a piece of the form `<0xNN>` stands for.
pub open spec fn raw_byte(piece: Seq<u8>) -> Option<int> {
    if piece.len() == 6 && piece[0] == 60 && piece[1] == 48 && piece[2] == 120 && piece[5] == 62 {
        hex_pair(piece[3], piece[4])
    } else {
        None
    }
}

/// What a token is written as behind `prev`.
pub open spec fn decoded(v: VocabView, prev: u32, token: u32) -> Seq<u8> {
    if !v.has(token) {
        seq![]
    } else {
        let piece = v.piece(token);
        match raw_byte(piece) {
            Some(b) => seq![b as u8],
            None => if prev == BOS && piece.len() > 0 && piece[0] == 32 {
                piece.skip(1)
            } else {
                piece
            },
        }
    }
}

/// What the pieces of some tokens spell. Tokens outside the vocabulary spell nothing.
pub open spec fn spelled(v: VocabView, tokens: Seq<u32>) -> Seq<u8>
    decreases tokens.len(),
{
    if tokens.len() == 0 {
        seq![]
    } else {
        spelled(v, tokens.drop_last()) + (if v.has(tokens.last()) {
            v.piece(tokens.last())
        } else {
            seq![]
        })
    }
}

/// A merge that is found is one of the pairs.
pub proof fn lemma_best_merge_in_range(v: VocabView, tokens: Seq<u32>, n: nat)
    requires
        n < tokens.len(),
        v.wf(),
    ensures
        best_merge(v, tokens, n) matches Some((i, id)) ==> 0 <= i < n && v.joined(
            tokens[i],
            tokens[i + 1],
        ) == Some(id) && id < v.pieces.len() && v.pieces[id as int] == v.piece(tokens[i]) + v.piece(
            tokens[i + 1],
        ),
    decreases n,
{
    if n > 0 {
        lemma_best_merge_in_range(v, tokens, (n - 1) as nat);
        let a = tokens[n - 1];
        let b = tokens[n as int];
        if v.has(a) && v.has(b) {
            law_first_index(v.pieces, v.piece(a) + v.piece(b));
        }
    }
}

/// With scores that are numbers, the merge that is made is one of the best:
/// no pair that spells a piece scores more, and none to its left as much.
pub proof fn law_best_merge_is_best(v: VocabView, tokens: Seq<u32>, n: nat, j: int, other: u32)
    requires
        v.wf(),
        n < tokens.len(),
        0 <= j < n,
        forall|k: int| 0 <= k < v.scores.len() ==> !is_nan32(#[trigger] v.scores[k]),
        v.joined(tokens[j], tokens[j + 1]) == Some(other),
    ensures
        best_merge(v, tokens, n) matches Some((i, id)) && !greater32(
            v.scores[other as int],
            v.scores[id as int],
        ) && (j < i ==> greater32(v.scores[id as int], v.scores[other as int])),
    decreases n,
{
    lemma_best_merge_in_range(v, tokens, n);
    lemma_best_merge_in_range(v, tokens, (n - 1) as nat);
    law_first_index(v.pieces, v.piece(tokens[j]) + v.piece(tokens[j + 1]));
    if j < n - 1 {
        law_best_merge_is_best(v, tokens, (n - 1) as nat, j, other);
    }
    match v.joined(tokens[n - 1], tokens[n as int]) {
        Some(id) => {
            law_first_index(v.pieces, v.piece(tokens[n - 1]) + v.piece(tokens[n as int]));
            assert(!is_nan32(v.scores[id as int]));
        },
        None => {},
    }
    assert(!is_nan32(v.scores[other as int]));
    match best_merge(v, tokens, (n - 1) as nat) {
        Some((i, id)) => {
            assert(!is_nan32(v.scores[id as int]));
        },
        None => {},
    }
}

proof fn lemma_spelled_concat(v: VocabView, a: Seq<u32>, b: Seq<u32>)
    ensures
        spelled(v, a + b) == spelled(v, a) + spelled(v, b),
    decreases b.len(),
{
    if b.len() == 0 {
        assert(a + b =~= a);
        assert(spelled(v, a) + spelled(v, b) =~= spelled(v, a));
    } else {
        lemma_spelled_concat(v, a, b.drop_last());
        assert((a + b).drop_last() =~= a + b.drop_last());
        assert((a + b).last() == b.last());
        let last = if v.has(b.last()) {
            v.piece(b.last())
        } else {
            seq![]
        };
        assert((spelled(v, a) + spelled(v, b.drop_last())) + last =~= spelled(v, a) + (spelled(
            v,
            b.drop_last(),
        ) + last));
    }
}

/// A merge does not change what is spelled.
proof fn lemma_replace_spells(v: VocabView, tokens: Seq<u32>, i: int, id: u32)
    requires
        0 <= i,
        i + 1 < tokens.len(),
        v.has(tokens[i]),
        v.has(tokens[i + 1]),
        v.has(id),
        v.piece(id) == v.piece(tokens[i]) + v.piece(tokens[i + 1]),
    ensures
        spelled(v, replace_pair(tokens, i, id)) == spelled(v, tokens),
{
    let a = tokens.take(i);
    let pair = seq![tokens[i], tokens[i + 1]];
    let b = tokens.skip(i + 2);
    assert(tokens =~= (a + pair) + b);
    assert(replace_pair(tokens, i, id) =~= (a + seq![id]) + b);
    lemma_spelled_concat(v, a + pair, b);
    lemma_spelled_concat(v, a, pair);
    lemma_spelled_concat(v, a + seq![id], b);
    lemma_spelled_concat(v, a, seq![id]);
    reveal_with_fuel(spelled, 3);
    assert(pair.drop_last() =~= seq![tokens[i]]);
    assert(pair.drop_last().drop_last() =~= seq![]);
    assert(seq![id].drop_last() =~= seq![]);
    assert(spelled(v, pair) =~= v.piece(tokens[i]) + v.piece(tokens[i + 1]));
    assert(spelled(v, seq![id]) =~= v.piece(id));
}

/// Merging never changes what the tokens spell.
pub proof fn law_merging_preserves_spelling(v: VocabView, tokens: Seq<u32>)
    requires
        v.wf(),
    ensures
        spelled(v, merged(v, tokens)) == spelled(v, tokens),
    decreases tokens.len(),
{
    if tokens.len() > 0 {
        lemma_best_merge_in_range(v, tokens, (tokens.len() - 1) as nat);
        match best_pair(v, tokens) {
            None => {},
            Some((i, id)) => {
                lemma_replace_spells(v, tokens, i, id);
                law_merging_preserves_spelling(v, replace_pair(tokens, i, id));
            },
        }
    }
}

/// Every character of the text has a piece of its own.
pub open spec fn covers(v: VocabView, text: Seq<char>) -> bool {
    forall|i: int|
        0 <= i < text.len() ==> first_index(v.pieces, encode_scalar(#[trigger] text[i] as u32)) is Some
}

proof fn lemma_seed_spells(v: VocabView, text: Seq<char>)
    requires
        v.wf(),
        covers(v, text),
    ensures
        spelled(v, seed_text(v, text)) == encode_utf8(text),
    decreases text.len(),
{
    if text.len() > 0 {
        let rest = text.drop_last();
        let c = text.last();
        assert forall|i: int| 0 <= i < rest.len() implies first_index(
            v.pieces,
            encode_scalar(#[trigger] rest[i] as u32),
        ) is Some by {
            assert(rest[i] == text[i]);
        }
        lemma_seed_spells(v, rest);
        assert(text =~= rest + seq![c]);
        lemma_encode_utf8_concat(rest, seq![c]);
        lemma_encode_utf8_char(c);
        assert(first_index(v.pieces, encode_scalar(text[text.len() - 1] as u32)) is Some);
        law_first_index(v.pieces, encode_scalar(c as u32));
        let one = seed_char(v, c);
        lemma_spelled_concat(v, seed_text(v, rest), one);
        reveal_with_fuel(spelled, 2);
        assert(one.drop_last() =~= seq![]);
        assert(spelled(v, one) =~= encode_scalar(c as u32));
    }
}

/// The tokens of a text spell the text, behind one space, wherever the
/// vocabulary has a piece for the space and for every character.
pub proof fn law_encoding_spells_text(v: VocabView, text: Seq<char>)
    requires
        v.wf(),
        text.len() > 0,
        covers(v, text),
        first_index(v.pieces, seq![32u8]) is Some,
    ensures
        spelled(v, encoded(v, text, false, false)) == seq![32u8] + encode_utf8(text),
{
    let prefix = dummy_prefix(v, text);
    let seeds = seed_text(v, text);
    let start: Seq<u32> = seq![];
    assert(start + prefix + seeds =~= prefix + seeds);
    law_merging_preserves_spelling(v, prefix + seeds);
    lemma_spelled_concat(v, prefix, seeds);
    lemma_seed_spells(v, text);
    law_first_index(v.pieces, seq![32u8]);
    reveal_with_fuel(spelled, 2);
    assert(prefix.drop_last() =~= seq![]);
    assert(spelled(v, prefix) =~= seq![32u8]);
}

/// What the loader finds wrong with a tokenizer file.
#[derive(Debug, Clone, Copy, PartialEq, Eq, Structural)]
pub enum TokenizerError {
    Truncated,
}

/// Where entry `i` of a tokenizer file starts. The first four bytes are not used.
pub open spec fn entry_offset(data: Seq<u8>, i: nat) -> int
    decreases i,
{
    if i == 0 {
        4
    } else {
        let o = entry_offset(data, (i - 1) as nat);
        o + 8 + u32_at(data, o + 4)
    }
}

/// The first `n` entries of a tokenizer file lie within it.
pub open spec fn entries_fit(data: Seq<u8>, n: nat) -> bool
    decreases n,
{
    n == 0 || (entries_fit(data, (n - 1) as nat) && entry_offset(data, (n - 1) as nat) + 8
        <= data.len() && entry_offset(data, n) <= data.len())
}

/// The vocabulary of a tokenizer file: per entry a score, a length and as many bytes.
pub open spec fn file_vocab(data: Seq<u8>, n: nat) -> VocabView {
    VocabView {
        pieces: Seq::new(
            n,
            |i: int|
                window(
                    data,
                    entry_offset(data, i as nat) + 8,
                    u32_at(data, entry_offset(data, i as nat) + 4) as int,
                ),
        ),
        scores: Seq::new(n, |i: int| u32_at(data, entry_offset(data, i as nat))),
    }
}

proof fn lemma_entries_fit_prefix(data: Seq<u8>, k: nat, n: nat)
    requires
        k <= n,
        entries_fit(data, n),
    ensures
        entries_fit(data, k),
    decreases n,
{
    if k < n {
        lemma_entries_fit_prefix(data, k, (n - 1) as nat);
    }
}

pub struct Tokenizer {
    vocab: Vec<Vec<u8>>,
    scores: Vec<u32>,
    lookup: PieceIndex,
}

impl View for Tokenizer {
    type V = VocabView;

    closed spec fn view(&self) -> VocabView {
        VocabView { pieces: piece_views(self.vocab@), scores: self.scores@ }
    }
}

/// The bytes of a character.
pub fn char_bytes(c: char) -> (b: Vec<u8>)
    ensures
        b@ == encode_scalar(c as u32),
{
    let v: u32 = c as u32;
    let mut b: Vec<u8> = Vec::new();
    if v < 0x80 {
        b.push((v & 0x7F) as u8);
    } else if v < 0x800 {
        b.push(0xC0 | ((v >> 6) & 0x1F) as u8);
        b.push(0x80 | (v & 0x3F) as u8);
    } else if v < 0x10000 {
        b.push(0xE0 | ((v >> 12) & 0x0F) as u8);
        b.push(0x80 | ((v >> 6) & 0x3F) as u8);
        b.push(0x80 | (v & 0x3F) as u8);
    } else {
        b.push(0xF0 | ((v >> 18) & 0x7) as u8);
        b.push(0x80 | ((v >> 12) & 0x3F) as u8);
        b.push(0x80 | ((v >> 6) & 0x3F) as u8);
        b.push(0x80 | (v & 0x3F) as u8);
    }
    proof {
        assert(b@ =~= encode_scalar(v));
    }
    b
}

fn hex_nibble_of(b: u8) -> (n: Option<u8>)
    ensures
        match hex_nibble(b) {
            Some(v) => n == Some(v as u8) && v < 16,
            None => n is None,
        },
{
    if 48 <= b && b <= 57 {
        Some(b - 48)
    } else if 65 <= b && b <= 70 {
        Some(b - 55)
    } else if 97 <= b && b <= 102 {
        Some(b - 87)
    } else {
        None
    }
}

/// The byte that a piece of the form `<0xNN>` stands for.
fn raw_byte_of(piece: &Vec<u8>) -> (b: Option<u8>)
    ensures
        match raw_byte(piece@) {
            Some(v) => b == Some(v as u8) && 0 <= v < 256,
            None => b is None,
        },
{
    if piece.len() == 6 && piece[0] == 60 && piece[1] == 48 && piece[2] == 120 && piece[5] == 62 {
        match hex_nibble_of(piece[4]) {
            None => None,
            Some(low) => if piece[3] == 43 {
                Some(low)
            } else {
                match hex_nibble_of(piece[3]) {
                    None => None,
                    Some(high) => Some(16 * high + low),
                }
            },
        }
    } else {
        None
    }
}

impl Tokenizer {
    /// The index answers for the vocabulary.
    pub closed spec fn wf(&self) -> bool {
        &&& self@.wf()
        &&& self.lookup.indexes(self@.pieces)
    }

    /// Build from piece and score lists.
    pub fn from_parts(vocab: Vec<Vec<u8>>, scores: Vec<u32>) -> (t: Self)
        requires
            vocab@.len() == scores@.len(),
            vocab@.len() <= u32::MAX,
        ensures
            t.wf(),
            t@.wf(),
            t@.pieces == piece_views(vocab@),
            t@.scores == scores@,
    {
        let lookup = PieceIndex::new(&vocab);
        Tokenizer { vocab, scores, lookup }
    }

    /// Parse a tokenizer file of `vocab_size` entries.
    pub fn from_bytes(data: &[u8], vocab_size: usize) -> (r: Result<Self, TokenizerError>)
        requires
            vocab_size <= u32::MAX,
        ensures
            r is Ok <==> entries_fit(data@, vocab_size as nat),
            r matches Ok(t) ==> t.wf() && t@ == file_vocab(data@, vocab_size as nat),
    {
        let mut off: usize = 4;
        let mut vocab: Vec<Vec<u8>> = Vec::new();
        let mut scores: Vec<u32> = Vec::new();
        let mut i: usize = 0;
        while i < vocab_size
            invariant
                vocab_size <= u32::MAX,
                i <= vocab_size,
                off == entry_offset(data@, i as nat),
                off <= data.len() || i == 0,
                vocab@.len() == i,
                scores@.len() == i,
                entries_fit(data@, i as nat),
                piece_views(vocab@) == file_vocab(data@, i as nat).pieces,
                scores@ == file_vocab(data@, i as nat).scores,
            decreases vocab_size - i,
        {
            let bad: bool = data.len() < 8 || off > data.len() - 8;
            if bad {
                proof {
                    if entries_fit(data@, vocab_size as nat) {
                        lemma_entries_fit_prefix(data@, (i + 1) as nat, vocab_size as nat);
                    }
                }
                return Err(TokenizerError::Truncated);
            }
            let score: u32 = read_u32(data, off);
            let len: u32 = read_u32(data, off + 4);
            if len as u64 > (data.len() - off - 8) as u64 {
                proof {
                    if entries_fit(data@, vocab_size as nat) {
                        lemma_entries_fit_prefix(data@, (i + 1) as nat, vocab_size as nat);
                    }
                }
                return Err(TokenizerError::Truncated);
            }
            let piece = copy_window(data, off + 8, len as usize);
            let ghost before = vocab@;
            vocab.push(piece);
            scores.push(score);
            proof {
                assert(piece_views(vocab@) =~= file_vocab(data@, (i + 1) as nat).pieces) by {
                    assert forall|k: int| 0 <= k < i + 1 implies #[trigger] piece_views(vocab@)[k]
                        == file_vocab(data@, (i + 1) as nat).pieces[k] by {
                        if k < i {
                            assert(piece_views(before)[k] == file_vocab(
                                data@,
                                i as nat,
                            ).pieces[k]);
                        }
                    }
                }
                assert(scores@ =~= file_vocab(data@, (i + 1) as nat).scores);
            }
            off = off + 8 + len as usize;
            i += 1;
        }
        let t = Self::from_parts(vocab, scores);
        Ok(t)
    }

    pub fn vocab_size(&self) -> (n: usize)
        ensures
            n == self@.pieces.len(),
    {
        self.vocab.len()
    }

    /// The token that spells two tokens together.
    fn join(&self, a: u32, b: u32) -> (id: Option<u32>)
        requires
            self.wf(),
        ensures
            id == self@.joined(a, b),
            id matches Some(k) ==> k < self@.pieces.len(),
    {
        if a as u64 >= self.vocab.len() as u64 || b as u64 >= self.vocab.len() as u64 {
            return None;
        }
        let mut both: Vec<u8> = Vec::new();
        both.extend_from_slice(self.vocab[a as usize].as_slice());
        both.extend_from_slice(self.vocab[b as usize].as_slice());
        let ghost v = self@;
        proof {
            assert(both@ =~= v.piece(a) + v.piece(b));
            law_first_index(v.pieces, v.piece(a) + v.piece(b));
        }
        self.lookup.find(both.as_slice(), Ghost(v.pieces))
    }

    /// The best merge of a sequence.
    fn best(&self, tokens: &Vec<u32>) -> (r: Option<(usize, u32)>)
        requires
            self.wf(),
        ensures
            match r {
                Some((i, id)) => best_pair(self@, tokens@) == Some((i as int, id)) && i + 1
                    < tokens.len(),
                None => best_pair(self@, tokens@) is None,
            },
    {
        if tokens.len() == 0 {
            return None;
        }
        let ghost v = self@;
        let pairs: usize = tokens.len() - 1;
        let mut best: Option<(usize, u32)> = None;
        let mut i: usize = 0;
        while i < pairs
            invariant
                self.wf(),
                v == self@,
                pairs == tokens@.len() - 1,
                i <= pairs,
                match best {
                    Some((k, id)) => best_merge(v, tokens@, i as nat) == Some((k as int, id)) && k
                        < i && id < v.pieces.len(),
                    None => best_merge(v, tokens@, i as nat) is None,
                },
            decreases pairs - i,
        {
            if let Some(id) = self.join(tokens[i], tokens[i + 1]) {
                let better: bool = match best {
                    None => true,
                    Some((_, other)) => greater_f32(
                        self.scores[id as usize],
                        self.scores[other as usize],
                    ),
                };
                if better {
                    best = Some((i, id));
                }
            }
            i += 1;
        }
        best
    }

    /// Encode text to tokens, optionally behind BOS and before EOS.
    pub fn encode(&self, text: &str, bos: bool, eos: bool) -> (out: Vec<u32>)
        requires
            self.wf(),
        ensures
            out@ == encoded(self@, text@, bos, eos),
    {
        let ghost v = self@;
        let mut tokens: Vec<u32> = Vec::new();
        if bos {
            tokens.push(BOS);
        }
        let ghost start = tokens@;
        let chars = crate::text::to_chars(text);
        if chars.len() > 0 {
            let space: Vec<u8> = vec![32u8];
            proof {
                assert(space@ =~= seq![32u8]);
            }
            if let Some(sp) = self.lookup.find(space.as_slice(), Ghost(v.pieces)) {
                tokens.push(sp);
            }
        }
        proof {
            assert(tokens@ =~= start + dummy_prefix(v, text@));
        }
        let ghost prefix = tokens@;
        let mut i: usize = 0;
        proof {
            assert(prefix + seed_text(v, text@.take(0)) =~= prefix);
        }
        while i < chars.len()
            invariant
                self.wf(),
                v == self@,
                chars@ == text@,
                i <= chars.len(),
                tokens@ == prefix + seed_text(v, text@.take(i as int)),
            decreases chars.len() - i,
        {
            let ghost before = tokens@;
            let c: char = chars[i];
            let piece = char_bytes(c);
            match self.lookup.find(piece.as_slice(), Ghost(v.pieces)) {
                Some(id) => {
                    tokens.push(id);
                },
                None => {
                    let mut k: usize = 0;
                    while k < piece.len()
                        invariant
                            k <= piece.len(),
                            tokens@ == before + Seq::new(
                                k as nat,
                                |j: int| (piece@[j] + 3) as u32,
                            ),
                        decreases piece.len() - k,
                    {
                        tokens.push(piece[k] as u32 + 3);
                        proof {
                            assert(tokens@ =~= before + Seq::new(
                                (k + 1) as nat,
                                |j: int| (piece@[j] + 3) as u32,
                            ));
                        }
                        k += 1;
                    }
                },
            }
            proof {
                assert(text@.take(i + 1).drop_last() =~= text@.take(i as int));
                assert(tokens@ =~= before + seed_char(v, c));
                assert(tokens@ =~= prefix + seed_text(v, text@.take(i + 1)));
            }
            i += 1;
        }
        proof {
            assert(text@.take(i as int) =~= text@);
        }
        let ghost seeded = tokens@;
        loop
            invariant
                self.wf(),
                v == self@,
                merged(v, tokens@) == merged(v, seeded),
            ensures
                best_pair(v, tokens@) is None,
            decreases tokens@.len(),
        {
            match self.best(&tokens) {
                Some((i, id)) => {
                    let ghost before = tokens@;
                    tokens.set(i, id);
                    tokens.remove(i + 1);
                    proof {
                        assert(tokens@ =~= replace_pair(before, i as int, id));
                    }
                },
                None => {
                    break ;
                },
            }
        }
        if eos {
            tokens.push(EOS);
        }
        tokens
    }

    /// Decode one token, given the one before it: raw-byte tokens to their
    /// byte, and the piece right behind BOS without its leading space.
    pub fn decode(&self, prev: u32, token: u32) -> (out: Vec<u8>)
        ensures
            out@ == decoded(self@, prev, token),
    {
        if token as u64 >= self.vocab.len() as u64 {
            return Vec::new();
        }
        let piece = &self.vocab[token as usize];
        if let Some(b) = raw_byte_of(piece) {
            return vec![b];
        }
        if prev == BOS && piece.len() > 0 && piece[0] == 32 {
            return copy_window(piece.as_slice(), 1, piece.len() - 1);
        }
        copy_window(piece.as_slice(), 0, piece.len())
    }
}

} // verus!
