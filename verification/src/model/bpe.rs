//! Byte-level BPE (GPT-2 lineage).
//!
//! Raw bytes are mapped to a printable alphabet, so vocabulary entries and
//! merges are texts over that alphabet. Encoding splits text into word-like
//! pieces, seeds each piece with one symbol per byte, then applies the
//! lowest-ranked merge until none applies.
use crate::model::pieces::{first_index, law_first_index, text_views, TextIndex};
use crate::model::pretokenize::{classes_of, concat, law_pieces_cover_text, pieces, pre_tokenize};
use crate::text::{from_chars, occurs_at, to_chars};
use vstd::hash_map::StringHashMap;
use vstd::prelude::*;
use vstd::utf8::encode_utf8;

verus! {

/// Bytes that stand for themselves in the alphabet.
pub open spec fn printable(b: int) -> bool {
    33 <= b <= 126 || 161 <= b <= 172 || 174 <= b <= 255
}

/// How many bytes below `b` do not stand for themselves.
pub open spec fn shifted_below(b: nat) -> nat
    decreases b,
{
    if b == 0 {
        0
    } else {
        shifted_below((b - 1) as nat) + (if printable(b - 1) {
            0nat
        } else {
            1nat
        })
    }
}

/// The character of a byte: itself, or the next one from 256 up.
pub open spec fn byte_char(b: u8) -> char {
    if printable(b as int) {
        b as char
    } else {
        (256 + shifted_below(b as nat)) as char
    }
}

proof fn lemma_shifted_bound(b: nat)
    ensures
        shifted_below(b) <= b,
    decreases b,
{
    if b > 0 {
        lemma_shifted_bound((b - 1) as nat);
    }
}

proof fn lemma_shifted_monotone(a: nat, b: nat)
    requires
        a < b,
    ensures
        shifted_below(a) <= shifted_below(b),
        !printable(a as int) ==> shifted_below(a) < shifted_below(b),
    decreases b,
{
    if a + 1 < b {
        lemma_shifted_monotone(a, (b - 1) as nat);
    }
}

/// Different bytes have different characters.
pub proof fn law_byte_char_injective(a: u8, b: u8)
    requires
        byte_char(a) == byte_char(b),
    ensures
        a == b,
{
    lemma_shifted_bound(a as nat);
    lemma_shifted_bound(b as nat);
    assert((a as char) as int == a as int && (b as char) as int == b as int);
    assert(!printable(a as int) ==> byte_char(a) as int == 256 + shifted_below(a as nat));
    assert(!printable(b as int) ==> byte_char(b) as int == 256 + shifted_below(b as nat));
    if a < b {
        lemma_shifted_monotone(a as nat, b as nat);
    } else if b < a {
        lemma_shifted_monotone(b as nat, a as nat);
    }
}

/// No byte is mapped to a space.
proof fn lemma_byte_char_not_space(b: u8)
    ensures
        byte_char(b) != ' ',
{
    lemma_shifted_bound(b as nat);
    assert((b as char) as int == b as int);
    assert(!printable(b as int) ==> byte_char(b) as int == 256 + shifted_below(b as nat));
}

/// The alphabet, by byte.
pub open spec fn alphabet() -> Seq<char> {
    Seq::new(256, |b: int| byte_char(b as u8))
}

/// `char::from_u32`: the character of a Unicode scalar value.
#[verifier::external_body]
fn char_of(v: u32) -> (c: char)
    requires
        v < 0xd800,
    ensures
        c as u32 == v,
{
    char::from_u32(v).unwrap()
}

/// The byte-to-character table.
pub fn bytes_to_unicode() -> (table: Vec<char>)
    ensures
        table@ == alphabet(),
{
    let mut table: Vec<char> = Vec::new();
    let mut n: u32 = 0;
    let mut b: u32 = 0;
    while b < 256
        invariant
            b <= 256,
            n == shifted_below(b as nat),
            n <= b,
            table@ == alphabet().take(b as int),
        decreases 256 - b,
    {
        let own: bool = (33 <= b && b <= 126) || (161 <= b && b <= 172) || (174 <= b && b <= 255);
        let c: char = if own {
            char_of(b)
        } else {
            char_of(256 + n)
        };
        proof {
            let byte = b as u8;
            assert(byte as int == b);
            assert((byte as char) as u32 == b);
            assert(c == byte_char(byte)) by {
                lemma_shifted_bound(b as nat);
                crate::text::lemma_char_range(c);
                crate::text::lemma_char_range(byte_char(byte));
                assert(!own ==> byte_char(byte) as int == 256 + n);
            }
            lemma_shifted_bound((b + 1) as nat);
        }
        if !own {
            n += 1;
        }
        table.push(c);
        proof {
            assert(table@ =~= alphabet().take(b + 1));
        }
        b += 1;
    }
    proof {
        assert(alphabet().take(256) =~= alphabet());
    }
    table
}

/// Bytes in the alphabet.
pub open spec fn mapped(bytes: Seq<u8>) -> Seq<char> {
    Seq::new(bytes.len(), |i: int| byte_char(bytes[i]))
}

/// The bytes that a text over the alphabet stands for; other characters stand
/// for nothing.
pub open spec fn unmapped(text: Seq<char>) -> Seq<u8>
    decreases text.len(),
{
    if text.len() == 0 {
        seq![]
    } else {
        match char_byte(text.last()) {
            Some(b) => unmapped(text.drop_last()).push(b),
            None => unmapped(text.drop_last()),
        }
    }
}

/// The byte that a character of the alphabet stands for.
pub open spec fn char_byte(c: char) -> Option<u8> {
    if exists|b: u8| #[trigger] byte_char(b) == c {
        Some(choose|b: u8| #[trigger] byte_char(b) == c)
    } else {
        None
    }
}

proof fn lemma_char_byte(b: u8)
    ensures
        char_byte(byte_char(b)) == Some(b),
{
    let c = byte_char(b);
    let x = choose|x: u8| #[trigger] byte_char(x) == c;
    assert(byte_char(x) == c);
    law_byte_char_injective(x, b);
}

proof fn lemma_unmapped_concat(a: Seq<char>, b: Seq<char>)
    ensures
        unmapped(a + b) == unmapped(a) + unmapped(b),
    decreases b.len(),
{
    if b.len() == 0 {
        assert(a + b =~= a);
        assert(unmapped(a) + unmapped(b) =~= unmapped(a));
    } else {
        lemma_unmapped_concat(a, b.drop_last());
        assert((a + b).drop_last() =~= a + b.drop_last());
        match char_byte(b.last()) {
            Some(x) => {
                assert((unmapped(a) + unmapped(b.drop_last())).push(x) =~= unmapped(a) + unmapped(
                    b.drop_last(),
                ).push(x));
            },
            None => {},
        }
    }
}

/// Mapping bytes to the alphabet loses nothing.
pub proof fn law_mapping_round_trip(bytes: Seq<u8>)
    ensures
        unmapped(mapped(bytes)) == bytes,
    decreases bytes.len(),
{
    if bytes.len() > 0 {
        let rest = bytes.drop_last();
        law_mapping_round_trip(rest);
        assert(mapped(bytes).drop_last() =~= mapped(rest));
        assert(mapped(bytes).last() == byte_char(bytes.last()));
        lemma_char_byte(bytes.last());
        assert(rest.push(bytes.last()) =~= bytes);
    }
}

/// A tokenizer: vocabulary, merges in rank order, and its special tokens in
/// the order in which they are tried.
pub struct BpeView {
    pub vocab: Seq<Seq<char>>,
    pub merges: Seq<Seq<char>>,
    pub bos_id: Option<u32>,
    pub eos_id: Option<u32>,
    pub add_bos: bool,
    pub specials: Seq<(Seq<char>, u32)>,
}

pub open spec fn no_space(text: Seq<char>) -> bool {
    forall|i: int| 0 <= i < text.len() ==> #[trigger] text[i] != ' '
}

/// The merge `m` joins `l` and `r`: its first space stands between them.
pub open spec fn merges_pair(m: Seq<char>, l: Seq<char>, r: Seq<char>) -> bool {
    no_space(l) && m == l.push(' ') + r
}

/// The rank of the merge of `l` and `r`: its place in the list, the last one
/// where it is listed more than once.
pub open spec fn merge_rank(merges: Seq<Seq<char>>, l: Seq<char>, r: Seq<char>) -> Option<int>
    decreases merges.len(),
{
    if merges.len() == 0 {
        None
    } else if merges_pair(merges.last(), l, r) {
        Some(merges.len() - 1)
    } else {
        merge_rank(merges.drop_last(), l, r)
    }
}

/// The lowest-ranked merge among the first `n` adjacent pairs, the leftmost
/// where it applies more than once: its rank and its position.
pub open spec fn lowest_merge(merges: Seq<Seq<char>>, symbols: Seq<Seq<char>>, n: nat) -> Option<
    (int, int),
>
    decreases n,
{
    if n == 0 {
        None
    } else {
        let best = lowest_merge(merges, symbols, (n - 1) as nat);
        match merge_rank(merges, symbols[n - 1], symbols[n as int]) {
            None => best,
            Some(rank) => match best {
                Some((r, _)) if r <= rank => best,
                _ => Some((rank, n - 1)),
            },
        }
    }
}

/// The merge to apply to a whole sequence of symbols.
pub open spec fn next_merge(merges: Seq<Seq<char>>, symbols: Seq<Seq<char>>) -> Option<(int, int)> {
    if symbols.len() == 0 {
        None
    } else {
        lowest_merge(merges, symbols, (symbols.len() - 1) as nat)
    }
}

/// The pair at `i` replaced by its concatenation.
pub open spec fn join_pair(symbols: Seq<Seq<char>>, i: int) -> Seq<Seq<char>> {
    symbols.update(i, symbols[i] + symbols[i + 1]).remove(i + 1)
}

/// Applying the lowest-ranked merge until none applies.
pub open spec fn merged_symbols(merges: Seq<Seq<char>>, symbols: Seq<Seq<char>>) -> Seq<Seq<char>>
    decreases symbols.len(),
{
    match next_merge(merges, symbols) {
        None => symbols,
        Some((_, i)) => if 0 <= i && i + 1 < symbols.len() {
            merged_symbols(merges, join_pair(symbols, i))
        } else {
            symbols
        },
    }
}

/// One symbol per byte.
pub open spec fn byte_symbols(bytes: Seq<u8>) -> Seq<Seq<char>> {
    Seq::new(bytes.len(), |i: int| seq![byte_char(bytes[i])])
}

/// The tokens of the symbols that the vocabulary has.
pub open spec fn symbol_ids(vocab: Seq<Seq<char>>, symbols: Seq<Seq<char>>) -> Seq<u32>
    decreases symbols.len(),
{
    if symbols.len() == 0 {
        seq![]
    } else {
        let rest = symbol_ids(vocab, symbols.drop_last());
        match first_index(vocab, symbols.last()) {
            Some(i) => rest.push(i as u32),
            None => rest,
        }
    }
}

/// The tokens of one piece.
pub open spec fn piece_ids(v: BpeView, piece: Seq<char>) -> Seq<u32> {
    symbol_ids(v.vocab, merged_symbols(v.merges, byte_symbols(encode_utf8(piece))))
}

/// The tokens of some pieces.
pub open spec fn pieces_ids(v: BpeView, parts: Seq<Seq<char>>) -> Seq<u32>
    decreases parts.len(),
{
    if parts.len() == 0 {
        seq![]
    } else {
        pieces_ids(v, parts.drop_last()) + piece_ids(v, parts.last())
    }
}

/// The tokens of a text without special tokens.
pub open spec fn plain_ids(v: BpeView, text: Seq<char>) -> Seq<u32> {
    pieces_ids(v, pieces(text, classes_of(text)))
}

/// The first of the first `n` special tokens that stands in `text` at `at`.
pub open spec fn special_at(
    specials: Seq<(Seq<char>, u32)>,
    text: Seq<char>,
    at: int,
    n: nat,
) -> Option<int>
    decreases n,
{
    if n == 0 {
        None
    } else {
        match special_at(specials, text, at, (n - 1) as nat) {
            Some(k) => Some(k),
            None => if occurs_at(text, specials[n - 1].0, at) {
                Some(n - 1)
            } else {
                None
            },
        }
    }
}

/// The leftmost place, from `at` on, where a special token stands, and which.
pub open spec fn next_special(specials: Seq<(Seq<char>, u32)>, text: Seq<char>, at: int) -> Option<
    (int, int),
>
    decreases text.len() - at,
{
    if at < 0 || at >= text.len() {
        None
    } else {
        match special_at(specials, text, at, specials.len()) {
            Some(k) => Some((at, k)),
            None => next_special(specials, text, at + 1),
        }
    }
}

/// The tokens of a text: special tokens as they stand, the rest by merging.
pub open spec fn text_ids(v: BpeView, text: Seq<char>) -> Seq<u32>
    decreases text.len(),
{
    if text.len() == 0 {
        seq![]
    } else {
        match next_special(v.specials, text, 0) {
            None => plain_ids(v, text),
            Some((at, k)) => {
                let end = at + v.specials[k].0.len();
                if 0 <= at && at < end <= text.len() {
                    plain_ids(v, text.take(at)).push(v.specials[k].1) + text_ids(v, text.skip(end))
                } else {
                    seq![]
                }
            },
        }
    }
}

/// The tokens of a prompt.
pub open spec fn prompt_ids(v: BpeView, text: Seq<char>) -> Seq<u32> {
    match v.bos_id {
        Some(b) if v.add_bos => seq![b] + text_ids(v, text),
        _ => text_ids(v, text),
    }
}

/// What a token is written as.
pub open spec fn token_bytes(v: BpeView, token: u32) -> Seq<u8> {
    if token < v.vocab.len() {
        unmapped(v.vocab[token as int])
    } else {
        seq![]
    }
}

/// What some tokens are written as.
pub open spec fn written(v: BpeView, tokens: Seq<u32>) -> Seq<u8>
    decreases tokens.len(),
{
    if tokens.len() == 0 {
        seq![]
    } else {
        written(v, tokens.drop_last()) + token_bytes(v, tokens.last())
    }
}

/// Finds the rank of a merge. The key of a merge is its text.
struct RankIndex {
    ranks: StringHashMap<u32>,
}

impl RankIndex {
    /// The index answers for `merges`.
    closed spec fn indexes(&self, merges: Seq<Seq<char>>) -> bool {
        forall|l: Seq<char>, r: Seq<char>|
            no_space(l) ==> #[trigger] merge_rank(merges, l, r) == (if self.ranks@.dom().contains(
                l.push(' ') + r,
            ) {
                Some(self.ranks@[l.push(' ') + r] as int)
            } else {
                None
            })
    }

    fn new(merges: &[String]) -> (index: Self)
        requires
            merges.len() <= u32::MAX,
        ensures
            index.indexes(text_views(merges@)),
    {
        let mut ranks: StringHashMap<u32> = StringHashMap::new();
        let mut i: usize = 0;
        let ghost all = text_views(merges@);
        while i < merges.len()
            invariant
                merges.len() <= u32::MAX,
                all == text_views(merges@),
                i <= merges.len(),
                (RankIndex { ranks }).indexes(all.take(i as int)),
            decreases merges.len() - i,
        {
            let ghost before = ranks@;
            let ghost done = all.take(i as int);
            let ghost more = all.take(i + 1);
            ranks.insert(merges[i].as_str().to_owned(), i as u32);
            proof {
                assert(more.drop_last() =~= done);
                assert(more.last() == merges[i as int]@);
                assert forall|l: Seq<char>, r: Seq<char>|
                    no_space(l) implies #[trigger] merge_rank(more, l, r) == (
                if ranks@.dom().contains(l.push(' ') + r) {
                    Some(ranks@[l.push(' ') + r] as int)
                } else {
                    None
                }) by {
                    assert(merge_rank(done, l, r) == (if before.dom().contains(l.push(' ') + r) {
                        Some(before[l.push(' ') + r] as int)
                    } else {
                        None
                    }));
                }
            }
            i += 1;
        }
        proof {
            assert(all.take(i as int) =~= all);
        }
        RankIndex { ranks }
    }

    /// The rank of the merge of `l` and `r`.
    fn find(&self, l: &str, r: &str, merges: Ghost<Seq<Seq<char>>>) -> (rank: Option<u32>)
        requires
            self.indexes(merges@),
            no_space(l@),
        ensures
            match rank {
                Some(k) => merge_rank(merges@, l@, r@) == Some(k as int),
                None => merge_rank(merges@, l@, r@) is None,
            },
    {
        let mut key = l.to_owned();
        key.push(' ');
        key.push_str(r);
        proof {
            assert(merge_rank(merges@, l@, r@) == merge_rank(merges@, l@, r@));
        }
        match self.ranks.get(key.as_str()) {
            Some(k) => Some(*k),
            None => None,
        }
    }
}

/// What some special tokens are.
pub open spec fn special_views(specials: Seq<(String, u32)>) -> Seq<(Seq<char>, u32)> {
    Seq::new(specials.len(), |i: int| (specials[i].0@, specials[i].1))
}

/// Length in bytes of a special token.
pub open spec fn special_len(s: (Seq<char>, u32)) -> nat {
    encode_utf8(s.0).len()
}

/// Where a special token goes among others, longest first: behind all that
/// are at least as long.
pub open spec fn special_place(sorted: Seq<(Seq<char>, u32)>, x: (Seq<char>, u32)) -> int
    decreases sorted.len(),
{
    if sorted.len() == 0 {
        0
    } else if special_len(sorted.last()) < special_len(x) {
        special_place(sorted.drop_last(), x)
    } else {
        sorted.len() as int
    }
}

/// Special tokens, longest first; those of equal length keep their order.
pub open spec fn longest_first(specials: Seq<(Seq<char>, u32)>) -> Seq<(Seq<char>, u32)>
    decreases specials.len(),
{
    if specials.len() == 0 {
        seq![]
    } else {
        let rest = longest_first(specials.drop_last());
        rest.insert(special_place(rest, specials.last()), specials.last())
    }
}

proof fn lemma_special_place(sorted: Seq<(Seq<char>, u32)>, x: (Seq<char>, u32))
    ensures
        0 <= special_place(sorted, x) <= sorted.len(),
        special_place(sorted, x) > 0 ==> special_len(sorted[special_place(sorted, x) - 1])
            >= special_len(x),
        forall|i: int|
            special_place(sorted, x) <= i < sorted.len() ==> special_len(#[trigger] sorted[i])
                < special_len(x),
    decreases sorted.len(),
{
    if sorted.len() > 0 && special_len(sorted.last()) < special_len(x) {
        lemma_special_place(sorted.drop_last(), x);
        assert forall|i: int| special_place(sorted, x) <= i < sorted.len() implies special_len(
            #[trigger] sorted[i],
        ) < special_len(x) by {
            if i < sorted.len() - 1 {
                assert(sorted.drop_last()[i] == sorted[i]);
            }
        }
    }
}

/// Longest first, and the same special tokens as before.
pub proof fn law_longest_first(specials: Seq<(Seq<char>, u32)>)
    ensures
        forall|i: int, j: int|
            0 <= i <= j < longest_first(specials).len() ==> special_len(
                #[trigger] longest_first(specials)[i],
            ) >= special_len(#[trigger] longest_first(specials)[j]),
        longest_first(specials).to_multiset() == specials.to_multiset(),
        longest_first(specials).len() == specials.len(),
    decreases specials.len(),
{
    broadcast use vstd::seq_lib::group_to_multiset_ensures;

    if specials.len() > 0 {
        let less = specials.drop_last();
        let x = specials.last();
        law_longest_first(less);
        let rest = longest_first(less);
        lemma_special_place(rest, x);
        let p = special_place(rest, x);
        let out = rest.insert(p, x);
        assert forall|i: int, j: int| 0 <= i <= j < out.len() implies special_len(
            #[trigger] out[i],
        ) >= special_len(#[trigger] out[j]) by {
            if i < p && j == p {
                assert(special_len(rest[i]) >= special_len(rest[p - 1]));
            } else if i < p && j > p {
                assert(special_len(rest[i]) >= special_len(rest[j - 1]));
            } else if i > p {
                assert(special_len(rest[i - 1]) >= special_len(rest[j - 1]));
            } else if i == p && j > p {
                assert(special_len(rest[j - 1]) < special_len(x));
            } else if j < p {
                assert(special_len(rest[i]) >= special_len(rest[j]));
            }
        }
        assert(rest.insert(p, x).to_multiset() =~= rest.to_multiset().insert(x)) by {
            vstd::seq_lib::to_multiset_insert(rest, p, x);
        }
        assert(specials =~= less.push(x));
    } else {
        assert(longest_first(specials) =~= specials);
    }
}

pub struct BpeTokenizer {
    vocab: Vec<String>,
    lookup: TextIndex,
    ranks: RankIndex,
    merges: Ghost<Seq<Seq<char>>>,
    byte_enc: Vec<char>,
    bos_id: Option<u32>,
    eos_id: Option<u32>,
    add_bos: bool,
    specials: Vec<(String, u32)>,
}

impl View for BpeTokenizer {
    type V = BpeView;

    closed spec fn view(&self) -> BpeView {
        BpeView {
            vocab: text_views(self.vocab@),
            merges: self.merges@,
            bos_id: self.bos_id,
            eos_id: self.eos_id,
            add_bos: self.add_bos,
            specials: special_views(self.specials@),
        }
    }
}

impl BpeView {
    /// Every special token is a text.
    pub open spec fn specials_wf(self) -> bool {
        forall|i: int| 0 <= i < self.specials.len() ==> (#[trigger] self.specials[i]).0.len() > 0
    }
}

impl BpeTokenizer {
    /// The indexes answer for the vocabulary and the merges.
    pub closed spec fn wf(&self) -> bool {
        &&& self.lookup.indexes(self@.vocab)
        &&& self.ranks.indexes(self@.merges)
        &&& self.byte_enc@ == alphabet()
    }

    /// `merges` entries are "left right" pairs in rank order.
    pub fn new(
        vocab: Vec<String>,
        merges: &[String],
        bos_id: Option<u32>,
        eos_id: Option<u32>,
        add_bos: bool,
    ) -> (t: Self)
        requires
            vocab@.len() <= u32::MAX,
            merges.len() <= u32::MAX,
        ensures
            t.wf(),
            t@ == (BpeView {
                vocab: text_views(vocab@),
                merges: text_views(merges@),
                bos_id,
                eos_id,
                add_bos,
                specials: seq![],
            }),
    {
        let lookup = TextIndex::new(&vocab);
        let ranks = RankIndex::new(merges);
        let byte_enc = bytes_to_unicode();
        let specials: Vec<(String, u32)> = Vec::new();
        proof {
            assert(special_views(specials@) =~= seq![]);
        }
        BpeTokenizer {
            vocab,
            lookup,
            ranks,
            merges: Ghost(text_views(merges@)),
            byte_enc,
            bos_id,
            eos_id,
            add_bos,
            specials,
        }
    }

    /// Register special tokens, which are then matched as they stand, the
    /// longest first.
    pub fn with_specials(self, specials: Vec<(String, u32)>) -> (t: Self)
        requires
            self.wf(),
        ensures
            t.wf(),
            t@ == (BpeView { specials: longest_first(special_views(specials@)), ..self@ }),
    {
        let mut sorted: Vec<(String, u32)> = Vec::new();
        let ghost all = special_views(specials@);
        let mut i: usize = 0;
        proof {
            assert(special_views(sorted@) =~= longest_first(all.take(0)));
        }
        while i < specials.len()
            invariant
                all == special_views(specials@),
                i <= specials.len(),
                special_views(sorted@) == longest_first(all.take(i as int)),
            decreases specials.len() - i,
        {
            let ghost before = sorted@;
            let len: usize = specials[i].0.as_str().as_bytes().len();
            let ghost x = all[i as int];
            let mut p: usize = sorted.len();
            proof {
                assert(special_views(sorted@).take(p as int) =~= special_views(sorted@));
            }
            loop
                invariant
                    p <= sorted.len(),
                    sorted@ == before,
                    len == special_len(x),
                    special_place(special_views(before).take(p as int), x) == special_place(
                        special_views(before),
                        x,
                    ),
                ensures
                    p == special_place(special_views(before), x),
                    p <= sorted.len(),
                decreases p,
            {
                if p == 0 {
                    break ;
                }
                let ghost s = special_views(before).take(p as int);
                proof {
                    assert(s.last() == special_views(before)[p - 1]);
                }
                if sorted[p - 1].0.as_str().as_bytes().len() < len {
                    proof {
                        assert(s.drop_last() =~= special_views(before).take(p - 1));
                    }
                    p -= 1;
                } else {
                    break ;
                }
            }
            let entry: (String, u32) = (specials[i].0.as_str().to_owned(), specials[i].1);
            sorted.insert(p, entry);
            proof {
                assert(all.take(i + 1).drop_last() =~= all.take(i as int));
                assert(special_views(sorted@) =~= special_views(before).insert(p as int, x));
            }
            i += 1;
        }
        proof {
            assert(all.take(i as int) =~= all);
        }
        BpeTokenizer { specials: sorted, ..self }
    }

    /// The token with exactly this text.
    pub fn token_id(&self, piece: &str) -> (id: Option<u32>)
        requires
            self.wf(),
        ensures
            match first_index(self@.vocab, piece@) {
                Some(i) => id == Some(i as u32) && i <= u32::MAX,
                None => id is None,
            },
    {
        self.lookup.find(piece, Ghost(self@.vocab))
    }

    pub fn vocab_size(&self) -> (n: usize)
        ensures
            n == self@.vocab.len(),
    {
        self.vocab.len()
    }
}

/// Sorting keeps every special token a text.
pub proof fn lemma_specials_stay_texts(all: Seq<(Seq<char>, u32)>)
    requires
        forall|i: int| 0 <= i < all.len() ==> (#[trigger] all[i]).0.len() > 0,
    ensures
        forall|i: int|
            0 <= i < longest_first(all).len() ==> (#[trigger] longest_first(all)[i]).0.len() > 0,
    decreases all.len(),
{
    if all.len() > 0 {
        let less = all.drop_last();
        assert forall|i: int| 0 <= i < less.len() implies (#[trigger] less[i]).0.len() > 0 by {
            assert(less[i] == all[i]);
        }
        lemma_specials_stay_texts(less);
        let rest = longest_first(less);
        lemma_special_place(rest, all.last());
        let p = special_place(rest, all.last());
        let out = longest_first(all);
        assert forall|i: int| 0 <= i < out.len() implies (#[trigger] out[i]).0.len() > 0 by {
            if i < p {
                assert(out[i] == rest[i]);
            } else if i > p {
                assert(out[i] == rest[i - 1]);
            }
        }
    }
}

/// All of the symbols are free of spaces.
pub open spec fn spaceless(symbols: Seq<Seq<char>>) -> bool {
    forall|i: int| 0 <= i < symbols.len() ==> no_space(#[trigger] symbols[i])
}

/// A merge that is found is one of the pairs.
proof fn lemma_lowest_merge_in_range(merges: Seq<Seq<char>>, symbols: Seq<Seq<char>>, n: nat)
    requires
        n < symbols.len(),
    ensures
        lowest_merge(merges, symbols, n) matches Some((rank, i)) ==> 0 <= i < n && merge_rank(
            merges,
            symbols[i],
            symbols[i + 1],
        ) == Some(rank),
    decreases n,
{
    if n > 0 {
        lemma_lowest_merge_in_range(merges, symbols, (n - 1) as nat);
    }
}

/// The merge that is applied is the lowest-ranked one that applies, and the
/// leftmost of its kind.
pub proof fn law_lowest_merge_is_lowest(
    merges: Seq<Seq<char>>,
    symbols: Seq<Seq<char>>,
    n: nat,
    j: int,
    other: int,
)
    requires
        n < symbols.len(),
        0 <= j < n,
        merge_rank(merges, symbols[j], symbols[j + 1]) == Some(other),
    ensures
        lowest_merge(merges, symbols, n) matches Some((rank, i)) && rank <= other && (rank == other
            ==> i <= j),
    decreases n,
{
    if j < n - 1 {
        law_lowest_merge_is_lowest(merges, symbols, (n - 1) as nat, j, other);
    }
    lemma_lowest_merge_in_range(merges, symbols, (n - 1) as nat);
}

proof fn lemma_join_spaceless(symbols: Seq<Seq<char>>, i: int)
    requires
        spaceless(symbols),
        0 <= i,
        i + 1 < symbols.len(),
    ensures
        spaceless(join_pair(symbols, i)),
{
    let out = join_pair(symbols, i);
    assert forall|k: int| 0 <= k < out.len() implies no_space(#[trigger] out[k]) by {
        if k < i {
            assert(out[k] == symbols[k]);
        } else if k > i {
            assert(out[k] == symbols[k + 1]);
        } else {
            let a = symbols[i];
            let b = symbols[i + 1];
            assert(no_space(a) && no_space(b));
            assert(out[k] == a + b);
            assert forall|x: int| 0 <= x < (a + b).len() implies #[trigger] (a + b)[x] != ' ' by {
                if x < a.len() {
                    assert((a + b)[x] == a[x]);
                } else {
                    assert((a + b)[x] == b[x - a.len()]);
                }
            }
        }
    }
}

impl BpeTokenizer {
    /// The merge to apply next: its position.
    fn next_join(&self, symbols: &Vec<String>) -> (at: Option<usize>)
        requires
            self.wf(),
            spaceless(text_views(symbols@)),
        ensures
            match at {
                Some(i) => i + 1 < symbols.len() && next_merge(
                    self@.merges,
                    text_views(symbols@),
                ) is Some && (next_merge(self@.merges, text_views(symbols@))->0).1 == i,
                None => next_merge(self@.merges, text_views(symbols@)) is None,
            },
    {
        if symbols.len() == 0 {
            return None;
        }
        let ghost s = text_views(symbols@);
        let ghost m = self@.merges;
        let pairs: usize = symbols.len() - 1;
        let mut best: Option<(u32, usize)> = None;
        let mut i: usize = 0;
        while i < pairs
            invariant
                self.wf(),
                m == self@.merges,
                s == text_views(symbols@),
                spaceless(s),
                pairs == symbols@.len() - 1,
                i <= pairs,
                match best {
                    Some((r, k)) => lowest_merge(m, s, i as nat) == Some((r as int, k as int)) && k
                        < i,
                    None => lowest_merge(m, s, i as nat) is None,
                },
            decreases pairs - i,
        {
            proof {
                assert(no_space(s[i as int]));
            }
            if let Some(rank) = self.ranks.find(
                symbols[i].as_str(),
                symbols[i + 1].as_str(),
                Ghost(m),
            ) {
                let better: bool = match best {
                    None => true,
                    Some((r, _)) => rank < r,
                };
                if better {
                    best = Some((rank, i));
                }
            }
            i += 1;
        }
        match best {
            Some((_, k)) => Some(k),
            None => None,
        }
    }

    /// Apply ranked merges to one piece, giving its tokens.
    pub fn bpe_piece(&self, piece: &str) -> (ids: Vec<u32>)
        requires
            self.wf(),
        ensures
            ids@ == piece_ids(self@, piece@),
    {
        let ghost v = self@;
        let bytes = piece.as_bytes();
        let mut symbols: Vec<String> = Vec::new();
        let mut i: usize = 0;
        while i < bytes.len()
            invariant
                self.wf(),
                i <= bytes.len(),
                text_views(symbols@) == byte_symbols(bytes@).take(i as int),
            decreases bytes.len() - i,
        {
            let ghost before = symbols@;
            let mut one = String::new();
            one.push(self.byte_enc[bytes[i] as usize]);
            proof {
                assert(one@ =~= seq![byte_char(bytes[i as int])]);
            }
            let ghost o = one@;
            symbols.push(one);
            proof {
                assert(text_views(symbols@) =~= text_views(before).push(o));
                assert(text_views(symbols@) =~= byte_symbols(bytes@).take(i + 1));
            }
            i += 1;
        }
        let ghost seeds = byte_symbols(bytes@);
        proof {
            assert(seeds.take(i as int) =~= seeds);
            assert forall|k: int| 0 <= k < seeds.len() implies no_space(#[trigger] seeds[k]) by {
                lemma_byte_char_not_space(bytes[k]);
            }
        }
        loop
            invariant
                self.wf(),
                v == self@,
                spaceless(text_views(symbols@)),
                merged_symbols(v.merges, text_views(symbols@)) == merged_symbols(v.merges, seeds),
            ensures
                next_merge(v.merges, text_views(symbols@)) is None,
            decreases symbols@.len(),
        {
            match self.next_join(&symbols) {
                Some(i) => {
                    let ghost before = symbols@;
                    let ghost s = text_views(symbols@);
                    let mut both = symbols[i].as_str().to_owned();
                    both.push_str(symbols[i + 1].as_str());
                    let ghost joined = both@;
                    symbols.set(i, both);
                    symbols.remove(i + 1);
                    proof {
                        assert(joined == s[i as int] + s[i + 1]);
                        assert(text_views(symbols@) =~= join_pair(s, i as int));
                        lemma_join_spaceless(s, i as int);
                    }
                },
                None => {
                    break ;
                },
            }
        }
        let ghost s = text_views(symbols@);
        let mut ids: Vec<u32> = Vec::new();
        let mut j: usize = 0;
        while j < symbols.len()
            invariant
                self.wf(),
                v == self@,
                s == text_views(symbols@),
                j <= symbols.len(),
                ids@ == symbol_ids(v.vocab, s.take(j as int)),
            decreases symbols.len() - j,
        {
            proof {
                assert(s.take(j + 1).drop_last() =~= s.take(j as int));
                assert(s.take(j + 1).last() == symbols[j as int]@);
            }
            if let Some(id) = self.lookup.find(symbols[j].as_str(), Ghost(v.vocab)) {
                ids.push(id);
            }
            j += 1;
        }
        proof {
            assert(s.take(j as int) =~= s);
        }
        ids
    }

    /// The tokens of a text without special tokens, appended to `out`.
    fn encode_plain(&self, text: &str, out: &mut Vec<u32>)
        requires
            self.wf(),
        ensures
            final(out)@ == old(out)@ + plain_ids(self@, text@),
    {
        let ghost v = self@;
        let parts = pre_tokenize(text);
        let ghost p = text_views(parts@);
        let mut i: usize = 0;
        proof {
            assert(out@ =~= old(out)@ + pieces_ids(v, p.take(0)));
        }
        while i < parts.len()
            invariant
                self.wf(),
                v == self@,
                p == text_views(parts@),
                i <= parts.len(),
                out@ == old(out)@ + pieces_ids(v, p.take(i as int)),
            decreases parts.len() - i,
        {
            let mut ids = self.bpe_piece(parts[i].as_str());
            let ghost before = out@;
            let ghost new = ids@;
            out.append(&mut ids);
            proof {
                assert(p.take(i + 1).drop_last() =~= p.take(i as int));
                assert(p.take(i + 1).last() == parts[i as int]@);
                assert(out@ =~= before + new);
                assert(out@ =~= old(out)@ + pieces_ids(v, p.take(i + 1)));
            }
            i += 1;
        }
        proof {
            assert(p.take(i as int) =~= p);
        }
    }

    /// The leftmost special token in `text`: its position, and which it is.
    fn find_special(&self, text: &Vec<char>, patterns: &Vec<Vec<char>>) -> (hit: Option<
        (usize, usize),
    >)
        requires
            patterns@.len() == self@.specials.len(),
            forall|k: int|
                0 <= k < patterns@.len() ==> (#[trigger] patterns@[k])@ == self@.specials[k].0,
        ensures
            match hit {
                Some((at, k)) => next_special(self@.specials, text@, 0) == Some(
                    (at as int, k as int),
                ) && k < self@.specials.len() && at < text.len() && at
                    + self@.specials[k as int].0.len() <= text.len(),
                None => next_special(self@.specials, text@, 0) is None,
            },
    {
        let ghost sp = self@.specials;
        let mut at: usize = 0;
        while at < text.len()
            invariant
                sp == self@.specials,
                patterns@.len() == sp.len(),
                forall|k: int|
                    0 <= k < patterns@.len() ==> (#[trigger] patterns@[k])@ == sp[k].0,
                at <= text.len(),
                next_special(sp, text@, 0) == next_special(sp, text@, at as int),
            decreases text.len() - at,
        {
            let mut k: usize = 0;
            while k < patterns.len()
                invariant
                    sp == self@.specials,
                    patterns@.len() == sp.len(),
                    forall|k: int|
                        0 <= k < patterns@.len() ==> (#[trigger] patterns@[k])@ == sp[k].0,
                    at < text.len(),
                    k <= patterns.len(),
                    special_at(sp, text@, at as int, k as nat) is None,
                    next_special(sp, text@, 0) == next_special(sp, text@, at as int),
                decreases patterns.len() - k,
            {
                if patterns[k].len() <= text.len() - at && crate::text::chars_match_at(
                    text,
                    &patterns[k],
                    at,
                ) {
                    proof {
                        assert(special_at(sp, text@, at as int, (k + 1) as nat) == Some(k as int));
                        lemma_special_at_stays(sp, text@, at as int, (k + 1) as nat, sp.len());
                    }
                    return Some((at, k));
                }
                k += 1;
            }
            at += 1;
        }
        None
    }

    /// The texts of the special tokens.
    fn patterns(&self) -> (p: Vec<Vec<char>>)
        ensures
            p@.len() == self@.specials.len(),
            forall|k: int| 0 <= k < p@.len() ==> (#[trigger] p@[k])@ == self@.specials[k].0,
    {
        let mut p: Vec<Vec<char>> = Vec::new();
        let mut i: usize = 0;
        while i < self.specials.len()
            invariant
                i <= self.specials.len(),
                p@.len() == i,
                forall|k: int| 0 <= k < i ==> (#[trigger] p@[k])@ == self@.specials[k].0,
            decreases self.specials.len() - i,
        {
            p.push(to_chars(self.specials[i].0.as_str()));
            i += 1;
        }
        p
    }

    /// Encode a prompt: special tokens as they stand, the rest by merging.
    pub fn encode_prompt(&self, text: &str) -> (out: Vec<u32>)
        requires
            self.wf(),
            self@.specials_wf(),
        ensures
            out@ == prompt_ids(self@, text@),
    {
        let ghost v = self@;
        let mut out: Vec<u32> = Vec::new();
        if self.add_bos {
            if let Some(b) = self.bos_id {
                out.push(b);
            }
        }
        let ghost start = out@;
        let patterns = self.patterns();
        let mut rest = to_chars(text);
        while rest.len() > 0
            invariant
                self.wf(),
                v == self@,
                v.specials_wf(),
                patterns@.len() == v.specials.len(),
                forall|k: int|
                    0 <= k < patterns@.len() ==> (#[trigger] patterns@[k])@ == v.specials[k].0,
                out@ + text_ids(v, rest@) == start + text_ids(v, text@),
            decreases rest@.len(),
        {
            let ghost before = out@;
            let ghost r = rest@;
            match self.find_special(&rest, &patterns) {
                None => {
                    let plain = from_chars(rest.as_slice());
                    self.encode_plain(plain.as_str(), &mut out);
                    rest = Vec::new();
                    proof {
                        assert(rest@ =~= seq![]);
                        assert(out@ + text_ids(v, rest@) =~= before + text_ids(v, r));
                    }
                },
                Some((at, k)) => {
                    let len: usize = patterns[k].len();
                    proof {
                        assert(v.specials[k as int].0.len() > 0);
                    }
                    let tail = rest.split_off(at + len);
                    rest.truncate(at);
                    proof {
                        assert(rest@ =~= r.take(at as int));
                        assert(tail@ =~= r.skip(at + len));
                    }
                    let plain = from_chars(rest.as_slice());
                    self.encode_plain(plain.as_str(), &mut out);
                    out.push(self.specials[k].1);
                    proof {
                        let p = plain_ids(v, r.take(at as int));
                        let id = v.specials[k as int].1;
                        assert(text_ids(v, r) == p.push(id) + text_ids(v, r.skip(at + len)));
                        assert(out@ =~= before + p.push(id));
                        assert(out@ + text_ids(v, tail@) =~= before + text_ids(v, r));
                    }
                    rest = tail;
                },
            }
        }
        proof {
            assert(rest@ =~= seq![]);
            assert(out@ + text_ids(v, rest@) =~= out@);
        }
        out
    }

    /// The byte that a character of the alphabet stands for.
    fn byte_of(&self, c: char) -> (b: Option<u8>)
        requires
            self.wf(),
        ensures
            b == char_byte(c),
    {
        let mut b: usize = 0;
        while b < 256
            invariant
                self.byte_enc@ == alphabet(),
                b <= 256,
                forall|x: u8| x < b ==> #[trigger] byte_char(x) != c,
            decreases 256 - b,
        {
            proof {
                assert(self.byte_enc@[b as int] == byte_char(b as u8));
            }
            if self.byte_enc[b] == c {
                proof {
                    lemma_char_byte(b as u8);
                }
                return Some(b as u8);
            }
            b += 1;
        }
        None
    }

    /// Decode one token. What comes before it makes no difference.
    pub fn decode(&self, prev: u32, token: u32) -> (out: Vec<u8>)
        requires
            self.wf(),
        ensures
            out@ == token_bytes(self@, token),
    {
        if token as u64 >= self.vocab.len() as u64 {
            return Vec::new();
        }
        let chars = to_chars(self.vocab[token as usize].as_str());
        let mut out: Vec<u8> = Vec::new();
        let mut i: usize = 0;
        while i < chars.len()
            invariant
                self.wf(),
                i <= chars.len(),
                out@ == unmapped(chars@.take(i as int)),
            decreases chars.len() - i,
        {
            proof {
                assert(chars@.take(i + 1).drop_last() =~= chars@.take(i as int));
            }
            if let Some(b) = self.byte_of(chars[i]) {
                out.push(b);
            }
            i += 1;
        }
        proof {
            assert(chars@.take(i as int) =~= chars@);
        }
        out
    }

    /// Whether a token ends the text.
    pub fn is_stop(&self, token: u32) -> (b: bool)
        ensures
            b == (self@.eos_id == Some(token) || self@.bos_id == Some(token)),
    {
        let eos: bool = match self.eos_id {
            Some(t) => t == token,
            None => false,
        };
        let bos: bool = match self.bos_id {
            Some(t) => t == token,
            None => false,
        };
        eos || bos
    }
}

/// The first match among some is the first among more.
proof fn lemma_special_at_stays(
    specials: Seq<(Seq<char>, u32)>,
    text: Seq<char>,
    at: int,
    k: nat,
    n: nat,
)
    requires
        k <= n,
        special_at(specials, text, at, k) is Some,
    ensures
        special_at(specials, text, at, n) == special_at(specials, text, at, k),
    decreases n,
{
    if k < n {
        lemma_special_at_stays(specials, text, at, k, (n - 1) as nat);
    }
}

impl BpeView {
    /// The vocabulary has every byte, and what every merge makes.
    pub open spec fn complete(self) -> bool {
        &&& self.vocab.len() <= u32::MAX
        &&& forall|b: u8| first_index(self.vocab, seq![#[trigger] byte_char(b)]) is Some
        &&& forall|l: Seq<char>, r: Seq<char>| #[trigger]
            merge_rank(self.merges, l, r) is Some ==> first_index(self.vocab, l + r) is Some
    }
}

impl BpeView {
    /// Special tokens have texts, and are written as they stand.
    pub open spec fn faithful(self) -> bool {
        forall|i: int|
            0 <= i < self.specials.len() ==> (#[trigger] self.specials[i]).0.len() > 0
                && token_bytes(self, self.specials[i].1) == encode_utf8(self.specials[i].0)
    }
}

/// The vocabulary has all of the symbols.
pub open spec fn known(vocab: Seq<Seq<char>>, symbols: Seq<Seq<char>>) -> bool {
    forall|i: int| 0 <= i < symbols.len() ==> first_index(vocab, #[trigger] symbols[i]) is Some
}

proof fn lemma_concat_append(a: Seq<Seq<char>>, b: Seq<Seq<char>>)
    ensures
        concat(a + b) == concat(a) + concat(b),
    decreases b.len(),
{
    if b.len() == 0 {
        assert(a + b =~= a);
        assert(concat(a) + concat(b) =~= concat(a));
    } else {
        lemma_concat_append(a, b.drop_last());
        assert((a + b).drop_last() =~= a + b.drop_last());
        assert(concat(a) + concat(b.drop_last()) + b.last() =~= concat(a) + (concat(b.drop_last())
            + b.last()));
    }
}

/// Joining a pair does not change the text, and keeps the symbols known.
proof fn lemma_join_pair(v: BpeView, symbols: Seq<Seq<char>>, i: int)
    requires
        v.complete(),
        known(v.vocab, symbols),
        0 <= i,
        i + 1 < symbols.len(),
        merge_rank(v.merges, symbols[i], symbols[i + 1]) is Some,
    ensures
        concat(join_pair(symbols, i)) == concat(symbols),
        known(v.vocab, join_pair(symbols, i)),
{
    let out = join_pair(symbols, i);
    let a = symbols.take(i);
    let pair = seq![symbols[i], symbols[i + 1]];
    let one = seq![symbols[i] + symbols[i + 1]];
    let b = symbols.skip(i + 2);
    assert(symbols =~= (a + pair) + b);
    assert(out =~= (a + one) + b);
    lemma_concat_append(a + pair, b);
    lemma_concat_append(a, pair);
    lemma_concat_append(a + one, b);
    lemma_concat_append(a, one);
    reveal_with_fuel(concat, 3);
    assert(pair.drop_last() =~= seq![symbols[i]]);
    assert(pair.drop_last().drop_last() =~= seq![]);
    assert(one.drop_last() =~= seq![]);
    assert(concat(pair) =~= symbols[i] + symbols[i + 1]);
    assert(concat(one) =~= symbols[i] + symbols[i + 1]);
    assert forall|k: int| 0 <= k < out.len() implies first_index(v.vocab, #[trigger] out[k]) is Some by {
        if k < i {
            assert(out[k] == symbols[k]);
        } else if k > i {
            assert(out[k] == symbols[k + 1]);
        }
    }
}

proof fn lemma_merging_keeps_text(v: BpeView, symbols: Seq<Seq<char>>)
    requires
        v.complete(),
        known(v.vocab, symbols),
    ensures
        concat(merged_symbols(v.merges, symbols)) == concat(symbols),
        known(v.vocab, merged_symbols(v.merges, symbols)),
    decreases symbols.len(),
{
    if symbols.len() > 0 {
        lemma_lowest_merge_in_range(v.merges, symbols, (symbols.len() - 1) as nat);
        match next_merge(v.merges, symbols) {
            None => {},
            Some((_, i)) => {
                lemma_join_pair(v, symbols, i);
                lemma_merging_keeps_text(v, join_pair(symbols, i));
            },
        }
    }
}

proof fn lemma_written_append(v: BpeView, a: Seq<u32>, b: Seq<u32>)
    ensures
        written(v, a + b) == written(v, a) + written(v, b),
    decreases b.len(),
{
    if b.len() == 0 {
        assert(a + b =~= a);
        assert(written(v, a) + written(v, b) =~= written(v, a));
    } else {
        lemma_written_append(v, a, b.drop_last());
        assert((a + b).drop_last() =~= a + b.drop_last());
        let last = token_bytes(v, b.last());
        assert(written(v, a) + written(v, b.drop_last()) + last =~= written(v, a) + (written(
            v,
            b.drop_last(),
        ) + last));
    }
}

/// The tokens of known symbols are written as the symbols' text.
proof fn lemma_ids_written(v: BpeView, symbols: Seq<Seq<char>>)
    requires
        v.complete(),
        known(v.vocab, symbols),
    ensures
        written(v, symbol_ids(v.vocab, symbols)) == unmapped(concat(symbols)),
    decreases symbols.len(),
{
    if symbols.len() > 0 {
        let rest = symbols.drop_last();
        let s = symbols.last();
        assert forall|i: int| 0 <= i < rest.len() implies first_index(
            v.vocab,
            #[trigger] rest[i],
        ) is Some by {
            assert(rest[i] == symbols[i]);
        }
        lemma_ids_written(v, rest);
        assert(first_index(v.vocab, symbols[symbols.len() - 1]) is Some);
        law_first_index(v.vocab, s);
        let i = first_index(v.vocab, s)->0;
        let ids = symbol_ids(v.vocab, symbols);
        assert(ids.drop_last() =~= symbol_ids(v.vocab, rest));
        assert(token_bytes(v, ids.last()) == unmapped(s));
        lemma_unmapped_concat(concat(rest), s);
    }
}

proof fn lemma_byte_symbols_text(bytes: Seq<u8>)
    ensures
        concat(byte_symbols(bytes)) == mapped(bytes),
    decreases bytes.len(),
{
    if bytes.len() > 0 {
        let rest = bytes.drop_last();
        lemma_byte_symbols_text(rest);
        assert(byte_symbols(bytes).drop_last() =~= byte_symbols(rest));
        assert(mapped(rest) + seq![byte_char(bytes.last())] =~= mapped(bytes));
    } else {
        assert(mapped(bytes) =~= seq![]);
    }
}

/// A piece is written as it was read.
proof fn lemma_piece_round_trip(v: BpeView, piece: Seq<char>)
    requires
        v.complete(),
    ensures
        written(v, piece_ids(v, piece)) == encode_utf8(piece),
{
    let bytes = encode_utf8(piece);
    let seeds = byte_symbols(bytes);
    assert forall|i: int| 0 <= i < seeds.len() implies first_index(
        v.vocab,
        #[trigger] seeds[i],
    ) is Some by {
        assert(seeds[i] == seq![byte_char(bytes[i])]);
    }
    lemma_merging_keeps_text(v, seeds);
    lemma_ids_written(v, merged_symbols(v.merges, seeds));
    lemma_byte_symbols_text(bytes);
    law_mapping_round_trip(bytes);
}

proof fn lemma_pieces_round_trip(v: BpeView, parts: Seq<Seq<char>>)
    requires
        v.complete(),
    ensures
        written(v, pieces_ids(v, parts)) == encode_utf8(concat(parts)),
    decreases parts.len(),
{
    if parts.len() > 0 {
        lemma_pieces_round_trip(v, parts.drop_last());
        lemma_piece_round_trip(v, parts.last());
        lemma_written_append(v, pieces_ids(v, parts.drop_last()), piece_ids(v, parts.last()));
        crate::text::lemma_encode_utf8_concat(concat(parts.drop_last()), parts.last());
    }
}

/// A special token that is found stands where it is found.
proof fn lemma_special_stands(specials: Seq<(Seq<char>, u32)>, text: Seq<char>, at: int, n: nat)
    requires
        n <= specials.len(),
        special_at(specials, text, at, n) is Some,
    ensures
        0 <= special_at(specials, text, at, n)->0 < n,
        occurs_at(text, specials[special_at(specials, text, at, n)->0].0, at),
    decreases n,
{
    if special_at(specials, text, at, (n - 1) as nat) is Some {
        lemma_special_stands(specials, text, at, (n - 1) as nat);
    }
}

proof fn lemma_next_special_stands(specials: Seq<(Seq<char>, u32)>, text: Seq<char>, at: int)
    requires
        next_special(specials, text, at) is Some,
    ensures
        ({
            let (i, k) = next_special(specials, text, at)->0;
            at <= i < text.len() && 0 <= i && 0 <= k < specials.len() && occurs_at(
                text,
                specials[k].0,
                i,
            )
        }),
    decreases text.len() - at,
{
    if special_at(specials, text, at, specials.len()) is Some {
        lemma_special_stands(specials, text, at, specials.len());
    } else {
        lemma_next_special_stands(specials, text, at + 1);
    }
}

proof fn lemma_plain_round_trip(v: BpeView, text: Seq<char>)
    requires
        v.complete(),
    ensures
        written(v, plain_ids(v, text)) == encode_utf8(text),
{
    law_pieces_cover_text(text, classes_of(text));
    lemma_pieces_round_trip(v, pieces(text, classes_of(text)));
}

proof fn lemma_text_round_trip(v: BpeView, text: Seq<char>)
    requires
        v.complete(),
        v.faithful(),
    ensures
        written(v, text_ids(v, text)) == encode_utf8(text),
    decreases text.len(),
{
    if text.len() == 0 {
        assert(encode_utf8(text) =~= seq![]);
    } else {
        match next_special(v.specials, text, 0) {
            None => {
                lemma_plain_round_trip(v, text);
            },
            Some((at, k)) => {
                lemma_next_special_stands(v.specials, text, 0);
                let special = v.specials[k];
                let end = at + special.0.len();
                let head = text.take(at);
                let rest = text.skip(end);
                lemma_plain_round_trip(v, head);
                lemma_text_round_trip(v, rest);
                let ids = plain_ids(v, head).push(special.1);
                assert(ids.drop_last() =~= plain_ids(v, head));
                lemma_written_append(v, ids, text_ids(v, rest));
                crate::text::lemma_encode_utf8_concat(head, special.0);
                crate::text::lemma_encode_utf8_concat(head + special.0, rest);
                assert(text =~= head + special.0 + rest);
            },
        }
    }
}

/// Decoding gives back what was encoded: with a complete vocabulary, and special
/// tokens that are written as they stand, the tokens of a prompt are written as
/// the bytes of its text, behind those of the beginning token where one is added.
pub proof fn law_decode_undoes_encode(v: BpeView, text: Seq<char>)
    requires
        v.complete(),
        v.faithful(),
    ensures
        written(v, prompt_ids(v, text)) == (match v.bos_id {
            Some(b) if v.add_bos => token_bytes(v, b) + encode_utf8(text),
            _ => encode_utf8(text),
        }),
{
    lemma_text_round_trip(v, text);
    if let Some(b) = v.bos_id {
        lemma_written_append(v, seq![b], text_ids(v, text));
        assert(seq![b].drop_last() =~= seq![]);
        reveal_with_fuel(written, 2);
        assert(written(v, seq![b]) =~= token_bytes(v, b));
    }
}

} // verus!
