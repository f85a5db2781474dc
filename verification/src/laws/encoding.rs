//! Laws of how a text becomes tokens of a byte-level vocabulary.
use crate::model::bpe::{
    byte_char, longest_first, merged_symbols, next_special, piece_ids, pieces_ids, plain_ids,
    printable, prompt_ids, shifted_below, special_at, special_place, symbol_ids, text_ids,
    token_bytes, unmapped, BpeView, byte_symbols, char_byte, law_mapping_round_trip, mapped,
};
use crate::model::pieces::{first_index, law_first_index};
use crate::model::pretokenize::{alphabetic, classes_of, pieces, split_prefix, Class};
use vstd::prelude::*;
use vstd::utf8::encode_utf8;

verus! {

proof fn lemma_shifted(n: nat)
    requires
        n <= 256,
    ensures
        shifted_below(n) == (if n <= 33 {
            n as int
        } else if n <= 127 {
            33
        } else if n <= 161 {
            n - 94
        } else if n <= 173 {
            67
        } else {
            68
        }),
    decreases n,
{
    if n > 0 {
        lemma_shifted((n - 1) as nat);
    }
}

/// Every byte has a character: the printable ones of Latin-1 stand for themselves, and the
/// others are numbered from 256 on, in order.
pub proof fn law_byte_alphabet(b: u8)
    ensures
        byte_char(b) as int == (if b <= 32 {
            256 + b
        } else if b <= 126 {
            b as int
        } else if b <= 160 {
            162 + b
        } else if b == 173 {
            323
        } else {
            b as int
        }),
{
    lemma_shifted(b as nat);
    assert((b as char) as int == b as int);
    assert(!printable(b as int) ==> byte_char(b) as int == 256 + shifted_below(b as nat));
}

/// `i` is the first place of `s` in the vocabulary.
pub open spec fn is_first<T>(vocab: Seq<Seq<T>>, s: Seq<T>, i: int) -> bool {
    &&& 0 <= i < vocab.len()
    &&& vocab[i] == s
    &&& forall|j: int| 0 <= j < i ==> #[trigger] vocab[j] != s
}

/// `s` is not in the vocabulary.
pub open spec fn is_unknown<T>(vocab: Seq<Seq<T>>, s: Seq<T>) -> bool {
    forall|j: int| 0 <= j < vocab.len() ==> #[trigger] vocab[j] != s
}

/// A piece is looked up at its first place, and is found wherever it has one.
pub proof fn law_first_place<T>(vocab: Seq<Seq<T>>, s: Seq<T>, i: int)
    ensures
        is_first(vocab, s, i) ==> first_index(vocab, s) == Some(i),
        is_unknown(vocab, s) <==> first_index(vocab, s) is None,
{
    law_first_index(vocab, s);
    if is_first(vocab, s, i) {
        assert(vocab[i] == s);
        let p = first_index(vocab, s)->0;
        assert(vocab[p] == s);
    }
}

/// Symbols become the numbers of their first places in the vocabulary, in order; those that
/// it lacks are left out.
pub proof fn law_symbols_become_ids(
    vocab: Seq<Seq<char>>,
    symbols: Seq<Seq<char>>,
    s: Seq<char>,
    i: int,
)
    ensures
        symbol_ids(vocab, Seq::empty()) == Seq::<u32>::empty(),
        is_first(vocab, s, i) ==> symbol_ids(vocab, symbols.push(s)) == symbol_ids(
            vocab,
            symbols,
        ).push(i as u32),
        is_unknown(vocab, s) ==> symbol_ids(vocab, symbols.push(s)) == symbol_ids(vocab, symbols),
{
    law_first_place(vocab, s, i);
    assert(symbols.push(s).drop_last() =~= symbols);
}

/// A piece starts as one symbol for every byte of its text, and its tokens are those of what
/// merging makes of them.
pub proof fn law_piece_starts_from_its_bytes(v: BpeView, piece: Seq<char>, symbols: Seq<Seq<char>>)
    requires
        symbols.len() == encode_utf8(piece).len(),
        forall|i: int|
            0 <= i < symbols.len() ==> (#[trigger] symbols[i]).len() == 1 && symbols[i][0]
                == byte_char(encode_utf8(piece)[i]),
    ensures
        piece_ids(v, piece) == symbol_ids(v.vocab, merged_symbols(v.merges, symbols)),
{
    let bytes = encode_utf8(piece);
    assert forall|i: int| 0 <= i < symbols.len() implies #[trigger] symbols[i] == byte_symbols(
        bytes,
    )[i] by {
        assert(symbols[i] =~= seq![byte_char(bytes[i])]);
    }
    assert(symbols =~= byte_symbols(bytes));
}

/// Two characters are of one sort: letters, digits, spaces, or others.
pub open spec fn alike(a: char, b: char) -> bool {
    if alphabetic(a) || alphabetic(b) {
        alphabetic(a) && alphabetic(b)
    } else {
        &&& ('0' <= a <= '9') == ('0' <= b <= '9')
        &&& (a == ' ') == (b == ' ')
    }
}

/// A text is cut before character `i`: it is of another sort than the one before, which is
/// no single space.
pub open spec fn is_cut(text: Seq<char>, i: int) -> bool {
    &&& 0 < i < text.len()
    &&& !alike(text[i - 1], text[i])
    &&& !(text[i - 1] == ' ' && (i == 1 || text[i - 2] != ' '))
}

#[verifier::spinoff_prover]
proof fn lemma_open(text: Seq<char>, n: nat)
    requires
        0 < n <= text.len(),
        !alphabetic(' '),
    ensures
        split_prefix(text, classes_of(text), n).open.len() > 0,
        split_prefix(text, classes_of(text), n).open.last() == text[n - 1],
        split_prefix(text, classes_of(text), n).open == seq![' '] <==> text[n - 1] == ' ' && (n == 1
            || text[n - 2] != ' '),
    decreases n,
{
    let s = split_prefix(text, classes_of(text), n);
    if n > 1 {
        lemma_open(text, (n - 1) as nat);
        let before = split_prefix(text, classes_of(text), (n - 1) as nat);
        let c = text[n - 1];
        if classes_of(text)[n - 1] != classes_of(text)[n - 2] && before.open != seq![' '] {
            assert(s.open == seq![c]);
            assert(s.open[0] == c);
            if c == ' ' {
                assert(text[n - 2] != ' ');
            }
        } else {
            assert(s.open == before.open.push(c));
            assert(s.open.len() >= 2);
            if c == ' ' && text[n - 2] != ' ' {
                assert(classes_of(text)[n - 1] == Class::Space);
                assert(classes_of(text)[n - 2] != Class::Space);
                assert(before.open == seq![' ']);
                assert(before.open[0] == ' ');
            }
        }
    } else {
        reveal_with_fuel(split_prefix, 2);
        assert(s.open =~= seq![text[0]]);
        assert(s.open[0] == text[0]);
        assert(text[0] == ' ' ==> s.open =~= seq![' ']);
    }
}

proof fn lemma_alike(text: Seq<char>, i: int, j: int)
    requires
        0 <= i < text.len(),
        0 <= j < text.len(),
        !alphabetic(' '),
    ensures
        alike(text[i], text[j]) <==> classes_of(text)[i] == classes_of(text)[j],
{
}

/// What the split of a text that is cut before `i` has done by `i + m`.
#[verifier::spinoff_prover]
proof fn lemma_split_after_cut(text: Seq<char>, i: int, m: nat)
    requires
        is_cut(text, i),
        0 < m,
        i + m <= text.len(),
        !alphabetic(' '),
    ensures
        ({
            let whole = split_prefix(text, classes_of(text), (i + m) as nat);
            let head = split_prefix(text, classes_of(text), i as nat);
            let tail = split_prefix(text.skip(i), classes_of(text.skip(i)), m);
            whole.done == head.done.push(head.open) + tail.done && whole.open == tail.open
        }),
    decreases m,
{
    let head = split_prefix(text, classes_of(text), i as nat);
    let rest = text.skip(i);
    let tail = split_prefix(rest, classes_of(rest), m);
    let whole = split_prefix(text, classes_of(text), (i + m) as nat);
    assert(classes_of(rest) =~= classes_of(text).skip(i));
    lemma_open(text, i as nat);
    if m == 1 {
        lemma_alike(text, i - 1, i);
        reveal_with_fuel(split_prefix, 2);
        assert(tail.done =~= seq![]);
        assert(tail.open =~= seq![text[i]]);
        assert(whole.done =~= head.done.push(head.open) + tail.done);
        assert(whole.open =~= tail.open);
    } else {
        lemma_split_after_cut(text, i, (m - 1) as nat);
        let before = split_prefix(rest, classes_of(rest), (m - 1) as nat);
        assert(rest[m - 1] == text[i + m - 1]);
        assert(classes_of(rest)[m - 1] == classes_of(text)[i + m - 1]);
        assert(classes_of(rest)[m - 2] == classes_of(text)[i + m - 2]);
        assert(head.done.push(head.open) + before.done.push(before.open) =~= (head.done.push(
            head.open,
        ) + before.done).push(before.open));
    }
}

proof fn lemma_split_take(text: Seq<char>, i: int, n: nat)
    requires
        n <= i <= text.len(),
    ensures
        split_prefix(text.take(i), classes_of(text.take(i)), n) == split_prefix(
            text,
            classes_of(text),
            n,
        ),
    decreases n,
{
    if n > 0 {
        lemma_split_take(text, i, (n - 1) as nat);
        assert(classes_of(text.take(i)) =~= classes_of(text).take(i));
    }
}

/// Where a text is cut, its pieces are those of the two parts.
pub proof fn law_a_cut_text_falls_apart(text: Seq<char>, i: int)
    ensures
        is_cut(text, i) && !alphabetic(' ') ==> pieces(text, classes_of(text)) == pieces(
            text.take(i),
            classes_of(text.take(i)),
        ) + pieces(text.skip(i), classes_of(text.skip(i))),
{
    if is_cut(text, i) && !alphabetic(' ') {
        let m = (text.len() - i) as nat;
        lemma_split_after_cut(text, i, m);
        lemma_split_take(text, i, i as nat);
        lemma_open(text, i as nat);
        lemma_open(text, text.len());
        let head = split_prefix(text, classes_of(text), i as nat);
        let tail = split_prefix(text.skip(i), classes_of(text.skip(i)), m);
        assert(head.done.push(head.open) + tail.done.push(tail.open) =~= (head.done.push(head.open)
            + tail.done).push(tail.open));
    }
}

/// No character of the text has a cut before it.
pub open spec fn is_uncut(text: Seq<char>) -> bool {
    forall|i: int| 0 < i < text.len() ==> !#[trigger] is_cut(text, i)
}

/// A text that is cut nowhere is one piece, and an empty one is none.
pub proof fn law_an_uncut_text_is_a_piece(text: Seq<char>)
    ensures
        text.len() > 0 && is_uncut(text) && !alphabetic(' ') ==> pieces(text, classes_of(text))
            == seq![text],
        text.len() == 0 ==> pieces(text, classes_of(text)) == Seq::<Seq<char>>::empty(),
{
    if text.len() > 0 && is_uncut(text) && !alphabetic(' ') {
        lemma_uncut(text, text.len());
        assert(text.take(text.len() as int) =~= text);
    }
}

proof fn lemma_uncut(text: Seq<char>, n: nat)
    requires
        !alphabetic(' '),
        is_uncut(text),
        0 < n <= text.len(),
    ensures
        split_prefix(text, classes_of(text), n).done == Seq::<Seq<char>>::empty(),
        split_prefix(text, classes_of(text), n).open == text.take(n as int),
    decreases n,
{
    if n == 1 {
        reveal_with_fuel(split_prefix, 2);
        assert(text.take(1) =~= seq![text[0]]);
        assert(split_prefix(text, classes_of(text), 1).open =~= seq![text[0]]);
    } else {
        lemma_uncut(text, (n - 1) as nat);
        lemma_open(text, (n - 1) as nat);
        assert(!is_cut(text, n - 1));
        lemma_alike(text, n - 2, n - 1);
        assert(text.take(n - 1).push(text[n - 1]) =~= text.take(n as int));
    }
}

proof fn lemma_pieces_ids_append(v: BpeView, a: Seq<Seq<char>>, b: Seq<Seq<char>>)
    ensures
        pieces_ids(v, a + b) == pieces_ids(v, a) + pieces_ids(v, b),
    decreases b.len(),
{
    if b.len() > 0 {
        lemma_pieces_ids_append(v, a, b.drop_last());
        assert((a + b).drop_last() =~= a + b.drop_last());
        assert(pieces_ids(v, a + b) =~= pieces_ids(v, a) + pieces_ids(v, b));
    } else {
        assert(a + b =~= a);
        assert(pieces_ids(v, a + b) =~= pieces_ids(v, a) + pieces_ids(v, b));
    }
}

/// The tokens of a plain text are those of its pieces, in order: where it is cut, those of
/// the two parts, and where it is not, those of the text as one piece.
pub proof fn law_plain_text_is_encoded_by_pieces(v: BpeView, text: Seq<char>, i: int)
    ensures
        is_cut(text, i) && !alphabetic(' ') ==> plain_ids(v, text) == plain_ids(v, text.take(i))
            + plain_ids(v, text.skip(i)),
        text.len() > 0 && is_uncut(text) && !alphabetic(' ') ==> plain_ids(v, text) == piece_ids(
            v,
            text,
        ),
        text.len() == 0 ==> plain_ids(v, text) == Seq::<u32>::empty(),
{
    if is_cut(text, i) && !alphabetic(' ') {
        law_a_cut_text_falls_apart(text, i);
        lemma_pieces_ids_append(
            v,
            pieces(text.take(i), classes_of(text.take(i))),
            pieces(text.skip(i), classes_of(text.skip(i))),
        );
    }
    law_an_uncut_text_is_a_piece(text);
    if text.len() == 0 {
        assert(plain_ids(v, text) =~= Seq::<u32>::empty());
    } else if is_uncut(text) && !alphabetic(' ') {
        reveal_with_fuel(pieces_ids, 2);
        assert(seq![text].drop_last() =~= Seq::<Seq<char>>::empty());
        assert(plain_ids(v, text) =~= piece_ids(v, text));
    }
}

/// Special token `n` stands at place `p` of the text.
pub open spec fn stands_at(v: BpeView, text: Seq<char>, n: int, p: int) -> bool {
    &&& 0 <= p
    &&& p + v.specials[n].0.len() <= text.len()
    &&& text.subrange(p, p + v.specials[n].0.len()) == v.specials[n].0
}

/// No special token stands at place `p`.
pub open spec fn none_at(v: BpeView, text: Seq<char>, p: int) -> bool {
    forall|n: int| 0 <= n < v.specials.len() ==> !#[trigger] stands_at(v, text, n, p)
}

proof fn lemma_special_at(v: BpeView, text: Seq<char>, p: int, n: nat)
    requires
        n <= v.specials.len(),
    ensures
        match special_at(v.specials, text, p, n) {
            Some(k) => 0 <= k < n && stands_at(v, text, k, p) && forall|j: int|
                0 <= j < k ==> !#[trigger] stands_at(v, text, j, p),
            None => forall|j: int| 0 <= j < n ==> !#[trigger] stands_at(v, text, j, p),
        },
    decreases n,
{
    if n > 0 {
        lemma_special_at(v, text, p, (n - 1) as nat);
        assert(stands_at(v, text, n - 1, p) <==> crate::text::occurs_at(
            text,
            v.specials[n - 1].0,
            p,
        ));
    }
}

proof fn lemma_next_special(v: BpeView, text: Seq<char>, from: int, at: int, k: int)
    requires
        0 <= from <= at < text.len(),
        forall|p: int| from <= p < at ==> #[trigger] none_at(v, text, p),
        0 <= k < v.specials.len(),
        stands_at(v, text, k, at),
        forall|j: int| 0 <= j < k ==> !#[trigger] stands_at(v, text, j, at),
    ensures
        next_special(v.specials, text, from) == Some((at, k)),
    decreases at - from,
{
    lemma_special_at(v, text, from, v.specials.len());
    if from < at {
        assert(none_at(v, text, from));
        lemma_next_special(v, text, from + 1, at, k);
    } else {
        let found = special_at(v.specials, text, at, v.specials.len());
        assert(found is Some);
    }
}

proof fn lemma_no_special(v: BpeView, text: Seq<char>, from: int)
    requires
        0 <= from,
        forall|p: int| from <= p < text.len() ==> #[trigger] none_at(v, text, p),
    ensures
        next_special(v.specials, text, from) is None,
    decreases text.len() - from,
{
    if from < text.len() {
        lemma_special_at(v, text, from, v.specials.len());
        assert(none_at(v, text, from));
        lemma_no_special(v, text, from + 1);
    }
}

/// The leftmost special token of a text, and of those at its place the first in the
/// tokenizer's order, becomes its own id: before it stand the tokens of the plain text in
/// front of it, behind it those of the rest.
#[verifier::spinoff_prover]
pub proof fn law_special_tokens_split_the_text(v: BpeView, text: Seq<char>, at: int, k: int)
    requires
        v.specials_wf(),
        0 <= at < text.len(),
        forall|p: int| 0 <= p < at ==> #[trigger] none_at(v, text, p),
        0 <= k < v.specials.len(),
        stands_at(v, text, k, at),
        forall|j: int| 0 <= j < k ==> !#[trigger] stands_at(v, text, j, at),
    ensures
        text_ids(v, text) == plain_ids(v, text.take(at)) + seq![v.specials[k].1] + text_ids(
            v,
            text.skip(at + v.specials[k].0.len()),
        ),
{
    lemma_next_special(v, text, 0, at, k);
    let end = at + v.specials[k].0.len();
    assert(v.specials[k].0.len() > 0);
    assert(plain_ids(v, text.take(at)).push(v.specials[k].1) =~= plain_ids(v, text.take(at))
        + seq![v.specials[k].1]);
}

/// A text without special tokens is plain.
pub proof fn law_plain_text(v: BpeView, text: Seq<char>)
    requires
        forall|p: int| 0 <= p < text.len() ==> #[trigger] none_at(v, text, p),
    ensures
        text.len() > 0 ==> text_ids(v, text) == plain_ids(v, text),
        text.len() == 0 ==> text_ids(v, text) == Seq::<u32>::empty(),
{
    lemma_no_special(v, text, 0);
}

/// A prompt starts with the token that begins a text where the tokenizer has one and adds
/// it, and goes on with the tokens of the text.
pub proof fn law_prompt_starts_with_bos(v: BpeView, text: Seq<char>)
    ensures
        v.bos_id is Some && v.add_bos ==> prompt_ids(v, text) == seq![v.bos_id->0] + text_ids(
            v,
            text,
        ),
        !(v.bos_id is Some && v.add_bos) ==> prompt_ids(v, text) == text_ids(v, text),
{
}

/// A new special token goes behind all that are at least as long in bytes and before all
/// that are shorter.
pub proof fn law_special_tokens_are_tried_longest_first(
    specials: Seq<(Seq<char>, u32)>,
    x: (Seq<char>, u32),
    p: int,
)
    requires
        0 <= p <= longest_first(specials).len(),
        forall|i: int|
            0 <= i < p ==> encode_utf8((#[trigger] longest_first(specials)[i]).0).len()
                >= encode_utf8(x.0).len(),
        forall|i: int|
            p <= i < longest_first(specials).len() ==> encode_utf8(
                (#[trigger] longest_first(specials)[i]).0,
            ).len() < encode_utf8(x.0).len(),
    ensures
        longest_first(Seq::empty()) == Seq::<(Seq<char>, u32)>::empty(),
        longest_first(specials.push(x)) == longest_first(specials).insert(p, x),
{
    let rest = longest_first(specials);
    assert(specials.push(x).drop_last() =~= specials);
    lemma_place(rest, x, p);
}

proof fn lemma_place(rest: Seq<(Seq<char>, u32)>, x: (Seq<char>, u32), p: int)
    requires
        0 <= p <= rest.len(),
        forall|i: int|
            0 <= i < p ==> encode_utf8((#[trigger] rest[i]).0).len() >= encode_utf8(x.0).len(),
        forall|i: int|
            p <= i < rest.len() ==> encode_utf8((#[trigger] rest[i]).0).len() < encode_utf8(
                x.0,
            ).len(),
    ensures
        special_place(rest, x) == p,
    decreases rest.len(),
{
    if rest.len() > p {
        assert(rest.last() == rest[rest.len() - 1]);
        lemma_place(rest.drop_last(), x, p);
    } else if rest.len() > 0 {
        assert(rest.last() == rest[rest.len() - 1]);
    }
}

/// A token writes the bytes that its characters stand for; a character that stands for none
/// writes nothing, and so does a token that the vocabulary lacks.
pub proof fn law_token_writes_its_bytes(v: BpeView, token: u32, bytes: Seq<u8>, text: Seq<char>, c: char)
    ensures
        token < v.vocab.len() && v.vocab[token as int].len() == bytes.len() && (forall|i: int|
            0 <= i < bytes.len() ==> #[trigger] v.vocab[token as int][i] == byte_char(bytes[i]))
            ==> token_bytes(v, token) == bytes,
        token >= v.vocab.len() ==> token_bytes(v, token) == Seq::<u8>::empty(),
        (forall|b: u8| #[trigger] byte_char(b) != c) ==> unmapped(text.push(c)) == unmapped(text),
{
    if token < v.vocab.len() && v.vocab[token as int].len() == bytes.len() && (forall|i: int|
        0 <= i < bytes.len() ==> #[trigger] v.vocab[token as int][i] == byte_char(bytes[i])) {
        law_mapping_round_trip(bytes);
        assert(v.vocab[token as int] =~= mapped(bytes));
    }
    assert(text.push(c).drop_last() =~= text);
    assert(text.push(c).last() == c);
    if forall|b: u8| #[trigger] byte_char(b) != c {
        assert(char_byte(c) is None);
    }
}

} // verus!
