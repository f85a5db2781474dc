//! Laws of requests to an engine and of the engine that answers without a model.
use crate::arith::{natural, Arith, Op};
use crate::engine::json::{escaped, escaped_text};
use crate::engine::mock::{
    char_tokens, embedding, fnv1a, refusal, refused, text_view, turned, written, EngineView, MOCK_RESPONSE,
};
use crate::engine::request::{
    joined, message_json, message_parts, messages_json, CompleteOptions, Message,
};
use crate::engine::session::{
    after_completion, after_opening, asked_for, completion_error, first_nul, nul_free, options_text,
    response_fits, streamed, Error, Model,
};
use crate::text::{decimal, signed_decimal};
use vstd::prelude::*;
use vstd::utf8::encode_utf8;

verus! {

/// A character in a JSON string: quotes, backslashes and line ends are written behind a
/// backslash, other control characters as `\u` and four hexadecimal digits, and everything
/// else as it is.
pub proof fn law_json_character(c: char)
    ensures
        c == '"' ==> escaped(c) == seq!['\\', '"'],
        c == '\\' ==> escaped(c) == seq!['\\', '\\'],
        c as int == 10 ==> escaped(c) == seq!['\\', 'n'],
        c as int == 13 ==> escaped(c) == seq!['\\', 'r'],
        c as int == 9 ==> escaped(c) == seq!['\\', 't'],
        (c as int) < 32 && c as int != 10 && c as int != 13 && c as int != 9 ==> {
            let e = escaped(c);
            &&& e.len() == 6
            &&& e[0] == '\\' && e[1] == 'u' && e[2] == '0' && e[3] == '0'
            &&& e[4] as int == 48 + c as int / 16
            &&& c as int % 16 < 10 ==> e[5] as int == 48 + c as int % 16
            &&& c as int % 16 >= 10 ==> e[5] as int == 97 + (c as int % 16 - 10)
        },
        c as int >= 32 && c != '"' && c != '\\' ==> escaped(c) == seq![c],
{
}

/// A text is escaped character by character.
pub proof fn law_json_text(s: Seq<char>, c: char)
    ensures
        escaped_text(Seq::empty()) == Seq::<char>::empty(),
        escaped_text(s.push(c)) == escaped_text(s) + escaped(c),
{
    assert(s.push(c).drop_last() =~= s);
}

/// A message is an object of its role and its content.
pub proof fn law_message_as_json(m: Message)
    ensures
        message_json(m) == "{\"role\":\""@ + escaped_text(m.role@) + "\",\"content\":\""@
            + escaped_text(m.content@) + "\"}"@,
{
}

/// Messages are a list of objects in their order, commas between them.
pub proof fn law_messages_as_json(messages: Seq<Message>, parts: Seq<Seq<char>>, m: Message)
    requires
        parts == message_parts(messages),
    ensures
        messages_json(messages) == "["@ + joined(parts) + "]"@,
        joined(Seq::empty()) == Seq::<char>::empty(),
        message_parts(messages.push(m)) == parts.push(message_json(m)),
        parts.len() == messages.len(),
        joined(seq![message_json(m)]) == message_json(m),
        parts.len() > 0 ==> joined(parts.push(message_json(m))) == joined(parts) + seq![',']
            + message_json(m),
{
    assert(message_parts(messages.push(m)) =~= parts.push(message_json(m)));
    let p = message_json(m);
    assert(parts.push(p).drop_last() =~= parts);
    if parts.len() > 0 {
        assert(joined(parts).push(',') + p =~= joined(parts) + seq![','] + p);
    }
}

/// Options are named, in this order, and left out where they are not given.
#[verifier::spinoff_prover]
pub proof fn law_options_as_json(o: CompleteOptions, num: spec_fn(u32) -> Seq<char>)
    ensures
        o.max_tokens is Some && o.temperature is None && o.top_p is None ==> options_text(o, num)
            == "{"@ + ("\"max_tokens\":"@ + decimal(o.max_tokens->0 as nat)) + "}"@,
        o.max_tokens is None && o.temperature is Some && o.top_p is None ==> options_text(o, num)
            == "{"@ + ("\"temperature\":"@ + num(o.temperature->0)) + "}"@,
        o.max_tokens is None && o.temperature is None && o.top_p is Some ==> options_text(o, num)
            == "{"@ + ("\"top_p\":"@ + num(o.top_p->0)) + "}"@,
        o.max_tokens is Some && o.temperature is Some && o.top_p is None ==> options_text(o, num)
            == "{"@ + ("\"max_tokens\":"@ + decimal(o.max_tokens->0 as nat) + seq![',']
            + "\"temperature\":"@ + num(o.temperature->0)) + "}"@,
        o.max_tokens is Some && o.temperature is None && o.top_p is Some ==> options_text(o, num)
            == "{"@ + ("\"max_tokens\":"@ + decimal(o.max_tokens->0 as nat) + seq![',']
            + "\"top_p\":"@ + num(o.top_p->0)) + "}"@,
        o.max_tokens is None && o.temperature is Some && o.top_p is Some ==> options_text(o, num)
            == "{"@ + ("\"temperature\":"@ + num(o.temperature->0) + seq![','] + "\"top_p\":"@
            + num(o.top_p->0)) + "}"@,
        o.max_tokens is Some && o.temperature is Some && o.top_p is Some ==> options_text(o, num)
            == "{"@ + ("\"max_tokens\":"@ + decimal(o.max_tokens->0 as nat) + seq![',']
            + "\"temperature\":"@ + num(o.temperature->0) + seq![','] + "\"top_p\":"@ + num(
            o.top_p->0,
        )) + "}"@,
        o.is_default() <==> o.max_tokens is None && o.temperature is None && o.top_p is None,
{
    let a = "\"max_tokens\":"@ + decimal(o.max_tokens->0 as nat);
    let b = "\"temperature\":"@ + num(o.temperature->0);
    let c = "\"top_p\":"@ + num(o.top_p->0);
    reveal_with_fuel(joined, 4);
    lemma_two(a, b);
    lemma_two(a, c);
    lemma_two(b, c);
    lemma_three(a, b, c);
    let none = Seq::<Seq<char>>::empty();
    assert(seq![a] + none + none =~= seq![a]);
    assert(none + seq![b] + none =~= seq![b]);
    assert(none + none + seq![c] =~= seq![c]);
    assert(seq![a] + seq![b] + none =~= seq![a, b]);
    assert(seq![a] + none + seq![c] =~= seq![a, c]);
    assert(none + seq![b] + seq![c] =~= seq![b, c]);
    assert(seq![a] + seq![b] + seq![c] =~= seq![a, b, c]);
    assert(a + seq![','] + b =~= "\"max_tokens\":"@ + decimal(o.max_tokens->0 as nat) + seq![',']
        + "\"temperature\":"@ + num(o.temperature->0));
    assert(a + seq![','] + c =~= "\"max_tokens\":"@ + decimal(o.max_tokens->0 as nat) + seq![',']
        + "\"top_p\":"@ + num(o.top_p->0));
    assert(b + seq![','] + c =~= "\"temperature\":"@ + num(o.temperature->0) + seq![',']
        + "\"top_p\":"@ + num(o.top_p->0));
    assert(a + seq![','] + b + seq![','] + c =~= "\"max_tokens\":"@ + decimal(
        o.max_tokens->0 as nat,
    ) + seq![','] + "\"temperature\":"@ + num(o.temperature->0) + seq![','] + "\"top_p\":"@ + num(
        o.top_p->0,
    ));
}

proof fn lemma_two(a: Seq<char>, b: Seq<char>)
    ensures
        joined(seq![a, b]) == a + seq![','] + b,
{
    assert(seq![a, b].drop_last() =~= seq![a]);
    assert(joined(seq![a]) == a);
    assert(a.push(',') + b =~= a + seq![','] + b);
}

proof fn lemma_three(a: Seq<char>, b: Seq<char>, c: Seq<char>)
    ensures
        joined(seq![a, b, c]) == a + seq![','] + b + seq![','] + c,
{
    lemma_two(a, b);
    assert(seq![a, b, c].drop_last() =~= seq![a, b]);
    let t = joined(seq![a, b]);
    assert(t.push(',') + c =~= t + seq![','] + c);
}

/// A text can be handed over exactly if none of its bytes is zero.
pub proof fn law_nul_free(text: Seq<char>, at: int)
    ensures
        nul_free(text) <==> forall|i: int|
            0 <= i < encode_utf8(text).len() ==> #[trigger] encode_utf8(text)[i] != 0,
        first_nul(encode_utf8(text), at) && at < encode_utf8(text).len() ==> encode_utf8(text)[at]
            == 0 && forall|i: int| 0 <= i < at ==> #[trigger] encode_utf8(text)[i] != 0,
{
}

/// A hash takes the bytes one by one: mixed in, and multiplied with 0x1000193.
pub proof fn law_hash_step(bytes: Seq<u8>, b: u8)
    ensures
        fnv1a(Seq::empty()) == 0x811c_9dc5,
        fnv1a(bytes.push(b)) == ((fnv1a(bytes) ^ (b as u32)) * 0x100_0193) % 0x1_0000_0000,
{
    assert(bytes.push(b).drop_last() =~= bytes);
}

/// The embedding has eight components: each is the low half of the text's hash, turned by
/// four bits more than the one before, over 65535, less a half.
pub proof fn law_embedding_component(k: Arith, text: Seq<char>, turns: Seq<u32>, i: int)
    requires
        turns.len() == 8,
        turns[0] == fnv1a(encode_utf8(text)),
        forall|j: int|
            0 <= j < 7 ==> #[trigger] turns[j + 1] == (turns[j] * 16) % 0x1_0000_0000 + turns[j]
                / 0x1000_0000,
        0 <= i < 8,
    ensures
        embedding(k, text).len() == 8,
        embedding(k, text)[i] == k(
            Op::Sub,
            k(Op::Div, natural(k, (turns[i] % 0x1_0000) as int), 0x477f_ff00),
            0x3f00_0000,
        ),
{
    lemma_turns(fnv1a(encode_utf8(text)), turns, i as nat);
}

proof fn lemma_turns(h: u32, turns: Seq<u32>, i: nat)
    requires
        turns.len() == 8,
        turns[0] == h,
        forall|j: int|
            0 <= j < 7 ==> #[trigger] turns[j + 1] == (turns[j] * 16) % 0x1_0000_0000 + turns[j]
                / 0x1000_0000,
        i < 8,
    ensures
        turned(h, i) == turns[i as int],
    decreases i,
{
    if i > 0 {
        lemma_turns(h, turns, (i - 1) as nat);
        let t = turns[i - 1] as int;
        assert(turns[i - 1 + 1] == turns[i as int]);
        assert((t * 16) % 0x1_0000_0000 == (t % 0x1000_0000) * 16);
    }
}

/// A model is refused exactly if its path is empty or has the word `missing` in it.
#[verifier::spinoff_prover]
pub proof fn law_when_a_model_is_refused(path: Seq<char>, i: int)
    ensures
        path.len() == 0 ==> refused(path),
        0 <= i && i + 7 <= path.len() && path.subrange(i, i + 7) == seq![
            'm',
            'i',
            's',
            's',
            'i',
            'n',
            'g',
        ] ==> refused(path),
        path.len() > 0 && (forall|j: int|
            0 <= j && j + 7 <= path.len() ==> #[trigger] path.subrange(j, j + 7) != seq![
                'm',
                'i',
                's',
                's',
                'i',
                'n',
                'g',
            ]) ==> !refused(path),
        refusal(path) == "failed to load model at '"@ + path + "'"@,
{
    reveal_strlit("missing");
    let word = seq!['m', 'i', 's', 's', 'i', 'n', 'g'];
    assert("missing"@ =~= word);
    if 0 <= i && i + 7 <= path.len() && path.subrange(i, i + 7) == word {
        assert(crate::text::occurs_at(path, "missing"@, i));
    }
    if refused(path) && path.len() > 0 {
        let j = choose|j: int| #[trigger] crate::text::occurs_at(path, "missing"@, j);
        assert(path.subrange(j, j + 7) == word);
    }
}

/// A response stands at the front of its buffer, ended by a zero; behind that the buffer is
/// as it was.
pub proof fn law_response_in_its_buffer(before: Seq<u8>, text: Seq<u8>, i: int)
    requires
        text.len() < before.len(),
        0 <= i < before.len(),
    ensures
        written(before, text).len() == before.len(),
        written(before, text)[i] == (if i < text.len() {
            text[i]
        } else if i == text.len() {
            0
        } else {
            before[i]
        }),
{
}

/// A text's tokens are its characters.
pub proof fn law_tokens_are_characters(text: Seq<char>, i: int)
    requires
        0 <= i < text.len(),
    ensures
        char_tokens(text).len() == text.len(),
        char_tokens(text)[i] == text[i] as u32,
{
}

/// A completion asks for the messages, and for the options unless none is given.
pub proof fn law_what_a_completion_asks_for(
    messages: Seq<Message>,
    o: CompleteOptions,
    num: spec_fn(u32) -> Seq<char>,
)
    ensures
        asked_for(messages, o, num).messages == messages_json(messages),
        o.max_tokens is None && o.temperature is None && o.top_p is None ==> asked_for(
            messages,
            o,
            num,
        ).options is None,
        o.max_tokens is Some || o.temperature is Some || o.top_p is Some ==> asked_for(
            messages,
            o,
            num,
        ).options == Some(options_text(o, num)),
{
}

/// Twenty bytes of response and the zero behind them have to fit; a completion records what it
/// asked for and, where they do not fit, says so.
pub proof fn law_what_a_completion_leaves(
    e: EngineView,
    o: CompleteOptions,
    asked: crate::engine::mock::Asked,
    error: Error,
)
    ensures
        response_fits(o) <==> o.response_buffer_size >= 21,
        after_completion(e, o, asked).asked == Some(asked),
        after_completion(e, o, asked).live == e.live,
        o.response_buffer_size >= 21 ==> after_completion(e, o, asked).last_error == e.last_error,
        o.response_buffer_size < 21 ==> after_completion(e, o, asked).last_error
            == "response buffer too small"@,
        completion_error(error) <==> (error matches Error::Engine { code, message } && code == -2
            && message@ == "response buffer too small"@),
{
}

/// Opening a model adds one to those that are open; a refused path is recorded instead.
pub proof fn law_what_opening_leaves(e: EngineView, r: Result<Model, Error>, path: Seq<char>)
    ensures
        r is Ok ==> after_opening(e, r, path) == (EngineView { live: e.live + 1, ..e }),
        r matches Err(Error::Init(m)) ==> after_opening(e, r, path).last_error
            == "failed to load model at '"@ + path + "'"@ && after_opening(e, r, path).live
            == e.live,
        r matches Err(Error::Nul(at)) ==> after_opening(e, r, path) == e,
{
}

/// A stream's text is that of its tokens, one behind the other.
pub proof fn law_streamed_text(
    tokens: Seq<crate::engine::mock::StreamToken>,
    t: crate::engine::mock::StreamToken,
)
    ensures
        streamed(Seq::empty()) == Seq::<char>::empty(),
        streamed(tokens.push(t)) == streamed(tokens) + t.text@,
{
    assert(tokens.push(t).drop_last() =~= tokens);
}

/// What is streamed in pieces is the whole response.
pub proof fn law_pieces_make_the_response()
    ensures
        MOCK_RESPONSE@ == "pong"@ + " from"@ + " prana"@ + " mock"@,
{
    reveal_strlit("pong from prana mock");
    reveal_strlit("pong");
    reveal_strlit(" from");
    reveal_strlit(" prana");
    reveal_strlit(" mock");
    assert(MOCK_RESPONSE@ =~= "pong"@ + " from"@ + " prana"@ + " mock"@);
}

/// A text that may be missing.
pub proof fn law_text_or_none(t: String)
    ensures
        text_view(Some(t)) == Some(t@),
        text_view(None) is None,
{
}

/// What went wrong, in words.
pub proof fn law_engine_errors_in_words(e: Error)
    ensures
        e matches Error::Init(m) ==> e.text() == "engine init failed: "@ + m@,
        e matches Error::Engine { code, message } ==> e.text() == "engine call failed (code "@
            + signed_decimal(code as int) + "): "@ + message@,
        e matches Error::Nul(at) ==> e.text()
            == "argument contains interior NUL: nul byte found in provided data at position: "@
            + decimal(at as nat),
{
}

/// A negative number is written behind a minus.
pub proof fn law_signed_numbers(n: int)
    ensures
        n >= 0 ==> signed_decimal(n) == decimal(n as nat),
        n < 0 ==> signed_decimal(n) == seq!['-'] + decimal((-n) as nat),
{
}

} // verus!
