//! Typed sessions over an engine: errors instead of return codes, owned
//! results instead of caller-provided buffers.
use crate::arith::{arith, is_arith, Op};
use crate::engine::mock::{
    char_tokens, embedding, refusal, refused, Asked, EngineView, MockEngine, MockModel, StreamToken, MOCK_RESPONSE,
};
use crate::engine::json::{escaped_text, law_escape_is_clean};
use crate::engine::request::{
    is_writer, joined, message_parts, messages_json, messages_to_json, numerals, CompleteOptions, Message,
};
use crate::text::{decimal, digit, from_utf8_lossy, owned, push_decimal, push_signed, signed_decimal};
use vstd::prelude::*;
use vstd::utf8::{encode_scalar, encode_utf8};

verus! {

/// Which engine implementation sessions run on.
pub fn engine_kind() -> (kind: &'static str)
    ensures
        kind@ == "built-in mock engine"@,
{
    "built-in mock engine"
}

/// Everything an engine call can signal.
#[derive(Debug)]
pub enum Error {
    /// No model was loaded.
    Init(String),
    /// A call returned a nonzero code.
    Engine { code: i32, message: String },
    /// An argument contained a NUL byte, at this position.
    Nul(usize),
}

impl Error {
    /// What `message` says.
    pub open spec fn text(self) -> Seq<char> {
        match self {
            Error::Init(m) => "engine init failed: "@ + m@,
            Error::Engine { code, message } => "engine call failed (code "@ + signed_decimal(
                code as int,
            ) + "): "@ + message@,
            Error::Nul(at) =>
            "argument contains interior NUL: nul byte found in provided data at position: "@
                + decimal(at as nat),
        }
    }

    /// The error in words.
    pub fn message(&self) -> (m: String)
        ensures
            m@ == self.text(),
    {
        match self {
            Error::Init(m) => {
                let mut out = owned("engine init failed: ");
                out.push_str(m.as_str());
                out
            },
            Error::Engine { code, message } => {
                let mut out = owned("engine call failed (code ");
                push_signed(&mut out, *code);
                out.push_str("): ");
                out.push_str(message.as_str());
                out
            },
            Error::Nul(at) => {
                let mut out = owned(
                    "argument contains interior NUL: nul byte found in provided data at position: ",
                );
                push_decimal(&mut out, *at as u64);
                out
            },
        }
    }
}

/// The first zero among `bytes` is at `i`; `i` is past the end where there is none.
pub open spec fn first_nul(bytes: Seq<u8>, i: int) -> bool {
    &&& 0 <= i <= bytes.len()
    &&& forall|k: int| 0 <= k < i ==> #[trigger] bytes[k] != 0
    &&& i < bytes.len() ==> bytes[i] == 0
}

/// Position of the first zero byte, or the length.
pub fn find_nul(bytes: &[u8]) -> (i: usize)
    ensures
        first_nul(bytes@, i as int),
{
    let mut i: usize = 0;
    while i < bytes.len()
        invariant
            i <= bytes.len(),
            forall|k: int| 0 <= k < i ==> #[trigger] bytes[k] != 0,
        decreases bytes.len() - i,
    {
        if bytes[i] == 0 {
            return i;
        }
        i += 1;
    }
    i
}

/// No byte of the text is zero.
pub open spec fn nul_free(text: Seq<char>) -> bool {
    first_nul(encode_utf8(text), encode_utf8(text).len() as int)
}

/// Text can be handed to an engine only if no byte of it is zero.
pub fn check_nul(text: &str) -> (r: Result<(), Error>)
    ensures
        r is Ok <==> nul_free(text@),
        r matches Err(e) ==> e matches Error::Nul(at) && at < encode_utf8(text@).len() && first_nul(
            encode_utf8(text@),
            at as int,
        ),
{
    let bytes = text.as_bytes();
    let at: usize = find_nul(bytes);
    if at < bytes.len() {
        proof {
            assert(bytes@[at as int] == 0);
        }
        Err(Error::Nul(at))
    } else {
        Ok(())
    }
}

/// Map the return-code convention (0 is success) onto `Result`.
pub fn check(code: i32, last_error: String) -> (r: Result<(), Error>)
    ensures
        r is Ok <==> code == 0,
        r matches Err(e) ==> e == (Error::Engine { code, message: last_error }),
{
    if code == 0 {
        Ok(())
    } else {
        Err(Error::Engine { code, message: last_error })
    }
}

/// The text in a response buffer: what stands before the first zero byte.
pub fn response_text(buffer: &[u8]) -> (text: String)
    ensures
        exists|n: int| #[trigger]
            first_nul(buffer@, n) && text@ == crate::text::utf8_lossy(buffer@.take(n)) && (
            vstd::utf8::valid_utf8(buffer@.take(n)) ==> text@ == vstd::utf8::decode_utf8(
                buffer@.take(n),
            )),
{
    let n: usize = find_nul(buffer);
    let bytes = crate::bytes::copy_window(buffer, 0, n);
    proof {
        assert(bytes@ =~= buffer@.take(n as int));
    }
    from_utf8_lossy(bytes.as_slice())
}

/// Bytes of response buffer that the options ask for; a handful at least.
pub fn response_capacity(options: &CompleteOptions) -> (n: usize)
    ensures
        n == (if options.response_buffer_size < 16 {
            16
        } else {
            options.response_buffer_size
        }),
{
    if options.response_buffer_size < 16 {
        16
    } else {
        options.response_buffer_size
    }
}

/// What to do when a call reports `needed` results for `room` places: keep
/// them, or come back with that much room.
pub fn grow_to(needed: usize, room: usize) -> (r: Option<usize>)
    ensures
        r == (if needed <= room {
            None
        } else {
            Some(needed)
        }),
{
    if needed <= room {
        None
    } else {
        Some(needed)
    }
}

/// An open model. It holds its engine-side handle until it is closed.
#[derive(Debug)]
pub struct Model {
    handle: MockModel,
}

/// A completion: the pieces that were streamed, and the whole text or why there
/// is none.
#[derive(Debug)]
pub struct Reply {
    pub tokens: Vec<StreamToken>,
    pub text: Result<String, Error>,
}

/// A completion fits the response buffer that these options ask for.
pub open spec fn response_fits(options: CompleteOptions) -> bool {
    options.response_buffer_size > 20
}

/// The options as they are sent, where `num` are the numerals of singles.
pub open spec fn options_text(options: CompleteOptions, num: spec_fn(u32) -> Seq<char>) -> Seq<char> {
    "{"@ + joined(options.fields(num)) + "}"@
}

/// What is handed to an engine for a completion: the messages, the options unless
/// all are defaulted, and the size of the response buffer.
#[derive(Debug)]
pub struct Request {
    pub messages_json: String,
    pub options_json: Option<String>,
    pub capacity: usize,
}

/// Renders a completion for an engine, which takes no text with a zero byte: there is
/// none in what is rendered.
pub fn prepare<S: Fn(u32) -> String>(messages: &[Message], options: &CompleteOptions, show: &S) -> (q:
    Request)
    requires
        is_writer(*show),
    ensures
        q.messages_json@ == messages_json(messages@),
        nul_free(q.messages_json@),
        q.options_json is None <==> options.is_default(),
        q.options_json matches Some(t) ==> t@ == options_text(*options, numerals(*show)) && nul_free(
            t@,
        ),
        q.capacity == (if options.response_buffer_size < 16 {
            16
        } else {
            options.response_buffer_size
        }),
{
    let options_json = options.to_json(show);
    proof {
        law_messages_sendable(messages@);
        law_options_sendable(*options, numerals(*show));
    }
    Request {
        messages_json: messages_to_json(messages),
        options_json,
        capacity: response_capacity(options),
    }
}

/// The engine after a model was opened, or refused: a refusal leaves its message.
pub open spec fn after_opening(e: EngineView, r: Result<Model, Error>, path: Seq<char>) -> EngineView {
    match r {
        Ok(_) => EngineView { live: e.live + 1, ..e },
        Err(Error::Init(_)) => EngineView { last_error: refusal(path), ..e },
        Err(_) => e,
    }
}

/// What a completion asks of an engine: the messages, and the options unless all are
/// defaulted, where `num` are the numerals of singles.
pub open spec fn asked_for(
    messages: Seq<Message>,
    options: CompleteOptions,
    num: spec_fn(u32) -> Seq<char>,
) -> Asked {
    Asked {
        messages: messages_json(messages),
        options: if options.is_default() {
            None
        } else {
            Some(options_text(options, num))
        },
    }
}

/// The engine after a completion: it has been asked for it, and one that does not fit
/// its buffer leaves a message.
pub open spec fn after_completion(e: EngineView, options: CompleteOptions, asked: Asked) -> EngineView {
    EngineView {
        asked: Some(asked),
        last_error: if response_fits(options) {
            e.last_error
        } else {
            "response buffer too small"@
        },
        ..e
    }
}

/// The error of a completion that does not fit its buffer.
pub open spec fn completion_error(e: Error) -> bool {
    e matches Error::Engine { code, message } && code == -2 && message@
        == "response buffer too small"@
}

/// Only the NUL character has a zero byte in its encoding.
proof fn lemma_scalar_bytes_nonzero(c: u32, i: int)
    requires
        c != 0,
        vstd::utf8::is_scalar(c),
        0 <= i < encode_scalar(c).len(),
    ensures
        encode_scalar(c)[i] != 0,
{
    assert(vstd::utf8::has_width_1_encoding(c) ==> vstd::utf8::leading_byte_width_1(c) != 0)
        by (bit_vector)
        requires
            c != 0,
    ;
    assert(vstd::utf8::leading_byte_width_2(c) != 0) by (bit_vector);
    assert(vstd::utf8::leading_byte_width_3(c) != 0) by (bit_vector);
    assert(vstd::utf8::leading_byte_width_4(c) != 0) by (bit_vector);
    assert(vstd::utf8::last_continuation_byte(c) != 0) by (bit_vector);
    assert(vstd::utf8::second_last_continuation_byte(c) != 0) by (bit_vector);
    assert(vstd::utf8::third_last_continuation_byte(c) != 0) by (bit_vector);
}

/// Text without a NUL character can be handed to an engine.
proof fn lemma_nul_free(text: Seq<char>)
    requires
        forall|i: int| 0 <= i < text.len() ==> #[trigger] text[i] != '\0',
    ensures
        nul_free(text),
    decreases text.len(),
{
    if text.len() > 0 {
        let rest = text.drop_first();
        assert forall|i: int| 0 <= i < rest.len() implies #[trigger] rest[i] != '\0' by {
            assert(rest[i] == text[i + 1]);
        }
        lemma_nul_free(rest);
        crate::text::lemma_char_range(text[0]);
        vstd::utf8::char_is_scalar(text[0]);
        let head = encode_scalar(text[0] as u32);
        let bytes = encode_utf8(text);
        assert forall|k: int| 0 <= k < bytes.len() implies #[trigger] bytes[k] != 0 by {
            if k < head.len() {
                lemma_scalar_bytes_nonzero(text[0] as u32, k);
            } else {
                assert(bytes[k] == encode_utf8(rest)[k - head.len()]);
            }
        }
    }
}

/// No character of the parts, and so none of the whole, is NUL.
proof fn lemma_joined_no_nul(parts: Seq<Seq<char>>)
    requires
        forall|i: int, j: int|
            0 <= i < parts.len() && 0 <= j < parts[i].len() ==> #[trigger] parts[i][j] != '\0',
    ensures
        forall|k: int| 0 <= k < joined(parts).len() ==> #[trigger] joined(parts)[k] != '\0',
    decreases parts.len(),
{
    if parts.len() > 1 {
        let less = parts.drop_last();
        assert forall|i: int, j: int| 0 <= i < less.len() && 0 <= j < less[i].len() implies
            #[trigger] less[i][j] != '\0' by {
            assert(less[i][j] == parts[i][j]);
        }
        lemma_joined_no_nul(less);
        let a = joined(less).push(',');
        let b = parts.last();
        assert forall|k: int| 0 <= k < joined(parts).len() implies #[trigger] joined(parts)[k] != '\0' by {
            if k < a.len() {
                assert(joined(parts)[k] == a[k]);
            } else {
                assert(joined(parts)[k] == parts[parts.len() - 1][k - a.len()]);
            }
        }
    }
}

/// Messages can always be handed to an engine, whatever text they hold.
pub proof fn law_messages_sendable(messages: Seq<Message>)
    ensures
        nul_free(messages_json(messages)),
{
    let parts = message_parts(messages);
    reveal_strlit("{\"role\":\"");
    reveal_strlit("\",\"content\":\"");
    reveal_strlit("\"}");
    reveal_strlit("[");
    reveal_strlit("]");
    assert forall|i: int, j: int| 0 <= i < parts.len() && 0 <= j < parts[i].len() implies
        #[trigger] parts[i][j] != '\0' by {
        let m = messages[i];
        let a = "{\"role\":\""@;
        let r = escaped_text(m.role@);
        let b = "\",\"content\":\""@;
        let c = escaped_text(m.content@);
        let d = "\"}"@;
        law_escape_is_clean(m.role@);
        law_escape_is_clean(m.content@);
        assert(parts[i] == a + r + b + c + d);
        if a.len() <= j < a.len() + r.len() {
            assert(parts[i][j] == r[j - a.len()]);
        } else if a.len() + r.len() + b.len() <= j < a.len() + r.len() + b.len() + c.len() {
            assert(parts[i][j] == c[j - a.len() - r.len() - b.len()]);
        }
    }
    lemma_joined_no_nul(parts);
    let text = messages_json(messages);
    assert forall|k: int| 0 <= k < text.len() implies #[trigger] text[k] != '\0' by {
        if 1 <= k < text.len() - 1 {
            assert(text[k] == joined(parts)[k - 1]);
        }
    }
    lemma_nul_free(text);
}

/// No digit is the NUL character.
proof fn lemma_decimal_no_nul(n: nat)
    ensures
        forall|i: int| 0 <= i < decimal(n).len() ==> #[trigger] decimal(n)[i] != '\0',
    decreases n,
{
    let last = digit((n % 10) as int);
    assert(last as int == 48 + n % 10);
    if n >= 10 {
        lemma_decimal_no_nul(n / 10);
        assert forall|i: int| 0 <= i < decimal(n).len() implies #[trigger] decimal(n)[i] != '\0' by {
            if i < decimal(n / 10).len() {
                assert(decimal(n)[i] == decimal(n / 10)[i]);
            } else {
                assert(decimal(n)[i] == last);
            }
        }
    } else {
        assert(decimal(n)[0] == last);
    }
}

/// Options can always be handed to an engine, whatever they are.
pub proof fn law_options_sendable(options: CompleteOptions, num: spec_fn(u32) -> Seq<char>)
    requires
        options.are_numerals(num),
    ensures
        nul_free(options_text(options, num)),
{
    let parts = options.fields(num);
    reveal_strlit("\"max_tokens\":");
    reveal_strlit("\"temperature\":");
    reveal_strlit("\"top_p\":");
    reveal_strlit("{");
    reveal_strlit("}");
    assert forall|i: int, j: int| 0 <= i < parts.len() && 0 <= j < parts[i].len() implies
        #[trigger] parts[i][j] != '\0' by {
        if options.max_tokens is Some && i == 0 {
            let v = options.max_tokens->0 as nat;
            let name = "\"max_tokens\":"@;
            lemma_decimal_no_nul(v);
            assert(parts[i] == name + decimal(v));
            if j >= name.len() {
                assert(parts[i][j] == decimal(v)[j - name.len()]);
            }
        } else if options.temperature is Some && i == (if options.max_tokens is Some { 1int } else { 0 }) {
            let v = num(options.temperature->0);
            let name = "\"temperature\":"@;
            assert(parts[i] == name + v);
            if j >= name.len() {
                assert(parts[i][j] == v[j - name.len()]);
            }
        } else {
            let v = num(options.top_p->0);
            let name = "\"top_p\":"@;
            assert(parts[i] == name + v);
            if j >= name.len() {
                assert(parts[i][j] == v[j - name.len()]);
            }
        }
    }
    lemma_joined_no_nul(parts);
    let text = options_text(options, num);
    assert forall|k: int| 0 <= k < text.len() implies #[trigger] text[k] != '\0' by {
        if 1 <= k < text.len() - 1 {
            assert(text[k] == joined(parts)[k - 1]);
        }
    }
    lemma_nul_free(text);
}

/// The canned response is twenty ASCII characters, none of them zero.
proof fn lemma_mock_response()
    ensures
        encode_utf8(MOCK_RESPONSE@).len() == 20,
        forall|i: int| 0 <= i < 20 ==> #[trigger] encode_utf8(MOCK_RESPONSE@)[i] != 0,
{
    reveal_strlit("pong from prana mock");
    assert(vstd::utf8::is_ascii_chars(MOCK_RESPONSE@));
    vstd::utf8::is_ascii_chars_encode_utf8(MOCK_RESPONSE@);
    assert forall|i: int| 0 <= i < 20 implies #[trigger] encode_utf8(MOCK_RESPONSE@)[i] != 0 by {
        assert(MOCK_RESPONSE@[i] as u8 == encode_utf8(MOCK_RESPONSE@)[i]);
    }
}

impl Model {
    /// The path the model was opened from.
    pub closed spec fn path(&self) -> Seq<char> {
        self.handle.path@
    }

    /// Load the model at `path`, optionally with a corpus directory attached. The
    /// in-process engine has no use for the corpus, but like any engine takes no
    /// text with a zero byte.
    pub fn open_with_corpus(
        engine: &mut MockEngine,
        path: &str,
        corpus_dir: Option<&str>,
        _cache_index: bool,
    ) -> (r: Result<Self, Error>)
        requires
            old(engine)@.live < usize::MAX,
        ensures
            r is Ok <==> nul_free(path@) && (corpus_dir matches Some(c) ==> nul_free(c@))
                && !refused(path@),
            r matches Ok(m) ==> m.path() == path@,
            final(engine)@ == after_opening(old(engine)@, r, path@),
            r matches Err(e) ==> if !nul_free(path@) {
                e matches Error::Nul(at) && first_nul(encode_utf8(path@), at as int)
            } else if corpus_dir is Some && !nul_free(corpus_dir->0@) {
                e matches Error::Nul(at) && first_nul(encode_utf8(corpus_dir->0@), at as int)
            } else {
                e matches Error::Init(m) && m@ == refusal(path@)
            },
    {
        check_nul(path)?;
        if let Some(c) = corpus_dir {
            check_nul(c)?;
        }
        match engine.init(path) {
            None => Err(Error::Init(engine.last_error())),
            Some(handle) => Ok(Model { handle }),
        }
    }

    /// Load the model at `path`.
    pub fn open(engine: &mut MockEngine, path: &str) -> (r: Result<Self, Error>)
        requires
            old(engine)@.live < usize::MAX,
        ensures
            r is Ok <==> nul_free(path@) && !refused(path@),
            r matches Ok(m) ==> m.path() == path@,
            final(engine)@ == after_opening(old(engine)@, r, path@),
            r matches Err(e) ==> if nul_free(path@) {
                e matches Error::Init(m) && m@ == refusal(path@)
            } else {
                e matches Error::Nul(at) && first_nul(encode_utf8(path@), at as int)
            },
    {
        Model::open_with_corpus(engine, path, None, false)
    }

    /// Close the model: its handle goes back to the engine, once.
    pub fn close(self, engine: &mut MockEngine)
        requires
            old(engine)@.live > 0,
        ensures
            final(engine)@ == (EngineView { live: old(engine)@.live - 1, ..old(engine)@ }),
    {
        engine.destroy(self.handle);
    }

    /// Run a completion and return the engine's full response.
    pub fn complete<S: Fn(u32) -> String>(
        &mut self,
        engine: &mut MockEngine,
        messages: &[Message],
        options: &CompleteOptions,
        show: &S,
    ) -> (r: Result<String, Error>)
        requires
            is_writer(*show),
            options.response_buffer_size <= isize::MAX,
        ensures
            *final(self) == *old(self),
            final(engine)@ == after_completion(
                old(engine)@,
                *options,
                asked_for(messages@, *options, numerals(*show)),
            ),
            r is Ok <==> response_fits(*options),
            r matches Ok(text) ==> text@ == MOCK_RESPONSE@,
            r matches Err(e) ==> completion_error(e),
    {
        self.complete_streaming(engine, messages, options, show).text
    }

    /// Run a completion and return the pieces that were produced, in order, with
    /// the full response. Pieces are streamed before the response is written, so
    /// they are there even where it does not fit its buffer.
    pub fn complete_streaming<S: Fn(u32) -> String>(
        &mut self,
        engine: &mut MockEngine,
        messages: &[Message],
        options: &CompleteOptions,
        show: &S,
    ) -> (r: Reply)
        requires
            is_writer(*show),
            options.response_buffer_size <= isize::MAX,
        ensures
            *final(self) == *old(self),
            final(engine)@ == after_completion(
                old(engine)@,
                *options,
                asked_for(messages@, *options, numerals(*show)),
            ),
            r.tokens@.len() == 4,
            streamed(r.tokens@) == MOCK_RESPONSE@,
            forall|i: int| 0 <= i < 4 ==> (#[trigger] r.tokens@[i]).id == i + 1,
            r.text is Ok <==> response_fits(*options),
            r.text matches Ok(text) ==> text@ == MOCK_RESPONSE@,
            r.text matches Err(e) ==> completion_error(e),
    {
        let request = prepare(messages, options, show);
        let mut buffer: Vec<u8> = vec![0u8; request.capacity];
        let tokens = engine.stream();
        let code: i32 = engine.complete(
            request.messages_json.as_str(),
            &request.options_json,
            &mut buffer,
        );
        proof {
            lemma_mock_response();
            lemma_streamed_response(tokens@);
        }
        match check(code, engine.last_error()) {
            Err(e) => {
                return Reply { tokens, text: Err(e) };
            },
            Ok(_) => {},
        }
        let text = response_text(buffer.as_slice());
        proof {
            let bytes = encode_utf8(MOCK_RESPONSE@);
            let n = choose|n: int| #[trigger]
                first_nul(buffer@, n) && text@ == crate::text::utf8_lossy(buffer@.take(n)) && (
                vstd::utf8::valid_utf8(buffer@.take(n)) ==> text@ == vstd::utf8::decode_utf8(
                    buffer@.take(n),
                ));
            assert(buffer@[20] == 0);
            assert forall|k: int| 0 <= k < 20 implies #[trigger] buffer@[k] != 0 by {
                assert(buffer@[k] == bytes[k]);
            }
            assert(n == 20);
            assert(buffer@.take(n) =~= bytes);
            vstd::utf8::encode_utf8_valid_utf8(MOCK_RESPONSE@);
            vstd::utf8::encode_utf8_decode_utf8(MOCK_RESPONSE@);
        }
        Reply { tokens, text: Ok(text) }
    }

    /// Tokenize `text`, growing the buffer and trying again if the engine
    /// reports more tokens than fit.
    pub fn tokenize(&self, engine: &MockEngine, text: &str) -> (r: Result<Vec<u32>, Error>)
        requires
            4 * text@.len() <= isize::MAX,
        ensures
            r is Ok <==> nul_free(text@),
            r matches Ok(tokens) ==> tokens@ == char_tokens(text@),
            r matches Err(e) ==> e matches Error::Nul(at) && first_nul(
                encode_utf8(text@),
                at as int,
            ),
    {
        match check_nul(text) {
            Err(e) => {
                return Err(e);
            },
            Ok(_) => {},
        }
        let mut buffer: Vec<u32> = vec![0u32; 256];
        loop
            invariant
                nul_free(text@),
                4 * text@.len() <= isize::MAX,
            decreases
                    (if buffer@.len() < text@.len() {
                        1nat
                    } else {
                        0nat
                    }),
        {
            let needed: usize = engine.tokenize(text, &mut buffer);
            match grow_to(needed, buffer.len()) {
                None => {
                    buffer.truncate(needed);
                    proof {
                        assert(buffer@ =~= char_tokens(text@));
                    }
                    return Ok(buffer);
                },
                Some(room) => {
                    buffer.resize(room, 0);
                },
            }
        }
    }

    /// Embed `text`, one single per dimension. The in-process engine gives the same
    /// vector whether or not it is asked to normalize it.
    pub fn embed<F: Fn(Op, u32, u32) -> u32>(
        &self,
        engine: &MockEngine,
        text: &str,
        _normalize: bool,
        calc: &F,
    ) -> (r: Result<Vec<u32>, Error>)
        requires
            is_arith(*calc),
        ensures
            r is Ok <==> nul_free(text@),
            r matches Ok(e) ==> e@ == embedding(arith(*calc), text@),
            r matches Err(e) ==> e matches Error::Nul(at) && first_nul(
                encode_utf8(text@),
                at as int,
            ),
    {
        match check_nul(text) {
            Err(e) => Err(e),
            Ok(_) => Ok(engine.embed(text, calc)),
        }
    }

    /// Clear conversation state without reloading the model.
    pub fn reset(&mut self)
        ensures
            *final(self) == *old(self),
    {
    }
}

/// The streamed pieces put together.
pub open spec fn streamed(tokens: Seq<StreamToken>) -> Seq<char>
    decreases tokens.len(),
{
    if tokens.len() == 0 {
        seq![]
    } else {
        streamed(tokens.drop_last()) + tokens.last().text@
    }
}

/// The streamed pieces add up to the response.
proof fn lemma_streamed_response(tokens: Seq<StreamToken>)
    requires
        tokens.len() == 4,
        tokens[0].text@ == "pong"@,
        tokens[1].text@ == " from"@,
        tokens[2].text@ == " prana"@,
        tokens[3].text@ == " mock"@,
    ensures
        streamed(tokens) == MOCK_RESPONSE@,
{
    reveal_with_fuel(streamed, 5);
    reveal_strlit("pong from prana mock");
    reveal_strlit("pong");
    reveal_strlit(" from");
    reveal_strlit(" prana");
    reveal_strlit(" mock");
    let t3 = tokens.drop_last();
    let t2 = t3.drop_last();
    let t1 = t2.drop_last();
    assert(t1.drop_last() =~= seq![]);
    assert(streamed(tokens) =~= MOCK_RESPONSE@);
}

} // verus!
