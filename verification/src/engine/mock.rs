//! An in-process engine that honours the calling contract of a real one:
//! handles that can be refused, return codes with a last-error message, fixed
//! response buffers and reported sizes. It is deliberately dumb about content.
use crate::arith::{arith, from_usize, is_arith, natural, Arith, Op, HALF};
use crate::text::{contains, occurs_at, owned, to_chars};
use vstd::prelude::*;
use vstd::utf8::encode_utf8;

verus! {

/// The canned completion the engine streams and returns.
pub const MOCK_RESPONSE: &'static str = "pong from prana mock";

/// Width of an embedding.
pub const EMBED_DIM: usize = 8;

/// A loaded model.
#[derive(Debug)]
pub struct MockModel {
    pub path: String,
}

/// One streamed piece of a completion.
#[derive(Debug)]
pub struct StreamToken {
    pub text: &'static str,
    pub id: u32,
}

/// What an engine is asked: the messages and the options, as they are rendered.
#[verifier::ext_equal]
pub struct Asked {
    pub messages: Seq<char>,
    pub options: Option<Seq<char>>,
}

/// The live models, the last error and the last request of an engine.
#[verifier::ext_equal]
pub struct EngineView {
    pub live: int,
    pub last_error: Seq<char>,
    pub asked: Option<Asked>,
}

#[derive(Debug)]
pub struct MockEngine {
    live: usize,
    last_error: String,
    asked: Option<(String, Option<String>)>,
}

/// What some text says, if there is any.
pub open spec fn text_view(text: Option<String>) -> Option<Seq<char>> {
    match text {
        Some(t) => Some(t@),
        None => None,
    }
}

impl View for MockEngine {
    type V = EngineView;

    closed spec fn view(&self) -> EngineView {
        EngineView {
            live: self.live as int,
            last_error: self.last_error@,
            asked: match self.asked {
                Some(a) => Some(Asked { messages: a.0@, options: text_view(a.1) }),
                None => None,
            },
        }
    }
}

/// Paths that do not lead to a model.
pub open spec fn refused(path: Seq<char>) -> bool {
    path.len() == 0 || exists|i: int| #[trigger] occurs_at(path, "missing"@, i)
}

/// What is said of a path that does not lead to a model.
pub open spec fn refusal(path: Seq<char>) -> Seq<char> {
    "failed to load model at '"@ + path + "'"@
}

/// What is left of a buffer that `text` and a terminating zero were written to.
pub open spec fn written(before: Seq<u8>, text: Seq<u8>) -> Seq<u8> {
    text.push(0) + before.skip(text.len() as int + 1)
}

/// One token per character.
pub open spec fn char_tokens(text: Seq<char>) -> Seq<u32> {
    Seq::new(text.len(), |i: int| text[i] as u32)
}

/// The FNV-1a hash of some bytes.
pub open spec fn fnv1a(bytes: Seq<u8>) -> u32
    decreases bytes.len(),
{
    if bytes.len() == 0 {
        2166136261
    } else {
        (((fnv1a(bytes.drop_last()) ^ (bytes.last() as u32)) * 16777619) % 0x1_0000_0000) as u32
    }
}

/// `h` turned left by `i` half-bytes.
pub open spec fn turned(h: u32, i: nat) -> u32
    decreases i,
{
    if i == 0 {
        h
    } else {
        let t = turned(h, (i - 1) as nat);
        ((t % 0x1000_0000) * 16 + t / 0x1000_0000) as u32
    }
}

/// The largest sixteen-bit number, as a single.
pub const LARGEST_HALF_WORD: u32 = 0x477f_ff00;

/// Component `i` of the embedding of a text is made of sixteen bits of its hash: as
/// a fraction of the largest such number, less one half.
pub open spec fn component(k: Arith, text: Seq<char>, i: nat) -> u32 {
    let n = turned(fnv1a(encode_utf8(text)), i) % 0x1_0000;
    k(Op::Sub, k(Op::Div, natural(k, n as int), LARGEST_HALF_WORD), HALF)
}

/// The embedding of a text.
pub open spec fn embedding(k: Arith, text: Seq<char>) -> Seq<u32> {
    Seq::new(EMBED_DIM as nat, |i: int| component(k, text, i as nat))
}

/// The FNV-1a hash of some bytes.
fn hash_bytes(bytes: &[u8]) -> (h: u32)
    ensures
        h == fnv1a(bytes@),
{
    let mut h: u32 = 2166136261;
    let mut i: usize = 0;
    while i < bytes.len()
        invariant
            i <= bytes.len(),
            h == fnv1a(bytes@.take(i as int)),
        decreases bytes.len() - i,
    {
        proof {
            assert(bytes@.take(i + 1).drop_last() =~= bytes@.take(i as int));
        }
        h = (h ^ (bytes[i] as u32)).wrapping_mul(16777619);
        i += 1;
    }
    proof {
        assert(bytes@.take(i as int) =~= bytes@);
    }
    h
}

/// Write `text` and a terminating zero into a fixed buffer, if both fit.
fn write_response(buffer: &mut Vec<u8>, text: &[u8]) -> (fits: bool)
    ensures
        fits == (text@.len() < old(buffer)@.len()),
        fits ==> final(buffer)@ == written(old(buffer)@, text@),
        !fits ==> final(buffer)@ == old(buffer)@,
{
    if buffer.len() <= text.len() {
        return false;
    }
    let mut i: usize = 0;
    while i < text.len()
        invariant
            i <= text.len() < buffer.len(),
            buffer@ == text@.take(i as int) + old(buffer)@.skip(i as int),
            buffer@.len() == old(buffer)@.len(),
        decreases text.len() - i,
    {
        buffer.set(i, text[i]);
        i += 1;
    }
    buffer.set(i, 0);
    proof {
        assert(buffer@ =~= written(old(buffer)@, text@));
    }
    true
}

/// A copy of some text, if there is any.
fn copy_text(text: &Option<String>) -> (copy: Option<String>)
    ensures
        text_view(copy) == text_view(*text),
{
    match text {
        Some(t) => Some(owned(t.as_str())),
        None => None,
    }
}

impl MockEngine {
    pub fn new() -> (e: Self)
        ensures
            e@.live == 0,
            e@.last_error.len() == 0,
            e@.asked is None,
    {
        MockEngine { live: 0, last_error: String::new(), asked: None }
    }

    /// Number of models that are open.
    pub fn live_models(&self) -> (n: usize)
        ensures
            n == self@.live,
    {
        self.live
    }

    /// The message of the last failed call.
    pub fn last_error(&self) -> (m: String)
        ensures
            m@ == self@.last_error,
    {
        owned(self.last_error.as_str())
    }

    /// The messages and the options of the last completion that was asked for.
    pub fn last_asked(&self) -> (asked: Option<(String, Option<String>)>)
        ensures
            asked is Some <==> self@.asked is Some,
            asked matches Some(a) ==> self@.asked == Some(
                Asked { messages: a.0@, options: text_view(a.1) },
            ),
    {
        match &self.asked {
            Some(a) => Some((owned(a.0.as_str()), copy_text(&a.1))),
            None => None,
        }
    }

    /// Load a model, or record why there is none.
    pub fn init(&mut self, path: &str) -> (model: Option<MockModel>)
        requires
            old(self)@.live < usize::MAX,
        ensures
            model is None <==> refused(path@),
            model matches Some(m) ==> m.path@ == path@ && final(self)@ == (EngineView {
                live: old(self)@.live + 1,
                ..old(self)@
            }),
            model is None ==> final(self)@ == (EngineView {
                last_error: refusal(path@),
                ..old(self)@
            }),
    {
        let chars = to_chars(path);
        if chars.len() == 0 || contains(path, "missing") {
            let mut message = owned("failed to load model at '");
            message.push_str(path);
            message.push_str("'");
            self.last_error = message;
            return None;
        }
        self.live = self.live + 1;
        Some(MockModel { path: owned(path) })
    }

    /// Give a model back.
    pub fn destroy(&mut self, model: MockModel)
        requires
            old(self)@.live > 0,
        ensures
            final(self)@ == (EngineView { live: old(self)@.live - 1, ..old(self)@ }),
    {
        self.live = self.live - 1;
    }

    /// The pieces that a completion is streamed in.
    pub fn stream(&self) -> (tokens: Vec<StreamToken>)
        ensures
            tokens@.len() == 4,
            tokens@[0].text@ == "pong"@,
            tokens@[1].text@ == " from"@,
            tokens@[2].text@ == " prana"@,
            tokens@[3].text@ == " mock"@,
            forall|i: int| 0 <= i < 4 ==> (#[trigger] tokens@[i]).id == i + 1,
    {
        let mut tokens: Vec<StreamToken> = Vec::new();
        tokens.push(StreamToken { text: "pong", id: 1 });
        tokens.push(StreamToken { text: " from", id: 2 });
        tokens.push(StreamToken { text: " prana", id: 3 });
        tokens.push(StreamToken { text: " mock", id: 4 });
        tokens
    }

    /// Run a completion into a fixed buffer: 0, or a negative code with a
    /// message. The reply does not depend on what is asked, which is kept.
    pub fn complete(
        &mut self,
        messages_json: &str,
        options_json: &Option<String>,
        buffer: &mut Vec<u8>,
    ) -> (code: i32)
        ensures
            code == 0 <==> encode_utf8(MOCK_RESPONSE@).len() < old(buffer)@.len(),
            code == 0 ==> final(buffer)@ == written(old(buffer)@, encode_utf8(MOCK_RESPONSE@)),
            code != 0 ==> code == -2 && final(buffer)@ == old(buffer)@,
            final(self)@ == (EngineView {
                asked: Some(Asked { messages: messages_json@, options: text_view(*options_json) }),
                last_error: if code == 0 {
                    old(self)@.last_error
                } else {
                    "response buffer too small"@
                },
                ..old(self)@
            }),
    {
        self.asked = Some((owned(messages_json), copy_text(options_json)));
        if write_response(buffer, MOCK_RESPONSE.as_bytes()) {
            0
        } else {
            self.last_error = owned("response buffer too small");
            -2
        }
    }

    /// Tokenize into a fixed buffer. The true number of tokens is reported
    /// whether or not they fit, so that a caller can come back with more room.
    pub fn tokenize(&self, text: &str, buffer: &mut Vec<u32>) -> (count: usize)
        ensures
            count == text@.len(),
            final(buffer)@.len() == old(buffer)@.len(),
            forall|i: int|
                0 <= i < final(buffer)@.len() ==> #[trigger] final(buffer)@[i] == (if i < count {
                    char_tokens(text@)[i]
                } else {
                    old(buffer)@[i]
                }),
    {
        let chars = to_chars(text);
        let mut i: usize = 0;
        while i < chars.len() && i < buffer.len()
            invariant
                chars@ == text@,
                i <= chars.len(),
                i <= buffer.len(),
                buffer@.len() == old(buffer)@.len(),
                forall|k: int|
                    0 <= k < buffer@.len() ==> #[trigger] buffer@[k] == (if k < i {
                        char_tokens(text@)[k]
                    } else {
                        old(buffer)@[k]
                    }),
            decreases chars.len() - i,
        {
            proof {
                crate::text::lemma_char_range(chars[i as int]);
            }
            buffer.set(i, chars[i] as u32);
            i += 1;
        }
        chars.len()
    }

    /// The embedding of a text.
    pub fn embed<F: Fn(Op, u32, u32) -> u32>(&self, text: &str, calc: &F) -> (e: Vec<u32>)
        requires
            is_arith(*calc),
        ensures
            e@ == embedding(arith(*calc), text@),
    {
        let mut h: u32 = hash_bytes(text.as_bytes());
        let ghost h0 = h;
        let mut out: Vec<u32> = Vec::new();
        let mut i: usize = 0;
        while i < EMBED_DIM
            invariant
                is_arith(*calc),
                h0 == fnv1a(encode_utf8(text@)),
                i <= EMBED_DIM,
                h == turned(h0, i as nat),
                out@ =~= embedding(arith(*calc), text@).take(i as int),
            decreases EMBED_DIM - i,
        {
            let n: u32 = from_usize((h % 0x1_0000) as usize, calc);
            let v: u32 = calc(Op::Sub, calc(Op::Div, n, LARGEST_HALF_WORD), HALF);
            out.push(v);
            h = (h % 0x1000_0000) * 16 + h / 0x1000_0000;
            i += 1;
        }
        out
    }
}

} // verus!
