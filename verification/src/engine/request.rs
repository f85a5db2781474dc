//! What is asked of the engine, and how it is written down as JSON.
use crate::engine::json::{escape, escaped_text};
use crate::text::{decimal, owned, push_decimal};
use vstd::prelude::*;

verus! {

/// Parts with a comma between any two.
pub open spec fn joined(parts: Seq<Seq<char>>) -> Seq<char>
    decreases parts.len(),
{
    if parts.len() == 0 {
        seq![]
    } else if parts.len() == 1 {
        parts[0]
    } else {
        joined(parts.drop_last()).push(',') + parts.last()
    }
}

/// One chat message.
#[derive(Debug)]
pub struct Message {
    pub role: &'static str,
    pub content: String,
}

/// A message as a JSON object.
pub open spec fn message_json(m: Message) -> Seq<char> {
    "{\"role\":\""@ + escaped_text(m.role@) + "\",\"content\":\""@ + escaped_text(m.content@)
        + "\"}"@
}

/// The JSON objects of some messages, in order.
pub open spec fn message_parts(messages: Seq<Message>) -> Seq<Seq<char>> {
    Seq::new(messages.len(), |i: int| message_json(messages[i]))
}

/// Messages as a JSON array.
pub open spec fn messages_json(messages: Seq<Message>) -> Seq<char> {
    "["@ + joined(message_parts(messages)) + "]"@
}

impl Message {
    pub fn system(content: &str) -> (m: Self)
        ensures
            m.role@ == "system"@,
            m.content@ == content@,
    {
        Message { role: "system", content: owned(content) }
    }

    pub fn user(content: &str) -> (m: Self)
        ensures
            m.role@ == "user"@,
            m.content@ == content@,
    {
        Message { role: "user", content: owned(content) }
    }

    pub fn assistant(content: &str) -> (m: Self)
        ensures
            m.role@ == "assistant"@,
            m.content@ == content@,
    {
        Message { role: "assistant", content: owned(content) }
    }
}

/// Adding one part to a joined list.
proof fn lemma_joined_push(parts: Seq<Seq<char>>, part: Seq<char>)
    ensures
        joined(parts.push(part)) == (if parts.len() == 0 {
            part
        } else {
            joined(parts).push(',') + part
        }),
{
    assert(parts.push(part).drop_last() =~= parts);
}

/// Renders messages as the engine takes them.
pub fn messages_to_json(messages: &[Message]) -> (out: String)
    ensures
        out@ == messages_json(messages@),
{
    let mut out = owned("[");
    let mut i: usize = 0;
    while i < messages.len()
        invariant
            i <= messages.len(),
            out@ == "["@ + joined(message_parts(messages@.take(i as int))),
        decreases messages.len() - i,
    {
        let ghost before = message_parts(messages@.take(i as int));
        if i > 0 {
            out.push(',');
        }
        out.push_str("{\"role\":\"");
        out.push_str(escape(messages[i].role).as_str());
        out.push_str("\",\"content\":\"");
        out.push_str(escape(messages[i].content.as_str()).as_str());
        out.push_str("\"}");
        proof {
            let m = messages[i as int];
            assert(message_parts(messages@.take(i + 1)) =~= before.push(message_json(m)));
            lemma_joined_push(before, message_json(m));
            if i == 0 {
                assert(joined(before) =~= seq![]);
                assert(out@ =~= "["@ + message_json(m));
            } else {
                assert(out@ =~= "["@ + (joined(before).push(',') + message_json(m)));
            }
        }
        i += 1;
    }
    out.push_str("]");
    proof {
        assert(messages@.take(i as int) =~= messages@);
    }
    out
}

/// A character that numerals are made of: a digit, a sign, a point, or a letter of an
/// exponent or of what stands for no number.
pub open spec fn is_numeral_char(c: char) -> bool {
    ||| '0' <= c <= '9'
    ||| 'a' <= c <= 'z'
    ||| 'A' <= c <= 'Z'
    ||| c == '+'
    ||| c == '-'
    ||| c == '.'
}

/// A numeral.
pub open spec fn is_numeral(text: Seq<char>) -> bool {
    &&& text.len() > 0
    &&& forall|i: int| 0 <= i < text.len() ==> is_numeral_char(#[trigger] text[i])
}

/// The numerals that `show` writes singles as, which it takes by their bits.
pub open spec fn numerals<S: Fn(u32) -> String>(show: S) -> spec_fn(u32) -> Seq<char> {
    |b: u32| (choose|s: String| #[trigger] call_ensures(show, (b,), s))@
}

/// `show` writes every single as a numeral, and always as the same.
pub open spec fn is_writer<S: Fn(u32) -> String>(show: S) -> bool {
    &&& forall|b: u32| #[trigger] call_requires(show, (b,))
    &&& forall|b: u32, s: String| #[trigger]
        call_ensures(show, (b,), s) ==> s@ == numerals(show)(b)
    &&& forall|b: u32, s: String| #[trigger] call_ensures(show, (b,), s) ==> is_numeral(s@)
}

/// Generation options. `None` fields are left out, so that the engine's
/// defaults apply. The fractional options are singles, by their bits.
#[derive(Debug)]
pub struct CompleteOptions {
    pub max_tokens: Option<u32>,
    pub temperature: Option<u32>,
    pub top_p: Option<u32>,
    /// Size of the response buffer handed to the engine; it bounds the length
    /// of a response.
    pub response_buffer_size: usize,
}

impl Default for CompleteOptions {
    fn default() -> (o: Self)
        ensures
            o.max_tokens is None,
            o.temperature is None,
            o.top_p is None,
            o.response_buffer_size == 65536,
    {
        CompleteOptions {
            max_tokens: None,
            temperature: None,
            top_p: None,
            response_buffer_size: 65536,
        }
    }
}

impl CompleteOptions {
    /// The `name: value` pairs of the options that are set, where `num` are the
    /// numerals of singles.
    pub open spec fn fields(self, num: spec_fn(u32) -> Seq<char>) -> Seq<Seq<char>> {
        let a = match self.max_tokens {
            Some(v) => seq!["\"max_tokens\":"@ + decimal(v as nat)],
            None => seq![],
        };
        let b = match self.temperature {
            Some(v) => seq!["\"temperature\":"@ + num(v)],
            None => seq![],
        };
        let c = match self.top_p {
            Some(v) => seq!["\"top_p\":"@ + num(v)],
            None => seq![],
        };
        a + b + c
    }

    /// The fractional options that are set are written as numerals.
    pub open spec fn are_numerals(self, num: spec_fn(u32) -> Seq<char>) -> bool {
        &&& self.temperature matches Some(b) ==> is_numeral(num(b))
        &&& self.top_p matches Some(b) ==> is_numeral(num(b))
    }

    /// Every option is defaulted.
    pub open spec fn is_default(self) -> bool {
        self.max_tokens is None && self.temperature is None && self.top_p is None
    }

    /// The options as a JSON object, or `None` if every one is defaulted.
    pub fn to_json<S: Fn(u32) -> String>(&self, show: &S) -> (json: Option<String>)
        requires
            is_writer(*show),
        ensures
            json is None <==> self.is_default(),
            json matches Some(text) ==> text@ == "{"@ + joined(self.fields(numerals(*show))) + "}"@,
            self.are_numerals(numerals(*show)),
    {
        let ghost num = numerals(*show);
        let mut out = owned("{");
        let ghost mut done: Seq<Seq<char>> = seq![];
        let mut first = true;
        if let Some(v) = self.max_tokens {
            out.push_str("\"max_tokens\":");
            push_decimal(&mut out, v as u64);
            first = false;
            proof {
                done = seq!["\"max_tokens\":"@ + decimal(v as nat)];
                assert(out@ =~= "{"@ + joined(done));
            }
        } else {
            assert(out@ =~= "{"@ + joined(done));
        }
        if let Some(b) = self.temperature {
            let v: String = show(b);
            if !first {
                out.push(',');
            }
            out.push_str("\"temperature\":");
            out.push_str(v.as_str());
            first = false;
            proof {
                let part = "\"temperature\":"@ + v@;
                lemma_joined_push(done, part);
                done = done.push(part);
                assert(out@ =~= "{"@ + joined(done));
            }
        }
        if let Some(b) = self.top_p {
            let v: String = show(b);
            if !first {
                out.push(',');
            }
            out.push_str("\"top_p\":");
            out.push_str(v.as_str());
            first = false;
            proof {
                let part = "\"top_p\":"@ + v@;
                lemma_joined_push(done, part);
                done = done.push(part);
                assert(out@ =~= "{"@ + joined(done));
            }
        }
        assert(done =~= self.fields(num));
        if first {
            None
        } else {
            out.push_str("}");
            Some(out)
        }
    }
}

} // verus!
