use prana::arith::Op;
use prana::engine::mock::{MockEngine, MOCK_RESPONSE};
use prana::engine::session::{check, check_nul, find_nul, grow_to, prepare, response_capacity, response_text};
use prana::engine::{engine_kind, escape, messages_to_json, CompleteOptions, Error, Message, Model};

fn calc(op: Op, a: u32, b: u32) -> u32 {
    let (x, y) = (f32::from_bits(a), f32::from_bits(b));
    let r = match op {
        Op::Add => x + y,
        Op::Sub => x - y,
        Op::Mul => x * y,
        Op::Div => x / y,
        Op::Max => x.max(y),
        Op::Pow => x.powf(y),
        Op::Neg => -x,
        Op::Sqrt => x.sqrt(),
        Op::Exp => x.exp(),
        Op::Tanh => x.tanh(),
        Op::Sin => x.sin(),
        Op::Cos => x.cos(),
        Op::Code => return x.round().clamp(-127.0, 127.0) as i8 as i32 as u32,
        Op::Natural => (((a as u64) << 32) | b as u64) as f32,
        Op::Integer => a as i32 as f32,
    };
    r.to_bits()
}

/// A single as the language writes it.
fn show(b: u32) -> String {
    f32::from_bits(b).to_string()
}

#[test]
fn escapes_quotes_backslashes_and_control_chars() {
    assert_eq!(escape(r#"say "hi"\now"#), r#"say \"hi\"\\now"#);
    assert_eq!(escape("a\nb\tc"), "a\\nb\\tc");
    assert_eq!(escape("\u{1}"), "\\u0001");
}

#[test]
fn escapes_carriage_return_and_the_last_control_char() {
    assert_eq!(escape("\r\u{1f} "), "\\r\\u001f ");
}

#[test]
fn passes_plain_text_and_unicode_through() {
    assert_eq!(escape("héllo 世界"), "héllo 世界");
}

#[test]
fn open_and_drop_releases_the_handle() {
    let mut engine = MockEngine::new();
    let before = engine.live_models();
    {
        let m = Model::open(&mut engine, "mock://tiny-model").unwrap();
        assert_eq!(engine.live_models(), before + 1);
        m.close(&mut engine);
    }
    assert_eq!(engine.live_models(), before, "closing must give the handle back exactly once");
}

#[test]
fn open_failure_surfaces_the_engine_message() {
    let mut engine = MockEngine::new();
    let err = Model::open(&mut engine, "mock://missing-model").unwrap_err();
    match err {
        Error::Init(msg) => assert!(msg.contains("missing-model"), "got: {msg}"),
        other => panic!("expected Init error, got {other:?}"),
    }
    assert!(matches!(Model::open(&mut engine, "").unwrap_err(), Error::Init(_)));
    assert_eq!(engine.last_error(), "failed to load model at ''");
    assert_eq!(engine.live_models(), 0);
}

#[test]
fn complete_returns_the_response() {
    let mut engine = MockEngine::new();
    let mut m = Model::open(&mut engine, "mock://tiny-model").unwrap();
    let out = m.complete(&mut engine, &[Message::user("ping")], &CompleteOptions::default(), &show).unwrap();
    assert_eq!(out, MOCK_RESPONSE);
    // A model that was reset answers as before.
    m.reset();
    let again = m.complete(&mut engine, &[Message::user("again")], &CompleteOptions::default(), &show).unwrap();
    assert_eq!(again, out);
}

#[test]
fn streaming_tokens_arrive_in_order_and_closure_state_works() {
    let mut engine = MockEngine::new();
    let mut m = Model::open(&mut engine, "mock://tiny-model").unwrap();
    let mut streamed = String::new();
    let mut ids = Vec::new();
    let reply = m.complete_streaming(&mut engine, &[Message::user("ping")], &CompleteOptions::default(), &show);
    for t in &reply.tokens {
        streamed.push_str(t.text);
        ids.push(t.id);
    }
    assert_eq!(streamed, MOCK_RESPONSE, "streamed tokens must concatenate to the response");
    assert_eq!(ids, vec![1, 2, 3, 4]);
    assert_eq!(reply.text.unwrap(), MOCK_RESPONSE);
}

#[test]
fn tiny_response_buffer_is_a_typed_error_not_a_truncation() {
    let mut engine = MockEngine::new();
    let mut m = Model::open(&mut engine, "mock://tiny-model").unwrap();
    let opts = CompleteOptions { response_buffer_size: 16, ..Default::default() };
    let err = m.complete(&mut engine, &[Message::user("ping")], &opts, &show).unwrap_err();
    assert_eq!(err.message(), "engine call failed (code -2): response buffer too small");
    match err {
        Error::Engine { code, message } => {
            assert!(code < 0);
            assert!(message.contains("buffer"), "got: {message}");
        }
        other => panic!("expected Engine error, got {other:?}"),
    }
    // The pieces were streamed all the same.
    let reply = m.complete_streaming(&mut engine, &[Message::user("ping")], &opts, &show);
    assert!(reply.text.is_err());
    assert_eq!(reply.tokens.len(), 4);
    let opts = CompleteOptions { response_buffer_size: 21, ..Default::default() };
    assert!(m.complete(&mut engine, &[Message::user("ping")], &opts, &show).is_ok());
}

#[test]
fn tokenize_grows_past_the_initial_buffer() {
    let mut engine = MockEngine::new();
    let m = Model::open(&mut engine, "mock://tiny-model").unwrap();
    let text = "x".repeat(300); // > initial 256-token buffer
    let tokens = m.tokenize(&engine, &text).unwrap();
    assert_eq!(tokens.len(), 300);
    assert!(tokens.iter().all(|&t| t == 'x' as u32));
    assert_eq!(m.tokenize(&engine, "hé").unwrap(), vec![104, 233]);
}

#[test]
fn embed_returns_engine_reported_dimension() {
    let mut engine = MockEngine::new();
    let m = Model::open(&mut engine, "mock://tiny-model").unwrap();
    let e = m.embed(&engine, "hello", true, &calc).unwrap();
    assert_eq!(e.len(), 8);
    // Deterministic: same text, same embedding.
    assert_eq!(e, m.embed(&engine, "hello", true, &calc).unwrap());
    assert_ne!(e, m.embed(&engine, "world", true, &calc).unwrap());
    // FNV-1a of "hello" is 0x4f9f2cab.
    let h: u32 = 0x4f9f2cab;
    for (i, &n) in e.iter().enumerate() {
        let want = ((h.rotate_left(i as u32 * 4) & 0xffff) as f32 / 65535.0) - 0.5;
        assert_eq!(f32::from_bits(n), want);
    }
}

#[test]
fn a_nul_byte_in_an_argument_is_a_typed_error() {
    let mut engine = MockEngine::new();
    let err = Model::open(&mut engine, "mock\0path").unwrap_err();
    assert_eq!(
        err.message(),
        "argument contains interior NUL: nul byte found in provided data at position: 4"
    );
    let m = Model::open(&mut engine, "mock://tiny-model").unwrap();
    assert!(matches!(m.tokenize(&engine, "é\0").unwrap_err(), Error::Nul(2)));
    assert!(matches!(m.embed(&engine, "\0", false, &calc).unwrap_err(), Error::Nul(0)));
    assert!(check_nul("fine").is_ok());
}

#[test]
fn messages_hide_nul_characters() {
    let mut engine = MockEngine::new();
    let mut m = Model::open(&mut engine, "mock://tiny-model").unwrap();
    let messages = [Message::user("a\0b")];
    assert!(m.complete(&mut engine, &messages, &CompleteOptions::default(), &show).is_ok());
}

#[test]
fn response_text_stops_at_the_first_zero() {
    assert_eq!(find_nul(b"ab\0c\0"), 2);
    assert_eq!(find_nul(b"abc"), 3);
    assert_eq!(response_text(b"ab\0c"), "ab");
    assert_eq!(response_text(b"abc"), "abc");
    assert_eq!(response_text(b"a\xffb\0"), "a\u{fffd}b");
}

#[test]
fn codes_map_onto_results() {
    assert!(check(0, String::from("stale")).is_ok());
    assert_eq!(
        check(-1, String::from("model must not be null")).unwrap_err().message(),
        "engine call failed (code -1): model must not be null"
    );
    assert_eq!(Error::Init(String::from("x")).message(), "engine init failed: x");
}

#[test]
fn buffers_grow_to_what_was_reported() {
    assert_eq!(grow_to(256, 256), None);
    assert_eq!(grow_to(257, 256), Some(257));
    let small = CompleteOptions { response_buffer_size: 3, ..Default::default() };
    assert_eq!(response_capacity(&small), 16);
    assert_eq!(response_capacity(&CompleteOptions::default()), 64 * 1024);
}

#[test]
fn messages_render_as_escaped_json() {
    let json = messages_to_json(&[
        Message::system("be \"nice\""),
        Message::user("line1\nline2"),
    ]);
    assert_eq!(
        json,
        r#"[{"role":"system","content":"be \"nice\""},{"role":"user","content":"line1\nline2"}]"#
    );
    assert_eq!(messages_to_json(&[]), "[]");
    assert_eq!(
        messages_to_json(&[Message::assistant("ok")]),
        r#"[{"role":"assistant","content":"ok"}]"#
    );
}

#[test]
fn default_options_render_as_null_json() {
    assert_eq!(CompleteOptions::default().to_json(&show), None);
    let opts = CompleteOptions {
        max_tokens: Some(64),
        temperature: Some(0.5f32.to_bits()),
        ..Default::default()
    };
    assert_eq!(opts.to_json(&show).unwrap(), r#"{"max_tokens":64,"temperature":0.5}"#);
    let opts = CompleteOptions { top_p: Some(0.9f32.to_bits()), ..Default::default() };
    assert_eq!(opts.to_json(&show).unwrap(), r#"{"top_p":0.9}"#);
}

#[test]
fn sessions_name_their_engine() {
    assert_eq!(engine_kind(), "built-in mock engine");
}

#[test]
fn a_request_is_rendered_for_the_engine() {
    let messages = [Message::system("be brief"), Message::user("say \"hi\"\0")];
    let q = prepare(&messages, &CompleteOptions::default(), &show);
    assert_eq!(q.messages_json, messages_to_json(&messages));
    assert!(!q.messages_json.contains('\0'));
    assert_eq!(q.options_json, None);
    assert_eq!(q.capacity, 64 * 1024);
    let opts = CompleteOptions {
        max_tokens: Some(9),
        temperature: Some((-0.25f32).to_bits()),
        top_p: Some(1f32.to_bits()),
        response_buffer_size: 3,
    };
    let q = prepare(&messages, &opts, &show);
    assert_eq!(q.options_json.as_deref(), Some(r#"{"max_tokens":9,"temperature":-0.25,"top_p":1}"#));
    assert_eq!(q.capacity, 16);
}

#[test]
fn what_is_asked_reaches_the_engine() {
    let mut engine = MockEngine::new();
    let mut m = Model::open(&mut engine, "mock://tiny-model").unwrap();
    assert_eq!(engine.last_asked(), None);
    let messages = [Message::user("ping")];
    let opts = CompleteOptions { top_p: Some(0.5f32.to_bits()), ..Default::default() };
    assert!(m.complete(&mut engine, &messages, &opts, &show).is_ok());
    let asked = (messages_to_json(&messages), Some(String::from(r#"{"top_p":0.5}"#)));
    assert_eq!(engine.last_asked(), Some(asked));
    // So does a request whose reply does not fit.
    let messages = [Message::system("be brief"), Message::user("pong")];
    let opts = CompleteOptions { response_buffer_size: 16, ..Default::default() };
    assert!(m.complete_streaming(&mut engine, &messages, &opts, &show).text.is_err());
    assert_eq!(engine.last_asked(), Some((messages_to_json(&messages), None)));
}
