use prana::arith::Op;
use prana::double_bits::f64_to_f32;
use prana::float_bits::f16_to_f32;
use prana::kernels::kquant::KQuantKind;
use prana::model::any_tokenizer::AnyTokenizer;
use prana::model::bpe::bytes_to_unicode;
use prana::model::checkpoint;
use prana::model::generate::generate;
use prana::model::gguf::{Gguf, GGML_F16, GGML_F32, GGML_Q4_0, GGML_Q6_K, GGML_Q8_0};
use prana::model::gguf_format::{GgufError, Value, MAGIC};
use prana::model::infer::{forward, KvCache};
use prana::model::infer_team::{forward_team, Scratch};
use prana::model::{Activation, Embedding, Linear, Precision, Sampler};

fn calc(op: Op, a: u32, b: u32) -> u32 {
    let (x, y) = (f32::from_bits(a), f32::from_bits(b));
    let r = match op {
        Op::Add => x + y,
        Op::Sub => x - y,
        Op::Mul => x * y,
        Op::Div => x / y,
        Op::Max => x.max(y),
        Op::Pow => x.powf(y),
        Op::Neg => -x,
        Op::Sqrt => x.sqrt(),
        Op::Exp => x.exp(),
        Op::Tanh => x.tanh(),
        Op::Sin => x.sin(),
        Op::Cos => x.cos(),
        Op::Code => return x.round().clamp(-127.0, 127.0) as i8 as i32 as u32,
        Op::Natural => (((a as u64) << 32) | b as u64) as f32,
        Op::Integer => a as i32 as f32,
    };
    r.to_bits()
}

fn bits(values: &[f32]) -> Vec<u32> {
    values.iter().map(|v| v.to_bits()).collect()
}

fn floats(values: &[u32]) -> Vec<f32> {
    values.iter().map(|&v| f32::from_bits(v)).collect()
}

/// Minimal GGUF writer for tests.
struct W(Vec<u8>);
impl W {
    fn str_(&mut self, s: &[u8]) {
        self.0.extend_from_slice(&(s.len() as u64).to_le_bytes());
        self.0.extend_from_slice(s);
    }
    fn kv_u32(&mut self, k: &str, v: u32) {
        self.str_(k.as_bytes());
        self.0.extend_from_slice(&4u32.to_le_bytes());
        self.0.extend_from_slice(&v.to_le_bytes());
    }
    fn kv_str(&mut self, k: &str, v: &str) {
        self.str_(k.as_bytes());
        self.0.extend_from_slice(&8u32.to_le_bytes());
        self.str_(v.as_bytes());
    }
}

#[test]
fn parses_metadata_and_f32_tensor() {
    let mut w = W(Vec::new());
    w.0.extend_from_slice(&MAGIC.to_le_bytes());
    w.0.extend_from_slice(&3u32.to_le_bytes()); // version
    w.0.extend_from_slice(&1u64.to_le_bytes()); // 1 tensor
    w.0.extend_from_slice(&2u64.to_le_bytes()); // 2 kv
    w.kv_str("general.architecture", "llama");
    w.kv_u32("llama.block_count", 6);
    // tensor info: "t" [2 x 3] f32 at offset 0
    w.str_(b"t");
    w.0.extend_from_slice(&2u32.to_le_bytes());
    w.0.extend_from_slice(&2u64.to_le_bytes()); // dims[0]=cols=2
    w.0.extend_from_slice(&3u64.to_le_bytes()); // dims[1]=rows=3
    w.0.extend_from_slice(&GGML_F32.to_le_bytes());
    w.0.extend_from_slice(&0u64.to_le_bytes());
    // align to 32 and write 6 f32s
    while w.0.len() % 32 != 0 {
        w.0.push(0);
    }
    for i in 0..6 {
        w.0.extend_from_slice(&(i as f32).to_le_bytes());
    }

    let g = Gguf::from_bytes(w.0).unwrap();
    assert_eq!(g.meta_usize("llama.block_count").unwrap(), 6);
    assert_eq!(floats(&g.tensor_f32("t", &calc).unwrap()), vec![0.0, 1.0, 2.0, 3.0, 4.0, 5.0]);
    assert!(g.tensor_f32("nope", &calc).is_err());
}

#[test]
fn q8_0_tensor_loads_natively_as_quantmatrix() {
    // One row of 32 values stored as a single Q8_0 block: scale=1.0(f16),
    // q[i] = i - 16.
    let mut w = W(Vec::new());
    w.0.extend_from_slice(&MAGIC.to_le_bytes());
    w.0.extend_from_slice(&3u32.to_le_bytes());
    w.0.extend_from_slice(&1u64.to_le_bytes());
    w.0.extend_from_slice(&0u64.to_le_bytes());
    w.str_(b"w");
    w.0.extend_from_slice(&2u32.to_le_bytes());
    w.0.extend_from_slice(&32u64.to_le_bytes()); // cols
    w.0.extend_from_slice(&1u64.to_le_bytes()); // rows
    w.0.extend_from_slice(&GGML_Q8_0.to_le_bytes());
    w.0.extend_from_slice(&0u64.to_le_bytes());
    while w.0.len() % 32 != 0 {
        w.0.push(0);
    }
    w.0.extend_from_slice(&0x3c00u16.to_le_bytes()); // f16 1.0
    for i in 0..32i8 {
        w.0.push((i - 16) as u8);
    }

    let g = Gguf::from_bytes(w.0).unwrap();
    let lin = g.linear("w", Precision::F32, &calc).unwrap();
    match &lin {
        Linear::Q8(qm) => assert_eq!((qm.rows, qm.cols), (1, 32)),
        _ => panic!("expected native Q8"),
    }
    let x = bits(&[1.0f32; 32]);
    // sum of (i-16) for i in 0..32 = -16
    assert!((f32::from_bits(lin.apply(&x, &calc)[0]) + 16.0).abs() < 1e-4);
}

/// A file that is put together entry by entry.
struct Builder {
    n_kv: u64,
    kv: W,
    tensors: Vec<(String, Vec<u64>, u32, Vec<u8>)>,
}

impl Builder {
    fn new() -> Self {
        Builder { n_kv: 0, kv: W(Vec::new()), tensors: Vec::new() }
    }

    fn text(mut self, k: &str, v: &str) -> Self {
        self.kv.kv_str(k, v);
        self.n_kv += 1;
        self
    }

    fn number(mut self, k: &str, v: u32) -> Self {
        self.kv.kv_u32(k, v);
        self.n_kv += 1;
        self
    }

    /// A value of any type, with its bytes.
    fn raw(mut self, k: &str, ty: u32, bytes: &[u8]) -> Self {
        self.kv.str_(k.as_bytes());
        self.kv.0.extend_from_slice(&ty.to_le_bytes());
        self.kv.0.extend_from_slice(bytes);
        self.n_kv += 1;
        self
    }

    fn texts(mut self, k: &str, items: &[String]) -> Self {
        self.kv.str_(k.as_bytes());
        self.kv.0.extend_from_slice(&9u32.to_le_bytes());
        self.kv.0.extend_from_slice(&8u32.to_le_bytes());
        self.kv.0.extend_from_slice(&(items.len() as u64).to_le_bytes());
        for i in items {
            self.kv.str_(i.as_bytes());
        }
        self.n_kv += 1;
        self
    }

    /// An array of four-byte items.
    fn words(mut self, k: &str, ty: u32, items: &[u32]) -> Self {
        self.kv.str_(k.as_bytes());
        self.kv.0.extend_from_slice(&9u32.to_le_bytes());
        self.kv.0.extend_from_slice(&ty.to_le_bytes());
        self.kv.0.extend_from_slice(&(items.len() as u64).to_le_bytes());
        for i in items {
            self.kv.0.extend_from_slice(&i.to_le_bytes());
        }
        self.n_kv += 1;
        self
    }

    fn tensor(mut self, name: &str, dims: &[u64], ty: u32, bytes: Vec<u8>) -> Self {
        self.tensors.push((name.to_string(), dims.to_vec(), ty, bytes));
        self
    }

    fn singles(self, name: &str, dims: &[u64], values: &[f32]) -> Self {
        let bytes = values.iter().flat_map(|v| v.to_le_bytes()).collect();
        self.tensor(name, dims, GGML_F32, bytes)
    }

    fn file(self) -> Vec<u8> {
        let mut w = W(Vec::new());
        w.0.extend_from_slice(&MAGIC.to_le_bytes());
        w.0.extend_from_slice(&3u32.to_le_bytes());
        w.0.extend_from_slice(&(self.tensors.len() as u64).to_le_bytes());
        w.0.extend_from_slice(&self.n_kv.to_le_bytes());
        w.0.extend_from_slice(&self.kv.0);
        let mut at = 0u64;
        for (name, dims, ty, bytes) in &self.tensors {
            w.str_(name.as_bytes());
            w.0.extend_from_slice(&(dims.len() as u32).to_le_bytes());
            for d in dims {
                w.0.extend_from_slice(&d.to_le_bytes());
            }
            w.0.extend_from_slice(&ty.to_le_bytes());
            w.0.extend_from_slice(&at.to_le_bytes());
            at += bytes.len() as u64;
        }
        while w.0.len() % 32 != 0 {
            w.0.push(0);
        }
        for (_, _, _, bytes) in &self.tensors {
            w.0.extend_from_slice(bytes);
        }
        w.0
    }

    fn open(self) -> Gguf {
        Gguf::from_bytes(self.file()).unwrap()
    }
}

/// Reproducible weights.
struct Weights(u64);
impl Weights {
    fn next(&mut self, n: usize, scale: f32) -> Vec<f32> {
        (0..n)
            .map(|_| {
                self.0 ^= self.0 >> 12;
                self.0 ^= self.0 << 25;
                self.0 ^= self.0 >> 27;
                (((self.0 >> 40) as f32 / (1u64 << 24) as f32) - 0.5) * scale
            })
            .collect()
    }
}

const DIM: usize = 32;
const HIDDEN: usize = 64;
const HEADS: usize = 2;
const VOCAB: usize = 10;

fn head(arch: &str, heads: u32) -> Builder {
    let key = |s: &str| format!("{arch}.{s}");
    Builder::new()
        .text("general.architecture", arch)
        .number(&key("embedding_length"), DIM as u32)
        .number(&key("block_count"), 1)
        .number(&key("attention.head_count"), heads)
        .number(&key("feed_forward_length"), HIDDEN as u32)
        .number(&key("context_length"), 8)
}

fn sentence_vocab() -> Vec<String> {
    ["<unk>", "<s>", "</s>", "\u{2581}", "h", "i", "hi", "\u{2581}hi", "x", "y"].iter().map(|s| s.to_string()).collect()
}

/// A model of one layer; `width` is that of the queries.
fn layer(b: Builder, w: &mut Weights, width: usize) -> Builder {
    let (d, h, q) = (DIM as u64, HIDDEN as u64, width as u64);
    b.singles("token_embd.weight", &[d, VOCAB as u64], &w.next(VOCAB * DIM, 0.5))
        .singles("blk.0.attn_norm.weight", &[d], &w.next(DIM, 1.0))
        .singles("blk.0.attn_q.weight", &[d, q], &w.next(width * DIM, 0.5))
        .singles("blk.0.attn_k.weight", &[d, q], &w.next(width * DIM, 0.5))
        .singles("blk.0.attn_v.weight", &[d, q], &w.next(width * DIM, 0.5))
        .singles("blk.0.attn_output.weight", &[q, d], &w.next(width * DIM, 0.5))
        .singles("blk.0.ffn_norm.weight", &[d], &w.next(DIM, 1.0))
        .singles("blk.0.ffn_gate.weight", &[d, h], &w.next(HIDDEN * DIM, 0.5))
        .singles("blk.0.ffn_down.weight", &[h, d], &w.next(HIDDEN * DIM, 0.5))
        .singles("blk.0.ffn_up.weight", &[d, h], &w.next(HIDDEN * DIM, 0.5))
        .singles("output_norm.weight", &[d], &w.next(DIM, 1.0))
}

fn llama() -> Builder {
    layer(head("llama", HEADS as u32).texts("tokenizer.ggml.tokens", &sentence_vocab()), &mut Weights(77), DIM)
}

#[test]
fn a_file_and_a_checkpoint_of_the_same_weights_agree() {
    let (model, tokenizer) = llama().open().load(Precision::F32, &calc).unwrap();
    assert_eq!(f32::from_bits(model.config.rope_theta), 10000.0);
    assert_eq!(f32::from_bits(model.config.norm_eps), 1e-5);
    assert_eq!((model.config.head_dim, model.config.n_kv_heads), (DIM / HEADS, HEADS));
    assert!(model.config.shared_classifier && !model.config.rope_neox);
    assert_eq!(tokenizer.encode_prompt("hi"), vec![1, 7]);

    let mut w = Weights(77);
    let mut data = Vec::new();
    for v in [DIM, HIDDEN, 1, HEADS, HEADS, VOCAB, 8] {
        data.extend_from_slice(&(v as i32).to_le_bytes());
    }
    let mut parts: Vec<Vec<f32>> = Vec::new();
    for (n, s) in [
        (VOCAB * DIM, 0.5),
        (DIM, 1.0),
        (DIM * DIM, 0.5),
        (DIM * DIM, 0.5),
        (DIM * DIM, 0.5),
        (DIM * DIM, 0.5),
        (DIM, 1.0),
        (HIDDEN * DIM, 0.5),
        (HIDDEN * DIM, 0.5),
        (HIDDEN * DIM, 0.5),
        (DIM, 1.0),
    ] {
        parts.push(w.next(n, s));
    }
    for p in &parts {
        data.extend(p.iter().flat_map(|v| v.to_le_bytes()));
    }
    data.resize(data.len() + 8 * (DIM / HEADS) * 4, 0);
    let other = checkpoint::load_bytes(&data, Precision::F32, &calc).unwrap();

    let (mut a, mut b) = (KvCache::new(&model), KvCache::new(&other));
    for (pos, token) in [1u32, 7, 4].iter().enumerate() {
        let x = forward(&model, &mut a, *token, pos, &calc);
        assert_eq!(x, forward(&other, &mut b, *token, pos, &calc));
        assert!(floats(&x).iter().all(|v| v.is_finite()));
    }
}

#[test]
fn gemma_scales_embeddings_and_shifts_norms() {
    let b = head("gemma", HEADS as u32)
        .number("gemma.attention.key_length", 8)
        .raw("gemma.rope.freq_base", 12, &5000f64.to_le_bytes())
        .texts("tokenizer.ggml.tokens", &sentence_vocab());
    let mut w = Weights(5);
    let (model, _) = layer(b, &mut w, HEADS * 8).open().load(Precision::F32, &calc).unwrap();
    let c = model.config;
    assert_eq!(c.head_dim, 8);
    assert_eq!(f32::from_bits(c.rope_theta), 5000.0);
    assert_eq!(f32::from_bits(c.norm_eps), 1e-6);
    assert_eq!(c.act, Activation::GeluTanh);
    assert_eq!(f32::from_bits(c.emb_scale), (DIM as f32).sqrt());
    assert!(c.rope_neox);
    let mut again = Weights(5);
    let _ = again.next(VOCAB * DIM, 0.5);
    let norm: Vec<f32> = again.next(DIM, 1.0).iter().map(|v| 1.0 + v).collect();
    assert_eq!(floats(&model.layers[0].rms_att), norm);
    assert!(model.can_run() && model.is_exact());
    let mut cache = KvCache::new(&model);
    let logits = forward(&model, &mut cache, 3, 0, &calc);
    let mut shared = KvCache::new(&model);
    let mut scratch = Scratch::new(&model);
    assert_eq!(forward_team(&model, &mut shared, &mut scratch, 3, 0, 4, &calc), logits);
}

/// A byte-level vocabulary of ten tokens.
fn byte_vocab() -> Vec<String> {
    let sp = bytes_to_unicode()[b' ' as usize];
    let mut v: Vec<String> = ["h", "i", "hi", "x", "y", "z", "w"].iter().map(|s| s.to_string()).collect();
    v.push(sp.to_string());
    v.push("<|im_start|>".to_string());
    v.push("<|im_end|>".to_string());
    v
}

fn qwen2() -> Builder {
    let b = head("qwen2", HEADS as u32)
        .texts("tokenizer.ggml.tokens", &byte_vocab())
        .texts("tokenizer.ggml.merges", &["h i".to_string()])
        .words("tokenizer.ggml.token_type", 5, &[1, 1, 1, 1, 1, 1, 1, 1, 3, 3])
        .number("tokenizer.ggml.eos_token_id", 9);
    let mut w = Weights(9);
    layer(b, &mut w, DIM)
        .singles("blk.0.attn_q.bias", &[DIM as u64], &w.next(DIM, 2.0))
        .singles("blk.0.attn_k.bias", &[DIM as u64], &w.next(DIM, 2.0))
        .singles("blk.0.attn_v.bias", &[DIM as u64], &w.next(DIM, 2.0))
}

#[test]
fn qwen2_has_biases_and_a_byte_level_tokenizer() {
    let (model, tokenizer) = qwen2().open().load(Precision::F32, &calc).unwrap();
    assert!(model.layers[0].bq.is_some() && model.layers[0].bk.is_some() && model.layers[0].bv.is_some());
    assert!(model.config.rope_neox);
    assert_eq!(model.config.act, Activation::Silu);
    assert!(matches!(tokenizer, AnyTokenizer::Bpe(_)));
    assert_eq!(tokenizer.encode_prompt("<|im_start|>hi x<|im_end|>"), vec![8, 2, 7, 3, 9]);
    assert!(tokenizer.is_stop(9) && !tokenizer.is_stop(2));
    // A bias changes what comes out.
    let mut plain = qwen2().open().load(Precision::F32, &calc).unwrap().0;
    plain.layers[0].bv = None;
    let (mut a, mut b) = (KvCache::new(&model), KvCache::new(&plain));
    let with = forward(&model, &mut a, 2, 0, &calc);
    assert_ne!(with, forward(&plain, &mut b, 2, 0, &calc));
    let mut sampler = Sampler::new(0f32.to_bits(), 1);
    let (pieces, stats) = generate(&model, &tokenizer, "hi", 3, &mut sampler, &calc).unwrap();
    assert!(stats.generated_tokens <= 3 && pieces.len() == stats.generated_tokens);
    // A model of llama's makes nothing of biases.
    let g = layer(
        head("llama", HEADS as u32).texts("tokenizer.ggml.tokens", &sentence_vocab()),
        &mut Weights(9),
        DIM,
    )
    .singles("blk.0.attn_q.bias", &[DIM as u64], &[1.0; DIM]);
    assert!(g.open().load(Precision::F32, &calc).unwrap().0.layers[0].bq.is_none());
}

/// Blocks of 4-bit weights.
fn packed(rows: usize, cols: usize, seed: usize) -> Vec<u8> {
    let mut out = Vec::new();
    for i in 0..rows * cols / 32 {
        out.extend_from_slice(&0x2a66u16.to_le_bytes());
        out.extend((0..16).map(|j| ((i * 31 + j * 7 + seed * 13) % 256) as u8));
    }
    out
}

#[test]
fn packed_weights_run_as_they_are() {
    let (d, h) = (DIM as u64, HIDDEN as u64);
    let file = head("llama", HEADS as u32)
        .texts("tokenizer.ggml.tokens", &sentence_vocab())
        .tensor("token_embd.weight", &[d, VOCAB as u64], GGML_Q4_0, packed(VOCAB, DIM, 1))
        .singles("blk.0.attn_norm.weight", &[d], &[1.0; DIM])
        .tensor("blk.0.attn_q.weight", &[d, d], GGML_Q4_0, packed(DIM, DIM, 2))
        .tensor("blk.0.attn_k.weight", &[d, d], GGML_Q4_0, packed(DIM, DIM, 3))
        .tensor("blk.0.attn_v.weight", &[d, d], GGML_Q4_0, packed(DIM, DIM, 4))
        .tensor("blk.0.attn_output.weight", &[d, d], GGML_Q4_0, packed(DIM, DIM, 5))
        .singles("blk.0.ffn_norm.weight", &[d], &[1.0; DIM])
        .tensor("blk.0.ffn_gate.weight", &[d, h], GGML_Q4_0, packed(HIDDEN, DIM, 6))
        .tensor("blk.0.ffn_down.weight", &[h, d], GGML_Q4_0, packed(DIM, HIDDEN, 7))
        .tensor("blk.0.ffn_up.weight", &[d, h], GGML_Q4_0, packed(HIDDEN, DIM, 8))
        .singles("output_norm.weight", &[d], &[1.0; DIM])
        .open();
    let (model, _) = file.load(Precision::Q8, &calc).unwrap();
    match &model.tok_emb {
        Embedding::KQuant(m) => {
            assert_eq!((m.rows, m.cols, m.kind()), (VOCAB, DIM, KQuantKind::Q40));
            assert_eq!(model.tok_emb.row(3, DIM, &calc), m.dequantize_row(3, &calc));
            assert_eq!(model.tok_emb.n_values(), VOCAB * DIM);
            assert_eq!(model.tok_emb.stored_bytes(), VOCAB * DIM / 32 * 18);
            // One scale for each block of a row, widened from its half.
            assert_eq!(m.row_dscales(3), [f16_to_f32(0x2a66)]);
        }
        Embedding::F32(_) => panic!("the table stays packed"),
    }
    assert!(model.wcls.is_none());
    assert!(model.layers.iter().all(|l| matches!(l.wq, Linear::KQuant(_))));
    // The embedding table is the classifier, and counted as such.
    let blocks = (4 * DIM * DIM + 3 * HIDDEN * DIM) / 32;
    assert_eq!(model.projection_bytes() % 18, 0);
    assert!(model.projection_bytes() >= blocks * 18);
    let mut alone = KvCache::new(&model);
    let mut shared = KvCache::new(&model);
    let mut scratch = Scratch::new(&model);
    for (pos, token) in [4u32, 9].iter().enumerate() {
        let a = forward(&model, &mut alone, *token, pos, &calc);
        assert_eq!(a.len(), VOCAB);
        assert_eq!(forward_team(&model, &mut shared, &mut scratch, *token, pos, 2, &calc), a);
    }
}

#[test]
fn a_packed_table_of_other_rows_is_loaded_dense() {
    // As many values as the vocabulary asks for, in rows of twice the width.
    let table = packed(VOCAB / 2, 2 * DIM, 1);
    let mut b = llama();
    for t in &mut b.tensors {
        if t.0 == "token_embd.weight" {
            *t = (t.0.clone(), vec![2 * DIM as u64, VOCAB as u64 / 2], GGML_Q4_0, table.clone());
        }
    }
    let file = b.open();
    let (model, _) = file.load(Precision::F32, &calc).unwrap();
    match &model.tok_emb {
        Embedding::F32(w) => assert_eq!(*w, file.tensor_f32("token_embd.weight", &calc).unwrap()),
        Embedding::KQuant(_) => panic!("the rows are not those of the model"),
    }
    let mut cache = KvCache::new(&model);
    assert_eq!(forward(&model, &mut cache, 9, 0, &calc).len(), VOCAB);
    // Another number of values is refused.
    let mut b = llama();
    for t in &mut b.tensors {
        if t.0 == "token_embd.weight" {
            *t = (t.0.clone(), vec![DIM as u64, VOCAB as u64 - 1], GGML_Q4_0, packed(VOCAB - 1, DIM, 1));
        }
    }
    assert!(b.open().load(Precision::F32, &calc).is_err());
}

#[test]
fn every_value_type_is_read() {
    let g = Builder::new()
        .raw("u8", 0, &[200])
        .raw("i8", 1, &[200])
        .raw("u16", 2, &60000u16.to_le_bytes())
        .raw("i16", 3, &(-5i16).to_le_bytes())
        .raw("i32", 5, &(-7i32).to_le_bytes())
        .raw("f32", 6, &1.5f32.to_le_bytes())
        .raw("bool", 7, &[2])
        .raw("u64", 10, &(1u64 << 40).to_le_bytes())
        .raw("i64", 11, &9i64.to_le_bytes())
        .raw("f64", 12, &0.1f64.to_le_bytes())
        .words("arr", 4, &[3, 4])
        .open();
    assert!(matches!(g.meta("u8"), Some(Value::U8(200))));
    assert!(matches!(g.meta("i8"), Some(Value::I8(-56))));
    assert!(matches!(g.meta("u16"), Some(Value::U16(60000))));
    assert!(matches!(g.meta("i16"), Some(Value::I16(-5))));
    assert!(matches!(g.meta("i32"), Some(Value::I32(-7))));
    assert!(matches!(g.meta("bool"), Some(Value::Bool(true))));
    assert_eq!(g.meta("f32").unwrap().as_f32(), Some(1.5f32.to_bits()));
    assert_eq!(g.meta("f64").unwrap().as_f32(), Some(0.1f32.to_bits()));
    assert_eq!(g.meta("u64").unwrap().as_usize(), usize::try_from(1u64 << 40).ok());
    assert_eq!(g.meta("i64").unwrap().as_usize(), Some(9));
    assert_eq!(g.meta("i16").unwrap().as_usize(), None);
    assert_eq!(g.meta("bool").unwrap().as_usize(), None);
    match g.meta("arr") {
        Some(Value::Arr(items)) => assert_eq!(items.iter().map(|v| v.as_usize()).collect::<Vec<_>>(), vec![Some(3), Some(4)]),
        _ => panic!("an array"),
    }
    assert!(g.meta("none").is_none());
}

#[test]
fn doubles_are_rounded_as_the_language_rounds_them() {
    for x in [0.0f64, -0.0, 0.1, 1e-45, 1e-46, 3.5e38, 1e300, -2.5, 1.0 + 2f64.powi(-24), 1.0 + 3.0 * 2f64.powi(-24), 1.1754943508222875e-38, f64::INFINITY] {
        assert_eq!(f64_to_f32(x.to_bits()), (x as f32).to_bits(), "{x}");
        assert_eq!(f64_to_f32((-x).to_bits()), (-x as f32).to_bits(), "-{x}");
    }
    assert!(f32::from_bits(f64_to_f32(f64::NAN.to_bits())).is_nan());
}

#[test]
fn stored_tensors_are_widened() {
    let halves: Vec<u8> = [0x3c00u16, 0xc000, 0x0001].iter().flat_map(|h| h.to_le_bytes()).collect();
    let mut q8 = 0x3800u16.to_le_bytes().to_vec();
    q8.extend((0..32i8).map(|i| (i - 16) as u8));
    let g = Builder::new()
        .tensor("h", &[3], GGML_F16, halves)
        .tensor("q", &[32], GGML_Q8_0, q8)
        .open();
    assert_eq!(floats(&g.tensor_f32("h", &calc).unwrap()), vec![1.0, -2.0, 2f32.powi(-24)]);
    let q = floats(&g.tensor_f32("q", &calc).unwrap());
    assert_eq!((q[0], q[31]), (-8.0, 7.5));
    assert!(g.has_tensor("q") && !g.has_tensor("r"));
}

fn message_of(r: Result<Gguf, GgufError>) -> String {
    match r {
        Err(e) => e.message(),
        Ok(_) => panic!("such a file is refused"),
    }
}

#[test]
fn broken_files_are_refused() {
    assert_eq!(message_of(Gguf::from_bytes(Vec::new())), "gguf truncated");
    let mut bad = Builder::new().file();
    bad[0] = b'X';
    assert_eq!(message_of(Gguf::from_bytes(bad)), "not a GGUF file (bad magic)");
    for v in [1u32, 4] {
        let mut bad = Builder::new().file();
        bad[4..8].copy_from_slice(&v.to_le_bytes());
        assert_eq!(message_of(Gguf::from_bytes(bad)), format!("unsupported GGUF version {v}"));
    }
    let bad = Builder::new().raw("k", 13, &[]).file();
    assert_eq!(message_of(Gguf::from_bytes(bad)), "unsupported gguf value type 13");
    let mut whole = llama().file();
    whole.truncate(200);
    assert_eq!(message_of(Gguf::from_bytes(whole)), "gguf truncated");
}

#[test]
fn tensors_that_cannot_be_read_are_named() {
    let g = Builder::new()
        .tensor("far", &[4], GGML_F32, vec![0; 8])
        .tensor("odd", &[31], GGML_Q8_0, vec![0; 34])
        .tensor("odd4", &[31], GGML_Q4_0, vec![0; 18])
        .tensor("oddk", &[255], GGML_Q6_K, vec![0; 210])
        .tensor("new", &[4], 99, vec![0; 16])
        .singles("line", &[2], &[0.0, 1.0])
        .open();
    let message = |name: &str| g.tensor_f32(name, &calc).unwrap_err().message();
    assert_eq!(message("gone"), "missing tensor 'gone'");
    assert_eq!(message("odd"), "Q8_0 tensor 'odd' not block-aligned");
    assert_eq!(message("odd4"), "Q4_0 tensor 'odd4' not block-aligned");
    assert_eq!(message("oddk"), "K-quant tensor 'oddk' not 256-aligned");
    assert_eq!(message("new"), "tensor 'new': unsupported ggml type 99");
    assert_eq!(g.linear("line", Precision::F32, &calc).unwrap_err().message(), "tensor 'line' is not 2-D");
    let short = Builder::new().tensor("t", &[64], GGML_F32, vec![0; 8]).open();
    assert!(matches!(short.tensor_f32("t", &calc), Err(GgufError::OutOfRange)));
    assert_eq!(GgufError::OutOfRange.message(), "tensor data out of range");
}

#[test]
fn models_that_cannot_be_put_together_say_why() {
    let message = |b: Builder| match b.open().load(Precision::F32, &calc) {
        Err(e) => e.message(),
        Ok(_) => panic!("such a model is refused"),
    };
    assert_eq!(message(Builder::new()), "missing general.architecture");
    assert_eq!(
        message(Builder::new().text("general.architecture", "mpt")),
        "unsupported architecture 'mpt' (only llama, qwen2 and gemma)"
    );
    assert_eq!(
        message(Builder::new().text("general.architecture", "llama")),
        "missing metadata 'llama.embedding_length'"
    );
    assert_eq!(message(head("llama", 0)), "attention heads do not fit together");
    assert_eq!(message(head("llama", 2)), "missing tokenizer.ggml.tokens");
    let vocab = sentence_vocab();
    assert_eq!(
        message(head("llama", 2).texts("tokenizer.ggml.tokens", &vocab).words("tokenizer.ggml.scores", 6, &[0; 3])),
        "tokenizer scores do not match the vocabulary"
    );
    assert_eq!(message(head("llama", 2).texts("tokenizer.ggml.tokens", &vocab)), "missing tensor 'token_embd.weight'");
    assert_eq!(
        message(head("llama", 2).texts("tokenizer.ggml.tokens", &vocab).singles(
            "token_embd.weight",
            &[DIM as u64, 1],
            &[0.0; DIM]
        )),
        "token_embd.weight size mismatch with vocab"
    );
}

#[test]
fn sentence_pieces_have_spaces_for_markers() {
    let scores: Vec<u32> = (0..VOCAB).map(|i| (-(i as f32)).to_bits()).collect();
    let t = head("llama", 2)
        .texts("tokenizer.ggml.tokens", &sentence_vocab())
        .words("tokenizer.ggml.scores", 6, &scores)
        .open()
        .tokenizer()
        .unwrap();
    assert_eq!(t.vocab_size(), VOCAB);
    assert_eq!(t.decode(9, 7), b" hi");
    assert_eq!(t.encode_prompt("hi"), vec![1, 7]);
    assert!(t.is_stop(2));
}
