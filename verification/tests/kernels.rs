use prana::arith::{from_i32, from_usize, Op};
use prana::float_bits::{f16_to_f32, f32_to_f16};
use prana::kernels::attention::{attention, attention_decode, attention_decode_team};
use prana::kernels::kquant::{
    dequant_q40_block, dequant_q4k_block, dequant_q6k_block, q4k_scale_min, KQuantKind, KQuantMatrix, Q4_0_BLOCK_BYTES,
    Q4_K_BLOCK_BYTES, Q6_K_BLOCK_BYTES, QK_K,
};
use prana::kernels::matmul::{
    dot_f32, dot_q8_q8, matmul_f32, matmul_f32_range, matmul_kquant_f32, matmul_kquant_prefill, matmul_q8_f32,
    matmul_q8_range,
};
use prana::kernels::norms::{gelu_tanh, rmsnorm, silu, softmax};
use prana::kernels::quant::{dequantize_q8, quantize_acts, quantize_q8, Q8_BLOCK};
use prana::kernels::rope::{rope, rope_interleaved, rope_neox};
use prana::kernels::threading::{chunks, default_threads, matmul_ranges, parallel_ranges};

fn calc(op: Op, a: u32, b: u32) -> u32 {
    let (x, y) = (f32::from_bits(a), f32::from_bits(b));
    let r = match op {
        Op::Add => x + y,
        Op::Sub => x - y,
        Op::Mul => x * y,
        Op::Div => x / y,
        Op::Max => x.max(y),
        Op::Pow => x.powf(y),
        Op::Neg => -x,
        Op::Sqrt => x.sqrt(),
        Op::Exp => x.exp(),
        Op::Tanh => x.tanh(),
        Op::Sin => x.sin(),
        Op::Cos => x.cos(),
        Op::Code => return x.round().clamp(-127.0, 127.0) as i8 as i32 as u32,
        Op::Natural => (((a as u64) << 32) | b as u64) as f32,
        Op::Integer => a as i32 as f32,
    };
    r.to_bits()
}

fn bits(values: &[f32]) -> Vec<u32> {
    values.iter().map(|v| v.to_bits()).collect()
}

fn floats(values: &[u32]) -> Vec<f32> {
    values.iter().map(|&v| f32::from_bits(v)).collect()
}

fn widen(h: u16) -> f32 {
    f32::from_bits(f16_to_f32(h))
}

fn narrow(x: f32) -> u16 {
    f32_to_f16(x.to_bits())
}

#[test]
fn exact_representable_values_round_trip() {
    for &v in &[0.0f32, -0.0, 1.0, -1.0, 0.5, 2.0, -2.0, 0.25, 65504.0, -65504.0] {
        let back = widen(narrow(v));
        assert_eq!(back.to_bits(), v.to_bits(), "{v} round-trip");
    }
}

#[test]
fn rounds_to_nearest_and_stays_close() {
    // Typical activation magnitudes: error must be <= half an ulp of the
    // f16 grid (~1e-3 relative for values near 1).
    for i in -2000..2000 {
        let v = i as f32 * 0.0017;
        let r = widen(narrow(v));
        let tol = v.abs() * 1e-3 + 1e-6;
        assert!((r - v).abs() <= tol, "{v} -> {r}, err {}", (r - v).abs());
    }
}

#[test]
fn handles_special_and_overflow() {
    assert_eq!(narrow(f32::INFINITY), 0x7c00);
    assert_eq!(narrow(f32::NEG_INFINITY), 0xfc00);
    assert!(widen(narrow(f32::NAN)).is_nan());
    assert_eq!(narrow(1e30), 0x7c00, "overflow saturates to +inf");
    assert_eq!(narrow(1e-30), 0x0000, "underflow to +0");
}

#[test]
fn round_to_nearest_even_on_the_boundary() {
    // A value exactly between two f16s rounds to the even neighbor.
    // 1.0 + 2^-11 sits on the tie between 1.0 (0x3c00) and next up.
    let mid = 1.0f32 + 2f32.powi(-11);
    assert_eq!(narrow(mid), 0x3c00, "ties to even (1.0)");
}

#[test]
fn f16_conversion_covers_the_cases() {
    assert_eq!(widen(0x0000), 0.0);
    assert_eq!(widen(0x3c00), 1.0);
    assert_eq!(widen(0xc000), -2.0);
    assert_eq!(widen(0x7c00), f32::INFINITY);
    assert!(widen(0x7e00).is_nan());
    // subnormal: smallest positive half = 2^-24
    assert!((widen(0x0001) - 2f32.powi(-24)).abs() < 1e-12);
    assert!((widen(0x3555) - 0.333_25).abs() < 1e-4);
}

#[test]
fn every_half_survives_a_round_trip() {
    for h in 0..=u16::MAX {
        let back = narrow(widen(h));
        if h % 0x8000 > 0x7c00 {
            assert!(back % 0x8000 > 0x7c00, "{h:#x} is a NaN");
        } else {
            assert_eq!(back, h);
        }
    }
}

#[test]
fn numbers_become_singles() {
    assert_eq!(f32::from_bits(from_usize(0, &calc)), 0.0);
    assert_eq!(f32::from_bits(from_usize(16777217, &calc)), 16777216.0);
    assert_eq!(f32::from_bits(from_i32(-7, &calc)), -7.0);
    assert_eq!(f32::from_bits(from_i32(i32::MIN, &calc)), -2147483648.0);
}

#[test]
fn f32_matmul_matches_reference() {
    // a: 2x3, w: 4x3 (n_rows=4, k=3)
    let a = vec![1.0, 2.0, 3.0, 4.0, 5.0, 6.0];
    let w = vec![
        1.0, 0.0, 0.0, // row 0 -> picks a[.,0]
        0.0, 1.0, 0.0, // row 1 -> picks a[.,1]
        0.0, 0.0, 1.0, // row 2 -> picks a[.,2]
        1.0, 1.0, 1.0, // row 3 -> sum
    ];
    let out = matmul_f32(&bits(&a), &bits(&w), 2, 3, 4, &calc);
    // token 0: [1,2,3,6]; token 1: [4,5,6,15]
    assert_eq!(floats(&out), vec![1.0, 2.0, 3.0, 6.0, 4.0, 5.0, 6.0, 15.0]);
}

#[test]
fn dot_sums_in_four_lanes_and_then_the_rest() {
    // 1e8 in lane 0 swallows a one added to it, but not one in another lane.
    let a = bits(&[1e8, 1.0, 0.0, 0.0, 1.0, 0.0, 0.0, 0.0, -1e8]);
    let b = bits(&[1.0; 9]);
    assert_eq!(f32::from_bits(dot_f32(&a, &b, &calc)), 0.0);
    let c = bits(&[3.0, 5.0, 7.0, 11.0, 13.0]);
    let d = bits(&[2.0, 2.0, 2.0, 2.0, 10.0]);
    assert_eq!(f32::from_bits(dot_f32(&c, &d, &calc)), 182.0);
}

#[test]
fn q8_roundtrip_is_close() {
    let rows = 8;
    let cols = Q8_BLOCK * 2;
    let w: Vec<f32> = (0..rows * cols).map(|i| ((i as f32) * 0.013).sin()).collect();
    let qm = quantize_q8(rows, cols, &bits(&w), &calc);
    let dq = floats(&dequantize_q8(&qm, &calc));
    let max_err = w.iter().zip(&dq).map(|(a, b)| (a - b).abs()).fold(0f32, f32::max);
    // int8 with per-32 block scaling on |x|<=1 data: error well under 1%.
    assert!(max_err < 0.01, "max_err = {max_err}");
    // And it actually saves memory vs dense f32.
    assert!(qm.stored_bytes() < w.len() * 4);
}

#[test]
fn codes_span_the_range_of_their_group() {
    let mut w = vec![0.0f32; 64];
    w[0] = 4.0;
    w[1] = -4.0;
    w[2] = 2.0;
    let qm = quantize_q8(1, 64, &bits(&w), &calc);
    assert_eq!(&qm.q[..4], &[127, -127, 64, 0]);
    assert_eq!(f32::from_bits(qm.scales[0]), 4.0 / 127.0);
    // A group of zeros has scale one.
    assert_eq!(f32::from_bits(qm.scales[1]), 1.0);
    assert_eq!(qm.groups_per_row(), 2);
}

#[test]
fn q8_matmul_tracks_f32_matmul() {
    let n_rows = 6;
    let k = Q8_BLOCK * 3;
    let n_tokens = 1;
    let a: Vec<f32> = (0..n_tokens * k).map(|i| ((i as f32) * 0.02).cos()).collect();
    let w: Vec<f32> = (0..n_rows * k).map(|i| ((i as f32) * 0.017).sin()).collect();

    let dense = floats(&matmul_f32(&bits(&a), &bits(&w), n_tokens, k, n_rows, &calc));
    let qm = quantize_q8(n_rows, k, &bits(&w), &calc);
    let quant = floats(&matmul_q8_f32(&bits(&a), &qm, n_tokens, &calc));

    for (d, q) in dense.iter().zip(&quant) {
        assert!((d - q).abs() < 0.05, "dense {d} vs quant {q}");
    }
}

#[test]
fn prefill_and_decode_agree() {
    // Same weights, feed 3 tokens as a batch vs one at a time.
    let n_rows = 5;
    let k = Q8_BLOCK;
    let w: Vec<f32> = (0..n_rows * k).map(|i| (i as f32 * 0.03).sin()).collect();
    let batch: Vec<f32> = (0..3 * k).map(|i| (i as f32 * 0.011).cos()).collect();
    let (w, batch) = (bits(&w), bits(&batch));

    let all = matmul_f32(&batch, &w, 3, k, n_rows, &calc);
    for t in 0..3 {
        let one = matmul_f32(&batch[t * k..(t + 1) * k], &w, 1, k, n_rows, &calc);
        assert_eq!(&all[t * n_rows..(t + 1) * n_rows], &one[..]);
    }
}

#[test]
fn ranges_of_a_product_make_up_the_whole() {
    let (n_tokens, k, n_rows) = (3, 64, 5);
    let a = bits(&(0..n_tokens * k).map(|i| (i as f32 * 0.07).sin()).collect::<Vec<_>>());
    let w = bits(&(0..n_rows * k).map(|i| (i as f32 * 0.05).cos()).collect::<Vec<_>>());
    let qm = quantize_q8(n_rows, k, &w, &calc);
    let mut dense = Vec::new();
    let mut quant = Vec::new();
    for (lo, hi) in chunks(n_tokens * n_rows, 4) {
        dense.extend(matmul_f32_range(&a, &w, n_tokens, k, n_rows, lo, hi, &calc));
        quant.extend(matmul_q8_range(&a, &qm, n_tokens, lo, hi, &calc));
    }
    assert_eq!(dense, matmul_f32(&a, &w, n_tokens, k, n_rows, &calc));
    assert_eq!(quant, matmul_q8_f32(&a, &qm, n_tokens, &calc));
}

#[test]
fn integer_dot_is_the_dot_of_what_was_quantized() {
    let a: Vec<f32> = (0..96).map(|i| (i as f32 * 0.11).sin() * 3.0).collect();
    let acts = quantize_acts(&bits(&a), &calc);
    let q: Vec<i8> = (0..96).map(|i| ((i * 37) % 255) as u8 as i8).collect();
    let scales = [0.01f32, 0.013, 0.016];
    let native = f32::from_bits(dot_q8_q8(&acts, &q, &bits(&scales), &calc));
    let mut want = 0f64;
    for i in 0..96 {
        let x = acts.q[i] as f64 * f32::from_bits(acts.scales[i / 32]) as f64;
        want += x * q[i] as f64 * scales[i / 32] as f64;
    }
    assert!((native as f64 - want).abs() < 1e-3 * want.abs().max(1.0), "{native} vs {want}");
    for g in 0..3 {
        let sum: i32 = acts.q[g * 32..(g + 1) * 32].iter().map(|&c| c as i32).sum();
        assert_eq!(acts.sums[g], sum);
    }
}

/// Deterministic pseudo-random bytes: any byte string is a valid block, so this
/// exercises every bit path.
fn pseudo_bytes(n: usize, seed: u64) -> Vec<u8> {
    let mut s = seed.max(1);
    (0..n)
        .map(|_| {
            s ^= s >> 12;
            s ^= s << 25;
            s ^= s >> 27;
            (s.wrapping_mul(0x2545F4914F6CDD1D) >> 56) as u8
        })
        .collect()
}

fn check_matches_dequant_reference(kind: KQuantKind, seed: u64) {
    let rows = 5;
    let cols = QK_K * 2;
    let bb = kind.block_bytes();
    let mut bytes = pseudo_bytes(rows * cols / kind.block_values() * bb, seed);
    // Random bytes are a valid block EXCEPT the f16 scale fields, which
    // can decode to NaN/Inf; overwrite those with finite values.
    for b in bytes.chunks_exact_mut(bb) {
        match kind {
            KQuantKind::Q40 => {
                b[0..2].copy_from_slice(&0x2e66u16.to_le_bytes()); // d ~ 0.1
            }
            KQuantKind::Q4K => {
                b[0..2].copy_from_slice(&0x2e66u16.to_le_bytes()); // d ~ 0.1
                b[2..4].copy_from_slice(&0x2a66u16.to_le_bytes()); // dmin ~ 0.05
            }
            KQuantKind::Q6K => {
                b[208..210].copy_from_slice(&0x2e66u16.to_le_bytes());
            }
        }
    }
    let m = KQuantMatrix::from_raw(rows, cols, kind, bytes);
    let n_tokens = 2;
    let a: Vec<f32> = (0..n_tokens * cols).map(|i| (i as f32 * 0.013).sin()).collect();

    let native = floats(&matmul_kquant_f32(&bits(&a), &m, n_tokens, &calc));
    // Reference: dequantized weights x *dequantized quantized* activations
    // -- the integer kernels see i8 activations, so the oracle must too;
    // any remaining difference is a kernel bug, not quantization error.
    let mut a_dq = Vec::with_capacity(a.len());
    for row in a.chunks_exact(cols) {
        let acts = quantize_acts(&bits(row), &calc);
        a_dq.extend(
            acts.q.iter().enumerate().map(|(i, &q)| q as f32 * f32::from_bits(acts.scales[i / 32])),
        );
    }
    let dense = floats(&matmul_f32(&bits(&a_dq), &m.dequantize(&calc), n_tokens, cols, rows, &calc));

    for (i, (n, d)) in native.iter().zip(&dense).enumerate() {
        // Random blocks can have large f16 scales; compare relatively.
        // (Integer path sums exactly; slack is f32 accumulation order.)
        let tol = 1e-3 * d.abs().max(1.0);
        assert!((n - d).abs() < tol, "{kind:?}[{i}]: native {n} vs dequant {d}");
    }

    // A batch of quantized rows gives the same.
    let acts: Vec<_> = a.chunks_exact(cols).map(|row| quantize_acts(&bits(row), &calc)).collect();
    assert_eq!(floats(&matmul_kquant_prefill(&acts, &m, &calc)), native);
}

#[test]
fn q40_native_matmul_matches_dequant_reference() {
    for seed in [3u64, 77, 2024] {
        check_matches_dequant_reference(KQuantKind::Q40, seed);
    }
}

#[test]
fn q40_row_dequant_matches_full_dequant() {
    let rows = 3;
    let cols = 64;
    let mut bytes = pseudo_bytes(rows * cols / 32 * Q4_0_BLOCK_BYTES, 9);
    for b in bytes.chunks_exact_mut(Q4_0_BLOCK_BYTES) {
        b[0..2].copy_from_slice(&0x2e66u16.to_le_bytes());
    }
    let m = KQuantMatrix::from_raw(rows, cols, KQuantKind::Q40, bytes);
    let full = m.dequantize(&calc);
    for r in 0..rows {
        assert_eq!(m.dequantize_row(r, &calc), full[r * cols..(r + 1) * cols]);
    }
}

#[test]
fn q4k_native_matmul_matches_dequant_reference() {
    for seed in [1u64, 42, 12345] {
        check_matches_dequant_reference(KQuantKind::Q4K, seed);
    }
}

#[test]
fn q6k_native_matmul_matches_dequant_reference() {
    for seed in [7u64, 99, 54321] {
        check_matches_dequant_reference(KQuantKind::Q6K, seed);
    }
}

#[test]
fn stored_bytes_reflect_the_compression() {
    let rows = 4;
    let cols = QK_K;
    let m = KQuantMatrix::from_raw(rows, cols, KQuantKind::Q4K, vec![0; rows * Q4_K_BLOCK_BYTES]);
    // 144 bytes per 256 weights = 4.5 bits/weight vs 32 for f32.
    assert_eq!(m.stored_bytes(), rows * 144);
    assert!(m.stored_bytes() * 7 < rows * cols * 4);
}

#[test]
fn q40_block_dequantizes_known_values() {
    let mut b = vec![0u8; Q4_0_BLOCK_BYTES];
    b[0..2].copy_from_slice(&0x3800u16.to_le_bytes()); // d = 0.5
    b[2] = 0xf3; // element 0 is 3, element 16 is 15
    let mut out = Vec::new();
    dequant_q40_block(&b, &mut out, &calc);
    let out = floats(&out);
    assert_eq!(out.len(), 32);
    assert_eq!(out[0], 0.5 * (3.0 - 8.0));
    assert_eq!(out[16], 0.5 * (15.0 - 8.0));
    assert_eq!(out[1], 0.5 * -8.0);
}

#[test]
fn q4k_block_dequantizes_known_values() {
    // Craft a super-block with d=1.0, dmin=0.0 so y = sc[group] * nibble.
    // 6-bit scales: groups 0..3 live in scales[0..4] (low 6 bits).
    let mut b = vec![0u8; Q4_K_BLOCK_BYTES];
    b[0..2].copy_from_slice(&0x3c00u16.to_le_bytes()); // d = 1.0
    b[2..4].copy_from_slice(&0x0000u16.to_le_bytes()); // dmin = 0.0
    b[4] = 2; // group 0 scale = 2
    b[5] = 3; // group 1 scale = 3 (second half of same 32 bytes)
    // qs: first 32 bytes cover groups 0 (low nibbles) and 1 (high nibbles)
    for i in 0..32 {
        b[16 + i] = ((i % 16) as u8) | (((15 - i % 16) as u8) << 4);
    }
    let mut out = Vec::new();
    dequant_q4k_block(&b, &mut out, &calc);
    let out = floats(&out);
    assert_eq!(out.len(), 256);
    for i in 0..32 {
        assert_eq!(out[i], 2.0 * (i % 16) as f32, "group0[{i}]");
        assert_eq!(out[32 + i], 3.0 * (15 - i % 16) as f32, "group1[{i}]");
    }
    // dmin=0 and zero scales elsewhere -> rest decodes to 0.
    assert!(out[64..].iter().all(|&v| v == 0.0));
}

#[test]
fn q4k_packed_scale_min_high_groups_unpack() {
    // Groups 4..7 pack 6-bit values across bytes; verify the bit surgery.
    let mut s = [0u8; 12];
    // Encode group 4: sc = 0b110101 (=53), m = 0b101011 (=43).
    // Layout: low 4 bits of sc in s[8]&0xF, high 2 bits in s[0]>>6;
    //         low 4 bits of m  in s[8]>>4,  high 2 bits in s[4]>>6.
    s[8] = (53 & 0xF) | ((43 & 0xF) << 4);
    s[0] = (53u8 >> 4) << 6;
    s[4] = (43u8 >> 4) << 6;
    let (sc, m) = q4k_scale_min(4, &s);
    assert_eq!((sc as f32, m as f32), (53.0, 43.0));
}

#[test]
fn q6k_block_dequantizes_known_values() {
    // d = 1.0, all 16 sub-block scales = 1: y[l] = q - 32 where q is the
    // 6-bit value. Set ql[0] = 5 (low nibble), qh[0] = 2 (bits 0-1 -> +32
    // ... actually bits<<4): q1 = 5 | (2<<4) = 37 -> y[0] = 5.
    let mut b = vec![0u8; Q6_K_BLOCK_BYTES];
    b[192..208].fill(1); // all 16 sub-block scales = 1
    b[208..210].copy_from_slice(&0x3c00u16.to_le_bytes()); // d = 1.0
    b[0] = 5; // ql[0]
    b[128] = 2; // qh[0]: bits 0-1 = 2
    let mut out = Vec::new();
    dequant_q6k_block(&b, &mut out, &calc);
    let out = floats(&out);
    assert_eq!(out.len(), 256);
    assert_eq!(out[0], (5 + (2 << 4) - 32) as f32); // = 5.0
    // Everything else in group 0's lane had q=0 -> value -32.
    assert_eq!(out[1], -32.0);
    // High-nibble group of the same byte: ql[0]>>4 = 0, qh bits 4-5 = 0.
    assert_eq!(out[64], -32.0);
}

#[test]
fn rmsnorm_unit_weight_normalizes() {
    // Constant row -> every normalized value equals 1 (rms of constant c is c).
    let x = bits(&[2.0, 2.0, 2.0, 2.0]);
    let w = bits(&[1.0; 4]);
    let y = rmsnorm(&x, &w, 1, 4, 0f32.to_bits(), &calc);
    for v in floats(&y) {
        assert!((v - 1.0).abs() < 1e-5, "got {v}");
    }
}

#[test]
fn softmax_sums_to_one() {
    let p = floats(&softmax(&bits(&[1.0, 2.0, 3.0]), &calc));
    let s: f32 = p.iter().sum();
    assert!((s - 1.0).abs() < 1e-6);
    // Monotonic: larger logit -> larger prob.
    assert!(p[0] < p[1] && p[1] < p[2]);
}

#[test]
fn silu_matches_definition() {
    let mut x = bits(&[0.0f32, 1.0, -1.0, 4.0]);
    silu(&mut x, &calc);
    let x = floats(&x);
    assert_eq!(x[0], 0.0);
    assert!((x[1] - 0.731_058_6).abs() < 1e-5); // 1*sigmoid(1)
    assert!((x[2] + 0.268_941_4).abs() < 1e-5); // -1*sigmoid(-1)
    assert!(x[3] > 3.9 && x[3] < 4.0); // large x -> ~identity
}

#[test]
fn gelu_tanh_matches_reference_points() {
    let mut x = bits(&[0.0f32, 1.0, -1.0, 3.0]);
    gelu_tanh(&mut x, &calc);
    let x = floats(&x);
    assert_eq!(x[0], 0.0);
    assert!((x[1] - 0.841_192).abs() < 1e-4); // gelu(1) ~ 0.8412
    assert!((x[2] + 0.158_808).abs() < 1e-4); // gelu(-1) ~ -0.1588
    assert!((x[3] - 2.995_9).abs() < 1e-3); // large x -> ~identity
}

#[test]
fn softmax_is_overflow_safe() {
    // Without max-subtraction this would be inf/inf = NaN.
    let p = floats(&softmax(&bits(&[1000.0, 1001.0]), &calc));
    assert!(p.iter().all(|v| v.is_finite()));
    assert!((p.iter().sum::<f32>() - 1.0).abs() < 1e-6);
}

#[test]
fn softmax_of_nothing_is_nothing() {
    assert!(softmax(&[], &calc).is_empty());
    // Nothing but NaNs has no positive sum, and comes out as NaN times zero.
    assert!(floats(&softmax(&bits(&[f32::NAN]), &calc))[0].is_nan());
}

#[test]
fn rope_preserves_norm_per_pair() {
    // A rotation preserves the length of each (x1, x2) pair.
    let seq = 3;
    let n_heads = 2;
    let head_dim = 4;
    let before: Vec<f32> =
        (0..seq * n_heads * head_dim).map(|i| (i as f32 * 0.1).sin() + 0.3).collect();
    let mut x = bits(&before);
    rope(&mut x, seq, n_heads, head_dim, 10000f32.to_bits(), &calc);
    let x = floats(&x);

    let half = head_dim / 2;
    for p in 0..seq {
        for h in 0..n_heads {
            let base = (p * n_heads + h) * head_dim;
            for j in 0..half {
                let n0 = before[base + j].powi(2) + before[base + j + half].powi(2);
                let n1 = x[base + j].powi(2) + x[base + j + half].powi(2);
                assert!((n0 - n1).abs() < 1e-5, "pair norm changed: {n0} vs {n1}");
            }
        }
    }
}

#[test]
fn rope_is_identity_at_position_zero() {
    // Angle = 0 for p=0, so the first row must be unchanged.
    let head_dim = 8;
    let before: Vec<f32> = (0..head_dim).map(|i| i as f32).collect();
    let mut x = bits(&before);
    rope(&mut x, 1, 1, head_dim, 10000f32.to_bits(), &calc);
    for (a, b) in before.iter().zip(&floats(&x)) {
        assert!((a - b).abs() < 1e-6);
    }
}

#[test]
fn attention_rows_are_convex_combinations_of_v() {
    // With causal masking, position 0 attends only to itself, so out[0] == v[0].
    let seq = 4;
    let n_heads = 2;
    let head_dim = 3;
    let q: Vec<f32> = (0..seq * n_heads * head_dim).map(|i| (i as f32 * 0.05).cos()).collect();
    let k: Vec<f32> = (0..seq * n_heads * head_dim).map(|i| (i as f32 * 0.03).sin()).collect();
    let v: Vec<f32> = (0..seq * n_heads * head_dim).map(|i| (i as f32 * 0.02).cos()).collect();
    let out = floats(&attention(&bits(&q), &bits(&k), &bits(&v), seq, n_heads, n_heads, head_dim, &calc));

    // First query position sees only key/value 0 -> output equals v[0] per head.
    for h in 0..n_heads {
        for d in 0..head_dim {
            let o = out[h * head_dim + d];
            let expected = v[h * head_dim + d];
            assert!((o - expected).abs() < 1e-5, "pos0 head{h} dim{d}: {o} vs {expected}");
        }
    }
}

#[test]
fn attention_output_is_bounded_by_v_range() {
    // A softmax-weighted average can never exceed the min/max of the values
    // it averages, a good invariant that catches masking/scaling bugs.
    let seq = 5;
    let n_heads = 1;
    let head_dim = 4;
    let q: Vec<f32> = (0..seq * head_dim).map(|i| (i as f32 * 0.2).sin()).collect();
    let k: Vec<f32> = (0..seq * head_dim).map(|i| (i as f32 * 0.15).cos()).collect();
    let v: Vec<f32> = (0..seq * head_dim).map(|i| (i as f32 * 0.1).sin()).collect();
    let out = floats(&attention(&bits(&q), &bits(&k), &bits(&v), seq, n_heads, n_heads, head_dim, &calc));

    for i in 0..seq {
        // Values visible to position i are rows 0..=i.
        let visible = &v[0..(i + 1) * head_dim];
        let vmin = visible.iter().copied().fold(f32::INFINITY, f32::min);
        let vmax = visible.iter().copied().fold(f32::NEG_INFINITY, f32::max);
        for d in 0..head_dim {
            let o = out[i * head_dim + d];
            assert!(o >= vmin - 1e-5 && o <= vmax + 1e-5, "out {o} not in [{vmin},{vmax}]");
        }
    }
}

#[test]
fn rope_interleaved_preserves_pair_norm_and_pos0_identity() {
    let head_dim = 8;
    let before: Vec<f32> = (0..2 * head_dim).map(|i| (i as f32 * 0.3).sin() + 0.1).collect();
    let mut x = bits(&before);
    rope_interleaved(&mut x, 0, head_dim, 10000f32.to_bits(), &calc);
    assert_eq!(floats(&x), before, "position 0 must be identity");

    rope_interleaved(&mut x, 7, head_dim, 10000f32.to_bits(), &calc);
    let x = floats(&x);
    for i in (0..x.len()).step_by(2) {
        let n0 = before[i].powi(2) + before[i + 1].powi(2);
        let n1 = x[i].powi(2) + x[i + 1].powi(2);
        assert!((n0 - n1).abs() < 1e-4, "pair norm changed at {i}: {n0} vs {n1}");
    }
}

#[test]
fn rope_neox_pairs_across_halves_and_matches_batch_rope() {
    // rope_neox on a single row at position p must equal the batch rope()
    // (also rotate_half) applied to a seq where that row sits at index p.
    let n_heads = 2;
    let head_dim = 8;
    let w = n_heads * head_dim;
    let row: Vec<f32> = (0..w).map(|i| (i as f32 * 0.17).sin() + 0.2).collect();
    let row = bits(&row);

    let pos = 3;
    let mut batch = vec![0u32; 4 * w];
    batch[pos * w..(pos + 1) * w].copy_from_slice(&row);
    rope(&mut batch, 4, n_heads, head_dim, 10000f32.to_bits(), &calc);

    let mut single = row.clone();
    rope_neox(&mut single, pos, head_dim, 10000f32.to_bits(), &calc);
    for (a, b) in floats(&single).iter().zip(&floats(&batch[pos * w..(pos + 1) * w])) {
        assert!((a - b).abs() < 1e-5, "{a} vs {b}");
    }
    assert_eq!(single, batch[pos * w..(pos + 1) * w]);
}

#[test]
fn rotation_by_one_radian_at_position_one() {
    // The first pair turns by `pos * theta^0`, one radian at position one.
    let (s, c) = (1f32.sin(), 1f32.cos());
    let mut x = bits(&[1.0, 0.0, 0.0, 0.0]);
    rope_interleaved(&mut x, 1, 4, 10000f32.to_bits(), &calc);
    assert_eq!(floats(&x), vec![c, s, 0.0, 0.0]);
    let mut y = bits(&[1.0, 0.0, 0.0, 0.0]);
    rope_neox(&mut y, 1, 4, 10000f32.to_bits(), &calc);
    assert_eq!(floats(&y), vec![c, 0.0, s, 0.0]);
}

#[test]
fn decode_with_cache_matches_full_attention() {
    // Filling a KV cache position-by-position and querying the last position
    // must reproduce the last row of the batch (prefill) attention.
    let seq = 5;
    let n_heads = 2;
    let head_dim = 4;
    let w = n_heads * head_dim;
    let q: Vec<f32> = (0..seq * w).map(|i| (i as f32 * 0.07).sin()).collect();
    let k: Vec<f32> = (0..seq * w).map(|i| (i as f32 * 0.05).cos()).collect();
    let v: Vec<f32> = (0..seq * w).map(|i| (i as f32 * 0.03).sin()).collect();
    let (q, k, v) = (bits(&q), bits(&k), bits(&v));

    let full = attention(&q, &k, &v, seq, n_heads, n_heads, head_dim, &calc);
    for pos in 0..seq {
        let step =
            attention_decode(&q[pos * w..(pos + 1) * w], &k, &v, pos, n_heads, n_heads, head_dim, &calc);
        for (a, b) in floats(&full[pos * w..(pos + 1) * w]).iter().zip(&floats(&step)) {
            assert!((a - b).abs() < 1e-5, "pos {pos}: {a} vs {b}");
        }
        // To the bit, even with only the rows up to `pos` in the caches.
        let part = attention_decode(
            &q[pos * w..(pos + 1) * w],
            &k[..(pos + 1) * w],
            &v[..(pos + 1) * w],
            pos,
            n_heads,
            n_heads,
            head_dim,
            &calc,
        );
        assert_eq!(part, full[pos * w..(pos + 1) * w]);
    }
}

#[test]
fn grouped_query_attention_shapes_work() {
    // 4 query heads sharing 2 kv heads (GQA) must produce full q-shaped output.
    let seq = 3;
    let n_heads = 4;
    let n_kv_heads = 2;
    let head_dim = 2;
    let q: Vec<f32> = (0..seq * n_heads * head_dim).map(|i| i as f32 * 0.01).collect();
    let k: Vec<f32> = (0..seq * n_kv_heads * head_dim).map(|i| i as f32 * 0.02).collect();
    let v: Vec<f32> = (0..seq * n_kv_heads * head_dim).map(|i| i as f32 * 0.03).collect();
    let out = attention(&bits(&q), &bits(&k), &bits(&v), seq, n_heads, n_kv_heads, head_dim, &calc);
    assert_eq!(out.len(), seq * n_heads * head_dim);
}

#[test]
fn a_team_fills_in_the_same_heads() {
    let (n_heads, n_kv_heads, head_dim, pos) = (4, 2, 4, 2);
    let q = bits(&(0..n_heads * head_dim).map(|i| (i as f32 * 0.3).sin()).collect::<Vec<_>>());
    let k = bits(&(0..3 * n_kv_heads * head_dim).map(|i| (i as f32 * 0.2).cos()).collect::<Vec<_>>());
    let v = bits(&(0..3 * n_kv_heads * head_dim).map(|i| (i as f32 * 0.1).sin()).collect::<Vec<_>>());
    let alone = attention_decode(&q, &k, &v, pos, n_heads, n_kv_heads, head_dim, &calc);
    let mut out = vec![7u32; n_heads * head_dim + 2];
    attention_decode_team(&q, &k, &v, pos, n_heads, n_kv_heads, head_dim, &mut out, &calc);
    assert_eq!(out[..n_heads * head_dim], alone);
    assert_eq!(out[n_heads * head_dim..], [7, 7]);
}

#[test]
fn covers_every_index_exactly_once() {
    let n = 10_000;
    let mut hits = vec![0usize; n];
    for (s, e) in parallel_ranges(n, 1, 4) {
        for h in &mut hits[s..e] {
            *h += 1;
        }
    }
    assert!(hits.iter().all(|h| *h == 1));
}

#[test]
fn small_work_runs_inline() {
    // Below the min_parallel gate, work runs as a single inline range.
    let ranges = parallel_ranges(3, 1024, 4);
    let calls = ranges.len();
    let covered: usize = ranges.iter().map(|(s, e)| e - s).sum();
    assert_eq!(calls, 1);
    assert_eq!(covered, 3);
}

#[test]
fn work_is_split_evenly() {
    assert_eq!(parallel_ranges(10, 1, 4), vec![(0, 3), (3, 6), (6, 9), (9, 10)]);
    // Five workers for six items make three ranges of two.
    assert_eq!(parallel_ranges(6, 1, 5), vec![(0, 2), (2, 4), (4, 6)]);
    assert_eq!(parallel_ranges(0, 1, 4), vec![]);
    assert_eq!(parallel_ranges(2, 1, 0), vec![(0, 2)]);
    assert_eq!(chunks(7, 3), vec![(0, 3), (3, 6), (6, 7)]);
}

#[test]
fn products_are_split_by_rows_or_tokens() {
    // Too small to split.
    assert_eq!(matmul_ranges(1, 16, 16, 4), vec![(0, 16)]);
    // One token: by weight rows.
    assert_eq!(
        matmul_ranges(1, 1024, 1000, 4),
        vec![(0, 250), (250, 500), (500, 750), (750, 1000)]
    );
    // Several: token by token.
    assert_eq!(matmul_ranges(3, 1024, 512, 4), vec![(0, 512), (512, 1024), (1024, 1536)]);
    assert_eq!(matmul_ranges(1, 1024, 1000, 1), vec![(0, 1000)]);
    assert_eq!(matmul_ranges(0, 1024, 1000, 4), vec![]);
}

#[test]
fn worker_count_is_capped() {
    assert_eq!(default_threads(Some(4)), 4);
    assert_eq!(default_threads(Some(64)), 8);
    assert_eq!(default_threads(None), 1);
}
