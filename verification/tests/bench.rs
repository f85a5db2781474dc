use prana::arith::Op;
use prana::bench::{largest_difference, problem, rms, sample_q40, wave_of};
use prana::demo::{build, demo};
use prana::kernels::attention::attention;
use prana::kernels::kquant::{KQuantKind, KQuantMatrix};
use prana::kernels::matmul::{kquant_outputs, matmul_f32, matmul_kquant_team};
use prana::kernels::norms::rmsnorm;
use prana::kernels::quant::{dequantize_q8, quantize_acts};
use prana::kernels::rope::rope;

fn calc(op: Op, a: u32, b: u32) -> u32 {
    let (x, y) = (f32::from_bits(a), f32::from_bits(b));
    let r = match op {
        Op::Add => x + y,
        Op::Sub => x - y,
        Op::Mul => x * y,
        Op::Div => x / y,
        Op::Max => x.max(y),
        Op::Pow => x.powf(y),
        Op::Neg => -x,
        Op::Sqrt => x.sqrt(),
        Op::Exp => x.exp(),
        Op::Tanh => x.tanh(),
        Op::Sin => x.sin(),
        Op::Cos => x.cos(),
        Op::Code => return x.round().clamp(-127.0, 127.0) as i8 as i32 as u32,
        Op::Natural => (((a as u64) << 32) | b as u64) as f32,
        Op::Integer => a as i32 as f32,
    };
    r.to_bits()
}

fn bits(values: &[f32]) -> Vec<u32> {
    values.iter().map(|v| v.to_bits()).collect()
}

fn floats(values: &[u32]) -> Vec<f32> {
    values.iter().map(|&v| f32::from_bits(v)).collect()
}

#[test]
fn waves_are_sampled_in_single_precision() {
    let a = floats(&wave_of(Op::Sin, 0.001f32.to_bits(), 50, &calc));
    let want: Vec<f32> = (0..50).map(|i| (i as f32 * 0.001).sin()).collect();
    assert_eq!(a, want);
}

#[test]
fn the_problem_is_the_one_that_is_timed() {
    let p = problem(64, 5, &calc);
    let a: Vec<f32> = (0..64).map(|i| (i as f32 * 0.001).sin()).collect();
    let w: Vec<f32> = (0..5 * 64).map(|i| (i as f32 * 0.0007).cos()).collect();
    assert_eq!(floats(&p.a), a);
    assert_eq!(floats(&p.w), w);
    assert_eq!((p.q8.rows, p.q8.cols), (5, 64));
    let near = floats(&dequantize_q8(&p.q8, &calc));
    assert!(near.iter().zip(&w).all(|(x, y)| (x - y).abs() < 0.01));
    assert_eq!((p.q40.rows, p.q40.cols, p.q40.kind()), (5, 64, KQuantKind::Q40));
    assert_eq!(p.q40.stored_bytes(), 10 * 18);

    let acc = p.accuracy(&calc);
    let (max_err, rms, rel) =
        (f32::from_bits(acc.max_err), f32::from_bits(acc.rms), f32::from_bits(acc.rel_err));
    assert!(max_err > 0.0 && rel < 0.02, "{max_err} of {rms}");
    assert_eq!(rel, max_err / rms);
}

#[test]
fn sample_blocks_have_a_scale_and_a_pattern() {
    let raw = sample_q40(300);
    assert_eq!(raw.len(), 300 * 18);
    for (i, b) in raw.chunks_exact(18).enumerate() {
        assert_eq!(b[..2], 0x2e66u16.to_le_bytes());
        for (j, q) in b[2..].iter().enumerate() {
            assert_eq!(*q, ((i * 31 + j * 7) % 256) as u8);
        }
    }
}

#[test]
fn errors_are_measured_by_magnitude() {
    let a = bits(&[1.0, -2.0, 3.0, f32::NAN]);
    let b = bits(&[1.5, 1.0, 3.0, 0.0, 9.0]);
    assert_eq!(f32::from_bits(largest_difference(&a, &b, &calc)), 3.0);
    assert_eq!(largest_difference(&[], &b, &calc), 0);
    assert_eq!(f32::from_bits(rms(&bits(&[3.0, 4.0, 0.0, 0.0]), &calc)), 2.5);
}

#[test]
fn the_demo_runs_a_transformer_block() {
    let y = demo(&calc).unwrap();
    assert_eq!(y.len(), 8 * 64);
    assert!(floats(&y).iter().all(|v| v.is_finite()));

    // The same block, kernel by kernel.
    let mat = |rows: usize, cols: usize, seed: f32| -> Vec<u32> {
        bits(&(0..rows * cols).map(|i| (i as f32 * seed).sin() * 0.1).collect::<Vec<f32>>())
    };
    let x = bits(&(0..8 * 64).map(|i| (i as f32 * 0.01).sin()).collect::<Vec<f32>>());
    let ones = bits(&[1.0; 64]);
    let (eps, theta) = (1e-5f32.to_bits(), 10000f32.to_bits());
    let add = |a: &[u32], b: &[u32]| -> Vec<u32> {
        a.iter().zip(b).map(|(p, q)| calc(Op::Add, *p, *q)).collect()
    };
    let n1 = rmsnorm(&x, &ones, 8, 64, eps, &calc);
    let mut q = matmul_f32(&n1, &mat(64, 64, 0.0011), 8, 64, 64, &calc);
    let mut k = matmul_f32(&n1, &mat(32, 64, 0.0013), 8, 64, 32, &calc);
    let v = matmul_f32(&n1, &mat(32, 64, 0.0017), 8, 64, 32, &calc);
    rope(&mut q, 8, 4, 16, theta, &calc);
    rope(&mut k, 8, 2, 16, theta, &calc);
    let attn = attention(&q, &k, &v, 8, 4, 2, 16, &calc);
    let res = add(&matmul_f32(&attn, &mat(64, 64, 0.0019), 8, 64, 64, &calc), &x);
    let n2 = rmsnorm(&res, &ones, 8, 64, eps, &calc);
    let up = matmul_f32(&n2, &mat(128, 64, 0.0007), 8, 64, 128, &calc);
    let down = matmul_f32(&up, &mat(64, 128, 0.0009), 8, 128, 64, &calc);
    assert_eq!(y, add(&down, &res));

    let (g, _, _) = build(&calc);
    assert!(g.is_sound());
}

#[test]
fn a_team_fills_in_packed_products() {
    let m = KQuantMatrix::from_raw(70, 64, KQuantKind::Q40, sample_q40(140));
    let x = wave_of(Op::Cos, 0.02f32.to_bits(), 64, &calc);
    let acts = quantize_acts(&x, &calc);
    let mut out = vec![5u32; 72];
    matmul_kquant_team(3, &acts, &m, &mut out, &calc);
    assert_eq!(out[..70], kquant_outputs(&acts, &m, &calc));
    assert_eq!(out[70..], [5, 5]);
}
