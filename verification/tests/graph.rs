use prana::arith::Op;
use prana::graph::{Graph, GraphError};
use prana::kernels::matmul::matmul_f32;
use prana::kernels::quant::quantize_q8;
use prana::kernels::rope::rope;
use prana::tensor::dtype::DType;
use prana::tensor::owned::Tensor;

fn calc(op: Op, a: u32, b: u32) -> u32 {
    let (x, y) = (f32::from_bits(a), f32::from_bits(b));
    let r = match op {
        Op::Add => x + y,
        Op::Sub => x - y,
        Op::Mul => x * y,
        Op::Div => x / y,
        Op::Max => x.max(y),
        Op::Pow => x.powf(y),
        Op::Neg => -x,
        Op::Sqrt => x.sqrt(),
        Op::Exp => x.exp(),
        Op::Tanh => x.tanh(),
        Op::Sin => x.sin(),
        Op::Cos => x.cos(),
        Op::Code => return x.round().clamp(-127.0, 127.0) as i8 as i32 as u32,
        Op::Natural => (((a as u64) << 32) | b as u64) as f32,
        Op::Integer => a as i32 as f32,
    };
    r.to_bits()
}

fn bits(values: &[f32]) -> Vec<u32> {
    values.iter().map(|v| v.to_bits()).collect()
}

fn floats(values: &[u32]) -> Vec<f32> {
    values.iter().map(|&v| f32::from_bits(v)).collect()
}

#[test]
fn runs_a_tiny_block() {
    // x -> rmsnorm -> matmul -> add(residual) -> softmax
    let dim = 32;
    let mut g = Graph::new();
    let x = g.input(1);

    let norm_w = vec![1.0f32; dim];
    let n = g.rmsnorm(x, bits(&norm_w), dim, 1e-5f32.to_bits());

    let w: Vec<f32> = (0..dim * dim).map(|i| (i as f32 * 0.001).sin()).collect();
    let proj = g.matmul_f32(n, bits(&w), dim, dim);

    let res = g.add(proj, x);
    let out = g.softmax(res);

    g.set_input(x, Tensor::from_f32(vec![1, dim], &bits(&vec![0.5f32; dim])));
    g.execute(&calc).unwrap();

    let probs = floats(&g.output_f32(out).unwrap());
    assert_eq!(probs.len(), dim);
    assert!((probs.iter().sum::<f32>() - 1.0).abs() < 1e-5);
}

#[test]
fn quantized_matmul_node_works() {
    let dim = 32;
    let mut g = Graph::new();
    let x = g.input(1);
    let w: Vec<f32> = (0..dim * dim).map(|i| (i as f32 * 0.002).cos()).collect();
    let qm = quantize_q8(dim, dim, &bits(&w), &calc);
    let y = g.matmul_q8(x, qm);
    g.set_input(x, Tensor::from_f32(vec![1, dim], &bits(&vec![0.25f32; dim])));
    g.execute(&calc).unwrap();
    assert_eq!(g.output_f32(y).unwrap().len(), dim);
}

#[test]
fn runs_an_attention_block() {
    // seq=4, 2 heads, head_dim=8 -> feature width 16. q/k/v come from three
    // projections of the same input; rope on q and k; then causal attention.
    let seq = 4;
    let n_heads = 2;
    let head_dim = 8;
    let width = n_heads * head_dim;

    let mut g = Graph::new();
    let x = g.input(seq);

    let proj = |seed: f32| -> Vec<u32> {
        (0..width * width).map(|i| (i as f32 * seed).sin().to_bits()).collect()
    };
    let q0 = g.matmul_f32(x, proj(0.001), width, width);
    let k0 = g.matmul_f32(x, proj(0.002), width, width);
    let v0 = g.matmul_f32(x, proj(0.003), width, width);
    let q = g.rope(q0, n_heads, head_dim, 10000f32.to_bits());
    let k = g.rope(k0, n_heads, head_dim, 10000f32.to_bits());
    let attn = g.attention(q, k, v0, n_heads, n_heads, head_dim);
    let out = g.add(attn, x); // residual

    let input: Vec<f32> = (0..seq * width).map(|i| (i as f32 * 0.02).cos()).collect();
    g.set_input(x, Tensor::from_f32(vec![seq, width], &bits(&input)));
    assert!(g.is_sound());
    g.execute(&calc).unwrap();

    let y = floats(&g.output_f32(out).unwrap());
    assert_eq!(y.len(), seq * width);
    assert!(y.iter().all(|v| v.is_finite()));
    // The nodes hold what the kernels give.
    let mut want = matmul_f32(&bits(&input), &proj(0.001), seq, width, width, &calc);
    assert_eq!(g.output_f32(q0).unwrap(), want);
    rope(&mut want, seq, n_heads, head_dim, 10000f32.to_bits(), &calc);
    assert_eq!(g.output_f32(q).unwrap(), want);
}

#[test]
fn unset_input_is_an_error_not_a_crash() {
    let mut g = Graph::new();
    let x = g.input(1);
    let y = g.rmsnorm(x, bits(&[1.0; 4]), 4, 1e-5f32.to_bits());
    // Never bound x -> execute returns a typed error rather than UB.
    assert_eq!(g.execute(&calc), Err(GraphError::UnsetInput(x)));
    let _ = y;
}

#[test]
fn running_twice_changes_nothing() {
    let mut g = Graph::new();
    let x = g.input(1);
    let y = g.add(x, x);
    g.set_input(x, Tensor::from_f32(vec![1, 3], &bits(&[1.0, 2.0, 4.0])));
    g.execute(&calc).unwrap();
    assert_eq!(floats(&g.output_f32(y).unwrap()), vec![2.0, 4.0, 8.0]);
    // A node that has a value keeps it, even when an input is bound anew.
    g.set_input(x, Tensor::from_f32(vec![1, 3], &bits(&[0.0; 3])));
    g.execute(&calc).unwrap();
    assert_eq!(floats(&g.output_f32(y).unwrap()), vec![2.0, 4.0, 8.0]);
}

#[test]
fn shapes_are_checked() {
    let mut g = Graph::new();
    let a = g.input(1);
    let b = g.input(1);
    let _ = g.add(a, b);
    g.set_input(a, Tensor::from_f32(vec![1, 2], &bits(&[1.0, 2.0])));
    g.set_input(b, Tensor::from_f32(vec![1, 3], &bits(&[1.0; 3])));
    assert_eq!(g.execute(&calc), Err(GraphError::ShapeMismatch { what: "add" }));

    let mut g = Graph::new();
    let x = g.input(2);
    let _ = g.matmul_f32(x, bits(&[1.0; 6]), 3, 2);
    g.set_input(x, Tensor::from_f32(vec![1, 3], &bits(&[1.0; 3])));
    assert_eq!(g.execute(&calc), Err(GraphError::ShapeMismatch { what: "matmul_f32 input" }));
}

#[test]
fn values_that_are_not_singles_are_refused() {
    let mut g = Graph::new();
    let x = g.input(1);
    let _ = g.softmax(x);
    g.set_input(x, Tensor::zeros(vec![1, 4], DType::I8));
    assert_eq!(g.execute(&calc), Err(GraphError::NotF32));
    assert_eq!(g.output_f32(x), Err(GraphError::NotF32));
}

#[test]
fn unsound_graphs_are_told_apart() {
    let mut g = Graph::new();
    let x = g.input(1);
    // Weights that are too few for their shape.
    let _ = g.matmul_f32(x, bits(&[1.0; 5]), 3, 2);
    assert!(!g.is_sound());
    // A handle of a larger graph.
    let mut small = Graph::new();
    let _ = small.input(1);
    let y = {
        let mut other = Graph::new();
        let _ = other.input(1);
        other.input(1)
    };
    assert!(small.is_sound());
    let _ = small.softmax(y);
    assert!(small.is_sound());
    let z = {
        let mut other = Graph::new();
        for _ in 0..9 {
            let _ = other.input(1);
        }
        other.input(1)
    };
    let _ = small.softmax(z);
    assert!(!small.is_sound());
}

#[test]
fn parameters_matter_only_where_shapes_fit() {
    // Weights too short for their shape, behind an input that was never bound.
    let mut g = Graph::new();
    let x = g.input(1);
    let _ = g.matmul_f32(x, bits(&[1.0; 5]), 3, 2);
    assert!(!g.is_sound());
    assert_eq!(g.execute(&calc), Err(GraphError::UnsetInput(x)));
    // The same, on a row of another width.
    g.set_input(x, Tensor::from_f32(vec![1, 2], &bits(&[1.0, 2.0])));
    assert_eq!(g.execute(&calc), Err(GraphError::ShapeMismatch { what: "matmul_f32 input" }));
    // An odd head width, and heads too wide to multiply up.
    let mut g = Graph::new();
    let x = g.input(1);
    let _ = g.rope(x, 1, 3, 10000f32.to_bits());
    g.set_input(x, Tensor::from_f32(vec![1, 4], &bits(&[1.0; 4])));
    assert_eq!(g.execute(&calc), Err(GraphError::ShapeMismatch { what: "rope input" }));
    let mut g = Graph::new();
    let x = g.input(1);
    let _ = g.rope(x, usize::MAX, 2, 10000f32.to_bits());
    g.set_input(x, Tensor::from_f32(vec![1, 4], &bits(&[1.0; 4])));
    assert_eq!(g.execute(&calc), Err(GraphError::ShapeMismatch { what: "rope input" }));
    // Heads that do not divide.
    let mut g = Graph::new();
    let x = g.input(1);
    let _ = g.attention(x, x, x, 3, 2, 2);
    g.set_input(x, Tensor::from_f32(vec![1, 6], &bits(&[1.0; 6])));
    assert_eq!(g.execute(&calc), Err(GraphError::ShapeMismatch { what: "attention qkv" }));
    // Too few norm weights, for a width that does not divide the values.
    let mut g = Graph::new();
    let x = g.input(1);
    let _ = g.rmsnorm(x, bits(&[1.0]), 3, 1e-5f32.to_bits());
    g.set_input(x, Tensor::from_f32(vec![1, 4], &bits(&[1.0; 4])));
    assert_eq!(g.execute(&calc), Err(GraphError::ShapeMismatch { what: "rmsnorm dim" }));
}

#[test]
fn nodes_behind_a_failing_one_are_not_reached() {
    let mut g = Graph::new();
    let x = g.input(1);
    let y = g.input(1);
    let bad = g.add(x, y);
    let _ = g.matmul_f32(x, bits(&[1.0; 5]), 3, 2);
    g.set_input(x, Tensor::from_f32(vec![1, 3], &bits(&[1.0; 3])));
    g.set_input(y, Tensor::from_f32(vec![1, 2], &bits(&[1.0; 2])));
    assert_eq!(g.execute(&calc), Err(GraphError::ShapeMismatch { what: "add" }));
    assert_eq!(g.output_f32(bad), Err(GraphError::UnsetInput(bad)));
}
