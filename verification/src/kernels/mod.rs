//! Compute kernels: quantized block formats, matrix products, attention and
//! the scheduling of parallel work.
pub mod attention;
pub mod kquant;
pub mod matmul;
pub mod native_dot;
pub mod norms;
pub mod pool;
pub mod quant;
pub mod rope;
pub mod rows;
pub mod simd;
pub mod team;
pub mod team_walk;
pub mod threading;
