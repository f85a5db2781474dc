//! Tensors: element types, owned storage and the recycling buffer pool.
pub mod buffer_pool;
pub mod dtype;
pub mod owned;

pub use buffer_pool::BufferPool;
pub use dtype::DType;
pub use owned::{Shape, Tensor};
