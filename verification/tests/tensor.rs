use prana::tensor::{BufferPool, DType, Tensor};

fn bits(values: &[f32]) -> Vec<u32> {
    values.iter().map(|v| v.to_bits()).collect()
}

#[test]
fn packed_sizes() {
    assert_eq!(DType::F32.packed_bytes(10), 40);
    assert_eq!(DType::I8.packed_bytes(10), 10);
    // 10 elems, block 4 -> 3 blocks -> 3 * (4 + 4) = 24 bytes.
    assert_eq!(DType::Q8 { block: 4 }.packed_bytes(10), 24);
    // exact multiple: 8 elems, block 4 -> 2 blocks -> 16 bytes.
    assert_eq!(DType::Q8 { block: 4 }.packed_bytes(8), 16);
}

#[test]
fn only_block_types_are_not_dense() {
    assert!(DType::F32.is_dense());
    assert!(DType::I8.is_dense());
    assert!(!DType::Q8 { block: 32 }.is_dense());
}

#[test]
fn recycles_same_bucket() {
    let mut pool = BufferPool::new();
    let a = pool.acquire(2000);
    assert_eq!(a.len(), 2048);
    assert_eq!(pool.active_bytes(), 2048);
    pool.release(a);
    assert_eq!(pool.active_bytes(), 0);
    assert_eq!(pool.pooled_bytes(), 2048);
    // Second acquire of the same bucket must reuse, not grow the pool.
    let b = pool.acquire(1500);
    assert_eq!(b.len(), 2048);
    assert_eq!(pool.pooled_bytes(), 0);
    assert_eq!(pool.peak_bytes(), 2048);
}

#[test]
fn zero_is_free() {
    let mut pool = BufferPool::new();
    assert!(pool.acquire(0).is_empty());
}

#[test]
fn buckets_are_powers_of_two_from_one_kilobyte() {
    assert_eq!(BufferPool::round_up(1), 1024);
    assert_eq!(BufferPool::round_up(1024), 1024);
    assert_eq!(BufferPool::round_up(1025), 2048);
    assert_eq!(BufferPool::round_up(2048), 2048);
    assert_eq!(BufferPool::round_up(5000), 8192);
    assert_eq!(BufferPool::round_up(0), 1024);
    // The largest power of two is a bucket, too.
    let top = usize::MAX / 2 + 1;
    assert_eq!(BufferPool::round_up(top), top);
    assert_eq!(BufferPool::round_up(top - 1), top);
}

#[test]
fn active_bytes_are_those_outstanding_and_the_peak_their_maximum() {
    let mut pool = BufferPool::new();
    let mut out: Vec<Vec<u8>> = Vec::new();
    let mut peak = 0;
    for step in 0..40usize {
        match step % 5 {
            0 | 1 | 3 => out.push(pool.acquire(700 * (step + 1))),
            2 => pool.release(out.remove(step / 3 % out.len())),
            _ => {
                pool.clear();
                assert_eq!(pool.pooled_bytes(), 0);
            }
        }
        let active: usize = out.iter().map(|b| b.len()).sum();
        peak = peak.max(active);
        assert_eq!((pool.active_bytes(), pool.peak_bytes()), (active, peak));
    }
    while let Some(buf) = out.pop() {
        pool.release(buf);
    }
    assert_eq!((pool.active_bytes(), pool.peak_bytes()), (0, peak));
}

#[test]
fn a_recycled_buffer_comes_back_zeroed() {
    let mut pool = BufferPool::new();
    let mut a = pool.acquire(100);
    a[3] = 7;
    pool.release(a);
    let b = pool.acquire(200);
    assert!(b.iter().all(|&x| x == 0));
}

#[test]
fn a_foreign_buffer_does_not_drive_the_active_count_below_zero() {
    let mut pool = BufferPool::new();
    pool.release(vec![0u8; 4096]);
    assert_eq!(pool.active_bytes(), 0);
    assert_eq!(pool.pooled_bytes(), 4096);
    pool.release(Vec::new());
    assert_eq!(pool.pooled_bytes(), 4096);
    pool.clear();
    assert_eq!(pool.pooled_bytes(), 0);
    assert_eq!(pool.peak_bytes(), 0);
    // It is taken off what is checked out, and leaves the peak as it was.
    let a = pool.acquire(8192);
    pool.release(vec![0u8; 2048]);
    assert_eq!((pool.active_bytes(), pool.peak_bytes()), (6144, 8192));
    let b = pool.acquire(1024);
    assert_eq!((pool.active_bytes(), pool.peak_bytes()), (7168, 8192));
    assert_eq!((a.len(), b.len()), (8192, 1024));
}

#[test]
fn roundtrip_f32() {
    let t = Tensor::from_f32(vec![2, 2], &bits(&[1.0, 2.0, 3.0, 4.0]));
    assert_eq!(t.numel(), 4);
    assert_eq!(t.as_f32().unwrap(), bits(&[1.0, 2.0, 3.0, 4.0]));
    assert_eq!(t.bytes()[0..4], 1.0f32.to_ne_bytes());
    assert_eq!(t.shape(), &[2, 2]);
    assert_eq!(t.dtype(), DType::F32);
}

#[test]
fn zeros_has_correct_byte_len() {
    let t = Tensor::zeros(vec![3, 4], DType::Q8 { block: 4 });
    // 12 elems / block 4 = 3 blocks * (4 + 4) = 24 bytes.
    assert_eq!(t.bytes().len(), 24);
}

#[test]
fn writing_bytes_changes_the_values() {
    let mut t = Tensor::zeros(vec![2], DType::F32);
    t.bytes_mut()[4..8].copy_from_slice(&2.5f32.to_ne_bytes());
    assert_eq!(t.as_f32().unwrap(), bits(&[0.0, 2.5]));
    assert!(Tensor::zeros(vec![2], DType::I8).as_f32().is_none());
}
