//! Element and storage precision of a tensor.
use vstd::prelude::*;

verus! {

/// Element / storage precision. A quantized type carries its block size, so a
/// `DType` alone fixes packed byte sizes.
#[derive(Debug, Clone, Copy, PartialEq, Eq, Structural, Hash)]
pub enum DType {
    /// IEEE-754 single precision.
    F32,
    /// 8-bit signed integer.
    I8,
    /// Block-quantized: `block` int8 values, then one single-precision scale.
    Q8 { block: usize },
}

/// How many groups of `unit` it takes to hold `n`: the full ones, and one more
/// for a remainder.
pub open spec fn groups(n: int, unit: int) -> int {
    n / unit + (if n % unit == 0 {
        0int
    } else {
        1
    })
}

impl DType {
    /// Bytes that `n` elements take.
    pub open spec fn packed(self, n: int) -> int {
        match self {
            DType::F32 => 4 * n,
            DType::I8 => n,
            DType::Q8 { block } => groups(n, block as int) * (block + 4),
        }
    }

    /// A block must hold something, and a block with its scale must be addressable.
    pub open spec fn wf(self) -> bool {
        self matches DType::Q8 { block } ==> 0 < block && block + 4 <= usize::MAX
    }

    /// Number of bytes needed to store `n_elems` logical elements.
    pub fn packed_bytes(self, n_elems: usize) -> (n: usize)
        requires
            self.wf(),
            self.packed(n_elems as int) <= usize::MAX,
        ensures
            n == self.packed(n_elems as int),
    {
        match self {
            DType::F32 => n_elems * 4,
            DType::I8 => n_elems,
            DType::Q8 { block } => {
                let full: usize = n_elems / block;
                let rest: usize = n_elems % block;
                if rest == 0 {
                    full * (block + 4)
                } else {
                    proof {
                        assert((full + 1) * (block + 4) >= full + 1) by (nonlinear_arith)
                            requires
                                full >= 0,
                                block >= 0,
                        ;
                    }
                    (full + 1) * (block + 4)
                }
            },
        }
    }

    /// Whether this type stores dense, directly addressable scalars.
    pub fn is_dense(self) -> (b: bool)
        ensures
            b == !(self is Q8),
    {
        match self {
            DType::Q8 { .. } => false,
            _ => true,
        }
    }
}

} // verus!
