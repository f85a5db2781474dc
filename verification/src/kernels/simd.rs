//! Which instruction sets a machine offers for dot products.
use vstd::prelude::*;

verus! {

/// The instruction sets that dot products can use.
#[derive(Debug, Clone, Copy, PartialEq, Eq, Structural)]
pub enum Tier {
    Scalar,
    /// AVX2 and FMA.
    Avx2,
    /// AVX2, FMA and AVX-VNNI.
    Vnni,
}

/// The vector tier needs AVX2 and FMA.
pub fn available(avx2: bool, fma: bool) -> (b: bool)
    ensures
        b == (avx2 && fma),
{
    avx2 && fma
}

/// Its variant with fused integer products also needs AVX-VNNI.
pub fn available_vnni(avx2: bool, fma: bool, vnni: bool) -> (b: bool)
    ensures
        b == (avx2 && fma && vnni),
{
    available(avx2, fma) && vnni
}

impl Tier {
    /// The best tier that a machine offers.
    pub fn best(avx2: bool, fma: bool, vnni: bool) -> (t: Self)
        ensures
            t == (if avx2 && fma && vnni {
                Tier::Vnni
            } else if avx2 && fma {
                Tier::Avx2
            } else {
                Tier::Scalar
            }),
    {
        if available_vnni(avx2, fma, vnni) {
            Tier::Vnni
        } else if available(avx2, fma) {
            Tier::Avx2
        } else {
            Tier::Scalar
        }
    }

    pub open spec fn text(self) -> Seq<char> {
        match self {
            Tier::Scalar => "scalar"@,
            Tier::Avx2 => "AVX2+FMA"@,
            Tier::Vnni => "AVX2+FMA+AVX-VNNI"@,
        }
    }

    /// The tier's name.
    pub fn name(self) -> (s: &'static str)
        ensures
            s@ == self.text(),
    {
        match self {
            Tier::Scalar => "scalar",
            Tier::Avx2 => "AVX2+FMA",
            Tier::Vnni => "AVX2+FMA+AVX-VNNI",
        }
    }
}

} // verus!
