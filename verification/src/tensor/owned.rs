//! An owned, contiguous tensor of any element type.
use super::dtype::DType;
use vstd::endian::{endianness, Endian};
use vstd::prelude::*;

verus! {

/// A list of dimensions.
pub type Shape = Vec<usize>;

/// The number of elements of a shape.
pub open spec fn elements(shape: Seq<usize>) -> int
    decreases shape.len(),
{
    if shape.len() == 0 {
        1
    } else {
        elements(shape.drop_last()) * shape.last()
    }
}

/// Multiplying the dimensions up, left to right, stays within a `usize`.
pub open spec fn countable(shape: Seq<usize>) -> bool {
    forall|k: int| 0 <= k <= shape.len() ==> #[trigger] elements(shape.take(k)) <= usize::MAX
}

/// Number of elements of `shape`.
pub fn element_count(shape: &Vec<usize>) -> (n: usize)
    requires
        countable(shape@),
    ensures
        n == elements(shape@),
{
    let mut n: usize = 1;
    let mut i: usize = 0;
    while i < shape.len()
        invariant
            countable(shape@),
            i <= shape.len(),
            n == elements(shape@.take(i as int)),
        decreases shape.len() - i,
    {
        proof {
            assert(shape@.take(i + 1).drop_last() =~= shape@.take(i as int));
            assert(elements(shape@.take(i + 1)) <= usize::MAX);
        }
        n = n * shape[i];
        i += 1;
    }
    proof {
        assert(shape@.take(i as int) =~= shape@);
    }
    n
}

/// The four bytes of `x`, in the byte order of the running machine.
pub open spec fn native_bytes(x: u32) -> Seq<u8> {
    let little = seq![
        (x % 256) as u8,
        (x / 256 % 256) as u8,
        (x / 65536 % 256) as u8,
        (x / 16777216) as u8,
    ];
    if endianness() == Endian::Little {
        little
    } else {
        little.reverse()
    }
}

/// `u32::to_ne_bytes`: the bytes of a number in the machine's own order.
#[verifier::external_body]
fn to_native_bytes(x: u32) -> (b: [u8; 4])
    ensures
        b@ == native_bytes(x),
{
    x.to_ne_bytes()
}

/// `u32::from_ne_bytes`: the number whose bytes, in the machine's own order,
/// are the ones given.
#[verifier::external_body]
fn from_native_bytes(b: [u8; 4]) -> (x: u32)
    ensures
        native_bytes(x) == b@,
{
    u32::from_ne_bytes(b)
}

/// Different numbers have different bytes.
proof fn lemma_native_bytes_injective(x: u32, y: u32)
    requires
        native_bytes(x) == native_bytes(y),
    ensures
        x == y,
{
    let a = native_bytes(x);
    let b = native_bytes(y);
    assert(a[0] == b[0] && a[1] == b[1] && a[2] == b[2] && a[3] == b[3]);
}

/// What a tensor is: its dimensions, element type and packed bytes.
pub struct TensorView {
    pub shape: Seq<usize>,
    pub dtype: DType,
    pub data: Seq<u8>,
}

/// An owned, contiguous tensor. The payload is raw bytes with a `DType` that
/// says how to read them.
#[derive(Debug)]
pub struct Tensor {
    shape: Shape,
    dtype: DType,
    data: Vec<u8>,
}

impl View for Tensor {
    type V = TensorView;

    closed spec fn view(&self) -> TensorView {
        TensorView { shape: self.shape@, dtype: self.dtype, data: self.data@ }
    }
}

impl TensorView {
    /// The payload is exactly as long as shape and element type ask.
    pub open spec fn wf(self) -> bool {
        &&& countable(self.shape)
        &&& self.dtype.wf()
        &&& self.data.len() == self.dtype.packed(elements(self.shape))
    }

    /// Word `i` of a single-precision payload.
    pub open spec fn word(self, i: int) -> Seq<u8> {
        self.data.subrange(4 * i, 4 * i + 4)
    }
}

/// The single-precision tensor of the given shape and bit patterns.
pub open spec fn is_f32_tensor(t: TensorView, shape: Seq<usize>, values: Seq<u32>) -> bool {
    &&& t.shape == shape
    &&& t.dtype == DType::F32
    &&& t.data.len() == 4 * values.len()
    &&& forall|i: int| 0 <= i < values.len() ==> #[trigger] t.word(i) == native_bytes(values[i])
}

/// The single-precision tensor of the given shape and bit patterns.
pub open spec fn f32_tensor(shape: Seq<usize>, values: Seq<u32>) -> TensorView {
    TensorView {
        shape,
        dtype: DType::F32,
        data: Seq::new(4 * values.len(), |i: int| native_bytes(values[i / 4])[i % 4]),
    }
}

/// The bit patterns that a single-precision tensor holds.
pub open spec fn f32_values(t: TensorView) -> Seq<u32> {
    choose|values: Seq<u32>| is_f32_tensor(t, t.shape, values)
}

/// Shape and bit patterns determine the tensor.
pub proof fn law_f32_tensor_is_unique(t: TensorView, shape: Seq<usize>, values: Seq<u32>)
    ensures
        is_f32_tensor(t, shape, values) <==> t == f32_tensor(shape, values),
        is_f32_tensor(t, shape, values) ==> f32_values(t) == values,
{
    let u = f32_tensor(shape, values);
    assert forall|i: int| 0 <= i < values.len() implies #[trigger] u.word(i) == native_bytes(
        values[i],
    ) by {
        assert(u.word(i) =~= native_bytes(values[i]));
    }
    if is_f32_tensor(t, shape, values) {
        assert forall|i: int| 0 <= i < t.data.len() implies t.data[i] == u.data[i] by {
            assert(t.word(i / 4) == native_bytes(values[i / 4]));
            assert(t.word(i / 4)[i % 4] == t.data[i]);
        }
        assert(t.data =~= u.data);
        law_f32_round_trip(t, values, f32_values(t));
    }
}

/// Reading a single-precision payload gives back what was stored.
pub proof fn law_f32_round_trip(t: TensorView, stored: Seq<u32>, read: Seq<u32>)
    requires
        is_f32_tensor(t, t.shape, stored),
        is_f32_tensor(t, t.shape, read),
    ensures
        read == stored,
{
    assert forall|i: int| 0 <= i < read.len() implies read[i] == stored[i] by {
        assert(t.word(i) == native_bytes(read[i]));
        lemma_native_bytes_injective(read[i], stored[i]);
    }
    assert(read =~= stored);
}

impl Tensor {
    /// Allocate a zeroed tensor of the given shape and element type.
    pub fn zeros(shape: Shape, dtype: DType) -> (t: Self)
        requires
            countable(shape@),
            dtype.wf(),
            dtype.packed(elements(shape@)) <= isize::MAX,
        ensures
            t@.wf(),
            t@.shape == shape@,
            t@.dtype == dtype,
            t@.data == Seq::new(dtype.packed(elements(shape@)) as nat, |i: int| 0u8),
    {
        let n: usize = element_count(&shape);
        let bytes: usize = dtype.packed_bytes(n);
        let data: Vec<u8> = vec![0u8; bytes];
        Tensor { shape, dtype, data }
    }

    /// Build a single-precision tensor from the bit patterns of its values, of
    /// which there must be as many as the shape has elements.
    pub fn from_f32(shape: Shape, values: &[u32]) -> (t: Self)
        requires
            countable(shape@),
            elements(shape@) == values.len(),
        ensures
            t@.wf(),
            is_f32_tensor(t@, shape@, values@),
            t@ == f32_tensor(shape@, values@),
    {
        let mut data: Vec<u8> = Vec::new();
        let mut i: usize = 0;
        while i < values.len()
            invariant
                i <= values.len(),
                data.len() == 4 * i,
                forall|j: int|
                    0 <= j < i ==> #[trigger] data@.subrange(4 * j, 4 * j + 4) == native_bytes(
                        values[j],
                    ),
            decreases values.len() - i,
        {
            let word: [u8; 4] = to_native_bytes(values[i]);
            let ghost before = data@;
            data.push(word[0]);
            data.push(word[1]);
            data.push(word[2]);
            data.push(word[3]);
            proof {
                assert(data@.subrange(4 * i, 4 * i + 4) =~= word@);
                assert forall|j: int| 0 <= j < i implies #[trigger] data@.subrange(4 * j, 4 * j + 4)
                    == native_bytes(values[j]) by {
                    assert(data@.subrange(4 * j, 4 * j + 4) =~= before.subrange(4 * j, 4 * j + 4));
                }
            }
            i += 1;
        }
        let t = Tensor { shape, dtype: DType::F32, data };
        proof {
            assert forall|j: int| 0 <= j < values.len() implies #[trigger] t@.word(j)
                == native_bytes(values[j]) by {
                assert(t@.word(j) == data@.subrange(4 * j, 4 * j + 4));
            }
        }
        proof {
            law_f32_tensor_is_unique(t@, shape@, values@);
        }
        t
    }

    pub fn shape(&self) -> (s: &[usize])
        ensures
            s@ == self@.shape,
    {
        self.shape.as_slice()
    }

    pub fn dtype(&self) -> (d: DType)
        ensures
            d == self@.dtype,
    {
        self.dtype
    }

    /// Total number of logical elements.
    pub fn numel(&self) -> (n: usize)
        requires
            countable(self@.shape),
        ensures
            n == elements(self@.shape),
    {
        element_count(&self.shape)
    }

    /// Raw packed bytes.
    pub fn bytes(&self) -> (b: &[u8])
        ensures
            b@ == self@.data,
    {
        self.data.as_slice()
    }

    /// Raw packed bytes, writable in place.
    pub fn bytes_mut(&mut self) -> (b: &mut [u8])
        ensures
            b@ == old(self)@.data,
            final(self)@ == (TensorView { data: final(b)@, ..old(self)@ }),
    {
        self.data.as_mut_slice()
    }

    /// The payload as single-precision bit patterns, or `None` for any other
    /// element type.
    pub fn as_f32(&self) -> (r: Option<Vec<u32>>)
        requires
            self@.wf(),
        ensures
            r is Some <==> self@.dtype == DType::F32,
            r matches Some(values) ==> is_f32_tensor(self@, self@.shape, values@) && values@
                == f32_values(self@),
    {
        if self.dtype != DType::F32 {
            return None;
        }
        let n: usize = self.data.len() / 4;
        let mut out: Vec<u32> = Vec::new();
        let mut i: usize = 0;
        while i < n
            invariant
                n == self.data.len() / 4,
                self@.data == self.data@,
                i <= n,
                out.len() == i,
                forall|j: int| 0 <= j < i ==> #[trigger] self@.word(j) == native_bytes(out[j]),
            decreases n - i,
        {
            let b: [u8; 4] = [
                self.data[4 * i],
                self.data[4 * i + 1],
                self.data[4 * i + 2],
                self.data[4 * i + 3],
            ];
            proof {
                assert(self@.word(i as int) =~= b@);
            }
            out.push(from_native_bytes(b));
            i += 1;
        }
        proof {
            assert(is_f32_tensor(self@, self@.shape, out@));
            law_f32_round_trip(self@, f32_values(self@), out@);
        }
        Some(out)
    }
}

} // verus!
