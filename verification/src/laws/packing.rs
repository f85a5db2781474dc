//! Laws of stored weights.
use crate::arith::{Arith, Op};
use crate::bytes::signed;
use crate::float_bits::widened;
use crate::kernels::quant::QuantMatrix;
use crate::model::config::Precision;
use crate::model::gguf::{element_count, is_matrix, is_tensor};
use crate::model::gguf_format::GgufView;
use crate::model::weights::Linear;
use vstd::prelude::*;

verus! {

/// Byte `i` of tensor `name`.
pub open spec fn stored_byte(g: GgufView, name: Seq<char>, i: int) -> u8 {
    g.data[g.data_start + g.tensors[name].offset + i]
}

/// A tensor of eight-bit blocks: 34 bytes for every 32 values.
pub open spec fn is_q8(g: GgufView, name: Seq<char>) -> bool {
    &&& g.tensors.dom().contains(name)
    &&& g.tensors[name].ggml_type == 8
    &&& element_count(g.tensors[name].dims) % 32 == 0
    &&& g.data_start >= 0
}

/// Value `j` of block `b` of an eight-bit tensor is made of three bytes of that block:
/// its code, a two's complement number, times the half that the block starts with.
pub proof fn law_q8_value(ar: Arith, g: GgufView, name: Seq<char>, out: Seq<u32>, b: int, j: int)
    requires
        is_q8(g, name),
        is_tensor(ar, g, name, out),
        0 <= b,
        0 <= j < 32,
        32 * b + j < out.len(),
    ensures
        out[32 * b + j] == ar(
            Op::Mul,
            ar(
                Op::Integer,
                (if stored_byte(g, name, 34 * b + 2 + j) < 128 {
                    stored_byte(g, name, 34 * b + 2 + j) as int
                } else {
                    stored_byte(g, name, 34 * b + 2 + j) + 0xffff_ff00
                }) as u32,
                0,
            ),
            widened(
                (stored_byte(g, name, 34 * b) + 256 * stored_byte(g, name, 34 * b + 1)) as u16,
            ),
        ),
{
    let i = 32 * b + j;
    assert(i / 32 == b && i % 32 == j);
    let start = g.data_start + g.tensors[name].offset;
    assert(out[i] == out[i]);
    let byte = stored_byte(g, name, 34 * b + 2 + j) as int;
    let code = signed(byte, 0x80);
    assert(code % 0x1_0000_0000 == (if byte < 128 {
        byte
    } else {
        byte + 0xffff_ff00
    }));
}

/// Eight-bit blocks stand alone: two blocks of the same bytes, in whatever files and at
/// whatever places, have the same values.
pub proof fn law_q8_blocks_stand_alone(
    ar: Arith,
    g: GgufView,
    name: Seq<char>,
    out: Seq<u32>,
    b: int,
    other: GgufView,
    other_name: Seq<char>,
    other_out: Seq<u32>,
    other_b: int,
    j: int,
)
    requires
        is_q8(g, name),
        is_tensor(ar, g, name, out),
        is_q8(other, other_name),
        is_tensor(ar, other, other_name, other_out),
        0 <= b,
        0 <= other_b,
        0 <= j < 32,
        32 * b + j < out.len(),
        32 * other_b + j < other_out.len(),
        forall|i: int|
            0 <= i < 34 ==> #[trigger] stored_byte(g, name, 34 * b + i) == stored_byte(
                other,
                other_name,
                34 * other_b + i,
            ),
    ensures
        out[32 * b + j] == other_out[32 * other_b + j],
{
    law_q8_value(ar, g, name, out, b, j);
    law_q8_value(ar, other, other_name, other_out, other_b, j);
    assert(stored_byte(g, name, 34 * b + 0) == stored_byte(other, other_name, 34 * other_b + 0));
    assert(stored_byte(g, name, 34 * b + 1) == stored_byte(other, other_name, 34 * other_b + 1));
    assert(stored_byte(g, name, 34 * b + (2 + j)) == stored_byte(
        other,
        other_name,
        34 * other_b + (2 + j),
    ));
    assert(34 * b + (2 + j) == 34 * b + 2 + j);
    assert(34 * other_b + (2 + j) == 34 * other_b + 2 + j);
}

/// A matrix that is kept in its eight-bit blocks has the values that the tensor is read
/// as: code times scale, block by block.
pub proof fn law_q8_matrix_is_the_tensor(
    ar: Arith,
    g: GgufView,
    name: Seq<char>,
    precision: Precision,
    m: QuantMatrix,
    out: Seq<u32>,
    i: int,
)
    requires
        is_q8(g, name),
        g.tensors[name].dims.len() == 2,
        g.tensors[name].dims[0] as int % 32 == 0,
        is_matrix(ar, g, name, precision, Linear::Q8(m)),
        is_tensor(ar, g, name, out),
        0 <= i < m.q@.len(),
        i < out.len(),
    ensures
        out[i] == ar(
            Op::Mul,
            ar(Op::Integer, (m.q@[i] as int % 0x1_0000_0000) as u32, 0),
            m.scales@[i / 32],
        ),
{
    assert(m.wf());
    assert(out[i] == out[i] && m.q@[i] == m.q@[i]);
    assert(0 <= i / 32 < m.scales@.len());
    assert(m.scales@[i / 32] == m.scales@[i / 32]);
}

} // verus!
