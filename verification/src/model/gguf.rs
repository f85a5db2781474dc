//! GGUF files: metadata, tensors, and loading a model from them.
use crate::double_bits::{f64_to_f32, narrowed};
use crate::model::gguf_format::{
    alignment_of, as_index, dims_at, entry_at, info_at, is_power_of_two, metadata_at, pair_at, parse, round_up_to, tensors_at,
    ErrorView, GgufError, GgufView, Reader, TensorInfo, TensorInfoView, Value, ValueView, MAGIC,
};
use crate::arith::{arith, from_i32, integer, is_arith, Arith, Op};
use crate::bytes::{copy_window, read_u16, read_words, signed, to_i8, u16_at, u32_at, window, words_at};
use crate::float_bits::{f16_to_f32, widened};
use crate::kernels::kquant::{dequant_blocks, dequantized, KQuantKind, KQuantMatrix};
use crate::kernels::quant::QuantMatrix;
use crate::model::config::Precision;
use crate::model::weights::{is_linear, Linear};
use crate::text::from_utf8_lossy;
use vstd::arithmetic::power2::{lemma_pow2_strictly_increases, lemma_pow2_unfold, pow2};
use vstd::hash_map::StringHashMap;
use vstd::prelude::*;

verus! {

/// A metadata value as a single, if it is a real number.
pub open spec fn as_single(v: ValueView) -> Option<u32> {
    match v {
        ValueView::F32(x) => Some(x),
        ValueView::F64(x) => Some(narrowed(x)),
        _ => None,
    }
}

impl Value {
    /// The value as a whole number that fits the machine.
    pub fn as_usize(&self) -> (r: Option<usize>)
        ensures
            r is Some <==> as_index(self@) is Some,
            r matches Some(n) ==> as_index(self@) == Some(n as int),
    {
        match self {
            Value::U8(v) => Some(*v as usize),
            Value::U16(v) => Some(*v as usize),
            Value::U32(v) => Some(*v as usize),
            Value::U64(v) => if *v <= usize::MAX as u64 {
                Some(*v as usize)
            } else {
                None
            },
            Value::I8(v) => if *v >= 0 {
                Some(*v as usize)
            } else {
                None
            },
            Value::I16(v) => if *v >= 0 {
                Some(*v as usize)
            } else {
                None
            },
            Value::I32(v) => if *v >= 0 {
                Some(*v as usize)
            } else {
                None
            },
            Value::I64(v) => if *v >= 0 && *v as u64 <= usize::MAX as u64 {
                Some(*v as usize)
            } else {
                None
            },
            _ => None,
        }
    }

    /// The value as a single, by its bits.
    pub fn as_f32(&self) -> (r: Option<u32>)
        ensures
            r == as_single(self@),
    {
        match self {
            Value::F32(v) => Some(*v),
            Value::F64(v) => Some(f64_to_f32(*v)),
            _ => None,
        }
    }
}

/// What a table of values holds.
pub open spec fn metadata_view(m: Map<Seq<char>, Value>) -> Map<Seq<char>, ValueView> {
    Map::new(|k: Seq<char>| m.dom().contains(k), |k: Seq<char>| m[k]@)
}

/// What a table of directory entries holds.
pub open spec fn tensors_view(m: Map<Seq<char>, TensorInfo>) -> Map<Seq<char>, TensorInfoView> {
    Map::new(|k: Seq<char>| m.dom().contains(k), |k: Seq<char>| m[k]@)
}

/// Reads `n` key-value pairs.
fn read_metadata(r: &mut Reader<'_>, n: u64) -> (out: Result<StringHashMap<Value>, GgufError>)
    requires
        old(r).wf(),
    ensures
        final(r).wf(),
        final(r).data == old(r).data,
        match metadata_at(old(r).data@, old(r).off as int, n as nat) {
            Ok((m, end)) => out matches Ok(t) && metadata_view(t@) == m && final(r).off == end,
            Err(e) => out matches Err(x) && x == e,
        },
{
    let ghost d = r.data@;
    let ghost start = r.off as int;
    let mut table: StringHashMap<Value> = StringHashMap::new();
    let mut k: u64 = 0;
    proof {
        assert(metadata_view(table@) =~= Map::empty());
    }
    while k < n
        invariant
            r.wf(),
            r.data == old(r).data,
            d == r.data@,
            start == old(r).off,
            k <= n,
            metadata_at(d, start, k as nat) == Ok::<(Map<Seq<char>, ValueView>, int), GgufError>(
                (metadata_view(table@), r.off as int),
            ),
        decreases n - k,
    {
        let ghost before = table@;
        let ghost o = r.off as int;
        let step = read_pair(r);
        match step {
            Ok((key, v)) => {
                table.insert(key, v);
                proof {
                    assert(metadata_view(table@) =~= metadata_view(before).insert(key@, v@));
                }
            },
            Err(e) => {
                proof {
                    assert(metadata_at(d, start, (k + 1) as nat) == Err::<
                        (Map<Seq<char>, ValueView>, int),
                        GgufError,
                    >(e));
                    crate::model::gguf_format::lemma_metadata_stays_failed(
                        d,
                        start,
                        (k + 1) as nat,
                        n as nat,
                    );
                }
                return Err(e);
            },
        }
        k += 1;
    }
    Ok(table)
}

/// Reads a key and its value.
fn read_pair(r: &mut Reader<'_>) -> (out: Result<(String, Value), GgufError>)
    requires
        old(r).wf(),
    ensures
        final(r).wf(),
        final(r).data == old(r).data,
        match pair_at(old(r).data@, old(r).off as int) {
            Ok((key, v, end)) => out matches Ok(p) && p.0@ == key && p.1@ == v && final(r).off
                == end,
            Err(e) => out matches Err(x) && x == e,
        },
{
    let key = r.str_()?;
    let ty: u32 = r.u32()?;
    let v = r.value(ty)?;
    Ok((from_utf8_lossy(key.as_slice()), v))
}

/// Reads a directory entry behind its name.
fn read_info(r: &mut Reader<'_>) -> (out: Result<TensorInfo, GgufError>)
    requires
        old(r).wf(),
    ensures
        final(r).wf(),
        final(r).data == old(r).data,
        match info_at(old(r).data@, old(r).off as int) {
            Ok((info, end)) => out matches Ok(i) && i@ == info && final(r).off == end,
            Err(e) => out matches Err(x) && x == e,
        },
{
    let ghost d = r.data@;
    let ghost start = r.off as int;
    let n: u32 = r.u32()?;
    let mut dims: Vec<u64> = Vec::new();
    let mut k: u32 = 0;
    while k < n
        invariant
            r.wf(),
            r.data == old(r).data,
            d == r.data@,
            start == old(r).off,
            start + 4 <= d.len(),
            n == u32_at(d, start),
            k <= n,
            r.off == start + 4 + 8 * k,
            dims@ == dims_at(d, start + 4, k as int),
        decreases n - k,
    {
        let dim: u64 = r.u64()?;
        dims.push(dim);
        proof {
            assert(dims@ =~= dims_at(d, start + 4, k + 1));
        }
        k += 1;
    }
    let ggml_type: u32 = r.u32()?;
    let offset: u64 = r.u64()?;
    Ok(TensorInfo { dims, ggml_type, offset })
}

/// Reads `n` named directory entries.
fn read_tensors(r: &mut Reader<'_>, n: u64) -> (out: Result<StringHashMap<TensorInfo>, GgufError>)
    requires
        old(r).wf(),
    ensures
        final(r).wf(),
        final(r).data == old(r).data,
        match tensors_at(old(r).data@, old(r).off as int, n as nat) {
            Ok((m, end)) => out matches Ok(t) && tensors_view(t@) == m && final(r).off == end,
            Err(e) => out matches Err(x) && x == e,
        },
{
    let ghost d = r.data@;
    let ghost start = r.off as int;
    let mut table: StringHashMap<TensorInfo> = StringHashMap::new();
    let mut k: u64 = 0;
    proof {
        assert(tensors_view(table@) =~= Map::empty());
    }
    while k < n
        invariant
            r.wf(),
            r.data == old(r).data,
            d == r.data@,
            start == old(r).off,
            k <= n,
            tensors_at(d, start, k as nat) == Ok::<(Map<Seq<char>, TensorInfoView>, int), GgufError>(
                (tensors_view(table@), r.off as int),
            ),
        decreases n - k,
    {
        let ghost before = table@;
        let ghost o = r.off as int;
        match read_entry(r) {
            Ok((name, info)) => {
                table.insert(name, info);
                proof {
                    assert(tensors_view(table@) =~= tensors_view(before).insert(name@, info@));
                }
            },
            Err(e) => {
                proof {
                    assert(tensors_at(d, start, (k + 1) as nat) == Err::<
                        (Map<Seq<char>, TensorInfoView>, int),
                        GgufError,
                    >(e));
                    crate::model::gguf_format::lemma_tensors_stay_failed(
                        d,
                        start,
                        (k + 1) as nat,
                        n as nat,
                    );
                }
                return Err(e);
            },
        }
        k += 1;
    }
    Ok(table)
}

/// Reads a name and its directory entry.
fn read_entry(r: &mut Reader<'_>) -> (out: Result<(String, TensorInfo), GgufError>)
    requires
        old(r).wf(),
    ensures
        final(r).wf(),
        final(r).data == old(r).data,
        match entry_at(old(r).data@, old(r).off as int) {
            Ok((name, info, end)) => out matches Ok(p) && p.0@ == name && p.1@ == info
                && final(r).off == end,
            Err(e) => out matches Err(x) && x == e,
        },
{
    let name = r.str_()?;
    let info = read_info(r)?;
    Ok((from_utf8_lossy(name.as_slice()), info))
}

/// Whether `n` is a power of two.
fn power_of_two(n: usize) -> (b: bool)
    ensures
        b == is_power_of_two(n as int),
{
    let mut p: u128 = 1;
    let ghost mut k: nat = 0;
    proof {
        vstd::arithmetic::power2::lemma2_to64();
    }
    while p < n as u128
        invariant
            p == pow2(k),
            p >= 1,
            k == 0 || pow2((k - 1) as nat) < n,
            p <= 0x2_0000_0000_0000_0000,
            p < 2 * n || p == 1,
        decreases 2 * n - p,
    {
        proof {
            lemma_pow2_unfold(k + 1);
            k = k + 1;
        }
        p = 2 * p;
    }
    proof {
        if p != n as u128 {
            assert forall|j: nat| n as int != #[trigger] pow2(j) by {
                if j < k {
                    if j < k - 1 {
                        lemma_pow2_strictly_increases(j, (k - 1) as nat);
                    }
                } else if j > k {
                    lemma_pow2_strictly_increases(k, j);
                }
            }
        }
    }
    p == n as u128
}

/// The parsed file: metadata, tensor directory and the raw bytes.
pub struct Gguf {
    metadata: StringHashMap<Value>,
    tensors: StringHashMap<TensorInfo>,
    data: Vec<u8>,
    data_start: u128,
}

impl View for Gguf {
    type V = GgufView;

    closed spec fn view(&self) -> GgufView {
        GgufView {
            metadata: metadata_view(self.metadata@),
            tensors: tensors_view(self.tensors@),
            data: self.data@,
            data_start: self.data_start as int,
        }
    }
}

/// Alignment of the data section.
fn alignment(metadata: &StringHashMap<Value>) -> (a: usize)
    ensures
        a == alignment_of(metadata_view(metadata@)),
        a > 0,
{
    match metadata.get("general.alignment") {
        Some(v) => match v.as_usize() {
            Some(a) => if power_of_two(a) {
                proof {
                    let k = choose|k: nat| a as int == #[trigger] pow2(k);
                    vstd::arithmetic::power2::lemma_pow2_pos(k);
                }
                a
            } else {
                32
            },
            None => 32,
        },
        None => 32,
    }
}

impl Gguf {
    /// Parse a file.
    pub fn from_bytes(data: Vec<u8>) -> (out: Result<Self, GgufError>)
        ensures
            match parse(data@) {
                Ok(v) => out matches Ok(g) && g@ == v && g.wf(),
                Err(e) => out matches Err(x) && x == e,
            },
    {
        let mut r = Reader { data: data.as_slice(), off: 0 };
        let magic: u32 = r.u32()?;
        if magic != MAGIC {
            return Err(GgufError::BadMagic);
        }
        let version: u32 = r.u32()?;
        if version < 2 || version > 3 {
            return Err(GgufError::UnsupportedVersion(version));
        }
        let n_tensors: u64 = r.u64()?;
        let n_kv: u64 = r.u64()?;
        let metadata = read_metadata(&mut r, n_kv)?;
        let tensors = read_tensors(&mut r, n_tensors)?;
        let end: u128 = r.off as u128;
        let align: u128 = alignment(&metadata) as u128;
        let full: u128 = end / align;
        let groups: u128 = if end % align == 0 {
            full
        } else {
            full + 1
        };
        proof {
            assert(full * align <= end) by (nonlinear_arith)
                requires
                    full == end / align,
                    align > 0,
            ;
            assert(groups * align <= end + align) by (nonlinear_arith)
                requires
                    full * align <= end,
                    groups <= full + 1,
                    align > 0,
            ;
            assert(round_up_to(end as int, align as int) == groups * align);
        }
        let data_start: u128 = groups * align;
        let g = Gguf { metadata, tensors, data, data_start };
        Ok(g)
    }
}

/// Storage types of tensors.
pub const GGML_F32: u32 = 0;

pub const GGML_F16: u32 = 1;

pub const GGML_Q4_0: u32 = 2;

pub const GGML_Q8_0: u32 = 8;

pub const GGML_Q4_K: u32 = 12;

pub const GGML_Q6_K: u32 = 14;

/// The packed block format of a storage type.
pub open spec fn packed_kind(t: u32) -> Option<KQuantKind> {
    if t == GGML_Q4_0 {
        Some(KQuantKind::Q40)
    } else if t == GGML_Q4_K {
        Some(KQuantKind::Q4K)
    } else if t == GGML_Q6_K {
        Some(KQuantKind::Q6K)
    } else {
        None
    }
}

fn packed_kind_of(t: u32) -> (k: Option<KQuantKind>)
    ensures
        k == packed_kind(t),
{
    if t == GGML_Q4_0 {
        Some(KQuantKind::Q40)
    } else if t == GGML_Q4_K {
        Some(KQuantKind::Q4K)
    } else if t == GGML_Q6_K {
        Some(KQuantKind::Q6K)
    } else {
        None
    }
}

/// The number of elements of a tensor.
pub open spec fn element_count(dims: Seq<u64>) -> int
    decreases dims.len(),
{
    if dims.len() == 0 {
        1
    } else {
        element_count(dims.drop_last()) * dims.last()
    }
}

/// Number of elements, or `None` where a `usize` cannot hold it.
fn count_elements(dims: &Vec<u64>) -> (n: Option<usize>)
    ensures
        n is None <==> element_count(dims@) > usize::MAX,
        n matches Some(c) ==> c == element_count(dims@),
{
    // Beyond `limit` only "too many" is kept, until a zero dimension clears it.
    let limit: u128 = 0x1_0000_0000_0000_0000;
    let mut acc: u128 = 1;
    let mut i: usize = 0;
    while i < dims.len()
        invariant
            limit == 0x1_0000_0000_0000_0000,
            i <= dims.len(),
            acc <= limit,
            element_count(dims@.take(i as int)) >= 0,
            element_count(dims@.take(i as int)) < limit ==> acc == element_count(
                dims@.take(i as int),
            ),
            element_count(dims@.take(i as int)) >= limit ==> acc == limit,
        decreases dims.len() - i,
    {
        let d: u128 = dims[i] as u128;
        let ghost c = element_count(dims@.take(i as int));
        proof {
            assert(dims@.take(i + 1).drop_last() =~= dims@.take(i as int));
            assert(element_count(dims@.take(i + 1)) == c * d);
            assert(acc * d <= 0x1_0000_0000_0000_0000 * 0xffff_ffff_ffff_ffff) by (nonlinear_arith)
                requires
                    acc <= 0x1_0000_0000_0000_0000,
                    d <= 0xffff_ffff_ffff_ffff,
            ;
            assert(c * d >= 0) by (nonlinear_arith)
                requires
                    c >= 0,
                    d >= 0,
            ;
            if c >= limit {
                assert(d == 0 ==> c * d == 0) by (nonlinear_arith);
                assert(d >= 1 ==> c * d >= c) by (nonlinear_arith)
                    requires
                        c >= 0,
                ;
                assert(d >= 1 ==> limit * d >= limit) by (nonlinear_arith)
                    requires
                        limit > 0,
                ;
            }
        }
        let next: u128 = acc * d;
        acc = if next < limit {
            next
        } else {
            limit
        };
        i += 1;
    }
    proof {
        assert(dims@.take(i as int) =~= dims@);
    }
    if acc <= usize::MAX as u128 {
        Some(acc as usize)
    } else {
        None
    }
}

/// Where `n` bytes of a tensor start in the file, if they lie within it.
pub open spec fn raw_start(g: GgufView, info: TensorInfoView, n: int) -> Option<int> {
    if g.data_start + info.offset + n <= g.data.len() {
        Some(g.data_start + info.offset)
    } else {
        None
    }
}

/// Bytes that `n` elements of storage type `t` take, or `None` for a type
/// that is not known or a number that does not fill its blocks.
pub open spec fn stored_size(t: u32, n: int) -> Option<int> {
    if t == GGML_F32 {
        Some(4 * n)
    } else if t == GGML_F16 {
        Some(2 * n)
    } else if t == GGML_Q8_0 {
        if n % 32 == 0 {
            Some(n / 32 * 34)
        } else {
            None
        }
    } else {
        match packed_kind(t) {
            Some(kind) => if n % kind.values() == 0 {
                Some(n / kind.values() * kind.bytes())
            } else {
                None
            },
            None => None,
        }
    }
}

/// What keeps a tensor from being read.
pub open spec fn tensor_error(g: GgufView, name: Seq<char>) -> Option<ErrorView> {
    if !g.tensors.dom().contains(name) {
        Some(ErrorView::MissingTensor(name))
    } else {
        let info = g.tensors[name];
        let n = element_count(info.dims);
        if n > usize::MAX {
            Some(ErrorView::OutOfRange)
        } else {
            match stored_size(info.ggml_type, n) {
                Some(size) => if raw_start(g, info, size) is Some {
                    None
                } else {
                    Some(ErrorView::OutOfRange)
                },
                None => if info.ggml_type == GGML_Q8_0 || packed_kind(info.ggml_type) is Some {
                    Some(ErrorView::NotBlockAligned(name, info.ggml_type))
                } else {
                    Some(ErrorView::UnsupportedType(name, info.ggml_type))
                },
            }
        }
    }
}

/// Code `i` of Q8_0 blocks that start at `start`: 32 codes behind each scale.
pub open spec fn q8_code(data: Seq<u8>, start: int, i: int) -> int {
    signed(data[start + i / 32 * 34 + 2 + i % 32] as int, 0x80)
}

/// Scale `b` of Q8_0 blocks that start at `start`.
pub open spec fn q8_scale(data: Seq<u8>, start: int, b: int) -> u32 {
    widened(u16_at(data, start + b * 34))
}

/// `out` is the tensor `name`, one that can be read, as singles.
pub open spec fn is_tensor(
    ar: Arith,
    g: GgufView,
    name: Seq<char>,
    out: Seq<u32>,
) -> bool {
    let info = g.tensors[name];
    let n = element_count(info.dims);
    let t = info.ggml_type;
    let start = g.data_start + info.offset;
    &&& out.len() == n
    &&& t == GGML_F32 ==> out == words_at(g.data, start, n)
    &&& t == GGML_F16 ==> forall|i: int|
        0 <= i < n ==> #[trigger] out[i] == widened(u16_at(g.data, start + 2 * i))
    &&& t == GGML_Q8_0 ==> forall|i: int|
        0 <= i < n ==> #[trigger] out[i] == ar(
            Op::Mul,
            integer(ar, q8_code(g.data, start, i) as int),
            q8_scale(g.data, start, i / 32),
        )
    &&& packed_kind(t) matches Some(kind) ==> out == dequantized(
        ar,
        kind,
        window(g.data, start, n / kind.values() * kind.bytes()),
        0,
        n / kind.values(),
    )
}

/// Reads `n` halves from `start` on, widened to singles.
fn read_halves(data: &[u8], start: usize, n: usize) -> (out: Vec<u32>)
    requires
        start + 2 * n <= data.len(),
    ensures
        out@.len() == n,
        forall|i: int|
            0 <= i < n ==> #[trigger] out@[i] == widened(u16_at(data@, start + 2 * i)),
{
    let mut out: Vec<u32> = Vec::new();
    let mut i: usize = 0;
    while i < n
        invariant
            start + 2 * n <= data.len(),
            i <= n,
            out@.len() == i,
            forall|k: int|
                0 <= k < i ==> #[trigger] out@[k] == widened(u16_at(data@, start + 2 * k)),
        decreases n - i,
    {
        out.push(f16_to_f32(read_u16(data, start + 2 * i)));
        i += 1;
    }
    out
}

/// The scales and codes of `blocks` Q8_0 blocks from `start` on.
fn read_q8(data: &[u8], start: usize, blocks: usize) -> (r: (Vec<u32>, Vec<i8>))
    requires
        start + blocks * 34 <= data.len(),
    ensures
        r.0@.len() == blocks,
        r.1@.len() == 32 * blocks,
        forall|b: int|
            0 <= b < blocks ==> #[trigger] r.0@[b] == q8_scale(data@, start as int, b),
        forall|i: int|
            0 <= i < 32 * blocks ==> #[trigger] r.1@[i] == q8_code(data@, start as int, i),
{
    let mut scales: Vec<u32> = Vec::new();
    let mut codes: Vec<i8> = Vec::new();
    let mut b: usize = 0;
    while b < blocks
        invariant
            start + blocks * 34 <= data.len(),
            b <= blocks,
            scales@.len() == b,
            codes@.len() == 32 * b,
            forall|k: int|
                0 <= k < b ==> #[trigger] scales@[k] == q8_scale(data@, start as int, k),
            forall|i: int|
                0 <= i < 32 * b ==> #[trigger] codes@[i] == q8_code(data@, start as int, i),
        decreases blocks - b,
    {
        let at: usize = start + b * 34;
        scales.push(f16_to_f32(read_u16(data, at)));
        let mut l: usize = 0;
        while l < 32
            invariant
                at == start + b * 34,
                at + 34 <= data.len(),
                l <= 32,
                codes@.len() == 32 * b + l,
                forall|i: int|
                    0 <= i < 32 * b + l ==> #[trigger] codes@[i] == q8_code(
                        data@,
                        start as int,
                        i,
                    ),
            decreases 32 - l,
        {
            codes.push(to_i8(data[at + 2 + l]));
            l += 1;
        }
        b += 1;
    }
    (scales, codes)
}

/// `q * d` for each code, with the scale of its block.
fn scale_codes<F: Fn(Op, u32, u32) -> u32>(
    scales: &Vec<u32>,
    codes: &Vec<i8>,
    calc: &F,
) -> (out: Vec<u32>)
    requires
        codes@.len() == 32 * scales@.len(),
        is_arith(*calc),
    ensures
        out@.len() == codes@.len(),
        forall|i: int|
            0 <= i < out@.len() ==> #[trigger] out@[i] == arith(*calc)(
                Op::Mul,
                integer(arith(*calc), codes@[i] as int),
                scales@[i / 32],
            ),
{
    let mut out: Vec<u32> = Vec::new();
    let mut i: usize = 0;
    while i < codes.len()
        invariant
            codes@.len() == 32 * scales@.len(),
            is_arith(*calc),
            i <= codes.len(),
            out@.len() == i,
            forall|k: int|
                0 <= k < i ==> #[trigger] out@[k] == arith(*calc)(
                    Op::Mul,
                    integer(arith(*calc), codes@[k] as int),
                    scales@[k / 32],
                ),
        decreases codes.len() - i,
    {
        let v: u32 = calc(Op::Mul, from_i32(codes[i] as i32, calc), scales[i / 32]);
        out.push(v);
        i += 1;
    }
    out
}

impl Gguf {
    /// The metadata value under `key`.
    pub fn meta(&self, key: &str) -> (v: Option<&Value>)
        ensures
            v is Some <==> self@.metadata.dom().contains(key@),
            v matches Some(x) ==> x@ == self@.metadata[key@],
    {
        self.metadata.get(key)
    }

    /// Whether the file has a tensor of that name.
    pub fn has_tensor(&self, name: &str) -> (b: bool)
        ensures
            b == self@.tensors.dom().contains(name@),
    {
        self.tensors.contains_key(name)
    }

    /// The directory entry of a tensor.
    fn info(&self, name: &str) -> (r: Result<&TensorInfo, GgufError>)
        ensures
            r is Ok <==> self@.tensors.dom().contains(name@),
            r matches Ok(i) ==> i@ == self@.tensors[name@],
            r matches Err(e) ==> e@ == ErrorView::MissingTensor(name@),
    {
        match self.tensors.get(name) {
            Some(info) => Ok(info),
            None => Err(GgufError::MissingTensor(name.to_owned())),
        }
    }

    /// Where the `bytes` bytes of a tensor start in the file.
    fn raw(&self, info: &TensorInfo, bytes: u128) -> (r: Result<usize, GgufError>)
        requires
            bytes < 0x1_0000_0000_0000_0000_0000_0000,
            self@.data_start < 0x4_0000_0000_0000_0000,
        ensures
            r is Ok <==> raw_start(self@, info@, bytes as int) is Some,
            r matches Ok(s) ==> raw_start(self@, info@, bytes as int) == Some(s as int) && s + bytes
                <= self@.data.len(),
            r matches Err(e) ==> e@ == ErrorView::OutOfRange,
    {
        let start: u128 = self.data_start + info.offset as u128;
        if start + bytes <= self.data.len() as u128 {
            Ok(start as usize)
        } else {
            Err(GgufError::OutOfRange)
        }
    }

    /// The data section starts no later than the largest alignment past the
    /// end of the directory.
    pub open spec fn wf(&self) -> bool {
        0 <= self@.data_start < 0x4_0000_0000_0000_0000
    }

    /// Read a tensor as singles, whatever its storage type.
    pub fn tensor_f32<F: Fn(Op, u32, u32) -> u32>(
        &self,
        name: &str,
        calc: &F,
    ) -> (r: Result<Vec<u32>, GgufError>)
        requires
            self.wf(),
            is_arith(*calc),
        ensures
            match tensor_error(self@, name@) {
                Some(e) => r matches Err(x) && x@ == e,
                None => r matches Ok(out) && is_tensor(arith(*calc), self@, name@, out@),
            },
    {
        let info = self.info(name)?;
        let n: usize = match count_elements(&info.dims) {
            Some(n) => n,
            None => {
                return Err(GgufError::OutOfRange);
            },
        };
        let data = self.data.as_slice();
        let t: u32 = info.ggml_type;
        if t == GGML_F32 {
            let start: usize = self.raw(info, n as u128 * 4)?;
            return Ok(read_words(data, start, n));
        }
        if t == GGML_F16 {
            let start: usize = self.raw(info, n as u128 * 2)?;
            return Ok(read_halves(data, start, n));
        }
        if t == GGML_Q8_0 {
            if n % 32 != 0 {
                return Err(GgufError::NotBlockAligned(name.to_owned(), t));
            }
            let blocks: usize = n / 32;
            let start: usize = self.raw(info, blocks as u128 * 34)?;
            let (scales, codes) = read_q8(data, start, blocks);
            return Ok(scale_codes(&scales, &codes, calc));
        }
        match packed_kind_of(t) {
            Some(kind) => {
                let values: usize = kind.block_values();
                let bytes: usize = kind.block_bytes();
                if n % values != 0 {
                    return Err(GgufError::NotBlockAligned(name.to_owned(), t));
                }
                let blocks: usize = n / values;
                proof {
                    assert(blocks * bytes <= 0xffff_ffff_ffff_ffff * 210) by (nonlinear_arith)
                        requires
                            blocks <= 0xffff_ffff_ffff_ffff,
                            0 <= bytes <= 210,
                    ;
                }
                let size: u128 = blocks as u128 * bytes as u128;
                let start: usize = self.raw(info, size)?;
                proof {
                    assert(start + size <= data.len());
                }
                let part = vstd::slice::slice_subrange(data, start, start + size as usize);
                proof {
                    let v = kind.values();
                    assert(n == blocks * v) by {
                        vstd::arithmetic::div_mod::lemma_fundamental_div_mod(n as int, v);
                        assert(v * blocks == blocks * v) by (nonlinear_arith);
                    }
                }
                Ok(dequant_blocks(kind, part, 0, blocks, calc))
            },
            None => Err(GgufError::UnsupportedType(name.to_owned(), t)),
        }
    }

    /// A metadata value as a whole number.
    pub fn meta_usize(&self, key: &str) -> (r: Result<usize, GgufError>)
        ensures
            match meta_index(self@, key@) {
                Some(n) => r matches Ok(v) && v == n,
                None => r matches Err(e) && e@ == ErrorView::MissingMetadata(key@),
            },
    {
        match self.meta(key) {
            Some(v) => match v.as_usize() {
                Some(n) => Ok(n),
                None => Err(GgufError::MissingMetadata(key.to_owned())),
            },
            None => Err(GgufError::MissingMetadata(key.to_owned())),
        }
    }
}

/// The whole number under `key`, if there is one.
pub open spec fn meta_index(g: GgufView, key: Seq<char>) -> Option<int> {
    if g.metadata.dom().contains(key) {
        as_index(g.metadata[key])
    } else {
        None
    }
}

/// What keeps a tensor from being read as a matrix.
pub open spec fn linear_error(g: GgufView, name: Seq<char>) -> Option<ErrorView> {
    if !g.tensors.dom().contains(name) {
        Some(ErrorView::MissingTensor(name))
    } else {
        let dims = g.tensors[name].dims;
        if dims.len() != 2 {
            Some(ErrorView::NotTwoDimensional(name))
        } else if dims[0] > usize::MAX || dims[1] > usize::MAX {
            Some(ErrorView::OutOfRange)
        } else {
            tensor_error(g, name)
        }
    }
}

/// `lin` is the tensor `name`, one that can be read as a matrix: Q8_0 and
/// packed blocks as they are stored, where they fill the rows, and anything
/// else as a dense matrix at the requested precision.
pub open spec fn is_matrix(
    ar: Arith,
    g: GgufView,
    name: Seq<char>,
    precision: Precision,
    lin: Linear,
) -> bool {
    let info = g.tensors[name];
    let cols = info.dims[0] as int;
    let rows = info.dims[1] as int;
    let start = g.data_start + info.offset;
    &&& lin.wf()
    &&& lin.rows() == rows
    &&& lin.cols() == cols
    &&& if info.ggml_type == GGML_Q8_0 && cols % 32 == 0 {
        lin matches Linear::Q8(m) && (forall|b: int|
            0 <= b < m.scales@.len() ==> #[trigger] m.scales@[b] == q8_scale(g.data, start, b)) && (
        forall|i: int| 0 <= i < m.q@.len() ==> #[trigger] m.q@[i] == q8_code(g.data, start, i))
    } else if packs(g, name) {
        lin matches Linear::KQuant(m) && is_packed(g, name, m)
    } else {
        exists|w: Seq<u32>| #[trigger]
            is_tensor(ar, g, name, w) && is_linear(
                ar,
                w,
                rows,
                cols,
                precision,
                lin,
            )
    }
}

/// Elements of a two-dimensional tensor.
pub proof fn lemma_two_dims(dims: Seq<u64>)
    requires
        dims.len() == 2,
    ensures
        element_count(dims) == dims[0] * dims[1],
{
    reveal_with_fuel(element_count, 3);
    let one = dims.drop_last();
    assert(one.drop_last() =~= seq![]);
    assert(element_count(one) == 1 * dims[0]);
}

/// `rows` rows of whole blocks.
proof fn lemma_whole_rows(rows: int, cols: int, unit: int)
    requires
        0 <= rows,
        0 <= cols,
        unit > 0,
        cols % unit == 0,
    ensures
        (cols * rows) % unit == 0,
        (cols * rows) / unit == rows * (cols / unit),
{
    let c = cols / unit;
    vstd::arithmetic::div_mod::lemma_fundamental_div_mod(cols, unit);
    assert(cols * rows == unit * (rows * c)) by (nonlinear_arith)
        requires
            cols == unit * c,
    ;
    vstd::arithmetic::div_mod::lemma_fundamental_div_mod_converse(
        cols * rows,
        unit,
        rows * c,
        0,
    );
}

/// A tensor that fills whole packed blocks in every row of a matrix.
pub open spec fn packs(g: GgufView, name: Seq<char>) -> bool {
    let info = g.tensors[name];
    &&& info.dims.len() == 2
    &&& info.dims[0] <= usize::MAX
    &&& info.dims[1] <= usize::MAX
    &&& packed_kind(info.ggml_type) is Some
    &&& info.dims[0] as int % packed_kind(info.ggml_type)->0.values() == 0
}

/// `m` is the tensor `name`, one that packs, in its packed form.
pub open spec fn is_packed(g: GgufView, name: Seq<char>, m: KQuantMatrix) -> bool {
    let info = g.tensors[name];
    let kind = packed_kind(info.ggml_type)->0;
    &&& m.wf()
    &&& m.kind == kind
    &&& m.cols == info.dims[0]
    &&& m.rows == info.dims[1]
    &&& m.blocks@ == window(
        g.data,
        g.data_start + info.offset,
        m.rows * (m.cols as int / kind.values()) * kind.bytes(),
    )
}

impl Gguf {
    /// Read a tensor as a packed matrix, if it is one.
    pub fn packed(&self, name: &str) -> (r: Result<Option<KQuantMatrix>, GgufError>)
        requires
            self.wf(),
        ensures
            !self@.tensors.dom().contains(name@) ==> (r matches Err(e) && e@
                == ErrorView::MissingTensor(name@)),
            self@.tensors.dom().contains(name@) && !packs(self@, name@) ==> r == Ok::<
                Option<KQuantMatrix>,
                GgufError,
            >(None),
            self@.tensors.dom().contains(name@) && packs(self@, name@) ==> match tensor_error(
                self@,
                name@,
            ) {
                Some(e) => r matches Err(x) && x@ == e,
                None => r matches Ok(Some(m)) && is_packed(self@, name@, m),
            },
    {
        let info = self.info(name)?;
        let max: u64 = usize::MAX as u64;
        if info.dims.len() != 2 || info.dims[0] > max || info.dims[1] > max {
            return Ok(None);
        }
        let kind = match packed_kind_of(info.ggml_type) {
            Some(k) => k,
            None => {
                return Ok(None);
            },
        };
        let cols: usize = info.dims[0] as usize;
        let rows: usize = info.dims[1] as usize;
        let values: usize = kind.block_values();
        if cols % values != 0 {
            return Ok(None);
        }
        let n: usize = match count_elements(&info.dims) {
            Some(n) => n,
            None => {
                return Err(GgufError::OutOfRange);
            },
        };
        proof {
            lemma_two_dims(info.dims@);
            assert(cols * rows == rows * cols) by (nonlinear_arith);
            lemma_whole_rows(rows as int, cols as int, values as int);
        }
        let bytes: usize = kind.block_bytes();
        let blocks: usize = n / values;
        proof {
            assert(blocks * bytes <= 0xffff_ffff_ffff_ffff * 210) by (nonlinear_arith)
                requires
                    blocks <= 0xffff_ffff_ffff_ffff,
                    0 <= bytes <= 210,
            ;
        }
        let size: u128 = blocks as u128 * bytes as u128;
        let start: usize = self.raw(info, size)?;
        let data = self.data.as_slice();
        proof {
            assert(start + size <= data.len());
        }
        let raw = copy_window(data, start, size as usize);
        Ok(Some(KQuantMatrix::from_raw(rows, cols, kind, raw)))
    }

    /// Read a 2-D tensor as a matrix at the requested precision. The first
    /// dimension is the contiguous one, the columns.
    pub fn linear<F: Fn(Op, u32, u32) -> u32>(
        &self,
        name: &str,
        precision: Precision,
        calc: &F,
    ) -> (r: Result<Linear, GgufError>)
        requires
            self.wf(),
            is_arith(*calc),
        ensures
            match linear_error(self@, name@) {
                Some(e) => r matches Err(x) && x@ == e,
                None => r matches Ok(lin) && lin.wf() && is_matrix(
                    arith(*calc),
                    self@,
                    name@,
                    precision,
                    lin,
                ),
            },
    {
        let info = self.info(name)?;
        if info.dims.len() != 2 {
            return Err(GgufError::NotTwoDimensional(name.to_owned()));
        }
        let max: u64 = usize::MAX as u64;
        if info.dims[0] > max || info.dims[1] > max {
            return Err(GgufError::OutOfRange);
        }
        let cols: usize = info.dims[0] as usize;
        let rows: usize = info.dims[1] as usize;
        let n: usize = match count_elements(&info.dims) {
            Some(n) => n,
            None => {
                return Err(GgufError::OutOfRange);
            },
        };
        proof {
            lemma_two_dims(info.dims@);
            assert(cols * rows == rows * cols) by (nonlinear_arith);
        }
        let data = self.data.as_slice();
        if info.ggml_type == GGML_Q8_0 && cols % 32 == 0 {
            proof {
                lemma_whole_rows(rows as int, cols as int, 32);
            }
            let blocks: usize = n / 32;
            let start: usize = self.raw(info, blocks as u128 * 34)?;
            let (scales, codes) = read_q8(data, start, blocks);
            return Ok(Linear::Q8(QuantMatrix::from_parts(rows, cols, codes, scales)));
        }
        if let Some(m) = self.packed(name)? {
            return Ok(Linear::KQuant(m));
        }
        let w = self.tensor_f32(name, calc)?;
        let ghost dense = w@;
        let lin = Linear::new(w, rows, cols, precision, calc);
        proof {
            assert(is_tensor(arith(*calc), self@, name@, dense));
        }
        Ok(lin)
    }
}

} // verus!
