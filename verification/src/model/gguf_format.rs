//! The GGUF container: metadata, tensor directory and data section.
//!
//! The layout of a file is given as functions from its bytes, from an offset
//! to what stands there and where it ends. The reader below computes exactly
//! those functions.
use crate::bytes::{
    copy_window, read_u16, read_u32, read_u64, signed, to_i16, to_i32, to_i64, to_i8, u16_at, u32_at, u64_at, window,
};
use crate::text::utf8_lossy;
use vstd::arithmetic::power2::pow2;
use vstd::prelude::*;

verus! {

/// "GGUF", little-endian.
pub const MAGIC: u32 = 0x4655_4747;

/// Why a file cannot be used.
#[derive(Debug)]
pub enum GgufError {
    Truncated,
    BadMagic,
    UnsupportedVersion(u32),
    UnsupportedValueType(u32),
    MissingTensor(String),
    /// Tensor data lies outside the file.
    OutOfRange,
    /// A tensor of the given type is not a whole number of blocks.
    NotBlockAligned(String, u32),
    UnsupportedType(String, u32),
    NotTwoDimensional(String),
    MissingMetadata(String),
    UnsupportedArchitecture(String),
    /// There are not as many scores as tokens.
    ScoreMismatch,
    /// The embedding table does not have one row per vocabulary entry.
    EmbeddingMismatch,
    /// The attention heads do not fit together.
    BadHeads,
}

/// A `GgufError` by what it says.
pub enum ErrorView {
    Truncated,
    BadMagic,
    UnsupportedVersion(u32),
    UnsupportedValueType(u32),
    MissingTensor(Seq<char>),
    OutOfRange,
    NotBlockAligned(Seq<char>, u32),
    UnsupportedType(Seq<char>, u32),
    NotTwoDimensional(Seq<char>),
    MissingMetadata(Seq<char>),
    UnsupportedArchitecture(Seq<char>),
    ScoreMismatch,
    EmbeddingMismatch,
    BadHeads,
}

impl View for GgufError {
    type V = ErrorView;

    open spec fn view(&self) -> ErrorView {
        match self {
            GgufError::Truncated => ErrorView::Truncated,
            GgufError::BadMagic => ErrorView::BadMagic,
            GgufError::UnsupportedVersion(v) => ErrorView::UnsupportedVersion(*v),
            GgufError::UnsupportedValueType(t) => ErrorView::UnsupportedValueType(*t),
            GgufError::MissingTensor(n) => ErrorView::MissingTensor(n@),
            GgufError::OutOfRange => ErrorView::OutOfRange,
            GgufError::NotBlockAligned(n, t) => ErrorView::NotBlockAligned(n@, *t),
            GgufError::UnsupportedType(n, t) => ErrorView::UnsupportedType(n@, *t),
            GgufError::NotTwoDimensional(n) => ErrorView::NotTwoDimensional(n@),
            GgufError::MissingMetadata(k) => ErrorView::MissingMetadata(k@),
            GgufError::UnsupportedArchitecture(a) => ErrorView::UnsupportedArchitecture(a@),
            GgufError::ScoreMismatch => ErrorView::ScoreMismatch,
            GgufError::EmbeddingMismatch => ErrorView::EmbeddingMismatch,
            GgufError::BadHeads => ErrorView::BadHeads,
        }
    }
}

/// A parsed metadata value. Real numbers are held as their bits.
#[derive(Debug)]
pub enum Value {
    U8(u8),
    I8(i8),
    U16(u16),
    I16(i16),
    U32(u32),
    I32(i32),
    F32(u32),
    Bool(bool),
    Str(Vec<u8>),
    Arr(Vec<Value>),
    U64(u64),
    I64(i64),
    F64(u64),
}

/// What a metadata value is.
pub enum ValueView {
    U8(u8),
    I8(i8),
    U16(u16),
    I16(i16),
    U32(u32),
    I32(i32),
    F32(u32),
    Bool(bool),
    Str(Seq<u8>),
    Arr(Seq<ValueView>),
    U64(u64),
    I64(i64),
    F64(u64),
}

pub open spec fn value_view(v: Value) -> ValueView
    decreases v,
{
    match v {
        Value::U8(x) => ValueView::U8(x),
        Value::I8(x) => ValueView::I8(x),
        Value::U16(x) => ValueView::U16(x),
        Value::I16(x) => ValueView::I16(x),
        Value::U32(x) => ValueView::U32(x),
        Value::I32(x) => ValueView::I32(x),
        Value::F32(x) => ValueView::F32(x),
        Value::Bool(x) => ValueView::Bool(x),
        Value::Str(s) => ValueView::Str(s@),
        Value::Arr(items) => ValueView::Arr(
            Seq::new(
                items@.len(),
                |i: int|
                    if 0 <= i < items@.len() {
                        value_view(items@[i])
                    } else {
                        arbitrary()
                    },
            ),
        ),
        Value::U64(x) => ValueView::U64(x),
        Value::I64(x) => ValueView::I64(x),
        Value::F64(x) => ValueView::F64(x),
    }
}

impl View for Value {
    type V = ValueView;

    open spec fn view(&self) -> ValueView {
        value_view(*self)
    }
}

/// What some metadata values are.
pub open spec fn value_views(items: Seq<Value>) -> Seq<ValueView> {
    Seq::new(items.len(), |i: int| items[i]@)
}

pub(crate) proof fn lemma_array_view(items: Vec<Value>)
    ensures
        Value::Arr(items)@ == ValueView::Arr(value_views(items@)),
{
    let s = value_view(Value::Arr(items))->Arr_0;
    assert(s =~= value_views(items@));
}

/// A fixed-size item of `n` bytes.
pub open spec fn fixed(data: Seq<u8>, off: int, n: int, v: ValueView) -> Result<
    (ValueView, int),
    GgufError,
> {
    if off + n <= data.len() {
        Ok((v, off + n))
    } else {
        Err(GgufError::Truncated)
    }
}

/// A string: its length, then its bytes.
pub open spec fn string_at(data: Seq<u8>, off: int) -> Result<(Seq<u8>, int), GgufError> {
    if off + 8 <= data.len() && off + 8 + u64_at(data, off) <= data.len() {
        let n = u64_at(data, off) as int;
        Ok((window(data, off + 8, n), off + 8 + n))
    } else {
        Err(GgufError::Truncated)
    }
}

/// The value of type `ty` at `off`.
pub open spec fn value_at(data: Seq<u8>, off: int, ty: u32) -> Result<(ValueView, int), GgufError>
    decreases data.len() - off, 0nat,
{
    if off < 0 || off > data.len() {
        Err(GgufError::Truncated)
    } else if ty == 0 {
        fixed(data, off, 1, ValueView::U8(data[off]))
    } else if ty == 1 {
        fixed(data, off, 1, ValueView::I8(signed(data[off] as int, 0x80) as i8))
    } else if ty == 2 {
        fixed(data, off, 2, ValueView::U16(u16_at(data, off)))
    } else if ty == 3 {
        fixed(data, off, 2, ValueView::I16(signed(u16_at(data, off) as int, 0x8000) as i16))
    } else if ty == 4 {
        fixed(data, off, 4, ValueView::U32(u32_at(data, off)))
    } else if ty == 5 {
        fixed(data, off, 4, ValueView::I32(signed(u32_at(data, off) as int, 0x8000_0000) as i32))
    } else if ty == 6 {
        fixed(data, off, 4, ValueView::F32(u32_at(data, off)))
    } else if ty == 7 {
        fixed(data, off, 1, ValueView::Bool(data[off] != 0))
    } else if ty == 8 {
        match string_at(data, off) {
            Ok((s, end)) => Ok((ValueView::Str(s), end)),
            Err(e) => Err(e),
        }
    } else if ty == 9 {
        if off + 12 <= data.len() {
            match items_at(data, off + 12, u32_at(data, off), u64_at(data, off + 4) as nat) {
                Ok((items, end)) => Ok((ValueView::Arr(items), end)),
                Err(e) => Err(e),
            }
        } else {
            Err(GgufError::Truncated)
        }
    } else if ty == 10 {
        fixed(data, off, 8, ValueView::U64(u64_at(data, off)))
    } else if ty == 11 {
        fixed(
            data,
            off,
            8,
            ValueView::I64(signed(u64_at(data, off) as int, 0x8000_0000_0000_0000) as i64),
        )
    } else if ty == 12 {
        fixed(data, off, 8, ValueView::F64(u64_at(data, off)))
    } else {
        Err(GgufError::UnsupportedValueType(ty))
    }
}

/// `count` values of type `ty`, one after the other from `off` on.
pub open spec fn items_at(data: Seq<u8>, off: int, ty: u32, count: nat) -> Result<
    (Seq<ValueView>, int),
    GgufError,
>
    decreases data.len() - off, count + 1,
{
    if count == 0 {
        Ok((seq![], off))
    } else {
        match items_at(data, off, ty, (count - 1) as nat) {
            Ok((items, at)) => if off <= at <= data.len() {
                match value_at(data, at, ty) {
                    Ok((v, end)) => Ok((items.push(v), end)),
                    Err(e) => Err(e),
                }
            } else {
                Err(GgufError::Truncated)
            },
            Err(e) => Err(e),
        }
    }
}

/// Once an item cannot be read, more of them cannot either.
proof fn lemma_items_stay_failed(data: Seq<u8>, off: int, ty: u32, k: nat, n: nat)
    requires
        k <= n,
        items_at(data, off, ty, k) is Err,
    ensures
        items_at(data, off, ty, n) == items_at(data, off, ty, k),
    decreases n,
{
    if k < n {
        lemma_items_stay_failed(data, off, ty, k, (n - 1) as nat);
    }
}

/// One entry of the tensor directory.
#[derive(Debug)]
pub struct TensorInfo {
    /// The first dimension is the contiguous one.
    pub dims: Vec<u64>,
    pub ggml_type: u32,
    pub offset: u64,
}

/// What a directory entry is.
pub struct TensorInfoView {
    pub dims: Seq<u64>,
    pub ggml_type: u32,
    pub offset: u64,
}

impl View for TensorInfo {
    type V = TensorInfoView;

    open spec fn view(&self) -> TensorInfoView {
        TensorInfoView { dims: self.dims@, ggml_type: self.ggml_type, offset: self.offset }
    }
}

/// A key and its value from `off` on.
pub open spec fn pair_at(data: Seq<u8>, off: int) -> Result<
    (Seq<char>, ValueView, int),
    GgufError,
> {
    match string_at(data, off) {
        Err(e) => Err(e),
        Ok((key, p)) => if p + 4 > data.len() {
            Err(GgufError::Truncated)
        } else {
            match value_at(data, p + 4, u32_at(data, p)) {
                Err(e) => Err(e),
                Ok((v, end)) => Ok((utf8_lossy(key), v, end)),
            }
        },
    }
}

/// `n` key-value pairs from `off` on. A later key replaces an equal earlier one.
pub open spec fn metadata_at(data: Seq<u8>, off: int, n: nat) -> Result<
    (Map<Seq<char>, ValueView>, int),
    GgufError,
>
    decreases n,
{
    if n == 0 {
        Ok((Map::empty(), off))
    } else {
        match metadata_at(data, off, (n - 1) as nat) {
            Err(e) => Err(e),
            Ok((m, o)) => match pair_at(data, o) {
                Err(e) => Err(e),
                Ok((key, v, end)) => Ok((m.insert(key, v), end)),
            },
        }
    }
}

/// `n` dimensions from `off` on.
pub open spec fn dims_at(data: Seq<u8>, off: int, n: int) -> Seq<u64> {
    Seq::new(n as nat, |i: int| u64_at(data, off + 8 * i))
}

/// A directory entry behind its name: the dimensions, the type, the offset.
pub open spec fn info_at(data: Seq<u8>, off: int) -> Result<(TensorInfoView, int), GgufError> {
    if off + 4 > data.len() {
        Err(GgufError::Truncated)
    } else {
        let n = u32_at(data, off) as int;
        let end = off + 4 + 8 * n;
        if end + 12 > data.len() {
            Err(GgufError::Truncated)
        } else {
            Ok(
                (
                    TensorInfoView {
                        dims: dims_at(data, off + 4, n),
                        ggml_type: u32_at(data, end),
                        offset: u64_at(data, end + 4),
                    },
                    end + 12,
                ),
            )
        }
    }
}

/// A name and its directory entry from `off` on.
pub open spec fn entry_at(data: Seq<u8>, off: int) -> Result<
    (Seq<char>, TensorInfoView, int),
    GgufError,
> {
    match string_at(data, off) {
        Err(e) => Err(e),
        Ok((name, p)) => match info_at(data, p) {
            Err(e) => Err(e),
            Ok((info, end)) => Ok((utf8_lossy(name), info, end)),
        },
    }
}

/// `n` named directory entries from `off` on, later names replacing earlier ones.
pub open spec fn tensors_at(data: Seq<u8>, off: int, n: nat) -> Result<
    (Map<Seq<char>, TensorInfoView>, int),
    GgufError,
>
    decreases n,
{
    if n == 0 {
        Ok((Map::empty(), off))
    } else {
        match tensors_at(data, off, (n - 1) as nat) {
            Err(e) => Err(e),
            Ok((m, o)) => match entry_at(data, o) {
                Err(e) => Err(e),
                Ok((name, info, end)) => Ok((m.insert(name, info), end)),
            },
        }
    }
}

pub(crate) proof fn lemma_metadata_stays_failed(data: Seq<u8>, off: int, k: nat, n: nat)
    requires
        k <= n,
        metadata_at(data, off, k) is Err,
    ensures
        metadata_at(data, off, n) == metadata_at(data, off, k),
    decreases n,
{
    if k < n {
        lemma_metadata_stays_failed(data, off, k, (n - 1) as nat);
    }
}

pub(crate) proof fn lemma_tensors_stay_failed(data: Seq<u8>, off: int, k: nat, n: nat)
    requires
        k <= n,
        tensors_at(data, off, k) is Err,
    ensures
        tensors_at(data, off, n) == tensors_at(data, off, k),
    decreases n,
{
    if k < n {
        lemma_tensors_stay_failed(data, off, k, (n - 1) as nat);
    }
}

/// A whole number that fits the machine.
pub open spec fn as_index(v: ValueView) -> Option<int> {
    let n = match v {
        ValueView::U8(x) => x as int,
        ValueView::U16(x) => x as int,
        ValueView::U32(x) => x as int,
        ValueView::U64(x) => x as int,
        ValueView::I8(x) => x as int,
        ValueView::I16(x) => x as int,
        ValueView::I32(x) => x as int,
        ValueView::I64(x) => x as int,
        _ => -1,
    };
    if 0 <= n <= usize::MAX {
        Some(n)
    } else {
        None
    }
}

pub open spec fn is_power_of_two(n: int) -> bool {
    exists|k: nat| n == #[trigger] pow2(k)
}

/// Alignment of the data section: the one asked for, if it is a power of two, else 32.
pub open spec fn alignment_of(metadata: Map<Seq<char>, ValueView>) -> int {
    if metadata.dom().contains("general.alignment"@) {
        match as_index(metadata["general.alignment"@]) {
            Some(a) => if is_power_of_two(a) {
                a
            } else {
                32
            },
            None => 32,
        }
    } else {
        32
    }
}

/// `n` rounded up to a multiple of `unit`.
pub open spec fn round_up_to(n: int, unit: int) -> int {
    crate::tensor::dtype::groups(n, unit) * unit
}

/// What a file says: metadata, directory, and where its data section starts.
pub struct GgufView {
    pub metadata: Map<Seq<char>, ValueView>,
    pub tensors: Map<Seq<char>, TensorInfoView>,
    pub data: Seq<u8>,
    pub data_start: int,
}

/// What the bytes of a file say, or what is wrong with them.
pub open spec fn parse(data: Seq<u8>) -> Result<GgufView, GgufError> {
    if data.len() < 4 {
        Err(GgufError::Truncated)
    } else if u32_at(data, 0) != MAGIC {
        Err(GgufError::BadMagic)
    } else if data.len() < 8 {
        Err(GgufError::Truncated)
    } else if u32_at(data, 4) < 2 || u32_at(data, 4) > 3 {
        Err(GgufError::UnsupportedVersion(u32_at(data, 4)))
    } else if data.len() < 24 {
        Err(GgufError::Truncated)
    } else {
        match metadata_at(data, 24, u64_at(data, 16) as nat) {
            Err(e) => Err(e),
            Ok((metadata, o)) => match tensors_at(data, o, u64_at(data, 8) as nat) {
                Err(e) => Err(e),
                Ok((tensors, end)) => Ok(
                    GgufView {
                        metadata,
                        tensors,
                        data,
                        data_start: round_up_to(end, alignment_of(metadata)),
                    },
                ),
            },
        }
    }
}

/// A position in a file.
pub struct Reader<'a> {
    pub data: &'a [u8],
    pub off: usize,
}

impl<'a> Reader<'a> {
    pub open spec fn wf(&self) -> bool {
        self.off <= self.data.len()
    }

    /// Step over `n` bytes, giving the position where they start.
    pub fn bytes(&mut self, n: u64) -> (r: Result<usize, GgufError>)
        requires
            old(self).wf(),
        ensures
            final(self).wf(),
            final(self).data == old(self).data,
            r is Ok <==> old(self).off + n <= old(self).data@.len(),
            r matches Ok(start) ==> start == old(self).off && final(self).off == old(self).off + n,
            r matches Err(e) ==> e == GgufError::Truncated && final(self).off == old(self).off,
    {
        let left: usize = self.data.len() - self.off;
        if n > left as u64 {
            return Err(GgufError::Truncated);
        }
        let start: usize = self.off;
        self.off = self.off + n as usize;
        Ok(start)
    }

    /// The next 32-bit number.
    pub fn u32(&mut self) -> (r: Result<u32, GgufError>)
        requires
            old(self).wf(),
        ensures
            final(self).wf(),
            final(self).data == old(self).data,
            r is Ok <==> old(self).off + 4 <= old(self).data@.len(),
            r matches Ok(v) ==> v == u32_at(old(self).data@, old(self).off as int)
                && final(self).off == old(self).off + 4,
            r matches Err(e) ==> e == GgufError::Truncated && final(self).off == old(self).off,
    {
        let at: usize = self.bytes(4)?;
        Ok(read_u32(self.data, at))
    }

    /// The next 64-bit number.
    pub fn u64(&mut self) -> (r: Result<u64, GgufError>)
        requires
            old(self).wf(),
        ensures
            final(self).wf(),
            final(self).data == old(self).data,
            r is Ok <==> old(self).off + 8 <= old(self).data@.len(),
            r matches Ok(v) ==> v == u64_at(old(self).data@, old(self).off as int)
                && final(self).off == old(self).off + 8,
            r matches Err(e) ==> e == GgufError::Truncated && final(self).off == old(self).off,
    {
        let at: usize = self.bytes(8)?;
        Ok(read_u64(self.data, at))
    }

    /// The next string. Where the string itself is cut off, its length has been read.
    pub fn str_(&mut self) -> (r: Result<Vec<u8>, GgufError>)
        requires
            old(self).wf(),
        ensures
            final(self).wf(),
            final(self).data == old(self).data,
            match string_at(old(self).data@, old(self).off as int) {
                Ok((s, end)) => r matches Ok(v) && v@ == s && final(self).off == end,
                Err(e) => r matches Err(x) && x == e && final(self).off == (if old(self).off + 8
                    <= old(self).data@.len() {
                    old(self).off + 8
                } else {
                    old(self).off as int
                }),
            },
    {
        let n: u64 = self.u64()?;
        let at: usize = self.bytes(n)?;
        Ok(copy_window(self.data, at, n as usize))
    }

    /// The next value, of type `ty`.
    pub fn value(&mut self, ty: u32) -> (r: Result<Value, GgufError>)
        requires
            old(self).wf(),
        ensures
            final(self).wf(),
            final(self).data == old(self).data,
            match value_at(old(self).data@, old(self).off as int, ty) {
                Ok((v, end)) => r matches Ok(x) && x@ == v && final(self).off == end,
                Err(e) => r matches Err(x) && x == e,
            },
            final(self).off >= old(self).off,
        decreases old(self).data@.len() - old(self).off,
    {
        match ty {
            0 => {
                let at: usize = self.bytes(1)?;
                Ok(Value::U8(self.data[at]))
            },
            1 => {
                let at: usize = self.bytes(1)?;
                Ok(Value::I8(to_i8(self.data[at])))
            },
            2 => {
                let at: usize = self.bytes(2)?;
                Ok(Value::U16(read_u16(self.data, at)))
            },
            3 => {
                let at: usize = self.bytes(2)?;
                Ok(Value::I16(to_i16(read_u16(self.data, at))))
            },
            4 => {
                let v: u32 = self.u32()?;
                Ok(Value::U32(v))
            },
            5 => {
                let v: u32 = self.u32()?;
                Ok(Value::I32(to_i32(v)))
            },
            6 => {
                let v: u32 = self.u32()?;
                Ok(Value::F32(v))
            },
            7 => {
                let at: usize = self.bytes(1)?;
                Ok(Value::Bool(self.data[at] != 0))
            },
            8 => {
                let s = self.str_()?;
                Ok(Value::Str(s))
            },
            9 => {
                let elem_ty: u32 = self.u32()?;
                let count: u64 = self.u64()?;
                let ghost start = self.off as int;
                let ghost d = self.data@;
                let mut items: Vec<Value> = Vec::new();
                let mut k: u64 = 0;
                proof {
                    assert(value_views(items@) =~= seq![]);
                }
                while k < count
                    invariant
                        self.wf(),
                        self.data == old(self).data,
                        d == self.data@,
                        ty == 9,
                        start == old(self).off + 12,
                        start <= self.off,
                        elem_ty == u32_at(d, start - 12),
                        count == u64_at(d, start - 8),
                        k <= count,
                        items_at(d, start, elem_ty, k as nat) == Ok::<
                            (Seq<ValueView>, int),
                            GgufError,
                        >((value_views(items@), self.off as int)),
                    decreases count - k,
                {
                    let ghost before = items@;
                    let ghost at = self.off as int;
                    match self.value(elem_ty) {
                        Ok(v) => {
                            items.push(v);
                            proof {
                                assert(value_views(items@) =~= value_views(before).push(v@));
                            }
                        },
                        Err(e) => {
                            proof {
                                assert(value_at(d, at, elem_ty) == Err::<
                                    (ValueView, int),
                                    GgufError,
                                >(e));
                                assert(items_at(d, start, elem_ty, (k + 1) as nat) == Err::<
                                    (Seq<ValueView>, int),
                                    GgufError,
                                >(e));
                                lemma_items_stay_failed(
                                    d,
                                    start,
                                    elem_ty,
                                    (k + 1) as nat,
                                    count as nat,
                                );
                            }
                            return Err(e);
                        },
                    }
                    k += 1;
                }
                proof {
                    lemma_array_view(items);
                }
                Ok(Value::Arr(items))
            },
            10 => {
                let v: u64 = self.u64()?;
                Ok(Value::U64(v))
            },
            11 => {
                let v: u64 = self.u64()?;
                Ok(Value::I64(to_i64(v)))
            },
            12 => {
                let v: u64 = self.u64()?;
                Ok(Value::F64(v))
            },
            _ => Err(GgufError::UnsupportedValueType(ty)),
        }
    }
}

} // verus!
