//! Little-endian numbers inside byte sequences.
//!
//! Every number is given by its base-256 value, so that a reader and the
//! layout of a file can be compared digit by digit.
use vstd::prelude::*;

verus! {

/// The base-256 value of `b`, least significant byte first.
pub open spec fn le_value(b: Seq<u8>) -> int
    decreases b.len(),
{
    if b.len() == 0 {
        0
    } else {
        b[0] + 256 * le_value(b.skip(1))
    }
}

/// The `n` bytes of `data` that start at `off`.
pub open spec fn window(data: Seq<u8>, off: int, n: int) -> Seq<u8> {
    data.subrange(off, off + n)
}

/// The two's complement reading of `value`, a number below `2 * half`.
pub open spec fn signed(value: int, half: int) -> int {
    if value < half {
        value
    } else {
        value - 2 * half
    }
}

pub open spec fn u16_at(data: Seq<u8>, off: int) -> u16 {
    (data[off] + 256 * data[off + 1]) as u16
}

pub open spec fn u32_at(data: Seq<u8>, off: int) -> u32 {
    (data[off] + 256 * data[off + 1] + 65536 * data[off + 2] + 16777216 * data[off + 3]) as u32
}

pub open spec fn u64_at(data: Seq<u8>, off: int) -> u64 {
    (u32_at(data, off) + 4294967296 * u32_at(data, off + 4)) as u64
}

/// Numbers are little-endian: each is the base-256 value of the bytes it covers.
pub proof fn law_numbers_are_little_endian(data: Seq<u8>, off: int)
    requires
        0 <= off,
    ensures
        off + 2 <= data.len() ==> u16_at(data, off) == le_value(window(data, off, 2)),
        off + 4 <= data.len() ==> u32_at(data, off) == le_value(window(data, off, 4)),
        off + 8 <= data.len() ==> u64_at(data, off) == le_value(window(data, off, 8)),
{
    reveal_with_fuel(le_value, 9);
    if off + 2 <= data.len() {
        assert(window(data, off, 2).skip(1).skip(1) =~= Seq::<u8>::empty());
    }
    if off + 4 <= data.len() {
        let w = window(data, off, 4);
        assert(w.skip(1).skip(1) =~= w.skip(2));
        assert(w.skip(2).skip(1) =~= w.skip(3));
        assert(w.skip(3).skip(1) =~= Seq::<u8>::empty());
    }
    if off + 8 <= data.len() {
        let w = window(data, off, 8);
        assert(w.skip(1).skip(1) =~= w.skip(2));
        assert(w.skip(2).skip(1) =~= w.skip(3));
        assert(w.skip(3).skip(1) =~= w.skip(4));
        assert(w.skip(4).skip(1) =~= w.skip(5));
        assert(w.skip(5).skip(1) =~= w.skip(6));
        assert(w.skip(6).skip(1) =~= w.skip(7));
        assert(w.skip(7).skip(1) =~= Seq::<u8>::empty());
    }
}

/// The 16-bit little-endian number at `off`.
pub fn read_u16(data: &[u8], off: usize) -> (v: u16)
    requires
        off + 2 <= data.len(),
    ensures
        v == u16_at(data@, off as int),
{
    data[off] as u16 + 256 * (data[off + 1] as u16)
}

/// The 32-bit little-endian number at `off`.
pub fn read_u32(data: &[u8], off: usize) -> (v: u32)
    requires
        off + 4 <= data.len(),
    ensures
        v == u32_at(data@, off as int),
{
    data[off] as u32 + 256 * (data[off + 1] as u32) + 65536 * (data[off + 2] as u32) + 16777216 * (
    data[off + 3] as u32)
}

/// The 64-bit little-endian number at `off`.
pub fn read_u64(data: &[u8], off: usize) -> (v: u64)
    requires
        off + 8 <= data.len(),
    ensures
        v == u64_at(data@, off as int),
{
    read_u32(data, off) as u64 + 4294967296 * (read_u32(data, off + 4) as u64)
}

/// A byte read as a two's complement number.
pub fn to_i8(v: u8) -> (r: i8)
    ensures
        r == signed(v as int, 0x80),
{
    if v < 0x80 {
        v as i8
    } else {
        (v as i16 - 0x100) as i8
    }
}

/// A 16-bit number read as two's complement.
pub fn to_i16(v: u16) -> (r: i16)
    ensures
        r == signed(v as int, 0x8000),
{
    if v < 0x8000 {
        v as i16
    } else {
        (v as i32 - 0x1_0000) as i16
    }
}

/// A 32-bit number read as two's complement.
pub fn to_i32(v: u32) -> (r: i32)
    ensures
        r == signed(v as int, 0x8000_0000),
{
    if v < 0x8000_0000 {
        v as i32
    } else {
        (v as i64 - 0x1_0000_0000) as i32
    }
}

/// A 64-bit number read as two's complement.
pub fn to_i64(v: u64) -> (r: i64)
    ensures
        r == signed(v as int, 0x8000_0000_0000_0000),
{
    if v < 0x8000_0000_0000_0000 {
        v as i64
    } else {
        (v as i128 - 0x1_0000_0000_0000_0000) as i64
    }
}

/// The `n` bytes of `data` from `off` on, copied out.
pub fn copy_window(data: &[u8], off: usize, n: usize) -> (out: Vec<u8>)
    requires
        off + n <= data.len(),
    ensures
        out@ == window(data@, off as int, n as int),
{
    let mut out: Vec<u8> = Vec::new();
    let mut i: usize = 0;
    while i < n
        invariant
            off + n <= data.len(),
            i <= n,
            out@ == window(data@, off as int, i as int),
        decreases n - i,
    {
        out.push(data[off + i]);
        i += 1;
    }
    out
}

/// The `n` little-endian 32-bit words of `data` that start at `off`.
pub open spec fn words_at(data: Seq<u8>, off: int, n: int) -> Seq<u32> {
    Seq::new(n as nat, |i: int| u32_at(data, off + 4 * i))
}

/// Reads `n` consecutive 32-bit words.
pub fn read_words(data: &[u8], off: usize, n: usize) -> (out: Vec<u32>)
    requires
        off + 4 * n <= data.len(),
    ensures
        out@ == words_at(data@, off as int, n as int),
{
    let mut out: Vec<u32> = Vec::new();
    let mut i: usize = 0;
    while i < n
        invariant
            off + 4 * n <= data.len(),
            i <= n,
            out@ == words_at(data@, off as int, i as int),
        decreases n - i,
    {
        out.push(read_u32(data, off + 4 * i));
        i += 1;
    }
    out
}

} // verus!
