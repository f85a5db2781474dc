//! Laws of the GGUF format: a file is read back as it was written.
use crate::bytes::{u16_at, u32_at, u64_at};
use crate::model::gguf_format::{
    alignment_of, dims_at, entry_at, info_at, items_at, metadata_at, pair_at, parse, string_at,
    tensors_at, value_at, GgufError, GgufView, TensorInfoView, ValueView,
};
use crate::text::utf8_lossy;
use vstd::prelude::*;

verus! {

/// `bytes` stand in `data` from `off` on.
#[verifier::opaque]
pub open spec fn holds(data: Seq<u8>, off: int, bytes: Seq<u8>) -> bool {
    &&& 0 <= off
    &&& off + bytes.len() <= data.len()
    &&& forall|i: int| 0 <= i < bytes.len() ==> #[trigger] bytes[i] == data[off + i]
}

/// Four bytes, the lowest first.
#[verifier::opaque]
pub open spec fn word_bytes(n: int) -> Seq<u8> {
    seq![
        (n % 256) as u8,
        (n / 256 % 256) as u8,
        (n / 65536 % 256) as u8,
        (n / 16777216 % 256) as u8,
    ]
}

/// Eight bytes, the lowest first.
pub open spec fn long_bytes(n: int) -> Seq<u8> {
    word_bytes(n % 0x1_0000_0000) + word_bytes(n / 0x1_0000_0000)
}

/// A text, behind the number of its bytes.
pub open spec fn text_bytes(s: Seq<u8>) -> Seq<u8> {
    long_bytes(s.len() as int) + s
}

/// The number that stands for the type of a value.
pub open spec fn type_number(v: ValueView) -> u32 {
    match v {
        ValueView::U8(_) => 0,
        ValueView::I8(_) => 1,
        ValueView::U16(_) => 2,
        ValueView::I16(_) => 3,
        ValueView::U32(_) => 4,
        ValueView::I32(_) => 5,
        ValueView::F32(_) => 6,
        ValueView::Bool(_) => 7,
        ValueView::Str(_) => 8,
        ValueView::Arr(_) => 9,
        ValueView::U64(_) => 10,
        ValueView::I64(_) => 11,
        ValueView::F64(_) => 12,
    }
}

/// How a value is written: numbers in two's complement, the lowest byte first; an array as
/// the type and the number of its items and the items one behind the other.
pub open spec fn value_bytes(v: ValueView) -> Seq<u8>
    decreases v, 0nat,
{
    match v {
        ValueView::U8(x) => seq![x],
        ValueView::I8(x) => seq![(x as int % 256) as u8],
        ValueView::U16(x) => word_bytes(x as int).take(2),
        ValueView::I16(x) => word_bytes(x as int % 0x1_0000).take(2),
        ValueView::U32(x) => word_bytes(x as int),
        ValueView::I32(x) => word_bytes(x as int % 0x1_0000_0000),
        ValueView::F32(x) => word_bytes(x as int),
        ValueView::Bool(x) => seq![
            if x {
                1u8
            } else {
                0u8
            },
        ],
        ValueView::Str(s) => text_bytes(s),
        ValueView::Arr(items) => word_bytes(
            if items.len() > 0 {
                type_number(items[0]) as int
            } else {
                0
            },
        ) + long_bytes(items.len() as int) + items_bytes(items, items.len()),
        ValueView::U64(x) => long_bytes(x as int),
        ValueView::I64(x) => long_bytes(x as int % 0x1_0000_0000_0000_0000),
        ValueView::F64(x) => long_bytes(x as int),
    }
}

/// The first `n` items, one behind the other.
pub open spec fn items_bytes(items: Seq<ValueView>, n: nat) -> Seq<u8>
    decreases items, n,
{
    if n == 0 || n > items.len() {
        Seq::empty()
    } else {
        items_bytes(items, (n - 1) as nat) + value_bytes(items[n - 1])
    }
}

/// The value can be written: lengths fit their fields, and the items of an array are of one
/// type.
pub open spec fn can_be_written(v: ValueView) -> bool
    decreases v, 0nat,
{
    match v {
        ValueView::Str(s) => s.len() < 0x1_0000_0000_0000_0000,
        ValueView::Arr(items) => items.len() < 0x1_0000_0000_0000_0000 && items_can_be_written(
            items,
            items.len(),
        ),
        _ => true,
    }
}

/// The first `n` items can be written.
pub open spec fn items_can_be_written(items: Seq<ValueView>, n: nat) -> bool
    decreases items, n,
{
    if n == 0 || n > items.len() {
        true
    } else {
        &&& items_can_be_written(items, (n - 1) as nat)
        &&& can_be_written(items[n - 1])
        &&& type_number(items[n - 1]) == type_number(items[0])
    }
}

proof fn lemma_apart(data: Seq<u8>, off: int, a: Seq<u8>, b: Seq<u8>)
    requires
        holds(data, off, a + b),
    ensures
        0 <= off,
        off + a.len() + b.len() <= data.len(),
        holds(data, off, a),
        holds(data, off + a.len(), b),
{
    reveal(holds);
    assert forall|i: int| 0 <= i < a.len() implies #[trigger] a[i] == data[off + i] by {
        assert((a + b)[i] == a[i]);
    }
    assert forall|i: int| 0 <= i < b.len() implies #[trigger] b[i] == data[off + a.len() + i] by {
        assert((a + b)[a.len() + i] == b[i]);
    }
}

proof fn lemma_word(data: Seq<u8>, off: int, n: int)
    requires
        holds(data, off, word_bytes(n)),
        0 <= n < 0x1_0000_0000,
    ensures
        0 <= off,
        off + 4 <= data.len(),
        word_bytes(n).len() == 4,
        u32_at(data, off) == n,
{
    reveal(holds);
    reveal(word_bytes);
    let b = word_bytes(n);
    assert(b[0] == data[off + 0] && b[1] == data[off + 1] && b[2] == data[off + 2] && b[3]
        == data[off + 3]);
    assert(n == n % 256 + 256 * (n / 256 % 256) + 65536 * (n / 65536 % 256) + 16777216 * (n
        / 16777216 % 256)) by {
        let x = n / 256;
        let y = x / 256;
        let z = y / 256;
        assert(n / 65536 == y && n / 16777216 == z);
        assert(z < 256);
    }
}

proof fn lemma_short(data: Seq<u8>, off: int, n: int)
    requires
        holds(data, off, word_bytes(n).take(2)),
        0 <= n < 0x1_0000,
    ensures
        0 <= off,
        off + 2 <= data.len(),
        word_bytes(n).take(2).len() == 2,
        u16_at(data, off) == n,
{
    reveal(holds);
    reveal(word_bytes);
    let b = word_bytes(n).take(2);
    assert(b[0] == data[off + 0] && b[1] == data[off + 1]);
    assert(n / 256 % 256 == n / 256);
}

proof fn lemma_long(data: Seq<u8>, off: int, n: int)
    requires
        holds(data, off, long_bytes(n)),
        0 <= n < 0x1_0000_0000_0000_0000,
    ensures
        0 <= off,
        off + 8 <= data.len(),
        long_bytes(n).len() == 8,
        u64_at(data, off) == n,
{
    assert(word_bytes(n % 0x1_0000_0000).len() == 4) by {
        reveal(word_bytes);
    }
    lemma_apart(data, off, word_bytes(n % 0x1_0000_0000), word_bytes(n / 0x1_0000_0000));
    lemma_word(data, off, n % 0x1_0000_0000);
    lemma_word(data, off + 4, n / 0x1_0000_0000);
}

proof fn lemma_byte(data: Seq<u8>, off: int, b: u8)
    requires
        holds(data, off, seq![b]),
    ensures
        0 <= off,
        off + 1 <= data.len(),
        data[off] == b,
{
    reveal(holds);
    assert(seq![b][0] == data[off + 0]);
}

/// A text is read back.
pub proof fn law_text_is_read_back(data: Seq<u8>, off: int, s: Seq<u8>)
    requires
        holds(data, off, text_bytes(s)),
        s.len() < 0x1_0000_0000_0000_0000,
    ensures
        0 <= off,
        text_bytes(s).len() == 8 + s.len(),
        off + 8 + s.len() <= data.len(),
        string_at(data, off) == Ok::<(Seq<u8>, int), GgufError>((s, off + 8 + s.len())),
{
    assert(long_bytes(s.len() as int).len() == 8) by {
        reveal(word_bytes);
    }
    lemma_apart(data, off, long_bytes(s.len() as int), s);
    lemma_long(data, off, s.len() as int);
    reveal(holds);
    assert(data.subrange(off + 8, off + 8 + s.len()) =~= s);
}

/// A value is read back from its bytes, whatever stands before and behind them.
#[verifier::spinoff_prover]
pub proof fn law_value_is_read_back(data: Seq<u8>, off: int, v: ValueView)
    requires
        can_be_written(v),
        holds(data, off, value_bytes(v)),
    ensures
        0 <= off,
        off + value_bytes(v).len() <= data.len(),
        value_at(data, off, type_number(v)) == Ok::<(ValueView, int), GgufError>(
            (v, off + value_bytes(v).len()),
        ),
    decreases v, 0nat,
{
    match v {
        ValueView::U8(x) => {
            lemma_byte(data, off, x);
        },
        ValueView::I8(x) => {
            lemma_byte(data, off, (x as int % 256) as u8);
        },
        ValueView::U16(x) => {
            lemma_short(data, off, x as int);
        },
        ValueView::I16(x) => {
            lemma_short(data, off, x as int % 0x1_0000);
        },
        ValueView::U32(x) => {
            lemma_word(data, off, x as int);
        },
        ValueView::I32(x) => {
            lemma_word(data, off, x as int % 0x1_0000_0000);
        },
        ValueView::F32(x) => {
            lemma_word(data, off, x as int);
        },
        ValueView::Bool(x) => {
            lemma_byte(
                data,
                off,
                if x {
                    1u8
                } else {
                    0u8
                },
            );
        },
        ValueView::Str(s) => {
            law_text_is_read_back(data, off, s);
        },
        ValueView::Arr(items) => {
            let ty = if items.len() > 0 {
                type_number(items[0]) as int
            } else {
                0
            };
            let head = word_bytes(ty);
            let count = long_bytes(items.len() as int);
            let rest = items_bytes(items, items.len());
            assert(head.len() == 4 && count.len() == 8) by {
                reveal(word_bytes);
            }
            lemma_apart(data, off, head + count, rest);
            lemma_apart(data, off, head, count);
            lemma_word(data, off, ty);
            lemma_long(data, off + 4, items.len() as int);
            law_items_are_read_back(data, off + 12, items, items.len(), ty as u32);
            assert(items.take(items.len() as int) =~= items);
        },
        ValueView::U64(x) => {
            lemma_long(data, off, x as int);
        },
        ValueView::I64(x) => {
            lemma_long(data, off, x as int % 0x1_0000_0000_0000_0000);
        },
        ValueView::F64(x) => {
            lemma_long(data, off, x as int);
        },
    }
}

/// The items of an array are read back one behind the other.
#[verifier::spinoff_prover]
pub proof fn law_items_are_read_back(
    data: Seq<u8>,
    off: int,
    items: Seq<ValueView>,
    n: nat,
    ty: u32,
)
    requires
        n <= items.len(),
        items_can_be_written(items, n),
        n > 0 ==> ty == type_number(items[0]),
        holds(data, off, items_bytes(items, n)),
    ensures
        0 <= off,
        off + items_bytes(items, n).len() <= data.len(),
        items_at(data, off, ty, n) == Ok::<(Seq<ValueView>, int), GgufError>(
            (items.take(n as int), off + items_bytes(items, n).len()),
        ),
    decreases items, n,
{
    if n > 0 {
        let before = items_bytes(items, (n - 1) as nat);
        lemma_apart(data, off, before, value_bytes(items[n - 1]));
        law_items_are_read_back(data, off, items, (n - 1) as nat, ty);
        law_value_is_read_back(data, off + before.len(), items[n - 1]);
        assert(items.take(n - 1).push(items[n - 1]) =~= items.take(n as int));
    } else {
        reveal(holds);
        assert(items.take(0) =~= Seq::empty());
    }
}

/// How metadata are written: each a name, the type of its value and the value.
pub open spec fn pairs_bytes(pairs: Seq<(Seq<u8>, ValueView)>, n: nat) -> Seq<u8>
    decreases n,
{
    if n == 0 {
        Seq::empty()
    } else {
        let p = pairs[n - 1];
        pairs_bytes(pairs, (n - 1) as nat) + (text_bytes(p.0) + (word_bytes(
            type_number(p.1) as int,
        ) + value_bytes(p.1)))
    }
}

/// What the first `n` metadata say; of two of one name, the later counts.
pub open spec fn pairs_map(pairs: Seq<(Seq<u8>, ValueView)>, n: nat) -> Map<Seq<char>, ValueView>
    decreases n,
{
    if n == 0 {
        Map::empty()
    } else {
        pairs_map(pairs, (n - 1) as nat).insert(utf8_lossy(pairs[n - 1].0), pairs[n - 1].1)
    }
}

/// Metadata are read back.
#[verifier::spinoff_prover]
pub proof fn law_metadata_is_read_back(
    data: Seq<u8>,
    off: int,
    pairs: Seq<(Seq<u8>, ValueView)>,
    n: nat,
)
    requires
        n <= pairs.len(),
        forall|i: int|
            0 <= i < pairs.len() ==> (#[trigger] pairs[i]).0.len() < 0x1_0000_0000_0000_0000
                && can_be_written(pairs[i].1),
        holds(data, off, pairs_bytes(pairs, n)),
    ensures
        metadata_at(data, off, n) == Ok::<(Map<Seq<char>, ValueView>, int), GgufError>(
            (pairs_map(pairs, n), off + pairs_bytes(pairs, n).len()),
        ),
    decreases n,
{
    if n > 0 {
        let p = pairs[n - 1];
        let before = pairs_bytes(pairs, (n - 1) as nat);
        let tail = word_bytes(type_number(p.1) as int) + value_bytes(p.1);
        lemma_apart(data, off, before, text_bytes(p.0) + tail);
        let o = off + before.len();
        lemma_apart(data, o, text_bytes(p.0), tail);
        let q = o + text_bytes(p.0).len();
        lemma_apart(data, q, word_bytes(type_number(p.1) as int), value_bytes(p.1));
        law_metadata_is_read_back(data, off, pairs, (n - 1) as nat);
        law_text_is_read_back(data, o, p.0);
        lemma_word(data, q, type_number(p.1) as int);
        law_value_is_read_back(data, q + 4, p.1);
        assert(pair_at(data, o) == Ok::<(Seq<char>, ValueView, int), GgufError>(
            (utf8_lossy(p.0), p.1, q + 4 + value_bytes(p.1).len()),
        ));
    }
}

/// The dimensions of a tensor, one behind the other.
pub open spec fn dims_bytes(dims: Seq<u64>) -> Seq<u8>
    decreases dims.len(),
{
    if dims.len() == 0 {
        Seq::empty()
    } else {
        dims_bytes(dims.drop_last()) + long_bytes(dims.last() as int)
    }
}

proof fn lemma_dims(data: Seq<u8>, off: int, dims: Seq<u64>)
    requires
        holds(data, off, dims_bytes(dims)),
    ensures
        0 <= off,
        dims_bytes(dims).len() == 8 * dims.len(),
        off + 8 * dims.len() <= data.len(),
        dims_at(data, off, dims.len() as int) == dims,
    decreases dims.len(),
{
    if dims.len() > 0 {
        let before = dims_bytes(dims.drop_last());
        lemma_apart(data, off, before, long_bytes(dims.last() as int));
        lemma_dims(data, off, dims.drop_last());
        lemma_long(data, off + before.len(), dims.last() as int);
        let n = dims.len() as int;
        assert(dims_at(data, off, n).drop_last() =~= dims_at(data, off, n - 1));
        assert(dims_at(data, off, n) =~= dims_at(data, off, n - 1).push(dims.last()));
        assert(dims.drop_last().push(dims.last()) =~= dims);
    } else {
        reveal(holds);
        assert(dims_at(data, off, 0) =~= dims);
    }
}

/// How the list of tensors is written: each a name, the number of its dimensions, these,
/// its type and its offset.
pub open spec fn infos_bytes(infos: Seq<(Seq<u8>, TensorInfoView)>, n: nat) -> Seq<u8>
    decreases n,
{
    if n == 0 {
        Seq::empty()
    } else {
        let p = infos[n - 1];
        infos_bytes(infos, (n - 1) as nat) + (text_bytes(p.0) + (word_bytes(p.1.dims.len() as int)
            + (dims_bytes(p.1.dims) + (word_bytes(p.1.ggml_type as int) + long_bytes(
            p.1.offset as int,
        )))))
    }
}

/// The first `n` tensors, by name; of two of one name, the later counts.
pub open spec fn infos_map(infos: Seq<(Seq<u8>, TensorInfoView)>, n: nat) -> Map<
    Seq<char>,
    TensorInfoView,
>
    decreases n,
{
    if n == 0 {
        Map::empty()
    } else {
        infos_map(infos, (n - 1) as nat).insert(utf8_lossy(infos[n - 1].0), infos[n - 1].1)
    }
}

/// The list of tensors is read back.
#[verifier::spinoff_prover]
pub proof fn law_tensor_list_is_read_back(
    data: Seq<u8>,
    off: int,
    infos: Seq<(Seq<u8>, TensorInfoView)>,
    n: nat,
)
    requires
        n <= infos.len(),
        forall|i: int|
            0 <= i < infos.len() ==> (#[trigger] infos[i]).0.len() < 0x1_0000_0000_0000_0000
                && infos[i].1.dims.len() < 0x1_0000_0000,
        holds(data, off, infos_bytes(infos, n)),
    ensures
        tensors_at(data, off, n) == Ok::<(Map<Seq<char>, TensorInfoView>, int), GgufError>(
            (infos_map(infos, n), off + infos_bytes(infos, n).len()),
        ),
    decreases n,
{
    if n > 0 {
        let p = infos[n - 1];
        let before = infos_bytes(infos, (n - 1) as nat);
        let name = text_bytes(p.0);
        let count = word_bytes(p.1.dims.len() as int);
        let dims = dims_bytes(p.1.dims);
        let kind = word_bytes(p.1.ggml_type as int);
        let place = long_bytes(p.1.offset as int);
        assert(count.len() == 4 && kind.len() == 4 && place.len() == 8) by {
            reveal(word_bytes);
        }
        lemma_apart(data, off, before, name + (count + (dims + (kind + place))));
        let o = off + before.len();
        lemma_apart(data, o, name, count + (dims + (kind + place)));
        let q = o + name.len();
        lemma_apart(data, q, count, dims + (kind + place));
        lemma_apart(data, q + 4, dims, kind + place);
        let e = q + 4 + dims.len();
        lemma_apart(data, e, kind, place);
        law_tensor_list_is_read_back(data, off, infos, (n - 1) as nat);
        law_text_is_read_back(data, o, p.0);
        lemma_word(data, q, p.1.dims.len() as int);
        lemma_dims(data, q + 4, p.1.dims);
        lemma_word(data, e, p.1.ggml_type as int);
        lemma_long(data, e + 4, p.1.offset as int);
        assert(info_at(data, q) == Ok::<(TensorInfoView, int), GgufError>((p.1, e + 12)));
        assert(entry_at(data, o) == Ok::<(Seq<char>, TensorInfoView, int), GgufError>(
            (utf8_lossy(p.0), p.1, e + 12),
        ));
    }
}

/// A file's head: the letters GGUF, the version, and the numbers of tensors and of
/// metadata.
pub open spec fn head_bytes(version: int, tensors: int, metadata: int) -> Seq<u8> {
    seq![0x47u8, 0x47u8, 0x55u8, 0x46u8] + (word_bytes(version) + (long_bytes(tensors) + long_bytes(
        metadata,
    )))
}

/// A file is read back: its metadata, its list of tensors, and the data behind them, which
/// start at the next multiple of the alignment. Versions other than 2 and 3 are refused.
#[verifier::spinoff_prover]
pub proof fn law_file_is_read_back(
    data: Seq<u8>,
    version: u32,
    pairs: Seq<(Seq<u8>, ValueView)>,
    infos: Seq<(Seq<u8>, TensorInfoView)>,
)
    requires
        pairs.len() < 0x1_0000_0000_0000_0000,
        infos.len() < 0x1_0000_0000_0000_0000,
        forall|i: int|
            0 <= i < pairs.len() ==> (#[trigger] pairs[i]).0.len() < 0x1_0000_0000_0000_0000
                && can_be_written(pairs[i].1),
        forall|i: int|
            0 <= i < infos.len() ==> (#[trigger] infos[i]).0.len() < 0x1_0000_0000_0000_0000
                && infos[i].1.dims.len() < 0x1_0000_0000,
        holds(
            data,
            0,
            head_bytes(version as int, infos.len() as int, pairs.len() as int) + (pairs_bytes(
                pairs,
                pairs.len(),
            ) + infos_bytes(infos, infos.len())),
        ),
    ensures
        version == 2 || version == 3 ==> (parse(data) matches Ok(g) && g.data == data && g.metadata
            == pairs_map(pairs, pairs.len()) && g.tensors == infos_map(infos, infos.len()) && ({
            let end = 24 + pairs_bytes(pairs, pairs.len()).len() + infos_bytes(
                infos,
                infos.len(),
            ).len();
            let unit = alignment_of(g.metadata);
            unit > 0 ==> end <= g.data_start < end + unit && g.data_start % unit == 0
        })),
        version < 2 || version > 3 ==> parse(data) == Err::<GgufView, GgufError>(
            GgufError::UnsupportedVersion(version),
        ),
{
    let p = pairs_bytes(pairs, pairs.len());
    let t = infos_bytes(infos, infos.len());
    lemma_head(data, version as int, infos.len() as int, pairs.len() as int, p + t);
    lemma_apart(data, 24, p, t);
    law_metadata_is_read_back(data, 24, pairs, pairs.len());
    law_tensor_list_is_read_back(data, (24 + p.len()) as int, infos, infos.len());
    let end = 24 + p.len() + t.len();
    let unit = alignment_of(pairs_map(pairs, pairs.len()));
    if unit > 0 {
        lemma_round_up(end as int, unit);
    }
}

#[verifier::spinoff_prover]
proof fn lemma_head(data: Seq<u8>, version: int, tensors: int, metadata: int, rest: Seq<u8>)
    requires
        0 <= version < 0x1_0000_0000,
        0 <= tensors < 0x1_0000_0000_0000_0000,
        0 <= metadata < 0x1_0000_0000_0000_0000,
        holds(data, 0, head_bytes(version, tensors, metadata) + rest),
    ensures
        data.len() >= 24,
        u32_at(data, 0) == 0x4655_4747,
        u32_at(data, 4) == version,
        u64_at(data, 8) == tensors,
        u64_at(data, 16) == metadata,
        holds(data, 24, rest),
{
    let letters = seq![0x47u8, 0x47u8, 0x55u8, 0x46u8];
    assert(word_bytes(version).len() == 4 && long_bytes(tensors).len() == 8 && long_bytes(
        metadata,
    ).len() == 8) by {
        reveal(word_bytes);
    }
    let counts = long_bytes(tensors) + long_bytes(metadata);
    lemma_apart(data, 0, head_bytes(version, tensors, metadata), rest);
    lemma_apart(data, 0, letters, word_bytes(version) + counts);
    lemma_apart(data, 4, word_bytes(version), counts);
    lemma_apart(data, 8, long_bytes(tensors), long_bytes(metadata));
    assert(u32_at(data, 0) == 0x4655_4747) by {
        reveal(holds);
        let o: int = 0;
        assert(letters[0] == data[o + 0] && letters[1] == data[o + 1] && letters[2] == data[o + 2]
            && letters[3] == data[o + 3]);
    }
    lemma_word(data, 4, version);
    lemma_long(data, 8, tensors);
    lemma_long(data, 16, metadata);
}

proof fn lemma_round_up(n: int, unit: int)
    requires
        0 <= n,
        0 < unit,
    ensures
        n <= crate::model::gguf_format::round_up_to(n, unit) < n + unit,
        crate::model::gguf_format::round_up_to(n, unit) % unit == 0,
{
    let g = crate::tensor::dtype::groups(n, unit);
    vstd::arithmetic::div_mod::lemma_fundamental_div_mod(n, unit);
    vstd::arithmetic::div_mod::lemma_mod_bound(n, unit);
    vstd::arithmetic::div_mod::lemma_mod_multiples_basic(g, unit);
    assert(unit * (n / unit) == (n / unit) * unit) by (nonlinear_arith);
    assert((n / unit + 1) * unit == (n / unit) * unit + unit) by (nonlinear_arith);
}

/// The number of bytes of a value of a type that has a fixed size.
pub open spec fn fixed_size(ty: u32) -> int {
    if ty == 0 || ty == 1 || ty == 7 {
        1
    } else if ty == 2 || ty == 3 {
        2
    } else if ty == 4 || ty == 5 || ty == 6 {
        4
    } else {
        8
    }
}

/// A value is read exactly if its bytes lie within the file, and nothing is read beyond its
/// end; types above 12 are refused.
#[verifier::spinoff_prover]
pub proof fn law_values_need_their_bytes(data: Seq<u8>, off: int, ty: u32)
    requires
        0 <= off <= data.len(),
    ensures
        ty <= 7 || 10 <= ty <= 12 ==> (value_at(data, off, ty) is Ok <==> off + fixed_size(ty)
            <= data.len()),
        ty <= 7 || 10 <= ty <= 12 ==> (value_at(data, off, ty) matches Ok((v, end)) ==> end == off
            + fixed_size(ty)),
        (ty <= 7 || 10 <= ty <= 12) && off + fixed_size(ty) > data.len() ==> value_at(data, off, ty)
            == Err::<(ValueView, int), GgufError>(GgufError::Truncated),
        ty > 12 ==> value_at(data, off, ty) == Err::<(ValueView, int), GgufError>(
            GgufError::UnsupportedValueType(ty),
        ),
        string_at(data, off) is Ok <==> off + 8 <= data.len() && off + 8 + u64_at(data, off)
            <= data.len(),
        ty == 8 ==> (value_at(data, off, ty) is Ok <==> string_at(data, off) is Ok),
        ty == 9 && off + 12 > data.len() ==> value_at(data, off, ty) == Err::<
            (ValueView, int),
            GgufError,
        >(GgufError::Truncated),
{
}

/// A file that is shorter than its head, or that does not start with the letters GGUF, is
/// refused.
pub proof fn law_files_that_are_refused(data: Seq<u8>)
    ensures
        data.len() < 4 ==> parse(data) == Err::<GgufView, GgufError>(GgufError::Truncated),
        data.len() >= 4 && !(data[0] == 0x47 && data[1] == 0x47 && data[2] == 0x55 && data[3]
            == 0x46) ==> parse(data) == Err::<GgufView, GgufError>(GgufError::BadMagic),
        4 <= data.len() < 8 && data[0] == 0x47 && data[1] == 0x47 && data[2] == 0x55 && data[3]
            == 0x46 ==> parse(data) == Err::<GgufView, GgufError>(GgufError::Truncated),
        parse(data) is Ok ==> data.len() >= 24,
{
}

/// A tensor's entry is read exactly if its fields lie within the file.
pub proof fn law_entries_need_their_bytes(data: Seq<u8>, off: int)
    requires
        0 <= off,
    ensures
        info_at(data, off) is Ok <==> off + 4 <= data.len() && off + 16 + 8 * u32_at(data, off)
            <= data.len(),
        entry_at(data, off) is Ok <==> (string_at(data, off) matches Ok((s, p)) && info_at(data, p)
            is Ok),
{
}

/// The alignment is what the metadata say, if that is a power of two, and else 32.
pub proof fn law_alignment(m: Map<Seq<char>, ValueView>, e: nat, x: u32)
    ensures
        !m.dom().contains("general.alignment"@) ==> alignment_of(m) == 32,
        m.dom().contains("general.alignment"@) && m["general.alignment"@] == ValueView::U32(x) && x
            == vstd::arithmetic::power2::pow2(e) ==> alignment_of(m) == x,
        m.dom().contains("general.alignment"@) && m["general.alignment"@] == ValueView::U32(x) && (
        forall|d: nat| x != #[trigger] vstd::arithmetic::power2::pow2(d)) ==> alignment_of(m)
            == 32,
{
}

} // verus!
