//! Row-major matrices, as flat sequences.
use crate::kernels::quant::lemma_row_in;
use vstd::prelude::*;

verus! {

/// Row `r` of a matrix whose rows are `w` wide.
pub open spec fn row_of<T>(s: Seq<T>, r: int, w: int) -> Seq<T> {
    s.subrange(r * w, r * w + w)
}

/// `s` is the matrix of `n` rows, `w` wide, of which row `r` is `f(r)`.
pub open spec fn is_rows<T>(s: Seq<T>, n: int, w: int, f: spec_fn(int) -> Seq<T>) -> bool {
    &&& s.len() == n * w
    &&& forall|r: int| 0 <= r < n ==> #[trigger] row_of(s, r, w) == f(r)
}

/// Putting a row behind a matrix leaves the rows before it as they were.
pub proof fn lemma_append_row<T>(s: Seq<T>, row: Seq<T>, n: int, w: int)
    requires
        0 <= n,
        s.len() == n * w,
        row.len() == w,
    ensures
        (s + row).len() == (n + 1) * w,
        row_of(s + row, n, w) == row,
        forall|r: int| 0 <= r < n ==> #[trigger] row_of(s + row, r, w) == row_of(s, r, w),
{
    assert((n + 1) * w == n * w + w) by (nonlinear_arith);
    assert(row_of(s + row, n, w) =~= row);
    assert forall|r: int| 0 <= r < n implies #[trigger] row_of(s + row, r, w) == row_of(s, r, w) by {
        lemma_row_in(r, n, w);
        assert(row_of(s + row, r, w) =~= row_of(s, r, w));
    }
}

/// Adding row `n` to a matrix of `n` rows.
pub proof fn lemma_is_rows_push<T>(s: Seq<T>, row: Seq<T>, n: int, w: int, f: spec_fn(int) -> Seq<T>)
    requires
        0 <= n,
        is_rows(s, n, w, f),
        row.len() == w,
        row == f(n),
    ensures
        is_rows(s + row, n + 1, w, f),
{
    lemma_append_row(s, row, n, w);
    assert forall|r: int| 0 <= r < n + 1 implies #[trigger] row_of(s + row, r, w) == f(r) by {
        if r < n {
            assert(row_of(s, r, w) == f(r));
        }
    }
}

/// A matrix is determined by its rows.
pub proof fn lemma_rows_unique<T>(a: Seq<T>, b: Seq<T>, n: int, w: int, f: spec_fn(int) -> Seq<T>)
    requires
        is_rows(a, n, w, f),
        is_rows(b, n, w, f),
        0 <= n,
        0 <= w,
    ensures
        a == b,
{
    assert forall|i: int| 0 <= i < a.len() implies a[i] == b[i] by {
        assert(w > 0 && n > 0) by (nonlinear_arith)
            requires
                0 <= i < n * w,
                0 <= n,
                0 <= w,
        ;
        let r = i / w;
        let c = i % w;
        assert(i == r * w + c && 0 <= c < w && 0 <= r < n) by (nonlinear_arith)
            requires
                0 <= i < n * w,
                0 < w,
                r == i / w,
                c == i % w,
        ;
        assert(row_of(a, r, w) == row_of(b, r, w));
        lemma_row_in(r, n, w);
        assert(row_of(a, r, w)[c] == a[i]);
        assert(row_of(b, r, w)[c] == b[i]);
    }
    assert(a =~= b);
}

/// The matrix of `n` rows, `w` wide, of which row `r` is `f(r)`.
pub open spec fn matrix<T>(n: int, w: int, f: spec_fn(int) -> Seq<T>) -> Seq<T> {
    Seq::new((n * w) as nat, |i: int| f(i / w)[i % w])
}

/// A matrix is what its rows make it.
pub proof fn lemma_is_matrix<T>(s: Seq<T>, n: int, w: int, f: spec_fn(int) -> Seq<T>)
    requires
        is_rows(s, n, w, f),
        0 <= n,
        0 <= w,
    ensures
        s == matrix(n, w, f),
{
    let m = matrix(n, w, f);
    assert forall|i: int| 0 <= i < s.len() implies s[i] == m[i] by {
        assert(w > 0) by (nonlinear_arith)
            requires
                0 <= i < n * w,
                0 <= n,
                0 <= w,
        ;
        let r = i / w;
        let c = i % w;
        assert(i == r * w + c && 0 <= c < w && 0 <= r < n) by (nonlinear_arith)
            requires
                0 <= i < n * w,
                0 < w,
                r == i / w,
                c == i % w,
        ;
        lemma_row_in(r, n, w);
        assert(row_of(s, r, w)[c] == s[i]);
    }
    assert(s =~= m);
}

/// Row `r` of a matrix.
pub(crate) fn row_slice<'a, T>(s: &'a [T], r: usize, w: usize, Ghost(n): Ghost<int>) -> (row: &'a [T])
    requires
        r < n,
        s@.len() >= n * w,
    ensures
        row@.len() == w,
        row@ == row_of(s@, r as int, w as int),
{
    proof {
        lemma_row_in(r as int, n, w as int);
        assert(s.len() == s@.len());
    }
    vstd::slice::slice_subrange(s, r * w, r * w + w)
}

/// A copy of row `r` of a matrix.
pub(crate) fn copy_row(s: &[u32], r: usize, w: usize, Ghost(n): Ghost<int>) -> (row: Vec<u32>)
    requires
        r < n,
        s@.len() >= n * w,
    ensures
        row@.len() == w,
        row@ == row_of(s@, r as int, w as int),
{
    copy_of(row_slice(s, r, w, Ghost(n)))
}

/// A copy of a slice.
pub(crate) fn copy_of(s: &[u32]) -> (v: Vec<u32>)
    ensures
        v@ == s@,
{
    let mut v: Vec<u32> = Vec::new();
    let mut i: usize = 0;
    while i < s.len()
        invariant
            i <= s.len(),
            v@ =~= s@.take(i as int),
        decreases s.len() - i,
    {
        v.push(s[i]);
        i += 1;
    }
    v
}

} // verus!
