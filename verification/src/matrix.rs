//! Vectors stored one after the other in a flat sequence.

use std::sync::Arc;

use vstd::prelude::*;
use vstd::slice::slice_subrange;

use crate::scalar::ArrowFloatType;

verus! {

/// The number of pieces of `dim` items that a sequence of `len` items is cut
/// into, the last of which may be shorter.
pub open spec fn chunk_count(len: int, dim: int) -> int {
    if len % dim == 0 {
        len / dim
    } else {
        len / dim + 1
    }
}

/// The `i`-th piece of a sequence cut into pieces of `dim` items; the last
/// piece may be shorter.
pub open spec fn chunk<N>(s: Seq<N>, dim: int, i: int) -> Seq<N> {
    s.subrange(
        i * dim,
        if (i + 1) * dim <= s.len() {
            (i + 1) * dim
        } else {
            s.len() as int
        },
    )
}

/// The `i`-th vector of a sequence of vectors of width `dim`.
pub open spec fn row<N>(s: Seq<N>, dim: int, i: int) -> Seq<N> {
    s.subrange(i * dim, (i + 1) * dim)
}

/// Where the `i`-th of the pieces lies.
pub proof fn lemma_chunk_bounds(len: int, dim: int, i: int)
    requires
        0 <= len,
        0 < dim,
        0 <= i < chunk_count(len, dim),
    ensures
        0 <= i * dim < len,
        (i + 1) * dim == i * dim + dim,
        i < len / dim ==> (i + 1) * dim <= len,
        i >= len / dim ==> (i + 1) * dim > len,
{
    vstd::arithmetic::div_mod::lemma_fundamental_div_mod(len, dim);
    let q = len / dim;
    let m = len % dim;
    assert((i + 1) * dim == i * dim + dim) by (nonlinear_arith);
    assert(0 <= i * dim) by (nonlinear_arith)
        requires
            0 <= i,
            0 < dim,
    ;
    assert(q * dim == dim * q) by (nonlinear_arith);
    if i < q {
        assert((i + 1) * dim <= q * dim) by (nonlinear_arith)
            requires
                i + 1 <= q,
                0 < dim,
        ;
    } else {
        assert(i == q);
    }
}

/// Where the `i`-th of the whole vectors lies.
pub proof fn lemma_row_bounds(len: int, dim: int, i: int)
    requires
        0 <= len,
        0 < dim,
        0 <= i < len / dim,
    ensures
        0 <= i * dim < len,
        (i + 1) * dim == i * dim + dim,
        (i + 1) * dim <= len,
{
    lemma_chunk_bounds(len, dim, i);
}

/// The whole pieces are vectors.
pub proof fn lemma_chunk_is_row<N>(s: Seq<N>, dim: int, i: int)
    requires
        0 < dim,
        0 <= i < s.len() as int / dim,
    ensures
        chunk(s, dim, i) == row(s, dim, i),
        row(s, dim, i).len() == dim,
{
    lemma_chunk_bounds(s.len() as int, dim, i);
}

/// The vectors of a run of vectors are those of the sequence it was taken from.
pub proof fn lemma_row_of_rows<N>(s: Seq<N>, dim: int, first: int, last: int, i: int)
    requires
        0 < dim,
        0 <= first <= last <= s.len() as int / dim,
        0 <= i < last - first,
    ensures
        0 <= first * dim <= last * dim <= s.len(),
        s.subrange(first * dim, last * dim).len() == (last - first) * dim,
        s.subrange(first * dim, last * dim).len() as int / dim == last - first,
        row(s.subrange(first * dim, last * dim), dim, i) == row(s, dim, first + i),
{
    lemma_rows_bounds::<N>(s, dim, first, last);
    let part = s.subrange(first * dim, last * dim);
    assert((first + i) * dim == first * dim + i * dim) by (nonlinear_arith);
    assert((first + i + 1) * dim == first * dim + (i + 1) * dim) by (nonlinear_arith);
    lemma_row_bounds(part.len() as int, dim, i);
    assert(row(part, dim, i) =~= row(s, dim, first + i));
}

/// Where a run of vectors lies.
pub proof fn lemma_rows_bounds<N>(s: Seq<N>, dim: int, first: int, last: int)
    requires
        0 < dim,
        0 <= first <= last <= s.len() as int / dim,
    ensures
        0 <= first * dim <= last * dim <= s.len(),
        s.subrange(first * dim, last * dim).len() == (last - first) * dim,
        s.subrange(first * dim, last * dim).len() as int / dim == last - first,
{
    vstd::arithmetic::div_mod::lemma_fundamental_div_mod(s.len() as int, dim);
    let q = s.len() as int / dim;
    assert(0 <= first * dim <= last * dim <= q * dim) by (nonlinear_arith)
        requires
            0 <= first <= last <= q,
            0 < dim,
    ;
    assert(q * dim == dim * q) by (nonlinear_arith);
    assert((last - first) * dim == last * dim - first * dim) by (nonlinear_arith);
    vstd::arithmetic::div_mod::lemma_div_by_multiple(last - first, dim);
}

/// The product of two sizes, which need not fit in a size.
pub fn wide_product(a: usize, b: usize) -> (r: u128)
    ensures
        r == a * b,
{
    let x: u128 = a as u128;
    let y: u128 = b as u128;
    proof {
        assert(x * y <= u64::MAX * u64::MAX) by (nonlinear_arith)
            requires
                0 <= x <= u64::MAX,
                0 <= y <= u64::MAX,
        ;
    }
    x * y
}

/// The number of pieces of `dim` items, the last of which may be shorter.
pub fn count_chunks(len: usize, dim: usize) -> (r: usize)
    requires
        dim > 0,
    ensures
        r == chunk_count(len as int, dim as int),
{
    proof {
        vstd::arithmetic::div_mod::lemma_fundamental_div_mod(len as int, dim as int);
        let q = len as int / dim as int;
        assert(dim as int * q >= q) by (nonlinear_arith)
            requires
                dim >= 1,
                q >= 0,
        ;
        vstd::arithmetic::div_mod::lemma_div_pos_is_pos(len as int, dim as int);
    }
    if len % dim == 0 {
        len / dim
    } else {
        len / dim + 1
    }
}

/// The `i`-th piece of a sequence cut into pieces of `dim` items.
pub fn get_chunk<N>(data: &[N], dim: usize, i: usize) -> (r: &[N])
    requires
        dim > 0,
        i < chunk_count(data@.len() as int, dim as int),
    ensures
        r@ == chunk(data@, dim as int, i as int),
{
    let len: usize = data.len();
    proof {
        lemma_chunk_bounds(len as int, dim as int, i as int);
    }
    let start: usize = i * dim;
    let end: usize = if dim <= len - start {
        start + dim
    } else {
        len
    };
    slice_subrange(data, start, end)
}

/// The `i`-th vector of a sequence of vectors.
pub fn get_row<N>(data: &[N], dim: usize, i: usize) -> (r: &[N])
    requires
        dim > 0,
        i < data@.len() as int / dim as int,
    ensures
        r@ == row(data@, dim as int, i as int),
{
    proof {
        assert(data@.len() == data.len());
        lemma_row_bounds(data.len() as int, dim as int, i as int);
    }
    let start: usize = i * dim;
    slice_subrange(data, start, start + dim)
}

/// The vectors `first..last` of a sequence of vectors.
pub fn get_rows<N>(data: &[N], dim: usize, first: usize, last: usize) -> (r: &[N])
    requires
        dim > 0,
        first <= last <= data@.len() as int / dim as int,
    ensures
        r@ == data@.subrange(first * dim, last * dim),
{
    proof {
        assert(data@.len() == data.len());
        lemma_rows_bounds(data@, dim as int, first as int, last as int);
    }
    slice_subrange(data, first * dim, last * dim)
}

/// The items `y..y + strip` of the vector `x`.
pub fn get_slice<N>(data: &[N], x: usize, y: usize, dim: usize, strip: usize) -> (r: &[N])
    requires
        x * dim + y + strip <= data@.len(),
    ensures
        r@ == data@.subrange(x * dim + y, x * dim + y + strip),
{
    proof {
        assert(data@.len() == data.len());
        assert(0 <= x * dim) by (nonlinear_arith);
    }
    let start: usize = x * dim + y;
    slice_subrange(data, start, start + strip)
}

/// A part of a vector is that part of the sequence it lies in.
pub proof fn lemma_slice_of_row<N>(s: Seq<N>, dim: int, x: int, y: int, strip: int)
    requires
        0 < dim,
        0 <= x < s.len() as int / dim,
        0 <= y,
        0 <= strip,
        y + strip <= dim,
    ensures
        0 <= x * dim,
        x * dim + y + strip <= s.len(),
        s.subrange(x * dim + y, x * dim + y + strip) == row(s, dim, x).subrange(y, y + strip),
{
    lemma_row_bounds(s.len() as int, dim, x);
    assert(s.subrange(x * dim + y, x * dim + y + strip) =~= row(s, dim, x).subrange(y, y + strip));
}

/// A matrix whose rows are vectors.
pub struct MatrixView<T: ArrowFloatType> {
    /// The rows, one after the other.
    pub data: Arc<Vec<T::Native>>,
    /// The width of a row.
    pub num_columns: usize,
}

impl<T: ArrowFloatType> MatrixView<T> {
    /// A matrix over the given values, with rows of the given width.
    pub fn new(data: Arc<Vec<T::Native>>, num_columns: usize) -> (r: Self)
        ensures
            r.data == data,
            r.num_columns == num_columns,
    {
        MatrixView { data, num_columns }
    }

    /// The number of whole rows.
    pub open spec fn spec_num_rows(self) -> int {
        self.data@.len() as int / self.num_columns as int
    }

    /// The number of whole rows.
    pub fn num_rows(&self) -> (r: usize)
        requires
            self.num_columns > 0,
        ensures
            r == self.spec_num_rows(),
    {
        self.data.len() / self.num_columns
    }
}

} // verus!
