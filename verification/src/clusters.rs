//! Sizes, means and distances of clusters, in terms of their vectors.

use vstd::prelude::*;

use crate::balance::lemma_stddev_exact;
use crate::exact::{
    is_coordinate_exact, is_double_exact, is_single_exact, lemma_distance_sum_exact,
    lemma_mean_exact, lemma_sum_exact, Values,
};
use crate::float::{Float32, Float64};
use crate::membership::{
    cluster_size, column, distance_sum_outcome, lemma_cluster_size_bound, lemma_column_len,
    mean_distance_outcome, mean_outcome, means_outcome, place, sizes_of, stddev_outcome, Assignment,
};
use crate::model::Model;
use crate::reals::{lemma_product_order, lemma_sum_same, square, sum_to};
use crate::scalar::{ArrowFloatType, FloatArithmetic};

verus! {

/// The number of vectors that belong to cluster `c`.
pub open spec fn count_of(parts: Seq<(u32, Float32)>, c: int) -> int {
    parts.filter(|part: (u32, Float32)| part.0 as int == c).len() as int
}

/// Whether counts, differences and quotients of double precision numbers are
/// exact and agree with their order and sign.
pub open spec fn is_quotient_exact<T: FloatArithmetic>(double: spec_fn(Float64) -> real) -> bool {
    &&& forall|a: Float64, b: Float64|
        !a.is_nan() && !b.is_nan() ==> (#[trigger] a.less(b) <==> double(a) < double(b))
    &&& forall|a: Float64, b: Float64|
        a.bits + 0x8000_0000_0000_0000 == b.bits ==> #[trigger] double(a) == -(#[trigger] double(
            b,
        ))
    &&& forall|n: usize, r: Float64| #[trigger]
        call_ensures(T::double_from_usize, (n,), r) ==> double(r) == n as int as real
    &&& forall|a: Float64, b: Float64, r: Float64| #[trigger]
        call_ensures(T::double_sub, (a, b), r) ==> double(r) == double(a) - double(b)
    &&& forall|a: Float64, b: Float64, r: Float64| #[trigger]
        call_ensures(T::double_div, (a, b), r) && double(b) != 0 as real ==> double(r) * double(b)
            == double(a)
}

/// The sum of distances stands for the sum of what they stand for.
pub proof fn law_distance_sum<T: FloatArithmetic>(
    single: spec_fn(Float32) -> real,
    double: spec_fn(Float64) -> real,
    parts: Seq<(u32, Float32)>,
    r: Float64,
)
    requires
        is_double_exact::<T>(single, double),
        distance_sum_outcome::<T>(parts, r),
    ensures
        double(r) == sum_to(parts.len() as int, |i: int| single(parts[i].1)),
{
    lemma_distance_sum_exact::<T>(single, double, parts, r);
}

/// The mean distance, times the number of vectors, is the sum of what their
/// distances stand for.
pub proof fn law_mean_distance_times_count<T: FloatArithmetic>(
    single: spec_fn(Float32) -> real,
    double: spec_fn(Float64) -> real,
    parts: Seq<(u32, Float32)>,
    r: Float64,
)
    requires
        is_double_exact::<T>(single, double),
        is_quotient_exact::<T>(double),
        0 < parts.len() <= usize::MAX,
        mean_distance_outcome::<T>(parts, r),
    ensures
        double(r) * parts.len() as int as real == sum_to(
            parts.len() as int,
            |i: int| single(parts[i].1),
        ),
{
    let (sum, count) = choose|sum: Float64, count: Float64|
        {
            &&& distance_sum_outcome::<T>(parts, sum)
            &&& call_ensures(T::double_from_usize, (parts.len() as usize,), count)
            &&& #[trigger] call_ensures(T::double_div, (sum, count), r)
        };
    lemma_distance_sum_exact::<T>(single, double, parts, sum);
    assert(double(count) == parts.len() as int as real);
    assert(double(count) != 0 as real);
}

/// The size of a cluster is the number of vectors that belong to it.
pub proof fn law_cluster_size_counts(parts: Seq<(u32, Float32)>, c: int)
    ensures
        cluster_size(parts, c) == count_of(parts, c),
    decreases parts.len(),
{
    reveal(Seq::filter);
    if parts.len() > 0 {
        law_cluster_size_counts(parts.drop_last(), c);
    }
}

/// The histogram has the size of each cluster in its place.
pub proof fn law_histogram_counts(parts: Seq<(u32, Float32)>, k: int, c: int)
    requires
        parts.len() <= usize::MAX,
        0 <= c < k,
    ensures
        sizes_of(parts, k).len() == k,
        sizes_of(parts, k)[c] as int == count_of(parts, c),
{
    law_cluster_size_counts(parts, c);
    lemma_cluster_size_bound(parts, c);
}

/// The deviation of cluster sizes is the root of the mean of their squared
/// differences to the mean size, over all clusters.
pub proof fn law_deviation_is_root_of_mean_square<T: FloatArithmetic>(
    single: spec_fn(Float32) -> real,
    parts: Seq<(u32, Float32)>,
    k: usize,
    average: real,
    r: Float32,
)
    requires
        is_single_exact::<T>(single),
        k > 0,
        parts.len() <= usize::MAX,
        average * k as int as real == parts.len() as int as real,
        stddev_outcome::<T>(sizes_of(parts, k as int), parts.len() as usize, k, r),
    ensures
        single(r) >= 0 as real,
        square(single(r)) * k as int as real == sum_to(
            k as int,
            |c: int| square(count_of(parts, c) as real - average),
        ),
{
    let sizes = sizes_of(parts, k as int);
    let same = lemma_stddev_exact::<T>(single, sizes, parts.len() as usize, k, r);
    lemma_product_order(same, average, k as int as real);
    assert forall|c: int| 0 <= c < k implies #[trigger] sizes[c] as int == count_of(parts, c) by {
        law_histogram_counts(parts, k as int, c);
    }
    lemma_sum_same(
        k as int,
        |c: int| square(sizes[c] as int as real - average),
        |c: int| square(count_of(parts, c) as real - average),
    );
}

/// One for a vector that belongs to cluster `c`, zero for another.
pub open spec fn belongs(parts: Seq<(u32, Float32)>, i: int, c: int) -> real {
    if parts[i].0 as int == c {
        1 as real
    } else {
        0 as real
    }
}

/// What the vectors of cluster `c` have in one coordinate adds up over all
/// vectors that belong to it.
proof fn lemma_column_sum<N>(
    coordinate: spec_fn(N) -> real,
    data: Seq<N>,
    dim: int,
    parts: Seq<(u32, Float32)>,
    n: int,
    c: int,
    j: int,
)
    requires
        0 <= n <= parts.len(),
    ensures
        column(data, dim, parts, n, c, j).len() as int as real == sum_to(
            n,
            |i: int| belongs(parts, i, c),
        ),
        sum_to(
            column(data, dim, parts, n, c, j).len() as int,
            |t: int| coordinate(column(data, dim, parts, n, c, j)[t]),
        ) == sum_to(
            n,
            |i: int|
                if parts[i].0 as int == c {
                    coordinate(data[i * dim + j])
                } else {
                    0 as real
                },
        ),
    decreases n,
{
    if n > 0 {
        lemma_column_sum(coordinate, data, dim, parts, n - 1, c, j);
        let shorter = column(data, dim, parts, n - 1, c, j);
        let longer = column(data, dim, parts, n, c, j);
        let f = |t: int| coordinate(longer[t]);
        let g = |t: int| coordinate(shorter[t]);
        if parts[n - 1].0 as int == c {
            assert(longer == shorter.push(data[(n - 1) * dim + j]));
            lemma_sum_same(shorter.len() as int, f, g);
            assert(f(shorter.len() as int) == coordinate(data[(n - 1) * dim + j]));
        }
    }
}

/// The centroid that a cluster moves to is the mean of its vectors: in each
/// coordinate, times their number, it is their sum. A cluster without vectors
/// moves to zero.
pub proof fn law_centroid_is_mean_of_members<T: ArrowFloatType>(
    v: Values<T::Native>,
    a: Assignment<T::Native>,
    m: Model<T::Native>,
    n: int,
    c: int,
    j: int,
)
    requires
        is_coordinate_exact::<T>(v.coordinate),
        a.dimension > 0,
        a.parts.len() <= u64::MAX,
        n <= a.parts.len(),
        n <= a.data.len() as int / a.dimension,
        n == a.parts.len() || n == a.data.len() as int / a.dimension,
        means_outcome::<T>(a, m),
        0 <= c < a.k,
        0 <= j < a.dimension,
    ensures
        m.dimension == a.dimension,
        m.k == a.k,
        m.metric_type == a.metric_type,
        m.centroids.len() == a.k * a.dimension,
        (v.coordinate)(m.centroids[c * a.dimension + j]) * sum_to(
            n,
            |i: int| belongs(a.parts, i, c),
        ) == sum_to(
            n,
            |i: int|
                if a.parts[i].0 as int == c {
                    (v.coordinate)(a.data[i * a.dimension + j])
                } else {
                    0 as real
                },
        ),
        (forall|i: int| 0 <= i < n ==> (#[trigger] a.parts[i]).0 as int != c) ==> (v.coordinate)(
            m.centroids[c * a.dimension + j],
        ) == 0 as real,
{
    let dim = a.dimension;
    vstd::arithmetic::div_mod::lemma_div_pos_is_pos(a.data.len() as int, dim);
    let terms = column(a.data, dim, a.parts, n, c, j);
    let mean = m.centroids[place(c, dim, j)];
    assert(a.member_count() == n);
    assert(mean_outcome::<T>(terms, mean));
    lemma_column_len(a.data, dim, a.parts, n, c, j);
    lemma_cluster_size_bound(a.parts.take(n), c);
    lemma_mean_exact::<T>(v.coordinate, terms, mean);
    lemma_column_sum(v.coordinate, a.data, dim, a.parts, n, c, j);
    if forall|i: int| 0 <= i < n ==> (#[trigger] a.parts[i]).0 as int != c {
        lemma_no_members(a.data, dim, a.parts, n, c, j);
        lemma_sum_exact::<T>(v.coordinate, terms, mean);
    }
}

/// A cluster that no vector belongs to has no numbers.
proof fn lemma_no_members<N>(
    data: Seq<N>,
    dim: int,
    parts: Seq<(u32, Float32)>,
    n: int,
    c: int,
    j: int,
)
    requires
        forall|i: int| 0 <= i < n ==> (#[trigger] parts[i]).0 as int != c,
    ensures
        column(data, dim, parts, n, c, j).len() == 0,
    decreases n,
{
    if n > 0 {
        assert(parts[n - 1].0 as int != c);
        lemma_no_members(data, dim, parts, n - 1, c, j);
    }
}

} // verus!
