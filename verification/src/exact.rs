//! What holds where arithmetic does not round.
//!
//! The laws here have the premise that every answer that the arithmetic gives is
//! exact, as that of arithmetic is which gives no answer rather than a rounded
//! one.

use vstd::prelude::*;

use crate::assign::{centroid_norms_outcome, membership_outcome, row_outcome, rows_outcome};
use crate::distance::l2_batch_outcome;
use crate::float::{Float32, Float64};
use crate::kernels::{any_below, is_argmin_value_float};
use crate::matrix::{
    chunk, chunk_count, lemma_chunk_bounds, lemma_chunk_is_row, lemma_row_bounds, row,
};
use crate::membership::{
    cluster_size, column, distance_sum_outcome, lemma_cluster_size_bound, lemma_column_len,
    mean_outcome, means_outcome, place, widened_outcome, Assignment,
};
use crate::model::Model;
use crate::reals::{
    lemma_mean_is_central, lemma_product_order, lemma_sum_grows, lemma_sum_of_equals,
    lemma_sum_of_nothing, lemma_sum_order, lemma_sum_same, lemma_sum_splits, lemma_sum_swaps,
    square, sum_to,
};
use crate::scalar::{double_sum_outcome, l2_outcome, sum_outcome, ArrowFloatType, FloatArithmetic};
use crate::tiles::{
    is_tiled, l2_distances_outcome, l2_nearest_outcome, striped_l2_outcome, STRIPE_SIZE,
};

verus! {

/// Which real numbers coordinates, single and double precision numbers stand for.
#[verifier::reject_recursive_types(N)]
pub struct Values<N> {
    /// What a coordinate stands for.
    pub coordinate: spec_fn(N) -> real,
    /// What a single precision number stands for.
    pub single: spec_fn(Float32) -> real,
    /// What a double precision number stands for.
    pub double: spec_fn(Float64) -> real,
}

/// The squared Euclidean distance of two vectors.
pub open spec fn squared_distance<N>(v: Values<N>, x: Seq<N>, y: Seq<N>) -> real {
    sum_to(x.len() as int, |j: int| square((v.coordinate)(x[j]) - (v.coordinate)(y[j])))
}

/// Whether arithmetic on single precision numbers is exact and agrees with their
/// order.
pub open spec fn is_single_exact<T: FloatArithmetic>(single: spec_fn(Float32) -> real) -> bool {
    &&& single(Float32::spec_zero()) == 0 as real
    &&& forall|a: Float32, b: Float32|
        !a.is_nan() && !b.is_nan() ==> (#[trigger] a.less(b) <==> single(a) < single(b))
    &&& forall|a: Float32, b: Float32, r: Float32| #[trigger]
        call_ensures(T::single_add, (a, b), r) ==> r.less(Float32::spec_infinity()) && single(r)
            == single(a) + single(b)
    &&& forall|a: Float32, b: Float32, r: Float32| #[trigger]
        call_ensures(T::single_sub, (a, b), r) ==> single(r) == single(a) - single(b)
    &&& forall|a: Float32, b: Float32, r: Float32| #[trigger]
        call_ensures(T::single_div, (a, b), r) && single(b) != 0 as real ==> single(r) * single(b)
            == single(a)
    &&& forall|a: Float32, r: Float32| #[trigger]
        call_ensures(T::single_powi, (a, 2i32), r) ==> single(r) == square(single(a))
    &&& forall|a: Float32, r: Float32| #[trigger]
        call_ensures(T::single_sqrt, (a,), r) && single(a) >= 0 as real ==> single(r) >= 0 as real
            && square(single(r)) == single(a)
    &&& forall|n: usize, r: Float32| #[trigger]
        call_ensures(T::single_from_usize, (n,), r) ==> single(r) == n as int as real
}

/// Whether arithmetic on double precision numbers is exact and agrees with their
/// order.
pub open spec fn is_double_exact<T: FloatArithmetic>(
    single: spec_fn(Float32) -> real,
    double: spec_fn(Float64) -> real,
) -> bool {
    &&& double(Float64::spec_zero()) == 0 as real
    &&& forall|a: Float64, b: Float64| #[trigger] a.less(b) ==> double(a) < double(b)
    &&& forall|a: Float32, r: Float64| #[trigger]
        call_ensures(T::double_from_single, (a,), r) ==> double(r) == single(a)
    &&& forall|a: Float64, b: Float64, r: Float64| #[trigger]
        call_ensures(T::double_add, (a, b), r) ==> double(r) == double(a) + double(b)
}

/// Whether arithmetic on coordinates is exact.
pub open spec fn is_coordinate_exact<T: ArrowFloatType>(
    coordinate: spec_fn(T::Native) -> real,
) -> bool {
    &&& forall|r: T::Native| #[trigger]
        call_ensures(T::zero, (), r) ==> coordinate(r) == 0 as real
    &&& forall|a: T::Native, b: T::Native, r: T::Native| #[trigger]
        call_ensures(T::plus, (a, b), r) ==> coordinate(r) == coordinate(a) + coordinate(b)
    &&& forall|a: T::Native, b: T::Native, r: T::Native| #[trigger]
        call_ensures(T::over, (a, b), r) && coordinate(b) != 0 as real ==> coordinate(r)
            * coordinate(b) == coordinate(a)
    &&& forall|n: u64, r: T::Native| #[trigger]
        call_ensures(T::from_u64, (n,), r) ==> coordinate(r) == n as int as real
}

/// Whether squared Euclidean distances are exact.
pub open spec fn is_l2_exact<T: ArrowFloatType>(v: Values<T::Native>) -> bool {
    forall|x: &[T::Native], y: &[T::Native], d: Float32| #[trigger]
        call_ensures(T::l2, (x, y), d) && x@.len() == y@.len() ==> d.less(
            Float32::spec_infinity(),
        ) && (v.single)(d) == squared_distance(v, x@, y@)
}

/// Whether all arithmetic that training by squared Euclidean distance runs on is
/// exact.
pub open spec fn is_exact<T: ArrowFloatType>(v: Values<T::Native>) -> bool {
    &&& is_single_exact::<T>(v.single)
    &&& is_double_exact::<T>(v.single, v.double)
    &&& is_coordinate_exact::<T>(v.coordinate)
    &&& is_l2_exact::<T>(v)
}

/// The sum of `g` over a cluster's numbers.
spec fn cluster_sum<N>(
    coordinate: spec_fn(N) -> real,
    terms: Seq<N>,
    g: spec_fn(int, real) -> real,
    c: int,
) -> real {
    sum_to(terms.len() as int, |t: int| g(c, coordinate(terms[t])))
}

/// Summing up over all vectors is summing up over the vectors of each cluster.
proof fn lemma_sum_by_cluster<N>(
    coordinate: spec_fn(N) -> real,
    data: Seq<N>,
    dim: int,
    parts: Seq<(u32, Float32)>,
    n: int,
    k: int,
    j: int,
    g: spec_fn(int, real) -> real,
)
    requires
        0 <= n <= parts.len(),
        forall|i: int| 0 <= i < parts.len() ==> (#[trigger] parts[i]).0 < k,
    ensures
        sum_to(n, |i: int| g(parts[i].0 as int, coordinate(data[i * dim + j]))) == sum_to(
            k,
            |c: int| cluster_sum(coordinate, column(data, dim, parts, n, c, j), g, c),
        ),
    decreases n,
{
    let whole = |i: int| g(parts[i].0 as int, coordinate(data[i * dim + j]));
    let now = |c: int| cluster_sum(coordinate, column(data, dim, parts, n, c, j), g, c);
    if n == 0 {
        lemma_sum_of_nothing(k, now);
    } else {
        lemma_sum_by_cluster(coordinate, data, dim, parts, n - 1, k, j, g);
        let before = |c: int|
            cluster_sum(coordinate, column(data, dim, parts, n - 1, c, j), g, c);
        let at = parts[n - 1].0 as int;
        let shorter = column(data, dim, parts, n - 1, at, j);
        let longer = column(data, dim, parts, n, at, j);
        assert(parts[n - 1].0 < k);
        assert(now(at) == before(at) + whole(n - 1)) by {
            let f = |t: int| g(at, coordinate(longer[t]));
            let e = |t: int| g(at, coordinate(shorter[t]));
            assert(longer == shorter.push(data[(n - 1) * dim + j]));
            lemma_sum_same(shorter.len() as int, f, e);
            assert(f(shorter.len() as int) == whole(n - 1));
        }
        assert forall|c: int| 0 <= c < k && c != at implies #[trigger] now(c) == before(c) by {}
        lemma_sum_grows(k, before, now, at, whole(n - 1));
    }
}

pub proof fn lemma_sum_exact<T: ArrowFloatType>(
    coordinate: spec_fn(T::Native) -> real,
    terms: Seq<T::Native>,
    r: T::Native,
)
    requires
        is_coordinate_exact::<T>(coordinate),
        sum_outcome::<T>(terms, r),
    ensures
        coordinate(r) == sum_to(terms.len() as int, |i: int| coordinate(terms[i])),
    decreases terms.len(),
{
    if terms.len() > 0 {
        let init = terms.drop_last();
        let a = choose|a: T::Native|
            sum_outcome::<T>(init, a) && #[trigger] call_ensures(T::plus, (a, terms.last()), r);
        lemma_sum_exact::<T>(coordinate, init, a);
        lemma_sum_same(
            init.len() as int,
            |i: int| coordinate(init[i]),
            |i: int| coordinate(terms[i]),
        );
    }
}

/// A mean, times the number of numbers, is their sum.
pub proof fn lemma_mean_exact<T: ArrowFloatType>(
    coordinate: spec_fn(T::Native) -> real,
    terms: Seq<T::Native>,
    r: T::Native,
)
    requires
        is_coordinate_exact::<T>(coordinate),
        mean_outcome::<T>(terms, r),
        terms.len() <= u64::MAX,
    ensures
        coordinate(r) * terms.len() as int as real == sum_to(
            terms.len() as int,
            |i: int| coordinate(terms[i]),
        ),
{
    if terms.len() == 0 {
        lemma_sum_exact::<T>(coordinate, terms, r);
        assert(coordinate(r) * terms.len() as int as real == 0 as real) by (nonlinear_arith)
            requires
                terms.len() as int as real == 0 as real,
        ;
    } else {
        let (sum, count) = choose|sum: T::Native, count: T::Native|
            {
                &&& sum_outcome::<T>(terms, sum)
                &&& call_ensures(T::from_u64, (terms.len() as u64,), count)
                &&& #[trigger] call_ensures(T::over, (sum, count), r)
            };
        lemma_sum_exact::<T>(coordinate, terms, sum);
        assert(coordinate(count) == terms.len() as int as real);
        assert(coordinate(count) != 0 as real);
    }
}

/// A sum of distances stands for the sum of what they stand for.
pub proof fn lemma_distance_sum_exact<T: FloatArithmetic>(
    single: spec_fn(Float32) -> real,
    double: spec_fn(Float64) -> real,
    parts: Seq<(u32, Float32)>,
    r: Float64,
)
    requires
        is_double_exact::<T>(single, double),
        distance_sum_outcome::<T>(parts, r),
    ensures
        double(r) == sum_to(parts.len() as int, |i: int| single(parts[i].1)),
{
    let wide = choose|wide: Seq<Float64>|
        widened_outcome::<T>(parts, wide) && #[trigger] double_sum_outcome::<T>(wide, r);
    lemma_double_sum_exact::<T>(single, double, wide, r);
    assert forall|i: int| 0 <= i < wide.len() implies double(#[trigger] wide[i]) == single(
        parts[i].1,
    ) by {
        assert(call_ensures(T::double_from_single, (parts[i].1,), wide[i]));
    }
    lemma_sum_same(
        wide.len() as int,
        |i: int| double(wide[i]),
        |i: int| single(parts[i].1),
    );
}

proof fn lemma_double_sum_exact<T: FloatArithmetic>(
    single: spec_fn(Float32) -> real,
    double: spec_fn(Float64) -> real,
    terms: Seq<Float64>,
    r: Float64,
)
    requires
        is_double_exact::<T>(single, double),
        double_sum_outcome::<T>(terms, r),
    ensures
        double(r) == sum_to(terms.len() as int, |i: int| double(terms[i])),
    decreases terms.len(),
{
    if terms.len() > 0 {
        let init = terms.drop_last();
        let a = choose|a: Float64|
            double_sum_outcome::<T>(init, a) && #[trigger] call_ensures(
                T::double_add,
                (a, terms.last()),
                r,
            );
        lemma_double_sum_exact::<T>(single, double, init, a);
        lemma_sum_same(init.len() as int, |i: int| double(init[i]), |i: int| double(terms[i]));
    }
}

/// A measured squared Euclidean distance stands for the squared distance.
pub proof fn lemma_l2_exact<T: ArrowFloatType>(
    v: Values<T::Native>,
    x: Seq<T::Native>,
    y: Seq<T::Native>,
    d: Float32,
)
    requires
        is_l2_exact::<T>(v),
        x.len() == y.len(),
        l2_outcome::<T>(x, y, d),
    ensures
        d.less(Float32::spec_infinity()),
        (v.single)(d) == squared_distance(v, x, y),
{
    let (a, b) = choose|a: &[T::Native], b: &[T::Native]|
        a@ == x && b@ == y && #[trigger] call_ensures(T::l2, (a, b), d);
    assert(a@.len() == b@.len());
}

/// Squared distances of stripes add up to the squared distance of what they are
/// stripes of.
pub proof fn lemma_stripes_exact<T: ArrowFloatType>(
    v: Values<T::Native>,
    x: Seq<T::Native>,
    y: Seq<T::Native>,
    stripes: nat,
    d: Float32,
)
    requires
        is_single_exact::<T>(v.single),
        is_l2_exact::<T>(v),
        x.len() == y.len(),
        stripes <= chunk_count(x.len() as int, STRIPE_SIZE as int),
        striped_l2_outcome::<T>(x, y, stripes, d),
    ensures
        d.less(Float32::spec_infinity()),
        (v.single)(d) == sum_to(
            if stripes * STRIPE_SIZE <= x.len() {
                stripes * STRIPE_SIZE
            } else {
                x.len() as int
            },
            |j: int| square((v.coordinate)(x[j]) - (v.coordinate)(y[j])),
        ),
    decreases stripes,
{
    let size = STRIPE_SIZE as int;
    if stripes > 0 {
        let t = stripes - 1;
        let a = chunk(x, size, t);
        let b = chunk(y, size, t);
        let (sum, part) = choose|sum: Float32, part: Float32|
            {
                &&& striped_l2_outcome::<T>(x, y, t as nat, sum)
                &&& l2_outcome::<T>(a, b, part)
                &&& #[trigger] call_ensures(T::single_add, (sum, part), d)
            };
        lemma_chunk_bounds(x.len() as int, size, t);
        lemma_stripes_exact::<T>(v, x, y, t as nat, sum);
        lemma_l2_exact::<T>(v, a, b, part);
        let f = |j: int| square((v.coordinate)(x[j]) - (v.coordinate)(y[j]));
        let g = |j: int| square((v.coordinate)(a[j]) - (v.coordinate)(b[j]));
        assert forall|j: int| 0 <= j < a.len() implies #[trigger] g(j) == f(t * size + j) by {
            assert(a[j] == x[t * size + j]);
            assert(b[j] == y[t * size + j]);
        }
        lemma_sum_splits(t * size, a.len() as int, f, g);
    }
}

/// By squared Euclidean distance a vector is assigned to a centroid that no
/// centroid is nearer than, and its distance is the squared distance.
pub proof fn law_assigned_centroid_is_nearest<T: ArrowFloatType>(
    v: Values<T::Native>,
    from: Seq<T::Native>,
    centroids: Seq<T::Native>,
    dim: int,
    part: (u32, Float32),
)
    requires
        is_single_exact::<T>(v.single),
        is_l2_exact::<T>(v),
        dim > 0,
        from.len() == dim,
        centroids.len() as int / dim > 0,
        l2_nearest_outcome::<T>(from, centroids, dim, part),
    ensures
        part.0 < centroids.len() as int / dim,
        (v.single)(part.1) == squared_distance(v, from, row(centroids, dim, part.0 as int)),
        forall|j: int|
            0 <= j < centroids.len() as int / dim ==> (v.single)(part.1) <= squared_distance(
                v,
                from,
                #[trigger] row(centroids, dim, j),
            ),
{
    let dists = choose|dists: Seq<Float32>|
        {
            &&& #[trigger] l2_distances_outcome::<T>(from, centroids, dim, dists)
            &&& is_argmin_value_float(dists, part)
        };
    assert forall|j: int| 0 <= j < dists.len() implies (#[trigger] dists[j]).less(
        Float32::spec_infinity(),
    ) && (v.single)(dists[j]) == squared_distance(v, from, row(centroids, dim, j)) by {
        let to = row(centroids, dim, j);
        lemma_chunk_is_row(centroids, dim, j);
        if is_tiled(centroids) {
            let stripes = chunk_count(dim, STRIPE_SIZE as int);
            assert(striped_l2_outcome::<T>(
                from,
                row(centroids, dim, 0 + j),
                stripes as nat,
                dists[j],
            ));
            lemma_stripes_exact::<T>(v, from, to, stripes as nat, dists[j]);
        } else {
            assert(l2_batch_outcome::<T>(from, centroids, dim, dists));
            lemma_l2_exact::<T>(v, from, to, dists[j]);
        }
    }
    assert(dists.len() == centroids.len() as int / dim);
    assert(dists[0].less(Float32::spec_infinity()));
    assert(any_below(dists, Float32::spec_infinity()));
    let best = part.0 as int;
    assert forall|j: int| 0 <= j < dists.len() implies (v.single)(part.1) <= squared_distance(
        v,
        from,
        #[trigger] row(centroids, dim, j),
    ) by {
        assert(dists[j].less(Float32::spec_infinity()));
        assert(!dists[j].less(dists[best]));
    }
}

/// The squared distance of vector `i` to the centroid of its cluster in `m`.
pub open spec fn own_distance<N>(v: Values<N>, a: Assignment<N>, m: Model<N>, i: int) -> real {
    squared_distance(
        v,
        row(a.data, a.dimension, i),
        row(m.centroids, a.dimension, a.parts[i].0 as int),
    )
}

/// The sum of the squared distances of vectors to the centroids of their
/// clusters is that of the squared differences of their coordinates.
proof fn lemma_own_distances<N>(v: Values<N>, a: Assignment<N>, m: Model<N>, n: int)
    requires
        a.dimension > 0,
        0 <= n <= a.data.len() as int / a.dimension,
        n <= a.parts.len(),
        a.wf(),
        m.centroids.len() == a.k * a.dimension,
    ensures
        sum_to(n, |i: int| own_distance(v, a, m, i)) == sum_to(
            a.dimension,
            |j: int| sum_to(n, |i: int| difference(v, a, m, i, j)),
        ),
{
    let dim = a.dimension;
    let h = |i: int, j: int| difference(v, a, m, i, j);
    lemma_sum_swaps(n, dim, h);
    let by_row = |i: int| sum_to(dim, |j: int| h(i, j));
    let own = |i: int| own_distance(v, a, m, i);
    assert forall|i: int| 0 <= i < n implies #[trigger] own(i) == by_row(i) by {
        let c = a.parts[i].0 as int;
        let x = row(a.data, dim, i);
        let y = row(m.centroids, dim, c);
        vstd::arithmetic::div_mod::lemma_div_by_multiple(a.k, dim);
        lemma_row_bounds(a.data.len() as int, dim, i);
        lemma_row_bounds(m.centroids.len() as int, dim, c);
        assert forall|j: int| 0 <= j < dim implies #[trigger] h(i, j) == square(
            (v.coordinate)(x[j]) - (v.coordinate)(y[j]),
        ) by {
            assert(x[j] == a.data[i * dim + j]);
            assert(y[j] == m.centroids[place(c, dim, j)]);
        }
        lemma_sum_same(
            dim,
            |j: int| square((v.coordinate)(x[j]) - (v.coordinate)(y[j])),
            |j: int| h(i, j),
        );
    }
    lemma_sum_same(n, own, by_row);
    let by_column = |j: int| sum_to(n, |i: int| h(i, j));
    let stated = |j: int| sum_to(n, |i: int| difference(v, a, m, i, j));
    assert forall|j: int| 0 <= j < dim implies #[trigger] by_column(j) == stated(j) by {
        lemma_sum_same(n, |i: int| h(i, j), |i: int| difference(v, a, m, i, j));
    }
    lemma_sum_same(dim, by_column, stated);
}

/// The squared difference of coordinate `j` of vector `i` and of the centroid of
/// its cluster.
spec fn difference<N>(v: Values<N>, a: Assignment<N>, m: Model<N>, i: int, j: int) -> real {
    square(
        (v.coordinate)(a.data[i * a.dimension + j]) - (v.coordinate)(
            m.centroids[place(a.parts[i].0 as int, a.dimension, j)],
        ),
    )
}

/// In one coordinate, the means have no larger sum of squared differences than
/// other centroids.
proof fn lemma_means_are_central<T: ArrowFloatType>(
    v: Values<T::Native>,
    a: Assignment<T::Native>,
    m: Model<T::Native>,
    w: Model<T::Native>,
    j: int,
)
    requires
        is_coordinate_exact::<T>(v.coordinate),
        a.dimension > 0,
        a.wf(),
        a.parts.len() <= u64::MAX,
        0 <= a.member_count(),
        0 <= j < a.dimension,
        means_outcome::<T>(a, m),
    ensures
        sum_to(a.member_count(), |i: int| difference(v, a, m, i, j)) <= sum_to(
            a.member_count(),
            |i: int| difference(v, a, w, i, j),
        ),
{
    let dim = a.dimension;
    let n = a.member_count();
    let g = |c: int, x: real| square(x - (v.coordinate)(m.centroids[place(c, dim, j)]));
    let e = |c: int, x: real| square(x - (v.coordinate)(w.centroids[place(c, dim, j)]));
    lemma_sum_by_cluster(v.coordinate, a.data, dim, a.parts, n, a.k, j, g);
    lemma_sum_by_cluster(v.coordinate, a.data, dim, a.parts, n, a.k, j, e);
    lemma_sum_same(
        n,
        |i: int| difference(v, a, m, i, j),
        |i: int| g(a.parts[i].0 as int, (v.coordinate)(a.data[i * dim + j])),
    );
    lemma_sum_same(
        n,
        |i: int| difference(v, a, w, i, j),
        |i: int| e(a.parts[i].0 as int, (v.coordinate)(a.data[i * dim + j])),
    );
    let near = |c: int| cluster_sum(v.coordinate, column(a.data, dim, a.parts, n, c, j), g, c);
    let far = |c: int| cluster_sum(v.coordinate, column(a.data, dim, a.parts, n, c, j), e, c);
    assert forall|c: int| 0 <= c < a.k implies #[trigger] near(c) <= far(c) by {
        let terms = column(a.data, dim, a.parts, n, c, j);
        let mean = m.centroids[place(c, dim, j)];
        let other = (v.coordinate)(w.centroids[place(c, dim, j)]);
        let f = |t: int| (v.coordinate)(terms[t]);
        assert(mean_outcome::<T>(terms, mean));
        lemma_column_len(a.data, dim, a.parts, n, c, j);
        lemma_cluster_size_bound(a.parts.take(n), c);
        lemma_mean_exact::<T>(v.coordinate, terms, mean);
        let len = terms.len() as int;
        lemma_sum_same(len, |i: int| (v.coordinate)(terms[i]), f);
        lemma_mean_is_central(len, f, (v.coordinate)(mean), other);
        lemma_sum_same(
            len,
            |t: int| g(c, (v.coordinate)(terms[t])),
            |t: int| square(f(t) - (v.coordinate)(mean)),
        );
        lemma_sum_same(
            len,
            |t: int| e(c, (v.coordinate)(terms[t])),
            |t: int| square(f(t) - other),
        );
    }
    lemma_sum_order(a.k, near, far);
}

/// The means serve their clusters best: the sum of the squared distances of
/// vectors to the centroids of their clusters is not larger for the means than
/// for any other centroids.
pub proof fn law_means_serve_clusters_best<T: ArrowFloatType>(
    v: Values<T::Native>,
    a: Assignment<T::Native>,
    m: Model<T::Native>,
    w: Model<T::Native>,
)
    requires
        is_coordinate_exact::<T>(v.coordinate),
        a.dimension > 0,
        a.wf(),
        a.parts.len() <= u64::MAX,
        means_outcome::<T>(a, m),
        w.centroids.len() == a.k * a.dimension,
    ensures
        sum_to(a.member_count(), |i: int| own_distance(v, a, m, i)) <= sum_to(
            a.member_count(),
            |i: int| own_distance(v, a, w, i),
        ),
{
    let dim = a.dimension;
    let n = a.member_count();
    vstd::arithmetic::div_mod::lemma_div_pos_is_pos(a.data.len() as int, dim);
    lemma_own_distances(v, a, m, n);
    lemma_own_distances(v, a, w, n);
    let mean_columns = |j: int| sum_to(n, |i: int| difference(v, a, m, i, j));
    let other_columns = |j: int| sum_to(n, |i: int| difference(v, a, w, i, j));
    assert forall|j: int| 0 <= j < dim implies #[trigger] mean_columns(j) <= other_columns(
        j,
    ) by {
        lemma_means_are_central::<T>(v, a, m, w, j);
    }
    lemma_sum_order(dim, mean_columns, other_columns);
}

/// The numbers of a cluster lie where those of its vectors do.
proof fn lemma_column_is_between<N>(
    coordinate: spec_fn(N) -> real,
    data: Seq<N>,
    dim: int,
    parts: Seq<(u32, Float32)>,
    n: int,
    c: int,
    j: int,
    low: real,
    high: real,
)
    requires
        n <= parts.len(),
        forall|i: int|
            0 <= i < n && (#[trigger] parts[i]).0 == c ==> low <= coordinate(data[i * dim + j])
                <= high,
    ensures
        forall|t: int|
            0 <= t < column(data, dim, parts, n, c, j).len() ==> low <= coordinate(
                #[trigger] column(data, dim, parts, n, c, j)[t],
            ) <= high,
    decreases n,
{
    if n > 0 {
        lemma_column_is_between(coordinate, data, dim, parts, n - 1, c, j, low, high);
        let shorter = column(data, dim, parts, n - 1, c, j);
        let longer = column(data, dim, parts, n, c, j);
        assert forall|t: int| 0 <= t < longer.len() implies low <= coordinate(
            #[trigger] longer[t],
        ) <= high by {
            if t < shorter.len() {
                assert(longer[t] == shorter[t]);
            } else {
                assert(parts[n - 1].0 == c);
                assert(longer[t] == data[(n - 1) * dim + j]);
            }
        }
    }
}

/// The centroid of a cluster with vectors lies between them: in each coordinate
/// it is within any bounds that its vectors are within.
pub proof fn law_mean_is_between<T: ArrowFloatType>(
    v: Values<T::Native>,
    a: Assignment<T::Native>,
    m: Model<T::Native>,
    c: int,
    j: int,
    low: real,
    high: real,
)
    requires
        is_coordinate_exact::<T>(v.coordinate),
        a.dimension > 0,
        a.parts.len() <= u64::MAX,
        means_outcome::<T>(a, m),
        0 <= c < a.k,
        0 <= j < a.dimension,
        cluster_size(a.parts.take(a.member_count()), c) > 0,
        forall|i: int|
            0 <= i < a.member_count() && (#[trigger] a.parts[i]).0 == c ==> low <= (v.coordinate)(
                a.data[i * a.dimension + j],
            ) <= high,
    ensures
        low <= (v.coordinate)(m.centroids[place(c, a.dimension, j)]) <= high,
{
    let dim = a.dimension;
    let n = a.member_count();
    vstd::arithmetic::div_mod::lemma_div_pos_is_pos(a.data.len() as int, dim);
    let terms = column(a.data, dim, a.parts, n, c, j);
    let mean = m.centroids[place(c, dim, j)];
    assert(mean_outcome::<T>(terms, mean));
    lemma_column_len(a.data, dim, a.parts, n, c, j);
    lemma_cluster_size_bound(a.parts.take(n), c);
    lemma_mean_exact::<T>(v.coordinate, terms, mean);
    lemma_column_is_between(v.coordinate, a.data, dim, a.parts, n, c, j, low, high);
    let len = terms.len() as int;
    let f = |t: int| (v.coordinate)(terms[t]);
    let least = |t: int| low;
    let most = |t: int| high;
    assert forall|t: int| 0 <= t < len implies #[trigger] least(t) <= f(t) by {
        assert(low <= (v.coordinate)(terms[t]));
    }
    assert forall|t: int| 0 <= t < len implies #[trigger] f(t) <= most(t) by {
        assert((v.coordinate)(terms[t]) <= high);
    }
    lemma_sum_order(len, least, f);
    lemma_sum_order(len, f, most);
    lemma_sum_of_equals(len, least, low);
    lemma_sum_of_equals(len, most, high);
    lemma_sum_same(len, |i: int| (v.coordinate)(terms[i]), f);
    lemma_product_order((v.coordinate)(mean), low, len as real);
    lemma_product_order(high, (v.coordinate)(mean), len as real);
}

/// A step of training does not increase the sum of squared distances: the
/// vectors are in all no farther from the means of their clusters, and from the
/// nearest of these, than they were from the centroids before.
pub proof fn law_step_does_not_increase_distances<T: ArrowFloatType>(
    v: Values<T::Native>,
    model: Model<T::Native>,
    data: Seq<T::Native>,
    a: Assignment<T::Native>,
    next: Model<T::Native>,
    b: Assignment<T::Native>,
    before: Float64,
    after: Float64,
)
    requires
        is_exact::<T>(v),
        model.metric_type is L2,
        model.dimension > 0,
        model.k > 0,
        model.centroids.len() == model.k * model.dimension,
        data.len() <= u64::MAX,
        membership_outcome::<T>(model, data, None, Some(a)),
        means_outcome::<T>(a, next),
        membership_outcome::<T>(next, data, None, Some(b)),
        distance_sum_outcome::<T>(a.parts, before),
        distance_sum_outcome::<T>(b.parts, after),
    ensures
        (v.double)(after) <= (v.double)(before),
        !before.less(after),
{
    let dim = model.dimension;
    let n = data.len() as int / dim;
    vstd::arithmetic::div_mod::lemma_div_pos_is_pos(data.len() as int, dim);
    vstd::arithmetic::div_mod::lemma_div_nonincreasing(data.len() as int, dim);
    vstd::arithmetic::div_mod::lemma_div_by_multiple(model.k, dim);
    lemma_distance_sum_exact::<T>(v.single, v.double, a.parts, before);
    lemma_distance_sum_exact::<T>(v.single, v.double, b.parts, after);
    lemma_parts_exact::<T>(v, model, data, a);
    lemma_parts_exact::<T>(v, next, data, b);
    let old_distance = |i: int| own_distance(v, a, model, i);
    let new_distance = |i: int| own_distance(v, a, next, i);
    assert forall|i: int| 0 <= i < n implies (v.single)((#[trigger] a.parts[i]).1) == old_distance(
        i,
    ) by {}
    assert forall|i: int| 0 <= i < n implies (v.single)((#[trigger] b.parts[i]).1) <= new_distance(
        i,
    ) by {
        assert(a.parts[i].0 < a.k);
        let to = row(next.centroids, dim, a.parts[i].0 as int);
        assert((v.single)(b.parts[i].1) <= squared_distance(v, row(data, dim, i), to));
    }
    lemma_sum_same(n, |i: int| (v.single)(a.parts[i].1), old_distance);
    lemma_sum_order(n, |i: int| (v.single)(b.parts[i].1), new_distance);
    assert(a.member_count() == n);
    law_means_serve_clusters_best::<T>(v, a, next, model);
}

/// Each vector of a membership is in a cluster that no centroid is nearer than,
/// and has its squared distance.
proof fn lemma_parts_exact<T: ArrowFloatType>(
    v: Values<T::Native>,
    model: Model<T::Native>,
    data: Seq<T::Native>,
    a: Assignment<T::Native>,
)
    requires
        is_exact::<T>(v),
        model.metric_type is L2,
        model.dimension > 0,
        model.k > 0,
        model.centroids.len() == model.k * model.dimension,
        membership_outcome::<T>(model, data, None, Some(a)),
    ensures
        a.data == data,
        a.dimension == model.dimension,
        a.k == model.k,
        a.metric_type is L2,
        a.parts.len() == data.len() as int / model.dimension,
        a.wf(),
        forall|i: int|
            0 <= i < a.parts.len() ==> (v.single)((#[trigger] a.parts[i]).1) == own_distance(
                v,
                a,
                model,
                i,
            ),
        forall|i: int, c: int|
            0 <= i < a.parts.len() && 0 <= c < model.k ==> (v.single)((#[trigger] a.parts[i]).1)
                <= squared_distance(
                v,
                row(data, model.dimension, i),
                #[trigger] row(model.centroids, model.dimension, c),
            ),
{
    let dim = model.dimension;
    let n = data.len() as int / dim;
    let norms = choose|norms: Seq<Float32>|
        {
            &&& #[trigger] centroid_norms_outcome::<T>(model, norms)
            &&& rows_outcome::<T>(model, data, None, norms, 0, n, Some(a.parts))
        };
    assert(rows_outcome::<T>(model, data, None, norms, 0, n, Some(a.parts)));
    vstd::arithmetic::div_mod::lemma_div_by_multiple(model.k, dim);
    assert forall|i: int| 0 <= i < n implies {
        let part = #[trigger] a.parts[i];
        &&& part.0 < model.k
        &&& (v.single)(part.1) == own_distance(v, a, model, i)
        &&& forall|c: int|
            0 <= c < model.k ==> (v.single)(part.1) <= squared_distance(
                v,
                row(data, dim, i),
                #[trigger] row(model.centroids, dim, c),
            )
    } by {
        assert(row_outcome::<T>(model, data, None, norms, 0 + i, a.parts[i]));
        lemma_chunk_is_row(data, dim, i);
        law_assigned_centroid_is_nearest::<T>(
            v,
            row(data, dim, i),
            model.centroids,
            dim,
            a.parts[i],
        );
    }
}

/// The centroids, weighted by the sizes of their clusters, add up to the sum of
/// all vectors.
pub proof fn law_means_preserve_the_total<T: ArrowFloatType>(
    v: Values<T::Native>,
    a: Assignment<T::Native>,
    m: Model<T::Native>,
    j: int,
)
    requires
        is_coordinate_exact::<T>(v.coordinate),
        a.dimension > 0,
        a.wf(),
        a.parts.len() <= u64::MAX,
        0 <= a.member_count(),
        0 <= j < a.dimension,
        means_outcome::<T>(a, m),
    ensures
        sum_to(
            a.k,
            |c: int|
                (v.coordinate)(m.centroids[place(c, a.dimension, j)]) * cluster_size(
                    a.parts.take(a.member_count()),
                    c,
                ) as int as real,
        ) == sum_to(
            a.member_count(),
            |i: int| (v.coordinate)(a.data[i * a.dimension + j]),
        ),
{
    let dim = a.dimension;
    let n = a.member_count();
    let members = a.parts.take(n);
    let g = |c: int, x: real| x;
    lemma_sum_by_cluster(v.coordinate, a.data, dim, a.parts, n, a.k, j, g);
    lemma_sum_same(
        n,
        |i: int| (v.coordinate)(a.data[i * dim + j]),
        |i: int| g(a.parts[i].0 as int, (v.coordinate)(a.data[i * dim + j])),
    );
    let weighted = |c: int|
        (v.coordinate)(m.centroids[place(c, dim, j)]) * cluster_size(members, c) as int as real;
    let totals = |c: int| cluster_sum(v.coordinate, column(a.data, dim, a.parts, n, c, j), g, c);
    assert forall|c: int| 0 <= c < a.k implies #[trigger] weighted(c) == totals(c) by {
        let terms = column(a.data, dim, a.parts, n, c, j);
        let mean = m.centroids[place(c, dim, j)];
        assert(mean_outcome::<T>(terms, mean));
        lemma_column_len(a.data, dim, a.parts, n, c, j);
        lemma_cluster_size_bound(members, c);
        lemma_mean_exact::<T>(v.coordinate, terms, mean);
        lemma_sum_same(
            terms.len() as int,
            |i: int| (v.coordinate)(terms[i]),
            |t: int| g(c, (v.coordinate)(terms[t])),
        );
    }
    lemma_sum_same(a.k, weighted, totals);
}

} // verus!
