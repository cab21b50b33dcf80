//! The cosine distance does not depend on the lengths of vectors.
//!
//! As in [`exact`](crate::exact), the premise is that every answer that the
//! arithmetic gives is exact.

use vstd::prelude::*;

use crate::distance::MetricType;
use crate::exact::{is_single_exact, Values};
use crate::float::Float32;
use crate::kernels::{is_argmin, is_argmin_value, lemma_argmin_is_unique};
use crate::matrix::{chunk, chunk_count, lemma_chunk_is_row};
use crate::partition::{
    distance_outcome, distances_outcome, ids_outcome, nearest_id_outcome, nearest_outcome,
    norms_outcome, partitions_outcome,
};
use crate::reals::{
    lemma_inner_product_bound, lemma_minus_one, lemma_minus_one_times, lemma_one_times,
    lemma_positive_product, lemma_product_associates, lemma_product_of_negatives,
    lemma_product_order, lemma_products_swap, lemma_root_scales, lemma_square, lemma_sum_same,
    lemma_sum_scales, lemma_times_minus_one, lemma_zero_product, square, sum_to,
};
use crate::scalar::{cosine_fast_outcome, norm_outcome, ArrowFloatType};

verus! {

/// The squared length of a vector.
pub open spec fn squared_length<N>(coordinate: spec_fn(N) -> real, x: Seq<N>) -> real {
    sum_to(x.len() as int, |j: int| square(coordinate(x[j])))
}

/// The inner product of two vectors.
pub open spec fn inner_product<N>(coordinate: spec_fn(N) -> real, x: Seq<N>, y: Seq<N>) -> real {
    sum_to(x.len() as int, |j: int| coordinate(x[j]) * coordinate(y[j]))
}

/// Whether `d` stands for the cosine distance of two vectors, one minus their
/// inner product divided by their lengths; that of the first is `norm`.
pub open spec fn is_cosine_distance<N>(
    coordinate: spec_fn(N) -> real,
    x: Seq<N>,
    norm: real,
    y: Seq<N>,
    d: real,
) -> bool {
    exists|length: real|
        {
            &&& (0 as real) <= length
            &&& #[trigger] square(length) == squared_length(coordinate, y)
            &&& (1 as real - d) * (norm * length) == inner_product(coordinate, x, y)
        }
}

/// Whether lengths of vectors, and cosine distances of vectors that are not
/// zero, are exact.
pub open spec fn is_cosine_exact<T: ArrowFloatType>(v: Values<T::Native>) -> bool {
    &&& forall|x: &[T::Native], r: Float32| #[trigger]
        call_ensures(T::norm_l2, (x,), r) ==> 0 as real <= (v.single)(r) && square((v.single)(r))
            == squared_length(v.coordinate, x@)
    &&& forall|x: &[T::Native], norm: Float32, y: &[T::Native], d: Float32| #[trigger]
        call_ensures(T::cosine_fast, (x, norm, y), d) && x@.len() == y@.len() && square(
            (v.single)(norm),
        ) == squared_length(v.coordinate, x@) && squared_length(v.coordinate, x@) != 0 as real
            && squared_length(v.coordinate, y@) != 0 as real ==> !d.is_nan() && is_cosine_distance(
            v.coordinate,
            x@,
            (v.single)(norm),
            y@,
            (v.single)(d),
        )
}

/// Whether the coordinates of `y` are those of `x` times a factor.
pub open spec fn is_scaled<N>(
    coordinate: spec_fn(N) -> real,
    x: Seq<N>,
    y: Seq<N>,
    factor: real,
) -> bool {
    &&& y.len() == x.len()
    &&& (0 as real) < factor
    &&& forall|j: int| 0 <= j < x.len() ==> coordinate(#[trigger] y[j]) == coordinate(x[j])
        * factor
}

/// The squared length of a scaled vector.
proof fn lemma_scaled_length<N>(
    coordinate: spec_fn(N) -> real,
    x: Seq<N>,
    y: Seq<N>,
    factor: real,
)
    requires
        is_scaled(coordinate, x, y, factor),
    ensures
        squared_length(coordinate, y) == squared_length(coordinate, x) * square(factor),
{
    let f = |j: int| square(coordinate(x[j]));
    let g = |j: int| square(coordinate(y[j]));
    assert forall|j: int| 0 <= j < x.len() implies #[trigger] g(j) == f(j) * square(factor) by {
        assert(coordinate(y[j]) == coordinate(x[j]) * factor);
        lemma_products_swap(coordinate(x[j]), factor, coordinate(x[j]), factor);
    }
    lemma_sum_scales(x.len() as int, f, g, square(factor));
}

/// The inner product of scaled vectors.
proof fn lemma_scaled_product<N>(
    coordinate: spec_fn(N) -> real,
    x: Seq<N>,
    y: Seq<N>,
    a: Seq<N>,
    b: Seq<N>,
    f: real,
    g: real,
)
    requires
        x.len() == y.len(),
        is_scaled(coordinate, x, a, f),
        is_scaled(coordinate, y, b, g),
    ensures
        inner_product(coordinate, a, b) == inner_product(coordinate, x, y) * (f * g),
{
    let p = |j: int| coordinate(x[j]) * coordinate(y[j]);
    let q = |j: int| coordinate(a[j]) * coordinate(b[j]);
    assert forall|j: int| 0 <= j < x.len() implies #[trigger] q(j) == p(j) * (f * g) by {
        assert(coordinate(a[j]) == coordinate(x[j]) * f);
        assert(coordinate(b[j]) == coordinate(y[j]) * g);
        lemma_products_swap(coordinate(x[j]), f, coordinate(y[j]), g);
    }
    lemma_sum_scales(x.len() as int, p, q, f * g);
}

/// The length of a vector that is not zero is positive.
pub proof fn lemma_positive_length(length: real)
    requires
        (0 as real) <= length,
        square(length) != 0 as real,
    ensures
        (0 as real) < length,
{
    lemma_square(length);
}

/// Scaled vectors have the cosine distance of the vectors.
proof fn lemma_scaled_cosine<N>(
    coordinate: spec_fn(N) -> real,
    x: Seq<N>,
    y: Seq<N>,
    a: Seq<N>,
    b: Seq<N>,
    f: real,
    g: real,
    x_norm: real,
    a_norm: real,
    d: real,
    e: real,
)
    requires
        x.len() == y.len(),
        is_scaled(coordinate, x, a, f),
        is_scaled(coordinate, y, b, g),
        (0 as real) <= x_norm,
        (0 as real) <= a_norm,
        square(x_norm) == squared_length(coordinate, x),
        square(a_norm) == squared_length(coordinate, a),
        squared_length(coordinate, x) != 0 as real,
        squared_length(coordinate, y) != 0 as real,
        is_cosine_distance(coordinate, x, x_norm, y, d),
        is_cosine_distance(coordinate, a, a_norm, b, e),
    ensures
        d == e,
{
    let y_norm = choose|length: real|
        {
            &&& (0 as real) <= length
            &&& #[trigger] square(length) == squared_length(coordinate, y)
            &&& (1 as real - d) * (x_norm * length) == inner_product(coordinate, x, y)
        };
    let b_norm = choose|length: real|
        {
            &&& (0 as real) <= length
            &&& #[trigger] square(length) == squared_length(coordinate, b)
            &&& (1 as real - e) * (a_norm * length) == inner_product(coordinate, a, b)
        };
    lemma_scaled_length(coordinate, x, a, f);
    lemma_scaled_length(coordinate, y, b, g);
    lemma_scaled_product(coordinate, x, y, a, b, f, g);
    lemma_root_scales(x_norm, a_norm, f);
    lemma_root_scales(y_norm, b_norm, g);
    lemma_positive_length(x_norm);
    lemma_positive_length(y_norm);
    lemma_products_swap(x_norm, f, y_norm, g);
    let w = x_norm * y_norm;
    let s = f * g;
    lemma_positive_product(x_norm, y_norm);
    lemma_positive_product(f, g);
    lemma_product_associates(1 as real - e, w, s);
    lemma_product_order((1 as real - e) * w, (1 as real - d) * w, s);
    lemma_product_order(1 as real - e, 1 as real - d, w);
}

/// The length of a vector stands for its length.
pub proof fn lemma_norm_exact<T: ArrowFloatType>(
    v: Values<T::Native>,
    x: Seq<T::Native>,
    norm: Float32,
)
    requires
        is_cosine_exact::<T>(v),
        norm_outcome::<T>(x, norm),
    ensures
        (0 as real) <= (v.single)(norm),
        square((v.single)(norm)) == squared_length(v.coordinate, x),
{
    let a = choose|a: &[T::Native]| a@ == x && #[trigger] call_ensures(T::norm_l2, (a,), norm);
    assert(a@ == x);
}

/// A measured cosine distance stands for the cosine distance.
pub proof fn lemma_cosine_exact<T: ArrowFloatType>(
    v: Values<T::Native>,
    x: Seq<T::Native>,
    norm: Float32,
    y: Seq<T::Native>,
    d: Float32,
)
    requires
        is_cosine_exact::<T>(v),
        x.len() == y.len(),
        norm_outcome::<T>(x, norm),
        squared_length(v.coordinate, x) != 0 as real,
        squared_length(v.coordinate, y) != 0 as real,
        cosine_fast_outcome::<T>(x, norm, y, d),
    ensures
        !d.is_nan(),
        is_cosine_distance(v.coordinate, x, (v.single)(norm), y, (v.single)(d)),
{
    lemma_norm_exact::<T>(v, x, norm);
    let (a, b) = choose|a: &[T::Native], b: &[T::Native]|
        a@ == x && b@ == y && #[trigger] call_ensures(T::cosine_fast, (a, norm, b), d);
    assert(a@ == x && b@ == y);
}

/// The inner product of two vectors is between minus and plus the product of
/// their lengths.
proof fn lemma_inner_product_is_bounded<N>(
    coordinate: spec_fn(N) -> real,
    x: Seq<N>,
    y: Seq<N>,
    p: real,
    q: real,
)
    requires
        x.len() == y.len(),
        (0 as real) < p,
        (0 as real) < q,
        square(p) == squared_length(coordinate, x),
        square(q) == squared_length(coordinate, y),
    ensures
        -(p * q) <= inner_product(coordinate, x, y) <= p * q,
{
    let n = x.len() as int;
    let f = |j: int| coordinate(x[j]);
    let g = |j: int| coordinate(y[j]);
    let e = |j: int| -coordinate(y[j]);
    let products = |j: int| f(j) * g(j);
    let negatives = |j: int| f(j) * e(j);
    lemma_sum_same(n, |j: int| square(coordinate(x[j])), |j: int| square(f(j)));
    lemma_sum_same(n, |j: int| square(coordinate(y[j])), |j: int| square(g(j)));
    lemma_sum_same(n, |j: int| coordinate(x[j]) * coordinate(y[j]), products);
    lemma_inner_product_bound(n, f, g, p, q);
    assert forall|j: int| 0 <= j < n implies square(#[trigger] g(j)) == square(e(j)) by {
        lemma_product_of_negatives(g(j), g(j));
    }
    lemma_sum_same(n, |j: int| square(g(j)), |j: int| square(e(j)));
    lemma_inner_product_bound(n, f, e, p, q);
    let minus = -(1 as real);
    assert forall|j: int| 0 <= j < n implies #[trigger] negatives(j) == products(j) * minus by {
        lemma_minus_one(f(j), g(j));
    }
    lemma_sum_scales(n, products, negatives, minus);
    lemma_times_minus_one(sum_to(n, products));
}

/// An exact cosine distance of vectors that are not zero lies between 0 and 2.
pub proof fn law_cosine_distance_is_bounded<T: ArrowFloatType>(
    v: Values<T::Native>,
    x: Seq<T::Native>,
    norm: Float32,
    y: Seq<T::Native>,
    d: Float32,
)
    requires
        is_cosine_exact::<T>(v),
        x.len() == y.len(),
        norm_outcome::<T>(x, norm),
        squared_length(v.coordinate, x) != 0 as real,
        squared_length(v.coordinate, y) != 0 as real,
        cosine_fast_outcome::<T>(x, norm, y, d),
    ensures
        !d.is_nan(),
        (0 as real) <= (v.single)(d) <= 2 as real,
{
    lemma_norm_exact::<T>(v, x, norm);
    lemma_cosine_exact::<T>(v, x, norm, y, d);
    let p = (v.single)(norm);
    let q = choose|length: real|
        {
            &&& (0 as real) <= length
            &&& #[trigger] square(length) == squared_length(v.coordinate, y)
            &&& (1 as real - (v.single)(d)) * (p * length) == inner_product(v.coordinate, x, y)
        };
    lemma_positive_length(p);
    lemma_positive_length(q);
    lemma_inner_product_is_bounded(v.coordinate, x, y, p, q);
    let w = p * q;
    lemma_positive_product(p, q);
    let cosine = 1 as real - (v.single)(d);
    lemma_one_times(w);
    lemma_minus_one_times(w);
    lemma_product_order(1 as real, cosine, w);
    lemma_product_order(cosine, -(1 as real), w);
}

/// Scaled vectors are measured as far from each other as the vectors.
proof fn lemma_scaled_measure<T: ArrowFloatType>(
    v: Values<T::Native>,
    x: Seq<T::Native>,
    a: Seq<T::Native>,
    f: real,
    x_norm: Float32,
    a_norm: Float32,
    y: Seq<T::Native>,
    b: Seq<T::Native>,
    g: real,
    d: Float32,
    e: Float32,
)
    requires
        is_cosine_exact::<T>(v),
        x.len() == y.len(),
        is_scaled(v.coordinate, x, a, f),
        is_scaled(v.coordinate, y, b, g),
        squared_length(v.coordinate, x) != 0 as real,
        squared_length(v.coordinate, y) != 0 as real,
        norm_outcome::<T>(x, x_norm),
        norm_outcome::<T>(a, a_norm),
        cosine_fast_outcome::<T>(x, x_norm, y, d),
        cosine_fast_outcome::<T>(a, a_norm, b, e),
    ensures
        !d.is_nan(),
        !e.is_nan(),
        (v.single)(e) == (v.single)(d),
{
    lemma_scaled_is_not_zero(v.coordinate, x, a, f);
    lemma_scaled_is_not_zero(v.coordinate, y, b, g);
    lemma_norm_exact::<T>(v, x, x_norm);
    lemma_norm_exact::<T>(v, a, a_norm);
    lemma_cosine_exact::<T>(v, x, x_norm, y, d);
    lemma_cosine_exact::<T>(v, a, a_norm, b, e);
    lemma_scaled_cosine(
        v.coordinate,
        x,
        y,
        a,
        b,
        f,
        g,
        (v.single)(x_norm),
        (v.single)(a_norm),
        (v.single)(d),
        (v.single)(e),
    );
}

/// A scaled vector is zero only where the vector is.
proof fn lemma_scaled_is_not_zero<N>(
    coordinate: spec_fn(N) -> real,
    x: Seq<N>,
    y: Seq<N>,
    factor: real,
)
    requires
        is_scaled(coordinate, x, y, factor),
        squared_length(coordinate, x) != 0 as real,
    ensures
        squared_length(coordinate, y) != 0 as real,
{
    lemma_scaled_length(coordinate, x, y, factor);
    lemma_positive_product(factor, factor);
    lemma_product_order(squared_length(coordinate, x), 0 as real, square(factor));
    lemma_zero_product(0 as real, square(factor));
}

/// Numbers that stand for the same real numbers have their smallest in the same
/// place.
proof fn lemma_same_argmin<T: ArrowFloatType>(
    single: spec_fn(Float32) -> real,
    values: Seq<Float32>,
    others: Seq<Float32>,
    p: Option<(u32, Float32)>,
    q: Option<(u32, Float32)>,
)
    requires
        is_single_exact::<T>(single),
        values.len() == others.len(),
        forall|j: int| 0 <= j < values.len() ==> !(#[trigger] values[j]).is_nan(),
        forall|j: int|
            0 <= j < others.len() ==> !(#[trigger] others[j]).is_nan() && single(others[j])
                == single(values[j]),
        is_argmin_value(values, p),
        is_argmin_value(others, q),
    ensures
        p is Some == q is Some,
        p is Some ==> p->Some_0.0 == q->Some_0.0,
{
    let bound = Float32::spec_max();
    assert(!bound.is_nan());
    assert forall|i: int, j: int|
        0 <= i < values.len() && 0 <= j < values.len() implies #[trigger] values[i].less(values[j])
        == others[i].less(others[j]) by {
        assert(!others[i].is_nan() && !others[j].is_nan());
    }
    assert forall|i: int| 0 <= i < values.len() implies (#[trigger] values[i]).less(bound)
        == others[i].less(bound) by {
        assert(!others[i].is_nan());
    }
    match (p, q) {
        (Some(a), Some(b)) => {
            let i = b.0 as int;
            assert(values[i].less(bound) == others[i].less(bound));
            assert forall|j: int| 0 <= j < values.len() implies !(#[trigger] values[j]).less(
                values[i],
            ) by {
                assert(values[j].less(values[i]) == others[j].less(others[i]));
            }
            assert forall|j: int|
                0 <= j < i && (#[trigger] values[j]).less(bound) implies values[i].less(
                values[j],
            ) by {
                assert(others[j].less(bound));
                assert(values[i].less(values[j]) == others[i].less(others[j]));
            }
            assert(is_argmin(values, bound, i));
            lemma_argmin_is_unique(values, bound, a.0 as int, i);
        },
        (Some(a), None) => {
            assert(values[a.0 as int].less(bound));
            assert(others[a.0 as int].less(bound));
        },
        (None, Some(b)) => {
            assert(others[b.0 as int].less(bound));
            assert(values[b.0 as int].less(bound));
        },
        (None, None) => {},
    }
}

/// Whether the vectors of `others` are those of `data`, each times a factor of
/// its own, and none of them is zero.
pub open spec fn are_scaled<N>(
    coordinate: spec_fn(N) -> real,
    data: Seq<N>,
    others: Seq<N>,
    dim: int,
    factors: spec_fn(int) -> real,
) -> bool {
    &&& data.len() == others.len()
    &&& data.len() as int % dim == 0
    &&& forall|i: int|
        0 <= i < data.len() as int / dim ==> {
            &&& is_scaled(
                coordinate,
                #[trigger] chunk(data, dim, i),
                chunk(others, dim, i),
                factors(i),
            )
            &&& squared_length(coordinate, chunk(data, dim, i)) != 0 as real
        }
}

/// Vectors that are scaled, and centroids that are scaled, have the same nearest
/// centroids by cosine distance.
proof fn lemma_scaled_nearest<T: ArrowFloatType>(
    v: Values<T::Native>,
    from: Seq<T::Native>,
    scaled_from: Seq<T::Native>,
    factor: real,
    centroids: Seq<T::Native>,
    scaled: Seq<T::Native>,
    factors: spec_fn(int) -> real,
    dim: int,
    norms: Seq<Float32>,
    scaled_norms: Seq<Float32>,
    p: Option<(u32, Float32)>,
    q: Option<(u32, Float32)>,
)
    requires
        dim > 0,
        is_single_exact::<T>(v.single),
        is_cosine_exact::<T>(v),
        from.len() == dim,
        is_scaled(v.coordinate, from, scaled_from, factor),
        squared_length(v.coordinate, from) != 0 as real,
        are_scaled(v.coordinate, centroids, scaled, dim, factors),
        norms.len() == centroids.len() as int / dim,
        scaled_norms.len() == norms.len(),
        norms_outcome::<T>(centroids, dim, norms),
        norms_outcome::<T>(scaled, dim, scaled_norms),
        nearest_outcome::<T>(
            MetricType::Cosine,
            from,
            None,
            centroids,
            dim,
            norms.len() as int,
            norms,
            p,
        ),
        nearest_outcome::<T>(
            MetricType::Cosine,
            scaled_from,
            None,
            scaled,
            dim,
            norms.len() as int,
            scaled_norms,
            q,
        ),
    ensures
        p is Some == q is Some,
        p is Some ==> p->Some_0.0 == q->Some_0.0,
{
    let a = choose|dists: Seq<Float32>|
        {
            &&& dists.len() == norms.len()
            &&& #[trigger] distances_outcome::<T>(
                MetricType::Cosine,
                from,
                None,
                centroids,
                dim,
                norms,
                dists,
            )
            &&& is_argmin_value(dists, p)
        };
    let b = choose|dists: Seq<Float32>|
        {
            &&& dists.len() == norms.len()
            &&& #[trigger] distances_outcome::<T>(
                MetricType::Cosine,
                scaled_from,
                None,
                scaled,
                dim,
                scaled_norms,
                dists,
            )
            &&& is_argmin_value(dists, q)
        };
    assert forall|j: int| 0 <= j < a.len() implies !(#[trigger] a[j]).is_nan() && !b[j].is_nan()
        && (v.single)(b[j]) == (v.single)(a[j]) by {
        let x = chunk(centroids, dim, j);
        let y = chunk(scaled, dim, j);
        lemma_chunk_is_row(centroids, dim, j);
        assert(norm_outcome::<T>(x, norms[j]));
        assert(norm_outcome::<T>(y, scaled_norms[j]));
        assert(distance_outcome::<T>(MetricType::Cosine, from, None, x, norms[j], a[j]));
        assert(distance_outcome::<T>(
            MetricType::Cosine,
            scaled_from,
            None,
            y,
            scaled_norms[j],
            b[j],
        ));
        lemma_scaled_measure::<T>(
            v,
            x,
            y,
            factors(j),
            norms[j],
            scaled_norms[j],
            from,
            scaled_from,
            factor,
            a[j],
            b[j],
        );
    }
    assert forall|j: int| 0 <= j < b.len() implies !(#[trigger] b[j]).is_nan() && (v.single)(b[j])
        == (v.single)(a[j]) by {
        assert(!a[j].is_nan());
    }
    lemma_same_argmin::<T>(v.single, a, b, p, q);
}

/// Scaling vectors and centroids, each by a factor of its own, does not change
/// which centroids are nearest by cosine distance.
pub proof fn law_cosine_ignores_scale<T: ArrowFloatType>(
    v: Values<T::Native>,
    centroids: Seq<T::Native>,
    scaled_centroids: Seq<T::Native>,
    centroid_factors: spec_fn(int) -> real,
    data: Seq<T::Native>,
    scaled_data: Seq<T::Native>,
    data_factors: spec_fn(int) -> real,
    dim: int,
    r: Option<Seq<u32>>,
    s: Option<Seq<u32>>,
)
    requires
        dim > 0,
        is_single_exact::<T>(v.single),
        is_cosine_exact::<T>(v),
        are_scaled(v.coordinate, centroids, scaled_centroids, dim, centroid_factors),
        are_scaled(v.coordinate, data, scaled_data, dim, data_factors),
        partitions_outcome::<T>(MetricType::Cosine, centroids, data, dim, r),
        partitions_outcome::<T>(MetricType::Cosine, scaled_centroids, scaled_data, dim, s),
    ensures
        r == s,
{
    let count = centroids.len() as int / dim;
    let n = data.len() as int / dim;
    let norms = choose|norms: Seq<Float32>|
        {
            &&& norms.len() == chunk_count(centroids.len() as int, dim)
            &&& #[trigger] norms_outcome::<T>(centroids, dim, norms)
            &&& ids_outcome::<T>(MetricType::Cosine, centroids, data, dim, norms, r)
        };
    let scaled_norms = choose|norms: Seq<Float32>|
        {
            &&& norms.len() == chunk_count(scaled_centroids.len() as int, dim)
            &&& #[trigger] norms_outcome::<T>(scaled_centroids, dim, norms)
            &&& ids_outcome::<T>(MetricType::Cosine, scaled_centroids, scaled_data, dim, norms, s)
        };
    assert forall|i: int, p: Option<(u32, Float32)>, q: Option<(u32, Float32)>|
        0 <= i < n && #[trigger] nearest_outcome::<T>(
            MetricType::Cosine,
            chunk(data, dim, i),
            None,
            centroids,
            dim,
            count,
            norms,
            p,
        ) && #[trigger] nearest_outcome::<T>(
            MetricType::Cosine,
            chunk(scaled_data, dim, i),
            None,
            scaled_centroids,
            dim,
            count,
            scaled_norms,
            q,
        ) implies p is Some == q is Some && (p is Some ==> p->Some_0.0 == q->Some_0.0) by {
        lemma_chunk_is_row(data, dim, i);
        lemma_scaled_nearest::<T>(
            v,
            chunk(data, dim, i),
            chunk(scaled_data, dim, i),
            data_factors(i),
            centroids,
            scaled_centroids,
            centroid_factors,
            dim,
            norms,
            scaled_norms,
            p,
            q,
        );
    }
    match (r, s) {
        (Some(a), Some(b)) => {
            assert forall|i: int| 0 <= i < n implies #[trigger] a[i] == b[i] by {
                let x = lemma_nearest_of_id::<T>(data, centroids, dim, count, norms, i, a[i]);
                let y = lemma_nearest_of_id::<T>(
                    scaled_data,
                    scaled_centroids,
                    dim,
                    count,
                    scaled_norms,
                    i,
                    b[i],
                );
            }
            assert(a =~= b);
        },
        (Some(a), None) => {
            let i = choose|i: int|
                0 <= i < n && nearest_outcome::<T>(
                    MetricType::Cosine,
                    #[trigger] chunk(scaled_data, dim, i),
                    None,
                    scaled_centroids,
                    dim,
                    count,
                    scaled_norms,
                    None,
                );
            assert(nearest_id_outcome::<T>(
                MetricType::Cosine,
                chunk(data, dim, i),
                centroids,
                dim,
                count,
                norms,
                a[i],
            ));
            let x = lemma_nearest_of_id::<T>(data, centroids, dim, count, norms, i, a[i]);
        },
        (None, Some(b)) => {
            let i = choose|i: int|
                0 <= i < n && nearest_outcome::<T>(
                    MetricType::Cosine,
                    #[trigger] chunk(data, dim, i),
                    None,
                    centroids,
                    dim,
                    count,
                    norms,
                    None,
                );
            assert(nearest_id_outcome::<T>(
                MetricType::Cosine,
                chunk(scaled_data, dim, i),
                scaled_centroids,
                dim,
                count,
                scaled_norms,
                b[i],
            ));
            let y = lemma_nearest_of_id::<T>(
                scaled_data,
                scaled_centroids,
                dim,
                count,
                scaled_norms,
                i,
                b[i],
            );
        },
        (None, None) => {},
    }
}

/// The distance behind the place of a nearest centroid.
proof fn lemma_nearest_of_id<T: ArrowFloatType>(
    data: Seq<T::Native>,
    centroids: Seq<T::Native>,
    dim: int,
    count: int,
    norms: Seq<Float32>,
    i: int,
    id: u32,
) -> (d: Float32)
    requires
        nearest_id_outcome::<T>(
            MetricType::Cosine,
            chunk(data, dim, i),
            centroids,
            dim,
            count,
            norms,
            id,
        ),
    ensures
        nearest_outcome::<T>(
            MetricType::Cosine,
            chunk(data, dim, i),
            None,
            centroids,
            dim,
            count,
            norms,
            Some((id, d)),
        ),
{
    choose|d: Float32| #[trigger]
        nearest_outcome::<T>(
            MetricType::Cosine,
            chunk(data, dim, i),
            None,
            centroids,
            dim,
            count,
            norms,
            Some((id, d)),
        )
}

} // verus!
