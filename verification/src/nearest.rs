//! Which centroid is nearest.
//!
//! As in [`exact`](crate::exact), the premise is that every answer that the
//! arithmetic gives is exact.

use vstd::prelude::*;

use crate::assign::{
    centroid_norms_outcome, membership_outcome, row_norm, row_outcome, rows_outcome,
};
use crate::distance::{l2_batch_outcome, MetricType};
use crate::exact::{
    is_l2_exact, is_single_exact, lemma_l2_exact, lemma_stripes_exact, squared_distance, Values,
};
use crate::float::Float32;
use crate::kernels::{any_below, is_argmin, is_argmin_value, is_argmin_value_float};
use crate::matrix::{chunk, chunk_count, lemma_chunk_bounds, lemma_chunk_is_row, row};
use crate::membership::Assignment;
use crate::model::Model;
use crate::partition::{
    distance_outcome, distances_outcome, ids_of, ids_outcome, nearest_id_outcome, nearest_outcome,
    norms_outcome, partitions_outcome,
};
use crate::reals::{
    lemma_positive_product, lemma_product_associates, lemma_product_commutes, lemma_product_order,
    lemma_square_order, lemma_sum_same, square,
};
use crate::scalar::{dot_outcome, norm_outcome, ArrowFloatType};
use crate::scaling::{
    inner_product, is_cosine_exact, law_cosine_distance_is_bounded, lemma_cosine_exact,
    lemma_norm_exact, lemma_positive_length, squared_length,
};
use crate::tiles::{
    incomparable_tile, is_tiled, l2_distances_outcome, l2_incomparable_outcome, l2_nearest_outcome,
    l2_partitions_outcome, striped_l2_outcome, STRIPE_SIZE, TILE_SIZE,
};

verus! {

/// The `i`-th of vectors of width `dim` that lie one after the other.
pub open spec fn vector<N>(s: Seq<N>, dim: int, i: int) -> Seq<N> {
    s.subrange(i * dim, i * dim + dim)
}

/// Whether distances by inner product are exact: one minus the inner product.
pub open spec fn is_dot_exact<T: ArrowFloatType>(v: Values<T::Native>) -> bool {
    forall|x: &[T::Native], y: &[T::Native], d: Float32| #[trigger]
        call_ensures(T::dot_distance, (x, y), d) && x@.len() == y@.len() ==> !d.is_nan()
            && (v.single)(d) == 1 as real - inner_product(v.coordinate, x@, y@)
}

/// Whether cosine distances of vectors that are not zero, and whose lengths are
/// both known, are exact.
pub open spec fn is_known_cosine_exact<T: ArrowFloatType>(v: Values<T::Native>) -> bool {
    forall|x: &[T::Native], x_norm: Float32, y_norm: Float32, y: &[T::Native], d: Float32|
        #[trigger]
        call_ensures(T::cosine_with_norms, (x, x_norm, y_norm, y), d) && x@.len() == y@.len()
            && square((v.single)(x_norm)) == squared_length(v.coordinate, x@) && square(
            (v.single)(y_norm),
        ) == squared_length(v.coordinate, y@) && squared_length(v.coordinate, x@) != 0 as real
            && squared_length(v.coordinate, y@) != 0 as real ==> !d.is_nan() && (1 as real
            - (v.single)(d)) * ((v.single)(x_norm) * (v.single)(y_norm)) == inner_product(
            v.coordinate,
            x@,
            y@,
        )
}

/// The whole pieces of a sequence are its vectors.
pub proof fn lemma_chunk_is_vector<N>(s: Seq<N>, dim: int, i: int)
    requires
        0 < dim,
        0 <= i < s.len() as int / dim,
    ensures
        chunk(s, dim, i) == vector(s, dim, i),
        row(s, dim, i) == vector(s, dim, i),
        vector(s, dim, i).len() == dim,
{
    lemma_chunk_is_row(s, dim, i);
    lemma_chunk_bounds(s.len() as int, dim, i);
}

/// The first of the smallest numbers stands for a real number that no other is
/// below, and that those before it are above.
proof fn lemma_first_of_smallest<T: ArrowFloatType>(
    single: spec_fn(Float32) -> real,
    values: Seq<Float32>,
    bound: Float32,
    i: int,
    j: int,
)
    requires
        is_single_exact::<T>(single),
        !bound.is_nan(),
        is_argmin(values, bound, i),
        0 <= j < values.len(),
        !values[j].is_nan(),
    ensures
        single(values[i]) <= single(values[j]),
        j < i ==> single(values[i]) < single(values[j]),
{
    assert(!values[j].less(values[i]));
    assert(values[i].less(bound));
    if j < i && !values[j].less(bound) {
        assert(single(values[i]) < single(bound));
        assert(!(single(values[j]) < single(bound)));
    }
}

/// A distance by inner product stands for one minus the inner product.
proof fn lemma_dot_exact<T: ArrowFloatType>(
    v: Values<T::Native>,
    x: Seq<T::Native>,
    y: Seq<T::Native>,
    d: Float32,
)
    requires
        is_dot_exact::<T>(v),
        x.len() == y.len(),
        dot_outcome::<T>(x, y, d),
    ensures
        !d.is_nan(),
        (v.single)(d) == 1 as real - inner_product(v.coordinate, x, y),
{
    let (a, b) = choose|a: &[T::Native], b: &[T::Native]|
        a@ == x && b@ == y && #[trigger] call_ensures(T::dot_distance, (a, b), d);
    assert(a@.len() == b@.len());
}

/// Of a vector measured by inner product, the nearest centroid has the largest.
proof fn lemma_nearest_by_dot<T: ArrowFloatType>(
    v: Values<T::Native>,
    from: Seq<T::Native>,
    from_norm: Option<Float32>,
    centroids: Seq<T::Native>,
    dim: int,
    count: int,
    norms: Seq<Float32>,
    part: (u32, Float32),
    c: int,
)
    requires
        is_single_exact::<T>(v.single),
        is_dot_exact::<T>(v),
        dim > 0,
        from.len() == dim,
        count == centroids.len() as int / dim,
        nearest_outcome::<T>(
            MetricType::Dot,
            from,
            from_norm,
            centroids,
            dim,
            count,
            norms,
            Some(part),
        ),
        0 <= c < count,
    ensures
        part.0 < count,
        (v.single)(part.1) == 1 as real - inner_product(
            v.coordinate,
            from,
            vector(centroids, dim, part.0 as int),
        ),
        inner_product(v.coordinate, from, vector(centroids, dim, c)) <= inner_product(
            v.coordinate,
            from,
            vector(centroids, dim, part.0 as int),
        ),
        c < part.0 ==> inner_product(v.coordinate, from, vector(centroids, dim, c))
            < inner_product(v.coordinate, from, vector(centroids, dim, part.0 as int)),
{
    let metric = MetricType::Dot;
    let dists = choose|dists: Seq<Float32>|
        {
            &&& dists.len() == count
            &&& #[trigger] distances_outcome::<T>(
                metric,
                from,
                from_norm,
                centroids,
                dim,
                norms,
                dists,
            )
            &&& is_argmin_value(dists, Some(part))
        };
    assert forall|j: int| 0 <= j < count implies !(#[trigger] dists[j]).is_nan() && (v.single)(
        dists[j],
    ) == 1 as real - inner_product(v.coordinate, from, vector(centroids, dim, j)) by {
        let to = chunk(centroids, dim, j);
        lemma_chunk_is_vector(centroids, dim, j);
        assert(distance_outcome::<T>(metric, from, from_norm, to, norms[j], dists[j]));
        lemma_dot_exact::<T>(v, from, to, dists[j]);
    }
    let bound = Float32::spec_max();
    lemma_first_of_smallest::<T>(v.single, dists, bound, part.0 as int, c);
    assert(!dists[part.0 as int].is_nan());
}

/// Assigning a vector by inner product gives it a centroid that has the largest
/// inner product with it of all, and of such centroids the first.
pub proof fn law_partition_by_dot_has_largest_product<T: ArrowFloatType>(
    v: Values<T::Native>,
    centroids: Seq<T::Native>,
    data: Seq<T::Native>,
    dim: int,
    ids: Seq<u32>,
    i: int,
    c: int,
)
    requires
        is_single_exact::<T>(v.single),
        is_dot_exact::<T>(v),
        dim > 0,
        centroids.len() as int % dim == 0,
        partitions_outcome::<T>(MetricType::Dot, centroids, data, dim, Some(ids)),
        0 <= i < data.len() as int / dim,
        0 <= c < centroids.len() as int / dim,
    ensures
        i < ids.len(),
        ids[i] < centroids.len() as int / dim,
        inner_product(v.coordinate, vector(data, dim, i), vector(centroids, dim, c))
            <= inner_product(
            v.coordinate,
            vector(data, dim, i),
            vector(centroids, dim, ids[i] as int),
        ),
        c < ids[i] ==> inner_product(
            v.coordinate,
            vector(data, dim, i),
            vector(centroids, dim, c),
        ) < inner_product(
            v.coordinate,
            vector(data, dim, i),
            vector(centroids, dim, ids[i] as int),
        ),
{
    let metric = MetricType::Dot;
    let norms = Seq::<Float32>::empty();
    let count = chunk_count(centroids.len() as int, dim);
    assert(ids_outcome::<T>(metric, centroids, data, dim, norms, Some(ids)));
    let from = chunk(data, dim, i);
    lemma_chunk_is_vector(data, dim, i);
    assert(nearest_id_outcome::<T>(metric, from, centroids, dim, count, norms, ids[i]));
    let d = choose|d: Float32| #[trigger]
        nearest_outcome::<T>(metric, from, None, centroids, dim, count, norms, Some((ids[i], d)));
    lemma_nearest_by_dot::<T>(v, from, None, centroids, dim, count, norms, (ids[i], d), c);
}

/// What a row of a membership was measured to.
pub proof fn lemma_membership_row<T: ArrowFloatType>(
    model: Model<T::Native>,
    data: Seq<T::Native>,
    norm_data: Option<Seq<Float32>>,
    a: Assignment<T::Native>,
    i: int,
) -> (norms: Seq<Float32>)
    requires
        model.dimension > 0,
        membership_outcome::<T>(model, data, norm_data, Some(a)),
        0 <= i < data.len() as int / model.dimension,
    ensures
        a.parts.len() == data.len() as int / model.dimension,
        centroid_norms_outcome::<T>(model, norms),
        row_outcome::<T>(model, data, norm_data, norms, i, a.parts[i]),
        row(data, model.dimension, i) == vector(data, model.dimension, i),
        vector(data, model.dimension, i).len() == model.dimension,
{
    let n = data.len() as int / model.dimension;
    let norms = choose|norms: Seq<Float32>|
        {
            &&& #[trigger] centroid_norms_outcome::<T>(model, norms)
            &&& rows_outcome::<T>(model, data, norm_data, norms, 0, n, Some(a.parts))
        };
    assert(rows_outcome::<T>(model, data, norm_data, norms, 0, n, Some(a.parts)));
    assert(row_outcome::<T>(model, data, norm_data, norms, 0 + i, a.parts[i]));
    lemma_chunk_is_vector(data, model.dimension, i);
    norms
}

/// The clusters of a model by inner product are those of the centroids that have
/// the largest inner products with their vectors, the first of them; distances
/// are one minus these. Known lengths do not matter.
pub proof fn law_member_by_dot_has_largest_product<T: ArrowFloatType>(
    v: Values<T::Native>,
    model: Model<T::Native>,
    data: Seq<T::Native>,
    norm_data: Option<Seq<Float32>>,
    a: Assignment<T::Native>,
    i: int,
    c: int,
)
    requires
        is_single_exact::<T>(v.single),
        is_dot_exact::<T>(v),
        model.metric_type is Dot,
        model.dimension > 0,
        membership_outcome::<T>(model, data, norm_data, Some(a)),
        0 <= i < data.len() as int / model.dimension,
        0 <= c < model.centroids.len() as int / model.dimension,
    ensures
        i < a.parts.len(),
        a.parts[i].0 < model.centroids.len() as int / model.dimension,
        (v.single)(a.parts[i].1) == 1 as real - inner_product(
            v.coordinate,
            vector(data, model.dimension, i),
            vector(model.centroids, model.dimension, a.parts[i].0 as int),
        ),
        inner_product(
            v.coordinate,
            vector(data, model.dimension, i),
            vector(model.centroids, model.dimension, c),
        ) <= inner_product(
            v.coordinate,
            vector(data, model.dimension, i),
            vector(model.centroids, model.dimension, a.parts[i].0 as int),
        ),
        c < a.parts[i].0 ==> inner_product(
            v.coordinate,
            vector(data, model.dimension, i),
            vector(model.centroids, model.dimension, c),
        ) < inner_product(
            v.coordinate,
            vector(data, model.dimension, i),
            vector(model.centroids, model.dimension, a.parts[i].0 as int),
        ),
{
    let dim = model.dimension;
    let norms = lemma_membership_row::<T>(model, data, norm_data, a, i);
    lemma_nearest_by_dot::<T>(
        v,
        row(data, dim, i),
        row_norm(model.metric_type, norm_data, i),
        model.centroids,
        dim,
        model.count(),
        norms,
        a.parts[i],
        c,
    );
}

/// Where vectors cannot be assigned by inner product, one of them has with no
/// centroid an inner product that gives a distance below the largest finite
/// number.
pub proof fn law_no_partition_by_dot<T: ArrowFloatType>(
    v: Values<T::Native>,
    centroids: Seq<T::Native>,
    data: Seq<T::Native>,
    dim: int,
)
    requires
        is_single_exact::<T>(v.single),
        is_dot_exact::<T>(v),
        dim > 0,
        centroids.len() as int % dim == 0,
        data.len() as int % dim == 0,
        partitions_outcome::<T>(MetricType::Dot, centroids, data, dim, None),
    ensures
        exists|i: int|
            0 <= i < data.len() as int / dim && forall|c: int|
                0 <= c < centroids.len() as int / dim ==> (v.single)(
                    Float32 { bits: 0x7f7f_ffff },
                ) <= 1 as real - inner_product(
                    v.coordinate,
                    #[trigger] vector(data, dim, i),
                    #[trigger] vector(centroids, dim, c),
                ),
{
    let metric = MetricType::Dot;
    let norms = Seq::<Float32>::empty();
    let count = chunk_count(centroids.len() as int, dim);
    assert(ids_outcome::<T>(metric, centroids, data, dim, norms, None));
    let i = choose|i: int|
        0 <= i < chunk_count(data.len() as int, dim) && nearest_outcome::<T>(
            metric,
            #[trigger] chunk(data, dim, i),
            None,
            centroids,
            dim,
            count,
            norms,
            None,
        );
    let from = chunk(data, dim, i);
    lemma_chunk_is_vector(data, dim, i);
    let dists = choose|dists: Seq<Float32>|
        {
            &&& dists.len() == count
            &&& #[trigger] distances_outcome::<T>(
                metric,
                from,
                None,
                centroids,
                dim,
                norms,
                dists,
            )
            &&& is_argmin_value(dists, None)
        };
    assert forall|c: int| 0 <= c < count implies (v.single)(Float32 { bits: 0x7f7f_ffff })
        <= 1 as real - inner_product(
        v.coordinate,
        vector(data, dim, i),
        #[trigger] vector(centroids, dim, c),
    ) by {
        let to = chunk(centroids, dim, c);
        lemma_chunk_is_vector(centroids, dim, c);
        assert(distance_outcome::<T>(metric, from, None, to, norms[c], dists[c]));
        lemma_dot_exact::<T>(v, from, to, dists[c]);
        assert(!dists[c].less(Float32::spec_max()));
        assert(!Float32::spec_max().is_nan());
    }
    assert(vector(data, dim, i) == from);
}

/// The inner product does not depend on which vector comes first.
proof fn lemma_inner_product_commutes<N>(coordinate: spec_fn(N) -> real, x: Seq<N>, y: Seq<N>)
    requires
        x.len() == y.len(),
    ensures
        inner_product(coordinate, x, y) == inner_product(coordinate, y, x),
{
    let f = |j: int| coordinate(x[j]) * coordinate(y[j]);
    let g = |j: int| coordinate(y[j]) * coordinate(x[j]);
    assert forall|j: int| 0 <= j < x.len() implies #[trigger] f(j) == g(j) by {
        lemma_product_commutes(coordinate(x[j]), coordinate(y[j]));
    }
    lemma_sum_same(x.len() as int, f, g);
}

/// Numbers that are not negative and have the same square are the same.
pub proof fn lemma_same_root(x: real, y: real)
    requires
        (0 as real) <= x,
        (0 as real) <= y,
        square(x) == square(y),
    ensures
        x == y,
{
    if x < y {
        lemma_square_order(x, y);
    } else if y < x {
        lemma_square_order(y, x);
    }
}

proof fn lemma_factors_regroup(x: real, q: real, l: real, p: real)
    ensures
        (x * (q * l)) * p == x * ((p * q) * l),
{
    lemma_product_associates(x, q * l, p);
    lemma_product_commutes(q * l, p);
    lemma_product_associates(p, q, l);
}

/// `d` stands for a cosine distance: one minus the inner product divided by the
/// two lengths.
spec fn is_cosine<N>(
    coordinate: spec_fn(N) -> real,
    x: Seq<N>,
    p: real,
    y: Seq<N>,
    q: real,
    d: real,
) -> bool {
    (1 as real - d) * (p * q) == inner_product(coordinate, x, y)
}

/// Where a centroid is not farther by cosine distance, its inner product divided
/// by its length is not smaller.
proof fn lemma_cosine_order<N>(
    coordinate: spec_fn(N) -> real,
    from: Seq<N>,
    length: real,
    near: Seq<N>,
    p: real,
    d: real,
    far: Seq<N>,
    q: real,
    e: real,
)
    requires
        (0 as real) < length,
        (0 as real) < p,
        (0 as real) < q,
        is_cosine(coordinate, near, p, from, length, d),
        is_cosine(coordinate, far, q, from, length, e),
        near.len() == from.len(),
        far.len() == from.len(),
        d <= e,
    ensures
        inner_product(coordinate, from, far) * p <= inner_product(coordinate, from, near) * q,
        d < e ==> inner_product(coordinate, from, far) * p < inner_product(coordinate, from, near)
            * q,
{
    lemma_inner_product_commutes(coordinate, from, far);
    lemma_inner_product_commutes(coordinate, from, near);
    let w = (p * q) * length;
    lemma_positive_product(p, q);
    lemma_positive_product(p * q, length);
    lemma_factors_regroup(1 as real - e, q, length, p);
    lemma_factors_regroup(1 as real - d, p, length, q);
    lemma_product_commutes(p, q);
    lemma_product_order(1 as real - e, 1 as real - d, w);
}

/// A distance by cosine stands for the cosine distance.
proof fn lemma_distance_by_cosine<T: ArrowFloatType>(
    v: Values<T::Native>,
    from: Seq<T::Native>,
    from_norm: Option<Float32>,
    length: real,
    to: Seq<T::Native>,
    norm: Float32,
    d: Float32,
)
    requires
        is_cosine_exact::<T>(v),
        from_norm is Some ==> is_known_cosine_exact::<T>(v),
        from.len() == to.len(),
        (0 as real) <= length,
        square(length) == squared_length(v.coordinate, from),
        square(length) != 0 as real,
        squared_length(v.coordinate, to) != 0 as real,
        norm_outcome::<T>(to, norm),
        from_norm matches Some(known) ==> (v.single)(known) == length,
        distance_outcome::<T>(MetricType::Cosine, from, from_norm, to, norm, d),
    ensures
        !d.is_nan(),
        (0 as real) < (v.single)(norm),
        square((v.single)(norm)) == squared_length(v.coordinate, to),
        is_cosine(v.coordinate, to, (v.single)(norm), from, length, (v.single)(d)),
{
    lemma_norm_exact::<T>(v, to, norm);
    lemma_positive_length((v.single)(norm));
    match from_norm {
        Some(known) => {
            let (a, b) = choose|a: &[T::Native], b: &[T::Native]|
                a@ == to && b@ == from && #[trigger] call_ensures(
                    T::cosine_with_norms,
                    (a, norm, known, b),
                    d,
                );
            assert(a@ == to && b@ == from);
        },
        None => {
            lemma_cosine_exact::<T>(v, to, norm, from, d);
            let other = choose|other: real|
                {
                    &&& (0 as real) <= other
                    &&& #[trigger] square(other) == squared_length(v.coordinate, from)
                    &&& (1 as real - (v.single)(d)) * ((v.single)(norm) * other)
                        == inner_product(v.coordinate, to, from)
                };
            lemma_same_root(other, length);
        },
    }
}

/// Of a vector measured by cosine distance, the nearest centroid has the largest
/// inner product with it, divided by the lengths.
proof fn lemma_nearest_by_cosine<T: ArrowFloatType>(
    v: Values<T::Native>,
    from: Seq<T::Native>,
    from_norm: Option<Float32>,
    length: real,
    centroids: Seq<T::Native>,
    dim: int,
    count: int,
    norms: Seq<Float32>,
    part: (u32, Float32),
    c: int,
    p: real,
    q: real,
)
    requires
        is_single_exact::<T>(v.single),
        is_cosine_exact::<T>(v),
        from_norm is Some ==> is_known_cosine_exact::<T>(v),
        dim > 0,
        from.len() == dim,
        (0 as real) <= length,
        square(length) == squared_length(v.coordinate, from),
        square(length) != 0 as real,
        from_norm matches Some(known) ==> (v.single)(known) == length,
        count == centroids.len() as int / dim,
        norms.len() == count,
        norms_outcome::<T>(centroids, dim, norms),
        forall|j: int|
            0 <= j < count ==> squared_length(v.coordinate, #[trigger] vector(centroids, dim, j))
                != 0 as real,
        nearest_outcome::<T>(
            MetricType::Cosine,
            from,
            from_norm,
            centroids,
            dim,
            count,
            norms,
            Some(part),
        ),
        0 <= c < count,
        (0 as real) <= p,
        (0 as real) <= q,
        square(p) == squared_length(v.coordinate, vector(centroids, dim, part.0 as int)),
        square(q) == squared_length(v.coordinate, vector(centroids, dim, c)),
    ensures
        part.0 < count,
        (1 as real - (v.single)(part.1)) * (p * length) == inner_product(
            v.coordinate,
            from,
            vector(centroids, dim, part.0 as int),
        ),
        inner_product(v.coordinate, from, vector(centroids, dim, c)) * p <= inner_product(
            v.coordinate,
            from,
            vector(centroids, dim, part.0 as int),
        ) * q,
        c < part.0 ==> inner_product(v.coordinate, from, vector(centroids, dim, c)) * p
            < inner_product(v.coordinate, from, vector(centroids, dim, part.0 as int)) * q,
{
    let metric = MetricType::Cosine;
    let dists = choose|dists: Seq<Float32>|
        {
            &&& dists.len() == count
            &&& #[trigger] distances_outcome::<T>(
                metric,
                from,
                from_norm,
                centroids,
                dim,
                norms,
                dists,
            )
            &&& is_argmin_value(dists, Some(part))
        };
    let id = part.0 as int;
    assert forall|j: int| 0 <= j < count implies {
        &&& !(#[trigger] dists[j]).is_nan()
        &&& (0 as real) < (v.single)(norms[j])
        &&& square((v.single)(norms[j])) == squared_length(v.coordinate, vector(centroids, dim, j))
        &&& is_cosine(
            v.coordinate,
            vector(centroids, dim, j),
            (v.single)(norms[j]),
            from,
            length,
            (v.single)(dists[j]),
        )
    } by {
        let to = chunk(centroids, dim, j);
        lemma_chunk_is_vector(centroids, dim, j);
        assert(distance_outcome::<T>(metric, from, from_norm, to, norms[j], dists[j]));
        assert(norm_outcome::<T>(to, norms[j]));
        lemma_distance_by_cosine::<T>(v, from, from_norm, length, to, norms[j], dists[j]);
    }
    let bound = Float32::spec_max();
    lemma_first_of_smallest::<T>(v.single, dists, bound, id, c);
    assert(!dists[id].is_nan() && !dists[c].is_nan());
    lemma_same_root(p, (v.single)(norms[id]));
    lemma_same_root(q, (v.single)(norms[c]));
    lemma_positive_length(length);
    lemma_chunk_is_vector(centroids, dim, id);
    lemma_chunk_is_vector(centroids, dim, c);
    lemma_inner_product_commutes(v.coordinate, from, vector(centroids, dim, id));
    lemma_cosine_order(
        v.coordinate,
        from,
        length,
        vector(centroids, dim, id),
        p,
        (v.single)(dists[id]),
        vector(centroids, dim, c),
        q,
        (v.single)(dists[c]),
    );
}

/// Assigning a vector by cosine distance gives it a centroid whose inner product
/// with it, divided by both lengths, no other centroid's exceeds, and of such
/// centroids the first. The length of the vector divides both sides and is left
/// out; `p` is that of the centroid, `q` that of any other.
pub proof fn law_partition_by_cosine_has_largest_cosine<T: ArrowFloatType>(
    v: Values<T::Native>,
    centroids: Seq<T::Native>,
    data: Seq<T::Native>,
    dim: int,
    ids: Seq<u32>,
    i: int,
    length: real,
    c: int,
    p: real,
    q: real,
)
    requires
        is_single_exact::<T>(v.single),
        is_cosine_exact::<T>(v),
        dim > 0,
        centroids.len() as int % dim == 0,
        forall|j: int|
            0 <= j < centroids.len() as int / dim ==> squared_length(
                v.coordinate,
                #[trigger] vector(centroids, dim, j),
            ) != 0 as real,
        partitions_outcome::<T>(MetricType::Cosine, centroids, data, dim, Some(ids)),
        0 <= i < data.len() as int / dim,
        (0 as real) <= length,
        square(length) == squared_length(v.coordinate, vector(data, dim, i)),
        square(length) != 0 as real,
        0 <= c < centroids.len() as int / dim,
        (0 as real) <= p,
        (0 as real) <= q,
        square(p) == squared_length(v.coordinate, vector(centroids, dim, ids[i] as int)),
        square(q) == squared_length(v.coordinate, vector(centroids, dim, c)),
    ensures
        i < ids.len(),
        ids[i] < centroids.len() as int / dim,
        inner_product(v.coordinate, vector(data, dim, i), vector(centroids, dim, c)) * p
            <= inner_product(
            v.coordinate,
            vector(data, dim, i),
            vector(centroids, dim, ids[i] as int),
        ) * q,
        c < ids[i] ==> inner_product(
            v.coordinate,
            vector(data, dim, i),
            vector(centroids, dim, c),
        ) * p < inner_product(
            v.coordinate,
            vector(data, dim, i),
            vector(centroids, dim, ids[i] as int),
        ) * q,
{
    let metric = MetricType::Cosine;
    let count = chunk_count(centroids.len() as int, dim);
    let norms = choose|norms: Seq<Float32>|
        {
            &&& norms.len() == count
            &&& #[trigger] norms_outcome::<T>(centroids, dim, norms)
            &&& ids_outcome::<T>(metric, centroids, data, dim, norms, Some(ids))
        };
    assert(ids_outcome::<T>(metric, centroids, data, dim, norms, Some(ids)));
    let from = chunk(data, dim, i);
    lemma_chunk_is_vector(data, dim, i);
    assert(nearest_id_outcome::<T>(metric, from, centroids, dim, count, norms, ids[i]));
    let d = choose|d: Float32| #[trigger]
        nearest_outcome::<T>(metric, from, None, centroids, dim, count, norms, Some((ids[i], d)));
    lemma_nearest_by_cosine::<T>(
        v,
        from,
        None,
        length,
        centroids,
        dim,
        count,
        norms,
        (ids[i], d),
        c,
        p,
        q,
    );
}

/// The clusters of a model by cosine distance are those of the centroids whose
/// inner products with their vectors, divided by both lengths, are largest, the
/// first of them; distances are one minus these. It does not matter whether
/// lengths of vectors are known.
pub proof fn law_member_by_cosine_has_largest_cosine<T: ArrowFloatType>(
    v: Values<T::Native>,
    model: Model<T::Native>,
    data: Seq<T::Native>,
    norm_data: Option<Seq<Float32>>,
    a: Assignment<T::Native>,
    i: int,
    length: real,
    c: int,
    p: real,
    q: real,
)
    requires
        is_single_exact::<T>(v.single),
        is_cosine_exact::<T>(v),
        norm_data is Some ==> is_known_cosine_exact::<T>(v),
        model.metric_type is Cosine,
        model.dimension > 0,
        forall|j: int|
            0 <= j < model.centroids.len() as int / model.dimension ==> squared_length(
                v.coordinate,
                #[trigger] vector(model.centroids, model.dimension, j),
            ) != 0 as real,
        membership_outcome::<T>(model, data, norm_data, Some(a)),
        0 <= i < data.len() as int / model.dimension,
        norm_data matches Some(known) ==> (v.single)(known[i]) == length,
        (0 as real) <= length,
        square(length) == squared_length(v.coordinate, vector(data, model.dimension, i)),
        square(length) != 0 as real,
        0 <= c < model.centroids.len() as int / model.dimension,
        (0 as real) <= p,
        (0 as real) <= q,
        square(p) == squared_length(
            v.coordinate,
            vector(model.centroids, model.dimension, a.parts[i].0 as int),
        ),
        square(q) == squared_length(v.coordinate, vector(model.centroids, model.dimension, c)),
    ensures
        i < a.parts.len(),
        a.parts[i].0 < model.centroids.len() as int / model.dimension,
        (1 as real - (v.single)(a.parts[i].1)) * (p * length) == inner_product(
            v.coordinate,
            vector(data, model.dimension, i),
            vector(model.centroids, model.dimension, a.parts[i].0 as int),
        ),
        inner_product(
            v.coordinate,
            vector(data, model.dimension, i),
            vector(model.centroids, model.dimension, c),
        ) * p <= inner_product(
            v.coordinate,
            vector(data, model.dimension, i),
            vector(model.centroids, model.dimension, a.parts[i].0 as int),
        ) * q,
        c < a.parts[i].0 ==> inner_product(
            v.coordinate,
            vector(data, model.dimension, i),
            vector(model.centroids, model.dimension, c),
        ) * p < inner_product(
            v.coordinate,
            vector(data, model.dimension, i),
            vector(model.centroids, model.dimension, a.parts[i].0 as int),
        ) * q,
{
    let dim = model.dimension;
    let norms = lemma_membership_row::<T>(model, data, norm_data, a, i);
    lemma_nearest_by_cosine::<T>(
        v,
        row(data, dim, i),
        row_norm(model.metric_type, norm_data, i),
        length,
        model.centroids,
        dim,
        model.count(),
        norms,
        a.parts[i],
        c,
        p,
        q,
    );
}

/// Cosine distances of vectors that are not zero are at most two, so that all
/// vectors can be assigned where there is a centroid, as long as two is below
/// the largest finite number.
pub proof fn law_cosine_partition_never_fails<T: ArrowFloatType>(
    v: Values<T::Native>,
    centroids: Seq<T::Native>,
    data: Seq<T::Native>,
    dim: int,
    r: Option<Seq<u32>>,
)
    requires
        is_single_exact::<T>(v.single),
        is_cosine_exact::<T>(v),
        (2 as real) < (v.single)(Float32 { bits: 0x7f7f_ffff }),
        dim > 0,
        centroids.len() as int % dim == 0,
        data.len() as int % dim == 0,
        centroids.len() > 0,
        forall|j: int|
            0 <= j < centroids.len() as int / dim ==> squared_length(
                v.coordinate,
                #[trigger] vector(centroids, dim, j),
            ) != 0 as real,
        forall|i: int|
            0 <= i < data.len() as int / dim ==> squared_length(
                v.coordinate,
                #[trigger] vector(data, dim, i),
            ) != 0 as real,
        partitions_outcome::<T>(MetricType::Cosine, centroids, data, dim, r),
    ensures
        r is Some,
{
    let metric = MetricType::Cosine;
    let count = chunk_count(centroids.len() as int, dim);
    if r is None {
        let norms = choose|norms: Seq<Float32>|
            {
                &&& norms.len() == count
                &&& #[trigger] norms_outcome::<T>(centroids, dim, norms)
                &&& ids_outcome::<T>(metric, centroids, data, dim, norms, None)
            };
        assert(ids_outcome::<T>(metric, centroids, data, dim, norms, None));
        let i = choose|i: int|
            0 <= i < chunk_count(data.len() as int, dim) && nearest_outcome::<T>(
                metric,
                #[trigger] chunk(data, dim, i),
                None,
                centroids,
                dim,
                count,
                norms,
                None,
            );
        let from = chunk(data, dim, i);
        let dists = choose|dists: Seq<Float32>|
            {
                &&& dists.len() == count
                &&& #[trigger] distances_outcome::<T>(
                    metric,
                    from,
                    None,
                    centroids,
                    dim,
                    norms,
                    dists,
                )
                &&& is_argmin_value(dists, None)
            };
        vstd::arithmetic::div_mod::lemma_fundamental_div_mod(centroids.len() as int, dim);
        assert(count > 0) by {
            if count <= 0 {
                assert(dim * count <= 0) by (nonlinear_arith)
                    requires
                        dim > 0,
                        count <= 0,
                ;
            }
        }
        let to = chunk(centroids, dim, 0);
        lemma_chunk_is_vector(data, dim, i);
        lemma_chunk_is_vector(centroids, dim, 0);
        assert(distance_outcome::<T>(metric, from, None, to, norms[0], dists[0]));
        assert(norm_outcome::<T>(to, norms[0]));
        law_cosine_distance_is_bounded::<T>(v, to, norms[0], from, dists[0]);
        assert(!Float32::spec_max().is_nan());
        assert(dists[0].less(Float32::spec_max()));
    }
}

/// What measuring against all centroids by squared Euclidean distance stands for.
proof fn lemma_l2_distance_exact<T: ArrowFloatType>(
    v: Values<T::Native>,
    from: Seq<T::Native>,
    centroids: Seq<T::Native>,
    dim: int,
    dists: Seq<Float32>,
    j: int,
)
    requires
        is_single_exact::<T>(v.single),
        is_l2_exact::<T>(v),
        dim > 0,
        from.len() == dim,
        l2_distances_outcome::<T>(from, centroids, dim, dists),
        0 <= j < dists.len(),
    ensures
        dists.len() == centroids.len() as int / dim,
        dists[j].less(Float32::spec_infinity()),
        (v.single)(dists[j]) == squared_distance(v, from, vector(centroids, dim, j)),
{
    let to = row(centroids, dim, j);
    if is_tiled(centroids) {
        lemma_chunk_is_vector(centroids, dim, j);
        let stripes = chunk_count(dim, STRIPE_SIZE as int);
        assert(striped_l2_outcome::<T>(
            from,
            row(centroids, dim, 0 + j),
            stripes as nat,
            dists[j],
        ));
        lemma_stripes_exact::<T>(v, from, to, stripes as nat, dists[j]);
    } else {
        assert(l2_batch_outcome::<T>(from, centroids, dim, dists));
        lemma_chunk_is_vector(centroids, dim, j);
        lemma_l2_exact::<T>(v, from, to, dists[j]);
    }
}

/// Of a vector measured by squared Euclidean distance, no centroid is nearer than
/// the one that it is assigned to, and the ones before it are farther.
proof fn lemma_nearest_by_l2<T: ArrowFloatType>(
    v: Values<T::Native>,
    from: Seq<T::Native>,
    centroids: Seq<T::Native>,
    dim: int,
    part: (u32, Float32),
    c: int,
)
    requires
        is_single_exact::<T>(v.single),
        is_l2_exact::<T>(v),
        dim > 0,
        from.len() == dim,
        l2_nearest_outcome::<T>(from, centroids, dim, part),
        0 <= c < centroids.len() as int / dim,
    ensures
        part.0 < centroids.len() as int / dim,
        (v.single)(part.1) == squared_distance(v, from, vector(centroids, dim, part.0 as int)),
        (v.single)(part.1) <= squared_distance(v, from, vector(centroids, dim, c)),
        c < part.0 ==> (v.single)(part.1) < squared_distance(v, from, vector(centroids, dim, c)),
{
    let dists = choose|dists: Seq<Float32>|
        {
            &&& #[trigger] l2_distances_outcome::<T>(from, centroids, dim, dists)
            &&& is_argmin_value_float(dists, part)
        };
    let bound = Float32::spec_infinity();
    lemma_l2_distance_exact::<T>(v, from, centroids, dim, dists, c);
    assert(any_below(dists, bound));
    lemma_l2_distance_exact::<T>(v, from, centroids, dim, dists, part.0 as int);
    lemma_first_of_smallest::<T>(v.single, dists, bound, part.0 as int, c);
}

/// Assigning a vector by squared Euclidean distance gives it a centroid that no
/// other is nearer than, and of such centroids the first.
pub proof fn law_partition_by_l2_is_nearest<T: ArrowFloatType>(
    v: Values<T::Native>,
    centroids: Seq<T::Native>,
    data: Seq<T::Native>,
    dim: int,
    ids: Seq<u32>,
    i: int,
    c: int,
)
    requires
        is_single_exact::<T>(v.single),
        is_l2_exact::<T>(v),
        dim > 0,
        partitions_outcome::<T>(MetricType::L2, centroids, data, dim, Some(ids)),
        0 <= i < data.len() as int / dim,
        0 <= c < centroids.len() as int / dim,
    ensures
        i < ids.len(),
        ids[i] < centroids.len() as int / dim,
        squared_distance(v, vector(data, dim, i), vector(centroids, dim, ids[i] as int))
            <= squared_distance(v, vector(data, dim, i), vector(centroids, dim, c)),
        c < ids[i] ==> squared_distance(
            v,
            vector(data, dim, i),
            vector(centroids, dim, ids[i] as int),
        ) < squared_distance(v, vector(data, dim, i), vector(centroids, dim, c)),
{
    let parts = choose|parts: Seq<(u32, Float32)>| #[trigger]
        l2_partitions_outcome::<T>(centroids, data, dim, Some(parts)) && ids == ids_of(parts);
    lemma_chunk_is_vector(data, dim, i);
    assert(l2_nearest_outcome::<T>(chunk(data, dim, i), centroids, dim, parts[i]));
    assert(ids[i] == parts[i].0);
    lemma_nearest_by_l2::<T>(v, chunk(data, dim, i), centroids, dim, parts[i], c);
}

/// The clusters of a model by squared Euclidean distance are those of the
/// centroids that no other is nearer than, the first of them; distances are the
/// squared distances. Known lengths do not matter.
pub proof fn law_member_by_l2_is_nearest<T: ArrowFloatType>(
    v: Values<T::Native>,
    model: Model<T::Native>,
    data: Seq<T::Native>,
    norm_data: Option<Seq<Float32>>,
    a: Assignment<T::Native>,
    i: int,
    c: int,
)
    requires
        is_single_exact::<T>(v.single),
        is_l2_exact::<T>(v),
        model.metric_type is L2,
        model.dimension > 0,
        membership_outcome::<T>(model, data, norm_data, Some(a)),
        0 <= i < data.len() as int / model.dimension,
        0 <= c < model.centroids.len() as int / model.dimension,
    ensures
        i < a.parts.len(),
        a.parts[i].0 < model.centroids.len() as int / model.dimension,
        (v.single)(a.parts[i].1) == squared_distance(
            v,
            vector(data, model.dimension, i),
            vector(model.centroids, model.dimension, a.parts[i].0 as int),
        ),
        (v.single)(a.parts[i].1) <= squared_distance(
            v,
            vector(data, model.dimension, i),
            vector(model.centroids, model.dimension, c),
        ),
        c < a.parts[i].0 ==> (v.single)(a.parts[i].1) < squared_distance(
            v,
            vector(data, model.dimension, i),
            vector(model.centroids, model.dimension, c),
        ),
{
    let dim = model.dimension;
    let norms = lemma_membership_row::<T>(model, data, norm_data, a, i);
    lemma_nearest_by_l2::<T>(v, row(data, dim, i), model.centroids, dim, a.parts[i], c);
}

/// Vectors can be assigned by squared Euclidean distance where all their
/// distances are below the largest finite number.
pub proof fn law_l2_partition_fails_for_large_distances<T: ArrowFloatType>(
    v: Values<T::Native>,
    centroids: Seq<T::Native>,
    data: Seq<T::Native>,
    dim: int,
    r: Option<Seq<u32>>,
)
    requires
        is_single_exact::<T>(v.single),
        is_l2_exact::<T>(v),
        dim > 0,
        partitions_outcome::<T>(MetricType::L2, centroids, data, dim, r),
        forall|i: int, c: int|
            0 <= i < data.len() as int / dim && 0 <= c < centroids.len() as int / dim
                ==> squared_distance(
                v,
                #[trigger] vector(data, dim, i),
                #[trigger] vector(centroids, dim, c),
            ) < (v.single)(Float32 { bits: 0x7f7f_ffff }),
    ensures
        r is Some,
{
    if r is None {
        let i = choose|i: int|
            0 <= i < data.len() as int / dim && l2_incomparable_outcome::<T>(
                #[trigger] chunk(data, dim, i),
                centroids,
                dim,
            );
        let from = chunk(data, dim, i);
        lemma_chunk_is_vector(data, dim, i);
        let (t, dists) = choose|t: int, dists: Seq<Float32>| #[trigger]
            incomparable_tile::<T>(from, centroids, dim, t, dists);
        let m = centroids.len() as int / dim;
        let size = TILE_SIZE as int;
        lemma_chunk_bounds(m, size, t);
        assert(dists.len() > 0);
        let j = t * size;
        lemma_chunk_is_vector(centroids, dim, j);
        let stripes = chunk_count(dim, STRIPE_SIZE as int);
        assert(striped_l2_outcome::<T>(
            from,
            row(centroids, dim, j + 0),
            stripes as nat,
            dists[0],
        ));
        lemma_stripes_exact::<T>(v, from, row(centroids, dim, j), stripes as nat, dists[0]);
        assert((v.single)(dists[0]) == squared_distance(v, from, vector(centroids, dim, j)));
        assert(vector(data, dim, i) == from);
        assert(!Float32::spec_max().is_nan());
        assert(dists[0].less(Float32::spec_max()));
    }
}

} // verus!
