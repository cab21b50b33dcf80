//! Results are determined by the arithmetic.
//!
//! Where the arithmetic of a number type always gives the same answer to the
//! same arguments, so does the library.

use arrow_array::FixedSizeListArray;
use vstd::arithmetic::div_mod::{
    lemma_div_pos_is_pos, lemma_fundamental_div_mod, lemma_mod_bound,
};
use vstd::prelude::*;

use crate::array::{list_is_floating, list_len, list_value_length};
use crate::assign::{
    centroid_norms_outcome, is_measurable, membership_outcome, row_fails, row_norm, row_outcome,
    rows_outcome, train_once_outcome,
};
use crate::distance::{l2_batch_outcome, MetricType};
use crate::error::Error;
use crate::float::{Float32, Float64};
use crate::kernels::{
    any_below, is_argmin, is_argmin_value, is_argmin_value_float, lemma_argmin_is_unique,
};
use crate::laws::{
    ids_of_membership, law_membership_is_partition, law_run_keeps_shape,
    law_tiles_make_no_difference, lemma_steps_keep_shape, lemma_trained_is_run, stripes_add_up,
    takes_all,
};
use crate::matrix::{chunk, chunk_count, row};
use crate::membership::{
    column, distance_sum_outcome, mean_distance_outcome, mean_outcome, means_outcome, place,
    sizes_of, squared_deviation_outcome, stddev_outcome, widened_outcome, Assignment,
};
use crate::model::{KMeans, Model};
use crate::partition::{
    distance_outcome, distances_outcome, ids_of, ids_outcome, nearest_id_outcome, nearest_outcome,
    norms_outcome, partitions_outcome, view_option,
};
use crate::scalar::{
    double_sum_outcome, l2_outcome, norm_outcome, single_sum_outcome, sum_outcome, ArrowFloatType,
    FloatArithmetic,
};
use crate::splitting::{
    assignment_of, is_never_met, law_distances_do_not_enter_means, law_lengths_are_not_asked_for,
    law_membership_splits, law_partition_splits, law_run_splits,
};
use crate::tiles::{
    incomparable_tile, is_tiled, l2_distances_outcome, l2_incomparable_outcome, l2_nearest_outcome,
    l2_partitions_outcome, small_nearest_outcome, striped_l2_outcome, tiles_comparable,
    STRIPE_SIZE, TILE_SIZE,
};
use crate::training::{
    converged_outcome, follows, is_best, is_done, lemma_membership_shape, mean_after, model_after,
    ready, run_fails, run_outcome, runs_from, start_outcome, starts_outcome, stddev_after,
    stddevs_of, step_fails, step_outcome, steps_outcome, train_from_outcome, train_outcome,
    training_outcome, values_outcome, KMeansParams, Step,
};

verus! {

/// Whether arithmetic on single and double precision numbers always gives the
/// same answer to the same arguments.
pub open spec fn is_arithmetic_fixed<T: FloatArithmetic>() -> bool {
    &&& forall|a: Float32, b: Float32, r: Float32, s: Float32|
        #[trigger] call_ensures(T::single_add, (a, b), r) && #[trigger] call_ensures(
            T::single_add,
            (a, b),
            s,
        ) ==> r == s
    &&& forall|a: Float32, b: Float32, r: Float32, s: Float32|
        #[trigger] call_ensures(T::single_sub, (a, b), r) && #[trigger] call_ensures(
            T::single_sub,
            (a, b),
            s,
        ) ==> r == s
    &&& forall|a: Float32, b: Float32, r: Float32, s: Float32|
        #[trigger] call_ensures(T::single_div, (a, b), r) && #[trigger] call_ensures(
            T::single_div,
            (a, b),
            s,
        ) ==> r == s
    &&& forall|a: Float32, n: i32, r: Float32, s: Float32|
        #[trigger] call_ensures(T::single_powi, (a, n), r) && #[trigger] call_ensures(
            T::single_powi,
            (a, n),
            s,
        ) ==> r == s
    &&& forall|a: Float32, r: Float32, s: Float32|
        #[trigger] call_ensures(T::single_sqrt, (a,), r) && #[trigger] call_ensures(
            T::single_sqrt,
            (a,),
            s,
        ) ==> r == s
    &&& forall|n: usize, r: Float32, s: Float32|
        #[trigger] call_ensures(T::single_from_usize, (n,), r) && #[trigger] call_ensures(
            T::single_from_usize,
            (n,),
            s,
        ) ==> r == s
    &&& forall|a: Float32, r: Float64, s: Float64|
        #[trigger] call_ensures(T::double_from_single, (a,), r) && #[trigger] call_ensures(
            T::double_from_single,
            (a,),
            s,
        ) ==> r == s
    &&& forall|n: usize, r: Float64, s: Float64|
        #[trigger] call_ensures(T::double_from_usize, (n,), r) && #[trigger] call_ensures(
            T::double_from_usize,
            (n,),
            s,
        ) ==> r == s
    &&& forall|a: Float64, b: Float64, r: Float64, s: Float64|
        #[trigger] call_ensures(T::double_add, (a, b), r) && #[trigger] call_ensures(
            T::double_add,
            (a, b),
            s,
        ) ==> r == s
    &&& forall|a: Float64, b: Float64, r: Float64, s: Float64|
        #[trigger] call_ensures(T::double_sub, (a, b), r) && #[trigger] call_ensures(
            T::double_sub,
            (a, b),
            s,
        ) ==> r == s
    &&& forall|a: Float64, b: Float64, r: Float64, s: Float64|
        #[trigger] call_ensures(T::double_div, (a, b), r) && #[trigger] call_ensures(
            T::double_div,
            (a, b),
            s,
        ) ==> r == s
}

/// Whether arithmetic on coordinates always gives the same answer to the same
/// arguments.
pub open spec fn are_coordinates_fixed<T: ArrowFloatType>() -> bool {
    &&& forall|r: T::Native, s: T::Native|
        #[trigger] call_ensures(T::zero, (), r) && #[trigger] call_ensures(T::zero, (), s) ==> r
            == s
    &&& forall|a: T::Native, b: T::Native, r: T::Native, s: T::Native|
        #[trigger] call_ensures(T::plus, (a, b), r) && #[trigger] call_ensures(T::plus, (a, b), s)
            ==> r == s
    &&& forall|a: T::Native, b: T::Native, r: T::Native, s: T::Native|
        #[trigger] call_ensures(T::over, (a, b), r) && #[trigger] call_ensures(T::over, (a, b), s)
            ==> r == s
    &&& forall|n: u64, r: T::Native, s: T::Native|
        #[trigger] call_ensures(T::from_u64, (n,), r) && #[trigger] call_ensures(
            T::from_u64,
            (n,),
            s,
        ) ==> r == s
}

/// Whether measuring vectors always gives the same answer to the same vectors.
pub open spec fn are_distances_fixed<T: ArrowFloatType>() -> bool {
    &&& forall|x: &[T::Native], y: &[T::Native], r: Float32, s: Float32|
        #[trigger] call_ensures(T::l2, (x, y), r) && #[trigger] call_ensures(T::l2, (x, y), s)
            ==> r == s
    &&& forall|x: &[T::Native], y: &[T::Native], r: Float32, s: Float32|
        #[trigger] call_ensures(T::dot_distance, (x, y), r) && #[trigger] call_ensures(
            T::dot_distance,
            (x, y),
            s,
        ) ==> r == s
    &&& forall|x: &[T::Native], r: Float32, s: Float32|
        #[trigger] call_ensures(T::norm_l2, (x,), r) && #[trigger] call_ensures(
            T::norm_l2,
            (x,),
            s,
        ) ==> r == s
    &&& forall|x: &[T::Native], n: Float32, y: &[T::Native], r: Float32, s: Float32|
        #[trigger] call_ensures(T::cosine_fast, (x, n, y), r) && #[trigger] call_ensures(
            T::cosine_fast,
            (x, n, y),
            s,
        ) ==> r == s
    &&& forall|x: &[T::Native], n: Float32, m: Float32, y: &[T::Native], r: Float32, s: Float32|
        #[trigger] call_ensures(T::cosine_with_norms, (x, n, m, y), r) && #[trigger] call_ensures(
            T::cosine_with_norms,
            (x, n, m, y),
            s,
        ) ==> r == s
}

/// The squared Euclidean distance of two vectors is determined.
pub proof fn lemma_l2_determined<T: ArrowFloatType>(
    x: Seq<T::Native>,
    y: Seq<T::Native>,
    d: Float32,
    e: Float32,
)
    requires
        are_distances_fixed::<T>(),
        l2_outcome::<T>(x, y, d),
        l2_outcome::<T>(x, y, e),
    ensures
        d == e,
{
    let (a, b) = choose|a: &[T::Native], b: &[T::Native]|
        a@ == x && b@ == y && #[trigger] call_ensures(T::l2, (a, b), d);
    let (f, g) = choose|a: &[T::Native], b: &[T::Native]|
        a@ == x && b@ == y && #[trigger] call_ensures(T::l2, (a, b), e);
    assert(a =~= f && b =~= g);
}

/// The distance of a vector to a centroid is determined.
pub proof fn lemma_distance_determined<T: ArrowFloatType>(
    metric_type: MetricType,
    from: Seq<T::Native>,
    from_norm: Option<Float32>,
    centroid: Seq<T::Native>,
    centroid_norm: Float32,
    d: Float32,
    e: Float32,
)
    requires
        are_distances_fixed::<T>(),
        distance_outcome::<T>(metric_type, from, from_norm, centroid, centroid_norm, d),
        distance_outcome::<T>(metric_type, from, from_norm, centroid, centroid_norm, e),
    ensures
        d == e,
{
    match metric_type {
        MetricType::L2 => {
            lemma_l2_determined::<T>(from, centroid, d, e);
        },
        MetricType::Dot => {
            let (a, b) = choose|a: &[T::Native], b: &[T::Native]|
                a@ == from && b@ == centroid && #[trigger] call_ensures(
                    T::dot_distance,
                    (a, b),
                    d,
                );
            let (f, g) = choose|a: &[T::Native], b: &[T::Native]|
                a@ == from && b@ == centroid && #[trigger] call_ensures(
                    T::dot_distance,
                    (a, b),
                    e,
                );
            assert(a =~= f && b =~= g);
        },
        MetricType::Cosine => match from_norm {
            Some(norm) => {
                let (a, b) = choose|a: &[T::Native], b: &[T::Native]|
                    a@ == centroid && b@ == from && #[trigger] call_ensures(
                        T::cosine_with_norms,
                        (a, centroid_norm, norm, b),
                        d,
                    );
                let (f, g) = choose|a: &[T::Native], b: &[T::Native]|
                    a@ == centroid && b@ == from && #[trigger] call_ensures(
                        T::cosine_with_norms,
                        (a, centroid_norm, norm, b),
                        e,
                    );
                assert(a =~= f && b =~= g);
            },
            None => {
                let (a, b) = choose|a: &[T::Native], b: &[T::Native]|
                    a@ == centroid && b@ == from && #[trigger] call_ensures(
                        T::cosine_fast,
                        (a, centroid_norm, b),
                        d,
                    );
                let (f, g) = choose|a: &[T::Native], b: &[T::Native]|
                    a@ == centroid && b@ == from && #[trigger] call_ensures(
                        T::cosine_fast,
                        (a, centroid_norm, b),
                        e,
                    );
                assert(a =~= f && b =~= g);
            },
        },
    }
}

proof fn lemma_norms_determined<T: ArrowFloatType>(
    vectors: Seq<T::Native>,
    dim: int,
    a: Seq<Float32>,
    b: Seq<Float32>,
)
    requires
        are_distances_fixed::<T>(),
        a.len() == b.len(),
        norms_outcome::<T>(vectors, dim, a),
        norms_outcome::<T>(vectors, dim, b),
    ensures
        a == b,
{
    assert forall|j: int| 0 <= j < a.len() implies #[trigger] a[j] == b[j] by {
        let v = chunk(vectors, dim, j);
        assert(norm_outcome::<T>(v, a[j]));
        assert(norm_outcome::<T>(v, b[j]));
        let x = choose|x: &[T::Native]| x@ == v && #[trigger] call_ensures(T::norm_l2, (x,), a[j]);
        let y = choose|x: &[T::Native]| x@ == v && #[trigger] call_ensures(T::norm_l2, (x,), b[j]);
        assert(x =~= y);
    }
    assert(a =~= b);
}

proof fn lemma_nearest_determined<T: ArrowFloatType>(
    metric_type: MetricType,
    from: Seq<T::Native>,
    from_norm: Option<Float32>,
    centroids: Seq<T::Native>,
    dim: int,
    count: int,
    norms: Seq<Float32>,
    p: Option<(u32, Float32)>,
    q: Option<(u32, Float32)>,
)
    requires
        are_distances_fixed::<T>(),
        nearest_outcome::<T>(metric_type, from, from_norm, centroids, dim, count, norms, p),
        nearest_outcome::<T>(metric_type, from, from_norm, centroids, dim, count, norms, q),
    ensures
        p == q,
{
    let a = choose|dists: Seq<Float32>|
        {
            &&& dists.len() == count
            &&& #[trigger] distances_outcome::<T>(
                metric_type,
                from,
                from_norm,
                centroids,
                dim,
                norms,
                dists,
            )
            &&& is_argmin_value(dists, p)
        };
    let b = choose|dists: Seq<Float32>|
        {
            &&& dists.len() == count
            &&& #[trigger] distances_outcome::<T>(
                metric_type,
                from,
                from_norm,
                centroids,
                dim,
                norms,
                dists,
            )
            &&& is_argmin_value(dists, q)
        };
    assert forall|j: int| 0 <= j < a.len() implies #[trigger] a[j] == b[j] by {
        lemma_distance_determined::<T>(
            metric_type,
            from,
            from_norm,
            chunk(centroids, dim, j),
            norms[j],
            a[j],
            b[j],
        );
    }
    assert(a =~= b);
    match (p, q) {
        (Some(u), Some(v)) => {
            lemma_argmin_is_unique(a, Float32::spec_max(), u.0 as int, v.0 as int);
        },
        (Some(u), None) => {
            assert(a[u.0 as int].less(Float32::spec_max()));
        },
        (None, Some(v)) => {
            assert(a[v.0 as int].less(Float32::spec_max()));
        },
        (None, None) => {},
    }
}

/// Squared Euclidean distances that are measured stripe by stripe are determined.
pub proof fn lemma_striped_determined<T: ArrowFloatType>(
    x: Seq<T::Native>,
    y: Seq<T::Native>,
    stripes: nat,
    d: Float32,
    e: Float32,
)
    requires
        are_distances_fixed::<T>(),
        is_arithmetic_fixed::<T>(),
        striped_l2_outcome::<T>(x, y, stripes, d),
        striped_l2_outcome::<T>(x, y, stripes, e),
    ensures
        d == e,
    decreases stripes,
{
    if stripes > 0 {
        let s = stripes - 1;
        let (sum, part) = choose|sum: Float32, part: Float32|
            {
                &&& striped_l2_outcome::<T>(x, y, s as nat, sum)
                &&& l2_outcome::<T>(
                    chunk(x, STRIPE_SIZE as int, s),
                    chunk(y, STRIPE_SIZE as int, s),
                    part,
                )
                &&& #[trigger] call_ensures(T::single_add, (sum, part), d)
            };
        let (sum2, part2) = choose|sum: Float32, part: Float32|
            {
                &&& striped_l2_outcome::<T>(x, y, s as nat, sum)
                &&& l2_outcome::<T>(
                    chunk(x, STRIPE_SIZE as int, s),
                    chunk(y, STRIPE_SIZE as int, s),
                    part,
                )
                &&& #[trigger] call_ensures(T::single_add, (sum, part), e)
            };
        lemma_striped_determined::<T>(x, y, s as nat, sum, sum2);
        lemma_l2_determined::<T>(
            chunk(x, STRIPE_SIZE as int, s),
            chunk(y, STRIPE_SIZE as int, s),
            part,
            part2,
        );
    }
}

proof fn lemma_l2_distances_determined<T: ArrowFloatType>(
    from: Seq<T::Native>,
    centroids: Seq<T::Native>,
    dim: int,
    a: Seq<Float32>,
    b: Seq<Float32>,
)
    requires
        are_distances_fixed::<T>(),
        is_arithmetic_fixed::<T>(),
        l2_distances_outcome::<T>(from, centroids, dim, a),
        l2_distances_outcome::<T>(from, centroids, dim, b),
    ensures
        a == b,
{
    assert forall|j: int| 0 <= j < a.len() implies #[trigger] a[j] == b[j] by {
        if is_tiled(centroids) {
            lemma_striped_determined::<T>(
                from,
                row(centroids, dim, 0 + j),
                chunk_count(dim, STRIPE_SIZE as int) as nat,
                a[j],
                b[j],
            );
        } else {
            lemma_l2_determined::<T>(from, row(centroids, dim, j), a[j], b[j]);
        }
    }
    assert(a =~= b);
}

proof fn lemma_l2_nearest_determined<T: ArrowFloatType>(
    from: Seq<T::Native>,
    centroids: Seq<T::Native>,
    dim: int,
    p: (u32, Float32),
    q: (u32, Float32),
)
    requires
        are_distances_fixed::<T>(),
        is_arithmetic_fixed::<T>(),
        l2_nearest_outcome::<T>(from, centroids, dim, p),
        l2_nearest_outcome::<T>(from, centroids, dim, q),
    ensures
        p == q,
{
    let a = choose|dists: Seq<Float32>|
        {
            &&& #[trigger] l2_distances_outcome::<T>(from, centroids, dim, dists)
            &&& is_tiled(centroids) ==> tiles_comparable(dists)
            &&& is_argmin_value_float(dists, p)
        };
    let b = choose|dists: Seq<Float32>|
        {
            &&& #[trigger] l2_distances_outcome::<T>(from, centroids, dim, dists)
            &&& is_tiled(centroids) ==> tiles_comparable(dists)
            &&& is_argmin_value_float(dists, q)
        };
    lemma_l2_distances_determined::<T>(from, centroids, dim, a, b);
    if any_below(a, Float32::spec_infinity()) {
        lemma_argmin_is_unique(a, Float32::spec_infinity(), p.0 as int, q.0 as int);
    }
}

/// A vector that is assigned to a centroid has comparable distances to all
/// tiles.
proof fn lemma_l2_fails_or_not<T: ArrowFloatType>(
    from: Seq<T::Native>,
    centroids: Seq<T::Native>,
    dim: int,
    p: (u32, Float32),
)
    requires
        dim > 0,
        are_distances_fixed::<T>(),
        is_arithmetic_fixed::<T>(),
        is_tiled(centroids),
        l2_nearest_outcome::<T>(from, centroids, dim, p),
    ensures
        !l2_incomparable_outcome::<T>(from, centroids, dim),
{
    if l2_incomparable_outcome::<T>(from, centroids, dim) {
        let (t, tile) = choose|t: int, tile: Seq<Float32>| #[trigger]
            incomparable_tile::<T>(from, centroids, dim, t, tile);
        let a = choose|dists: Seq<Float32>|
            {
                &&& #[trigger] l2_distances_outcome::<T>(from, centroids, dim, dists)
                &&& is_tiled(centroids) ==> tiles_comparable(dists)
                &&& is_argmin_value_float(dists, p)
            };
        let part = chunk(a, TILE_SIZE as int, t);
        assert(part.len() == tile.len());
        assert forall|j: int| 0 <= j < part.len() implies #[trigger] part[j] == tile[j] by {
            assert(part[j] == a[t * TILE_SIZE + j]);
            assert(0 + (t * TILE_SIZE + j) == t * TILE_SIZE + j);
            lemma_striped_determined::<T>(
                from,
                row(centroids, dim, t * TILE_SIZE + j),
                chunk_count(dim, STRIPE_SIZE as int) as nat,
                a[t * TILE_SIZE + j],
                tile[j],
            );
        }
        assert(part =~= tile);
        assert(any_below(part, Float32::spec_max()));
    }
}

/// Assigning vectors to centroids gives one result only.
pub proof fn law_partitions_determined<T: ArrowFloatType>(
    metric_type: MetricType,
    centroids: Seq<T::Native>,
    data: Seq<T::Native>,
    dim: int,
    r: Option<Seq<u32>>,
    s: Option<Seq<u32>>,
)
    requires
        dim > 0,
        are_distances_fixed::<T>(),
        is_arithmetic_fixed::<T>(),
        partitions_outcome::<T>(metric_type, centroids, data, dim, r),
        partitions_outcome::<T>(metric_type, centroids, data, dim, s),
    ensures
        r == s,
{
    match metric_type {
        MetricType::L2 => {
            let p = l2_witness::<T>(centroids, data, dim, r);
            let q = l2_witness::<T>(centroids, data, dim, s);
            lemma_l2_partitions_determined::<T>(centroids, data, dim, p, q);
        },
        MetricType::Dot => {
            lemma_ids_determined::<T>(
                metric_type,
                centroids,
                data,
                dim,
                Seq::<Float32>::empty(),
                r,
                s,
            );
        },
        MetricType::Cosine => {
            let a = choose|norms: Seq<Float32>|
                {
                    &&& norms.len() == chunk_count(centroids.len() as int, dim)
                    &&& #[trigger] norms_outcome::<T>(centroids, dim, norms)
                    &&& ids_outcome::<T>(metric_type, centroids, data, dim, norms, r)
                };
            let b = choose|norms: Seq<Float32>|
                {
                    &&& norms.len() == chunk_count(centroids.len() as int, dim)
                    &&& #[trigger] norms_outcome::<T>(centroids, dim, norms)
                    &&& ids_outcome::<T>(metric_type, centroids, data, dim, norms, s)
                };
            lemma_norms_determined::<T>(centroids, dim, a, b);
            lemma_ids_determined::<T>(metric_type, centroids, data, dim, a, r, s);
        },
    }
}

/// The places and distances behind the places that vectors are assigned to.
spec fn l2_witness<T: ArrowFloatType>(
    centroids: Seq<T::Native>,
    data: Seq<T::Native>,
    dim: int,
    r: Option<Seq<u32>>,
) -> Option<Seq<(u32, Float32)>> {
    match r {
        Some(ids) => Some(
            choose|parts: Seq<(u32, Float32)>| #[trigger]
                l2_partitions_outcome::<T>(centroids, data, dim, Some(parts)) && ids == ids_of(
                    parts,
                ),
        ),
        None => None,
    }
}

proof fn lemma_l2_partitions_determined<T: ArrowFloatType>(
    centroids: Seq<T::Native>,
    data: Seq<T::Native>,
    dim: int,
    p: Option<Seq<(u32, Float32)>>,
    q: Option<Seq<(u32, Float32)>>,
)
    requires
        dim > 0,
        are_distances_fixed::<T>(),
        is_arithmetic_fixed::<T>(),
        l2_partitions_outcome::<T>(centroids, data, dim, p),
        l2_partitions_outcome::<T>(centroids, data, dim, q),
    ensures
        p == q,
{
    match (p, q) {
        (Some(a), Some(b)) => {
            assert forall|i: int| 0 <= i < a.len() implies #[trigger] a[i] == b[i] by {
                lemma_l2_nearest_determined::<T>(
                    chunk(data, dim, i),
                    centroids,
                    dim,
                    a[i],
                    b[i],
                );
            }
            assert(a =~= b);
        },
        (Some(a), None) => {
            lemma_l2_some_or_none::<T>(centroids, data, dim, a);
        },
        (None, Some(b)) => {
            lemma_l2_some_or_none::<T>(centroids, data, dim, b);
        },
        (None, None) => {},
    }
}

proof fn lemma_l2_some_or_none<T: ArrowFloatType>(
    centroids: Seq<T::Native>,
    data: Seq<T::Native>,
    dim: int,
    a: Seq<(u32, Float32)>,
)
    requires
        dim > 0,
        are_distances_fixed::<T>(),
        is_arithmetic_fixed::<T>(),
        l2_partitions_outcome::<T>(centroids, data, dim, Some(a)),
    ensures
        !l2_partitions_outcome::<T>(centroids, data, dim, None),
{
    if l2_partitions_outcome::<T>(centroids, data, dim, None) {
        let i = choose|i: int|
            0 <= i < data.len() as int / dim && l2_incomparable_outcome::<T>(
                #[trigger] chunk(data, dim, i),
                centroids,
                dim,
            );
        assert(l2_nearest_outcome::<T>(chunk(data, dim, i), centroids, dim, a[i]));
        lemma_l2_fails_or_not::<T>(chunk(data, dim, i), centroids, dim, a[i]);
    }
}

proof fn lemma_ids_determined<T: ArrowFloatType>(
    metric_type: MetricType,
    centroids: Seq<T::Native>,
    data: Seq<T::Native>,
    dim: int,
    norms: Seq<Float32>,
    r: Option<Seq<u32>>,
    s: Option<Seq<u32>>,
)
    requires
        are_distances_fixed::<T>(),
        ids_outcome::<T>(metric_type, centroids, data, dim, norms, r),
        ids_outcome::<T>(metric_type, centroids, data, dim, norms, s),
    ensures
        r == s,
{
    match (r, s) {
        (Some(a), Some(b)) => {
            assert forall|i: int| 0 <= i < a.len() implies #[trigger] a[i] == b[i] by {
                lemma_id_determined::<T>(
                    metric_type,
                    chunk(data, dim, i),
                    centroids,
                    dim,
                    chunk_count(centroids.len() as int, dim),
                    norms,
                    a[i],
                    Some(b[i]),
                );
            }
            assert(a =~= b);
        },
        (Some(a), None) => {
            lemma_ids_some_or_none::<T>(metric_type, centroids, data, dim, norms, a);
        },
        (None, Some(b)) => {
            lemma_ids_some_or_none::<T>(metric_type, centroids, data, dim, norms, b);
        },
        (None, None) => {},
    }
}

proof fn lemma_ids_some_or_none<T: ArrowFloatType>(
    metric_type: MetricType,
    centroids: Seq<T::Native>,
    data: Seq<T::Native>,
    dim: int,
    norms: Seq<Float32>,
    a: Seq<u32>,
)
    requires
        are_distances_fixed::<T>(),
        ids_outcome::<T>(metric_type, centroids, data, dim, norms, Some(a)),
    ensures
        !ids_outcome::<T>(metric_type, centroids, data, dim, norms, None),
{
    let count = chunk_count(centroids.len() as int, dim);
    if ids_outcome::<T>(metric_type, centroids, data, dim, norms, None) {
        let i = choose|i: int|
            0 <= i < chunk_count(data.len() as int, dim) && nearest_outcome::<T>(
                metric_type,
                #[trigger] chunk(data, dim, i),
                None,
                centroids,
                dim,
                count,
                norms,
                None,
            );
        lemma_id_determined::<T>(
            metric_type,
            chunk(data, dim, i),
            centroids,
            dim,
            count,
            norms,
            a[i],
            None,
        );
    }
}

proof fn lemma_id_determined<T: ArrowFloatType>(
    metric_type: MetricType,
    from: Seq<T::Native>,
    centroids: Seq<T::Native>,
    dim: int,
    count: int,
    norms: Seq<Float32>,
    a: u32,
    b: Option<u32>,
)
    requires
        are_distances_fixed::<T>(),
        nearest_id_outcome::<T>(metric_type, from, centroids, dim, count, norms, a),
        match b {
            Some(id) => nearest_id_outcome::<T>(
                metric_type,
                from,
                centroids,
                dim,
                count,
                norms,
                id,
            ),
            None => nearest_outcome::<T>(
                metric_type,
                from,
                None,
                centroids,
                dim,
                count,
                norms,
                None,
            ),
        },
    ensures
        b == Some(a),
{
    let d = choose|d: Float32| #[trigger]
        nearest_outcome::<T>(
            metric_type,
            from,
            None,
            centroids,
            dim,
            count,
            norms,
            Some((a, d)),
        );
    let other: Option<(u32, Float32)> = match b {
        Some(id) => Some(
            (
                id,
                choose|d: Float32| #[trigger]
                    nearest_outcome::<T>(
                        metric_type,
                        from,
                        None,
                        centroids,
                        dim,
                        count,
                        norms,
                        Some((id, d)),
                    ),
            ),
        ),
        None => None,
    };
    lemma_nearest_determined::<T>(
        metric_type,
        from,
        None,
        centroids,
        dim,
        count,
        norms,
        Some((a, d)),
        other,
    );
}

proof fn lemma_sum_determined<T: ArrowFloatType>(terms: Seq<T::Native>, r: T::Native, s: T::Native)
    requires
        are_coordinates_fixed::<T>(),
        sum_outcome::<T>(terms, r),
        sum_outcome::<T>(terms, s),
    ensures
        r == s,
    decreases terms.len(),
{
    if terms.len() > 0 {
        let a = choose|a: T::Native|
            sum_outcome::<T>(terms.drop_last(), a) && #[trigger] call_ensures(
                T::plus,
                (a, terms.last()),
                r,
            );
        let b = choose|b: T::Native|
            sum_outcome::<T>(terms.drop_last(), b) && #[trigger] call_ensures(
                T::plus,
                (b, terms.last()),
                s,
            );
        lemma_sum_determined::<T>(terms.drop_last(), a, b);
    }
}

proof fn lemma_single_sum_determined<T: FloatArithmetic>(
    terms: Seq<Float32>,
    r: Float32,
    s: Float32,
)
    requires
        is_arithmetic_fixed::<T>(),
        single_sum_outcome::<T>(terms, r),
        single_sum_outcome::<T>(terms, s),
    ensures
        r == s,
    decreases terms.len(),
{
    if terms.len() > 0 {
        let a = choose|a: Float32|
            single_sum_outcome::<T>(terms.drop_last(), a) && #[trigger] call_ensures(
                T::single_add,
                (a, terms.last()),
                r,
            );
        let b = choose|b: Float32|
            single_sum_outcome::<T>(terms.drop_last(), b) && #[trigger] call_ensures(
                T::single_add,
                (b, terms.last()),
                s,
            );
        lemma_single_sum_determined::<T>(terms.drop_last(), a, b);
    }
}

proof fn lemma_double_sum_determined<T: FloatArithmetic>(
    terms: Seq<Float64>,
    r: Float64,
    s: Float64,
)
    requires
        is_arithmetic_fixed::<T>(),
        double_sum_outcome::<T>(terms, r),
        double_sum_outcome::<T>(terms, s),
    ensures
        r == s,
    decreases terms.len(),
{
    if terms.len() > 0 {
        let a = choose|a: Float64|
            double_sum_outcome::<T>(terms.drop_last(), a) && #[trigger] call_ensures(
                T::double_add,
                (a, terms.last()),
                r,
            );
        let b = choose|b: Float64|
            double_sum_outcome::<T>(terms.drop_last(), b) && #[trigger] call_ensures(
                T::double_add,
                (b, terms.last()),
                s,
            );
        lemma_double_sum_determined::<T>(terms.drop_last(), a, b);
    }
}

proof fn lemma_mean_determined<T: ArrowFloatType>(terms: Seq<T::Native>, r: T::Native, s: T::Native)
    requires
        are_coordinates_fixed::<T>(),
        mean_outcome::<T>(terms, r),
        mean_outcome::<T>(terms, s),
    ensures
        r == s,
{
    if terms.len() == 0 {
        lemma_sum_determined::<T>(terms, r, s);
    } else {
        let (a, n) = choose|sum: T::Native, count: T::Native|
            {
                &&& sum_outcome::<T>(terms, sum)
                &&& call_ensures(T::from_u64, (terms.len() as u64,), count)
                &&& #[trigger] call_ensures(T::over, (sum, count), r)
            };
        let (b, m) = choose|sum: T::Native, count: T::Native|
            {
                &&& sum_outcome::<T>(terms, sum)
                &&& call_ensures(T::from_u64, (terms.len() as u64,), count)
                &&& #[trigger] call_ensures(T::over, (sum, count), s)
            };
        lemma_sum_determined::<T>(terms, a, b);
        assert(n == m);
    }
}

/// Taking the means of clusters as centroids gives one model only.
pub proof fn law_means_determined<T: ArrowFloatType>(
    a: Assignment<T::Native>,
    m: Model<T::Native>,
    w: Model<T::Native>,
)
    requires
        a.dimension > 0,
        a.k >= 0,
        are_coordinates_fixed::<T>(),
        means_outcome::<T>(a, m),
        means_outcome::<T>(a, w),
    ensures
        m == w,
{
    let dim = a.dimension;
    assert forall|p: int| 0 <= p < m.centroids.len() implies #[trigger] m.centroids[p]
        == w.centroids[p] by {
        let c = p / dim;
        let j = p % dim;
        lemma_fundamental_div_mod(p, dim);
        lemma_mod_bound(p, dim);
        lemma_div_pos_is_pos(p, dim);
        assert(c < a.k) by (nonlinear_arith)
            requires
                p == dim * c + j,
                0 <= j < dim,
                p < a.k * dim,
        ;
        assert(place(c, dim, j) == p) by (nonlinear_arith)
            requires
                p == dim * c + j,
                place(c, dim, j) == c * dim + j,
        ;
        assert(m.centroids[place(c, dim, j)] == m.centroids[p]);
        assert(w.centroids[place(c, dim, j)] == w.centroids[p]);
        lemma_mean_determined::<T>(
            column(a.data, dim, a.parts, a.member_count(), c, j),
            m.centroids[p],
            w.centroids[p],
        );
    }
    assert(m.centroids =~= w.centroids);
}

proof fn lemma_distance_sum_determined<T: FloatArithmetic>(
    parts: Seq<(u32, Float32)>,
    r: Float64,
    s: Float64,
)
    requires
        is_arithmetic_fixed::<T>(),
        distance_sum_outcome::<T>(parts, r),
        distance_sum_outcome::<T>(parts, s),
    ensures
        r == s,
{
    let a = choose|wide: Seq<Float64>|
        widened_outcome::<T>(parts, wide) && #[trigger] double_sum_outcome::<T>(wide, r);
    let b = choose|wide: Seq<Float64>|
        widened_outcome::<T>(parts, wide) && #[trigger] double_sum_outcome::<T>(wide, s);
    assert forall|i: int| 0 <= i < a.len() implies #[trigger] a[i] == b[i] by {
        assert(call_ensures(T::double_from_single, (parts[i].1,), a[i]));
        assert(call_ensures(T::double_from_single, (parts[i].1,), b[i]));
    }
    assert(a =~= b);
    lemma_double_sum_determined::<T>(a, r, s);
}

proof fn lemma_squared_deviation_determined<T: FloatArithmetic>(
    size: usize,
    mean: Float32,
    r: Float32,
    s: Float32,
)
    requires
        is_arithmetic_fixed::<T>(),
        squared_deviation_outcome::<T>(size, mean, r),
        squared_deviation_outcome::<T>(size, mean, s),
    ensures
        r == s,
{
    let (n, a) = choose|size_number: Float32, difference: Float32|
        {
            &&& call_ensures(T::single_from_usize, (size,), size_number)
            &&& #[trigger] call_ensures(T::single_sub, (size_number, mean), difference)
            &&& #[trigger] call_ensures(T::single_powi, (difference, 2i32), r)
        };
    let (m, b) = choose|size_number: Float32, difference: Float32|
        {
            &&& call_ensures(T::single_from_usize, (size,), size_number)
            &&& #[trigger] call_ensures(T::single_sub, (size_number, mean), difference)
            &&& #[trigger] call_ensures(T::single_powi, (difference, 2i32), s)
        };
    assert(n == m);
    assert(a == b);
}

proof fn lemma_stddev_determined<T: FloatArithmetic>(
    sizes: Seq<usize>,
    len: usize,
    k: usize,
    r: Float32,
    s: Float32,
)
    requires
        is_arithmetic_fixed::<T>(),
        stddev_outcome::<T>(sizes, len, k, r),
        stddev_outcome::<T>(sizes, len, k, s),
    ensures
        r == s,
{
    let (len_number, k_number, mean, squares, sum, variance) = choose|
        len_number: Float32,
        k_number: Float32,
        mean: Float32,
        squares: Seq<Float32>,
        sum: Float32,
        variance: Float32,
    |
        {
            &&& call_ensures(T::single_from_usize, (len,), len_number)
            &&& call_ensures(T::single_from_usize, (k,), k_number)
            &&& #[trigger] call_ensures(T::single_div, (len_number, k_number), mean)
            &&& squares.len() == sizes.len()
            &&& forall|c: int|
                0 <= c < squares.len() ==> squared_deviation_outcome::<T>(
                    sizes[c],
                    mean,
                    #[trigger] squares[c],
                )
            &&& #[trigger] single_sum_outcome::<T>(squares, sum)
            &&& #[trigger] call_ensures(T::single_div, (sum, k_number), variance)
            &&& call_ensures(T::single_sqrt, (variance,), r)
        };
    let (len_other, k_other, mean_other, squares_other, sum_other, variance_other) = choose|
        len_number: Float32,
        k_number: Float32,
        mean: Float32,
        squares: Seq<Float32>,
        sum: Float32,
        variance: Float32,
    |
        {
            &&& call_ensures(T::single_from_usize, (len,), len_number)
            &&& call_ensures(T::single_from_usize, (k,), k_number)
            &&& #[trigger] call_ensures(T::single_div, (len_number, k_number), mean)
            &&& squares.len() == sizes.len()
            &&& forall|c: int|
                0 <= c < squares.len() ==> squared_deviation_outcome::<T>(
                    sizes[c],
                    mean,
                    #[trigger] squares[c],
                )
            &&& #[trigger] single_sum_outcome::<T>(squares, sum)
            &&& #[trigger] call_ensures(T::single_div, (sum, k_number), variance)
            &&& call_ensures(T::single_sqrt, (variance,), s)
        };
    assert(len_number == len_other && k_number == k_other);
    assert(mean == mean_other);
    assert forall|c: int| 0 <= c < squares.len() implies #[trigger] squares[c]
        == squares_other[c] by {
        lemma_squared_deviation_determined::<T>(sizes[c], mean, squares[c], squares_other[c]);
    }
    assert(squares =~= squares_other);
    lemma_single_sum_determined::<T>(squares, sum, sum_other);
    assert(variance == variance_other);
}

proof fn lemma_mean_distance_determined<T: FloatArithmetic>(
    parts: Seq<(u32, Float32)>,
    r: Float64,
    s: Float64,
)
    requires
        is_arithmetic_fixed::<T>(),
        mean_distance_outcome::<T>(parts, r),
        mean_distance_outcome::<T>(parts, s),
    ensures
        r == s,
{
    let (a, n) = choose|sum: Float64, count: Float64|
        {
            &&& distance_sum_outcome::<T>(parts, sum)
            &&& call_ensures(T::double_from_usize, (parts.len() as usize,), count)
            &&& #[trigger] call_ensures(T::double_div, (sum, count), r)
        };
    let (b, m) = choose|sum: Float64, count: Float64|
        {
            &&& distance_sum_outcome::<T>(parts, sum)
            &&& call_ensures(T::double_from_usize, (parts.len() as usize,), count)
            &&& #[trigger] call_ensures(T::double_div, (sum, count), s)
        };
    lemma_distance_sum_determined::<T>(parts, a, b);
    assert(n == m);
}

proof fn lemma_converged_determined<T: FloatArithmetic>(
    before: Option<Float64>,
    now: Float64,
    tolerance: Float64,
    r: bool,
    s: bool,
)
    requires
        is_arithmetic_fixed::<T>(),
        converged_outcome::<T>(before, now, tolerance, r),
        converged_outcome::<T>(before, now, tolerance, s),
    ensures
        r == s,
{
    if let Some(mean) = before {
        let a = choose|difference: Float64|
            {
                &&& #[trigger] call_ensures(T::double_sub, (mean, now), difference)
                &&& r == difference.spec_abs().less(tolerance)
            };
        let b = choose|difference: Float64|
            {
                &&& #[trigger] call_ensures(T::double_sub, (mean, now), difference)
                &&& s == difference.spec_abs().less(tolerance)
            };
        assert(a == b);
    }
}

proof fn lemma_row_determined<T: ArrowFloatType>(
    model: Model<T::Native>,
    data: Seq<T::Native>,
    norm_data: Option<Seq<Float32>>,
    norms: Seq<Float32>,
    r: int,
    p: (u32, Float32),
    q: Option<(u32, Float32)>,
)
    requires
        model.dimension > 0,
        are_distances_fixed::<T>(),
        is_arithmetic_fixed::<T>(),
        row_outcome::<T>(model, data, norm_data, norms, r, p),
        match q {
            Some(part) => row_outcome::<T>(model, data, norm_data, norms, r, part),
            None => row_fails::<T>(model, data, norm_data, norms, r),
        },
    ensures
        q == Some(p),
{
    let from = row(data, model.dimension, r);
    if model.metric_type is L2 {
        match q {
            Some(part) => {
                lemma_l2_nearest_determined::<T>(
                    from,
                    model.centroids,
                    model.dimension,
                    p,
                    part,
                );
            },
            None => {
                lemma_l2_fails_or_not::<T>(from, model.centroids, model.dimension, p);
            },
        }
    } else {
        lemma_nearest_determined::<T>(
            model.metric_type,
            from,
            row_norm(model.metric_type, norm_data, r),
            model.centroids,
            model.dimension,
            model.count(),
            norms,
            Some(p),
            q,
        );
    }
}

/// The lengths of centroids behind a membership.
spec fn norms_witness<T: ArrowFloatType>(
    model: Model<T::Native>,
    data: Seq<T::Native>,
    norm_data: Option<Seq<Float32>>,
    r: Option<Assignment<T::Native>>,
) -> Seq<Float32> {
    let n = data.len() as int / model.dimension;
    choose|norms: Seq<Float32>|
        {
            &&& #[trigger] centroid_norms_outcome::<T>(model, norms)
            &&& match r {
                Some(a) => {
                    &&& a.data == data
                    &&& a.dimension == model.dimension
                    &&& a.k == model.k
                    &&& a.metric_type == model.metric_type
                    &&& rows_outcome::<T>(model, data, norm_data, norms, 0, n, Some(a.parts))
                },
                None => rows_outcome::<T>(model, data, norm_data, norms, 0, n, None),
            }
        }
}

proof fn lemma_some_or_no_membership<T: ArrowFloatType>(
    model: Model<T::Native>,
    data: Seq<T::Native>,
    norm_data: Option<Seq<Float32>>,
    norms: Seq<Float32>,
    parts: Seq<(u32, Float32)>,
)
    requires
        model.dimension > 0,
        are_distances_fixed::<T>(),
        is_arithmetic_fixed::<T>(),
        rows_outcome::<T>(
            model,
            data,
            norm_data,
            norms,
            0,
            data.len() as int / model.dimension,
            Some(parts),
        ),
    ensures
        !rows_outcome::<T>(
            model,
            data,
            norm_data,
            norms,
            0,
            data.len() as int / model.dimension,
            None,
        ),
{
    let n = data.len() as int / model.dimension;
    if rows_outcome::<T>(model, data, norm_data, norms, 0, n, None) {
        let i = choose|i: int|
            0 <= i < n && #[trigger] row_fails::<T>(model, data, norm_data, norms, i);
        assert(row_outcome::<T>(model, data, norm_data, norms, 0 + i, parts[i]));
        lemma_row_determined::<T>(model, data, norm_data, norms, i, parts[i], None);
    }
}

/// Assigning vectors to the clusters of a model gives one membership only.
pub proof fn law_membership_determined<T: ArrowFloatType>(
    model: Model<T::Native>,
    data: Seq<T::Native>,
    norm_data: Option<Seq<Float32>>,
    r: Option<Assignment<T::Native>>,
    s: Option<Assignment<T::Native>>,
)
    requires
        model.dimension > 0,
        are_distances_fixed::<T>(),
        is_arithmetic_fixed::<T>(),
        membership_outcome::<T>(model, data, norm_data, r),
        membership_outcome::<T>(model, data, norm_data, s),
    ensures
        r == s,
{
    let norms = norms_witness::<T>(model, data, norm_data, r);
    let others = norms_witness::<T>(model, data, norm_data, s);
    if model.metric_type is Cosine {
        lemma_norms_determined::<T>(model.centroids, model.dimension, norms, others);
    } else {
        assert(norms =~= others);
    }
    match (r, s) {
        (Some(a), Some(b)) => {
            assert forall|i: int| 0 <= i < a.parts.len() implies #[trigger] a.parts[i]
                == b.parts[i] by {
                lemma_row_determined::<T>(
                    model,
                    data,
                    norm_data,
                    norms,
                    0 + i,
                    a.parts[i],
                    Some(b.parts[i]),
                );
            }
            assert(a.parts =~= b.parts);
        },
        (Some(a), None) => {
            lemma_some_or_no_membership::<T>(model, data, norm_data, norms, a.parts);
        },
        (None, Some(b)) => {
            lemma_some_or_no_membership::<T>(model, data, norm_data, norms, b.parts);
        },
        (None, None) => {},
    }
}

proof fn lemma_train_once_determined<T: ArrowFloatType>(
    model: Model<T::Native>,
    data: Seq<T::Native>,
    num_columns: int,
    r: Option<Assignment<T::Native>>,
    s: Option<Assignment<T::Native>>,
)
    requires
        model.dimension > 0,
        are_distances_fixed::<T>(),
        is_arithmetic_fixed::<T>(),
        train_once_outcome::<T>(model, data, num_columns, r),
        train_once_outcome::<T>(model, data, num_columns, s),
    ensures
        r == s,
{
    if model.metric_type is Cosine {
        let a = choose|norm_data: Seq<Float32>|
            {
                &&& norm_data.len() == data.len() as int / num_columns
                &&& #[trigger] norms_outcome::<T>(data, num_columns, norm_data)
                &&& membership_outcome::<T>(model, data, Some(norm_data), r)
            };
        let b = choose|norm_data: Seq<Float32>|
            {
                &&& norm_data.len() == data.len() as int / num_columns
                &&& #[trigger] norms_outcome::<T>(data, num_columns, norm_data)
                &&& membership_outcome::<T>(model, data, Some(norm_data), s)
            };
        lemma_norms_determined::<T>(data, num_columns, a, b);
        law_membership_determined::<T>(model, data, Some(a), r, s);
    } else {
        law_membership_determined::<T>(model, data, None, r, s);
    }
}

/// Whether all arithmetic always gives the same answer to the same arguments.
pub open spec fn is_fixed<T: ArrowFloatType>() -> bool {
    &&& is_arithmetic_fixed::<T>()
    &&& are_coordinates_fixed::<T>()
    &&& are_distances_fixed::<T>()
}

proof fn lemma_step_determined<T: ArrowFloatType>(
    model: Model<T::Native>,
    before: Option<Float64>,
    data: Seq<T::Native>,
    tolerance: Float64,
    r: Step<T::Native>,
    s: Step<T::Native>,
)
    requires
        model.dimension > 0,
        model.k >= 0,
        is_fixed::<T>(),
        step_outcome::<T>(model, before, data, tolerance, r),
        step_outcome::<T>(model, before, data, tolerance, s),
    ensures
        r == s,
{
    lemma_train_once_determined::<T>(
        model,
        data,
        model.dimension,
        Some(r.membership),
        Some(s.membership),
    );
    let parts = r.membership.parts;
    lemma_mean_distance_determined::<T>(parts, r.mean_distance, s.mean_distance);
    lemma_stddev_determined::<T>(
        sizes_of(parts, model.k),
        parts.len() as usize,
        model.k as usize,
        r.stddev,
        s.stddev,
    );
    lemma_membership_shape::<T>(model, data, model.dimension, r.membership);
    law_means_determined::<T>(r.membership, r.model, s.model);
    lemma_converged_determined::<T>(
        before,
        r.mean_distance,
        tolerance,
        r.converged,
        s.converged,
    );
}

/// Iterations that start alike are alike.
proof fn lemma_steps_determined<T: ArrowFloatType>(
    start: Model<T::Native>,
    data: Seq<T::Native>,
    tolerance: Float64,
    r: Seq<Step<T::Native>>,
    s: Seq<Step<T::Native>>,
    i: int,
)
    requires
        start.dimension > 0,
        start.k >= 0,
        is_fixed::<T>(),
        steps_outcome::<T>(start, data, tolerance, r),
        steps_outcome::<T>(start, data, tolerance, s),
        0 <= i < r.len(),
        i < s.len(),
    ensures
        r[i] == s[i],
    decreases i,
{
    if i > 0 {
        lemma_steps_determined::<T>(start, data, tolerance, r, s, i - 1);
    }
    lemma_steps_keep_shape::<T>(start, data, tolerance, r, i);
    assert(follows::<T>(start, data, tolerance, r, i));
    assert(follows::<T>(start, data, tolerance, s, i));
    lemma_step_determined::<T>(
        model_after(start, r, i),
        mean_after(r, i),
        data,
        tolerance,
        r[i],
        s[i],
    );
}

/// Where two sequences of iterations start alike, the one that goes on is not
/// done where the other ends.
proof fn lemma_longer_is_not_done<T: ArrowFloatType>(
    start: Model<T::Native>,
    data: Seq<T::Native>,
    tolerance: Float64,
    r: Seq<Step<T::Native>>,
    s: Seq<Step<T::Native>>,
)
    requires
        start.dimension > 0,
        start.k >= 0,
        is_fixed::<T>(),
        steps_outcome::<T>(start, data, tolerance, r),
        steps_outcome::<T>(start, data, tolerance, s),
        r.len() < s.len(),
    ensures
        !is_done(r),
        model_after(start, r, r.len() as int) == model_after(start, s, r.len() as int),
{
    if r.len() > 0 {
        let i = r.len() - 1;
        lemma_steps_determined::<T>(start, data, tolerance, r, s, i);
        assert(!s[i].converged);
    }
}

/// Training from one model gives one run only.
pub proof fn law_run_determined<T: ArrowFloatType>(
    start: Model<T::Native>,
    data: Seq<T::Native>,
    max_iters: int,
    tolerance: Float64,
    r: (Model<T::Native>, Float32),
    s: (Model<T::Native>, Float32),
)
    requires
        start.dimension > 0,
        start.k >= 0,
        is_fixed::<T>(),
        run_outcome::<T>(start, data, max_iters, tolerance, r),
        run_outcome::<T>(start, data, max_iters, tolerance, s),
    ensures
        r == s,
{
    let a = choose|steps: Seq<Step<T::Native>>|
        {
            &&& #[trigger] steps_outcome::<T>(start, data, tolerance, steps)
            &&& steps.len() <= max_iters
            &&& steps.len() == max_iters || is_done(steps)
            &&& r.0 == model_after(start, steps, steps.len() as int)
            &&& r.1 == stddev_after(steps, steps.len() as int)
        };
    let b = choose|steps: Seq<Step<T::Native>>|
        {
            &&& #[trigger] steps_outcome::<T>(start, data, tolerance, steps)
            &&& steps.len() <= max_iters
            &&& steps.len() == max_iters || is_done(steps)
            &&& s.0 == model_after(start, steps, steps.len() as int)
            &&& s.1 == stddev_after(steps, steps.len() as int)
        };
    if a.len() < b.len() {
        lemma_longer_is_not_done::<T>(start, data, tolerance, a, b);
    } else if b.len() < a.len() {
        lemma_longer_is_not_done::<T>(start, data, tolerance, b, a);
    } else if a.len() > 0 {
        lemma_steps_determined::<T>(start, data, tolerance, a, b, a.len() - 1);
    }
}

/// Where vectors have been assigned there was a centroid to measure them against.
proof fn lemma_membership_is_measured<T: ArrowFloatType>(
    model: Model<T::Native>,
    data: Seq<T::Native>,
    a: Assignment<T::Native>,
)
    requires
        model.dimension > 0,
        train_once_outcome::<T>(model, data, model.dimension, Some(a)),
    ensures
        is_measurable(model, data.len() as int / model.dimension),
{
    let n = data.len() as int / model.dimension;
    let norm_data = choose|norm_data: Option<Seq<Float32>>| #[trigger]
        membership_outcome::<T>(model, data, norm_data, Some(a));
    assert(membership_outcome::<T>(model, data, norm_data, Some(a)));
    let norms = choose|norms: Seq<Float32>|
        {
            &&& #[trigger] centroid_norms_outcome::<T>(model, norms)
            &&& rows_outcome::<T>(model, data, norm_data, norms, 0, n, Some(a.parts))
        };
    if n > 0 {
        let i: int = 0;
        assert(row_outcome::<T>(model, data, norm_data, norms, 0 + i, a.parts[i]));
    }
}

/// Training from one model either comes to an end or to a vector that belongs to
/// none of the clusters, but not to both.
pub proof fn law_run_ends_or_fails<T: ArrowFloatType>(
    start: Model<T::Native>,
    data: Seq<T::Native>,
    max_iters: int,
    tolerance: Float64,
    r: (Model<T::Native>, Float32),
)
    requires
        start.dimension > 0,
        start.k >= 0,
        is_fixed::<T>(),
        run_outcome::<T>(start, data, max_iters, tolerance, r),
    ensures
        !run_fails::<T>(start, data, max_iters, tolerance),
{
    if run_fails::<T>(start, data, max_iters, tolerance) {
        let a = choose|steps: Seq<Step<T::Native>>|
            {
                &&& #[trigger] steps_outcome::<T>(start, data, tolerance, steps)
                &&& steps.len() <= max_iters
                &&& steps.len() == max_iters || is_done(steps)
                &&& r.0 == model_after(start, steps, steps.len() as int)
                &&& r.1 == stddev_after(steps, steps.len() as int)
            };
        let b = choose|steps: Seq<Step<T::Native>>|
            {
                &&& #[trigger] steps_outcome::<T>(start, data, tolerance, steps)
                &&& steps.len() < max_iters
                &&& !is_done(steps)
                &&& step_fails::<T>(model_after(start, steps, steps.len() as int), data)
            };
        if a.len() < b.len() {
            lemma_longer_is_not_done::<T>(start, data, tolerance, a, b);
        } else if b.len() < a.len() {
            let n = b.len() as int;
            lemma_longer_is_not_done::<T>(start, data, tolerance, b, a);
            lemma_steps_keep_shape::<T>(start, data, tolerance, a, n);
            assert(follows::<T>(start, data, tolerance, a, n));
            let model = model_after(start, a, n);
            let found = Some(a[n].membership);
            lemma_membership_is_measured::<T>(model, data, a[n].membership);
            if train_once_outcome::<T>(model, data, model.dimension, None) {
                lemma_train_once_determined::<T>(model, data, model.dimension, found, None);
            } else {
                let other = choose|other: Assignment<T::Native>|
                    {
                        &&& #[trigger] train_once_outcome::<T>(
                            model,
                            data,
                            model.dimension,
                            Some(other),
                        )
                        &&& !other.wf()
                    };
                lemma_train_once_determined::<T>(
                    model,
                    data,
                    model.dimension,
                    found,
                    Some(other),
                );
            }
        } else if a.len() > 0 {
            lemma_steps_determined::<T>(start, data, tolerance, a, b, a.len() - 1);
        }
    }
}

/// With a tolerance that is never met, training can be stopped at any iteration
/// and continued from the model that it has come to.
pub proof fn law_training_can_be_continued<T: ArrowFloatType>(
    start: Model<T::Native>,
    data: Seq<T::Native>,
    first: int,
    second: int,
    tolerance: Float64,
    middle: (Model<T::Native>, Float32),
    r: (Model<T::Native>, Float32),
    s: (Model<T::Native>, Float32),
)
    requires
        start.dimension > 0,
        start.k >= 0,
        is_fixed::<T>(),
        is_never_met(tolerance),
        0 <= first,
        0 < second,
        run_outcome::<T>(start, data, first + second, tolerance, r),
        run_outcome::<T>(start, data, first, tolerance, middle),
        run_outcome::<T>(middle.0, data, second, tolerance, s),
    ensures
        r == s,
{
    law_run_splits::<T>(start, data, first, second, tolerance, r);
    let other = choose|other: (Model<T::Native>, Float32)|
        {
            &&& #[trigger] run_outcome::<T>(start, data, first, tolerance, other)
            &&& run_outcome::<T>(other.0, data, second, tolerance, r)
        };
    law_run_determined::<T>(start, data, first, tolerance, middle, other);
    law_run_keeps_shape::<T>(start, data, first, tolerance, middle);
    law_run_determined::<T>(middle.0, data, second, tolerance, r, s);
}

/// Which run is picked is fixed: whatever runs from the given models end with,
/// the model that is trained is the best of them.
pub proof fn law_pick_is_the_best<T: ArrowFloatType>(
    starts: Seq<Model<T::Native>>,
    data: Seq<T::Native>,
    max_iters: int,
    tolerance: Float64,
    runs: Seq<(Model<T::Native>, Float32)>,
    m: Model<T::Native>,
)
    requires
        are_sound(starts),
        is_fixed::<T>(),
        runs_from::<T>(starts, data, max_iters, tolerance, runs),
        train_from_outcome::<T>(starts, data, max_iters, tolerance, Some(m)),
    ensures
        is_best(runs, m),
{
    let others = choose|others: Seq<(Model<T::Native>, Float32)>|
        {
            &&& #[trigger] runs_from::<T>(starts, data, max_iters, tolerance, others)
            &&& is_best(others, m)
        };
    assert forall|i: int| 0 <= i < runs.len() implies #[trigger] runs[i] == others[i] by {
        assert(is_sound(starts[i]));
        law_run_determined::<T>(starts[i], data, max_iters, tolerance, runs[i], others[i]);
    }
    assert(runs =~= others);
}

/// Whether vectors have a width and the number of clusters is not negative.
pub open spec fn is_sound<N>(model: Model<N>) -> bool {
    model.dimension > 0 && model.k >= 0
}

/// Whether all models are sound.
pub open spec fn are_sound<N>(models: Seq<Model<N>>) -> bool {
    forall|i: int| 0 <= i < models.len() ==> is_sound(#[trigger] models[i])
}

/// Training from given models gives one model only.
pub proof fn law_train_from_determined<T: ArrowFloatType>(
    starts: Seq<Model<T::Native>>,
    data: Seq<T::Native>,
    max_iters: int,
    tolerance: Float64,
    r: Option<Model<T::Native>>,
    s: Option<Model<T::Native>>,
)
    requires
        are_sound(starts),
        is_fixed::<T>(),
        train_from_outcome::<T>(starts, data, max_iters, tolerance, r),
        train_from_outcome::<T>(starts, data, max_iters, tolerance, s),
    ensures
        r == s,
{
    match (r, s) {
        (Some(m), Some(w)) => {
            let runs = choose|runs: Seq<(Model<T::Native>, Float32)>|
                {
                    &&& #[trigger] runs_from::<T>(starts, data, max_iters, tolerance, runs)
                    &&& is_best(runs, m)
                };
            law_pick_is_the_best::<T>(starts, data, max_iters, tolerance, runs, w);
            lemma_best_determined(runs, m, w);
        },
        (Some(m), None) => {
            lemma_trained_or_failed::<T>(starts, data, max_iters, tolerance, m);
        },
        (None, Some(w)) => {
            lemma_trained_or_failed::<T>(starts, data, max_iters, tolerance, w);
        },
        (None, None) => {},
    }
}

proof fn lemma_best_determined<N>(runs: Seq<(Model<N>, Float32)>, m: Model<N>, w: Model<N>)
    requires
        is_best(runs, m),
        is_best(runs, w),
    ensures
        m == w,
{
    let stddevs = stddevs_of(runs);
    let bound = Float32::spec_max();
    if any_below(stddevs, bound) {
        let i = choose|i: int| #[trigger] is_argmin(stddevs, bound, i) && m == runs[i].0;
        let j = choose|j: int| #[trigger] is_argmin(stddevs, bound, j) && w == runs[j].0;
        lemma_argmin_is_unique(stddevs, bound, i, j);
    }
}

proof fn lemma_trained_or_failed<T: ArrowFloatType>(
    starts: Seq<Model<T::Native>>,
    data: Seq<T::Native>,
    max_iters: int,
    tolerance: Float64,
    m: Model<T::Native>,
)
    requires
        are_sound(starts),
        is_fixed::<T>(),
        train_from_outcome::<T>(starts, data, max_iters, tolerance, Some(m)),
    ensures
        !train_from_outcome::<T>(starts, data, max_iters, tolerance, None),
{
    if train_from_outcome::<T>(starts, data, max_iters, tolerance, None) {
        let runs = choose|runs: Seq<(Model<T::Native>, Float32)>|
            {
                &&& #[trigger] runs_from::<T>(starts, data, max_iters, tolerance, runs)
                &&& is_best(runs, m)
            };
        let i = choose|i: int|
            0 <= i < starts.len() && run_fails::<T>(
                #[trigger] starts[i],
                data,
                max_iters,
                tolerance,
            );
        assert(is_sound(starts[i]));
        law_run_ends_or_fails::<T>(starts[i], data, max_iters, tolerance, runs[i]);
    }
}

/// Training from given centroids gives one model only.
pub proof fn law_training_determined<T: ArrowFloatType>(
    params: KMeansParams<T>,
    data: Seq<T::Native>,
    dim: int,
    k: int,
    r: Option<Model<T::Native>>,
    s: Option<Model<T::Native>>,
)
    requires
        dim > 0,
        k >= 0,
        params.centroids is Some,
        is_fixed::<T>(),
        train_outcome(params, data, dim, k, r),
        train_outcome(params, data, dim, k, s),
    ensures
        r == s,
{
    if params.redos > 0 {
        law_redos_do_not_matter::<T>(params, params, data, dim, k, r, s);
    }
}

/// Whether training with either parameters is the same but for how often it is
/// run, and how centroids would be initialized if they were not given.
pub open spec fn differ_in_redos_only<T: ArrowFloatType>(
    params: KMeansParams<T>,
    others: KMeansParams<T>,
) -> bool {
    &&& params.centroids is Some
    &&& params.redos > 0
    &&& others.redos > 0
    &&& params.centroids == others.centroids
    &&& params.max_iters == others.max_iters
    &&& params.tolerance == others.tolerance
    &&& params.metric_type == others.metric_type
}

/// Training from given centroids gives the same model however often it is run,
/// and however centroids would be initialized.
pub proof fn law_redos_do_not_matter<T: ArrowFloatType>(
    params: KMeansParams<T>,
    others: KMeansParams<T>,
    data: Seq<T::Native>,
    dim: int,
    k: int,
    r: Option<Model<T::Native>>,
    s: Option<Model<T::Native>>,
)
    requires
        dim > 0,
        k >= 0,
        differ_in_redos_only(params, others),
        is_fixed::<T>(),
        train_outcome(params, data, dim, k, r),
        train_outcome(others, data, dim, k, s),
    ensures
        r == s,
{
    let max_iters = params.max_iters as int;
    match (r, s) {
        (Some(m), Some(w)) => {
            let (start, x) = lemma_trained_is_run(params, data, dim, k, m);
            let (other, y) = lemma_trained_is_run(others, data, dim, k, w);
            law_run_determined::<T>(start, data, max_iters, params.tolerance, x, y);
        },
        (Some(m), None) => {
            let (start, x) = lemma_trained_is_run(params, data, dim, k, m);
            let failed = lemma_untrained_is_failed_run(others, data, dim, k);
            law_run_ends_or_fails::<T>(start, data, max_iters, params.tolerance, x);
        },
        (None, Some(w)) => {
            let (start, y) = lemma_trained_is_run(others, data, dim, k, w);
            let failed = lemma_untrained_is_failed_run(params, data, dim, k);
            law_run_ends_or_fails::<T>(start, data, max_iters, params.tolerance, y);
        },
        (None, None) => {},
    }
}

/// Where nothing is trained, one of the runs has failed.
proof fn lemma_untrained_is_failed_run<T: ArrowFloatType>(
    params: KMeansParams<T>,
    data: Seq<T::Native>,
    dim: int,
    k: int,
) -> (start: Model<T::Native>)
    requires
        train_outcome(params, data, dim, k, None),
    ensures
        start_outcome(params, data, dim, k, start),
        run_fails::<T>(start, data, params.max_iters as int, params.tolerance),
{
    let max_iters = params.max_iters as int;
    let starts = choose|starts: Seq<Model<T::Native>>|
        {
            &&& starts.len() == params.redos
            &&& #[trigger] starts_outcome(params, data, dim, k, starts)
            &&& train_from_outcome::<T>(starts, data, max_iters, params.tolerance, None)
        };
    let i = choose|i: int|
        0 <= i < starts.len() && run_fails::<T>(
            #[trigger] starts[i],
            data,
            max_iters,
            params.tolerance,
        );
    assert(start_outcome(params, data, dim, k, starts[i]));
    starts[i]
}

/// Whether `last` goes on from the given model where `first` has stopped, and
/// `whole` does what both do, with a tolerance that is never met.
pub open spec fn continues<T: ArrowFloatType>(
    whole: KMeansParams<T>,
    first: KMeansParams<T>,
    middle: Model<T::Native>,
    last: KMeansParams<T>,
) -> bool {
    &&& is_never_met(whole.tolerance)
    &&& whole.redos > 0 && first.redos > 0 && last.redos > 0
    &&& first.max_iters > 0 && last.max_iters > 0
    &&& whole.max_iters == first.max_iters + last.max_iters
    &&& first.tolerance == whole.tolerance
    &&& last.tolerance == whole.tolerance
    &&& first.metric_type == whole.metric_type
    &&& last.metric_type == whole.metric_type
    &&& whole.centroids is Some
    &&& first.centroids == whole.centroids
    &&& last.centroids matches Some(centroids) && centroids@ == middle.centroids
}

/// With a tolerance that is never met, training can be continued from what it
/// has given.
pub proof fn law_trained_model_can_be_trained_on<T: ArrowFloatType>(
    whole: KMeansParams<T>,
    first: KMeansParams<T>,
    last: KMeansParams<T>,
    data: Seq<T::Native>,
    dim: int,
    k: int,
    m: Model<T::Native>,
    middle: Model<T::Native>,
    w: Model<T::Native>,
)
    requires
        dim > 0,
        k >= 0,
        is_fixed::<T>(),
        continues(whole, first, middle, last),
        train_outcome(whole, data, dim, k, Some(m)),
        train_outcome(first, data, dim, k, Some(middle)),
        train_outcome(last, data, dim, k, Some(w)),
    ensures
        m == w,
{
    let (start, x) = lemma_trained_is_run(whole, data, dim, k, m);
    let (same, y) = lemma_trained_is_run(first, data, dim, k, middle);
    let (next, z) = lemma_trained_is_run(last, data, dim, k, w);
    law_run_keeps_shape::<T>(start, data, first.max_iters as int, whole.tolerance, y);
    assert(next == middle);
    law_training_can_be_continued::<T>(
        start,
        data,
        first.max_iters as int,
        last.max_iters as int,
        whole.tolerance,
        y,
        x,
        z,
    );
}

/// Whether reading a column always gives the same values.
pub open spec fn is_reading_fixed<T: ArrowFloatType>() -> bool {
    forall|
        list: &FixedSizeListArray,
        r: Option<Vec<T::Native>>,
        s: Option<Vec<T::Native>>,
    |
        #[trigger] call_ensures(T::list_values, (list,), r) && #[trigger] call_ensures(
            T::list_values,
            (list,),
            s,
        ) ==> view_option(r) == view_option(s)
}

/// What has been trained on a column has been trained on its values.
proof fn lemma_trained_on_values<T: ArrowFloatType>(
    data: FixedSizeListArray,
    k: usize,
    params: KMeansParams<T>,
    m: KMeans<T>,
) -> (values: Vec<T::Native>)
    requires
        training_outcome(data, k, params, Ok(m)),
    ensures
        call_ensures(T::list_values, (&data,), Some(values)),
        list_value_length(data) >= 0,
        ready(params, values@.len() as int, list_value_length(data), k as int),
        train_outcome(params, values@, list_value_length(data), k as int, Some(m@)),
{
    let values = choose|values: Option<Vec<T::Native>>|
        {
            &&& #[trigger] call_ensures(T::list_values, (&data,), values)
            &&& values_outcome(data, k, params, values, Ok(m))
        };
    values->Some_0
}

/// With a tolerance that is never met, training on a column can be continued
/// from the model that it has given.
pub proof fn law_column_can_be_trained_on<T: ArrowFloatType>(
    data: FixedSizeListArray,
    k: usize,
    whole: KMeansParams<T>,
    first: KMeansParams<T>,
    last: KMeansParams<T>,
    m: KMeans<T>,
    middle: KMeans<T>,
    w: KMeans<T>,
)
    requires
        is_fixed::<T>(),
        is_reading_fixed::<T>(),
        continues(whole, first, middle@, last),
        training_outcome(data, k, whole, Ok(m)),
        training_outcome(data, k, first, Ok(middle)),
        training_outcome(data, k, last, Ok(w)),
    ensures
        m@ == w@,
{
    let a = lemma_trained_on_values(data, k, whole, m);
    let b = lemma_trained_on_values(data, k, first, middle);
    let c = lemma_trained_on_values(data, k, last, w);
    assert(view_option(Some(a)) == view_option(Some(b)));
    assert(view_option(Some(a)) == view_option(Some(c)));
    law_trained_model_can_be_trained_on(
        whole,
        first,
        last,
        a@,
        list_value_length(data),
        k as int,
        m@,
        middle@,
        w@,
    );
}

/// Training on a column from given centroids gives the same model however often
/// it is run, and however centroids would be initialized.
pub proof fn law_redos_do_not_matter_on_columns<T: ArrowFloatType>(
    data: FixedSizeListArray,
    k: usize,
    params: KMeansParams<T>,
    others: KMeansParams<T>,
    r: Result<KMeans<T>, Error>,
    s: Result<KMeans<T>, Error>,
)
    requires
        params.max_iters > 0,
        is_fixed::<T>(),
        is_reading_fixed::<T>(),
        differ_in_redos_only(params, others),
        training_outcome(data, k, params, r),
        training_outcome(data, k, others, s),
    ensures
        r is Ok == s is Ok,
        r is Ok ==> r->Ok_0@ == s->Ok_0@,
{
    if list_len(data) >= k && list_is_floating(data) {
        let a = choose|values: Option<Vec<T::Native>>|
            {
                &&& #[trigger] call_ensures(T::list_values, (&data,), values)
                &&& values_outcome(data, k, params, values, r)
            };
        let b = choose|values: Option<Vec<T::Native>>|
            {
                &&& #[trigger] call_ensures(T::list_values, (&data,), values)
                &&& values_outcome(data, k, others, values, s)
            };
        let dim = list_value_length(data);
        assert(view_option(a) == view_option(b));
        if a is Some && dim >= 0 && ready(params, a->Some_0@.len() as int, dim, k as int) {
            law_redos_do_not_matter(
                params,
                others,
                a->Some_0@,
                dim,
                k as int,
                trained_model(r),
                trained_model(s),
            );
        }
    }
}

/// The model that training has given, if it has.
pub open spec fn trained_model<T: ArrowFloatType>(r: Result<KMeans<T>, Error>) -> Option<
    Model<T::Native>,
> {
    match r {
        Ok(m) => Some(m@),
        Err(_) => None,
    }
}

/// The same vectors in the same clusters have the same means, whatever their
/// distances are. So a step of training that changes no cluster reproduces the
/// centroids that it started from, if these were means.
pub proof fn law_same_clusters_have_same_means<T: ArrowFloatType>(
    a: Assignment<T::Native>,
    b: Assignment<T::Native>,
    m: Model<T::Native>,
    w: Model<T::Native>,
)
    requires
        a.dimension > 0,
        a.k >= 0,
        are_coordinates_fixed::<T>(),
        a.data == b.data,
        a.dimension == b.dimension,
        a.k == b.k,
        a.metric_type == b.metric_type,
        ids_of(a.parts) == ids_of(b.parts),
        means_outcome::<T>(a, m),
        means_outcome::<T>(b, w),
    ensures
        m == w,
{
    law_distances_do_not_enter_means::<T>(a, b, w);
    law_means_determined::<T>(a, m, w);
}

/// Where the distances of stripes add up, working through tiles gives the same
/// places and distances as measuring each vector against all centroids in one go.
pub proof fn law_tiles_equal_single_vectors<T: ArrowFloatType>(
    centroids: Seq<T::Native>,
    data: Seq<T::Native>,
    dim: int,
    parts: Seq<(u32, Float32)>,
    others: Seq<(u32, Float32)>,
)
    requires
        dim > 0,
        data.len() as int % dim == 0,
        are_distances_fixed::<T>(),
        stripes_add_up::<T>(dim),
        l2_partitions_outcome::<T>(centroids, data, dim, Some(parts)),
        others.len() == chunk_count(data.len() as int, dim),
        forall|i: int|
            0 <= i < others.len() ==> small_nearest_outcome::<T>(
                chunk(data, dim, i),
                centroids,
                dim,
                #[trigger] others[i],
            ),
    ensures
        parts == others,
{
    assert forall|i: int| 0 <= i < parts.len() implies #[trigger] parts[i] == others[i] by {
        law_tiles_make_no_difference::<T>(centroids, data, dim, parts, i);
        lemma_small_nearest_determined::<T>(
            chunk(data, dim, i),
            centroids,
            dim,
            parts[i],
            others[i],
        );
    }
    assert(parts =~= others);
}

proof fn lemma_small_nearest_determined<T: ArrowFloatType>(
    from: Seq<T::Native>,
    centroids: Seq<T::Native>,
    dim: int,
    p: (u32, Float32),
    q: (u32, Float32),
)
    requires
        are_distances_fixed::<T>(),
        small_nearest_outcome::<T>(from, centroids, dim, p),
        small_nearest_outcome::<T>(from, centroids, dim, q),
    ensures
        p == q,
{
    let a = choose|dists: Seq<Float32>|
        {
            &&& #[trigger] l2_batch_outcome::<T>(from, centroids, dim, dists)
            &&& is_argmin_value_float(dists, p)
        };
    let b = choose|dists: Seq<Float32>|
        {
            &&& #[trigger] l2_batch_outcome::<T>(from, centroids, dim, dists)
            &&& is_argmin_value_float(dists, q)
        };
    assert forall|j: int| 0 <= j < a.len() implies #[trigger] a[j] == b[j] by {
        lemma_l2_determined::<T>(from, row(centroids, dim, j), a[j], b[j]);
    }
    assert(a =~= b);
    if any_below(a, Float32::spec_infinity()) {
        lemma_argmin_is_unique(a, Float32::spec_infinity(), p.0 as int, q.0 as int);
    }
}

/// Assigning vectors to the clusters of a model, with no lengths of vectors
/// known, gives the places that assigning them to its centroids gives.
pub proof fn law_membership_equals_partition<T: ArrowFloatType>(
    model: Model<T::Native>,
    data: Seq<T::Native>,
    r: Option<Assignment<T::Native>>,
    s: Option<Seq<u32>>,
)
    requires
        model.dimension > 0,
        takes_all(model, data),
        are_distances_fixed::<T>(),
        is_arithmetic_fixed::<T>(),
        membership_outcome::<T>(model, data, None, r),
        partitions_outcome::<T>(model.metric_type, model.centroids, data, model.dimension, s),
    ensures
        ids_of_membership(r) == s,
{
    law_membership_is_partition::<T>(model, data, r);
    law_partitions_determined::<T>(
        model.metric_type,
        model.centroids,
        data,
        model.dimension,
        ids_of_membership(r),
        s,
    );
}

/// Known lengths of vectors make a difference for the cosine distance only.
pub proof fn law_known_lengths_are_for_cosine<T: ArrowFloatType>(
    model: Model<T::Native>,
    data: Seq<T::Native>,
    norm_data: Option<Seq<Float32>>,
    r: Option<Assignment<T::Native>>,
    s: Option<Assignment<T::Native>>,
)
    requires
        model.dimension > 0,
        !(model.metric_type is Cosine),
        are_distances_fixed::<T>(),
        is_arithmetic_fixed::<T>(),
        membership_outcome::<T>(model, data, norm_data, r),
        membership_outcome::<T>(model, data, None, s),
    ensures
        r == s,
{
    law_lengths_are_not_asked_for::<T>(model, data, norm_data, r);
    law_membership_determined::<T>(model, data, None, r, s);
}

/// The clusters of two sequences of vectors, put together; `None` where one of
/// them has none.
pub open spec fn joined_parts<N>(a: Option<Assignment<N>>, b: Option<Assignment<N>>) -> Option<
    Seq<(u32, Float32)>,
> {
    match (a, b) {
        (Some(front), Some(back)) => Some(front.parts + back.parts),
        _ => None,
    }
}

/// The clusters of an optional membership.
pub open spec fn parts_of<N>(r: Option<Assignment<N>>) -> Option<Seq<(u32, Float32)>> {
    match r {
        Some(a) => Some(a.parts),
        None => None,
    }
}

/// No vector influences the cluster of another, and their order is kept: the
/// clusters of vectors that follow other vectors are put behind theirs.
pub proof fn law_memberships_join<T: ArrowFloatType>(
    model: Model<T::Native>,
    front: Seq<T::Native>,
    back: Seq<T::Native>,
    a: Option<Assignment<T::Native>>,
    b: Option<Assignment<T::Native>>,
    r: Option<Assignment<T::Native>>,
)
    requires
        model.dimension > 0,
        front.len() as int % model.dimension == 0,
        are_distances_fixed::<T>(),
        is_arithmetic_fixed::<T>(),
        membership_outcome::<T>(model, front, None, a),
        membership_outcome::<T>(model, back, None, b),
        membership_outcome::<T>(model, front + back, None, r),
    ensures
        parts_of(r) == joined_parts(a, b),
{
    law_membership_splits::<T>(model, front, back, r);
    match r {
        Some(whole) => {
            let n = front.len() as int / model.dimension;
            let first = assignment_of(model, front, whole.parts.take(n));
            let second = assignment_of(model, back, whole.parts.skip(n));
            law_membership_determined::<T>(model, front, None, a, Some(first));
            law_membership_determined::<T>(model, back, None, b, Some(second));
            assert(whole.parts =~= whole.parts.take(n) + whole.parts.skip(n));
        },
        None => {
            if membership_outcome::<T>(model, front, None, None) {
                law_membership_determined::<T>(model, front, None, a, None);
            } else {
                law_membership_determined::<T>(model, back, None, b, None);
            }
        },
    }
}

/// The places of vectors that follow other vectors are put behind theirs.
pub proof fn law_partitions_join<T: ArrowFloatType>(
    metric_type: MetricType,
    centroids: Seq<T::Native>,
    front: Seq<T::Native>,
    back: Seq<T::Native>,
    dim: int,
    a: Option<Seq<u32>>,
    b: Option<Seq<u32>>,
    r: Option<Seq<u32>>,
)
    requires
        dim > 0,
        front.len() as int % dim == 0,
        are_distances_fixed::<T>(),
        is_arithmetic_fixed::<T>(),
        partitions_outcome::<T>(metric_type, centroids, front, dim, a),
        partitions_outcome::<T>(metric_type, centroids, back, dim, b),
        partitions_outcome::<T>(metric_type, centroids, front + back, dim, r),
    ensures
        r == match (a, b) {
            (Some(first), Some(second)) => Some(first + second),
            _ => None::<Seq<u32>>,
        },
{
    law_partition_splits::<T>(metric_type, centroids, front, back, dim, r);
    match r {
        Some(ids) => {
            let n = front.len() as int / dim;
            law_partitions_determined::<T>(
                metric_type,
                centroids,
                front,
                dim,
                a,
                Some(ids.take(n)),
            );
            law_partitions_determined::<T>(
                metric_type,
                centroids,
                back,
                dim,
                b,
                Some(ids.skip(n)),
            );
            assert(ids =~= ids.take(n) + ids.skip(n));
        },
        None => {
            if partitions_outcome::<T>(metric_type, centroids, front, dim, None) {
                law_partitions_determined::<T>(metric_type, centroids, front, dim, a, None);
            } else {
                law_partitions_determined::<T>(metric_type, centroids, back, dim, b, None);
            }
        },
    }
}

} // verus!
