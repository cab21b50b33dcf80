//! What is measured, number by number.
//!
//! The laws here have no premise on the arithmetic: they say which calls the
//! numbers come from, and of which coordinates.

use vstd::layout::size_of;
use vstd::prelude::*;

use crate::distance::{l2_batch_outcome, MetricType};
use crate::float::{Float32, Float64};
use crate::kernels::{any_below, is_argmin, is_argmin_value, is_argmin_value_float};
use crate::matrix::{chunk, chunk_count, lemma_chunk_bounds, row};
use crate::partition::{
    distance_outcome, distances_outcome, ids_of, ids_outcome, nearest_id_outcome, nearest_outcome,
    norms_outcome, partitions_outcome,
};
use crate::scalar::{
    cosine_fast_outcome, cosine_with_norms_outcome, dot_outcome, double_sum_outcome, l2_outcome,
    norm_outcome, single_sum_outcome, sum_outcome, ArrowFloatType, FloatArithmetic,
};
use crate::tiles::{
    incomparable_tile, is_tiled, l2_distances_outcome, l2_incomparable_outcome, l2_nearest_outcome,
    l2_partitions_outcome, small_nearest_outcome, striped_batch_outcome, striped_l2_outcome,
    tiles_comparable,
};

verus! {

/// Distances and lengths come from calls on the vectors themselves.
pub proof fn law_measures_are_calls<T: ArrowFloatType>(
    x: Seq<T::Native>,
    x_norm: Float32,
    y: Seq<T::Native>,
    y_norm: Float32,
    d: Float32,
)
    ensures
        l2_outcome::<T>(x, y, d) ==> exists|a: &[T::Native], b: &[T::Native]|
            a@ == x && b@ == y && #[trigger] call_ensures(T::l2, (a, b), d),
        dot_outcome::<T>(x, y, d) ==> exists|a: &[T::Native], b: &[T::Native]|
            a@ == x && b@ == y && #[trigger] call_ensures(T::dot_distance, (a, b), d),
        norm_outcome::<T>(x, d) ==> exists|a: &[T::Native]|
            a@ == x && #[trigger] call_ensures(T::norm_l2, (a,), d),
        cosine_fast_outcome::<T>(x, x_norm, y, d) ==> exists|a: &[T::Native], b: &[T::Native]|
            a@ == x && b@ == y && #[trigger] call_ensures(T::cosine_fast, (a, x_norm, b), d),
        cosine_with_norms_outcome::<T>(x, x_norm, y_norm, y, d) ==> exists|
            a: &[T::Native],
            b: &[T::Native],
        |
            a@ == x && b@ == y && #[trigger] call_ensures(
                T::cosine_with_norms,
                (a, x_norm, y_norm, b),
                d,
            ),
{
}

/// The number of pieces of `dim` coordinates, the last of which may be shorter.
pub proof fn law_pieces_are_counted(len: int, dim: int)
    requires
        0 <= len,
        0 < dim,
    ensures
        chunk_count(len, dim) == (len + dim - 1) / dim,
        (chunk_count(len, dim) - 1) * dim < len <= chunk_count(len, dim) * dim,
{
    let q = len / dim;
    let m = len % dim;
    vstd::arithmetic::div_mod::lemma_fundamental_div_mod(len, dim);
    vstd::arithmetic::div_mod::lemma_mod_bound(len, dim);
    assert(q * dim == dim * q) by (nonlinear_arith);
    assert((q - 1) * dim == q * dim - dim && (q + 1) * dim == q * dim + dim) by (nonlinear_arith);
    if m == 0 {
        vstd::arithmetic::div_mod::lemma_fundamental_div_mod_converse(
            len + dim - 1,
            dim,
            q,
            dim - 1,
        );
    } else {
        assert(dim * (q + 1) == dim * q + dim) by (nonlinear_arith);
        vstd::arithmetic::div_mod::lemma_fundamental_div_mod_converse(
            len + dim - 1,
            dim,
            q + 1,
            m - 1,
        );
    }
}

/// The coordinates of a piece are those from `i * dim` on, `dim` of them or as
/// many as there are.
pub proof fn law_piece_coordinates<N>(s: Seq<N>, dim: int, i: int)
    requires
        0 < dim,
        0 <= i,
        i * dim < s.len(),
    ensures
        chunk(s, dim, i).len() == if i * dim + dim <= s.len() {
            dim
        } else {
            s.len() - i * dim
        },
        forall|j: int|
            0 <= j < chunk(s, dim, i).len() ==> #[trigger] chunk(s, dim, i)[j] == s[i * dim + j],
{
    assert((i + 1) * dim == i * dim + dim) by (nonlinear_arith);
    assert(0 <= i * dim) by (nonlinear_arith)
        requires
            0 <= i,
            0 < dim,
    ;
}

/// The coordinates of a vector are the `dim` ones from `i * dim` on.
pub proof fn law_vector_coordinates<N>(s: Seq<N>, dim: int, i: int)
    requires
        0 < dim,
        0 <= i,
        i * dim + dim <= s.len(),
    ensures
        row(s, dim, i).len() == dim,
        forall|j: int| 0 <= j < dim ==> #[trigger] row(s, dim, i)[j] == s[i * dim + j],
{
    assert((i + 1) * dim == i * dim + dim) by (nonlinear_arith);
    assert(0 <= i * dim) by (nonlinear_arith)
        requires
            0 <= i,
            0 < dim,
    ;
}

/// `sums` are the partial sums of adding up numbers one by one: each comes from
/// the one before it by adding the next number.
pub open spec fn are_partial_sums<N>(
    terms: Seq<N>,
    sums: Seq<N>,
    is_sum: spec_fn(N, N, N) -> bool,
) -> bool {
    &&& sums.len() == terms.len() + 1
    &&& forall|i: int|
        0 <= i < terms.len() ==> is_sum(sums[i], #[trigger] terms[i], sums[i + 1])
}

proof fn lemma_one_more_sum<N>(
    terms: Seq<N>,
    sums: Seq<N>,
    r: N,
    is_sum: spec_fn(N, N, N) -> bool,
)
    requires
        terms.len() > 0,
        are_partial_sums(terms.drop_last(), sums, is_sum),
        is_sum(sums.last(), terms.last(), r),
    ensures
        are_partial_sums(terms, sums.push(r), is_sum),
{
    let more = sums.push(r);
    assert forall|i: int| 0 <= i < terms.len() implies is_sum(
        more[i],
        #[trigger] terms[i],
        more[i + 1],
    ) by {
        if i < terms.len() - 1 {
            assert(terms.drop_last()[i] == terms[i]);
        }
    }
}

/// Coordinates are added up one by one, from what is called zero, in the order in
/// which they come.
pub proof fn law_coordinates_are_added_in_order<T: ArrowFloatType>(
    terms: Seq<T::Native>,
    r: T::Native,
) -> (sums: Seq<T::Native>)
    requires
        sum_outcome::<T>(terms, r),
    ensures
        are_partial_sums(
            terms,
            sums,
            |a: T::Native, b: T::Native, c: T::Native| call_ensures(T::plus, (a, b), c),
        ),
        call_ensures(T::zero, (), sums[0]),
        sums.last() == r,
    decreases terms.len(),
{
    let is_sum = |a: T::Native, b: T::Native, c: T::Native| call_ensures(T::plus, (a, b), c);
    if terms.len() == 0 {
        seq![r]
    } else {
        let s = choose|s: T::Native|
            sum_outcome::<T>(terms.drop_last(), s) && #[trigger] call_ensures(
                T::plus,
                (s, terms.last()),
                r,
            );
        let sums = law_coordinates_are_added_in_order::<T>(terms.drop_last(), s);
        lemma_one_more_sum(terms, sums, r, is_sum);
        sums.push(r)
    }
}

/// Single precision numbers are added up one by one, from zero, in the order in
/// which they come.
pub proof fn law_singles_are_added_in_order<T: FloatArithmetic>(
    terms: Seq<Float32>,
    r: Float32,
) -> (sums: Seq<Float32>)
    requires
        single_sum_outcome::<T>(terms, r),
    ensures
        are_partial_sums(
            terms,
            sums,
            |a: Float32, b: Float32, c: Float32| call_ensures(T::single_add, (a, b), c),
        ),
        sums[0].bits == 0,
        sums.last() == r,
    decreases terms.len(),
{
    let is_sum = |a: Float32, b: Float32, c: Float32| call_ensures(T::single_add, (a, b), c);
    if terms.len() == 0 {
        seq![r]
    } else {
        let s = choose|s: Float32|
            single_sum_outcome::<T>(terms.drop_last(), s) && #[trigger] call_ensures(
                T::single_add,
                (s, terms.last()),
                r,
            );
        let sums = law_singles_are_added_in_order::<T>(terms.drop_last(), s);
        lemma_one_more_sum(terms, sums, r, is_sum);
        sums.push(r)
    }
}

/// Double precision numbers are added up one by one, from zero, in the order in
/// which they come.
pub proof fn law_doubles_are_added_in_order<T: FloatArithmetic>(
    terms: Seq<Float64>,
    r: Float64,
) -> (sums: Seq<Float64>)
    requires
        double_sum_outcome::<T>(terms, r),
    ensures
        are_partial_sums(
            terms,
            sums,
            |a: Float64, b: Float64, c: Float64| call_ensures(T::double_add, (a, b), c),
        ),
        sums[0].bits == 0,
        sums.last() == r,
    decreases terms.len(),
{
    let is_sum = |a: Float64, b: Float64, c: Float64| call_ensures(T::double_add, (a, b), c);
    if terms.len() == 0 {
        seq![r]
    } else {
        let s = choose|s: Float64|
            double_sum_outcome::<T>(terms.drop_last(), s) && #[trigger] call_ensures(
                T::double_add,
                (s, terms.last()),
                r,
            );
        let sums = law_doubles_are_added_in_order::<T>(terms.drop_last(), s);
        lemma_one_more_sum(terms, sums, r, is_sum);
        sums.push(r)
    }
}

/// The distance of two vectors that are measured in stripes is the sum, from zero
/// and in order, of the distances of their stripes of 128 coordinates.
pub proof fn law_stripes_are_added_in_order<T: ArrowFloatType>(
    x: Seq<T::Native>,
    y: Seq<T::Native>,
    stripes: nat,
    d: Float32,
) -> (r: (Seq<Float32>, Seq<Float32>))
    requires
        striped_l2_outcome::<T>(x, y, stripes, d),
    ensures
        r.0.len() == stripes,
        forall|s: int|
            0 <= s < stripes ==> l2_outcome::<T>(
                chunk(x, 128, s),
                chunk(y, 128, s),
                #[trigger] r.0[s],
            ),
        are_partial_sums(
            r.0,
            r.1,
            |a: Float32, b: Float32, c: Float32| call_ensures(T::single_add, (a, b), c),
        ),
        r.1[0].bits == 0,
        r.1.last() == d,
    decreases stripes,
{
    let is_sum = |a: Float32, b: Float32, c: Float32| call_ensures(T::single_add, (a, b), c);
    if stripes == 0 {
        (Seq::empty(), seq![d])
    } else {
        let t = stripes - 1;
        let (sum, part) = choose|sum: Float32, part: Float32|
            {
                &&& striped_l2_outcome::<T>(x, y, t as nat, sum)
                &&& l2_outcome::<T>(chunk(x, 128, t), chunk(y, 128, t), part)
                &&& #[trigger] call_ensures(T::single_add, (sum, part), d)
            };
        let (parts, sums) = law_stripes_are_added_in_order::<T>(x, y, t as nat, sum);
        let more = parts.push(part);
        assert(more.drop_last() =~= parts);
        assert(more.last() == part);
        lemma_one_more_sum(more, sums, d, is_sum);
        (more, sums.push(d))
    }
}

/// `i` is the first place of the smallest of the numbers that are below the
/// bound.
pub open spec fn is_first_smallest(values: Seq<Float32>, bound: Float32, i: int) -> bool {
    &&& 0 <= i < values.len()
    &&& values[i].less(bound)
    &&& forall|j: int| 0 <= j < values.len() ==> !(#[trigger] values[j]).less(values[i])
    &&& forall|j: int|
        0 <= j < i ==> values[i].less(#[trigger] values[j]) || !values[j].less(bound)
}

/// Whether no number is below the bound.
pub open spec fn is_none_below(values: Seq<Float32>, bound: Float32) -> bool {
    forall|j: int| 0 <= j < values.len() ==> !(#[trigger] values[j]).less(bound)
}

/// The place of the smallest number is the first, with that number. Up to the
/// largest finite number there may be none; up to infinity place 0 and infinity
/// stand for none.
pub proof fn law_smallest_is_picked(
    values: Seq<Float32>,
    bound: Float32,
    i: int,
    r: Option<(u32, Float32)>,
    q: (u32, Float32),
)
    ensures
        is_argmin(values, bound, i) ==> is_first_smallest(values, bound, i),
        !any_below(values, bound) ==> is_none_below(values, bound),
        is_argmin_value(values, r) ==> match r {
            Some((place, value)) => {
                &&& is_first_smallest(values, Float32 { bits: 0x7f7f_ffff }, place as int)
                &&& value == values[place as int]
            },
            None => is_none_below(values, Float32 { bits: 0x7f7f_ffff }),
        },
        is_argmin_value_float(values, q) ==> {
            ||| {
                &&& is_first_smallest(values, Float32 { bits: 0x7f80_0000 }, q.0 as int)
                &&& q.1 == values[q.0 as int]
            }
            ||| {
                &&& is_none_below(values, Float32 { bits: 0x7f80_0000 })
                &&& q.0 == 0
                &&& q.1.bits == 0x7f80_0000
            }
        },
{
}

/// A distance is measured as the metric says, by a call on the vector and the
/// centroid. Lengths enter the cosine distance alone.
pub proof fn law_metric_says_how_to_measure<T: ArrowFloatType>(
    metric_type: MetricType,
    from: Seq<T::Native>,
    from_norm: Option<Float32>,
    centroid: Seq<T::Native>,
    centroid_norm: Float32,
    d: Float32,
)
    requires
        distance_outcome::<T>(metric_type, from, from_norm, centroid, centroid_norm, d),
    ensures
        metric_type == MetricType::L2 ==> l2_outcome::<T>(from, centroid, d),
        metric_type == MetricType::Dot ==> dot_outcome::<T>(from, centroid, d),
        metric_type == MetricType::Cosine && from_norm is None ==> cosine_fast_outcome::<T>(
            centroid,
            centroid_norm,
            from,
            d,
        ),
        metric_type == MetricType::Cosine && from_norm is Some ==> cosine_with_norms_outcome::<T>(
            centroid,
            centroid_norm,
            from_norm->Some_0,
            from,
            d,
        ),
{
}

/// The nearest centroid is the first with the smallest of the distances to all
/// of them; there is none where none is below the largest finite number.
pub proof fn law_nearest_of_all<T: ArrowFloatType>(
    metric_type: MetricType,
    from: Seq<T::Native>,
    from_norm: Option<Float32>,
    centroids: Seq<T::Native>,
    dim: int,
    count: int,
    norms: Seq<Float32>,
    r: Option<(u32, Float32)>,
) -> (dists: Seq<Float32>)
    requires
        nearest_outcome::<T>(metric_type, from, from_norm, centroids, dim, count, norms, r),
    ensures
        dists.len() == count,
        forall|j: int|
            0 <= j < count ==> distance_outcome::<T>(
                metric_type,
                from,
                from_norm,
                chunk(centroids, dim, j),
                norms[j],
                #[trigger] dists[j],
            ),
        match r {
            Some((place, value)) => {
                &&& is_first_smallest(dists, Float32 { bits: 0x7f7f_ffff }, place as int)
                &&& value == dists[place as int]
            },
            None => is_none_below(dists, Float32 { bits: 0x7f7f_ffff }),
        },
{
    let dists = choose|dists: Seq<Float32>|
        {
            &&& dists.len() == count
            &&& #[trigger] distances_outcome::<T>(
                metric_type,
                from,
                from_norm,
                centroids,
                dim,
                norms,
                dists,
            )
            &&& is_argmin_value(dists, r)
        };
    assert forall|j: int| 0 <= j < count implies distance_outcome::<T>(
        metric_type,
        from,
        from_norm,
        chunk(centroids, dim, j),
        norms[j],
        #[trigger] dists[j],
    ) by {}
    dists
}

/// Each length is measured of the vector at its place.
pub proof fn law_lengths_are_measured_in_place<T: ArrowFloatType>(
    vectors: Seq<T::Native>,
    dim: int,
    norms: Seq<Float32>,
    j: int,
)
    requires
        norms_outcome::<T>(vectors, dim, norms),
        0 <= j < norms.len(),
    ensures
        norm_outcome::<T>(chunk(vectors, dim, j), norms[j]),
{
}

/// Assigning vectors by inner product or cosine distance gives each piece of the
/// data, in order, the place of its nearest centroid; it fails only where one of
/// them has none. By cosine distance the centroids are measured first.
pub proof fn law_partition_is_nearest_of_all<T: ArrowFloatType>(
    metric_type: MetricType,
    centroids: Seq<T::Native>,
    data: Seq<T::Native>,
    dim: int,
    r: Option<Seq<u32>>,
) -> (found: (Seq<Float32>, Seq<Float32>))
    requires
        metric_type != MetricType::L2,
        partitions_outcome::<T>(metric_type, centroids, data, dim, r),
    ensures
        metric_type == MetricType::Dot ==> found.0.len() == 0,
        metric_type == MetricType::Cosine ==> {
            &&& found.0.len() == chunk_count(centroids.len() as int, dim)
            &&& norms_outcome::<T>(centroids, dim, found.0)
        },
        r matches Some(ids) ==> {
            &&& ids.len() == chunk_count(data.len() as int, dim)
            &&& forall|i: int|
                0 <= i < ids.len() ==> nearest_outcome::<T>(
                    metric_type,
                    chunk(data, dim, i),
                    None,
                    centroids,
                    dim,
                    chunk_count(centroids.len() as int, dim),
                    found.0,
                    Some((#[trigger] ids[i], found.1[i])),
                )
        },
        r is None ==> exists|i: int|
            0 <= i < chunk_count(data.len() as int, dim) && nearest_outcome::<T>(
                metric_type,
                #[trigger] chunk(data, dim, i),
                None,
                centroids,
                dim,
                chunk_count(centroids.len() as int, dim),
                found.0,
                None,
            ),
{
    let count = chunk_count(centroids.len() as int, dim);
    let norms = if metric_type is Cosine {
        choose|norms: Seq<Float32>|
            {
                &&& norms.len() == count
                &&& #[trigger] norms_outcome::<T>(centroids, dim, norms)
                &&& ids_outcome::<T>(metric_type, centroids, data, dim, norms, r)
            }
    } else {
        Seq::empty()
    };
    assert(ids_outcome::<T>(metric_type, centroids, data, dim, norms, r));
    let ids = r->Some_0;
    let dists = Seq::new(
        ids.len(),
        |i: int|
            choose|d: Float32| #[trigger]
                nearest_outcome::<T>(
                    metric_type,
                    chunk(data, dim, i),
                    None,
                    centroids,
                    dim,
                    count,
                    norms,
                    Some((ids[i], d)),
                ),
    );
    if r is Some {
        assert forall|i: int| 0 <= i < ids.len() implies nearest_outcome::<T>(
            metric_type,
            chunk(data, dim, i),
            None,
            centroids,
            dim,
            count,
            norms,
            Some((#[trigger] ids[i], dists[i])),
        ) by {
            let from = chunk(data, dim, i);
            assert(nearest_id_outcome::<T>(
                metric_type,
                from,
                centroids,
                dim,
                count,
                norms,
                ids[i],
            ));
            let d = choose|d: Float32| #[trigger]
                nearest_outcome::<T>(
                    metric_type,
                    from,
                    None,
                    centroids,
                    dim,
                    count,
                    norms,
                    Some((ids[i], d)),
                );
            assert(nearest_outcome::<T>(
                metric_type,
                from,
                None,
                centroids,
                dim,
                count,
                norms,
                Some((ids[i], d)),
            ));
        }
    }
    (norms, dists)
}

/// The squared Euclidean distances to all whole centroids, in order.
pub proof fn law_l2_distances_are_in_order<T: ArrowFloatType>(
    from: Seq<T::Native>,
    to: Seq<T::Native>,
    dim: int,
    dists: Seq<Float32>,
)
    requires
        l2_batch_outcome::<T>(from, to, dim, dists),
    ensures
        dists.len() == to.len() as int / dim,
        forall|j: int|
            0 <= j < dists.len() ==> l2_outcome::<T>(from, row(to, dim, j), #[trigger] dists[j]),
{
}

/// By squared Euclidean distance, one vector is assigned to the first of the
/// nearest of all centroids. Where the centroids take more than 16384 bytes the
/// coordinates are measured in stripes of 128, and every 16 centroids from the
/// first on have one among them whose distance is below the largest finite
/// number.
pub proof fn law_l2_nearest_of_all<T: ArrowFloatType>(
    from: Seq<T::Native>,
    centroids: Seq<T::Native>,
    dim: int,
    r: (u32, Float32),
) -> (dists: Seq<Float32>)
    requires
        l2_nearest_outcome::<T>(from, centroids, dim, r),
    ensures
        dists.len() == centroids.len() as int / dim,
        centroids.len() * size_of::<T::Native>() <= 16384 ==> forall|j: int|
            0 <= j < dists.len() ==> l2_outcome::<T>(
                from,
                row(centroids, dim, j),
                #[trigger] dists[j],
            ),
        centroids.len() * size_of::<T::Native>() > 16384 ==> {
            &&& forall|j: int|
                0 <= j < dists.len() ==> striped_l2_outcome::<T>(
                    from,
                    row(centroids, dim, j),
                    chunk_count(dim, 128) as nat,
                    #[trigger] dists[j],
                )
            &&& forall|t: int|
                0 <= t < chunk_count(dists.len() as int, 16) ==> !is_none_below(
                    #[trigger] chunk(dists, 16, t),
                    Float32 { bits: 0x7f7f_ffff },
                )
        },
        ({
            ||| {
                &&& is_first_smallest(dists, Float32 { bits: 0x7f80_0000 }, r.0 as int)
                &&& r.1 == dists[r.0 as int]
            }
            ||| {
                &&& is_none_below(dists, Float32 { bits: 0x7f80_0000 })
                &&& r.0 == 0
                &&& r.1.bits == 0x7f80_0000
            }
        }),
{
    let dists = choose|dists: Seq<Float32>|
        {
            &&& #[trigger] l2_distances_outcome::<T>(from, centroids, dim, dists)
            &&& is_tiled(centroids) ==> tiles_comparable(dists)
            &&& is_argmin_value_float(dists, r)
        };
    if is_tiled(centroids) {
        assert forall|j: int| 0 <= j < dists.len() implies striped_l2_outcome::<T>(
            from,
            row(centroids, dim, j),
            chunk_count(dim, 128) as nat,
            #[trigger] dists[j],
        ) by {
            assert(striped_l2_outcome::<T>(
                from,
                row(centroids, dim, 0 + j),
                chunk_count(dim, 128) as nat,
                dists[j],
            ));
        }
        assert forall|t: int|
            0 <= t < chunk_count(dists.len() as int, 16) implies !is_none_below(
            #[trigger] chunk(dists, 16, t),
            Float32 { bits: 0x7f7f_ffff },
        ) by {
            assert(any_below(chunk(dists, 16, t), Float32::spec_max()));
        }
    }
    dists
}

/// One vector at a time is assigned to the first of the nearest of all centroids.
pub proof fn law_small_nearest_of_all<T: ArrowFloatType>(
    from: Seq<T::Native>,
    centroids: Seq<T::Native>,
    dim: int,
    r: (u32, Float32),
) -> (dists: Seq<Float32>)
    requires
        small_nearest_outcome::<T>(from, centroids, dim, r),
    ensures
        dists.len() == centroids.len() as int / dim,
        forall|j: int|
            0 <= j < dists.len() ==> l2_outcome::<T>(
                from,
                row(centroids, dim, j),
                #[trigger] dists[j],
            ),
        ({
            ||| {
                &&& is_first_smallest(dists, Float32 { bits: 0x7f80_0000 }, r.0 as int)
                &&& r.1 == dists[r.0 as int]
            }
            ||| {
                &&& is_none_below(dists, Float32 { bits: 0x7f80_0000 })
                &&& r.0 == 0
                &&& r.1.bits == 0x7f80_0000
            }
        }),
{
    choose|dists: Seq<Float32>|
        {
            &&& #[trigger] l2_batch_outcome::<T>(from, centroids, dim, dists)
            &&& is_argmin_value_float(dists, r)
        }
}

/// A vector cannot be compared only where all centroids of one of the groups of
/// 16 may be measured as far as the largest finite number or farther, or as
/// having no distance.
pub proof fn law_incomparable_has_a_far_tile<T: ArrowFloatType>(
    from: Seq<T::Native>,
    centroids: Seq<T::Native>,
    dim: int,
) -> (r: (int, Seq<Float32>))
    requires
        dim > 0,
        l2_incomparable_outcome::<T>(from, centroids, dim),
    ensures
        r.0 >= 0,
        0 < r.1.len() <= 16,
        r.0 * 16 + r.1.len() <= centroids.len() as int / dim,
        r.1.len() < 16 ==> r.0 * 16 + r.1.len() == centroids.len() as int / dim,
        forall|j: int|
            0 <= j < r.1.len() ==> striped_l2_outcome::<T>(
                from,
                row(centroids, dim, r.0 * 16 + j),
                chunk_count(dim, 128) as nat,
                #[trigger] r.1[j],
            ),
        is_none_below(r.1, Float32 { bits: 0x7f7f_ffff }),
{
    let (t, dists) = choose|t: int, dists: Seq<Float32>| #[trigger]
        incomparable_tile::<T>(from, centroids, dim, t, dists);
    let m = centroids.len() as int / dim;
    vstd::arithmetic::div_mod::lemma_div_pos_is_pos(centroids.len() as int, dim);
    lemma_chunk_bounds(m, 16, t);
    assert(striped_batch_outcome::<T>(from, centroids, dim, t * 16, dists));
    (t, dists)
}

/// By squared Euclidean distance each vector of the data, in order, is assigned
/// on its own. Where the centroids take more than 16384 bytes only whole vectors
/// are, and one of them that cannot be compared makes it fail.
pub proof fn law_l2_partition_is_nearest_of_all<T: ArrowFloatType>(
    centroids: Seq<T::Native>,
    data: Seq<T::Native>,
    dim: int,
    r: Option<Seq<(u32, Float32)>>,
)
    requires
        l2_partitions_outcome::<T>(centroids, data, dim, r),
    ensures
        r matches Some(parts) ==> {
            &&& parts.len() == if centroids.len() * size_of::<T::Native>() > 16384 {
                data.len() as int / dim
            } else {
                chunk_count(data.len() as int, dim)
            }
            &&& forall|i: int|
                0 <= i < parts.len() ==> l2_nearest_outcome::<T>(
                    chunk(data, dim, i),
                    centroids,
                    dim,
                    #[trigger] parts[i],
                )
        },
        r is None ==> {
            &&& centroids.len() * size_of::<T::Native>() > 16384
            &&& exists|i: int|
                0 <= i < data.len() as int / dim && l2_incomparable_outcome::<T>(
                    #[trigger] chunk(data, dim, i),
                    centroids,
                    dim,
                )
        },
{
}

/// Places by squared Euclidean distance are those that are found with the
/// distances.
pub proof fn law_l2_places_are_those_of_parts<T: ArrowFloatType>(
    centroids: Seq<T::Native>,
    data: Seq<T::Native>,
    dim: int,
    r: Option<Seq<u32>>,
) -> (found: Option<Seq<(u32, Float32)>>)
    requires
        partitions_outcome::<T>(MetricType::L2, centroids, data, dim, r),
    ensures
        l2_partitions_outcome::<T>(centroids, data, dim, found),
        r is Some == found is Some,
        r is Some ==> r->Some_0.len() == found->Some_0.len(),
        r is Some ==> forall|i: int|
            0 <= i < found->Some_0.len() ==> r->Some_0[i] == (#[trigger] found->Some_0[i]).0,
{
    if r is Some {
        let parts = choose|parts: Seq<(u32, Float32)>| #[trigger]
            l2_partitions_outcome::<T>(centroids, data, dim, Some(parts)) && r->Some_0 == ids_of(
                parts,
            );
        Some(parts)
    } else {
        None
    }
}

} // verus!
