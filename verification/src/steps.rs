//! What an iteration does, vector by vector and cluster by cluster.
//!
//! As in [`measures`](crate::measures), nothing is presumed of the arithmetic.

use std::sync::Arc;

use vstd::layout::size_of;
use vstd::prelude::*;

use crate::assign::{
    centroid_norms_outcome, chunk_end, is_measurable, membership_outcome, norms_suffice, row_fails,
    row_outcome, rows_outcome, train_once_outcome, view_membership, view_norms,
};
use crate::clusters::{count_of, law_cluster_size_counts};
use crate::distance::MetricType;
use crate::float::{Float32, Float64};
use crate::history::{lemma_converged_compares, may_compare};
use crate::matrix::{row, MatrixView};
use crate::measures::{
    are_partial_sums, law_doubles_are_added_in_order, law_singles_are_added_in_order,
};
use crate::membership::{
    column, distance_sum_outcome, joined, lemma_column_len, mean_distance_outcome, mean_outcome,
    means_outcome, place, sizes_of, squared_deviation_outcome, stddev_outcome, widened_outcome,
    Assignment, KMeanMembership,
};
use crate::model::{KMeans, Model};
use crate::partition::{nearest_outcome, norms_outcome, view_option};
use crate::scalar::{
    double_sum_outcome, single_sum_outcome, sum_outcome, ArrowFloatType, FloatArithmetic,
};
use crate::tiles::{l2_incomparable_outcome, l2_nearest_outcome};
use crate::training::{advance_outcome, better, models_of, view_model, Best, Run};

verus! {

/// The length of vector `i`, where it is known and asked for.
pub open spec fn known_length(
    metric_type: MetricType,
    norm_data: Option<Seq<Float32>>,
    i: int,
) -> Option<Float32> {
    if metric_type == MetricType::Cosine && norm_data is Some {
        Some(norm_data->Some_0[i])
    } else {
        None
    }
}

/// `part` is what vector `i` may be assigned to on its own.
pub open spec fn may_be_assigned<T: ArrowFloatType>(
    model: Model<T::Native>,
    data: Seq<T::Native>,
    norm_data: Option<Seq<Float32>>,
    norms: Seq<Float32>,
    i: int,
    part: (u32, Float32),
) -> bool {
    let from = row(data, model.dimension, i);
    if model.metric_type == MetricType::L2 {
        l2_nearest_outcome::<T>(from, model.centroids, model.dimension, part)
    } else {
        nearest_outcome::<T>(
            model.metric_type,
            from,
            known_length(model.metric_type, norm_data, i),
            model.centroids,
            model.dimension,
            model.centroids.len() as int / model.dimension,
            norms,
            Some(part),
        )
    }
}

/// Vector `i` may be found to have no nearest centroid.
pub open spec fn may_be_left_out<T: ArrowFloatType>(
    model: Model<T::Native>,
    data: Seq<T::Native>,
    norm_data: Option<Seq<Float32>>,
    norms: Seq<Float32>,
    i: int,
) -> bool {
    let from = row(data, model.dimension, i);
    if model.metric_type == MetricType::L2 {
        &&& model.centroids.len() * size_of::<T::Native>() > 16384
        &&& l2_incomparable_outcome::<T>(from, model.centroids, model.dimension)
    } else {
        nearest_outcome::<T>(
            model.metric_type,
            from,
            known_length(model.metric_type, norm_data, i),
            model.centroids,
            model.dimension,
            model.centroids.len() as int / model.dimension,
            norms,
            None,
        )
    }
}

/// Consecutive vectors are assigned each on its own, in order; it fails only
/// where one of them has no nearest centroid.
pub proof fn law_vectors_are_assigned_in_order<T: ArrowFloatType>(
    model: Model<T::Native>,
    data: Seq<T::Native>,
    norm_data: Option<Seq<Float32>>,
    norms: Seq<Float32>,
    first: int,
    last: int,
    r: Option<Seq<(u32, Float32)>>,
)
    requires
        rows_outcome::<T>(model, data, norm_data, norms, first, last, r),
    ensures
        r matches Some(parts) ==> {
            &&& parts.len() == last - first
            &&& forall|i: int|
                0 <= i < parts.len() ==> may_be_assigned::<T>(
                    model,
                    data,
                    norm_data,
                    norms,
                    first + i,
                    #[trigger] parts[i],
                )
        },
        r is None ==> exists|i: int|
            first <= i < last && #[trigger] may_be_left_out::<T>(
                model,
                data,
                norm_data,
                norms,
                i,
            ),
{
    if r is None {
        let i = choose|i: int|
            first <= i < last && #[trigger] row_fails::<T>(model, data, norm_data, norms, i);
        assert(may_be_left_out::<T>(model, data, norm_data, norms, i));
    } else {
        let parts = r->Some_0;
        assert forall|i: int| 0 <= i < parts.len() implies may_be_assigned::<T>(
            model,
            data,
            norm_data,
            norms,
            first + i,
            #[trigger] parts[i],
        ) by {
            assert(row_outcome::<T>(model, data, norm_data, norms, first + i, parts[i]));
        }
    }
}

/// The lengths of centroids are measured for the cosine distance alone, of each
/// whole centroid.
pub proof fn law_centroids_are_measured_for_cosine<T: ArrowFloatType>(
    model: Model<T::Native>,
    norms: Seq<Float32>,
)
    requires
        centroid_norms_outcome::<T>(model, norms),
    ensures
        norms.len() == if model.metric_type == MetricType::Cosine {
            model.centroids.len() as int / model.dimension
        } else {
            0
        },
        norms_outcome::<T>(model.centroids, model.dimension, norms),
{
}

/// The membership of vectors in the clusters of a model is about all these
/// vectors and has the shape of the model.
pub proof fn law_membership_is_of_all_vectors<T: ArrowFloatType>(
    model: Model<T::Native>,
    data: Seq<T::Native>,
    norm_data: Option<Seq<Float32>>,
    r: Option<Assignment<T::Native>>,
) -> (norms: Seq<Float32>)
    requires
        membership_outcome::<T>(model, data, norm_data, r),
    ensures
        centroid_norms_outcome::<T>(model, norms),
        r matches Some(a) ==> {
            &&& a.data == data
            &&& a.dimension == model.dimension
            &&& a.k == model.k
            &&& a.metric_type == model.metric_type
        },
        rows_outcome::<T>(
            model,
            data,
            norm_data,
            norms,
            0,
            data.len() as int / model.dimension,
            match r {
                Some(a) => Some(a.parts),
                None => None,
            },
        ),
{
    let n = data.len() as int / model.dimension;
    choose|norms: Seq<Float32>|
        {
            &&& #[trigger] centroid_norms_outcome::<T>(model, norms)
            &&& match r {
                Some(a) => {
                    &&& a.data == data
                    &&& a.dimension == model.dimension
                    &&& a.k == model.k
                    &&& a.metric_type == model.metric_type
                    &&& rows_outcome::<T>(model, data, norm_data, norms, 0, n, Some(a.parts))
                },
                None => rows_outcome::<T>(model, data, norm_data, norms, 0, n, None),
            }
        }
}

/// An iteration assigns all rows to clusters. For the cosine distance, and for it
/// alone, it measures the length of each row first.
pub proof fn law_iteration_measures_rows_for_cosine<T: ArrowFloatType>(
    model: Model<T::Native>,
    data: Seq<T::Native>,
    num_columns: int,
    r: Option<Assignment<T::Native>>,
) -> (norm_data: Option<Seq<Float32>>)
    requires
        train_once_outcome::<T>(model, data, num_columns, r),
    ensures
        membership_outcome::<T>(model, data, norm_data, r),
        norm_data is Some == (model.metric_type == MetricType::Cosine),
        norm_data matches Some(known) ==> {
            &&& known.len() == data.len() as int / num_columns
            &&& norms_outcome::<T>(data, num_columns, known)
        },
{
    if model.metric_type is Cosine {
        let known = choose|norm_data: Seq<Float32>|
            {
                &&& norm_data.len() == data.len() as int / num_columns
                &&& #[trigger] norms_outcome::<T>(data, num_columns, norm_data)
                &&& membership_outcome::<T>(model, data, Some(norm_data), r)
            };
        Some(known)
    } else {
        None
    }
}

/// Vectors are assigned 1024 at a time; the last ones may be fewer.
pub proof fn law_chunks_have_1024_vectors(start: int, n: int)
    requires
        start <= n,
    ensures
        chunk_end(start, n) <= n,
        chunk_end(start, n) - start <= 1024,
        chunk_end(start, n) < n ==> chunk_end(start, n) - start == 1024,
        start < n ==> start < chunk_end(start, n),
{
}

/// Vectors can be measured by squared Euclidean distance in any case, else where
/// there is a whole centroid. Lengths that are known have to be known of all
/// vectors, where they are asked for.
pub proof fn law_what_measuring_takes<N>(
    model: Model<N>,
    norm_data: Option<Seq<Float32>>,
    n: int,
)
    ensures
        is_measurable(model, n) <==> model.metric_type == MetricType::L2 || n <= 0
            || model.centroids.len() as int / model.dimension > 0,
        norms_suffice(model.metric_type, norm_data, n) <==> !(model.metric_type
            == MetricType::Cosine && norm_data is Some && norm_data->Some_0.len() < n),
{
}

/// Chunks are joined one after the other.
pub proof fn law_joined_chunks_follow_each_other(
    front: Seq<Vec<(u32, Float32)>>,
    back: Seq<Vec<(u32, Float32)>>,
    chunk: Vec<(u32, Float32)>,
)
    ensures
        joined(front + back) == joined(front) + joined(back),
        joined(seq![chunk]) == chunk@,
    decreases back.len(),
{
    assert(seq![chunk].drop_last() =~= Seq::<Vec<(u32, Float32)>>::empty());
    assert(joined(seq![chunk].drop_last()) =~= Seq::<(u32, Float32)>::empty());
    assert(joined(seq![chunk]) =~= chunk@);
    if back.len() == 0 {
        assert(front + back =~= front);
        assert(joined(front) + joined(back) =~= joined(front));
    } else {
        law_joined_chunks_follow_each_other(front, back.drop_last(), chunk);
        assert((front + back).drop_last() =~= front + back.drop_last());
        assert((front + back).last() == back.last());
        assert(joined(front + back) =~= joined(front) + joined(back));
    }
}

/// A membership is in order where all its vectors belong to one of its clusters;
/// the vectors that it can count on are those that have both coordinates and a
/// cluster.
pub proof fn law_membership_in_order<N>(a: Assignment<N>)
    ensures
        a.wf() <==> forall|i: int| 0 <= i < a.parts.len() ==> (#[trigger] a.parts[i]).0 < a.k,
        a.member_count() <= a.parts.len(),
        a.member_count() <= a.data.len() as int / a.dimension,
        a.member_count() == a.parts.len() || a.member_count() == a.data.len() as int / a.dimension,
        a.members_wf() <==> forall|i: int|
            0 <= i < a.parts.len() && i < a.data.len() as int / a.dimension ==> (
            #[trigger] a.parts[i]).0 < a.k,
{
}

/// `sums` are the partial sums of coordinate `j` over the vectors of cluster
/// `c`, which the vectors of other clusters leave as they are.
pub open spec fn are_member_sums<T: ArrowFloatType>(
    a: Assignment<T::Native>,
    n: int,
    c: int,
    j: int,
    sums: Seq<T::Native>,
) -> bool {
    &&& sums.len() == n + 1
    &&& call_ensures(T::zero, (), sums[0])
    &&& forall|i: int|
        0 <= i < n ==> if (#[trigger] a.parts[i]).0 as int == c {
            call_ensures(T::plus, (sums[i], a.data[i * a.dimension + j]), sums[i + 1])
        } else {
            sums[i + 1] == sums[i]
        }
}

proof fn lemma_member_sums<T: ArrowFloatType>(
    a: Assignment<T::Native>,
    n: int,
    c: int,
    j: int,
    r: T::Native,
) -> (sums: Seq<T::Native>)
    requires
        0 <= n <= a.parts.len(),
        sum_outcome::<T>(column(a.data, a.dimension, a.parts, n, c, j), r),
    ensures
        are_member_sums::<T>(a, n, c, j, sums),
        sums.last() == r,
    decreases n,
{
    let terms = column(a.data, a.dimension, a.parts, n, c, j);
    if n == 0 {
        seq![r]
    } else if a.parts[n - 1].0 as int == c {
        let shorter = column(a.data, a.dimension, a.parts, n - 1, c, j);
        assert(terms.drop_last() =~= shorter);
        let s = choose|s: T::Native|
            sum_outcome::<T>(terms.drop_last(), s) && #[trigger] call_ensures(
                T::plus,
                (s, terms.last()),
                r,
            );
        let sums = lemma_member_sums::<T>(a, n - 1, c, j, s);
        let more = sums.push(r);
        assert forall|i: int| 0 <= i < n implies if (#[trigger] a.parts[i]).0 as int == c {
            call_ensures(T::plus, (more[i], a.data[i * a.dimension + j]), more[i + 1])
        } else {
            more[i + 1] == more[i]
        } by {
            if i == n - 1 {
                assert(terms.last() == a.data[(n - 1) * a.dimension + j]);
            }
        }
        more
    } else {
        let sums = lemma_member_sums::<T>(a, n - 1, c, j, r);
        sums.push(r)
    }
}

/// The centroid that a cluster moves to comes, coordinate by coordinate, from
/// adding up the vectors of the cluster in order and dividing by their number.
/// Where there are none, it is what is called zero.
pub proof fn law_centroid_comes_from_members<T: ArrowFloatType>(
    a: Assignment<T::Native>,
    m: Model<T::Native>,
    n: int,
    c: int,
    j: int,
) -> (sums: Seq<T::Native>)
    requires
        a.dimension > 0,
        n <= a.parts.len(),
        n <= a.data.len() as int / a.dimension,
        n == a.parts.len() || n == a.data.len() as int / a.dimension,
        means_outcome::<T>(a, m),
        0 <= c < a.k,
        0 <= j < a.dimension,
    ensures
        m.dimension == a.dimension,
        m.k == a.k,
        m.metric_type == a.metric_type,
        m.centroids.len() == a.k * a.dimension,
        are_member_sums::<T>(a, n, c, j, sums),
        count_of(a.parts.take(n), c) == 0 ==> m.centroids[c * a.dimension + j] == sums[n],
        count_of(a.parts.take(n), c) > 0 ==> exists|count: T::Native|
            {
                &&& call_ensures(T::from_u64, (count_of(a.parts.take(n), c) as u64,), count)
                &&& #[trigger] call_ensures(
                    T::over,
                    (sums[n], count),
                    m.centroids[c * a.dimension + j],
                )
            },
{
    let dim = a.dimension;
    vstd::arithmetic::div_mod::lemma_div_pos_is_pos(a.data.len() as int, dim);
    let terms = column(a.data, dim, a.parts, n, c, j);
    let r = m.centroids[place(c, dim, j)];
    assert(a.member_count() == n);
    assert(mean_outcome::<T>(terms, r));
    lemma_column_len(a.data, dim, a.parts, n, c, j);
    law_cluster_size_counts(a.parts.take(n), c);
    if terms.len() == 0 {
        lemma_member_sums::<T>(a, n, c, j, r)
    } else {
        let (sum, count) = choose|sum: T::Native, count: T::Native|
            {
                &&& sum_outcome::<T>(terms, sum)
                &&& call_ensures(T::from_u64, (terms.len() as u64,), count)
                &&& #[trigger] call_ensures(T::over, (sum, count), r)
            };
        lemma_member_sums::<T>(a, n, c, j, sum)
    }
}

/// Distances are taken to double precision one by one, and added up in order.
pub proof fn law_distances_are_added_in_order<T: FloatArithmetic>(
    parts: Seq<(u32, Float32)>,
    r: Float64,
) -> (found: (Seq<Float64>, Seq<Float64>))
    requires
        distance_sum_outcome::<T>(parts, r),
    ensures
        found.0.len() == parts.len(),
        forall|i: int|
            0 <= i < parts.len() ==> call_ensures(
                T::double_from_single,
                (parts[i].1,),
                #[trigger] found.0[i],
            ),
        are_partial_sums(
            found.0,
            found.1,
            |a: Float64, b: Float64, c: Float64| call_ensures(T::double_add, (a, b), c),
        ),
        found.1[0].bits == 0,
        found.1.last() == r,
{
    let wide = choose|wide: Seq<Float64>|
        {
            &&& widened_outcome::<T>(parts, wide)
            &&& #[trigger] double_sum_outcome::<T>(wide, r)
        };
    (wide, law_doubles_are_added_in_order::<T>(wide, r))
}

/// The mean distance is the sum of distances divided by the number of vectors.
pub proof fn law_mean_distance_is_a_quotient<T: FloatArithmetic>(
    parts: Seq<(u32, Float32)>,
    r: Float64,
) -> (found: (Float64, Float64))
    requires
        mean_distance_outcome::<T>(parts, r),
    ensures
        distance_sum_outcome::<T>(parts, found.0),
        call_ensures(T::double_from_usize, (parts.len() as usize,), found.1),
        call_ensures(T::double_div, (found.0, found.1), r),
{
    choose|sum: Float64, count: Float64|
        {
            &&& distance_sum_outcome::<T>(parts, sum)
            &&& call_ensures(T::double_from_usize, (parts.len() as usize,), count)
            &&& #[trigger] call_ensures(T::double_div, (sum, count), r)
        }
}

/// What the deviation of sizes comes from.
pub struct Deviation {
    /// The number of vectors.
    pub len: Float32,
    /// The number of clusters.
    pub k: Float32,
    /// The mean size.
    pub mean: Float32,
    /// The size of each cluster.
    pub sizes: Seq<Float32>,
    /// The difference of each size to the mean.
    pub differences: Seq<Float32>,
    /// The square of each difference.
    pub squares: Seq<Float32>,
    /// The partial sums of the squares.
    pub sums: Seq<Float32>,
    /// The mean of the squares.
    pub variance: Float32,
}

/// The deviation of sizes is the root of the mean of the squares of their
/// differences to the mean size; squares are added up in order.
pub proof fn law_deviation_comes_from_sizes<T: FloatArithmetic>(
    sizes: Seq<usize>,
    len: usize,
    k: usize,
    r: Float32,
) -> (found: Deviation)
    requires
        stddev_outcome::<T>(sizes, len, k, r),
    ensures
        call_ensures(T::single_from_usize, (len,), found.len),
        call_ensures(T::single_from_usize, (k,), found.k),
        call_ensures(T::single_div, (found.len, found.k), found.mean),
        found.squares.len() == sizes.len(),
        forall|c: int|
            0 <= c < sizes.len() ==> {
                &&& call_ensures(T::single_from_usize, (#[trigger] sizes[c],), found.sizes[c])
                &&& call_ensures(
                    T::single_sub,
                    (found.sizes[c], found.mean),
                    found.differences[c],
                )
                &&& call_ensures(T::single_powi, (found.differences[c], 2i32), found.squares[c])
            },
        are_partial_sums(
            found.squares,
            found.sums,
            |a: Float32, b: Float32, c: Float32| call_ensures(T::single_add, (a, b), c),
        ),
        found.sums[0].bits == 0,
        call_ensures(T::single_div, (found.sums.last(), found.k), found.variance),
        call_ensures(T::single_sqrt, (found.variance,), r),
{
    let (len_number, k_number, mean, squares, sum, variance) = choose|
        len_number: Float32,
        k_number: Float32,
        mean: Float32,
        squares: Seq<Float32>,
        sum: Float32,
        variance: Float32,
    |
        {
            &&& call_ensures(T::single_from_usize, (len,), len_number)
            &&& call_ensures(T::single_from_usize, (k,), k_number)
            &&& #[trigger] call_ensures(T::single_div, (len_number, k_number), mean)
            &&& squares.len() == sizes.len()
            &&& forall|c: int|
                0 <= c < squares.len() ==> squared_deviation_outcome::<T>(
                    sizes[c],
                    mean,
                    #[trigger] squares[c],
                )
            &&& #[trigger] single_sum_outcome::<T>(squares, sum)
            &&& #[trigger] call_ensures(T::single_div, (sum, k_number), variance)
            &&& call_ensures(T::single_sqrt, (variance,), r)
        };
    let pairs = Seq::new(
        sizes.len(),
        |c: int| deviation_of::<T>(sizes[c], mean, squares[c]),
    );
    let found = Deviation {
        len: len_number,
        k: k_number,
        mean,
        sizes: Seq::new(sizes.len(), |c: int| pairs[c].0),
        differences: Seq::new(sizes.len(), |c: int| pairs[c].1),
        squares,
        sums: law_singles_are_added_in_order::<T>(squares, sum),
        variance,
    };
    assert forall|c: int| 0 <= c < sizes.len() implies {
        &&& call_ensures(T::single_from_usize, (#[trigger] sizes[c],), found.sizes[c])
        &&& call_ensures(T::single_sub, (found.sizes[c], mean), found.differences[c])
        &&& call_ensures(T::single_powi, (found.differences[c], 2i32), squares[c])
    } by {
        assert(squared_deviation_outcome::<T>(sizes[c], mean, squares[c]));
        let p = deviation_of::<T>(sizes[c], mean, squares[c]);
        assert(pairs[c] == p);
    }
    found
}

/// A size as a number, and its difference to the mean, that the square may come
/// from.
spec fn deviation_of<T: FloatArithmetic>(size: usize, mean: Float32, r: Float32) -> (
    Float32,
    Float32,
) {
    choose|size_number: Float32, difference: Float32|
        {
            &&& call_ensures(T::single_from_usize, (size,), size_number)
            &&& #[trigger] call_ensures(T::single_sub, (size_number, mean), difference)
            &&& #[trigger] call_ensures(T::single_powi, (difference, 2i32), r)
        }
}

/// A run goes one iteration farther with the clusters that its model gives rise
/// to, unless one of their vectors belongs to none: it comes to the means, finds
/// mean distance and deviation of sizes, and has converged where there is a mean
/// distance before that this one is close to.
pub proof fn law_run_advances_by_one<T: ArrowFloatType>(
    run: Run<T>,
    a: Assignment<T::Native>,
    tolerance: Float64,
    r: Option<Run<T>>,
)
    requires
        advance_outcome(run, a, tolerance, r),
    ensures
        r is Some <==> forall|i: int| 0 <= i < a.parts.len() ==> (#[trigger] a.parts[i]).0 < a.k,
        r matches Some(next) ==> {
            &&& next.iterations == run.iterations + 1
            &&& means_outcome::<T>(a, next.kmeans@)
            &&& stddev_outcome::<T>(
                sizes_of(a.parts, a.k),
                a.parts.len() as usize,
                a.k as usize,
                next.stddev,
            )
            &&& next.mean_distance is Some
            &&& mean_distance_outcome::<T>(a.parts, next.mean_distance->Some_0)
            &&& run.mean_distance is None ==> !next.converged
            &&& run.mean_distance is Some ==> may_compare::<T>(
                run.mean_distance->Some_0,
                next.mean_distance->Some_0,
                tolerance,
                next.converged,
            )
        },
{
    if r is Some && run.mean_distance is Some {
        let next = r->Some_0;
        lemma_converged_compares::<T>(
            run.mean_distance->Some_0,
            next.mean_distance->Some_0,
            tolerance,
            next.converged,
        );
    }
}

/// Of the best of some runs and one more, the new one is kept where its deviation
/// is below that to beat, which then is the new one's; and where there is none
/// yet, which leaves what is to beat.
pub proof fn law_better_run_is_kept<N>(
    best: (Option<Model<N>>, Float32),
    run: (Model<N>, Float32),
)
    ensures
        better(best, run).0 is Some,
        run.1.less(best.1) ==> better(best, run) == (Some(run.0), run.1),
        !run.1.less(best.1) ==> better(best, run).1 == best.1,
        !run.1.less(best.1) && best.0 is None ==> better(best, run).0 == Some(run.0),
        !run.1.less(best.1) && best.0 is Some ==> better(best, run).0 == best.0,
{
}

/// What a model, a membership, a matrix and the best of runs hold is what their
/// fields hold.
pub proof fn law_views_are_fields<T: ArrowFloatType>(
    m: KMeans<T>,
    a: KMeanMembership<T>,
    mat: MatrixView<T>,
    best: Best<T>,
)
    ensures
        m@ == (Model {
            centroids: m.centroids@,
            dimension: m.dimension as int,
            k: m.k as int,
            metric_type: m.metric_type,
        }),
        m@.count() == m.centroids@.len() as int / m.dimension as int,
        a@ == (Assignment {
            data: a.data@,
            dimension: a.dimension as int,
            parts: a.cluster_id_and_distances@,
            k: a.k as int,
            metric_type: a.metric_type,
        }),
        mat.spec_num_rows() == mat.data@.len() as int / mat.num_columns as int,
        best@.1 == best.stddev,
        best@.0 is Some == best.kmeans is Some,
        best.kmeans matches Some(kept) ==> best@.0 == Some(kept@),
{
}

/// Views of what may be missing are missing where that is.
pub proof fn law_optional_views<T: ArrowFloatType, N>(
    v: Vec<N>,
    m: KMeans<T>,
    a: KMeanMembership<T>,
    norms: Arc<Vec<Float32>>,
    models: Seq<KMeans<T>>,
)
    ensures
        view_option(Some(v)) == Some(v@),
        view_option::<N>(None) is None,
        view_model(Some(m)) == Some(m@),
        view_model::<T>(None) is None,
        view_membership(Some(a)) == Some(a@),
        view_membership::<T>(None) is None,
        view_norms(Some(norms)) == Some(norms@),
        view_norms(None) is None,
        models_of(models).len() == models.len(),
        forall|i: int| 0 <= i < models.len() ==> #[trigger] models_of(models)[i] == models[i]@,
        Model::<T::Native>::empty(m.k as int, m.dimension as int, m.metric_type) == (Model {
            centroids: Seq::<T::Native>::empty(),
            dimension: m.dimension as int,
            k: m.k as int,
            metric_type: m.metric_type,
        }),
{
}

} // verus!
