//! What holds of the library as a whole.

use arrow_array::FixedSizeListArray;
use vstd::arithmetic::div_mod::{lemma_div_by_multiple, lemma_div_pos_is_pos};
use vstd::layout::size_of;
use vstd::prelude::*;

use crate::array::list_len;
use crate::assign::{
    centroid_norms_outcome, chunk_end, membership_outcome, row_fails, row_outcome, rows_outcome,
    train_once_outcome, CHUNK_SIZE,
};
use crate::distance::{l2_batch_outcome, MetricType};
use crate::error::Error;
use crate::float::{Float32, Float64};
use crate::kernels::{any_below, is_argmin, is_argmin_value, is_argmin_value_float};
use crate::matrix::{chunk, chunk_count, lemma_chunk_is_row, row};
use crate::membership::{column, joined, means_outcome, place, Assignment};
use crate::model::{KMeans, Model};
use crate::partition::{
    distance_outcome, distances_outcome, ids_of, ids_outcome, nearest_id_outcome, nearest_outcome,
    norms_outcome, partitions_outcome,
};
use crate::sample::law_random_start;
use crate::scalar::{
    cosine_fast_outcome, cosine_with_norms_outcome, l2_outcome, norm_outcome, ArrowFloatType,
};
use crate::tiles::{
    is_tiled, l2_distances_outcome, l2_nearest_outcome, l2_partitions_outcome,
    small_nearest_outcome, striped_l2_outcome, SMALL_CENTROIDS, STRIPE_SIZE,
};
use crate::training::{
    can_start, follows, is_best, is_done, model_after, ready, run_fails, run_outcome, runs_from,
    start_outcome, starts_outcome, stddev_after, stddevs_of, step_fails, steps_outcome,
    train_from_outcome, train_outcome, training_outcome, KMeansParams, Step,
};

verus! {

/// Whether `id` is the place of a centroid that no centroid is nearer than, by
/// the given distances. Where there is no distance below infinity it is 0.
pub open spec fn none_nearer(dists: Seq<Float32>, id: u32) -> bool {
    if any_below(dists, Float32::spec_infinity()) {
        &&& id < dists.len()
        &&& forall|j: int|
            0 <= j < dists.len() ==> !(#[trigger] dists[j]).less(dists[id as int])
        &&& forall|j: int| 0 <= j < id ==> (#[trigger] dists[j]).rank() != dists[id as int].rank()
            || dists[j].is_nan()
    } else {
        id == 0
    }
}

/// A vector is assigned to a centroid that no other is nearer than by squared
/// Euclidean distance, and to the first of equally near ones. That holds
/// whether or not centroids are worked through in tiles.
pub proof fn law_l2_partition_is_nearest<T: ArrowFloatType>(
    centroids: Seq<T::Native>,
    data: Seq<T::Native>,
    dim: int,
    parts: Seq<(u32, Float32)>,
    i: int,
)
    requires
        l2_partitions_outcome::<T>(centroids, data, dim, Some(parts)),
        0 <= i < parts.len(),
    ensures
        exists|dists: Seq<Float32>|
            {
                &&& #[trigger] l2_distances_outcome::<T>(
                    chunk(data, dim, i),
                    centroids,
                    dim,
                    dists,
                )
                &&& none_nearer(dists, parts[i].0)
            },
{
    let from = chunk(data, dim, i);
    let part = parts[i];
    assert(l2_nearest_outcome::<T>(from, centroids, dim, part));
    let dists = choose|dists: Seq<Float32>|
        {
            &&& #[trigger] l2_distances_outcome::<T>(from, centroids, dim, dists)
            &&& is_argmin_value_float(dists, part)
        };
    lemma_argmin_none_nearer(dists, part);
}

proof fn lemma_argmin_none_nearer(dists: Seq<Float32>, part: (u32, Float32))
    requires
        is_argmin_value_float(dists, part),
    ensures
        none_nearer(dists, part.0),
{
    if any_below(dists, Float32::spec_infinity()) {
        assert forall|j: int| 0 <= j < part.0 implies (#[trigger] dists[j]).rank()
            != dists[part.0 as int].rank() || dists[j].is_nan() by {
            assert(dists[part.0 as int].less(Float32::spec_infinity()));
        }
    }
}

/// Whether adding up the squared distances of the stripes of two vectors gives
/// what may be their squared distance.
pub open spec fn stripes_add_up<T: ArrowFloatType>(dim: int) -> bool {
    forall|x: Seq<T::Native>, y: Seq<T::Native>, d: Float32|
        x.len() == dim && y.len() == dim && #[trigger] striped_l2_outcome::<T>(
            x,
            y,
            chunk_count(dim, STRIPE_SIZE as int) as nat,
            d,
        ) ==> l2_outcome::<T>(x, y, d)
}

/// Where the distances of stripes add up, tiles make no difference: each vector
/// is assigned as if it had been measured against all centroids in one go.
pub proof fn law_tiles_make_no_difference<T: ArrowFloatType>(
    centroids: Seq<T::Native>,
    data: Seq<T::Native>,
    dim: int,
    parts: Seq<(u32, Float32)>,
    i: int,
)
    requires
        dim > 0,
        stripes_add_up::<T>(dim),
        l2_partitions_outcome::<T>(centroids, data, dim, Some(parts)),
        0 <= i < parts.len(),
    ensures
        small_nearest_outcome::<T>(chunk(data, dim, i), centroids, dim, parts[i]),
{
    let from = chunk(data, dim, i);
    let part = parts[i];
    assert(l2_nearest_outcome::<T>(from, centroids, dim, part));
    let dists = choose|dists: Seq<Float32>|
        {
            &&& #[trigger] l2_distances_outcome::<T>(from, centroids, dim, dists)
            &&& is_argmin_value_float(dists, part)
        };
    if is_tiled(centroids) {
        lemma_chunk_is_row(data, dim, i);
        assert forall|j: int| 0 <= j < dists.len() implies l2_outcome::<T>(
            from,
            row(centroids, dim, j),
            #[trigger] dists[j],
        ) by {
            lemma_chunk_is_row(centroids, dim, j);
            assert(striped_l2_outcome::<T>(
                from,
                row(centroids, dim, 0 + j),
                chunk_count(dim, STRIPE_SIZE as int) as nat,
                dists[j],
            ));
        }
        assert(l2_batch_outcome::<T>(from, centroids, dim, dists));
    }
}

/// Whether a model leaves no shorter last vector out that
/// [`compute_partitions`](crate::compute_partitions) assigns or measures against.
pub open spec fn takes_all<N>(model: Model<N>, data: Seq<N>) -> bool {
    if model.metric_type is L2 {
        is_tiled(model.centroids) || data.len() as int % model.dimension == 0
    } else {
        &&& data.len() as int % model.dimension == 0
        &&& model.centroids.len() as int % model.dimension == 0
    }
}

/// The clusters of a membership, if there is one.
pub open spec fn ids_of_membership<N>(r: Option<Assignment<N>>) -> Option<Seq<u32>> {
    match r {
        Some(a) => Some(ids_of(a.parts)),
        None => None,
    }
}

/// Assigning vectors to the clusters of a model, with no lengths of vectors
/// known, is assigning them to the centroids of that model.
pub proof fn law_membership_is_partition<T: ArrowFloatType>(
    model: Model<T::Native>,
    data: Seq<T::Native>,
    r: Option<Assignment<T::Native>>,
)
    requires
        model.dimension > 0,
        takes_all(model, data),
        membership_outcome::<T>(model, data, None, r),
    ensures
        partitions_outcome::<T>(
            model.metric_type,
            model.centroids,
            data,
            model.dimension,
            ids_of_membership(r),
        ),
{
    let n = data.len() as int / model.dimension;
    let norms = choose|norms: Seq<Float32>|
        {
            &&& #[trigger] centroid_norms_outcome::<T>(model, norms)
            &&& match r {
                Some(a) => rows_outcome::<T>(model, data, None, norms, 0, n, Some(a.parts)),
                None => rows_outcome::<T>(model, data, None, norms, 0, n, None),
            }
        };
    match r {
        Some(a) => {
            lemma_parts_are_partition::<T>(model, data, norms, a.parts);
        },
        None => {
            let i = choose|i: int|
                0 <= i < n && #[trigger] row_fails::<T>(model, data, None, norms, i);
            lemma_chunk_is_row(data, model.dimension, i);
            assert(chunk(data, model.dimension, i) == row(data, model.dimension, i));
        },
    }
    if model.metric_type is Dot {
        assert(norms =~= Seq::<Float32>::empty());
    }
}

proof fn lemma_parts_are_partition<T: ArrowFloatType>(
    model: Model<T::Native>,
    data: Seq<T::Native>,
    norms: Seq<Float32>,
    parts: Seq<(u32, Float32)>,
)
    requires
        model.dimension > 0,
        takes_all(model, data),
        rows_outcome::<T>(
            model,
            data,
            None,
            norms,
            0,
            data.len() as int / model.dimension,
            Some(parts),
        ),
    ensures
        if model.metric_type is L2 {
            l2_partitions_outcome::<T>(model.centroids, data, model.dimension, Some(parts))
        } else {
            ids_outcome::<T>(
                model.metric_type,
                model.centroids,
                data,
                model.dimension,
                norms,
                Some(ids_of(parts)),
            )
        },
{
    let dim = model.dimension;
    let ids = ids_of(parts);
    assert forall|i: int| 0 <= i < parts.len() implies #[trigger] row_outcome::<T>(
        model,
        data,
        None,
        norms,
        i,
        parts[i],
    ) && chunk(data, dim, i) == row(data, dim, i) by {
        assert(row_outcome::<T>(model, data, None, norms, 0 + i, parts[i]));
        lemma_chunk_is_row(data, dim, i);
    }
    if model.metric_type is L2 {
        assert forall|i: int| 0 <= i < parts.len() implies l2_nearest_outcome::<T>(
            chunk(data, dim, i),
            model.centroids,
            dim,
            #[trigger] parts[i],
        ) by {
            assert(row_outcome::<T>(model, data, None, norms, i, parts[i]));
        }
    } else {
        assert forall|i: int| 0 <= i < ids.len() implies nearest_id_outcome::<T>(
            model.metric_type,
            chunk(data, dim, i),
            model.centroids,
            dim,
            chunk_count(model.centroids.len() as int, dim),
            norms,
            #[trigger] ids[i],
        ) by {
            assert(row_outcome::<T>(model, data, None, norms, i, parts[i]));
            let part = parts[i];
            assert(nearest_outcome::<T>(
                model.metric_type,
                chunk(data, dim, i),
                None,
                model.centroids,
                dim,
                model.count(),
                norms,
                Some((part.0, part.1)),
            ));
        }
    }
}

/// Whether a cosine distance that is measured with the length of the second
/// vector is one that may be measured without.
pub open spec fn lengths_agree<T: ArrowFloatType>() -> bool {
    forall|x: Seq<T::Native>, x_norm: Float32, y_norm: Float32, y: Seq<T::Native>, d: Float32|
        #[trigger] cosine_with_norms_outcome::<T>(x, x_norm, y_norm, y, d) && norm_outcome::<T>(
            y,
            y_norm,
        ) ==> cosine_fast_outcome::<T>(x, x_norm, y, d)
}

/// Where cosine distances with and without known lengths agree, a step of
/// training assigns vectors as if no lengths had been measured.
pub proof fn law_measured_lengths_make_no_difference<T: ArrowFloatType>(
    model: Model<T::Native>,
    data: Seq<T::Native>,
    r: Option<Assignment<T::Native>>,
)
    requires
        model.dimension > 0,
        lengths_agree::<T>(),
        train_once_outcome::<T>(model, data, model.dimension, r),
    ensures
        membership_outcome::<T>(model, data, None, r),
{
    if model.metric_type is Cosine {
        let n = data.len() as int / model.dimension;
        let lengths = choose|norm_data: Seq<Float32>|
            {
                &&& norm_data.len() == data.len() as int / model.dimension
                &&& #[trigger] norms_outcome::<T>(data, model.dimension, norm_data)
                &&& membership_outcome::<T>(model, data, Some(norm_data), r)
            };
        let norms = choose|norms: Seq<Float32>|
            {
                &&& #[trigger] centroid_norms_outcome::<T>(model, norms)
                &&& match r {
                    Some(a) => {
                        &&& a.data == data
                        &&& a.dimension == model.dimension
                        &&& a.k == model.k
                        &&& a.metric_type == model.metric_type
                        &&& rows_outcome::<T>(
                            model,
                            data,
                            Some(lengths),
                            norms,
                            0,
                            n,
                            Some(a.parts),
                        )
                    },
                    None => rows_outcome::<T>(model, data, Some(lengths), norms, 0, n, None),
                }
            };
        match r {
            Some(a) => {
                assert forall|i: int| 0 <= i < a.parts.len() implies row_outcome::<T>(
                    model,
                    data,
                    None,
                    norms,
                    0 + i,
                    #[trigger] a.parts[i],
                ) by {
                    assert(row_outcome::<T>(
                        model,
                        data,
                        Some(lengths),
                        norms,
                        0 + i,
                        a.parts[i],
                    ));
                    lemma_measured_without_length::<T>(
                        model,
                        data,
                        lengths,
                        norms,
                        i,
                        Some(a.parts[i]),
                    );
                }
                assert(rows_outcome::<T>(model, data, None, norms, 0, n, Some(a.parts)));
            },
            None => {
                let i = choose|i: int|
                    0 <= i < n && #[trigger] row_fails::<T>(model, data, Some(lengths), norms, i);
                lemma_measured_without_length::<T>(model, data, lengths, norms, i, None);
                assert(row_fails::<T>(model, data, None, norms, i));
                assert(rows_outcome::<T>(model, data, None, norms, 0, n, None));
            },
        }
    }
}

proof fn lemma_measured_without_length<T: ArrowFloatType>(
    model: Model<T::Native>,
    data: Seq<T::Native>,
    lengths: Seq<Float32>,
    norms: Seq<Float32>,
    i: int,
    part: Option<(u32, Float32)>,
)
    requires
        model.dimension > 0,
        lengths_agree::<T>(),
        0 <= i < data.len() as int / model.dimension,
        lengths.len() == data.len() as int / model.dimension,
        norms_outcome::<T>(data, model.dimension, lengths),
        nearest_outcome::<T>(
            MetricType::Cosine,
            row(data, model.dimension, i),
            Some(lengths[i]),
            model.centroids,
            model.dimension,
            model.count(),
            norms,
            part,
        ),
    ensures
        nearest_outcome::<T>(
            MetricType::Cosine,
            row(data, model.dimension, i),
            None,
            model.centroids,
            model.dimension,
            model.count(),
            norms,
            part,
        ),
{
    let dim = model.dimension;
    let from = row(data, dim, i);
    let dists = choose|dists: Seq<Float32>|
        {
            &&& dists.len() == model.count()
            &&& #[trigger] distances_outcome::<T>(
                MetricType::Cosine,
                from,
                Some(lengths[i]),
                model.centroids,
                dim,
                norms,
                dists,
            )
            &&& is_argmin_value(dists, part)
        };
    lemma_chunk_is_row(data, dim, i);
    assert(norm_outcome::<T>(from, lengths[i]));
    assert forall|j: int| 0 <= j < dists.len() implies distance_outcome::<T>(
        MetricType::Cosine,
        from,
        None,
        chunk(model.centroids, dim, j),
        norms[j],
        #[trigger] dists[j],
    ) by {
        assert(cosine_with_norms_outcome::<T>(
            chunk(model.centroids, dim, j),
            norms[j],
            lengths[i],
            from,
            dists[j],
        ));
    }
    assert(distances_outcome::<T>(
        MetricType::Cosine,
        from,
        None,
        model.centroids,
        dim,
        norms,
        dists,
    ));
}

/// Where the vectors before chunk `c` end, of `n` vectors.
pub open spec fn covered(c: int, n: int) -> int {
    if c * CHUNK_SIZE <= n {
        c * CHUNK_SIZE
    } else {
        n
    }
}

/// Assigning vectors chunk by chunk, in whatever order the chunks are worked
/// through, and putting the chunks together is assigning all vectors.
pub proof fn law_chunks_make_a_membership<T: ArrowFloatType>(
    model: Model<T::Native>,
    data: Seq<T::Native>,
    norm_data: Option<Seq<Float32>>,
    norms: Seq<Float32>,
    chunks: Seq<Vec<(u32, Float32)>>,
)
    requires
        model.dimension > 0,
        centroid_norms_outcome::<T>(model, norms),
        chunks.len() == chunk_count(data.len() as int / model.dimension, CHUNK_SIZE as int),
        forall|c: int|
            0 <= c < chunks.len() ==> rows_outcome::<T>(
                model,
                data,
                norm_data,
                norms,
                c * CHUNK_SIZE,
                chunk_end(c * CHUNK_SIZE, data.len() as int / model.dimension),
                Some((#[trigger] chunks[c])@),
            ),
    ensures
        membership_outcome::<T>(
            model,
            data,
            norm_data,
            Some(
                Assignment {
                    data,
                    dimension: model.dimension,
                    parts: joined(chunks),
                    k: model.k,
                    metric_type: model.metric_type,
                },
            ),
        ),
{
    let n = data.len() as int / model.dimension;
    lemma_div_pos_is_pos(data.len() as int, model.dimension);
    lemma_chunks_join::<T>(model, data, norm_data, norms, chunks, chunks.len() as int);
    assert(chunks.take(chunks.len() as int) =~= chunks);
    assert(covered(chunks.len() as int, n) == n);
}

proof fn lemma_chunks_join<T: ArrowFloatType>(
    model: Model<T::Native>,
    data: Seq<T::Native>,
    norm_data: Option<Seq<Float32>>,
    norms: Seq<Float32>,
    chunks: Seq<Vec<(u32, Float32)>>,
    c: int,
)
    requires
        0 <= data.len() as int / model.dimension,
        0 <= c <= chunks.len(),
        chunks.len() == chunk_count(data.len() as int / model.dimension, CHUNK_SIZE as int),
        forall|i: int|
            0 <= i < chunks.len() ==> rows_outcome::<T>(
                model,
                data,
                norm_data,
                norms,
                i * CHUNK_SIZE,
                chunk_end(i * CHUNK_SIZE, data.len() as int / model.dimension),
                Some((#[trigger] chunks[i])@),
            ),
    ensures
        rows_outcome::<T>(
            model,
            data,
            norm_data,
            norms,
            0,
            covered(c, data.len() as int / model.dimension),
            Some(joined(chunks.take(c))),
        ),
    decreases c,
{
    let n = data.len() as int / model.dimension;
    if c > 0 {
        lemma_chunks_join::<T>(model, data, norm_data, norms, chunks, c - 1);
        let start = covered(c - 1, n);
        let before = joined(chunks.take(c - 1));
        let found = chunks[c - 1]@;
        let now = joined(chunks.take(c));
        assert(chunks.take(c).drop_last() =~= chunks.take(c - 1));
        assert(chunks.take(c).last() == chunks[c - 1]);
        assert(start == (c - 1) * CHUNK_SIZE);
        assert forall|i: int| 0 <= i < now.len() implies row_outcome::<T>(
            model,
            data,
            norm_data,
            norms,
            0 + i,
            #[trigger] now[i],
        ) by {
            if i < start {
                assert(now[i] == before[i]);
                assert(row_outcome::<T>(model, data, norm_data, norms, 0 + i, before[i]));
            } else {
                assert(now[i] == found[i - start]);
                assert(row_outcome::<T>(
                    model,
                    data,
                    norm_data,
                    norms,
                    start + (i - start),
                    found[i - start],
                ));
            }
        }
    }
}

/// Where one chunk of vectors cannot be assigned, the vectors cannot.
pub proof fn law_failed_chunk_fails_all<T: ArrowFloatType>(
    model: Model<T::Native>,
    data: Seq<T::Native>,
    norm_data: Option<Seq<Float32>>,
    norms: Seq<Float32>,
    start: int,
)
    requires
        model.dimension > 0,
        centroid_norms_outcome::<T>(model, norms),
        0 <= start,
        rows_outcome::<T>(
            model,
            data,
            norm_data,
            norms,
            start,
            chunk_end(start, data.len() as int / model.dimension),
            None,
        ),
    ensures
        membership_outcome::<T>(model, data, norm_data, None),
{
    let n = data.len() as int / model.dimension;
    let i = choose|i: int|
        start <= i < chunk_end(start, n) && #[trigger] row_fails::<T>(
            model,
            data,
            norm_data,
            norms,
            i,
        );
    assert(rows_outcome::<T>(model, data, norm_data, norms, 0, n, None));
}

/// Where there are no more centroids than clusters, and clusters at all if there
/// are vectors, each vector that is assigned belongs to one of the clusters.
pub proof fn law_members_in_range<T: ArrowFloatType>(
    model: Model<T::Native>,
    data: Seq<T::Native>,
    num_columns: int,
    a: Assignment<T::Native>,
)
    requires
        train_once_outcome::<T>(model, data, num_columns, Some(a)),
        0 <= model.count() <= model.k,
        data.len() as int / model.dimension == 0 || model.k > 0,
    ensures
        a.wf(),
        a.k == model.k,
        a.dimension == model.dimension,
        a.metric_type == model.metric_type,
        a.data == data,
        a.parts.len() == data.len() as int / model.dimension,
{
    let norm_data = choose|norm_data: Option<Seq<Float32>>| #[trigger]
        membership_outcome::<T>(model, data, norm_data, Some(a));
    assert(membership_outcome::<T>(model, data, norm_data, Some(a)));
    let norms = choose|norms: Seq<Float32>|
        {
            &&& #[trigger] centroid_norms_outcome::<T>(model, norms)
            &&& rows_outcome::<T>(
                model,
                data,
                norm_data,
                norms,
                0,
                data.len() as int / model.dimension,
                Some(a.parts),
            )
        };
    assert forall|i: int| 0 <= i < a.parts.len() implies (#[trigger] a.parts[i]).0 < a.k by {
        assert(row_outcome::<T>(model, data, norm_data, norms, 0 + i, a.parts[i]));
    }
}

/// By squared Euclidean distance to centroids that take little memory, each
/// vector finds a cluster, whatever the distances are.
pub proof fn law_small_l2_never_fails<T: ArrowFloatType>(
    model: Model<T::Native>,
    data: Seq<T::Native>,
)
    requires
        model.dimension > 0,
        model.metric_type is L2,
        !is_tiled(model.centroids),
        model.count() <= model.k,
        data.len() as int / model.dimension == 0 || model.k > 0,
    ensures
        !step_fails::<T>(model, data),
{
    lemma_div_pos_is_pos(model.centroids.len() as int, model.dimension);
    if train_once_outcome::<T>(model, data, model.dimension, None) {
        let n = data.len() as int / model.dimension;
        let norms = choose|norms: Seq<Float32>|
            {
                &&& #[trigger] centroid_norms_outcome::<T>(model, norms)
                &&& rows_outcome::<T>(model, data, None, norms, 0, n, None)
            };
        assert(rows_outcome::<T>(model, data, None, norms, 0, n, None));
    } else if step_fails::<T>(model, data) {
        let a = choose|a: Assignment<T::Native>|
            {
                &&& #[trigger] train_once_outcome::<T>(model, data, model.dimension, Some(a))
                &&& !a.wf()
            };
        law_members_in_range::<T>(model, data, model.dimension, a);
    }
}

/// A run by squared Euclidean distance comes to its end where the centroids take
/// little memory, both the given ones and those of all clusters.
pub proof fn law_small_l2_run_never_fails<T: ArrowFloatType>(
    start: Model<T::Native>,
    data: Seq<T::Native>,
    max_iters: int,
    tolerance: Float64,
)
    requires
        start.dimension > 0,
        start.metric_type is L2,
        !is_tiled(start.centroids),
        start.k * start.dimension * size_of::<T::Native>() <= SMALL_CENTROIDS,
        start.count() <= start.k,
        data.len() as int / start.dimension == 0 || start.k > 0,
    ensures
        !run_fails::<T>(start, data, max_iters, tolerance),
{
    if run_fails::<T>(start, data, max_iters, tolerance) {
        let steps = choose|steps: Seq<Step<T::Native>>|
            {
                &&& #[trigger] steps_outcome::<T>(start, data, tolerance, steps)
                &&& step_fails::<T>(model_after(start, steps, steps.len() as int), data)
            };
        let model = model_after(start, steps, steps.len() as int);
        lemma_steps_keep_shape::<T>(start, data, tolerance, steps, steps.len() as int);
        lemma_div_pos_is_pos(start.centroids.len() as int, start.dimension);
        lemma_div_by_multiple(start.k, start.dimension);
        law_small_l2_never_fails::<T>(model, data);
    }
}

/// The centroid of a cluster without vectors is at zero.
pub proof fn law_empty_cluster_at_zero<T: ArrowFloatType>(
    a: Assignment<T::Native>,
    m: Model<T::Native>,
    c: int,
    j: int,
)
    requires
        a.dimension > 0,
        means_outcome::<T>(a, m),
        0 <= c < a.k,
        0 <= j < a.dimension,
        forall|i: int| 0 <= i < a.parts.len() ==> (#[trigger] a.parts[i]).0 != c,
    ensures
        call_ensures(T::zero, (), m.centroids[c * a.dimension + j]),
{
    lemma_column_of_empty(a, a.member_count(), c, j);
    assert(m.centroids[place(c, a.dimension, j)] == m.centroids[c * a.dimension + j]);
}

proof fn lemma_column_of_empty<N>(a: Assignment<N>, n: int, c: int, j: int)
    requires
        n <= a.parts.len(),
        forall|i: int| 0 <= i < a.parts.len() ==> (#[trigger] a.parts[i]).0 != c,
    ensures
        column(a.data, a.dimension, a.parts, n, c, j).len() == 0,
    decreases n,
{
    if n > 0 {
        lemma_column_of_empty(a, n - 1, c, j);
        assert(a.parts[n - 1].0 != c);
    }
}

/// A run that iterates at all ends with a whole centroid for each cluster, and
/// keeps dimension, number of clusters and metric.
pub proof fn law_run_keeps_shape<T: ArrowFloatType>(
    start: Model<T::Native>,
    data: Seq<T::Native>,
    max_iters: int,
    tolerance: Float64,
    run: (Model<T::Native>, Float32),
)
    requires
        run_outcome::<T>(start, data, max_iters, tolerance, run),
    ensures
        run.0.dimension == start.dimension,
        run.0.k == start.k,
        run.0.metric_type == start.metric_type,
        max_iters > 0 ==> run.0.centroids.len() == start.k * start.dimension,
        max_iters <= 0 ==> run == (start, Float32::spec_max()),
{
    let steps = choose|steps: Seq<Step<T::Native>>|
        {
            &&& #[trigger] steps_outcome::<T>(start, data, tolerance, steps)
            &&& steps.len() <= max_iters
            &&& steps.len() == max_iters || is_done(steps)
            &&& run.0 == model_after(start, steps, steps.len() as int)
            &&& run.1 == stddev_after(steps, steps.len() as int)
        };
    lemma_steps_keep_shape::<T>(start, data, tolerance, steps, steps.len() as int);
}

/// Every iteration keeps dimension, number of clusters and metric.
pub proof fn lemma_steps_keep_shape<T: ArrowFloatType>(
    start: Model<T::Native>,
    data: Seq<T::Native>,
    tolerance: Float64,
    steps: Seq<Step<T::Native>>,
    i: int,
)
    requires
        steps_outcome::<T>(start, data, tolerance, steps),
        0 <= i <= steps.len(),
    ensures
        model_after(start, steps, i).dimension == start.dimension,
        model_after(start, steps, i).k == start.k,
        model_after(start, steps, i).metric_type == start.metric_type,
        i > 0 ==> model_after(start, steps, i).centroids.len() == start.k * start.dimension,
    decreases i,
{
    if i > 0 {
        lemma_steps_keep_shape::<T>(start, data, tolerance, steps, i - 1);
        assert(follows::<T>(start, data, tolerance, steps, i - 1));
        let model = model_after(start, steps, i - 1);
        let a = steps[i - 1].membership;
        assert(train_once_outcome::<T>(model, data, model.dimension, Some(a)));
        let norm_data = choose|norm_data: Option<Seq<Float32>>| #[trigger]
            membership_outcome::<T>(model, data, norm_data, Some(a));
        assert(membership_outcome::<T>(model, data, norm_data, Some(a)));
    }
}

/// Whether what is trained has a whole centroid for each cluster from the start,
/// where nothing moves the centroids.
pub open spec fn starts_whole<T: ArrowFloatType>(
    params: KMeansParams<T>,
    len: int,
    dim: int,
    k: int,
) -> bool {
    params.redos == 0 || params.max_iters == 0 ==> match params.centroids {
        Some(centroids) => centroids@.len() == k * dim,
        None => can_start(params, len, dim, k) || k * dim == 0,
    }
}

/// A trained model has the dimension, number of clusters and metric that were
/// asked for, and a whole centroid for each cluster.
pub proof fn law_trained_shape<T: ArrowFloatType>(
    params: KMeansParams<T>,
    data: Seq<T::Native>,
    dim: int,
    k: int,
    m: Model<T::Native>,
)
    requires
        ready(params, data.len() as int, dim, k),
        starts_whole(params, data.len() as int, dim, k),
        train_outcome(params, data, dim, k, Some(m)),
    ensures
        m.dimension == dim,
        m.k == k,
        m.metric_type == params.metric_type,
        m.centroids.len() == k * dim,
{
    if params.redos == 0 {
        if params.centroids is None && can_start(params, data.len() as int, dim, k) {
            law_random_start(data, dim, k, params.metric_type, m);
        }
    } else {
        let (start, run) = lemma_trained_is_run(params, data, dim, k, m);
        law_run_keeps_shape::<T>(
            start,
            data,
            params.max_iters as int,
            params.tolerance,
            run,
        );
        if params.centroids is None {
            law_random_start(data, dim, k, params.metric_type, start);
        }
    }
}

/// What is trained is where a run ends that starts from a model drawn for it.
pub proof fn lemma_trained_is_run<T: ArrowFloatType>(
    params: KMeansParams<T>,
    data: Seq<T::Native>,
    dim: int,
    k: int,
    m: Model<T::Native>,
) -> (r: (Model<T::Native>, (Model<T::Native>, Float32)))
    requires
        params.redos > 0,
        train_outcome(params, data, dim, k, Some(m)),
    ensures
        start_outcome(params, data, dim, k, r.0),
        run_outcome::<T>(r.0, data, params.max_iters as int, params.tolerance, r.1),
        r.1.0 == m,
{
    let max_iters = params.max_iters as int;
    let starts = choose|starts: Seq<Model<T::Native>>|
        {
            &&& starts.len() == params.redos
            &&& #[trigger] starts_outcome(params, data, dim, k, starts)
            &&& train_from_outcome::<T>(starts, data, max_iters, params.tolerance, Some(m))
        };
    let runs = choose|runs: Seq<(Model<T::Native>, Float32)>|
        {
            &&& #[trigger] runs_from::<T>(starts, data, max_iters, params.tolerance, runs)
            &&& is_best(runs, m)
        };
    let i = lemma_best_is_a_run(runs, m);
    assert(start_outcome(params, data, dim, k, starts[i]));
    (starts[i], runs[i])
}

/// Where no iteration is made, the model that is given back is one that a run
/// starts from.
pub proof fn law_untrained_is_start<T: ArrowFloatType>(
    params: KMeansParams<T>,
    data: Seq<T::Native>,
    dim: int,
    k: int,
    m: Model<T::Native>,
)
    requires
        can_start(params, data.len() as int, dim, k),
        params.redos == 0 || params.max_iters == 0,
        train_outcome(params, data, dim, k, Some(m)),
    ensures
        start_outcome(params, data, dim, k, m),
{
    if params.redos > 0 {
        let (start, run) = lemma_trained_is_run(params, data, dim, k, m);
        law_run_keeps_shape::<T>(start, data, 0, params.tolerance, run);
    }
}

/// The best of runs is one of them.
pub proof fn lemma_best_is_a_run<N>(runs: Seq<(Model<N>, Float32)>, m: Model<N>) -> (i: int)
    requires
        runs.len() > 0,
        is_best(runs, m),
    ensures
        0 <= i < runs.len(),
        m == runs[i].0,
        forall|j: int|
            0 <= j < runs.len() && (#[trigger] runs[j]).1.less(runs[i].1)
                ==> !runs[j].1.less(Float32::spec_max()),
        forall|j: int|
            0 <= j < i && (#[trigger] runs[j]).1.less(Float32::spec_max())
                ==> runs[i].1.less(runs[j].1),
{
    let stddevs = stddevs_of(runs);
    assert forall|j: int| 0 <= j < runs.len() implies (#[trigger] runs[j]).1 == stddevs[j] by {}
    if any_below(stddevs, Float32::spec_max()) {
        choose|i: int| #[trigger] is_argmin(stddevs, Float32::spec_max(), i) && m == runs[i].0
    } else {
        0
    }
}

/// Of runs from given models, one from each, the one with the most balanced
/// clusters is picked: no run has a smaller deviation of cluster sizes, as far as
/// deviations are below the largest finite number, and none before it has the
/// same.
pub proof fn law_most_balanced_run_is_picked<T: ArrowFloatType>(
    starts: Seq<Model<T::Native>>,
    data: Seq<T::Native>,
    max_iters: int,
    tolerance: Float64,
    m: Model<T::Native>,
)
    requires
        starts.len() > 0,
        train_from_outcome::<T>(starts, data, max_iters, tolerance, Some(m)),
    ensures
        exists|runs: Seq<(Model<T::Native>, Float32)>, i: int|
            {
                &&& #[trigger] runs_from::<T>(starts, data, max_iters, tolerance, runs)
                &&& 0 <= i < runs.len()
                &&& m == (#[trigger] runs[i]).0
                &&& forall|j: int|
                    0 <= j < runs.len() && (#[trigger] runs[j]).1.less(runs[i].1)
                        ==> !runs[j].1.less(Float32::spec_max())
                &&& forall|j: int|
                    0 <= j < i && (#[trigger] runs[j]).1.less(Float32::spec_max())
                        ==> runs[i].1.less(runs[j].1)
            },
{
    let runs = choose|runs: Seq<(Model<T::Native>, Float32)>|
        {
            &&& #[trigger] runs_from::<T>(starts, data, max_iters, tolerance, runs)
            &&& is_best(runs, m)
        };
    let i = lemma_best_is_a_run(runs, m);
    assert(m == runs[i].0);
}

/// Training is refused for want of vectors exactly where there are fewer vectors
/// than clusters, and the error says how many of each.
pub proof fn law_too_few_points<T: ArrowFloatType>(
    data: FixedSizeListArray,
    k: usize,
    params: KMeansParams<T>,
    r: Result<KMeans<T>, Error>,
)
    requires
        training_outcome(data, k, params, r),
    ensures
        (r matches Err(e) && e is TooFewPoints) <==> list_len(data) < k,
        r matches Err(Error::TooFewPoints { n, k: asked }) ==> n == list_len(data) && asked == k,
{
}

} // verus!
