//! What can be taken apart and put together again.

use vstd::prelude::*;

use crate::assign::{
    centroid_norms_outcome, membership_outcome, row_fails, row_outcome, rows_outcome,
};
use crate::distance::MetricType;
use crate::float::{Float32, Float64};
use crate::matrix::{chunk, chunk_count, lemma_chunk_bounds, row};
use crate::membership::{column, means_outcome, Assignment};
use crate::model::Model;
use crate::partition::{
    ids_of, ids_outcome, nearest_id_outcome, nearest_outcome, norms_outcome, partitions_outcome,
};
use crate::scalar::ArrowFloatType;
use crate::tiles::{
    l2_incomparable_outcome, l2_nearest_outcome, l2_partitions_outcome, l2_row_count,
};
use crate::training::{
    follows, is_done, mean_after, model_after, run_outcome, stddev_after, steps_outcome, Step,
};

verus! {

/// Known lengths of vectors are not asked for but by the cosine distance.
pub proof fn law_lengths_are_not_asked_for<T: ArrowFloatType>(
    model: Model<T::Native>,
    data: Seq<T::Native>,
    norm_data: Option<Seq<Float32>>,
    r: Option<Assignment<T::Native>>,
)
    requires
        !(model.metric_type is Cosine),
        membership_outcome::<T>(model, data, norm_data, r),
    ensures
        membership_outcome::<T>(model, data, None, r),
{
    let n = data.len() as int / model.dimension;
    let norms = choose|norms: Seq<Float32>|
        {
            &&& #[trigger] centroid_norms_outcome::<T>(model, norms)
            &&& match r {
                Some(a) => {
                    &&& a.data == data
                    &&& a.dimension == model.dimension
                    &&& a.k == model.k
                    &&& a.metric_type == model.metric_type
                    &&& rows_outcome::<T>(model, data, norm_data, norms, 0, n, Some(a.parts))
                },
                None => rows_outcome::<T>(model, data, norm_data, norms, 0, n, None),
            }
        };
    match r {
        Some(a) => {
            assert forall|i: int| 0 <= i < a.parts.len() implies row_outcome::<T>(
                model,
                data,
                None,
                norms,
                0 + i,
                #[trigger] a.parts[i],
            ) by {
                assert(row_outcome::<T>(model, data, norm_data, norms, 0 + i, a.parts[i]));
            }
            assert(rows_outcome::<T>(model, data, None, norms, 0, n, Some(a.parts)));
        },
        None => {
            let i = choose|i: int|
                0 <= i < n && #[trigger] row_fails::<T>(model, data, norm_data, norms, i);
            assert(row_fails::<T>(model, data, None, norms, i));
            assert(rows_outcome::<T>(model, data, None, norms, 0, n, None));
        },
    }
}

/// The membership with the given clusters.
pub open spec fn assignment_of<N>(
    model: Model<N>,
    data: Seq<N>,
    parts: Seq<(u32, Float32)>,
) -> Assignment<N> {
    Assignment {
        data,
        dimension: model.dimension,
        parts,
        k: model.k,
        metric_type: model.metric_type,
    }
}

/// Where vectors lie that are put behind whole vectors.
pub proof fn lemma_joined_vectors<N>(front: Seq<N>, back: Seq<N>, dim: int)
    requires
        dim > 0,
        front.len() as int % dim == 0,
    ensures
        (front + back).len() as int / dim == front.len() as int / dim + back.len() as int / dim,
        chunk_count((front + back).len() as int, dim) == front.len() as int / dim + chunk_count(
            back.len() as int,
            dim,
        ),
        chunk_count(front.len() as int, dim) == front.len() as int / dim,
        0 <= front.len() as int / dim,
        0 <= back.len() as int / dim,
        forall|i: int|
            0 <= i < front.len() as int / dim ==> {
                &&& #[trigger] row(front + back, dim, i) == row(front, dim, i)
                &&& chunk(front + back, dim, i) == chunk(front, dim, i)
            },
        forall|i: int|
            0 <= i < chunk_count(back.len() as int, dim) ==> #[trigger] chunk(back, dim, i)
                == chunk(front + back, dim, front.len() as int / dim + i),
        forall|i: int|
            0 <= i < back.len() as int / dim ==> #[trigger] row(back, dim, i) == row(
                front + back,
                dim,
                front.len() as int / dim + i,
            ),
{
    let whole = front + back;
    let n = front.len() as int / dim;
    let m = back.len() as int / dim;
    vstd::arithmetic::div_mod::lemma_fundamental_div_mod(front.len() as int, dim);
    vstd::arithmetic::div_mod::lemma_fundamental_div_mod(back.len() as int, dim);
    vstd::arithmetic::div_mod::lemma_mod_bound(back.len() as int, dim);
    vstd::arithmetic::div_mod::lemma_div_pos_is_pos(front.len() as int, dim);
    vstd::arithmetic::div_mod::lemma_div_pos_is_pos(back.len() as int, dim);
    assert(whole.len() == (n + m) * dim + back.len() as int % dim) by (nonlinear_arith)
        requires
            whole.len() == front.len() + back.len(),
            front.len() == dim * n,
            back.len() == dim * m + back.len() as int % dim,
    ;
    vstd::arithmetic::div_mod::lemma_fundamental_div_mod_converse(
        whole.len() as int,
        dim,
        n + m,
        back.len() as int % dim,
    );
    assert(n * dim == front.len()) by (nonlinear_arith)
        requires
            front.len() == dim * n,
    ;
    assert forall|i: int| 0 <= i < n implies {
        &&& #[trigger] row(whole, dim, i) == row(front, dim, i)
        &&& chunk(whole, dim, i) == chunk(front, dim, i)
    } by {
        lemma_chunk_bounds(front.len() as int, dim, i);
        assert(row(whole, dim, i) =~= row(front, dim, i));
        assert(chunk(whole, dim, i) =~= chunk(front, dim, i));
    }
    assert forall|i: int| 0 <= i < chunk_count(back.len() as int, dim) implies #[trigger] chunk(
        back,
        dim,
        i,
    ) == chunk(whole, dim, n + i) by {
        lemma_chunk_bounds(back.len() as int, dim, i);
        assert((n + i) * dim == n * dim + i * dim) by (nonlinear_arith);
        assert((n + i + 1) * dim == n * dim + (i + 1) * dim) by (nonlinear_arith);
        assert(chunk(back, dim, i) =~= chunk(whole, dim, n + i));
    }
    assert forall|i: int| 0 <= i < m implies #[trigger] row(back, dim, i) == row(
        whole,
        dim,
        n + i,
    ) by {
        lemma_chunk_bounds(back.len() as int, dim, i);
        assert((n + i) * dim == n * dim + i * dim) by (nonlinear_arith);
        assert((n + i + 1) * dim == n * dim + (i + 1) * dim) by (nonlinear_arith);
        assert(row(back, dim, i) =~= row(whole, dim, n + i));
    }
}

/// The membership of vectors that follow other vectors, taken apart between
/// them, is a membership of each.
pub proof fn law_membership_splits<T: ArrowFloatType>(
    model: Model<T::Native>,
    front: Seq<T::Native>,
    back: Seq<T::Native>,
    r: Option<Assignment<T::Native>>,
)
    requires
        model.dimension > 0,
        front.len() as int % model.dimension == 0,
        membership_outcome::<T>(model, front + back, None, r),
    ensures
        match r {
            Some(a) => {
                let n = front.len() as int / model.dimension;
                &&& 0 <= n <= a.parts.len()
                &&& membership_outcome::<T>(
                    model,
                    front,
                    None,
                    Some(assignment_of(model, front, a.parts.take(n))),
                )
                &&& membership_outcome::<T>(
                    model,
                    back,
                    None,
                    Some(assignment_of(model, back, a.parts.skip(n))),
                )
            },
            None => membership_outcome::<T>(model, front, None, None) || membership_outcome::<T>(
                model,
                back,
                None,
                None,
            ),
        },
{
    let dim = model.dimension;
    let whole = front + back;
    let n = front.len() as int / dim;
    let m = back.len() as int / dim;
    lemma_joined_vectors(front, back, dim);
    let norms = choose|norms: Seq<Float32>|
        {
            &&& #[trigger] centroid_norms_outcome::<T>(model, norms)
            &&& match r {
                Some(a) => rows_outcome::<T>(model, whole, None, norms, 0, n + m, Some(a.parts)),
                None => rows_outcome::<T>(model, whole, None, norms, 0, n + m, None),
            }
        };
    match r {
        Some(a) => {
            let first = a.parts.take(n);
            let second = a.parts.skip(n);
            assert forall|i: int| 0 <= i < first.len() implies row_outcome::<T>(
                model,
                front,
                None,
                norms,
                0 + i,
                #[trigger] first[i],
            ) by {
                assert(row_outcome::<T>(model, whole, None, norms, 0 + i, a.parts[i]));
                assert(row(whole, dim, i) == row(front, dim, i));
            }
            assert forall|i: int| 0 <= i < second.len() implies row_outcome::<T>(
                model,
                back,
                None,
                norms,
                0 + i,
                #[trigger] second[i],
            ) by {
                assert(row_outcome::<T>(model, whole, None, norms, 0 + (n + i), a.parts[n + i]));
                assert(row(back, dim, i) == row(whole, dim, n + i));
            }
            assert(rows_outcome::<T>(model, front, None, norms, 0, n, Some(first)));
            assert(rows_outcome::<T>(model, back, None, norms, 0, m, Some(second)));
        },
        None => {
            let i = choose|i: int|
                0 <= i < n + m && #[trigger] row_fails::<T>(model, whole, None, norms, i);
            if i < n {
                assert(row(whole, dim, i) == row(front, dim, i));
                assert(row_fails::<T>(model, front, None, norms, i));
                assert(rows_outcome::<T>(model, front, None, norms, 0, n, None));
            } else {
                assert(row(back, dim, i - n) == row(whole, dim, n + (i - n)));
                assert(row_fails::<T>(model, back, None, norms, i - n));
                assert(rows_outcome::<T>(model, back, None, norms, 0, m, None));
            }
        },
    }
}

/// The places of vectors that follow other vectors, taken apart between them,
/// are places of each.
pub proof fn law_partition_splits<T: ArrowFloatType>(
    metric_type: MetricType,
    centroids: Seq<T::Native>,
    front: Seq<T::Native>,
    back: Seq<T::Native>,
    dim: int,
    r: Option<Seq<u32>>,
)
    requires
        dim > 0,
        front.len() as int % dim == 0,
        partitions_outcome::<T>(metric_type, centroids, front + back, dim, r),
    ensures
        match r {
            Some(ids) => {
                let n = front.len() as int / dim;
                &&& 0 <= n <= ids.len()
                &&& partitions_outcome::<T>(metric_type, centroids, front, dim, Some(ids.take(n)))
                &&& partitions_outcome::<T>(metric_type, centroids, back, dim, Some(ids.skip(n)))
            },
            None => partitions_outcome::<T>(metric_type, centroids, front, dim, None)
                || partitions_outcome::<T>(metric_type, centroids, back, dim, None),
        },
{
    match metric_type {
        MetricType::L2 => {
            lemma_l2_partition_splits::<T>(centroids, front, back, dim, r);
        },
        MetricType::Dot => {
            lemma_ids_split::<T>(
                metric_type,
                centroids,
                front,
                back,
                dim,
                Seq::<Float32>::empty(),
                r,
            );
        },
        MetricType::Cosine => {
            let norms = choose|norms: Seq<Float32>|
                {
                    &&& norms.len() == chunk_count(centroids.len() as int, dim)
                    &&& #[trigger] norms_outcome::<T>(centroids, dim, norms)
                    &&& ids_outcome::<T>(metric_type, centroids, front + back, dim, norms, r)
                };
            lemma_ids_split::<T>(metric_type, centroids, front, back, dim, norms, r);
        },
    }
}

proof fn lemma_l2_partition_splits<T: ArrowFloatType>(
    centroids: Seq<T::Native>,
    front: Seq<T::Native>,
    back: Seq<T::Native>,
    dim: int,
    r: Option<Seq<u32>>,
)
    requires
        dim > 0,
        front.len() as int % dim == 0,
        partitions_outcome::<T>(MetricType::L2, centroids, front + back, dim, r),
    ensures
        match r {
            Some(ids) => {
                let n = front.len() as int / dim;
                &&& 0 <= n <= ids.len()
                &&& partitions_outcome::<T>(
                    MetricType::L2,
                    centroids,
                    front,
                    dim,
                    Some(ids.take(n)),
                )
                &&& partitions_outcome::<T>(
                    MetricType::L2,
                    centroids,
                    back,
                    dim,
                    Some(ids.skip(n)),
                )
            },
            None => partitions_outcome::<T>(MetricType::L2, centroids, front, dim, None)
                || partitions_outcome::<T>(MetricType::L2, centroids, back, dim, None),
        },
{
    let whole = front + back;
    let n = front.len() as int / dim;
    lemma_joined_vectors(front, back, dim);
    match r {
        Some(ids) => {
            let parts = choose|parts: Seq<(u32, Float32)>| #[trigger]
                l2_partitions_outcome::<T>(centroids, whole, dim, Some(parts)) && ids == ids_of(
                    parts,
                );
            let first = parts.take(n);
            let second = parts.skip(n);
            assert(l2_row_count(centroids, whole, dim) == n + l2_row_count(centroids, back, dim));
            assert forall|i: int| 0 <= i < first.len() implies l2_nearest_outcome::<T>(
                chunk(front, dim, i),
                centroids,
                dim,
                #[trigger] first[i],
            ) by {
                assert(l2_nearest_outcome::<T>(chunk(whole, dim, i), centroids, dim, parts[i]));
                assert(row(whole, dim, i) == row(front, dim, i));
            }
            assert forall|i: int| 0 <= i < second.len() implies l2_nearest_outcome::<T>(
                chunk(back, dim, i),
                centroids,
                dim,
                #[trigger] second[i],
            ) by {
                assert(l2_nearest_outcome::<T>(
                    chunk(whole, dim, n + i),
                    centroids,
                    dim,
                    parts[n + i],
                ));
            }
            assert(l2_partitions_outcome::<T>(centroids, front, dim, Some(first)));
            assert(l2_partitions_outcome::<T>(centroids, back, dim, Some(second)));
            assert(ids.take(n) =~= ids_of(first));
            assert(ids.skip(n) =~= ids_of(second));
        },
        None => {
            let i = choose|i: int|
                0 <= i < whole.len() as int / dim && l2_incomparable_outcome::<T>(
                    #[trigger] chunk(whole, dim, i),
                    centroids,
                    dim,
                );
            if i < n {
                assert(row(whole, dim, i) == row(front, dim, i));
                assert(l2_incomparable_outcome::<T>(chunk(front, dim, i), centroids, dim));
                assert(l2_partitions_outcome::<T>(centroids, front, dim, None));
            } else {
                assert(chunk(back, dim, i - n) == chunk(whole, dim, n + (i - n)));
                assert(l2_partitions_outcome::<T>(centroids, back, dim, None));
            }
        },
    }
}

proof fn lemma_ids_split<T: ArrowFloatType>(
    metric_type: MetricType,
    centroids: Seq<T::Native>,
    front: Seq<T::Native>,
    back: Seq<T::Native>,
    dim: int,
    norms: Seq<Float32>,
    r: Option<Seq<u32>>,
)
    requires
        dim > 0,
        front.len() as int % dim == 0,
        ids_outcome::<T>(metric_type, centroids, front + back, dim, norms, r),
    ensures
        match r {
            Some(ids) => {
                let n = front.len() as int / dim;
                &&& 0 <= n <= ids.len()
                &&& ids_outcome::<T>(metric_type, centroids, front, dim, norms, Some(ids.take(n)))
                &&& ids_outcome::<T>(metric_type, centroids, back, dim, norms, Some(ids.skip(n)))
            },
            None => ids_outcome::<T>(metric_type, centroids, front, dim, norms, None)
                || ids_outcome::<T>(metric_type, centroids, back, dim, norms, None),
        },
{
    let whole = front + back;
    let n = front.len() as int / dim;
    let count = chunk_count(centroids.len() as int, dim);
    lemma_joined_vectors(front, back, dim);
    match r {
        Some(ids) => {
            let first = ids.take(n);
            let second = ids.skip(n);
            assert forall|i: int| 0 <= i < first.len() implies nearest_id_outcome::<T>(
                metric_type,
                chunk(front, dim, i),
                centroids,
                dim,
                count,
                norms,
                #[trigger] first[i],
            ) by {
                assert(first[i] == ids[i]);
                assert(row(whole, dim, i) == row(front, dim, i));
            }
            assert forall|i: int| 0 <= i < second.len() implies nearest_id_outcome::<T>(
                metric_type,
                chunk(back, dim, i),
                centroids,
                dim,
                count,
                norms,
                #[trigger] second[i],
            ) by {
                assert(second[i] == ids[n + i]);
                assert(chunk(back, dim, i) == chunk(whole, dim, n + i));
            }
        },
        None => {
            let i = choose|i: int|
                0 <= i < chunk_count(whole.len() as int, dim) && nearest_outcome::<T>(
                    metric_type,
                    #[trigger] chunk(whole, dim, i),
                    None,
                    centroids,
                    dim,
                    count,
                    norms,
                    None,
                );
            if i < n {
                assert(row(whole, dim, i) == row(front, dim, i));
                assert(chunk(front, dim, i) == chunk(whole, dim, i));
            } else {
                assert(chunk(back, dim, i - n) == chunk(whole, dim, n + (i - n)));
            }
        },
    }
}

/// Distances do not enter the means: the same vectors in the same clusters have
/// the same means.
pub proof fn law_distances_do_not_enter_means<T: ArrowFloatType>(
    a: Assignment<T::Native>,
    b: Assignment<T::Native>,
    m: Model<T::Native>,
)
    requires
        a.data == b.data,
        a.dimension == b.dimension,
        a.k == b.k,
        a.metric_type == b.metric_type,
        ids_of(a.parts) == ids_of(b.parts),
    ensures
        means_outcome::<T>(a, m) == means_outcome::<T>(b, m),
{
    assert(ids_of(a.parts).len() == a.parts.len());
    assert(ids_of(b.parts).len() == b.parts.len());
    assert forall|c: int, j: int|
        #![trigger column(a.data, a.dimension, a.parts, a.member_count(), c, j)]
        #![trigger column(b.data, b.dimension, b.parts, b.member_count(), c, j)]
        column(a.data, a.dimension, a.parts, a.member_count(), c, j) == column(
            b.data,
            b.dimension,
            b.parts,
            b.member_count(),
            c,
            j,
        ) by {
        lemma_column_of_ids(a.data, a.dimension, a.parts, b.parts, a.member_count(), c, j);
    }
}

proof fn lemma_column_of_ids<N>(
    data: Seq<N>,
    dim: int,
    parts: Seq<(u32, Float32)>,
    others: Seq<(u32, Float32)>,
    n: int,
    c: int,
    j: int,
)
    requires
        ids_of(parts) == ids_of(others),
        n <= parts.len(),
    ensures
        column(data, dim, parts, n, c, j) == column(data, dim, others, n, c, j),
    decreases n,
{
    if n > 0 {
        lemma_column_of_ids(data, dim, parts, others, n - 1, c, j);
        assert(ids_of(parts).len() == parts.len());
        assert(ids_of(others).len() == others.len());
        assert(ids_of(parts)[n - 1] == parts[n - 1].0);
        assert(ids_of(others)[n - 1] == others[n - 1].0);
    }
}

/// Whether no difference of mean distances is less than the tolerance.
pub open spec fn is_never_met(tolerance: Float64) -> bool {
    tolerance.is_nan() || tolerance.rank() <= 0
}

/// With a tolerance that is never met, a run can be split at any iteration: what
/// it ends with is what a run ends with that goes on from there.
pub proof fn law_run_splits<T: ArrowFloatType>(
    start: Model<T::Native>,
    data: Seq<T::Native>,
    first: int,
    second: int,
    tolerance: Float64,
    run: (Model<T::Native>, Float32),
)
    requires
        is_never_met(tolerance),
        0 <= first,
        0 < second,
        run_outcome::<T>(start, data, first + second, tolerance, run),
    ensures
        exists|middle: (Model<T::Native>, Float32)|
            {
                &&& #[trigger] run_outcome::<T>(start, data, first, tolerance, middle)
                &&& run_outcome::<T>(middle.0, data, second, tolerance, run)
            },
{
    let steps = choose|steps: Seq<Step<T::Native>>|
        {
            &&& #[trigger] steps_outcome::<T>(start, data, tolerance, steps)
            &&& steps.len() <= first + second
            &&& steps.len() == first + second || is_done(steps)
            &&& run.0 == model_after(start, steps, steps.len() as int)
            &&& run.1 == stddev_after(steps, steps.len() as int)
        };
    if steps.len() > 0 {
        assert(follows::<T>(start, data, tolerance, steps, steps.len() - 1));
    }
    assert(steps.len() == first + second);
    let front = steps.take(first);
    let back = steps.skip(first);
    assert forall|i: int| 0 <= i < front.len() implies #[trigger] follows::<T>(
        start,
        data,
        tolerance,
        front,
        i,
    ) by {
        assert(follows::<T>(start, data, tolerance, steps, i));
        assert(model_after(start, front, i) == model_after(start, steps, i));
        assert(mean_after(front, i) == mean_after(steps, i));
    }
    assert(steps_outcome::<T>(start, data, tolerance, front));
    let middle = (model_after(start, front, first), stddev_after(front, first));
    assert(run_outcome::<T>(start, data, first, tolerance, middle));
    assert forall|i: int| 0 <= i < back.len() implies #[trigger] follows::<T>(
        middle.0,
        data,
        tolerance,
        back,
        i,
    ) by {
        assert(follows::<T>(start, data, tolerance, steps, first + i));
        assert(back[i] == steps[first + i]);
        assert(model_after(middle.0, back, i) == model_after(start, steps, first + i));
        if i > 0 {
            assert(mean_after(back, i) == mean_after(steps, first + i));
        }
    }
    assert(steps_outcome::<T>(middle.0, data, tolerance, back));
    assert(run_outcome::<T>(middle.0, data, second, tolerance, run));
}

} // verus!
