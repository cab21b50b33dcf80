//! What the functions of the library promise.
//!
//! The laws here are about calls: they relate what goes in to what comes out.

use arrow_array::FixedSizeListArray;
use rand::rngs::SmallRng;

use vstd::prelude::*;

use crate::array::{list_is_floating, list_len, list_value_length};
use crate::clusters::{
    belongs, count_of, is_quotient_exact, law_centroid_is_mean_of_members,
    law_deviation_is_root_of_mean_square, law_distance_sum, law_histogram_counts,
    law_mean_distance_times_count,
};
use crate::distance::MetricType;
use crate::error::Error;
use crate::exact::{
    is_coordinate_exact, is_double_exact, is_l2_exact, is_single_exact, squared_distance, Values,
};
use crate::float::{Float32, Float64};
use crate::history::may_compare;
use crate::kernels::argmin;
use crate::matrix::MatrixView;
use crate::measures::{is_first_smallest, is_none_below, law_lengths_are_measured_in_place};
use crate::membership::KMeanMembership;
use crate::model::{KMeans, Model};
use crate::nearest::{
    is_dot_exact, is_known_cosine_exact, law_member_by_cosine_has_largest_cosine,
    law_member_by_dot_has_largest_product, law_member_by_l2_is_nearest,
    law_partition_by_cosine_has_largest_cosine, law_partition_by_dot_has_largest_product,
    law_partition_by_l2_is_nearest, lemma_chunk_is_vector, lemma_membership_row, lemma_same_root,
    vector,
};
use crate::partition::compute_partitions;
use crate::reals::{lemma_sum_same, square, sum_to};
use crate::requests::{
    is_accepted, is_drawn, is_pick, is_refusal, law_best_run_is_picked,
    law_drawn_centroids_are_vectors, law_preparation_answers, law_training_answers,
    law_training_starts_from_given_centroids, may_start,
};
use crate::scalar::ArrowFloatType;
use crate::scaling::{inner_product, is_cosine_exact, lemma_norm_exact, squared_length};
use crate::steps::{law_iteration_measures_rows_for_cosine, law_run_advances_by_one};
use crate::training::{
    models_of, run_outcome, start_outcome, training_outcome, Best, KMeanInit, KMeansParams, Run,
};
use crate::wording::{is_written, law_too_few_points_are_told};

verus! {

/// By inner product, [`compute_partitions`] gives each vector the first of the
/// centroids that have the largest inner product with it.
pub proof fn law_compute_partitions_by_dot<T: ArrowFloatType>(
    v: Values<T::Native>,
    centroids: &[T::Native],
    data: &[T::Native],
    dimension: usize,
    ids: Vec<u32>,
    i: int,
    c: int,
)
    requires
        is_single_exact::<T>(v.single),
        is_dot_exact::<T>(v),
        dimension > 0,
        centroids@.len() as int % dimension as int == 0,
        call_ensures(
            compute_partitions::<T>,
            (centroids, data, dimension, MetricType::Dot),
            Some(ids),
        ),
        0 <= i < data@.len() as int / dimension as int,
        0 <= c < centroids@.len() as int / dimension as int,
    ensures
        i < ids@.len(),
        ids@[i] < centroids@.len() as int / dimension as int,
        inner_product(
            v.coordinate,
            vector(data@, dimension as int, i),
            vector(centroids@, dimension as int, c),
        ) <= inner_product(
            v.coordinate,
            vector(data@, dimension as int, i),
            vector(centroids@, dimension as int, ids@[i] as int),
        ),
        c < ids@[i] ==> inner_product(
            v.coordinate,
            vector(data@, dimension as int, i),
            vector(centroids@, dimension as int, c),
        ) < inner_product(
            v.coordinate,
            vector(data@, dimension as int, i),
            vector(centroids@, dimension as int, ids@[i] as int),
        ),
{
    law_partition_by_dot_has_largest_product::<T>(
        v,
        centroids@,
        data@,
        dimension as int,
        ids@,
        i,
        c,
    );
}

/// By cosine distance, [`compute_partitions`] gives each vector the first of the
/// centroids whose inner product with it, divided by both lengths, is largest.
/// `p` is the length of that centroid, `q` that of any other; the length of the
/// vector divides both sides.
pub proof fn law_compute_partitions_by_cosine<T: ArrowFloatType>(
    v: Values<T::Native>,
    centroids: &[T::Native],
    data: &[T::Native],
    dimension: usize,
    ids: Vec<u32>,
    i: int,
    length: real,
    c: int,
    p: real,
    q: real,
)
    requires
        is_single_exact::<T>(v.single),
        is_cosine_exact::<T>(v),
        dimension > 0,
        centroids@.len() as int % dimension as int == 0,
        forall|j: int|
            0 <= j < centroids@.len() as int / dimension as int ==> squared_length(
                v.coordinate,
                #[trigger] vector(centroids@, dimension as int, j),
            ) != 0 as real,
        call_ensures(
            compute_partitions::<T>,
            (centroids, data, dimension, MetricType::Cosine),
            Some(ids),
        ),
        0 <= i < data@.len() as int / dimension as int,
        (0 as real) <= length,
        square(length) == squared_length(v.coordinate, vector(data@, dimension as int, i)),
        square(length) != 0 as real,
        0 <= c < centroids@.len() as int / dimension as int,
        (0 as real) <= p,
        (0 as real) <= q,
        square(p) == squared_length(
            v.coordinate,
            vector(centroids@, dimension as int, ids@[i] as int),
        ),
        square(q) == squared_length(v.coordinate, vector(centroids@, dimension as int, c)),
    ensures
        i < ids@.len(),
        ids@[i] < centroids@.len() as int / dimension as int,
        inner_product(
            v.coordinate,
            vector(data@, dimension as int, i),
            vector(centroids@, dimension as int, c),
        ) * p <= inner_product(
            v.coordinate,
            vector(data@, dimension as int, i),
            vector(centroids@, dimension as int, ids@[i] as int),
        ) * q,
        c < ids@[i] ==> inner_product(
            v.coordinate,
            vector(data@, dimension as int, i),
            vector(centroids@, dimension as int, c),
        ) * p < inner_product(
            v.coordinate,
            vector(data@, dimension as int, i),
            vector(centroids@, dimension as int, ids@[i] as int),
        ) * q,
{
    law_partition_by_cosine_has_largest_cosine::<T>(
        v,
        centroids@,
        data@,
        dimension as int,
        ids@,
        i,
        length,
        c,
        p,
        q,
    );
}

/// By squared Euclidean distance, [`compute_partitions`] gives each vector the
/// first of the centroids that are nearest to it.
pub proof fn law_compute_partitions_by_l2<T: ArrowFloatType>(
    v: Values<T::Native>,
    centroids: &[T::Native],
    data: &[T::Native],
    dimension: usize,
    ids: Vec<u32>,
    i: int,
    c: int,
)
    requires
        is_single_exact::<T>(v.single),
        is_l2_exact::<T>(v),
        dimension > 0,
        call_ensures(
            compute_partitions::<T>,
            (centroids, data, dimension, MetricType::L2),
            Some(ids),
        ),
        0 <= i < data@.len() as int / dimension as int,
        0 <= c < centroids@.len() as int / dimension as int,
    ensures
        i < ids@.len(),
        ids@[i] < centroids@.len() as int / dimension as int,
        squared_distance(
            v,
            vector(data@, dimension as int, i),
            vector(centroids@, dimension as int, ids@[i] as int),
        ) <= squared_distance(
            v,
            vector(data@, dimension as int, i),
            vector(centroids@, dimension as int, c),
        ),
        c < ids@[i] ==> squared_distance(
            v,
            vector(data@, dimension as int, i),
            vector(centroids@, dimension as int, ids@[i] as int),
        ) < squared_distance(
            v,
            vector(data@, dimension as int, i),
            vector(centroids@, dimension as int, c),
        ),
{
    law_partition_by_l2_is_nearest::<T>(
        v,
        centroids@,
        data@,
        dimension as int,
        ids@,
        i,
        c,
    );
}

/// [`KMeanMembership::distance_sum`] is the sum of the distances of all vectors,
/// and [`KMeanMembership::mean_distance`], times their number, is that too.
pub proof fn law_mean_distance_of_all_vectors<T: ArrowFloatType>(
    v: Values<T::Native>,
    membership: &KMeanMembership<T>,
    sum: Float64,
    mean: Float64,
)
    requires
        is_double_exact::<T>(v.single, v.double),
        is_quotient_exact::<T>(v.double),
        0 < membership.cluster_id_and_distances@.len() <= usize::MAX,
        call_ensures(KMeanMembership::<T>::distance_sum, (membership,), sum),
        call_ensures(KMeanMembership::<T>::mean_distance, (membership,), mean),
    ensures
        (v.double)(sum) == sum_to(
            membership.cluster_id_and_distances@.len() as int,
            |i: int| (v.single)(membership.cluster_id_and_distances@[i].1),
        ),
        (v.double)(mean) * membership.cluster_id_and_distances@.len() as int as real == sum_to(
            membership.cluster_id_and_distances@.len() as int,
            |i: int| (v.single)(membership.cluster_id_and_distances@[i].1),
        ),
{
    let parts = membership.cluster_id_and_distances@;
    law_distance_sum::<T>(v.single, v.double, parts, sum);
    law_mean_distance_times_count::<T>(v.single, v.double, parts, mean);
}

/// [`KMeanMembership::histogram`] counts the vectors of each cluster, and
/// [`KMeanMembership::hist_stddev`] is the root of the mean of the squared
/// differences of these counts to their mean.
pub proof fn law_histogram_and_deviation<T: ArrowFloatType>(
    v: Values<T::Native>,
    membership: &KMeanMembership<T>,
    average: real,
    hist: Vec<usize>,
    stddev: Float32,
    c: int,
)
    requires
        is_single_exact::<T>(v.single),
        membership.k > 0,
        membership.cluster_id_and_distances@.len() <= usize::MAX,
        average * membership.k as int as real
            == membership.cluster_id_and_distances@.len() as int as real,
        call_ensures(KMeanMembership::<T>::histogram, (membership,), hist),
        call_ensures(KMeanMembership::<T>::hist_stddev, (membership,), stddev),
        0 <= c < membership.k,
    ensures
        hist@.len() == membership.k,
        hist@[c] as int == count_of(membership.cluster_id_and_distances@, c),
        (v.single)(stddev) >= 0 as real,
        square((v.single)(stddev)) * membership.k as int as real == sum_to(
            membership.k as int,
            |d: int|
                square(count_of(membership.cluster_id_and_distances@, d) as real - average),
        ),
{
    let parts = membership.cluster_id_and_distances@;
    law_histogram_counts(parts, membership.k as int, c);
    law_deviation_is_root_of_mean_square::<T>(v.single, parts, membership.k, average, stddev);
}

/// [`KMeanMembership::to_kmeans`] moves each centroid to the mean of the vectors
/// of its cluster: in each coordinate, times their number, it is their sum.
pub proof fn law_to_kmeans_takes_means<T: ArrowFloatType>(
    v: Values<T::Native>,
    membership: &KMeanMembership<T>,
    m: KMeans<T>,
    c: int,
    j: int,
)
    requires
        is_coordinate_exact::<T>(v.coordinate),
        membership.dimension > 0,
        membership.cluster_id_and_distances@.len() == membership.data@.len() as int
            / membership.dimension as int,
        membership.data@.len() <= u64::MAX,
        call_ensures(KMeanMembership::<T>::to_kmeans, (membership,), m),
        0 <= c < membership.k,
        0 <= j < membership.dimension,
    ensures
        m.k == membership.k,
        m.dimension == membership.dimension,
        m.metric_type == membership.metric_type,
        m.centroids@.len() == membership.k * membership.dimension,
        (v.coordinate)(m.centroids@[c * membership.dimension + j]) * sum_to(
            membership.cluster_id_and_distances@.len() as int,
            |i: int| belongs(membership.cluster_id_and_distances@, i, c),
        ) == sum_to(
            membership.cluster_id_and_distances@.len() as int,
            |i: int|
                if membership.cluster_id_and_distances@[i].0 as int == c {
                    (v.coordinate)(membership.data@[i * membership.dimension + j])
                } else {
                    0 as real
                },
        ),
{
    let n = membership.cluster_id_and_distances@.len() as int;
    vstd::arithmetic::div_mod::lemma_div_nonincreasing(
        membership.data@.len() as int,
        membership.dimension as int,
    );
    law_centroid_is_mean_of_members::<T>(v, membership@, m@, n, c, j);
    let dim = membership.dimension as int;
    assert(membership@.dimension == dim);
    let f = |i: int|
        if membership@.parts[i].0 as int == c {
            (v.coordinate)(membership@.data[i * membership@.dimension + j])
        } else {
            0 as real
        };
    let g = |i: int|
        if membership.cluster_id_and_distances@[i].0 as int == c {
            (v.coordinate)(membership.data@[i * membership.dimension + j])
        } else {
            0 as real
        };
    lemma_sum_same(n, f, g);
    lemma_sum_same(
        n,
        |i: int| belongs(membership@.parts, i, c),
        |i: int| belongs(membership.cluster_id_and_distances@, i, c),
    );
}

/// [`KMeans::new`] trains by squared Euclidean distance whatever the number of
/// iterations, in one run from random centroids, up to a tolerance of 1e-4.
pub proof fn law_new_trains_by_l2<T: ArrowFloatType>(
    data: &FixedSizeListArray,
    k: usize,
    max_iters: u32,
    r: Result<KMeans<T>, Error>,
)
    requires
        call_ensures(KMeans::<T>::new, (data, k, max_iters), r),
    ensures
        training_outcome(
            *data,
            k,
            (KMeansParams::<T> {
                max_iters,
                tolerance: Float64 { bits: 0x3f1a_36e2_eb1c_432d },
                redos: 1,
                init: KMeanInit::Random,
                metric_type: MetricType::L2,
                centroids: None,
            }),
            r,
        ),
        r matches Ok(m) ==> {
            &&& m.metric_type == MetricType::L2
            &&& m.k == k
            &&& m.dimension == list_value_length(*data)
        },
{
}

/// Default parameters ask for at most 50 iterations, a tolerance of 1e-4, and one
/// run from random centroids by squared Euclidean distance.
pub proof fn law_default_parameters<T: ArrowFloatType>(r: KMeansParams<T>)
    requires
        call_ensures(KMeansParams::<T>::default, (), r),
    ensures
        r.max_iters == 50,
        r.tolerance.bits == 0x3f1a_36e2_eb1c_432d,
        r.redos == 1,
        r.init == KMeanInit::Random,
        r.metric_type == MetricType::L2,
        r.centroids is None,
{
}

/// A model that [`KMeans::new_with_params`] gives has the shape that is asked
/// for. Where centroids are given, it is where a run ends that starts from
/// exactly these, on the values of the column.
pub proof fn law_new_with_params_starts_from_given_centroids<T: ArrowFloatType>(
    data: &FixedSizeListArray,
    k: usize,
    params: &KMeansParams<T>,
    centroids: Seq<T::Native>,
    m: KMeans<T>,
) -> (r: (Vec<T::Native>, Float32))
    requires
        params.redos > 0,
        params.centroids matches Some(c) && c@ == centroids,
        call_ensures(KMeans::<T>::new_with_params, (data, k, params), Ok(m)),
    ensures
        m.k == k,
        m.metric_type == params.metric_type,
        m.dimension == list_value_length(*data),
        call_ensures(T::list_values, (data,), Some(r.0)),
        run_outcome::<T>(
            (Model {
                centroids,
                dimension: list_value_length(*data),
                k: k as int,
                metric_type: params.metric_type,
            }),
            r.0@,
            params.max_iters as int,
            params.tolerance,
            (m@, r.1),
        ),
{
    let values = law_training_answers(*data, k, *params, Ok(m));
    let v = values->Some_0;
    let stddev = law_training_starts_from_given_centroids(
        *params,
        v@,
        list_value_length(*data),
        k as int,
        centroids,
        m@,
    );
    (v, stddev)
}

/// A model that [`KMeans::train`] gives where centroids are given is where a run
/// ends that starts from exactly these.
pub proof fn law_train_starts_from_given_centroids<T: ArrowFloatType>(
    data: &MatrixView<T>,
    k: usize,
    params: &KMeansParams<T>,
    rng: SmallRng,
    centroids: Seq<T::Native>,
    m: KMeans<T>,
) -> (stddev: Float32)
    requires
        params.redos > 0,
        params.centroids matches Some(c) && c@ == centroids,
        call_ensures(KMeans::<T>::train, (data, k, params, rng), Some(m)),
    ensures
        run_outcome::<T>(
            (Model {
                centroids,
                dimension: data.num_columns as int,
                k: k as int,
                metric_type: params.metric_type,
            }),
            data.data@,
            params.max_iters as int,
            params.tolerance,
            (m@, stddev),
        ),
{
    law_training_starts_from_given_centroids(
        *params,
        data.data@,
        data.num_columns as int,
        k as int,
        centroids,
        m@,
    )
}

/// [`KMeans::train_from`] runs from each of the given models, and picks the most
/// balanced run.
pub proof fn law_train_from_picks_best_run<T: ArrowFloatType>(
    data: &MatrixView<T>,
    starts: &Vec<KMeans<T>>,
    max_iters: u32,
    tolerance: Float64,
    m: KMeans<T>,
) -> (runs: Seq<(Model<T::Native>, Float32)>)
    requires
        starts@.len() > 0,
        call_ensures(KMeans::<T>::train_from, (data, starts, max_iters, tolerance), Some(m)),
    ensures
        runs.len() == starts@.len(),
        forall|i: int|
            0 <= i < starts@.len() ==> run_outcome::<T>(
                (#[trigger] starts@[i])@,
                data.data@,
                max_iters as int,
                tolerance,
                runs[i],
            ),
        is_pick(runs, m@),
{
    let models = models_of(starts@);
    let runs = law_best_run_is_picked::<T>(models, data.data@, max_iters as int, tolerance, m@);
    assert forall|i: int| 0 <= i < starts@.len() implies run_outcome::<T>(
        (#[trigger] starts@[i])@,
        data.data@,
        max_iters as int,
        tolerance,
        runs[i],
    ) by {
        assert(models[i] == starts@[i]@);
    }
    runs
}

/// [`KMeans::init_random`] starts from different vectors of the data.
pub proof fn law_init_random_draws_vectors<T: ArrowFloatType>(
    data: &MatrixView<T>,
    k: usize,
    metric_type: MetricType,
    rng: SmallRng,
    r: Result<KMeans<T>, Error>,
)
    requires
        data.num_columns > 0,
        call_ensures(KMeans::<T>::init_random, (data, k, metric_type, rng), r),
    ensures
        r matches Ok(m) && is_drawn(
            data.data@,
            data.num_columns as int,
            k as int,
            metric_type,
            m@,
        ),
{
    law_drawn_centroids_are_vectors(
        data.data@,
        data.num_columns as int,
        k as int,
        metric_type,
        r->Ok_0@,
    );
}

/// [`Run::begin`] has not come anywhere, [`Run::is_over`] tells where a run ends,
/// and [`Run::advance`] goes one iteration farther.
pub proof fn law_run_goes_step_by_step<T: ArrowFloatType>(
    start: KMeans<T>,
    begun: Run<T>,
    run: &Run<T>,
    max_iters: u32,
    over: bool,
    membership: &KMeanMembership<T>,
    tolerance: Float64,
    next: Run<T>,
)
    requires
        call_ensures(Run::<T>::begin, (start,), begun),
        call_ensures(Run::<T>::is_over, (run, max_iters), over),
        call_ensures(Run::<T>::advance, (run, membership, tolerance), Some(next)),
    ensures
        begun.kmeans == start,
        begun.iterations == 0,
        begun.mean_distance is None,
        begun.stddev.bits == 0x7f7f_ffff,
        !begun.converged,
        over <==> run.converged || run.iterations >= max_iters,
        next.iterations == run.iterations + 1,
        next.kmeans.k == membership.k,
        next.kmeans.dimension == membership.dimension,
        next.kmeans.metric_type == membership.metric_type,
        next.mean_distance is Some,
        run.mean_distance is None ==> !next.converged,
        run.mean_distance is Some ==> may_compare::<T>(
            run.mean_distance->Some_0,
            next.mean_distance->Some_0,
            tolerance,
            next.converged,
        ),
{
    law_run_advances_by_one(*run, membership@, tolerance, Some(next));
    assert(next.kmeans@.k == membership@.k);
    assert(next.kmeans@.dimension == membership@.dimension);
}

/// [`Best::none`] has no run, and one whose deviation is below the largest finite
/// number beats it. [`Best::offer`] keeps the new run where its deviation is below
/// that to beat, or where there is none yet.
pub proof fn law_best_keeps_the_better<T: ArrowFloatType>(
    nothing: Best<T>,
    best: Best<T>,
    kmeans: KMeans<T>,
    stddev: Float32,
    r: Best<T>,
)
    requires
        call_ensures(Best::<T>::none, (), nothing),
        call_ensures(Best::<T>::offer, (best, kmeans, stddev), r),
    ensures
        nothing.kmeans is None,
        nothing.stddev.bits == 0x7f7f_ffff,
        r.kmeans is Some,
        stddev.less(best.stddev) ==> r.stddev == stddev && r.kmeans->Some_0@ == kmeans@,
        !stddev.less(best.stddev) ==> r.stddev == best.stddev,
        !stddev.less(best.stddev) && best.kmeans is None ==> r.kmeans->Some_0@ == kmeans@,
        !stddev.less(best.stddev) && best.kmeans is Some ==> r.kmeans->Some_0@
            == best.kmeans->Some_0@,
{
    assert(nothing@.0 is None);
    assert(r@.0 is Some);
}

/// [`argmin`] gives the first place of the smallest number, if one is below the
/// largest finite number.
pub proof fn law_argmin_is_first_smallest(values: &[Float32], r: Option<u32>)
    requires
        call_ensures(argmin, (values,), r),
    ensures
        match r {
            Some(i) => is_first_smallest(values@, Float32 { bits: 0x7f7f_ffff }, i as int),
            None => is_none_below(values@, Float32 { bits: 0x7f7f_ffff }),
        },
{
}

/// [`Error::to_string`] tells how many vectors and clusters there are, where there
/// are too few vectors.
pub proof fn law_error_tells_numbers(n: usize, k: usize, r: String) -> (numbers: (
    Seq<char>,
    Seq<char>,
))
    requires
        call_ensures(Error::to_string, (&Error::TooFewPoints { n, k },), r),
    ensures
        is_written(numbers.0, n as int),
        is_written(numbers.1, k as int),
        r@ == "KMeans: training does not have sufficient data points: n("@ + numbers.0
            + ") is smaller than k("@ + numbers.1 + ")"@,
{
    law_too_few_points_are_told(n, k);
    let (a, b) = choose|a: Seq<char>, b: Seq<char>|
        {
            &&& #[trigger] is_written(a, n as int)
            &&& #[trigger] is_written(b, k as int)
            &&& (Error::TooFewPoints { n, k }).text()
                == "KMeans: training does not have sufficient data points: n("@ + a
                + ") is smaller than k("@ + b + ")"@
        };
    (a, b)
}

/// By squared Euclidean distance, [`KMeans::train_once`] finds for each row the
/// first of the centroids that are nearest to it, and the squared distance.
pub proof fn law_train_once_by_l2<T: ArrowFloatType>(
    v: Values<T::Native>,
    m: &KMeans<T>,
    data: &MatrixView<T>,
    a: KMeanMembership<T>,
    i: int,
    c: int,
)
    requires
        is_single_exact::<T>(v.single),
        is_l2_exact::<T>(v),
        m.metric_type == MetricType::L2,
        m.dimension > 0,
        call_ensures(KMeans::<T>::train_once, (m, data), Some(a)),
        0 <= i < data.data@.len() as int / m.dimension as int,
        0 <= c < m.centroids@.len() as int / m.dimension as int,
    ensures
        a.cluster_id_and_distances@.len() == data.data@.len() as int / m.dimension as int,
        (v.single)(a.cluster_id_and_distances@[i].1) == squared_distance(
            v,
            vector(data.data@, m.dimension as int, i),
            vector(
                m.centroids@,
                m.dimension as int,
                a.cluster_id_and_distances@[i].0 as int,
            ),
        ),
        (v.single)(a.cluster_id_and_distances@[i].1) <= squared_distance(
            v,
            vector(data.data@, m.dimension as int, i),
            vector(m.centroids@, m.dimension as int, c),
        ),
        c < a.cluster_id_and_distances@[i].0 ==> (v.single)(a.cluster_id_and_distances@[i].1)
            < squared_distance(
            v,
            vector(data.data@, m.dimension as int, i),
            vector(m.centroids@, m.dimension as int, c),
        ),
{
    let norm_data = law_iteration_measures_rows_for_cosine::<T>(
        m@,
        data.data@,
        data.num_columns as int,
        Some(a@),
    );
    lemma_membership_row::<T>(m@, data.data@, norm_data, a@, i);
    law_member_by_l2_is_nearest::<T>(v, m@, data.data@, norm_data, a@, i, c);
}

/// By inner product, [`KMeans::train_once`] finds for each row the first of the
/// centroids that have the largest inner product with it, and one minus that.
pub proof fn law_train_once_by_dot<T: ArrowFloatType>(
    v: Values<T::Native>,
    m: &KMeans<T>,
    data: &MatrixView<T>,
    a: KMeanMembership<T>,
    i: int,
    c: int,
)
    requires
        is_single_exact::<T>(v.single),
        is_dot_exact::<T>(v),
        m.metric_type == MetricType::Dot,
        m.dimension > 0,
        call_ensures(KMeans::<T>::train_once, (m, data), Some(a)),
        0 <= i < data.data@.len() as int / m.dimension as int,
        0 <= c < m.centroids@.len() as int / m.dimension as int,
    ensures
        a.cluster_id_and_distances@.len() == data.data@.len() as int / m.dimension as int,
        (v.single)(a.cluster_id_and_distances@[i].1) == 1 as real - inner_product(
            v.coordinate,
            vector(data.data@, m.dimension as int, i),
            vector(
                m.centroids@,
                m.dimension as int,
                a.cluster_id_and_distances@[i].0 as int,
            ),
        ),
        (v.single)(a.cluster_id_and_distances@[i].1) <= 1 as real - inner_product(
            v.coordinate,
            vector(data.data@, m.dimension as int, i),
            vector(m.centroids@, m.dimension as int, c),
        ),
        c < a.cluster_id_and_distances@[i].0 ==> (v.single)(a.cluster_id_and_distances@[i].1)
            < 1 as real - inner_product(
            v.coordinate,
            vector(data.data@, m.dimension as int, i),
            vector(m.centroids@, m.dimension as int, c),
        ),
{
    let norm_data = law_iteration_measures_rows_for_cosine::<T>(
        m@,
        data.data@,
        data.num_columns as int,
        Some(a@),
    );
    lemma_membership_row::<T>(m@, data.data@, norm_data, a@, i);
    law_member_by_dot_has_largest_product::<T>(v, m@, data.data@, norm_data, a@, i, c);
}

/// By cosine distance, [`KMeans::train_once`] finds for each row the first of the
/// centroids whose inner product with it, divided by both lengths, is largest,
/// and one minus that. `length` is the length of the row, `p` that of the
/// centroid, `q` that of any other.
pub proof fn law_train_once_by_cosine<T: ArrowFloatType>(
    v: Values<T::Native>,
    m: &KMeans<T>,
    data: &MatrixView<T>,
    a: KMeanMembership<T>,
    i: int,
    length: real,
    c: int,
    p: real,
    q: real,
)
    requires
        is_single_exact::<T>(v.single),
        is_cosine_exact::<T>(v),
        is_known_cosine_exact::<T>(v),
        m.metric_type == MetricType::Cosine,
        m.dimension > 0,
        data.num_columns == m.dimension,
        forall|j: int|
            0 <= j < m.centroids@.len() as int / m.dimension as int ==> squared_length(
                v.coordinate,
                #[trigger] vector(m.centroids@, m.dimension as int, j),
            ) != 0 as real,
        call_ensures(KMeans::<T>::train_once, (m, data), Some(a)),
        0 <= i < data.data@.len() as int / m.dimension as int,
        (0 as real) <= length,
        square(length) == squared_length(
            v.coordinate,
            vector(data.data@, m.dimension as int, i),
        ),
        square(length) != 0 as real,
        0 <= c < m.centroids@.len() as int / m.dimension as int,
        (0 as real) <= p,
        (0 as real) <= q,
        square(p) == squared_length(
            v.coordinate,
            vector(
                m.centroids@,
                m.dimension as int,
                a.cluster_id_and_distances@[i].0 as int,
            ),
        ),
        square(q) == squared_length(v.coordinate, vector(m.centroids@, m.dimension as int, c)),
    ensures
        a.cluster_id_and_distances@.len() == data.data@.len() as int / m.dimension as int,
        (1 as real - (v.single)(a.cluster_id_and_distances@[i].1)) * (p * length)
            == inner_product(
            v.coordinate,
            vector(data.data@, m.dimension as int, i),
            vector(
                m.centroids@,
                m.dimension as int,
                a.cluster_id_and_distances@[i].0 as int,
            ),
        ),
        inner_product(
            v.coordinate,
            vector(data.data@, m.dimension as int, i),
            vector(m.centroids@, m.dimension as int, c),
        ) * p <= inner_product(
            v.coordinate,
            vector(data.data@, m.dimension as int, i),
            vector(
                m.centroids@,
                m.dimension as int,
                a.cluster_id_and_distances@[i].0 as int,
            ),
        ) * q,
        c < a.cluster_id_and_distances@[i].0 ==> inner_product(
            v.coordinate,
            vector(data.data@, m.dimension as int, i),
            vector(m.centroids@, m.dimension as int, c),
        ) * p < inner_product(
            v.coordinate,
            vector(data.data@, m.dimension as int, i),
            vector(
                m.centroids@,
                m.dimension as int,
                a.cluster_id_and_distances@[i].0 as int,
            ),
        ) * q,
{
    let dim = m.dimension as int;
    let norm_data = law_iteration_measures_rows_for_cosine::<T>(
        m@,
        data.data@,
        data.num_columns as int,
        Some(a@),
    );
    let known = norm_data->Some_0;
    lemma_membership_row::<T>(m@, data.data@, norm_data, a@, i);
    law_lengths_are_measured_in_place::<T>(data.data@, dim, known, i);
    lemma_chunk_is_vector(data.data@, dim, i);
    lemma_norm_exact::<T>(v, vector(data.data@, dim, i), known[i]);
    lemma_same_root((v.single)(known[i]), length);
    law_member_by_cosine_has_largest_cosine::<T>(
        v,
        m@,
        data.data@,
        norm_data,
        a@,
        i,
        length,
        c,
        p,
        q,
    );
}

/// [`KMeans::draw_starts`] gives as many models as runs are asked for, each with
/// the given centroids, or with vectors of the data where none are given.
pub proof fn law_draw_starts_as_asked<T: ArrowFloatType>(
    data: &MatrixView<T>,
    k: usize,
    params: &KMeansParams<T>,
    rng: SmallRng,
    r: Vec<KMeans<T>>,
    i: int,
)
    requires
        params.centroids is None ==> data.num_columns > 0,
        call_ensures(KMeans::<T>::draw_starts, (data, k, params, rng), r),
        0 <= i < params.redos,
    ensures
        r@.len() == params.redos,
        may_start(*params, data.data@, data.num_columns as int, k as int, r@[i]@),
{
    let models = models_of(r@);
    let dim = data.num_columns as int;
    assert(models[i] == r@[i]@);
    assert(start_outcome(*params, data.data@, dim, k as int, models[i]));
    if params.centroids is None {
        law_drawn_centroids_are_vectors(data.data@, dim, k as int, params.metric_type, models[i]);
    }
}

/// [`KMeans::prepare`] hands on the values of a column and their width exactly
/// where training can be done as asked for, and else says why it cannot.
pub proof fn law_prepare_answers<T: ArrowFloatType>(
    data: &FixedSizeListArray,
    k: usize,
    params: &KMeansParams<T>,
    r: Result<MatrixView<T>, Error>,
) -> (values: Option<Vec<T::Native>>)
    requires
        call_ensures(KMeans::<T>::prepare, (data, k, params), r),
    ensures
        list_len(*data) >= k && list_is_floating(*data) ==> call_ensures(
            T::list_values,
            (data,),
            values,
        ),
        !is_accepted(*data, k, *params, values) ==> is_refusal(*data, k, *params, values, r),
        is_accepted(*data, k, *params, values) ==> {
            &&& r matches Ok(mat)
            &&& mat.data@ == values->Some_0@
            &&& mat.num_columns == list_value_length(*data)
        },
{
    law_preparation_answers(*data, k, *params, r)
}

/// [`KMeans::new_with_params`] is refused exactly where training cannot be done as
/// asked for, with the error that says why; it fails else only where a vector
/// belongs to none of the clusters.
pub proof fn law_new_with_params_answers<T: ArrowFloatType>(
    data: &FixedSizeListArray,
    k: usize,
    params: &KMeansParams<T>,
    r: Result<KMeans<T>, Error>,
) -> (values: Option<Vec<T::Native>>)
    requires
        call_ensures(KMeans::<T>::new_with_params, (data, k, params), r),
    ensures
        list_len(*data) >= k && list_is_floating(*data) ==> call_ensures(
            T::list_values,
            (data,),
            values,
        ),
        !is_accepted(*data, k, *params, values) ==> is_refusal(*data, k, *params, values, r),
        is_accepted(*data, k, *params, values) ==> (r matches Err(e) ==> e is NoCluster),
{
    law_training_answers(*data, k, *params, r)
}

} // verus!
