//! What training is asked for, and what it answers.

use arrow_array::FixedSizeListArray;

use vstd::layout::size_of;
use vstd::prelude::*;

use crate::array::{
    is_floating_name, list_has_fields, list_is_floating, list_len, list_type_text,
    list_value_length,
};
use crate::distance::MetricType;
use crate::error::Error;
use crate::float::{Float32, Float64};
use crate::kernels::{any_below, is_argmin};
use crate::laws::{law_run_keeps_shape, lemma_trained_is_run};
use crate::matrix::{lemma_row_bounds, row, MatrixView};
use crate::model::{KMeans, Model};
use crate::sample::{is_sample, lemma_rows_at, lemma_rows_at_len, random_start, rows_at};
use crate::scalar::ArrowFloatType;
use crate::training::{
    default_params, is_best, matrix_outcome, prepared_outcome, run_fails, run_outcome, runs_from,
    start_outcome, starts_outcome, stddevs_of, train_from_outcome, train_outcome, training_outcome,
    values_outcome, KMeanInit, KMeansParams,
};

verus! {

/// `m` is the best of some runs, which end with models and deviations of cluster
/// sizes: the first with the smallest deviation; the first run where no deviation
/// is below the largest finite number.
pub open spec fn is_pick<N>(runs: Seq<(Model<N>, Float32)>, m: Model<N>) -> bool {
    exists|i: int|
        {
            &&& 0 <= i < runs.len()
            &&& m == (#[trigger] runs[i]).0
            &&& if runs[i].1.less(Float32 { bits: 0x7f7f_ffff }) {
                &&& forall|j: int|
                    0 <= j < runs.len() ==> !(#[trigger] runs[j]).1.less(runs[i].1)
                &&& forall|j: int|
                    0 <= j < i && (#[trigger] runs[j]).1.less(Float32 { bits: 0x7f7f_ffff })
                        ==> runs[i].1.less(runs[j].1)
            } else {
                &&& i == 0
                &&& forall|j: int|
                    0 <= j < runs.len() ==> !(#[trigger] runs[j]).1.less(
                        Float32 { bits: 0x7f7f_ffff },
                    )
            }
        }
}

proof fn lemma_best_is_pick<N>(runs: Seq<(Model<N>, Float32)>, m: Model<N>)
    requires
        runs.len() > 0,
        is_best(runs, m),
    ensures
        is_pick(runs, m),
{
    let stddevs = stddevs_of(runs);
    let bound = Float32::spec_max();
    assert forall|j: int| 0 <= j < runs.len() implies (#[trigger] runs[j]).1 == stddevs[j] by {}
    let i = if any_below(stddevs, bound) {
        choose|i: int| #[trigger] is_argmin(stddevs, bound, i) && m == runs[i].0
    } else {
        0
    };
    assert(m == runs[i].0);
    assert(runs[i].1 == stddevs[i]);
}

/// Training from several models runs from each of them, and picks the most
/// balanced of the runs.
pub proof fn law_best_run_is_picked<T: ArrowFloatType>(
    starts: Seq<Model<T::Native>>,
    data: Seq<T::Native>,
    max_iters: int,
    tolerance: Float64,
    m: Model<T::Native>,
) -> (runs: Seq<(Model<T::Native>, Float32)>)
    requires
        starts.len() > 0,
        train_from_outcome::<T>(starts, data, max_iters, tolerance, Some(m)),
    ensures
        runs.len() == starts.len(),
        forall|i: int|
            0 <= i < starts.len() ==> run_outcome::<T>(
                #[trigger] starts[i],
                data,
                max_iters,
                tolerance,
                runs[i],
            ),
        is_pick(runs, m),
{
    let runs = choose|runs: Seq<(Model<T::Native>, Float32)>|
        {
            &&& #[trigger] runs_from::<T>(starts, data, max_iters, tolerance, runs)
            &&& is_best(runs, m)
        };
    assert forall|i: int| 0 <= i < starts.len() implies run_outcome::<T>(
        #[trigger] starts[i],
        data,
        max_iters,
        tolerance,
        runs[i],
    ) by {
        assert(run_outcome::<T>(starts[i], data, max_iters, tolerance, runs[i]));
    }
    lemma_best_is_pick(runs, m);
    runs
}

/// Training from several models fails only where one of the runs does.
pub proof fn law_failed_training_has_failed_run<T: ArrowFloatType>(
    starts: Seq<Model<T::Native>>,
    data: Seq<T::Native>,
    max_iters: int,
    tolerance: Float64,
) -> (i: int)
    requires
        train_from_outcome::<T>(starts, data, max_iters, tolerance, None),
    ensures
        0 <= i < starts.len(),
        run_fails::<T>(starts[i], data, max_iters, tolerance),
{
    choose|i: int|
        0 <= i < starts.len() && run_fails::<T>(
            #[trigger] starts[i],
            data,
            max_iters,
            tolerance,
        )
}

/// `m` has `k` different vectors of the data as centroids.
pub open spec fn is_drawn<N>(
    data: Seq<N>,
    dim: int,
    k: int,
    metric_type: MetricType,
    m: Model<N>,
) -> bool {
    &&& m.dimension == dim
    &&& m.k == k
    &&& m.metric_type == metric_type
    &&& m.centroids.len() == k * dim
    &&& exists|chosen: Seq<usize>|
        {
            &&& #[trigger] chosen.len() == k
            &&& forall|c: int, d: int|
                0 <= c < k && 0 <= d < k && c != d ==> #[trigger] chosen[c] != #[trigger] chosen[d]
            &&& forall|c: int|
                0 <= c < k ==> 0 <= #[trigger] chosen[c] as int * dim && chosen[c] as int * dim
                    + dim <= data.len()
            &&& forall|c: int, j: int|
                0 <= c < k && 0 <= j < dim ==> #[trigger] m.centroids[c * dim + j]
                    == data[chosen[c] as int * dim + j]
        }
}

/// Centroids that are drawn at random are different vectors of the data.
pub proof fn law_drawn_centroids_are_vectors<N>(
    data: Seq<N>,
    dim: int,
    k: int,
    metric_type: MetricType,
    m: Model<N>,
)
    requires
        0 < dim,
        random_start(data, dim, k, metric_type, m),
    ensures
        is_drawn(data, dim, k, metric_type, m),
{
    let chosen = choose|chosen: Seq<usize>|
        {
            &&& chosen.len() == k
            &&& #[trigger] is_sample(chosen, data.len() as int / dim, k)
            &&& m == Model {
                centroids: rows_at(data, dim, chosen),
                dimension: dim,
                k,
                metric_type,
            }
        };
    lemma_rows_at_len(data, dim, chosen);
    assert forall|c: int| 0 <= c < k implies 0 <= #[trigger] chosen[c] as int * dim && chosen[c]
        as int * dim + dim <= data.len() by {
        lemma_row_bounds(data.len() as int, dim, chosen[c] as int);
    }
    assert forall|c: int, j: int| 0 <= c < k && 0 <= j < dim implies #[trigger] m.centroids[c * dim
        + j] == data[chosen[c] as int * dim + j] by {
        law_gathered_coordinates(data, dim, chosen, c, j);
    }
}

/// Vectors that are gathered lie one after the other, in the order in which they
/// are given.
pub proof fn law_gathered_coordinates<N>(
    data: Seq<N>,
    dim: int,
    chosen: Seq<usize>,
    c: int,
    j: int,
)
    requires
        0 < dim,
        forall|i: int|
            0 <= i < chosen.len() ==> #[trigger] chosen[i] < data.len() as int / dim,
        0 <= c < chosen.len(),
        0 <= j < dim,
    ensures
        rows_at(data, dim, chosen).len() == chosen.len() * dim,
        rows_at(data, dim, chosen)[c * dim + j] == data[chosen[c] as int * dim + j],
{
    let rows = rows_at(data, dim, chosen);
    let at = chosen[c] as int;
    lemma_rows_at_len(data, dim, chosen);
    lemma_rows_at(data, dim, chosen, c);
    lemma_row_bounds(data.len() as int, dim, at);
    vstd::arithmetic::div_mod::lemma_div_by_multiple(chosen.len() as int, dim);
    lemma_row_bounds(rows.len() as int, dim, c);
    assert(row(rows, dim, c)[j] == rows[c * dim + j]);
    assert(row(data, dim, at)[j] == data[at * dim + j]);
}

/// Whether a run may start from `m` with the given parameters: exactly from the
/// centroids that are given, and where none are, from vectors of the data.
pub open spec fn may_start<T: ArrowFloatType>(
    params: KMeansParams<T>,
    data: Seq<T::Native>,
    dim: int,
    k: int,
    m: Model<T::Native>,
) -> bool {
    match params.centroids {
        Some(c) => m == Model {
            centroids: c@,
            dimension: dim,
            k,
            metric_type: params.metric_type,
        },
        None => is_drawn(data, dim, k, params.metric_type, m),
    }
}

/// A trained model is where the best of as many runs as are asked for ends. Each
/// starts from the given centroids, or from vectors of the data where none are
/// given.
pub proof fn law_trained_model_is_best_run<T: ArrowFloatType>(
    params: KMeansParams<T>,
    data: Seq<T::Native>,
    dim: int,
    k: int,
    m: Model<T::Native>,
) -> (r: (Seq<Model<T::Native>>, Seq<(Model<T::Native>, Float32)>))
    requires
        params.redos > 0,
        params.centroids is None ==> 0 < dim,
        train_outcome(params, data, dim, k, Some(m)),
    ensures
        r.0.len() == params.redos,
        r.1.len() == params.redos,
        forall|i: int|
            0 <= i < params.redos ==> {
                &&& may_start(params, data, dim, k, #[trigger] r.0[i])
                &&& run_outcome::<T>(
                    r.0[i],
                    data,
                    params.max_iters as int,
                    params.tolerance,
                    r.1[i],
                )
            },
        is_pick(r.1, m),
{
    let max_iters = params.max_iters as int;
    let starts = choose|starts: Seq<Model<T::Native>>|
        {
            &&& starts.len() == params.redos
            &&& #[trigger] starts_outcome(params, data, dim, k, starts)
            &&& train_from_outcome::<T>(starts, data, max_iters, params.tolerance, Some(m))
        };
    let runs = law_best_run_is_picked::<T>(starts, data, max_iters, params.tolerance, m);
    assert forall|i: int| 0 <= i < params.redos implies {
        &&& may_start(params, data, dim, k, #[trigger] starts[i])
        &&& run_outcome::<T>(starts[i], data, max_iters, params.tolerance, runs[i])
    } by {
        assert(start_outcome(params, data, dim, k, starts[i]));
        if params.centroids is None {
            law_drawn_centroids_are_vectors(data, dim, k, params.metric_type, starts[i]);
        }
    }
    (starts, runs)
}

/// With given centroids, for every tolerance and number of iterations, a trained
/// model is where a run ends that starts from exactly these centroids.
pub proof fn law_training_starts_from_given_centroids<T: ArrowFloatType>(
    params: KMeansParams<T>,
    data: Seq<T::Native>,
    dim: int,
    k: int,
    centroids: Seq<T::Native>,
    m: Model<T::Native>,
) -> (stddev: Float32)
    requires
        params.redos > 0,
        params.centroids matches Some(c) && c@ == centroids,
        train_outcome(params, data, dim, k, Some(m)),
    ensures
        run_outcome::<T>(
            (Model { centroids, dimension: dim, k, metric_type: params.metric_type }),
            data,
            params.max_iters as int,
            params.tolerance,
            (m, stddev),
        ),
{
    let max_iters = params.max_iters as int;
    let starts = choose|starts: Seq<Model<T::Native>>|
        {
            &&& starts.len() == params.redos
            &&& #[trigger] starts_outcome(params, data, dim, k, starts)
            &&& train_from_outcome::<T>(starts, data, max_iters, params.tolerance, Some(m))
        };
    let runs = law_best_run_is_picked::<T>(starts, data, max_iters, params.tolerance, m);
    let i = choose|i: int| 0 <= i < runs.len() && m == (#[trigger] runs[i]).0;
    assert(start_outcome(params, data, dim, k, starts[i]));
    assert(run_outcome::<T>(starts[i], data, max_iters, params.tolerance, runs[i]));
    assert(runs[i] == (m, runs[i].1));
    runs[i].1
}

/// Training fails only where a run does that may start as is asked for.
pub proof fn law_training_fails_with_a_run<T: ArrowFloatType>(
    params: KMeansParams<T>,
    data: Seq<T::Native>,
    dim: int,
    k: int,
) -> (start: Model<T::Native>)
    requires
        params.centroids is None ==> 0 < dim,
        train_outcome(params, data, dim, k, None),
    ensures
        params.redos > 0,
        may_start(params, data, dim, k, start),
        run_fails::<T>(start, data, params.max_iters as int, params.tolerance),
{
    let max_iters = params.max_iters as int;
    let starts = choose|starts: Seq<Model<T::Native>>|
        {
            &&& starts.len() == params.redos
            &&& #[trigger] starts_outcome(params, data, dim, k, starts)
            &&& train_from_outcome::<T>(starts, data, max_iters, params.tolerance, None)
        };
    let i = law_failed_training_has_failed_run::<T>(starts, data, max_iters, params.tolerance);
    assert(start_outcome(params, data, dim, k, starts[i]));
    if params.centroids is None {
        law_drawn_centroids_are_vectors(data, dim, k, params.metric_type, starts[i]);
    }
    starts[i]
}

/// Where no run is asked for, what is left is a model that one would start from;
/// where none could start, a model without centroids.
pub proof fn law_no_run_leaves_the_start<T: ArrowFloatType>(
    params: KMeansParams<T>,
    data: Seq<T::Native>,
    dim: int,
    k: int,
    r: Option<Model<T::Native>>,
)
    requires
        params.redos == 0,
        train_outcome(params, data, dim, k, r),
    ensures
        r matches Some(m) && if params.centroids is Some || params.init == KMeanInit::Random && dim
            > 0 && k * dim <= data.len() && k * size_of::<usize>() <= isize::MAX {
            may_start(params, data, dim, k, m)
        } else {
            m == Model {
                centroids: Seq::<T::Native>::empty(),
                dimension: dim,
                k,
                metric_type: params.metric_type,
            }
        },
{
    let m = r->Some_0;
    if params.centroids is None && dim > 0 && params.init is Random && k * dim <= data.len() && k
        * size_of::<usize>() <= isize::MAX {
        assert(start_outcome(params, data, dim, k, m));
        law_drawn_centroids_are_vectors(data, dim, k, params.metric_type, m);
    }
}

/// Whether training can be done as asked for, on `len` coordinates: runs have
/// centroids to start from, and iterations can count clusters and centroids.
/// Where no run is asked for there is nothing to be done.
pub open spec fn is_possible<T: ArrowFloatType>(
    params: KMeansParams<T>,
    len: int,
    dim: int,
    k: int,
) -> bool {
    ||| params.redos == 0
    ||| {
        &&& params.centroids is None ==> {
            &&& params.init == KMeanInit::Random
            &&& dim > 0
            &&& k * dim <= len
            &&& k * size_of::<usize>() <= isize::MAX
        }
        &&& params.max_iters > 0 ==> {
            &&& dim > 0
            &&& k <= 0x1_0000_0000
            &&& k * dim <= usize::MAX
            &&& params.centroids matches Some(c) ==> c@.len() as int / dim <= 0x1_0000_0000
        }
    }
}

/// Whether `r` says that the vectors are not made of the right numbers, and
/// names what they are made of, as far as that is a type without fields.
pub open spec fn names_type<R>(data: FixedSizeListArray, r: Result<R, Error>) -> bool {
    &&& r matches Err(Error::NotFloating { data_type })
    &&& !list_has_fields(data) || list_is_floating(data) ==> data_type@ == list_type_text(data)
    &&& list_is_floating(data) ==> is_floating_name(data_type@)
}

/// What a column is asked for and cannot be done is answered: too few vectors
/// first, then vectors that are not made of floating point numbers, then an
/// initialization that there is not, then a shape that does not allow for it.
pub open spec fn is_refusal<T: ArrowFloatType, R>(
    data: FixedSizeListArray,
    k: usize,
    params: KMeansParams<T>,
    values: Option<Vec<T::Native>>,
    r: Result<R, Error>,
) -> bool {
    if list_len(data) < k {
        r matches Err(Error::TooFewPoints { n, k: asked }) && n == list_len(data) && asked == k
    } else if !list_is_floating(data) || values is None {
        names_type(data, r)
    } else if params.redos > 0 && params.centroids is None && params.init
        == KMeanInit::KMeanPlusPlus {
        r matches Err(Error::UnsupportedInit)
    } else {
        r matches Err(Error::InvalidShape)
    }
}

/// Whether a column can be trained on as asked for, once its values are read.
pub open spec fn is_accepted<T: ArrowFloatType>(
    data: FixedSizeListArray,
    k: usize,
    params: KMeansParams<T>,
    values: Option<Vec<T::Native>>,
) -> bool {
    &&& list_len(data) >= k
    &&& list_is_floating(data)
    &&& values matches Some(v) && list_value_length(data) >= 0 && is_possible(
        params,
        v@.len() as int,
        list_value_length(data),
        k as int,
    )
}

/// Training on a column is refused exactly where it cannot be done as asked for,
/// with the error that says why; else it gives what training on its values gives,
/// or says that a vector belongs to none of the clusters.
pub proof fn law_training_answers<T: ArrowFloatType>(
    data: FixedSizeListArray,
    k: usize,
    params: KMeansParams<T>,
    r: Result<KMeans<T>, Error>,
) -> (values: Option<Vec<T::Native>>)
    requires
        training_outcome(data, k, params, r),
    ensures
        list_len(data) >= k && list_is_floating(data) ==> call_ensures(
            T::list_values,
            (&data,),
            values,
        ),
        !is_accepted(data, k, params, values) ==> is_refusal(data, k, params, values, r),
        is_accepted(data, k, params, values) ==> {
            let trained = match r {
                Ok(m) => Some(m@),
                Err(e) => None,
            };
            &&& r matches Err(e) ==> e is NoCluster
            &&& train_outcome(
                params,
                values->Some_0@,
                list_value_length(data),
                k as int,
                trained,
            )
        },
{
    if list_len(data) >= k && list_is_floating(data) {
        choose|values: Option<Vec<T::Native>>|
            {
                &&& #[trigger] call_ensures(T::list_values, (&data,), values)
                &&& values_outcome(data, k, params, values, r)
            }
    } else {
        None
    }
}

/// A column is prepared for training exactly where it can be done as asked for:
/// what is handed on are its values and their width. Else the error says why.
pub proof fn law_preparation_answers<T: ArrowFloatType>(
    data: FixedSizeListArray,
    k: usize,
    params: KMeansParams<T>,
    r: Result<MatrixView<T>, Error>,
) -> (values: Option<Vec<T::Native>>)
    requires
        prepared_outcome(data, k, params, r),
    ensures
        list_len(data) >= k && list_is_floating(data) ==> call_ensures(
            T::list_values,
            (&data,),
            values,
        ),
        !is_accepted(data, k, params, values) ==> is_refusal(data, k, params, values, r),
        is_accepted(data, k, params, values) ==> {
            &&& r matches Ok(mat)
            &&& mat.data@ == values->Some_0@
            &&& mat.num_columns == list_value_length(data)
        },
{
    if list_len(data) >= k && list_is_floating(data) {
        choose|values: Option<Vec<T::Native>>|
            {
                &&& #[trigger] call_ensures(T::list_values, (&data,), values)
                &&& matrix_outcome(data, k, params, values, r)
            }
    } else {
        None
    }
}

/// A model that training gives has the number of clusters and the metric that
/// are asked for, and the width of the vectors.
pub proof fn law_trained_model_is_as_asked<T: ArrowFloatType>(
    data: FixedSizeListArray,
    k: usize,
    params: KMeansParams<T>,
    m: KMeans<T>,
)
    requires
        training_outcome(data, k, params, Ok(m)),
    ensures
        m.k == k,
        m.metric_type == params.metric_type,
        m.dimension == list_value_length(data),
{
    let values = law_training_answers(data, k, params, Ok(m));
    let v = values->Some_0@;
    let dim = list_value_length(data);
    if params.redos > 0 {
        let (start, run) = lemma_trained_is_run(params, v, dim, k as int, m@);
        law_run_keeps_shape::<T>(start, v, params.max_iters as int, params.tolerance, run);
    }
}

/// Training with a number of iterations alone is training by squared Euclidean
/// distance, in one run from random centroids, up to a tolerance of 1e-4.
pub proof fn law_defaults_are_written_out<T: ArrowFloatType>(
    data: FixedSizeListArray,
    k: usize,
    max_iters: u32,
    r: Result<KMeans<T>, Error>,
)
    requires
        training_outcome(data, k, default_params::<T>(max_iters), r),
    ensures
        training_outcome(
            data,
            k,
            (KMeansParams::<T> {
                max_iters,
                tolerance: Float64 { bits: 0x3f1a_36e2_eb1c_432d },
                redos: 1,
                init: KMeanInit::Random,
                metric_type: MetricType::L2,
                centroids: None,
            }),
            r,
        ),
        r matches Ok(m) ==> {
            &&& m.metric_type == MetricType::L2
            &&& m.k == k
            &&& m.dimension == list_value_length(data)
        },
{
    if r is Ok {
        law_trained_model_is_as_asked(data, k, default_params::<T>(max_iters), r->Ok_0);
    }
}

} // verus!
