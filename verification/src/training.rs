//! Training models.

use arrow_array::FixedSizeListArray;
use rand::rngs::SmallRng;
use std::sync::Arc;

use vstd::prelude::*;

use crate::array::{
    count_rows, is_floating, is_floating_name, list_has_fields, list_is_floating, list_len,
    list_type_text, list_value_length, type_text,
};
use crate::assign::{is_measurable, membership_outcome, train_once_outcome};
use crate::distance::MetricType;
use crate::error::Error;
use crate::float::{Float32, Float64};
use crate::kernels::{any_below, is_argmin};
use crate::matrix::{wide_product, MatrixView};
use crate::membership::{
    mean_distance_outcome, means_outcome, sizes_of, stddev_outcome, Assignment, KMeanMembership,
};
use crate::model::{KMeans, Model};
use crate::requests::law_trained_model_is_as_asked;
use crate::sample::{
    can_sample, kmeans_random_init, law_random_start, random_start, rng_from_entropy,
};
use crate::scalar::{ArrowFloatType, FloatArithmetic};

verus! {

/// How centroids are initialized.
#[derive(Debug, PartialEq, Eq, Structural)]
pub enum KMeanInit {
    /// At random vectors of the data.
    Random,
    /// By k-means++, which is not supported.
    KMeanPlusPlus,
}

/// Training parameters.
#[derive(Debug)]
pub struct KMeansParams<T: ArrowFloatType> {
    /// Max number of iterations.
    pub max_iters: u32,
    /// When the difference of mean distance to the centroids is less than this
    /// `tolerance` threshold, stop the training.
    pub tolerance: Float64,
    /// Run k-means multiple times and pick the best (balanced) one.
    pub redos: usize,
    /// Init method.
    pub init: KMeanInit,
    /// The metric to calculate distance.
    pub metric_type: MetricType,
    /// Centroids to continue training from. If `None`, centroids are initialized
    /// by the init method.
    pub centroids: Option<Arc<Vec<T::Native>>>,
}

/// The bits of the default tolerance, the double precision number closest to
/// 1e-4.
pub const DEFAULT_TOLERANCE: u64 = 0x3f1a_36e2_eb1c_432d;

/// The default parameters, with the given number of iterations.
pub open spec fn default_params<T: ArrowFloatType>(max_iters: u32) -> KMeansParams<T> {
    KMeansParams {
        max_iters,
        tolerance: Float64 { bits: DEFAULT_TOLERANCE },
        redos: 1,
        init: KMeanInit::Random,
        metric_type: MetricType::L2,
        centroids: None,
    }
}

impl<T: ArrowFloatType> Default for KMeansParams<T> {
    /// At most 50 iterations, a tolerance of 1e-4, one run, random centroids and
    /// squared Euclidean distance.
    fn default() -> (r: Self)
        ensures
            r == default_params::<T>(50),
            r.max_iters == 50,
            r.tolerance.bits == 0x3f1a_36e2_eb1c_432d,
            r.redos == 1,
            r.init == KMeanInit::Random,
            r.metric_type == MetricType::L2,
            r.centroids is None,
    {
        KMeansParams {
            max_iters: 50,
            tolerance: Float64 { bits: DEFAULT_TOLERANCE },
            redos: 1,
            init: KMeanInit::Random,
            metric_type: MetricType::L2,
            centroids: None,
        }
    }
}

/// What one iteration of training finds.
pub struct Step<N> {
    /// The cluster of each vector.
    pub membership: Assignment<N>,
    /// The mean distance of a vector to its centroid.
    pub mean_distance: Float64,
    /// The standard deviation of the cluster sizes.
    pub stddev: Float32,
    /// The model with the means of the clusters as centroids.
    pub model: Model<N>,
    /// Whether training is done.
    pub converged: bool,
}

/// `r` is what the test for convergence may give: whether the mean distance
/// differs by less than `tolerance` from that of the iteration before. There is
/// none before the first iteration.
pub open spec fn converged_outcome<T: FloatArithmetic>(
    before: Option<Float64>,
    now: Float64,
    tolerance: Float64,
    r: bool,
) -> bool {
    match before {
        None => !r,
        Some(mean) => exists|difference: Float64|
            {
                &&& #[trigger] call_ensures(T::double_sub, (mean, now), difference)
                &&& r == difference.spec_abs().less(tolerance)
            },
    }
}

/// `step` is what one iteration may find, from the given model and the mean
/// distance of the iteration before.
pub open spec fn step_outcome<T: ArrowFloatType>(
    model: Model<T::Native>,
    before: Option<Float64>,
    data: Seq<T::Native>,
    tolerance: Float64,
    step: Step<T::Native>,
) -> bool {
    let parts = step.membership.parts;
    &&& train_once_outcome::<T>(model, data, model.dimension, Some(step.membership))
    &&& step.membership.wf()
    &&& mean_distance_outcome::<T>(parts, step.mean_distance)
    &&& stddev_outcome::<T>(
        sizes_of(parts, model.k),
        parts.len() as usize,
        model.k as usize,
        step.stddev,
    )
    &&& means_outcome::<T>(step.membership, step.model)
    &&& converged_outcome::<T>(before, step.mean_distance, tolerance, step.converged)
}

/// One iteration may come to a vector that belongs to none of the clusters:
/// there is no nearest centroid, or none at all, or there are more centroids than
/// clusters and the nearest is one too many.
pub open spec fn step_fails<T: ArrowFloatType>(
    model: Model<T::Native>,
    data: Seq<T::Native>,
) -> bool {
    ||| !is_measurable(model, data.len() as int / model.dimension)
    ||| train_once_outcome::<T>(model, data, model.dimension, None)
    ||| exists|a: Assignment<T::Native>|
        {
            &&& #[trigger] train_once_outcome::<T>(model, data, model.dimension, Some(a))
            &&& !a.wf()
        }
}

/// The model after the first `i` iterations.
pub open spec fn model_after<N>(start: Model<N>, steps: Seq<Step<N>>, i: int) -> Model<N> {
    if i == 0 {
        start
    } else {
        steps[i - 1].model
    }
}

/// The mean distance after the first `i` iterations, if there are any.
pub open spec fn mean_after<N>(steps: Seq<Step<N>>, i: int) -> Option<Float64> {
    if i == 0 {
        None
    } else {
        Some(steps[i - 1].mean_distance)
    }
}

/// The deviation of cluster sizes after the first `i` iterations; the largest
/// finite number before the first.
pub open spec fn stddev_after<N>(steps: Seq<Step<N>>, i: int) -> Float32 {
    if i == 0 {
        Float32::spec_max()
    } else {
        steps[i - 1].stddev
    }
}

/// The `i`-th iteration is one that may follow those before it.
pub open spec fn follows<T: ArrowFloatType>(
    start: Model<T::Native>,
    data: Seq<T::Native>,
    tolerance: Float64,
    steps: Seq<Step<T::Native>>,
    i: int,
) -> bool {
    step_outcome::<T>(
        model_after(start, steps, i),
        mean_after(steps, i),
        data,
        tolerance,
        steps[i],
    )
}

/// `steps` are iterations that may follow each other. Training goes on only
/// where it is not done.
pub open spec fn steps_outcome<T: ArrowFloatType>(
    start: Model<T::Native>,
    data: Seq<T::Native>,
    tolerance: Float64,
    steps: Seq<Step<T::Native>>,
) -> bool {
    &&& forall|i: int|
        0 <= i < steps.len() ==> #[trigger] follows::<T>(start, data, tolerance, steps, i)
    &&& forall|i: int| 0 <= i < steps.len() - 1 ==> !(#[trigger] steps[i]).converged
}

/// Whether training is done after these iterations.
pub open spec fn is_done<N>(steps: Seq<Step<N>>) -> bool {
    steps.len() > 0 && steps.last().converged
}

/// `run` is the model, and the deviation of its cluster sizes, that training
/// from the given model may end with: when it is done, and at the latest after
/// `max_iters` iterations.
pub open spec fn run_outcome<T: ArrowFloatType>(
    start: Model<T::Native>,
    data: Seq<T::Native>,
    max_iters: int,
    tolerance: Float64,
    run: (Model<T::Native>, Float32),
) -> bool {
    exists|steps: Seq<Step<T::Native>>|
        {
            &&& #[trigger] steps_outcome::<T>(start, data, tolerance, steps)
            &&& steps.len() <= max_iters
            &&& steps.len() == max_iters || is_done(steps)
            &&& run.0 == model_after(start, steps, steps.len() as int)
            &&& run.1 == stddev_after(steps, steps.len() as int)
        }
}

/// Training from the given model may come to an iteration in which a vector
/// belongs to none of the clusters.
pub open spec fn run_fails<T: ArrowFloatType>(
    start: Model<T::Native>,
    data: Seq<T::Native>,
    max_iters: int,
    tolerance: Float64,
) -> bool {
    exists|steps: Seq<Step<T::Native>>|
        {
            &&& #[trigger] steps_outcome::<T>(start, data, tolerance, steps)
            &&& steps.len() < max_iters
            &&& !is_done(steps)
            &&& step_fails::<T>(model_after(start, steps, steps.len() as int), data)
        }
}

/// `start` is a model that a run may start from: the given centroids, or random
/// ones where none are given.
pub open spec fn start_outcome<T: ArrowFloatType>(
    params: KMeansParams<T>,
    data: Seq<T::Native>,
    dim: int,
    k: int,
    start: Model<T::Native>,
) -> bool {
    match params.centroids {
        Some(centroids) => start == Model {
            centroids: centroids@,
            dimension: dim,
            k,
            metric_type: params.metric_type,
        },
        None => random_start(data, dim, k, params.metric_type, start),
    }
}

/// `runs` are what runs from the given models, one from each, may end with.
pub open spec fn runs_from<T: ArrowFloatType>(
    starts: Seq<Model<T::Native>>,
    data: Seq<T::Native>,
    max_iters: int,
    tolerance: Float64,
    runs: Seq<(Model<T::Native>, Float32)>,
) -> bool {
    &&& runs.len() == starts.len()
    &&& forall|i: int|
        0 <= i < runs.len() ==> run_outcome::<T>(
            starts[i],
            data,
            max_iters,
            tolerance,
            #[trigger] runs[i],
        )
}

/// The deviations of the cluster sizes of runs.
pub open spec fn stddevs_of<N>(runs: Seq<(Model<N>, Float32)>) -> Seq<Float32> {
    runs.map_values(|run: (Model<N>, Float32)| run.1)
}

/// `m` is the first of the runs with the smallest deviation of cluster sizes;
/// the first run where no deviation is below the largest finite number.
pub open spec fn is_best<N>(runs: Seq<(Model<N>, Float32)>, m: Model<N>) -> bool {
    let stddevs = stddevs_of(runs);
    if any_below(stddevs, Float32::spec_max()) {
        exists|i: int| #[trigger]
            is_argmin(stddevs, Float32::spec_max(), i) && m == runs[i].0
    } else {
        m == runs[0].0
    }
}

/// Whether there are centroids that a run can start from.
pub open spec fn can_start<T: ArrowFloatType>(
    params: KMeansParams<T>,
    len: int,
    dim: int,
    k: int,
) -> bool {
    params.centroids is Some || params.init is Random && can_sample(len, dim, k)
}

/// `m` is the model that is left where no run is asked for: one that a run may
/// start from, or one without centroids where no run can start.
pub open spec fn idle_outcome<T: ArrowFloatType>(
    params: KMeansParams<T>,
    data: Seq<T::Native>,
    dim: int,
    k: int,
    m: Model<T::Native>,
) -> bool {
    if can_start(params, data.len() as int, dim, k) {
        start_outcome(params, data, dim, k, m)
    } else {
        m == Model::<T::Native>::empty(k, dim, params.metric_type)
    }
}

/// `r` is the best of the runs from the given models, one from each; `None` where
/// one of them comes to a vector that belongs to none of the clusters.
pub open spec fn train_from_outcome<T: ArrowFloatType>(
    starts: Seq<Model<T::Native>>,
    data: Seq<T::Native>,
    max_iters: int,
    tolerance: Float64,
    r: Option<Model<T::Native>>,
) -> bool {
    match r {
        Some(m) => exists|runs: Seq<(Model<T::Native>, Float32)>|
            {
                &&& #[trigger] runs_from::<T>(starts, data, max_iters, tolerance, runs)
                &&& is_best(runs, m)
            },
        None => exists|i: int|
            0 <= i < starts.len() && run_fails::<T>(
                #[trigger] starts[i],
                data,
                max_iters,
                tolerance,
            ),
    }
}

/// `starts` are models that runs may start from.
pub open spec fn starts_outcome<T: ArrowFloatType>(
    params: KMeansParams<T>,
    data: Seq<T::Native>,
    dim: int,
    k: int,
    starts: Seq<Model<T::Native>>,
) -> bool {
    forall|i: int|
        0 <= i < starts.len() ==> start_outcome(params, data, dim, k, #[trigger] starts[i])
}

/// `r` is what training may give: the best of `params.redos` runs, from models
/// that were drawn for them.
pub open spec fn train_outcome<T: ArrowFloatType>(
    params: KMeansParams<T>,
    data: Seq<T::Native>,
    dim: int,
    k: int,
    r: Option<Model<T::Native>>,
) -> bool {
    if params.redos == 0 {
        r matches Some(m) && idle_outcome(params, data, dim, k, m)
    } else {
        exists|starts: Seq<Model<T::Native>>|
            {
                &&& starts.len() == params.redos
                &&& #[trigger] starts_outcome(params, data, dim, k, starts)
                &&& train_from_outcome::<T>(
                    starts,
                    data,
                    params.max_iters as int,
                    params.tolerance,
                    r,
                )
            }
    }
}

/// Whether models of `k` clusters of vectors of width `dim` can be trained.
pub open spec fn can_iterate(dim: int, k: int) -> bool {
    &&& dim > 0
    &&& k <= 0x1_0000_0000
    &&& k * dim <= usize::MAX
}

/// Whether training is possible as asked for. Where nothing is trained, nothing
/// is asked for.
pub open spec fn ready<T: ArrowFloatType>(
    params: KMeansParams<T>,
    len: int,
    dim: int,
    k: int,
) -> bool {
    params.redos > 0 ==> {
        &&& can_start(params, len, dim, k)
        &&& params.max_iters > 0 ==> can_iterate(dim, k) && match params.centroids {
            Some(centroids) => centroids@.len() as int / dim <= 0x1_0000_0000,
            None => true,
        }
    }
}

/// Assigning vectors keeps dimension, number of clusters and metric of the model.
pub proof fn lemma_membership_shape<T: ArrowFloatType>(
    model: Model<T::Native>,
    data: Seq<T::Native>,
    num_columns: int,
    a: Assignment<T::Native>,
)
    requires
        train_once_outcome::<T>(model, data, num_columns, Some(a)),
    ensures
        a.k == model.k,
        a.dimension == model.dimension,
        a.metric_type == model.metric_type,
        a.data == data,
        a.parts.len() == data.len() as int / model.dimension,
{
    let norm_data = choose|norm_data: Option<Seq<Float32>>| #[trigger]
        membership_outcome::<T>(model, data, norm_data, Some(a));
    assert(membership_outcome::<T>(model, data, norm_data, Some(a)));
}

/// One more iteration, where training is not done.
proof fn lemma_steps_extend<T: ArrowFloatType>(
    start: Model<T::Native>,
    data: Seq<T::Native>,
    tolerance: Float64,
    steps: Seq<Step<T::Native>>,
    step: Step<T::Native>,
)
    requires
        steps_outcome::<T>(start, data, tolerance, steps),
        !is_done(steps),
        step_outcome::<T>(
            model_after(start, steps, steps.len() as int),
            mean_after(steps, steps.len() as int),
            data,
            tolerance,
            step,
        ),
    ensures
        steps_outcome::<T>(start, data, tolerance, steps.push(step)),
{
    let more = steps.push(step);
    assert forall|p: int| 0 <= p < more.len() implies #[trigger] follows::<T>(
        start,
        data,
        tolerance,
        more,
        p,
    ) by {
        if p < steps.len() {
            assert(follows::<T>(start, data, tolerance, steps, p));
            assert(model_after(start, more, p) == model_after(start, steps, p));
            assert(mean_after(more, p) == mean_after(steps, p));
        }
    }
    assert forall|p: int| 0 <= p < more.len() - 1 implies !(#[trigger] more[p]).converged by {
        assert(more[p] == steps[p]);
    }
}

/// A run that has come some way.
pub struct Run<T: ArrowFloatType> {
    /// The model that it has come to.
    pub kmeans: KMeans<T>,
    /// The mean distance in the last iteration, if there was one.
    pub mean_distance: Option<Float64>,
    /// The deviation of cluster sizes in the last iteration; the largest finite
    /// number before the first.
    pub stddev: Float32,
    /// The number of iterations.
    pub iterations: u32,
    /// Whether the last iteration met the tolerance.
    pub converged: bool,
}

/// `run` is how far a run from the given model may have come.
pub open spec fn progress_outcome<T: ArrowFloatType>(
    start: Model<T::Native>,
    data: Seq<T::Native>,
    tolerance: Float64,
    run: Run<T>,
) -> bool {
    exists|steps: Seq<Step<T::Native>>|
        {
            &&& #[trigger] steps_outcome::<T>(start, data, tolerance, steps)
            &&& steps.len() == run.iterations
            &&& run.kmeans@ == model_after(start, steps, steps.len() as int)
            &&& run.mean_distance == mean_after(steps, steps.len() as int)
            &&& run.stddev == stddev_after(steps, steps.len() as int)
            &&& run.converged == is_done(steps)
        }
}

/// `r` is what a run may come to with the given membership; `None` where a
/// vector belongs to none of the clusters.
pub open spec fn advance_outcome<T: ArrowFloatType>(
    run: Run<T>,
    a: Assignment<T::Native>,
    tolerance: Float64,
    r: Option<Run<T>>,
) -> bool {
    match r {
        None => !a.wf(),
        Some(next) => {
            &&& a.wf()
            &&& next.iterations == run.iterations + 1
            &&& means_outcome::<T>(a, next.kmeans@)
            &&& stddev_outcome::<T>(
                sizes_of(a.parts, a.k),
                a.parts.len() as usize,
                a.k as usize,
                next.stddev,
            )
            &&& next.mean_distance matches Some(mean) && {
                &&& mean_distance_outcome::<T>(a.parts, mean)
                &&& converged_outcome::<T>(run.mean_distance, mean, tolerance, next.converged)
            }
        },
    }
}

/// A run that is advanced with a membership of the model that it has come to has
/// come one iteration farther.
pub proof fn law_advance_is_progress<T: ArrowFloatType>(
    start: Model<T::Native>,
    data: Seq<T::Native>,
    tolerance: Float64,
    run: Run<T>,
    a: Assignment<T::Native>,
    next: Run<T>,
)
    requires
        progress_outcome(start, data, tolerance, run),
        !run.converged,
        train_once_outcome::<T>(run.kmeans@, data, run.kmeans@.dimension, Some(a)),
        advance_outcome(run, a, tolerance, Some(next)),
    ensures
        progress_outcome(start, data, tolerance, next),
{
    let steps = choose|steps: Seq<Step<T::Native>>|
        {
            &&& #[trigger] steps_outcome::<T>(start, data, tolerance, steps)
            &&& steps.len() == run.iterations
            &&& run.kmeans@ == model_after(start, steps, steps.len() as int)
            &&& run.mean_distance == mean_after(steps, steps.len() as int)
            &&& run.stddev == stddev_after(steps, steps.len() as int)
            &&& run.converged == is_done(steps)
        };
    let step = Step {
        membership: a,
        mean_distance: next.mean_distance->Some_0,
        stddev: next.stddev,
        model: next.kmeans@,
        converged: next.converged,
    };
    lemma_membership_shape::<T>(run.kmeans@, data, run.kmeans@.dimension, a);
    assert(step_outcome::<T>(run.kmeans@, run.mean_distance, data, tolerance, step));
    lemma_steps_extend::<T>(start, data, tolerance, steps, step);
    assert(steps_outcome::<T>(start, data, tolerance, steps.push(step)));
}

/// A run that is over has come to what a run may end with.
pub proof fn law_progress_ends<T: ArrowFloatType>(
    start: Model<T::Native>,
    data: Seq<T::Native>,
    max_iters: int,
    tolerance: Float64,
    run: Run<T>,
)
    requires
        progress_outcome(start, data, tolerance, run),
        run.iterations <= max_iters,
        run.iterations == max_iters || run.converged,
    ensures
        run_outcome::<T>(start, data, max_iters, tolerance, (run.kmeans@, run.stddev)),
{
}

impl<T: ArrowFloatType> Run<T> {
    /// A run that has not come anywhere yet.
    pub fn begin(start: KMeans<T>) -> (r: Self)
        ensures
            r == (Run {
                kmeans: start,
                mean_distance: None,
                stddev: Float32::spec_max(),
                iterations: 0,
                converged: false,
            }),
    {
        Run {
            kmeans: start,
            mean_distance: None,
            stddev: Float32::max(),
            iterations: 0,
            converged: false,
        }
    }

    /// Whether the run has come to its end.
    pub fn is_over(&self, max_iters: u32) -> (r: bool)
        ensures
            r == (self.converged || self.iterations >= max_iters),
    {
        self.converged || self.iterations >= max_iters
    }

    /// One iteration: takes the clusters that the model has been found to give
    /// rise to, and moves the centroids to the means of their vectors. `None` where
    /// a vector belongs to none of the clusters.
    pub fn advance(&self, membership: &KMeanMembership<T>, tolerance: Float64) -> (r: Option<Self>)
        requires
            membership.dimension > 0,
            membership.k * membership.dimension <= usize::MAX,
            self.iterations < u32::MAX,
        ensures
            advance_outcome(*self, membership@, tolerance, r),
    {
        if !membership.is_in_range() {
            return None;
        }
        let mean_distance: Float64 = membership.mean_distance();
        let stddev: Float32 = membership.hist_stddev();
        let kmeans: KMeans<T> = membership.to_kmeans();
        let converged: bool = match self.mean_distance {
            Some(mean) => {
                let difference: Float64 = T::double_sub(mean, mean_distance);
                difference.abs().lt(tolerance)
            },
            None => false,
        };
        Some(
            Run {
                kmeans,
                mean_distance: Some(mean_distance),
                stddev,
                iterations: self.iterations + 1,
                converged,
            },
        )
    }
}

/// The best of some runs.
pub struct Best<T: ArrowFloatType> {
    /// The model of the best run, if there was one.
    pub kmeans: Option<KMeans<T>>,
    /// The deviation that a run has to be below to be better.
    pub stddev: Float32,
}

/// The best of some runs and one more.
pub open spec fn better<N>(
    best: (Option<Model<N>>, Float32),
    run: (Model<N>, Float32),
) -> (Option<Model<N>>, Float32) {
    if run.1.less(best.1) {
        (Some(run.0), run.1)
    } else if best.0 is None {
        (Some(run.0), best.1)
    } else {
        best
    }
}

impl<T: ArrowFloatType> View for Best<T> {
    type V = (Option<Model<T::Native>>, Float32);

    open spec fn view(&self) -> (Option<Model<T::Native>>, Float32) {
        (view_model(self.kmeans), self.stddev)
    }
}

impl<T: ArrowFloatType> Best<T> {
    /// The best of no runs.
    pub fn none() -> (r: Self)
        ensures
            r@ == (None::<Model<T::Native>>, Float32::spec_max()),
    {
        Best { kmeans: None, stddev: Float32::max() }
    }

    /// The best of some runs and one more: the new one where its clusters are more
    /// balanced, or where there is none yet.
    pub fn offer(self, kmeans: KMeans<T>, stddev: Float32) -> (r: Self)
        ensures
            r@ == better(self@, (kmeans@, stddev)),
    {
        if stddev.lt(self.stddev) {
            Best { kmeans: Some(kmeans), stddev }
        } else if self.kmeans.is_none() {
            Best { kmeans: Some(kmeans), stddev: self.stddev }
        } else {
            self
        }
    }
}

/// `best` is the best of the runs, in the sense of [`is_best`].
pub open spec fn best_so_far<N>(
    runs: Seq<(Model<N>, Float32)>,
    best: (Option<Model<N>>, Float32),
) -> bool {
    let stddevs = stddevs_of(runs);
    if any_below(stddevs, Float32::spec_max()) {
        exists|i: int| #[trigger]
            is_argmin(stddevs, Float32::spec_max(), i) && best == (Some(runs[i].0), runs[i].1)
    } else {
        &&& best.1 == Float32::spec_max()
        &&& best.0 == if runs.len() == 0 {
            None
        } else {
            Some(runs[0].0)
        }
    }
}

/// Offering runs one after the other comes to the best of them: one more run
/// gives the best of all.
pub proof fn law_better_is_best<N>(
    runs: Seq<(Model<N>, Float32)>,
    best: (Option<Model<N>>, Float32),
    run: (Model<N>, Float32),
)
    requires
        best_so_far(runs, best),
    ensures
        best_so_far(runs.push(run), better(best, run)),
        is_best(runs.push(run), better(best, run).0->Some_0),
        better(best, run).0 is Some,
{
    let old_values = stddevs_of(runs);
    let new_values = stddevs_of(runs.push(run));
    let n = runs.len() as int;
    let bound = Float32::spec_max();
    assert(new_values.len() == n + 1);
    assert(new_values[n] == run.1);
    assert(runs.push(run)[n] == run);
    assert forall|j: int| 0 <= j < n implies #[trigger] new_values[j] == old_values[j] by {}
    if any_below(old_values, bound) {
        let i = choose|i: int| #[trigger]
            is_argmin(old_values, bound, i) && best == (Some(runs[i].0), runs[i].1);
        assert(new_values[i] == old_values[i]);
        assert(old_values[i] == best.1);
        let at = if run.1.less(best.1) {
            n
        } else {
            i
        };
        assert forall|j: int| 0 <= j < n + 1 implies !(#[trigger] new_values[j]).less(
            new_values[at],
        ) by {
            if j < n {
                assert(new_values[j] == old_values[j]);
            }
        }
        assert(is_argmin(new_values, bound, at));
        assert(runs.push(run)[i] == runs[i]);
    } else {
        assert forall|j: int| 0 <= j < n implies !(#[trigger] new_values[j]).less(bound) by {
            assert(new_values[j] == old_values[j]);
        }
        if run.1.less(best.1) {
            assert(is_argmin(new_values, bound, n));
        } else {
            assert forall|j: int| 0 <= j < n + 1 implies !(#[trigger] new_values[j]).less(
                bound,
            ) by {
                if j < n {
                    assert(new_values[j] == old_values[j]);
                }
            }
            assert(n > 0 ==> runs.push(run)[0] == runs[0]);
        }
    }
}

/// What models hold.
pub open spec fn models_of<T: ArrowFloatType>(models: Seq<KMeans<T>>) -> Seq<Model<T::Native>> {
    models.map_values(|m: KMeans<T>| m@)
}

/// Views an optional model.
pub open spec fn view_model<T: ArrowFloatType>(r: Option<KMeans<T>>) -> Option<Model<T::Native>> {
    match r {
        Some(m) => Some(m@),
        None => None,
    }
}

/// Whether `r` says that the vectors are not made of the expected numbers, and
/// names the type that they are made of.
pub open spec fn is_not_floating<R>(data: FixedSizeListArray, r: Result<R, Error>) -> bool {
    &&& r matches Err(Error::NotFloating { data_type })
    &&& !list_has_fields(data) ==> data_type@ == list_type_text(data)
    &&& list_is_floating(data) ==> data_type@ == list_type_text(data) && is_floating_name(
        data_type@,
    )
}

/// Whether runs are to start from centroids that k-means++ gives.
pub open spec fn needs_plus_plus<T: ArrowFloatType>(params: KMeansParams<T>) -> bool {
    params.redos > 0 && params.centroids is None && params.init is KMeanPlusPlus
}

/// `r` is what training on a column may give, once its values have been read.
pub open spec fn values_outcome<T: ArrowFloatType>(
    data: FixedSizeListArray,
    k: usize,
    params: KMeansParams<T>,
    values: Option<Vec<T::Native>>,
    r: Result<KMeans<T>, Error>,
) -> bool {
    let dim = list_value_length(data);
    match values {
        None => is_not_floating(data, r),
        Some(v) => if needs_plus_plus(params) {
            r matches Err(Error::UnsupportedInit)
        } else if dim < 0 || !ready(params, v@.len() as int, dim, k as int) {
            r matches Err(Error::InvalidShape)
        } else {
            match r {
                Ok(m) => train_outcome(params, v@, dim, k as int, Some(m@)),
                Err(e) => e is NoCluster && train_outcome(
                    params,
                    v@,
                    dim,
                    k as int,
                    None,
                ),
            }
        },
    }
}

/// `r` is what a column may be found to hold for training.
pub open spec fn prepared_outcome<T: ArrowFloatType>(
    data: FixedSizeListArray,
    k: usize,
    params: KMeansParams<T>,
    r: Result<MatrixView<T>, Error>,
) -> bool {
    if list_len(data) < k {
        r matches Err(Error::TooFewPoints { n, k: asked }) && n == list_len(data) && asked == k
    } else if !list_is_floating(data) {
        is_not_floating(data, r)
    } else {
        exists|values: Option<Vec<T::Native>>|
            {
                &&& #[trigger] call_ensures(T::list_values, (&data,), values)
                &&& matrix_outcome(data, k, params, values, r)
            }
    }
}

/// `r` is the matrix of the values of a column, or why it cannot be trained on.
pub open spec fn matrix_outcome<T: ArrowFloatType>(
    data: FixedSizeListArray,
    k: usize,
    params: KMeansParams<T>,
    values: Option<Vec<T::Native>>,
    r: Result<MatrixView<T>, Error>,
) -> bool {
    let dim = list_value_length(data);
    match values {
        None => is_not_floating(data, r),
        Some(v) => if needs_plus_plus(params) {
            r matches Err(Error::UnsupportedInit)
        } else if dim < 0 || !ready(params, v@.len() as int, dim, k as int) {
            r matches Err(Error::InvalidShape)
        } else {
            r matches Ok(mat) && mat.data@ == v@ && mat.num_columns == dim
        },
    }
}

/// `r` is what training on a column may give.
pub open spec fn training_outcome<T: ArrowFloatType>(
    data: FixedSizeListArray,
    k: usize,
    params: KMeansParams<T>,
    r: Result<KMeans<T>, Error>,
) -> bool {
    if list_len(data) < k {
        r matches Err(Error::TooFewPoints { n, k: asked }) && n == list_len(data) && asked == k
    } else if !list_is_floating(data) {
        is_not_floating(data, r)
    } else {
        exists|values: Option<Vec<T::Native>>|
            {
                &&& #[trigger] call_ensures(T::list_values, (&data,), values)
                &&& values_outcome(data, k, params, values, r)
            }
    }
}

/// Where a column cannot be trained on, training says so.
proof fn lemma_prepared_fails<T: ArrowFloatType>(
    data: FixedSizeListArray,
    k: usize,
    params: KMeansParams<T>,
    e: Error,
)
    requires
        prepared_outcome(data, k, params, Err(e)),
    ensures
        training_outcome(data, k, params, Err(e)),
{
    let failed = Err::<KMeans<T>, Error>(e);
    if list_len(data) >= k && list_is_floating(data) {
        let values = choose|values: Option<Vec<T::Native>>|
            {
                &&& #[trigger] call_ensures(T::list_values, (&data,), values)
                &&& matrix_outcome(data, k, params, values, Err(e))
            };
        assert(values_outcome(data, k, params, values, failed));
    }
}

/// Whether there are centroids that a run can start from.
fn is_startable<T: ArrowFloatType>(
    params: &KMeansParams<T>,
    len: usize,
    dim: usize,
    k: usize,
) -> (r: bool)
    ensures
        r == can_start(*params, len as int, dim as int, k as int),
{
    if params.centroids.is_some() {
        return true;
    }
    let size: u128 = wide_product(k, dim);
    let room: u128 = wide_product(k, core::mem::size_of::<usize>());
    params.init == KMeanInit::Random && dim > 0 && size <= len as u128 && room
        <= isize::MAX as u128
}

/// Whether training is possible as asked for.
fn is_ready<T: ArrowFloatType>(params: &KMeansParams<T>, len: usize, dim: usize, k: usize) -> (r:
    bool)
    ensures
        r == ready(*params, len as int, dim as int, k as int),
{
    if params.redos == 0 {
        return true;
    }
    let size: u128 = wide_product(k, dim);
    let iterations_fit: bool = params.max_iters == 0 || dim > 0 && k as u128 <= 0x1_0000_0000
        && size <= usize::MAX as u128 && match &params.centroids {
        Some(centroids) => (centroids.len() / dim) as u128 <= 0x1_0000_0000,
        None => true,
    };
    is_startable(params, len, dim, k) && iterations_fit
}

impl<T: ArrowFloatType> KMeans<T> {
    /// Whether training can go on from this model.
    pub open spec fn trainable(self, data: MatrixView<T>) -> bool {
        &&& self.dimension == data.num_columns
        &&& can_iterate(self@.dimension, self@.k)
        &&& self.usable()
    }

    /// Trains from this model on, for at most `max_iters` iterations. Gives the
    /// last model with the deviation of its cluster sizes; `None` where a row
    /// belongs to none of the clusters.
    fn run(self, data: &MatrixView<T>, max_iters: u32, tolerance: Float64) -> (r: Option<
        (Self, Float32),
    >)
        requires
            max_iters > 0 ==> self.trainable(*data),
        ensures
            match r {
                Some(run) => run_outcome::<T>(
                    self@,
                    data.data@,
                    max_iters as int,
                    tolerance,
                    (run.0@, run.1),
                ),
                None => run_fails::<T>(self@, data.data@, max_iters as int, tolerance),
            },
    {
        let ghost start = self@;
        let mut run: Run<T> = Run::begin(self);
        proof {
            assert(steps_outcome::<T>(start, data.data@, tolerance, Seq::empty()));
        }
        while !run.is_over(max_iters)
            invariant
                start == self@,
                progress_outcome(start, data.data@, tolerance, run),
                run.iterations <= max_iters,
                max_iters > 0 ==> run.kmeans.trainable(*data),
            decreases max_iters - run.iterations,
        {
            if !run.kmeans.can_measure(data.num_rows()) {
                return None;
            }
            let last_membership: KMeanMembership<T> = match run.kmeans.train_once(data) {
                Some(m) => m,
                None => {
                    return None;
                },
            };
            proof {
                lemma_membership_shape::<T>(
                    run.kmeans@,
                    data.data@,
                    data.num_columns as int,
                    last_membership@,
                );
            }
            match run.advance(&last_membership, tolerance) {
                Some(next) => {
                    proof {
                        law_advance_is_progress(
                            start,
                            data.data@,
                            tolerance,
                            run,
                            last_membership@,
                            next,
                        );
                        vstd::arithmetic::div_mod::lemma_div_by_multiple(
                            next.kmeans@.k,
                            next.kmeans@.dimension,
                        );
                    }
                    run = next;
                },
                None => {
                    return None;
                },
            }
        }
        proof {
            law_progress_ends(start, data.data@, max_iters as int, tolerance, run);
        }
        Some((run.kmeans, run.stddev))
    }

    /// Trains from each of the given models, and picks the run with the most
    /// balanced clusters. `None` where a row belongs to none of the clusters.
    pub fn train_from(
        data: &MatrixView<T>,
        starts: &Vec<Self>,
        max_iters: u32,
        tolerance: Float64,
    ) -> (r: Option<Self>)
        requires
            starts@.len() > 0,
            forall|i: int|
                0 <= i < starts@.len() && max_iters > 0 ==> (#[trigger] starts@[i]).trainable(
                    *data,
                ),
        ensures
            train_from_outcome::<T>(
                models_of(starts@),
                data.data@,
                max_iters as int,
                tolerance,
                view_model(r),
            ),
    {
        let ghost models = models_of(starts@);
        let ghost mut runs: Seq<(Model<T::Native>, Float32)> = Seq::empty();
        let mut best: Best<T> = Best::none();
        let mut i: usize = 0;
        while i < starts.len()
            invariant
                forall|p: int|
                    0 <= p < starts@.len() && max_iters > 0 ==> (#[trigger] starts@[p]).trainable(
                        *data,
                    ),
                models == models_of(starts@),
                i <= starts@.len(),
                runs.len() == i,
                forall|p: int|
                    0 <= p < i ==> run_outcome::<T>(
                        models[p],
                        data.data@,
                        max_iters as int,
                        tolerance,
                        #[trigger] runs[p],
                    ),
                best_so_far(runs, best@),
                i > 0 ==> best@.0 is Some && is_best(runs, best@.0->Some_0),
            decreases starts@.len() - i,
        {
            assert(models[i as int] == starts@[i as int]@);
            match starts[i].clone().run(data, max_iters, tolerance) {
                Some((kmeans, stddev)) => {
                    proof {
                        let run = (kmeans@, stddev);
                        law_better_is_best(runs, best@, run);
                        let more = runs.push(run);
                        assert forall|p: int| 0 <= p < more.len() implies run_outcome::<T>(
                            models[p],
                            data.data@,
                            max_iters as int,
                            tolerance,
                            #[trigger] more[p],
                        ) by {
                            if p < runs.len() {
                                assert(more[p] == runs[p]);
                            }
                        }
                        runs = more;
                    }
                    best = best.offer(kmeans, stddev);
                },
                None => {
                    return None;
                },
            }
            i += 1;
        }
        proof {
            assert(runs_from::<T>(models, data.data@, max_iters as int, tolerance, runs));
        }
        best.kmeans
    }

    /// The model that a run starts from: the given centroids, or random ones where
    /// none are given.
    fn start(
        data: &MatrixView<T>,
        k: usize,
        params: &KMeansParams<T>,
        rng: &mut SmallRng,
    ) -> (r: Self)
        requires
            can_start(*params, data.data@.len() as int, data.num_columns as int, k as int),
        ensures
            start_outcome(*params, data.data@, data.num_columns as int, k as int, r@),
    {
        match &params.centroids {
            Some(centroids) => KMeans::with_centroids(
                centroids.clone(),
                k,
                data.num_columns,
                params.metric_type,
            ),
            None => kmeans_random_init(data, k, params.metric_type, rng),
        }
    }

    /// The models that the runs start from, drawn one after the other where they
    /// are random.
    pub fn draw_starts(
        data: &MatrixView<T>,
        k: usize,
        params: &KMeansParams<T>,
        rng: SmallRng,
    ) -> (r: Vec<Self>)
        requires
            ready(*params, data.data@.len() as int, data.num_columns as int, k as int),
        ensures
            r@.len() == params.redos,
            starts_outcome(
                *params,
                data.data@,
                data.num_columns as int,
                k as int,
                models_of(r@),
            ),
            forall|i: int|
                0 <= i < r@.len() && params.max_iters > 0 ==> (#[trigger] r@[i]).trainable(*data),
    {
        let dimension: usize = data.num_columns;
        let mut rng: SmallRng = rng;
        let mut starts: Vec<KMeans<T>> = Vec::new();
        while starts.len() < params.redos
            invariant
                ready(*params, data.data@.len() as int, data.num_columns as int, k as int),
                dimension == data.num_columns,
                starts@.len() <= params.redos,
                starts_outcome(
                    *params,
                    data.data@,
                    dimension as int,
                    k as int,
                    models_of(starts@),
                ),
                forall|i: int|
                    0 <= i < starts@.len() && params.max_iters > 0 ==> (
                    #[trigger] starts@[i]).trainable(*data),
            decreases params.redos - starts@.len(),
        {
            let ghost before = starts@;
            let start: KMeans<T> = Self::start(data, k, params, &mut rng);
            proof {
                let model = start@;
                if params.centroids is None {
                    law_random_start(
                        data.data@,
                        dimension as int,
                        k as int,
                        params.metric_type,
                        model,
                    );
                    vstd::arithmetic::div_mod::lemma_div_by_multiple(k as int, dimension as int);
                }
                assert(models_of(before.push(start)) =~= models_of(before).push(model));
            }
            starts.push(start);
        }
        starts
    }

    /// The model that is left where no run is asked for: one that a run would start
    /// from, or one without centroids where no run can start.
    pub fn idle(data: &MatrixView<T>, k: usize, params: &KMeansParams<T>, rng: SmallRng) -> (r:
        Self)
        ensures
            idle_outcome(*params, data.data@, data.num_columns as int, k as int, r@),
    {
        let mut rng: SmallRng = rng;
        if is_startable(params, data.data.len(), data.num_columns, k) {
            Self::start(data, k, params, &mut rng)
        } else {
            KMeans::empty(k, data.num_columns, params.metric_type)
        }
    }

    /// Trains a model on the rows of a matrix: `params.redos` runs, of which the
    /// one with the most balanced clusters is picked. Where no run is asked for,
    /// gives the model that one would start from. `None` where a row belongs to
    /// none of the clusters.
    pub fn train(data: &MatrixView<T>, k: usize, params: &KMeansParams<T>, rng: SmallRng) -> (r:
        Option<Self>)
        requires
            ready(*params, data.data@.len() as int, data.num_columns as int, k as int),
        ensures
            train_outcome(
                *params,
                data.data@,
                data.num_columns as int,
                k as int,
                view_model(r),
            ),
    {
        if params.redos == 0 {
            return Some(Self::idle(data, k, params, rng));
        }
        let starts: Vec<KMeans<T>> = Self::draw_starts(data, k, params, rng);
        proof {
            assert(models_of(starts@).len() == params.redos);
        }
        Self::train_from(data, &starts, params.max_iters, params.tolerance)
    }

    /// The rows that a column holds for training. Fails where there are fewer
    /// vectors than clusters, where the vectors are not made of the floating point
    /// numbers that are asked for, where centroids are to be initialized by
    /// k-means++, and where the shape of the vectors does not allow for what is
    /// asked for.
    pub fn prepare(data: &FixedSizeListArray, k: usize, params: &KMeansParams<T>) -> (r: Result<
        MatrixView<T>,
        Error,
    >)
        ensures
            prepared_outcome(*data, k, *params, r),
            r matches Ok(mat) ==> ready(
                *params,
                mat.data@.len() as int,
                mat.num_columns as int,
                k as int,
            ),
    {
        let n: usize = count_rows(data);
        if n < k {
            return Err(Error::TooFewPoints { n, k });
        }
        if !is_floating(data) {
            return Err(Error::NotFloating { data_type: type_text(data) });
        }
        let values: Vec<T::Native> = match T::list_values(data) {
            Some(values) => values,
            None => {
                return Err(Error::NotFloating { data_type: type_text(data) });
            },
        };
        let ghost read = Some(values);
        if params.redos > 0 && params.centroids.is_none() && params.init
            == KMeanInit::KMeanPlusPlus {
            assert(matrix_outcome(*data, k, *params, read, Err(Error::UnsupportedInit)));
            return Err(Error::UnsupportedInit);
        }
        let width: i32 = data.value_length();
        if width < 0 || !is_ready(params, values.len(), width as usize, k) {
            assert(matrix_outcome(*data, k, *params, read, Err(Error::InvalidShape)));
            return Err(Error::InvalidShape);
        }
        let mat: MatrixView<T> = MatrixView::new(Arc::new(values), width as usize);
        assert(matrix_outcome(*data, k, *params, read, Ok(mat)));
        Ok(mat)
    }

    /// Trains a model with `k` clusters with full parameters.
    ///
    /// Fails where [`prepare`](KMeans::prepare) does, and where a vector belongs to
    /// none of the clusters.
    pub fn new_with_params(data: &FixedSizeListArray, k: usize, params: &KMeansParams<T>) -> (r:
        Result<Self, Error>)
        ensures
            training_outcome(*data, k, *params, r),
            r matches Ok(m) ==> {
                &&& m.k == k
                &&& m.metric_type == params.metric_type
                &&& m.dimension == list_value_length(*data)
            },
    {
        let mat: MatrixView<T> = match Self::prepare(data, k, params) {
            Ok(mat) => mat,
            Err(e) => {
                proof {
                    lemma_prepared_fails(*data, k, *params, e);
                }
                return Err(e);
            },
        };
        let rng: SmallRng = rng_from_entropy();
        let r = match Self::train(&mat, k, params, rng) {
            Some(kmeans) => Ok(kmeans),
            None => Err(Error::NoCluster),
        };
        proof {
            let values = choose|values: Option<Vec<T::Native>>|
                {
                    &&& #[trigger] call_ensures(T::list_values, (data,), values)
                    &&& matrix_outcome(*data, k, *params, values, Ok(mat))
                };
            assert(values_outcome(*data, k, *params, values, r));
            if r is Ok {
                law_trained_model_is_as_asked(*data, k, *params, r->Ok_0);
            }
        }
        r
    }

    /// Trains a model with `k` clusters by squared Euclidean distance.
    pub fn new(data: &FixedSizeListArray, k: usize, max_iters: u32) -> (r: Result<Self, Error>)
        ensures
            training_outcome(*data, k, default_params::<T>(max_iters), r),
            training_outcome(
                *data,
                k,
                (KMeansParams::<T> {
                    max_iters,
                    tolerance: Float64 { bits: 0x3f1a_36e2_eb1c_432d },
                    redos: 1,
                    init: KMeanInit::Random,
                    metric_type: MetricType::L2,
                    centroids: None,
                }),
                r,
            ),
            r matches Ok(m) ==> {
                &&& m.k == k
                &&& m.metric_type == MetricType::L2
                &&& m.dimension == list_value_length(*data)
            },
    {
        let defaults: KMeansParams<T> = KMeansParams::default();
        let params: KMeansParams<T> = KMeansParams {
            max_iters,
            tolerance: defaults.tolerance,
            redos: defaults.redos,
            init: defaults.init,
            metric_type: MetricType::L2,
            centroids: defaults.centroids,
        };
        Self::new_with_params(data, k, &params)
    }
}

} // verus!
