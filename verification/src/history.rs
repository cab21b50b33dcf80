//! What runs pass through.

use vstd::prelude::*;

use crate::assign::train_once_outcome;
use crate::clusters::{is_quotient_exact, law_mean_distance_times_count};
use crate::distance::MetricType;
use crate::exact::{is_double_exact, Values};
use crate::float::{Float32, Float64};
use crate::membership::{mean_distance_outcome, means_outcome, sizes_of, stddev_outcome, Assignment};
use crate::model::Model;
use crate::reals::sum_to;
use crate::scalar::{ArrowFloatType, FloatArithmetic};
use crate::training::{
    converged_outcome, follows, is_done, lemma_membership_shape, model_after, run_fails,
    run_outcome, stddev_after, step_fails, steps_outcome, Step,
};

verus! {

/// What a run passes through: models, the clusters that each of them but the
/// last gives rise to, and the mean distances of these.
pub struct History<N> {
    /// The model that the run starts from, and those that it comes to.
    pub models: Seq<Model<N>>,
    /// The clusters of each model but the last.
    pub memberships: Seq<Assignment<N>>,
    /// The mean distance in each of the memberships.
    pub distances: Seq<Float64>,
}

/// Two mean distances may be found to differ by less than the tolerance, or may
/// be found not to.
pub open spec fn may_compare<T: FloatArithmetic>(
    before: Float64,
    now: Float64,
    tolerance: Float64,
    close: bool,
) -> bool {
    exists|d: Float64|
        {
            &&& #[trigger] call_ensures(T::double_sub, (before, now), d)
            &&& (Float64 { bits: d.bits % 0x8000_0000_0000_0000 }).less(tolerance) == close
        }
}

/// From its `i`-th model a history goes on to the means of its clusters.
pub open spec fn goes_on<T: ArrowFloatType>(
    data: Seq<T::Native>,
    h: History<T::Native>,
    i: int,
) -> bool {
    let a = h.memberships[i];
    &&& train_once_outcome::<T>(h.models[i], data, h.models[i].dimension, Some(a))
    &&& forall|p: int| 0 <= p < a.parts.len() ==> (#[trigger] a.parts[p]).0 < h.models[i].k
    &&& mean_distance_outcome::<T>(a.parts, h.distances[i])
    &&& means_outcome::<T>(a, h.models[i + 1])
}

/// `h` is what a run from the given model may pass through in `n` iterations,
/// none of them after one whose mean distance is close to that before it.
pub open spec fn is_history<T: ArrowFloatType>(
    start: Model<T::Native>,
    data: Seq<T::Native>,
    tolerance: Float64,
    h: History<T::Native>,
    n: int,
) -> bool {
    &&& 0 <= n
    &&& h.models.len() == n + 1
    &&& h.memberships.len() == n
    &&& h.distances.len() == n
    &&& h.models[0] == start
    &&& forall|i: int| 0 <= i < n ==> #[trigger] goes_on::<T>(data, h, i)
    &&& forall|i: int, j: int|
        0 <= i && j == i + 1 && j + 1 < n ==> may_compare::<T>(
            #[trigger] h.distances[i],
            #[trigger] h.distances[j],
            tolerance,
            false,
        )
}

/// The history of some steps.
spec fn history_of<N>(start: Model<N>, steps: Seq<Step<N>>) -> History<N> {
    History {
        models: Seq::new(steps.len() + 1, |i: int| model_after(start, steps, i)),
        memberships: steps.map_values(|step: Step<N>| step.membership),
        distances: steps.map_values(|step: Step<N>| step.mean_distance),
    }
}

pub proof fn lemma_converged_compares<T: FloatArithmetic>(
    before: Float64,
    now: Float64,
    tolerance: Float64,
    r: bool,
)
    requires
        converged_outcome::<T>(Some(before), now, tolerance, r),
    ensures
        may_compare::<T>(before, now, tolerance, r),
{
    let d = choose|d: Float64|
        {
            &&& #[trigger] call_ensures(T::double_sub, (before, now), d)
            &&& r == d.spec_abs().less(tolerance)
        };
    let x = d.bits;
    assert(x < 0x8000_0000_0000_0000 ==> x % 0x8000_0000_0000_0000 == x);
    assert(x >= 0x8000_0000_0000_0000 ==> x % 0x8000_0000_0000_0000 == x - 0x8000_0000_0000_0000);
    assert(d.spec_abs() == Float64 { bits: d.bits % 0x8000_0000_0000_0000 });
}

proof fn lemma_steps_are_history<T: ArrowFloatType>(
    start: Model<T::Native>,
    data: Seq<T::Native>,
    tolerance: Float64,
    steps: Seq<Step<T::Native>>,
)
    requires
        steps_outcome::<T>(start, data, tolerance, steps),
    ensures
        is_history::<T>(start, data, tolerance, history_of(start, steps), steps.len() as int),
        steps.len() >= 2 ==> may_compare::<T>(
            steps[steps.len() - 2].mean_distance,
            steps[steps.len() - 1].mean_distance,
            tolerance,
            is_done(steps),
        ),
        is_done(steps) ==> steps.len() >= 2,
{
    let h = history_of(start, steps);
    let n = steps.len() as int;
    assert forall|i: int| 0 <= i < n implies #[trigger] goes_on::<T>(data, h, i) by {
        assert(follows::<T>(start, data, tolerance, steps, i));
        assert(h.models[i] == model_after(start, steps, i));
        assert(h.models[i + 1] == steps[i].model);
        lemma_membership_shape::<T>(
            h.models[i],
            data,
            h.models[i].dimension,
            steps[i].membership,
        );
    }
    assert forall|i: int, j: int| 0 <= i && j == i + 1 && j < n implies may_compare::<T>(
        #[trigger] h.distances[i],
        #[trigger] h.distances[j],
        tolerance,
        steps[j].converged,
    ) by {
        assert(follows::<T>(start, data, tolerance, steps, j));
        lemma_converged_compares::<T>(
            steps[i].mean_distance,
            steps[j].mean_distance,
            tolerance,
            steps[j].converged,
        );
    }
    if n > 0 {
        assert(follows::<T>(start, data, tolerance, steps, 0));
    }
    if n >= 2 {
        assert(h.distances[n - 2] == steps[n - 2].mean_distance);
        assert(h.distances[n - 1] == steps[n - 1].mean_distance);
    }
}

/// A run goes through models, each with the means of the clusters of the one
/// before it, from the one that it starts from to the one that it ends with. It
/// does not go on after an iteration whose mean distance is close to that of the
/// one before, and stops short of `max_iters` iterations only there. Its
/// deviation is that of the clusters in the last iteration.
pub proof fn law_run_passes_through_means<T: ArrowFloatType>(
    start: Model<T::Native>,
    data: Seq<T::Native>,
    max_iters: int,
    tolerance: Float64,
    m: Model<T::Native>,
    stddev: Float32,
) -> (r: (History<T::Native>, int))
    requires
        run_outcome::<T>(start, data, max_iters, tolerance, (m, stddev)),
    ensures
        is_history::<T>(start, data, tolerance, r.0, r.1),
        r.1 <= max_iters,
        m == r.0.models[r.1],
        r.1 == 0 ==> stddev.bits == 0x7f7f_ffff,
        r.1 > 0 ==> stddev_outcome::<T>(
            sizes_of(r.0.memberships[r.1 - 1].parts, start.k),
            r.0.memberships[r.1 - 1].parts.len() as usize,
            start.k as usize,
            stddev,
        ),
        r.1 < max_iters ==> r.1 >= 2 && may_compare::<T>(
            r.0.distances[r.1 - 2],
            r.0.distances[r.1 - 1],
            tolerance,
            true,
        ),
{
    let steps = choose|steps: Seq<Step<T::Native>>|
        {
            &&& #[trigger] steps_outcome::<T>(start, data, tolerance, steps)
            &&& steps.len() <= max_iters
            &&& steps.len() == max_iters || is_done(steps)
            &&& m == model_after(start, steps, steps.len() as int)
            &&& stddev == stddev_after(steps, steps.len() as int)
        };
    let n = steps.len() as int;
    lemma_steps_are_history::<T>(start, data, tolerance, steps);
    if n > 0 {
        assert(follows::<T>(start, data, tolerance, steps, n - 1));
        lemma_steps_keep_k::<T>(start, data, tolerance, steps, n - 1);
    }
    (history_of(start, steps), n)
}

/// All models of a run have the same number of clusters.
proof fn lemma_steps_keep_k<T: ArrowFloatType>(
    start: Model<T::Native>,
    data: Seq<T::Native>,
    tolerance: Float64,
    steps: Seq<Step<T::Native>>,
    i: int,
)
    requires
        steps_outcome::<T>(start, data, tolerance, steps),
        0 <= i < steps.len(),
    ensures
        model_after(start, steps, i).k == start.k,
    decreases i,
{
    if i > 0 {
        lemma_steps_keep_k::<T>(start, data, tolerance, steps, i - 1);
        assert(follows::<T>(start, data, tolerance, steps, i - 1));
        let before = model_after(start, steps, i - 1);
        lemma_membership_shape::<T>(before, data, before.dimension, steps[i - 1].membership);
    }
}

/// A model may give rise to a vector that belongs to none of its clusters: there
/// is no centroid to measure it against, none of them has a finite distance, or
/// the nearest has a place beyond the number of clusters.
pub open spec fn may_lose_a_vector<T: ArrowFloatType>(
    model: Model<T::Native>,
    data: Seq<T::Native>,
) -> bool {
    ||| {
        &&& model.metric_type != MetricType::L2
        &&& data.len() as int / model.dimension > 0
        &&& model.centroids.len() as int / model.dimension <= 0
    }
    ||| train_once_outcome::<T>(model, data, model.dimension, None)
    ||| exists|a: Assignment<T::Native>, p: int|
        {
            &&& #[trigger] train_once_outcome::<T>(model, data, model.dimension, Some(a))
            &&& 0 <= p < a.parts.len()
            &&& (#[trigger] a.parts[p]).0 >= model.k
        }
}

/// A run that fails has come, in less than `max_iters` iterations and without
/// being done, to a model that may give rise to a vector that belongs to none of
/// its clusters.
pub proof fn law_failed_run_loses_a_vector<T: ArrowFloatType>(
    start: Model<T::Native>,
    data: Seq<T::Native>,
    max_iters: int,
    tolerance: Float64,
) -> (r: (History<T::Native>, int))
    requires
        run_fails::<T>(start, data, max_iters, tolerance),
    ensures
        is_history::<T>(start, data, tolerance, r.0, r.1),
        r.1 < max_iters,
        r.1 >= 2 ==> may_compare::<T>(
            r.0.distances[r.1 - 2],
            r.0.distances[r.1 - 1],
            tolerance,
            false,
        ),
        may_lose_a_vector::<T>(r.0.models[r.1], data),
{
    let steps = choose|steps: Seq<Step<T::Native>>|
        {
            &&& #[trigger] steps_outcome::<T>(start, data, tolerance, steps)
            &&& steps.len() < max_iters
            &&& !is_done(steps)
            &&& step_fails::<T>(model_after(start, steps, steps.len() as int), data)
        };
    let n = steps.len() as int;
    lemma_steps_are_history::<T>(start, data, tolerance, steps);
    let h = history_of(start, steps);
    let model = model_after(start, steps, n);
    assert(h.models[n] == model);
    if exists|a: Assignment<T::Native>|
        {
            &&& #[trigger] train_once_outcome::<T>(model, data, model.dimension, Some(a))
            &&& !a.wf()
        } {
        let a = choose|a: Assignment<T::Native>|
            {
                &&& #[trigger] train_once_outcome::<T>(model, data, model.dimension, Some(a))
                &&& !a.wf()
            };
        lemma_membership_shape::<T>(model, data, model.dimension, a);
        let p = choose|p: int| 0 <= p < a.parts.len() && !((#[trigger] a.parts[p]).0 < a.k);
        assert(a.parts[p].0 >= model.k);
    }
    (h, n)
}

/// A run that stops before `max_iters` iterations has two last iterations whose
/// mean distances differ by less than the tolerance. Each mean distance, times
/// the number of vectors, is the sum of what the distances stand for.
pub proof fn law_early_stop_means_close_distances<T: ArrowFloatType>(
    v: Values<T::Native>,
    start: Model<T::Native>,
    data: Seq<T::Native>,
    max_iters: int,
    tolerance: Float64,
    m: Model<T::Native>,
    stddev: Float32,
) -> (r: (History<T::Native>, int))
    requires
        is_double_exact::<T>(v.single, v.double),
        is_quotient_exact::<T>(v.double),
        start.dimension > 0,
        data.len() <= usize::MAX,
        data.len() as int / start.dimension > 0,
        run_outcome::<T>(start, data, max_iters, tolerance, (m, stddev)),
    ensures
        is_history::<T>(start, data, tolerance, r.0, r.1),
        r.1 <= max_iters,
        m == r.0.models[r.1],
        forall|i: int|
            0 <= i < r.1 ==> (v.double)(#[trigger] r.0.distances[i]) * (data.len() as int
                / start.dimension) as real == sum_to(
                data.len() as int / start.dimension,
                |p: int| (v.single)(r.0.memberships[i].parts[p].1),
            ),
        r.1 < max_iters ==> {
            &&& r.1 >= 2
            &&& (v.double)(r.0.distances[r.1 - 2]) - (v.double)(r.0.distances[r.1 - 1])
                < (v.double)(tolerance)
            &&& (v.double)(r.0.distances[r.1 - 1]) - (v.double)(r.0.distances[r.1 - 2])
                < (v.double)(tolerance)
        },
{
    let (h, n) = law_run_passes_through_means::<T>(
        start,
        data,
        max_iters,
        tolerance,
        m,
        stddev,
    );
    let count = data.len() as int / start.dimension;
    vstd::arithmetic::div_mod::lemma_div_nonincreasing(data.len() as int, start.dimension);
    assert forall|i: int| 0 <= i < n implies (v.double)(#[trigger] h.distances[i])
        * count as real == sum_to(
        count,
        |p: int| (v.single)(h.memberships[i].parts[p].1),
    ) by {
        assert(goes_on::<T>(data, h, i));
        lemma_history_keeps_dimension::<T>(start, data, tolerance, h, n, i);
        let parts = h.memberships[i].parts;
        lemma_membership_shape::<T>(
            h.models[i],
            data,
            h.models[i].dimension,
            h.memberships[i],
        );
        law_mean_distance_times_count::<T>(v.single, v.double, parts, h.distances[i]);
    }
    if n < max_iters {
        let before = h.distances[n - 2];
        let now = h.distances[n - 1];
        let d = choose|d: Float64|
            {
                &&& #[trigger] call_ensures(T::double_sub, (before, now), d)
                &&& (Float64 { bits: d.bits % 0x8000_0000_0000_0000 }).less(tolerance) == true
            };
        let x = d.bits;
        let size = Float64 { bits: x % 0x8000_0000_0000_0000 };
        assert((v.double)(d) == (v.double)(before) - (v.double)(now));
        assert(x < 0x8000_0000_0000_0000 ==> size == d);
        assert(x >= 0x8000_0000_0000_0000 ==> size.bits + 0x8000_0000_0000_0000 == d.bits);
        assert((v.double)(size) < (v.double)(tolerance));
        assert(!size.less(Float64::spec_zero()));
        assert(!size.is_nan());
        assert(!Float64::spec_zero().is_nan());
        assert((v.double)(size) >= 0 as real);
        if x >= 0x8000_0000_0000_0000 {
            assert((v.double)(size) == -(v.double)(d));
        }
    }
    (h, n)
}

/// All models of a history have the same width.
proof fn lemma_history_keeps_dimension<T: ArrowFloatType>(
    start: Model<T::Native>,
    data: Seq<T::Native>,
    tolerance: Float64,
    h: History<T::Native>,
    n: int,
    i: int,
)
    requires
        is_history::<T>(start, data, tolerance, h, n),
        0 <= i <= n,
    ensures
        h.models[i].dimension == start.dimension,
    decreases i,
{
    if i > 0 {
        let p = i - 1;
        lemma_history_keeps_dimension::<T>(start, data, tolerance, h, n, p);
        assert(goes_on::<T>(data, h, p));
        lemma_membership_shape::<T>(
            h.models[p],
            data,
            h.models[p].dimension,
            h.memberships[p],
        );
    }
}

} // verus!
