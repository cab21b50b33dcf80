//! Choosing the centroids that training starts from.

use rand::rngs::SmallRng;
use rand::seq::IteratorRandom;
use rand::SeedableRng;
use std::sync::Arc;

use vstd::layout::size_of;
use vstd::prelude::*;

use crate::distance::MetricType;
use crate::error::Error;
use crate::matrix::{lemma_row_bounds, row, MatrixView};
use crate::model::{KMeans, Model};
use crate::scalar::ArrowFloatType;

verus! {

/// Type declaration of [`rand::rngs::SmallRng`], a random number generator.
#[verifier::external_type_specification]
#[verifier::external_body]
pub struct ExSmallRng(SmallRng);

/// [`SeedableRng::from_entropy`]: a generator seeded by the operating system.
/// Nothing is claimed of its state. The call panics where the operating system
/// has no randomness to give.
#[verifier::external_body]
pub(crate) fn rng_from_entropy() -> (r: SmallRng) {
    SmallRng::from_entropy()
}

/// Whether `chosen` are `amount` different numbers below `n`, or all of them
/// where there are fewer.
pub open spec fn is_sample(chosen: Seq<usize>, n: int, amount: int) -> bool {
    &&& chosen.len() == if amount <= n {
        amount
    } else {
        n
    }
    &&& forall|i: int| 0 <= i < chosen.len() ==> #[trigger] chosen[i] < n
    &&& chosen.no_duplicates()
}

/// [`IteratorRandom::choose_multiple`] over the numbers below `n`: `amount`
/// different ones of them, in some order, or all of them where there are fewer.
/// Which ones is up to chance. The room for them is reserved up front, so it
/// must not exceed what a vector can hold.
#[verifier::external_body]
pub(crate) fn choose_multiple(n: usize, rng: &mut SmallRng, amount: usize) -> (r: Vec<usize>)
    requires
        amount * size_of::<usize>() <= isize::MAX,
    ensures
        is_sample(r@, n as int, amount as int),
{
    (0..n).choose_multiple(rng, amount)
}

/// The given vectors of a sequence of vectors, one after the other.
pub open spec fn rows_at<N>(data: Seq<N>, dim: int, chosen: Seq<usize>) -> Seq<N>
    decreases chosen.len(),
{
    if chosen.len() == 0 {
        Seq::empty()
    } else {
        rows_at(data, dim, chosen.drop_last()) + row(data, dim, chosen.last() as int)
    }
}

/// `m` is a model that starts at `k` different vectors of the data.
pub open spec fn random_start<N>(
    data: Seq<N>,
    dim: int,
    k: int,
    metric_type: MetricType,
    m: Model<N>,
) -> bool {
    exists|chosen: Seq<usize>|
        {
            &&& chosen.len() == k
            &&& #[trigger] is_sample(chosen, data.len() as int / dim, k)
            &&& m == Model {
                centroids: rows_at(data, dim, chosen),
                dimension: dim,
                k,
                metric_type,
            }
        }
}

/// What can be sampled: `k` vectors of width `dim` out of `len` coordinates.
pub open spec fn can_sample(len: int, dim: int, k: int) -> bool {
    &&& dim > 0
    &&& k * dim <= len
    &&& k * size_of::<usize>() <= isize::MAX
}

/// There are as many vectors as fit.
pub proof fn lemma_count_fits(len: int, dim: int, k: int)
    requires
        0 <= len,
        0 < dim,
        0 <= k,
        k * dim <= len,
    ensures
        k <= len / dim,
{
    vstd::arithmetic::div_mod::lemma_div_is_ordered(k * dim, len, dim);
    vstd::arithmetic::div_mod::lemma_div_by_multiple(k, dim);
}

/// The centroid at place `i` of a gathered sequence is the `i`-th chosen vector.
pub proof fn lemma_rows_at<N>(data: Seq<N>, dim: int, chosen: Seq<usize>, i: int)
    requires
        0 < dim,
        forall|j: int|
            0 <= j < chosen.len() ==> #[trigger] chosen[j] < data.len() as int / dim,
        0 <= i < chosen.len(),
    ensures
        row(rows_at(data, dim, chosen), dim, i) == row(data, dim, chosen[i] as int),
    decreases chosen.len(),
{
    let init = chosen.drop_last();
    let front = rows_at(data, dim, init);
    let whole = rows_at(data, dim, chosen);
    lemma_rows_at_len(data, dim, init);
    lemma_rows_at_len(data, dim, chosen);
    lemma_row_bounds(data.len() as int, dim, chosen.last() as int);
    assert((i + 1) * dim == i * dim + dim) by (nonlinear_arith);
    assert(0 <= i * dim) by (nonlinear_arith)
        requires
            0 <= i,
            0 < dim,
    ;
    if i < init.len() {
        lemma_rows_at(data, dim, init, i);
        assert((i + 1) * dim <= init.len() * dim) by (nonlinear_arith)
            requires
                i + 1 <= init.len(),
                0 < dim,
        ;
        assert(row(whole, dim, i) =~= row(front, dim, i));
    } else {
        assert(row(whole, dim, i) =~= row(data, dim, chosen.last() as int));
    }
}

/// Gathered vectors keep their width.
pub proof fn lemma_rows_at_len<N>(data: Seq<N>, dim: int, chosen: Seq<usize>)
    requires
        0 < dim,
        forall|j: int|
            0 <= j < chosen.len() ==> #[trigger] chosen[j] < data.len() as int / dim,
    ensures
        rows_at(data, dim, chosen).len() == chosen.len() * dim,
    decreases chosen.len(),
{
    if chosen.len() > 0 {
        let init = chosen.drop_last();
        lemma_rows_at_len(data, dim, init);
        lemma_row_bounds(data.len() as int, dim, chosen.last() as int);
        assert(chosen.len() * dim == init.len() * dim + dim) by (nonlinear_arith)
            requires
                chosen.len() == init.len() + 1,
        ;
    } else {
        assert(chosen.len() * dim == 0) by (nonlinear_arith)
            requires
                chosen.len() == 0,
        ;
    }
}

/// Random centroids are vectors of the data, each taken at most once.
pub proof fn law_random_start<N>(
    data: Seq<N>,
    dim: int,
    k: int,
    metric_type: MetricType,
    m: Model<N>,
)
    requires
        0 < dim,
        random_start(data, dim, k, metric_type, m),
    ensures
        m.centroids.len() == k * dim,
        exists|chosen: Seq<usize>|
            {
                &&& chosen.len() == k
                &&& #[trigger] chosen.no_duplicates()
                &&& forall|i: int|
                    0 <= i < k ==> {
                        &&& #[trigger] chosen[i] < data.len() as int / dim
                        &&& row(m.centroids, dim, i) == row(data, dim, chosen[i] as int)
                    }
            },
{
    let chosen = choose|chosen: Seq<usize>|
        {
            &&& chosen.len() == k
            &&& #[trigger] is_sample(chosen, data.len() as int / dim, k)
            &&& m == Model {
                centroids: rows_at(data, dim, chosen),
                dimension: dim,
                k,
                metric_type,
            }
        };
    lemma_rows_at_len(data, dim, chosen);
    assert forall|i: int| 0 <= i < k implies {
        &&& #[trigger] chosen[i] < data.len() as int / dim
        &&& row(m.centroids, dim, i) == row(data, dim, chosen[i] as int)
    } by {
        lemma_rows_at(data, dim, chosen, i);
    }
}

/// Gathers the given vectors of a sequence of vectors.
pub fn gather_rows<N: Copy>(data: &Vec<N>, dim: usize, chosen: &Vec<usize>) -> (r: Vec<N>)
    requires
        dim > 0,
        forall|i: int|
            0 <= i < chosen@.len() ==> #[trigger] chosen@[i] < data@.len() as int / dim as int,
    ensures
        r@ == rows_at(data@, dim as int, chosen@),
{
    let mut rows: Vec<N> = Vec::new();
    let mut i: usize = 0;
    while i < chosen.len()
        invariant
            dim > 0,
            forall|p: int|
                0 <= p < chosen@.len() ==> #[trigger] chosen@[p] < data@.len() as int / dim as int,
            i <= chosen@.len(),
            rows@ == rows_at(data@, dim as int, chosen@.take(i as int)),
        decreases chosen@.len() - i,
    {
        let c: usize = chosen[i];
        proof {
            assert(data@.len() == data.len());
            lemma_row_bounds(data@.len() as int, dim as int, c as int);
        }
        let ghost before = rows@;
        let start: usize = c * dim;
        let mut j: usize = 0;
        while j < dim
            invariant
                start == c * dim,
                start + dim <= data@.len(),
                data@.len() <= usize::MAX,
                j <= dim,
                rows@ == before + data@.subrange(start as int, start + j),
            decreases dim - j,
        {
            rows.push(data[start + j]);
            proof {
                assert(rows@ =~= before + data@.subrange(start as int, start + j + 1));
            }
            j += 1;
        }
        proof {
            assert(chosen@.take(i + 1).drop_last() =~= chosen@.take(i as int));
            assert(chosen@.take(i + 1).last() == c);
        }
        i += 1;
    }
    proof {
        assert(chosen@.take(i as int) =~= chosen@);
    }
    rows
}

/// Starts a model at `k` vectors of the data, taken at random.
pub(crate) fn kmeans_random_init<T: ArrowFloatType>(
    data: &MatrixView<T>,
    k: usize,
    metric_type: MetricType,
    rng: &mut SmallRng,
) -> (r: KMeans<T>)
    requires
        can_sample(data.data@.len() as int, data.num_columns as int, k as int),
    ensures
        random_start(data.data@, data.num_columns as int, k as int, metric_type, r@),
{
    let n: usize = data.num_rows();
    let chosen: Vec<usize> = choose_multiple(n, rng, k);
    proof {
        lemma_count_fits(data.data@.len() as int, data.num_columns as int, k as int);
        assert(is_sample(chosen@, data.spec_num_rows(), k as int));
    }
    KMeans::start_at(data, k, metric_type, &chosen)
}

impl<T: ArrowFloatType> KMeans<T> {
    /// Starts a model at the given rows of the training data.
    pub fn start_at(
        data: &MatrixView<T>,
        k: usize,
        metric_type: MetricType,
        chosen: &Vec<usize>,
    ) -> (r: Self)
        requires
            data.num_columns > 0,
            forall|i: int| 0 <= i < chosen@.len() ==> #[trigger] chosen@[i] < data.spec_num_rows(),
        ensures
            r@ == (Model {
                centroids: rows_at(data.data@, data.num_columns as int, chosen@),
                dimension: data.num_columns as int,
                k: k as int,
                metric_type,
            }),
    {
        let rows: Vec<T::Native> = gather_rows(&data.data, data.num_columns, chosen);
        KMeans::with_centroids(Arc::new(rows), k, data.num_columns, metric_type)
    }

    /// Starts a model at random rows of the training data.
    pub fn init_random(
        data: &MatrixView<T>,
        k: usize,
        metric_type: MetricType,
        rng: SmallRng,
    ) -> (r: Result<Self, Error>)
        requires
            can_sample(data.data@.len() as int, data.num_columns as int, k as int),
        ensures
            r is Ok,
            random_start(
                data.data@,
                data.num_columns as int,
                k as int,
                metric_type,
                r->Ok_0@,
            ),
    {
        let mut rng: SmallRng = rng;
        Ok(kmeans_random_init(data, k, metric_type, &mut rng))
    }
}

} // verus!
