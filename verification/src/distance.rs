//! Distances of vectors.

use vstd::prelude::*;

use crate::float::Float32;
use crate::matrix::{get_row, row};
use crate::scalar::{l2_outcome, ArrowFloatType};

verus! {

/// How the distance of two vectors is measured.
#[derive(Clone, Copy, Debug, PartialEq, Eq, Structural)]
pub enum MetricType {
    /// Squared Euclidean distance.
    L2,
    /// Cosine distance.
    Cosine,
    /// Distance by inner product.
    Dot,
}

/// The distances of a vector to each of the centroids, squared Euclidean.
pub open spec fn l2_batch_outcome<T: ArrowFloatType>(
    from: Seq<T::Native>,
    to: Seq<T::Native>,
    dim: int,
    dists: Seq<Float32>,
) -> bool {
    &&& dists.len() == to.len() as int / dim
    &&& forall|j: int|
        0 <= j < dists.len() ==> l2_outcome::<T>(from, row(to, dim, j), #[trigger] dists[j])
}

/// The squared Euclidean distances of a vector to each vector of a sequence.
pub fn l2_distance_batch<T: ArrowFloatType>(
    from: &[T::Native],
    to: &[T::Native],
    dimension: usize,
) -> (r: Vec<Float32>)
    requires
        dimension > 0,
    ensures
        l2_batch_outcome::<T>(from@, to@, dimension as int, r@),
{
    let n: usize = to.len() / dimension;
    let mut dists: Vec<Float32> = Vec::new();
    let mut j: usize = 0;
    while j < n
        invariant
            dimension > 0,
            n == to@.len() as int / dimension as int,
            j <= n,
            dists@.len() == j,
            forall|i: int|
                0 <= i < j ==> l2_outcome::<T>(
                    from@,
                    row(to@, dimension as int, i),
                    #[trigger] dists@[i],
                ),
        decreases n - j,
    {
        let d: Float32 = T::l2(from, get_row(to, dimension, j));
        dists.push(d);
        j += 1;
    }
    dists
}

} // verus!
