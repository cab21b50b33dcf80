//! Trained models.

use std::sync::Arc;

use vstd::prelude::*;

use crate::distance::MetricType;
use crate::scalar::ArrowFloatType;

verus! {

/// A k-means model.
#[derive(Debug)]
pub struct KMeans<T: ArrowFloatType> {
    /// Centroids for each of the k clusters, one after the other.
    pub centroids: Arc<Vec<T::Native>>,
    /// Vector dimension.
    pub dimension: usize,
    /// The number of clusters.
    pub k: usize,
    /// How distances are measured.
    pub metric_type: MetricType,
}

/// What a [`KMeans`] holds.
pub struct Model<N> {
    /// The coordinates of the centroids, one centroid after the other.
    pub centroids: Seq<N>,
    /// Vector dimension.
    pub dimension: int,
    /// The number of clusters.
    pub k: int,
    /// How distances are measured.
    pub metric_type: MetricType,
}

impl<N> Model<N> {
    /// The model without centroids.
    pub open spec fn empty(k: int, dimension: int, metric_type: MetricType) -> Self {
        Model { centroids: Seq::empty(), dimension, k, metric_type }
    }

    /// The number of whole centroids.
    pub open spec fn count(self) -> int {
        self.centroids.len() as int / self.dimension
    }
}

impl<T: ArrowFloatType> View for KMeans<T> {
    type V = Model<T::Native>;

    open spec fn view(&self) -> Model<T::Native> {
        Model {
            centroids: self.centroids@,
            dimension: self.dimension as int,
            k: self.k as int,
            metric_type: self.metric_type,
        }
    }
}

impl<T: ArrowFloatType> Clone for KMeans<T> {
    fn clone(&self) -> (r: Self)
        ensures
            r@ == self@,
    {
        KMeans {
            centroids: self.centroids.clone(),
            dimension: self.dimension,
            k: self.k,
            metric_type: self.metric_type,
        }
    }
}

impl<T: ArrowFloatType> KMeans<T> {
    /// A model without centroids.
    pub fn empty(k: usize, dimension: usize, metric_type: MetricType) -> (r: Self)
        ensures
            r@ == Model::<T::Native>::empty(k as int, dimension as int, metric_type),
    {
        let none: Vec<T::Native> = Vec::new();
        let r = KMeans { centroids: Arc::new(none), dimension, k, metric_type };
        proof {
            assert(r.centroids@ =~= Seq::<T::Native>::empty());
        }
        r
    }

    /// A model with existing centroids, to continue training from.
    pub fn with_centroids(
        centroids: Arc<Vec<T::Native>>,
        k: usize,
        dimension: usize,
        metric_type: MetricType,
    ) -> (r: Self)
        ensures
            r@ == (Model {
                centroids: centroids@,
                dimension: dimension as int,
                k: k as int,
                metric_type,
            }),
    {
        KMeans { centroids, dimension, k, metric_type }
    }
}

} // verus!
