//! Assigning vectors to the clusters of a model.

use std::sync::Arc;

use vstd::prelude::*;

use crate::distance::MetricType;
use crate::float::Float32;
use crate::matrix::{
    chunk, get_row, get_rows, lemma_chunk_is_row, lemma_row_of_rows,
    lemma_rows_bounds, row, MatrixView,
};
use crate::membership::{joined, Assignment, KMeanMembership};
use crate::model::{KMeans, Model};
use crate::partition::{nearest_centroid, nearest_outcome, norms_of, norms_outcome, view_option};
use crate::scalar::ArrowFloatType;
use crate::tiles::{
    compute_partitions_l2, is_tiled, l2_incomparable_outcome, l2_nearest_outcome,
};

verus! {

/// The number of vectors that are assigned together.
pub const CHUNK_SIZE: usize = 1024;

/// Where the chunk ends that starts at vector `start`, of `n` vectors.
pub open spec fn chunk_end(start: int, n: int) -> int {
    if start + CHUNK_SIZE <= n {
        start + CHUNK_SIZE
    } else {
        n
    }
}

/// The known length of vector `r`. Only the cosine distance asks for it.
pub open spec fn row_norm(
    metric_type: MetricType,
    norm_data: Option<Seq<Float32>>,
    r: int,
) -> Option<Float32> {
    match (metric_type, norm_data) {
        (MetricType::Cosine, Some(norms)) => Some(norms[r]),
        _ => None,
    }
}

/// `norms` is what measuring the centroids may give; only the cosine distance
/// asks for their lengths.
pub open spec fn centroid_norms_outcome<T: ArrowFloatType>(
    model: Model<T::Native>,
    norms: Seq<Float32>,
) -> bool {
    if model.metric_type is Cosine {
        norms.len() == model.count() && norms_outcome::<T>(
            model.centroids,
            model.dimension,
            norms,
        )
    } else {
        norms.len() == 0
    }
}

/// `part` is the cluster of vector `r` and its distance, for distances that may
/// have been measured.
pub open spec fn row_outcome<T: ArrowFloatType>(
    model: Model<T::Native>,
    data: Seq<T::Native>,
    norm_data: Option<Seq<Float32>>,
    norms: Seq<Float32>,
    r: int,
    part: (u32, Float32),
) -> bool {
    let from = row(data, model.dimension, r);
    if model.metric_type is L2 {
        l2_nearest_outcome::<T>(from, model.centroids, model.dimension, part)
    } else {
        nearest_outcome::<T>(
            model.metric_type,
            from,
            row_norm(model.metric_type, norm_data, r),
            model.centroids,
            model.dimension,
            model.count(),
            norms,
            Some(part),
        )
    }
}

/// Vector `r` may be measured with no distance that assigns it to a cluster.
pub open spec fn row_fails<T: ArrowFloatType>(
    model: Model<T::Native>,
    data: Seq<T::Native>,
    norm_data: Option<Seq<Float32>>,
    norms: Seq<Float32>,
    r: int,
) -> bool {
    let from = row(data, model.dimension, r);
    if model.metric_type is L2 {
        is_tiled(model.centroids) && l2_incomparable_outcome::<T>(
            from,
            model.centroids,
            model.dimension,
        )
    } else {
        nearest_outcome::<T>(
            model.metric_type,
            from,
            row_norm(model.metric_type, norm_data, r),
            model.centroids,
            model.dimension,
            model.count(),
            norms,
            None,
        )
    }
}

/// `r` is what assigning the vectors `first..last` may give; `None` where one of
/// them cannot be assigned.
pub open spec fn rows_outcome<T: ArrowFloatType>(
    model: Model<T::Native>,
    data: Seq<T::Native>,
    norm_data: Option<Seq<Float32>>,
    norms: Seq<Float32>,
    first: int,
    last: int,
    r: Option<Seq<(u32, Float32)>>,
) -> bool {
    match r {
        Some(parts) => {
            &&& parts.len() == last - first
            &&& forall|i: int|
                0 <= i < parts.len() ==> row_outcome::<T>(
                    model,
                    data,
                    norm_data,
                    norms,
                    first + i,
                    #[trigger] parts[i],
                )
        },
        None => exists|i: int|
            first <= i < last && #[trigger] row_fails::<T>(model, data, norm_data, norms, i),
    }
}

/// `r` is what assigning all vectors of `data` may give; `None` where one of
/// them cannot be assigned.
pub open spec fn membership_outcome<T: ArrowFloatType>(
    model: Model<T::Native>,
    data: Seq<T::Native>,
    norm_data: Option<Seq<Float32>>,
    r: Option<Assignment<T::Native>>,
) -> bool {
    let n = data.len() as int / model.dimension;
    exists|norms: Seq<Float32>|
        {
            &&& #[trigger] centroid_norms_outcome::<T>(model, norms)
            &&& match r {
                Some(a) => {
                    &&& a.data == data
                    &&& a.dimension == model.dimension
                    &&& a.k == model.k
                    &&& a.metric_type == model.metric_type
                    &&& rows_outcome::<T>(model, data, norm_data, norms, 0, n, Some(a.parts))
                },
                None => rows_outcome::<T>(model, data, norm_data, norms, 0, n, None),
            }
        }
}

/// `r` is what assigning all rows of a matrix may give. For the cosine distance
/// the lengths of the rows are measured first.
pub open spec fn train_once_outcome<T: ArrowFloatType>(
    model: Model<T::Native>,
    data: Seq<T::Native>,
    num_columns: int,
    r: Option<Assignment<T::Native>>,
) -> bool {
    if model.metric_type is Cosine {
        exists|norm_data: Seq<Float32>|
            {
                &&& norm_data.len() == data.len() as int / num_columns
                &&& #[trigger] norms_outcome::<T>(data, num_columns, norm_data)
                &&& membership_outcome::<T>(model, data, Some(norm_data), r)
            }
    } else {
        membership_outcome::<T>(model, data, None, r)
    }
}

/// Views an optional membership.
pub open spec fn view_membership<T: ArrowFloatType>(r: Option<KMeanMembership<T>>) -> Option<
    Assignment<T::Native>,
> {
    match r {
        Some(m) => Some(m@),
        None => None,
    }
}

/// Views optional known lengths.
pub open spec fn view_norms(norm_data: Option<Arc<Vec<Float32>>>) -> Option<Seq<Float32>> {
    match norm_data {
        Some(norms) => Some(norms@),
        None => None,
    }
}

/// Whether lengths, if they are known, are known for all of `n` vectors.
pub open spec fn norms_suffice(
    metric_type: MetricType,
    norm_data: Option<Seq<Float32>>,
    n: int,
) -> bool {
    metric_type is Cosine ==> match norm_data {
        Some(norms) => n <= norms.len(),
        None => true,
    }
}

/// Whether there is a centroid to measure `n` vectors against. By squared
/// Euclidean distance, vectors without any are assigned to the first cluster.
pub open spec fn is_measurable<N>(model: Model<N>, n: int) -> bool {
    model.metric_type is L2 || n <= 0 || model.count() > 0
}

impl<T: ArrowFloatType> KMeans<T> {
    /// Whether vectors can be assigned to the clusters of this model.
    pub open spec fn usable(self) -> bool {
        &&& self.dimension > 0
        &&& self@.count() <= 0x1_0000_0000
    }

    /// Whether there is a centroid to measure `n` vectors against.
    pub fn can_measure(&self, n: usize) -> (r: bool)
        requires
            self.dimension > 0,
        ensures
            r == is_measurable(self@, n as int),
    {
        self.metric_type == MetricType::L2 || n == 0 || self.centroids.len() / self.dimension > 0
    }

    /// The lengths of the centroids, for the cosine distance.
    pub fn centroid_norms(&self) -> (r: Vec<Float32>)
        requires
            self.usable(),
        ensures
            centroid_norms_outcome::<T>(self@, r@),
    {
        match self.metric_type {
            MetricType::Cosine => {
                let count: usize = self.centroids.len() / self.dimension;
                norms_of::<T>(self.centroids.as_slice(), self.dimension, count)
            },
            _ => Vec::new(),
        }
    }

    /// Assigns the vectors from `start` on, as many as are assigned together.
    pub fn assign_chunk(
        &self,
        data: &Arc<Vec<T::Native>>,
        norm_data: &Option<Arc<Vec<Float32>>>,
        norms: &Vec<Float32>,
        start: usize,
    ) -> (r: Option<Vec<(u32, Float32)>>)
        requires
            self.usable(),
            is_measurable(self@, data@.len() as int / self.dimension as int),
            start <= data@.len() as int / self.dimension as int,
            norms_suffice(
                self.metric_type,
                view_norms(*norm_data),
                data@.len() as int / self.dimension as int,
            ),
            self.metric_type is Cosine ==> norms@.len() == self@.count(),
        ensures
            rows_outcome::<T>(
                self@,
                data@,
                view_norms(*norm_data),
                norms@,
                start as int,
                chunk_end(start as int, data@.len() as int / self.dimension as int),
                view_option(r),
            ),
    {
        let dim: usize = self.dimension;
        let n: usize = data.len() / dim;
        let last: usize = if CHUNK_SIZE <= n - start {
            start + CHUNK_SIZE
        } else {
            n
        };
        let centroids: &[T::Native] = self.centroids.as_slice();
        let values: &[T::Native] = get_rows(data.as_slice(), dim, start, last);
        proof {
            lemma_rows_bounds(data@, dim as int, start as int, last as int);
            assert forall|i: int| 0 <= i < last - start implies #[trigger] chunk(
                values@,
                dim as int,
                i,
            ) == row(data@, dim as int, start + i) by {
                lemma_row_of_rows(data@, dim as int, start as int, last as int, i);
                lemma_chunk_is_row(values@, dim as int, i);
            }
        }
        if self.metric_type == MetricType::L2 {
            let r = compute_partitions_l2::<T>(centroids, values, dim);
            proof {
                match view_option(r) {
                    Some(parts) => {
                        assert(parts.len() == last - start) by {
                            vstd::arithmetic::div_mod::lemma_mod_multiples_basic(
                                last - start,
                                dim as int,
                            );
                        }
                        assert forall|i: int| 0 <= i < parts.len() implies row_outcome::<T>(
                            self@,
                            data@,
                            view_norms(*norm_data),
                            norms@,
                            start + i,
                            #[trigger] parts[i],
                        ) by {
                            assert(chunk(values@, dim as int, i) == row(
                                data@,
                                dim as int,
                                start + i,
                            ));
                        }
                    },
                    None => {
                        let i = choose|i: int|
                            0 <= i < values@.len() as int / dim as int
                                && l2_incomparable_outcome::<T>(
                                #[trigger] chunk(values@, dim as int, i),
                                centroids@,
                                dim as int,
                            );
                        assert(row_fails::<T>(
                            self@,
                            data@,
                            view_norms(*norm_data),
                            norms@,
                            start + i,
                        ));
                    },
                }
            }
            return r;
        }
        let count: usize = self.centroids.len() / dim;
        let mut parts: Vec<(u32, Float32)> = Vec::new();
        let mut i: usize = 0;
        while i < last - start
            invariant
                self.usable(),
                !(self.metric_type is L2),
                dim == self.dimension,
                centroids@ == self.centroids@,
                count == self@.count(),
                n == data@.len() as int / dim as int,
                start <= last,
                last == chunk_end(start as int, n as int),
                norms_suffice(self.metric_type, view_norms(*norm_data), n as int),
                self.metric_type is Cosine ==> norms@.len() == count,
                values@.len() as int / dim as int == last - start,
                forall|p: int|
                    0 <= p < last - start ==> #[trigger] chunk(values@, dim as int, p) == row(
                        data@,
                        dim as int,
                        start + p,
                    ),
                i <= last - start,
                parts@.len() == i,
                forall|p: int|
                    0 <= p < i ==> row_outcome::<T>(
                        self@,
                        data@,
                        view_norms(*norm_data),
                        norms@,
                        start + p,
                        #[trigger] parts@[p],
                    ),
            decreases last - start - i,
        {
            let vector: &[T::Native] = get_row(values, dim, i);
            proof {
                lemma_chunk_is_row(values@, dim as int, i as int);
                assert(chunk(values@, dim as int, i as int) == row(
                    data@,
                    dim as int,
                    start + i,
                ));
            }
            let norm: Option<Float32> = match self.metric_type {
                MetricType::Cosine => match norm_data {
                    Some(known) => Some(known[start + i]),
                    None => None,
                },
                _ => None,
            };
            match nearest_centroid::<T>(
                self.metric_type,
                vector,
                norm,
                centroids,
                dim,
                count,
                norms.as_slice(),
            ) {
                Some(part) => {
                    parts.push(part);
                },
                None => {
                    assert(row_fails::<T>(
                        self@,
                        data@,
                        view_norms(*norm_data),
                        norms@,
                        start + i,
                    ));
                    return None;
                },
            }
            i += 1;
        }
        Some(parts)
    }

    /// Finds the cluster of each vector.
    ///
    /// `norm_data` holds lengths of vectors, if they are known, for the cosine
    /// distance. `None` where a vector cannot be assigned since its distances are
    /// no finite numbers.
    pub fn compute_membership(
        &self,
        data: Arc<Vec<T::Native>>,
        norm_data: Option<Arc<Vec<Float32>>>,
    ) -> (r: Option<KMeanMembership<T>>)
        requires
            self.usable(),
            is_measurable(self@, data@.len() as int / self.dimension as int),
            norms_suffice(
                self.metric_type,
                view_norms(norm_data),
                data@.len() as int / self.dimension as int,
            ),
        ensures
            membership_outcome::<T>(self@, data@, view_norms(norm_data), view_membership(r)),
    {
        let n: usize = data.len() / self.dimension;
        let norms: Vec<Float32> = self.centroid_norms();
        let mut chunks: Vec<Vec<(u32, Float32)>> = Vec::new();
        let mut start: usize = 0;
        while start < n
            invariant
                self.usable(),
                is_measurable(self@, n as int),
                n == data@.len() as int / self.dimension as int,
                norms_suffice(self.metric_type, view_norms(norm_data), n as int),
                centroid_norms_outcome::<T>(self@, norms@),
                start <= n,
                rows_outcome::<T>(
                    self@,
                    data@,
                    view_norms(norm_data),
                    norms@,
                    0,
                    start as int,
                    Some(joined(chunks@)),
                ),
            decreases n - start,
        {
            match self.assign_chunk(&data, &norm_data, &norms, start) {
                Some(parts) => {
                    let ghost earlier = chunks@;
                    let ghost before = joined(earlier);
                    let ghost found = parts@;
                    chunks.push(parts);
                    let last: usize = if CHUNK_SIZE <= n - start {
                        start + CHUNK_SIZE
                    } else {
                        n
                    };
                    proof {
                        let now = joined(chunks@);
                        assert(chunks@.drop_last() =~= earlier);
                        assert(now =~= before + found);
                        assert forall|i: int| 0 <= i < now.len() implies row_outcome::<T>(
                            self@,
                            data@,
                            view_norms(norm_data),
                            norms@,
                            0 + i,
                            #[trigger] now[i],
                        ) by {
                            if i < start {
                                assert(now[i] == before[i]);
                            } else {
                                assert(now[i] == found[i - start]);
                                assert(start + (i - start) == i);
                            }
                        }
                    }
                    start = last;
                },
                None => {
                    return None;
                },
            }
        }
        Some(
            KMeanMembership::from_chunks(data, self.dimension, chunks, self.k, self.metric_type),
        )
    }

    /// The lengths of the rows of a matrix, for the cosine distance.
    pub fn row_norms(&self, data: &MatrixView<T>) -> (r: Option<Arc<Vec<Float32>>>)
        requires
            self.metric_type is Cosine ==> data.num_columns > 0,
        ensures
            match r {
                Some(norms) => {
                    &&& self.metric_type is Cosine
                    &&& norms@.len() == data.spec_num_rows()
                    &&& norms_outcome::<T>(data.data@, data.num_columns as int, norms@)
                },
                None => !(self.metric_type is Cosine),
            },
    {
        match self.metric_type {
            MetricType::Cosine => {
                let norms: Vec<Float32> = norms_of::<T>(
                    data.data.as_slice(),
                    data.num_columns,
                    data.num_rows(),
                );
                Some(Arc::new(norms))
            },
            _ => None,
        }
    }

    /// Finds the cluster of each row of a matrix: one step of training. For the
    /// cosine distance each row is measured with its own length.
    pub fn train_once(&self, data: &MatrixView<T>) -> (r: Option<KMeanMembership<T>>)
        requires
            self.usable(),
            is_measurable(self@, data.data@.len() as int / self.dimension as int),
            self.metric_type is Cosine ==> {
                &&& data.num_columns > 0
                &&& data.data@.len() as int / self.dimension as int <= data.spec_num_rows()
            },
        ensures
            train_once_outcome::<T>(
                self@,
                data.data@,
                data.num_columns as int,
                view_membership(r),
            ),
    {
        let norm_data: Option<Arc<Vec<Float32>>> = self.row_norms(data);
        let ghost norms = view_norms(norm_data);
        let r = self.compute_membership(data.data.clone(), norm_data);
        proof {
            if self.metric_type is Cosine {
                assert(norms_outcome::<T>(data.data@, data.num_columns as int, norms->Some_0));
            }
        }
        r
    }
}

} // verus!
