//! Assigning vectors to their nearest centroids.

use vstd::prelude::*;

use crate::distance::MetricType;
use crate::float::Float32;
use crate::kernels::{argmin_value, is_argmin_value};
use crate::matrix::{chunk, chunk_count, count_chunks, get_chunk};
use crate::scalar::{
    cosine_fast_outcome, cosine_with_norms_outcome, dot_outcome, l2_outcome, norm_outcome,
    ArrowFloatType,
};
use crate::tiles::{compute_partitions_l2, l2_partitions_outcome};

verus! {

/// `norms` is what measuring the first vectors of a sequence may give.
pub open spec fn norms_outcome<T: ArrowFloatType>(
    vectors: Seq<T::Native>,
    dim: int,
    norms: Seq<Float32>,
) -> bool {
    forall|j: int|
        0 <= j < norms.len() ==> norm_outcome::<T>(chunk(vectors, dim, j), #[trigger] norms[j])
}

/// `d` is what measuring a vector against a centroid may give. Lengths are used
/// by the cosine distance alone; that of the vector may be unknown.
pub open spec fn distance_outcome<T: ArrowFloatType>(
    metric_type: MetricType,
    from: Seq<T::Native>,
    from_norm: Option<Float32>,
    centroid: Seq<T::Native>,
    centroid_norm: Float32,
    d: Float32,
) -> bool {
    match metric_type {
        MetricType::L2 => l2_outcome::<T>(from, centroid, d),
        MetricType::Dot => dot_outcome::<T>(from, centroid, d),
        MetricType::Cosine => match from_norm {
            Some(norm) => cosine_with_norms_outcome::<T>(centroid, centroid_norm, norm, from, d),
            None => cosine_fast_outcome::<T>(centroid, centroid_norm, from, d),
        },
    }
}

/// `dists` is what measuring a vector against the first centroids may give.
pub open spec fn distances_outcome<T: ArrowFloatType>(
    metric_type: MetricType,
    from: Seq<T::Native>,
    from_norm: Option<Float32>,
    centroids: Seq<T::Native>,
    dim: int,
    norms: Seq<Float32>,
    dists: Seq<Float32>,
) -> bool {
    forall|j: int|
        0 <= j < dists.len() ==> distance_outcome::<T>(
            metric_type,
            from,
            from_norm,
            chunk(centroids, dim, j),
            norms[j],
            #[trigger] dists[j],
        )
}

/// `r` is the place of the nearest of the first `count` centroids, and its
/// distance, for distances that may have been measured; `None` where none of
/// them is below the largest finite number.
pub open spec fn nearest_outcome<T: ArrowFloatType>(
    metric_type: MetricType,
    from: Seq<T::Native>,
    from_norm: Option<Float32>,
    centroids: Seq<T::Native>,
    dim: int,
    count: int,
    norms: Seq<Float32>,
    r: Option<(u32, Float32)>,
) -> bool {
    exists|dists: Seq<Float32>|
        {
            &&& dists.len() == count
            &&& #[trigger] distances_outcome::<T>(
                metric_type,
                from,
                from_norm,
                centroids,
                dim,
                norms,
                dists,
            )
            &&& is_argmin_value(dists, r)
        }
}

/// The place of the nearest of the first `count` centroids is `id`, for
/// distances that may have been measured.
pub open spec fn nearest_id_outcome<T: ArrowFloatType>(
    metric_type: MetricType,
    from: Seq<T::Native>,
    centroids: Seq<T::Native>,
    dim: int,
    count: int,
    norms: Seq<Float32>,
    id: u32,
) -> bool {
    exists|d: Float32| #[trigger]
        nearest_outcome::<T>(
            metric_type,
            from,
            None,
            centroids,
            dim,
            count,
            norms,
            Some((id, d)),
        )
}

/// `r` is what assigning each vector to its nearest centroid may give, one
/// vector at a time; `None` where some vector has no distance below the largest
/// finite number.
pub open spec fn ids_outcome<T: ArrowFloatType>(
    metric_type: MetricType,
    centroids: Seq<T::Native>,
    data: Seq<T::Native>,
    dim: int,
    norms: Seq<Float32>,
    r: Option<Seq<u32>>,
) -> bool {
    let count = chunk_count(centroids.len() as int, dim);
    match r {
        Some(ids) => {
            &&& ids.len() == chunk_count(data.len() as int, dim)
            &&& forall|i: int|
                0 <= i < ids.len() ==> nearest_id_outcome::<T>(
                    metric_type,
                    chunk(data, dim, i),
                    centroids,
                    dim,
                    count,
                    norms,
                    #[trigger] ids[i],
                )
        },
        None => exists|i: int|
            0 <= i < chunk_count(data.len() as int, dim) && nearest_outcome::<T>(
                metric_type,
                #[trigger] chunk(data, dim, i),
                None,
                centroids,
                dim,
                count,
                norms,
                None,
            ),
    }
}

/// The places out of places and distances.
pub open spec fn ids_of(parts: Seq<(u32, Float32)>) -> Seq<u32> {
    parts.map_values(|part: (u32, Float32)| part.0)
}

/// `r` is what assigning each vector to its nearest centroid may give.
pub open spec fn partitions_outcome<T: ArrowFloatType>(
    metric_type: MetricType,
    centroids: Seq<T::Native>,
    data: Seq<T::Native>,
    dim: int,
    r: Option<Seq<u32>>,
) -> bool {
    match metric_type {
        MetricType::L2 => match r {
            Some(ids) => exists|parts: Seq<(u32, Float32)>| #[trigger]
                l2_partitions_outcome::<T>(centroids, data, dim, Some(parts)) && ids == ids_of(
                    parts,
                ),
            None => l2_partitions_outcome::<T>(centroids, data, dim, None),
        },
        MetricType::Cosine => exists|norms: Seq<Float32>|
            {
                &&& norms.len() == chunk_count(centroids.len() as int, dim)
                &&& #[trigger] norms_outcome::<T>(centroids, dim, norms)
                &&& ids_outcome::<T>(metric_type, centroids, data, dim, norms, r)
            },
        MetricType::Dot => ids_outcome::<T>(
            metric_type,
            centroids,
            data,
            dim,
            Seq::<Float32>::empty(),
            r,
        ),
    }
}

/// Views the content of an optional vector.
pub open spec fn view_option<N>(r: Option<Vec<N>>) -> Option<Seq<N>> {
    match r {
        Some(v) => Some(v@),
        None => None,
    }
}

/// The lengths of the first `count` vectors of a sequence.
pub fn norms_of<T: ArrowFloatType>(vectors: &[T::Native], dim: usize, count: usize) -> (r: Vec<
    Float32,
>)
    requires
        dim > 0,
        count <= chunk_count(vectors@.len() as int, dim as int),
    ensures
        r@.len() == count,
        norms_outcome::<T>(vectors@, dim as int, r@),
{
    let mut norms: Vec<Float32> = Vec::new();
    let mut j: usize = 0;
    while j < count
        invariant
            dim > 0,
            count <= chunk_count(vectors@.len() as int, dim as int),
            j <= count,
            norms@.len() == j,
            norms_outcome::<T>(vectors@, dim as int, norms@),
        decreases count - j,
    {
        let norm: Float32 = T::norm_l2(get_chunk(vectors, dim, j));
        norms.push(norm);
        j += 1;
    }
    norms
}

/// The nearest of the first `count` centroids: its place and distance.
pub fn nearest_centroid<T: ArrowFloatType>(
    metric_type: MetricType,
    from: &[T::Native],
    from_norm: Option<Float32>,
    centroids: &[T::Native],
    dim: usize,
    count: usize,
    norms: &[Float32],
) -> (r: Option<(u32, Float32)>)
    requires
        dim > 0,
        count <= chunk_count(centroids@.len() as int, dim as int),
        count <= 0x1_0000_0000,
        metric_type is Cosine ==> norms@.len() >= count,
    ensures
        nearest_outcome::<T>(
            metric_type,
            from@,
            from_norm,
            centroids@,
            dim as int,
            count as int,
            norms@,
            r,
        ),
{
    let mut dists: Vec<Float32> = Vec::new();
    let mut j: usize = 0;
    while j < count
        invariant
            dim > 0,
            count <= chunk_count(centroids@.len() as int, dim as int),
            metric_type is Cosine ==> norms@.len() >= count,
            j <= count,
            dists@.len() == j,
            distances_outcome::<T>(
                metric_type,
                from@,
                from_norm,
                centroids@,
                dim as int,
                norms@,
                dists@,
            ),
        decreases count - j,
    {
        let centroid: &[T::Native] = get_chunk(centroids, dim, j);
        let dist: Float32 = match metric_type {
            MetricType::L2 => T::l2(from, centroid),
            MetricType::Dot => T::dot_distance(from, centroid),
            MetricType::Cosine => match from_norm {
                Some(norm) => T::cosine_with_norms(centroid, norms[j], norm, from),
                None => T::cosine_fast(centroid, norms[j], from),
            },
        };
        dists.push(dist);
        j += 1;
    }
    argmin_value(dists.as_slice())
}

/// Assigns each vector to its nearest centroid, one vector at a time.
fn nearest_ids<T: ArrowFloatType>(
    metric_type: MetricType,
    centroids: &[T::Native],
    data: &[T::Native],
    dim: usize,
    norms: &[Float32],
) -> (r: Option<Vec<u32>>)
    requires
        dim > 0,
        chunk_count(centroids@.len() as int, dim as int) <= 0x1_0000_0000,
        metric_type is Cosine ==> norms@.len() == chunk_count(centroids@.len() as int, dim as int),
    ensures
        ids_outcome::<T>(metric_type, centroids@, data@, dim as int, norms@, view_option(r)),
{
    let count: usize = count_chunks(centroids.len(), dim);
    let n: usize = count_chunks(data.len(), dim);
    let mut ids: Vec<u32> = Vec::new();
    let mut i: usize = 0;
    while i < n
        invariant
            dim > 0,
            count == chunk_count(centroids@.len() as int, dim as int),
            count <= 0x1_0000_0000,
            metric_type is Cosine ==> norms@.len() == count,
            n == chunk_count(data@.len() as int, dim as int),
            i <= n,
            ids@.len() == i,
            forall|p: int|
                0 <= p < i ==> nearest_id_outcome::<T>(
                    metric_type,
                    chunk(data@, dim as int, p),
                    centroids@,
                    dim as int,
                    count as int,
                    norms@,
                    #[trigger] ids@[p],
                ),
        decreases n - i,
    {
        let from: &[T::Native] = get_chunk(data, dim, i);
        match nearest_centroid::<T>(metric_type, from, None, centroids, dim, count, norms) {
            Some((id, _)) => {
                ids.push(id);
            },
            None => {
                return None;
            },
        }
        i += 1;
    }
    Some(ids)
}

/// Assigns each vector to its nearest centroid by cosine distance.
pub fn compute_partitions_cosine<T: ArrowFloatType>(
    centroids: &[T::Native],
    data: &[T::Native],
    dimension: usize,
) -> (r: Option<Vec<u32>>)
    requires
        dimension > 0,
        chunk_count(centroids@.len() as int, dimension as int) <= 0x1_0000_0000,
        data@.len() > 0 ==> centroids@.len() > 0,
    ensures
        partitions_outcome::<T>(
            MetricType::Cosine,
            centroids@,
            data@,
            dimension as int,
            view_option(r),
        ),
{
    let count: usize = count_chunks(centroids.len(), dimension);
    let norms: Vec<Float32> = norms_of::<T>(centroids, dimension, count);
    nearest_ids::<T>(MetricType::Cosine, centroids, data, dimension, norms.as_slice())
}

/// Assigns each vector to its nearest centroid by inner product.
pub fn compute_partitions_dot<T: ArrowFloatType>(
    centroids: &[T::Native],
    data: &[T::Native],
    dimension: usize,
) -> (r: Option<Vec<u32>>)
    requires
        dimension > 0,
        chunk_count(centroids@.len() as int, dimension as int) <= 0x1_0000_0000,
        data@.len() > 0 ==> centroids@.len() > 0,
    ensures
        partitions_outcome::<T>(
            MetricType::Dot,
            centroids@,
            data@,
            dimension as int,
            view_option(r),
        ),
{
    let norms: Vec<Float32> = Vec::new();
    proof {
        assert(norms@ =~= Seq::<Float32>::empty());
    }
    nearest_ids::<T>(MetricType::Dot, centroids, data, dimension, norms.as_slice())
}

/// Assigns each vector of `data` to its nearest centroid. Of centroids that are
/// equally near, the first is taken. `None` where a vector cannot be assigned
/// since its distances are no finite numbers.
pub fn compute_partitions<T: ArrowFloatType>(
    centroids: &[T::Native],
    data: &[T::Native],
    dimension: usize,
    metric_type: MetricType,
) -> (r: Option<Vec<u32>>)
    requires
        dimension > 0,
        centroids@.len() as int / dimension as int <= 0x1_0000_0000,
        !(metric_type is L2) ==> {
            &&& chunk_count(centroids@.len() as int, dimension as int) <= 0x1_0000_0000
            &&& data@.len() > 0 ==> centroids@.len() > 0
        },
    ensures
        partitions_outcome::<T>(
            metric_type,
            centroids@,
            data@,
            dimension as int,
            view_option(r),
        ),
{
    match metric_type {
        MetricType::L2 => match compute_partitions_l2::<T>(centroids, data, dimension) {
            Some(parts) => {
                let mut ids: Vec<u32> = Vec::new();
                let mut i: usize = 0;
                while i < parts.len()
                    invariant
                        i <= parts@.len(),
                        ids@ == ids_of(parts@.take(i as int)),
                    decreases parts@.len() - i,
                {
                    ids.push(parts[i].0);
                    proof {
                        assert(ids@ =~= ids_of(parts@.take(i + 1)));
                    }
                    i += 1;
                }
                proof {
                    assert(parts@.take(i as int) =~= parts@);
                }
                Some(ids)
            },
            None => None,
        },
        MetricType::Cosine => compute_partitions_cosine::<T>(centroids, data, dimension),
        MetricType::Dot => compute_partitions_dot::<T>(centroids, data, dimension),
    }
}

} // verus!
