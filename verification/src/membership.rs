//! Which cluster each vector belongs to.

use std::sync::Arc;

use vstd::prelude::*;

use crate::distance::MetricType;
use crate::float::{Float32, Float64};
use crate::matrix::lemma_row_bounds;
use crate::model::{KMeans, Model};
use crate::scalar::{
    double_sum_outcome, single_sum_outcome, sum_outcome, ArrowFloatType, FloatArithmetic,
};

verus! {

/// The cluster of each of a sequence of vectors.
pub struct KMeanMembership<T: ArrowFloatType> {
    /// The vectors, one after the other.
    pub data: Arc<Vec<T::Native>>,
    /// Vector dimension.
    pub dimension: usize,
    /// Cluster id and distance for each vector.
    pub cluster_id_and_distances: Vec<(u32, Float32)>,
    /// The number of clusters.
    pub k: usize,
    /// How distances were measured.
    pub metric_type: MetricType,
}

/// What a [`KMeanMembership`] holds.
pub struct Assignment<N> {
    /// The coordinates of the vectors, one vector after the other.
    pub data: Seq<N>,
    /// Vector dimension.
    pub dimension: int,
    /// Cluster id and distance for each vector.
    pub parts: Seq<(u32, Float32)>,
    /// The number of clusters.
    pub k: int,
    /// How distances were measured.
    pub metric_type: MetricType,
}

impl<N> Assignment<N> {
    /// Whether each vector belongs to one of the clusters.
    pub open spec fn wf(self) -> bool {
        forall|i: int| 0 <= i < self.parts.len() ==> (#[trigger] self.parts[i]).0 < self.k
    }

    /// Whether each vector that has a cluster belongs to one of the clusters.
    pub open spec fn members_wf(self) -> bool {
        forall|i: int|
            0 <= i < self.member_count() ==> (#[trigger] self.parts[i]).0 < self.k
    }

    /// The number of vectors that have a cluster.
    pub open spec fn member_count(self) -> int {
        if self.data.len() as int / self.dimension <= self.parts.len() {
            self.data.len() as int / self.dimension
        } else {
            self.parts.len() as int
        }
    }
}

impl<T: ArrowFloatType> View for KMeanMembership<T> {
    type V = Assignment<T::Native>;

    open spec fn view(&self) -> Assignment<T::Native> {
        Assignment {
            data: self.data@,
            dimension: self.dimension as int,
            parts: self.cluster_id_and_distances@,
            k: self.k as int,
            metric_type: self.metric_type,
        }
    }
}

/// The clusters of consecutive chunks of vectors, put together.
pub open spec fn joined(chunks: Seq<Vec<(u32, Float32)>>) -> Seq<(u32, Float32)>
    decreases chunks.len(),
{
    if chunks.len() == 0 {
        Seq::empty()
    } else {
        joined(chunks.drop_last()) + chunks.last()@
    }
}

/// The number of vectors in cluster `c`.
pub open spec fn cluster_size(parts: Seq<(u32, Float32)>, c: int) -> nat
    decreases parts.len(),
{
    if parts.len() == 0 {
        0
    } else if parts.last().0 == c {
        cluster_size(parts.drop_last(), c) + 1
    } else {
        cluster_size(parts.drop_last(), c)
    }
}

/// The number of vectors in the first `k` clusters together.
pub open spec fn total_size(parts: Seq<(u32, Float32)>, k: nat) -> nat
    decreases k,
{
    if k == 0 {
        0
    } else {
        total_size(parts, (k - 1) as nat) + cluster_size(parts, k - 1)
    }
}

/// Coordinate `j` of the vectors in cluster `c`, out of the first `n` vectors.
pub open spec fn column<N>(
    data: Seq<N>,
    dim: int,
    parts: Seq<(u32, Float32)>,
    n: int,
    c: int,
    j: int,
) -> Seq<N>
    decreases n,
{
    if n <= 0 {
        Seq::empty()
    } else if parts[n - 1].0 == c {
        column(data, dim, parts, n - 1, c, j).push(data[(n - 1) * dim + j])
    } else {
        column(data, dim, parts, n - 1, c, j)
    }
}

/// `r` is what averaging the numbers may give; zero where there are none.
pub open spec fn mean_outcome<T: ArrowFloatType>(terms: Seq<T::Native>, r: T::Native) -> bool {
    if terms.len() == 0 {
        sum_outcome::<T>(terms, r)
    } else {
        exists|sum: T::Native, count: T::Native|
            {
                &&& sum_outcome::<T>(terms, sum)
                &&& call_ensures(T::from_u64, (terms.len() as u64,), count)
                &&& #[trigger] call_ensures(T::over, (sum, count), r)
            }
    }
}

/// `m` is what taking the mean of each cluster as its centroid may give.
pub open spec fn means_outcome<T: ArrowFloatType>(
    a: Assignment<T::Native>,
    m: Model<T::Native>,
) -> bool {
    &&& m.dimension == a.dimension
    &&& m.k == a.k
    &&& m.metric_type == a.metric_type
    &&& m.centroids.len() == a.k * a.dimension
    &&& forall|c: int, j: int|
        0 <= c < a.k && 0 <= j < a.dimension ==> mean_outcome::<T>(
            column(a.data, a.dimension, a.parts, a.member_count(), c, j),
            #[trigger] m.centroids[place(c, a.dimension, j)],
        )
}

/// Where coordinate `j` of centroid `c` lies.
pub open spec fn place(c: int, dim: int, j: int) -> int {
    c * dim + j
}

/// `r` is what adding up the distances of all vectors may give.
pub open spec fn distance_sum_outcome<T: FloatArithmetic>(
    parts: Seq<(u32, Float32)>,
    r: Float64,
) -> bool {
    exists|wide: Seq<Float64>|
        {
            &&& widened_outcome::<T>(parts, wide)
            &&& #[trigger] double_sum_outcome::<T>(wide, r)
        }
}

/// `r` is what dividing the sum of distances by the number of vectors may give.
pub open spec fn mean_distance_outcome<T: FloatArithmetic>(
    parts: Seq<(u32, Float32)>,
    r: Float64,
) -> bool {
    exists|sum: Float64, count: Float64|
        {
            &&& distance_sum_outcome::<T>(parts, sum)
            &&& call_ensures(T::double_from_usize, (parts.len() as usize,), count)
            &&& #[trigger] call_ensures(T::double_div, (sum, count), r)
        }
}

/// `wide` is what taking the distances to double precision may give.
pub open spec fn widened_outcome<T: FloatArithmetic>(
    parts: Seq<(u32, Float32)>,
    wide: Seq<Float64>,
) -> bool {
    &&& wide.len() == parts.len()
    &&& forall|i: int|
        0 <= i < wide.len() ==> call_ensures(
            T::double_from_single,
            (parts[i].1,),
            #[trigger] wide[i],
        )
}

/// `r` is what the squared deviation of a cluster size from the mean may be.
pub open spec fn squared_deviation_outcome<T: FloatArithmetic>(
    size: usize,
    mean: Float32,
    r: Float32,
) -> bool {
    exists|size_number: Float32, difference: Float32|
        {
            &&& call_ensures(T::single_from_usize, (size,), size_number)
            &&& #[trigger] call_ensures(T::single_sub, (size_number, mean), difference)
            &&& #[trigger] call_ensures(T::single_powi, (difference, 2i32), r)
        }
}

/// `r` is what the standard deviation of the sizes of `k` clusters, with `len`
/// vectors in all, may be: the root of the mean of the squared deviations from
/// the mean size `len / k`.
pub open spec fn stddev_outcome<T: FloatArithmetic>(
    sizes: Seq<usize>,
    len: usize,
    k: usize,
    r: Float32,
) -> bool {
    exists|
        len_number: Float32,
        k_number: Float32,
        mean: Float32,
        squares: Seq<Float32>,
        sum: Float32,
        variance: Float32,
    |
        {
            &&& call_ensures(T::single_from_usize, (len,), len_number)
            &&& call_ensures(T::single_from_usize, (k,), k_number)
            &&& #[trigger] call_ensures(T::single_div, (len_number, k_number), mean)
            &&& squares.len() == sizes.len()
            &&& forall|c: int|
                0 <= c < squares.len() ==> squared_deviation_outcome::<T>(
                    sizes[c],
                    mean,
                    #[trigger] squares[c],
                )
            &&& #[trigger] single_sum_outcome::<T>(squares, sum)
            &&& #[trigger] call_ensures(T::single_div, (sum, k_number), variance)
            &&& call_ensures(T::single_sqrt, (variance,), r)
        }
}

/// The sizes of all clusters.
pub open spec fn sizes_of(parts: Seq<(u32, Float32)>, k: int) -> Seq<usize> {
    Seq::new(k as nat, |c: int| cluster_size(parts, c) as usize)
}

/// No cluster has more vectors than there are.
pub proof fn lemma_cluster_size_bound(parts: Seq<(u32, Float32)>, c: int)
    ensures
        cluster_size(parts, c) <= parts.len(),
    decreases parts.len(),
{
    if parts.len() > 0 {
        lemma_cluster_size_bound(parts.drop_last(), c);
    }
}

/// Every vector is in exactly one of the clusters: their sizes add up to the
/// number of vectors.
pub proof fn law_sizes_add_up(parts: Seq<(u32, Float32)>, k: nat)
    requires
        forall|i: int| 0 <= i < parts.len() ==> (#[trigger] parts[i]).0 < k,
    ensures
        total_size(parts, k) == parts.len(),
    decreases parts.len(),
{
    if parts.len() == 0 {
        lemma_total_size_of_none(parts, k);
    } else {
        let init = parts.drop_last();
        assert forall|i: int| 0 <= i < init.len() implies (#[trigger] init[i]).0 < k by {
            assert(init[i] == parts[i]);
        }
        law_sizes_add_up(init, k);
        lemma_total_size_step(parts, k);
    }
}

proof fn lemma_total_size_of_none(parts: Seq<(u32, Float32)>, k: nat)
    requires
        parts.len() == 0,
    ensures
        total_size(parts, k) == 0,
    decreases k,
{
    if k > 0 {
        lemma_total_size_of_none(parts, (k - 1) as nat);
    }
}

proof fn lemma_total_size_step(parts: Seq<(u32, Float32)>, k: nat)
    requires
        parts.len() > 0,
    ensures
        total_size(parts, k) == total_size(parts.drop_last(), k) + if parts.last().0 < k {
            1nat
        } else {
            0nat
        },
    decreases k,
{
    if k > 0 {
        lemma_total_size_step(parts, (k - 1) as nat);
    }
}

/// A column has one number for each vector in the cluster.
pub proof fn lemma_column_len<N>(
    data: Seq<N>,
    dim: int,
    parts: Seq<(u32, Float32)>,
    n: int,
    c: int,
    j: int,
)
    requires
        0 <= n <= parts.len(),
    ensures
        column(data, dim, parts, n, c, j).len() == cluster_size(parts.take(n), c),
    decreases n,
{
    if n > 0 {
        lemma_column_len(data, dim, parts, n - 1, c, j);
        assert(parts.take(n).drop_last() =~= parts.take(n - 1));
        assert(parts.take(n).last() == parts[n - 1]);
    }
}

/// Different coordinates of centroids lie in different places.
proof fn lemma_places_differ(c: int, j: int, d: int, i: int, dim: int)
    requires
        0 <= j < dim,
        0 <= i < dim,
        place(c, dim, j) == place(d, dim, i),
    ensures
        c == d,
        j == i,
{
    assert(c == d) by (nonlinear_arith)
        requires
            0 <= j < dim,
            0 <= i < dim,
            c * dim + j == d * dim + i,
    ;
}

/// Where a coordinate lies is within bounds.
proof fn lemma_place_bounds(c: int, j: int, k: int, dim: int)
    requires
        0 <= c < k,
        0 <= j < dim,
    ensures
        0 <= c * dim,
        0 <= place(c, dim, j) < k * dim,
{
    assert(0 <= c * dim && c * dim + dim <= k * dim) by (nonlinear_arith)
        requires
            0 <= c,
            c + 1 <= k,
            0 < dim,
    ;
}

impl<T: ArrowFloatType> KMeanMembership<T> {
    /// The membership that consecutive chunks of vectors were found to have.
    pub fn from_chunks(
        data: Arc<Vec<T::Native>>,
        dimension: usize,
        chunks: Vec<Vec<(u32, Float32)>>,
        k: usize,
        metric_type: MetricType,
    ) -> (r: Self)
        ensures
            r@ == (Assignment {
                data: data@,
                dimension: dimension as int,
                parts: joined(chunks@),
                k: k as int,
                metric_type,
            }),
    {
        let mut parts: Vec<(u32, Float32)> = Vec::new();
        let mut i: usize = 0;
        while i < chunks.len()
            invariant
                i <= chunks@.len(),
                parts@ == joined(chunks@.take(i as int)),
            decreases chunks@.len() - i,
        {
            let found: &Vec<(u32, Float32)> = &chunks[i];
            let ghost before = parts@;
            let mut j: usize = 0;
            while j < found.len()
                invariant
                    j <= found@.len(),
                    parts@ == before + found@.take(j as int),
                decreases found@.len() - j,
            {
                parts.push(found[j]);
                proof {
                    assert(parts@ =~= before + found@.take(j + 1));
                }
                j += 1;
            }
            proof {
                assert(found@.take(j as int) =~= found@);
                assert(chunks@.take(i + 1).drop_last() =~= chunks@.take(i as int));
                assert(chunks@.take(i + 1).last() == chunks@[i as int]);
            }
            i += 1;
        }
        proof {
            assert(chunks@.take(i as int) =~= chunks@);
        }
        KMeanMembership { data, dimension, cluster_id_and_distances: parts, k, metric_type }
    }

    /// The number of vectors.
    pub fn len(&self) -> (r: usize)
        ensures
            r == self@.parts.len(),
    {
        self.cluster_id_and_distances.len()
    }

    /// Whether each vector belongs to one of the clusters.
    pub fn is_in_range(&self) -> (r: bool)
        ensures
            r == self@.wf(),
    {
        let parts: &Vec<(u32, Float32)> = &self.cluster_id_and_distances;
        let mut i: usize = 0;
        while i < parts.len()
            invariant
                parts@ == self@.parts,
                i <= parts@.len(),
                forall|p: int| 0 <= p < i ==> (#[trigger] parts@[p]).0 < self.k,
            decreases parts@.len() - i,
        {
            if parts[i].0 as usize >= self.k {
                assert(self@.parts[i as int].0 >= self@.k);
                return false;
            }
            i += 1;
        }
        true
    }

    /// The sum of the distances of all vectors to their centroids.
    pub fn distance_sum(&self) -> (r: Float64)
        ensures
            distance_sum_outcome::<T>(self@.parts, r),
    {
        let parts: &Vec<(u32, Float32)> = &self.cluster_id_and_distances;
        let ghost mut wide: Seq<Float64> = Seq::empty();
        let mut sum: Float64 = Float64::zero();
        let mut i: usize = 0;
        while i < parts.len()
            invariant
                i <= parts@.len(),
                widened_outcome::<T>(parts@.take(i as int), wide),
                double_sum_outcome::<T>(wide, sum),
            decreases parts@.len() - i,
        {
            let d: Float64 = T::double_from_single(parts[i].1);
            let next: Float64 = T::double_add(sum, d);
            proof {
                let more = wide.push(d);
                assert(more.drop_last() =~= wide);
                assert(more.last() == d);
                assert(double_sum_outcome::<T>(more, next));
                assert forall|p: int| 0 <= p < more.len() implies call_ensures(
                    T::double_from_single,
                    (parts@.take(i + 1)[p].1,),
                    #[trigger] more[p],
                ) by {
                    if p < i {
                        assert(more[p] == wide[p]);
                        assert(parts@.take(i + 1)[p] == parts@.take(i as int)[p]);
                    }
                }
                wide = more;
            }
            sum = next;
            i += 1;
        }
        proof {
            assert(parts@.take(i as int) =~= parts@);
        }
        sum
    }

    /// The mean distance of a vector to its centroid.
    pub fn mean_distance(&self) -> (r: Float64)
        ensures
            mean_distance_outcome::<T>(self@.parts, r),
    {
        let sum: Float64 = self.distance_sum();
        let count: Float64 = T::double_from_usize(self.len());
        T::double_div(sum, count)
    }

    /// Histogram of the size of each cluster.
    pub fn histogram(&self) -> (r: Vec<usize>)
        requires
            self@.wf(),
        ensures
            r@ == sizes_of(self@.parts, self@.k),
            forall|c: int| 0 <= c < self@.k ==> #[trigger] r@[c] == cluster_size(self@.parts, c),
    {
        let parts: &Vec<(u32, Float32)> = &self.cluster_id_and_distances;
        let mut hist: Vec<usize> = Vec::new();
        while hist.len() < self.k
            invariant
                hist@.len() <= self.k,
                forall|c: int| 0 <= c < hist@.len() ==> hist@[c] == 0,
            decreases self.k - hist@.len(),
        {
            hist.push(0);
        }
        let mut i: usize = 0;
        while i < parts.len()
            invariant
                self@.wf(),
                parts@ == self@.parts,
                i <= parts@.len(),
                hist@.len() == self.k,
                forall|c: int|
                    0 <= c < self.k ==> #[trigger] hist@[c] == cluster_size(
                        parts@.take(i as int),
                        c,
                    ),
            decreases parts@.len() - i,
        {
            let id: usize = parts[i].0 as usize;
            proof {
                assert(self@.parts[i as int].0 < self@.k);
                assert(parts@.take(i + 1).drop_last() =~= parts@.take(i as int));
                assert(parts@.take(i + 1).last() == parts@[i as int]);
                lemma_cluster_size_bound(parts@.take(i as int), id as int);
            }
            let size: usize = hist[id];
            hist.set(id, size + 1);
            i += 1;
        }
        proof {
            assert(parts@.take(i as int) =~= parts@);
            assert(hist@ =~= sizes_of(self@.parts, self@.k));
        }
        hist
    }

    /// Standard deviation of the histogram.
    pub fn hist_stddev(&self) -> (r: Float32)
        requires
            self@.wf(),
        ensures
            stddev_outcome::<T>(
                sizes_of(self@.parts, self@.k),
                self@.parts.len() as usize,
                self@.k as usize,
                r,
            ),
    {
        let len_number: Float32 = T::single_from_usize(self.len());
        let k_number: Float32 = T::single_from_usize(self.k);
        let mean: Float32 = T::single_div(len_number, k_number);
        let hist: Vec<usize> = self.histogram();
        let ghost mut squares: Seq<Float32> = Seq::empty();
        let mut sum: Float32 = Float32::zero();
        let mut c: usize = 0;
        while c < hist.len()
            invariant
                c <= hist@.len(),
                squares.len() == c,
                forall|p: int|
                    0 <= p < c ==> squared_deviation_outcome::<T>(
                        hist@[p],
                        mean,
                        #[trigger] squares[p],
                    ),
                single_sum_outcome::<T>(squares, sum),
            decreases hist@.len() - c,
        {
            let size_number: Float32 = T::single_from_usize(hist[c]);
            let difference: Float32 = T::single_sub(size_number, mean);
            let square: Float32 = T::single_powi(difference, 2);
            let next: Float32 = T::single_add(sum, square);
            proof {
                let more = squares.push(square);
                assert(more.drop_last() =~= squares);
                assert(more.last() == square);
                assert(squared_deviation_outcome::<T>(hist@[c as int], mean, square));
                squares = more;
            }
            sum = next;
            c += 1;
        }
        let variance: Float32 = T::single_div(sum, k_number);
        T::single_sqrt(variance)
    }

    /// Adds up the vectors of each cluster, and counts them.
    fn cluster_sums(&self) -> (r: (Vec<T::Native>, Vec<u64>))
        requires
            self@.members_wf(),
            self.dimension > 0,
            self.k * self.dimension <= usize::MAX,
        ensures
            r.0@.len() == self@.k * self@.dimension,
            r.1@.len() == self@.k,
            forall|c: int, j: int|
                0 <= c < self@.k && 0 <= j < self@.dimension ==> sum_outcome::<T>(
                    self.member_column(c, j),
                    #[trigger] r.0@[place(c, self@.dimension, j)],
                ),
            forall|c: int|
                0 <= c < self@.k ==> #[trigger] r.1@[c] == cluster_size(
                    self@.parts.take(self@.member_count()),
                    c,
                ),
    {
        let dim: usize = self.dimension;
        let size: usize = self.k * dim;
        let data: &Vec<T::Native> = &self.data;
        let parts: &Vec<(u32, Float32)> = &self.cluster_id_and_distances;
        let mut counts: Vec<u64> = Vec::new();
        while counts.len() < self.k
            invariant
                counts@.len() <= self.k,
                forall|c: int| 0 <= c < counts@.len() ==> counts@[c] == 0,
            decreases self.k - counts@.len(),
        {
            counts.push(0);
        }
        let zero: T::Native = T::zero();
        let mut sums: Vec<T::Native> = Vec::new();
        while sums.len() < size
            invariant
                sums@.len() <= size,
                forall|p: int| 0 <= p < sums@.len() ==> sums@[p] == zero,
            decreases size - sums@.len(),
        {
            sums.push(zero);
        }
        let rows: usize = data.len() / dim;
        let n: usize = if rows <= parts.len() {
            rows
        } else {
            parts.len()
        };
        proof {
            assert forall|c: int, j: int| 0 <= c < self.k && 0 <= j < dim implies sum_outcome::<T>(
                column(data@, dim as int, parts@, 0, c, j),
                #[trigger] sums@[place(c, dim as int, j)],
            ) by {
                lemma_place_bounds(c, j, self.k as int, dim as int);
            }
        }
        let mut r: usize = 0;
        while r < n
            invariant
                self@.members_wf(),
                dim == self.dimension,
                dim > 0,
                data@ == self@.data,
                parts@ == self@.parts,
                size == self.k * dim,
                n == self@.member_count(),
                n <= parts@.len(),
                n <= data@.len() as int / dim as int,
                r <= n,
                counts@.len() == self.k,
                sums@.len() == size,
                forall|c: int|
                    0 <= c < self.k ==> #[trigger] counts@[c] == cluster_size(
                        parts@.take(r as int),
                        c,
                    ),
                forall|c: int, j: int|
                    0 <= c < self.k && 0 <= j < dim ==> sum_outcome::<T>(
                        column(data@, dim as int, parts@, r as int, c, j),
                        #[trigger] sums@[place(c, dim as int, j)],
                    ),
            decreases n - r,
        {
            let id: usize = parts[r].0 as usize;
            proof {
                assert(self@.parts[r as int].0 < self@.k);
                assert(parts@.take(r + 1).drop_last() =~= parts@.take(r as int));
                assert(parts@.take(r + 1).last() == parts@[r as int]);
                lemma_cluster_size_bound(parts@.take(r as int), id as int);
                lemma_row_bounds(data@.len() as int, dim as int, r as int);
                assert(data@.len() == data.len());
            }
            let count: u64 = counts[id];
            counts.set(id, count + 1);
            let mut j: usize = 0;
            while j < dim
                invariant
                    dim > 0,
                    data@.len() <= usize::MAX,
                    size == self.k * dim,
                    id < self.k,
                    id == parts@[r as int].0,
                    0 <= r * dim,
                    r * dim + dim <= data@.len(),
                    j <= dim,
                    sums@.len() == size,
                    forall|c: int, i: int|
                        0 <= c < self.k && 0 <= i < dim ==> sum_outcome::<T>(
                            column(
                                data@,
                                dim as int,
                                parts@,
                                if c != id || i < j {
                                    r + 1
                                } else {
                                    r as int
                                },
                                c,
                                i,
                            ),
                            #[trigger] sums@[place(c, dim as int, i)],
                        ),
                decreases dim - j,
            {
                proof {
                    lemma_place_bounds(id as int, j as int, self.k as int, dim as int);
                }
                let at: usize = id * dim + j;
                let old_sum: T::Native = sums[at];
                let new_sum: T::Native = T::plus(old_sum, data[r * dim + j]);
                let ghost before = sums@;
                sums.set(at, new_sum);
                proof {
                    let grown = column(data@, dim as int, parts@, r + 1, id as int, j as int);
                    let shorter = column(data@, dim as int, parts@, r as int, id as int, j as int);
                    assert(before[place(id as int, dim as int, j as int)] == old_sum);
                    assert(grown.drop_last() =~= shorter);
                    assert(grown.last() == data@[r * dim + j]);
                    assert(sum_outcome::<T>(grown, new_sum));
                    assert forall|c: int, i: int|
                        0 <= c < self.k && 0 <= i < dim implies sum_outcome::<T>(
                        column(
                            data@,
                            dim as int,
                            parts@,
                            if c != id || i < j + 1 {
                                r + 1
                            } else {
                                r as int
                            },
                            c,
                            i,
                        ),
                        #[trigger] sums@[place(c, dim as int, i)],
                    ) by {
                        lemma_place_bounds(c, i, self.k as int, dim as int);
                        if place(c, dim as int, i) == at {
                            lemma_places_differ(c, i, id as int, j as int, dim as int);
                        } else {
                            assert(sums@[place(c, dim as int, i)] == before[place(
                                c,
                                dim as int,
                                i,
                            )]);
                        }
                    }
                }
                j += 1;
            }
            r += 1;
        }
        (sums, counts)
    }

    /// The numbers whose mean is coordinate `j` of the centroid of cluster `c`.
    pub open spec fn member_column(self, c: int, j: int) -> Seq<T::Native> {
        column(self@.data, self@.dimension, self@.parts, self@.member_count(), c, j)
    }

    /// The model whose centroids are the means of the clusters. A cluster without
    /// vectors has its centroid at zero.
    pub fn to_kmeans(&self) -> (r: KMeans<T>)
        requires
            self@.members_wf(),
            self.dimension > 0,
            self.k * self.dimension <= usize::MAX,
        ensures
            means_outcome::<T>(self@, r@),
    {
        let dim: usize = self.dimension;
        let (sums, counts) = self.cluster_sums();
        let ghost totals = sums@;
        let mut means: Vec<T::Native> = sums;
        let mut c: usize = 0;
        while c < self.k
            invariant
                dim == self.dimension,
                dim > 0,
                self.k * dim <= usize::MAX,
                c <= self.k,
                counts@.len() == self.k,
                totals.len() == self.k * dim,
                means@.len() == totals.len(),
                forall|d: int, j: int|
                    0 <= d < self@.k && 0 <= j < self@.dimension ==> sum_outcome::<T>(
                        self.member_column(d, j),
                        #[trigger] totals[place(d, self@.dimension, j)],
                    ),
                forall|d: int|
                    0 <= d < self@.k ==> #[trigger] counts@[d] == cluster_size(
                        self@.parts.take(self@.member_count()),
                        d,
                    ),
                forall|d: int, j: int|
                    0 <= d < self.k && 0 <= j < dim ==> if d < c {
                        mean_outcome::<T>(
                            self.member_column(d, j),
                            #[trigger] means@[place(d, dim as int, j)],
                        )
                    } else {
                        means@[place(d, dim as int, j)] == totals[place(d, dim as int, j)]
                    },
            decreases self.k - c,
        {
            let count: u64 = counts[c];
            if count != 0 {
                let mut j: usize = 0;
                while j < dim
                    invariant
                        dim == self.dimension,
                        dim > 0,
                        self.k * dim <= usize::MAX,
                        c < self.k,
                        j <= dim,
                        totals.len() == self.k * dim,
                        means@.len() == totals.len(),
                        count != 0,
                        count == cluster_size(
                            self@.parts.take(self@.member_count()),
                            c as int,
                        ),
                        forall|d: int, i: int|
                            0 <= d < self@.k && 0 <= i < self@.dimension ==> sum_outcome::<T>(
                                self.member_column(d, i),
                                #[trigger] totals[place(d, self@.dimension, i)],
                            ),
                        forall|d: int, i: int|
                            0 <= d < self.k && 0 <= i < dim ==> if d < c || d == c && i < j {
                                mean_outcome::<T>(
                                    self.member_column(d, i),
                                    #[trigger] means@[place(d, dim as int, i)],
                                )
                            } else {
                                means@[place(d, dim as int, i)] == totals[place(
                                    d,
                                    dim as int,
                                    i,
                                )]
                            },
                    decreases dim - j,
                {
                    proof {
                        lemma_place_bounds(c as int, j as int, self.k as int, dim as int);
                    }
                    let at: usize = c * dim + j;
                    let divisor: T::Native = T::from_u64(count);
                    let mean: T::Native = T::over(means[at], divisor);
                    let ghost before = means@;
                    means.set(at, mean);
                    proof {
                        assert(before[place(c as int, dim as int, j as int)] == totals[place(
                            c as int,
                            dim as int,
                            j as int,
                        )]);
                        lemma_column_len(
                            self@.data,
                            self@.dimension,
                            self@.parts,
                            self@.member_count(),
                            c as int,
                            j as int,
                        );
                        assert(mean_outcome::<T>(self.member_column(c as int, j as int), mean));
                        assert forall|d: int, i: int| 0 <= d < self.k && 0 <= i < dim implies if d
                            < c || d == c && i < j + 1 {
                            mean_outcome::<T>(
                                self.member_column(d, i),
                                #[trigger] means@[place(d, dim as int, i)],
                            )
                        } else {
                            means@[place(d, dim as int, i)] == totals[place(d, dim as int, i)]
                        } by {
                            lemma_place_bounds(d, i, self.k as int, dim as int);
                            if place(d, dim as int, i) == at {
                                lemma_places_differ(d, i, c as int, j as int, dim as int);
                            } else {
                                assert(means@[place(d, dim as int, i)] == before[place(
                                    d,
                                    dim as int,
                                    i,
                                )]);
                            }
                        }
                    }
                    j += 1;
                }
            } else {
                proof {
                    assert forall|i: int| 0 <= i < dim implies mean_outcome::<T>(
                        self.member_column(c as int, i),
                        #[trigger] means@[place(c as int, dim as int, i)],
                    ) by {
                        lemma_column_len(
                            self@.data,
                            self@.dimension,
                            self@.parts,
                            self@.member_count(),
                            c as int,
                            i,
                        );
                        assert(totals[place(c as int, self@.dimension, i)] == means@[place(
                            c as int,
                            dim as int,
                            i,
                        )]);
                    }
                }
            }
            c += 1;
        }
        KMeans {
            centroids: Arc::new(means),
            dimension: dim,
            k: self.k,
            metric_type: self.metric_type,
        }
    }
}

} // verus!
