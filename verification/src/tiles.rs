//! Nearest centroids by squared Euclidean distance.
//!
//! Where the centroids take little memory, each vector is measured against all
//! of them in one go. Where they take more, vectors and centroids are worked
//! through in tiles and the coordinates in stripes, so that what is being
//! measured stays in the cache.

use vstd::arithmetic::div_mod::lemma_div_nonincreasing;
use vstd::layout::size_of;
use vstd::prelude::*;
use vstd::slice::slice_subrange;

use crate::distance::{l2_batch_outcome, l2_distance_batch};
use crate::float::Float32;
use crate::kernels::{
    any_below, argmin_value, argmin_value_float, is_argmin_value_float,
    lemma_argmin_of_parts, merge_argmin,
};
use crate::matrix::{
    chunk, chunk_count, count_chunks, get_chunk, get_rows, get_slice, lemma_chunk_bounds,
    lemma_chunk_is_row, lemma_row_of_rows, lemma_rows_bounds, lemma_slice_of_row,
    row, wide_product,
};
use crate::scalar::{l2_outcome, ArrowFloatType};

verus! {

/// The number of coordinates that are measured at a time.
pub const STRIPE_SIZE: usize = 128;

/// The number of vectors, and of centroids, that are worked through together.
pub const TILE_SIZE: usize = 16;

/// The memory in bytes up to which centroids are not tiled.
pub const SMALL_CENTROIDS: usize = 16384;

/// Whether centroids are worked through in tiles.
pub open spec fn is_tiled<N>(centroids: Seq<N>) -> bool {
    centroids.len() * size_of::<N>() > SMALL_CENTROIDS
}

/// `d` is what adding up the squared distances of the first stripes of two
/// vectors may give.
pub open spec fn striped_l2_outcome<T: ArrowFloatType>(
    x: Seq<T::Native>,
    y: Seq<T::Native>,
    stripes: nat,
    d: Float32,
) -> bool
    decreases stripes,
{
    if stripes == 0 {
        d == Float32::spec_zero()
    } else {
        let s = stripes - 1;
        exists|sum: Float32, part: Float32|
            {
                &&& striped_l2_outcome::<T>(x, y, s as nat, sum)
                &&& l2_outcome::<T>(
                    chunk(x, STRIPE_SIZE as int, s),
                    chunk(y, STRIPE_SIZE as int, s),
                    part,
                )
                &&& #[trigger] call_ensures(T::single_add, (sum, part), d)
            }
    }
}

/// `dists` is what measuring a vector against the centroids from `first` on,
/// stripe by stripe, may give.
pub open spec fn striped_batch_outcome<T: ArrowFloatType>(
    from: Seq<T::Native>,
    centroids: Seq<T::Native>,
    dim: int,
    first: int,
    dists: Seq<Float32>,
) -> bool {
    forall|j: int|
        0 <= j < dists.len() ==> striped_l2_outcome::<T>(
            from,
            row(centroids, dim, first + j),
            chunk_count(dim, STRIPE_SIZE as int) as nat,
            #[trigger] dists[j],
        )
}

/// Whether each tile of the distances has one below the largest finite number.
pub open spec fn tiles_comparable(dists: Seq<Float32>) -> bool {
    forall|t: int|
        0 <= t < chunk_count(dists.len() as int, TILE_SIZE as int) ==> any_below(
            #[trigger] chunk(dists, TILE_SIZE as int, t),
            Float32::spec_max(),
        )
}

/// `dists` is what measuring a vector against all centroids may give.
pub open spec fn l2_distances_outcome<T: ArrowFloatType>(
    from: Seq<T::Native>,
    centroids: Seq<T::Native>,
    dim: int,
    dists: Seq<Float32>,
) -> bool {
    if is_tiled(centroids) {
        &&& dists.len() == centroids.len() as int / dim
        &&& striped_batch_outcome::<T>(from, centroids, dim, 0, dists)
    } else {
        l2_batch_outcome::<T>(from, centroids, dim, dists)
    }
}

/// `r` is the place of the centroid nearest to a vector, and its distance, for
/// distances that may have been measured; place 0 and infinity where none of
/// them is below infinity.
pub open spec fn l2_nearest_outcome<T: ArrowFloatType>(
    from: Seq<T::Native>,
    centroids: Seq<T::Native>,
    dim: int,
    r: (u32, Float32),
) -> bool {
    exists|dists: Seq<Float32>|
        {
            &&& #[trigger] l2_distances_outcome::<T>(from, centroids, dim, dists)
            &&& is_tiled(centroids) ==> tiles_comparable(dists)
            &&& is_argmin_value_float(dists, r)
        }
}

/// `r` is the place of the centroid nearest to a vector, and its distance, for
/// distances that may have been measured in one go.
pub open spec fn small_nearest_outcome<T: ArrowFloatType>(
    from: Seq<T::Native>,
    centroids: Seq<T::Native>,
    dim: int,
    r: (u32, Float32),
) -> bool {
    exists|dists: Seq<Float32>|
        {
            &&& #[trigger] l2_batch_outcome::<T>(from, centroids, dim, dists)
            &&& is_argmin_value_float(dists, r)
        }
}

/// A vector may be measured against a tile of centroids with no distance below
/// the largest finite number.
pub open spec fn l2_incomparable_outcome<T: ArrowFloatType>(
    from: Seq<T::Native>,
    centroids: Seq<T::Native>,
    dim: int,
) -> bool {
    exists|t: int, dists: Seq<Float32>| #[trigger]
        incomparable_tile::<T>(from, centroids, dim, t, dists)
}

/// `dists` is what measuring a vector against the tile `t` of centroids may
/// give, with no distance below the largest finite number.
pub open spec fn incomparable_tile<T: ArrowFloatType>(
    from: Seq<T::Native>,
    centroids: Seq<T::Native>,
    dim: int,
    t: int,
    dists: Seq<Float32>,
) -> bool {
    let m = centroids.len() as int / dim;
    &&& 0 <= t < chunk_count(m, TILE_SIZE as int)
    &&& dists.len() == if (t + 1) * TILE_SIZE <= m {
        TILE_SIZE as int
    } else {
        m - t * TILE_SIZE
    }
    &&& striped_batch_outcome::<T>(from, centroids, dim, t * TILE_SIZE, dists)
    &&& !any_below(dists, Float32::spec_max())
}

/// The number of vectors of `data` that are assigned: all of them where the
/// centroids are not tiled, else only whole ones.
pub open spec fn l2_row_count<N>(centroids: Seq<N>, data: Seq<N>, dim: int) -> int {
    if is_tiled(centroids) {
        data.len() as int / dim
    } else {
        chunk_count(data.len() as int, dim)
    }
}

/// `r` is what assigning each vector to its nearest centroid may give; `None`
/// where some vector has no comparable distance to a tile.
pub open spec fn l2_partitions_outcome<T: ArrowFloatType>(
    centroids: Seq<T::Native>,
    data: Seq<T::Native>,
    dim: int,
    r: Option<Seq<(u32, Float32)>>,
) -> bool {
    match r {
        Some(parts) => {
            &&& parts.len() == l2_row_count(centroids, data, dim)
            &&& forall|i: int|
                0 <= i < parts.len() ==> l2_nearest_outcome::<T>(
                    chunk(data, dim, i),
                    centroids,
                    dim,
                    #[trigger] parts[i],
                )
        },
        None => {
            &&& is_tiled(centroids)
            &&& exists|i: int|
                0 <= i < data.len() as int / dim && l2_incomparable_outcome::<T>(
                    #[trigger] chunk(data, dim, i),
                    centroids,
                    dim,
                )
        },
    }
}

/// Whether centroids are worked through in tiles.
fn needs_tiles<N>(centroids: &[N]) -> (r: bool)
    ensures
        r == is_tiled(centroids@),
{
    let bytes: u128 = wide_product(centroids.len(), core::mem::size_of::<N>());
    bytes > SMALL_CENTROIDS as u128
}

/// Assigns each vector to its nearest centroid, one vector at a time.
pub fn compute_partitions_l2_small<T: ArrowFloatType>(
    centroids: &[T::Native],
    data: &[T::Native],
    dim: usize,
) -> (r: Vec<(u32, Float32)>)
    requires
        dim > 0,
        centroids@.len() as int / dim as int <= 0x1_0000_0000,
    ensures
        r@.len() == chunk_count(data@.len() as int, dim as int),
        forall|i: int|
            0 <= i < r@.len() ==> small_nearest_outcome::<T>(
                chunk(data@, dim as int, i),
                centroids@,
                dim as int,
                #[trigger] r@[i],
            ),
{
    let n: usize = count_chunks(data.len(), dim);
    let mut parts: Vec<(u32, Float32)> = Vec::new();
    let mut i: usize = 0;
    while i < n
        invariant
            dim > 0,
            centroids@.len() as int / dim as int <= 0x1_0000_0000,
            n == chunk_count(data@.len() as int, dim as int),
            i <= n,
            parts@.len() == i,
            forall|p: int|
                0 <= p < i ==> small_nearest_outcome::<T>(
                    chunk(data@, dim as int, p),
                    centroids@,
                    dim as int,
                    #[trigger] parts@[p],
                ),
        decreases n - i,
    {
        let dists: Vec<Float32> = l2_distance_batch::<T>(get_chunk(data, dim, i), centroids, dim);
        let best: (u32, Float32) = argmin_value_float(dists.as_slice());
        parts.push(best);
        i += 1;
    }
    parts
}

/// Measures each vector of a tile against `count` centroids from `first` on,
/// stripe by stripe. The distances of vector `i` start at place
/// `i * TILE_SIZE`.
fn tile_distances<T: ArrowFloatType>(
    data_tile: &[T::Native],
    centroids: &[T::Native],
    dim: usize,
    first: usize,
    count: usize,
) -> (r: Vec<Float32>)
    requires
        dim > 0,
        data_tile@.len() as int / dim as int <= TILE_SIZE,
        count <= TILE_SIZE,
        first + count <= centroids@.len() as int / dim as int,
    ensures
        r@.len() == TILE_SIZE * TILE_SIZE,
        forall|i: int|
            0 <= i < data_tile@.len() as int / dim as int ==> striped_batch_outcome::<T>(
                #[trigger] row(data_tile@, dim as int, i),
                centroids@,
                dim as int,
                first as int,
                r@.subrange(i * TILE_SIZE, i * TILE_SIZE + count),
            ),
{
    let rows: usize = data_tile.len() / dim;
    let ghost m: int = centroids@.len() as int / dim as int;
    proof {
        assert(centroids@.len() == centroids.len());
        lemma_div_nonincreasing(centroids@.len() as int, dim as int);
    }
    let mut dists: Vec<Float32> = Vec::new();
    while dists.len() < TILE_SIZE * TILE_SIZE
        invariant
            dists@.len() <= TILE_SIZE * TILE_SIZE,
            forall|p: int| 0 <= p < dists@.len() ==> dists@[p] == Float32::spec_zero(),
        decreases TILE_SIZE * TILE_SIZE - dists@.len(),
    {
        dists.push(Float32::zero());
    }
    let ghost x = |i: int| row(data_tile@, dim as int, i);
    let ghost y = |c: int| row(centroids@, dim as int, first + c);
    let stripes: usize = count_chunks(dim, STRIPE_SIZE);
    let mut s: usize = 0;
    while s < stripes
        invariant
            dim > 0,
            rows == data_tile@.len() as int / dim as int,
            rows <= TILE_SIZE,
            count <= TILE_SIZE,
            m == centroids@.len() as int / dim as int,
            first + count <= m <= usize::MAX,
            stripes == chunk_count(dim as int, STRIPE_SIZE as int),
            s <= stripes,
            x == (|i: int| row(data_tile@, dim as int, i)),
            y == (|c: int| row(centroids@, dim as int, first + c)),
            dists@.len() == TILE_SIZE * TILE_SIZE,
            forall|i: int, c: int|
                0 <= i < rows && 0 <= c < count ==> striped_l2_outcome::<T>(
                    #[trigger] x(i),
                    #[trigger] y(c),
                    s as nat,
                    dists@[i * TILE_SIZE + c],
                ),
        decreases stripes - s,
    {
        proof {
            lemma_chunk_bounds(dim as int, STRIPE_SIZE as int, s as int);
        }
        let start: usize = s * STRIPE_SIZE;
        let slice_len: usize = if STRIPE_SIZE <= dim - start {
            STRIPE_SIZE
        } else {
            dim - start
        };
        let mut di: usize = 0;
        while di < rows
            invariant
                dim > 0,
                rows == data_tile@.len() as int / dim as int,
                rows <= TILE_SIZE,
                count <= TILE_SIZE,
                m == centroids@.len() as int / dim as int,
                first + count <= m <= usize::MAX,
                start == s * STRIPE_SIZE,
                start < dim,
                slice_len == if start + STRIPE_SIZE <= dim {
                    STRIPE_SIZE as int
                } else {
                    dim - start
                },
                di <= rows,
                x == (|i: int| row(data_tile@, dim as int, i)),
                y == (|c: int| row(centroids@, dim as int, first + c)),
                dists@.len() == TILE_SIZE * TILE_SIZE,
                forall|i: int, c: int|
                    0 <= i < rows && 0 <= c < count ==> striped_l2_outcome::<T>(
                        #[trigger] x(i),
                        #[trigger] y(c),
                        if i < di {
                            (s + 1) as nat
                        } else {
                            s as nat
                        },
                        dists@[i * TILE_SIZE + c],
                    ),
            decreases rows - di,
        {
            proof {
                lemma_slice_of_row(
                    data_tile@,
                    dim as int,
                    di as int,
                    start as int,
                    slice_len as int,
                );
                lemma_chunk_is_row(data_tile@, dim as int, di as int);
                assert(chunk(x(di as int), STRIPE_SIZE as int, s as int) =~= data_tile@.subrange(
                    di * dim + start,
                    di * dim + start + slice_len,
                ));
            }
            let data_slice: &[T::Native] = get_slice(data_tile, di, start, dim, slice_len);
            let mut ci: usize = 0;
            while ci < count
                invariant
                    dim > 0,
                    rows <= TILE_SIZE,
                    count <= TILE_SIZE,
                    m == centroids@.len() as int / dim as int,
                    first + count <= m <= usize::MAX,
                    start == s * STRIPE_SIZE,
                    start < dim,
                    slice_len == if start + STRIPE_SIZE <= dim {
                        STRIPE_SIZE as int
                    } else {
                        dim - start
                    },
                    di < rows,
                    ci <= count,
                    x == (|i: int| row(data_tile@, dim as int, i)),
                    y == (|c: int| row(centroids@, dim as int, first + c)),
                    data_slice@ == chunk(x(di as int), STRIPE_SIZE as int, s as int),
                    dists@.len() == TILE_SIZE * TILE_SIZE,
                    forall|i: int, c: int|
                        0 <= i < rows && 0 <= c < count ==> striped_l2_outcome::<T>(
                            #[trigger] x(i),
                            #[trigger] y(c),
                            if i < di || i == di && c < ci {
                                (s + 1) as nat
                            } else {
                                s as nat
                            },
                            dists@[i * TILE_SIZE + c],
                        ),
                decreases count - ci,
            {
                proof {
                    lemma_slice_of_row(
                        centroids@,
                        dim as int,
                        first + ci,
                        start as int,
                        slice_len as int,
                    );
                    lemma_chunk_is_row(centroids@, dim as int, first + ci);
                    assert(chunk(y(ci as int), STRIPE_SIZE as int, s as int)
                        =~= centroids@.subrange(
                        (first + ci) * dim + start,
                        (first + ci) * dim + start + slice_len,
                    ));
                }
                let cent_slice: &[T::Native] = get_slice(
                    centroids,
                    first + ci,
                    start,
                    dim,
                    slice_len,
                );
                let dist: Float32 = T::l2(data_slice, cent_slice);
                let place: usize = di * TILE_SIZE + ci;
                let old_sum: Float32 = dists[place];
                let new_sum: Float32 = T::single_add(old_sum, dist);
                let ghost before = dists@;
                dists.set(place, new_sum);
                proof {
                    assert(striped_l2_outcome::<T>(
                        x(di as int),
                        y(ci as int),
                        s as nat,
                        before[di * TILE_SIZE + ci],
                    ));
                    assert(striped_l2_outcome::<T>(
                        x(di as int),
                        y(ci as int),
                        (s + 1) as nat,
                        new_sum,
                    ));
                    assert forall|i: int, c: int|
                        0 <= i < rows && 0 <= c < count implies striped_l2_outcome::<T>(
                        #[trigger] x(i),
                        #[trigger] y(c),
                        if i < di || i == di && c < ci + 1 {
                            (s + 1) as nat
                        } else {
                            s as nat
                        },
                        dists@[i * TILE_SIZE + c],
                    ) by {
                        if !(i == di && c == ci) {
                            assert(dists@[i * TILE_SIZE + c] == before[i * TILE_SIZE + c]);
                        }
                    }
                }
                ci += 1;
            }
            di += 1;
        }
        s += 1;
    }
    proof {
        assert forall|i: int| 0 <= i < rows implies striped_batch_outcome::<T>(
            #[trigger] row(data_tile@, dim as int, i),
            centroids@,
            dim as int,
            first as int,
            dists@.subrange(i * TILE_SIZE, i * TILE_SIZE + count),
        ) by {
            let part = dists@.subrange(i * TILE_SIZE, i * TILE_SIZE + count);
            assert forall|c: int| 0 <= c < part.len() implies striped_l2_outcome::<T>(
                row(data_tile@, dim as int, i),
                row(centroids@, dim as int, first + c),
                stripes as nat,
                #[trigger] part[c],
            ) by {
                assert(part[c] == dists@[i * TILE_SIZE + c]);
                assert(striped_l2_outcome::<T>(
                    x(i),
                    y(c),
                    stripes as nat,
                    dists@[i * TILE_SIZE + c],
                ));
            }
        }
    }
    dists
}

/// The distances of vector `i` of a tile.
spec fn tile_part(dists: Seq<Float32>, i: int, count: int) -> Seq<Float32> {
    dists.subrange(i * TILE_SIZE, i * TILE_SIZE + count)
}

/// What is known of a vector once one more tile of centroids has been worked
/// through.
spec fn tile_row_done(seen: Seq<Float32>, fresh: Seq<Float32>, part: (u32, Float32)) -> bool {
    &&& any_below(fresh, Float32::spec_max())
    &&& is_argmin_value_float(seen + fresh, part)
}

/// What is known of the vectors of a tile once the centroids below `done` have
/// been worked through: `seen` holds the distances that were measured.
spec fn tile_state<T: ArrowFloatType>(
    data_tile: Seq<T::Native>,
    centroids: Seq<T::Native>,
    dim: int,
    done: int,
    seen: Seq<Seq<Float32>>,
    parts: Seq<(u32, Float32)>,
) -> bool {
    &&& seen.len() == data_tile.len() as int / dim
    &&& parts.len() == seen.len()
    &&& forall|i: int|
        0 <= i < seen.len() ==> {
            &&& (#[trigger] seen[i]).len() == done
            &&& striped_batch_outcome::<T>(row(data_tile, dim, i), centroids, dim, 0, seen[i])
            &&& tiles_comparable(seen[i])
            &&& is_argmin_value_float(seen[i], parts[i])
        }
}

/// A whole number of comparable tiles followed by one more.
proof fn lemma_tiles_extend(front: Seq<Float32>, back: Seq<Float32>)
    requires
        front.len() % TILE_SIZE as nat == 0,
        0 < back.len() <= TILE_SIZE,
        tiles_comparable(front),
        any_below(back, Float32::spec_max()),
    ensures
        tiles_comparable(front + back),
{
    let whole = front + back;
    let n = front.len() as int / TILE_SIZE as int;
    assert(front.len() == n * TILE_SIZE);
    assert(chunk_count(whole.len() as int, TILE_SIZE as int) == n + 1);
    assert forall|t: int|
        0 <= t < chunk_count(whole.len() as int, TILE_SIZE as int) implies any_below(
        #[trigger] chunk(whole, TILE_SIZE as int, t),
        Float32::spec_max(),
    ) by {
        if t < n {
            assert(chunk(whole, TILE_SIZE as int, t) =~= chunk(front, TILE_SIZE as int, t));
        } else {
            assert(chunk(whole, TILE_SIZE as int, t) =~= back);
        }
    }
}

/// Distances to some centroids followed by those to the next ones.
proof fn lemma_striped_batch_extends<T: ArrowFloatType>(
    from: Seq<T::Native>,
    centroids: Seq<T::Native>,
    dim: int,
    front: Seq<Float32>,
    back: Seq<Float32>,
)
    requires
        striped_batch_outcome::<T>(from, centroids, dim, 0, front),
        striped_batch_outcome::<T>(from, centroids, dim, front.len() as int, back),
    ensures
        striped_batch_outcome::<T>(from, centroids, dim, 0, front + back),
{
    let whole = front + back;
    let n = front.len() as int;
    assert forall|j: int| 0 <= j < whole.len() implies striped_l2_outcome::<T>(
        from,
        row(centroids, dim, 0 + j),
        chunk_count(dim, STRIPE_SIZE as int) as nat,
        #[trigger] whole[j],
    ) by {
        if j < n {
            assert(whole[j] == front[j]);
        } else {
            assert(whole[j] == back[j - n]);
            assert(n + (j - n) == j);
        }
    }
}

/// Assigns each vector of a tile to its nearest centroid, one tile of centroids
/// at a time.
fn partition_tile<T: ArrowFloatType>(
    data_tile: &[T::Native],
    centroids: &[T::Native],
    dim: usize,
) -> (r: Option<Vec<(u32, Float32)>>)
    requires
        dim > 0,
        data_tile@.len() as int / dim as int <= TILE_SIZE,
        centroids@.len() as int / dim as int <= 0x1_0000_0000,
        is_tiled(centroids@),
    ensures
        match r {
            Some(parts) => {
                &&& parts@.len() == data_tile@.len() as int / dim as int
                &&& forall|i: int|
                    0 <= i < parts@.len() ==> l2_nearest_outcome::<T>(
                        row(data_tile@, dim as int, i),
                        centroids@,
                        dim as int,
                        #[trigger] parts@[i],
                    )
            },
            None => exists|i: int|
                0 <= i < data_tile@.len() as int / dim as int && l2_incomparable_outcome::<T>(
                    #[trigger] row(data_tile@, dim as int, i),
                    centroids@,
                    dim as int,
                ),
        },
{
    let rows: usize = data_tile.len() / dim;
    let num_centroids: usize = centroids.len() / dim;
    let mut parts: Vec<(u32, Float32)> = Vec::new();
    let ghost mut seen: Seq<Seq<Float32>> = Seq::new(rows as nat, |i: int| Seq::empty());
    while parts.len() < rows
        invariant
            parts@.len() <= rows,
            forall|i: int|
                0 <= i < parts@.len() ==> parts@[i] == (0u32, Float32::spec_infinity()),
        decreases rows - parts@.len(),
    {
        parts.push((0, Float32::infinity()));
    }
    let mut start: usize = 0;
    while start < num_centroids
        invariant
            dim > 0,
            rows == data_tile@.len() as int / dim as int,
            rows <= TILE_SIZE,
            num_centroids == centroids@.len() as int / dim as int,
            num_centroids <= 0x1_0000_0000,
            start <= num_centroids,
            start < num_centroids ==> start % TILE_SIZE == 0,
            tile_state::<T>(data_tile@, centroids@, dim as int, start as int, seen, parts@),
        decreases num_centroids - start,
    {
        let count: usize = if TILE_SIZE <= num_centroids - start {
            TILE_SIZE
        } else {
            num_centroids - start
        };
        let dists: Vec<Float32> = tile_distances::<T>(data_tile, centroids, dim, start, count);
        let ghost before = parts@;
        let mut i: usize = 0;
        while i < rows
            invariant
                dim > 0,
                rows == data_tile@.len() as int / dim as int,
                rows <= TILE_SIZE,
                num_centroids == centroids@.len() as int / dim as int,
                num_centroids <= 0x1_0000_0000,
                0 < count <= TILE_SIZE,
                start + count <= num_centroids,
                count == if start + TILE_SIZE <= num_centroids {
                    TILE_SIZE as int
                } else {
                    num_centroids - start
                },
                start % TILE_SIZE == 0,
                dists@.len() == TILE_SIZE * TILE_SIZE,
                tile_state::<T>(data_tile@, centroids@, dim as int, start as int, seen, before),
                forall|p: int|
                    0 <= p < rows ==> striped_batch_outcome::<T>(
                        #[trigger] row(data_tile@, dim as int, p),
                        centroids@,
                        dim as int,
                        start as int,
                        tile_part(dists@, p, count as int),
                    ),
                i <= rows,
                parts@.len() == rows,
                forall|p: int| i <= p < rows ==> #[trigger] parts@[p] == before[p],
                forall|p: int|
                    0 <= p < i ==> tile_row_done(
                        seen[p],
                        tile_part(dists@, p, count as int),
                        #[trigger] parts@[p],
                    ),
            decreases rows - i,
        {
            let tile: &[Float32] = slice_subrange(
                dists.as_slice(),
                i * TILE_SIZE,
                i * TILE_SIZE + count,
            );
            assert(tile@ =~= tile_part(dists@, i as int, count as int));
            let (part_id, dist): (u32, Float32) = match argmin_value(tile) {
                Some(found) => found,
                None => {
                    proof {
                        let t = start as int / TILE_SIZE as int;
                        let from = row(data_tile@, dim as int, i as int);
                        assert(t * TILE_SIZE == start);
                        assert(incomparable_tile::<T>(
                            from,
                            centroids@,
                            dim as int,
                            t,
                            tile_part(dists@, i as int, count as int),
                        ));
                    }
                    return None;
                },
            };
            proof {
                assert(tile@[part_id as int].less(Float32::spec_max()));
                assert(seen[i as int].len() == start);
                lemma_argmin_of_parts(
                    seen[i as int],
                    tile_part(dists@, i as int, count as int),
                    before[i as int],
                    (part_id, dist),
                );
            }
            let ghost current = parts@;
            if dist.lt(parts[i].1) {
                parts.set(i, (start as u32 + part_id, dist));
            }
            proof {
                assert(parts@[i as int] == merge_argmin(
                    start as nat,
                    before[i as int],
                    (part_id, dist),
                ));
                assert forall|p: int| 0 <= p < i + 1 implies tile_row_done(
                    seen[p],
                    tile_part(dists@, p, count as int),
                    #[trigger] parts@[p],
                ) by {
                    if p < i {
                        assert(parts@[p] == current[p]);
                    }
                }
            }
            i += 1;
        }
        proof {
            let next = Seq::new(rows as nat, |p: int| seen[p] + tile_part(dists@, p, count as int));
            assert forall|p: int| 0 <= p < next.len() implies {
                &&& (#[trigger] next[p]).len() == start + count
                &&& striped_batch_outcome::<T>(
                    row(data_tile@, dim as int, p),
                    centroids@,
                    dim as int,
                    0,
                    next[p],
                )
                &&& tiles_comparable(next[p])
                &&& is_argmin_value_float(next[p], parts@[p])
            } by {
                assert(seen[p].len() == start);
                assert(parts@[p] == parts@[p]);
                lemma_striped_batch_extends::<T>(
                    row(data_tile@, dim as int, p),
                    centroids@,
                    dim as int,
                    seen[p],
                    tile_part(dists@, p, count as int),
                );
                lemma_tiles_extend(seen[p], tile_part(dists@, p, count as int));
            }
            seen = next;
        }
        start += count;
    }
    proof {
        assert forall|i: int| 0 <= i < parts@.len() implies l2_nearest_outcome::<T>(
            row(data_tile@, dim as int, i),
            centroids@,
            dim as int,
            #[trigger] parts@[i],
        ) by {
            assert(seen[i].len() == num_centroids);
            assert(l2_distances_outcome::<T>(
                row(data_tile@, dim as int, i),
                centroids@,
                dim as int,
                seen[i],
            ));
        }
    }
    Some(parts)
}

/// Assigns each vector to its nearest centroid by squared Euclidean distance:
/// its place among the centroids, and its distance. Of centroids that are
/// equally near, the first is taken. `None` where centroids are worked through
/// in tiles and a vector has no distance below the largest finite number to one
/// of the tiles.
pub fn compute_partitions_l2<T: ArrowFloatType>(
    centroids: &[T::Native],
    data: &[T::Native],
    dim: usize,
) -> (r: Option<Vec<(u32, Float32)>>)
    requires
        dim > 0,
        centroids@.len() as int / dim as int <= 0x1_0000_0000,
    ensures
        l2_partitions_outcome::<T>(
            centroids@,
            data@,
            dim as int,
            match r {
                Some(parts) => Some(parts@),
                None => None,
            },
        ),
{
    if !needs_tiles(centroids) {
        let parts: Vec<(u32, Float32)> = compute_partitions_l2_small::<T>(centroids, data, dim);
        proof {
            assert forall|i: int| 0 <= i < parts@.len() implies l2_nearest_outcome::<T>(
                chunk(data@, dim as int, i),
                centroids@,
                dim as int,
                #[trigger] parts@[i],
            ) by {
                let dists = choose|dists: Seq<Float32>|
                    {
                        &&& #[trigger] l2_batch_outcome::<T>(
                            chunk(data@, dim as int, i),
                            centroids@,
                            dim as int,
                            dists,
                        )
                        &&& is_argmin_value_float(dists, parts@[i])
                    };
                assert(l2_distances_outcome::<T>(
                    chunk(data@, dim as int, i),
                    centroids@,
                    dim as int,
                    dists,
                ));
            }
        }
        return Some(parts);
    }
    let n: usize = data.len() / dim;
    let mut parts: Vec<(u32, Float32)> = Vec::new();
    let mut first: usize = 0;
    while first < n
        invariant
            dim > 0,
            centroids@.len() as int / dim as int <= 0x1_0000_0000,
            is_tiled(centroids@),
            n == data@.len() as int / dim as int,
            first <= n,
            parts@.len() == first,
            forall|i: int|
                0 <= i < first ==> l2_nearest_outcome::<T>(
                    chunk(data@, dim as int, i),
                    centroids@,
                    dim as int,
                    #[trigger] parts@[i],
                ),
        decreases n - first,
    {
        let last: usize = if TILE_SIZE <= n - first {
            first + TILE_SIZE
        } else {
            n
        };
        let data_tile: &[T::Native] = get_rows(data, dim, first, last);
        proof {
            lemma_rows_bounds(data@, dim as int, first as int, last as int);
            assert forall|i: int| 0 <= i < last - first implies #[trigger] row(
                data_tile@,
                dim as int,
                i,
            ) == chunk(data@, dim as int, first + i) by {
                lemma_row_of_rows(data@, dim as int, first as int, last as int, i);
                lemma_chunk_is_row(data@, dim as int, first + i);
            }
        }
        match partition_tile::<T>(data_tile, centroids, dim) {
            Some(found) => {
                let ghost before = parts@;
                let mut found = found;
                parts.append(&mut found);
                proof {
                    assert forall|i: int| 0 <= i < last implies l2_nearest_outcome::<T>(
                        chunk(data@, dim as int, i),
                        centroids@,
                        dim as int,
                        #[trigger] parts@[i],
                    ) by {
                        if i < first {
                            assert(parts@[i] == before[i]);
                        } else {
                            assert(row(data_tile@, dim as int, i - first) == chunk(
                                data@,
                                dim as int,
                                first + (i - first),
                            ));
                        }
                    }
                }
            },
            None => {
                return None;
            },
        }
        first = last;
    }
    Some(parts)
}

} // verus!
