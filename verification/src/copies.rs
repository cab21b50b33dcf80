//! Copies of centroids make no difference.

use vstd::prelude::*;

use crate::determined::{
    are_distances_fixed, is_arithmetic_fixed, lemma_distance_determined, lemma_l2_determined,
    lemma_striped_determined,
};
use crate::distance::{l2_batch_outcome, MetricType};
use crate::float::Float32;
use crate::kernels::{
    any_below, is_argmin, is_argmin_value, is_argmin_value_float, lemma_argmin_is_unique,
};
use crate::laws::{law_tiles_make_no_difference, stripes_add_up};
use crate::matrix::{chunk, chunk_count, lemma_chunk_is_row, row};
use crate::partition::{
    distance_outcome, distances_outcome, ids_of, ids_outcome, nearest_id_outcome, nearest_outcome,
    norms_outcome, partitions_outcome,
};
use crate::scalar::{l2_outcome, norm_outcome, ArrowFloatType};
use crate::splitting::lemma_joined_vectors;
use crate::tiles::{
    is_tiled, l2_distances_outcome, l2_nearest_outcome, l2_partitions_outcome,
    small_nearest_outcome, striped_l2_outcome, STRIPE_SIZE,
};

verus! {

/// Whether each of the vectors is one of the centroids.
pub open spec fn are_copies<N>(centroids: Seq<N>, copies: Seq<N>, dim: int) -> bool {
    &&& centroids.len() as int % dim == 0
    &&& copies.len() as int % dim == 0
    &&& forall|j: int|
        0 <= j < copies.len() as int / dim ==> is_one_of(
            centroids,
            dim,
            #[trigger] chunk(copies, dim, j),
        )
}

/// Whether a vector is one of the centroids.
pub open spec fn is_one_of<N>(centroids: Seq<N>, dim: int, x: Seq<N>) -> bool {
    exists|i: int|
        0 <= i < centroids.len() as int / dim && x == #[trigger] chunk(centroids, dim, i)
}

/// Whether numbers start with others, and go on with copies of them.
spec fn repeats(values: Seq<Float32>, more: Seq<Float32>) -> bool {
    &&& values.len() <= more.len()
    &&& forall|j: int| 0 <= j < values.len() ==> #[trigger] more[j] == values[j]
    &&& forall|j: int|
        values.len() <= j < more.len() ==> values.contains(#[trigger] more[j])
}

/// Copies do not change which number is the first of the smallest.
proof fn lemma_argmin_ignores_copies(
    values: Seq<Float32>,
    more: Seq<Float32>,
    bound: Float32,
    i: int,
)
    requires
        repeats(values, more),
    ensures
        any_below(values, bound) == any_below(more, bound),
        is_argmin(values, bound, i) ==> is_argmin(more, bound, i),
{
    assert forall|j: int| 0 <= j < more.len() implies values.contains(#[trigger] more[j]) by {
        if j < values.len() {
            assert(values[j] == more[j]);
        }
    }
    if any_below(more, bound) {
        let j = choose|j: int| 0 <= j < more.len() && (#[trigger] more[j]).less(bound);
        assert(values.contains(more[j]));
    }
    if any_below(values, bound) {
        let j = choose|j: int| 0 <= j < values.len() && (#[trigger] values[j]).less(bound);
        assert(more[j].less(bound));
    }
    if is_argmin(values, bound, i) {
        assert(more[i] == values[i]);
        assert forall|j: int| 0 <= j < more.len() implies !(#[trigger] more[j]).less(more[i]) by {
            assert(values.contains(more[j]));
        }
        assert forall|j: int| 0 <= j < i && (#[trigger] more[j]).less(bound) implies more[i].less(
            more[j],
        ) by {
            assert(more[j] == values[j]);
        }
    }
}

proof fn lemma_argmin_value_ignores_copies(
    values: Seq<Float32>,
    more: Seq<Float32>,
    p: Option<(u32, Float32)>,
    q: Option<(u32, Float32)>,
)
    requires
        repeats(values, more),
        is_argmin_value(values, p),
        is_argmin_value(more, q),
    ensures
        p == q,
{
    let bound = Float32::spec_max();
    match p {
        Some(a) => {
            lemma_argmin_ignores_copies(values, more, bound, a.0 as int);
            assert(values[a.0 as int].less(bound));
            assert(any_below(more, bound));
            let b = q->Some_0;
            lemma_argmin_is_unique(more, bound, a.0 as int, b.0 as int);
        },
        None => {
            lemma_argmin_ignores_copies(values, more, bound, 0);
            if let Some(b) = q {
                assert(more[b.0 as int].less(bound));
            }
        },
    }
}

proof fn lemma_argmin_value_float_ignores_copies(
    values: Seq<Float32>,
    more: Seq<Float32>,
    p: (u32, Float32),
    q: (u32, Float32),
)
    requires
        repeats(values, more),
        is_argmin_value_float(values, p),
        is_argmin_value_float(more, q),
    ensures
        p == q,
{
    let bound = Float32::spec_infinity();
    lemma_argmin_ignores_copies(values, more, bound, p.0 as int);
    if any_below(values, bound) {
        lemma_argmin_is_unique(more, bound, p.0 as int, q.0 as int);
    }
}

/// Where the centroids and their copies lie when they are put together.
proof fn lemma_copies_lie<N>(centroids: Seq<N>, copies: Seq<N>, dim: int)
    requires
        dim > 0,
        are_copies(centroids, copies, dim),
    ensures
        chunk_count(centroids.len() as int, dim) == centroids.len() as int / dim,
        chunk_count((centroids + copies).len() as int, dim) == (centroids + copies).len() as int
            / dim,
        0 <= centroids.len() as int / dim <= (centroids + copies).len() as int / dim,
        forall|j: int|
            0 <= j < centroids.len() as int / dim ==> #[trigger] chunk(centroids + copies, dim, j)
                == chunk(centroids, dim, j),
        forall|j: int|
            centroids.len() as int / dim <= j < (centroids + copies).len() as int / dim
                ==> is_one_of(centroids, dim, #[trigger] chunk(centroids + copies, dim, j)),
{
    let whole = centroids + copies;
    let n = centroids.len() as int / dim;
    lemma_joined_vectors(centroids, copies, dim);
    assert forall|j: int| 0 <= j < n implies #[trigger] chunk(whole, dim, j) == chunk(
        centroids,
        dim,
        j,
    ) by {
        assert(row(whole, dim, j) == row(centroids, dim, j));
    }
    assert forall|j: int| n <= j < whole.len() as int / dim implies is_one_of(
        centroids,
        dim,
        #[trigger] chunk(whole, dim, j),
    ) by {
        assert(chunk(copies, dim, j - n) == chunk(whole, dim, n + (j - n)));
    }
}

/// Distances to the centroids and their copies repeat those to the centroids.
proof fn lemma_l2_distances_repeat<T: ArrowFloatType>(
    from: Seq<T::Native>,
    centroids: Seq<T::Native>,
    copies: Seq<T::Native>,
    dim: int,
    tiled: bool,
    a: Seq<Float32>,
    b: Seq<Float32>,
)
    requires
        dim > 0,
        are_copies(centroids, copies, dim),
        are_distances_fixed::<T>(),
        is_arithmetic_fixed::<T>(),
        a.len() == centroids.len() as int / dim,
        b.len() == (centroids + copies).len() as int / dim,
        forall|j: int|
            0 <= j < a.len() ==> measured::<T>(
                from,
                row(centroids, dim, j),
                dim,
                tiled,
                #[trigger] a[j],
            ),
        forall|j: int|
            0 <= j < b.len() ==> measured::<T>(
                from,
                row(centroids + copies, dim, j),
                dim,
                tiled,
                #[trigger] b[j],
            ),
    ensures
        repeats(a, b),
{
    let whole = centroids + copies;
    lemma_copies_lie(centroids, copies, dim);
    assert forall|j: int| 0 <= j < b.len() implies #[trigger] chunk(whole, dim, j) == row(
        whole,
        dim,
        j,
    ) by {
        lemma_chunk_is_row(whole, dim, j);
    }
    assert forall|j: int| 0 <= j < a.len() implies #[trigger] chunk(centroids, dim, j) == row(
        centroids,
        dim,
        j,
    ) by {
        lemma_chunk_is_row(centroids, dim, j);
    }
    assert forall|j: int| 0 <= j < a.len() implies #[trigger] b[j] == a[j] by {
        assert(chunk(whole, dim, j) == chunk(centroids, dim, j));
        lemma_measured_determined::<T>(from, row(centroids, dim, j), dim, tiled, a[j], b[j]);
    }
    assert forall|j: int| a.len() <= j < b.len() implies a.contains(#[trigger] b[j]) by {
        assert(is_one_of(centroids, dim, chunk(whole, dim, j)));
        let i = choose|i: int|
            0 <= i < a.len() && chunk(whole, dim, j) == #[trigger] chunk(centroids, dim, i);
        lemma_measured_determined::<T>(from, row(centroids, dim, i), dim, tiled, a[i], b[j]);
        assert(a[i] == b[j]);
    }
}

/// `d` is what measuring two vectors, stripe by stripe or in one go, may give.
spec fn measured<T: ArrowFloatType>(
    from: Seq<T::Native>,
    to: Seq<T::Native>,
    dim: int,
    tiled: bool,
    d: Float32,
) -> bool {
    if tiled {
        striped_l2_outcome::<T>(from, to, chunk_count(dim, STRIPE_SIZE as int) as nat, d)
    } else {
        l2_outcome::<T>(from, to, d)
    }
}

proof fn lemma_measured_determined<T: ArrowFloatType>(
    from: Seq<T::Native>,
    to: Seq<T::Native>,
    dim: int,
    tiled: bool,
    d: Float32,
    e: Float32,
)
    requires
        are_distances_fixed::<T>(),
        is_arithmetic_fixed::<T>(),
        measured::<T>(from, to, dim, tiled, d),
        measured::<T>(from, to, dim, tiled, e),
    ensures
        d == e,
{
    if tiled {
        lemma_striped_determined::<T>(
            from,
            to,
            chunk_count(dim, STRIPE_SIZE as int) as nat,
            d,
            e,
        );
    } else {
        lemma_l2_determined::<T>(from, to, d, e);
    }
}

/// Copies do not change the nearest centroid by squared Euclidean distance.
proof fn lemma_l2_nearest_ignores_copies<T: ArrowFloatType>(
    from: Seq<T::Native>,
    centroids: Seq<T::Native>,
    copies: Seq<T::Native>,
    dim: int,
    p: (u32, Float32),
    q: (u32, Float32),
)
    requires
        dim > 0,
        are_copies(centroids, copies, dim),
        are_distances_fixed::<T>(),
        is_arithmetic_fixed::<T>(),
        is_tiled(centroids) == is_tiled(centroids + copies),
        l2_nearest_outcome::<T>(from, centroids, dim, p),
        l2_nearest_outcome::<T>(from, centroids + copies, dim, q),
    ensures
        p == q,
{
    let whole = centroids + copies;
    let tiled = is_tiled(centroids);
    let a = choose|dists: Seq<Float32>|
        {
            &&& #[trigger] l2_distances_outcome::<T>(from, centroids, dim, dists)
            &&& is_argmin_value_float(dists, p)
        };
    let b = choose|dists: Seq<Float32>|
        {
            &&& #[trigger] l2_distances_outcome::<T>(from, whole, dim, dists)
            &&& is_argmin_value_float(dists, q)
        };
    assert forall|j: int| 0 <= j < a.len() implies measured::<T>(
        from,
        row(centroids, dim, j),
        dim,
        tiled,
        #[trigger] a[j],
    ) by {
        assert(row(centroids, dim, 0 + j) == row(centroids, dim, j));
    }
    assert forall|j: int| 0 <= j < b.len() implies measured::<T>(
        from,
        row(whole, dim, j),
        dim,
        tiled,
        #[trigger] b[j],
    ) by {
        assert(row(whole, dim, 0 + j) == row(whole, dim, j));
    }
    lemma_l2_distances_repeat::<T>(from, centroids, copies, dim, tiled, a, b);
    lemma_argmin_value_float_ignores_copies(a, b, p, q);
}

proof fn lemma_small_nearest_ignores_copies<T: ArrowFloatType>(
    from: Seq<T::Native>,
    centroids: Seq<T::Native>,
    copies: Seq<T::Native>,
    dim: int,
    p: (u32, Float32),
    q: (u32, Float32),
)
    requires
        dim > 0,
        are_copies(centroids, copies, dim),
        are_distances_fixed::<T>(),
        is_arithmetic_fixed::<T>(),
        small_nearest_outcome::<T>(from, centroids, dim, p),
        small_nearest_outcome::<T>(from, centroids + copies, dim, q),
    ensures
        p == q,
{
    let a = choose|dists: Seq<Float32>|
        {
            &&& #[trigger] l2_batch_outcome::<T>(from, centroids, dim, dists)
            &&& is_argmin_value_float(dists, p)
        };
    let b = choose|dists: Seq<Float32>|
        {
            &&& #[trigger] l2_batch_outcome::<T>(from, centroids + copies, dim, dists)
            &&& is_argmin_value_float(dists, q)
        };
    lemma_l2_distances_repeat::<T>(from, centroids, copies, dim, false, a, b);
    lemma_argmin_value_float_ignores_copies(a, b, p, q);
}

/// Copies do not change the nearest centroid by cosine distance or inner product.
proof fn lemma_nearest_ignores_copies<T: ArrowFloatType>(
    metric_type: MetricType,
    from: Seq<T::Native>,
    centroids: Seq<T::Native>,
    copies: Seq<T::Native>,
    dim: int,
    norms: Seq<Float32>,
    more_norms: Seq<Float32>,
    p: Option<(u32, Float32)>,
    q: Option<(u32, Float32)>,
)
    requires
        dim > 0,
        are_copies(centroids, copies, dim),
        are_distances_fixed::<T>(),
        metric_type is Cosine ==> {
            &&& norms.len() == centroids.len() as int / dim
            &&& more_norms.len() == (centroids + copies).len() as int / dim
            &&& norms_outcome::<T>(centroids, dim, norms)
            &&& norms_outcome::<T>(centroids + copies, dim, more_norms)
        },
        metric_type is Dot || metric_type is Cosine,
        nearest_outcome::<T>(
            metric_type,
            from,
            None,
            centroids,
            dim,
            centroids.len() as int / dim,
            norms,
            p,
        ),
        nearest_outcome::<T>(
            metric_type,
            from,
            None,
            centroids + copies,
            dim,
            (centroids + copies).len() as int / dim,
            more_norms,
            q,
        ),
    ensures
        p == q,
{
    let whole = centroids + copies;
    let a = choose|dists: Seq<Float32>|
        {
            &&& dists.len() == centroids.len() as int / dim
            &&& #[trigger] distances_outcome::<T>(
                metric_type,
                from,
                None,
                centroids,
                dim,
                norms,
                dists,
            )
            &&& is_argmin_value(dists, p)
        };
    let b = choose|dists: Seq<Float32>|
        {
            &&& dists.len() == whole.len() as int / dim
            &&& #[trigger] distances_outcome::<T>(
                metric_type,
                from,
                None,
                whole,
                dim,
                more_norms,
                dists,
            )
            &&& is_argmin_value(dists, q)
        };
    lemma_copies_lie(centroids, copies, dim);
    assert forall|i: int, j: int|
        0 <= i < a.len() && 0 <= j < b.len() && #[trigger] chunk(whole, dim, j)
            == #[trigger] chunk(centroids, dim, i) implies a[i] == b[j] by {
        let x = chunk(centroids, dim, i);
        assert(distance_outcome::<T>(metric_type, from, None, x, norms[i], a[i]));
        assert(distance_outcome::<T>(metric_type, from, None, x, more_norms[j], b[j]));
        if metric_type is Cosine {
            assert(norm_outcome::<T>(x, norms[i]));
            assert(norm_outcome::<T>(x, more_norms[j]));
            lemma_norm_determined::<T>(x, norms[i], more_norms[j]);
            lemma_distance_determined::<T>(metric_type, from, None, x, norms[i], a[i], b[j]);
        } else {
            assert(distance_outcome::<T>(metric_type, from, None, x, norms[i], b[j]));
            lemma_distance_determined::<T>(metric_type, from, None, x, norms[i], a[i], b[j]);
        }
    }
    assert forall|j: int| 0 <= j < a.len() implies #[trigger] b[j] == a[j] by {
        assert(chunk(whole, dim, j) == chunk(centroids, dim, j));
    }
    assert forall|j: int| a.len() <= j < b.len() implies a.contains(#[trigger] b[j]) by {
        assert(is_one_of(centroids, dim, chunk(whole, dim, j)));
        let i = choose|i: int|
            0 <= i < a.len() && chunk(whole, dim, j) == #[trigger] chunk(centroids, dim, i);
        assert(a[i] == b[j]);
    }
    lemma_argmin_value_ignores_copies(a, b, p, q);
}

proof fn lemma_norm_determined<T: ArrowFloatType>(x: Seq<T::Native>, r: Float32, s: Float32)
    requires
        are_distances_fixed::<T>(),
        norm_outcome::<T>(x, r),
        norm_outcome::<T>(x, s),
    ensures
        r == s,
{
    let a = choose|a: &[T::Native]| a@ == x && #[trigger] call_ensures(T::norm_l2, (a,), r);
    let b = choose|b: &[T::Native]| b@ == x && #[trigger] call_ensures(T::norm_l2, (b,), s);
    assert(a =~= b);
}

/// Whether the same is measured with and without copies of centroids: both are
/// worked through in tiles, or neither, or tiles make no difference.
pub open spec fn is_measured_alike<T: ArrowFloatType>(
    centroids: Seq<T::Native>,
    copies: Seq<T::Native>,
    data: Seq<T::Native>,
    dim: int,
) -> bool {
    is_tiled(centroids) == is_tiled(centroids + copies) || stripes_add_up::<T>(dim)
        && data.len() as int % dim == 0
}

/// Copies of centroids that are put behind them change no partition. By squared
/// Euclidean distance that is said where both partitions exist: with copies there
/// may be a tile of which no distance is a finite number.
pub proof fn law_copies_change_no_partition<T: ArrowFloatType>(
    metric_type: MetricType,
    centroids: Seq<T::Native>,
    copies: Seq<T::Native>,
    data: Seq<T::Native>,
    dim: int,
    r: Option<Seq<u32>>,
    s: Option<Seq<u32>>,
)
    requires
        dim > 0,
        are_copies(centroids, copies, dim),
        are_distances_fixed::<T>(),
        is_arithmetic_fixed::<T>(),
        metric_type is L2 ==> is_measured_alike::<T>(centroids, copies, data, dim),
        partitions_outcome::<T>(metric_type, centroids, data, dim, r),
        partitions_outcome::<T>(metric_type, centroids + copies, data, dim, s),
    ensures
        metric_type is L2 ==> (r is Some && s is Some ==> r == s),
        !(metric_type is L2) ==> r == s,
{
    let whole = centroids + copies;
    match metric_type {
        MetricType::L2 => {
            if r is Some && s is Some {
                lemma_l2_copies::<T>(centroids, copies, data, dim, r->Some_0, s->Some_0);
            }
        },
        MetricType::Dot => {
            lemma_ids_copies::<T>(
                metric_type,
                centroids,
                copies,
                data,
                dim,
                Seq::empty(),
                Seq::empty(),
                r,
                s,
            );
        },
        MetricType::Cosine => {
            lemma_copies_lie(centroids, copies, dim);
            let norms = choose|norms: Seq<Float32>|
                {
                    &&& norms.len() == chunk_count(centroids.len() as int, dim)
                    &&& #[trigger] norms_outcome::<T>(centroids, dim, norms)
                    &&& ids_outcome::<T>(metric_type, centroids, data, dim, norms, r)
                };
            let more_norms = choose|norms: Seq<Float32>|
                {
                    &&& norms.len() == chunk_count(whole.len() as int, dim)
                    &&& #[trigger] norms_outcome::<T>(whole, dim, norms)
                    &&& ids_outcome::<T>(metric_type, whole, data, dim, norms, s)
                };
            lemma_ids_copies::<T>(
                metric_type,
                centroids,
                copies,
                data,
                dim,
                norms,
                more_norms,
                r,
                s,
            );
        },
    }
}

proof fn lemma_l2_copies<T: ArrowFloatType>(
    centroids: Seq<T::Native>,
    copies: Seq<T::Native>,
    data: Seq<T::Native>,
    dim: int,
    r: Seq<u32>,
    s: Seq<u32>,
)
    requires
        dim > 0,
        are_copies(centroids, copies, dim),
        are_distances_fixed::<T>(),
        is_arithmetic_fixed::<T>(),
        is_measured_alike::<T>(centroids, copies, data, dim),
        partitions_outcome::<T>(MetricType::L2, centroids, data, dim, Some(r)),
        partitions_outcome::<T>(MetricType::L2, centroids + copies, data, dim, Some(s)),
    ensures
        r == s,
{
    let whole = centroids + copies;
    let a = choose|parts: Seq<(u32, Float32)>| #[trigger]
        l2_partitions_outcome::<T>(centroids, data, dim, Some(parts)) && r == ids_of(parts);
    let b = choose|parts: Seq<(u32, Float32)>| #[trigger]
        l2_partitions_outcome::<T>(whole, data, dim, Some(parts)) && s == ids_of(parts);
    assert(a.len() == b.len());
    assert forall|i: int| 0 <= i < a.len() implies #[trigger] a[i] == b[i] by {
        let from = chunk(data, dim, i);
        assert(l2_nearest_outcome::<T>(from, centroids, dim, a[i]));
        assert(l2_nearest_outcome::<T>(from, whole, dim, b[i]));
        if is_tiled(centroids) == is_tiled(whole) {
            lemma_l2_nearest_ignores_copies::<T>(from, centroids, copies, dim, a[i], b[i]);
        } else {
            law_tiles_make_no_difference::<T>(centroids, data, dim, a, i);
            law_tiles_make_no_difference::<T>(whole, data, dim, b, i);
            lemma_small_nearest_ignores_copies::<T>(from, centroids, copies, dim, a[i], b[i]);
        }
    }
    assert(a =~= b);
}

proof fn lemma_ids_copies<T: ArrowFloatType>(
    metric_type: MetricType,
    centroids: Seq<T::Native>,
    copies: Seq<T::Native>,
    data: Seq<T::Native>,
    dim: int,
    norms: Seq<Float32>,
    more_norms: Seq<Float32>,
    r: Option<Seq<u32>>,
    s: Option<Seq<u32>>,
)
    requires
        dim > 0,
        are_copies(centroids, copies, dim),
        are_distances_fixed::<T>(),
        metric_type is Dot || metric_type is Cosine,
        metric_type is Cosine ==> {
            &&& norms.len() == centroids.len() as int / dim
            &&& more_norms.len() == (centroids + copies).len() as int / dim
            &&& norms_outcome::<T>(centroids, dim, norms)
            &&& norms_outcome::<T>(centroids + copies, dim, more_norms)
        },
        ids_outcome::<T>(metric_type, centroids, data, dim, norms, r),
        ids_outcome::<T>(metric_type, centroids + copies, data, dim, more_norms, s),
    ensures
        r == s,
{
    let whole = centroids + copies;
    let n = chunk_count(data.len() as int, dim);
    lemma_copies_lie(centroids, copies, dim);
    match (r, s) {
        (Some(a), Some(b)) => {
            assert forall|i: int| 0 <= i < a.len() implies #[trigger] a[i] == b[i] by {
                let p = lemma_nearest_of::<T>(metric_type, centroids, data, dim, norms, i, a[i]);
                let q = lemma_nearest_of::<T>(metric_type, whole, data, dim, more_norms, i, b[i]);
                lemma_nearest_ignores_copies::<T>(
                    metric_type,
                    chunk(data, dim, i),
                    centroids,
                    copies,
                    dim,
                    norms,
                    more_norms,
                    Some(p),
                    Some(q),
                );
            }
            assert(a =~= b);
        },
        (Some(a), None) => {
            let i = choose|i: int|
                0 <= i < n && nearest_outcome::<T>(
                    metric_type,
                    #[trigger] chunk(data, dim, i),
                    None,
                    whole,
                    dim,
                    chunk_count(whole.len() as int, dim),
                    more_norms,
                    None,
                );
            let p = lemma_nearest_of::<T>(metric_type, centroids, data, dim, norms, i, a[i]);
            lemma_nearest_ignores_copies::<T>(
                metric_type,
                chunk(data, dim, i),
                centroids,
                copies,
                dim,
                norms,
                more_norms,
                Some(p),
                None,
            );
        },
        (None, Some(b)) => {
            let i = choose|i: int|
                0 <= i < n && nearest_outcome::<T>(
                    metric_type,
                    #[trigger] chunk(data, dim, i),
                    None,
                    centroids,
                    dim,
                    chunk_count(centroids.len() as int, dim),
                    norms,
                    None,
                );
            let q = lemma_nearest_of::<T>(metric_type, whole, data, dim, more_norms, i, b[i]);
            lemma_nearest_ignores_copies::<T>(
                metric_type,
                chunk(data, dim, i),
                centroids,
                copies,
                dim,
                norms,
                more_norms,
                None,
                Some(q),
            );
        },
        (None, None) => {},
    }
}

/// The place and distance behind the place of a nearest centroid.
proof fn lemma_nearest_of<T: ArrowFloatType>(
    metric_type: MetricType,
    centroids: Seq<T::Native>,
    data: Seq<T::Native>,
    dim: int,
    norms: Seq<Float32>,
    i: int,
    id: u32,
) -> (p: (u32, Float32))
    requires
        nearest_id_outcome::<T>(
            metric_type,
            chunk(data, dim, i),
            centroids,
            dim,
            chunk_count(centroids.len() as int, dim),
            norms,
            id,
        ),
    ensures
        p.0 == id,
        nearest_outcome::<T>(
            metric_type,
            chunk(data, dim, i),
            None,
            centroids,
            dim,
            chunk_count(centroids.len() as int, dim),
            norms,
            Some(p),
        ),
{
    let d = choose|d: Float32| #[trigger]
        nearest_outcome::<T>(
            metric_type,
            chunk(data, dim, i),
            None,
            centroids,
            dim,
            chunk_count(centroids.len() as int, dim),
            norms,
            Some((id, d)),
        );
    (id, d)
}

} // verus!
