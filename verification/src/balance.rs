//! When clusters are balanced.

use vstd::prelude::*;

use crate::exact::is_single_exact;
use crate::float::Float32;
use crate::membership::{
    cluster_size, law_sizes_add_up, lemma_cluster_size_bound, sizes_of, squared_deviation_outcome,
    stddev_outcome, total_size,
};
use crate::reals::{
    lemma_no_spread, lemma_product_order, lemma_square, lemma_sum_same, lemma_zero_product,
    lemma_zero_sum, square, sum_to,
};
use crate::scalar::{single_sum_outcome, FloatArithmetic};

verus! {

proof fn lemma_single_sum_exact<T: FloatArithmetic>(
    single: spec_fn(Float32) -> real,
    terms: Seq<Float32>,
    r: Float32,
)
    requires
        is_single_exact::<T>(single),
        single_sum_outcome::<T>(terms, r),
    ensures
        single(r) == sum_to(terms.len() as int, |i: int| single(terms[i])),
    decreases terms.len(),
{
    if terms.len() > 0 {
        let init = terms.drop_last();
        let a = choose|a: Float32|
            single_sum_outcome::<T>(init, a) && #[trigger] call_ensures(
                T::single_add,
                (a, terms.last()),
                r,
            );
        lemma_single_sum_exact::<T>(single, init, a);
        lemma_sum_same(init.len() as int, |i: int| single(init[i]), |i: int| single(terms[i]));
    }
}

/// The sizes of clusters add up to the number of vectors, as real numbers.
proof fn lemma_total_size(parts: Seq<(u32, Float32)>, k: nat)
    ensures
        sum_to(k as int, |c: int| cluster_size(parts, c) as int as real) == total_size(
            parts,
            k,
        ) as int as real,
    decreases k,
{
    if k > 0 {
        lemma_total_size(parts, (k - 1) as nat);
    }
}

/// A deviation of sizes is the root of the mean of the squared differences to
/// the mean size.
pub proof fn lemma_stddev_exact<T: FloatArithmetic>(
    single: spec_fn(Float32) -> real,
    sizes: Seq<usize>,
    len: usize,
    k: usize,
    r: Float32,
) -> (average: real)
    requires
        is_single_exact::<T>(single),
        k > 0,
        sizes.len() == k,
        stddev_outcome::<T>(sizes, len, k, r),
    ensures
        single(r) >= 0 as real,
        average * k as int as real == len as int as real,
        square(single(r)) * k as int as real == sum_to(
            k as int,
            |c: int| square(sizes[c] as int as real - average),
        ),
{
    let (len_number, k_number, mean, squares, sum, variance) = choose|
        len_number: Float32,
        k_number: Float32,
        mean: Float32,
        squares: Seq<Float32>,
        sum: Float32,
        variance: Float32,
    |
        {
            &&& call_ensures(T::single_from_usize, (len,), len_number)
            &&& call_ensures(T::single_from_usize, (k,), k_number)
            &&& #[trigger] call_ensures(T::single_div, (len_number, k_number), mean)
            &&& squares.len() == sizes.len()
            &&& forall|c: int|
                0 <= c < squares.len() ==> squared_deviation_outcome::<T>(
                    sizes[c],
                    mean,
                    #[trigger] squares[c],
                )
            &&& #[trigger] single_sum_outcome::<T>(squares, sum)
            &&& #[trigger] call_ensures(T::single_div, (sum, k_number), variance)
            &&& call_ensures(T::single_sqrt, (variance,), r)
        };
    let average = single(mean);
    let f = |c: int| square(sizes[c] as int as real - average);
    assert forall|c: int| 0 <= c < k implies single(#[trigger] squares[c]) == f(c) by {
        lemma_squared_deviation_exact::<T>(single, sizes[c], mean, squares[c]);
    }
    assert forall|c: int| 0 <= c < k implies #[trigger] f(c) >= 0 as real by {
        lemma_square(sizes[c] as int as real - average);
    }
    lemma_single_sum_exact::<T>(single, squares, sum);
    lemma_sum_same(k as int, |c: int| single(squares[c]), f);
    lemma_zero_sum(k as int, f);
    lemma_product_order(single(variance), 0 as real, k as int as real);
    lemma_zero_product(0 as real, k as int as real);
    average
}

proof fn lemma_squared_deviation_exact<T: FloatArithmetic>(
    single: spec_fn(Float32) -> real,
    size: usize,
    mean: Float32,
    r: Float32,
)
    requires
        is_single_exact::<T>(single),
        squared_deviation_outcome::<T>(size, mean, r),
    ensures
        single(r) == square(size as int as real - single(mean)),
{
    let (n, a) = choose|size_number: Float32, difference: Float32|
        {
            &&& call_ensures(T::single_from_usize, (size,), size_number)
            &&& #[trigger] call_ensures(T::single_sub, (size_number, mean), difference)
            &&& #[trigger] call_ensures(T::single_powi, (difference, 2i32), r)
        };
    assert(single(n) == size as int as real);
    assert(single(a) == single(n) - single(mean));
}

/// The deviation of cluster sizes is not negative, and zero exactly where all
/// clusters have the same size.
pub proof fn law_no_deviation_means_equal_sizes<T: FloatArithmetic>(
    single: spec_fn(Float32) -> real,
    parts: Seq<(u32, Float32)>,
    k: usize,
    r: Float32,
)
    requires
        is_single_exact::<T>(single),
        k > 0,
        parts.len() <= usize::MAX,
        forall|i: int| 0 <= i < parts.len() ==> (#[trigger] parts[i]).0 < k,
        stddev_outcome::<T>(sizes_of(parts, k as int), parts.len() as usize, k, r),
    ensures
        single(r) >= 0 as real,
        single(r) == 0 as real <==> forall|c: int, d: int|
            0 <= c < k && 0 <= d < k ==> #[trigger] cluster_size(parts, c)
                == #[trigger] cluster_size(parts, d),
{
    let n = k as int;
    let sizes = sizes_of(parts, n);
    let x = |c: int| cluster_size(parts, c) as int as real;
    let average = lemma_stddev_exact::<T>(single, sizes, parts.len() as usize, k, r);
    assert forall|c: int| 0 <= c < n implies (#[trigger] sizes[c]) as int as real == x(c) by {
        lemma_cluster_size_bound(parts, c);
    }
    lemma_sum_same(
        n,
        |c: int| square(sizes[c] as int as real - average),
        |c: int| square(x(c) - average),
    );
    law_sizes_add_up(parts, k as nat);
    lemma_total_size(parts, k as nat);
    lemma_sum_same(n, |c: int| cluster_size(parts, c) as int as real, x);
    lemma_no_spread(n, x, average, single(r));
    assert forall|c: int, d: int|
        0 <= c < n && 0 <= d < n implies (#[trigger] cluster_size(parts, c)
        == #[trigger] cluster_size(parts, d) <==> x(c) == x(d)) by {}
    if single(r) == 0 as real {
        assert forall|c: int, d: int| 0 <= c < k && 0 <= d < k implies #[trigger] cluster_size(
            parts,
            c,
        ) == #[trigger] cluster_size(parts, d) by {
            assert(x(c) == x(d));
        }
    }
}

} // verus!
