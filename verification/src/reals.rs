//! Sums and squares of real numbers.

use vstd::prelude::*;

verus! {

/// The sum of `f(0)` to `f(n - 1)`.
pub open spec fn sum_to(n: int, f: spec_fn(int) -> real) -> real
    decreases n,
{
    if n <= 0 {
        0 as real
    } else {
        sum_to(n - 1, f) + f(n - 1)
    }
}

/// The square of a number.
pub open spec fn square(x: real) -> real {
    x * x
}

/// Sums of equal terms are equal.
pub proof fn lemma_sum_same(n: int, f: spec_fn(int) -> real, g: spec_fn(int) -> real)
    requires
        forall|i: int| 0 <= i < n ==> #[trigger] f(i) == g(i),
    ensures
        sum_to(n, f) == sum_to(n, g),
    decreases n,
{
    if n > 0 {
        lemma_sum_same(n - 1, f, g);
        assert(f(n - 1) == g(n - 1));
    }
}

/// A sum of terms that are not larger is not larger.
pub proof fn lemma_sum_order(n: int, f: spec_fn(int) -> real, g: spec_fn(int) -> real)
    requires
        forall|i: int| 0 <= i < n ==> #[trigger] f(i) <= g(i),
    ensures
        sum_to(n, f) <= sum_to(n, g),
    decreases n,
{
    if n > 0 {
        lemma_sum_order(n - 1, f, g);
        assert(f(n - 1) <= g(n - 1));
    }
}

/// The sum of sums, term by term.
pub proof fn lemma_sum_of_sums(
    n: int,
    f: spec_fn(int) -> real,
    g: spec_fn(int) -> real,
    h: spec_fn(int) -> real,
)
    requires
        forall|i: int| 0 <= i < n ==> #[trigger] h(i) == f(i) + g(i),
    ensures
        sum_to(n, h) == sum_to(n, f) + sum_to(n, g),
    decreases n,
{
    if n > 0 {
        lemma_sum_of_sums(n - 1, f, g, h);
        assert(h(n - 1) == f(n - 1) + g(n - 1));
    }
}

/// A sum goes on where another ends.
pub proof fn lemma_sum_splits(m: int, n: int, f: spec_fn(int) -> real, g: spec_fn(int) -> real)
    requires
        0 <= m,
        0 <= n,
        forall|i: int| 0 <= i < n ==> #[trigger] g(i) == f(m + i),
    ensures
        sum_to(m + n, f) == sum_to(m, f) + sum_to(n, g),
    decreases n,
{
    if n > 0 {
        lemma_sum_splits(m, n - 1, f, g);
        assert(g(n - 1) == f(m + (n - 1)));
    }
}

/// It does not matter whether rows or columns are summed up first.
pub proof fn lemma_sum_swaps(n: int, m: int, h: spec_fn(int, int) -> real)
    requires
        0 <= m,
    ensures
        sum_to(n, |i: int| sum_to(m, |j: int| h(i, j))) == sum_to(
            m,
            |j: int| sum_to(n, |i: int| h(i, j)),
        ),
    decreases n,
{
    let rows = |i: int| sum_to(m, |j: int| h(i, j));
    let columns = |j: int| sum_to(n, |i: int| h(i, j));
    if n <= 0 {
        lemma_sum_of_nothing(m, columns);
    } else {
        lemma_sum_swaps(n - 1, m, h);
        let shorter = |j: int| sum_to(n - 1, |i: int| h(i, j));
        let last = |j: int| h(n - 1, j);
        assert forall|j: int| 0 <= j < m implies #[trigger] columns(j) == shorter(j) + last(j) by {
            let f = |i: int| h(i, j);
            assert(sum_to(n, f) == sum_to(n - 1, f) + f(n - 1));
        }
        lemma_sum_of_sums(m, shorter, last, columns);
        assert(rows(n - 1) == sum_to(m, last)) by {
            lemma_sum_same(m, |j: int| h(n - 1, j), last);
        }
    }
}

/// A sum of zeros is zero.
pub proof fn lemma_sum_of_nothing(n: int, f: spec_fn(int) -> real)
    requires
        forall|i: int| 0 <= i < n ==> #[trigger] f(i) == 0 as real,
    ensures
        sum_to(n, f) == 0 as real,
    decreases n,
{
    if n > 0 {
        lemma_sum_of_nothing(n - 1, f);
        assert(f(n - 1) == 0 as real);
    }
}

/// One larger term makes a sum larger by as much.
pub proof fn lemma_sum_grows(
    n: int,
    f: spec_fn(int) -> real,
    g: spec_fn(int) -> real,
    at: int,
    more: real,
)
    requires
        0 <= at < n,
        forall|i: int| 0 <= i < n && i != at ==> #[trigger] g(i) == f(i),
        g(at) == f(at) + more,
    ensures
        sum_to(n, g) == sum_to(n, f) + more,
    decreases n,
{
    if at == n - 1 {
        lemma_sum_same(n - 1, g, f);
    } else {
        lemma_sum_grows(n - 1, f, g, at, more);
        assert(g(n - 1) == f(n - 1));
    }
}

/// The sum of squared differences to a number, multiplied out.
pub proof fn lemma_squares_expand(n: int, f: spec_fn(int) -> real, y: real)
    requires
        0 <= n,
    ensures
        sum_to(n, |i: int| square(f(i) - y)) == sum_to(n, |i: int| square(f(i))) - 2 as real * y
            * sum_to(n, f) + n as real * y * y,
    decreases n,
{
    let differences = |i: int| square(f(i) - y);
    let squares = |i: int| square(f(i));
    if n == 0 {
        assert(n as real * y * y == 0 as real) by (nonlinear_arith)
            requires
                n == 0,
        ;
        assert(2 as real * y * (0 as real) == 0 as real) by (nonlinear_arith);
    } else {
        lemma_squares_expand(n - 1, f, y);
        let x = f(n - 1);
        let s = sum_to(n - 1, f);
        let q = sum_to(n - 1, squares);
        let d = sum_to(n - 1, differences);
        let m = (n - 1) as real;
        assert(n as real == m + 1 as real);
        assert(differences(n - 1) == square(x - y));
        assert(squares(n - 1) == square(x));
        assert(d + (x - y) * (x - y) == (q + x * x) - 2 as real * y * (s + x) + (m + 1 as real) * y
            * y) by (nonlinear_arith)
            requires
                d == q - 2 as real * y * s + m * y * y,
        ;
    }
}

/// No number has a smaller sum of squared differences than the mean.
pub proof fn lemma_mean_is_central(n: int, f: spec_fn(int) -> real, mean: real, y: real)
    requires
        0 <= n,
        mean * n as real == sum_to(n, f),
    ensures
        sum_to(n, |i: int| square(f(i) - mean)) <= sum_to(n, |i: int| square(f(i) - y)),
{
    lemma_squares_expand(n, f, mean);
    lemma_squares_expand(n, f, y);
    let s = sum_to(n, f);
    let m = n as real;
    assert(m >= 0 as real);
    assert((y - mean) * (y - mean) >= 0 as real) by (nonlinear_arith);
    assert(m * ((y - mean) * (y - mean)) >= 0 as real) by (nonlinear_arith)
        requires
            m >= 0 as real,
            (y - mean) * (y - mean) >= 0 as real,
    ;
    assert(m * ((y - mean) * (y - mean)) == (m * y * y - 2 as real * y * s) - (m * mean * mean
        - 2 as real * mean * s)) by (nonlinear_arith)
        requires
            mean * m == s,
    ;
}

/// Where no term is negative and the sum is zero, all terms are zero.
pub proof fn lemma_zero_sum(n: int, f: spec_fn(int) -> real)
    requires
        forall|i: int| 0 <= i < n ==> #[trigger] f(i) >= 0 as real,
    ensures
        sum_to(n, f) >= 0 as real,
        sum_to(n, f) == 0 as real ==> forall|i: int| 0 <= i < n ==> #[trigger] f(i) == 0 as real,
    decreases n,
{
    if n > 0 {
        lemma_zero_sum(n - 1, f);
        assert(f(n - 1) >= 0 as real);
    }
}

/// A square is not negative, and zero only for zero.
pub proof fn lemma_square(x: real)
    ensures
        square(x) >= 0 as real,
        square(x) == 0 as real <==> x == 0 as real,
{
    if x > 0 as real {
        lemma_positive_product(x, x);
    } else if x < 0 as real {
        lemma_positive_product(-x, -x);
        lemma_product_of_negatives(x, x);
    } else {
        lemma_zero_product(x, x);
    }
}

/// The product of positive numbers is positive.
pub proof fn lemma_positive_product(x: real, y: real)
    by (nonlinear_arith)
    requires
        x > 0 as real,
        y > 0 as real,
    ensures
        x * y > 0 as real,
{
}

/// Two minus signs cancel out.
pub proof fn lemma_product_of_negatives(x: real, y: real)
    by (nonlinear_arith)
    ensures
        (-x) * (-y) == x * y,
{
}

/// A product with zero is zero.
pub proof fn lemma_zero_product(x: real, y: real)
    by (nonlinear_arith)
    requires
        x == 0 as real,
    ensures
        x * y == 0 as real,
{
}

/// Multiplication distributes over subtraction.
pub proof fn lemma_product_of_difference(x: real, y: real, w: real)
    by (nonlinear_arith)
    ensures
        (x - y) * w == x * w - y * w,
{
}

/// What is multiplied by a positive number keeps its order.
pub proof fn lemma_product_order(x: real, y: real, w: real)
    requires
        w > 0 as real,
    ensures
        x < y <==> x * w < y * w,
        x == y <==> x * w == y * w,
{
    if x < y {
        lemma_positive_product(y - x, w);
        lemma_product_of_difference(y, x, w);
    } else if y < x {
        lemma_positive_product(x - y, w);
        lemma_product_of_difference(x, y, w);
    }
}

/// A sum of equal terms is a multiple of the term.
pub proof fn lemma_sum_of_equals(n: int, f: spec_fn(int) -> real, x: real)
    requires
        0 <= n,
        forall|i: int| 0 <= i < n ==> #[trigger] f(i) == x,
    ensures
        sum_to(n, f) == x * n as real,
    decreases n,
{
    if n == 0 {
        assert(x * n as real == 0 as real) by (nonlinear_arith)
            requires
                n == 0,
        ;
    } else {
        lemma_sum_of_equals(n - 1, f, x);
        assert(f(n - 1) == x);
        let m = (n - 1) as real;
        assert(n as real == m + 1 as real);
        assert(x * (m + 1 as real) == x * m + x) by (nonlinear_arith);
    }
}

/// Numbers have no deviation from their mean exactly where they are all equal.
pub proof fn lemma_no_spread(
    n: int,
    x: spec_fn(int) -> real,
    average: real,
    deviation: real,
)
    requires
        0 < n,
        average * n as real == sum_to(n, x),
        square(deviation) * n as real == sum_to(n, |c: int| square(x(c) - average)),
    ensures
        deviation == 0 as real <==> forall|c: int, d: int|
            0 <= c < n && 0 <= d < n ==> #[trigger] x(c) == #[trigger] x(d),
{
    let f = |c: int| square(x(c) - average);
    let weight = n as real;
    lemma_square(deviation);
    assert forall|c: int| 0 <= c < n implies #[trigger] f(c) >= 0 as real by {
        lemma_square(x(c) - average);
    }
    lemma_zero_sum(n, f);
    lemma_product_order(square(deviation), 0 as real, weight);
    lemma_zero_product(0 as real, weight);
    if deviation == 0 as real {
        assert forall|c: int, d: int| 0 <= c < n && 0 <= d < n implies #[trigger] x(c)
            == #[trigger] x(d) by {
            assert(f(c) == 0 as real && f(d) == 0 as real);
            lemma_square(x(c) - average);
            lemma_square(x(d) - average);
        }
    }
    if forall|c: int, d: int|
        0 <= c < n && 0 <= d < n ==> #[trigger] x(c) == #[trigger] x(d) {
        assert forall|c: int| 0 <= c < n implies #[trigger] x(c) == x(0) by {}
        lemma_sum_of_equals(n, x, x(0));
        lemma_product_order(average, x(0), weight);
        assert forall|c: int| 0 <= c < n implies #[trigger] f(c) == 0 as real by {
            assert(x(c) == x(0));
            lemma_square(x(c) - average);
        }
        lemma_sum_of_nothing(n, f);
    }
}

/// The order of factors in a product of products does not matter.
pub proof fn lemma_products_swap(x: real, f: real, y: real, g: real)
    by (nonlinear_arith)
    ensures
        (x * f) * (y * g) == (x * y) * (f * g),
{
}

/// Multiplication distributes over addition.
pub proof fn lemma_product_of_sum(x: real, y: real, w: real)
    by (nonlinear_arith)
    ensures
        (x + y) * w == x * w + y * w,
{
}

/// Multiplication is associative.
pub proof fn lemma_product_associates(x: real, y: real, w: real)
    by (nonlinear_arith)
    ensures
        x * (y * w) == (x * y) * w,
{
}

/// Multiplication is commutative.
pub proof fn lemma_product_commutes(x: real, y: real)
    by (nonlinear_arith)
    ensures
        x * y == y * x,
{
}

/// A sum of multiples is a multiple of the sum.
pub proof fn lemma_sum_scales(n: int, f: spec_fn(int) -> real, g: spec_fn(int) -> real, w: real)
    requires
        forall|i: int| 0 <= i < n ==> #[trigger] g(i) == f(i) * w,
    ensures
        sum_to(n, g) == sum_to(n, f) * w,
    decreases n,
{
    if n <= 0 {
        lemma_zero_product(0 as real, w);
    } else {
        lemma_sum_scales(n - 1, f, g, w);
        assert(g(n - 1) == f(n - 1) * w);
        lemma_product_of_sum(sum_to(n - 1, f), f(n - 1), w);
    }
}

/// Numbers that are not negative order as their squares do.
pub proof fn lemma_square_order(x: real, y: real)
    requires
        (0 as real) <= x,
        x < y,
    ensures
        square(x) < square(y),
{
    lemma_product_order(x, y, y);
    if x > 0 as real {
        lemma_product_order(x, y, x);
        lemma_product_commutes(x, y);
    } else {
        lemma_zero_product(x, x);
        lemma_positive_product(y, y);
    }
}

/// The root of a number times a square is the root of the number times what is
/// squared.
pub proof fn lemma_root_scales(x: real, y: real, f: real)
    requires
        (0 as real) <= x,
        (0 as real) <= y,
        (0 as real) < f,
        square(y) == square(x) * square(f),
    ensures
        y == x * f,
{
    let z = x * f;
    lemma_products_swap(x, f, x, f);
    assert(square(z) == square(y));
    if x > 0 as real {
        lemma_positive_product(x, f);
    } else {
        lemma_zero_product(x, f);
    }
    if y < z {
        lemma_square_order(y, z);
    } else if z < y {
        lemma_square_order(z, y);
    }
}

/// A squared difference of multiples, multiplied out.
pub proof fn lemma_square_of_difference(q: real, x: real, p: real, y: real)
    ensures
        square(q * x - p * y) == square(x) * square(q) + ((x * y) * (-(p * q) - (p * q)) + square(
            y,
        ) * square(p)),
{
    let a = q * x;
    let b = p * y;
    lemma_binomial(a, b);
    lemma_products_swap(q, x, q, x);
    lemma_products_swap(p, y, p, y);
    lemma_products_swap(q, x, p, y);
    lemma_product_commutes(square(q), square(x));
    lemma_product_commutes(square(p), square(y));
    lemma_product_commutes(q * p, x * y);
    lemma_product_commutes(q, p);
    lemma_product_of_difference(-(p * q), p * q, x * y);
    lemma_product_commutes(x * y, -(p * q) - (p * q));
    lemma_negative_product(p * q, x * y);
    lemma_product_commutes(p * q, x * y);
}

/// The square of a difference.
pub proof fn lemma_binomial(a: real, b: real)
    by (nonlinear_arith)
    ensures
        (a - b) * (a - b) == a * a - a * b - a * b + b * b,
{
}

/// A minus sign can be taken out of a product.
pub proof fn lemma_negative_product(x: real, y: real)
    by (nonlinear_arith)
    ensures
        (-x) * y == -(x * y),
{
}

/// The inner product of numbers is at most the product of the roots of their
/// sums of squares.
pub proof fn lemma_inner_product_bound(
    n: int,
    f: spec_fn(int) -> real,
    g: spec_fn(int) -> real,
    p: real,
    q: real,
)
    requires
        (0 as real) < p,
        (0 as real) < q,
        square(p) == sum_to(n, |i: int| square(f(i))),
        square(q) == sum_to(n, |i: int| square(g(i))),
    ensures
        sum_to(n, |i: int| f(i) * g(i)) <= p * q,
{
    let w = p * q;
    let d = sum_to(n, |i: int| f(i) * g(i));
    let squares = |i: int| square(f(i));
    let others = |i: int| square(g(i));
    let products = |i: int| f(i) * g(i);
    let first = |i: int| square(f(i)) * square(q);
    let middle = |i: int| (f(i) * g(i)) * (-w - w);
    let last = |i: int| square(g(i)) * square(p);
    let rest = |i: int| (f(i) * g(i)) * (-w - w) + square(g(i)) * square(p);
    let h = |i: int| square(q * f(i) - p * g(i));
    assert forall|i: int| 0 <= i < n implies #[trigger] h(i) == first(i) + rest(i) by {
        lemma_square_of_difference(q, f(i), p, g(i));
    }
    assert forall|i: int| 0 <= i < n implies #[trigger] h(i) >= 0 as real by {
        lemma_square(q * f(i) - p * g(i));
    }
    lemma_sum_of_sums(n, first, rest, h);
    lemma_sum_of_sums(n, middle, last, rest);
    lemma_sum_scales(n, squares, first, square(q));
    lemma_sum_scales(n, products, middle, -w - w);
    lemma_sum_scales(n, others, last, square(p));
    lemma_zero_sum(n, h);
    lemma_products_swap(p, q, p, q);
    lemma_product_commutes(square(q), square(p));
    assert(square(p) * square(q) + (d * (-w - w) + square(q) * square(p)) >= 0 as real);
    assert(square(w) == square(p) * square(q));
    lemma_product_commutes(d, -w - w);
    lemma_product_of_difference(-w, w, d);
    lemma_negative_product(w, d);
    lemma_product_commutes(w, d);
    assert(d * w <= w * w);
    lemma_positive_product(p, q);
    lemma_product_order(w, d, w);
}

/// A minus sign on a factor is a factor minus one.
pub proof fn lemma_minus_one(x: real, y: real)
    by (nonlinear_arith)
    ensures
        x * (-y) == (x * y) * (-(1 as real)),
{
}

/// What is multiplied by minus one changes its sign.
pub proof fn lemma_times_minus_one(x: real)
    by (nonlinear_arith)
    ensures
        x * (-(1 as real)) == -x,
{
}

/// Minus one times a number is the number with its sign changed.
pub proof fn lemma_minus_one_times(x: real)
    by (nonlinear_arith)
    ensures
        (-(1 as real)) * x == -x,
{
}

/// One times a number is the number.
pub proof fn lemma_one_times(x: real)
    by (nonlinear_arith)
    ensures
        (1 as real) * x == x,
{
}

} // verus!
