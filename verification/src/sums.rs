//! Finite sums of integer-valued functions over intervals and rectangles,
//! with the algebraic facts the convolution proofs rest on.

use vstd::prelude::*;

verus! {

/// The sum of `f(i)` over `lo <= i < hi`; zero when the interval is empty.
pub open spec fn sum(lo: int, hi: int, f: spec_fn(int) -> int) -> int
    decreases hi - lo,
{
    if hi <= lo {
        0
    } else {
        sum(lo, hi - 1, f) + f(hi - 1)
    }
}

/// The function `y -> f(x, y)` for a fixed `x`.
pub open spec fn along(f: spec_fn(int, int) -> int, x: int) -> spec_fn(int) -> int {
    |y: int| f(x, y)
}

/// The function `x -> sum of f(x, y) over ylo <= y < yhi`.
pub open spec fn columns(f: spec_fn(int, int) -> int, ylo: int, yhi: int) -> spec_fn(int) -> int {
    |x: int| sum(ylo, yhi, along(f, x))
}

/// The sum of `f(x, y)` over the rectangle `xlo <= x < xhi`, `ylo <= y < yhi`.
pub open spec fn sum2(xlo: int, xhi: int, ylo: int, yhi: int, f: spec_fn(int, int) -> int) -> int {
    sum(xlo, xhi, columns(f, ylo, yhi))
}

/// Functions that agree on the interval have the same sum.
pub proof fn lemma_sum_congruent(lo: int, hi: int, f: spec_fn(int) -> int, g: spec_fn(int) -> int)
    requires
        forall|i: int| lo <= i < hi ==> #[trigger] f(i) == g(i),
    ensures
        sum(lo, hi, f) == sum(lo, hi, g),
    decreases hi - lo,
{
    if hi > lo {
        lemma_sum_congruent(lo, hi - 1, f, g);
    }
}

/// The first term can be split off just like the last one.
pub proof fn lemma_sum_first(lo: int, hi: int, f: spec_fn(int) -> int)
    requires
        lo < hi,
    ensures
        sum(lo, hi, f) == f(lo) + sum(lo + 1, hi, f),
    decreases hi - lo,
{
    if hi - 1 > lo {
        lemma_sum_first(lo, hi - 1, f);
    } else {
        assert(sum(lo, lo, f) == 0);
        assert(sum(lo + 1, hi, f) == 0);
    }
}

/// A pointwise smaller function has a smaller sum.
pub proof fn lemma_sum_monotone(lo: int, hi: int, f: spec_fn(int) -> int, g: spec_fn(int) -> int)
    requires
        forall|i: int| lo <= i < hi ==> #[trigger] f(i) <= g(i),
    ensures
        sum(lo, hi, f) <= sum(lo, hi, g),
    decreases hi - lo,
{
    if hi > lo {
        lemma_sum_monotone(lo, hi - 1, f, g);
    }
}

/// A sum of terms between `low` and `high` lies between the interval's length
/// times `low` and the length times `high`.
pub proof fn lemma_sum_bounded(lo: int, hi: int, f: spec_fn(int) -> int, low: int, high: int)
    requires
        lo <= hi,
        forall|i: int| lo <= i < hi ==> low <= #[trigger] f(i) <= high,
    ensures
        (hi - lo) * low <= sum(lo, hi, f) <= (hi - lo) * high,
    decreases hi - lo,
{
    if hi > lo {
        lemma_sum_bounded(lo, hi - 1, f, low, high);
        assert((hi - lo) * low == (hi - 1 - lo) * low + low) by (nonlinear_arith);
        assert((hi - lo) * high == (hi - 1 - lo) * high + high) by (nonlinear_arith);
    } else {
        assert((hi - lo) * low == 0 && (hi - lo) * high == 0) by (nonlinear_arith)
            requires
                hi - lo == 0,
        ;
    }
}

/// Over a function that is nowhere negative on the larger interval, the sum
/// over a part of the interval is at most the sum over the whole.
pub proof fn lemma_sum_widen(
    lo: int,
    hi: int,
    outer_lo: int,
    outer_hi: int,
    f: spec_fn(int) -> int,
)
    requires
        outer_lo <= lo,
        hi <= outer_hi,
        forall|i: int| outer_lo <= i < outer_hi ==> 0 <= #[trigger] f(i),
    ensures
        sum(lo, hi, f) <= sum(outer_lo, outer_hi, f),
    decreases outer_hi - outer_lo,
{
    if outer_hi <= outer_lo {
    } else if hi <= lo {
        lemma_sum_nonnegative(outer_lo, outer_hi, f);
    } else if hi < outer_hi {
        lemma_sum_widen(lo, hi, outer_lo, outer_hi - 1, f);
    } else if outer_lo < lo {
        lemma_sum_first(outer_lo, outer_hi, f);
        lemma_sum_widen(lo, hi, outer_lo + 1, outer_hi, f);
    }
}

/// A sum of terms that are nowhere negative is not negative.
pub proof fn lemma_sum_nonnegative(lo: int, hi: int, f: spec_fn(int) -> int)
    requires
        forall|i: int| lo <= i < hi ==> 0 <= #[trigger] f(i),
    ensures
        0 <= sum(lo, hi, f),
    decreases hi - lo,
{
    if hi > lo {
        lemma_sum_nonnegative(lo, hi - 1, f);
    }
}

/// A common factor can be taken out of a sum.
pub proof fn lemma_sum_scaled(
    lo: int,
    hi: int,
    f: spec_fn(int) -> int,
    g: spec_fn(int) -> int,
    k: int,
)
    requires
        forall|i: int| lo <= i < hi ==> #[trigger] g(i) == k * f(i),
    ensures
        sum(lo, hi, g) == k * sum(lo, hi, f),
    decreases hi - lo,
{
    if hi > lo {
        lemma_sum_scaled(lo, hi - 1, f, g, k);
        let a = sum(lo, hi - 1, f);
        let b = f(hi - 1);
        assert(k * (a + b) == k * a + k * b) by (nonlinear_arith);
    } else {
        assert(k * 0 == 0);
    }
}

/// Moving the interval by `d` and the function back by `d` keeps the sum.
pub proof fn lemma_sum_shifted(
    lo: int,
    hi: int,
    f: spec_fn(int) -> int,
    g: spec_fn(int) -> int,
    d: int,
)
    requires
        forall|i: int| lo <= i < hi ==> #[trigger] f(i) == g(i + d),
    ensures
        sum(lo, hi, f) == sum(lo + d, hi + d, g),
    decreases hi - lo,
{
    if hi > lo {
        lemma_sum_shifted(lo, hi - 1, f, g, d);
        assert(f(hi - 1) == g(hi - 1 + d));
    }
}

/// A pointwise smaller function has a smaller sum over the rectangle.
pub proof fn lemma_sum2_monotone(
    xlo: int,
    xhi: int,
    ylo: int,
    yhi: int,
    f: spec_fn(int, int) -> int,
    g: spec_fn(int, int) -> int,
)
    requires
        forall|x: int, y: int| xlo <= x < xhi && ylo <= y < yhi ==> #[trigger] f(x, y) <= g(x, y),
    ensures
        sum2(xlo, xhi, ylo, yhi, f) <= sum2(xlo, xhi, ylo, yhi, g),
{
    let cf = columns(f, ylo, yhi);
    let cg = columns(g, ylo, yhi);
    assert forall|x: int| xlo <= x < xhi implies #[trigger] cf(x) <= cg(x) by {
        assert forall|y: int| ylo <= y < yhi implies #[trigger] along(f, x)(y) <= along(g, x)(y) by {
            assert(f(x, y) <= g(x, y));
        }
        lemma_sum_monotone(ylo, yhi, along(f, x), along(g, x));
    }
    lemma_sum_monotone(xlo, xhi, cf, cg);
}

/// A sum over a rectangle of terms between `low` and `high` lies between the
/// number of its cells times `low` and that number times `high`.
pub proof fn lemma_sum2_bounded(
    xlo: int,
    xhi: int,
    ylo: int,
    yhi: int,
    f: spec_fn(int, int) -> int,
    low: int,
    high: int,
)
    requires
        xlo <= xhi,
        ylo <= yhi,
        forall|x: int, y: int| xlo <= x < xhi && ylo <= y < yhi ==> low <= #[trigger] f(x, y) <= high,
    ensures
        (xhi - xlo) * ((yhi - ylo) * low) <= sum2(xlo, xhi, ylo, yhi, f) <= (xhi - xlo) * ((yhi
            - ylo) * high),
{
    let cf = columns(f, ylo, yhi);
    assert forall|x: int| xlo <= x < xhi implies (yhi - ylo) * low <= #[trigger] cf(x) <= (yhi
        - ylo) * high by {
        assert forall|y: int| ylo <= y < yhi implies low <= #[trigger] along(f, x)(y) <= high by {
            assert(low <= f(x, y) <= high);
        }
        lemma_sum_bounded(ylo, yhi, along(f, x), low, high);
    }
    lemma_sum_bounded(xlo, xhi, cf, (yhi - ylo) * low, (yhi - ylo) * high);
}

/// A sum over a rectangle of terms that are nowhere negative is not negative.
pub proof fn lemma_sum2_nonnegative(
    xlo: int,
    xhi: int,
    ylo: int,
    yhi: int,
    f: spec_fn(int, int) -> int,
)
    requires
        forall|x: int, y: int| xlo <= x < xhi && ylo <= y < yhi ==> 0 <= #[trigger] f(x, y),
    ensures
        0 <= sum2(xlo, xhi, ylo, yhi, f),
{
    let cf = columns(f, ylo, yhi);
    assert forall|x: int| xlo <= x < xhi implies 0 <= #[trigger] cf(x) by {
        assert forall|y: int| ylo <= y < yhi implies 0 <= #[trigger] along(f, x)(y) by {
            assert(0 <= f(x, y));
        }
        lemma_sum_nonnegative(ylo, yhi, along(f, x));
    }
    lemma_sum_nonnegative(xlo, xhi, cf);
}

/// Over a function that is nowhere negative on the larger rectangle, the sum
/// over a rectangle inside it is at most the sum over the whole.
pub proof fn lemma_sum2_widen(
    xlo: int,
    xhi: int,
    ylo: int,
    yhi: int,
    outer_xlo: int,
    outer_xhi: int,
    outer_ylo: int,
    outer_yhi: int,
    f: spec_fn(int, int) -> int,
)
    requires
        outer_xlo <= xlo,
        xhi <= outer_xhi,
        outer_ylo <= ylo,
        yhi <= outer_yhi,
        forall|x: int, y: int|
            outer_xlo <= x < outer_xhi && outer_ylo <= y < outer_yhi ==> 0 <= #[trigger] f(x, y),
    ensures
        sum2(xlo, xhi, ylo, yhi, f) <= sum2(outer_xlo, outer_xhi, outer_ylo, outer_yhi, f),
{
    let inner = columns(f, ylo, yhi);
    let outer = columns(f, outer_ylo, outer_yhi);
    assert forall|x: int| outer_xlo <= x < outer_xhi implies inner(x) <= #[trigger] outer(x) && 0
        <= outer(x) by {
        assert forall|y: int| outer_ylo <= y < outer_yhi implies 0 <= #[trigger] along(f, x)(y) by {
            assert(0 <= f(x, y));
        }
        lemma_sum_widen(ylo, yhi, outer_ylo, outer_yhi, along(f, x));
        lemma_sum_nonnegative(outer_ylo, outer_yhi, along(f, x));
    }
    assert forall|x: int| xlo <= x < xhi implies #[trigger] inner(x) <= outer(x) by {
        assert(inner(x) <= outer(x) && 0 <= outer(x));
    }
    lemma_sum_monotone(xlo, xhi, inner, outer);
    lemma_sum_widen(xlo, xhi, outer_xlo, outer_xhi, outer);
}

/// A common factor can be taken out of a sum over a rectangle.
pub proof fn lemma_sum2_scaled(
    xlo: int,
    xhi: int,
    ylo: int,
    yhi: int,
    f: spec_fn(int, int) -> int,
    g: spec_fn(int, int) -> int,
    k: int,
)
    requires
        forall|x: int, y: int|
            xlo <= x < xhi && ylo <= y < yhi ==> #[trigger] g(x, y) == k * f(x, y),
    ensures
        sum2(xlo, xhi, ylo, yhi, g) == k * sum2(xlo, xhi, ylo, yhi, f),
{
    let cf = columns(f, ylo, yhi);
    let cg = columns(g, ylo, yhi);
    assert forall|x: int| xlo <= x < xhi implies #[trigger] cg(x) == k * cf(x) by {
        assert forall|y: int| ylo <= y < yhi implies #[trigger] along(g, x)(y) == k * along(f, x)(
            y,
        ) by {
            assert(g(x, y) == k * f(x, y));
        }
        lemma_sum_scaled(ylo, yhi, along(f, x), along(g, x), k);
    }
    lemma_sum_scaled(xlo, xhi, cf, cg, k);
}

/// Moving the rectangle by `(dx, dy)` and the function back by as much keeps
/// the sum.
pub proof fn lemma_sum2_shifted(
    xlo: int,
    xhi: int,
    ylo: int,
    yhi: int,
    f: spec_fn(int, int) -> int,
    g: spec_fn(int, int) -> int,
    dx: int,
    dy: int,
)
    requires
        forall|x: int, y: int|
            xlo <= x < xhi && ylo <= y < yhi ==> #[trigger] f(x, y) == g(x + dx, y + dy),
    ensures
        sum2(xlo, xhi, ylo, yhi, f) == sum2(xlo + dx, xhi + dx, ylo + dy, yhi + dy, g),
{
    let cf = columns(f, ylo, yhi);
    let cg = columns(g, ylo + dy, yhi + dy);
    assert forall|x: int| xlo <= x < xhi implies #[trigger] cf(x) == cg(x + dx) by {
        assert forall|y: int| ylo <= y < yhi implies #[trigger] along(f, x)(y) == along(g, x + dx)(
            y + dy,
        ) by {
            assert(f(x, y) == g(x + dx, y + dy));
        }
        lemma_sum_shifted(ylo, yhi, along(f, x), along(g, x + dx), dy);
    }
    lemma_sum_shifted(xlo, xhi, cf, cg, dx);
}

/// Turning the interval about and the function with it keeps the sum: where
/// `f(i)` is `g(s - i)`, the sum of `f` over an interval is the sum of `g`
/// over the interval's mirror image.
pub proof fn lemma_sum_reflected(
    lo: int,
    hi: int,
    f: spec_fn(int) -> int,
    g: spec_fn(int) -> int,
    s: int,
)
    requires
        forall|i: int| lo <= i < hi ==> #[trigger] f(i) == g(s - i),
    ensures
        sum(lo, hi, f) == sum(s - hi + 1, s - lo + 1, g),
    decreases hi - lo,
{
    if hi > lo {
        lemma_sum_reflected(lo, hi - 1, f, g, s);
        lemma_sum_first(s - hi + 1, s - lo + 1, g);
        assert(f(hi - 1) == g(s - (hi - 1)));
    }
}

/// Turning the rectangle about along X, and the function with it, keeps the
/// sum.
pub proof fn lemma_sum2_reflected_x(
    xlo: int,
    xhi: int,
    ylo: int,
    yhi: int,
    f: spec_fn(int, int) -> int,
    g: spec_fn(int, int) -> int,
    s: int,
)
    requires
        forall|x: int, y: int|
            xlo <= x < xhi && ylo <= y < yhi ==> #[trigger] f(x, y) == g(s - x, y),
    ensures
        sum2(xlo, xhi, ylo, yhi, f) == sum2(s - xhi + 1, s - xlo + 1, ylo, yhi, g),
{
    let cf = columns(f, ylo, yhi);
    let cg = columns(g, ylo, yhi);
    assert forall|x: int| xlo <= x < xhi implies #[trigger] cf(x) == cg(s - x) by {
        assert forall|y: int| ylo <= y < yhi implies #[trigger] along(f, x)(y) == along(g, s - x)(
            y,
        ) by {
            assert(f(x, y) == g(s - x, y));
        }
        lemma_sum_congruent(ylo, yhi, along(f, x), along(g, s - x));
    }
    lemma_sum_reflected(xlo, xhi, cf, cg, s);
}

/// Turning the rectangle about along Y, and the function with it, keeps the
/// sum.
pub proof fn lemma_sum2_reflected_y(
    xlo: int,
    xhi: int,
    ylo: int,
    yhi: int,
    f: spec_fn(int, int) -> int,
    g: spec_fn(int, int) -> int,
    s: int,
)
    requires
        forall|x: int, y: int|
            xlo <= x < xhi && ylo <= y < yhi ==> #[trigger] f(x, y) == g(x, s - y),
    ensures
        sum2(xlo, xhi, ylo, yhi, f) == sum2(xlo, xhi, s - yhi + 1, s - ylo + 1, g),
{
    let cf = columns(f, ylo, yhi);
    let cg = columns(g, s - yhi + 1, s - ylo + 1);
    assert forall|x: int| xlo <= x < xhi implies #[trigger] cf(x) == cg(x) by {
        assert forall|y: int| ylo <= y < yhi implies #[trigger] along(f, x)(y) == along(g, x)(
            s - y,
        ) by {
            assert(f(x, y) == g(x, s - y));
        }
        lemma_sum_reflected(ylo, yhi, along(f, x), along(g, x), s);
    }
    lemma_sum_congruent(xlo, xhi, cf, cg);
}

} // verus!
