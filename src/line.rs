//! The pixels that a line segment covers, and the laws they obey.

use vstd::prelude::*;
use vstd::arithmetic::div_mod::lemma_fundamental_div_mod;

verus! {

pub open spec fn abs(v: int) -> int {
    if v < 0 {
        -v
    } else {
        v
    }
}

/// A segment is steep when it spans more rows than columns; it is then
/// stepped along y instead of x.
pub open spec fn line_steep(x0: int, y0: int, x1: int, y1: int) -> bool {
    abs(x0 - x1) < abs(y0 - y1)
}

/// The segment in its stepping frame: `(a0, b0, a1, b1)` where `a` is the
/// major axis, `b` the minor one, and `a0 <= a1`.
pub open spec fn line_frame(x0: int, y0: int, x1: int, y1: int) -> (int, int, int, int) {
    let (a0, b0, a1, b1) = if line_steep(x0, y0, x1, y1) {
        (y0, x0, y1, x1)
    } else {
        (x0, y0, x1, y1)
    };
    if a0 > a1 {
        (a1, b1, a0, b0)
    } else {
        (a0, b0, a1, b1)
    }
}

/// Minor coordinate at step `k` of `n`: `b0 * (1 - t) + b1 * t` with
/// `t = k / n`, truncated (both ends are non-negative).
pub open spec fn line_minor(b0: int, b1: int, k: int, n: int) -> int {
    (b0 * (n - k) + b1 * k) / n
}

/// The pixels `(x, y)` that a segment plots, in drawing order: one for each
/// major-axis value from the lower end up to, not including, the upper end.
pub open spec fn line_pixels(x0: int, y0: int, x1: int, y1: int) -> Seq<(int, int)> {
    let (a0, b0, a1, b1) = line_frame(x0, y0, x1, y1);
    let n = a1 - a0;
    Seq::new(
        n as nat,
        |k: int|
            {
                let b = line_minor(b0, b1, k, n);
                if line_steep(x0, y0, x1, y1) {
                    (b, a0 + k)
                } else {
                    (a0 + k, b)
                }
            },
    )
}

/// Drawing a segment from either end plots the same pixels, in the same
/// order, hence the same set.
pub proof fn lemma_line_symmetric(x0: int, y0: int, x1: int, y1: int)
    ensures
        line_pixels(x0, y0, x1, y1) == line_pixels(x1, y1, x0, y0),
        line_pixels(x0, y0, x1, y1).to_set() == line_pixels(x1, y1, x0, y0).to_set(),
{
    let p = line_pixels(x0, y0, x1, y1);
    let q = line_pixels(x1, y1, x0, y0);
    assert(line_steep(x0, y0, x1, y1) == line_steep(x1, y1, x0, y0));
    assert(p =~= q);
}

proof fn lemma_div_step(num: int, d: int, n: int)
    requires
        0 < n,
        0 <= num,
        0 <= num + d,
        abs(d) <= n,
    ensures
        abs((num + d) / n - num / n) <= 1,
{
    lemma_fundamental_div_mod(num, n);
    lemma_fundamental_div_mod(num + d, n);
    let q = num / n;
    let r = num % n;
    let q2 = (num + d) / n;
    let r2 = (num + d) % n;
    assert(abs(q2 - q) <= 1) by (nonlinear_arith)
        requires
            num == n * q + r,
            num + d == n * q2 + r2,
            0 <= r < n,
            0 <= r2 < n,
            -n <= d <= n,
    ;
}

/// Consecutive pixels of a segment advance by exactly one along the major
/// axis, and by at most one along the minor axis: the segment has no gaps.
pub proof fn lemma_line_connected(x0: int, y0: int, x1: int, y1: int, k: int)
    requires
        0 <= x0 && 0 <= y0 && 0 <= x1 && 0 <= y1,
        0 <= k,
        k + 1 < line_pixels(x0, y0, x1, y1).len(),
    ensures
        ({
            let p = line_pixels(x0, y0, x1, y1)[k];
            let q = line_pixels(x0, y0, x1, y1)[k + 1];
            if line_steep(x0, y0, x1, y1) {
                q.1 == p.1 + 1 && abs(q.0 - p.0) <= 1
            } else {
                q.0 == p.0 + 1 && abs(q.1 - p.1) <= 1
            }
        }),
{
    let (a0, b0, a1, b1) = line_frame(x0, y0, x1, y1);
    let n = a1 - a0;
    let num = b0 * (n - k) + b1 * k;
    let d = b1 - b0;
    assert(abs(d) <= n);
    assert(b0 * (n - (k + 1)) + b1 * (k + 1) == num + d) by (nonlinear_arith)
        requires
            num == b0 * (n - k) + b1 * k,
            d == b1 - b0,
    ;
    assert(0 <= num) by (nonlinear_arith)
        requires
            0 <= b0 && 0 <= b1,
            0 <= k < n,
            num == b0 * (n - k) + b1 * k,
    ;
    assert(0 <= num + d) by (nonlinear_arith)
        requires
            0 <= b0 && 0 <= b1,
            0 <= k + 1 < n,
            num + d == b0 * (n - (k + 1)) + b1 * (k + 1),
    ;
    lemma_div_step(num, d, n);
}

} // verus!
