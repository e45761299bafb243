//! Integer points and the truncating linear interpolation that the
//! rasterizer uses for every attribute it blends.

use vstd::prelude::*;
use vstd::arithmetic::div_mod::{
    lemma_div_is_ordered, lemma_div_multiples_vanish,
};

verus! {

/// A screen-space point: pixel column, pixel row and depth.
#[derive(Clone, Copy, Debug, PartialEq, Eq, Structural)]
pub struct Vec3i {
    pub x: i32,
    pub y: i32,
    pub z: i32,
}

/// A texel coordinate: column and row in a texture.
#[derive(Clone, Copy, Debug, PartialEq, Eq, Structural)]
pub struct Vec2i {
    pub x: i32,
    pub y: i32,
}

impl Vec3i {
    pub fn new(x: i32, y: i32, z: i32) -> (r: Vec3i)
        ensures
            r.x == x && r.y == y && r.z == z,
    {
        Vec3i { x, y, z }
    }
}

impl Vec2i {
    pub fn new(x: i32, y: i32) -> (r: Vec2i)
        ensures
            r.x == x && r.y == y,
    {
        Vec2i { x, y }
    }
}

/// Division rounding toward zero, as a float-to-integer cast truncates.
pub open spec fn trunc_div(n: int, d: int) -> int {
    if n >= 0 {
        n / d
    } else {
        -((-n) / d)
    }
}

/// `a + (k / n) * (b - a)`, evaluated exactly and truncated toward zero.
pub open spec fn lerp(a: int, b: int, k: int, n: int) -> int {
    trunc_div(a * (n - k) + b * k, n)
}

pub open spec fn min2(a: int, b: int) -> int {
    if a <= b {
        a
    } else {
        b
    }
}

pub open spec fn max2(a: int, b: int) -> int {
    if a <= b {
        b
    } else {
        a
    }
}

proof fn lemma_trunc_div_between(num: int, n: int, lo: int, hi: int)
    requires
        0 < n,
        lo * n <= num <= hi * n,
    ensures
        lo <= trunc_div(num, n) <= hi,
{
    lemma_div_multiples_vanish(hi, n);
    lemma_div_multiples_vanish(lo, n);
    lemma_div_multiples_vanish(-hi, n);
    lemma_div_multiples_vanish(-lo, n);
    assert(hi * n == n * hi) by (nonlinear_arith);
    assert(lo * n == n * lo) by (nonlinear_arith);
    assert(n * (-hi) == -(n * hi)) by (nonlinear_arith);
    assert(n * (-lo) == -(n * lo)) by (nonlinear_arith);
    if num >= 0 {
        lemma_div_is_ordered(num, n * hi, n);
        lemma_div_is_ordered(0, num, n);
        if lo > 0 {
            lemma_div_is_ordered(n * lo, num, n);
        }
    } else {
        let m = -num;
        lemma_div_is_ordered(m, n * (-lo), n);
        lemma_div_is_ordered(0, m, n);
        if hi < 0 {
            lemma_div_is_ordered(n * (-hi), m, n);
        }
    }
}

/// An interpolated value never leaves the range of its two end values.
pub proof fn lemma_lerp_between(a: int, b: int, k: int, n: int)
    requires
        0 <= k <= n,
        0 < n,
    ensures
        min2(a, b) <= lerp(a, b, k, n) <= max2(a, b),
{
    let lo = min2(a, b);
    let hi = max2(a, b);
    let num = a * (n - k) + b * k;
    assert(lo * n <= num <= hi * n) by (nonlinear_arith)
        requires
            lo <= a <= hi,
            lo <= b <= hi,
            0 <= k <= n,
            num == a * (n - k) + b * k,
    ;
    lemma_trunc_div_between(num, n, lo, hi);
}

/// Blending a value with itself gives the value back.
pub proof fn lemma_lerp_const(a: int, k: int, n: int)
    requires
        0 <= k <= n,
        0 < n,
    ensures
        lerp(a, a, k, n) == a,
{
    lemma_lerp_between(a, a, k, n);
}

/// At either end of the parameter range the blend is exactly an end value.
pub proof fn lemma_lerp_ends(a: int, b: int, n: int)
    requires
        0 < n,
    ensures
        lerp(a, b, 0, n) == a,
        lerp(a, b, n, n) == b,
{
    lemma_lerp_const(a, 0, n);
    lemma_lerp_const(b, n, n);
    assert(a * (n - 0) + b * 0 == a * (n - 0) + a * 0) by (nonlinear_arith);
    assert(a * (n - n) + b * n == b * (n - n) + b * n) by (nonlinear_arith);
}

/// Exact truncating blend of two `i32` values at parameter `k / n`.
pub(crate) fn lerp_i32(a: i32, b: i32, k: i64, n: i64) -> (r: i32)
    requires
        0 <= k <= n,
        0 < n <= 0x1_0000_0000,
    ensures
        r == lerp(a as int, b as int, k as int, n as int),
{
    let ghost (ai, bi, ki, ni) = (a as int, b as int, k as int, n as int);
    assert(-0x1_0000_0000_0000_0000 <= ai * (ni - ki) <= 0x1_0000_0000_0000_0000) by (nonlinear_arith)
        requires
            -0x8000_0000 <= ai < 0x8000_0000,
            0 <= ni - ki <= 0x1_0000_0000,
    ;
    assert(-0x1_0000_0000_0000_0000 <= bi * ki <= 0x1_0000_0000_0000_0000) by (nonlinear_arith)
        requires
            -0x8000_0000 <= bi < 0x8000_0000,
            0 <= ki <= 0x1_0000_0000,
    ;
    let num: i128 = (a as i128) * ((n - k) as i128) + (b as i128) * (k as i128);
    proof {
        lemma_lerp_between(ai, bi, ki, ni);
    }
    let q: i128 = if num >= 0 {
        ((num as u128) / (n as u128)) as i128
    } else {
        -((((-num) as u128) / (n as u128)) as i128)
    };
    q as i32
}

} // verus!
