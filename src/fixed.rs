//! Fixed-point vector arithmetic: truncating division, square roots rounded
//! up, rescaling to a length, and clamping a length.
use vstd::prelude::*;
use vstd::arithmetic::div_mod::{lemma_fundamental_div_mod, lemma_mod_bound};

verus! {

/// A vector of mathematical integers.
pub type V3 = (int, int, int);

pub open spec fn norm2(v: V3) -> int {
    v.0 * v.0 + v.1 * v.1 + v.2 * v.2
}

pub open spec fn sub3(a: V3, b: V3) -> V3 {
    (a.0 - b.0, a.1 - b.1, a.2 - b.2)
}

pub open spec fn add3(a: V3, b: V3) -> V3 {
    (a.0 + b.0, a.1 + b.1, a.2 + b.2)
}

/// Division rounding toward zero, for a positive divisor.
pub open spec fn tdiv(a: int, b: int) -> int {
    if a >= 0 {
        a / b
    } else {
        -((-a) / b)
    }
}

/// Each component divided by `d`, rounding toward zero.
pub open spec fn tdiv3(v: V3, d: int) -> V3 {
    (tdiv(v.0, d), tdiv(v.1, d), tdiv(v.2, d))
}

/// `r` is the smallest non-negative integer whose square reaches `t`.
pub open spec fn is_ceil_sqrt(r: int, t: int) -> bool {
    &&& r >= 0
    &&& r * r >= t
    &&& (r == 0 || (r - 1) * (r - 1) < t)
}

/// The square root of `t` rounded up.
pub open spec fn csqrt(t: int) -> int {
    choose|r: int| is_ceil_sqrt(r, t)
}

/// `v` rescaled to length `len`: each component times `len` divided by the
/// rounded-up length of `v`, toward zero; the zero vector stays zero.
pub open spec fn scale_spec(v: V3, len: int) -> V3 {
    if norm2(v) == 0 {
        (0, 0, 0)
    } else {
        let l = csqrt(norm2(v));
        (tdiv(v.0 * len, l), tdiv(v.1 * len, l), tdiv(v.2 * len, l))
    }
}

/// `v` unchanged when its length is at most `m`, else rescaled to `m`.
pub open spec fn clamp_spec(v: V3, m: int) -> V3 {
    if norm2(v) <= m * m {
        v
    } else {
        scale_spec(v, m)
    }
}

pub open spec fn bounded3(v: V3, b: int) -> bool {
    -b <= v.0 <= b && -b <= v.1 <= b && -b <= v.2 <= b
}

pub open spec fn view3(v: (i128, i128, i128)) -> V3 {
    (v.0 as int, v.1 as int, v.2 as int)
}

proof fn lemma_ceil_sqrt_unique(r1: int, r2: int, t: int)
    requires
        is_ceil_sqrt(r1, t),
        is_ceil_sqrt(r2, t),
    ensures
        r1 == r2,
{
    if r1 < r2 {
        assert((r2 - 1) * (r2 - 1) >= r1 * r1) by (nonlinear_arith)
            requires
                0 <= r1 <= r2 - 1,
        ;
    }
    if r2 < r1 {
        assert((r1 - 1) * (r1 - 1) >= r2 * r2) by (nonlinear_arith)
            requires
                0 <= r2 <= r1 - 1,
        ;
    }
}

/// The square root of `t` rounded up, for `t` up to `2^100`.
pub fn ceil_sqrt_wide(t: u128) -> (r: u128)
    requires
        t <= 0x10_0000_0000_0000_0000_0000_0000,
    ensures
        is_ceil_sqrt(r as int, t as int),
        r == csqrt(t as int),
        r <= 0x4_0000_0000_0000,
{
    let r: u128 = if t == 0 {
        0
    } else {
        let mut lo: u128 = 0;
        let mut hi: u128 = 0x4_0000_0000_0000;
        assert(hi * hi >= t) by (nonlinear_arith)
            requires
                hi == 0x4_0000_0000_0000,
                t <= 0x10_0000_0000_0000_0000_0000_0000,
        ;
        while hi - lo > 1
            invariant
                lo < hi <= 0x4_0000_0000_0000,
                lo * lo < t,
                hi * hi >= t,
            decreases hi - lo,
        {
            let mid = lo + (hi - lo) / 2;
            assert(mid * mid <= 0x4_0000_0000_0000 * 0x4_0000_0000_0000) by (nonlinear_arith)
                requires
                    mid <= 0x4_0000_0000_0000,
            ;
            if mid * mid >= t {
                hi = mid;
            } else {
                lo = mid;
            }
        }
        hi
    };
    proof {
        assert(is_ceil_sqrt(r as int, t as int));
        lemma_ceil_sqrt_unique(r as int, csqrt(t as int), t as int);
    }
    r
}

/// What division toward zero gives: a quotient no larger than the dividend,
/// whose multiple by the divisor stays within the dividend.
pub proof fn lemma_tdiv(a: int, b: int)
    requires
        b > 0,
    ensures
        a >= 0 ==> 0 <= tdiv(a, b) <= a,
        a <= 0 ==> a <= tdiv(a, b) <= 0,
        a >= 0 ==> 0 <= tdiv(a, b) * b <= a,
        a <= 0 ==> a <= tdiv(a, b) * b <= 0,
        tdiv(a, b) * tdiv(a, b) * (b * b) <= a * a,
        a >= 0 ==> a < tdiv(a, b) * b + b,
{
    let m = if a >= 0 { a } else { -a };
    lemma_fundamental_div_mod(m, b);
    lemma_mod_bound(m, b);
    let q = m / b;
    assert(0 <= q <= m && 0 <= q * b <= m && m < q * b + b) by (nonlinear_arith)
        requires
            m == b * q + m % b,
            0 <= m % b < b,
            m >= 0,
            b > 0,
    ;
    assert(q * q * (b * b) <= m * m) by (nonlinear_arith)
        requires
            0 <= q * b <= m,
    ;
    assert(m * m == a * a) by (nonlinear_arith)
        requires
            m == a || m == -a,
    ;
    if a < 0 {
        assert(tdiv(a, b) == -q);
        assert(tdiv(a, b) * tdiv(a, b) == q * q) by (nonlinear_arith)
            requires
                tdiv(a, b) == -q,
        ;
        assert(tdiv(a, b) * b == -(q * b)) by (nonlinear_arith)
            requires
                tdiv(a, b) == -q,
        ;
    }
}

/// `a / b` rounded toward zero.
pub fn div_trunc(a: i128, b: i128) -> (r: i128)
    requires
        b > 0,
        a > i128::MIN,
    ensures
        r == tdiv(a as int, b as int),
{
    proof {
        lemma_tdiv(a as int, b as int);
    }
    let neg = a < 0;
    let m: u128 = if neg {
        (-a) as u128
    } else {
        a as u128
    };
    let q: u128 = m / (b as u128);
    proof {
        lemma_tdiv(m as int, b as int);
        assert(q as int == tdiv(m as int, b as int));
    }
    if neg {
        -(q as i128)
    } else {
        q as i128
    }
}

/// Largest component magnitude that `scale_to` and `clamp_length` accept.
pub const COMPONENT_BOUND: i128 = 0x100_0000_0000;

proof fn lemma_norm_bound(rx: int, ry: int, rz: int, vx: int, vy: int, vz: int, len: int, l: int)
    requires
        rx * rx * (l * l) <= (vx * len) * (vx * len),
        ry * ry * (l * l) <= (vy * len) * (vy * len),
        rz * rz * (l * l) <= (vz * len) * (vz * len),
        vx * vx + vy * vy + vz * vz <= l * l,
        l >= 1,
        len >= 0,
    ensures
        rx * rx + ry * ry + rz * rz <= len * len,
        -len <= rx <= len,
        -len <= ry <= len,
        -len <= rz <= len,
{
    let s = rx * rx + ry * ry + rz * rz;
    let n = vx * vx + vy * vy + vz * vz;
    let ll = l * l;
    let qq = len * len;
    assert((vx * len) * (vx * len) == qq * (vx * vx)) by (nonlinear_arith)
        requires
            qq == len * len,
    ;
    assert((vy * len) * (vy * len) == qq * (vy * vy)) by (nonlinear_arith)
        requires
            qq == len * len,
    ;
    assert((vz * len) * (vz * len) == qq * (vz * vz)) by (nonlinear_arith)
        requires
            qq == len * len,
    ;
    assert(s * ll == rx * rx * ll + ry * ry * ll + rz * rz * ll) by (nonlinear_arith)
        requires
            s == rx * rx + ry * ry + rz * rz,
    ;
    assert(qq * n == qq * (vx * vx) + qq * (vy * vy) + qq * (vz * vz)) by (nonlinear_arith)
        requires
            n == vx * vx + vy * vy + vz * vz,
    ;
    assert(s * (l * l) <= (len * len) * n);
    assert((len * len) * n <= (len * len) * (l * l)) by (nonlinear_arith)
        requires
            n <= l * l,
    ;
    assert(s <= len * len) by (nonlinear_arith)
        requires
            s * (l * l) <= (len * len) * (l * l),
            l >= 1,
    ;
    assert(-len <= rx <= len && -len <= ry <= len && -len <= rz <= len) by (nonlinear_arith)
        requires
            rx * rx + ry * ry + rz * rz <= len * len,
            len >= 0,
    ;
}

/// `v` rescaled to length `len` (see `scale_spec`).
pub fn scale_to(v: (i128, i128, i128), len: u32) -> (r: (i128, i128, i128))
    requires
        bounded3(view3(v), COMPONENT_BOUND as int),
    ensures
        view3(r) == scale_spec(view3(v), len as int),
        bounded3(view3(r), len as int),
        norm2(view3(r)) <= len * len,
{
    proof {
        assert(v.0 * v.0 <= 0x1_0000_0000_0000_0000_0000 && v.1 * v.1 <= 0x1_0000_0000_0000_0000_0000
            && v.2 * v.2 <= 0x1_0000_0000_0000_0000_0000) by (nonlinear_arith)
            requires
                bounded3(view3(v), COMPONENT_BOUND as int),
        ;
        assert(v.0 * v.0 >= 0 && v.1 * v.1 >= 0 && v.2 * v.2 >= 0) by (nonlinear_arith);
        assert(-0x1_0000_0000_0000_0000_0000_0000 <= v.0 * len <= 0x1_0000_0000_0000_0000_0000_0000
            && -0x1_0000_0000_0000_0000_0000_0000 <= v.1 * len <= 0x1_0000_0000_0000_0000_0000_0000
            && -0x1_0000_0000_0000_0000_0000_0000 <= v.2 * len <= 0x1_0000_0000_0000_0000_0000_0000)
            by (nonlinear_arith)
            requires
                bounded3(view3(v), COMPONENT_BOUND as int),
                len <= 0xffff_ffff,
        ;
    }
    let n2 = v.0 * v.0 + v.1 * v.1 + v.2 * v.2;
    if n2 == 0 {
        return (0, 0, 0);
    }
    let l = ceil_sqrt_wide(n2 as u128) as i128;
    let len = len as i128;
    let r = (div_trunc(v.0 * len, l), div_trunc(v.1 * len, l), div_trunc(v.2 * len, l));
    proof {
        lemma_tdiv(v.0 * len, l as int);
        lemma_tdiv(v.1 * len, l as int);
        lemma_tdiv(v.2 * len, l as int);
        lemma_norm_bound(
            r.0 as int,
            r.1 as int,
            r.2 as int,
            v.0 as int,
            v.1 as int,
            v.2 as int,
            len as int,
            l as int,
        );
    }
    r
}

/// `v` with its length clamped to `m` (see `clamp_spec`): never longer than
/// `m`, and never longer than `v`.
pub fn clamp_length(v: (i128, i128, i128), m: u32) -> (r: (i128, i128, i128))
    requires
        bounded3(view3(v), COMPONENT_BOUND as int),
    ensures
        view3(r) == clamp_spec(view3(v), m as int),
        norm2(view3(r)) <= m * m,
        norm2(view3(r)) <= norm2(view3(v)),
        bounded3(view3(r), COMPONENT_BOUND as int),
{
    proof {
        assert(v.0 * v.0 <= 0x1_0000_0000_0000_0000_0000 && v.1 * v.1 <= 0x1_0000_0000_0000_0000_0000
            && v.2 * v.2 <= 0x1_0000_0000_0000_0000_0000) by (nonlinear_arith)
            requires
                bounded3(view3(v), COMPONENT_BOUND as int),
        ;
        assert(v.0 * v.0 >= 0 && v.1 * v.1 >= 0 && v.2 * v.2 >= 0) by (nonlinear_arith);
        assert(m * m <= 0xffff_ffff * 0xffff_ffff) by (nonlinear_arith)
            requires
                m <= 0xffff_ffff,
        ;
    }
    let n2 = v.0 * v.0 + v.1 * v.1 + v.2 * v.2;
    let mm = (m as i128) * (m as i128);
    if n2 <= mm {
        v
    } else {
        scale_to(v, m)
    }
}

/// Every non-negative integer has a square root rounded up.
pub proof fn lemma_ceil_sqrt_exists(t: int)
    requires
        t >= 0,
    ensures
        is_ceil_sqrt(csqrt(t), t),
    decreases t,
{
    if t == 0 {
        assert(is_ceil_sqrt(0, 0));
    } else {
        lemma_ceil_sqrt_exists(t - 1);
        let r = csqrt(t - 1);
        if r * r >= t {
            assert(is_ceil_sqrt(r, t));
        } else {
            assert((r + 1) * (r + 1) >= t && r * r < t) by (nonlinear_arith)
                requires
                    r * r >= t - 1,
                    r * r < t,
                    r >= 0,
            ;
            assert(is_ceil_sqrt(r + 1, t));
        }
    }
}

/// A rescaled vector is no longer than the length asked for.
pub proof fn lemma_scale_bound(v: V3, len: int)
    requires
        len >= 0,
    ensures
        norm2(scale_spec(v, len)) <= len * len,
        bounded3(scale_spec(v, len), len),
{
    assert(v.0 * v.0 >= 0 && v.1 * v.1 >= 0 && v.2 * v.2 >= 0) by (nonlinear_arith);
    assert(len * len >= 0) by (nonlinear_arith);
    if norm2(v) != 0 {
        lemma_ceil_sqrt_exists(norm2(v));
        let l = csqrt(norm2(v));
        assert(l >= 1) by (nonlinear_arith)
            requires
                l >= 0,
                l * l >= norm2(v),
                norm2(v) > 0,
        ;
        lemma_tdiv(v.0 * len, l);
        lemma_tdiv(v.1 * len, l);
        lemma_tdiv(v.2 * len, l);
        let r = scale_spec(v, len);
        lemma_norm_bound(r.0, r.1, r.2, v.0, v.1, v.2, len, l);
    }
}

/// A clamped vector is no longer than the bound, and no longer than before.
pub proof fn lemma_clamp_bound(v: V3, m: int)
    requires
        m >= 0,
    ensures
        norm2(clamp_spec(v, m)) <= m * m,
        norm2(clamp_spec(v, m)) <= norm2(v),
{
    lemma_scale_bound(v, m);
}

} // verus!
