//! Exact integer evaluation of `ceil(4 * log2(a / b))`.

use vstd::arithmetic::power2::{lemma2_to64, lemma_pow2_adds, lemma_pow2_strictly_increases, pow2};
use vstd::prelude::*;

verus! {

/// The radix of one half of a `u128`.
pub open spec fn half_radix() -> int {
    0x1_0000_0000_0000_0000
}

/// The radix of a whole `u128`.
pub open spec fn full_radix() -> int {
    half_radix() * half_radix()
}

pub open spec fn fourth(x: int) -> int {
    x * x * x * x
}

/// `a^4 <= 2^n * b^4`, that is `4 * log2(a / b) <= n`.
pub open spec fn quarter_log_bound(a: int, b: int, n: nat) -> bool {
    fourth(a) <= pow2(n) * fourth(b)
}

/// `n` is the least exponent with `a^4 <= 2^n * b^4`.
pub open spec fn is_quarter_log(a: int, b: int, n: nat) -> bool {
    quarter_log_bound(a, b, n) && (n > 0 ==> !quarter_log_bound(a, b, (n - 1) as nat))
}

/// The least exponent `n` with `a^4 <= 2^n * b^4`.
pub open spec fn quarter_log(a: int, b: int) -> nat {
    choose|n: nat| is_quarter_log(a, b, n)
}

proof fn lemma_bound_monotone(a: int, b: int, n1: nat, n2: nat)
    requires
        n1 <= n2,
        quarter_log_bound(a, b, n1),
    ensures
        quarter_log_bound(a, b, n2),
{
    if n1 < n2 {
        lemma_pow2_strictly_increases(n1, n2);
    }
    let f = fourth(b);
    assert(f >= 0) by (nonlinear_arith)
        requires f == b * b * b * b;
    assert(pow2(n1) * f <= pow2(n2) * f) by (nonlinear_arith)
        requires pow2(n1) <= pow2(n2), f >= 0;
}

/// At most one exponent is the least.
proof fn lemma_quarter_log_unique(a: int, b: int, n1: nat, n2: nat)
    requires
        is_quarter_log(a, b, n1),
        is_quarter_log(a, b, n2),
    ensures
        n1 == n2,
{
    if n1 < n2 {
        lemma_bound_monotone(a, b, n1, (n2 - 1) as nat);
    } else if n2 < n1 {
        lemma_bound_monotone(a, b, n2, (n1 - 1) as nat);
    }
}

/// The product of two `u128` values as a high and a low part.
fn wide_mul(x: u128, y: u128) -> (r: (u128, u128))
    ensures
        r.0 as int * full_radix() + r.1 as int == x as int * y as int,
{
    let b: u128 = 0x1_0000_0000_0000_0000;
    let x0 = x % b;
    let x1 = x / b;
    let y0 = y % b;
    let y1 = y / b;
    assert(x0 * y0 <= (b - 1) * (b - 1)) by (nonlinear_arith)
        requires x0 <= b - 1, y0 <= b - 1;
    assert(x0 * y1 <= (b - 1) * (b - 1)) by (nonlinear_arith)
        requires x0 <= b - 1, y1 <= b - 1;
    assert(x1 * y0 <= (b - 1) * (b - 1)) by (nonlinear_arith)
        requires x1 <= b - 1, y0 <= b - 1;
    assert(x1 * y1 <= (b - 1) * (b - 1)) by (nonlinear_arith)
        requires x1 <= b - 1, y1 <= b - 1;
    let p00 = x0 * y0;
    let p01 = x0 * y1;
    let p10 = x1 * y0;
    let p11 = x1 * y1;
    let mid = p00 / b + p01 % b + p10 % b;
    let lo = p00 % b + (mid % b) * b;
    let ghost hi_int: int = p11 as int + (p01 / b) as int + (p10 / b) as int + (mid / b) as int;
    let ghost bb: int = b as int;
    assert(x * y == p11 * (bb * bb) + (p01 + p10) * bb + p00) by (nonlinear_arith)
        requires
            x == x1 * bb + x0,
            y == y1 * bb + y0,
            p00 == x0 * y0,
            p01 == x0 * y1,
            p10 == x1 * y0,
            p11 == x1 * y1;
    let ghost q01: int = (p01 / b) as int;
    let ghost r01: int = (p01 % b) as int;
    let ghost q10: int = (p10 / b) as int;
    let ghost r10: int = (p10 % b) as int;
    let ghost q00: int = (p00 / b) as int;
    let ghost r00: int = (p00 % b) as int;
    let ghost qm: int = (mid / b) as int;
    let ghost rm: int = (mid % b) as int;
    assert((p01 + p10) * bb == (q01 + q10) * (bb * bb) + (r01 + r10) * bb) by (nonlinear_arith)
        requires p01 == q01 * bb + r01, p10 == q10 * bb + r10;
    assert(p00 + (r01 + r10) * bb == r00 + rm * bb + qm * (bb * bb)) by (nonlinear_arith)
        requires
            p00 == q00 * bb + r00,
            mid == q00 + r01 + r10,
            mid == qm * bb + rm;
    assert(hi_int * full_radix() + lo == x * y) by (nonlinear_arith)
        requires
            full_radix() == bb * bb,
            x * y == p11 * (bb * bb) + (p01 + p10) * bb + p00,
            (p01 + p10) * bb == (q01 + q10) * (bb * bb) + (r01 + r10) * bb,
            p00 + (r01 + r10) * bb == r00 + rm * bb + qm * (bb * bb),
            lo == r00 + rm * bb,
            hi_int == p11 + q01 + q10 + qm;
    assert(x * y < full_radix() * full_radix()) by (nonlinear_arith)
        requires x < full_radix(), y < full_radix(), 0 <= x, 0 <= y;
    assert(hi_int < full_radix()) by (nonlinear_arith)
        requires
            hi_int * full_radix() + lo == x * y,
            x * y < full_radix() * full_radix(),
            0 <= lo,
            full_radix() > 0;
    let hi = p11 + p01 / b + p10 / b + mid / b;
    (hi, lo)
}

/// Whether `x * y <= u * v`, compared on the full 256-bit products.
fn product_le(x: u128, y: u128, u: u128, v: u128) -> (r: bool)
    ensures
        r == (x as int * y as int <= u as int * v as int),
{
    let (h1, l1) = wide_mul(x, y);
    let (h2, l2) = wide_mul(u, v);
    let r = h1 < h2 || (h1 == h2 && l1 <= l2);
    assert(r == (h1 * full_radix() + l1 <= h2 * full_radix() + l2)) by (nonlinear_arith)
        requires
            r == (h1 < h2 || (h1 == h2 && l1 <= l2)),
            0 <= l1 < full_radix(),
            0 <= l2 < full_radix(),
            0 <= h1,
            0 <= h2;
    r
}

proof fn lemma_fourth_strict(x: int, y: int)
    requires
        0 <= x < y,
    ensures
        fourth(x) < fourth(y),
{
    assert(x * x <= x * y) by (nonlinear_arith)
        requires 0 <= x < y;
    assert(x * y < y * y) by (nonlinear_arith)
        requires 0 <= x < y;
    let xx = x * x;
    let yy = y * y;
    assert(xx * xx < yy * yy) by (nonlinear_arith)
        requires 0 <= xx < yy;
    assert(fourth(x) == xx * xx) by (nonlinear_arith)
        requires xx == x * x;
    assert(fourth(y) == yy * yy) by (nonlinear_arith)
        requires yy == y * y;
}

proof fn lemma_fourth_double(x: int)
    ensures
        fourth(2 * x) == 16 * fourth(x),
{
    assert(fourth(2 * x) == 16 * fourth(x)) by (nonlinear_arith);
}

/// Scaling `b` by `2^q` moves the exponent by `4 * q`.
proof fn lemma_rescale(b: int, q: nat, r: nat)
    ensures
        pow2(4 * q + r) * fourth(b) == pow2(r) * fourth(b * pow2(q)),
{
    let p = pow2(q) as int;
    lemma_pow2_adds(q, q);
    lemma_pow2_adds(2 * q, 2 * q);
    lemma_pow2_adds(4 * q, r);
    let p4 = pow2(4 * q) as int;
    assert(p4 == (p * p) * (p * p));
    assert(fourth(b * p) == fourth(b) * p4) by (nonlinear_arith)
        requires p4 == (p * p) * (p * p);
    assert(pow2(4 * q + r) * fourth(b) == pow2(r) * (fourth(b) * p4)) by (nonlinear_arith)
        requires pow2(4 * q + r) == p4 * pow2(r);
}

/// `a^4 <= k * m^4`, asked on 128-bit squares.
fn fourth_le_scaled(a: u64, m: u64, k1: u128, k2: u128) -> (r: bool)
    requires
        0 < m < a <= 0x8000_0000_0000_0000,
        1 <= k1 <= 4,
        1 <= k2 <= 2,
    ensures
        r == (fourth(a as int) <= (k1 * k2) as int * fourth(m as int)),
{
    let big: u128 = 0x8000_0000_0000_0000;
    assert((a as u128) * (a as u128) <= big * big) by (nonlinear_arith)
        requires a as u128 <= big;
    assert((m as u128) * (m as u128) < big * big) by (nonlinear_arith)
        requires (m as u128) < big;
    let aa: u128 = a as u128 * a as u128;
    let mm: u128 = m as u128 * m as u128;
    assert(k1 * mm <= 4 * mm && k2 * mm <= 4 * mm) by (nonlinear_arith)
        requires k1 <= 4, k2 <= 2, mm >= 0;
    let r = product_le(aa, aa, k1 * mm, k2 * mm);
    assert(fourth(a as int) == aa * aa) by (nonlinear_arith)
        requires aa == a * a;
    assert((k1 * mm) * (k2 * mm) == (k1 * k2) * fourth(m as int)) by (nonlinear_arith)
        requires mm == m * m;
    r
}

/// The least `n` with `a^4 <= 2^n * b^4`: `ceil(4 * log2(a / b))` for `b <= a`.
pub fn quarter_log2_ceil(a: u64, b: u64) -> (n: u32)
    requires
        0 < b <= a <= 0x8000_0000_0000_0000,
    ensures
        is_quarter_log(a as int, b as int, n as nat),
        n as nat == quarter_log(a as int, b as int),
{
    let mut m: u64 = b;
    let mut q: u32 = 0;
    proof {
        lemma2_to64();
    }
    while m <= a / 2
        invariant
            0 < b <= a <= 0x8000_0000_0000_0000,
            m as int == b * pow2(q as nat),
            0 < pow2(q as nat) <= m <= a,
            q <= 63,
        decreases a - m,
    {
        proof {
            lemma_pow2_adds(q as nat, 1);
            vstd::arithmetic::power2::lemma_pow2_unfold(1);
            lemma2_to64();
            if q >= 63 {
                lemma_pow2_strictly_increases(63, (q + 1) as nat);
            }
        }
        m = m * 2;
        q = q + 1;
        assert(m as int == b * pow2(q as nat)) by (nonlinear_arith)
            requires m == 2 * (b * pow2((q - 1) as nat)), pow2(q as nat) == pow2((q - 1) as nat) * 2;
    }
    let exact = m == a;
    let within2 = !exact && fourth_le_scaled(a, m, 2, 1);
    let within4 = !exact && fourth_le_scaled(a, m, 2, 2);
    let within8 = !exact && fourth_le_scaled(a, m, 4, 2);
    let r: u32 = if exact {
        0
    } else if within2 {
        1
    } else if within4 {
        2
    } else if within8 {
        3
    } else {
        4
    };
    proof {
        lemma2_to64();
        lemma_rescale(b as int, q as nat, r as nat);
        assert(pow2((4 * q + r) as nat) * fourth(b as int) == pow2(r as nat) * fourth(m as int));
        if r == 4 {
            lemma_fourth_strict(a as int, 2 * m);
            lemma_fourth_double(m as int);
        }
        assert(fourth(a as int) <= pow2(r as nat) * fourth(m as int));
        if r > 0 {
            lemma_rescale(b as int, q as nat, (r - 1) as nat);
            if r == 1 {
                lemma_fourth_strict(m as int, a as int);
            }
        } else if q > 0 {
            lemma_rescale(b as int, (q - 1) as nat, 3);
            lemma_pow2_adds((q - 1) as nat, 1);
            let half = b * pow2((q - 1) as nat);
            assert(m == 2 * half) by (nonlinear_arith)
                requires
                    m == b * pow2(q as nat),
                    pow2(q as nat) == pow2((q - 1) as nat) * 2,
                    half == b * pow2((q - 1) as nat);
            lemma_fourth_double(half);
            assert(fourth(half) > 0) by (nonlinear_arith)
                requires half > 0;
        }
    }
    let n: u32 = 4 * q + r;
    assert(n as nat == (4 * q + r) as nat);
    proof {
        assert(is_quarter_log(a as int, b as int, n as nat));
        lemma_quarter_log_unique(a as int, b as int, n as nat, quarter_log(a as int, b as int));
    }
    n
}

} // verus!
