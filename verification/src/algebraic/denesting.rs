//! Radical denesting: √(a + b√c) = √x + √y, and square-factor extraction.
use vstd::prelude::*;
use crate::arith::{self, Q};

verus! {

/// `k` is the integer square root of `n`.
pub open spec fn is_isqrt(k: int, n: int) -> bool {
    0 <= k && k * k <= n < (k + 1) * (k + 1)
}

/// `n` is the square of an integer.
pub open spec fn is_square(n: int) -> bool {
    exists|k: int| 0 <= k && #[trigger] (k * k) == n
}

/// Rust's `/ 2` on integers: rounds toward zero.
pub open spec fn half_trunc(v: int) -> int {
    if v >= 0 {
        v / 2
    } else {
        -((-v) / 2)
    }
}

/// Outcome of denesting √(a + b√c) given the integer square root `s` of `a² - b²c`.
pub open spec fn denest_result(a: int, b: int, c: int, s: int) -> Option<(i64, i64)> {
    let b2c = b * b * c;
    let disc = a * a - b2c;
    let x = half_trunc(a + s);
    let y = half_trunc(a - s);
    if b2c % 4 != 0 || disc < 0 || s * s != disc {
        None
    } else if x + y != a || 4 * x * y != b2c || x < 0 || y < 0 {
        None
    } else {
        Some((x as i64, y as i64))
    }
}

/// `denest_sqrt(a, b, c)` computes without overflow.
pub open spec fn denest_ok(a: int, b: int, c: int) -> bool {
    arith::in_i64(b * b) && arith::in_i64(b * b * c) && arith::in_i64(a * a) && arith::in_i64(a * a - b * b * c)
}

proof fn lemma_isqrt_unique(k1: int, k2: int, n: int)
    requires
        is_isqrt(k1, n),
        is_isqrt(k2, n),
    ensures
        k1 == k2,
{
    if k1 < k2 {
        assert((k1 + 1) * (k1 + 1) <= k2 * k2) by (nonlinear_arith)
            requires
                0 <= k1 + 1 <= k2,
        ;
    } else if k2 < k1 {
        assert((k2 + 1) * (k2 + 1) <= k1 * k1) by (nonlinear_arith)
            requires
                0 <= k2 + 1 <= k1,
        ;
    }
}

proof fn lemma_square_iff_isqrt(k: int, n: int)
    requires
        is_isqrt(k, n),
    ensures
        is_square(n) <==> k * k == n,
{
    if is_square(n) {
        let j = choose|j: int| 0 <= j && #[trigger] (j * j) == n;
        assert(j * j <= n < (j + 1) * (j + 1)) by (nonlinear_arith)
            requires
                j * j == n,
                j >= 0,
        ;
        lemma_isqrt_unique(j, k, n);
    }
    if k * k == n {
        assert(is_square(n));
    }
}

/// Integer square root of a nonnegative i64.
pub fn isqrt(n: i64) -> (r: i64)
    requires
        n >= 0,
    ensures
        is_isqrt(r as int, n as int),
        r <= 3037000499,
{
    let mut lo: i64 = 0;
    let mut hi: i64 = 3037000500;
    assert(hi * hi > i64::MAX) by (nonlinear_arith)
        requires
            hi == 3037000500,
    ;
    while hi - lo > 1
        invariant
            0 <= lo < hi <= 3037000500,
            lo * lo <= n,
            n < hi * hi,
        decreases hi - lo,
    {
        let mid = lo + (hi - lo) / 2;
        assert(mid * mid <= 3037000499 * 3037000499) by (nonlinear_arith)
            requires
                0 <= mid <= 3037000499,
        ;
        if mid * mid <= n {
            lo = mid;
        } else {
            hi = mid;
        }
    }
    lo
}

/// Rust's `v / 2` on an i64.
fn half(v: i64) -> (r: i64)
    ensures
        r as int == half_trunc(v as int),
{
    if v >= 0 {
        v / 2
    } else {
        -((-(v as i128)) / 2) as i64
    }
}

/// Tries to write √(a + b√c) as √x + √y with `x >= y >= 0`, from
/// `x + y == a` and `4xy == b²c`, when `a² - b²c` is a perfect square.
pub fn denest_sqrt(a: i64, b: i64, c: i64) -> (r: Option<(i64, i64)>)
    requires
        denest_ok(a as int, b as int, c as int),
    ensures
        forall|s: int|
            #[trigger] is_isqrt(s, a * a - b * b * c) ==> r == denest_result(a as int, b as int, c as int, s),
        (a * a - b * b * c < 0) ==> r is None,
{
    let b2c = b * b * c;
    if b2c % 4 != 0 {
        return None;
    }
    let discriminant = a * a - b2c;
    if discriminant < 0 {
        return None;
    }
    let sqrt_disc = isqrt(discriminant);
    proof {
        assert forall|s: int| #[trigger] is_isqrt(s, a * a - b * b * c) implies s == sqrt_disc by {
            lemma_isqrt_unique(s, sqrt_disc as int, discriminant as int);
        }
        assert((a as int) * (a as int) <= i64::MAX);
        assert(-3037000500 < a < 3037000500) by (nonlinear_arith)
            requires
                (a as int) * (a as int) <= i64::MAX,
        ;
    }
    if sqrt_disc * sqrt_disc != discriminant {
        return None;
    }
    let x = half(a + sqrt_disc);
    let y = half(a - sqrt_disc);
    if x + y != a {
        return None;
    }
    assert(-4000000000 <= x <= 4000000000 && -4000000000 <= y <= 4000000000);
    assert(4 * (x as i128) * (y as i128) <= 4 * 4000000000 * 4000000000
        && 4 * (x as i128) * (y as i128) >= -4 * 4000000000 * 4000000000) by (nonlinear_arith)
        requires
            -4000000000 <= x <= 4000000000,
            -4000000000 <= y <= 4000000000,
    ;
    if 4 * (x as i128) * (y as i128) != b2c as i128 {
        return None;
    }
    if x >= 0 && y >= 0 {
        Some((x, y))
    } else {
        None
    }
}

/// Denests √(a + b√c) for rationals `a`, `b` over the common denominator
/// `a.den · b.den`; returns `(x, y, a.den · b.den)`.
pub fn denest_sqrt_rational(a: Q, b: Q, c: i64) -> (r: Option<(i64, i64, i64)>)
    requires
        arith::in_i64(a.1 * b.1),
        arith::in_i64(a.0 * b.1),
        arith::in_i64(b.0 * a.1),
        denest_ok(a.0 * b.1, b.0 * a.1, c as int),
    ensures
        forall|s: int|
            #[trigger] is_isqrt(s, (a.0 * b.1) * (a.0 * b.1) - (b.0 * a.1) * (b.0 * a.1) * c) ==> r == match denest_result(
                a.0 * b.1,
                b.0 * a.1,
                c as int,
                s,
            ) {
                Some(p) => Some((p.0, p.1, (a.1 * b.1) as i64)),
                None => None,
            },
{
    let common_den = a.1 * b.1;
    let new_a = a.0 * b.1;
    let new_b = b.0 * a.1;
    match denest_sqrt(new_a, new_b, c) {
        Some((x, y)) => Some((x, y, common_den)),
        None => None,
    }
}

/// Whether `n` is the square of an integer.
pub fn is_perfect_square(n: i64) -> (r: bool)
    ensures
        r == is_square(n as int),
{
    if n < 0 {
        proof {
            if is_square(n as int) {
                let k = choose|k: int| 0 <= k && #[trigger] (k * k) == n;
                assert(k * k >= 0) by (nonlinear_arith)
                    requires
                        k >= 0,
                ;
            }
        }
        return false;
    }
    let s = isqrt(n);
    proof {
        lemma_square_iff_isqrt(s as int, n as int);
    }
    s * s == n
}

/// Writes √n as `c·√r` with `r` square-free: every square `d²` dividing what is left is
/// pulled out, for `d = 2, 3, …` while `d² ≤ r`. For `n <= 0` returns `(0, n)`.
pub fn simplify_sqrt(n: i64) -> (r: (i64, i64))
    ensures
        n <= 0 ==> r == (0i64, n),
        n > 0 ==> {
            &&& r.0 > 0
            &&& r.1 > 0
            &&& r.0 * r.0 * r.1 == n
            &&& forall|q: int| q >= 2 ==> #[trigger] ((r.1 as int) % (q * q)) != 0
        },
{
    if n <= 0 {
        return (0, n);
    }
    let mut coeff: i64 = 1;
    let mut rad: i64 = n;
    assert(coeff * coeff * rad == n) by (nonlinear_arith)
        requires
            coeff == 1,
            rad == n,
    ;
    let mut d: i64 = 2;
    while (d as i128) * (d as i128) <= rad as i128
        invariant
            2 <= d <= 3_037_000_500,
            (d as int) * (d as int) <= 3_037_000_500 * 3_037_000_500,
            d <= n + 1,
            rad <= n,
            coeff > 0,
            rad > 0,
            coeff * coeff * rad == n,
            forall|e: int| 2 <= e < d ==> #[trigger] ((rad as int) % (e * e)) != 0,
        decreases n + 1 - d,
    {
        assert(d <= rad && d < 3_037_000_500) by (nonlinear_arith)
            requires
                (d as int) * (d as int) <= rad,
                rad <= i64::MAX,
                d >= 2,
        ;
        let d2 = d * d;
        assert(d2 >= 4) by (nonlinear_arith)
            requires
                d2 == d * d,
                d >= 2,
        ;
        let ghost rad_start = rad;
        while rad % d2 == 0
            invariant
                2 <= d,
                d2 == d * d,
                d2 >= 4,
                d <= rad_start,
                rad_start <= n,
                rad <= rad_start,
                coeff > 0,
                rad > 0,
                coeff * coeff * rad == n,
                forall|e: int| 2 <= e < d ==> #[trigger] ((rad as int) % (e * e)) != 0,
            decreases rad,
        {
            proof {
                lemma_square_step(coeff as int, rad as int, d as int, n as int);
                assert forall|e: int| 2 <= e < d implies #[trigger] (((rad / d2) as int) % (e * e)) != 0 by {
                    assert(e * e > 0) by (nonlinear_arith)
                        requires
                            e >= 2,
                    ;
                    lemma_factor_keeps_nondivisible(rad as int, d2 as int, e * e);
                }
            }
            assert(coeff * d > 0) by (nonlinear_arith)
                requires
                    coeff > 0,
                    d >= 2,
            ;
            coeff = coeff * d;
            rad = rad / d2;
        }
        assert(((d + 1) as int) * ((d + 1) as int) <= 3_037_000_500 * 3_037_000_500) by (nonlinear_arith)
            requires
                2 <= d < 3_037_000_500,
        ;
        d = d + 1;
    }
    proof {
        assert forall|q: int| q >= 2 implies #[trigger] ((rad as int) % (q * q)) != 0 by {
            if q >= d {
                assert(q * q > rad) by (nonlinear_arith)
                    requires
                        q >= d,
                        d * d > rad,
                        d >= 2,
                ;
                vstd::arithmetic::div_mod::lemma_small_mod(rad as nat, (q * q) as nat);
            }
        }
    }
    (coeff, rad)
}

proof fn lemma_square_step(c: int, r: int, p: int, n: int)
    requires
        c > 0,
        r > 0,
        p >= 2,
        c * c * r == n,
        r % (p * p) == 0,
        n <= i64::MAX,
    ensures
        (c * p) * (c * p) * (r / (p * p)) == n,
        r / (p * p) > 0,
        c * p <= i64::MAX,
        r / (p * p) < r,
{
    assert(p * p > 1) by (nonlinear_arith)
        requires
            p >= 2,
    ;
    let q = r / (p * p);
    vstd::arithmetic::div_mod::lemma_fundamental_div_mod(r, p * p);
    assert(r == (p * p) * q);
    assert((c * p) * (c * p) * q == c * c * r) by (nonlinear_arith)
        requires
            r == (p * p) * q,
    ;
    assert(q > 0 && q < r) by (nonlinear_arith)
        requires
            r == (p * p) * q,
            r > 0,
            p * p > 1,
    ;
    assert(c * p >= 1) by (nonlinear_arith)
        requires
            c >= 1,
            p >= 2,
    ;
    assert(c * p <= (c * p) * (c * p) * q) by (nonlinear_arith)
        requires
            c * p >= 1,
            q >= 1,
    ;
}

/// Dividing out a factor never creates divisibility by `m`.
proof fn lemma_factor_keeps_nondivisible(r: int, f: int, m: int)
    requires
        f > 0,
        m > 0,
        r % f == 0,
        r % m != 0,
    ensures
        (r / f) % m != 0,
{
    vstd::arithmetic::div_mod::lemma_fundamental_div_mod(r, f);
    let q = r / f;
    if q % m == 0 {
        vstd::arithmetic::div_mod::lemma_fundamental_div_mod(q, m);
        let k = q / m;
        assert(r == m * (f * k)) by (nonlinear_arith)
            requires
                r == f * q,
                q == m * k,
        ;
        vstd::arithmetic::div_mod::lemma_mod_multiples_basic(f * k, m);
        vstd::arithmetic::mul::lemma_mul_is_commutative(m, f * k);
    }
}

} // verus!
