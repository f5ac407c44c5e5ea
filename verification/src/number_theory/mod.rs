//! Number theory: modular powers, Miller–Rabin, extended gcd, CRT and factoring.
use vstd::prelude::*;
use vstd::arithmetic::div_mod::{
    lemma_fundamental_div_mod, lemma_mod_bound, lemma_mul_mod_noop, lemma_mul_mod_noop_left,
    lemma_mul_mod_noop_right, lemma_small_mod,
};
use vstd::arithmetic::mul::{lemma_mul_is_associative, lemma_mul_is_commutative};
use crate::arith;

pub mod diophantine;
pub mod factorization;
pub mod modular;
pub mod partitions;

verus! {

/// `b^e` on integers.
pub open spec fn ipow(b: int, e: nat) -> int
    decreases e,
{
    if e == 0 {
        1
    } else {
        b * ipow(b, (e - 1) as nat)
    }
}

/// `ipow` is nonnegative on nonnegative bases.
pub proof fn lemma_ipow_nonneg(b: int, e: nat)
    requires
        b >= 0,
    ensures
        ipow(b, e) >= 0,
    decreases e,
{
    if e > 0 {
        lemma_ipow_nonneg(b, (e - 1) as nat);
        assert(b * ipow(b, (e - 1) as nat) >= 0) by (nonlinear_arith)
            requires
                b >= 0,
                ipow(b, (e - 1) as nat) >= 0,
        ;
    }
}

/// Splitting an exponent in halves: `b^(2k) = (b²)^k`, `b^(2k+1) = b·(b²)^k`.
pub proof fn lemma_ipow_halves(b: int, k: nat)
    ensures
        ipow(b, 2 * k) == ipow(b * b, k),
        ipow(b, 2 * k + 1) == b * ipow(b * b, k),
    decreases k,
{
    if k > 0 {
        lemma_ipow_halves(b, (k - 1) as nat);
        assert(ipow(b, 2 * k) == b * ipow(b, (2 * k - 1) as nat));
        assert(ipow(b, (2 * k - 1) as nat) == b * ipow(b, (2 * k - 2) as nat));
        assert((2 * k - 2) as nat == 2 * ((k - 1) as nat));
        lemma_mul_is_associative(b, b, ipow(b * b, (k - 1) as nat));
    }
}

/// Reducing the base modulo `m` does not change `b^e mod m`.
pub proof fn lemma_ipow_mod(b: int, e: nat, m: int)
    requires
        m > 0,
    ensures
        ipow(b % m, e) % m == ipow(b, e) % m,
    decreases e,
{
    if e > 0 {
        lemma_ipow_mod(b, (e - 1) as nat, m);
        let x = ipow(b % m, (e - 1) as nat);
        let y = ipow(b, (e - 1) as nat);
        lemma_mul_mod_noop(b % m, x, m);
        lemma_mul_mod_noop(b, y, m);
        vstd::arithmetic::div_mod::lemma_mod_twice(b, m);
    }
}

/// One step of square-and-multiply keeps `result · base^e (mod m)`.
pub proof fn lemma_pow_step(result: int, base: int, e: nat, m: int)
    requires
        m > 0,
    ensures
        e % 2 == 1 ==> ((result * base) % m * ipow((base * base) % m, e / 2)) % m == (result * ipow(base, e)) % m,
        e % 2 == 0 ==> (result * ipow((base * base) % m, e / 2)) % m == (result * ipow(base, e)) % m,
{
    let k = e / 2;
    lemma_ipow_halves(base, k);
    lemma_ipow_mod(base * base, k, m);
    let y = ipow((base * base) % m, k);
    let z = ipow(base * base, k);
    assert(e == 2 * k + e % 2);
    if e % 2 == 1 {
        let x = result * base;
        lemma_mul_mod_noop_left(x, y, m);
        lemma_mul_mod_noop_right(x, y, m);
        lemma_mul_mod_noop_right(x, z, m);
        lemma_mul_is_associative(result, base, z);
    } else {
        lemma_mul_mod_noop_right(result, y, m);
        lemma_mul_mod_noop_right(result, z, m);
    }
}

/// `base^exp mod m` by square-and-multiply.
fn mod_pow(base0: u128, exp0: u128, m: u128) -> (r: u128)
    requires
        0 < m <= 0x1_0000_0000_0000_0000u128,
    ensures
        r == ipow(base0 as int, exp0 as nat) % (m as int),
{
    let mut result: u128 = 1 % m;
    let mut base: u128 = base0 % m;
    let mut exp: u128 = exp0;
    proof {
        lemma_ipow_mod(base0 as int, exp0 as nat, m as int);
        lemma_mul_mod_noop_left(1, ipow(base as int, exp as nat), m as int);
    }
    while exp > 0
        invariant
            0 < m <= 0x1_0000_0000_0000_0000u128,
            result < m,
            base < m,
            ((result as int) * ipow(base as int, exp as nat)) % (m as int) == ipow(base0 as int, exp0 as nat) % (m as int),
        decreases exp,
    {
        assert((exp & 1) == exp % 2) by (bit_vector);
        assert((exp >> 1) == exp / 2) by (bit_vector);
        proof {
            lemma_pow_step(result as int, base as int, exp as nat, m as int);
        }
        assert((result as int) * (base as int) < 0x1_0000_0000_0000_0000 * 0x1_0000_0000_0000_0000) by (nonlinear_arith)
            requires
                result < m,
                base < m,
                m <= 0x1_0000_0000_0000_0000u128,
        ;
        assert((base as int) * (base as int) < 0x1_0000_0000_0000_0000 * 0x1_0000_0000_0000_0000) by (nonlinear_arith)
            requires
                base < m,
                m <= 0x1_0000_0000_0000_0000u128,
        ;
        if (exp & 1) == 1 {
            result = (result * base) % m;
        }
        base = (base * base) % m;
        exp = exp >> 1;
    }
    proof {
        assert(ipow(base as int, 0) == 1);
        lemma_small_mod(result as nat, m as nat);
    }
    result
}

/// `base^exp mod m` for u64 inputs; 0 when `m == 0`.
pub fn mod_pow_u64(base: u64, exp: u64, m: u64) -> (r: u64)
    ensures
        r == (if m == 0 { 0 } else { ipow(base as int, exp as nat) % (m as int) }),
{
    if m == 0 {
        return 0;
    }
    let r = mod_pow(base as u128, exp as u128, m as u128);
    proof {
        lemma_mod_bound(ipow(base as int, exp as nat), m as int);
    }
    r as u64
}

/// Greatest common divisor of two u128 values.
pub fn gcd_u128(a: u128, b: u128) -> (r: u128)
    ensures
        r == arith::gcd(a as nat, b as nat),
{
    let mut a = a;
    let mut b = b;
    let ghost a0 = a;
    let ghost b0 = b;
    while b != 0
        invariant
            arith::gcd(a as nat, b as nat) == arith::gcd(a0 as nat, b0 as nat),
        decreases b,
    {
        let c = a % b;
        a = b;
        b = c;
    }
    a
}

/// Absolute value of an integer.
pub open spec fn iabs(x: int) -> int {
    if x < 0 {
        -x
    } else {
        x
    }
}

/// Bezout certificate: `a·x + b·y == g == gcd(a, b)` with coefficients bounded by the inputs.
pub open spec fn is_bezout(a: int, b: int, g: int, x: int, y: int) -> bool {
    &&& g == arith::gcd(a as nat, b as nat)
    &&& a * x + b * y == g
    &&& iabs(x) <= b + 1
    &&& iabs(y) <= a + 1
}

proof fn lemma_egcd_step(
    a: int,
    b: int,
    old_r: int,
    r: int,
    old_s: int,
    s: int,
    old_t: int,
    t: int,
    q: int,
)
    requires
        0 <= a,
        0 <= b,
        old_r >= 0,
        r > 0,
        q == old_r / r,
        a * old_s + b * old_t == old_r,
        a * s + b * t == r,
        old_s * s <= 0,
        old_t * t <= 0,
        iabs(s) * old_r + iabs(old_s) * r == b,
        iabs(t) * old_r + iabs(old_t) * r == a,
    ensures
        a * s + b * t == r,
        a * (old_s - q * s) + b * (old_t - q * t) == old_r - q * r,
        s * (old_s - q * s) <= 0,
        t * (old_t - q * t) <= 0,
        iabs(old_s - q * s) * r + iabs(s) * (old_r - q * r) == b,
        iabs(old_t - q * t) * r + iabs(t) * (old_r - q * r) == a,
        iabs(q * s) <= b,
        iabs(q * t) <= a,
        iabs(old_s - q * s) <= b,
        iabs(old_t - q * t) <= a,
        0 <= old_r - q * r < r,
{
    lemma_fundamental_div_mod(old_r, r);
    lemma_mod_bound(old_r, r);
    assert(q >= 0) by (nonlinear_arith)
        requires
            old_r >= 0,
            r > 0,
            old_r == r * q + old_r % r,
            old_r % r < r,
    ;
    let rr = old_r - q * r;
    assert(rr == old_r % r) by (nonlinear_arith)
        requires
            old_r == r * q + old_r % r,
            rr == old_r - q * r,
    ;
    assert(a * (old_s - q * s) + b * (old_t - q * t) == old_r - q * r) by (nonlinear_arith)
        requires
            a * old_s + b * old_t == old_r,
            a * s + b * t == r,
    ;
    lemma_egcd_coeff(old_s, s, q, old_r, r, b);
    lemma_egcd_coeff(old_t, t, q, old_r, r, a);
}

proof fn lemma_egcd_coeff(old_s: int, s: int, q: int, old_r: int, r: int, b: int)
    requires
        q >= 0,
        r > 0,
        old_r - q * r >= 0,
        old_s * s <= 0,
        iabs(s) * old_r + iabs(old_s) * r == b,
    ensures
        s * (old_s - q * s) <= 0,
        iabs(old_s - q * s) == iabs(old_s) + q * iabs(s),
        iabs(old_s - q * s) * r + iabs(s) * (old_r - q * r) == b,
        iabs(q * s) <= b,
        iabs(old_s - q * s) <= b,
{
    let ns = old_s - q * s;
    if s >= 0 {
        assert(old_s <= 0 || s == 0) by (nonlinear_arith)
            requires
                old_s * s <= 0,
                s >= 0,
        ;
        assert(q * s >= 0) by (nonlinear_arith)
            requires
                q >= 0,
                s >= 0,
        ;
        if s == 0 {
            assert(q * s == 0) by (nonlinear_arith)
                requires
                    s == 0,
            ;
        }
    } else {
        assert(old_s >= 0) by (nonlinear_arith)
            requires
                old_s * s <= 0,
                s < 0,
        ;
        assert(q * s <= 0) by (nonlinear_arith)
            requires
                q >= 0,
                s < 0,
        ;
    }
    assert(iabs(ns) == iabs(old_s) + q * iabs(s)) by (nonlinear_arith)
        requires
            ns == old_s - q * s,
            q >= 0,
            (s >= 0 && (old_s <= 0 || s == 0) && q * s >= 0) || (s < 0 && old_s >= 0 && q * s <= 0),
            iabs(ns) == (if ns < 0 { -ns } else { ns }),
            iabs(old_s) == (if old_s < 0 { -old_s } else { old_s }),
            iabs(s) == (if s < 0 { -s } else { s }),
    ;
    assert(s * ns <= 0) by (nonlinear_arith)
        requires
            ns == old_s - q * s,
            q >= 0,
            (s >= 0 && (old_s <= 0 || s == 0)) || (s < 0 && old_s >= 0),
    ;
    assert(iabs(ns) * r + iabs(s) * (old_r - q * r) == b) by (nonlinear_arith)
        requires
            iabs(ns) == iabs(old_s) + q * iabs(s),
            iabs(s) * old_r + iabs(old_s) * r == b,
    ;
    assert(iabs(ns) <= b && iabs(q * s) <= b) by (nonlinear_arith)
        requires
            iabs(ns) * r + iabs(s) * (old_r - q * r) == b,
            iabs(ns) == iabs(old_s) + q * iabs(s),
            iabs(q * s) == q * iabs(s),
            r >= 1,
            old_r - q * r >= 0,
            iabs(old_s) >= 0,
            iabs(s) >= 0,
            q >= 0,
    ;
}

proof fn lemma_iabs_mul(q: int, s: int)
    requires
        q >= 0,
    ensures
        iabs(q * s) == q * iabs(s),
{
    if s >= 0 {
        assert(q * s >= 0) by (nonlinear_arith)
            requires
                q >= 0,
                s >= 0,
        ;
    } else {
        assert(q * s <= 0 && -(q * s) == q * (-s)) by (nonlinear_arith)
            requires
                q >= 0,
                s < 0,
        ;
    }
}

/// Extended Euclid on nonnegative inputs: `(g, x, y)` with `a·x + b·y == g == gcd(a, b)`.
fn extended_gcd(a: i128, b: i128) -> (r: (i128, i128, i128))
    requires
        0 <= a <= 0x1_0000_0000_0000_0000i128,
        0 <= b <= 0x1_0000_0000_0000_0000i128,
    ensures
        is_bezout(a as int, b as int, r.0 as int, r.1 as int, r.2 as int),
{
    let mut old_r: i128 = a;
    let mut r: i128 = b;
    let mut old_s: i128 = 1;
    let mut s: i128 = 0;
    let mut old_t: i128 = 0;
    let mut t: i128 = 1;
    assert(iabs(s as int) * old_r + iabs(old_s as int) * r == b) by (nonlinear_arith)
        requires
            s == 0,
            old_s == 1,
            r == b,
    ;
    assert(iabs(t as int) * old_r + iabs(old_t as int) * r == a) by (nonlinear_arith)
        requires
            t == 1,
            old_t == 0,
            old_r == a,
    ;
    while r != 0
        invariant
            0 <= a <= 0x1_0000_0000_0000_0000i128,
            0 <= b <= 0x1_0000_0000_0000_0000i128,
            old_r >= 0,
            r >= 0,
            arith::gcd(old_r as nat, r as nat) == arith::gcd(a as nat, b as nat),
            a * old_s + b * old_t == old_r,
            a * s + b * t == r,
            old_s * s <= 0,
            old_t * t <= 0,
            iabs(s as int) * old_r + iabs(old_s as int) * r == b,
            iabs(t as int) * old_r + iabs(old_t as int) * r == a,
            iabs(s as int) <= b + 1,
            iabs(old_s as int) <= b + 1,
            iabs(t as int) <= a + 1,
            iabs(old_t as int) <= a + 1,
        decreases r,
    {
        let q = old_r / r;
        proof {
            lemma_egcd_step(a as int, b as int, old_r as int, r as int, old_s as int, s as int,
                old_t as int, t as int, q as int);
            lemma_iabs_mul(q as int, s as int);
            lemma_iabs_mul(q as int, t as int);
            lemma_fundamental_div_mod(old_r as int, r as int);
            assert(q * r <= old_r) by (nonlinear_arith)
                requires
                    old_r == r * q + old_r % r,
                    old_r % r >= 0,
            ;
        }
        let new_r = old_r - q * r;
        let new_s = old_s - q * s;
        let new_t = old_t - q * t;
        proof {
            assert(new_r as int == old_r % r) by (nonlinear_arith)
                requires
                    old_r == r * q + old_r % r,
                    new_r == old_r - q * r,
            ;
        }
        old_r = r;
        r = new_r;
        old_s = s;
        s = new_s;
        old_t = t;
        t = new_t;
    }
    (if old_r < 0 { -old_r } else { old_r }, old_s, old_t)
}

/// Modular inverse of `a` modulo `m`, or `None` when `gcd(a, m) != 1` or `m == 0`.
pub fn mod_inverse(a: u64, m: u64) -> (r: Option<u64>)
    ensures
        r is Some <==> (m > 0 && arith::gcd((a % m) as nat, m as nat) == 1),
        r is Some ==> r->0 < m && ((a as int) * (r->0 as int)) % (m as int) == 1int % (m as int),
{
    if m == 0 {
        return None;
    }
    let a_i = (a % m) as i128;
    let m_i = m as i128;
    let (g, x, y) = extended_gcd(a_i, m_i);
    if g != 1 {
        return None;
    }
    let xm = x % m_i;
    assert(xm as int == trunc_rem(x as int, m_i as int));
    let inv = (xm + m_i) % m_i;
    proof {
        lemma_inverse_from_bezout(a as int, m as int, x as int, y as int);
    }
    Some(inv as u64)
}


/// `v mod m` in `[0, m)`, from Rust's truncating remainder.
fn rem_euclid_pos(v: i128, m: i128) -> (r: i128)
    requires
        m > 0,
    ensures
        r == (v as int) % (m as int),
{
    let t = v % m;
    assert(t as int == trunc_rem(v as int, m as int));
    proof {
        if v < 0 {
            lemma_fundamental_div_mod(-(v as int), m as int);
            lemma_mod_bound(-(v as int), m as int);
            let k = (-(v as int)) / (m as int);
            let rr = (-(v as int)) % (m as int);
            if rr == 0 {
                assert(v == (m as int) * (-k) + 0) by (nonlinear_arith)
                    requires
                        -(v as int) == (m as int) * k + rr,
                        rr == 0,
                ;
                vstd::arithmetic::div_mod::lemma_fundamental_div_mod_converse(v as int, m as int, -k, 0);
            } else {
                assert(v == (m as int) * (-k - 1) + (m - rr)) by (nonlinear_arith)
                    requires
                        -(v as int) == (m as int) * k + rr,
                ;
                vstd::arithmetic::div_mod::lemma_fundamental_div_mod_converse(v as int, m as int, -k - 1, m - rr);
            }
        }
    }
    if t < 0 {
        t + m
    } else {
        t
    }
}

/// The CRT solution `a1 + k·m1` satisfies the second congruence.
proof fn lemma_crt_solution(a1: int, a2: int, m1: int, m2: int, g: int, x: int, y: int, k: int, j: int)
    requires
        m1 > 0,
        m2 > 0,
        g > 0,
        m1 % g == 0,
        m2 % g == 0,
        (a2 - a1) % g == 0,
        m1 * x + m2 * y == g,
        (a2 - a1) / g * x == (m2 / g) * j + k,
    ensures
        (a1 + k * m1) % m2 == a2 % m2,
        (a1 + k * m1) % m1 == a1 % m1,
{
    let mm1 = m1 / g;
    let mm2 = m2 / g;
    let d = (a2 - a1) / g;
    lemma_fundamental_div_mod(m1, g);
    lemma_fundamental_div_mod(m2, g);
    lemma_fundamental_div_mod(a2 - a1, g);
    assert(m1 == g * mm1 && m2 == g * mm2 && a2 - a1 == g * d);
    assert(g * (mm1 * x + mm2 * y) == g * 1) by (nonlinear_arith)
        requires
            m1 == g * mm1,
            m2 == g * mm2,
            m1 * x + m2 * y == g,
    ;
    assert(mm1 * x + mm2 * y == 1) by (nonlinear_arith)
        requires
            g * (mm1 * x + mm2 * y) == g * 1,
            g > 0,
    ;
    let dx = d * x;
    assert(k == dx - mm2 * j);
    assert(k * m1 == dx * m1 - (mm2 * j) * m1) by (nonlinear_arith)
        requires
            k == dx - mm2 * j,
    ;
    assert(dx * m1 == g * d * (mm1 * x)) by (nonlinear_arith)
        requires
            dx == d * x,
            m1 == g * mm1,
    ;
    assert(mm1 * x == 1 - mm2 * y);
    assert(g * d * (1 - mm2 * y) == g * d - (g * mm2) * (d * y)) by (nonlinear_arith);
    assert((mm2 * j) * m1 == (g * mm2) * (j * mm1)) by (nonlinear_arith)
        requires
            m1 == g * mm1,
    ;
    assert(a1 + k * m1 == a2 - m2 * (d * y) - m2 * (j * mm1));
    assert(m2 * (d * y) + m2 * (j * mm1) == m2 * (d * y + j * mm1)) by (nonlinear_arith);
    vstd::arithmetic::mul::lemma_mul_unary_negation(m2, d * y + j * mm1);
    lemma_mul_is_commutative(m2, -(d * y + j * mm1));
    assert(a1 + k * m1 == m2 * (-(d * y + j * mm1)) + a2);
    vstd::arithmetic::div_mod::lemma_mod_multiples_vanish(-(d * y + j * mm1), a2, m2);
    vstd::arithmetic::div_mod::lemma_mod_multiples_vanish(k, a1, m1);
    lemma_mul_is_commutative(k, m1);
}

/// Chinese remaindering of `x ≡ a1 (mod m1)` and `x ≡ a2 (mod m2)`: returns
/// `(x, lcm(m1, m2))` with `x < lcm`, or `None` when the system is inconsistent
/// or a modulus is zero.
pub fn crt_pair(a1: u128, m1: u128, a2: u128, m2: u128) -> (r: Option<(u128, u128)>)
    requires
        a1 < 0x8000_0000_0000_0000u128,
        a2 < 0x8000_0000_0000_0000u128,
        m1 < 0x8000_0000_0000_0000u128,
        m2 < 0x8000_0000_0000_0000u128,
    ensures
        r is Some <==> (m1 > 0 && m2 > 0 && (a2 - a1) % (arith::gcd(m1 as nat, m2 as nat) as int) == 0),
        match r {
            Some(p) => {
                &&& p.1 == (m1 as int) * (m2 as int) / (arith::gcd(m1 as nat, m2 as nat) as int)
                &&& p.0 < p.1
                &&& p.0 % m1 == a1 % m1
                &&& p.0 % m2 == a2 % m2
            },
            None => true,
        },
{
    if m1 == 0 || m2 == 0 {
        return None;
    }
    let a1i = a1 as i128;
    let m1i = m1 as i128;
    let a2i = a2 as i128;
    let m2i = m2 as i128;
    let (g, x, y) = extended_gcd(m1i, m2i);
    proof {
        arith::lemma_gcd_divides(m1 as nat, m2 as nat);
        arith::lemma_gcd_divides(m1 as nat, m2 as nat);
    }
    let diff = a2i - a1i;
    let dm = diff % g;
    assert(dm as int == trunc_rem(diff as int, g as int));
    proof {
        lemma_trunc_rem_zero(diff as int, g as int);
    }
    if dm != 0 {
        return None;
    }
    let m2_red = m2i / g;
    let dg = diff / g;
    proof {
        lemma_exact_trunc_div(diff as int, g as int);
        lemma_fundamental_div_mod(m2 as int, g as int);
        assert(g <= m2);
        assert(m2_red >= 1) by (nonlinear_arith)
            requires
                m2 == g * m2_red,
                m2 > 0,
                g > 0,
        ;
        lemma_fundamental_div_mod(diff as int, g as int);
        assert(-0x8000_0000_0000_0000 <= dg <= 0x8000_0000_0000_0000) by (nonlinear_arith)
            requires
                diff == g * dg,
                g >= 1,
                -0x8000_0000_0000_0000 <= diff <= 0x8000_0000_0000_0000,
        ;
        assert(-0x8000_0000_0000_0001 <= x <= 0x8000_0000_0000_0001);
        assert(-0x8000_0000_0000_0000 * 0x8000_0000_0000_0001 <= dg * x <= 0x8000_0000_0000_0000 * 0x8000_0000_0000_0001)
            by (nonlinear_arith)
            requires
                -0x8000_0000_0000_0000 <= dg <= 0x8000_0000_0000_0000,
                -0x8000_0000_0000_0001 <= x <= 0x8000_0000_0000_0001,
        ;
    }
    let k = rem_euclid_pos(dg * x, m2_red);
    proof {
        lemma_mod_bound((dg * x) as int, m2_red as int);
        lemma_fundamental_div_mod((dg * x) as int, m2_red as int);
        assert(k * m1 <= 0x8000_0000_0000_0000 * 0x8000_0000_0000_0000) by (nonlinear_arith)
            requires
                0 <= k < m2_red,
                m2_red <= m2,
                m2 < 0x8000_0000_0000_0000,
                0 < m1 < 0x8000_0000_0000_0000,
        ;
        lemma_crt_solution(a1 as int, a2 as int, m1 as int, m2 as int, g as int, x as int, y as int,
            k as int, (dg * x) as int / (m2_red as int));
    }
    let x_sol = a1i + k * m1i;
    let m1g = m1i / g;
    proof {
        lemma_fundamental_div_mod(m1 as int, g as int);
        assert(0 < m1g <= m1) by (nonlinear_arith)
            requires
                m1 == g * m1g,
                m1 > 0,
                g > 0,
        ;
        assert(m1g * m2 <= 0x8000_0000_0000_0000 * 0x8000_0000_0000_0000 && m1g * m2 > 0) by (nonlinear_arith)
            requires
                0 < m1g <= m1,
                0 < m2,
                m1 < 0x8000_0000_0000_0000,
                m2 < 0x8000_0000_0000_0000,
        ;
    }
    let m_lcm = m1g * m2i;
    let x_norm = rem_euclid_pos(x_sol, m_lcm);
    proof {
        lemma_mod_bound(x_sol as int, m_lcm as int);
        assert(m_lcm == (m1 as int) * (m2 as int) / (g as int)) by {
            assert((m1 as int) * (m2 as int) == (g as int) * (m1g * m2)) by (nonlinear_arith)
                requires
                    m1 == g * m1g,
            ;
            vstd::arithmetic::div_mod::lemma_div_multiples_vanish(m1g * m2, g as int);
        }
        // x_norm ≡ x_sol modulo m1 and m2, both dividing the lcm
        assert(m_lcm == (m2 as int) * m1g);
        vstd::arithmetic::div_mod::lemma_mod_mod(x_sol as int, m2 as int, m1g as int);
        lemma_fundamental_div_mod(m2 as int, g as int);
        let m2g = (m2 as int) / (g as int);
        assert(m_lcm == (m1 as int) * m2g) by (nonlinear_arith)
            requires
                m1 == g * m1g,
                m2 == g * m2g,
                m_lcm == m1g * m2,
        ;
        assert(m2g > 0) by (nonlinear_arith)
            requires
                m2 == g * m2g,
                m2 > 0,
                g > 0,
        ;
        vstd::arithmetic::div_mod::lemma_mod_mod(x_sol as int, m1 as int, m2g);
        vstd::arithmetic::div_mod::lemma_mod_mod(a1 as int, m1 as int, 1);
    }
    Some((x_norm as u128, m_lcm as u128))
}

/// Rust's remainder is zero exactly when the divisor divides.
proof fn lemma_trunc_rem_zero(v: int, g: int)
    requires
        g > 0,
    ensures
        (trunc_rem(v, g) == 0) <==> (v % g == 0),
{
    if v < 0 {
        lemma_fundamental_div_mod(-v, g);
        lemma_fundamental_div_mod(v, g);
        lemma_mod_bound(-v, g);
        lemma_mod_bound(v, g);
        if (-v) % g == 0 {
            assert(v == g * (-((-v) / g)) + 0) by (nonlinear_arith)
                requires
                    -v == g * ((-v) / g) + (-v) % g,
                    (-v) % g == 0,
            ;
            vstd::arithmetic::div_mod::lemma_fundamental_div_mod_converse(v, g, -((-v) / g), 0);
        }
        if v % g == 0 {
            assert(-v == g * (-(v / g)) + 0) by (nonlinear_arith)
                requires
                    v == g * (v / g) + v % g,
                    v % g == 0,
            ;
            vstd::arithmetic::div_mod::lemma_fundamental_div_mod_converse(-v, g, -(v / g), 0);
        }
    }
}

/// For an exact division, Rust's quotient is the mathematical one.
proof fn lemma_exact_trunc_div(v: int, g: int)
    requires
        g > 0,
        v % g == 0,
    ensures
        trunc_div(v, g) == v / g,
{
    if v < 0 {
        lemma_fundamental_div_mod(v, g);
        let q = v / g;
        assert(-v == g * (-q) + 0) by (nonlinear_arith)
            requires
                v == g * q + v % g,
                v % g == 0,
        ;
        vstd::arithmetic::div_mod::lemma_fundamental_div_mod_converse(-v, g, -q, 0);
    }
}


/// Product of the moduli of a list of congruences.
pub open spec fn moduli_product(c: Seq<(u128, u128)>) -> int
    decreases c.len(),
{
    if c.len() == 0 {
        1
    } else {
        moduli_product(c.drop_last()) * c.last().1
    }
}

proof fn lemma_moduli_product_prefix(c: Seq<(u128, u128)>, i: int)
    requires
        0 <= i <= c.len(),
        forall|j: int| 0 <= j < c.len() ==> (#[trigger] c[j]).1 > 0,
    ensures
        1 <= moduli_product(c.subrange(0, i)) <= moduli_product(c),
    decreases c.len(),
{
    if c.len() > 0 {
        if i == c.len() {
            assert(c.subrange(0, i) =~= c);
            lemma_moduli_product_prefix(c.drop_last(), i - 1);
            assert(c.drop_last().subrange(0, i - 1) =~= c.drop_last());
        } else {
            lemma_moduli_product_prefix(c.drop_last(), i);
            assert(c.drop_last().subrange(0, i) =~= c.subrange(0, i));
        }
        let p = moduli_product(c.drop_last());
        assert(p >= 1 ==> p <= p * c.last().1) by (nonlinear_arith)
            requires
                c.last().1 > 0,
        ;
    } else {
        assert(c.subrange(0, i) =~= c);
    }
}

proof fn lemma_moduli_product_step(c: Seq<(u128, u128)>, i: int)
    requires
        0 <= i < c.len(),
    ensures
        moduli_product(c.subrange(0, i + 1)) == moduli_product(c.subrange(0, i)) * c[i].1,
{
    assert(c.subrange(0, i + 1).drop_last() =~= c.subrange(0, i));
}

/// Congruences carried over from a modulus to one of its divisors.
proof fn lemma_mod_of_multiple(x: int, y: int, big: int, m: int)
    requires
        m > 0,
        big > 0,
        big % m == 0,
        x % big == y % big,
    ensures
        x % m == y % m,
{
    lemma_fundamental_div_mod(big, m);
    let c = big / m;
    assert(big == m * c);
    assert(c > 0) by (nonlinear_arith)
        requires
            big == m * c,
            big > 0,
            m > 0,
    ;
    vstd::arithmetic::div_mod::lemma_mod_mod(x, m, c);
    vstd::arithmetic::div_mod::lemma_mod_mod(y, m, c);
}

/// `x` satisfies every congruence `x ≡ a (mod m)` of `c`.
pub open spec fn solves_all(c: Seq<(u128, u128)>, x: int) -> bool {
    forall|j: int| 0 <= j < c.len() ==> x % ((#[trigger] c[j]).1 as int) == (c[j].0 as int) % (c[j].1 as int)
}

/// Two numbers are congruent exactly when their difference is a multiple.
proof fn lemma_mod_eq_diff(x: int, y: int, n: int)
    requires
        n > 0,
    ensures
        (x % n == y % n) <==> ((x - y) % n == 0),
{
    lemma_fundamental_div_mod(x, n);
    lemma_fundamental_div_mod(y, n);
    lemma_mod_bound(x, n);
    lemma_mod_bound(y, n);
    let qx = x / n;
    let qy = y / n;
    assert(x - y == n * (qx - qy) + (x % n - y % n)) by (nonlinear_arith)
        requires
            x == n * qx + x % n,
            y == n * qy + y % n,
    ;
    vstd::arithmetic::div_mod::lemma_mod_multiples_vanish(qx - qy, x % n - y % n, n);
    if x % n == y % n {
        vstd::arithmetic::div_mod::lemma_mod_multiples_basic(qx - qy, n);
        vstd::arithmetic::mul::lemma_mul_is_commutative(qx - qy, n);
    } else {
        let e = x % n - y % n;
        if e > 0 {
            vstd::arithmetic::div_mod::lemma_small_mod(e as nat, n as nat);
        } else {
            vstd::arithmetic::div_mod::lemma_fundamental_div_mod_converse(e, n, -1, e + n);
        }
    }
}

/// A natural multiple of both `m1` and `m2` is a multiple of `m1 · (m2 / gcd)`.
proof fn lemma_lcm_divides_nat(m1: int, m2: int, d: int)
    requires
        m1 > 0,
        m2 > 0,
        d >= 0,
        d % m1 == 0,
        d % m2 == 0,
    ensures
        d % (m1 * (m2 / (arith::gcd(m1 as nat, m2 as nat) as int))) == 0,
{
    let g = arith::gcd(m1 as nat, m2 as nat) as int;
    arith::lemma_gcd_divides(m1 as nat, m2 as nat);
    arith::lemma_gcd_quotients_coprime(m1 as nat, m2 as nat);
    lemma_fundamental_div_mod(m1, g);
    lemma_fundamental_div_mod(m2, g);
    let a1 = m1 / g;
    let b1 = m2 / g;
    assert(a1 > 0 && b1 > 0) by (nonlinear_arith)
        requires
            m1 == g * a1,
            m2 == g * b1,
            m1 > 0,
            m2 > 0,
            g > 0,
    ;
    lemma_fundamental_div_mod(d, m1);
    lemma_fundamental_div_mod(d, m2);
    let k = d / m1;
    let j = d / m2;
    assert(k >= 0 && j >= 0) by (nonlinear_arith)
        requires
            d == m1 * k,
            d == m2 * j,
            d >= 0,
            m1 > 0,
            m2 > 0,
    ;
    assert(a1 * k == b1 * j) by (nonlinear_arith)
        requires
            d == m1 * k,
            d == m2 * j,
            m1 == g * a1,
            m2 == g * b1,
            g > 0,
    ;
    vstd::arithmetic::div_mod::lemma_mod_multiples_basic(j, b1);
    lemma_mul_is_commutative(j, b1);
    assert(((a1 as nat) * (k as nat)) % (b1 as nat) == 0);
    arith::lemma_coprime_divides(a1 as nat, b1 as nat, k as nat);
    lemma_fundamental_div_mod(k, b1);
    let t = k / b1;
    assert(d == (m1 * b1) * t) by (nonlinear_arith)
        requires
            d == m1 * k,
            k == b1 * t,
    ;
    assert(m1 * b1 > 0) by (nonlinear_arith)
        requires
            m1 > 0,
            b1 > 0,
    ;
    vstd::arithmetic::div_mod::lemma_mod_multiples_basic(t, m1 * b1);
    lemma_mul_is_commutative(t, m1 * b1);
}

/// A multiple of both `m1` and `m2` is a multiple of `m1 · (m2 / gcd)`.
proof fn lemma_lcm_divides(m1: int, m2: int, d: int)
    requires
        m1 > 0,
        m2 > 0,
        d % m1 == 0,
        d % m2 == 0,
    ensures
        d % (m1 * (m2 / (arith::gcd(m1 as nat, m2 as nat) as int))) == 0,
{
    if d >= 0 {
        lemma_lcm_divides_nat(m1, m2, d);
    } else {
        lemma_mod_eq_diff(0, d, m1);
        lemma_mod_eq_diff(0, d, m2);
        vstd::arithmetic::div_mod::lemma_small_mod(0, m1 as nat);
        vstd::arithmetic::div_mod::lemma_small_mod(0, m2 as nat);
        lemma_lcm_divides_nat(m1, m2, -d);
        let l = m1 * (m2 / (arith::gcd(m1 as nat, m2 as nat) as int));
        arith::lemma_gcd_divides(m1 as nat, m2 as nat);
        assert(m2 / (arith::gcd(m1 as nat, m2 as nat) as int) > 0) by {
            let g = arith::gcd(m1 as nat, m2 as nat) as int;
            lemma_fundamental_div_mod(m2, g);
            assert(m2 / g > 0) by (nonlinear_arith)
                requires
                    m2 == g * (m2 / g) + m2 % g,
                    m2 % g == 0,
                    m2 > 0,
                    g > 0,
            ;
        }
        assert(l > 0) by (nonlinear_arith)
            requires
                l == m1 * (m2 / (arith::gcd(m1 as nat, m2 as nat) as int)),
                m1 > 0,
                m2 / (arith::gcd(m1 as nat, m2 as nat) as int) > 0,
        ;
        lemma_mod_eq_diff(0, -d, l);
        lemma_mod_eq_diff(0, d, l);
        vstd::arithmetic::div_mod::lemma_small_mod(0, l as nat);
    }
}

/// Every solution of the first `i + 1` congruences is congruent to the combined
/// solution `p` of the first `i` (all congruent to `acc`) and congruence `i`.
proof fn lemma_crt_step_solutions(c: Seq<(u128, u128)>, i: int, acc: (u128, u128), p: (u128, u128))
    requires
        0 <= i < c.len(),
        acc.1 > 0,
        c[i].1 > 0,
        forall|x: int| #[trigger] solves_all(c.subrange(0, i), x) ==> x % (acc.1 as int) == (acc.0 as int) % (acc.1 as int),
        p.1 == (acc.1 as int) * (c[i].1 as int) / (arith::gcd(acc.1 as nat, c[i].1 as nat) as int),
        p.0 % acc.1 == acc.0 % acc.1,
        p.0 % c[i].1 == c[i].0 % c[i].1,
    ensures
        forall|x: int| #[trigger] solves_all(c.subrange(0, i + 1), x) ==> x % (p.1 as int) == (p.0 as int) % (p.1 as int),
{
    let m1 = acc.1 as int;
    let m2 = c[i].1 as int;
    let g = arith::gcd(acc.1 as nat, c[i].1 as nat) as int;
    arith::lemma_gcd_divides(acc.1 as nat, c[i].1 as nat);
    lemma_fundamental_div_mod(m2, g);
    assert(m1 * m2 == g * (m1 * (m2 / g))) by (nonlinear_arith)
        requires
            m2 == g * (m2 / g) + m2 % g,
            m2 % g == 0,
    ;
    vstd::arithmetic::div_mod::lemma_div_multiples_vanish(m1 * (m2 / g), g);
    assert(p.1 == m1 * (m2 / g));
    assert(p.1 > 0) by (nonlinear_arith)
        requires
            p.1 == m1 * (m2 / g),
            m2 == g * (m2 / g) + m2 % g,
            m2 % g == 0,
            m1 > 0,
            m2 > 0,
            g > 0,
    ;
    assert forall|x: int| #[trigger] solves_all(c.subrange(0, i + 1), x) implies x % (p.1 as int) == (p.0 as int) % (p.1 as int) by {
        assert forall|j: int| 0 <= j < i implies x % ((#[trigger] c.subrange(0, i)[j]).1 as int) == (c.subrange(0, i)[j].0 as int) % (c.subrange(0, i)[j].1 as int) by {
            assert(c.subrange(0, i)[j] == c.subrange(0, i + 1)[j]);
        }
        assert(solves_all(c.subrange(0, i), x));
        assert(c.subrange(0, i + 1)[i] == c[i]);
        lemma_mod_eq_diff(x, p.0 as int, m1);
        lemma_mod_eq_diff(x, p.0 as int, m2);
        lemma_lcm_divides(m1, m2, x - p.0);
        lemma_mod_eq_diff(x, p.0 as int, p.1 as int);
    }
}

/// When congruence `i` cannot be combined with the solutions of the first `i` (all
/// congruent to `acc`), the whole system has no solution.
proof fn lemma_crt_step_inconsistent(c: Seq<(u128, u128)>, i: int, acc: (u128, u128))
    requires
        0 <= i < c.len(),
        acc.1 > 0,
        c[i].1 > 0,
        forall|x: int| #[trigger] solves_all(c.subrange(0, i), x) ==> x % (acc.1 as int) == (acc.0 as int) % (acc.1 as int),
        (c[i].0 - acc.0) % (arith::gcd(acc.1 as nat, c[i].1 as nat) as int) != 0,
    ensures
        !exists|x: int| #[trigger] solves_all(c, x),
{
    let g = arith::gcd(acc.1 as nat, c[i].1 as nat) as int;
    arith::lemma_gcd_divides(acc.1 as nat, c[i].1 as nat);
    if exists|x: int| #[trigger] solves_all(c, x) {
        let x = choose|x: int| #[trigger] solves_all(c, x);
        assert forall|j: int| 0 <= j < i implies x % ((#[trigger] c.subrange(0, i)[j]).1 as int) == (c.subrange(0, i)[j].0 as int) % (c.subrange(0, i)[j].1 as int) by {
            assert(c.subrange(0, i)[j] == c[j]);
        }
        assert(solves_all(c.subrange(0, i), x));
        assert(x % (c[i].1 as int) == (c[i].0 as int) % (c[i].1 as int));
        lemma_mod_of_multiple(x, acc.0 as int, acc.1 as int, g);
        lemma_mod_of_multiple(x, c[i].0 as int, c[i].1 as int, g);
        lemma_mod_eq_diff(c[i].0 as int, acc.0 as int, g);
    }
}

/// Chinese remaindering of a list of congruences `x ≡ a_i (mod m_i)`; `(x, M)` with
/// `x < M`, `M` the lcm of the moduli. `None` for an empty list or an inconsistent system.
pub fn crt(congruences: &[(u128, u128)]) -> (r: Option<(u128, u128)>)
    requires
        forall|j: int|
            0 <= j < congruences@.len() ==> (#[trigger] congruences@[j]).0 < 0x4000_0000_0000_0000u128
                && congruences@[j].1 > 0,
        moduli_product(congruences@) < 0x4000_0000_0000_0000,
    ensures
        r is None <==> (congruences@.len() == 0 || !exists|x: int| #[trigger] solves_all(congruences@, x)),
        match r {
            Some(p) => {
                &&& congruences@.len() > 1 ==> p.0 < p.1
                &&& congruences@.len() == 1 ==> p == congruences@[0]
                &&& forall|j: int|
                    0 <= j < congruences@.len() ==> p.0 % (#[trigger] congruences@[j]).1 == congruences@[j].0
                        % congruences@[j].1
            },
            None => true,
        },
{
    if congruences.len() == 0 {
        return None;
    }
    let ghost c = congruences@;
    let mut acc = congruences[0];
    proof {
        lemma_moduli_product_prefix(c, 1);
        lemma_moduli_product_step(c, 0);
        assert(c.subrange(0, 0) =~= Seq::<(u128, u128)>::empty());
        vstd::arithmetic::div_mod::lemma_mod_bound(acc.0 as int, acc.1 as int);
        if acc.0 >= acc.1 {
        }
    }
    let mut i: usize = 1;
    proof {
        vstd::arithmetic::div_mod::lemma_mod_self_0(acc.1 as int);
        assert forall|x: int| #[trigger] solves_all(c.subrange(0, 1), x) implies x % (acc.1 as int) == (acc.0 as int) % (acc.1 as int) by {
            assert(c.subrange(0, 1)[0] == c[0]);
        }
    }
    while i < congruences.len()
        invariant
            c == congruences@,
            1 <= i <= c.len(),
            forall|j: int| 0 <= j < c.len() ==> (#[trigger] c[j]).0 < 0x4000_0000_0000_0000u128 && c[j].1 > 0,
            moduli_product(c) < 0x4000_0000_0000_0000,
            0 < acc.1 <= moduli_product(c.subrange(0, i as int)),
            acc.0 < 0x4000_0000_0000_0000u128,
            i > 1 ==> acc.0 < acc.1,
            i == 1 ==> acc == c[0],
            forall|j: int| 0 <= j < i ==> acc.1 % (#[trigger] c[j]).1 == 0,
            forall|j: int| 0 <= j < i ==> acc.0 % (#[trigger] c[j]).1 == c[j].0 % c[j].1,
            forall|x: int| #[trigger] solves_all(c.subrange(0, i as int), x) ==> x % (acc.1 as int) == (acc.0 as int) % (acc.1 as int),
        decreases c.len() - i,
    {
        let (a, m) = congruences[i];
        proof {
            lemma_moduli_product_prefix(c, i as int);
            lemma_moduli_product_prefix(c, i + 1);
            lemma_moduli_product_step(c, i as int);
            let pp = moduli_product(c.subrange(0, i as int));
            assert(m <= pp * m) by (nonlinear_arith)
                requires
                    pp >= 1,
                    m > 0,
            ;
        }
        match crt_pair(acc.0, acc.1, a, m) {
            Some(p) => {
                proof {
                    arith::lemma_gcd_divides(acc.1 as nat, m as nat);
                    let g = arith::gcd(acc.1 as nat, m as nat) as int;
                    lemma_fundamental_div_mod(acc.1 as int, g);
                    lemma_fundamental_div_mod(m as int, g);
                    let a1g = (acc.1 as int) / g;
                    let mg = (m as int) / g;
                    assert((acc.1 as int) * (m as int) == g * (a1g * m)) by (nonlinear_arith)
                        requires
                            acc.1 == g * a1g,
                    ;
                    vstd::arithmetic::div_mod::lemma_div_multiples_vanish(a1g * m, g);
                    assert(p.1 == a1g * m);
                    assert(p.1 == (acc.1 as int) * mg) by (nonlinear_arith)
                        requires
                            p.1 == a1g * m,
                            acc.1 == g * a1g,
                            m == g * mg,
                    ;
                    assert(mg >= 1 && a1g >= 1) by (nonlinear_arith)
                        requires
                            acc.1 == g * a1g,
                            m == g * mg,
                            acc.1 > 0,
                            m > 0,
                            g > 0,
                    ;
                    assert(p.1 <= (acc.1 as int) * (m as int)) by (nonlinear_arith)
                        requires
                            p.1 == (acc.1 as int) * mg,
                            mg <= m,
                            acc.1 > 0,
                    ;
                    assert((acc.1 as int) * (m as int) <= moduli_product(c.subrange(0, i as int)) * (m as int))
                        by (nonlinear_arith)
                        requires
                            acc.1 <= moduli_product(c.subrange(0, i as int)),
                            m > 0,
                    ;
                    vstd::arithmetic::div_mod::lemma_mod_multiples_basic(mg, acc.1 as int);
                    vstd::arithmetic::div_mod::lemma_mod_multiples_basic(a1g, m as int);
                    vstd::arithmetic::mul::lemma_mul_is_commutative(mg, acc.1 as int);
                    assert forall|j: int| 0 <= j <= i implies p.1 % (#[trigger] c[j]).1 == 0
                        && p.0 % c[j].1 == c[j].0 % c[j].1 by {
                        if j < i {
                            lemma_mod_of_multiple(p.0 as int, acc.0 as int, acc.1 as int, c[j].1 as int);
                            lemma_divides_trans(c[j].1 as int, acc.1 as int, p.1 as int);
                        }
                    }
                }
                proof {
                    lemma_crt_step_solutions(c, i as int, acc, p);
                }
                acc = p;
            },
            None => {
                proof {
                    lemma_crt_step_inconsistent(c, i as int, acc);
                }
                return None;
            },
        }
        i = i + 1;
    }
    proof {
        assert(c.subrange(0, c.len() as int) =~= c);
        assert(solves_all(c, acc.0 as int));
    }
    Some(acc)
}

/// Divisibility is transitive.
pub(crate) proof fn lemma_divides_trans(a: int, b: int, c: int)
    requires
        a > 0,
        b > 0,
        b % a == 0,
        c % b == 0,
    ensures
        c % a == 0,
{
    lemma_fundamental_div_mod(b, a);
    lemma_fundamental_div_mod(c, b);
    let k1 = b / a;
    let k2 = c / b;
    assert(c == a * (k1 * k2)) by (nonlinear_arith)
        requires
            b == a * k1,
            c == b * k2,
    ;
    vstd::arithmetic::div_mod::lemma_mod_multiples_basic(k1 * k2, a);
    vstd::arithmetic::mul::lemma_mul_is_commutative(a, k1 * k2);
}


/// `x_0 = x0`, `x_{r+1} = x_r² mod n`.
pub open spec fn sq_chain(x0: int, r: nat, n: int) -> int
    decreases r,
{
    if r == 0 {
        x0
    } else {
        let p = sq_chain(x0, (r - 1) as nat, n);
        (p * p) % n
    }
}

/// Base `a` passes one Miller–Rabin round for `n - 1 = d·2^s`: `a ≡ 0`, or
/// `a^d ≡ ±1`, or `a^(d·2^r) ≡ -1 (mod n)` for some `0 < r < s`.
pub open spec fn mr_round_spec(n: int, d: nat, s: nat, a: int) -> bool {
    a % n == 0 || {
        let x = ipow(a, d) % n;
        x == 1 || x == n - 1 || exists|r: nat| r < s && #[trigger] sq_chain(x, r, n) == n - 1
    }
}

/// One Miller–Rabin round for `n - 1 = d·2^s`.
fn miller_rabin_round(n: u128, d: u128, s: u32, a: u128) -> (r: bool)
    requires
        2 < n <= 0xffff_ffff_ffff_ffffu128,
    ensures
        r == mr_round_spec(n as int, d as nat, s as nat, a as int),
{
    if a % n == 0 {
        return true;
    }
    let x0 = mod_pow(a, d, n);
    let mut x = x0;
    if x == 1 || x == n - 1 {
        return true;
    }
    proof {
        lemma_mod_bound(ipow(a as int, d as nat), n as int);
    }
    let mut k: u32 = 1;
    while k < s
        invariant
            2 < n <= 0xffff_ffff_ffff_ffffu128,
            x0 == ipow(a as int, d as nat) % (n as int),
            x0 != 1,
            1 <= k,
            k <= s || s == 0,
            x < n,
            x == sq_chain(x0 as int, (k - 1) as nat, n as int),
            forall|r: nat| r < k ==> #[trigger] sq_chain(x0 as int, r, n as int) != n - 1,
        decreases s - k,
    {
        assert((x as int) * (x as int) < 0xffff_ffff_ffff_ffffu128 * 0xffff_ffff_ffff_ffffu128) by (nonlinear_arith)
            requires
                x < n,
                n <= 0xffff_ffff_ffff_ffffu128,
        ;
        x = (x * x) % n;
        assert(x == sq_chain(x0 as int, k as nat, n as int));
        if x == n - 1 {
            return true;
        }
        k = k + 1;
    }
    proof {
        assert forall|r: nat| r < s implies #[trigger] sq_chain(x0 as int, r, n as int) != n - 1 by {
        }
    }
    false
}

/// The small primes screened before Miller–Rabin.
pub open spec fn small_prime_at(i: int) -> int {
    if i == 0 { 2 } else if i == 1 { 3 } else if i == 2 { 5 } else if i == 3 { 7 } else if i == 4 { 11 }
    else if i == 5 { 13 } else if i == 6 { 17 } else if i == 7 { 19 } else if i == 8 { 23 }
    else if i == 9 { 29 } else if i == 10 { 31 } else { 37 }
}

fn small_prime(i: usize) -> (p: u64)
    requires
        i < 12,
    ensures
        p == small_prime_at(i as int),
        2 <= p <= 37,
{
    if i == 0 { 2 } else if i == 1 { 3 } else if i == 2 { 5 } else if i == 3 { 7 } else if i == 4 { 11 }
    else if i == 5 { 13 } else if i == 6 { 17 } else if i == 7 { 19 } else if i == 8 { 23 }
    else if i == 9 { 29 } else if i == 10 { 31 } else { 37 }
}

/// Screening by the small primes in order from index `i`: `Some(true)` when `n` is one of
/// them, `Some(false)` when one divides `n`, `None` when the screen is inconclusive.
pub open spec fn small_prime_screen(n: int, i: int) -> Option<bool>
    decreases 12 - i,
{
    if i >= 12 || i < 0 {
        None
    } else if n == small_prime_at(i) {
        Some(true)
    } else if n % small_prime_at(i) == 0 {
        Some(false)
    } else {
        small_prime_screen(n, i + 1)
    }
}

/// The Miller–Rabin bases.
pub open spec fn mr_base_at(i: int) -> int {
    small_prime_at(i)
}

/// The odd part of `x`.
pub open spec fn odd_part(x: nat) -> nat
    decreases x,
{
    if x > 0 && x % 2 == 0 {
        odd_part(x / 2)
    } else {
        x
    }
}

/// The exponent of 2 in `x`.
pub open spec fn two_exp(x: nat) -> nat
    decreases x,
{
    if x > 0 && x % 2 == 0 {
        1 + two_exp(x / 2)
    } else {
        0
    }
}

/// The primality test: screening by the primes up to 37, then strong-probable-prime
/// rounds to the bases 2, 3, 5, 7, 11, 13, 17.
pub open spec fn is_prime_u64_spec(n: int) -> bool {
    if n < 2 {
        false
    } else {
        match small_prime_screen(n, 0) {
            Some(b) => b,
            None => forall|i: int|
                0 <= i < 7 ==> #[trigger] mr_round_spec(
                    n,
                    odd_part((n - 1) as nat),
                    two_exp((n - 1) as nat),
                    mr_base_at(i),
                ),
        }
    }
}

/// A positive `x < 2^k` has fewer than `k` factors of two.
proof fn lemma_two_exp_bound(x: nat, k: nat)
    requires
        0 < x < ipow(2, k),
    ensures
        two_exp(x) < k,
    decreases k,
{
    if k == 0 {
    } else if x % 2 == 0 {
        lemma_two_exp_bound(x / 2, (k - 1) as nat);
    }
}

proof fn lemma_screen_none_large(n: int, i: int)
    requires
        0 <= i <= 12,
        n >= 2,
        small_prime_screen(n, i) is None,
        forall|j: int| 0 <= j < i ==> #[trigger] (n % small_prime_at(j)) != 0 && n != small_prime_at(j),
    ensures
        forall|j: int| 0 <= j < 12 ==> #[trigger] (n % small_prime_at(j)) != 0,
    decreases 12 - i,
{
    if i < 12 {
        lemma_screen_none_large(n, i + 1);
    }
}

/// Strong probable-prime test for u64 (screening by small primes, then Miller–Rabin
/// to the bases 2..17).
pub fn is_prime_u64(n: u64) -> (r: bool)
    ensures
        r == is_prime_u64_spec(n as int),
{
    if n < 2 {
        return false;
    }
    let mut i: usize = 0;
    while i < 12
        invariant
            n >= 2,
            i <= 12,
            small_prime_screen(n as int, i as int) == small_prime_screen(n as int, 0),
        decreases 12 - i,
    {
        let p = small_prime(i);
        if n == p {
            return true;
        }
        if n % p == 0 && n != p {
            return false;
        }
        i = i + 1;
    }
    assert(small_prime_screen(n as int, 0) is None);
    assert(n > 37) by {
        if n <= 37 {
            lemma_screen_none_decided(n as int);
        }
    }
    proof {
        assert(ipow(2, 64) == 0x1_0000_0000_0000_0000int) by {
            reveal_with_fuel(ipow, 65);
        }
        lemma_two_exp_bound((n - 1) as nat, 64);
    }
    let mut d: u128 = (n as u128) - 1;
    let mut s: u32 = 0;
    while d % 2 == 0
        invariant
            d > 0,
            s <= 64,
            odd_part(d as nat) == odd_part((n - 1) as nat),
            s + two_exp(d as nat) == two_exp((n - 1) as nat),
            two_exp((n - 1) as nat) <= 64,
        decreases d,
    {
        d = d / 2;
        s = s + 1;
    }
    let nn = n as u128;
    let mut b: usize = 0;
    while b < 7
        invariant
            b <= 7,
            nn == n,
            n > 37,
            d == odd_part((n - 1) as nat),
            s == two_exp((n - 1) as nat),
            small_prime_screen(n as int, 0) is None,
            forall|j: int|
                0 <= j < b ==> #[trigger] mr_round_spec(n as int, d as nat, s as nat, mr_base_at(j)),
        decreases 7 - b,
    {
        let a = small_prime(b) as u128;
        if a % nn == 0 {
            b = b + 1;
            continue;
        }
        if !miller_rabin_round(nn, d, s, a) {
            assert(!mr_round_spec(n as int, d as nat, s as nat, mr_base_at(b as int)));
            return false;
        }
        b = b + 1;
    }
    true
}

proof fn lemma_screen_none_decided(n: int)
    requires
        2 <= n <= 37,
    ensures
        small_prime_screen(n, 0) is Some,
{
    reveal_with_fuel(small_prime_screen, 13);
}

/// One step of Pollard's iteration `x ↦ x² + c (mod n)`.
fn rho_step(x: u128, c: u128, nn: u128) -> (r: u128)
    requires
        0 < nn <= 0xffff_ffff_ffff_ffffu128,
        x <= 0xffff_ffff_ffff_ffffu128,
        c <= 11,
    ensures
        r < nn,
        r == ((x as int) * (x as int) + c) % (nn as int),
{
    assert((x as int) * (x as int) <= 0xffff_ffff_ffff_ffffu128 * 0xffff_ffff_ffff_ffffu128) by (nonlinear_arith)
        requires
            x <= 0xffff_ffff_ffff_ffffu128,
    ;
    ((x * x) + c) % nn
}

fn rho_constant(i: usize) -> (c: u128)
    requires
        i < 5,
    ensures
        c == seq![1u128, 3, 5, 7, 11][i as int],
{
    if i == 0 { 1 } else if i == 1 { 3 } else if i == 2 { 5 } else if i == 3 { 7 } else { 11 }
}

/// Pollard's rho: a nontrivial factor of `n` if one is found (none for 2, a prime).
pub fn pollards_rho(n: u64) -> (r: Option<u64>)
    ensures
        n < 3 ==> r is None,
        n >= 3 && n % 2 == 0 ==> r == Some(2u64),
        n >= 2 && n % 2 != 0 && is_prime_u64_spec(n as int) ==> r is None,
        match r {
            Some(f) => 1 < f < n && n % f == 0,
            None => true,
        },
{
    if n < 3 {
        return None;
    }
    if n % 2 == 0 {
        return Some(2);
    }
    if is_prime_u64(n) {
        return None;
    }
    let nn = n as u128;
    let mut ci: usize = 0;
    while ci < 5
        invariant
            nn == n,
            n >= 3,
            n % 2 != 0,
            !is_prime_u64_spec(n as int),
        decreases 5 - ci,
    {
        let c = rho_constant(ci);
        let mut x: u128 = 2;
        let mut y: u128 = 2;
        let mut d: u128 = 1;
        let mut iter: usize = 0;
        while d == 1 && iter < 10_000
            invariant
                nn == n,
                n >= 3,
                n % 2 != 0,
                !is_prime_u64_spec(n as int),
                x <= 0xffff_ffff_ffff_ffffu128,
                y <= 0xffff_ffff_ffff_ffffu128,
                c <= 11,
                d == 1 || (d as int == arith::gcd(d as nat, nn as nat) && (nn as int) % (d as int) == 0 && d > 0),
            decreases 10_000 - iter,
        {
            x = rho_step(x, c, nn);
            let y1 = rho_step(y, c, nn);
            y = rho_step(y1, c, nn);
            let diff = if x > y { x - y } else { y - x };
            d = gcd_u128(diff, nn);
            proof {
                arith::lemma_gcd_divides(diff as nat, nn as nat);
                arith::lemma_gcd_comm(diff as nat, nn as nat);
                lemma_gcd_idem(diff as nat, nn as nat);
            }
            iter = iter + 1;
        }
        if d != 1 && d != nn {
            proof {
                vstd::arithmetic::div_mod::lemma_mod_bound(nn as int, d as int);
                lemma_divisor_le(nn as int, d as int);
                assert(1 < d < nn);
                assert((d as u64) as int == d as int);
            }
            return Some(d as u64);
        }
        ci = ci + 1;
    }
    None
}

/// gcd(g, b) == g when g == gcd(a, b).
proof fn lemma_gcd_idem(a: nat, b: nat)
    requires
        b > 0,
    ensures
        arith::gcd(arith::gcd(a, b), b) == arith::gcd(a, b),
{
    arith::lemma_gcd_divides(a, b);
    let g = arith::gcd(a, b);
    // g divides b, so gcd(g, b) == gcd(b % g... ) == g
    lemma_gcd_of_divisor(g, b);
}

/// When `g` divides `b`, `gcd(g, b) == g`.
proof fn lemma_gcd_of_divisor(g: nat, b: nat)
    requires
        g > 0,
        b % g == 0,
    ensures
        arith::gcd(g, b) == g,
{
    arith::lemma_gcd_comm(g, b);
    assert(arith::gcd(b, g) == arith::gcd(g, b % g));
    assert(arith::gcd(g, 0) == g);
}

/// A positive divisor is at most the number.
proof fn lemma_divisor_le(n: int, d: int)
    requires
        n > 0,
        d > 0,
        n % d == 0,
    ensures
        d <= n,
{
    lemma_fundamental_div_mod(n, d);
    let q = n / d;
    assert(d <= n) by (nonlinear_arith)
        requires
            n == d * q,
            n > 0,
            d > 0,
    ;
}

/// Product of a list of factors.
pub open spec fn seq_prod(s: Seq<u64>) -> int
    decreases s.len(),
{
    if s.len() == 0 {
        1
    } else {
        seq_prod(s.drop_last()) * s.last()
    }
}

/// Termination weight of the factoring stack.
pub open spec fn stack_weight(s: Seq<u64>) -> int
    decreases s.len(),
{
    if s.len() == 0 {
        0
    } else {
        stack_weight(s.drop_last()) + 2 * s.last() - 1
    }
}

proof fn lemma_push_prod(s: Seq<u64>, x: u64)
    ensures
        seq_prod(s.push(x)) == seq_prod(s) * x,
        stack_weight(s.push(x)) == stack_weight(s) + 2 * x - 1,
{
    assert(s.push(x).drop_last() =~= s);
}

proof fn lemma_weight_nonneg(s: Seq<u64>)
    requires
        forall|i: int| 0 <= i < s.len() ==> #[trigger] s[i] >= 1,
    ensures
        stack_weight(s) >= 0,
    decreases s.len(),
{
    if s.len() > 0 {
        lemma_weight_nonneg(s.drop_last());
    }
}

/// The smallest odd divisor `d ≥ 3` of `m` with `d² ≤ m`, if there is one.
fn odd_trial_divisor(m: u64) -> (r: Option<u64>)
    requires
        m >= 2,
    ensures
        match r {
            Some(d) => 3 <= d && d % 2 == 1 && (d as int) * (d as int) <= m && m % d == 0
                && forall|e: int| 3 <= e < d && e % 2 == 1 ==> #[trigger] (m as int % e) != 0,
            None => forall|e: int|
                3 <= e && e % 2 == 1 && e * e <= m ==> #[trigger] (m as int % e) != 0,
        },
{
    let mut d: u64 = 3;
    while (d as u128) * (d as u128) <= m as u128
        invariant
            m >= 2,
            3 <= d <= 0x1_0000_0002,
            (d as int) * (d as int) <= 0x1_0000_0002int * 0x1_0000_0002int,
            d % 2 == 1,
            forall|e: int| 3 <= e < d && e % 2 == 1 ==> #[trigger] (m as int % e) != 0,
        decreases 0x1_0000_0002 - d,
    {
        if m % d == 0 {
            return Some(d);
        }
        assert(d < 0x1_0000_0000) by (nonlinear_arith)
            requires
                (d as int) * (d as int) <= m,
                m <= 0xffff_ffff_ffff_ffff,
                d >= 3,
        ;
        d = d + 2;
        assert((d as int) * (d as int) <= 0x1_0000_0002int * 0x1_0000_0002int) by (nonlinear_arith)
            requires
                3 <= d <= 0x1_0000_0002,
        ;
    }
    proof {
        assert forall|e: int| 3 <= e && e % 2 == 1 && e * e <= m implies #[trigger] (m as int % e) != 0 by {
            if e >= d {
                assert(e * e >= (d as int) * (d as int)) by (nonlinear_arith)
                    requires
                        e >= d,
                        d >= 0,
                ;
            }
        }
    }
    None
}

/// `f` is a prime: it passes the primality test, or no number in `2..f` divides it.
pub open spec fn prime_factor(f: u64) -> bool {
    is_prime_u64_spec(f as int) || arith::is_prime_nat(f as nat)
}

/// The smallest odd divisor `d ≥ 3` of an odd number is prime.
proof fn lemma_smallest_odd_divisor_prime(m: u64, d: u64)
    requires
        m % 2 != 0,
        3 <= d,
        d % 2 == 1,
        m % d == 0,
        forall|e: int| 3 <= e < d && e % 2 == 1 ==> #[trigger] (m as int % e) != 0,
    ensures
        arith::is_prime_nat(d as nat),
{
    assert forall|e: nat| 2 <= e < d implies #[trigger] ((d as nat) % e) != 0 by {
        if (d as nat) % e == 0 {
            lemma_divides_trans(e as int, d as int, m as int);
            if e % 2 == 0 {
                lemma_divides_trans(2, e as int, d as int);
            } else {
                assert((m as int) % (e as int) != 0);
            }
        }
    }
}

/// An odd number `m ≥ 2` with no odd divisor `e ≥ 3`, `e² ≤ m`, is prime.
proof fn lemma_no_odd_divisor_prime(m: u64)
    requires
        m >= 2,
        m % 2 != 0,
        forall|e: int| 3 <= e && e % 2 == 1 && e * e <= m ==> #[trigger] (m as int % e) != 0,
    ensures
        arith::is_prime_nat(m as nat),
{
    assert forall|d: nat| 2 <= d < m implies #[trigger] ((m as nat) % d) != 0 by {
        if (m as nat) % d == 0 {
            arith::lemma_small_divisor(m as nat, d);
            let e = choose|e: nat| 2 <= e && e * e <= m && #[trigger] ((m as nat) % e) == 0;
            if e % 2 == 0 {
                lemma_divides_trans(2, e as int, m as int);
            } else {
                assert((m as int) % (e as int) != 0);
            }
        }
    }
}

/// Factors `n` into primes: factors ≥ 2 whose product is `n`, each of which passes the
/// primality test or has no divisor in `2..f`.
pub fn factor(n: u64) -> (r: Vec<u64>)
    ensures
        n < 2 ==> r@.len() == 0,
        n >= 2 ==> seq_prod(r@) == n,
        forall|i: int| 0 <= i < r@.len() ==> #[trigger] r@[i] >= 2,
        forall|i: int| 0 <= i < r@.len() ==> #[trigger] prime_factor(r@[i]),
{
    let mut result: Vec<u64> = Vec::new();
    if n < 2 {
        return result;
    }
    let mut stack: Vec<u64> = Vec::new();
    stack.push(n);
    proof {
        lemma_push_prod(Seq::empty(), n);
        assert(Seq::<u64>::empty().push(n) =~= stack@);
    }
    while stack.len() > 0
        invariant
            n >= 2,
            seq_prod(result@) * seq_prod(stack@) == n,
            forall|i: int| 0 <= i < result@.len() ==> #[trigger] result@[i] >= 2,
            forall|i: int| 0 <= i < result@.len() ==> #[trigger] prime_factor(result@[i]),
            forall|i: int| 0 <= i < stack@.len() ==> #[trigger] stack@[i] >= 1,
        decreases stack_weight(stack@),
    {
        let ghost before = stack@;
        let m = stack.pop().unwrap();
        proof {
            assert(before =~= stack@.push(m));
            lemma_push_prod(stack@, m);
            lemma_weight_nonneg(stack@);
        }
        if m < 2 {
            proof {
                assert(seq_prod(stack@) * 1 == seq_prod(stack@));
            }
            continue;
        }
        if is_prime_u64(m) {
            proof {
                lemma_push_prod(result@, m);
                lemma_prod_assoc(seq_prod(result@), m as int, seq_prod(stack@));
            }
            result.push(m);
            continue;
        }
        if m % 2 == 0 {
            proof {
                lemma_fundamental_div_mod(m as int, 2);
                lemma_push_prod(result@, 2);
                lemma_push_prod(stack@, m / 2);
                lemma_split_prod(seq_prod(result@), seq_prod(stack@), 2, (m / 2) as int, m as int);
            }
            proof {
                assert(arith::is_prime_nat(2)) by {
                    assert forall|d: nat| 2 <= d < 2 implies #[trigger] (2nat % d) != 0 by {}
                }
            }
            result.push(2);
            stack.push(m / 2);
            continue;
        }
        match pollards_rho(m) {
            Some(f) => {
                proof {
                    lemma_fundamental_div_mod(m as int, f as int);
                    let g = m / f;
                    assert(g >= 2) by (nonlinear_arith)
                        requires
                            m == f * g,
                            f < m,
                            f > 1,
                    ;
                    assert(2 * f - 1 + 2 * g - 1 < 2 * m - 1) by (nonlinear_arith)
                        requires
                            m == f * g,
                            f >= 2,
                            g >= 2,
                    ;
                    lemma_push_prod(stack@, f);
                    lemma_push_prod(stack@.push(f), m / f);
                    lemma_split_stack(seq_prod(result@), seq_prod(stack@), f as int, g as int, m as int);
                }
                stack.push(f);
                stack.push(m / f);
            },
            None => {
                let found = odd_trial_divisor(m);
                match found {
                    Some(d) => {
                        proof {
                            lemma_smallest_odd_divisor_prime(m, d);
                            lemma_fundamental_div_mod(m as int, d as int);
                            let g = m / d;
                            assert(g >= 1 && g < m) by (nonlinear_arith)
                                requires
                                    m == d * g,
                                    d >= 3,
                                    m >= 2,
                            ;
                            lemma_push_prod(result@, d);
                            lemma_push_prod(stack@, m / d);
                            lemma_split_prod(seq_prod(result@), seq_prod(stack@), d as int, g as int, m as int);
                        }
                        result.push(d);
                        stack.push(m / d);
                    },
                    None => {
                        proof {
                            lemma_no_odd_divisor_prime(m);
                            lemma_push_prod(result@, m);
                            lemma_prod_assoc(seq_prod(result@), m as int, seq_prod(stack@));
                        }
                        result.push(m);
                    },
                }
            },
        }
    }
    proof {
        assert(seq_prod(stack@) == 1);
    }
    result
}

proof fn lemma_prod_assoc(r: int, m: int, s: int)
    ensures
        (r * m) * s == r * (s * m),
{
    assert((r * m) * s == r * (s * m)) by (nonlinear_arith);
}

proof fn lemma_split_prod(r: int, s: int, f: int, g: int, m: int)
    requires
        m == f * g,
    ensures
        (r * f) * (s * g) == r * (s * m),
{
    assert((r * f) * (s * g) == r * (s * (f * g))) by (nonlinear_arith);
}

proof fn lemma_split_stack(r: int, s: int, f: int, g: int, m: int)
    requires
        m == f * g,
    ensures
        r * ((s * f) * g) == r * (s * m),
{
    assert(r * ((s * f) * g) == r * (s * (f * g))) by (nonlinear_arith);
}

/// Rust's `%` on signed integers: the remainder takes the sign of the dividend.
pub open spec fn trunc_rem(x: int, m: int) -> int {
    if x >= 0 {
        x % m
    } else {
        -((-x) % m)
    }
}

/// Rust's `/` on signed integers: the quotient rounds toward zero.
pub open spec fn trunc_div(x: int, m: int) -> int {
    if x >= 0 {
        x / m
    } else {
        -((-x) / m)
    }
}

/// Normalizing a Bezout coefficient modulo `m` gives the inverse.
proof fn lemma_inverse_from_bezout(a: int, m: int, x: int, y: int)
    requires
        m > 0,
        a >= 0,
        (a % m) * x + m * y == 1,
    ensures
        0 <= (trunc_rem(x, m) + m) % m < m,
        (a * ((trunc_rem(x, m) + m) % m)) % m == 1int % m,
{
    let tr = trunc_rem(x, m);
    let inv = (tr + m) % m;
    lemma_mod_bound(tr + m, m);
    // tr ≡ x (mod m)
    assert((tr + m) % m == x % m) by {
        if x >= 0 {
            lemma_mod_bound(x, m);
            vstd::arithmetic::div_mod::lemma_mod_add_multiples_vanish(x % m, m);
            vstd::arithmetic::div_mod::lemma_mod_twice(x, m);
        } else {
            lemma_mod_bound(-x, m);
            lemma_fundamental_div_mod(-x, m);
            let k = (-x) / m;
            assert(tr + m == x + m * (k + 1)) by (nonlinear_arith)
                requires
                    tr == -((-x) % m),
                    -x == m * k + (-x) % m,
            ;
            vstd::arithmetic::div_mod::lemma_mod_multiples_vanish(k + 1, x, m);
        }
    }
    // a·x ≡ 1 (mod m)
    lemma_mul_mod_noop_left(a, x, m);
    lemma_fundamental_div_mod(a, m);
    vstd::arithmetic::div_mod::lemma_mod_multiples_vanish(y, (a % m) * x, m);
    assert(((a % m) * x + m * y) % m == ((a % m) * x) % m);
    lemma_mul_mod_noop_right(a, x, m);
    lemma_mul_mod_noop_right(a, inv, m);
}

/// The integer square root: the largest `r` with `r² ≤ n`.
pub(crate) fn isqrt_u64(n: u64) -> (r: u64)
    ensures
        (r as int) * (r as int) <= n,
        n < (r as int + 1) * (r as int + 1),
        r < 0x1_0000_0000,
{
    let mut lo: u128 = 0;
    let mut hi: u128 = 0x1_0000_0000;
    assert(hi * hi > n);
    while hi - lo > 1
        invariant
            lo < hi <= 0x1_0000_0000,
            (lo as int) * (lo as int) <= n,
            (hi as int) * (hi as int) > n,
        decreases hi - lo,
    {
        let mid = lo + (hi - lo) / 2;
        assert((mid as int) * (mid as int) <= 0x1_0000_0000int * 0x1_0000_0000int) by (nonlinear_arith)
            requires
                mid <= 0x1_0000_0000,
        ;
        if mid * mid <= n as u128 {
            lo = mid;
        } else {
            hi = mid;
        }
    }
    lo as u64
}

} // verus!
