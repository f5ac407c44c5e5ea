//! Small rational arithmetic over i64.
//!
//! A rational is a pair `(num, den)`; every operation returns it normalized:
//! `den > 0` and `gcd(|num|, den) == 1` (so zero is `(0, 1)`).
use vstd::prelude::*;
use vstd::arithmetic::div_mod::*;
use vstd::arithmetic::mul::*;

verus! {

// ---------------------------------------------------------------------------
// Mathematical model
// ---------------------------------------------------------------------------

/// Greatest common divisor on naturals (Euclid).
pub open spec fn gcd(a: nat, b: nat) -> nat
    decreases b,
{
    if b == 0 {
        a
    } else {
        gcd(b, a % b)
    }
}

/// Absolute value as a natural number.
pub open spec fn abs_int(x: int) -> nat {
    if x < 0 {
        (-x) as nat
    } else {
        x as nat
    }
}

/// `(n, d)` is in lowest terms with a positive denominator.
pub open spec fn is_reduced(n: int, d: int) -> bool {
    d > 0 && gcd(abs_int(n), d as nat) == 1
}

/// The normalized form of `num / den`: sign moved to the numerator, common factors removed.
pub open spec fn normalize_spec(num: int, den: int) -> (int, int) {
    let n = if den < 0 { -num } else { num };
    let d = if den < 0 { -den } else { den };
    if n == 0 {
        (0, 1)
    } else {
        let g = gcd(abs_int(n), d as nat) as int;
        (n / g, d / g)
    }
}

/// Normalized sum of two rationals.
pub open spec fn add_spec(a: (int, int), b: (int, int)) -> (int, int) {
    normalize_spec(a.0 * b.1 + b.0 * a.1, a.1 * b.1)
}

/// Normalized product of two rationals.
pub open spec fn mul_spec(a: (int, int), b: (int, int)) -> (int, int) {
    normalize_spec(a.0 * b.0, a.1 * b.1)
}

/// Normalized difference of two rationals.
pub open spec fn sub_spec(a: (int, int), b: (int, int)) -> (int, int) {
    add_spec(a, (-b.0, b.1))
}

/// Normalized quotient of two rationals.
pub open spec fn div_spec(a: (int, int), b: (int, int)) -> (int, int) {
    normalize_spec(a.0 * b.1, a.1 * b.0)
}

/// A value representable as an i64.
pub open spec fn in_i64(x: int) -> bool {
    i64::MIN <= x <= i64::MAX
}

/// Arguments that `normalize_rat` accepts without overflowing.
pub open spec fn norm_ok(n: int, d: int) -> bool {
    d != 0 && i64::MIN < n <= i64::MAX && i64::MIN < d <= i64::MAX
}

/// `rat_add(a, b)` computes without overflowing.
pub open spec fn add_ok(a: (int, int), b: (int, int)) -> bool {
    &&& in_i64(a.0 * b.1)
    &&& in_i64(b.0 * a.1)
    &&& in_i64(a.1 * b.1)
    &&& norm_ok(a.0 * b.1 + b.0 * a.1, a.1 * b.1)
}

/// `rat_mul(a, b)` computes without overflowing.
pub open spec fn mul_ok(a: (int, int), b: (int, int)) -> bool {
    norm_ok(a.0 * b.0, a.1 * b.1)
}

/// `rat_sub(a, b)` computes without overflowing.
pub open spec fn sub_ok(a: (int, int), b: (int, int)) -> bool {
    b.0 != i64::MIN && add_ok(a, (-b.0, b.1))
}

/// `q_div(a, b)` computes without overflowing (and `b` is nonzero).
pub open spec fn div_ok(a: (int, int), b: (int, int)) -> bool {
    norm_ok(a.0 * b.1, a.1 * b.0)
}

/// The pair of a `Q`.
pub open spec fn qv(q: Q) -> (int, int) {
    (q.0 as int, q.1 as int)
}

/// The `Q` holding a pair (in range when the pair came from checked arithmetic).
pub open spec fn to_q(p: (int, int)) -> Q {
    Q(p.0 as i64, p.1 as i64)
}

/// The pair of an i64 tuple.
pub open spec fn tv(q: (i64, i64)) -> (int, int) {
    (q.0 as int, q.1 as int)
}

/// A rational whose denominator is nonzero compares by cross multiplication.
pub open spec fn same_value(a: (int, int), b: (int, int)) -> bool {
    a.0 * b.1 == b.0 * a.1
}

/// `n` is a prime number.
pub open spec fn is_prime_nat(n: nat) -> bool {
    n >= 2 && forall|d: nat| 2 <= d < n ==> #[trigger] (n % d) != 0
}

/// A number with a divisor in `2..n` has one no larger than its square root.
pub proof fn lemma_small_divisor(n: nat, d: nat)
    requires
        2 <= d < n,
        n % d == 0,
    ensures
        exists|e: nat| 2 <= e && e * e <= n && #[trigger] (n % e) == 0,
{
    lemma_fundamental_div_mod(n as int, d as int);
    let q = n / d;
    assert(n == d * q);
    if d * d <= n {
        assert(n % d == 0);
    } else {
        assert(q * q <= n && q >= 2) by (nonlinear_arith)
            requires
                n == d * q,
                d * d > n,
                d < n,
                d >= 2,
        ;
        lemma_mod_multiples_basic(d as int, q as int);
        assert((d * q) % q == 0);
        assert(n % q == 0);
    }
}

// ---------------------------------------------------------------------------
// Lemmas on gcd
// ---------------------------------------------------------------------------

/// gcd is positive unless both arguments vanish, and it divides both.
pub proof fn lemma_gcd_divides(a: nat, b: nat)
    ensures
        (a > 0 || b > 0) ==> gcd(a, b) > 0,
        gcd(a, b) > 0 ==> a % gcd(a, b) == 0 && b % gcd(a, b) == 0,
        gcd(a, b) <= a || b > 0,
        b > 0 ==> gcd(a, b) <= b,
    decreases b,
{
    if b == 0 {
        if a > 0 {
            lemma_mod_self_0(a as int);
        }
    } else {
        let r = a % b;
        lemma_mod_bound(a as int, b as int);
        lemma_gcd_divides(b, r);
        let g = gcd(b, r);
        if g > 0 {
            lemma_fundamental_div_mod(a as int, b as int);
            // a == b * (a / b) + r, both summands divisible by g
            let q = a / b;
            lemma_fundamental_div_mod(b as int, g as int);
            lemma_fundamental_div_mod(r as int, g as int);
            let kb = b / g;
            let kr = r / g;
            assert(a == g * (kb * q + kr)) by (nonlinear_arith)
                requires
                    a == b * q + r,
                    b == g * kb,
                    r == g * kr,
            ;
            lemma_mod_multiples_basic((kb * q + kr) as int, g as int);
            lemma_mul_is_commutative(g as int, (kb * q + kr) as int);
        }
    }
}

/// gcd is symmetric.
pub proof fn lemma_gcd_comm(a: nat, b: nat)
    ensures
        gcd(a, b) == gcd(b, a),
{
    if a == b {
    } else if b == 0 {
        lemma_small_mod(0, a);
        assert(gcd(0, a) == gcd(a, 0nat % a));
    } else if a == 0 {
        lemma_small_mod(0, b);
        assert(gcd(0, b) == gcd(b, 0nat % b));
    } else if a < b {
        lemma_small_mod(a, b);
        assert(gcd(a, b) == gcd(b, a % b));
    } else {
        lemma_small_mod(b, a);
        assert(gcd(b, a) == gcd(a, b % a));
    }
}

/// Scaling both arguments scales the gcd.
pub proof fn lemma_gcd_scale(k: nat, a: nat, b: nat)
    requires
        k > 0,
    ensures
        gcd(k * a, k * b) == k * gcd(a, b),
    decreases b,
{
    if b == 0 {
        assert(k * b == 0) by (nonlinear_arith)
            requires
                b == 0,
        ;
    } else {
        let q = a / b;
        let r = a % b;
        lemma_fundamental_div_mod(a as int, b as int);
        lemma_mod_bound(a as int, b as int);
        assert(k * a == q * (k * b) + k * r && 0 <= k * r < k * b) by (nonlinear_arith)
            requires
                a == b * q + r,
                0 <= r < b,
                k > 0,
        ;
        lemma_fundamental_div_mod_converse((k * a) as int, (k * b) as int, q as int, (k * r) as int);
        assert(k * b > 0) by (nonlinear_arith)
            requires
                k > 0,
                b > 0,
        ;
        assert((k * a) % (k * b) == k * r);
        lemma_gcd_scale(k, b, r);
    }
}

/// Dividing both arguments by their gcd leaves coprime numbers.
pub proof fn lemma_gcd_quotients_coprime(a: nat, b: nat)
    requires
        a > 0 || b > 0,
    ensures
        gcd(a / gcd(a, b), b / gcd(a, b)) == 1,
{
    lemma_gcd_divides(a, b);
    let g = gcd(a, b);
    lemma_fundamental_div_mod(a as int, g as int);
    lemma_fundamental_div_mod(b as int, g as int);
    let x = a / g;
    let y = b / g;
    lemma_gcd_scale(g, x, y);
    assert(g * x == a && g * y == b);
    assert(g * gcd(x, y) == g);
    assert(gcd(x, y) == 1) by (nonlinear_arith)
        requires
            g * gcd(x, y) == g,
            g > 0,
    ;
}

/// Bezout coefficients for the Euclid recursion.
pub open spec fn bezout(a: nat, b: nat) -> (int, int)
    decreases b,
{
    if b == 0 {
        (1, 0)
    } else {
        let (x, y) = bezout(b, a % b);
        (y, x - (a / b) as int * y)
    }
}

/// Bezout's identity: a*x + b*y == gcd(a, b).
pub proof fn lemma_bezout(a: nat, b: nat)
    ensures
        a * bezout(a, b).0 + b * bezout(a, b).1 == gcd(a, b),
    decreases b,
{
    if b > 0 {
        lemma_bezout(b, a % b);
        let (x, y) = bezout(b, a % b);
        let q = (a / b) as int;
        let r = (a % b) as int;
        lemma_fundamental_div_mod(a as int, b as int);
        assert(a * y + b * (x - q * y) == b * x + r * y) by (nonlinear_arith)
            requires
                a == b * q + r,
        ;
        assert(gcd(a, b) == gcd(b, a % b));
        assert(bezout(a, b) == (y, x - q * y));
        assert(b * x + r * y == gcd(b, a % b));
        assert(a * bezout(a, b).0 + b * bezout(a, b).1 == a * y + b * (x - q * y));
    } else {
        assert(bezout(a, b) == (1int, 0int));
        assert(gcd(a, b) == a);
    }
}

/// Euclid's lemma: if b divides a*c and gcd(a, b) == 1 then b divides c.
pub proof fn lemma_coprime_divides(a: nat, b: nat, c: nat)
    requires
        b > 0,
        gcd(a, b) == 1,
        (a * c) % b == 0,
    ensures
        c % b == 0,
{
    lemma_bezout(a, b);
    let (x, y) = bezout(a, b);
    lemma_fundamental_div_mod((a * c) as int, b as int);
    let k = (a * c) / b;
    assert(c == b * (k * x + c * y)) by (nonlinear_arith)
        requires
            a * x + b * y == 1,
            a * c == b * k,
    ;
    lemma_mod_multiples_basic(k * x + c * y, b as int);
    lemma_mul_is_commutative(b as int, k * x + c * y);
}

/// A value has exactly one reduced representation.
pub proof fn lemma_reduced_unique(p: int, q: int, r: int, s: int)
    requires
        is_reduced(p, q),
        is_reduced(r, s),
        p * s == r * q,
    ensures
        p == r && q == s,
{
    // q divides |p| * s and gcd(|p|, q) == 1, so q divides s; symmetrically s divides q.
    let ap = abs_int(p);
    let ar = abs_int(r);
    assert(ap * s == ar * q) by (nonlinear_arith)
        requires
            p * s == r * q,
            q > 0,
            s > 0,
            ap == (if p < 0 { -p } else { p }),
            ar == (if r < 0 { -r } else { r }),
    ;
    lemma_mod_multiples_basic(ar as int, q as int);
    lemma_mul_is_commutative(ar as int, q);
    assert(((ap * (s as nat)) as nat) % (q as nat) == 0);
    lemma_coprime_divides(ap, q as nat, s as nat);
    lemma_mod_multiples_basic(ap as int, s as int);
    lemma_mul_is_commutative(ap as int, s);
    assert(((ar * (q as nat)) as nat) % (s as nat) == 0);
    lemma_coprime_divides(ar, s as nat, q as nat);
    lemma_fundamental_div_mod(s, q);
    lemma_fundamental_div_mod(q, s);
    let k1 = s / q;
    let k2 = q / s;
    assert(q == s) by (nonlinear_arith)
        requires
            s == q * k1,
            q == s * k2,
            q > 0,
            s > 0,
    ;
    assert(p == r) by (nonlinear_arith)
        requires
            p * s == r * q,
            q == s,
            s > 0,
    ;
}

// ---------------------------------------------------------------------------
// Lemmas on normalization
// ---------------------------------------------------------------------------

/// The normalized form is reduced and has the same value.
pub proof fn lemma_normalize(num: int, den: int)
    requires
        den != 0,
    ensures
        is_reduced(normalize_spec(num, den).0, normalize_spec(num, den).1),
        num * normalize_spec(num, den).1 == normalize_spec(num, den).0 * den,
{
    let n = if den < 0 { -num } else { num };
    let d = if den < 0 { -den } else { den };
    if n == 0 {
        assert(gcd(0, 1) == 1) by {
            lemma_small_mod(0, 1);
            assert(gcd(0, 1) == gcd(1, 0nat % 1));
        }
        assert(num == 0);
        assert(normalize_spec(num, den) == (0int, 1int));
        assert(num * 1 == 0 * den);
    } else {
        let an = abs_int(n);
        let g = gcd(an, d as nat);
        lemma_gcd_divides(an, d as nat);
        lemma_gcd_quotients_coprime(an, d as nat);
        lemma_fundamental_div_mod(n, g as int);
        lemma_fundamental_div_mod(d, g as int);
        lemma_fundamental_div_mod(an as int, g as int);
        let qn = n / (g as int);
        let qd = d / (g as int);
        // n % g == 0 follows from |n| % g == 0
        assert(n % (g as int) == 0) by {
            if n < 0 {
                let k = an / g;
                assert(an == g * k);
                assert(n == (g as int) * (-k)) by (nonlinear_arith)
                    requires
                        n == -(an as int),
                        an == g * k,
                ;
                lemma_mod_multiples_basic(-k, g as int);
                lemma_mul_is_commutative(g as int, -k);
            }
        }
        assert(n == g * qn && d == g * qd);
        assert(qd > 0) by (nonlinear_arith)
            requires
                d == g * qd,
                d > 0,
                g > 0,
        ;
        assert(abs_int(qn) == an / g) by (nonlinear_arith)
            requires
                n == g * qn,
                an == (if n < 0 { -n } else { n }),
                an == g * (an / g),
                g > 0,
        ;
        assert(qd as nat == (d as nat) / g);
        assert(num * qd == qn * den) by (nonlinear_arith)
            requires
                n == g * qn,
                d == g * qd,
                n == (if den < 0 { -num } else { num }),
                d == (if den < 0 { -den } else { den }),
        ;
        assert(normalize_spec(num, den) == (qn, qd));
    }
}

/// A reduced pair normalizes to itself.
pub proof fn lemma_normalize_reduced(n: int, d: int)
    requires
        is_reduced(n, d),
    ensures
        normalize_spec(n, d) == (n, d),
{
    if n == 0 {
        assert(gcd(0, d as nat) == d) by {
            lemma_small_mod(0, d as nat);
            assert(gcd(0, d as nat) == gcd(d as nat, 0nat % (d as nat)));
        }
    } else {
        lemma_div_by_one(n);
        lemma_div_by_one(d);
    }
}

/// An integer `n/1` is already normalized.
pub proof fn lemma_normalize_reduced_int(n: int)
    ensures
        is_reduced(n, 1),
        normalize_spec(n, 1) == (n, 1int),
{
    lemma_small_mod(0, 1);
    assert(abs_int(n) % 1 == 0);
    assert(gcd(abs_int(n), 1) == gcd(1, abs_int(n) % 1));
    assert(gcd(1, 0) == 1);
    lemma_normalize_reduced(n, 1);
}

proof fn lemma_div_by_one(x: int)
    ensures
        x / 1 == x,
{
}

/// Two pairs with nonzero denominators and the same value normalize alike.
pub proof fn lemma_normalize_same_value(a: int, b: int, c: int, d: int)
    requires
        b != 0,
        d != 0,
        a * d == c * b,
    ensures
        normalize_spec(a, b) == normalize_spec(c, d),
{
    lemma_normalize(a, b);
    lemma_normalize(c, d);
    let (p, q) = normalize_spec(a, b);
    let (r, s) = normalize_spec(c, d);
    // a/b == p/q and c/d == r/s and a/b == c/d, so p/q == r/s
    assert(p * s == r * q) by (nonlinear_arith)
        requires
            a * q == p * b,
            c * s == r * d,
            a * d == c * b,
            b != 0,
            d != 0,
            q > 0,
            s > 0,
    ;
    lemma_reduced_unique(p, q, r, s);
}


// ---------------------------------------------------------------------------
// Laws of the rational operations
// ---------------------------------------------------------------------------

/// Addition of rationals is commutative.
pub proof fn lemma_add_commutative(a: (int, int), b: (int, int))
    ensures
        add_spec(a, b) == add_spec(b, a),
{
    lemma_mul_is_commutative(a.1, b.1);
}

/// Multiplication of rationals is commutative.
pub proof fn lemma_mul_commutative(a: (int, int), b: (int, int))
    ensures
        mul_spec(a, b) == mul_spec(b, a),
{
    lemma_mul_is_commutative(a.0, b.0);
    lemma_mul_is_commutative(a.1, b.1);
}

/// Zero is the additive identity on reduced rationals.
pub proof fn lemma_add_zero(a: (int, int))
    requires
        is_reduced(a.0, a.1),
    ensures
        add_spec(a, (0, 1)) == a,
{
    assert(a.0 * 1 + 0 * a.1 == a.0 && a.1 * 1 == a.1);
    lemma_normalize_reduced(a.0, a.1);
}

/// One is the multiplicative identity on reduced rationals.
pub proof fn lemma_mul_one(a: (int, int))
    requires
        is_reduced(a.0, a.1),
    ensures
        mul_spec(a, (1, 1)) == a,
{
    assert(a.0 * 1 == a.0 && a.1 * 1 == a.1);
    lemma_normalize_reduced(a.0, a.1);
}

/// Multiplying by zero gives zero.
pub proof fn lemma_mul_zero(a: (int, int))
    requires
        a.1 != 0,
    ensures
        mul_spec(a, (0, 1)) == (0int, 1int),
{
    assert(a.0 * 0 == 0 && a.1 * 1 == a.1);
}

proof fn lemma_sub_add_cross(a0: int, a1: int, b0: int, b1: int, p: int, q: int)
    requires
        (a0 * b1 + b0 * a1) * q == p * (a1 * b1),
    ensures
        (p * b1 + (-b0) * q) * a1 == a0 * (q * b1),
{
    lemma_mul_is_distributive_add_other_way(a1, p * b1, (-b0) * q);
    lemma_mul_is_distributive_add_other_way(q, a0 * b1, b0 * a1);
    lemma_mul_is_associative(p, b1, a1);
    lemma_mul_is_commutative(b1, a1);
    lemma_mul_is_associative(b0, a1, q);
    lemma_mul_is_associative(b0, q, a1);
    lemma_mul_is_commutative(a1, q);
    lemma_mul_unary_negation(b0, q);
    lemma_mul_unary_negation(b0 * q, a1);
    lemma_mul_is_associative(a0, b1, q);
    lemma_mul_is_associative(a0, q, b1);
    lemma_mul_is_commutative(b1, q);
}

proof fn lemma_add_raw_associative(a0: int, a1: int, b0: int, b1: int, c0: int, c1: int)
    ensures
        (a0 * b1 + b0 * a1) * c1 + c0 * (a1 * b1) == a0 * (b1 * c1) + (b0 * c1 + c0 * b1) * a1,
        (a1 * b1) * c1 == a1 * (b1 * c1),
{
    lemma_mul_is_distributive_add_other_way(c1, a0 * b1, b0 * a1);
    lemma_mul_is_distributive_add_other_way(a1, b0 * c1, c0 * b1);
    lemma_mul_is_associative(a0, b1, c1);
    lemma_mul_is_associative(b0, a1, c1);
    lemma_mul_is_associative(b0, c1, a1);
    lemma_mul_is_commutative(a1, c1);
    lemma_mul_is_associative(c0, b1, a1);
    lemma_mul_is_associative(c0, a1, b1);
    lemma_mul_is_commutative(a1, b1);
    lemma_mul_is_associative(a1, b1, c1);
}

/// Subtracting what was added gives back the reduced starting value.
pub proof fn lemma_sub_undoes_add(a: (int, int), b: (int, int))
    requires
        is_reduced(a.0, a.1),
        b.1 != 0,
    ensures
        sub_spec(add_spec(a, b), b) == a,
{
    let n = a.0 * b.1 + b.0 * a.1;
    let d = a.1 * b.1;
    assert(d != 0) by (nonlinear_arith)
        requires
            a.1 > 0,
            b.1 != 0,
            d == a.1 * b.1,
    ;
    lemma_normalize(n, d);
    let (p, q) = add_spec(a, b);
    // p/q == n/d
    lemma_sub_add_cross(a.0, a.1, b.0, b.1, p, q);
    assert(q * b.1 != 0) by (nonlinear_arith)
        requires
            q > 0,
            b.1 != 0,
    ;
    lemma_normalize_same_value(p * b.1 + (-b.0) * q, q * b.1, a.0, a.1);
    lemma_normalize_reduced(a.0, a.1);
}

/// Dividing by what was multiplied gives back the reduced starting value.
pub proof fn lemma_div_undoes_mul(a: (int, int), b: (int, int))
    requires
        is_reduced(a.0, a.1),
        b.0 != 0,
        b.1 != 0,
    ensures
        div_spec(mul_spec(a, b), b) == a,
{
    let n = a.0 * b.0;
    let d = a.1 * b.1;
    assert(d != 0) by (nonlinear_arith)
        requires
            a.1 > 0,
            b.1 != 0,
            d == a.1 * b.1,
    ;
    lemma_normalize(n, d);
    let (p, q) = mul_spec(a, b);
    assert((p * b.1) * a.1 == a.0 * (q * b.0)) by (nonlinear_arith)
        requires
            n * q == p * d,
            n == a.0 * b.0,
            d == a.1 * b.1,
            b.0 != 0,
    ;
    assert(q * b.0 != 0) by (nonlinear_arith)
        requires
            q > 0,
            b.0 != 0,
    ;
    lemma_normalize_same_value(p * b.1, q * b.0, a.0, a.1);
    lemma_normalize_reduced(a.0, a.1);
}


/// Negating the numerator negates the normalized numerator.
pub proof fn lemma_normalize_neg(n: int, d: int)
    requires
        d != 0,
    ensures
        normalize_spec(-n, d) == (-normalize_spec(n, d).0, normalize_spec(n, d).1),
{
    let n1 = if d < 0 { -n } else { n };
    let d1 = if d < 0 { -d } else { d };
    if n1 != 0 {
        let g = gcd(abs_int(n1), d1 as nat);
        assert(abs_int(-n1) == abs_int(n1));
        lemma_gcd_divides(abs_int(n1), d1 as nat);
        lemma_fundamental_div_mod(abs_int(n1) as int, g as int);
        let k = abs_int(n1) / g;
        let m = if n1 < 0 { -(k as int) } else { k as int };
        assert(n1 == m * g) by (nonlinear_arith)
            requires
                abs_int(n1) == g * k,
                m == (if n1 < 0 { -(k as int) } else { k as int }),
                abs_int(n1) == (if n1 < 0 { -n1 } else { n1 }),
        ;
        assert(-n1 == (-m) * g) by (nonlinear_arith)
            requires
                n1 == m * g,
        ;
        lemma_fundamental_div_mod_converse(n1, g as int, m, 0);
        lemma_fundamental_div_mod_converse(-n1, g as int, -m, 0);
    }
}

/// `(x*y)*(z*w) == (x*z)*(y*w)`.
pub proof fn lemma_mul_swap4(x: int, y: int, z: int, w: int)
    ensures
        (x * y) * (z * w) == (x * z) * (y * w),
{
    lemma_mul_is_associative(x * y, z, w);
    lemma_mul_is_associative(x, y, z);
    lemma_mul_is_commutative(y, z);
    lemma_mul_is_associative(x, z, y);
    lemma_mul_is_associative(x * z, y, w);
}

proof fn lemma_cross_add(a0: int, a1: int, c0: int, c1: int, b0: int, b1: int)
    requires
        a0 * c1 == c0 * a1,
    ensures
        (a0 * b1 + b0 * a1) * (c1 * b1) == (c0 * b1 + b0 * c1) * (a1 * b1),
{
    lemma_mul_is_distributive_add_other_way(c1 * b1, a0 * b1, b0 * a1);
    lemma_mul_is_distributive_add_other_way(a1 * b1, c0 * b1, b0 * c1);
    lemma_mul_swap4(a0, b1, c1, b1);
    lemma_mul_swap4(c0, b1, a1, b1);
    lemma_mul_swap4(b0, a1, c1, b1);
}

proof fn lemma_mul_nonzero(x: int, y: int)
    requires
        x != 0,
        y != 0,
    ensures
        x * y != 0,
{
    assert(x * y != 0) by (nonlinear_arith)
        requires
            x != 0,
            y != 0,
    ;
}

/// Replacing the left summand by one of the same value does not change the sum.
pub proof fn lemma_add_congruence(a: (int, int), a2: (int, int), b: (int, int))
    requires
        a.1 != 0,
        a2.1 != 0,
        b.1 != 0,
        same_value(a, a2),
    ensures
        add_spec(a, b) == add_spec(a2, b),
{
    let n = a.0 * b.1 + b.0 * a.1;
    let d = a.1 * b.1;
    let n2 = a2.0 * b.1 + b.0 * a2.1;
    let d2 = a2.1 * b.1;
    lemma_cross_add(a.0, a.1, a2.0, a2.1, b.0, b.1);
    lemma_mul_nonzero(a.1, b.1);
    lemma_mul_nonzero(a2.1, b.1);
    lemma_normalize_same_value(n, d, n2, d2);
}

/// Addition of rationals is associative.
pub proof fn lemma_add_associative(a: (int, int), b: (int, int), c: (int, int))
    requires
        a.1 != 0,
        b.1 != 0,
        c.1 != 0,
    ensures
        add_spec(add_spec(a, b), c) == add_spec(a, add_spec(b, c)),
{
    let ab = (a.0 * b.1 + b.0 * a.1, a.1 * b.1);
    let bc = (b.0 * c.1 + c.0 * b.1, b.1 * c.1);
    assert(ab.1 != 0 && bc.1 != 0) by (nonlinear_arith)
        requires
            a.1 != 0,
            b.1 != 0,
            c.1 != 0,
            ab.1 == a.1 * b.1,
            bc.1 == b.1 * c.1,
    ;
    lemma_normalize(ab.0, ab.1);
    lemma_normalize(bc.0, bc.1);
    // the normalized partial sums have the same values as the raw ones
    lemma_add_congruence(add_spec(a, b), ab, c);
    lemma_add_commutative(a, add_spec(b, c));
    lemma_add_commutative(a, bc);
    lemma_add_congruence(add_spec(b, c), bc, a);
    // raw sums agree
    lemma_add_raw_associative(a.0, a.1, b.0, b.1, c.0, c.1);
}

/// Replacing a factor by one of the same value does not change the product.
pub proof fn lemma_mul_congruence(a: (int, int), a2: (int, int), b: (int, int))
    requires
        a.1 != 0,
        a2.1 != 0,
        b.1 != 0,
        same_value(a, a2),
    ensures
        mul_spec(a, b) == mul_spec(a2, b),
{
    let n = a.0 * b.0;
    let d = a.1 * b.1;
    let n2 = a2.0 * b.0;
    let d2 = a2.1 * b.1;
    assert(n * d2 == n2 * d && d != 0 && d2 != 0) by (nonlinear_arith)
        requires
            a.0 * a2.1 == a2.0 * a.1,
            n == a.0 * b.0,
            d == a.1 * b.1,
            n2 == a2.0 * b.0,
            d2 == a2.1 * b.1,
            a.1 != 0,
            a2.1 != 0,
            b.1 != 0,
    ;
    lemma_normalize_same_value(n, d, n2, d2);
}

/// Multiplication of rationals is associative.
pub proof fn lemma_mul_associative(a: (int, int), b: (int, int), c: (int, int))
    requires
        a.1 != 0,
        b.1 != 0,
        c.1 != 0,
    ensures
        mul_spec(mul_spec(a, b), c) == mul_spec(a, mul_spec(b, c)),
{
    let ab = (a.0 * b.0, a.1 * b.1);
    let bc = (b.0 * c.0, b.1 * c.1);
    assert(ab.1 != 0 && bc.1 != 0) by (nonlinear_arith)
        requires
            a.1 != 0,
            b.1 != 0,
            c.1 != 0,
            ab.1 == a.1 * b.1,
            bc.1 == b.1 * c.1,
    ;
    lemma_normalize(ab.0, ab.1);
    lemma_normalize(bc.0, bc.1);
    // the normalized partial products have the same values as the raw ones
    lemma_mul_congruence(mul_spec(a, b), ab, c);
    lemma_mul_commutative(a, mul_spec(b, c));
    lemma_mul_commutative(a, bc);
    lemma_mul_congruence(mul_spec(b, c), bc, a);
    // raw products agree
    lemma_mul_is_associative(a.0, b.0, c.0);
    lemma_mul_is_associative(a.1, b.1, c.1);
    lemma_mul_is_commutative(a.0 * b.0, c.0);
    lemma_mul_is_commutative(b.0 * c.0, a.0);
    lemma_mul_is_commutative(b.1 * c.1, a.1);
    lemma_mul_is_associative(b.0, c.0, a.0);
    lemma_mul_is_associative(b.1, c.1, a.1);
    lemma_mul_is_commutative(a.0, b.0 * c.0);
    lemma_mul_is_commutative(a.1, b.1 * c.1);
}

/// The normalized form is no larger than its input.
pub proof fn lemma_normalize_bounds(n: int, d: int)
    requires
        d != 0,
    ensures
        abs_int(normalize_spec(n, d).0) <= abs_int(n),
        0 < normalize_spec(n, d).1 <= abs_int(d),
{
    lemma_normalize(n, d);
    let n1 = if d < 0 { -n } else { n };
    let d1 = if d < 0 { -d } else { d };
    if n1 != 0 {
        let g = gcd(abs_int(n1), d1 as nat);
        lemma_gcd_divides(abs_int(n1), d1 as nat);
        let (p, q) = normalize_spec(n, d);
        lemma_fundamental_div_mod(d1, g as int);
        lemma_mod_bound(d1, g as int);
        assert(q == d1 / (g as int));
        assert(q <= d1) by (nonlinear_arith)
            requires
                d1 == g * q + d1 % (g as int),
                d1 % (g as int) >= 0,
                g >= 1,
                q > 0,
        ;
        assert(n1 * q == p * d1) by (nonlinear_arith)
            requires
                n * q == p * d,
                n1 == (if d < 0 { -n } else { n }),
                d1 == (if d < 0 { -d } else { d }),
        ;
        assert(abs_int(p) <= abs_int(n1)) by (nonlinear_arith)
            requires
                n1 * q == p * d1,
                0 < q <= d1,
                abs_int(p) == (if p < 0 { -p } else { p }),
                abs_int(n1) == (if n1 < 0 { -n1 } else { n1 }),
        ;
    }
}

/// A normalized result of in-range arguments is in range.
pub proof fn lemma_normalize_fits(n: int, d: int)
    requires
        norm_ok(n, d),
    ensures
        i64::MIN < normalize_spec(n, d).0 <= i64::MAX,
        0 < normalize_spec(n, d).1 <= i64::MAX,
{
    lemma_normalize_bounds(n, d);
}

/// Normalization computes the exact value: the result equals any reduced pair of the same value.
pub proof fn lemma_normalize_exact(num: int, den: int, p: int, q: int)
    requires
        den != 0,
        is_reduced(p, q),
        num * q == p * den,
    ensures
        normalize_spec(num, den) == (p, q),
{
    lemma_normalize_same_value(num, den, p, q);
    lemma_normalize_reduced(p, q);
}

// ---------------------------------------------------------------------------
// Executable arithmetic
// ---------------------------------------------------------------------------

/// A rational number `num / den`.
#[derive(Clone, Copy, Debug, PartialEq, Eq, Hash, Structural)]
pub struct Q(pub i64, pub i64);

impl Q {
    /// The normalized rational `num / den`.
    pub fn new(num: i64, den: i64) -> (r: Q)
        requires
            norm_ok(num as int, den as int),
        ensures
            qv(r) == normalize_spec(num as int, den as int),
            is_reduced(r.0 as int, r.1 as int),
            same_value(qv(r), (num as int, den as int)),
    {
        let (n, d) = normalize_rat(num, den);
        Q(n, d)
    }

    /// Zero, `0/1`.
    pub fn zero() -> (r: Q)
        ensures
            r == Q(0, 1),
    {
        Q(0, 1)
    }

    /// One, `1/1`.
    pub fn one() -> (r: Q)
        ensures
            r == Q(1, 1),
    {
        Q(1, 1)
    }

    /// Whether the numerator is zero.
    pub fn is_zero(&self) -> (r: bool)
        ensures
            r == (self.0 == 0),
    {
        self.0 == 0
    }
}

/// Greatest common divisor of `|a|` and `|b|`.
pub fn gcd_i64(a: i64, b: i64) -> (r: i64)
    requires
        gcd(abs_int(a as int), abs_int(b as int)) <= i64::MAX,
        !(a == i64::MIN && b == -1),
        !(a == -1 && b == i64::MIN),
    ensures
        r as int == gcd(abs_int(a as int), abs_int(b as int)),
{
    let mut x: u64 = if a < 0 { (-(a as i128)) as u64 } else { a as u64 };
    let mut y: u64 = if b < 0 { (-(b as i128)) as u64 } else { b as u64 };
    assert(x as nat == abs_int(a as int) && y as nat == abs_int(b as int));
    while y != 0
        invariant
            gcd(x as nat, y as nat) == gcd(abs_int(a as int), abs_int(b as int)),
        decreases y,
    {
        let t = x % y;
        x = y;
        y = t;
    }
    x as i64
}

/// Normalize `(num, den)` to lowest terms with a positive denominator.
pub fn normalize_rat(num: i64, den: i64) -> (r: (i64, i64))
    requires
        norm_ok(num as int, den as int),
    ensures
        tv(r) == normalize_spec(num as int, den as int),
        is_reduced(r.0 as int, r.1 as int),
        same_value(tv(r), (num as int, den as int)),
{
    proof {
        lemma_normalize(num as int, den as int);
    }
    let mut n = num;
    let mut d = den;
    if d < 0 {
        n = -n;
        d = -d;
    }
    if n == 0 {
        return (0, 1);
    }
    let na = if n < 0 { -n } else { n };
    proof {
        lemma_gcd_divides(abs_int(n as int), d as nat);
        lemma_gcd_comm(abs_int(n as int), d as nat);
    }
    let g = gcd_i64(na, d);
    proof {
        lemma_fundamental_div_mod(n as int, g as int);
        lemma_fundamental_div_mod(d as int, g as int);
    }
    let qa = na / g;
    let qn = if n < 0 { -qa } else { qa };
    let qd = d / g;
    proof {
        lemma_fundamental_div_mod(na as int, g as int);
        let k = qa as int;
        if n < 0 {
            assert(n as int == (-k) * (g as int)) by (nonlinear_arith)
                requires
                    na as int == -(n as int),
                    na as int == (g as int) * k + 0,
            ;
            lemma_fundamental_div_mod_converse(n as int, g as int, -k, 0);
        }
    }
    assert(qn as int == (n as int) / (g as int));
    assert(qd as int == (d as int) / (g as int));
    (qn, qd)
}

/// Sum of two rationals, normalized.
pub fn rat_add(a: (i64, i64), b: (i64, i64)) -> (r: (i64, i64))
    requires
        add_ok(tv(a), tv(b)),
    ensures
        tv(r) == add_spec(tv(a), tv(b)),
{
    normalize_rat(a.0 * b.1 + b.0 * a.1, a.1 * b.1)
}

/// Product of two rationals, normalized.
pub fn rat_mul(a: (i64, i64), b: (i64, i64)) -> (r: (i64, i64))
    requires
        mul_ok(tv(a), tv(b)),
    ensures
        tv(r) == mul_spec(tv(a), tv(b)),
{
    normalize_rat(a.0 * b.0, a.1 * b.1)
}

/// Difference of two rationals, normalized.
pub fn rat_sub(a: (i64, i64), b: (i64, i64)) -> (r: (i64, i64))
    requires
        sub_ok(tv(a), tv(b)),
    ensures
        tv(r) == sub_spec(tv(a), tv(b)),
{
    rat_add(a, (-b.0, b.1))
}

/// Whether `rat_add(a, b)` computes without overflowing.
pub fn add_fits(a: (i64, i64), b: (i64, i64)) -> (r: bool)
    ensures
        r == add_ok(tv(a), tv(b)),
{
    let (a0, a1, b0, b1) = (a.0 as i128, a.1 as i128, b.0 as i128, b.1 as i128);
    proof {
        lemma_i64_product_bound(a0 as int, b1 as int);
        lemma_i64_product_bound(b0 as int, a1 as int);
        lemma_i64_product_bound(a1 as int, b1 as int);
    }
    let p = a0 * b1;
    let q = b0 * a1;
    let d = a1 * b1;
    let lo = i64::MIN as i128;
    let hi = i64::MAX as i128;
    if !(lo <= p && p <= hi && lo <= q && q <= hi && lo < d && d <= hi && d != 0) {
        return false;
    }
    let n = p + q;
    lo < n && n <= hi
}

/// Whether `rat_mul(a, b)` computes without overflowing.
pub fn mul_fits(a: (i64, i64), b: (i64, i64)) -> (r: bool)
    ensures
        r == mul_ok(tv(a), tv(b)),
{
    let (a0, a1, b0, b1) = (a.0 as i128, a.1 as i128, b.0 as i128, b.1 as i128);
    proof {
        lemma_i64_product_bound(a0 as int, b0 as int);
        lemma_i64_product_bound(a1 as int, b1 as int);
    }
    let n = a0 * b0;
    let d = a1 * b1;
    let lo = i64::MIN as i128;
    let hi = i64::MAX as i128;
    d != 0 && lo < n && n <= hi && lo < d && d <= hi
}

/// Whether `q_div(a, b)` computes without overflowing.
pub fn div_fits(a: (i64, i64), b: (i64, i64)) -> (r: bool)
    ensures
        r == div_ok(tv(a), tv(b)),
{
    let (a0, a1, b0, b1) = (a.0 as i128, a.1 as i128, b.0 as i128, b.1 as i128);
    proof {
        lemma_i64_product_bound(a0 as int, b1 as int);
        lemma_i64_product_bound(a1 as int, b0 as int);
    }
    let n = a0 * b1;
    let d = a1 * b0;
    let lo = i64::MIN as i128;
    let hi = i64::MAX as i128;
    d != 0 && lo < n && n <= hi && lo < d && d <= hi
}

/// A product of two `i64` values lies within `2^126` of zero.
proof fn lemma_i64_product_bound(x: int, y: int)
    requires
        in_i64(x),
        in_i64(y),
    ensures
        -0x4000_0000_0000_0000_0000_0000_0000_0000 <= x * y <= 0x4000_0000_0000_0000_0000_0000_0000_0000,
{
    assert(-0x4000_0000_0000_0000_0000_0000_0000_0000 <= x * y <= 0x4000_0000_0000_0000_0000_0000_0000_0000)
        by (nonlinear_arith)
        requires
            -0x8000_0000_0000_0000 <= x <= 0x7fff_ffff_ffff_ffff,
            -0x8000_0000_0000_0000 <= y <= 0x7fff_ffff_ffff_ffff,
    ;
}

/// Normalize `(n, d)`.
pub fn q_norm(n: i64, d: i64) -> (r: (i64, i64))
    requires
        norm_ok(n as int, d as int),
    ensures
        tv(r) == normalize_spec(n as int, d as int),
        is_reduced(r.0 as int, r.1 as int),
{
    normalize_rat(n, d)
}

/// Sum of two rationals.
pub fn q_add(a: (i64, i64), b: (i64, i64)) -> (r: (i64, i64))
    requires
        add_ok(tv(a), tv(b)),
    ensures
        tv(r) == add_spec(tv(a), tv(b)),
{
    rat_add(a, b)
}

/// Difference of two rationals.
pub fn q_sub(a: (i64, i64), b: (i64, i64)) -> (r: (i64, i64))
    requires
        sub_ok(tv(a), tv(b)),
    ensures
        tv(r) == sub_spec(tv(a), tv(b)),
{
    rat_sub(a, b)
}

/// Product of two rationals.
pub fn q_mul(a: (i64, i64), b: (i64, i64)) -> (r: (i64, i64))
    requires
        mul_ok(tv(a), tv(b)),
    ensures
        tv(r) == mul_spec(tv(a), tv(b)),
{
    rat_mul(a, b)
}

/// Quotient of two rationals; `b` must be nonzero.
pub fn q_div(a: (i64, i64), b: (i64, i64)) -> (r: (i64, i64))
    requires
        div_ok(tv(a), tv(b)),
    ensures
        tv(r) == div_spec(tv(a), tv(b)),
{
    normalize_rat(a.0 * b.1, a.1 * b.0)
}

/// Sum of two `Q`s.
pub fn add_q(a: Q, b: Q) -> (r: Q)
    requires
        add_ok(qv(a), qv(b)),
    ensures
        qv(r) == add_spec(qv(a), qv(b)),
{
    let (n, d) = rat_add((a.0, a.1), (b.0, b.1));
    Q(n, d)
}

/// Difference of two `Q`s.
pub fn sub_q(a: Q, b: Q) -> (r: Q)
    requires
        sub_ok(qv(a), qv(b)),
    ensures
        qv(r) == sub_spec(qv(a), qv(b)),
{
    let (n, d) = rat_sub((a.0, a.1), (b.0, b.1));
    Q(n, d)
}

/// Product of two `Q`s.
pub fn mul_q(a: Q, b: Q) -> (r: Q)
    requires
        mul_ok(qv(a), qv(b)),
    ensures
        qv(r) == mul_spec(qv(a), qv(b)),
{
    let (n, d) = rat_mul((a.0, a.1), (b.0, b.1));
    Q(n, d)
}

/// Quotient of two `Q`s; `b` must be nonzero.
pub fn div_q(a: Q, b: Q) -> (r: Q)
    requires
        div_ok(qv(a), qv(b)),
    ensures
        qv(r) == div_spec(qv(a), qv(b)),
{
    let (n, d) = q_div((a.0, a.1), (b.0, b.1));
    Q(n, d)
}

} // verus!
