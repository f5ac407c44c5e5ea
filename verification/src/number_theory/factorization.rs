use vstd::prelude::*;
use vstd::arithmetic::div_mod::{lemma_fundamental_div_mod, lemma_mod_bound};
use crate::arith;
use crate::number_theory;

verus! {

/// `p^e` for a factor `(p, e)`.
pub open spec fn factor_power(f: (u64, u32)) -> int {
    number_theory::ipow(f.0 as int, f.1 as nat)
}

/// The number that a list of `(prime, exponent)` pairs stands for.
pub open spec fn pf_prod(s: Seq<(u64, u32)>) -> int
    decreases s.len(),
{
    if s.len() == 0 {
        1
    } else {
        pf_prod(s.drop_last()) * factor_power(s.last())
    }
}

/// The sum of the exponents.
pub open spec fn exp_total(s: Seq<(u64, u32)>) -> int
    decreases s.len(),
{
    if s.len() == 0 {
        0
    } else {
        exp_total(s.drop_last()) + s.last().1
    }
}

/// Bases strictly increase along the list.
pub open spec fn strictly_sorted(s: Seq<(u64, u32)>) -> bool {
    forall|i: int, j: int| 0 <= i < j < s.len() ==> #[trigger] s[i].0 < #[trigger] s[j].0
}

/// Every base is at least 2 and every exponent at least 1.
pub open spec fn proper_factors(s: Seq<(u64, u32)>) -> bool {
    forall|i: int| 0 <= i < s.len() ==> #[trigger] s[i].0 >= 2 && s[i].1 >= 1
}

/// Every base is prime.
pub open spec fn prime_bases(s: Seq<(u64, u32)>) -> bool {
    forall|i: int| 0 <= i < s.len() ==> arith::is_prime_nat(#[trigger] s[i].0 as nat)
}

proof fn lemma_pf_push(s: Seq<(u64, u32)>, x: (u64, u32))
    ensures
        pf_prod(s.push(x)) == pf_prod(s) * factor_power(x),
        exp_total(s.push(x)) == exp_total(s) + x.1,
{
    assert(s.push(x).drop_last() =~= s);
}

proof fn lemma_pf_insert(s: Seq<(u64, u32)>, k: int, x: (u64, u32))
    requires
        0 <= k <= s.len(),
    ensures
        pf_prod(s.insert(k, x)) == pf_prod(s) * factor_power(x),
        exp_total(s.insert(k, x)) == exp_total(s) + x.1,
    decreases s.len(),
{
    if k == s.len() {
        assert(s.insert(k, x) =~= s.push(x));
        lemma_pf_push(s, x);
    } else {
        let t = s.drop_last();
        lemma_pf_insert(t, k, x);
        assert(s.insert(k, x).drop_last() =~= t.insert(k, x));
        assert(s.insert(k, x).last() == s.last());
        let a = pf_prod(t);
        let b = factor_power(x);
        let c = factor_power(s.last());
        assert(a * b * c == a * c * b) by (nonlinear_arith);
    }
}

proof fn lemma_pf_update(s: Seq<(u64, u32)>, k: int, y: (u64, u32))
    requires
        0 <= k < s.len(),
    ensures
        pf_prod(s.update(k, y)) * factor_power(s[k]) == pf_prod(s) * factor_power(y),
        exp_total(s.update(k, y)) + s[k].1 == exp_total(s) + y.1,
    decreases s.len(),
{
    let t = s.drop_last();
    if k == s.len() - 1 {
        assert(s.update(k, y).drop_last() =~= t);
        let a = pf_prod(t);
        assert(a * factor_power(y) * factor_power(s[k]) == a * factor_power(s[k]) * factor_power(y))
            by (nonlinear_arith);
    } else {
        lemma_pf_update(t, k, y);
        assert(s.update(k, y).drop_last() =~= t.update(k, y));
        let a = pf_prod(t.update(k, y));
        let c = factor_power(s.last());
        assert(a * c * factor_power(s[k]) == a * factor_power(s[k]) * c) by (nonlinear_arith);
        assert(pf_prod(t) * c * factor_power(y) == pf_prod(t) * factor_power(y) * c) by (nonlinear_arith);
    }
}

proof fn lemma_pf_append(s: Seq<(u64, u32)>, t: Seq<(u64, u32)>)
    ensures
        pf_prod(s + t) == pf_prod(s) * pf_prod(t),
        exp_total(s + t) == exp_total(s) + exp_total(t),
    decreases t.len(),
{
    if t.len() == 0 {
        assert(s + t =~= s);
    } else {
        lemma_pf_append(s, t.drop_last());
        assert((s + t).drop_last() =~= s + t.drop_last());
        assert((s + t).last() == t.last());
        let a = pf_prod(s);
        let b = pf_prod(t.drop_last());
        let c = factor_power(t.last());
        assert(a * b * c == a * (b * c)) by (nonlinear_arith);
    }
}

pub(crate) proof fn lemma_ipow_add(p: int, a: nat, b: nat)
    ensures
        number_theory::ipow(p, a + b) == number_theory::ipow(p, a) * number_theory::ipow(p, b),
    decreases b,
{
    if b > 0 {
        lemma_ipow_add(p, a, (b - 1) as nat);
        assert(number_theory::ipow(p, a + b) == p * number_theory::ipow(p, (a + b - 1) as nat));
        let x = number_theory::ipow(p, a);
        let y = number_theory::ipow(p, (b - 1) as nat);
        assert(p * (x * y) == x * (p * y)) by (nonlinear_arith);
    }
}

proof fn lemma_ipow_ge_pow2(p: int, e: nat)
    requires
        p >= 2,
    ensures
        number_theory::ipow(p, e) >= number_theory::ipow(2, e) >= 1,
    decreases e,
{
    if e > 0 {
        lemma_ipow_ge_pow2(p, (e - 1) as nat);
        let a = number_theory::ipow(p, (e - 1) as nat);
        let b = number_theory::ipow(2, (e - 1) as nat);
        assert(p * a >= 2 * b) by (nonlinear_arith)
            requires
                p >= 2,
                a >= b >= 1,
        ;
    }
}

proof fn lemma_pow2_monotone(a: nat, b: nat)
    requires
        a <= b,
    ensures
        number_theory::ipow(2, a) <= number_theory::ipow(2, b),
    decreases b,
{
    if a < b {
        lemma_pow2_monotone(a, (b - 1) as nat);
        number_theory::lemma_ipow_nonneg(2, (b - 1) as nat);
    }
}

/// With bases at least 2, the number is at least `2^(sum of exponents)`.
proof fn lemma_pf_lower(s: Seq<(u64, u32)>)
    requires
        forall|i: int| 0 <= i < s.len() ==> #[trigger] s[i].0 >= 2,
    ensures
        pf_prod(s) >= number_theory::ipow(2, exp_total(s) as nat) >= 1,
        exp_total(s) >= 0,
    decreases s.len(),
{
    if s.len() > 0 {
        let t = s.drop_last();
        lemma_pf_lower(t);
        lemma_ipow_ge_pow2(s.last().0 as int, s.last().1 as nat);
        lemma_ipow_add(2, exp_total(t) as nat, s.last().1 as nat);
        assert(exp_total(s) == exp_total(t) + s.last().1);
        assert((exp_total(s) as nat) == (exp_total(t) as nat) + (s.last().1 as nat));
        assert(pf_prod(s) == pf_prod(t) * factor_power(s.last()));
        let a = pf_prod(t);
        let b = number_theory::ipow(2, exp_total(t) as nat);
        let c = factor_power(s.last());
        let d = number_theory::ipow(2, s.last().1 as nat);
        assert(a * c >= b * d >= 1) by (nonlinear_arith)
            requires
                a >= b >= 1,
                c >= d >= 1,
        ;
    }
}

/// A number below `2^64` with bases at least 2 has fewer than 64 prime factors.
proof fn lemma_exp_total_small(s: Seq<(u64, u32)>)
    requires
        forall|i: int| 0 <= i < s.len() ==> #[trigger] s[i].0 >= 2,
        pf_prod(s) < 0x1_0000_0000_0000_0000,
    ensures
        0 <= exp_total(s) < 64,
{
    lemma_pf_lower(s);
    if exp_total(s) >= 64 {
        lemma_pow2_monotone(64, exp_total(s) as nat);
        assert(number_theory::ipow(2, 64) == 0x1_0000_0000_0000_0000int) by {
            reveal_with_fuel(number_theory::ipow, 65);
        }
    }
}

/// Euclid's algorithm on `u64`.
fn gcd(a: u64, b: u64) -> (r: u64)
    ensures
        r == arith::gcd(a as nat, b as nat),
{
    let mut a = a;
    let mut b = b;
    let ghost a0 = a;
    let ghost b0 = b;
    while b != 0
        invariant
            arith::gcd(a as nat, b as nat) == arith::gcd(a0 as nat, b0 as nat),
        decreases b,
    {
        let temp = b;
        b = a % b;
        a = temp;
    }
    a
}

/// `n` has no divisor in `2..d`.
pub open spec fn no_divisor_below(n: int, d: int) -> bool {
    forall|e: int| 2 <= e < d ==> #[trigger] (n % e) != 0
}

/// A divisor of `m` that divides `n·m`... in the form used here: if `e` divides `m` and
/// `n == k·m`, then `e` divides `n`.
proof fn lemma_divides_multiple(e: int, m: int, k: int, n: int)
    requires
        e > 0,
        m > 0,
        k > 0,
        n == k * m,
        m % e == 0,
    ensures
        n % e == 0,
{
    vstd::arithmetic::div_mod::lemma_mod_multiples_basic(k, m);
    assert(n == m * k) by (nonlinear_arith)
        requires
            n == k * m,
    ;
    assert(n % m == 0);
    number_theory::lemma_divides_trans(e, m, n);
}

/// Divides `d` out of `n` as often as it goes (at most 63 times for `d ≥ 2`).
fn divide_out(n: u64, d: u64) -> (r: (u64, u32))
    requires
        n >= 1,
        d >= 2,
    ensures
        n == number_theory::ipow(d as int, r.1 as nat) * r.0,
        r.0 >= 1,
        r.0 % d != 0,
        r.1 < 64,
        (r.1 == 0) == (n % d != 0),
{
    let mut m = n;
    let mut count: u32 = 0;
    while m % d == 0 && count < 64
        invariant
            d >= 2,
            m >= 1,
            count <= 64,
            n == number_theory::ipow(d as int, count as nat) * m,
            count == 0 ==> m == n,
            count > 0 ==> n % d == 0,
        decreases m,
    {
        proof {
            lemma_fundamental_div_mod(m as int, d as int);
            let q = m / d;
            assert(number_theory::ipow(d as int, (count + 1) as nat) * q
                == number_theory::ipow(d as int, count as nat) * m) by (nonlinear_arith)
                requires
                    number_theory::ipow(d as int, (count + 1) as nat)
                        == d * number_theory::ipow(d as int, count as nat),
                    m == d * q,
            ;
            assert(q >= 1 && q < m) by (nonlinear_arith)
                requires
                    m == d * q,
                    m >= 1,
                    d >= 2,
            ;
        }
        count = count + 1;
        m = m / d;
    }
    proof {
        if count == 64 {
            lemma_ipow_ge_pow2(d as int, 64);
            assert(number_theory::ipow(2, 64) == 0x1_0000_0000_0000_0000int) by {
                reveal_with_fuel(number_theory::ipow, 65);
            }
            assert(number_theory::ipow(d as int, 64) * m >= number_theory::ipow(d as int, 64))
                by (nonlinear_arith)
                requires
                    m >= 1,
                    number_theory::ipow(d as int, 64) >= 1,
            ;
        }
    }
    (m, count)
}

/// Dividing `d` out keeps `n` free of divisors below `d` and removes `d` itself.
proof fn lemma_divide_out_keeps(n: int, d: int, c: nat, m: int)
    requires
        d >= 2,
        m >= 1,
        n == number_theory::ipow(d, c) * m,
        m % d != 0,
        no_divisor_below(n, d),
    ensures
        no_divisor_below(m, d + 1),
{
    number_theory::lemma_ipow_nonneg(d, c);
    lemma_ipow_ge_pow2(d, c);
    assert forall|e: int| 2 <= e < d + 1 implies #[trigger] (m % e) != 0 by {
        if e < d && m % e == 0 {
            lemma_divides_multiple(e, m, number_theory::ipow(d, c), n);
        }
    }
}

/// Numbers strictly between consecutive wheel values `≡ ±1 (mod 6)` are multiples of 2 or 3.
proof fn lemma_wheel_gap(n: int, d: int, d2: int)
    requires
        d >= 7,
        d % 6 == 1 || d % 6 == 5,
        d2 == (if d % 6 == 1 { d + 4 } else { d + 2 }),
        n >= 1,
        no_divisor_below(n, d + 1),
    ensures
        no_divisor_below(n, d2),
        d2 % 6 == 1 || d2 % 6 == 5,
{
    assert forall|e: int| 2 <= e < d2 implies #[trigger] (n % e) != 0 by {
        if e > d && n % e == 0 {
            if e % 2 == 0 {
                assert(e % 2 == 0);
                number_theory::lemma_divides_trans(2, e, n);
                assert(n % 2 != 0);
            } else {
                assert(e % 3 == 0);
                number_theory::lemma_divides_trans(3, e, n);
                assert(n % 3 != 0);
            }
        }
    }
}

/// A number above 1 with no divisor up to its square root is prime.
proof fn lemma_prime_by_root(n: int, d: int)
    requires
        n >= 2,
        d * d > n,
        d >= 2,
        no_divisor_below(n, d),
    ensures
        arith::is_prime_nat(n as nat),
{
    assert forall|e: nat| 2 <= e < n implies #[trigger] ((n as nat) % e) != 0 by {
        if (n as nat) % e == 0 {
            arith::lemma_small_divisor(n as nat, e);
            let f = choose|f: nat| 2 <= f && f * f <= n && #[trigger] ((n as nat) % f) == 0;
            if f >= d {
                assert(f * f >= d * d) by (nonlinear_arith)
                    requires
                        f >= d,
                        d >= 0,
                ;
            }
            assert(n % (f as int) != 0);
        }
    }
}

/// A divisor `d` of `n` with `n` free of divisors below `d` is prime.
proof fn lemma_least_divisor_prime(n: int, d: int)
    requires
        d >= 2,
        n >= 1,
        n % d == 0,
        no_divisor_below(n, d),
    ensures
        arith::is_prime_nat(d as nat),
{
    assert forall|e: nat| 2 <= e < d implies #[trigger] ((d as nat) % e) != 0 by {
        if (d as nat) % e == 0 {
            number_theory::lemma_divides_trans(e as int, d, n);
            assert(n % (e as int) != 0);
        }
    }
}

/// A number with no divisor below `d` is at least `d` (when above 1).
proof fn lemma_at_least_bound(n: int, d: int)
    requires
        n >= 2,
        no_divisor_below(n, d),
    ensures
        n >= d,
{
    if n < d {
        vstd::arithmetic::div_mod::lemma_mod_self_0(n);
        assert(n % n != 0);
    }
}

/// Trial division by 2, 3, 5, then the numbers `≡ ±1 (mod 6)` up to `limit` (by default
/// `⌊√n⌋ + 1` of what is left after 2, 3 and 5): `(base, exponent)` pairs with increasing
/// bases whose product is `n`. Every base but the last is prime, the last too by default.
pub fn trial_division(n: u64, limit: Option<u64>) -> (r: Vec<(u64, u32)>)
    requires
        match limit {
            Some(l) => l < 0xffff_ffff_ffff_fff0,
            None => true,
        },
    ensures
        n <= 1 ==> r@.len() == 0,
        n > 1 ==> pf_prod(r@) == n,
        strictly_sorted(r@),
        proper_factors(r@),
        forall|i: int| 0 <= i < r@.len() - 1 ==> arith::is_prime_nat(#[trigger] r@[i].0 as nat),
        limit is None ==> prime_bases(r@),
{
    let mut factors: Vec<(u64, u32)> = Vec::new();
    if n <= 1 {
        return factors;
    }
    let (n2, c2) = divide_out(n, 2);
    if c2 > 0 {
        factors.push((2, c2));
    }
    let (n3, c3) = divide_out(n2, 3);
    if c3 > 0 {
        factors.push((3, c3));
    }
    let (n5, c5) = divide_out(n3, 5);
    if c5 > 0 {
        factors.push((5, c5));
    }
    proof {
        assert(arith::is_prime_nat(2)) by {
            assert forall|e: nat| 2 <= e < 2 implies #[trigger] (2nat % e) != 0 by {}
        }
        assert(arith::is_prime_nat(3)) by {
            assert forall|e: nat| 2 <= e < 3 implies #[trigger] (3nat % e) != 0 by {}
        }
        assert(arith::is_prime_nat(5)) by {
            assert forall|e: nat| 2 <= e < 5 implies #[trigger] (5nat % e) != 0 by {}
        }
        lemma_divide_out_keeps(n as int, 2, c2 as nat, n2 as int);
        lemma_divide_out_keeps(n2 as int, 3, c3 as nat, n3 as int);
        assert(no_divisor_below(n2 as int, 3));
        assert(no_divisor_below(n3 as int, 4));
        assert(no_divisor_below(n3 as int, 5)) by {
            assert forall|e: int| 2 <= e < 5 implies #[trigger] ((n3 as int) % e) != 0 by {
                if e == 4 && (n3 as int) % 4 == 0 {
                    number_theory::lemma_divides_trans(2, 4, n3 as int);
                }
            }
        }
        lemma_divide_out_keeps(n3 as int, 5, c5 as nat, n5 as int);
        assert(no_divisor_below(n5 as int, 7)) by {
            assert forall|e: int| 2 <= e < 7 implies #[trigger] ((n5 as int) % e) != 0 by {
                if e == 6 && (n5 as int) % 6 == 0 {
                    number_theory::lemma_divides_trans(2, 6, n5 as int);
                }
            }
        }
        number_theory::lemma_ipow_nonneg(2, c2 as nat);
        number_theory::lemma_ipow_nonneg(3, c3 as nat);
        number_theory::lemma_ipow_nonneg(5, c5 as nat);
        lemma_pf_push(Seq::empty(), (2u64, c2));
        assert(Seq::<(u64, u32)>::empty().push((2u64, c2)).drop_last() =~= Seq::<(u64, u32)>::empty());
        // the product of what was pushed times what is left is n
        let s0 = Seq::<(u64, u32)>::empty();
        let s1 = if c2 > 0 { s0.push((2u64, c2)) } else { s0 };
        let s2 = if c3 > 0 { s1.push((3u64, c3)) } else { s1 };
        let s3 = if c5 > 0 { s2.push((5u64, c5)) } else { s2 };
        assert(factors@ == s3);
        lemma_pf_push(s0, (2u64, c2));
        lemma_pf_push(s1, (3u64, c3));
        lemma_pf_push(s2, (5u64, c5));
        assert(pf_prod(s1) == number_theory::ipow(2, c2 as nat));
        assert(pf_prod(s2) == pf_prod(s1) * number_theory::ipow(3, c3 as nat));
        assert(pf_prod(s3) == pf_prod(s2) * number_theory::ipow(5, c5 as nat));
        let a = number_theory::ipow(2, c2 as nat);
        let b = number_theory::ipow(3, c3 as nat);
        let c = number_theory::ipow(5, c5 as nat);
        assert(a * (b * (c * n5)) == a * b * c * n5) by (nonlinear_arith);
        assert(pf_prod(factors@) * n5 == n);
    }
    let lim: u64 = match limit {
        Some(l) => l,
        None => number_theory::isqrt_u64(n5) + 1,
    };
    let mut m = n5;
    let mut d: u64 = 7;
    while d <= lim && m > 1
        invariant
            m >= 1,
            7 <= d,
            d % 6 == 1 || d % 6 == 5,
            d == 7 || d <= lim + 6,
            lim < 0xffff_ffff_ffff_fff0,
            limit is None ==> (lim as int) * (lim as int) > m,
            no_divisor_below(m as int, d as int),
            pf_prod(factors@) * m == n,
            strictly_sorted(factors@),
            proper_factors(factors@),
            prime_bases(factors@),
            forall|i: int| 0 <= i < factors@.len() ==> #[trigger] factors@[i].0 < d,
        decreases lim + 6 - d,
    {
        let (m2, count) = divide_out(m, d);
        if count > 0 {
            proof {
                lemma_least_divisor_prime(m as int, d as int);
                lemma_pf_push(factors@, (d, count));
                assert(pf_prod(factors@) * m == n);
                let p = pf_prod(factors@);
                let w = number_theory::ipow(d as int, count as nat);
                assert(p * w * m2 == p * (w * m2)) by (nonlinear_arith);
            }
            factors.push((d, count));
        }
        proof {
            lemma_divide_out_keeps(m as int, d as int, count as nat, m2 as int);
            if count == 0 {
                assert(m2 == m);
            }
            lemma_ipow_ge_pow2(d as int, count as nat);
            if limit is None {
                assert((lim as int) * (lim as int) > m2) by (nonlinear_arith)
                    requires
                        (lim as int) * (lim as int) > m,
                        m == number_theory::ipow(d as int, count as nat) * m2,
                        number_theory::ipow(d as int, count as nat) >= 1,
                        m2 >= 1,
                ;
            }
        }
        m = m2;
        let d2 = if d % 6 == 1 { d + 4 } else { d + 2 };
        proof {
            lemma_wheel_gap(m as int, d as int, d2 as int);
        }
        d = d2;
    }
    if m > 1 {
        proof {
            lemma_at_least_bound(m as int, d as int);
            if limit is None {
                assert((d as int) * (d as int) > m) by (nonlinear_arith)
                    requires
                        d > lim,
                        (lim as int) * (lim as int) > m,
                        lim >= 0,
                ;
                lemma_prime_by_root(m as int, d as int);
            }
            lemma_pf_push(factors@, (m, 1u32));
            assert(number_theory::ipow(m as int, 0) == 1);
            assert(number_theory::ipow(m as int, 1) == (m as int) * number_theory::ipow(m as int, 0));
            assert(factor_power((m, 1u32)) == m);
        }
        factors.push((m, 1));
        assert(pf_prod(factors@) == n);
    } else {
        assert(m == 1);
        assert(pf_prod(factors@) * 1 == pf_prod(factors@));
        assert(pf_prod(factors@) == n);
    }
    factors
}

/// The total exponent of base `p` over a list of pairs.
pub open spec fn exp_of(s: Seq<(u64, u32)>, p: u64) -> int
    decreases s.len(),
{
    if s.len() == 0 {
        0
    } else {
        exp_of(s.drop_last(), p) + (if s.last().0 == p { s.last().1 as int } else { 0 })
    }
}

proof fn lemma_exp_of_push(s: Seq<(u64, u32)>, x: (u64, u32))
    ensures
        forall|q: u64| #[trigger] exp_of(s.push(x), q) == exp_of(s, q) + (if x.0 == q { x.1 as int } else { 0 }),
{
    assert(s.push(x).drop_last() =~= s);
}

proof fn lemma_exp_of_insert(s: Seq<(u64, u32)>, k: int, x: (u64, u32), q: u64)
    requires
        0 <= k <= s.len(),
    ensures
        exp_of(s.insert(k, x), q) == exp_of(s, q) + (if x.0 == q { x.1 as int } else { 0 }),
    decreases s.len(),
{
    if k == s.len() {
        assert(s.insert(k, x) =~= s.push(x));
        lemma_exp_of_push(s, x);
    } else {
        lemma_exp_of_insert(s.drop_last(), k, x, q);
        assert(s.insert(k, x).drop_last() =~= s.drop_last().insert(k, x));
        assert(s.insert(k, x).last() == s.last());
    }
}

proof fn lemma_exp_of_update(s: Seq<(u64, u32)>, k: int, y: (u64, u32), q: u64)
    requires
        0 <= k < s.len(),
    ensures
        exp_of(s.update(k, y), q) + (if s[k].0 == q { s[k].1 as int } else { 0 })
            == exp_of(s, q) + (if y.0 == q { y.1 as int } else { 0 }),
    decreases s.len(),
{
    if k == s.len() - 1 {
        assert(s.update(k, y).drop_last() =~= s.drop_last());
    } else {
        lemma_exp_of_update(s.drop_last(), k, y, q);
        assert(s.update(k, y).drop_last() =~= s.drop_last().update(k, y));
    }
}

proof fn lemma_exp_total_bounds(s: Seq<(u64, u32)>)
    ensures
        exp_total(s) >= 0,
        forall|k: int| 0 <= k < s.len() ==> #[trigger] s[k].1 <= exp_total(s),
    decreases s.len(),
{
    if s.len() > 0 {
        lemma_exp_total_bounds(s.drop_last());
        assert forall|k: int| 0 <= k < s.len() implies #[trigger] s[k].1 <= exp_total(s) by {
            if k < s.len() - 1 {
                assert(s[k] == s.drop_last()[k]);
            }
        }
    }
}

/// Merges pairs with equal bases by adding their exponents, sorted by base.
fn merge_factors(factors: Vec<(u64, u32)>) -> (r: Vec<(u64, u32)>)
    requires
        proper_factors(factors@),
        exp_total(factors@) <= u32::MAX,
    ensures
        strictly_sorted(r@),
        proper_factors(r@),
        pf_prod(r@) == pf_prod(factors@),
        exp_total(r@) == exp_total(factors@),
        forall|q: u64| #[trigger] exp_of(r@, q) == exp_of(factors@, q),
        forall|i: int| 0 <= i < r@.len() ==> #[trigger] r@[i].1 == exp_of(factors@, r@[i].0),
{
    let mut out: Vec<(u64, u32)> = Vec::new();
    let mut i: usize = 0;
    proof {
        lemma_exp_total_bounds(factors@);
        assert(factors@.take(0) =~= Seq::<(u64, u32)>::empty());
    }
    while i < factors.len()
        invariant
            i <= factors@.len(),
            proper_factors(factors@),
            exp_total(factors@) <= u32::MAX,
            strictly_sorted(out@),
            proper_factors(out@),
            pf_prod(out@) == pf_prod(factors@.take(i as int)),
            exp_total(out@) == exp_total(factors@.take(i as int)),
            forall|q: u64| #[trigger] exp_of(out@, q) == exp_of(factors@.take(i as int), q),
            forall|k: int| 0 <= k < out@.len() ==> #[trigger] out@[k].1 == exp_of(out@, out@[k].0),
        decreases factors@.len() - i,
    {
        let (p, e) = factors[i];
        let ghost pre = factors@.take(i as int);
        proof {
            assert(factors@.take(i as int + 1) =~= pre.push((p, e)));
            lemma_pf_push(pre, (p, e));
            lemma_exp_of_push(pre, (p, e));
            lemma_pf_append(factors@.take(i as int + 1), factors@.skip(i as int + 1));
            assert(factors@.take(i as int + 1) + factors@.skip(i as int + 1) =~= factors@);
            lemma_exp_total_bounds(factors@.skip(i as int + 1));
            lemma_exp_total_bounds(out@);
        }
        let mut k: usize = 0;
        while k < out.len() && out[k].0 < p
            invariant
                k <= out@.len(),
                forall|j: int| 0 <= j < k ==> #[trigger] out@[j].0 < p,
            decreases out@.len() - k,
        {
            k = k + 1;
        }
        let ghost before = out@;
        if k < out.len() && out[k].0 == p {
            let old_e = out[k].1;
            proof {
                assert(old_e <= exp_total(before));
            }
            out.set(k, (p, old_e + e));
            proof {
                lemma_pf_update(before, k as int, (p, (old_e + e) as u32));
                lemma_ipow_add(p as int, old_e as nat, e as nat);
                let a = factor_power((p, old_e));
                number_theory::lemma_ipow_nonneg(p as int, old_e as nat);
                lemma_ipow_ge_pow2(p as int, old_e as nat);
                let b = factor_power((p, e));
                let pn = pf_prod(out@);
                let po = pf_prod(before);
                assert(pn == po * b) by (nonlinear_arith)
                    requires
                        pn * a == po * (a * b),
                        a >= 1,
                ;
                assert forall|q: u64| #[trigger] exp_of(out@, q) == exp_of(factors@.take(i as int + 1), q) by {
                    lemma_exp_of_update(before, k as int, (p, (old_e + e) as u32), q);
                }
                assert forall|j: int| 0 <= j < out@.len() implies #[trigger] out@[j].1 == exp_of(out@, out@[j].0) by {
                    lemma_exp_of_update(before, k as int, (p, (old_e + e) as u32), out@[j].0);
                    if j != k {
                        assert(before[j].0 != p);
                    }
                }
            }
        } else {
            out.insert(k, (p, e));
            proof {
                lemma_pf_insert(before, k as int, (p, e));
                assert(out@ == before.insert(k as int, (p, e)));
                assert forall|q: u64| #[trigger] exp_of(out@, q) == exp_of(factors@.take(i as int + 1), q) by {
                    lemma_exp_of_insert(before, k as int, (p, e), q);
                }
                assert forall|j: int| 0 <= j < out@.len() implies #[trigger] out@[j].1 == exp_of(out@, out@[j].0) by {
                    lemma_exp_of_insert(before, k as int, (p, e), out@[j].0);
                    if j < k {
                        assert(out@[j] == before[j]);
                        assert(before[j].0 != p);
                    } else if j > k {
                        assert(out@[j] == before[j - 1]);
                        assert(before[j - 1].0 != p);
                    } else {
                        if exp_of(before, p) != 0 {
                            lemma_exp_of_nonzero(before, p);
                        }
                    }
                }
            }
        }
        i = i + 1;
    }
    proof {
        assert(factors@.take(factors@.len() as int) =~= factors@);
        assert forall|j: int| 0 <= j < out@.len() implies #[trigger] out@[j].1 == exp_of(factors@, out@[j].0) by {
            assert(exp_of(out@, out@[j].0) == exp_of(factors@, out@[j].0));
        }
    }
    out
}

/// A base with a nonzero total exponent occurs in the list.
proof fn lemma_exp_of_nonzero(s: Seq<(u64, u32)>, p: u64)
    requires
        exp_of(s, p) != 0,
    ensures
        exists|j: int| 0 <= j < s.len() && #[trigger] s[j].0 == p,
    decreases s.len(),
{
    if s.last().0 != p {
        lemma_exp_of_nonzero(s.drop_last(), p);
        let j = choose|j: int| 0 <= j < s.drop_last().len() && #[trigger] s.drop_last()[j].0 == p;
        assert(s[j].0 == p);
    } else {
        assert(s[s.len() - 1].0 == p);
    }
}

/// One step `x ↦ x² + 1 (mod n)` of Pollard's iteration.
fn rho_next(x: u64, n: u64) -> (r: u64)
    requires
        n >= 2,
    ensures
        r < n,
        r == ((x as int) * (x as int) + 1) % (n as int),
{
    assert((x as int) * (x as int) <= 0xffff_ffff_ffff_ffffint * 0xffff_ffff_ffff_ffffint) by (nonlinear_arith)
        requires
            x <= 0xffff_ffff_ffff_ffff,
    ;
    (((x as u128) * (x as u128) + 1) % (n as u128)) as u64
}

/// Pollard's rho with `x ↦ x² + 1`: on a factor `d` of `n`, both parts are factored the
/// same way (a part that resists is kept whole) and the pairs merged; `None` when no
/// factor turns up within 100 000 steps.
fn try_pollard_rho(n: u64) -> (r: Option<Vec<(u64, u32)>>)
    ensures
        n <= 1 ==> r is Some && r->0@.len() == 0,
        n >= 2 ==> match r {
            Some(v) => pf_prod(v@) == n && strictly_sorted(v@) && proper_factors(v@),
            None => true,
        },
    decreases n,
{
    if n <= 1 {
        return Some(Vec::new());
    }
    let mut x: u64 = 2;
    let mut y: u64 = 2;
    let mut iter: usize = 0;
    while iter < 100_000
        invariant
            n >= 2,
        decreases 100_000 - iter,
    {
        x = rho_next(x, n);
        let y1 = rho_next(y, n);
        y = rho_next(y1, n);
        let diff = if x > y { x - y } else { y - x };
        let d = gcd(diff, n);
        proof {
            arith::lemma_gcd_comm(diff as nat, n as nat);
            arith::lemma_gcd_divides(n as nat, diff as nat);
        }
        if d != 1 && d != n {
            proof {
                assert(d > 0);
                assert(n % d == 0);
                lemma_fundamental_div_mod(n as int, d as int);
                assert(n == d * (n / d));
                assert(d <= n) by (nonlinear_arith)
                    requires
                        n == d * (n / d),
                        d > 0,
                        n > 0,
                ;
                assert(2 <= n / d < n) by (nonlinear_arith)
                    requires
                        n == d * (n / d),
                        1 < d < n,
                ;
            }
            let mut result: Vec<(u64, u32)> = Vec::new();
            let m = n / d;
            match try_pollard_rho(d) {
                Some(f1) => {
                    let mut f1 = f1;
                    result.append(&mut f1);
                },
                None => {
                    result.push((d, 1));
                },
            }
            proof {
                assert(pf_prod(result@) == d) by {
                    if result@.len() == 1 && result@[0] == (d, 1u32) {
                        assert(result@ =~= Seq::<(u64, u32)>::empty().push((d, 1u32)));
                        lemma_pf_push(Seq::empty(), (d, 1u32));
                        assert(number_theory::ipow(d as int, 0) == 1);
                        assert(number_theory::ipow(d as int, 1) == (d as int) * number_theory::ipow(d as int, 0));
                    }
                }
            }
            let ghost first = result@;
            let mut second: Vec<(u64, u32)> = Vec::new();
            match try_pollard_rho(m) {
                Some(f2) => {
                    second = f2;
                },
                None => {
                    second.push((m, 1));
                },
            }
            proof {
                assert(pf_prod(second@) == m) by {
                    if second@.len() == 1 && second@[0] == (m, 1u32) {
                        assert(second@ =~= Seq::<(u64, u32)>::empty().push((m, 1u32)));
                        lemma_pf_push(Seq::empty(), (m, 1u32));
                        assert(number_theory::ipow(m as int, 0) == 1);
                        assert(number_theory::ipow(m as int, 1) == (m as int) * number_theory::ipow(m as int, 0));
                    }
                }
            }
            let ghost sec = second@;
            result.append(&mut second);
            proof {
                lemma_pf_append(first, sec);
                assert(result@ == first + sec);
                assert(pf_prod(result@) == n);
                assert(proper_factors(result@)) by {
                    assert forall|i: int| 0 <= i < result@.len() implies #[trigger] result@[i].0 >= 2
                        && result@[i].1 >= 1 by {
                        if i < first.len() {
                            assert(result@[i] == first[i]);
                        } else {
                            assert(result@[i] == sec[i - first.len()]);
                        }
                    }
                }
                assert(forall|i: int| 0 <= i < result@.len() ==> #[trigger] result@[i].0 >= 2);
                lemma_exp_total_small(result@);
            }
            return Some(merge_factors(result));
        }
        if d == n {
            break;
        }
        iter = iter + 1;
    }
    None
}

/// Factorization as `(base, exponent)` pairs with increasing bases whose product is `n`:
/// trial division below 10⁶ (all bases prime), else trial division to 10⁶ and Pollard's
/// rho on a large leftover, merged.
pub fn factor(n: u64) -> (r: Vec<(u64, u32)>)
    ensures
        n <= 1 ==> r@.len() == 0,
        n >= 2 ==> pf_prod(r@) == n,
        strictly_sorted(r@),
        proper_factors(r@),
        n < 1_000_000 ==> prime_bases(r@),
{
    if n <= 1 {
        return Vec::new();
    }
    if n < 1_000_000 {
        return trial_division(n, None);
    }
    let mut factors = trial_division(n, Some(1_000_000));
    let len = factors.len();
    if len > 0 {
        let (last_factor, exp) = factors[len - 1];
        if last_factor > 1_000_000 && exp == 1 {
            let ghost before = factors@;
            factors.pop();
            proof {
                assert(before =~= factors@.push((last_factor, exp)));
                lemma_pf_push(factors@, (last_factor, exp));
                assert(number_theory::ipow(last_factor as int, 0) == 1);
                assert(number_theory::ipow(last_factor as int, 1)
                    == (last_factor as int) * number_theory::ipow(last_factor as int, 0));
            }
            let ghost rest = factors@;
            match try_pollard_rho(last_factor) {
                Some(sub) => {
                    let mut sub = sub;
                    let ghost subv = sub@;
                    factors.append(&mut sub);
                    proof {
                        lemma_pf_append(rest, subv);
                        assert(factors@ == rest + subv);
                        assert forall|i: int| 0 <= i < factors@.len() implies #[trigger] factors@[i].0 >= 2
                            && factors@[i].1 >= 1 by {
                            if i < rest.len() {
                                assert(factors@[i] == rest[i]);
                            } else {
                                assert(factors@[i] == subv[i - rest.len()]);
                            }
                        }
                    }
                },
                None => {
                    factors.push((last_factor, 1));
                    proof {
                        lemma_pf_push(rest, (last_factor, 1u32));
                    }
                },
            }
        }
    }
    proof {
        lemma_exp_total_small(factors@);
    }
    merge_factors(factors)
}

} // verus!
