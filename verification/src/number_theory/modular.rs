use vstd::prelude::*;
use vstd::arithmetic::div_mod::{lemma_mod_bound, lemma_small_mod, lemma_mul_mod_noop_left};
use crate::number_theory;

verus! {

/// Modular exponentiation `base^exp mod modulus` by square-and-multiply.
pub fn mod_pow(base: u64, exp: u64, modulus: u64) -> (r: u64)
    requires
        modulus > 0,
    ensures
        r == number_theory::ipow(base as int, exp as nat) % (modulus as int),
        r < modulus,
{
    if modulus == 1 {
        return 0;
    }
    let mut result: u64 = 1;
    let mut b: u64 = base % modulus;
    let mut e: u64 = exp;
    proof {
        number_theory::lemma_ipow_mod(base as int, exp as nat, modulus as int);
        lemma_mul_mod_noop_left(1, number_theory::ipow(b as int, e as nat), modulus as int);
        lemma_small_mod(1, modulus as nat);
    }
    while e > 0
        invariant
            modulus > 1,
            result < modulus,
            b < modulus,
            ((result as int) * number_theory::ipow(b as int, e as nat)) % (modulus as int)
                == number_theory::ipow(base as int, exp as nat) % (modulus as int),
        decreases e,
    {
        assert((e >> 1) == e / 2) by (bit_vector);
        proof {
            number_theory::lemma_pow_step(result as int, b as int, e as nat, modulus as int);
        }
        assert((result as int) * (b as int) < 0x1_0000_0000_0000_0000 * 0x1_0000_0000_0000_0000) by (nonlinear_arith)
            requires
                result < modulus,
                b < modulus,
        ;
        assert((b as int) * (b as int) < 0x1_0000_0000_0000_0000 * 0x1_0000_0000_0000_0000) by (nonlinear_arith)
            requires
                b < modulus,
        ;
        if e % 2 == 1 {
            result = (((result as u128) * (b as u128)) % (modulus as u128)) as u64;
        }
        e = e >> 1;
        b = (((b as u128) * (b as u128)) % (modulus as u128)) as u64;
    }
    proof {
        assert(number_theory::ipow(b as int, 0) == 1);
        lemma_small_mod(result as nat, modulus as nat);
    }
    result
}

/// `a mod p` in `0..p`, as `legendre_symbol` reduces it.
pub open spec fn reduce_mod(a: int, p: int) -> int {
    (number_theory::trunc_rem(a, p) + p) % p
}

/// Euler's criterion as computed: 1 for `p == 2`, 0 when `p` divides `a`, else 1 or −1 when
/// `a^((p−1)/2) ≡ 1` or `−1 (mod p)`, and 0 otherwise.
pub open spec fn legendre_value(a: int, p: int) -> int {
    if p == 2 {
        1
    } else {
        let am = reduce_mod(a, p);
        if am == 0 {
            0
        } else {
            let x = number_theory::ipow(am, ((p - 1) / 2) as nat) % p;
            if x == 1 {
                1
            } else if x == p - 1 {
                -1
            } else {
                0
            }
        }
    }
}

/// Legendre symbol `(a/p)` for an odd prime `p` by Euler's criterion.
pub fn legendre_symbol(a: i64, p: u64) -> (r: i8)
    requires
        1 <= p <= i64::MAX,
        number_theory::trunc_rem(a as int, p as int) + p <= i64::MAX,
    ensures
        r == legendre_value(a as int, p as int),
{
    if p == 2 {
        return 1;
    }
    let pi = p as i64;
    let rm = a % pi;
    assert(rm == number_theory::trunc_rem(a as int, p as int));
    proof {
        if a >= 0 {
            lemma_mod_bound(a as int, p as int);
        } else {
            lemma_mod_bound(-(a as int), p as int);
        }
    }
    let a_mod = ((rm + pi) as u64) % p;
    if a_mod == 0 {
        return 0;
    }
    let result = mod_pow(a_mod, (p - 1) / 2, p);
    if result == 1 {
        1
    } else if result == p - 1 {
        -1
    } else {
        0
    }
}

/// Whether `a` is a quadratic residue modulo `p`, by Euler's criterion.
pub fn is_quadratic_residue(a: i64, p: u64) -> (r: bool)
    requires
        1 <= p <= i64::MAX,
        number_theory::trunc_rem(a as int, p as int) + p <= i64::MAX,
    ensures
        r == (legendre_value(a as int, p as int) == 1),
{
    legendre_symbol(a, p) == 1
}

/// `m` with every factor `d` divided out.
pub open spec fn strip(m: nat, d: nat) -> nat
    decreases m,
{
    if m > 0 && d > 1 && m % d == 0 {
        proof {
            assert(m / d < m) by (nonlinear_arith)
                requires
                    m > 0,
                    d > 1,
            ;
        }
        strip(m / d, d)
    } else {
        m
    }
}

/// The odd-trial part of the totient computation: `r` so far, `m` the unfactored part,
/// `p` the next odd trial divisor. Each prime factor `p` found takes `r / p` off `r`,
/// and a leftover `m > 1` is a last prime factor.
pub open spec fn totient_odd(r: nat, m: nat, p: nat) -> nat
    decreases m, m - p,
{
    if p < 3 || p * p > m {
        if m > 1 { (r - r / m) as nat } else { r }
    } else {
        proof {
            assert(p + 2 <= m) by (nonlinear_arith)
                requires
                    p >= 3,
                    p * p <= m,
            ;
            if m % p == 0 {
                lemma_strip_smaller(m, p);
            }
        }
        if m % p == 0 {
            totient_odd((r - r / p) as nat, strip(m, p), p + 2)
        } else {
            totient_odd(r, m, p + 2)
        }
    }
}

/// Dividing out a factor that divides makes the number smaller.
pub proof fn lemma_strip_smaller(m: nat, d: nat)
    requires
        m > 0,
        d > 1,
        m % d == 0,
    ensures
        strip(m, d) < m,
{
    assert(m / d < m && m / d > 0) by (nonlinear_arith)
        requires
            m > 0,
            d > 1,
            m % d == 0,
    ;
    lemma_strip(m / d, d);
}

/// Euler's totient by the product formula `n * prod (1 - 1/p)` over the prime factors
/// `p` of `n`, each factor applied as `r - r/p` in increasing order of `p`.
pub open spec fn totient(n: nat) -> nat {
    if n == 1 {
        1
    } else if n % 2 == 0 {
        totient_odd(n / 2, strip(n, 2), 3)
    } else {
        totient_odd(n, n, 3)
    }
}

/// Dividing out a factor leaves a positive number no larger.
pub proof fn lemma_strip(m: nat, d: nat)
    requires
        m > 0,
        d > 1,
    ensures
        0 < strip(m, d) <= m,
        strip(m, d) % d != 0,
    decreases m,
{
    if m % d == 0 {
        assert(m / d < m) by (nonlinear_arith)
            requires
                m > 0,
                d > 1,
        ;
        assert(m / d > 0) by (nonlinear_arith)
            requires
                m > 0,
                d > 1,
                m % d == 0,
        ;
        lemma_strip(m / d, d);
    }
}

/// `m` with every factor `d` divided out.
fn strip_factor(m: u64, d: u64) -> (r: u64)
    requires
        m > 0,
        d > 1,
    ensures
        r == strip(m as nat, d as nat),
{
    let mut x = m;
    while x % d == 0
        invariant
            x > 0,
            d > 1,
            strip(x as nat, d as nat) == strip(m as nat, d as nat),
        decreases x,
    {
        assert(x / d < x && x / d > 0) by (nonlinear_arith)
            requires
                x > 0,
                d > 1,
                x % d == 0,
        ;
        x = x / d;
    }
    x
}

/// Euler's totient `phi(n)` (`totient`), for `n >= 1`.
pub fn euler_totient(n: u64) -> (r: u64)
    requires
        n >= 1,
    ensures
        r == totient(n as nat),
{
    if n == 1 {
        return 1;
    }
    let mut result = n;
    let mut m = n;
    if m % 2 == 0 {
        result = result / 2;
        m = strip_factor(m, 2);
    }
    proof {
        lemma_strip(n as nat, 2);
    }
    let mut p: u64 = 3;
    while p <= m / p
        invariant
            3 <= p,
            p % 2 == 1,
            0 < m <= n,
            result <= n,
            totient(n as nat) == totient_odd(result as nat, m as nat, p as nat),
        decreases m, m - p,
    {
        assert(p * p <= m) by (nonlinear_arith)
            requires
                p <= m / p,
                p > 0,
        ;
        assert(p + 2 <= m && p < 0x1_0000_0000) by (nonlinear_arith)
            requires
                p >= 3,
                p * p <= m,
                m <= 0xffff_ffff_ffff_ffff,
        ;
        if m % p == 0 {
            proof {
                lemma_strip(m as nat, p as nat);
                lemma_strip_smaller(m as nat, p as nat);
            }
            result = result - result / p;
            m = strip_factor(m, p);
        }
        p = p + 2;
    }
    assert(p * p > m) by (nonlinear_arith)
        requires
            p > m / p,
            p > 0,
    ;
    if m > 1 {
        result = result - result / m;
    }
    result
}

/// `r` is the integer square root of `n`.
pub open spec fn is_floor_sqrt(n: nat, r: nat) -> bool {
    r * r <= n && n < (r + 1) * (r + 1)
}

/// The largest `r` with `r * r <= n`.
pub open spec fn floor_sqrt(n: nat) -> nat {
    choose|r: nat| #[trigger] is_floor_sqrt(n, r)
}

/// `r` is the largest number whose square is at most `n`.
proof fn lemma_floor_sqrt(n: nat, r: nat)
    requires
        r * r <= n,
        n < (r + 1) * (r + 1),
    ensures
        floor_sqrt(n) == r,
{
    assert(is_floor_sqrt(n, r));
    let s = floor_sqrt(n);
    assert(is_floor_sqrt(n, s));
    if s < r {
        assert((s + 1) * (s + 1) <= r * r) by (nonlinear_arith)
            requires
                s < r,
        ;
    }
    if r < s {
        assert((r + 1) * (r + 1) <= s * s) by (nonlinear_arith)
            requires
                r < s,
        ;
    }
}

/// Trial division of `t` by `d, d + 1, ..., limit`: each divisor met is recorded and
/// divided out; the loop stops once `t` is 1, and a leftover `t > 1` is recorded last.
pub open spec fn trial_factors(t: nat, d: nat, limit: nat, acc: Seq<nat>) -> Seq<nat>
    decreases limit + 1 - d,
{
    if d > limit || t == 1 || d < 2 || t == 0 {
        if t > 1 { acc.push(t) } else { acc }
    } else if t % d == 0 {
        trial_factors(strip(t, d), d + 1, limit, acc.push(d))
    } else {
        trial_factors(t, d + 1, limit, acc)
    }
}

/// The prime factors of `p - 1` by trial division up to `floor_sqrt(p - 1) + 1`.
pub open spec fn phi_factors(p: nat) -> Seq<nat> {
    trial_factors((p - 1) as nat, 2, floor_sqrt((p - 1) as nat) + 1, Seq::empty())
}

/// `g` is a primitive-root candidate mod `p`: `g^((p - 1)/q) mod p != 1` for each `q` of
/// `fs`.
pub open spec fn root_candidate(g: nat, p: nat, fs: Seq<nat>) -> bool {
    forall|i: int| 0 <= i < fs.len() ==> #[trigger] (number_theory::ipow(g as int, ((p - 1) as nat / fs[i]) as nat) % (p as int)) != 1
}

/// Nonnegative integers as naturals.
pub open spec fn nat_seq(v: Seq<u64>) -> Seq<nat> {
    v.map_values(|x: u64| x as nat)
}

/// Trial division records only numbers of at least 2.
proof fn lemma_trial_factors_ge2(t: nat, d: nat, limit: nat, acc: Seq<nat>)
    requires
        forall|i: int| 0 <= i < acc.len() ==> acc[i] >= 2,
    ensures
        forall|i: int| 0 <= i < trial_factors(t, d, limit, acc).len() ==> trial_factors(t, d, limit, acc)[i] >= 2,
    decreases limit + 1 - d,
{
    if d > limit || t == 1 || d < 2 || t == 0 {
        assert(trial_factors(t, d, limit, acc) == (if t > 1 { acc.push(t) } else { acc }));
        if t > 1 {
            assert forall|i: int| 0 <= i < acc.push(t).len() implies acc.push(t)[i] >= 2 by {
                if i < acc.len() {
                    assert(acc.push(t)[i] == acc[i]);
                }
            }
        }
    } else if t % d == 0 {
        assert forall|i: int| 0 <= i < acc.push(d).len() implies acc.push(d)[i] >= 2 by {
            if i < acc.len() {
                assert(acc.push(d)[i] == acc[i]);
            }
        }
        lemma_trial_factors_ge2(strip(t, d), d + 1, limit, acc.push(d));
        assert(trial_factors(t, d, limit, acc) == trial_factors(strip(t, d), d + 1, limit, acc.push(d)));
    } else {
        lemma_trial_factors_ge2(t, d + 1, limit, acc);
        assert(trial_factors(t, d, limit, acc) == trial_factors(t, d + 1, limit, acc));
    }
}

/// The least primitive-root candidate mod a prime `p` (`root_candidate` for
/// `phi_factors(p)`) among `2..p`; `None` when there is none, and when `p` is not prime
/// (by the primality test).
pub fn primitive_root(p: u64) -> (r: Option<u64>)
    ensures
        !number_theory::is_prime_u64_spec(p as int) ==> r is None,
        number_theory::is_prime_u64_spec(p as int) ==> match r {
            Some(g) => 2 <= g < p && root_candidate(g as nat, p as nat, phi_factors(p as nat)) && forall|h: nat|
                2 <= h < g ==> !#[trigger] root_candidate(h, p as nat, phi_factors(p as nat)),
            None => forall|h: nat| 2 <= h < p ==> !#[trigger] root_candidate(h, p as nat, phi_factors(p as nat)),
        },
{
    if p < 2 || !number_theory::is_prime_u64(p) {
        return None;
    }
    let phi = p - 1;
    let sq = number_theory::isqrt_u64(phi);
    proof {
        lemma_floor_sqrt(phi as nat, sq as nat);
    }
    let limit = sq + 1;
    let mut factors: Vec<u64> = Vec::new();
    let mut temp = phi;
    let mut d: u64 = 2;
    proof {
        assert(nat_seq(factors@) =~= Seq::<nat>::empty());
    }
    while d <= limit && temp != 1
        invariant
            number_theory::is_prime_u64_spec(p as int),
            limit == floor_sqrt(phi as nat) + 1,
            limit <= 0x1_0000_0000,
            2 <= d <= limit + 1,
            temp <= phi,
            (temp == 0) == (phi == 0),
            phi_factors(p as nat) == trial_factors(temp as nat, d as nat, limit as nat, nat_seq(factors@)),
            phi == p - 1,
        decreases limit + 1 - d,
    {
        if temp % d == 0 && temp != 0 {
            let ghost before = factors@;
            factors.push(d);
            proof {
                assert(nat_seq(factors@) =~= nat_seq(before).push(d as nat));
                lemma_strip(temp as nat, d as nat);
            }
            temp = strip_factor(temp, d);
        } else if temp == 0 {
            proof {
                assert(phi == 0);
            }
        }
        d = d + 1;
    }
    if temp > 1 {
        let ghost before = factors@;
        factors.push(temp);
        proof {
            assert(nat_seq(factors@) =~= nat_seq(before).push(temp as nat));
        }
    }
    let ghost fs = phi_factors(p as nat);
    assert(nat_seq(factors@) == fs);
    proof {
        lemma_trial_factors_ge2((p - 1) as nat, 2, floor_sqrt((p - 1) as nat) + 1, Seq::empty());
    }
    let mut g: u64 = 2;
    while g < p
        invariant
            number_theory::is_prime_u64_spec(p as int),
            2 <= g <= p,
            phi == p - 1,
            nat_seq(factors@) == fs,
            fs == phi_factors(p as nat),
            forall|i: int| 0 <= i < fs.len() ==> fs[i] >= 2,
            forall|h: nat| 2 <= h < g ==> !#[trigger] root_candidate(h, p as nat, fs),
        decreases p - g,
    {
        let mut k: usize = 0;
        let mut ok = true;
        while ok && k < factors.len()
            invariant
                number_theory::is_prime_u64_spec(p as int),
                k <= factors@.len(),
                2 <= g < p,
                phi == p - 1,
                nat_seq(factors@) == fs,
                forall|i: int| 0 <= i < fs.len() ==> fs[i] >= 2,
                forall|i: int| 0 <= i < k ==> #[trigger] (number_theory::ipow(g as int, ((p - 1) as nat / fs[i]) as nat) % (p as int)) != 1,
                !ok ==> k < fs.len() && (number_theory::ipow(g as int, ((p - 1) as nat / fs[k as int]) as nat) % (p as int)) == 1,
            decreases factors@.len() - k, if ok { 1int } else { 0int },
        {
            let q = factors[k];
            proof {
                assert(fs[k as int] == q as nat);
            }
            if mod_pow(g, phi / q, p) == 1 {
                ok = false;
            } else {
                k = k + 1;
            }
        }
        if ok {
            return Some(g);
        }
        g = g + 1;
    }
    None
}

/// The least `j` in `j0..m` with `base^j mod modulus == target`.
pub open spec fn first_power(base: nat, target: nat, modulus: nat, j0: nat, m: nat) -> Option<nat>
    decreases m - j0,
{
    if j0 >= m {
        None
    } else if number_theory::ipow(base as int, j0) % (modulus as int) == target {
        Some(j0)
    } else {
        first_power(base, target, modulus, j0 + 1, m)
    }
}

/// The greatest `j < k` with `base^j mod modulus == g`.
pub open spec fn last_power(base: nat, g: nat, modulus: nat, k: nat) -> Option<nat>
    decreases k,
{
    if k == 0 {
        None
    } else if number_theory::ipow(base as int, (k - 1) as nat) % (modulus as int) == g {
        Some((k - 1) as nat)
    } else {
        last_power(base, g, modulus, (k - 1) as nat)
    }
}

/// The giant steps from `i`: `g` is `target * inv^i` (reduced after the first step); the
/// first `g` met among the baby steps `base^j` (`j < m`) gives `i * m + j`.
pub open spec fn giant_steps(base: nat, modulus: nat, m: nat, inv: nat, i: nat, g: nat) -> Option<nat>
    decreases m - i,
{
    if i >= m {
        None
    } else {
        match last_power(base, g, modulus, m) {
            Some(j) => Some(i * m + j),
            None => giant_steps(base, modulus, m, inv, i + 1, (g * inv) % modulus),
        }
    }
}

/// `r` is the least integer whose square is at least `n`.
pub open spec fn is_ceil_sqrt(n: nat, r: nat) -> bool {
    r * r >= n && (r == 0 || (r - 1) * (r - 1) < n)
}

/// The least `r` whose square is at least `n`.
pub open spec fn ceil_sqrt(n: nat) -> nat {
    choose|r: nat| #[trigger] is_ceil_sqrt(n, r)
}

/// `r` is the least number whose square is at least `n`.
proof fn lemma_ceil_sqrt(n: nat, r: nat)
    requires
        is_ceil_sqrt(n, r),
    ensures
        ceil_sqrt(n) == r,
{
    let s = ceil_sqrt(n);
    assert(is_ceil_sqrt(n, s));
    if s < r {
        assert(s * s <= (r - 1) * (r - 1)) by (nonlinear_arith)
            requires
                s < r,
        ;
    }
    if r < s {
        assert(r * r <= (s - 1) * (s - 1)) by (nonlinear_arith)
            requires
                r < s,
        ;
    }
}

/// Baby-step giant-step search for `x` with `base^x == target (mod modulus)`: with
/// `m = ceil(sqrt(modulus)) + 1`, the least `j < m` with `base^j mod modulus == target`;
/// else giant steps by `inv = (base^m mod modulus)^(modulus - 2) mod modulus` (the
/// inverse of `base^m` when `modulus` is prime); `Some(0)` for `modulus <= 1`.
pub open spec fn dlog(base: nat, target: nat, modulus: nat, m: nat) -> Option<nat> {
    if modulus <= 1 {
        Some(0)
    } else {
        match first_power(base, target, modulus, 0, m) {
            Some(j) => Some(j),
            None => {
                let bm = number_theory::ipow(base as int, m) % (modulus as int);
                let inv = number_theory::ipow(bm, (modulus - 2) as nat) % (modulus as int);
                giant_steps(base, modulus, m, inv as nat, 0, target)
            },
        }
    }
}

/// One more factor of `base` on a reduced power.
proof fn lemma_power_step(base: nat, j: nat, modulus: nat)
    requires
        modulus > 0,
    ensures
        ((number_theory::ipow(base as int, j) % (modulus as int)) * base) % (modulus as int)
            == number_theory::ipow(base as int, j + 1) % (modulus as int),
{
    vstd::arithmetic::div_mod::lemma_mul_mod_noop_left(number_theory::ipow(base as int, j), base as int, modulus as int);
    assert(number_theory::ipow(base as int, j + 1) == base * number_theory::ipow(base as int, j));
    vstd::arithmetic::mul::lemma_mul_is_commutative(base as int, number_theory::ipow(base as int, j));
}

/// A search that finds nothing meets no match.
proof fn lemma_first_power_none(base: nat, target: nat, modulus: nat, j: nat, m: nat)
    requires
        first_power(base, target, modulus, j, m) is None,
    ensures
        forall|t: nat| j <= t < m ==> #[trigger] (number_theory::ipow(base as int, t) % (modulus as int)) != target,
    decreases m - j,
{
    if j < m {
        lemma_first_power_none(base, target, modulus, j + 1, m);
    }
}

/// Baby-step giant-step discrete logarithm (`dlog`), for `modulus` up to `2^62`. A
/// returned `x` satisfies `base^x ≡ target (mod modulus)` whenever the giant-step factor
/// inverts `base^m` (`fermat_inverts`, which holds for a prime modulus not dividing
/// `base`).
pub fn discrete_log(base: u64, target: u64, modulus: u64) -> (r: Option<u64>)
    requires
        modulus > 0 || target == 1,
        modulus <= 0x4000_0000_0000_0000,
    ensures
        match (dlog(base as nat, target as nat, modulus as nat, ceil_sqrt(modulus as nat) + 1), r) {
            (None, None) => true,
            (Some(x), Some(y)) => x == y as nat,
            _ => false,
        },
        r matches Some(x) ==> (modulus >= 2 && (x as int) * (x as int) < modulus ==> number_theory::ipow(base as int, x as nat) % (modulus as int) == target),
        r matches Some(x) ==> (modulus >= 2 && fermat_inverts(base as nat, modulus as nat, ceil_sqrt(modulus as nat) + 1)
            ==> number_theory::ipow(base as int, x as nat) % (modulus as int) == (target as int) % (modulus as int)),
{
    let r = baby_giant(base, target, modulus);
    proof {
        if let Some(x) = r {
            if modulus >= 2 && fermat_inverts(base as nat, modulus as nat, ceil_sqrt(modulus as nat) + 1) {
                lemma_dlog_correct(base as nat, target as nat, modulus as nat, ceil_sqrt(modulus as nat) + 1, x as nat);
            }
        }
    }
    r
}

/// The search of `discrete_log` (`dlog`).
#[verifier::spinoff_prover]
fn baby_giant(base: u64, target: u64, modulus: u64) -> (r: Option<u64>)
    requires
        modulus > 0 || target == 1,
        modulus <= 0x4000_0000_0000_0000,
    ensures
        match (dlog(base as nat, target as nat, modulus as nat, ceil_sqrt(modulus as nat) + 1), r) {
            (None, None) => true,
            (Some(x), Some(y)) => x == y as nat,
            _ => false,
        },
        r matches Some(x) ==> (modulus >= 2 && (x as int) * (x as int) < modulus ==> number_theory::ipow(base as int, x as nat) % (modulus as int) == target),
{
    if modulus <= 1 {
        return Some(0);
    }
    let s = number_theory::isqrt_u64(modulus);
    let c: u64 = if s * s == modulus { s } else { s + 1 };
    let m: u64 = c + 1;
    proof {
        assert(is_ceil_sqrt(modulus as nat, c as nat)) by (nonlinear_arith)
            requires
                (s as int) * (s as int) <= modulus,
                modulus < (s as int + 1) * (s as int + 1),
                (s as int) * (s as int) == modulus ==> c == s,
                (s as int) * (s as int) != modulus ==> c == s + 1,
        ;
        assert(c <= 0x8000_0001) by (nonlinear_arith)
            requires
                (s as int) * (s as int) <= modulus,
                modulus <= 0x4000_0000_0000_0000,
                c <= s + 1,
        ;
    }
    proof {
        lemma_ceil_sqrt(modulus as nat, c as nat);
    }
    let ghost mm = m as nat;
    // Baby steps: base^j mod modulus for j < m, in order.
    let mut table: Vec<u64> = Vec::new();
    let mut gamma: u64 = 1;
    let mut j: u64 = 0;
    proof {
        vstd::arithmetic::div_mod::lemma_small_mod(1, modulus as nat);
    }
    while j < m
        invariant
            2 <= modulus <= 0x4000_0000_0000_0000,
            m == mm,
            j <= m,
            table@.len() == j,
            gamma as int == number_theory::ipow(base as int, j as nat) % (modulus as int),
            forall|t: int| 0 <= t < j ==> #[trigger] table@[t] as int == number_theory::ipow(base as int, t as nat) % (modulus as int),
            first_power(base as nat, target as nat, modulus as nat, 0, mm) == first_power(base as nat, target as nat, modulus as nat, j as nat, mm),
            mm == ceil_sqrt(modulus as nat) + 1,
        decreases m - j,
    {
        if gamma == target {
            return Some(j);
        }
        table.push(gamma);
        proof {
            lemma_power_step(base as nat, j as nat, modulus as nat);
            assert((gamma as int) * (base as int) < 0x1_0000_0000_0000_0000 * 0x1_0000_0000_0000_0000) by (nonlinear_arith)
                requires
                    gamma < 0x1_0000_0000_0000_0000,
                    base < 0x1_0000_0000_0000_0000,
            ;
        }
        gamma = (((gamma as u128) * (base as u128)) % (modulus as u128)) as u64;
        j = j + 1;
    }
    proof {
        lemma_first_power_none(base as nat, target as nat, modulus as nat, 0, mm);
    }
    let base_m = mod_pow(base, m, modulus);
    let inv = mod_pow(base_m, modulus - 2, modulus);
    assert(dlog(base as nat, target as nat, modulus as nat, mm) == giant_steps(base as nat, modulus as nat, mm, inv as nat, 0, target as nat));
    let mut g: u64 = target;
    let mut i: u64 = 0;
    while i < m
        invariant
            2 <= modulus <= 0x4000_0000_0000_0000,
            m == mm,
            m <= 0x8000_0002,
            i <= m,
            table@.len() == m,
            forall|t: int| 0 <= t < m ==> #[trigger] table@[t] as int == number_theory::ipow(base as int, t as nat) % (modulus as int),
            i > 0 ==> g < modulus,
            i == 0 ==> g == target,
            mm == ceil_sqrt(modulus as nat) + 1,
            dlog(base as nat, target as nat, modulus as nat, mm) == giant_steps(base as nat, modulus as nat, mm, inv as nat, 0, target as nat),
            forall|t: nat| 0 <= t < m ==> #[trigger] (number_theory::ipow(base as int, t) % (modulus as int)) != target,
            (c as int) * (c as int) >= modulus,
            m == c + 1,
            giant_steps(base as nat, modulus as nat, mm, inv as nat, 0, target as nat) == giant_steps(base as nat, modulus as nat, mm, inv as nat, i as nat, g as nat),
        decreases m - i,
    {
        // The last baby step with this value.
        let mut k: u64 = m;
        while k > 0 && table[(k - 1) as usize] != g
            invariant
                k <= m,
                table@.len() == m,
                forall|t: int| 0 <= t < m ==> #[trigger] table@[t] as int == number_theory::ipow(base as int, t as nat) % (modulus as int),
                last_power(base as nat, g as nat, modulus as nat, mm) == last_power(base as nat, g as nat, modulus as nat, k as nat),
                m == mm,
            decreases k,
        {
            proof {
                assert(table@[(k - 1) as int] as int == number_theory::ipow(base as int, (k - 1) as nat) % (modulus as int));
                assert(last_power(base as nat, g as nat, modulus as nat, k as nat) == last_power(
                    base as nat,
                    g as nat,
                    modulus as nat,
                    (k - 1) as nat,
                ));
            }
            k = k - 1;
        }
        if k > 0 {
            assert(last_power(base as nat, g as nat, modulus as nat, k as nat) == Some((k - 1) as nat));
            proof {
                if i == 0 {
                    let tt = (k - 1) as nat;
                    assert(table@[tt as int] == g);
                    assert((number_theory::ipow(base as int, tt) % (modulus as int)) != target);
                }
                assert((i as int * m as int + (k - 1)) * (i as int * m as int + (k - 1)) >= modulus) by (nonlinear_arith)
                    requires
                        i >= 1,
                        m == c + 1,
                        (c as int) * (c as int) >= modulus,
                ;
            }
            assert((i as int) * (m as int) + (k - 1) < 0x8000_0000_0000_0000) by (nonlinear_arith)
                requires
                    i < m,
                    k <= m,
                    m <= 0x8000_0002,
            ;
            return Some(i * m + (k - 1));
        }
        assert((g as int) * (inv as int) < 0x1_0000_0000_0000_0000 * 0x1_0000_0000_0000_0000) by (nonlinear_arith)
            requires
                g < 0x1_0000_0000_0000_0000,
                inv < 0x1_0000_0000_0000_0000,
        ;
        g = (((g as u128) * (inv as u128)) % (modulus as u128)) as u64;
        i = i + 1;
    }
    None
}

/// One Tonelli-Shanks step keeps `r^2 = n t (mod p)`: with `b` any residue, `r b` and
/// `t b^2` satisfy it again.
proof fn lemma_ts_step(r: int, b: int, t: int, n: int, p: int)
    requires
        p > 0,
        (r * r) % p == (n * t) % p,
    ensures
        (((r * b) % p) * ((r * b) % p)) % p == (n * ((t * ((b * b) % p)) % p)) % p,
{
    vstd::arithmetic::div_mod::lemma_mul_mod_noop(r * b, r * b, p);
    assert((r * b) * (r * b) == (r * r) * (b * b)) by (nonlinear_arith);
    lemma_mul_mod_noop_left(r * r, b * b, p);
    lemma_mul_mod_noop_left(n * t, b * b, p);
    vstd::arithmetic::div_mod::lemma_mul_mod_noop_right(n, t * ((b * b) % p), p);
    assert(n * (t * ((b * b) % p)) == (n * t) * ((b * b) % p)) by (nonlinear_arith);
    vstd::arithmetic::div_mod::lemma_mul_mod_noop_right(n * t, b * b, p);
}

/// The starting values of Tonelli-Shanks satisfy `r^2 = n t (mod p)`: `r = n^((q+1)/2)`,
/// `t = n^q` for odd `q`.
proof fn lemma_ts_start(n: int, q: nat, p: int)
    requires
        p > 0,
        q % 2 == 1,
    ensures
        ((number_theory::ipow(n, ((q + 1) / 2) as nat) % p) * (number_theory::ipow(n, ((q + 1) / 2) as nat) % p)) % p
            == (n * (number_theory::ipow(n, q) % p)) % p,
{
    let h = ((q + 1) / 2) as nat;
    let x = number_theory::ipow(n, h);
    vstd::arithmetic::div_mod::lemma_mul_mod_noop(x, x, p);
    number_theory::factorization::lemma_ipow_add(n, h, h);
    assert(h + h == q + 1);
    assert(number_theory::ipow(n, q + 1) == n * number_theory::ipow(n, q));
    vstd::arithmetic::div_mod::lemma_mul_mod_noop_right(n, number_theory::ipow(n, q), p);
}

/// `2^k` as a natural number.
pub open spec fn two_pow(k: nat) -> nat
    decreases k,
{
    if k == 0 {
        1
    } else {
        2 * two_pow((k - 1) as nat)
    }
}

proof fn lemma_two_pow(a: nat, b: nat)
    ensures
        two_pow(a + b) == two_pow(a) * two_pow(b),
        two_pow(a) >= 1,
        two_pow(a) == number_theory::ipow(2, a),
    decreases a,
{
    if a == 0 {
        assert(two_pow(a) == 1);
        assert(a + b == b);
        assert(two_pow(a + b) == two_pow(a) * two_pow(b));
    } else {
        lemma_two_pow((a - 1) as nat, b);
        assert((a - 1) as nat + b == (a + b - 1) as nat);
        assert(two_pow(a + b) == 2 * two_pow((a + b - 1) as nat));
        assert(two_pow(a) == 2 * two_pow((a - 1) as nat));
        assert(number_theory::ipow(2, a) == 2 * number_theory::ipow(2, (a - 1) as nat));
        assert(2 * (two_pow((a - 1) as nat) * two_pow(b)) == (2 * two_pow((a - 1) as nat)) * two_pow(b)) by (nonlinear_arith);
    }
}

/// `(x^a)^b = x^(ab)`.
proof fn lemma_ipow_mul(x: int, a: nat, b: nat)
    ensures
        number_theory::ipow(number_theory::ipow(x, a), b) == number_theory::ipow(x, a * b),
    decreases b,
{
    if b == 0 {
        assert(a * b == 0) by (nonlinear_arith)
            requires
                b == 0,
        ;
    } else {
        lemma_ipow_mul(x, a, (b - 1) as nat);
        number_theory::factorization::lemma_ipow_add(x, a * ((b - 1) as nat), a);
        assert(a * ((b - 1) as nat) + a == a * b) by (nonlinear_arith)
            requires
                b > 0,
        ;
        let u = number_theory::ipow(x, a);
        let v = number_theory::ipow(x, a * ((b - 1) as nat));
        assert(number_theory::ipow(u, b) == u * number_theory::ipow(u, (b - 1) as nat));
        assert(u * v == v * u) by (nonlinear_arith);
        assert(number_theory::ipow(x, a * ((b - 1) as nat) + a) == number_theory::ipow(x, a * b));
    }
}

/// `(xy)^e = x^e y^e`.
proof fn lemma_ipow_prod(x: int, y: int, e: nat)
    ensures
        number_theory::ipow(x * y, e) == number_theory::ipow(x, e) * number_theory::ipow(y, e),
    decreases e,
{
    if e > 0 {
        lemma_ipow_prod(x, y, (e - 1) as nat);
        let u = number_theory::ipow(x, (e - 1) as nat);
        let v = number_theory::ipow(y, (e - 1) as nat);
        assert((x * y) * (u * v) == (x * u) * (y * v)) by (nonlinear_arith);
    }
}

/// `((x^a mod p)^b) mod p = x^(ab) mod p`.
proof fn lemma_pow_pow_mod(x: int, a: nat, b: nat, p: int)
    requires
        p > 0,
    ensures
        number_theory::ipow(number_theory::ipow(x, a) % p, b) % p == number_theory::ipow(x, a * b) % p,
{
    number_theory::lemma_ipow_mod(number_theory::ipow(x, a), b, p);
    lemma_ipow_mul(x, a, b);
}

/// `((xy mod p)^e) mod p = (x^e mod p)(y^e mod p) mod p`.
proof fn lemma_pow_prod_mod(x: int, y: int, e: nat, p: int)
    requires
        p > 0,
    ensures
        number_theory::ipow((x * y) % p, e) % p == ((number_theory::ipow(x, e) % p) * (number_theory::ipow(y, e) % p)) % p,
{
    number_theory::lemma_ipow_mod(x * y, e, p);
    lemma_ipow_prod(x, y, e);
    vstd::arithmetic::div_mod::lemma_mul_mod_noop(number_theory::ipow(x, e), number_theory::ipow(y, e), p);
}

/// Modulo a prime, the only square roots of 1 are 1 and `p - 1`.
proof fn lemma_sqrt_one(x: int, p: int)
    requires
        crate::arith::is_prime_nat(p as nat),
        0 <= x < p,
        (x * x) % p == 1,
    ensures
        x == 1 || x == p - 1,
{
    if x == 0 {
        assert((x * x) % p == 0) by { lemma_small_mod(0, p as nat); }
    }
    if x != 1 && x != p - 1 {
        let a = (x - 1) as nat;
        let pn = p as nat;
        crate::arith::lemma_gcd_divides(pn, a);
        let g = crate::arith::gcd(pn, a);
        assert(g == 1) by {
            if g >= 2 {
                assert(pn % g != 0);
            }
        }
        crate::arith::lemma_bezout(pn, a);
        let (u, v) = crate::arith::bezout(pn, a);
        vstd::arithmetic::div_mod::lemma_fundamental_div_mod(x * x, p);
        let k = (x * x) / p;
        assert((x + 1) == p * (u * (x + 1) + v * k)) by (nonlinear_arith)
            requires
                p * u + a * v == 1,
                x * x == p * k + 1,
                a == x - 1,
        ;
        let w = u * (x + 1) + v * k;
        assert(false) by (nonlinear_arith)
            requires
                x + 1 == p * w,
                0 < x + 1 < p,
        ;
    }
}

/// Powers of `p - 1` modulo `p` alternate between 1 and `p - 1`.
proof fn lemma_minus_one_pow(p: int, k: nat)
    requires
        p > 2,
    ensures
        number_theory::ipow(p - 1, k) % p == (if k % 2 == 0 { 1 } else { p - 1 }),
    decreases k,
{
    if k == 0 {
        lemma_small_mod(1, p as nat);
    } else {
        lemma_minus_one_pow(p, (k - 1) as nat);
        let y = number_theory::ipow(p - 1, (k - 1) as nat);
        vstd::arithmetic::div_mod::lemma_mul_mod_noop_right(p - 1, y, p);
        if (k - 1) % 2 == 0 {
            lemma_small_mod((p - 1) as nat, p as nat);
        } else {
            assert((p - 1) * (p - 1) == p * (p - 2) + 1) by (nonlinear_arith);
            vstd::arithmetic::div_mod::lemma_mod_multiples_vanish(p - 2, 1, p);
            lemma_small_mod(1, p as nat);
        }
    }
}

/// For a prime `p = 3 (mod 4)`, `p - 1` is a quadratic non-residue.
proof fn lemma_minus_one_nonresidue(p: int)
    requires
        p > 2,
        p % 4 == 3,
    ensures
        legendre_value(p - 1, p) == -1,
{
    assert(number_theory::trunc_rem(p - 1, p) == p - 1) by {
        lemma_small_mod((p - 1) as nat, p as nat);
    }
    vstd::arithmetic::div_mod::lemma_mod_multiples_vanish(1, p - 1, p);
    lemma_small_mod((p - 1) as nat, p as nat);
    assert(reduce_mod(p - 1, p) == p - 1);
    lemma_minus_one_pow(p, ((p - 1) / 2) as nat);
    assert(((p - 1) / 2) % 2 == 1);
}

/// `reduce_mod` of a nonnegative number is its remainder.
proof fn lemma_reduce_mod_nonneg(x: int, p: int)
    requires
        x >= 0,
        p > 0,
    ensures
        reduce_mod(x, p) == x % p,
{
    lemma_mod_bound(x, p);
    vstd::arithmetic::div_mod::lemma_mod_add_multiples_vanish(x % p, p);
    lemma_small_mod((x % p) as nat, p as nat);
}

/// The Tonelli-Shanks start: `(x^q mod p)^(2^(s-1)) = x^((p-1)/2) (mod p)` where
/// `p - 1 = q 2^s`.
proof fn lemma_ts_init(x: int, q: nat, s: nat, p: int)
    requires
        p > 2,
        x >= 0,
        s >= 1,
        q * number_theory::ipow(2, s) == p - 1,
    ensures
        number_theory::ipow(number_theory::ipow(x, q) % p, two_pow((s - 1) as nat)) % p
            == number_theory::ipow(x % p, ((p - 1) / 2) as nat) % p,
{
    let e = two_pow((s - 1) as nat);
    lemma_two_pow((s - 1) as nat, 1);
    assert(two_pow(1) == 2) by {
        assert(two_pow(1) == 2 * two_pow(0));
    }
    assert((s - 1) as nat + 1 == s);
    assert(q * e == (p - 1) / 2) by (nonlinear_arith)
        requires
            q * (e * 2) == p - 1,
    ;
    lemma_pow_pow_mod(x, q, e, p);
    number_theory::lemma_ipow_mod(x, ((p - 1) / 2) as nat, p);
}

/// Squaring `t^(2^i) mod p` gives `t^(2^(i+1)) mod p`.
proof fn lemma_square_step(t: int, i: nat, p: int)
    requires
        p > 0,
    ensures
        ((number_theory::ipow(t, two_pow(i)) % p) * (number_theory::ipow(t, two_pow(i)) % p)) % p
            == number_theory::ipow(t, two_pow(i + 1)) % p,
{
    lemma_two_pow(i, 1);
    assert(two_pow(1) == 2) by {
        assert(two_pow(1) == 2 * two_pow(0));
    }
    assert(two_pow(i) * 2 == two_pow(i) + two_pow(i));
    number_theory::factorization::lemma_ipow_add(t, two_pow(i), two_pow(i));
    vstd::arithmetic::div_mod::lemma_mul_mod_noop(
        number_theory::ipow(t, two_pow(i)),
        number_theory::ipow(t, two_pow(i)),
        p,
    );
}

/// `(p - 1)^2 = 1 (mod p)`.
proof fn lemma_minus_one_sq(p: int)
    requires
        p > 2,
    ensures
        ((p - 1) * (p - 1)) % p == 1,
{
    assert((p - 1) * (p - 1) == p * (p - 2) + 1) by (nonlinear_arith);
    vstd::arithmetic::div_mod::lemma_mod_multiples_vanish(p - 2, 1, p);
    lemma_small_mod(1, p as nat);
}

/// `2^k` for `k < 64`.
fn pow_of_two(k: u32) -> (e: u64)
    requires
        k < 64,
    ensures
        e as nat == two_pow(k as nat),
{
    proof {
        lemma_two_pow(k as nat, 0);
        lemma_pow2_bound(k as nat);
    }
    let mut e: u64 = 1;
    let mut j: u32 = 0;
    while j < k
        invariant
            j <= k < 64,
            e as nat == two_pow(j as nat),
            two_pow(k as nat) <= 0x8000_0000_0000_0000,
        decreases k - j,
    {
        proof {
            lemma_two_pow_monotone((j + 1) as nat, k as nat);
            assert(two_pow((j + 1) as nat) == 2 * two_pow(j as nat));
        }
        e = e * 2;
        j = j + 1;
    }
    e
}

/// `2^a <= 2^b` for `a <= b`.
proof fn lemma_two_pow_monotone(a: nat, b: nat)
    requires
        a <= b,
    ensures
        two_pow(a) <= two_pow(b),
    decreases b,
{
    if b > a {
        lemma_two_pow_monotone(a, (b - 1) as nat);
        lemma_two_pow((b - 1) as nat, 0);
    }
}

/// `2^k <= 2^63` for `k < 64`.
proof fn lemma_pow2_bound(k: nat)
    requires
        k < 64,
    ensures
        two_pow(k) <= 0x8000_0000_0000_0000,
{
    lemma_two_pow_monotone(k, 63);
    lemma_two_pow(63, 0);
    assert(number_theory::ipow(2, 63) == 0x8000_0000_0000_0000) by {
        reveal_with_fuel(number_theory::ipow, 64);
    }
}

/// A square root of `n` modulo `p` by Tonelli-Shanks, for `p` up to `2^62`: `n mod 2`
/// for `p = 2`; `None` unless `n` is a quadratic residue (`legendre_value` 1); otherwise
/// the root the iteration reaches. For an odd prime `p`, a residue `n` below `2^63` always
/// gets a root when some number in `2..p` is a non-residue (as `p - 1` is when
/// `p = 3 (mod 4)`). Where `p` is not prime and the iteration breaks down (`n^q`
/// vanishes, no non-residue or no smaller order is found), `None`.
pub fn tonelli_shanks(n: u64, p: u64) -> (r: Option<u64>)
    requires
        1 <= p <= 0x3fff_ffff_ffff_ffff,
    ensures
        p == 2 ==> r == Some(n % 2),
        p != 2 && legendre_value((n as i64) as int, p as int) != 1 ==> r is None,
        r matches Some(x) ==> (p != 2 ==> x < p && ((x as int) * (x as int)) % (p as int) == (n as int) % (p as int)),
        p != 2 && crate::arith::is_prime_nat(p as nat) && n <= 0x7fff_ffff_ffff_ffff && legendre_value(n as int, p as int) == 1
            && (p % 4 == 3 || exists|w: int| 2 <= w < p && legendre_value(w, p as int) == -1) ==> r is Some,
{
    if p == 2 {
        return Some(n % 2);
    }
    if legendre_symbol(n as i64, p) != 1 {
        return None;
    }
    if p < 3 {
        return None;
    }
    let ghost good: bool = crate::arith::is_prime_nat(p as nat) && n <= 0x7fff_ffff_ffff_ffff && (p % 4 == 3
        || exists|w: int| 2 <= w < p && legendre_value(w, p as int) == -1);
    proof {
        if good {
            assert(p % 2 != 0);
            lemma_reduce_mod_nonneg(n as int, p as int);
        }
    }
    let mut q = p - 1;
    let mut s: u32 = 0;
    while q % 2 == 0
        invariant
            1 <= q <= p - 1,
            s <= 64,
            q * number_theory::ipow(2, s as nat) == p - 1,
            s == 0 ==> q == p - 1,
        decreases q,
    {
        proof {
            number_theory::lemma_ipow_nonneg(2, s as nat);
            assert(number_theory::ipow(2, s as nat + 1) == 2 * number_theory::ipow(2, s as nat));
            if s >= 64 {
                lemma_pow2_large(s as nat);
                assert(q * number_theory::ipow(2, s as nat) >= number_theory::ipow(2, s as nat)) by (nonlinear_arith)
                    requires
                        q >= 1,
                        number_theory::ipow(2, s as nat) >= 0,
                ;
            }
            assert((q / 2) * number_theory::ipow(2, s as nat + 1) == q * number_theory::ipow(2, s as nat)) by (nonlinear_arith)
                requires
                    q % 2 == 0,
                    number_theory::ipow(2, s as nat + 1) == 2 * number_theory::ipow(2, s as nat),
            ;
        }
        q = q / 2;
        s = s + 1;
    }
    let mut z: u64 = 2;
    while z < p && legendre_symbol(z as i64, p) != -1
        invariant
            2 <= z <= p,
            p <= 0x3fff_ffff_ffff_ffff,
            forall|w: int| 2 <= w < z ==> legendre_value(w, p as int) != -1,
        decreases p - z,
    {
        z = z + 1;
    }
    if z >= p {
        proof {
            if good {
                if p % 4 == 3 {
                    lemma_minus_one_nonresidue(p as int);
                    assert(legendre_value(p - 1, p as int) != -1);
                } else {
                    let w = choose|w: int| 2 <= w < p && legendre_value(w, p as int) == -1;
                    assert(legendre_value(w, p as int) != -1);
                }
            }
        }
        return None;
    }
    let mut m: u32 = s;
    let mut c = mod_pow(z, q, p);
    let mut t = mod_pow(n, q, p);
    let mut r = mod_pow(n, (q + 1) / 2, p);
    proof {
        lemma_ts_start(n as int, q as nat, p as int);
        if good {
            assert(s >= 1);
            lemma_ts_init(n as int, q as nat, s as nat, p as int);
            lemma_ts_init(z as int, q as nat, s as nat, p as int);
            lemma_reduce_mod_nonneg(z as int, p as int);
            lemma_small_mod(z as nat, p as nat);
        }
    }
    loop
        invariant
            3 <= p <= 0x3fff_ffff_ffff_ffff,
            m <= 64,
            t < p,
            r < p,
            c < p,
            ((r as int) * (r as int)) % (p as int) == ((n as int) * (t as int)) % (p as int),
            legendre_value((n as i64) as int, p as int) == 1,
            good == (crate::arith::is_prime_nat(p as nat) && n <= 0x7fff_ffff_ffff_ffff && (p % 4 == 3 || exists|w: int|
                2 <= w < p && legendre_value(w, p as int) == -1)),
            good ==> m >= 1,
            good ==> number_theory::ipow(t as int, two_pow((m - 1) as nat)) % (p as int) == 1,
            good ==> number_theory::ipow(c as int, two_pow((m - 1) as nat)) % (p as int) == p - 1,
        decreases m,
    {
        if t == 0 {
            proof {
                if good {
                    let e = two_pow((m - 1) as nat);
                    lemma_two_pow((m - 1) as nat, 0);
                    assert(number_theory::ipow(0, e) == 0 * number_theory::ipow(0, (e - 1) as nat));
                    assert(number_theory::ipow(0, e) == 0);
                    lemma_small_mod(0, p as nat);
                    assert(number_theory::ipow(t as int, e) % (p as int) == 0);
                    assert(false);
                }
            }
            return None;
        }
        if t == 1 {
            return Some(r);
        }
        proof {
            if good && m == 1 {
                assert(two_pow(0) == 1);
                assert(number_theory::ipow(t as int, 1) == t * number_theory::ipow(t as int, 0));
                lemma_small_mod(t as nat, p as nat);
            }
        }
        let mut i: u32 = 1;
        proof {
            lemma_small_product(t, p);
            lemma_square_step(t as int, 0, p as int);
            assert(two_pow(0) == 1);
            assert(number_theory::ipow(t as int, 1) == t * number_theory::ipow(t as int, 0));
            lemma_small_mod(t as nat, p as nat);
        }
        let mut temp: u64 = (((t as u128) * (t as u128)) % (p as u128)) as u64;
        while temp != 1 && i < m
            invariant
                temp < p,
                t < p,
                1 <= i,
                3 <= p <= 0x3fff_ffff_ffff_ffff,
                m <= 64,
                temp as int == number_theory::ipow(t as int, two_pow(i as nat)) % (p as int),
                number_theory::ipow(t as int, two_pow((i - 1) as nat)) % (p as int) != 1,
                good ==> m >= 2 && i <= m - 1,
                good ==> number_theory::ipow(t as int, two_pow((m - 1) as nat)) % (p as int) == 1,
            decreases m - i,
        {
            proof {
                lemma_small_product(temp, p);
                lemma_square_step(t as int, i as nat, p as int);
            }
            temp = (((temp as u128) * (temp as u128)) % (p as u128)) as u64;
            i = i + 1;
        }
        if i >= m {
            assert(!good);
            return None;
        }
        let ghost x = number_theory::ipow(t as int, two_pow((i - 1) as nat)) % (p as int);
        proof {
            if good {
                lemma_mod_bound(number_theory::ipow(t as int, two_pow((i - 1) as nat)), p as int);
                lemma_square_step(t as int, (i - 1) as nat, p as int);
                assert((i - 1) as nat + 1 == i as nat);
                lemma_sqrt_one(x, p as int);
            }
        }
        let shift: u32 = m - i - 1;
        let e: u64 = pow_of_two(shift);
        let b = mod_pow(c, e, p);
        proof {
            lemma_ts_step(r as int, b as int, t as int, n as int, p as int);
            lemma_small_product(b, p);
            lemma_small_product(r, p);
            lemma_small_product(t, p);
        }
        let ghost old_c = c;
        let ghost old_t = t;
        let ghost old_m = m;
        m = i;
        c = (((b as u128) * (b as u128)) % (p as u128)) as u64;
        t = (((t as u128) * (c as u128)) % (p as u128)) as u64;
        r = (((r as u128) * (b as u128)) % (p as u128)) as u64;
        proof {
            if good {
                let k = (i - 1) as nat;
                lemma_square_step(old_c as int, shift as nat, p as int);
                assert(c as int == number_theory::ipow(old_c as int, two_pow((shift + 1) as nat)) % (p as int));
                lemma_pow_pow_mod(old_c as int, two_pow((shift + 1) as nat), two_pow(k), p as int);
                lemma_two_pow((shift + 1) as nat, k);
                assert((shift + 1) as nat + k == (old_m - 1) as nat);
                assert(number_theory::ipow(c as int, two_pow(k)) % (p as int) == p - 1);
                lemma_pow_prod_mod(old_t as int, c as int, two_pow(k), p as int);
                assert(x == p - 1);
                lemma_minus_one_sq(p as int);
            }
        }
    }
}

/// Products of residues below `2^62` fit in `u128`.
proof fn lemma_small_product(x: u64, p: u64)
    requires
        x < p,
        p <= 0x3fff_ffff_ffff_ffff,
    ensures
        (x as int) * (x as int) < 0x1_0000_0000_0000_0000_0000_0000_0000_0000,
        forall|y: u64| y < p ==> #[trigger] ((x as int) * (y as int)) < 0x1_0000_0000_0000_0000_0000_0000_0000_0000,
{
    assert((x as int) * (x as int) < 0x1_0000_0000_0000_0000_0000_0000_0000_0000) by (nonlinear_arith)
        requires
            x < 0x4000_0000_0000_0000,
    ;
    assert forall|y: u64| y < p implies #[trigger] ((x as int) * (y as int)) < 0x1_0000_0000_0000_0000_0000_0000_0000_0000 by {
        assert((x as int) * (y as int) < 0x1_0000_0000_0000_0000_0000_0000_0000_0000) by (nonlinear_arith)
            requires
                x < 0x4000_0000_0000_0000,
                y < 0x4000_0000_0000_0000,
        ;
    }
}

/// `2^s` exceeds every `u64` once `s >= 64`.
proof fn lemma_pow2_large(s: nat)
    requires
        s >= 64,
    ensures
        number_theory::ipow(2, s) > 0xffff_ffff_ffff_ffff,
    decreases s,
{
    if s == 64 {
        assert(number_theory::ipow(2, 64) == 0x1_0000_0000_0000_0000) by {
            reveal_with_fuel(number_theory::ipow, 65);
        }
    } else {
        lemma_pow2_large((s - 1) as nat);
        number_theory::lemma_ipow_nonneg(2, (s - 1) as nat);
    }
}

/// The odd-trial loop leaves a prime `p` untouched until `p` itself is the leftover.
proof fn lemma_totient_odd_prime(p: nat, q: nat)
    requires
        crate::arith::is_prime_nat(p),
        p > 2,
        q >= 3,
    ensures
        totient_odd(p, p, q) == p - 1,
    decreases p - q,
{
    if q * q <= p {
        assert(q + 2 <= p) by (nonlinear_arith)
            requires
                q >= 3,
                q * q <= p,
        ;
        assert(p % q != 0);
        lemma_totient_odd_prime(p, q + 2);
    } else {
        assert(p / p == 1) by (nonlinear_arith)
            requires
                p > 0,
        ;
    }
}

/// Euler's totient of a prime `p` is `p - 1`.
pub proof fn lemma_totient_prime(p: nat)
    requires
        crate::arith::is_prime_nat(p),
    ensures
        totient(p) == p - 1,
{
    if p == 2 {
        assert(strip(2, 2) == 1) by {
            assert(strip(1, 2) == 1);
        }
    } else {
        assert(p % 2 != 0);
        lemma_totient_odd_prime(p, 3);
    }
}

/// The giant-step factor `(b^m mod n)^(n-2) mod n` inverts `b^m` modulo `n` (as Fermat's
/// little theorem gives for a prime `n` not dividing `b`).
pub open spec fn fermat_inverts(base: nat, modulus: nat, m: nat) -> bool {
    let bm = number_theory::ipow(base as int, m) % (modulus as int);
    (bm * (number_theory::ipow(bm, (modulus - 2) as nat) % (modulus as int))) % (modulus as int) == 1
}

proof fn lemma_first_power_some(base: nat, target: nat, modulus: nat, j0: nat, m: nat, x: nat)
    requires
        first_power(base, target, modulus, j0, m) == Some(x),
    ensures
        number_theory::ipow(base as int, x) % (modulus as int) == target,
    decreases m - j0,
{
    if j0 < m && number_theory::ipow(base as int, j0) % (modulus as int) != target {
        lemma_first_power_some(base, target, modulus, j0 + 1, m, x);
    }
}

proof fn lemma_last_power_some(base: nat, g: nat, modulus: nat, k: nat, j: nat)
    requires
        last_power(base, g, modulus, k) == Some(j),
    ensures
        number_theory::ipow(base as int, j) % (modulus as int) == g,
        j < k,
    decreases k,
{
    if k > 0 && number_theory::ipow(base as int, (k - 1) as nat) % (modulus as int) != g {
        lemma_last_power_some(base, g, modulus, (k - 1) as nat, j);
    }
}

/// `1^i = 1`.
proof fn lemma_one_pow(i: nat)
    ensures
        number_theory::ipow(1, i) == 1,
    decreases i,
{
    if i > 0 {
        lemma_one_pow((i - 1) as nat);
    }
}

/// A giant-step hit is a discrete logarithm: from step `i` with `g ≡ target·inv^i`,
/// a found `x` has `base^x ≡ target`, when `inv` inverts `base^m`.
proof fn lemma_giant_steps_correct(base: nat, target: nat, modulus: nat, m: nat, inv: nat, i: nat, g: nat, x: nat)
    requires
        modulus >= 2,
        ((number_theory::ipow(base as int, m) % (modulus as int)) * inv) % (modulus as int) == 1,
        (g as int) % (modulus as int) == (target * number_theory::ipow(inv as int, i)) % (modulus as int),
        giant_steps(base, modulus, m, inv, i, g) == Some(x),
    ensures
        number_theory::ipow(base as int, x) % (modulus as int) == (target as int) % (modulus as int),
    decreases m - i,
{
    let p = modulus as int;
    match last_power(base, g, modulus, m) {
        Some(j) => {
            lemma_last_power_some(base, g, modulus, m, j);
            assert(x == i * m + j);
            let bm = number_theory::ipow(base as int, m);
            let bj = number_theory::ipow(base as int, j);
            let vi = number_theory::ipow(inv as int, i);
            // base^x = (base^m)^i · base^j
            number_theory::factorization::lemma_ipow_add(base as int, i * m, j);
            lemma_ipow_mul(base as int, m, i);
            assert(m * i == i * m) by (nonlinear_arith);
            let bmi = number_theory::ipow(bm, i);
            assert(number_theory::ipow(base as int, x) == bmi * bj);
            // g < modulus, so bj ≡ g = (target·inv^i) mod p
            vstd::arithmetic::div_mod::lemma_mod_bound(bj, p);
            lemma_small_mod(g, modulus);
            assert(bj % p == (target * vi) % p);
            // (bm^i · bj) ≡ bm^i · target · inv^i ≡ target · (bm·inv)^i ≡ target
            vstd::arithmetic::div_mod::lemma_mul_mod_noop_right(bmi, bj, p);
            vstd::arithmetic::div_mod::lemma_mul_mod_noop_right(bmi, target * vi, p);
            assert(bmi * (target * vi) == target * (bmi * vi)) by (nonlinear_arith);
            lemma_ipow_prod(bm, inv as int, i);
            let w = bm * inv;
            assert(bmi * vi == number_theory::ipow(w, i));
            number_theory::lemma_ipow_mod(w, i, p);
            vstd::arithmetic::div_mod::lemma_mul_mod_noop_left(bm, inv as int, p);
            assert(w % p == 1);
            lemma_one_pow(i);
            lemma_small_mod(1, modulus);
            assert(number_theory::ipow(w, i) % p == 1);
            vstd::arithmetic::div_mod::lemma_mul_mod_noop_right(target as int, number_theory::ipow(w, i), p);
            assert((target * number_theory::ipow(w, i)) % p == (target as int * 1) % p);
        },
        None => {
            let g2 = (g * inv) % modulus;
            assert(giant_steps(base, modulus, m, inv, i + 1, g2) == Some(x));
            let vi = number_theory::ipow(inv as int, i);
            // g2 ≡ g·inv ≡ target·inv^i·inv = target·inv^(i+1)
            vstd::arithmetic::div_mod::lemma_mul_mod_noop_left(g as int, inv as int, p);
            vstd::arithmetic::div_mod::lemma_mul_mod_noop_left(target * vi, inv as int, p);
            assert(number_theory::ipow(inv as int, i + 1) == inv * vi);
            assert((target * vi) * inv == target * (inv * vi)) by (nonlinear_arith);
            vstd::arithmetic::div_mod::lemma_mod_twice((g * inv) as int, p);
            lemma_giant_steps_correct(base, target, modulus, m, inv, i + 1, g2, x);
        },
    }
}

/// The discrete logarithm is correct: whenever `dlog` finds `x` (modulus at least 2) and
/// the giant-step factor inverts `base^m` (`fermat_inverts`, as for a prime modulus not
/// dividing `base`), `base^x ≡ target (mod modulus)`, for every `x` it returns.
pub proof fn lemma_dlog_correct(base: nat, target: nat, modulus: nat, m: nat, x: nat)
    requires
        modulus >= 2,
        fermat_inverts(base, modulus, m),
        dlog(base, target, modulus, m) == Some(x),
    ensures
        number_theory::ipow(base as int, x) % (modulus as int) == (target as int) % (modulus as int),
{
    let p = modulus as int;
    match first_power(base, target, modulus, 0, m) {
        Some(j) => {
            lemma_first_power_some(base, target, modulus, 0, m, j);
            vstd::arithmetic::div_mod::lemma_mod_bound(number_theory::ipow(base as int, j), p);
            lemma_small_mod(target, modulus);
        },
        None => {
            let bm = number_theory::ipow(base as int, m) % p;
            let inv = number_theory::ipow(bm, (modulus - 2) as nat) % p;
            vstd::arithmetic::div_mod::lemma_mod_bound(number_theory::ipow(bm, (modulus - 2) as nat), p);
            assert(number_theory::ipow(inv, 0) == 1);
            assert(target * 1 == target);
            lemma_giant_steps_correct(base, target, modulus, m, inv as nat, 0, target, x);
        },
    }
}

} // verus!
