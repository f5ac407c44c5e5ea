use vstd::prelude::*;
use vstd::arithmetic::div_mod::{lemma_fundamental_div_mod, lemma_mod_bound};
use crate::arith;
use crate::number_theory;

verus! {

/// Rust's `%` on signed integers: the sign of the dividend, the magnitude `|a| mod |b|`.
pub open spec fn rem_t(a: int, b: int) -> int {
    if a >= 0 {
        number_theory::iabs(a) % number_theory::iabs(b)
    } else {
        -(number_theory::iabs(a) % number_theory::iabs(b))
    }
}

/// Rust's `/` on signed integers: rounds toward zero.
pub open spec fn div_t(a: int, b: int) -> int {
    if (a >= 0) == (b >= 0) {
        number_theory::iabs(a) / number_theory::iabs(b)
    } else {
        -(number_theory::iabs(a) / number_theory::iabs(b))
    }
}

/// Truncated division splits `a` as `div_t·b + rem_t` with a remainder smaller than `b`.
pub proof fn lemma_trunc_split(a: int, b: int)
    requires
        b != 0,
    ensures
        div_t(a, b) * b + rem_t(a, b) == a,
        number_theory::iabs(rem_t(a, b)) < number_theory::iabs(b),
        number_theory::iabs(rem_t(a, b)) == number_theory::iabs(a) % number_theory::iabs(b),
{
    let aa = number_theory::iabs(a);
    let bb = number_theory::iabs(b);
    lemma_fundamental_div_mod(aa, bb);
    lemma_mod_bound(aa, bb);
    let q = aa / bb;
    let r = aa % bb;
    if a >= 0 && b > 0 {
    } else if a >= 0 && b < 0 {
        assert(-q * b == q * bb) by (nonlinear_arith)
            requires
                bb == -b,
        ;
    } else if a < 0 && b > 0 {
        assert(-q * b == -(q * bb)) by (nonlinear_arith)
            requires
                bb == b,
        ;
    } else {
        assert(q * b == -(q * bb)) by (nonlinear_arith)
            requires
                bb == -b,
        ;
    }
}

proof fn lemma_neg_divisor(x: int, m: int)
    requires
        m < 0,
    ensures
        x % m == x % (-m),
        x / m == -(x / (-m)),
{
    lemma_fundamental_div_mod(x, m);
    assert(0 <= x % m < -m) by (nonlinear_arith)
        requires
            m < 0,
    ;
    assert(x == -(x / m) * (-m) + x % m) by (nonlinear_arith)
        requires
            x == m * (x / m) + x % m,
    ;
    vstd::arithmetic::div_mod::lemma_fundamental_div_mod_converse(x, -m, -(x / m), x % m);
}

/// Rust's truncating `%` and `/` in the sign-and-magnitude form.
proof fn lemma_trunc_agree(a: int, b: int)
    requires
        b != 0,
    ensures
        number_theory::trunc_rem(a, b) == rem_t(a, b),
        number_theory::trunc_div(a, b) == div_t(a, b),
{
    if b < 0 {
        lemma_neg_divisor(a, b);
        lemma_neg_divisor(-a, b);
    }
}

/// The extended Euclidean recursion as the library runs it, on Rust's truncating `/` and `%`.
pub open spec fn ext_gcd_spec(a: int, b: int) -> (int, int, int)
    decreases number_theory::iabs(b),
{
    if b == 0 {
        (a, 1, 0)
    } else {
        proof {
            lemma_trunc_split(a, b);
        }
        let (g, x1, y1) = ext_gcd_spec(b, rem_t(a, b));
        (g, y1, x1 - div_t(a, b) * y1)
    }
}

/// `v` fits in `i64`.
pub open spec fn fits_i64(v: int) -> bool {
    i64::MIN <= v <= i64::MAX
}

/// Every step of the recursion stays within `i64` and avoids `i64::MIN / -1`.
pub open spec fn ext_gcd_fits(a: int, b: int) -> bool
    decreases number_theory::iabs(b),
{
    if b == 0 {
        true
    } else {
        proof {
            lemma_trunc_split(a, b);
        }
        let (g, x1, y1) = ext_gcd_spec(b, rem_t(a, b));
        &&& !(a == i64::MIN && b == -1)
        &&& ext_gcd_fits(b, rem_t(a, b))
        &&& fits_i64(div_t(a, b) * y1)
        &&& fits_i64(x1 - div_t(a, b) * y1)
    }
}

/// The recursion gives a Bezout identity whose left side is `±gcd(|a|, |b|)`.
pub proof fn lemma_ext_gcd_bezout(a: int, b: int)
    ensures
        ({
            let (g, x, y) = ext_gcd_spec(a, b);
            &&& a * x + b * y == g
            &&& number_theory::iabs(g) == arith::gcd(
                number_theory::iabs(a) as nat,
                number_theory::iabs(b) as nat,
            )
        }),
    decreases number_theory::iabs(b),
{
    if b != 0 {
        lemma_trunc_split(a, b);
        let r = rem_t(a, b);
        let q = div_t(a, b);
        lemma_ext_gcd_bezout(b, r);
        let (g, x1, y1) = ext_gcd_spec(b, r);
        assert(a * y1 + b * (x1 - q * y1) == b * x1 + r * y1) by (nonlinear_arith)
            requires
                q * b + r == a,
        ;
    }
}

/// Rust's truncating `a / b`, computed on magnitudes.
fn div_trunc(a: i64, b: i64) -> (q: i64)
    requires
        b != 0,
        !(a == i64::MIN && b == -1),
    ensures
        q == div_t(a as int, b as int),
{
    let aa: i128 = if a < 0 { -(a as i128) } else { a as i128 };
    let bb: i128 = if b < 0 { -(b as i128) } else { b as i128 };
    let qq = aa / bb;
    proof {
        vstd::arithmetic::div_mod::lemma_div_basics(aa as int);
        vstd::arithmetic::div_mod::lemma_div_pos_is_pos(aa as int, bb as int);
        vstd::arithmetic::div_mod::lemma_div_is_ordered_by_denominator(aa as int, 1, bb as int);
        if bb >= 2 {
            vstd::arithmetic::div_mod::lemma_div_is_ordered_by_denominator(aa as int, 2, bb as int);
        }
    }
    if (a >= 0) == (b >= 0) {
        qq as i64
    } else {
        (-qq) as i64
    }
}

/// Extended Euclidean algorithm: `(g, x, y)` with `a·x + b·y == g` and
/// `g == gcd(|a|, |b|)`, the sign of the recursion's result made nonnegative.
pub fn extended_gcd(a: i64, b: i64) -> (r: (i64, i64, i64))
    requires
        ext_gcd_fits(a as int, b as int),
        ext_gcd_signed_fits(a as int, b as int),
    ensures
        (r.0 as int, r.1 as int, r.2 as int) == ext_gcd_norm(a as int, b as int),
        a * r.1 + b * r.2 == r.0,
        r.0 >= 0,
        r.0 as int == arith::gcd(number_theory::iabs(a as int) as nat, number_theory::iabs(b as int) as nat),
{
    let (g, x, y) = ext_gcd_rec(a, b);
    if g < 0 {
        assert(a * (-x) + b * (-y) == -g) by (nonlinear_arith)
            requires
                a * x + b * y == g,
        ;
        (-g, -x, -y)
    } else {
        (g, x, y)
    }
}

/// The result of `ext_gcd_spec` with its sign made nonnegative.
pub open spec fn ext_gcd_norm(a: int, b: int) -> (int, int, int) {
    let (g, x, y) = ext_gcd_spec(a, b);
    if g < 0 { (-g, -x, -y) } else { (g, x, y) }
}

/// Negating a negative result of the recursion stays in `i64` (the gcd `2^63` of
/// `i64::MIN` and 0 does not).
pub open spec fn ext_gcd_signed_fits(a: int, b: int) -> bool {
    let (g, x, y) = ext_gcd_spec(a, b);
    g < 0 ==> (g != i64::MIN && x != i64::MIN && y != i64::MIN)
}

/// The extended Euclidean recursion on truncating `/` and `%`: `a·x + b·y == g`,
/// `|g| == gcd(|a|, |b|)`.
fn ext_gcd_rec(a: i64, b: i64) -> (r: (i64, i64, i64))
    requires
        ext_gcd_fits(a as int, b as int),
    ensures
        (r.0 as int, r.1 as int, r.2 as int) == ext_gcd_spec(a as int, b as int),
        a * r.1 + b * r.2 == r.0,
        number_theory::iabs(r.0 as int) == arith::gcd(
            number_theory::iabs(a as int) as nat,
            number_theory::iabs(b as int) as nat,
        ),
    decreases number_theory::iabs(b as int),
{
    proof {
        lemma_ext_gcd_bezout(a as int, b as int);
    }
    if b == 0 {
        return (a, 1, 0);
    }
    proof {
        lemma_trunc_split(a as int, b as int);
    }
    let rm = a % b;
    let q = div_trunc(a, b);
    proof {
        lemma_trunc_agree(a as int, b as int);
        assert(rm == number_theory::trunc_rem(a as int, b as int));
    }
    let (gcd, x1, y1) = ext_gcd_rec(b, rm);
    let x = y1;
    let y = x1 - q * y1;
    (gcd, x, y)
}

/// What `solve_linear_diophantine` returns: `(0, 0)` for `0·x + 0·y = 0`; otherwise the
/// Bezout coefficients scaled by `c / g` when `g` divides `c`.
pub open spec fn linear_dioph_spec(a: int, b: int, c: int) -> Option<(int, int)> {
    if a == 0 && b == 0 {
        if c == 0 { Some((0, 0)) } else { None }
    } else {
        let (g, x0, y0) = ext_gcd_spec(a, b);
        if rem_t(c, g) != 0 {
            None
        } else {
            Some((x0 * div_t(c, g), y0 * div_t(c, g)))
        }
    }
}

/// The inputs on which the computation stays within `i64`.
pub open spec fn linear_dioph_fits(a: int, b: int, c: int) -> bool {
    (a == 0 && b == 0) || {
        let (g, x0, y0) = ext_gcd_spec(a, b);
        &&& ext_gcd_fits(a, b)
        &&& !(c == i64::MIN && g == -1)
        &&& (rem_t(c, g) == 0 ==> fits_i64(x0 * div_t(c, g)) && fits_i64(y0 * div_t(c, g)))
    }
}

/// A multiple of `g` in magnitude: `|g|` divides `v`.
proof fn lemma_divides_combination(g: int, a: int, b: int, x: int, y: int)
    requires
        g != 0,
        number_theory::iabs(a) % number_theory::iabs(g) == 0,
        number_theory::iabs(b) % number_theory::iabs(g) == 0,
    ensures
        number_theory::iabs(a * x + b * y) % number_theory::iabs(g) == 0,
{
    let gg = number_theory::iabs(g);
    lemma_fundamental_div_mod(number_theory::iabs(a), gg);
    lemma_fundamental_div_mod(number_theory::iabs(b), gg);
    let ka = if a >= 0 { number_theory::iabs(a) / gg } else { -(number_theory::iabs(a) / gg) };
    let kb = if b >= 0 { number_theory::iabs(b) / gg } else { -(number_theory::iabs(b) / gg) };
    assert(a == gg * ka) by (nonlinear_arith)
        requires
            number_theory::iabs(a) == gg * (number_theory::iabs(a) / gg) + 0,
            number_theory::iabs(a) == (if a < 0 { -a } else { a }),
            ka == (if a >= 0 { number_theory::iabs(a) / gg } else { -(number_theory::iabs(a) / gg) }),
    ;
    assert(b == gg * kb) by (nonlinear_arith)
        requires
            number_theory::iabs(b) == gg * (number_theory::iabs(b) / gg) + 0,
            number_theory::iabs(b) == (if b < 0 { -b } else { b }),
            kb == (if b >= 0 { number_theory::iabs(b) / gg } else { -(number_theory::iabs(b) / gg) }),
    ;
    let k = ka * x + kb * y;
    assert(a * x + b * y == gg * k) by (nonlinear_arith)
        requires
            a == gg * ka,
            b == gg * kb,
            k == ka * x + kb * y,
    ;
    let v = a * x + b * y;
    let kk = number_theory::iabs(k);
    assert(number_theory::iabs(v) == kk * gg) by (nonlinear_arith)
        requires
            v == gg * k,
            gg > 0,
            kk == number_theory::iabs(k),
            number_theory::iabs(v) == (if v < 0 { -v } else { v }),
            kk == (if k < 0 { -k } else { k }),
    ;
    vstd::arithmetic::div_mod::lemma_mod_multiples_basic(kk, gg);
}

/// Solves `a·x + b·y = c`: a particular solution, or `None` when there is none.
pub fn solve_linear_diophantine(a: i64, b: i64, c: i64) -> (r: Option<(i64, i64)>)
    requires
        linear_dioph_fits(a as int, b as int, c as int),
    ensures
        match r {
            Some((x, y)) => linear_dioph_spec(a as int, b as int, c as int) == Some((x as int, y as int)),
            None => linear_dioph_spec(a as int, b as int, c as int) is None,
        },
        match r {
            Some((x, y)) => a * x + b * y == c,
            None => !exists|x: int, y: int| #[trigger] (a * x + b * y) == c,
        },
{
    if a == 0 && b == 0 {
        if c == 0 {
            return Some((0, 0));
        } else {
            proof {
                assert forall|x: int, y: int| #[trigger] (a * x + b * y) != c by {
                    assert(a * x + b * y == 0) by (nonlinear_arith)
                        requires
                            a == 0,
                            b == 0,
                    ;
                }
            }
            return None;
        }
    }
    let (g, x0, y0) = ext_gcd_rec(a, b);
    let ghost gg = number_theory::iabs(g as int);
    proof {
        arith::lemma_gcd_divides(number_theory::iabs(a as int) as nat, number_theory::iabs(b as int) as nat);
        assert(g != 0);
        lemma_trunc_split(c as int, g as int);
        lemma_trunc_agree(c as int, g as int);
    }
    let rm = c % g;
    if rm != 0 {
        proof {
            assert forall|x: int, y: int| #[trigger] (a * x + b * y) != c by {
                lemma_divides_combination(g as int, a as int, b as int, x, y);
                if a * x + b * y == c {
                    assert(number_theory::iabs(rm as int) == number_theory::iabs(c as int) % gg);
                }
            }
        }
        return None;
    }
    let scale = div_trunc(c, g);
    proof {
        assert(c == scale * g);
        assert(a * (x0 * scale) + b * (y0 * scale) == (a * x0 + b * y0) * scale) by (nonlinear_arith);
        assert((g as int) * (scale as int) == (scale as int) * (g as int)) by (nonlinear_arith);
    }
    Some((x0 * scale, y0 * scale))
}

/// Euclid's algorithm on `u64`.
fn gcd_u64(a: u64, b: u64) -> (r: u64)
    ensures
        r == arith::gcd(a as nat, b as nat),
{
    let mut a = a;
    let mut b = b;
    let ghost a0 = a;
    let ghost b0 = b;
    while b != 0
        invariant
            arith::gcd(a as nat, b as nat) == arith::gcd(a0 as nat, b0 as nat),
        decreases b,
    {
        let temp = b;
        b = a % b;
        a = temp;
    }
    a
}

/// The triple that Euclid's formula gives for `m > n`, the smaller leg first.
pub open spec fn euclid_triple(m: int, n: int) -> (int, int, int) {
    let a = m * m - n * n;
    let b = 2 * m * n;
    let c = m * m + n * n;
    if a <= b { (a, b, c) } else { (b, a, c) }
}

/// Euclid's parameters of a primitive triple whose hypotenuse is at most `limit`.
pub open spec fn euclid_params(m: int, n: int, limit: int) -> bool {
    &&& 1 <= n < m
    &&& arith::gcd(m as nat, n as nat) == 1
    &&& (m - n) % 2 == 1
    &&& m * m + n * n <= limit
}

/// A triple of `u64` as integers.
pub open spec fn triple_view(t: (u64, u64, u64)) -> (int, int, int) {
    (t.0 as int, t.1 as int, t.2 as int)
}

/// Lexicographic order on triples.
pub open spec fn triple_le(x: (u64, u64, u64), y: (u64, u64, u64)) -> bool {
    x.0 < y.0 || (x.0 == y.0 && (x.1 < y.1 || (x.1 == y.1 && x.2 <= y.2)))
}

/// Sorted in lexicographic order.
pub open spec fn triples_sorted(s: Seq<(u64, u64, u64)>) -> bool {
    forall|i: int, j: int| 0 <= i < j < s.len() ==> #[trigger] triple_le(s[i], s[j])
}

/// Every triple of `s` comes from Euclid's parameters within the limit.
pub open spec fn triples_sound(s: Seq<(u64, u64, u64)>, limit: int) -> bool {
    forall|i: int|
        0 <= i < s.len() ==> exists|m: int, n: int|
            euclid_params(m, n, limit) && triple_view(#[trigger] s[i]) == euclid_triple(m, n)
}

/// `s` holds the triple of `(m, n)`.
pub open spec fn holds_triple(s: Seq<(u64, u64, u64)>, m: int, n: int) -> bool {
    exists|i: int| 0 <= i < s.len() && triple_view(#[trigger] s[i]) == euclid_triple(m, n)
}

/// For `m - n` odd the legs differ: `m² - n²` is odd and `2mn` even.
proof fn lemma_euclid_legs_differ(m: int, n: int)
    requires
        1 <= n < m,
        (m - n) % 2 == 1,
    ensures
        m * m - n * n != 2 * m * n,
{
    let k = (m - n - 1) / 2;
    assert(m == n + 2 * k + 1);
    let x = 2 * k * k + 2 * k * n + 2 * k + n;
    assert(m * m - n * n == 2 * x + 1) by (nonlinear_arith)
        requires
            m == n + 2 * k + 1,
            x == 2 * k * k + 2 * k * n + 2 * k + n,
    ;
    let y = m * n;
    assert(2 * m * n == 2 * y) by (nonlinear_arith)
        requires
            y == m * n,
    ;
    assert(2 * x + 1 != 2 * y);
}

/// Euclid's formula gives Pythagorean triples.
pub proof fn lemma_euclid_pythagorean(m: int, n: int)
    requires
        1 <= n < m,
    ensures
        ({
            let (a, b, c) = euclid_triple(m, n);
            &&& a * a + b * b == c * c
            &&& 0 < a <= b < c
        }),
{
    assert((m * m - n * n) * (m * m - n * n) + (2 * m * n) * (2 * m * n) == (m * m + n * n) * (m * m + n * n))
        by (nonlinear_arith);
    assert(m * m - n * n > 0 && 2 * m * n > 0 && m * m + n * n > m * m - n * n && m * m + n * n > 2 * m * n)
        by (nonlinear_arith)
        requires
            1 <= n < m,
    ;
}

fn triple_le_exec(x: (u64, u64, u64), y: (u64, u64, u64)) -> (r: bool)
    ensures
        r == triple_le(x, y),
{
    x.0 < y.0 || (x.0 == y.0 && (x.1 < y.1 || (x.1 == y.1 && x.2 <= y.2)))
}

/// Inserts `t` after every element not above it, keeping the order.
fn insert_sorted(v: &mut Vec<(u64, u64, u64)>, t: (u64, u64, u64))
    requires
        triples_sorted(old(v)@),
    ensures
        triples_sorted(final(v)@),
        final(v)@.len() == old(v)@.len() + 1,
        forall|x: (u64, u64, u64)| final(v)@.contains(x) <==> (old(v)@.contains(x) || x == t),
{
    let mut k: usize = 0;
    while k < v.len() && triple_le_exec(v[k], t)
        invariant
            k <= v.len(),
            v@ == old(v)@,
            triples_sorted(v@),
            forall|i: int| 0 <= i < k ==> #[trigger] triple_le(v@[i], t),
        decreases v.len() - k,
    {
        k = k + 1;
    }
    let ghost old_v = v@;
    assert(old_v == old(v)@);
    v.insert(k, t);
    proof {
        assert(v@ == old_v.insert(k as int, t));
        assert forall|i: int, j: int| 0 <= i < j < v@.len() implies #[trigger] triple_le(v@[i], v@[j]) by {
            if j < k {
            } else if j == k {
            } else if i < k {
                assert(triple_le(old_v[i], old_v[j - 1]));
            } else if i == k {
                assert(!triple_le(old_v[k as int], t));
                assert(triple_le(old_v[k as int], old_v[j - 1]) || k as int == j - 1);
            } else {
                assert(triple_le(old_v[i - 1], old_v[j - 1]));
            }
        }
        assert forall|x: (u64, u64, u64)| #[trigger] v@.contains(x) <==> (old(v)@.contains(x) || x == t) by {
            if v@.contains(x) {
                let i = choose|i: int| 0 <= i < v@.len() && v@[i] == x;
                if i < k {
                    assert(old_v[i] == x);
                } else if i > k {
                    assert(old_v[i - 1] == x);
                }
            }
            if old_v.contains(x) {
                let i = choose|i: int| 0 <= i < old_v.len() && old_v[i] == x;
                if i < k {
                    assert(v@[i] == x);
                } else {
                    assert(v@[i + 1] == x);
                }
            }
            if x == t {
                assert(v@[k as int] == x);
            }
        }
    }
}

/// Primitive Pythagorean triples `(a, b, c)` with `a ≤ b` and `c ≤ limit`, from Euclid's
/// formula `a = m² − n², b = 2mn, c = m² + n²` over coprime `m > n > 0` of opposite
/// parity, sorted.
pub fn pythagorean_triples(limit: u64) -> (r: Vec<(u64, u64, u64)>)
    requires
        limit < 0x4000_0000_0000_0000,
    ensures
        triples_sorted(r@),
        triples_sound(r@, limit as int),
        forall|m: int, n: int| euclid_params(m, n, limit as int) ==> #[trigger] holds_triple(r@, m, n),
        forall|i: int| 0 <= i < r@.len() ==> {
            let (a, b, c) = #[trigger] triple_view(r@[i]);
            &&& a * a + b * b == c * c
            &&& 0 < a < b
            &&& c <= limit
        },
{
    let mut triples: Vec<(u64, u64, u64)> = Vec::new();
    let root = number_theory::isqrt_u64(limit);
    let m_limit = root + 1;
    assert(root < 0x8000_0000) by (nonlinear_arith)
        requires
            (root as int) * (root as int) <= limit,
            limit < 0x4000_0000_0000_0000,
    ;
    let mut m: u64 = 2;
    while m <= m_limit
        invariant
            2 <= m <= m_limit + 1,
            m_limit == root + 1,
            root < 0x8000_0000,
            (root as int) * (root as int) <= limit < (root as int + 1) * (root as int + 1),
            triples_sorted(triples@),
            triples_sound(triples@, limit as int),
            forall|m2: int, n2: int|
                euclid_params(m2, n2, limit as int) && m2 < m ==> #[trigger] holds_triple(triples@, m2, n2),
        decreases m_limit + 1 - m,
    {
        let mut n: u64 = 1;
        while n < m
            invariant
                2 <= m <= m_limit,
                1 <= n <= m,
                m_limit == root + 1,
                root < 0x8000_0000,
                (root as int) * (root as int) <= limit < (root as int + 1) * (root as int + 1),
                triples_sorted(triples@),
                triples_sound(triples@, limit as int),
                forall|m2: int, n2: int|
                    euclid_params(m2, n2, limit as int) && (m2 < m || (m2 == m && n2 < n))
                        ==> #[trigger] holds_triple(triples@, m2, n2),
            decreases m - n,
        {
            if gcd_u64(m, n) != 1 {
                n = n + 1;
                continue;
            }
            if (m - n) % 2 == 0 {
                n = n + 1;
                continue;
            }
            assert((m as int) * (m as int) <= 0x4000_0000_0000_0000) by (nonlinear_arith)
                requires
                    m <= 0x8000_0000,
            ;
            assert((n as int) * (n as int) < (m as int) * (m as int)) by (nonlinear_arith)
                requires
                    1 <= n < m,
            ;
            assert((2 * (m as int)) * (n as int) <= 2 * ((m as int) * (m as int))) by (nonlinear_arith)
                requires
                    1 <= n < m,
            ;
            let a = m * m - n * n;
            let b = 2 * m * n;
            let c = m * m + n * n;
            if c > limit {
                proof {
                    assert forall|m2: int, n2: int|
                        euclid_params(m2, n2, limit as int) && (m2 < m + 1) implies
                        #[trigger] holds_triple(triples@, m2, n2) by {
                        if m2 == m && n2 >= n {
                            assert(m2 * m2 + n2 * n2 >= (m as int) * (m as int) + (n as int) * (n as int))
                                by (nonlinear_arith)
                                requires
                                    m2 == m,
                                    n2 >= n,
                                    n >= 1,
                            ;
                        }
                    }
                }
                n = m;
            } else {
                let t = if a <= b { (a, b, c) } else { (b, a, c) };
                let ghost before = triples@;
                insert_sorted(&mut triples, t);
                proof {
                    assert(triple_view(t) == euclid_triple(m as int, n as int));
                    assert(euclid_params(m as int, n as int, limit as int));
                    assert forall|i: int| 0 <= i < triples@.len() implies exists|m2: int, n2: int|
                        euclid_params(m2, n2, limit as int) && triple_view(#[trigger] triples@[i])
                            == euclid_triple(m2, n2) by {
                        assert(triples@.contains(triples@[i]));
                        if triples@[i] == t {
                        } else {
                            assert(before.contains(triples@[i]));
                            let j = choose|j: int| 0 <= j < before.len() && before[j] == triples@[i];
                            assert(exists|m2: int, n2: int|
                                euclid_params(m2, n2, limit as int) && triple_view(before[j]) == euclid_triple(m2, n2));
                        }
                    }
                    assert forall|m2: int, n2: int|
                        euclid_params(m2, n2, limit as int) && (m2 < m || (m2 == m && n2 < n + 1)) implies
                        #[trigger] holds_triple(triples@, m2, n2) by {
                        if m2 == m && n2 == n {
                            assert(triples@.contains(t));
                            let i = choose|i: int| 0 <= i < triples@.len() && triples@[i] == t;
                            assert(triple_view(triples@[i]) == euclid_triple(m2, n2));
                        } else {
                            assert(holds_triple(before, m2, n2));
                            let j = choose|j: int|
                                0 <= j < before.len() && triple_view(#[trigger] before[j]) == euclid_triple(m2, n2);
                            assert(before.contains(before[j]));
                            assert(triples@.contains(before[j]));
                            let i = choose|i: int| 0 <= i < triples@.len() && triples@[i] == before[j];
                            assert(triple_view(triples@[i]) == euclid_triple(m2, n2));
                        }
                    }
                }
                n = n + 1;
            }
        }
        m = m + 1;
    }
    proof {
        assert forall|m2: int, n2: int| euclid_params(m2, n2, limit as int) implies
            #[trigger] holds_triple(triples@, m2, n2) by {
            if m2 >= m {
                assert(m2 * m2 + n2 * n2 > (root as int + 1) * (root as int + 1)) by (nonlinear_arith)
                    requires
                        m2 >= root + 2,
                        n2 >= 1,
                        root >= 0,
                ;
            }
        }
        assert forall|i: int| 0 <= i < triples@.len() implies {
            let (a, b, c) = #[trigger] triple_view(triples@[i]);
            &&& a * a + b * b == c * c
            &&& 0 < a < b
            &&& c <= limit
        } by {
            let (m2, n2) = choose|m2: int, n2: int|
                euclid_params(m2, n2, limit as int) && triple_view(triples@[i]) == euclid_triple(m2, n2);
            lemma_euclid_pythagorean(m2, n2);
            lemma_euclid_legs_differ(m2, n2);
        }
    }
    triples
}

/// `v` fits in `i128`.
pub open spec fn fits_i128(v: int) -> bool {
    i128::MIN <= v <= i128::MAX
}

/// `r` is the integer square root of `n`.
pub open spec fn is_nat_root(r: int, n: int) -> bool {
    0 <= r && r * r <= n < (r + 1) * (r + 1)
}

/// The integer square root of `n ≥ 0`.
pub open spec fn nat_sqrt(n: int) -> int {
    choose|r: int| #[trigger] is_nat_root(r, n)
}

/// The integer square root is unique.
proof fn lemma_nat_sqrt_unique(n: int, r: int)
    requires
        0 <= r,
        r * r <= n < (r + 1) * (r + 1),
    ensures
        nat_sqrt(n) == r,
{
    assert(is_nat_root(r, n));
    let s = nat_sqrt(n);
    assert(is_nat_root(s, n));
    if s < r {
        assert((s + 1) * (s + 1) <= r * r) by (nonlinear_arith)
            requires
                0 <= s < r,
        ;
    } else if s > r {
        assert((r + 1) * (r + 1) <= s * s) by (nonlinear_arith)
            requires
                0 <= r < s,
        ;
    }
}

/// The continued-fraction search for a solution of `x² − d·y² = 1`, run for at most `k`
/// more terms from the state `(m, dv, a, pp, pc, qp, qc)`. `None` when a step would
/// overflow or divide by zero; `Some(None)` when no convergent solves the equation.
/// `di` is `d` as the `i64` that the recurrence reads.
pub open spec fn pell_run(
    di: int,
    d: int,
    sd: int,
    k: nat,
    m: int,
    dv: int,
    a: int,
    pp: int,
    pc: int,
    qp: int,
    qc: int,
) -> Option<Option<(int, int)>>
    decreases k,
{
    if k == 0 {
        Some(None)
    } else {
        let m2 = dv * a - m;
        let num = di - m2 * m2;
        if !fits_i64(dv * a) || !fits_i64(m2) || !fits_i64(m2 * m2) || !fits_i64(num) || dv == 0
            || (num == i64::MIN && dv == -1) {
            None
        } else {
            let dv2 = div_t(num, dv);
            let s2 = sd + m2;
            if !fits_i64(s2) || dv2 == 0 || (s2 == i64::MIN && dv2 == -1) {
                None
            } else {
                let a2 = div_t(s2, dv2);
                let pn = a2 * pc + pp;
                let qn = a2 * qc + qp;
                if !fits_i64(a2 * pc) || !fits_i64(pn) || !fits_i64(a2 * qc) || !fits_i64(qn) {
                    None
                } else if !fits_i128(d * qn * qn) || !fits_i128(pn * pn - d * qn * qn) {
                    None
                } else if pn * pn - d * qn * qn == 1 {
                    Some(Some((pn, qn)))
                } else {
                    pell_run(di, d, sd, (k - 1) as nat, m2, dv2, a2, pc, pn, qc, qn)
                }
            }
        }
    }
}

/// The whole search for `d`: nothing for a perfect square, else the first of 1000
/// convergents that solves the equation.
pub open spec fn pell_search(d: u64) -> Option<Option<(int, int)>> {
    let sd = nat_sqrt(d as int);
    if sd * sd == d {
        Some(None)
    } else {
        pell_run((d as i64) as int, d as int, sd, 1000, 0, 1, sd, 1, sd, 0, 1)
    }
}

/// Solves Pell's equation `x² − d·y² = 1` by the continued fraction of `√d`: the first
/// convergent among 1000 that solves it, or `None` (always for a perfect square `d`).
pub fn solve_pell(d: u64) -> (r: Option<(u64, u64)>)
    requires
        pell_search(d) is Some,
    ensures
        r == match pell_search(d) {
            Some(Some((p, q))) => Some((p as u64, q as u64)),
            _ => None,
        },
        match r {
            Some((x, y)) => exists|p: int, q: int|
                pell_search(d) == Some(Some((p, q))) && #[trigger] (p * p - d * q * q) == 1
                    && x == p as u64 && y == q as u64,
            None => true,
        },
{
    let sqrt_d = number_theory::isqrt_u64(d);
    proof {
        lemma_nat_sqrt_unique(d as int, sqrt_d as int);
    }
    assert((sqrt_d as int) * (sqrt_d as int) < 0x1_0000_0000_0000_0000) by (nonlinear_arith)
        requires
            sqrt_d < 0x1_0000_0000,
    ;
    if sqrt_d * sqrt_d == d {
        return None;
    }
    let sd = sqrt_d as i64;
    let di = d as i64;
    let mut m: i64 = 0;
    let mut d_val: i64 = 1;
    let mut a: i64 = sd;
    let mut p_prev: i64 = 1;
    let mut p_curr: i64 = a;
    let mut q_prev: i64 = 0;
    let mut q_curr: i64 = 1;
    let mut i: usize = 0;
    while i < 1000
        invariant
            i <= 1000,
            sd as int == nat_sqrt(d as int),
            di == d as i64,
            sd * sd != d,
            pell_search(d) is Some,
            pell_run(di as int, d as int, sd as int, (1000 - i) as nat, m as int, d_val as int, a as int,
                p_prev as int, p_curr as int, q_prev as int, q_curr as int) == pell_search(d),
        decreases 1000 - i,
    {
        let ghost k = (1000 - i) as nat;
        assert(k > 0);
        m = d_val * a - m;
        d_val = div_trunc(di - m * m, d_val);
        a = div_trunc(sd + m, d_val);
        let p_next = a * p_curr + p_prev;
        let q_next = a * q_curr + q_prev;
        assert(0 <= (p_next as int) * (p_next as int) <= 0x8000_0000_0000_0000int * 0x8000_0000_0000_0000int)
            by (nonlinear_arith)
            requires
                -0x8000_0000_0000_0000 <= p_next <= 0x7fff_ffff_ffff_ffff,
        ;
        let x_sq = (p_next as i128) * (p_next as i128);
        assert((d as int) * (q_next as int) <= 0xffff_ffff_ffff_ffffint * 0x8000_0000_0000_0000int
            && (d as int) * (q_next as int) >= -(0xffff_ffff_ffff_ffffint * 0x8000_0000_0000_0000int))
            by (nonlinear_arith)
            requires
                d <= 0xffff_ffff_ffff_ffff,
                -0x8000_0000_0000_0000 <= q_next <= 0x7fff_ffff_ffff_ffff,
        ;
        let dy_sq = (d as i128) * (q_next as i128) * (q_next as i128);
        if x_sq - dy_sq == 1 {
            return Some((p_next as u64, q_next as u64));
        }
        p_prev = p_curr;
        p_curr = p_next;
        q_prev = q_curr;
        q_curr = q_next;
        i = i + 1;
    }
    None
}

/// The product of two `i64` values, which always fits in `i128`.
fn mul_wide(x: i64, y: i64) -> (r: i128)
    ensures
        r == x * y,
{
    assert(-0x4000_0000_0000_0000_0000_0000_0000_0000int <= (x as int) * (y as int) <= 0x4000_0000_0000_0000_0000_0000_0000_0000int)
        by (nonlinear_arith)
        requires
            -0x8000_0000_0000_0000 <= x <= 0x7fff_ffff_ffff_ffff,
            -0x8000_0000_0000_0000 <= y <= 0x7fff_ffff_ffff_ffff,
    ;
    (x as i128) * (y as i128)
}

/// `v` as an `i64` when it fits.
fn narrow(v: i128) -> (r: Option<i64>)
    ensures
        r == (if fits_i64(v as int) { Some(v as i64) } else { None::<i64> }),
{
    if v < -0x8000_0000_0000_0000i128 || v > 0x7fff_ffff_ffff_ffffi128 {
        None
    } else {
        Some(v as i64)
    }
}

/// `solve_pell` for every `d`: `None` where the continued-fraction search would overflow
/// (`pell_search` is `None`), else `Some` of what `solve_pell` returns.
pub fn solve_pell_checked(d: u64) -> (r: Option<Option<(u64, u64)>>)
    ensures
        r == match pell_search(d) {
            Some(Some((p, q))) => Some(Some((p as u64, q as u64))),
            Some(None) => Some(None::<(u64, u64)>),
            None => None,
        },
{
    let sqrt_d = number_theory::isqrt_u64(d);
    proof {
        lemma_nat_sqrt_unique(d as int, sqrt_d as int);
    }
    assert((sqrt_d as int) * (sqrt_d as int) < 0x1_0000_0000_0000_0000) by (nonlinear_arith)
        requires
            sqrt_d < 0x1_0000_0000,
    ;
    if sqrt_d * sqrt_d == d {
        return Some(None);
    }
    let sd = sqrt_d as i64;
    let di = d as i64;
    let mut m: i64 = 0;
    let mut d_val: i64 = 1;
    let mut a: i64 = sd;
    let mut p_prev: i64 = 1;
    let mut p_curr: i64 = a;
    let mut q_prev: i64 = 0;
    let mut q_curr: i64 = 1;
    let mut i: usize = 0;
    while i < 1000
        invariant
            i <= 1000,
            sd as int == nat_sqrt(d as int),
            sd < 0x1_0000_0000,
            di == d as i64,
            sd * sd != d,
            pell_run(di as int, d as int, sd as int, (1000 - i) as nat, m as int, d_val as int, a as int,
                p_prev as int, p_curr as int, q_prev as int, q_curr as int) == pell_search(d),
        decreases 1000 - i,
    {
        let ghost k = (1000 - i) as nat;
        assert(k > 0);
        let dva = match narrow(mul_wide(d_val, a)) {
            Some(v) => v,
            None => {
                return None;
            },
        };
        let m2 = match narrow((dva as i128) - (m as i128)) {
            Some(v) => v,
            None => {
                return None;
            },
        };
        let sq = match narrow(mul_wide(m2, m2)) {
            Some(v) => v,
            None => {
                return None;
            },
        };
        let num = match narrow((di as i128) - (sq as i128)) {
            Some(v) => v,
            None => {
                return None;
            },
        };
        if d_val == 0 || (num == i64::MIN && d_val == -1) {
            return None;
        }
        let dv2 = div_trunc(num, d_val);
        let s2 = match narrow((sd as i128) + (m2 as i128)) {
            Some(v) => v,
            None => {
                return None;
            },
        };
        if dv2 == 0 || (s2 == i64::MIN && dv2 == -1) {
            return None;
        }
        let a2 = div_trunc(s2, dv2);
        let ap = match narrow(mul_wide(a2, p_curr)) {
            Some(v) => v,
            None => {
                return None;
            },
        };
        let p_next = match narrow((ap as i128) + (p_prev as i128)) {
            Some(v) => v,
            None => {
                return None;
            },
        };
        let aq = match narrow(mul_wide(a2, q_curr)) {
            Some(v) => v,
            None => {
                return None;
            },
        };
        let q_next = match narrow((aq as i128) + (q_prev as i128)) {
            Some(v) => v,
            None => {
                return None;
            },
        };
        let x_sq = mul_wide(p_next, p_next);
        assert((d as int) * (q_next as int) <= 0xffff_ffff_ffff_ffffint * 0x8000_0000_0000_0000int
            && (d as int) * (q_next as int) >= -(0xffff_ffff_ffff_ffffint * 0x8000_0000_0000_0000int))
            by (nonlinear_arith)
            requires
                d <= 0xffff_ffff_ffff_ffff,
                -0x8000_0000_0000_0000 <= q_next <= 0x7fff_ffff_ffff_ffff,
        ;
        let dq = (d as i128) * (q_next as i128);
        let dy_sq = match dq.checked_mul(q_next as i128) {
            Some(v) => v,
            None => {
                return None;
            },
        };
        let diff = match x_sq.checked_sub(dy_sq) {
            Some(v) => v,
            None => {
                return None;
            },
        };
        if diff == 1 {
            return Some(Some((p_next as u64, q_next as u64)));
        }
        m = m2;
        d_val = dv2;
        a = a2;
        p_prev = p_curr;
        p_curr = p_next;
        q_prev = q_curr;
        q_curr = q_next;
        i = i + 1;
    }
    Some(None)
}

} // verus!
