//! Polynomials over Q and minimal polynomials of a few algebraic numbers.
use vstd::prelude::*;
use crate::arith::{self, add_q, mul_q, normalize_rat, Q};

verus! {

/// The coefficients with trailing exact zeros `0/1` removed (keeping at least one),
/// and `[0/1]` for an empty list.
pub open spec fn strip_zeros(c: Seq<Q>) -> Seq<Q>
    decreases c.len(),
{
    if c.len() == 0 {
        seq![Q(0, 1)]
    } else if c.len() > 1 && c.last() == Q(0, 1) {
        strip_zeros(c.drop_last())
    } else {
        c
    }
}

/// One Horner step `r·x + c`, or `None` on overflow.
pub open spec fn horner_step(r: Q, x: Q, c: Q) -> Option<Q> {
    let m = arith::mul_spec(arith::qv(r), arith::qv(x));
    if arith::mul_ok(arith::qv(r), arith::qv(x)) && arith::add_ok(m, arith::qv(c)) {
        Some(arith::to_q(arith::add_spec(m, arith::qv(c))))
    } else {
        None
    }
}

/// Horner evaluation of `c[i..]` at `x`; `None` when a step would overflow.
pub open spec fn horner(c: Seq<Q>, x: Q, i: int) -> Option<Q>
    recommends
        0 <= i < c.len(),
    decreases c.len() - i,
{
    if i >= c.len() - 1 {
        Some(c[c.len() - 1])
    } else {
        match horner(c, x, i + 1) {
            Some(r) => horner_step(r, x, c[i]),
            None => None,
        }
    }
}

/// The value `c(x)`, from the leading coefficient down; zero for no coefficients.
pub open spec fn poly_eval_spec(c: Seq<Q>, x: Q) -> Option<Q> {
    if c.len() == 0 {
        Some(Q(0, 1))
    } else {
        horner(c, x, 0)
    }
}

/// A polynomial `a_0 + a_1 x + ... + a_n x^n` over Q.
#[derive(Clone, Debug, PartialEq, Eq)]
pub struct RationalPoly {
    pub coeffs: Vec<Q>,
}

/// The coefficients divided by the leading one, each normalized.
pub open spec fn monic_coeffs(c: Seq<Q>) -> Seq<Q> {
    let lead = c.last();
    Seq::new(
        c.len(),
        |i: int| arith::to_q(arith::normalize_spec(c[i].0 * lead.1, c[i].1 * lead.0)),
    )
}

/// `make_monic` computes without overflow.
pub open spec fn make_monic_ok(c: Seq<Q>) -> bool {
    c.len() > 0 && c.last() != Q(0, 1) && c.last() != Q(1, 1) ==> forall|i: int|
        0 <= i < c.len() ==> arith::norm_ok(
            #[trigger] c[i].0 * c.last().1,
            c[i].1 * c.last().0,
        )
}

/// The result of `make_monic`.
pub open spec fn make_monic_spec(c: Seq<Q>) -> Seq<Q> {
    if c.len() == 0 || c.last() == Q(0, 1) || c.last() == Q(1, 1) {
        c
    } else {
        strip_zeros(monic_coeffs(c))
    }
}

/// The degree by coefficient count: `len - 1`, and 0 for the zero polynomial.
pub open spec fn degree_spec(c: Seq<Q>) -> int {
    if c.len() == 1 && c[0] == Q(0, 1) {
        0
    } else {
        c.len() - 1
    }
}

proof fn lemma_strip_zeros(c: Seq<Q>)
    ensures
        strip_zeros(c).len() >= 1,
        strip_zeros(c).len() <= c.len() || c.len() == 0,
        strip_zeros(c).len() > 1 ==> strip_zeros(c).last() != Q(0, 1),
        c.len() > 0 ==> strip_zeros(c) =~= c.subrange(0, strip_zeros(c).len() as int),
        c.len() > 0 && c.last() != Q(0, 1) ==> strip_zeros(c) == c,
    decreases c.len(),
{
    if c.len() > 1 && c.last() == Q(0, 1) {
        lemma_strip_zeros(c.drop_last());
    }
}

impl RationalPoly {
    /// The polynomial with the given coefficients, trailing exact zeros removed.
    pub fn new(coeffs: Vec<Q>) -> (r: RationalPoly)
        ensures
            r.coeffs@ == strip_zeros(coeffs@),
    {
        let mut c = coeffs;
        while c.len() > 1 && c[c.len() - 1] == Q::zero()
            invariant
                strip_zeros(c@) == strip_zeros(coeffs@),
            decreases c.len(),
        {
            assert(c@.last() == Q(0, 1));
            c.pop();
        }
        if c.len() == 0 {
            c.push(Q::zero());
            assert(c@ =~= seq![Q(0, 1)]);
        }
        RationalPoly { coeffs: c }
    }

    /// The polynomial with integer coefficients.
    pub fn from_ints(coeffs: Vec<i64>) -> (r: RationalPoly)
        requires
            forall|i: int| 0 <= i < coeffs.len() ==> #[trigger] coeffs@[i] != i64::MIN,
        ensures
            r.coeffs@ == strip_zeros(Seq::new(coeffs@.len(), |i: int| Q(coeffs@[i], 1))),
    {
        let mut qs: Vec<Q> = Vec::new();
        let mut i: usize = 0;
        while i < coeffs.len()
            invariant
                i <= coeffs.len(),
                qs@.len() == i,
                forall|j: int| 0 <= j < coeffs.len() ==> #[trigger] coeffs@[j] != i64::MIN,
                forall|j: int| 0 <= j < i ==> #[trigger] qs@[j] == Q(coeffs@[j], 1),
            decreases coeffs.len() - i,
        {
            proof {
                arith::lemma_normalize_reduced_int(coeffs@[i as int] as int);
            }
            qs.push(Q::new(coeffs[i], 1));
            i = i + 1;
        }
        assert(qs@ =~= Seq::new(coeffs@.len(), |i: int| Q(coeffs@[i], 1)));
        RationalPoly::new(qs)
    }

    /// The degree: `len - 1`, with the zero polynomial of degree 0.
    pub fn degree(&self) -> (r: usize)
        requires
            self.coeffs.len() > 0,
        ensures
            r == degree_spec(self.coeffs@),
    {
        if self.coeffs.len() == 1 && self.coeffs[0] == Q::zero() {
            0
        } else {
            self.coeffs.len() - 1
        }
    }

    /// The value at `x` by Horner's method.
    pub fn eval(&self, x: Q) -> (r: Q)
        requires
            poly_eval_spec(self.coeffs@, x) is Some,
        ensures
            r == poly_eval_spec(self.coeffs@, x)->0,
    {
        if self.coeffs.len() == 0 {
            return Q::zero();
        }
        let len = self.coeffs.len();
        let mut result = self.coeffs[len - 1];
        let mut i: usize = len - 1;
        proof {
            lemma_horner_some(self.coeffs@, x, 0, i as int);
        }
        while i > 0
            invariant
                len == self.coeffs.len(),
                len > 0,
                i < len,
                horner(self.coeffs@, x, 0) is Some,
                horner(self.coeffs@, x, i as int) == Some(result),
            decreases i,
        {
            proof {
                lemma_horner_some(self.coeffs@, x, 0, i - 1);
            }
            i = i - 1;
            result = add_q(mul_q(result, x), self.coeffs[i]);
        }
        result
    }

    /// Whether the leading coefficient is exactly `1/1`.
    pub fn is_monic(&self) -> (r: bool)
        ensures
            r == (self.coeffs.len() > 0 && self.coeffs@.last() == Q(1, 1)),
    {
        if self.coeffs.len() == 0 {
            return false;
        }
        proof {
            arith::lemma_normalize_reduced_int(1);
        }
        self.coeffs[self.coeffs.len() - 1] == Q::new(1, 1)
    }

    /// Divides every coefficient by the leading one; unchanged when the leading
    /// coefficient is `0/1` or `1/1`.
    pub fn make_monic(&self) -> (r: RationalPoly)
        requires
            make_monic_ok(self.coeffs@),
        ensures
            r.coeffs@ == make_monic_spec(self.coeffs@),
    {
        proof {
            arith::lemma_normalize_reduced_int(1);
        }
        if self.coeffs.len() == 0 || self.coeffs[self.coeffs.len() - 1] == Q::zero() {
            return self.clone_poly();
        }
        let leading = self.coeffs[self.coeffs.len() - 1];
        if leading == Q::new(1, 1) {
            return self.clone_poly();
        }
        let mut coeffs: Vec<Q> = Vec::new();
        let mut i: usize = 0;
        while i < self.coeffs.len()
            invariant
                i <= self.coeffs.len(),
                leading == self.coeffs@.last(),
                self.coeffs.len() > 0,
                leading != Q(0, 1) && leading != Q(1, 1),
                make_monic_ok(self.coeffs@),
                coeffs@.len() == i,
                forall|j: int| 0 <= j < i ==> #[trigger] coeffs@[j] == monic_coeffs(self.coeffs@)[j],
            decreases self.coeffs.len() - i,
        {
            let c = self.coeffs[i];
            let num = c.0 * leading.1;
            let den = c.1 * leading.0;
            let (n, d) = normalize_rat(num, den);
            coeffs.push(Q(n, d));
            i = i + 1;
        }
        assert(coeffs@ =~= monic_coeffs(self.coeffs@));
        RationalPoly::new(coeffs)
    }

    fn clone_poly(&self) -> (r: RationalPoly)
        ensures
            r.coeffs@ == self.coeffs@,
    {
        let mut c: Vec<Q> = Vec::new();
        let mut i: usize = 0;
        while i < self.coeffs.len()
            invariant
                i <= self.coeffs.len(),
                c@ == self.coeffs@.subrange(0, i as int),
            decreases self.coeffs.len() - i,
        {
            c.push(self.coeffs[i]);
            i = i + 1;
            assert(c@ =~= self.coeffs@.subrange(0, i as int));
        }
        assert(c@ =~= self.coeffs@);
        RationalPoly { coeffs: c }
    }
}

proof fn lemma_horner_some(c: Seq<Q>, x: Q, i: int, j: int)
    requires
        0 <= i <= j < c.len(),
        horner(c, x, i) is Some,
    ensures
        horner(c, x, j) is Some,
    decreases j - i,
{
    if i < j {
        lemma_horner_some(c, x, i + 1, j);
    }
}

/// The minimal polynomial `x² - d` of √d.
pub fn minimal_poly_sqrt(d: i64) -> (r: RationalPoly)
    requires
        d != i64::MIN,
    ensures
        r.coeffs@ == seq![Q((-d) as i64, 1), Q(0, 1), Q(1, 1)],
{
    let neg_d = -d;
    let r = RationalPoly::from_ints(vec![neg_d, 0, 1]);
    proof {
        let s = Seq::new(3, |i: int| Q(seq![neg_d, 0i64, 1i64][i], 1));
        assert(s =~= seq![Q((-d) as i64, 1), Q(0, 1), Q(1, 1)]);
    }
    r
}

/// The Möbius function of `m` by trial division from `p`, the factors below `p` having
/// been divided out: 0 when a square divides `m`, else `±1` by the parity of the number
/// of its prime factors.
pub open spec fn mobius_from(m: nat, p: nat) -> int
    decreases m, m - p,
{
    if m <= 1 {
        1
    } else if p < 2 || p * p > m {
        -1
    } else if m % p == 0 {
        proof {
            assert(m / p < m) by (nonlinear_arith)
                requires
                    p >= 2,
                    m >= 2,
            ;
        }
        if (m / p) % p == 0 { 0 } else { -mobius_from(m / p, p + 1) }
    } else {
        proof {
            assert(p < m) by (nonlinear_arith)
                requires
                    p >= 2,
                    p * p <= m,
            ;
        }
        mobius_from(m, p + 1)
    }
}

/// The Möbius function μ(m) (0 for `m = 0`).
pub open spec fn mobius(m: nat) -> int {
    if m == 0 { 0 } else { mobius_from(m, 2) }
}

/// `p · (x^d − 1)`, coefficients from the constant term up.
pub open spec fn times_binomial(p: Seq<int>, d: nat) -> Seq<int> {
    Seq::new(
        p.len() + d,
        |i: int| (if d <= i < p.len() + d { p[i - d] } else { 0 }) - (if i < p.len() { p[i] } else { 0 }),
    )
}

/// The quotient of `p` by `x^d − 1`, its first coefficients being `q`: each next one is
/// `q[i − d] − p[i]` (with `q[i − d] = 0` for `i < d`).
pub open spec fn over_binomial(p: Seq<int>, d: nat, q: Seq<int>) -> Seq<int>
    decreases p.len() - q.len(),
{
    if q.len() + d >= p.len() {
        q
    } else {
        over_binomial(p, d, q.push((if q.len() >= d { q[q.len() - d] } else { 0 }) - p[q.len() as int]))
    }
}

/// The product of `x^e − 1` over the divisors `e < d` of `n` with `μ(n/e) = 1`.
pub open spec fn cyclo_num(n: nat, d: nat) -> Seq<int>
    decreases d,
{
    if d <= 1 {
        seq![1int]
    } else {
        let e = (d - 1) as nat;
        if n % e == 0 && mobius(n / e) == 1 {
            times_binomial(cyclo_num(n, e), e)
        } else {
            cyclo_num(n, e)
        }
    }
}

/// `cyclo_num(n, n + 1)` divided by `x^e − 1` for the divisors `e < d` of `n` with
/// `μ(n/e) = −1`.
pub open spec fn cyclo_div(n: nat, d: nat) -> Seq<int>
    decreases d,
{
    if d <= 1 {
        cyclo_num(n, n + 1)
    } else {
        let e = (d - 1) as nat;
        if n % e == 0 && mobius(n / e) == -1 {
            over_binomial(cyclo_div(n, e), e, Seq::empty())
        } else {
            cyclo_div(n, e)
        }
    }
}

/// The coefficients of the cyclotomic polynomial Φ_n = ∏_{e | n} (x^e − 1)^{μ(n/e)};
/// the constant 1 for `n = 0`.
pub open spec fn cyclotomic_int_coeffs(n: nat) -> Seq<int> {
    if n == 0 { seq![1int] } else { cyclo_div(n, n + 1) }
}

/// Every coefficient lies strictly inside the `i64` range.
pub open spec fn fits_i64(s: Seq<int>) -> bool {
    forall|i: int| 0 <= i < s.len() ==> i64::MIN < #[trigger] s[i] <= i64::MAX
}

/// Every intermediate product and quotient in computing Φ_n fits in `i64`, and the
/// products' lengths in `usize`.
pub open spec fn cyclotomic_fits(n: nat) -> bool {
    &&& forall|d: nat| d <= n + 1 ==> fits_i64(#[trigger] cyclo_num(n, d)) && cyclo_num(n, d).len() + d <= usize::MAX
    &&& forall|d: nat| d <= n + 1 ==> fits_i64(#[trigger] cyclo_div(n, d))
}

/// `i64`s as integers.
pub open spec fn ints(v: Seq<i64>) -> Seq<int> {
    v.map_values(|x: i64| x as int)
}

/// Integers as rationals `k/1`.
pub open spec fn int_qs(v: Seq<int>) -> Seq<Q> {
    Seq::new(v.len(), |i: int| Q(v[i] as i64, 1))
}

/// The Möbius function μ(m), by trial division.
fn mobius_exec(m: u64) -> (r: i64)
    ensures
        r == mobius(m as nat),
{
    if m == 0 {
        return 0;
    }
    let mut mm: u64 = m;
    let mut p: u64 = 2;
    let mut sign: i64 = 1;
    while mm > 1 && (p as u128) * (p as u128) <= mm as u128
        invariant
            mm >= 1,
            mm <= m,
            2 <= p <= 0x1_0000_0001,
            (p as int) * (p as int) <= 0x1_0000_0001 * 0x1_0000_0001,
            sign == 1 || sign == -1,
            mobius(m as nat) == (if sign == 1 { mobius_from(mm as nat, p as nat) } else { -mobius_from(mm as nat, p as nat) }),
        decreases mm, mm - p,
    {
        assert(p < 0x1_0000_0000 && p < mm) by (nonlinear_arith)
            requires
                (p as int) * (p as int) <= mm,
                mm <= 0xffff_ffff_ffff_ffff,
                p >= 2,
        ;
        assert(((p + 1) as int) * ((p + 1) as int) <= 0x1_0000_0001 * 0x1_0000_0001) by (nonlinear_arith)
            requires
                2 <= p < 0x1_0000_0000,
        ;
        if mm % p == 0 {
            let q = mm / p;
            if q % p == 0 {
                assert(mobius_from(mm as nat, p as nat) == 0);
                return 0;
            }
            assert(1 <= q < mm) by (nonlinear_arith)
                requires
                    q == mm / p,
                    p >= 2,
                    p < mm,
            ;
            assert(mobius_from(mm as nat, p as nat) == -mobius_from(q as nat, (p + 1) as nat));
            mm = q;
            sign = -sign;
            p = p + 1;
        } else {
            assert(mobius_from(mm as nat, p as nat) == mobius_from(mm as nat, (p + 1) as nat));
            p = p + 1;
        }
    }
    if mm > 1 {
        -sign
    } else {
        sign
    }
}

/// `p · (x^d − 1)`.
fn times_binomial_exec(p: &Vec<i64>, d: usize) -> (r: Vec<i64>)
    requires
        p@.len() + d <= usize::MAX,
        fits_i64(times_binomial(ints(p@), d as nat)),
    ensures
        ints(r@) == times_binomial(ints(p@), d as nat),
{
    let ghost t = times_binomial(ints(p@), d as nat);
    let len = p.len() + d;
    let mut r: Vec<i64> = Vec::new();
    let mut i: usize = 0;
    while i < len
        invariant
            len == p@.len() + d,
            t == times_binomial(ints(p@), d as nat),
            fits_i64(t),
            i <= len,
            r@.len() == i,
            forall|j: int| 0 <= j < i ==> #[trigger] (r@[j] as int) == t[j],
        decreases len - i,
    {
        let hi: i64 = if i >= d && i - d < p.len() { p[i - d] } else { 0 };
        let lo: i64 = if i < p.len() { p[i] } else { 0 };
        assert(t[i as int] == (hi as int) - (lo as int));
        r.push(hi - lo);
        i = i + 1;
    }
    assert(ints(r@) =~= t);
    r
}

/// The first coefficients of the quotient are kept.
proof fn lemma_over_binomial_prefix(p: Seq<int>, d: nat, q: Seq<int>, k: int)
    requires
        0 <= k < q.len(),
    ensures
        over_binomial(p, d, q).len() >= q.len(),
        over_binomial(p, d, q)[k] == q[k],
    decreases p.len() - q.len(),
{
    if q.len() + d < p.len() {
        let q2 = q.push((if q.len() >= d { q[q.len() - d] } else { 0 }) - p[q.len() as int]);
        lemma_over_binomial_prefix(p, d, q2, k);
    }
}

/// The quotient of `p` by `x^d − 1`.
fn over_binomial_exec(p: &Vec<i64>, d: usize) -> (r: Vec<i64>)
    requires
        d >= 1,
        fits_i64(over_binomial(ints(p@), d as nat, Seq::empty())),
    ensures
        ints(r@) == over_binomial(ints(p@), d as nat, Seq::empty()),
{
    let ghost t = over_binomial(ints(p@), d as nat, Seq::empty());
    let mut q: Vec<i64> = Vec::new();
    proof {
        assert(ints(q@) =~= Seq::<int>::empty());
    }
    while q.len() < p.len() && p.len() - q.len() > d
        invariant
            t == over_binomial(ints(p@), d as nat, Seq::empty()),
            fits_i64(t),
            q@.len() <= p@.len(),
            d >= 1,
            over_binomial(ints(p@), d as nat, ints(q@)) == t,
        decreases p@.len() - q@.len(),
    {
        let i = q.len();
        let prev: i64 = if i >= d { q[i - d] } else { 0 };
        let ghost v = (prev as int) - (p@[i as int] as int);
        let ghost q2 = ints(q@).push(v);
        proof {
            assert(ints(q@).len() == i);
            if i >= d {
                assert(ints(q@)[i - d] == prev as int);
            }
            assert(over_binomial(ints(p@), d as nat, ints(q@)) == over_binomial(ints(p@), d as nat, q2));
            lemma_over_binomial_prefix(ints(p@), d as nat, q2, i as int);
            assert(t[i as int] == v);
        }
        q.push(prev - p[i]);
        proof {
            assert(ints(q@) =~= q2);
        }
    }
    proof {
        assert(ints(q@).len() + d >= ints(p@).len());
    }
    q
}

/// The cyclotomic polynomial Φ_n = ∏_{e | n} (x^e − 1)^{μ(n/e)} (Möbius inversion of
/// `x^n − 1 = ∏_{e | n} Φ_e`): the products first, then the exact divisions. The
/// constant 1 for `n = 0`.
pub fn cyclotomic_polynomial(n: usize) -> (r: RationalPoly)
    requires
        cyclotomic_fits(n as nat),
    ensures
        r.coeffs@ == strip_zeros(int_qs(cyclotomic_int_coeffs(n as nat))),
{
    if n == 0 {
        let v: Vec<i64> = vec![1];
        let r = RationalPoly::from_ints(v);
        proof {
            assert(Seq::new(v@.len(), |i: int| Q(v@[i], 1)) =~= int_qs(cyclotomic_int_coeffs(n as nat)));
        }
        return r;
    }
    let mut p: Vec<i64> = vec![1];
    proof {
        assert(ints(p@) =~= cyclo_num(n as nat, 1));
        assert(fits_i64(cyclo_num(n as nat, n as nat + 1)));
    }
    let mut d: usize = 1;
    while d <= n
        invariant
            1 <= d <= n + 1,
            n >= 1,
            cyclotomic_fits(n as nat),
            ints(p@) == cyclo_num(n as nat, d as nat),
        decreases n + 1 - d,
    {
        proof {
            assert(fits_i64(cyclo_num(n as nat, d as nat)));
            assert(fits_i64(cyclo_num(n as nat, n as nat + 1)));
        }
        if n % d == 0 && mobius_exec((n / d) as u64) == 1 {
            proof {
                assert(fits_i64(cyclo_num(n as nat, d as nat + 1)));
                assert(cyclo_num(n as nat, d as nat + 1) == times_binomial(cyclo_num(n as nat, d as nat), d as nat));
            }
            p = times_binomial_exec(&p, d);
        }
        d = d + 1;
    }
    let mut d: usize = 1;
    proof {
        assert(cyclo_div(n as nat, 1) == cyclo_num(n as nat, n as nat + 1));
    }
    while d <= n
        invariant
            1 <= d <= n + 1,
            n >= 1,
            cyclotomic_fits(n as nat),
            ints(p@) == cyclo_div(n as nat, d as nat),
        decreases n + 1 - d,
    {
        proof {
            assert(fits_i64(cyclo_num(n as nat, n as nat + 1)));
        }
        if n % d == 0 && mobius_exec((n / d) as u64) == -1 {
            proof {
                assert(fits_i64(cyclo_div(n as nat, d as nat + 1)));
            }
            p = over_binomial_exec(&p, d);
        }
        d = d + 1;
    }
    proof {
        assert(fits_i64(cyclo_div(n as nat, n as nat + 1)));
        assert forall|i: int| 0 <= i < p@.len() implies #[trigger] p@[i] != i64::MIN by {
            assert(ints(p@)[i] == p@[i] as int);
        }
    }
    let r = RationalPoly::from_ints(p);
    proof {
        assert(Seq::new(p@.len(), |i: int| Q(p@[i], 1)) =~= int_qs(cyclotomic_int_coeffs(n as nat)));
    }
    r
}

/// The minimal polynomial `x² + 1` of i.
pub fn minimal_poly_i() -> (r: RationalPoly)
    ensures
        r.coeffs@ == seq![Q(1, 1), Q(0, 1), Q(1, 1)],
{
    let r = RationalPoly::from_ints(vec![1, 0, 1]);
    proof {
        let s = Seq::new(3, |i: int| Q(seq![1i64, 0i64, 1i64][i], 1));
        assert(s =~= seq![Q(1, 1), Q(0, 1), Q(1, 1)]);
    }
    r
}

/// The minimal polynomial `x³ - 2` of ∛2.
pub fn minimal_poly_cbrt2() -> (r: RationalPoly)
    ensures
        r.coeffs@ == seq![Q(-2i64, 1), Q(0, 1), Q(0, 1), Q(1, 1)],
{
    let r = RationalPoly::from_ints(vec![-2, 0, 0, 1]);
    proof {
        let s = Seq::new(4, |i: int| Q(seq![-2i64, 0i64, 0i64, 1i64][i], 1));
        assert(s =~= seq![Q(-2i64, 1), Q(0, 1), Q(0, 1), Q(1, 1)]);
    }
    r
}

/// The candidate roots `num/den`, `num` in -10..=10, `den` in 1..=5.
pub open spec fn candidate_root(num: int, den: int) -> Q {
    arith::to_q(arith::normalize_spec(num, den))
}

/// Some candidate root makes the polynomial exactly `0/1`.
pub open spec fn has_small_rational_root(c: Seq<Q>) -> bool {
    exists|num: int, den: int|
        -10 <= num <= 10 && 1 <= den <= 5 && #[trigger] poly_eval_spec(c, candidate_root(num, den)) == Some(
            Q(0, 1),
        )
}

/// Every candidate root evaluates without overflow.
pub open spec fn candidates_eval_ok(c: Seq<Q>) -> bool {
    forall|num: int, den: int|
        -10 <= num <= 10 && 1 <= den <= 5 ==> #[trigger] poly_eval_spec(c, candidate_root(num, den)) is Some
}

/// The irreducibility heuristic applied to monic coefficients.
pub open spec fn irreducible_monic_spec(c: Seq<Q>) -> bool {
    let deg = degree_spec(c);
    if deg <= 1 {
        deg == 1
    } else if deg == 2 || deg == 3 {
        !has_small_rational_root(c)
    } else {
        true
    }
}

/// The result of `is_irreducible`: degree 1 is irreducible, degree 0 is not;
/// otherwise the monic form of degree 2 or 3 must have no root among the small
/// candidates, and higher degrees are reported irreducible.
pub open spec fn irreducible_spec(c: Seq<Q>) -> bool {
    let deg = degree_spec(c);
    if deg <= 1 {
        deg == 1
    } else if c.last() != Q(1, 1) {
        irreducible_monic_spec(make_monic_spec(c))
    } else {
        irreducible_monic_spec(c)
    }
}

/// `is_irreducible` can run: the leading coefficient is nonzero, the monic form
/// computes, and the candidate roots evaluate without overflow.
pub open spec fn irreducible_ok(c: Seq<Q>) -> bool {
    &&& c.len() > 0
    &&& c.last().0 != 0
    &&& make_monic_ok(c)
    &&& candidates_eval_ok(c)
    &&& candidates_eval_ok(make_monic_spec(c))
}

/// Heuristic irreducibility over Q (degree ≤ 3 by the small-rational-root test).
pub fn is_irreducible(poly: &RationalPoly) -> (r: bool)
    requires
        irreducible_ok(poly.coeffs@),
    ensures
        r == irreducible_spec(poly.coeffs@),
{
    let deg = poly.degree();
    if deg <= 1 {
        return deg == 1;
    }
    if !poly.is_monic() {
        let m = poly.make_monic();
        proof {
            lemma_make_monic_is_monic(poly.coeffs@);
        }
        return is_irreducible_monic(&m);
    }
    is_irreducible_monic(poly)
}

proof fn lemma_make_monic_is_monic(c: Seq<Q>)
    requires
        irreducible_ok(c),
        degree_spec(c) > 1,
        c.last() != Q(1, 1),
    ensures
        make_monic_spec(c).len() > 0,
{
    lemma_strip_zeros(monic_coeffs(c));
}

fn is_irreducible_monic(poly: &RationalPoly) -> (r: bool)
    requires
        poly.coeffs.len() > 0,
        candidates_eval_ok(poly.coeffs@),
    ensures
        r == irreducible_monic_spec(poly.coeffs@),
{
    let deg = poly.degree();
    if deg <= 1 {
        return deg == 1;
    }
    if deg == 2 || deg == 3 {
        return !has_rational_root(poly);
    }
    true
}

/// Whether some `num/den` with `num` in -10..=10 and `den` in 1..=5 is a root.
fn has_rational_root(poly: &RationalPoly) -> (r: bool)
    requires
        candidates_eval_ok(poly.coeffs@),
    ensures
        r == has_small_rational_root(poly.coeffs@),
{
    let mut num: i64 = -10;
    while num <= 10
        invariant
            -10 <= num <= 11,
            candidates_eval_ok(poly.coeffs@),
            forall|n: int, d: int|
                -10 <= n < num && 1 <= d <= 5 ==> #[trigger] poly_eval_spec(poly.coeffs@, candidate_root(n, d))
                    != Some(Q(0, 1)),
        decreases 11 - num,
    {
        let mut den: i64 = 1;
        while den <= 5
            invariant
                -10 <= num <= 10,
                1 <= den <= 6,
                candidates_eval_ok(poly.coeffs@),
                forall|n: int, d: int|
                    -10 <= n < num && 1 <= d <= 5 ==> #[trigger] poly_eval_spec(poly.coeffs@, candidate_root(n, d))
                        != Some(Q(0, 1)),
                forall|d: int|
                    1 <= d < den ==> #[trigger] poly_eval_spec(poly.coeffs@, candidate_root(num as int, d))
                        != Some(Q(0, 1)),
            decreases 6 - den,
        {
            let x = Q::new(num, den);
            assert(poly_eval_spec(poly.coeffs@, candidate_root(num as int, den as int)) is Some);
            if poly.eval(x) == Q::zero() {
                return true;
            }
            den = den + 1;
        }
        num = num + 1;
    }
    false
}

} // verus!
