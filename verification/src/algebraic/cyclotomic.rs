//! Cyclotomic fields Q(ζ_n), elements stored as coefficient vectors in powers of ζ_n.
use vstd::prelude::*;
use crate::arith::{self, add_q, mul_q, sub_q, Q};
use crate::algebraic::minimal_poly::{self, cyclotomic_polynomial, cyclotomic_fits, cyclotomic_int_coeffs, int_qs, strip_zeros};

verus! {

/// Number of `k` in `1..=m` with `gcd(k, n) == 1`.
pub open spec fn coprime_count(n: nat, m: nat) -> nat
    decreases m,
{
    if m == 0 {
        0
    } else {
        coprime_count(n, (m - 1) as nat) + if arith::gcd(m, n) == 1 { 1nat } else { 0nat }
    }
}

/// Euler's totient: the number of `k` in `1..=n` coprime to `n`.
pub open spec fn phi(n: nat) -> nat {
    coprime_count(n, n)
}

proof fn lemma_coprime_count_bound(n: nat, m: nat)
    ensures
        coprime_count(n, m) <= m,
    decreases m,
{
    if m > 0 {
        lemma_coprime_count_bound(n, (m - 1) as nat);
    }
}

/// The zero coefficient vector of length `len`.
pub open spec fn zeros(len: nat) -> Seq<Q> {
    Seq::new(len, |i: int| Q(0, 1))
}

/// An element `a_0 + a_1 ζ + ... + a_{φ(n)-1} ζ^{φ(n)-1}` of Q(ζ_n).
#[derive(Clone, Debug, PartialEq, Eq)]
pub struct Cyclotomic {
    pub coeffs: Vec<Q>,
    pub n: usize,
}

/// One term of the product: add `x·y` at position `power` when it lies below `phi`.
pub open spec fn cyc_term(acc: Option<Seq<Q>>, x: Q, y: Q, power: int, phi: int) -> Option<Seq<Q>> {
    match acc {
        None => None,
        Some(s) => if power < phi {
            let m = arith::mul_spec(arith::qv(x), arith::qv(y));
            if arith::mul_ok(arith::qv(x), arith::qv(y)) && arith::add_ok(arith::qv(s[power]), m) {
                Some(s.update(power, arith::to_q(arith::add_spec(arith::qv(s[power]), m))))
            } else {
                None
            }
        } else {
            Some(s)
        },
    }
}

/// The accumulator after the terms `a[i]·b[0..j)`.
pub open spec fn cyc_row(a: Seq<Q>, b: Seq<Q>, n: int, phi: int, i: int, j: int, acc: Option<Seq<Q>>) -> Option<Seq<Q>>
    decreases j,
{
    if j <= 0 {
        acc
    } else {
        cyc_term(cyc_row(a, b, n, phi, i, j - 1, acc), a[i], b[j - 1], (i + j - 1) % n, phi)
    }
}

/// The accumulator after the rows `a[0..i)`; `None` when some step would overflow.
pub open spec fn cyc_rows(a: Seq<Q>, b: Seq<Q>, n: int, phi: int, i: int) -> Option<Seq<Q>>
    decreases i,
{
    if i <= 0 {
        Some(zeros(phi as nat))
    } else {
        cyc_row(a, b, n, phi, i - 1, b.len() as int, cyc_rows(a, b, n, phi, i - 1))
    }
}

/// The coefficients of Φ_n, as `cyclotomic_polynomial` gives them.
pub open spec fn cyc_poly(n: int) -> Seq<Q> {
    strip_zeros(int_qs(cyclotomic_int_coeffs(n as nat)))
}

/// Subtracts `coef · f[j] · ζ^(top − deg + j)` for `j` in `0..jn`, in order; `None` on
/// overflow.
pub open spec fn reduce_row(c: Seq<Q>, f: Seq<Q>, deg: int, top: int, coef: Q, jn: int) -> Option<Seq<Q>>
    decreases jn,
{
    if jn <= 0 {
        Some(c)
    } else {
        match reduce_row(c, f, deg, top, coef, jn - 1) {
            None => None,
            Some(t) => {
                let pos = top - deg + (jn - 1);
                let x = arith::qv(coef);
                let y = arith::qv(f[jn - 1]);
                if arith::mul_ok(x, y) && arith::sub_ok(arith::qv(t[pos]), arith::mul_spec(x, y)) {
                    Some(t.update(pos, arith::to_q(arith::sub_spec(arith::qv(t[pos]), arith::mul_spec(x, y)))))
                } else {
                    None
                }
            },
        }
    }
}

/// Reduction of the powers `ζ^deg … ζ^(k−1)` by the monic `f` of degree `deg`, the
/// highest first: each `c[top] ζ^top` is replaced by `−c[top] (f − ζ^deg) ζ^(top − deg)`.
pub open spec fn reduce_from(c: Seq<Q>, f: Seq<Q>, deg: int, k: int) -> Option<Seq<Q>>
    decreases k - deg,
{
    if k <= deg {
        Some(c)
    } else {
        match reduce_row(c, f, deg, k - 1, c[k - 1], deg) {
            None => None,
            Some(t) => reduce_from(t, f, deg, k - 1),
        }
    }
}

/// A coefficient vector in the powers of ζ_n reduced modulo Φ_n to its φ(n) coordinates;
/// `None` on overflow.
pub open spec fn cyc_reduce(c: Seq<Q>, n: int) -> Option<Seq<Q>> {
    let f = cyc_poly(n);
    let deg = phi(n as nat) as int;
    if f.len() <= deg || c.len() < deg {
        None
    } else {
        match reduce_from(c, f, deg, c.len() as int) {
            Some(t) => Some(t.take(deg)),
            None => None,
        }
    }
}

/// Coefficients of the product of two elements of Q(ζ_n): each `a_i b_j` lands on
/// `ζ^((i+j) mod n)`, and the result is reduced modulo Φ_n.
pub open spec fn cyc_mul_spec(a: Seq<Q>, b: Seq<Q>, n: int) -> Option<Seq<Q>> {
    match cyc_rows(a, b, n, n, a.len() as int) {
        Some(full) => cyc_reduce(full, n),
        None => None,
    }
}

/// The coefficients after ζ^k ↦ ζ^(n−k), in all `n` powers.
pub open spec fn conj_full(c: Seq<Q>, n: int) -> Seq<Q> {
    Seq::new(
        n as nat,
        |j: int|
            if j == 0 {
                c[0]
            } else if n - j < c.len() {
                c[n - j]
            } else {
                Q(0, 1)
            },
    )
}

/// Coefficients of the conjugate (ζ^k ↦ ζ^(n−k)), reduced modulo Φ_n.
pub open spec fn cyc_conj_spec(c: Seq<Q>, n: int) -> Option<Seq<Q>> {
    cyc_reduce(conj_full(c, n), n)
}

proof fn lemma_cyc_term_len(acc: Option<Seq<Q>>, x: Q, y: Q, power: int, phi: int)
    requires
        acc is Some,
        acc->0.len() == phi,
        power >= 0,
    ensures
        cyc_term(acc, x, y, power, phi) is Some ==> cyc_term(acc, x, y, power, phi)->0.len() == acc->0.len(),
{
}

proof fn lemma_cyc_row_some(a: Seq<Q>, b: Seq<Q>, n: int, phi: int, i: int, j: int, k: int, acc: Option<Seq<Q>>)
    requires
        0 <= k <= j,
        cyc_row(a, b, n, phi, i, j, acc) is Some,
    ensures
        cyc_row(a, b, n, phi, i, k, acc) is Some,
    decreases j - k,
{
    if k < j {
        lemma_cyc_row_some(a, b, n, phi, i, j - 1, k, acc);
    }
}

proof fn lemma_cyc_row_len(a: Seq<Q>, b: Seq<Q>, n: int, phi: int, i: int, j: int, acc: Option<Seq<Q>>)
    requires
        n > 0,
        acc is Some,
        acc->0.len() == phi,
        cyc_row(a, b, n, phi, i, j, acc) is Some,
    ensures
        cyc_row(a, b, n, phi, i, j, acc)->0.len() == acc->0.len(),
    decreases j,
{
    if j > 0 {
        lemma_cyc_row_some(a, b, n, phi, i, j, j - 1, acc);
        lemma_cyc_row_len(a, b, n, phi, i, j - 1, acc);
        lemma_cyc_term_len(cyc_row(a, b, n, phi, i, j - 1, acc), a[i], b[j - 1], (i + j - 1) % n, phi);
    }
}

proof fn lemma_cyc_rows_some(a: Seq<Q>, b: Seq<Q>, n: int, phi: int, i: int, k: int)
    requires
        n > 0,
        phi >= 0,
        0 <= k <= i,
        cyc_rows(a, b, n, phi, i) is Some,
    ensures
        cyc_rows(a, b, n, phi, k) is Some,
        cyc_rows(a, b, n, phi, k)->0.len() == phi,
    decreases i - k, i,
{
    if k < i {
        let prev = cyc_rows(a, b, n, phi, i - 1);
        if prev is None {
            lemma_cyc_row_none(a, b, n, phi, i - 1, b.len() as int);
        }
        lemma_cyc_rows_some(a, b, n, phi, i - 1, k);
    } else if i > 0 {
        let prev = cyc_rows(a, b, n, phi, i - 1);
        if prev is None {
            lemma_cyc_row_none(a, b, n, phi, i - 1, b.len() as int);
        }
        lemma_cyc_rows_some(a, b, n, phi, i - 1, i - 1);
        lemma_cyc_row_len(a, b, n, phi, i - 1, b.len() as int, prev);
    }
}

proof fn lemma_cyc_row_none(a: Seq<Q>, b: Seq<Q>, n: int, phi: int, i: int, j: int)
    ensures
        cyc_row(a, b, n, phi, i, j, None) is None,
    decreases j,
{
    if j > 0 {
        lemma_cyc_row_none(a, b, n, phi, i, j - 1);
    }
}

impl Cyclotomic {
    /// The element with the given coefficients, padded with zeros to length φ(n).
    pub fn new(coeffs: Vec<Q>, n: usize) -> (r: Cyclotomic)
        requires
            n > 0,
            coeffs.len() <= phi(n as nat),
        ensures
            r.n == n,
            r.coeffs@ == coeffs@ + zeros((phi(n as nat) - coeffs.len()) as nat),
    {
        let phi_n = euler_phi(n);
        let mut padded = coeffs;
        while padded.len() < phi_n
            invariant
                phi_n == phi(n as nat),
                coeffs@.len() <= padded@.len() <= phi_n,
                padded@ == coeffs@ + zeros((padded@.len() - coeffs@.len()) as nat),
            decreases phi_n - padded.len(),
        {
            padded.push(Q::zero());
            assert(padded@ =~= coeffs@ + zeros((padded@.len() - coeffs@.len()) as nat));
        }
        Cyclotomic { coeffs: padded, n }
    }

    /// The rational `q` as an element of Q(ζ_n).
    pub fn from_rational(q: Q, n: usize) -> (r: Cyclotomic)
        requires
            phi(n as nat) > 0,
        ensures
            r.n == n,
            r.coeffs@ == zeros(phi(n as nat)).update(0, q),
    {
        let phi_n = euler_phi(n);
        let mut coeffs = vec![Q::zero(); phi_n];
        coeffs.set(0, q);
        assert(coeffs@ =~= zeros(phi(n as nat)).update(0, q));
        Cyclotomic { coeffs, n }
    }

    /// The primitive root ζ_n itself.
    pub fn primitive_root(n: usize) -> (r: Cyclotomic)
        ensures
            r.n == n,
            r.coeffs@ == (if phi(n as nat) > 1 {
                zeros(phi(n as nat)).update(1, Q(1, 1))
            } else {
                zeros(phi(n as nat))
            }),
    {
        let phi_n = euler_phi(n);
        let mut coeffs = vec![Q::zero(); phi_n];
        if phi_n > 1 {
            proof {
                arith::lemma_normalize_reduced_int(1);
            }
            coeffs.set(1, Q::new(1, 1));
        }
        assert(coeffs@ =~= (if phi(n as nat) > 1 {
            zeros(phi(n as nat)).update(1, Q(1, 1))
        } else {
            zeros(phi(n as nat))
        }));
        Cyclotomic { coeffs, n }
    }

    /// The degree [Q(ζ_n) : Q] = φ(n).
    pub fn degree(&self) -> (r: usize)
        ensures
            r == phi(self.n as nat),
    {
        euler_phi(self.n)
    }

    /// The complex conjugate (ζ^k ↦ ζ^(n−k)), reduced modulo Φ_n.
    pub fn conjugate(&self) -> (r: Cyclotomic)
        requires
            self.coeffs.len() > 0,
            self.coeffs.len() <= self.n,
            cyclotomic_fits(self.n as nat),
            cyc_conj_spec(self.coeffs@, self.n as int) is Some,
        ensures
            r.n == self.n,
            r.coeffs@ == cyc_conj_spec(self.coeffs@, self.n as int)->0,
    {
        let len = self.coeffs.len();
        let n = self.n;
        let mut full = vec![Q::zero(); n];
        full.set(0, self.coeffs[0]);
        let mut k: usize = 1;
        while k < len
            invariant
                1 <= k <= len,
                len == self.coeffs.len(),
                len <= n,
                n == self.n,
                full@.len() == n,
                full@[0] == self.coeffs@[0],
                forall|j: int|
                    1 <= j < n ==> #[trigger] full@[j] == (if n - j < k {
                        self.coeffs@[n - j]
                    } else {
                        Q(0, 1)
                    }),
            decreases len - k,
        {
            full.set(n - k, self.coeffs[k]);
            k = k + 1;
        }
        assert(full@ =~= conj_full(self.coeffs@, n as int));
        let coeffs = reduce_cyc(full, n);
        Cyclotomic { coeffs, n }
    }

    /// The constant term of `self · conj(self)`.
    pub fn norm(&self) -> (r: Q)
        requires
            self.coeffs.len() > 0,
            self.coeffs.len() <= self.n,
            cyclotomic_fits(self.n as nat),
            cyc_conj_spec(self.coeffs@, self.n as int) is Some,
            self.coeffs.len() + phi(self.n as nat) <= usize::MAX,
            phi(self.n as nat) > 0,
            cyc_mul_spec(self.coeffs@, cyc_conj_spec(self.coeffs@, self.n as int)->0, self.n as int) is Some,
        ensures
            r == cyc_mul_spec(self.coeffs@, cyc_conj_spec(self.coeffs@, self.n as int)->0, self.n as int)->0[0],
    {
        let conj = self.conjugate();
        proof {
            lemma_cyc_reduce_len(conj_full(self.coeffs@, self.n as int), self.n as int);
            lemma_cyc_reduce_len(
                cyc_rows(self.coeffs@, conj.coeffs@, self.n as int, self.n as int, self.coeffs@.len() as int)->0,
                self.n as int,
            );
        }
        let prod = self.mul_cyc(&conj);
        prod.coeffs[0]
    }

    /// φ(n) times the constant term.
    pub fn trace(&self) -> (r: Q)
        requires
            self.coeffs.len() > 0,
            phi(self.n as nat) <= i64::MAX,
            arith::in_i64(self.coeffs@[0].0 * phi(self.n as nat)),
        ensures
            r == Q((self.coeffs@[0].0 * phi(self.n as nat)) as i64, self.coeffs@[0].1),
    {
        let phi = euler_phi(self.n);
        Q(self.coeffs[0].0 * phi as i64, self.coeffs[0].1)
    }

    /// Sum of two elements of the same field, coefficientwise over the shorter length.
    pub fn add_cyc(&self, rhs: &Cyclotomic) -> (r: Cyclotomic)
        requires
            self.n == rhs.n,
            forall|i: int|
                0 <= i < self.coeffs.len() && i < rhs.coeffs.len() ==> arith::add_ok(
                    arith::qv(#[trigger] self.coeffs@[i]),
                    arith::qv(rhs.coeffs@[i]),
                ),
        ensures
            r.n == self.n,
            r.coeffs@.len() == (if self.coeffs.len() < rhs.coeffs.len() {
                self.coeffs.len()
            } else {
                rhs.coeffs.len()
            }),
            forall|i: int|
                0 <= i < r.coeffs@.len() ==> arith::qv(#[trigger] r.coeffs@[i]) == arith::add_spec(
                    arith::qv(self.coeffs@[i]),
                    arith::qv(rhs.coeffs@[i]),
                ),
    {
        let len = if self.coeffs.len() < rhs.coeffs.len() {
            self.coeffs.len()
        } else {
            rhs.coeffs.len()
        };
        let mut coeffs: Vec<Q> = Vec::new();
        let mut i: usize = 0;
        while i < len
            invariant
                i <= len,
                len <= self.coeffs.len(),
                len <= rhs.coeffs.len(),
                coeffs@.len() == i,
                forall|i: int|
                    0 <= i < self.coeffs.len() && i < rhs.coeffs.len() ==> arith::add_ok(
                        arith::qv(#[trigger] self.coeffs@[i]),
                        arith::qv(rhs.coeffs@[i]),
                    ),
                forall|k: int|
                    0 <= k < i ==> arith::qv(#[trigger] coeffs@[k]) == arith::add_spec(
                        arith::qv(self.coeffs@[k]),
                        arith::qv(rhs.coeffs@[k]),
                    ),
            decreases len - i,
        {
            coeffs.push(add_q(self.coeffs[i], rhs.coeffs[i]));
            i = i + 1;
        }
        Cyclotomic { coeffs, n: self.n }
    }

    /// Product of two elements of the same field: each `a_i b_j` is added at
    /// `ζ^((i+j) mod n)`, and the result is reduced modulo Φ_n.
    pub fn mul_cyc(&self, rhs: &Cyclotomic) -> (r: Cyclotomic)
        requires
            self.n == rhs.n,
            self.n > 0,
            self.coeffs.len() + rhs.coeffs.len() <= usize::MAX,
            cyclotomic_fits(self.n as nat),
            cyc_mul_spec(self.coeffs@, rhs.coeffs@, self.n as int) is Some,
        ensures
            r.n == self.n,
            r.coeffs@ == cyc_mul_spec(self.coeffs@, rhs.coeffs@, self.n as int)->0,
    {
        let n = self.n;
        let ghost a = self.coeffs@;
        let ghost b = rhs.coeffs@;
        let mut result = vec![Q::zero(); n];
        assert(result@ =~= zeros(n as nat));
        proof {
            assert(cyc_rows(a, b, n as int, n as int, a.len() as int) is Some);
        }
        let mut i: usize = 0;
        while i < self.coeffs.len()
            invariant
                n == self.n,
                n > 0,
                a == self.coeffs@,
                b == rhs.coeffs@,
                i <= a.len(),
                a.len() + b.len() <= usize::MAX,
                cyc_rows(a, b, n as int, n as int, a.len() as int) is Some,
                cyc_rows(a, b, n as int, n as int, i as int) == Some(result@),
            decreases a.len() - i,
        {
            let ghost row_start = result@;
            proof {
                lemma_cyc_rows_some(a, b, n as int, n as int, a.len() as int, i + 1);
                lemma_cyc_rows_some(a, b, n as int, n as int, a.len() as int, i as int);
            }
            let mut j: usize = 0;
            while j < rhs.coeffs.len()
                invariant
                    n == self.n,
                    n > 0,
                    a == self.coeffs@,
                    b == rhs.coeffs@,
                    i < a.len(),
                    j <= b.len(),
                    a.len() + b.len() <= usize::MAX,
                    row_start.len() == n,
                    cyc_row(a, b, n as int, n as int, i as int, b.len() as int, Some(row_start)) is Some,
                    cyc_row(a, b, n as int, n as int, i as int, j as int, Some(row_start)) == Some(result@),
                decreases b.len() - j,
            {
                proof {
                    lemma_cyc_row_some(a, b, n as int, n as int, i as int, b.len() as int, j + 1, Some(row_start));
                    lemma_cyc_row_len(a, b, n as int, n as int, i as int, j as int, Some(row_start));
                }
                let x = self.coeffs[i];
                let y = rhs.coeffs[j];
                let power = (i + j) % n;
                let coeff = mul_q(x, y);
                let s = add_q(result[power], coeff);
                result.set(power, s);
                j = j + 1;
            }
            i = i + 1;
        }
        proof {
            lemma_cyc_rows_some(a, b, n as int, n as int, a.len() as int, a.len() as int);
        }
        let coeffs = reduce_cyc(result, n);
        Cyclotomic { coeffs, n }
    }
}

/// Reduction keeps the length.
proof fn lemma_reduce_row_len(c: Seq<Q>, f: Seq<Q>, deg: int, top: int, coef: Q, jn: int)
    requires
        deg <= top < c.len(),
        0 <= jn <= deg,
        reduce_row(c, f, deg, top, coef, jn) is Some,
    ensures
        reduce_row(c, f, deg, top, coef, jn)->0.len() == c.len(),
    decreases jn,
{
    if jn > 0 {
        lemma_reduce_row_len(c, f, deg, top, coef, jn - 1);
    }
}

/// A row that succeeds over `jn` terms succeeds over fewer.
proof fn lemma_reduce_row_some(c: Seq<Q>, f: Seq<Q>, deg: int, top: int, coef: Q, jn: int, k: int)
    requires
        0 <= k <= jn,
        reduce_row(c, f, deg, top, coef, jn) is Some,
    ensures
        reduce_row(c, f, deg, top, coef, k) is Some,
    decreases jn - k,
{
    if k < jn {
        lemma_reduce_row_some(c, f, deg, top, coef, jn - 1, k);
    }
}

/// The reduced vector has φ(n) coordinates.
proof fn lemma_cyc_reduce_len(c: Seq<Q>, n: int)
    ensures
        cyc_reduce(c, n) is Some ==> cyc_reduce(c, n)->0.len() == phi(n as nat),
{
    let deg = phi(n as nat) as int;
    if cyc_reduce(c, n) is Some {
        lemma_reduce_from_len(c, cyc_poly(n), deg, c.len() as int);
    }
}

proof fn lemma_reduce_from_len(c: Seq<Q>, f: Seq<Q>, deg: int, k: int)
    requires
        deg >= 0,
        k <= c.len(),
        reduce_from(c, f, deg, k) is Some,
    ensures
        reduce_from(c, f, deg, k)->0.len() == c.len(),
    decreases k - deg,
{
    if k > deg {
        lemma_reduce_row_len(c, f, deg, k - 1, c[k - 1], deg);
        let t = reduce_row(c, f, deg, k - 1, c[k - 1], deg)->0;
        lemma_reduce_from_len(t, f, deg, k - 1);
    }
}

/// `c` (the coefficients of all `n` powers of ζ_n) reduced modulo Φ_n (`cyc_reduce`).
fn reduce_cyc(c: Vec<Q>, n: usize) -> (r: Vec<Q>)
    requires
        n > 0,
        c@.len() == n,
        cyclotomic_fits(n as nat),
        cyc_reduce(c@, n as int) is Some,
    ensures
        r@ == cyc_reduce(c@, n as int)->0,
{
    let f = cyclotomic_polynomial(n);
    let deg = euler_phi(n);
    let ghost c0 = c@;
    let ghost target = reduce_from(c0, f.coeffs@, deg as int, n as int);
    let mut s = c;
    let mut k: usize = n;
    proof {
        lemma_coprime_count_bound(n as nat, n as nat);
    }
    while k > deg
        invariant
            deg == phi(n as nat),
            f.coeffs@ == cyc_poly(n as int),
            f.coeffs@.len() > deg,
            s@.len() == n,
            deg <= k <= n,
            target is Some,
            reduce_from(s@, f.coeffs@, deg as int, k as int) == target,
        decreases k,
    {
        let top = k - 1;
        let coef = s[top];
        let ghost s0 = s@;
        proof {
            lemma_reduce_row_len(s0, f.coeffs@, deg as int, top as int, coef, deg as int);
        }
        let mut j: usize = 0;
        while j < deg
            invariant
                deg == phi(n as nat),
                f.coeffs@.len() > deg,
                top + 1 == k,
                deg < k <= n,
                s0.len() == n,
                coef == s0[top as int],
                j <= deg,
                reduce_row(s0, f.coeffs@, deg as int, top as int, coef, deg as int) is Some,
                reduce_row(s0, f.coeffs@, deg as int, top as int, coef, j as int) == Some(s@),
            decreases deg - j,
        {
            proof {
                lemma_reduce_row_some(s0, f.coeffs@, deg as int, top as int, coef, deg as int, j as int + 1);
                lemma_reduce_row_len(s0, f.coeffs@, deg as int, top as int, coef, j as int);
            }
            let pos = top - deg + j;
            let m = mul_q(coef, f.coeffs[j]);
            let v = sub_q(s[pos], m);
            s.set(pos, v);
            j = j + 1;
        }
        k = k - 1;
    }
    let mut r: Vec<Q> = Vec::new();
    let mut i: usize = 0;
    let ghost fin = s@;
    while i < deg
        invariant
            i <= deg,
            deg <= n,
            fin.len() == n,
            s@ == fin,
            r@ == fin.take(i as int),
        decreases deg - i,
    {
        r.push(s[i]);
        proof {
            assert(fin.take(i as int + 1) =~= fin.take(i as int).push(fin[i as int]));
        }
        i = i + 1;
    }
    r
}

impl std::ops::Add for Cyclotomic {
    type Output = Self;

    fn add(self, rhs: Self) -> (r: Self)
        ensures
            r.n == self.n,
            r.coeffs@.len() == (if self.coeffs.len() < rhs.coeffs.len() {
                self.coeffs.len()
            } else {
                rhs.coeffs.len()
            }),
            forall|i: int|
                0 <= i < r.coeffs@.len() ==> arith::qv(#[trigger] r.coeffs@[i]) == arith::add_spec(
                    arith::qv(self.coeffs@[i]),
                    arith::qv(rhs.coeffs@[i]),
                ),
    {
        self.add_cyc(&rhs)
    }
}

impl vstd::std_specs::ops::AddSpecImpl for Cyclotomic {
    open spec fn obeys_add_spec() -> bool {
        false
    }

    open spec fn add_req(self, rhs: Self) -> bool {
        &&& self.n == rhs.n
        &&& forall|i: int|
            0 <= i < self.coeffs.len() && i < rhs.coeffs.len() ==> arith::add_ok(
                arith::qv(#[trigger] self.coeffs@[i]),
                arith::qv(rhs.coeffs@[i]),
            )
    }

    open spec fn add_spec(self, rhs: Self) -> Self {
        self
    }
}

impl std::ops::Mul for Cyclotomic {
    type Output = Self;

    fn mul(self, rhs: Self) -> (r: Self)
        ensures
            r.n == self.n,
            r.coeffs@ == cyc_mul_spec(self.coeffs@, rhs.coeffs@, self.n as int)->0,
    {
        self.mul_cyc(&rhs)
    }
}

impl vstd::std_specs::ops::MulSpecImpl for Cyclotomic {
    open spec fn obeys_mul_spec() -> bool {
        false
    }

    open spec fn mul_req(self, rhs: Self) -> bool {
        &&& self.n == rhs.n
        &&& self.n > 0
        &&& self.coeffs.len() + rhs.coeffs.len() <= usize::MAX
        &&& cyclotomic_fits(self.n as nat)
        &&& cyc_mul_spec(self.coeffs@, rhs.coeffs@, self.n as int) is Some
    }

    open spec fn mul_spec(self, rhs: Self) -> Self {
        self
    }
}

/// Euler's totient φ(n): the number of `k` in `1..=n` with `gcd(k, n) == 1`.
pub fn euler_phi(n: usize) -> (r: usize)
    ensures
        r == phi(n as nat),
{
    let mut count: usize = 0;
    let mut k: usize = 0;
    while k < n
        invariant
            k <= n,
            count == coprime_count(n as nat, k as nat),
            count <= k,
        decreases n - k,
    {
        k = k + 1;
        if gcd(k, n) == 1 {
            count = count + 1;
        }
    }
    count
}

/// Whether ζ_n^power is a primitive root, i.e. `power > 0` and `gcd(power, n) == 1`.
pub fn is_primitive_root(power: usize, n: usize) -> (r: bool)
    ensures
        r == (power > 0 && arith::gcd(power as nat, n as nat) == 1),
{
    if power == 0 {
        return false;
    }
    gcd(power, n) == 1
}

fn gcd(a: usize, b: usize) -> (r: usize)
    ensures
        r == arith::gcd(a as nat, b as nat),
{
    let mut x = a;
    let mut y = b;
    while y != 0
        invariant
            arith::gcd(x as nat, y as nat) == arith::gcd(a as nat, b as nat),
        decreases y,
    {
        let t = x % y;
        x = y;
        y = t;
    }
    x
}

} // verus!
