//! Truncated power series with rational coefficients, Maclaurin expansions and
//! polynomial limits.
use vstd::prelude::*;
use crate::arith;
use crate::arith::{tv, add_ok, mul_ok, sub_ok, div_ok, norm_ok};
use crate::expr_core::{self, ExprId, Node, Op, Payload, Store};
use crate::text;

verus! {

/// A power series truncated after some order: `coeffs[k]` is the coefficient of `x^k`.
#[derive(Clone, Debug, PartialEq, Eq)]
pub struct Series {
    pub coeffs: Vec<(i64, i64)>,
}

impl View for Series {
    type V = Seq<(int, int)>;

    /// The coefficients as pairs of integers.
    open spec fn view(&self) -> Seq<(int, int)> {
        cview(self.coeffs@)
    }
}

/// Pairs of `i64`s as pairs of integers.
pub open spec fn cview(v: Seq<(i64, i64)>) -> Seq<(int, int)> {
    v.map_values(|c: (i64, i64)| tv(c))
}

/// Coefficient `k` of `s`; `0` past its end.
pub open spec fn coef(s: Seq<(int, int)>, k: int) -> (int, int) {
    if 0 <= k < s.len() { s[k] } else { (0, 1) }
}

/// `n` coefficients, all zero.
pub open spec fn zero_series(n: int) -> Seq<(int, int)> {
    Seq::new(n as nat, |k: int| (0, 1))
}

/// `n` coefficients of the constant `c`.
pub open spec fn const_series(c: (int, int), n: int) -> Seq<(int, int)> {
    Seq::new(n as nat, |k: int| if k == 0 { c } else { (0, 1) })
}

/// `n` coefficients of `x`.
pub open spec fn x_series(n: int) -> Seq<(int, int)> {
    Seq::new(n as nat, |k: int| if k == 1 { (1, 1) } else { (0, 1) })
}

/// The first `n` coefficients of `a + b`, or `None` when one overflows.
pub open spec fn add_series(a: Seq<(int, int)>, b: Seq<(int, int)>, n: int) -> Option<Seq<(int, int)>> {
    if forall|k: int| 0 <= k < n ==> #[trigger] add_ok(coef(a, k), coef(b, k)) {
        Some(Seq::new(n as nat, |k: int| arith::add_spec(coef(a, k), coef(b, k))))
    } else {
        None
    }
}

/// The first `n` coefficients of `a - b`, or `None` when one overflows.
pub open spec fn sub_series(a: Seq<(int, int)>, b: Seq<(int, int)>, n: int) -> Option<Seq<(int, int)>> {
    if forall|k: int| 0 <= k < n ==> #[trigger] sub_ok(coef(a, k), coef(b, k)) {
        Some(Seq::new(n as nat, |k: int| arith::sub_spec(coef(a, k), coef(b, k))))
    } else {
        None
    }
}

/// The first `n` coefficients of `q * a`, or `None` when one overflows.
pub open spec fn scale_series(a: Seq<(int, int)>, q: (int, int), n: int) -> Option<Seq<(int, int)>> {
    if forall|k: int| 0 <= k < n ==> #[trigger] mul_ok(coef(a, k), q) {
        Some(Seq::new(n as nat, |k: int| arith::mul_spec(coef(a, k), q)))
    } else {
        None
    }
}

/// The sum of the first `j` terms `a_t * b_(i-t)` of coefficient `i` of `a * b`, each
/// product and partial sum checked.
pub open spec fn conv(a: Seq<(int, int)>, b: Seq<(int, int)>, i: int, j: int) -> Option<(int, int)>
    decreases j,
{
    if j <= 0 {
        Some((0, 1))
    } else {
        match conv(a, b, i, j - 1) {
            Some(acc) => {
                let x = coef(a, j - 1);
                let y = coef(b, i - (j - 1));
                if !mul_ok(x, y) {
                    None
                } else {
                    let p = arith::mul_spec(x, y);
                    if add_ok(acc, p) { Some(arith::add_spec(acc, p)) } else { None }
                }
            },
            None => None,
        }
    }
}

/// The value inside an option, or `0`.
pub open spec fn val(o: Option<(int, int)>) -> (int, int) {
    match o {
        Some(v) => v,
        None => (0, 1),
    }
}

/// The first `n` coefficients of `a * b`, or `None` when a step overflows.
pub open spec fn mul_series(a: Seq<(int, int)>, b: Seq<(int, int)>, n: int) -> Option<Seq<(int, int)>> {
    if forall|i: int| 0 <= i < n ==> #[trigger] conv(a, b, i, i + 1) is Some {
        Some(Seq::new(n as nat, |i: int| val(conv(a, b, i, i + 1))))
    } else {
        None
    }
}

/// Coefficient `k` of a vector of pairs, `(0, 1)` past its end.
fn coef_at(v: &Vec<(i64, i64)>, k: usize) -> (r: (i64, i64))
    ensures
        tv(r) == coef(cview(v@), k as int),
{
    if k < v.len() {
        v[k]
    } else {
        (0, 1)
    }
}

/// `n` copies of zero.
fn zeros(n: usize) -> (v: Vec<(i64, i64)>)
    ensures
        cview(v@) == zero_series(n as int),
        v@.len() == n,
        forall|k: int| 0 <= k < n ==> v@[k] == (0i64, 1i64),
{
    let mut v: Vec<(i64, i64)> = Vec::new();
    let mut i: usize = 0;
    while i < n
        invariant
            i <= n,
            v@.len() == i,
            forall|k: int| 0 <= k < i ==> v@[k] == (0i64, 1i64),
        decreases n - i,
    {
        v.push((0, 1));
        i = i + 1;
    }
    assert(cview(v@) =~= zero_series(n as int));
    v
}

impl Series {
    /// The zero series up to `order`.
    pub fn zero(order: usize) -> (s: Self)
        requires
            order < usize::MAX,
        ensures
            s@ == zero_series(order + 1),
    {
        Series { coeffs: zeros(order + 1) }
    }

    /// The series of the constant 1 up to `order`.
    pub fn one(order: usize) -> (s: Self)
        requires
            order < usize::MAX,
        ensures
            s@ == const_series((1, 1), order + 1),
    {
        let mut c = zeros(order + 1);
        c.set(0, (1, 1));
        let s = Series { coeffs: c };
        assert(s@ =~= const_series((1, 1), order + 1));
        s
    }

    /// The series of the constant `num/den`, normalized, up to `order`.
    pub fn const_q(num: i64, den: i64, order: usize) -> (s: Self)
        requires
            order < usize::MAX,
            norm_ok(num as int, den as int),
        ensures
            s@ == const_series(arith::normalize_spec(num as int, den as int), order + 1),
    {
        let mut c = zeros(order + 1);
        c.set(0, arith::q_norm(num, den));
        let s = Series { coeffs: c };
        assert(s@ =~= const_series(arith::normalize_spec(num as int, den as int), order + 1));
        s
    }

    /// The series of `x` up to `order`.
    pub fn x(order: usize) -> (s: Self)
        requires
            order < usize::MAX,
        ensures
            s@ == x_series(order + 1),
    {
        let mut c = zeros(order + 1);
        if order >= 1 {
            c.set(1, (1, 1));
        }
        let s = Series { coeffs: c };
        assert(s@ =~= x_series(order + 1));
        s
    }
}

/// `s` without its trailing zero coefficients, keeping at least one.
pub open spec fn trim_zeros(s: Seq<(int, int)>) -> Seq<(int, int)>
    decreases s.len(),
{
    if s.len() > 1 && s.last().0 == 0 { trim_zeros(s.drop_last()) } else { s }
}

/// The coefficients of `s` kept to the first `n`, then trimmed of trailing zeros.
pub open spec fn truncate_series(s: Seq<(int, int)>, n: int) -> Seq<(int, int)> {
    trim_zeros(if n <= s.len() { s.take(n) } else { s })
}

/// Whether `rat_sub(a, b)` computes without overflowing.
fn sub_fits(a: (i64, i64), b: (i64, i64)) -> (r: bool)
    ensures
        r == sub_ok(tv(a), tv(b)),
{
    b.0 != i64::MIN && arith::add_fits(a, (-b.0, b.1))
}

impl Series {
    /// The series kept up to `order`, with its trailing zero coefficients dropped (at
    /// least one coefficient stays).
    pub fn truncate(self, order: usize) -> (s: Self)
        requires
            order < usize::MAX,
        ensures
            s@ == truncate_series(self@, order + 1),
    {
        let mut c = self.coeffs;
        let ghost orig = c@;
        c.truncate(order + 1);
        proof {
            if order + 1 <= orig.len() {
                assert(cview(c@) =~= cview(orig).take(order + 1));
            }
        }
        while c.len() > 1 && c[c.len() - 1].0 == 0
            invariant
                trim_zeros(cview(c@)) == truncate_series(
                    cview(orig),
                    order + 1,
                ),
            decreases c@.len(),
        {
            let ghost before = c@;
            c.pop();
            proof {
                assert(cview(c@) =~= cview(before).drop_last());
            }
        }
        Series { coeffs: c }
    }

    /// The first `order + 1` coefficients of `self + rhs`, or `None` on overflow.
    fn checked_add(&self, rhs: &Self, order: usize) -> (r: Option<Self>)
        requires
            order < usize::MAX,
        ensures
            match (add_series(self@, rhs@, order + 1), r) {
                (None, None) => true,
                (Some(v), Some(s)) => s@ == v,
                _ => false,
            },
    {
        let n = order + 1;
        let mut out: Vec<(i64, i64)> = Vec::new();
        let mut k: usize = 0;
        while k < n
            invariant
                n == order + 1,
                k <= n,
                out@.len() == k,
                forall|j: int| 0 <= j < k ==> #[trigger] add_ok(coef(self@, j), coef(rhs@, j)),
                cview(out@) == Seq::new(k as nat, |j: int| arith::add_spec(coef(self@, j), coef(rhs@, j))),
            decreases n - k,
        {
            let a = coef_at(&self.coeffs, k);
            let b = coef_at(&rhs.coeffs, k);
            if !arith::add_fits(a, b) {
                return None;
            }
            let ghost before = out@;
            let v = arith::rat_add(a, b);
            out.push(v);
            proof {
                let ghost target = Seq::new(k as nat + 1, |j: int| arith::add_spec(coef(self@, j), coef(rhs@, j)));
                assert forall|j: int| 0 <= j < k + 1 implies #[trigger] cview(out@)[j] == target[j] by {
                    if j < k {
                        assert(out@[j] == before[j]);
                        assert(cview(before)[j] == Seq::new(k as nat, |j: int| arith::add_spec(coef(self@, j), coef(rhs@, j)))[j]);
                    }
                }
                assert(cview(out@) =~= target);
            }
            k = k + 1;
        }
        Some(Series { coeffs: out })
    }

    /// The first `order + 1` coefficients of `self - rhs`, or `None` on overflow.
    fn checked_sub(&self, rhs: &Self, order: usize) -> (r: Option<Self>)
        requires
            order < usize::MAX,
        ensures
            match (sub_series(self@, rhs@, order + 1), r) {
                (None, None) => true,
                (Some(v), Some(s)) => s@ == v,
                _ => false,
            },
    {
        let n = order + 1;
        let mut out: Vec<(i64, i64)> = Vec::new();
        let mut k: usize = 0;
        while k < n
            invariant
                n == order + 1,
                k <= n,
                out@.len() == k,
                forall|j: int| 0 <= j < k ==> #[trigger] sub_ok(coef(self@, j), coef(rhs@, j)),
                cview(out@) == Seq::new(k as nat, |j: int| arith::sub_spec(coef(self@, j), coef(rhs@, j))),
            decreases n - k,
        {
            let a = coef_at(&self.coeffs, k);
            let b = coef_at(&rhs.coeffs, k);
            if !sub_fits(a, b) {
                return None;
            }
            let ghost before = out@;
            let v = arith::rat_sub(a, b);
            out.push(v);
            proof {
                let ghost target = Seq::new(k as nat + 1, |j: int| arith::sub_spec(coef(self@, j), coef(rhs@, j)));
                assert forall|j: int| 0 <= j < k + 1 implies #[trigger] cview(out@)[j] == target[j] by {
                    if j < k {
                        assert(out@[j] == before[j]);
                        assert(cview(before)[j] == Seq::new(k as nat, |j: int| arith::sub_spec(coef(self@, j), coef(rhs@, j)))[j]);
                    }
                }
                assert(cview(out@) =~= target);
            }
            k = k + 1;
        }
        Some(Series { coeffs: out })
    }

    /// The first `order + 1` coefficients of `q * self`, or `None` on overflow.
    fn checked_scale(&self, q: (i64, i64), order: usize) -> (r: Option<Self>)
        requires
            order < usize::MAX,
        ensures
            match (scale_series(self@, tv(q), order + 1), r) {
                (None, None) => true,
                (Some(v), Some(s)) => s@ == v,
                _ => false,
            },
    {
        let n = order + 1;
        let mut out: Vec<(i64, i64)> = Vec::new();
        let mut k: usize = 0;
        while k < n
            invariant
                n == order + 1,
                k <= n,
                out@.len() == k,
                forall|j: int| 0 <= j < k ==> #[trigger] mul_ok(coef(self@, j), tv(q)),
                cview(out@) == Seq::new(k as nat, |j: int| arith::mul_spec(coef(self@, j), tv(q))),
            decreases n - k,
        {
            let a = coef_at(&self.coeffs, k);
            if !arith::mul_fits(a, q) {
                return None;
            }
            let ghost before = out@;
            let v = arith::rat_mul(a, q);
            out.push(v);
            proof {
                let ghost target = Seq::new(k as nat + 1, |j: int| arith::mul_spec(coef(self@, j), tv(q)));
                assert forall|j: int| 0 <= j < k + 1 implies #[trigger] cview(out@)[j] == target[j] by {
                    if j < k {
                        assert(out@[j] == before[j]);
                        assert(cview(before)[j] == Seq::new(k as nat, |j: int| arith::mul_spec(coef(self@, j), tv(q)))[j]);
                    }
                }
                assert(cview(out@) =~= target);
            }
            k = k + 1;
        }
        Some(Series { coeffs: out })
    }

    /// The coefficient-wise sum up to `order`.
    pub fn add(&self, rhs: &Self, order: usize) -> (s: Self)
        requires
            order < usize::MAX,
            add_series(self@, rhs@, order + 1) is Some,
        ensures
            add_series(self@, rhs@, order + 1) == Some(s@),
    {
        match self.checked_add(rhs, order) {
            Some(s) => s,
            None => Series { coeffs: Vec::new() },
        }
    }

    /// The coefficient-wise difference up to `order`.
    pub fn sub(&self, rhs: &Self, order: usize) -> (s: Self)
        requires
            order < usize::MAX,
            sub_series(self@, rhs@, order + 1) is Some,
        ensures
            sub_series(self@, rhs@, order + 1) == Some(s@),
    {
        match self.checked_sub(rhs, order) {
            Some(s) => s,
            None => Series { coeffs: Vec::new() },
        }
    }

    /// Every coefficient multiplied by `q`, up to `order`.
    pub fn scale(&self, q: (i64, i64), order: usize) -> (s: Self)
        requires
            order < usize::MAX,
            scale_series(self@, tv(q), order + 1) is Some,
        ensures
            scale_series(self@, tv(q), order + 1) == Some(s@),
    {
        match self.checked_scale(q, order) {
            Some(s) => s,
            None => Series { coeffs: Vec::new() },
        }
    }
}

/// A failed coefficient of a product stays failed as more terms come.
proof fn lemma_conv_none(a: Seq<(int, int)>, b: Seq<(int, int)>, i: int, j: int, m: int)
    requires
        0 <= j <= m,
        conv(a, b, i, j) is None,
    ensures
        conv(a, b, i, m) is None,
    decreases m - j,
{
    if m > j {
        lemma_conv_none(a, b, i, j, m - 1);
    }
}

/// The composition loop from step `k`: `out` holds the terms so far and `p` the power
/// `inner^k`; each nonzero coefficient `a_k` adds `a_k * p`, then `p` is multiplied by
/// `inner`. `None` when a step overflows.
pub open spec fn compose_loop(
    s: Seq<(int, int)>,
    inner: Seq<(int, int)>,
    n: int,
    k: int,
    out: Seq<(int, int)>,
    p: Seq<(int, int)>,
) -> Option<Seq<(int, int)>>
    decreases n - k,
{
    if k >= n {
        Some(out)
    } else {
        let a = coef(s, k);
        let out2 = if a.0 != 0 {
            match scale_series(p, a, n) {
                Some(term) => add_series(out, term, n),
                None => None,
            }
        } else {
            Some(out)
        };
        match out2 {
            Some(o) => match mul_series(p, inner, n) {
                Some(p2) => compose_loop(s, inner, n, k + 1, o, p2),
                None => None,
            },
            None => None,
        }
    }
}

/// The first `n` coefficients of `s(inner)`, or `None` when a step overflows.
pub open spec fn compose_series(s: Seq<(int, int)>, inner: Seq<(int, int)>, n: int) -> Option<Seq<(int, int)>> {
    compose_loop(s, inner, n, 0, zero_series(n), const_series((1, 1), n))
}

impl Series {
    /// The first `order + 1` coefficients of `self * rhs`, or `None` on overflow.
    fn checked_mul(&self, rhs: &Self, order: usize) -> (r: Option<Self>)
        requires
            order < usize::MAX,
        ensures
            match (mul_series(self@, rhs@, order + 1), r) {
                (None, None) => true,
                (Some(v), Some(s)) => s@ == v,
                _ => false,
            },
    {
        let n = order + 1;
        let mut out: Vec<(i64, i64)> = Vec::new();
        let mut i: usize = 0;
        while i < n
            invariant
                n == order + 1,
                i <= n,
                out@.len() == i,
                forall|t: int| 0 <= t < i ==> #[trigger] conv(self@, rhs@, t, t + 1) is Some,
                cview(out@) == Seq::new(i as nat, |t: int| val(conv(self@, rhs@, t, t + 1))),
            decreases n - i,
        {
            let mut acc: (i64, i64) = (0, 1);
            let mut j: usize = 0;
            while j <= i
                invariant
                    n == order + 1,
                    i < n,
                    j <= i + 1,
                    conv(self@, rhs@, i as int, j as int) == Some(tv(acc)),
                decreases i + 1 - j,
            {
                let a = coef_at(&self.coeffs, j);
                let b = coef_at(&rhs.coeffs, i - j);
                if !arith::mul_fits(a, b) {
                    proof {
                        lemma_conv_none(self@, rhs@, i as int, j as int + 1, i as int + 1);
                        assert(conv(self@, rhs@, i as int, i as int + 1) is None);
                    }
                    return None;
                }
                let prod = arith::rat_mul(a, b);
                if !arith::add_fits(acc, prod) {
                    proof {
                        lemma_conv_none(self@, rhs@, i as int, j as int + 1, i as int + 1);
                        assert(conv(self@, rhs@, i as int, i as int + 1) is None);
                    }
                    return None;
                }
                acc = arith::rat_add(acc, prod);
                j = j + 1;
            }
            let ghost before = out@;
            out.push(acc);
            proof {
                let ghost target = Seq::new(i as nat + 1, |t: int| val(conv(self@, rhs@, t, t + 1)));
                assert forall|t: int| 0 <= t < i + 1 implies #[trigger] cview(out@)[t] == target[t] by {
                    if t < i {
                        assert(out@[t] == before[t]);
                        assert(cview(before)[t] == Seq::new(i as nat, |t: int| val(conv(self@, rhs@, t, t + 1)))[t]);
                    }
                }
                assert(cview(out@) =~= target);
            }
            i = i + 1;
        }
        Some(Series { coeffs: out })
    }

    /// The composition loop (`compose_series`), or `None` on overflow.
    fn checked_compose(&self, inner: &Self, order: usize) -> (r: Option<Self>)
        requires
            order < usize::MAX,
        ensures
            match (compose_series(self@, inner@, order + 1), r) {
                (None, None) => true,
                (Some(v), Some(s)) => s@ == v,
                _ => false,
            },
    {
        let n = order + 1;
        let mut out = Series::zero(order);
        let mut p = Series::one(order);
        let mut k: usize = 0;
        while k < n
            invariant
                n == order + 1,
                k <= n,
                compose_loop(self@, inner@, n as int, k as int, out@, p@) == compose_series(self@, inner@, n as int),
            decreases n - k,
        {
            let a = coef_at(&self.coeffs, k);
            if a.0 != 0 {
                let term = match p.checked_scale(a, order) {
                    Some(t) => t,
                    None => {
                        return None;
                    },
                };
                out = match out.checked_add(&term, order) {
                    Some(o) => o,
                    None => {
                        return None;
                    },
                };
            }
            p = match p.checked_mul(inner, order) {
                Some(q) => q,
                None => {
                    return None;
                },
            };
            k = k + 1;
        }
        Some(out)
    }

    /// The Cauchy product up to `order`.
    pub fn mul(&self, rhs: &Self, order: usize) -> (s: Self)
        requires
            order < usize::MAX,
            mul_series(self@, rhs@, order + 1) is Some,
        ensures
            mul_series(self@, rhs@, order + 1) == Some(s@),
    {
        match self.checked_mul(rhs, order) {
            Some(s) => s,
            None => Series { coeffs: Vec::new() },
        }
    }

    /// `self(inner)` up to `order`; `None` unless the constant coefficient of `inner`
    /// is exactly `(0, 1)`.
    pub fn compose(&self, inner: &Self, order: usize) -> (r: Option<Self>)
        requires
            order < usize::MAX,
            coef(inner@, 0) == (0int, 1int) ==> compose_series(self@, inner@, order + 1) is Some,
        ensures
            coef(inner@, 0) != (0int, 1int) ==> r is None,
            coef(inner@, 0) == (0int, 1int) ==> (r matches Some(s) && compose_series(self@, inner@, order + 1) == Some(s@)),
    {
        let c0 = coef_at(&inner.coeffs, 0);
        if !(c0.0 == 0 && c0.1 == 1) {
            return None;
        }
        self.checked_compose(inner, order)
    }
}

/// `k!` as a product in `u128`: `None` once it overflows.
pub open spec fn fact_u128(k: nat) -> Option<nat>
    decreases k,
{
    if k == 0 {
        Some(1)
    } else {
        match fact_u128((k - 1) as nat) {
            Some(f) => if f * k <= u128::MAX { Some(f * k) } else { None },
            None => None,
        }
    }
}

/// `k!` converted to `i64` as `as` converts it (wrapping past `i64::MAX`).
pub open spec fn fact_i64(k: nat) -> int {
    match fact_u128(k) {
        Some(f) => (f as i64) as int,
        None => 0,
    }
}

/// The coefficient `sign / k!` of a Taylor series, for `k!` within `u128`.
pub open spec fn taylor_ok(sign: int, k: nat) -> bool {
    fact_u128(k) is Some && div_ok((sign, 1), (fact_i64(k), 1))
}

/// The sign `(-1)^m`.
pub open spec fn alt_sign(m: int) -> int {
    if m % 2 == 0 { 1 } else { -1 }
}

/// Which coefficients of the Taylor series of `exp`, `sin`, `cos` (`which` 0, 1, 2) are
/// `±1/k!`: all for `exp`, the odd ones for `sin`, the even ones past 0 for `cos`.
pub open spec fn taylor_at(which: int, k: int) -> bool {
    which == 0 || (which == 1 && k % 2 == 1) || (which == 2 && k > 0 && k % 2 == 0)
}

/// The sign of coefficient `k`: `+` for `exp`, `(-1)^m` at `k = 2m+1` for `sin` and at
/// `k = 2m` for `cos`.
pub open spec fn taylor_sign(which: int, k: int) -> int {
    if which == 0 { 1 } else if which == 1 { alt_sign((k - 1) / 2) } else { alt_sign(k / 2) }
}

/// Coefficient `k` of the Taylor series of `exp`, `sin`, `cos` (`which` 0, 1, 2).
pub open spec fn taylor_coeff(which: int, k: int) -> (int, int) {
    if taylor_at(which, k) {
        arith::div_spec((taylor_sign(which, k), 1), (fact_i64(k as nat), 1))
    } else if which == 2 && k == 0 {
        (1, 1)
    } else {
        (0, 1)
    }
}

/// The first `n` coefficients of `exp`, `sin` or `cos` (`which` 0, 1, 2) at 0, or `None`
/// when a factorial or a division overflows.
pub open spec fn taylor_coeffs(which: int, n: int) -> Option<Seq<(int, int)>> {
    if forall|k: int| 0 <= k < n && taylor_at(which, k) ==> #[trigger] taylor_ok(taylor_sign(which, k), k as nat) {
        Some(Seq::new(n as nat, |k: int| taylor_coeff(which, k)))
    } else {
        None
    }
}

/// The logarithm loop from step `k`: `pw` is `v^(k-1)`; step `k` adds
/// `(-1)^(k+1)/k * v^k` to `out`. `None` when a step overflows.
pub open spec fn ln_loop(v: Seq<(int, int)>, n: int, k: int, out: Seq<(int, int)>, pw: Seq<(int, int)>) -> Option<Seq<(int, int)>>
    decreases n - k,
{
    if k >= n {
        Some(out)
    } else {
        let pw2 = if k == 1 { Some(v) } else { mul_series(pw, v, n) };
        let c = (alt_sign(k + 1), 1int);
        match pw2 {
            None => None,
            Some(p2) => if !div_ok(c, ((k as i64) as int, 1)) {
                None
            } else {
                match scale_series(p2, arith::div_spec(c, ((k as i64) as int, 1)), n) {
                    Some(t) => match add_series(out, t, n) {
                        Some(o) => ln_loop(v, n, k + 1, o, p2),
                        None => None,
                    },
                    None => None,
                }
            },
        }
    }
}

/// The first `n` coefficients of `f(u)` for the function named `name`, `su` being the
/// series of `u`: `exp`, `sin` and `cos` need `u(0) = 0`, `ln` and `log` need `u(0) = 1`.
pub open spec fn fn_series(name: Seq<char>, su: Seq<(int, int)>, n: int) -> Option<Seq<(int, int)>> {
    if name == seq!['e', 'x', 'p'] || name == seq!['s', 'i', 'n'] || name == seq!['c', 'o', 's'] {
        if coef(su, 0) != (0int, 1int) {
            None
        } else {
            let base = if name == seq!['e', 'x', 'p'] {
                taylor_coeffs(0, n)
            } else if name == seq!['s', 'i', 'n'] {
                taylor_coeffs(1, n)
            } else {
                taylor_coeffs(2, n)
            };
            match base {
                Some(b) => compose_series(b, su, n),
                None => None,
            }
        }
    } else if name == seq!['l', 'n'] || name == seq!['l', 'o', 'g'] {
        if coef(su, 0) != (1int, 1int) {
            None
        } else {
            match sub_series(su, const_series((1, 1), n), n) {
                Some(v) => ln_loop(v, n, 1, zero_series(n), const_series((1, 1), n)),
                None => None,
            }
        }
    } else {
        None
    }
}

/// The `k`-th power of `b`, by repeated products from 1, `n` coefficients.
pub open spec fn pow_series(b: Seq<(int, int)>, k: nat, n: int) -> Option<Seq<(int, int)>>
    decreases k,
{
    if k == 0 {
        Some(const_series((1, 1), n))
    } else {
        match pow_series(b, (k - 1) as nat, n) {
            Some(s) => mul_series(s, b, n),
            None => None,
        }
    }
}

/// The first `n` Maclaurin coefficients of node `id` in the variable `var`: numbers,
/// `var` itself, sums, products, powers to integer exponents `>= 0`, and `exp`, `sin`,
/// `cos`, `ln`/`log` of one argument; `None` for anything else or on overflow.
pub open spec fn mac(nodes: Seq<Node>, id: int, var: Seq<char>, n: int) -> Option<Seq<(int, int)>>
    decreases id, 1int, 0int,
{
    if !(0 <= id < nodes.len()) {
        None
    } else {
        let nd = nodes[id];
        let len = nd.children@.len() as int;
        match (nd.op, nd.payload) {
            (Op::Integer, Payload::Int(k)) => if norm_ok(k as int, 1) {
                Some(const_series(arith::normalize_spec(k as int, 1), n))
            } else {
                None
            },
            (Op::Rational, Payload::Rat(p, d)) => if norm_ok(p as int, d as int) {
                Some(const_series(arith::normalize_spec(p as int, d as int), n))
            } else {
                None
            },
            (Op::Symbol, Payload::Sym(s)) => if s@ == var { Some(x_series(n)) } else { None },
            (Op::Add, _) => mac_sum(nodes, id, var, n, len),
            (Op::Mul, _) => mac_prod(nodes, id, var, n, len),
            (Op::Pow, _) => {
                let e = nd.children@[1].0 as int;
                if len < 2 || !(0 <= e < nodes.len()) {
                    None
                } else {
                    match (nodes[e].op, nodes[e].payload) {
                        (Op::Integer, Payload::Int(m)) => if m >= 0 {
                            match mac_child(nodes, id, var, n, 0) {
                                Some(b) => pow_series(b, (m as usize) as nat, n),
                                None => None,
                            }
                        } else {
                            None
                        },
                        _ => None,
                    }
                }
            },
            (Op::Function, Payload::Func(name)) => if len != 1 {
                None
            } else {
                match mac_child(nodes, id, var, n, 0) {
                    Some(su) => fn_series(name@, su, n),
                    None => None,
                }
            },
            _ => None,
        }
    }
}

/// The series of child `k` of node `id`.
pub open spec fn mac_child(nodes: Seq<Node>, id: int, var: Seq<char>, n: int, k: int) -> Option<Seq<(int, int)>>
    decreases id, 0int, 0int,
{
    if 0 <= id < nodes.len() && 0 <= k < nodes[id].children@.len() && 0 <= nodes[id].children@[k].0 < id {
        mac(nodes, nodes[id].children@[k].0 as int, var, n)
    } else {
        None
    }
}

/// The sum of the series of the first `k` children of `id`, from zero.
pub open spec fn mac_sum(nodes: Seq<Node>, id: int, var: Seq<char>, n: int, k: int) -> Option<Seq<(int, int)>>
    decreases id, 0int, k,
{
    if k <= 0 {
        Some(zero_series(n))
    } else {
        match (mac_sum(nodes, id, var, n, k - 1), mac_child(nodes, id, var, n, k - 1)) {
            (Some(acc), Some(sc)) => add_series(acc, sc, n),
            _ => None,
        }
    }
}

/// The product of the series of the first `k` children of `id`, from one.
pub open spec fn mac_prod(nodes: Seq<Node>, id: int, var: Seq<char>, n: int, k: int) -> Option<Seq<(int, int)>>
    decreases id, 0int, k,
{
    if k <= 0 {
        Some(const_series((1, 1), n))
    } else {
        match (mac_prod(nodes, id, var, n, k - 1), mac_child(nodes, id, var, n, k - 1)) {
            (Some(acc), Some(sf)) => mul_series(acc, sf, n),
            _ => None,
        }
    }
}

/// A product of series that failed stays failed through further powers.
proof fn lemma_pow_series_none(b: Seq<(int, int)>, i: nat, k: nat, n: int)
    requires
        i <= k,
        pow_series(b, i, n) is None,
    ensures
        pow_series(b, k, n) is None,
    decreases k - i,
{
    if k > i {
        lemma_pow_series_none(b, i, (k - 1) as nat, n);
    }
}

/// A failed sum of child series stays failed.
proof fn lemma_mac_sum_none(nodes: Seq<Node>, id: int, var: Seq<char>, n: int, k: int, m: int)
    requires
        0 <= k <= m,
        mac_sum(nodes, id, var, n, k) is None,
    ensures
        mac_sum(nodes, id, var, n, m) is None,
    decreases m - k,
{
    if m > k {
        lemma_mac_sum_none(nodes, id, var, n, k, m - 1);
    }
}

/// A failed product of child series stays failed.
proof fn lemma_mac_prod_none(nodes: Seq<Node>, id: int, var: Seq<char>, n: int, k: int, m: int)
    requires
        0 <= k <= m,
        mac_prod(nodes, id, var, n, k) is None,
    ensures
        mac_prod(nodes, id, var, n, m) is None,
    decreases m - k,
{
    if m > k {
        lemma_mac_prod_none(nodes, id, var, n, k, m - 1);
    }
}

/// `k!` in `u128` as an option, the form the loops below carry it in.
pub open spec fn fact_is(k: nat, fo: Option<u128>) -> bool {
    match fo {
        Some(f) => fact_u128(k) == Some(f as nat),
        None => fact_u128(k) is None,
    }
}

/// `(k + 1)!` from `k!`.
fn next_fact(k: usize, fo: Option<u128>) -> (r: Option<u128>)
    requires
        fact_is(k as nat, fo),
    ensures
        fact_is(k as nat + 1, r),
{
    match fo {
        Some(f) => f.checked_mul(k as u128 + 1),
        None => None,
    }
}

/// The Taylor coefficient `sign / k!`, or `None` when `k!` or the division overflows.
fn taylor_term(sign: i64, k: usize, fo: Option<u128>) -> (r: Option<(i64, i64)>)
    requires
        fact_is(k as nat, fo),
    ensures
        match r {
            Some(c) => taylor_ok(sign as int, k as nat) && tv(c) == arith::div_spec((sign as int, 1), (fact_i64(k as nat), 1)),
            None => !taylor_ok(sign as int, k as nat),
        },
{
    match fo {
        None => None,
        Some(f) => {
            let d = f as i64;
            if !arith::div_fits((sign, 1), (d, 1)) {
                return None;
            }
            Some(arith::q_div((sign, 1), (d, 1)))
        },
    }
}

/// The Maclaurin coefficients of `exp`, `sin` or `cos` (`which` 0, 1 or 2) up to `order`.
fn taylor_base(which: u8, order: usize) -> (r: Option<Series>)
    requires
        order < usize::MAX,
        which < 3,
    ensures
        match (taylor_coeffs(which as int, order + 1), r) {
            (None, None) => true,
            (Some(v), Some(s)) => s@ == v,
            _ => false,
        },
{
    let n = order + 1;
    let mut c: Vec<(i64, i64)> = Vec::new();
    let mut fo: Option<u128> = Some(1);
    let mut k: usize = 0;
    while k < n
        invariant
            n == order + 1,
            which < 3,
            k <= n,
            c@.len() == k,
            fact_is(k as nat, fo),
            forall|j: int| 0 <= j < k && taylor_at(which as int, j) ==> #[trigger] taylor_ok(taylor_sign(which as int, j), j as nat),
            forall|j: int| 0 <= j < k ==> #[trigger] cview(c@)[j] == taylor_coeff(which as int, j),
        decreases n - k,
    {
        let wanted = which == 0 || (which == 1 && k % 2 == 1) || (which == 2 && k > 0 && k % 2 == 0);
        let v: (i64, i64) = if wanted {
            let sign: i64 = if which == 0 {
                1
            } else if which == 1 {
                if ((k - 1) / 2) % 2 == 0 { 1 } else { -1 }
            } else {
                if (k / 2) % 2 == 0 { 1 } else { -1 }
            };
            proof {
                assert(sign as int == taylor_sign(which as int, k as int));
            }
            match taylor_term(sign, k, fo) {
                Some(t) => t,
                None => {
                    proof {
                        let ghost kk = k as int;
                        assert(taylor_at(which as int, kk));
                        assert(!taylor_ok(taylor_sign(which as int, kk), kk as nat));
                        assert(taylor_coeffs(which as int, order + 1) is None);
                    }
                    return None;
                },
            }
        } else if which == 2 && k == 0 {
            (1, 1)
        } else {
            (0, 1)
        };
        let ghost before = c@;
        c.push(v);
        proof {
            assert forall|j: int| 0 <= j < k + 1 implies #[trigger] cview(c@)[j] == taylor_coeff(which as int, j) by {
                if j < k {
                    assert(c@[j] == before[j]);
                    assert(cview(before)[j] == taylor_coeff(which as int, j));
                }
            }
        }
        fo = next_fact(k, fo);
        k = k + 1;
    }
    let s = Series { coeffs: c };
    proof {
        assert(s@ =~= Seq::new(n as nat, |k: int| taylor_coeff(which as int, k)));
    }
    Some(s)
}

impl Series {
    /// A copy of the series.
    fn copy(&self) -> (r: Series)
        ensures
            r@ == self@,
    {
        let mut c: Vec<(i64, i64)> = Vec::new();
        let mut i: usize = 0;
        while i < self.coeffs.len()
            invariant
                i <= self.coeffs@.len(),
                c@ == self.coeffs@.take(i as int),
            decreases self.coeffs@.len() - i,
        {
            c.push(self.coeffs[i]);
            proof {
                assert(self.coeffs@.take(i as int + 1) =~= self.coeffs@.take(i as int).push(self.coeffs@[i as int]));
            }
            i = i + 1;
        }
        proof {
            assert(self.coeffs@.take(self.coeffs@.len() as int) =~= self.coeffs@);
        }
        Series { coeffs: c }
    }
}

/// The logarithm series of `ln(su)` for `su(0) = 1`: `sum (-1)^(k+1) (su - 1)^k / k`.
fn ln_series(su: &Series, order: usize) -> (r: Option<Series>)
    requires
        order < usize::MAX,
    ensures
        match (
            match sub_series(su@, const_series((1, 1), order + 1), order + 1) {
                Some(v) => ln_loop(v, order + 1, 1, zero_series(order + 1), const_series((1, 1), order + 1)),
                None => None,
            },
            r,
        ) {
            (None, None) => true,
            (Some(v), Some(s)) => s@ == v,
            _ => false,
        },
{
    let n = order + 1;
    let one = Series::one(order);
    let v = match su.checked_sub(&one, order) {
        Some(v) => v,
        None => {
            return None;
        },
    };
    let mut out = Series::zero(order);
    let mut pw = Series::one(order);
    let mut k: usize = 1;
    while k < n
        invariant
            n == order + 1,
            1 <= k <= n,
            sub_series(su@, const_series((1, 1), n as int), n as int) == Some(v@),
            ln_loop(v@, n as int, k as int, out@, pw@) == ln_loop(v@, n as int, 1, zero_series(n as int), const_series((1, 1), n as int)),
        decreases n - k,
    {
        pw = if k == 1 {
            v.copy()
        } else {
            match pw.checked_mul(&v, order) {
                Some(p) => p,
                None => {
                    return None;
                },
            }
        };
        let sign: i64 = if k % 2 == 1 { 1 } else { -1 };
        proof {
            assert(sign as int == alt_sign(k as int + 1));
        }
        let kk = k as i64;
        if !arith::div_fits((sign, 1), (kk, 1)) {
            return None;
        }
        let coeff = arith::q_div((sign, 1), (kk, 1));
        let t = match pw.checked_scale(coeff, order) {
            Some(t) => t,
            None => {
                return None;
            },
        };
        out = match out.checked_add(&t, order) {
            Some(o) => o,
            None => {
                return None;
            },
        };
        k = k + 1;
    }
    Some(out)
}

/// The Maclaurin series of node `id` in `var` up to `order` (`mac`): numbers, `var`,
/// sums, products, powers to integer exponents `>= 0`, and `exp`, `sin`, `cos` of an
/// argument vanishing at 0 and `ln`/`log` of an argument equal to 1 at 0. `None` for
/// anything else, and when a coefficient overflows `i64`.
pub fn maclaurin(store: &Store, id: ExprId, var: &str, order: usize) -> (r: Option<Series>)
    requires
        store.wf(),
        id.0 < store.nodes().len(),
        order < usize::MAX,
    ensures
        match (mac(store.nodes(), id.0 as int, var@, order + 1), r) {
            (None, None) => true,
            (Some(v), Some(s)) => s@ == v,
            _ => false,
        },
    decreases id.0,
{
    let ghost nodes = store.nodes();
    let ghost i = id.0 as int;
    let ghost n = order as int + 1;
    let nd = store.get(id);
    let len = nd.children.len();
    match (&nd.op, &nd.payload) {
        (Op::Integer, Payload::Int(k)) => {
            if *k == i64::MIN {
                return None;
            }
            Some(Series::const_q(*k, 1, order))
        },
        (Op::Rational, Payload::Rat(p, d)) => {
            if *d == 0 || *p == i64::MIN || *d == i64::MIN {
                return None;
            }
            Some(Series::const_q(*p, *d, order))
        },
        (Op::Symbol, Payload::Sym(name)) => {
            if text::string_is(name, var) {
                Some(Series::x(order))
            } else {
                None
            }
        },
        (Op::Add, _) => {
            let mut acc = Series::zero(order);
            let mut k: usize = 0;
            while k < len
                invariant
                    store.wf(),
                    nodes == store.nodes(),
                    *nd == nodes[i],
                    0 <= i < nodes.len(),
                    i == id.0,
                    n == order + 1,
                    order < usize::MAX,
                    len == nd.children@.len(),
                    k <= len,
                    mac_sum(nodes, i, var@, n, k as int) == Some(acc@),
                    mac(nodes, i, var@, n) == mac_sum(nodes, i, var@, n, len as int),
                decreases len - k,
            {
                let c = nd.children[k];
                assert(nd.children@[k as int].0 < i);
                assert(mac_child(nodes, i, var@, n, k as int) == mac(nodes, c.0 as int, var@, n));
                let sc = match maclaurin(store, c, var, order) {
                    Some(sc) => sc,
                    None => {
                        proof {
                            lemma_mac_sum_none(nodes, i, var@, n, k as int + 1, len as int);
                        }
                        return None;
                    },
                };
                acc = match acc.checked_add(&sc, order) {
                    Some(a) => a,
                    None => {
                        proof {
                            lemma_mac_sum_none(nodes, i, var@, n, k as int + 1, len as int);
                        }
                        return None;
                    },
                };
                k = k + 1;
            }
            Some(acc)
        },
        (Op::Mul, _) => {
            let mut acc = Series::one(order);
            let mut k: usize = 0;
            while k < len
                invariant
                    store.wf(),
                    nodes == store.nodes(),
                    *nd == nodes[i],
                    0 <= i < nodes.len(),
                    i == id.0,
                    n == order + 1,
                    order < usize::MAX,
                    len == nd.children@.len(),
                    k <= len,
                    mac_prod(nodes, i, var@, n, k as int) == Some(acc@),
                    mac(nodes, i, var@, n) == mac_prod(nodes, i, var@, n, len as int),
                decreases len - k,
            {
                let c = nd.children[k];
                assert(nd.children@[k as int].0 < i);
                assert(mac_child(nodes, i, var@, n, k as int) == mac(nodes, c.0 as int, var@, n));
                let sf = match maclaurin(store, c, var, order) {
                    Some(sf) => sf,
                    None => {
                        proof {
                            lemma_mac_prod_none(nodes, i, var@, n, k as int + 1, len as int);
                        }
                        return None;
                    },
                };
                acc = match acc.checked_mul(&sf, order) {
                    Some(a) => a,
                    None => {
                        proof {
                            lemma_mac_prod_none(nodes, i, var@, n, k as int + 1, len as int);
                        }
                        return None;
                    },
                };
                k = k + 1;
            }
            Some(acc)
        },
        (Op::Pow, _) => {
            if len < 2 {
                return None;
            }
            let base = nd.children[0];
            let e = nd.children[1];
            assert(base.0 < i && e.0 < i);
            let en = store.get(e);
            let m: usize = match (&en.op, &en.payload) {
                (Op::Integer, Payload::Int(m)) => {
                    if *m < 0 {
                        return None;
                    }
                    *m as usize
                },
                _ => {
                    return None;
                },
            };
            assert(mac_child(nodes, i, var@, n, 0) == mac(nodes, base.0 as int, var@, n));
            let b = match maclaurin(store, base, var, order) {
                Some(b) => b,
                None => {
                    return None;
                },
            };
            assert(mac(nodes, i, var@, n) == pow_series(b@, m as nat, n));
            let mut s = Series::one(order);
            let mut t: usize = 0;
            while t < m
                invariant
                    mac(nodes, i, var@, n) == pow_series(b@, m as nat, n),
                    i == id.0,
                    nodes == store.nodes(),
                    t <= m,
                    order < usize::MAX,
                    n == order + 1,
                    pow_series(b@, t as nat, n) == Some(s@),
                decreases m - t,
            {
                s = match s.checked_mul(&b, order) {
                    Some(p) => p,
                    None => {
                        proof {
                            lemma_pow_series_none(b@, t as nat + 1, m as nat, n);
                        }
                        return None;
                    },
                };
                t = t + 1;
            }
            Some(s)
        },
        (Op::Function, Payload::Func(name)) => {
            if len != 1 {
                return None;
            }
            let u = nd.children[0];
            assert(u.0 < i);
            assert(mac_child(nodes, i, var@, n, 0) == mac(nodes, u.0 as int, var@, n));
            let su = match maclaurin(store, u, var, order) {
                Some(su) => su,
                None => {
                    return None;
                },
            };
            proof {
                reveal_strlit("exp");
                reveal_strlit("sin");
                reveal_strlit("cos");
                reveal_strlit("ln");
                reveal_strlit("log");
                assert("exp"@ =~= seq!['e', 'x', 'p']);
                assert("sin"@ =~= seq!['s', 'i', 'n']);
                assert("cos"@ =~= seq!['c', 'o', 's']);
                assert("ln"@ =~= seq!['l', 'n']);
                assert("log"@ =~= seq!['l', 'o', 'g']);
            }
            let c0 = coef_at(&su.coeffs, 0);
            let which: u8 = if text::string_is(name, "exp") {
                0
            } else if text::string_is(name, "sin") {
                1
            } else if text::string_is(name, "cos") {
                2
            } else if text::string_is(name, "ln") || text::string_is(name, "log") {
                3
            } else {
                return None;
            };
            if which < 3 {
                if !(c0.0 == 0 && c0.1 == 1) {
                    return None;
                }
                let base = match taylor_base(which, order) {
                    Some(b) => b,
                    None => {
                        return None;
                    },
                };
                base.checked_compose(&su, order)
            } else {
                if !(c0.0 == 1 && c0.1 == 1) {
                    return None;
                }
                ln_series(&su, order)
            }
        },
        _ => None,
    }
}

/// The point a limit is taken at.
#[derive(Clone, Copy, Debug, PartialEq, Eq)]
pub enum LimitPoint {
    Zero,
    PosInf,
}

/// The outcome of a limit.
#[derive(Clone, Copy, Debug, PartialEq, Eq)]
pub enum LimitResult {
    Finite((i64, i64)),
    Infinity,
    Indeterminate,
    Unsupported,
}

/// The value at `var = 0` of a polynomial-like node: numbers, `var`, sums, products and
/// powers to integer exponents `>= 0`, unnormalized where no operation touched it;
/// `None` for anything else, or on overflow.
pub open spec fn const_term(nodes: Seq<Node>, id: int, var: Seq<char>) -> Option<(int, int)>
    decreases id, 1int, 0int,
{
    if !(0 <= id < nodes.len()) {
        None
    } else {
        let nd = nodes[id];
        let len = nd.children@.len() as int;
        match (nd.op, nd.payload) {
            (Op::Integer, Payload::Int(k)) => Some((k as int, 1)),
            (Op::Rational, Payload::Rat(p, d)) => Some((p as int, d as int)),
            (Op::Symbol, Payload::Sym(s)) => if s@ == var { Some((0, 1)) } else { None },
            (Op::Add, _) => ct_sum(nodes, id, var, len),
            (Op::Mul, _) => ct_prod(nodes, id, var, len),
            (Op::Pow, _) => {
                let e = nd.children@[1].0 as int;
                if len < 2 || !(0 <= e < nodes.len()) {
                    None
                } else {
                    match (nodes[e].op, nodes[e].payload) {
                        (Op::Integer, Payload::Int(m)) => if m >= 0 {
                            match ct_child(nodes, id, var, 0) {
                                Some(c) => ct_power(c, (m as usize) as nat),
                                None => None,
                            }
                        } else {
                            None
                        },
                        _ => None,
                    }
                }
            },
            _ => None,
        }
    }
}

/// `c^k` by `k` checked products from 1.
pub open spec fn ct_power(c: (int, int), k: nat) -> Option<(int, int)>
    decreases k,
{
    if k == 0 {
        Some((1, 1))
    } else {
        match ct_power(c, (k - 1) as nat) {
            Some(a) => if mul_ok(a, c) { Some(arith::mul_spec(a, c)) } else { None },
            None => None,
        }
    }
}

/// The value at 0 of child `k` of `id`.
pub open spec fn ct_child(nodes: Seq<Node>, id: int, var: Seq<char>, k: int) -> Option<(int, int)>
    decreases id, 0int, 0int,
{
    if 0 <= id < nodes.len() && 0 <= k < nodes[id].children@.len() && 0 <= nodes[id].children@[k].0 < id {
        const_term(nodes, nodes[id].children@[k].0 as int, var)
    } else {
        None
    }
}

/// The checked sum of the values at 0 of the first `k` children.
pub open spec fn ct_sum(nodes: Seq<Node>, id: int, var: Seq<char>, k: int) -> Option<(int, int)>
    decreases id, 0int, k,
{
    if k <= 0 {
        Some((0, 1))
    } else {
        match (ct_sum(nodes, id, var, k - 1), ct_child(nodes, id, var, k - 1)) {
            (Some(a), Some(c)) => if add_ok(a, c) { Some(arith::add_spec(a, c)) } else { None },
            _ => None,
        }
    }
}

/// The checked product of the values at 0 of the first `k` children.
pub open spec fn ct_prod(nodes: Seq<Node>, id: int, var: Seq<char>, k: int) -> Option<(int, int)>
    decreases id, 0int, k,
{
    if k <= 0 {
        Some((1, 1))
    } else {
        match (ct_prod(nodes, id, var, k - 1), ct_child(nodes, id, var, k - 1)) {
            (Some(a), Some(c)) => if mul_ok(a, c) { Some(arith::mul_spec(a, c)) } else { None },
            _ => None,
        }
    }
}

/// `x` fits in `isize`.
pub open spec fn in_isize(x: int) -> bool {
    isize::MIN <= x <= isize::MAX
}

/// The degree in `var` of a polynomial-like node, `-1` for zero; `None` for anything
/// else, or when the degree overflows `isize`.
pub open spec fn degree_of(nodes: Seq<Node>, id: int, var: Seq<char>) -> Option<int>
    decreases id, 1int, 0int,
{
    if !(0 <= id < nodes.len()) {
        None
    } else {
        let nd = nodes[id];
        let len = nd.children@.len() as int;
        match (nd.op, nd.payload) {
            (Op::Integer, Payload::Int(k)) => Some(if k == 0 { -1 } else { 0 }),
            (Op::Rational, Payload::Rat(p, _)) => Some(if p == 0 { -1 } else { 0 }),
            (Op::Symbol, Payload::Sym(s)) => if s@ == var { Some(1) } else { None },
            (Op::Add, _) => deg_max(nodes, id, var, len),
            (Op::Mul, _) => match deg_prod(nodes, id, var, len) {
                Some((d, _)) => Some(d),
                None => None,
            },
            (Op::Pow, _) => {
                let e = nd.children@[1].0 as int;
                if len < 2 || !(0 <= e < nodes.len()) {
                    None
                } else {
                    match (nodes[e].op, nodes[e].payload) {
                        (Op::Integer, Payload::Int(m)) => if m >= 0 {
                            match deg_child(nodes, id, var, 0) {
                                Some(bd) => if bd < 0 {
                                    Some(-1)
                                } else if in_isize(bd * ((m as isize) as int)) {
                                    Some(bd * ((m as isize) as int))
                                } else {
                                    None
                                },
                                None => None,
                            }
                        } else {
                            None
                        },
                        _ => None,
                    }
                }
            },
            _ => None,
        }
    }
}

/// The degree of child `k` of `id`.
pub open spec fn deg_child(nodes: Seq<Node>, id: int, var: Seq<char>, k: int) -> Option<int>
    decreases id, 0int, 0int,
{
    if 0 <= id < nodes.len() && 0 <= k < nodes[id].children@.len() && 0 <= nodes[id].children@[k].0 < id {
        degree_of(nodes, nodes[id].children@[k].0 as int, var)
    } else {
        None
    }
}

/// The largest degree among the first `k` children, from `-1`.
pub open spec fn deg_max(nodes: Seq<Node>, id: int, var: Seq<char>, k: int) -> Option<int>
    decreases id, 0int, k,
{
    if k <= 0 {
        Some(-1)
    } else {
        match (deg_max(nodes, id, var, k - 1), deg_child(nodes, id, var, k - 1)) {
            (Some(a), Some(c)) => Some(if c > a { c } else { a }),
            _ => None,
        }
    }
}

/// The summed degree of the first `k` factors, and whether a zero factor (degree `< 0`)
/// stopped the sum at `-1`.
pub open spec fn deg_prod(nodes: Seq<Node>, id: int, var: Seq<char>, k: int) -> Option<(int, bool)>
    decreases id, 0int, k,
{
    if k <= 0 {
        Some((0, false))
    } else {
        match deg_prod(nodes, id, var, k - 1) {
            None => None,
            Some((d, true)) => Some((d, true)),
            Some((d, false)) => match deg_child(nodes, id, var, k - 1) {
                None => None,
                Some(fd) => if fd < 0 {
                    Some((-1, true))
                } else if in_isize(d + fd) {
                    Some((d + fd, false))
                } else {
                    None
                },
            },
        }
    }
}

/// The limit of a polynomial-like expression: at 0 its constant term, normalized; at
/// `+inf` `0` for the zero polynomial, the constant for degree 0, and infinity above.
/// `Unsupported` for anything else (or when a value overflows).
pub open spec fn limit_poly_result(nodes: Seq<Node>, id: int, var: Seq<char>, point: LimitPoint, r: LimitResult) -> bool {
    let finite_ct = match const_term(nodes, id, var) {
        Some(ct) => if norm_ok(ct.0, ct.1) {
            r matches LimitResult::Finite(q) && tv(q) == arith::normalize_spec(ct.0, ct.1)
        } else {
            r is Unsupported
        },
        None => r is Unsupported,
    };
    match point {
        LimitPoint::Zero => finite_ct,
        LimitPoint::PosInf => match degree_of(nodes, id, var) {
            Some(d) => if d < 0 {
                r == LimitResult::Finite((0, 1))
            } else if d == 0 {
                finite_ct
            } else {
                r is Infinity
            },
            None => r is Unsupported,
        },
    }
}

/// A failed value at 0 of a sum, product or power stays failed.
proof fn lemma_ct_none(nodes: Seq<Node>, id: int, var: Seq<char>, k: int, m: int)
    requires
        0 <= k <= m,
    ensures
        ct_sum(nodes, id, var, k) is None ==> ct_sum(nodes, id, var, m) is None,
        ct_prod(nodes, id, var, k) is None ==> ct_prod(nodes, id, var, m) is None,
        deg_max(nodes, id, var, k) is None ==> deg_max(nodes, id, var, m) is None,
        deg_prod(nodes, id, var, k) is None ==> deg_prod(nodes, id, var, m) is None,
        deg_prod(nodes, id, var, k) matches Some((_, true)) ==> deg_prod(nodes, id, var, m) == deg_prod(nodes, id, var, k),
    decreases m - k,
{
    if m > k {
        lemma_ct_none(nodes, id, var, k, m - 1);
    }
}

/// A failed power stays failed.
proof fn lemma_ct_power_none(c: (int, int), k: nat, m: nat)
    requires
        k <= m,
        ct_power(c, k) is None,
    ensures
        ct_power(c, m) is None,
    decreases m - k,
{
    if m > k {
        lemma_ct_power_none(c, k, (m - 1) as nat);
    }
}

/// The value at 0 of a polynomial-like node (`const_term`).
fn const_term_of(store: &Store, id: ExprId, var: &str) -> (r: Option<(i64, i64)>)
    requires
        store.wf(),
        id.0 < store.nodes().len(),
    ensures
        expr_core::opt_tv(r) == const_term(store.nodes(), id.0 as int, var@),
    decreases id.0,
{
    let ghost nodes = store.nodes();
    let ghost i = id.0 as int;
    let nd = store.get(id);
    let len = nd.children.len();
    match (&nd.op, &nd.payload) {
        (Op::Integer, Payload::Int(k)) => Some((*k, 1)),
        (Op::Rational, Payload::Rat(p, d)) => Some((*p, *d)),
        (Op::Symbol, Payload::Sym(name)) => {
            if text::string_is(name, var) {
                Some((0, 1))
            } else {
                None
            }
        },
        (Op::Add, _) | (Op::Mul, _) => {
            let is_add = nd.op == Op::Add;
            let mut acc: (i64, i64) = if is_add { (0, 1) } else { (1, 1) };
            let mut k: usize = 0;
            while k < len
                invariant
                    store.wf(),
                    nodes == store.nodes(),
                    *nd == nodes[i],
                    0 <= i < nodes.len(),
                    i == id.0,
                    len == nd.children@.len(),
                    k <= len,
                    is_add == (nd.op == Op::Add),
                    nd.op == Op::Add || nd.op == Op::Mul,
                    is_add ==> ct_sum(nodes, i, var@, k as int) == Some(tv(acc)),
                    !is_add ==> ct_prod(nodes, i, var@, k as int) == Some(tv(acc)),
                    is_add ==> const_term(nodes, i, var@) == ct_sum(nodes, i, var@, len as int),
                    !is_add ==> const_term(nodes, i, var@) == ct_prod(nodes, i, var@, len as int),
                decreases len - k,
            {
                let c = nd.children[k];
                assert(nd.children@[k as int].0 < i);
                assert(ct_child(nodes, i, var@, k as int) == const_term(nodes, c.0 as int, var@));
                let v = match const_term_of(store, c, var) {
                    Some(v) => v,
                    None => {
                        proof {
                            lemma_ct_none(nodes, i, var@, k as int + 1, len as int);
                        }
                        return None;
                    },
                };
                if is_add {
                    if !arith::add_fits(acc, v) {
                        proof {
                            lemma_ct_none(nodes, i, var@, k as int + 1, len as int);
                        }
                        return None;
                    }
                    acc = arith::rat_add(acc, v);
                } else {
                    if !arith::mul_fits(acc, v) {
                        proof {
                            lemma_ct_none(nodes, i, var@, k as int + 1, len as int);
                        }
                        return None;
                    }
                    acc = arith::rat_mul(acc, v);
                }
                k = k + 1;
            }
            Some(acc)
        },
        (Op::Pow, _) => {
            if len < 2 {
                return None;
            }
            let base = nd.children[0];
            let e = nd.children[1];
            assert(base.0 < i && e.0 < i);
            let en = store.get(e);
            let m: usize = match (&en.op, &en.payload) {
                (Op::Integer, Payload::Int(m)) => {
                    if *m < 0 {
                        return None;
                    }
                    *m as usize
                },
                _ => {
                    return None;
                },
            };
            assert(ct_child(nodes, i, var@, 0) == const_term(nodes, base.0 as int, var@));
            let c = match const_term_of(store, base, var) {
                Some(c) => c,
                None => {
                    return None;
                },
            };
            assert(const_term(nodes, i, var@) == ct_power(tv(c), m as nat));
            let mut acc: (i64, i64) = (1, 1);
            let mut t: usize = 0;
            while t < m
                invariant
                    t <= m,
                    nodes == store.nodes(),
                    i == id.0,
                    const_term(nodes, i, var@) == ct_power(tv(c), m as nat),
                    ct_power(tv(c), t as nat) == Some(tv(acc)),
                decreases m - t,
            {
                if !arith::mul_fits(acc, c) {
                    proof {
                        lemma_ct_power_none(tv(c), t as nat + 1, m as nat);
                    }
                    return None;
                }
                acc = arith::rat_mul(acc, c);
                t = t + 1;
            }
            Some(acc)
        },
        _ => None,
    }
}

/// The degree of a polynomial-like node (`degree_of`).
fn degree_in(store: &Store, id: ExprId, var: &str) -> (r: Option<isize>)
    requires
        store.wf(),
        id.0 < store.nodes().len(),
    ensures
        match (degree_of(store.nodes(), id.0 as int, var@), r) {
            (None, None) => true,
            (Some(d), Some(x)) => d == x as int,
            _ => false,
        },
    decreases id.0,
{
    let ghost nodes = store.nodes();
    let ghost i = id.0 as int;
    let nd = store.get(id);
    let len = nd.children.len();
    match (&nd.op, &nd.payload) {
        (Op::Integer, Payload::Int(k)) => Some(if *k == 0 { -1 } else { 0 }),
        (Op::Rational, Payload::Rat(p, _)) => Some(if *p == 0 { -1 } else { 0 }),
        (Op::Symbol, Payload::Sym(name)) => {
            if text::string_is(name, var) {
                Some(1)
            } else {
                None
            }
        },
        (Op::Add, _) => {
            let mut deg: isize = -1;
            let mut k: usize = 0;
            while k < len
                invariant
                    store.wf(),
                    nodes == store.nodes(),
                    *nd == nodes[i],
                    0 <= i < nodes.len(),
                    i == id.0,
                    len == nd.children@.len(),
                    k <= len,
                    deg_max(nodes, i, var@, k as int) == Some(deg as int),
                    degree_of(nodes, i, var@) == deg_max(nodes, i, var@, len as int),
                decreases len - k,
            {
                let c = nd.children[k];
                assert(nd.children@[k as int].0 < i);
                assert(deg_child(nodes, i, var@, k as int) == degree_of(nodes, c.0 as int, var@));
                let cd = match degree_in(store, c, var) {
                    Some(cd) => cd,
                    None => {
                        proof {
                            lemma_ct_none(nodes, i, var@, k as int + 1, len as int);
                        }
                        return None;
                    },
                };
                if cd > deg {
                    deg = cd;
                }
                k = k + 1;
            }
            Some(deg)
        },
        (Op::Mul, _) => {
            let mut deg: isize = 0;
            let mut k: usize = 0;
            while k < len
                invariant
                    store.wf(),
                    nodes == store.nodes(),
                    *nd == nodes[i],
                    0 <= i < nodes.len(),
                    i == id.0,
                    len == nd.children@.len(),
                    k <= len,
                    deg_prod(nodes, i, var@, k as int) == Some((deg as int, false)),
                    degree_of(nodes, i, var@) == (match deg_prod(nodes, i, var@, len as int) {
                        Some((d, _)) => Some(d),
                        None => None,
                    }),
                decreases len - k,
            {
                let c = nd.children[k];
                assert(nd.children@[k as int].0 < i);
                assert(deg_child(nodes, i, var@, k as int) == degree_of(nodes, c.0 as int, var@));
                let fd = match degree_in(store, c, var) {
                    Some(fd) => fd,
                    None => {
                        proof {
                            lemma_ct_none(nodes, i, var@, k as int + 1, len as int);
                        }
                        return None;
                    },
                };
                if fd < 0 {
                    proof {
                        lemma_ct_none(nodes, i, var@, k as int + 1, len as int);
                    }
                    return Some(-1);
                }
                deg = match deg.checked_add(fd) {
                    Some(d) => d,
                    None => {
                        proof {
                            lemma_ct_none(nodes, i, var@, k as int + 1, len as int);
                        }
                        return None;
                    },
                };
                k = k + 1;
            }
            Some(deg)
        },
        (Op::Pow, _) => {
            if len < 2 {
                return None;
            }
            let base = nd.children[0];
            let e = nd.children[1];
            assert(base.0 < i && e.0 < i);
            let en = store.get(e);
            let m: isize = match (&en.op, &en.payload) {
                (Op::Integer, Payload::Int(m)) => {
                    if *m < 0 {
                        return None;
                    }
                    *m as isize
                },
                _ => {
                    return None;
                },
            };
            assert(deg_child(nodes, i, var@, 0) == degree_of(nodes, base.0 as int, var@));
            let bd = match degree_in(store, base, var) {
                Some(bd) => bd,
                None => {
                    return None;
                },
            };
            if bd < 0 {
                Some(-1)
            } else {
                bd.checked_mul(m)
            }
        },
        _ => None,
    }
}

/// The limit of a polynomial-like expression in `var` at 0 or at `+inf`
/// (`limit_poly_result`).
pub fn limit_poly(store: &Store, id: ExprId, var: &str, point: LimitPoint) -> (r: LimitResult)
    requires
        store.wf(),
        id.0 < store.nodes().len(),
    ensures
        limit_poly_result(store.nodes(), id.0 as int, var@, point, r),
{
    let finite_ct = || -> (r: LimitResult)
        ensures
            match const_term(store.nodes(), id.0 as int, var@) {
                Some(ct) => if norm_ok(ct.0, ct.1) {
                    r matches LimitResult::Finite(q) && tv(q) == arith::normalize_spec(ct.0, ct.1)
                } else {
                    r is Unsupported
                },
                None => r is Unsupported,
            },
    {
        match const_term_of(store, id, var) {
            Some(ct) => {
                if ct.1 == 0 || ct.0 == i64::MIN || ct.1 == i64::MIN {
                    LimitResult::Unsupported
                } else {
                    LimitResult::Finite(arith::q_norm(ct.0, ct.1))
                }
            },
            None => LimitResult::Unsupported,
        }
    };
    match point {
        LimitPoint::Zero => finite_ct(),
        LimitPoint::PosInf => match degree_in(store, id, var) {
            Some(d) => {
                if d < 0 {
                    LimitResult::Finite((0, 1))
                } else if d == 0 {
                    finite_ct()
                } else {
                    LimitResult::Infinity
                }
            },
            None => LimitResult::Unsupported,
        },
    }
}

/// `k!`.
pub open spec fn factorial(k: nat) -> nat
    decreases k,
{
    if k == 0 {
        1
    } else {
        k * factorial((k - 1) as nat)
    }
}

proof fn lemma_factorial_monotone(a: nat, b: nat)
    requires
        a <= b,
    ensures
        1 <= factorial(a) <= factorial(b),
    decreases b,
{
    if b > a {
        lemma_factorial_monotone(a, (b - 1) as nat);
        assert(factorial(b) == b * factorial((b - 1) as nat));
        assert(b * factorial((b - 1) as nat) >= factorial((b - 1) as nat)) by (nonlinear_arith)
            requires
                b >= 1,
                factorial((b - 1) as nat) >= 1,
        ;
    } else {
        lemma_factorial_pos(a);
    }
}

proof fn lemma_factorial_pos(k: nat)
    ensures
        factorial(k) >= 1,
    decreases k,
{
    if k > 0 {
        lemma_factorial_pos((k - 1) as nat);
        assert(k * factorial((k - 1) as nat) >= 1) by (nonlinear_arith)
            requires
                k >= 1,
                factorial((k - 1) as nat) >= 1,
        ;
    }
}

proof fn lemma_factorial_20()
    ensures
        factorial(20) == 2432902008176640000,
{
    assert(factorial(0) == 1);
    assert(factorial(1) == 1);
    assert(factorial(2) == 2);
    assert(factorial(3) == 6);
    assert(factorial(4) == 24);
    assert(factorial(5) == 120);
    assert(factorial(6) == 720);
    assert(factorial(7) == 5040);
    assert(factorial(8) == 40320);
    assert(factorial(9) == 362880);
    assert(factorial(10) == 3628800);
    assert(factorial(11) == 39916800);
    assert(factorial(12) == 479001600);
    assert(factorial(13) == 6227020800);
    assert(factorial(14) == 87178291200);
    assert(factorial(15) == 1307674368000);
    assert(factorial(16) == 20922789888000);
    assert(factorial(17) == 355687428096000);
    assert(factorial(18) == 6402373705728000);
    assert(factorial(19) == 121645100408832000);
    assert(factorial(20) == 2432902008176640000);
}

/// Up to `20!`, the factorial the Taylor coefficients divide by is the true `k!`.
proof fn lemma_fact_i64(k: nat)
    requires
        k <= 20,
    ensures
        fact_u128(k) == Some(factorial(k)),
        fact_i64(k) == factorial(k),
        factorial(k) >= 1,
    decreases k,
{
    lemma_factorial_20();
    lemma_factorial_monotone(k, 20);
    if k > 0 {
        lemma_fact_i64((k - 1) as nat);
        lemma_factorial_monotone((k - 1) as nat, 20);
        assert(factorial(k) == factorial((k - 1) as nat) * k) by (nonlinear_arith)
            requires
                factorial(k) == k * factorial((k - 1) as nat),
        ;
    }
}

/// The Maclaurin coefficients of `sin`: 0 at `x⁰`, 1 at `x¹`, and each coefficient is
/// `-1/((k+1)(k+2))` times the one two places before, so that `x^(2m+1)` has
/// `(-1)^m/(2m+1)!` (checked up to `x²⁰`, past which `k!` leaves `i64`).
pub proof fn lemma_sin_series(n: int, c: Seq<(int, int)>)
    requires
        taylor_coeffs(1, n) == Some(c),
    ensures
        n >= 0 ==> c.len() == n,
        n >= 1 ==> c[0] == (0int, 1int),
        n >= 2 ==> c[1] == (1int, 1int),
        forall|k: int|
            0 <= k && k + 2 < n && k + 2 <= 20 ==> #[trigger] c[k + 2].0 * c[k].1 * ((k + 1) * (k + 2)) == -(c[k].0
                * c[k + 2].1),
{
    if n >= 2 {
        lemma_fact_i64(1);
        assert(factorial(1) == 1) by {
            reveal_with_fuel(factorial, 2);
        }
        assert(c[1] == taylor_coeff(1, 1));
        assert(taylor_sign(1, 1) == 1);
        assert(arith::normalize_spec(1, 1) == (1int, 1int)) by {
            arith::lemma_normalize_reduced_int(1);
        }
    }
    assert forall|k: int| 0 <= k && k + 2 < n && k + 2 <= 20 implies #[trigger] c[k + 2].0 * c[k].1 * ((k + 1) * (k
        + 2)) == -(c[k].0 * c[k + 2].1) by {
        lemma_trig_step(1, k);
        assert(c[k] == taylor_coeff(1, k));
        assert(c[k + 2] == taylor_coeff(1, k + 2));
    }
}

/// One step of the `sin` and `cos` laws: coefficient `k + 2` is `-1/((k+1)(k+2))` times
/// coefficient `k`.
proof fn lemma_trig_step(which: int, k: int)
    requires
        which == 1 || which == 2,
        0 <= k,
        k + 2 <= 20,
    ensures
        taylor_coeff(which, k + 2).0 * taylor_coeff(which, k).1 * ((k + 1) * (k + 2)) == -(taylor_coeff(which, k).0
            * taylor_coeff(which, k + 2).1),
{
    let c = taylor_coeff(which, k);
    let c2 = taylor_coeff(which, k + 2);
    let on = if which == 1 { k % 2 == 1 } else { k % 2 == 0 };
    if !on {
        assert(!taylor_at(which, k) && !taylor_at(which, k + 2));
        assert(c == (0int, 1int));
        assert(c2 == (0int, 1int));
        assert(0 * 1 * ((k + 1) * (k + 2)) == 0) by (nonlinear_arith);
    } else {
        lemma_fact_i64(k as nat);
        lemma_fact_i64((k + 2) as nat);
        let f = factorial(k as nat) as int;
        let f2 = factorial((k + 2) as nat) as int;
        assert(factorial((k + 2) as nat) == (k + 2) * factorial((k + 1) as nat));
        assert(factorial((k + 1) as nat) == (k + 1) * factorial(k as nat));
        assert(f2 == f * ((k + 1) * (k + 2))) by (nonlinear_arith)
            requires
                f2 == (k + 2) * ((k + 1) * f),
        ;
        let sg = taylor_sign(which, k);
        let sg2 = taylor_sign(which, k + 2);
        if which == 1 {
            assert((k + 1) / 2 == (k - 1) / 2 + 1);
        } else {
            assert((k + 2) / 2 == k / 2 + 1);
        }
        assert(sg2 == -sg);
        assert(taylor_at(which, k + 2));
        assert(c2 == arith::normalize_spec(sg2 * 1, 1 * f2));
        arith::lemma_normalize(sg2 * 1, 1 * f2);
        if taylor_at(which, k) {
            assert(c == arith::normalize_spec(sg * 1, 1 * f));
            arith::lemma_normalize(sg * 1, 1 * f);
        } else {
            assert(which == 2 && k == 0);
            assert(c == (1int, 1int));
            assert(factorial(0) == 1);
            assert(sg == 1);
        }
        assert(sg * c.1 == c.0 * f);
        assert(c2.0 * c.1 * ((k + 1) * (k + 2)) == -(c.0 * c2.1)) by (nonlinear_arith)
            requires
                sg * c.1 == c.0 * f,
                sg2 * c2.1 == c2.0 * f2,
                sg2 == -sg,
                f2 == f * ((k + 1) * (k + 2)),
                f >= 1,
        {
            assert(c2.0 * f2 * c.1 == -sg * c2.1 * c.1);
            assert(c2.0 * c.1 * ((k + 1) * (k + 2)) * f == -(c.0 * c2.1) * f);
        }
    }
}

/// The Maclaurin coefficients of `cos`: 1 at `x⁰`, 0 at `x¹`, and each coefficient is
/// `-1/((k+1)(k+2))` times the one two places before, so that `x^(2m)` has
/// `(-1)^m/(2m)!` (checked up to `x²⁰`, past which `k!` leaves `i64`).
pub proof fn lemma_cos_series(n: int, c: Seq<(int, int)>)
    requires
        taylor_coeffs(2, n) == Some(c),
    ensures
        n >= 0 ==> c.len() == n,
        n >= 1 ==> c[0] == (1int, 1int),
        n >= 2 ==> c[1] == (0int, 1int),
        forall|k: int|
            0 <= k && k + 2 < n && k + 2 <= 20 ==> #[trigger] c[k + 2].0 * c[k].1 * ((k + 1) * (k + 2)) == -(c[k].0
                * c[k + 2].1),
{
    if n >= 2 {
        assert(c[1] == taylor_coeff(2, 1));
    }
    if n >= 1 {
        assert(c[0] == taylor_coeff(2, 0));
    }
    assert forall|k: int| 0 <= k && k + 2 < n && k + 2 <= 20 implies #[trigger] c[k + 2].0 * c[k].1 * ((k + 1) * (k
        + 2)) == -(c[k].0 * c[k + 2].1) by {
        lemma_trig_step(2, k);
        assert(c[k] == taylor_coeff(2, k));
        assert(c[k + 2] == taylor_coeff(2, k + 2));
    }
}

/// The Maclaurin coefficients of `exp`: 1 at `x⁰`, and each coefficient is `1/(k+1)`
/// times the one before, so that `x^k` has `1/k!` (checked up to `x²⁰`, past which `k!`
/// leaves `i64`).
pub proof fn lemma_exp_series(n: int, c: Seq<(int, int)>)
    requires
        taylor_coeffs(0, n) == Some(c),
    ensures
        n >= 0 ==> c.len() == n,
        n >= 1 ==> c[0] == (1int, 1int),
        forall|k: int|
            0 <= k && k + 1 < n && k + 1 <= 20 ==> #[trigger] c[k + 1].0 * c[k].1 * (k + 1) == c[k].0 * c[k + 1].1,
{
    if n >= 1 {
        lemma_fact_i64(0);
        assert(factorial(0) == 1);
        assert(c[0] == taylor_coeff(0, 0));
        assert(arith::normalize_spec(1, 1) == (1int, 1int)) by {
            arith::lemma_normalize_reduced_int(1);
        }
    }
    assert forall|k: int| 0 <= k && k + 1 < n && k + 1 <= 20 implies #[trigger] c[k + 1].0 * c[k].1 * (k + 1)
        == c[k].0 * c[k + 1].1 by {
        lemma_exp_step(k);
        assert(c[k] == taylor_coeff(0, k));
        assert(c[k + 1] == taylor_coeff(0, k + 1));
    }
}

proof fn lemma_exp_step(k: int)
    requires
        0 <= k,
        k + 1 <= 20,
    ensures
        taylor_coeff(0, k + 1).0 * taylor_coeff(0, k).1 * (k + 1) == taylor_coeff(0, k).0 * taylor_coeff(0, k + 1).1,
{
    let c = taylor_coeff(0, k);
    let c2 = taylor_coeff(0, k + 1);
    lemma_fact_i64(k as nat);
    lemma_fact_i64((k + 1) as nat);
    let f = factorial(k as nat) as int;
    let f2 = factorial((k + 1) as nat) as int;
    assert(factorial((k + 1) as nat) == (k + 1) * factorial(k as nat));
    assert(c == arith::normalize_spec(1int, f));
    assert(c2 == arith::normalize_spec(1int, f2));
    arith::lemma_normalize(1int, f);
    arith::lemma_normalize(1int, f2);
    assert(c2.0 * c.1 * (k + 1) == c.0 * c2.1) by (nonlinear_arith)
        requires
            c.1 == c.0 * f,
            c2.1 == c2.0 * f2,
            f2 == (k + 1) * f,
            f >= 1,
    {
        assert(c2.0 * c.1 * (k + 1) * f == c2.0 * f2 * c.1);
        assert(c.0 * c2.1 * f == c.1 * c2.1);
    }
}

} // verus!
