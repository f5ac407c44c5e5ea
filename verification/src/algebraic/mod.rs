//! Algebraic number fields: quadratic extensions Q(√d), cyclotomic fields,
//! minimal polynomials, radical denesting and small Galois groups.
use vstd::prelude::*;
use crate::arith::{self, add_q, mul_q, normalize_rat, sub_q, Q};

pub mod cyclotomic;
pub mod denesting;
pub mod galois;
pub mod minimal_poly;

verus! {

/// The element `a + b·√d` of Q(√d).
#[derive(Clone, Copy, Debug, PartialEq, Eq, Hash, Structural)]
pub struct Quad {
    pub a: Q,
    pub b: Q,
    pub d: i64,
}

/// The component pairs of the product `x · y`: `(ac + bed, ae + bc)` for
/// `x = a + b√d`, `y = c + e√d`, each product normalized on its own.
pub open spec fn quad_mul_parts(x: Quad, y: Quad) -> ((int, int), (int, int)) {
    let ac = arith::mul_spec(arith::qv(x.a), arith::qv(y.a));
    let be = arith::mul_spec(arith::qv(x.b), arith::qv(y.b));
    let be_d = (be.0 * x.d, be.1);
    let ae = arith::mul_spec(arith::qv(x.a), arith::qv(y.b));
    let bc = arith::mul_spec(arith::qv(x.b), arith::qv(y.a));
    (arith::add_spec(ac, be_d), arith::add_spec(ae, bc))
}

/// `x · y` computes without overflow, over the same field.
pub open spec fn quad_mul_ok(x: Quad, y: Quad) -> bool {
    let ac = arith::mul_spec(arith::qv(x.a), arith::qv(y.a));
    let be = arith::mul_spec(arith::qv(x.b), arith::qv(y.b));
    let be_d = (be.0 * x.d, be.1);
    let ae = arith::mul_spec(arith::qv(x.a), arith::qv(y.b));
    let bc = arith::mul_spec(arith::qv(x.b), arith::qv(y.a));
    &&& x.d == y.d
    &&& arith::mul_ok(arith::qv(x.a), arith::qv(y.a))
    &&& arith::mul_ok(arith::qv(x.b), arith::qv(y.b))
    &&& arith::mul_ok(arith::qv(x.a), arith::qv(y.b))
    &&& arith::mul_ok(arith::qv(x.b), arith::qv(y.a))
    &&& arith::in_i64(be.0 * x.d)
    &&& arith::add_ok(ac, be_d)
    &&& arith::add_ok(ae, bc)
}

/// The product `x · y`.
pub open spec fn quad_mul_spec(x: Quad, y: Quad) -> Quad {
    let (re, im) = quad_mul_parts(x, y);
    Quad { a: Q(re.0 as i64, re.1 as i64), b: Q(im.0 as i64, im.1 as i64), d: x.d }
}

/// The sum `x + y`.
pub open spec fn quad_add_spec(x: Quad, y: Quad) -> Quad {
    let re = arith::add_spec(arith::qv(x.a), arith::qv(y.a));
    let im = arith::add_spec(arith::qv(x.b), arith::qv(y.b));
    Quad { a: Q(re.0 as i64, re.1 as i64), b: Q(im.0 as i64, im.1 as i64), d: x.d }
}

/// The difference `x - y`.
pub open spec fn quad_sub_spec(x: Quad, y: Quad) -> Quad {
    let re = arith::sub_spec(arith::qv(x.a), arith::qv(y.a));
    let im = arith::sub_spec(arith::qv(x.b), arith::qv(y.b));
    Quad { a: Q(re.0 as i64, re.1 as i64), b: Q(im.0 as i64, im.1 as i64), d: x.d }
}

/// The norm pair `a² - b²d` of `x`, from normalized squares.
pub open spec fn quad_norm_spec(x: Quad) -> (int, int) {
    let a2 = arith::mul_spec(arith::qv(x.a), arith::qv(x.a));
    let b2 = arith::mul_spec(arith::qv(x.b), arith::qv(x.b));
    arith::sub_spec(a2, (b2.0 * x.d, b2.1))
}

/// The norm computes without overflow.
pub open spec fn quad_norm_ok(x: Quad) -> bool {
    let a2 = arith::mul_spec(arith::qv(x.a), arith::qv(x.a));
    let b2 = arith::mul_spec(arith::qv(x.b), arith::qv(x.b));
    &&& arith::mul_ok(arith::qv(x.a), arith::qv(x.a))
    &&& arith::mul_ok(arith::qv(x.b), arith::qv(x.b))
    &&& arith::in_i64(b2.0 * x.d)
    &&& arith::sub_ok(a2, (b2.0 * x.d, b2.1))
}

/// The inverse `conj(x) / norm(x)`, component pairs left unnormalized.
pub open spec fn quad_inv_spec(x: Quad) -> Quad {
    let n = quad_norm_spec(x);
    Quad {
        a: Q((x.a.0 * n.1) as i64, (x.a.1 * n.0) as i64),
        b: Q((-x.b.0 * n.1) as i64, (x.b.1 * n.0) as i64),
        d: x.d,
    }
}

/// The inverse computes without overflow.
pub open spec fn quad_inv_ok(x: Quad) -> bool {
    let n = quad_norm_spec(x);
    &&& quad_norm_ok(x)
    &&& x.b.0 != i64::MIN
    &&& arith::in_i64(x.a.0 * n.1)
    &&& arith::in_i64(x.a.1 * n.0)
    &&& arith::in_i64(-x.b.0 * n.1)
    &&& arith::in_i64(x.b.1 * n.0)
}


/// The conjugate `a - b√d` as a value.
pub open spec fn quad_conj_spec(x: Quad) -> Quad {
    Quad { a: x.a, b: Q((-x.b.0) as i64, x.b.1), d: x.d }
}

/// `x · conj(x)` is the rational `norm(x)`: its irrational part vanishes.
pub proof fn lemma_quad_mul_conj_is_norm(x: Quad)
    requires
        x.b.0 != i64::MIN,
        x.a.1 != 0,
        x.b.1 != 0,
    ensures
        quad_mul_parts(x, quad_conj_spec(x)) == (quad_norm_spec(x), (0int, 1int)),
{
    let b = arith::qv(x.b);
    let a = arith::qv(x.a);
    let nb = (-b.0, b.1);
    assert(arith::qv(quad_conj_spec(x).b) == nb);
    // b · (-b) == -(b · b)
    assert(b.0 * (-b.0) == -(b.0 * b.0)) by (nonlinear_arith);
    assert(b.1 * b.1 != 0) by (nonlinear_arith)
        requires
            b.1 != 0,
    ;
    arith::lemma_normalize_neg(b.0 * b.0, b.1 * b.1);
    let m = arith::mul_spec(b, b);
    assert(arith::mul_spec(b, nb) == (-m.0, m.1));
    assert((-m.0) * x.d == -(m.0 * x.d)) by (nonlinear_arith);
    // a · (-b) == -(a · b), and b · a == a · b
    let p = arith::mul_spec(a, b);
    assert(a.0 * (-b.0) == -(a.0 * b.0)) by (nonlinear_arith);
    assert(a.1 * b.1 != 0) by (nonlinear_arith)
        requires
            a.1 != 0,
            b.1 != 0,
    ;
    arith::lemma_normalize_neg(a.0 * b.0, a.1 * b.1);
    assert(arith::mul_spec(a, nb) == (-p.0, p.1));
    arith::lemma_mul_commutative(b, a);
    assert((-p.0) * p.1 + p.0 * p.1 == 0) by (nonlinear_arith);
}

/// Multiplication in Q(√d) is commutative.
pub proof fn lemma_quad_mul_commutative(x: Quad, y: Quad)
    requires
        x.d == y.d,
    ensures
        quad_mul_parts(x, y) == quad_mul_parts(y, x),
{
    arith::lemma_mul_commutative(arith::qv(x.a), arith::qv(y.a));
    arith::lemma_mul_commutative(arith::qv(x.b), arith::qv(y.b));
    arith::lemma_mul_commutative(arith::qv(x.a), arith::qv(y.b));
    arith::lemma_mul_commutative(arith::qv(x.b), arith::qv(y.a));
    let ae = arith::mul_spec(arith::qv(x.a), arith::qv(y.b));
    let bc = arith::mul_spec(arith::qv(x.b), arith::qv(y.a));
    arith::lemma_add_commutative(ae, bc);
}

/// Addition in Q(√d) is associative.
pub proof fn lemma_quad_add_associative(x: Quad, y: Quad, z: Quad)
    requires
        quad_add_ok(x, y),
        quad_add_ok(y, z),
        x.a.1 != 0 && x.b.1 != 0 && y.a.1 != 0 && y.b.1 != 0 && z.a.1 != 0 && z.b.1 != 0,
    ensures
        quad_add_spec(quad_add_spec(x, y), z) == quad_add_spec(x, quad_add_spec(y, z)),
{
    arith::lemma_normalize_fits(x.a.0 * y.a.1 + y.a.0 * x.a.1, x.a.1 * y.a.1);
    arith::lemma_normalize_fits(x.b.0 * y.b.1 + y.b.0 * x.b.1, x.b.1 * y.b.1);
    arith::lemma_normalize_fits(y.a.0 * z.a.1 + z.a.0 * y.a.1, y.a.1 * z.a.1);
    arith::lemma_normalize_fits(y.b.0 * z.b.1 + z.b.0 * y.b.1, y.b.1 * z.b.1);
    arith::lemma_add_associative(arith::qv(x.a), arith::qv(y.a), arith::qv(z.a));
    arith::lemma_add_associative(arith::qv(x.b), arith::qv(y.b), arith::qv(z.b));
}

impl Quad {
    /// `a + b√d`.
    pub fn new(a: Q, b: Q, d: i64) -> (r: Quad)
        ensures
            r == (Quad { a, b, d }),
    {
        Quad { a, b, d }
    }

    /// The integer `n` as an element of Q(√d).
    pub fn from_int(n: i64, d: i64) -> (r: Quad)
        requires
            n != i64::MIN,
        ensures
            r == (Quad { a: Q(n, 1), b: Q(0, 1), d }),
    {
        proof {
            arith::lemma_normalize_reduced_int(n as int);
        }
        Quad::new(Q::new(n, 1), Q::zero(), d)
    }

    /// The conjugate `a - b√d`.
    pub fn conj(&self) -> (r: Quad)
        requires
            self.b.0 != i64::MIN,
        ensures
            r == (Quad { a: self.a, b: Q((-self.b.0) as i64, self.b.1), d: self.d }),
    {
        Quad { a: self.a, b: Q(-self.b.0, self.b.1), d: self.d }
    }

    /// The norm `a² - d·b²`.
    pub fn norm(&self) -> (r: Q)
        requires
            quad_norm_ok(*self),
        ensures
            arith::qv(r) == quad_norm_spec(*self),
    {
        let a2 = mul_q(self.a, self.a);
        let b2 = mul_q(self.b, self.b);
        let bd = Q(b2.0 * self.d, b2.1);
        sub_q(a2, bd)
    }

    /// The inverse, or `None` when the norm is zero.
    pub fn inv(&self) -> (r: Option<Quad>)
        requires
            quad_inv_ok(*self),
        ensures
            quad_norm_spec(*self).0 == 0 <==> r is None,
            r is Some ==> r->0 == quad_inv_spec(*self),
    {
        let n = self.norm();
        if n.0 == 0 {
            return None;
        }
        let conj = self.conj();
        let a_inv = Q(conj.a.0 * n.1, conj.a.1 * n.0);
        let b_inv = Q(conj.b.0 * n.1, conj.b.1 * n.0);
        Some(Quad::new(a_inv, b_inv, self.d))
    }

    /// The quotient `self / rhs`, or `None` when `rhs` has norm zero.
    pub fn div(&self, rhs: &Quad) -> (r: Option<Quad>)
        requires
            quad_inv_ok(*rhs),
            quad_norm_spec(*rhs).0 != 0 ==> quad_mul_ok(*self, quad_inv_spec(*rhs)),
        ensures
            quad_norm_spec(*rhs).0 == 0 <==> r is None,
            r is Some ==> r->0 == quad_mul_spec(*self, quad_inv_spec(*rhs)),
    {
        let rhs_inv = match rhs.inv() {
            Some(v) => v,
            None => return None,
        };
        Some(self.mul_quad(rhs_inv))
    }

    /// The trace `2a`.
    pub fn trace(&self) -> (r: Q)
        requires
            arith::norm_ok(self.a.0 * 2, self.a.1 as int),
        ensures
            arith::qv(r) == arith::normalize_spec(self.a.0 * 2, self.a.1 as int),
    {
        let (num, den) = normalize_rat(self.a.0 * 2, self.a.1);
        Q(num, den)
    }

    /// Whether the irrational part is zero.
    pub fn is_rational(&self) -> (r: bool)
        ensures
            r == (self.b.0 == 0),
    {
        self.b.0 == 0
    }

    /// The rational part when the irrational part is zero.
    pub fn as_rational(&self) -> (r: Option<Q>)
        ensures
            r == (if self.b.0 == 0 { Some(self.a) } else { None::<Q> }),
    {
        if self.is_rational() {
            Some(self.a)
        } else {
            None
        }
    }

    fn mul_quad(self, rhs: Quad) -> (r: Quad)
        requires
            quad_mul_ok(self, rhs),
        ensures
            r == quad_mul_spec(self, rhs),
    {
        let ac = mul_q(self.a, rhs.a);
        let be = mul_q(self.b, rhs.b);
        let be_d = Q(be.0 * self.d, be.1);
        let ae = mul_q(self.a, rhs.b);
        let bc = mul_q(self.b, rhs.a);
        let re = add_q(ac, be_d);
        let im = add_q(ae, bc);
        Quad { a: re, b: im, d: self.d }
    }
}

/// `x + y` computes without overflow, over the same field.
pub open spec fn quad_add_ok(x: Quad, y: Quad) -> bool {
    x.d == y.d && arith::add_ok(arith::qv(x.a), arith::qv(y.a)) && arith::add_ok(arith::qv(x.b), arith::qv(y.b))
}

/// `x - y` computes without overflow, over the same field.
pub open spec fn quad_sub_ok(x: Quad, y: Quad) -> bool {
    x.d == y.d && arith::sub_ok(arith::qv(x.a), arith::qv(y.a)) && arith::sub_ok(arith::qv(x.b), arith::qv(y.b))
}

impl std::ops::Add for Quad {
    type Output = Quad;

    fn add(self, rhs: Quad) -> Quad {
        Quad { a: add_q(self.a, rhs.a), b: add_q(self.b, rhs.b), d: self.d }
    }
}

impl vstd::std_specs::ops::AddSpecImpl for Quad {
    open spec fn obeys_add_spec() -> bool {
        true
    }

    open spec fn add_req(self, rhs: Quad) -> bool {
        quad_add_ok(self, rhs)
    }

    open spec fn add_spec(self, rhs: Quad) -> Quad {
        quad_add_spec(self, rhs)
    }
}

impl std::ops::Sub for Quad {
    type Output = Quad;

    fn sub(self, rhs: Quad) -> Quad {
        Quad { a: sub_q(self.a, rhs.a), b: sub_q(self.b, rhs.b), d: self.d }
    }
}

impl vstd::std_specs::ops::SubSpecImpl for Quad {
    open spec fn obeys_sub_spec() -> bool {
        true
    }

    open spec fn sub_req(self, rhs: Quad) -> bool {
        quad_sub_ok(self, rhs)
    }

    open spec fn sub_spec(self, rhs: Quad) -> Quad {
        quad_sub_spec(self, rhs)
    }
}

impl std::ops::Mul for Quad {
    type Output = Quad;

    fn mul(self, rhs: Quad) -> Quad {
        self.mul_quad(rhs)
    }
}

impl vstd::std_specs::ops::MulSpecImpl for Quad {
    open spec fn obeys_mul_spec() -> bool {
        true
    }

    open spec fn mul_req(self, rhs: Quad) -> bool {
        quad_mul_ok(self, rhs)
    }

    open spec fn mul_spec(self, rhs: Quad) -> Quad {
        quad_mul_spec(self, rhs)
    }
}

impl std::ops::Neg for Quad {
    type Output = Quad;

    fn neg(self) -> Quad {
        Quad { a: Q(-self.a.0, self.a.1), b: Q(-self.b.0, self.b.1), d: self.d }
    }
}

impl vstd::std_specs::ops::NegSpecImpl for Quad {
    open spec fn obeys_neg_spec() -> bool {
        true
    }

    open spec fn neg_req(self) -> bool {
        self.a.0 != i64::MIN && self.b.0 != i64::MIN
    }

    open spec fn neg_spec(self) -> Quad {
        Quad { a: Q((-self.a.0) as i64, self.a.1), b: Q((-self.b.0) as i64, self.b.1), d: self.d }
    }
}

} // verus!
