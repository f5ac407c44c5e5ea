//! Limits of expressions at infinity, by the algebra of limits of their parts.
use vstd::prelude::*;
use crate::arith;
use crate::arith::{tv, add_ok, mul_ok};
use crate::calculus::evaluate::{eval_const, try_eval_constant};
use crate::expr_core::{self, ExprId, Node, Op, Payload, Store};
use crate::text;

verus! {

/// The point a limit is taken at.
#[derive(Debug, Clone, Copy, PartialEq)]
pub enum LimitPoint {
    /// `var -> a` for a finite `a`.
    Finite(i64),
    /// `var -> +inf`.
    PositiveInfinity,
    /// `var -> -inf`.
    NegativeInfinity,
}

/// The outcome of a limit.
#[derive(Debug, Clone, Copy, PartialEq)]
pub enum LimitResult {
    /// A finite rational limit `(numerator, denominator)`.
    Finite((i64, i64)),
    PositiveInfinity,
    NegativeInfinity,
    /// No limit, or none that these rules find.
    Undefined,
}

/// A limit with integers for its value.
pub enum LimV {
    Finite(int, int),
    PosInf,
    NegInf,
    Undefined,
}

/// The meaning of a limit result.
pub open spec fn lim_view(r: LimitResult) -> LimV {
    match r {
        LimitResult::Finite((n, d)) => LimV::Finite(n as int, d as int),
        LimitResult::PositiveInfinity => LimV::PosInf,
        LimitResult::NegativeInfinity => LimV::NegInf,
        LimitResult::Undefined => LimV::Undefined,
    }
}

/// The limit of a sum from the limits of its terms; `inf - inf` and an overflowing
/// finite sum are undefined.
pub open spec fn add_lim(a: LimV, b: LimV) -> LimV {
    match (a, b) {
        (LimV::Finite(a0, a1), LimV::Finite(b0, b1)) => if add_ok((a0, a1), (b0, b1)) {
            let s = arith::add_spec((a0, a1), (b0, b1));
            LimV::Finite(s.0, s.1)
        } else {
            LimV::Undefined
        },
        (LimV::PosInf, LimV::PosInf) => LimV::PosInf,
        (LimV::NegInf, LimV::NegInf) => LimV::NegInf,
        (LimV::PosInf, LimV::Finite(_, _)) => LimV::PosInf,
        (LimV::Finite(_, _), LimV::PosInf) => LimV::PosInf,
        (LimV::NegInf, LimV::Finite(_, _)) => LimV::NegInf,
        (LimV::Finite(_, _), LimV::NegInf) => LimV::NegInf,
        _ => LimV::Undefined,
    }
}

/// The sign of a finite factor times an infinity of sign `s` (`1` or `-1`); `0 * inf`
/// is undefined.
pub open spec fn signed_inf(n: int, s: int) -> LimV {
    if n * s > 0 {
        LimV::PosInf
    } else if n * s < 0 {
        LimV::NegInf
    } else {
        LimV::Undefined
    }
}

/// The limit of a product from the limits of its factors.
pub open spec fn mul_lim(a: LimV, b: LimV) -> LimV {
    match (a, b) {
        (LimV::Finite(a0, a1), LimV::Finite(b0, b1)) => if mul_ok((a0, a1), (b0, b1)) {
            let p = arith::mul_spec((a0, a1), (b0, b1));
            LimV::Finite(p.0, p.1)
        } else {
            LimV::Undefined
        },
        (LimV::PosInf, LimV::PosInf) => LimV::PosInf,
        (LimV::NegInf, LimV::NegInf) => LimV::PosInf,
        (LimV::PosInf, LimV::NegInf) => LimV::NegInf,
        (LimV::NegInf, LimV::PosInf) => LimV::NegInf,
        (LimV::PosInf, LimV::Finite(n, _)) => signed_inf(n, 1),
        (LimV::Finite(n, _), LimV::PosInf) => signed_inf(n, 1),
        (LimV::NegInf, LimV::Finite(n, _)) => signed_inf(n, -1),
        (LimV::Finite(n, _), LimV::NegInf) => signed_inf(n, -1),
        _ => LimV::Undefined,
    }
}

/// `(b0/b1)^k` by `k` checked products from 1.
pub open spec fn lim_power(b: (int, int), k: nat) -> Option<(int, int)>
    decreases k,
{
    if k == 0 {
        Some((1, 1))
    } else {
        match lim_power(b, (k - 1) as nat) {
            Some(a) => if mul_ok(a, b) { Some(arith::mul_spec(a, b)) } else { None },
            None => None,
        }
    }
}

/// `|x|`.
pub open spec fn abs(x: int) -> int {
    if x < 0 { -x } else { x }
}

/// The limit of a power from the limits of base and exponent: finite powers to small
/// integer exponents (0 to 10), `inf^inf`, `b^inf` for `|b| > 1` (positive `b`) and
/// `|b| < 1`, and `inf^e` for `e != 0`.
pub open spec fn pow_lim(base: LimV, e: LimV) -> LimV {
    match (base, e) {
        (LimV::Finite(bn, bd), LimV::Finite(en, ed)) => if ed == 1 && 0 <= en <= 10 {
            match lim_power((bn, bd), en as nat) {
                Some(p) => LimV::Finite(p.0, p.1),
                None => LimV::Undefined,
            }
        } else {
            LimV::Undefined
        },
        (LimV::PosInf, LimV::PosInf) => LimV::PosInf,
        (LimV::Finite(n, d), LimV::PosInf) => if abs(n) > abs(d) {
            if n > 0 { LimV::PosInf } else { LimV::Undefined }
        } else if abs(n) < abs(d) {
            LimV::Finite(0, 1)
        } else {
            LimV::Undefined
        },
        (LimV::PosInf, LimV::Finite(n, _)) => if n > 0 {
            LimV::PosInf
        } else if n < 0 {
            LimV::Finite(0, 1)
        } else {
            LimV::Undefined
        },
        _ => LimV::Undefined,
    }
}

/// The limit of `f(u)` from the limit of `u`, for `exp`, `ln`/`log` (others undefined).
pub open spec fn fn_lim(name: Seq<char>, u: LimV) -> LimV {
    if name == seq!['e', 'x', 'p'] {
        match u {
            LimV::PosInf => LimV::PosInf,
            LimV::NegInf => LimV::Finite(0, 1),
            _ => LimV::Undefined,
        }
    } else if name == seq!['l', 'n'] || name == seq!['l', 'o', 'g'] {
        match u {
            LimV::PosInf => LimV::PosInf,
            LimV::Finite(n, _) => if n == 0 { LimV::NegInf } else { LimV::Undefined },
            _ => LimV::Undefined,
        }
    } else {
        LimV::Undefined
    }
}

/// The limit of node `id` as `var` tends to `+inf` (`positive`) or `-inf`: numbers are
/// their own limit, `var` tends to the infinity, other symbols are undefined, and sums,
/// products, powers and `exp`/`ln` combine the limits of their parts.
pub open spec fn lim_inf(nodes: Seq<Node>, id: int, var: Seq<char>, positive: bool) -> LimV
    decreases id, 1int, 0int,
{
    if !(0 <= id < nodes.len()) {
        LimV::Undefined
    } else {
        let nd = nodes[id];
        let len = nd.children@.len() as int;
        match nd.op {
            Op::Integer | Op::Rational => match eval_const(nodes, id) {
                Some(v) => LimV::Finite(v.0, v.1),
                None => LimV::Undefined,
            },
            Op::Symbol => match nd.payload {
                Payload::Sym(s) => if s@ == var {
                    if positive { LimV::PosInf } else { LimV::NegInf }
                } else {
                    LimV::Undefined
                },
                _ => LimV::Undefined,
            },
            Op::Add => lim_sum(nodes, id, var, positive, len),
            Op::Mul => lim_prod(nodes, id, var, positive, len),
            Op::Pow => if len != 2 {
                LimV::Undefined
            } else {
                pow_lim(lim_child(nodes, id, var, positive, 0), lim_child(nodes, id, var, positive, 1))
            },
            Op::Function => match nd.payload {
                Payload::Func(name) => if len != 1 {
                    LimV::Undefined
                } else {
                    fn_lim(name@, lim_child(nodes, id, var, positive, 0))
                },
                _ => LimV::Undefined,
            },
        }
    }
}

/// The limit of child `k` of `id`.
pub open spec fn lim_child(nodes: Seq<Node>, id: int, var: Seq<char>, positive: bool, k: int) -> LimV
    decreases id, 0int, 0int,
{
    if 0 <= id < nodes.len() && 0 <= k < nodes[id].children@.len() && 0 <= nodes[id].children@[k].0 < id {
        lim_inf(nodes, nodes[id].children@[k].0 as int, var, positive)
    } else {
        LimV::Undefined
    }
}

/// The limit of the sum of the first `k` children, from 0.
pub open spec fn lim_sum(nodes: Seq<Node>, id: int, var: Seq<char>, positive: bool, k: int) -> LimV
    decreases id, 0int, k,
{
    if k <= 0 {
        LimV::Finite(0, 1)
    } else {
        add_lim(lim_sum(nodes, id, var, positive, k - 1), lim_child(nodes, id, var, positive, k - 1))
    }
}

/// The limit of the product of the first `k` children, from 1.
pub open spec fn lim_prod(nodes: Seq<Node>, id: int, var: Seq<char>, positive: bool, k: int) -> LimV
    decreases id, 0int, k,
{
    if k <= 0 {
        LimV::Finite(1, 1)
    } else {
        mul_lim(lim_prod(nodes, id, var, positive, k - 1), lim_child(nodes, id, var, positive, k - 1))
    }
}

/// The limit of `expr` as `var` tends to `point`: the value of a constant expression
/// (`eval_const`); otherwise `lim_inf` at an infinity, and undefined at a finite point.
pub open spec fn limit_spec(nodes: Seq<Node>, id: int, var: Seq<char>, point: LimitPoint) -> LimV {
    match eval_const(nodes, id) {
        Some(v) => LimV::Finite(v.0, v.1),
        None => match point {
            LimitPoint::Finite(_) => LimV::Undefined,
            LimitPoint::PositiveInfinity => lim_inf(nodes, id, var, true),
            LimitPoint::NegativeInfinity => lim_inf(nodes, id, var, false),
        },
    }
}

/// The limit of a sum from the limits of its terms (`add_lim`).
fn add_limits(a: LimitResult, b: LimitResult) -> (r: LimitResult)
    ensures
        lim_view(r) == add_lim(lim_view(a), lim_view(b)),
{
    match (a, b) {
        (LimitResult::Finite(v1), LimitResult::Finite(v2)) => {
            if arith::add_fits(v1, v2) {
                LimitResult::Finite(arith::rat_add(v1, v2))
            } else {
                LimitResult::Undefined
            }
        },
        (LimitResult::PositiveInfinity, LimitResult::PositiveInfinity) => LimitResult::PositiveInfinity,
        (LimitResult::NegativeInfinity, LimitResult::NegativeInfinity) => LimitResult::NegativeInfinity,
        (LimitResult::PositiveInfinity, LimitResult::Finite(_)) => LimitResult::PositiveInfinity,
        (LimitResult::Finite(_), LimitResult::PositiveInfinity) => LimitResult::PositiveInfinity,
        (LimitResult::NegativeInfinity, LimitResult::Finite(_)) => LimitResult::NegativeInfinity,
        (LimitResult::Finite(_), LimitResult::NegativeInfinity) => LimitResult::NegativeInfinity,
        _ => LimitResult::Undefined,
    }
}

/// The limit of a finite factor `n` times an infinity of sign `s`.
fn signed_infinity(n: i64, positive: bool) -> (r: LimitResult)
    ensures
        lim_view(r) == signed_inf(n as int, if positive { 1 } else { -1 }),
{
    if n == 0 {
        LimitResult::Undefined
    } else if (n > 0) == positive {
        LimitResult::PositiveInfinity
    } else {
        LimitResult::NegativeInfinity
    }
}

/// The limit of a product from the limits of its factors (`mul_lim`).
fn mul_limits(a: LimitResult, b: LimitResult) -> (r: LimitResult)
    ensures
        lim_view(r) == mul_lim(lim_view(a), lim_view(b)),
{
    match (a, b) {
        (LimitResult::Finite(v1), LimitResult::Finite(v2)) => {
            if arith::mul_fits(v1, v2) {
                LimitResult::Finite(arith::rat_mul(v1, v2))
            } else {
                LimitResult::Undefined
            }
        },
        (LimitResult::PositiveInfinity, LimitResult::PositiveInfinity) => LimitResult::PositiveInfinity,
        (LimitResult::NegativeInfinity, LimitResult::NegativeInfinity) => LimitResult::PositiveInfinity,
        (LimitResult::PositiveInfinity, LimitResult::NegativeInfinity) => LimitResult::NegativeInfinity,
        (LimitResult::NegativeInfinity, LimitResult::PositiveInfinity) => LimitResult::NegativeInfinity,
        (LimitResult::PositiveInfinity, LimitResult::Finite((n, _))) => signed_infinity(n, true),
        (LimitResult::Finite((n, _)), LimitResult::PositiveInfinity) => signed_infinity(n, true),
        (LimitResult::NegativeInfinity, LimitResult::Finite((n, _))) => signed_infinity(n, false),
        (LimitResult::Finite((n, _)), LimitResult::NegativeInfinity) => signed_infinity(n, false),
        _ => LimitResult::Undefined,
    }
}

/// `|x|` as an integer wide enough for `i64::MIN`.
fn abs_i128(x: i64) -> (r: i128)
    ensures
        r as int == abs(x as int),
{
    if x < 0 { -(x as i128) } else { x as i128 }
}

/// The limit of a power from the limits of base and exponent (`pow_lim`).
fn pow_limit(base: LimitResult, e: LimitResult) -> (r: LimitResult)
    ensures
        lim_view(r) == pow_lim(lim_view(base), lim_view(e)),
{
    match (base, e) {
        (LimitResult::Finite((bn, bd)), LimitResult::Finite((en, ed))) => {
            if ed == 1 && en >= 0 && en <= 10 {
                let mut acc: (i64, i64) = (1, 1);
                let mut t: i64 = 0;
                while t < en
                    invariant
                        0 <= t <= en <= 10,
                        base == LimitResult::Finite((bn, bd)),
                        e == LimitResult::Finite((en, ed)),
                        ed == 1,
                        lim_power((bn as int, bd as int), t as nat) == Some(tv(acc)),
                    decreases en - t,
                {
                    if !arith::mul_fits(acc, (bn, bd)) {
                        proof {
                            lemma_lim_power_none((bn as int, bd as int), t as nat + 1, en as nat);
                        }
                        return LimitResult::Undefined;
                    }
                    acc = arith::rat_mul(acc, (bn, bd));
                    t = t + 1;
                }
                LimitResult::Finite(acc)
            } else {
                LimitResult::Undefined
            }
        },
        (LimitResult::PositiveInfinity, LimitResult::PositiveInfinity) => LimitResult::PositiveInfinity,
        (LimitResult::Finite((n, d)), LimitResult::PositiveInfinity) => {
            if abs_i128(n) > abs_i128(d) {
                if n > 0 {
                    LimitResult::PositiveInfinity
                } else {
                    LimitResult::Undefined
                }
            } else if abs_i128(n) < abs_i128(d) {
                LimitResult::Finite((0, 1))
            } else {
                LimitResult::Undefined
            }
        },
        (LimitResult::PositiveInfinity, LimitResult::Finite((n, _))) => {
            if n > 0 {
                LimitResult::PositiveInfinity
            } else if n < 0 {
                LimitResult::Finite((0, 1))
            } else {
                LimitResult::Undefined
            }
        },
        _ => LimitResult::Undefined,
    }
}

/// A failed power stays failed.
proof fn lemma_lim_power_none(b: (int, int), k: nat, m: nat)
    requires
        k <= m,
        lim_power(b, k) is None,
    ensures
        lim_power(b, m) is None,
    decreases m - k,
{
    if m > k {
        lemma_lim_power_none(b, k, (m - 1) as nat);
    }
}

/// The limit of `expr` as `var` tends to `+inf` (`positive`) or `-inf` (`lim_inf`).
fn limit_at_infinity(store: &Store, expr: ExprId, var: &str, positive: bool) -> (r: LimitResult)
    requires
        store.wf(),
        expr.0 < store.nodes().len(),
    ensures
        lim_view(r) == lim_inf(store.nodes(), expr.0 as int, var@, positive),
    decreases expr.0,
{
    let ghost nodes = store.nodes();
    let ghost i = expr.0 as int;
    let nd = store.get(expr);
    let len = nd.children.len();
    match nd.op {
        Op::Integer | Op::Rational => match try_eval_constant(store, expr) {
            Some(v) => LimitResult::Finite(v),
            None => LimitResult::Undefined,
        },
        Op::Symbol => match &nd.payload {
            Payload::Sym(s) => {
                if text::string_is(s, var) {
                    if positive {
                        LimitResult::PositiveInfinity
                    } else {
                        LimitResult::NegativeInfinity
                    }
                } else {
                    LimitResult::Undefined
                }
            },
            _ => LimitResult::Undefined,
        },
        Op::Add | Op::Mul => {
            let is_add = nd.op == Op::Add;
            let mut acc = if is_add { LimitResult::Finite((0, 1)) } else { LimitResult::Finite((1, 1)) };
            let mut k: usize = 0;
            while k < len
                invariant
                    store.wf(),
                    nodes == store.nodes(),
                    *nd == nodes[i],
                    0 <= i < nodes.len(),
                    i == expr.0,
                    len == nd.children@.len(),
                    k <= len,
                    is_add == (nd.op == Op::Add),
                    nd.op == Op::Add || nd.op == Op::Mul,
                    is_add ==> lim_view(acc) == lim_sum(nodes, i, var@, positive, k as int),
                    !is_add ==> lim_view(acc) == lim_prod(nodes, i, var@, positive, k as int),
                    is_add ==> lim_inf(nodes, i, var@, positive) == lim_sum(nodes, i, var@, positive, len as int),
                    !is_add ==> lim_inf(nodes, i, var@, positive) == lim_prod(nodes, i, var@, positive, len as int),
                decreases len - k,
            {
                let c = nd.children[k];
                assert(nd.children@[k as int].0 < i);
                assert(lim_child(nodes, i, var@, positive, k as int) == lim_inf(nodes, c.0 as int, var@, positive));
                let cl = limit_at_infinity(store, c, var, positive);
                acc = if is_add { add_limits(acc, cl) } else { mul_limits(acc, cl) };
                if let LimitResult::Undefined = acc {
                    proof {
                        lemma_undefined_stays(nodes, i, var@, positive, k as int + 1, len as int);
                    }
                    return LimitResult::Undefined;
                }
                k = k + 1;
            }
            acc
        },
        Op::Pow => {
            if len != 2 {
                return LimitResult::Undefined;
            }
            assert(nd.children@[0].0 < i && nd.children@[1].0 < i);
            assert(lim_child(nodes, i, var@, positive, 0) == lim_inf(nodes, nd.children@[0].0 as int, var@, positive));
            assert(lim_child(nodes, i, var@, positive, 1) == lim_inf(nodes, nd.children@[1].0 as int, var@, positive));
            let bl = limit_at_infinity(store, nd.children[0], var, positive);
            let el = limit_at_infinity(store, nd.children[1], var, positive);
            pow_limit(bl, el)
        },
        Op::Function => match &nd.payload {
            Payload::Func(name) => {
                if len != 1 {
                    return LimitResult::Undefined;
                }
                assert(nd.children@[0].0 < i);
                assert(lim_child(nodes, i, var@, positive, 0) == lim_inf(nodes, nd.children@[0].0 as int, var@, positive));
                let al = limit_at_infinity(store, nd.children[0], var, positive);
                proof {
                    reveal_strlit("exp");
                    reveal_strlit("ln");
                    reveal_strlit("log");
                    assert("exp"@ =~= seq!['e', 'x', 'p']);
                    assert("ln"@ =~= seq!['l', 'n']);
                    assert("log"@ =~= seq!['l', 'o', 'g']);
                }
                if text::string_is(name, "exp") {
                    match al {
                        LimitResult::PositiveInfinity => LimitResult::PositiveInfinity,
                        LimitResult::NegativeInfinity => LimitResult::Finite((0, 1)),
                        _ => LimitResult::Undefined,
                    }
                } else if text::string_is(name, "ln") || text::string_is(name, "log") {
                    match al {
                        LimitResult::PositiveInfinity => LimitResult::PositiveInfinity,
                        LimitResult::Finite((0, _)) => LimitResult::NegativeInfinity,
                        _ => LimitResult::Undefined,
                    }
                } else {
                    LimitResult::Undefined
                }
            },
            _ => LimitResult::Undefined,
        },
    }
}

/// Once a sum or product of limits is undefined it stays so.
proof fn lemma_undefined_stays(nodes: Seq<Node>, id: int, var: Seq<char>, positive: bool, k: int, m: int)
    requires
        0 <= k <= m,
    ensures
        lim_sum(nodes, id, var, positive, k) is Undefined ==> lim_sum(nodes, id, var, positive, m) is Undefined,
        lim_prod(nodes, id, var, positive, k) is Undefined ==> lim_prod(nodes, id, var, positive, m) is Undefined,
    decreases m - k,
{
    if m > k {
        lemma_undefined_stays(nodes, id, var, positive, k, m - 1);
    }
}

/// The limit of `expr` as `var` tends to `point` (`limit_spec`): a constant expression
/// gives its value; at `+inf` and `-inf` the limits of the parts are combined; at a
/// finite point nothing more is found.
pub fn limit(store: &Store, expr: ExprId, var: &str, point: LimitPoint) -> (r: LimitResult)
    requires
        store.wf(),
        expr.0 < store.nodes().len(),
    ensures
        lim_view(r) == limit_spec(store.nodes(), expr.0 as int, var@, point),
{
    if let Some(v) = try_eval_constant(store, expr) {
        return LimitResult::Finite(v);
    }
    match point {
        LimitPoint::Finite(_) => LimitResult::Undefined,
        LimitPoint::PositiveInfinity => limit_at_infinity(store, expr, var, true),
        LimitPoint::NegativeInfinity => limit_at_infinity(store, expr, var, false),
    }
}

/// The sign of a limit: `+1` for `+inf` or a positive number, `-1` for `-inf` or a
/// negative number, `0` for zero or an undefined limit.
pub open spec fn lim_sign(v: LimV) -> int {
    match v {
        LimV::PosInf => 1,
        LimV::NegInf => -1,
        LimV::Finite(n, _) => if n > 0 { 1 } else if n < 0 { -1 } else { 0 },
        LimV::Undefined => 0,
    }
}

/// Whether a limit is `+inf` or `-inf`.
pub open spec fn is_infinite(v: LimV) -> bool {
    v is PosInf || v is NegInf
}

/// The limit of a product of two factors: when it is infinite, its sign is the product
/// of the signs of the factors' limits; and two infinite factors always give an infinite
/// product (so `-inf · -inf = +inf`).
pub proof fn lemma_product_limit_sign(a: LimV, b: LimV)
    ensures
        is_infinite(mul_lim(a, b)) ==> lim_sign(mul_lim(a, b)) == lim_sign(a) * lim_sign(b),
        is_infinite(a) && is_infinite(b) ==> is_infinite(mul_lim(a, b)),
        is_infinite(a) && lim_sign(b) != 0 ==> is_infinite(mul_lim(a, b)),
{
    let sa = lim_sign(a);
    let sb = lim_sign(b);
    assert(sa == 1 || sa == -1 || sa == 0);
    assert(sb == 1 || sb == -1 || sb == 0);
    assert(sa * sb == (if sa == 0 || sb == 0 { 0 } else if sa == sb { 1 } else { -1 })) by (nonlinear_arith)
        requires
            sa == 1 || sa == -1 || sa == 0,
            sb == 1 || sb == -1 || sb == 0,
    ;
    match (a, b) {
        (LimV::Finite(n, _), LimV::PosInf) | (LimV::PosInf, LimV::Finite(n, _)) => {
            assert(n * 1 == n);
        },
        (LimV::Finite(n, _), LimV::NegInf) | (LimV::NegInf, LimV::Finite(n, _)) => {
            assert(n * -1 == -n);
        },
        _ => {},
    }
}

/// The limit at an infinity of a product node with two factors: when both factors tend
/// to infinities, the product tends to the infinity whose sign is the product of their
/// signs (e.g. `x·(x+1) → +inf` as `x → -inf`).
pub proof fn lemma_two_factor_product_limit(nodes: Seq<Node>, id: int, var: Seq<char>, positive: bool)
    requires
        0 <= id < nodes.len(),
        nodes[id].op == Op::Mul,
        nodes[id].children@.len() == 2,
        is_infinite(lim_child(nodes, id, var, positive, 0)),
        is_infinite(lim_child(nodes, id, var, positive, 1)),
    ensures
        is_infinite(lim_inf(nodes, id, var, positive)),
        lim_sign(lim_inf(nodes, id, var, positive)) == lim_sign(lim_child(nodes, id, var, positive, 0)) * lim_sign(
            lim_child(nodes, id, var, positive, 1),
        ),
{
    let l0 = lim_child(nodes, id, var, positive, 0);
    let l1 = lim_child(nodes, id, var, positive, 1);
    assert(lim_prod(nodes, id, var, positive, 0) == LimV::Finite(1, 1));
    lemma_product_limit_sign(LimV::Finite(1, 1), l0);
    let p1 = mul_lim(LimV::Finite(1, 1), l0);
    assert(lim_prod(nodes, id, var, positive, 1) == p1);
    assert(is_infinite(p1) && lim_sign(p1) == lim_sign(l0));
    lemma_product_limit_sign(p1, l1);
    assert(lim_prod(nodes, id, var, positive, 2) == mul_lim(p1, l1));
}


/// The product of the signs of the limits of the first `k` children of `id`.
pub open spec fn sign_prod(nodes: Seq<Node>, id: int, var: Seq<char>, positive: bool, k: int) -> int
    decreases k,
{
    if k <= 0 {
        1
    } else {
        sign_prod(nodes, id, var, positive, k - 1) * lim_sign(lim_child(nodes, id, var, positive, k - 1))
    }
}

proof fn lemma_prefix_product_infinite(nodes: Seq<Node>, id: int, var: Seq<char>, positive: bool, k: int)
    requires
        1 <= k,
        forall|i: int| 0 <= i < k ==> is_infinite(#[trigger] lim_child(nodes, id, var, positive, i)),
    ensures
        is_infinite(lim_prod(nodes, id, var, positive, k)),
        lim_sign(lim_prod(nodes, id, var, positive, k)) == sign_prod(nodes, id, var, positive, k),
    decreases k,
{
    let prev = lim_prod(nodes, id, var, positive, k - 1);
    let lk = lim_child(nodes, id, var, positive, k - 1);
    assert(is_infinite(lk));
    if k == 1 {
        assert(prev == LimV::Finite(1, 1));
        assert(sign_prod(nodes, id, var, positive, 0) == 1);
    } else {
        lemma_prefix_product_infinite(nodes, id, var, positive, k - 1);
    }
    lemma_product_limit_sign(prev, lk);
}

/// The limit at an infinity of a product node whose factors all tend to infinities is
/// the infinity whose sign is the product of the factors' signs (an even number of
/// factors tending to `-inf` gives `+inf`).
pub proof fn lemma_product_of_infinite_limits(nodes: Seq<Node>, id: int, var: Seq<char>, positive: bool)
    requires
        0 <= id < nodes.len(),
        nodes[id].op == Op::Mul,
        nodes[id].children@.len() >= 1,
        forall|i: int|
            0 <= i < nodes[id].children@.len() ==> is_infinite(#[trigger] lim_child(nodes, id, var, positive, i)),
    ensures
        is_infinite(lim_inf(nodes, id, var, positive)),
        lim_sign(lim_inf(nodes, id, var, positive)) == sign_prod(
            nodes,
            id,
            var,
            positive,
            nodes[id].children@.len() as int,
        ),
{
    lemma_prefix_product_infinite(nodes, id, var, positive, nodes[id].children@.len() as int);
}


/// The limit of a product of two finite factors `a₀/a₁` and `b₀/b₁`, where it is finite,
/// is the rational `a₀b₀/(a₁b₁)`; and it is finite exactly when that product is
/// computed without overflow.
pub proof fn lemma_finite_product_limit(a0: int, a1: int, b0: int, b1: int)
    requires
        a1 != 0,
        b1 != 0,
    ensures
        mul_lim(LimV::Finite(a0, a1), LimV::Finite(b0, b1)) is Finite <==> mul_ok((a0, a1), (b0, b1)),
        mul_lim(LimV::Finite(a0, a1), LimV::Finite(b0, b1)) matches LimV::Finite(p0, p1) ==> p1 != 0 && p0 * (a1
            * b1) == (a0 * b0) * p1,
{
    assert(a1 * b1 != 0) by (nonlinear_arith)
        requires
            a1 != 0,
            b1 != 0,
    ;
    arith::lemma_normalize(a0 * b0, a1 * b1);
    let p = arith::normalize_spec(a0 * b0, a1 * b1);
    assert(p.1 > 0) by {
        assert(arith::is_reduced(p.0, p.1));
    }
}

} // verus!
