//! Calculus-aware rewrites of expressions: `√` of perfect squares, `ln(exp x) → x`,
//! `exp(ln x) → x`, `exp 0 → 1`, `atan(tan x) → x`, `atan 0 → 0`, `sin²x + cos²x → 1`
//! and `2 sin x cos x → sin 2x`, applied from the leaves up.
use vstd::prelude::*;
use crate::expr_core::{self, ExprId, Node, Op, Payload, Store};
use crate::calculus::evaluate::children_of;
use crate::number_theory;
use crate::text;

verus! {

// ---------------------------------------------------------------------------
// Shapes the rules look for
// ---------------------------------------------------------------------------

/// `id` is a node of `m`.
pub open spec fn present(m: Seq<Node>, id: ExprId) -> bool {
    id.0 < m.len()
}

/// Node `id` is the integer `k`.
pub open spec fn is_int_node(m: Seq<Node>, id: ExprId, k: int) -> bool {
    id.0 < m.len() && m[id.0 as int].op == Op::Integer && match m[id.0 as int].payload {
        Payload::Int(v) => v == k,
        _ => false,
    }
}

/// The name and argument of node `id` when it is a function applied to one argument.
pub open spec fn unary_fn(m: Seq<Node>, id: ExprId) -> Option<(Seq<char>, ExprId)> {
    if id.0 < m.len() && m[id.0 as int].op == Op::Function && m[id.0 as int].children@.len() == 1 {
        match m[id.0 as int].payload {
            Payload::Func(f) => Some((f@, m[id.0 as int].children@[0])),
            _ => None,
        }
    } else {
        None
    }
}

/// Node `id` is the function `f` applied to one argument.
pub open spec fn is_unary(m: Seq<Node>, id: ExprId, f: Seq<char>) -> bool {
    unary_fn(m, id) matches Some((g, _)) && g == f
}

/// The argument of a unary function node.
pub open spec fn unary_arg(m: Seq<Node>, id: ExprId) -> ExprId {
    unary_fn(m, id)->Some_0.1
}

/// `sin(a)^2` or `cos(a)^2`: the function's name and `a`.
pub open spec fn trig_sq(m: Seq<Node>, id: ExprId) -> Option<(Seq<char>, ExprId)> {
    if id.0 < m.len() && m[id.0 as int].op == Op::Pow && m[id.0 as int].children@.len() == 2 && is_int_node(
        m,
        m[id.0 as int].children@[1],
        2,
    ) {
        match unary_fn(m, m[id.0 as int].children@[0]) {
            Some((f, a)) => if f == "sin"@ || f == "cos"@ {
                Some((f, a))
            } else {
                None
            },
            None => None,
        }
    } else {
        None
    }
}

/// Terms `i` and `j` are `sin(a)^2` and `cos(a)^2`, in either order, with one `a`.
pub open spec fn pyth_match(m: Seq<Node>, cs: Seq<ExprId>, i: int, j: int) -> bool {
    match (trig_sq(m, cs[i]), trig_sq(m, cs[j])) {
        (Some((fi, ai)), Some((fj, aj))) => ((fi == "sin"@ && fj == "cos"@) || (fi == "cos"@ && fj == "sin"@)) && ai == aj,
        _ => false,
    }
}

/// The first pair `i < j` of terms, from `(i, j)` on in the order `(0,1), (0,2), …,
/// (1,2), …`, that `pyth_match`.
pub open spec fn pyth_from(m: Seq<Node>, cs: Seq<ExprId>, i: int, j: int) -> Option<(int, int)>
    decreases cs.len() - i, cs.len() - j,
{
    if i < 0 || i >= cs.len() {
        None
    } else if j >= cs.len() || j <= i {
        pyth_from(m, cs, i + 1, i + 2)
    } else if pyth_match(m, cs, i, j) {
        Some((i, j))
    } else {
        pyth_from(m, cs, i, j + 1)
    }
}

/// The first `k` terms of `cs` without the terms `i` and `j`.
pub open spec fn skip_two(cs: Seq<ExprId>, i: int, j: int, k: int) -> Seq<ExprId>
    decreases k,
{
    if k <= 0 {
        Seq::empty()
    } else if k - 1 == i || k - 1 == j {
        skip_two(cs, i, j, k - 1)
    } else {
        skip_two(cs, i, j, k - 1).push(cs[k - 1])
    }
}

/// Scanning the first `k` factors for `2 sin(a) cos(b)`: whether a factor 2 was met, the
/// argument of the first `sin`, that of the first `cos`, and the other factors.
pub open spec fn da_scan(m: Seq<Node>, cs: Seq<ExprId>, k: int) -> (bool, Option<ExprId>, Option<ExprId>, Seq<ExprId>)
    decreases k,
{
    if k <= 0 {
        (false, None, None, Seq::empty())
    } else {
        let (two, s, c, others) = da_scan(m, cs, k - 1);
        let x = cs[k - 1];
        if is_int_node(m, x, 2) {
            (true, s, c, others)
        } else {
            match unary_fn(m, x) {
                Some((f, a)) => if f == "sin"@ && s is None {
                    (two, Some(a), c, others)
                } else if f == "cos"@ && c is None {
                    (two, s, Some(a), others)
                } else {
                    (two, s, c, others.push(x))
                },
                None => (two, s, c, others.push(x)),
            }
        }
    }
}

/// `2 sin(a) cos(a)` among the factors `cs`: `a` and the factors other than the 2s, that
/// `sin` and that `cos`.
pub open spec fn double_angle(m: Seq<Node>, cs: Seq<ExprId>) -> Option<(ExprId, Seq<ExprId>)> {
    let (two, s, c, others) = da_scan(m, cs, cs.len() as int);
    if two && s is Some && c is Some && s->Some_0 == c->Some_0 {
        Some((s->Some_0, others))
    } else {
        None
    }
}

/// The nonnegative square root of `k` when `k` is a perfect square.
pub open spec fn exact_sqrt(k: int) -> Option<int> {
    if exists|q: int| q >= 0 && #[trigger] (q * q) == k {
        Some(choose|q: int| q >= 0 && #[trigger] (q * q) == k)
    } else {
        None
    }
}

// ---------------------------------------------------------------------------
// What each rule gives
// ---------------------------------------------------------------------------

/// `√a`, in a store `m` that becomes `new`: the root of a perfect-square integer, the
/// fraction of the roots of a nonnegative fraction whose numerator and denominator are
/// perfect squares, else `sqrt(a)`.
pub open spec fn sqrt_rule(m: Seq<Node>, new: Seq<Node>, a: ExprId, r: ExprId) -> bool {
    let n = m[a.0 as int];
    let plain = expr_core::interned(m, new, r, Op::Function, (4, "sqrt"@, 0, 0), seq![a]);
    match (n.op, n.payload) {
        (Op::Integer, Payload::Int(k)) => if k >= 0 && exact_sqrt(k as int) is Some {
            expr_core::interned(m, new, r, Op::Integer, expr_core::int_key(exact_sqrt(k as int)->Some_0), Seq::empty())
        } else {
            plain
        },
        (Op::Rational, Payload::Rat(p, d)) => if p >= 0 && d > 0 && exact_sqrt(p as int) is Some && exact_sqrt(
            d as int,
        ) is Some {
            expr_core::interned(
                m,
                new,
                r,
                expr_core::number_key(exact_sqrt(p as int)->Some_0, exact_sqrt(d as int)->Some_0).0,
                expr_core::number_key(exact_sqrt(p as int)->Some_0, exact_sqrt(d as int)->Some_0).1,
                Seq::empty(),
            )
        } else {
            plain
        },
        _ => plain,
    }
}

/// A function `f` of one argument whose argument `arg` has become `a` (store `m`, which
/// becomes `new`): `sqrt` by `sqrt_rule`; `ln`/`log` of `exp(x)` is `x`, else `ln(a)`;
/// `exp` of `ln(x)`/`log(x)` is `x`, `exp(0)` is 1, else `exp(a)`; `atan`/`arctan` of
/// `tan(x)` is `x`, `atan(0)` is 0, else `atan(a)`; any other function is applied
/// again to `a`, or left as it was when `a` is `arg`.
pub open spec fn fn_rule(m: Seq<Node>, new: Seq<Node>, f: Seq<char>, expr: ExprId, arg: ExprId, a: ExprId, r: ExprId) -> bool {
    if f == "sqrt"@ {
        sqrt_rule(m, new, a, r)
    } else if f == "ln"@ || f == "log"@ {
        if is_unary(m, a, "exp"@) {
            r == unary_arg(m, a) && new == m
        } else {
            expr_core::interned(m, new, r, Op::Function, (4, "ln"@, 0, 0), seq![a])
        }
    } else if f == "exp"@ {
        if is_unary(m, a, "ln"@) || is_unary(m, a, "log"@) {
            r == unary_arg(m, a) && new == m
        } else if is_int_node(m, a, 0) {
            expr_core::interned(m, new, r, Op::Integer, expr_core::int_key(1), Seq::empty())
        } else {
            expr_core::interned(m, new, r, Op::Function, (4, "exp"@, 0, 0), seq![a])
        }
    } else if f == "atan"@ || f == "arctan"@ {
        if is_unary(m, a, "tan"@) {
            r == unary_arg(m, a) && new == m
        } else if is_int_node(m, a, 0) {
            expr_core::interned(m, new, r, Op::Integer, expr_core::int_key(0), Seq::empty())
        } else {
            expr_core::interned(m, new, r, Op::Function, (4, "atan"@, 0, 0), seq![a])
        }
    } else if a == arg {
        r == expr && new == m
    } else {
        expr_core::interned(m, new, r, Op::Function, (4, f, 0, 0), seq![a])
    }
}

/// A sum whose terms `cs` have become `fs` (store `m`, which becomes `new`): the first
/// `sin²a + cos²a` pair is replaced by 1 (the 1 alone when no other term is left); else
/// the sum of `fs`, or the sum as it was when no term changed. A sum that would overflow
/// is left as it was.
pub open spec fn add_rule(m: Seq<Node>, new: Seq<Node>, cs: Seq<ExprId>, fs: Seq<ExprId>, expr: ExprId, r: ExprId) -> bool {
    match pyth_from(m, fs, 0, 1) {
        Some((i, j)) => exists|m1: Seq<Node>, one: ExprId|
            #[trigger] present(m1, one) && expr_core::interned(m, m1, one, Op::Integer, expr_core::int_key(1), Seq::empty())
                && {
                let rest = skip_two(fs, i, j, fs.len() as int);
                if rest.len() == 0 {
                    r == one && new == m1
                } else if expr_core::add_flatten(m1, rest.push(one)).1 is Some {
                    expr_core::sum_result(m1, new, rest.push(one), r)
                } else {
                    r == expr && new == m1
                }
            },
        None => if fs == cs {
            r == expr && new == m
        } else if expr_core::add_flatten(m, fs).1 is Some {
            expr_core::sum_result(m, new, fs, r)
        } else {
            r == expr && new == m
        },
    }
}

/// `2 sin(a) cos(a)` times `others` rebuilt as `sin(2a)` times `others`, from store `m`
/// to `new`; left as `expr` when a product would overflow.
pub open spec fn double_angle_rule(m: Seq<Node>, new: Seq<Node>, a: ExprId, others: Seq<ExprId>, expr: ExprId, r: ExprId) -> bool {
    exists|m1: Seq<Node>, two: ExprId|
        #[trigger] present(m1, two) && expr_core::interned(m, m1, two, Op::Integer, expr_core::int_key(2), Seq::empty())
            && if expr_core::mul_flatten(m1, seq![two, a]).1 is None {
            r == expr && new == m1
        } else {
            exists|m2: Seq<Node>, ta: ExprId, m3: Seq<Node>, sn: ExprId|
                #![trigger present(m2, ta), present(m3, sn)]
                expr_core::product_result(m1, m2, seq![two, a], ta) && present(m2, ta) && expr_core::extends(m1, m2)
                    && expr_core::interned(m2, m3, sn, Op::Function, (4, "sin"@, 0, 0), seq![ta]) && if others.len() == 0 {
                    r == sn && new == m3
                } else if expr_core::mul_flatten(m3, others.push(sn)).1 is Some {
                    expr_core::product_result(m3, new, others.push(sn), r)
                } else {
                    r == expr && new == m3
                }
        }
}

/// A product whose factors `cs` have become `fs` (store `m`, which becomes `new`):
/// `2 sin(a) cos(a)` becomes `sin(2a)` (`double_angle_rule`); else the product of `fs`,
/// or the product as it was when no factor changed or the product would overflow.
pub open spec fn mul_rule(m: Seq<Node>, new: Seq<Node>, cs: Seq<ExprId>, fs: Seq<ExprId>, expr: ExprId, r: ExprId) -> bool {
    match double_angle(m, fs) {
        Some((a, others)) => double_angle_rule(m, new, a, others, expr, r),
        None => if fs == cs {
            r == expr && new == m
        } else if expr_core::mul_flatten(m, fs).1 is Some {
            expr_core::product_result(m, new, fs, r)
        } else {
            r == expr && new == m
        },
    }
}

/// What the calculus rules give for `expr` in a store `old` that becomes `new`: the rules
/// are applied to the arguments, terms, factors, base and exponent first (one after the
/// other), then `fn_rule`, `add_rule` or `mul_rule` at the node itself; a power is
/// rebuilt by `pow` when its base or exponent changed; anything else is returned as is.
pub open spec fn calculus_rules_result(old: Seq<Node>, new: Seq<Node>, expr: ExprId, r: ExprId) -> bool
    decreases expr.0, 1int, 0int,
{
    &&& r.0 < new.len()
    &&& if !(expr.0 < old.len()) {
        r == expr && new == old
    } else {
        let n = old[expr.0 as int];
        match (n.op, n.payload) {
            (Op::Function, Payload::Func(f)) => if n.children@.len() != 1 {
                r == expr && new == old
            } else if n.children@[0].0 < expr.0 {
                exists|m1: Seq<Node>, a: ExprId|
                    #[trigger] present(m1, a) && calculus_rules_result(old, m1, n.children@[0], a) && fn_rule(
                        m1,
                        new,
                        f@,
                        expr,
                        n.children@[0],
                        a,
                        r,
                    )
            } else {
                false
            },
            (Op::Add, _) => exists|ss: Seq<Seq<Node>>, fs: Seq<ExprId>|
                #[trigger] rule_stages(ss, fs) && rules_into(old, ss, n.children@, fs, expr.0 as int) && add_rule(
                    ss.last(),
                    new,
                    n.children@,
                    fs,
                    expr,
                    r,
                ),
            (Op::Mul, _) => exists|ss: Seq<Seq<Node>>, fs: Seq<ExprId>|
                #[trigger] rule_stages(ss, fs) && rules_into(old, ss, n.children@, fs, expr.0 as int) && mul_rule(
                    ss.last(),
                    new,
                    n.children@,
                    fs,
                    expr,
                    r,
                ),
            (Op::Pow, _) => if n.children@.len() != 2 {
                r == expr && new == old
            } else if n.children@[0].0 < expr.0 && n.children@[1].0 < expr.0 {
                exists|m1: Seq<Node>, b: ExprId, m2: Seq<Node>, e: ExprId|
                    #![trigger present(m1, b), present(m2, e)]
                    calculus_rules_result(old, m1, n.children@[0], b) && calculus_rules_result(m1, m2, n.children@[1], e)
                        && if b == n.children@[0] && e == n.children@[1] {
                        r == expr && new == m2
                    } else {
                        expr_core::pow_result(m2, new, b, e, r)
                    }
            } else {
                false
            },
            _ => r == expr && new == old,
        }
    }
}

/// Stores and rewritten children of matching lengths: one store before each child and
/// one after the last.
pub open spec fn rule_stages(ss: Seq<Seq<Node>>, fs: Seq<ExprId>) -> bool {
    ss.len() == fs.len() + 1
}

/// Applying the rules to the children `cs` (each below node `bound`) one after the other,
/// from store `old`: the stores `ss[0] = old, …, ss[n]` and the results `fs`.
pub open spec fn rules_into(old: Seq<Node>, ss: Seq<Seq<Node>>, cs: Seq<ExprId>, fs: Seq<ExprId>, bound: int) -> bool
    decreases bound, 0int, cs.len() + 1,
{
    &&& ss.len() == cs.len() + 1
    &&& fs.len() == cs.len()
    &&& ss[0] == old
    &&& rule_steps(ss, cs, fs, bound, cs.len() as int)
}

/// The first `k` steps of `rules_into`.
pub open spec fn rule_steps(ss: Seq<Seq<Node>>, cs: Seq<ExprId>, fs: Seq<ExprId>, bound: int, k: int) -> bool
    decreases bound, 0int, k,
{
    if k <= 0 {
        true
    } else {
        rule_steps(ss, cs, fs, bound, k - 1) && if 0 <= cs[k - 1].0 < bound {
            calculus_rules_result(ss[k - 1], ss[k], cs[k - 1], fs[k - 1])
        } else {
            false
        }
    }
}

// ---------------------------------------------------------------------------
// Checks on nodes
// ---------------------------------------------------------------------------

/// Whether node `id` is the integer `k` (`is_int_node`).
fn int_is(store: &Store, id: ExprId, k: i64) -> (b: bool)
    requires
        id.0 < store.nodes().len(),
    ensures
        b == is_int_node(store.nodes(), id, k as int),
{
    let n = store.get(id);
    match (&n.op, &n.payload) {
        (Op::Integer, Payload::Int(v)) => *v == k,
        _ => false,
    }
}

/// Whether node `id` is `name` applied to one argument (`is_unary`).
fn unary_named(store: &Store, id: ExprId, name: &str) -> (b: bool)
    requires
        id.0 < store.nodes().len(),
    ensures
        b == is_unary(store.nodes(), id, name@),
{
    let n = store.get(id);
    if n.children.len() != 1 {
        return false;
    }
    match (&n.op, &n.payload) {
        (Op::Function, Payload::Func(f)) => text::string_is(f, name),
        _ => false,
    }
}

/// The argument of a unary function node (`unary_arg`).
fn unary_argument(store: &Store, id: ExprId) -> (r: ExprId)
    requires
        store.wf(),
        unary_fn(store.nodes(), id) is Some,
    ensures
        r == unary_arg(store.nodes(), id),
        r.0 < store.nodes().len(),
{
    let n = store.get(id);
    assert(n.children@[0].0 < id.0);
    n.children[0]
}

/// `sin(a)^2` (`Some((true, a))`) or `cos(a)^2` (`Some((false, a))`) (`trig_sq`).
fn trig_squared(store: &Store, id: ExprId) -> (r: Option<(bool, ExprId)>)
    requires
        store.wf(),
        id.0 < store.nodes().len(),
    ensures
        match (r, trig_sq(store.nodes(), id)) {
            (Some((true, a)), Some((f, b))) => f == "sin"@ && a == b,
            (Some((false, a)), Some((f, b))) => f == "cos"@ && a == b,
            (None, None) => true,
            _ => false,
        },
{
    let n = store.get(id);
    if n.op != Op::Pow || n.children.len() != 2 {
        return None;
    }
    let base = n.children[0];
    let exp = n.children[1];
    assert(base.0 < id.0 && exp.0 < id.0);
    if !int_is(store, exp, 2) {
        return None;
    }
    if unary_named(store, base, "sin") {
        return Some((true, unary_argument(store, base)));
    }
    if unary_named(store, base, "cos") {
        return Some((false, unary_argument(store, base)));
    }
    proof {
        match unary_fn(store.nodes(), base) {
            Some((f, a)) => {
                assert(!(f == "sin"@) && !(f == "cos"@));
            },
            None => {},
        }
    }
    None
}

/// The first pair of terms that `pyth_match` (`pyth_from(…, 0, 1)`).
fn pyth_pair(store: &Store, fs: &Vec<ExprId>) -> (r: Option<(usize, usize)>)
    requires
        store.wf(),
        expr_core::valid_ids(store.nodes(), fs@),
    ensures
        match (r, pyth_from(store.nodes(), fs@, 0, 1)) {
            (Some((i, j)), Some((a, b))) => i == a && j == b,
            (None, None) => true,
            _ => false,
        },
{
    let ghost m = store.nodes();
    let len = fs.len();
    let mut i: usize = 0;
    while i < len
        invariant
            store.wf(),
            m == store.nodes(),
            len == fs@.len(),
            expr_core::valid_ids(m, fs@),
            i <= len,
            pyth_from(m, fs@, 0, 1) == pyth_from(m, fs@, i as int, i + 1),
        decreases len - i,
    {
        let ti = trig_squared(store, fs[i]);
        let mut j: usize = i + 1;
        while j < len
            invariant
                store.wf(),
                m == store.nodes(),
                len == fs@.len(),
                expr_core::valid_ids(m, fs@),
                i < len,
                i < j <= len,
                pyth_from(m, fs@, 0, 1) == pyth_from(m, fs@, i as int, j as int),
                match (ti, trig_sq(m, fs@[i as int])) {
                    (Some((true, a)), Some((f, b))) => f == "sin"@ && a == b,
                    (Some((false, a)), Some((f, b))) => f == "cos"@ && a == b,
                    (None, None) => true,
                    _ => false,
                },
            decreases len - j,
        {
            let tj = trig_squared(store, fs[j]);
            let hit = match (ti, tj) {
                (Some((si, ai)), Some((sj, aj))) => si != sj && ai == aj,
                _ => false,
            };
            proof {
                reveal_strlit("sin");
                reveal_strlit("cos");
                assert("sin"@ != "cos"@) by {
                    assert("sin"@[0] != "cos"@[0]);
                }
                assert(hit == pyth_match(m, fs@, i as int, j as int));
            }
            if hit {
                return Some((i, j));
            }
            j = j + 1;
        }
        i = i + 1;
    }
    None
}

/// `fs` without its terms `i` and `j` (`skip_two`).
fn without_two(fs: &Vec<ExprId>, i: usize, j: usize) -> (r: Vec<ExprId>)
    ensures
        r@ == skip_two(fs@, i as int, j as int, fs@.len() as int),
{
    let mut out: Vec<ExprId> = Vec::new();
    let mut k: usize = 0;
    while k < fs.len()
        invariant
            k <= fs@.len(),
            out@ == skip_two(fs@, i as int, j as int, k as int),
        decreases fs@.len() - k,
    {
        if k != i && k != j {
            out.push(fs[k]);
        }
        k = k + 1;
    }
    out
}

/// The scan of `da_scan` over all factors.
fn scan_double_angle(store: &Store, fs: &Vec<ExprId>) -> (r: (bool, Option<ExprId>, Option<ExprId>, Vec<ExprId>))
    requires
        store.wf(),
        expr_core::valid_ids(store.nodes(), fs@),
    ensures
        (r.0, r.1, r.2, r.3@) == da_scan(store.nodes(), fs@, fs@.len() as int),
        expr_core::valid_ids(store.nodes(), r.3@),
        r.1 matches Some(a) ==> a.0 < store.nodes().len(),
{
    let ghost m = store.nodes();
    let mut two = false;
    let mut s: Option<ExprId> = None;
    let mut c: Option<ExprId> = None;
    let mut others: Vec<ExprId> = Vec::new();
    let mut k: usize = 0;
    while k < fs.len()
        invariant
            store.wf(),
            m == store.nodes(),
            expr_core::valid_ids(m, fs@),
            k <= fs@.len(),
            (two, s, c, others@) == da_scan(m, fs@, k as int),
            expr_core::valid_ids(m, others@),
            s matches Some(a) ==> a.0 < m.len(),
        decreases fs@.len() - k,
    {
        let x = fs[k];
        if int_is(store, x, 2) {
            two = true;
        } else if unary_named(store, x, "sin") && s.is_none() {
            s = Some(unary_argument(store, x));
        } else if unary_named(store, x, "cos") && c.is_none() {
            c = Some(unary_argument(store, x));
        } else {
            proof {
                match unary_fn(m, x) {
                    Some((f, a)) => {},
                    None => {},
                }
            }
            others.push(x);
        }
        k = k + 1;
    }
    (two, s, c, others)
}

// ---------------------------------------------------------------------------
// Square roots and unary functions
// ---------------------------------------------------------------------------

/// A nonnegative `q` with `q² = k` is `exact_sqrt(k)`.
proof fn lemma_exact_sqrt(k: int, q: int)
    requires
        q >= 0,
        q * q == k,
    ensures
        exact_sqrt(k) == Some(q),
{
    assert(exists|x: int| x >= 0 && #[trigger] (x * x) == k);
    let c = choose|x: int| x >= 0 && #[trigger] (x * x) == k;
    if c < q {
        assert(c * c < q * q) by (nonlinear_arith)
            requires
                0 <= c < q,
        ;
    } else if c > q {
        assert(q * q < c * c) by (nonlinear_arith)
            requires
                0 <= q < c,
        ;
    }
}

/// The root of `k ≥ 0` when it is a perfect square (`exact_sqrt`).
fn perfect_root(k: i64) -> (r: Option<i64>)
    requires
        k >= 0,
    ensures
        match r {
            Some(q) => exact_sqrt(k as int) == Some(q as int),
            None => exact_sqrt(k as int) is None,
        },
{
    let q = number_theory::isqrt_u64(k as u64);
    assert((q as int) * (q as int) < 0x1_0000_0000_0000_0000) by (nonlinear_arith)
        requires
            q < 0x1_0000_0000,
    ;
    if q * q == k as u64 {
        proof {
            lemma_exact_sqrt(k as int, q as int);
        }
        Some(q as i64)
    } else {
        proof {
            if exists|x: int| x >= 0 && #[trigger] (x * x) == k {
                let x = choose|x: int| x >= 0 && #[trigger] (x * x) == k;
                if x <= q {
                    assert(x * x <= (q as int) * (q as int)) by (nonlinear_arith)
                        requires
                            0 <= x <= q,
                    ;
                } else {
                    assert((q as int + 1) * (q as int + 1) <= x * x) by (nonlinear_arith)
                        requires
                            0 <= q < x,
                    ;
                }
            }
        }
        None
    }
}

/// `[a]` as a vector.
fn one_id(a: ExprId) -> (v: Vec<ExprId>)
    ensures
        v@ == seq![a],
{
    let mut v: Vec<ExprId> = Vec::new();
    v.push(a);
    assert(v@ =~= seq![a]);
    v
}

/// `√a` (`sqrt_rule`).
fn sqrt_step(store: &mut Store, a: ExprId) -> (r: ExprId)
    requires
        old(store).wf(),
        a.0 < old(store).nodes().len(),
    ensures
        final(store).wf(),
        expr_core::extends(old(store).nodes(), final(store).nodes()),
        r.0 < final(store).nodes().len(),
        sqrt_rule(old(store).nodes(), final(store).nodes(), a, r),
{
    let ghost m = store.nodes();
    let n = store.get(a);
    let (kind, x, y): (u8, i64, i64) = match (&n.op, &n.payload) {
        (Op::Integer, Payload::Int(k)) => (1, *k, 0),
        (Op::Rational, Payload::Rat(p, d)) => (2, *p, *d),
        _ => (0, 0, 0),
    };
    if kind == 1 && x >= 0 {
        if let Some(q) = perfect_root(x) {
            return store.integer(q);
        }
    }
    if kind == 2 && x >= 0 && y > 0 {
        match (perfect_root(x), perfect_root(y)) {
            (Some(sp), Some(sd)) => {
                assert(sd > 0) by (nonlinear_arith)
                    requires
                        sd * sd == y,
                        y > 0,
                        sd >= 0,
                ;
                return store.rat(sp, sd);
            },
            _ => {},
        }
    }
    store.func("sqrt", one_id(a))
}

/// A unary function `f` whose argument `arg` has become `a` (`fn_rule`).
fn fn_step(store: &mut Store, f: &String, expr: ExprId, arg: ExprId, a: ExprId) -> (r: ExprId)
    requires
        old(store).wf(),
        a.0 < old(store).nodes().len(),
        expr.0 < old(store).nodes().len(),
    ensures
        final(store).wf(),
        expr_core::extends(old(store).nodes(), final(store).nodes()),
        r.0 < final(store).nodes().len(),
        fn_rule(old(store).nodes(), final(store).nodes(), f@, expr, arg, a, r),
{
    if text::string_is(f, "sqrt") {
        sqrt_step(store, a)
    } else if text::string_is(f, "ln") || text::string_is(f, "log") {
        if unary_named(store, a, "exp") {
            unary_argument(store, a)
        } else {
            store.func("ln", one_id(a))
        }
    } else if text::string_is(f, "exp") {
        if unary_named(store, a, "ln") || unary_named(store, a, "log") {
            unary_argument(store, a)
        } else if int_is(store, a, 0) {
            store.integer(1)
        } else {
            store.func("exp", one_id(a))
        }
    } else if text::string_is(f, "atan") || text::string_is(f, "arctan") {
        if unary_named(store, a, "tan") {
            unary_argument(store, a)
        } else if int_is(store, a, 0) {
            store.integer(0)
        } else {
            store.func("atan", one_id(a))
        }
    } else if a.0 == arg.0 {
        expr
    } else {
        store.func(f.as_str(), one_id(a))
    }
}

/// Whether two id sequences are equal.
fn same_ids(a: &Vec<ExprId>, b: &Vec<ExprId>) -> (r: bool)
    ensures
        r == (a@ == b@),
{
    if a.len() != b.len() {
        return false;
    }
    let mut k: usize = 0;
    while k < a.len()
        invariant
            a@.len() == b@.len(),
            k <= a@.len(),
            forall|t: int| 0 <= t < k ==> a@[t] == b@[t],
        decreases a@.len() - k,
    {
        if a[k].0 != b[k].0 {
            return false;
        }
        k = k + 1;
    }
    assert(a@ =~= b@);
    true
}

// ---------------------------------------------------------------------------
// The rules
// ---------------------------------------------------------------------------

/// The stores `ss[0], …, ss[n]` of rewriting the children `cs` one after the other into
/// `fs`.
pub open spec fn rule_chain(ss: Seq<Seq<Node>>, cs: Seq<ExprId>, fs: Seq<ExprId>) -> bool {
    &&& ss.len() == cs.len() + 1
    &&& fs.len() == cs.len()
    &&& forall|k: int| 0 <= k < cs.len() ==> #[trigger] calculus_rules_result(ss[k], ss[k + 1], cs[k], fs[k])
}

proof fn lemma_rule_steps(ss: Seq<Seq<Node>>, cs: Seq<ExprId>, fs: Seq<ExprId>, bound: int, k: int)
    requires
        0 <= k <= cs.len(),
        rule_chain(ss, cs, fs),
        forall|j: int| 0 <= j < cs.len() ==> (#[trigger] cs[j]).0 < bound,
    ensures
        rule_steps(ss, cs, fs, bound, k),
    decreases k,
{
    if k > 0 {
        lemma_rule_steps(ss, cs, fs, bound, k - 1);
        assert(calculus_rules_result(ss[k - 1], ss[k - 1 + 1], cs[k - 1], fs[k - 1]));
    }
}

/// The children of `expr`, each rewritten, in order.
fn rules_children(store: &mut Store, expr: ExprId) -> (r: Vec<ExprId>)
    requires
        old(store).wf(),
        expr.0 < old(store).nodes().len(),
    ensures
        final(store).wf(),
        expr_core::extends(old(store).nodes(), final(store).nodes()),
        expr_core::valid_ids(final(store).nodes(), r@),
        exists|ss: Seq<Seq<Node>>|
            #![trigger rule_chain(ss, old(store).nodes()[expr.0 as int].children@, r@)]
            rule_chain(ss, old(store).nodes()[expr.0 as int].children@, r@) && ss[0] == old(store).nodes()
                && ss.last() == final(store).nodes(),
    decreases expr.0, 0int,
{
    let ghost nodes0 = store.nodes();
    let children = children_of(store, expr);
    let mut done: Vec<ExprId> = Vec::new();
    let ghost mut ss: Seq<Seq<Node>> = seq![nodes0];
    proof {
        assert(children@.take(0) =~= Seq::<ExprId>::empty());
    }
    let mut i: usize = 0;
    while i < children.len()
        invariant
            store.wf(),
            nodes0 == old(store).nodes(),
            expr_core::nodes_wf(nodes0),
            expr.0 < nodes0.len(),
            children@ == nodes0[expr.0 as int].children@,
            expr_core::extends(nodes0, store.nodes()),
            expr_core::valid_ids(store.nodes(), done@),
            i <= children@.len(),
            rule_chain(ss, children@.take(i as int), done@),
            ss[0] == nodes0,
            ss.last() == store.nodes(),
        decreases children@.len() - i,
    {
        let c = children[i];
        assert(c.0 < expr.0);
        let ghost before = store.nodes();
        let f = apply_calculus_rules(store, c);
        proof {
            expr_core::lemma_extends_trans(nodes0, before, store.nodes());
            let ss2 = ss.push(store.nodes());
            let cs2 = children@.take(i as int + 1);
            let r2 = done@.push(f);
            assert forall|k: int| 0 <= k < cs2.len() implies #[trigger] calculus_rules_result(
                ss2[k],
                ss2[k + 1],
                cs2[k],
                r2[k],
            ) by {
                if k < i {
                    assert(calculus_rules_result(ss[k], ss[k + 1], children@.take(i as int)[k], done@[k]));
                }
            }
            assert forall|k: int| 0 <= k < r2.len() implies (#[trigger] r2[k]).0 < store.nodes().len() by {
                if k < i {
                    assert(done@[k].0 < before.len());
                }
            }
            ss = ss2;
        }
        done.push(f);
        i = i + 1;
    }
    proof {
        assert(children@.take(children@.len() as int) =~= children@);
    }
    done
}

/// Applies the calculus rules to `expr`, from its leaves up (`calculus_rules_result`):
/// `√` of perfect squares, `ln(exp x) → x`, `exp(ln x) → x`, `exp 0 → 1`,
/// `atan(tan x) → x`, `atan 0 → 0`, `sin²x + cos²x → 1` and `2 sin x cos x → sin 2x`.
#[verifier::spinoff_prover]
pub fn apply_calculus_rules(store: &mut Store, expr: ExprId) -> (r: ExprId)
    requires
        old(store).wf(),
        expr.0 < old(store).nodes().len(),
    ensures
        final(store).wf(),
        expr_core::extends(old(store).nodes(), final(store).nodes()),
        r.0 < final(store).nodes().len(),
        calculus_rules_result(old(store).nodes(), final(store).nodes(), expr, r),
    decreases expr.0, 1int,
{
    let ghost nodes0 = store.nodes();
    let op = store.get(expr).op;
    match op {
        Op::Function => {
            let name = match &store.get(expr).payload {
                Payload::Func(f) => f.clone(),
                _ => {
                    return expr;
                },
            };
            let children = children_of(store, expr);
            if children.len() != 1 {
                return expr;
            }
            let arg = children[0];
            assert(arg.0 < expr.0);
            let a = apply_calculus_rules(store, arg);
            let ghost m1 = store.nodes();
            let r = fn_step(store, &name, expr, arg, a);
            proof {
                expr_core::lemma_extends_trans(nodes0, m1, store.nodes());
                assert(present(m1, a));
            }
            r
        },
        Op::Pow => {
            let children = children_of(store, expr);
            if children.len() != 2 {
                return expr;
            }
            assert(children@[0].0 < expr.0 && children@[1].0 < expr.0);
            let b = apply_calculus_rules(store, children[0]);
            let ghost m1 = store.nodes();
            let e = apply_calculus_rules(store, children[1]);
            let ghost m2 = store.nodes();
            proof {
                expr_core::lemma_extends_trans(nodes0, m1, m2);
                assert(present(m1, b));
                assert(present(m2, e));
            }
            if b.0 == children[0].0 && e.0 == children[1].0 {
                return expr;
            }
            let r = store.pow(b, e);
            proof {
                expr_core::lemma_extends_trans(nodes0, m2, store.nodes());
            }
            r
        },
        Op::Add => {
            let children = children_of(store, expr);
            let fs = rules_children(store, expr);
            let ghost cs = nodes0[expr.0 as int].children@;
            let ghost ss = choose|ss: Seq<Seq<Node>>|
                rule_chain(ss, cs, fs@) && ss[0] == nodes0 && ss.last() == store.nodes();
            let ghost m = store.nodes();
            proof {
                assert forall|j: int| 0 <= j < cs.len() implies (#[trigger] cs[j]).0 < expr.0 by {
                    assert(nodes0[expr.0 as int].children@[j].0 < expr.0);
                }
                lemma_rule_steps(ss, cs, fs@, expr.0 as int, cs.len() as int);
                assert(rules_into(nodes0, ss, cs, fs@, expr.0 as int));
                assert(rule_stages(ss, fs@));
            }
            match pyth_pair(store, &fs) {
                Some((i, j)) => {
                    let one = store.integer(1);
                    let ghost m1 = store.nodes();
                    proof {
                        expr_core::lemma_extends_trans(nodes0, m, m1);
                        assert(present(m1, one));
                    }
                    let mut terms = without_two(&fs, i, j);
                    if terms.len() == 0 {
                        return one;
                    }
                    proof {
                        assert forall|k: int| 0 <= k < terms@.len() implies (#[trigger] terms@[k]).0 < m1.len() by {
                            lemma_skip_two_in(fs@, i as int, j as int, fs@.len() as int, k);
                        }
                    }
                    terms.push(one);
                    proof {
                        assert(expr_core::valid_ids(m1, terms@));
                    }
                    if !store.sum_fits(&terms) {
                        return expr;
                    }
                    let r = store.add(terms);
                    proof {
                        expr_core::lemma_extends_trans(nodes0, m1, store.nodes());
                    }
                    r
                },
                None => {
                    if same_ids(&fs, &children) {
                        return expr;
                    }
                    if !store.sum_fits(&fs) {
                        return expr;
                    }
                    let r = store.add(fs);
                    proof {
                        expr_core::lemma_extends_trans(nodes0, m, store.nodes());
                    }
                    r
                },
            }
        },
        Op::Mul => {
            let children = children_of(store, expr);
            let fs = rules_children(store, expr);
            let ghost cs = nodes0[expr.0 as int].children@;
            let ghost ss = choose|ss: Seq<Seq<Node>>|
                rule_chain(ss, cs, fs@) && ss[0] == nodes0 && ss.last() == store.nodes();
            let ghost m = store.nodes();
            proof {
                assert forall|j: int| 0 <= j < cs.len() implies (#[trigger] cs[j]).0 < expr.0 by {
                    assert(nodes0[expr.0 as int].children@[j].0 < expr.0);
                }
                lemma_rule_steps(ss, cs, fs@, expr.0 as int, cs.len() as int);
                assert(rules_into(nodes0, ss, cs, fs@, expr.0 as int));
                assert(rule_stages(ss, fs@));
            }
            let (two, s, c, others) = scan_double_angle(store, &fs);
            let found = match (s, c) {
                (Some(sa), Some(ca)) => two && sa.0 == ca.0,
                _ => false,
            };
            if found {
                let a = s.unwrap();
                let two_id = store.integer(2);
                let ghost m1 = store.nodes();
                proof {
                    expr_core::lemma_extends_trans(nodes0, m, m1);
                    assert(present(m1, two_id));
                }
                let mut pair: Vec<ExprId> = Vec::new();
                pair.push(two_id);
                pair.push(a);
                assert(pair@ =~= seq![two_id, a]);
                if !store.product_fits(&pair) {
                    return expr;
                }
                let ta = store.mul(pair);
                let ghost m2 = store.nodes();
                let sn = store.func("sin", one_id(ta));
                let ghost m3 = store.nodes();
                proof {
                    expr_core::lemma_extends_trans(nodes0, m1, m2);
                    expr_core::lemma_extends_trans(nodes0, m2, m3);
                    expr_core::lemma_extends_trans(m1, m2, m3);
                    assert(present(m2, ta));
                    assert(present(m3, sn));
                }
                if others.len() == 0 {
                    return sn;
                }
                let mut rest = others;
                proof {
                    assert forall|k: int| 0 <= k < rest@.len() implies (#[trigger] rest@[k]).0 < m3.len() by {
                        assert(rest@[k].0 < m.len());
                    }
                }
                rest.push(sn);
                proof {
                    assert(expr_core::valid_ids(m3, rest@));
                }
                if !store.product_fits(&rest) {
                    return expr;
                }
                let r = store.mul(rest);
                proof {
                    expr_core::lemma_extends_trans(nodes0, m3, store.nodes());
                }
                r
            } else {
                if same_ids(&fs, &children) {
                    return expr;
                }
                if !store.product_fits(&fs) {
                    return expr;
                }
                let r = store.mul(fs);
                proof {
                    expr_core::lemma_extends_trans(nodes0, m, store.nodes());
                }
                r
            }
        },
        _ => expr,
    }
}

/// Every term of `skip_two(cs, i, j, k)` is a term of `cs` below `k`.
proof fn lemma_skip_two_in(cs: Seq<ExprId>, i: int, j: int, k: int, t: int)
    requires
        0 <= k <= cs.len(),
        0 <= t < skip_two(cs, i, j, k).len(),
    ensures
        exists|u: int| 0 <= u < k && skip_two(cs, i, j, k)[t] == #[trigger] cs[u],
    decreases k,
{
    if k > 0 {
        if k - 1 == i || k - 1 == j {
            lemma_skip_two_in(cs, i, j, k - 1, t);
            let u = choose|u: int| 0 <= u < k - 1 && skip_two(cs, i, j, k - 1)[t] == #[trigger] cs[u];
            assert(skip_two(cs, i, j, k)[t] == cs[u]);
        } else if t < skip_two(cs, i, j, k - 1).len() {
            lemma_skip_two_in(cs, i, j, k - 1, t);
            let u = choose|u: int| 0 <= u < k - 1 && skip_two(cs, i, j, k - 1)[t] == #[trigger] cs[u];
            assert(skip_two(cs, i, j, k)[t] == cs[u]);
        } else {
            assert(skip_two(cs, i, j, k)[t] == cs[k - 1]);
        }
    }
}

} // verus!
