//! Evaluation of constant expressions to exact rationals, and constant folding.
use vstd::prelude::*;
use crate::arith;
use crate::arith::{tv, add_ok, mul_ok};
use crate::expr_core::{self, ExprId, Node, Op, Payload, Store, opt_tv};

verus! {

/// `acc * base^k` by `k` checked multiplications, given up (`None`) when a product
/// overflows or when its numerator or denominator reaches `i64::MAX`.
pub open spec fn pow_steps(base: (int, int), k: nat, acc: (int, int)) -> Option<(int, int)>
    decreases k,
{
    if k == 0 {
        Some(acc)
    } else if !mul_ok(acc, base) {
        None
    } else {
        let r = arith::mul_spec(acc, base);
        if r.0 == i64::MAX || r.1 == i64::MAX {
            None
        } else {
            pow_steps(base, (k - 1) as nat, r)
        }
    }
}

/// `base^e` for an integer exponent: `1` for `e = 0`; for `e < 0` the reciprocal of
/// the power for `-e`, its sign moved to the numerator, and `None` when that power is 0.
pub open spec fn pow_value(base: (int, int), e: int) -> Option<(int, int)> {
    if e == 0 {
        Some((1, 1))
    } else if e < 0 {
        if e == i64::MIN {
            None
        } else {
            match pow_steps(base, (-e) as nat, (1, 1)) {
                Some(p) => if p.0 == 0 {
                    None
                } else if p.0 < 0 {
                    Some((-p.1, -p.0))
                } else {
                    Some((p.1, p.0))
                },
                None => None,
            }
        }
    } else {
        pow_steps(base, e as nat, (1, 1))
    }
}

/// The rational value of node `id` when it is built from numbers by sums, products and
/// integer powers; `None` for anything else, or when a step overflows `i64`.
pub open spec fn eval_const(nodes: Seq<Node>, id: int) -> Option<(int, int)>
    decreases id, 1int, 0int,
{
    if !(0 <= id < nodes.len()) {
        None
    } else {
        let n = nodes[id];
        let len = n.children@.len() as int;
        match (n.op, n.payload) {
            (Op::Integer, Payload::Int(k)) => Some((k as int, 1)),
            (Op::Rational, Payload::Rat(p, q)) => Some((p as int, q as int)),
            (Op::Add, _) => eval_sum(nodes, id, len),
            (Op::Mul, _) => eval_product(nodes, id, len),
            (Op::Pow, _) => if len != 2 {
                None
            } else {
                match (eval_child(nodes, id, 0), eval_child(nodes, id, 1)) {
                    (Some(b), Some(e)) => if e.1 != 1 { None } else { pow_value(b, e.0) },
                    _ => None,
                }
            },
            _ => None,
        }
    }
}

/// The value of child `k` of node `id`.
pub open spec fn eval_child(nodes: Seq<Node>, id: int, k: int) -> Option<(int, int)>
    decreases id, 0int, 0int,
{
    if 0 <= id < nodes.len() && 0 <= k < nodes[id].children@.len() && 0 <= nodes[id].children@[k].0 < id {
        eval_const(nodes, nodes[id].children@[k].0 as int)
    } else {
        None
    }
}

/// The checked sum of the values of the first `k` children of node `id`, from `0`.
pub open spec fn eval_sum(nodes: Seq<Node>, id: int, k: int) -> Option<(int, int)>
    decreases id, 0int, k,
{
    if k <= 0 {
        Some((0, 1))
    } else {
        match (eval_sum(nodes, id, k - 1), eval_child(nodes, id, k - 1)) {
            (Some(s), Some(v)) => if add_ok(s, v) { Some(arith::add_spec(s, v)) } else { None },
            _ => None,
        }
    }
}

/// The checked product of the values of the first `k` children of node `id`, from `1`.
pub open spec fn eval_product(nodes: Seq<Node>, id: int, k: int) -> Option<(int, int)>
    decreases id, 0int, k,
{
    if k <= 0 {
        Some((1, 1))
    } else {
        match (eval_product(nodes, id, k - 1), eval_child(nodes, id, k - 1)) {
            (Some(s), Some(v)) => if mul_ok(s, v) { Some(arith::mul_spec(s, v)) } else { None },
            _ => None,
        }
    }
}

/// A sum that failed stays failed as more terms come.
proof fn lemma_sum_none(nodes: Seq<Node>, id: int, k: int, m: int)
    requires
        0 <= k <= m,
        eval_sum(nodes, id, k) is None,
    ensures
        eval_sum(nodes, id, m) is None,
    decreases m - k,
{
    if m > k {
        lemma_sum_none(nodes, id, k, m - 1);
    }
}

/// A product that failed stays failed as more factors come.
proof fn lemma_product_none(nodes: Seq<Node>, id: int, k: int, m: int)
    requires
        0 <= k <= m,
        eval_product(nodes, id, k) is None,
    ensures
        eval_product(nodes, id, m) is None,
    decreases m - k,
{
    if m > k {
        lemma_product_none(nodes, id, k, m - 1);
    }
}

/// `base^exp` by repeated multiplication (`pow_value`).
pub(crate) fn eval_pow(base: (i64, i64), exp: i64) -> (r: Option<(i64, i64)>)
    ensures
        opt_tv(r) == pow_value(tv(base), exp as int),
{
    if exp == 0 {
        return Some((1, 1));
    }
    if exp == i64::MIN {
        return None;
    }
    let k: i64 = if exp < 0 { -exp } else { exp };
    let mut acc: (i64, i64) = (1, 1);
    let mut i: i64 = 0;
    while i < k
        invariant
            0 <= i <= k,
            k as int == (if exp < 0 { -exp } else { exp as int }),
            pow_steps(tv(base), k as nat, (1, 1)) == pow_steps(tv(base), (k - i) as nat, tv(acc)),
            acc.0 > i64::MIN,
            acc.1 > 0,
        decreases k - i,
    {
        if !arith::mul_fits(acc, base) {
            return None;
        }
        let ghost a0 = acc;
        acc = arith::rat_mul(acc, base);
        proof {
            arith::lemma_normalize_bounds(a0.0 * base.0, a0.1 * base.1);
        }
        if acc.0 == i64::MAX || acc.1 == i64::MAX {
            return None;
        }
        i = i + 1;
    }
    if exp < 0 {
        if acc.0 == 0 {
            return None;
        }
        if acc.0 < 0 {
            return Some((-acc.1, -acc.0));
        }
        Some((acc.1, acc.0))
    } else {
        Some(acc)
    }
}

/// The exact value of `expr` as a rational `(numerator, denominator)` when it is built
/// from numbers by sums, products and integer powers (`eval_const`); `None` otherwise.
pub fn try_eval_constant(store: &Store, expr: ExprId) -> (r: Option<(i64, i64)>)
    requires
        store.wf(),
        expr.0 < store.nodes().len(),
    ensures
        opt_tv(r) == eval_const(store.nodes(), expr.0 as int),
    decreases expr.0,
{
    let ghost nodes = store.nodes();
    let ghost id = expr.0 as int;
    let n = store.get(expr);
    let len = n.children.len();
    match (&n.op, &n.payload) {
        (Op::Integer, Payload::Int(k)) => Some((*k, 1)),
        (Op::Rational, Payload::Rat(p, q)) => Some((*p, *q)),
        (Op::Add, _) => {
            let mut sum: (i64, i64) = (0, 1);
            let mut i: usize = 0;
            while i < len
                invariant
                    store.wf(),
                    nodes == store.nodes(),
                    *n == nodes[id],
                    0 <= id < nodes.len(),
                    id == expr.0,
                    len == n.children@.len(),
                    i <= len,
                    eval_sum(nodes, id, i as int) == Some(tv(sum)),
                    eval_const(nodes, id) == eval_sum(nodes, id, len as int),
                decreases len - i,
            {
                let c = n.children[i];
                assert(n.children@[i as int].0 < id);
                assert(eval_child(nodes, id, i as int) == eval_const(nodes, c.0 as int));
                let v = match try_eval_constant(store, c) {
                    Some(v) => v,
                    None => {
                        proof {
                            lemma_sum_none(nodes, id, i as int + 1, len as int);
                        }
                        return None;
                    },
                };
                if !arith::add_fits(sum, v) {
                    proof {
                        lemma_sum_none(nodes, id, i as int + 1, len as int);
                    }
                    return None;
                }
                sum = arith::rat_add(sum, v);
                i = i + 1;
            }
            Some(sum)
        },
        (Op::Mul, _) => {
            let mut prod: (i64, i64) = (1, 1);
            let mut i: usize = 0;
            while i < len
                invariant
                    store.wf(),
                    nodes == store.nodes(),
                    *n == nodes[id],
                    0 <= id < nodes.len(),
                    id == expr.0,
                    len == n.children@.len(),
                    i <= len,
                    eval_product(nodes, id, i as int) == Some(tv(prod)),
                    eval_const(nodes, id) == eval_product(nodes, id, len as int),
                decreases len - i,
            {
                let c = n.children[i];
                assert(n.children@[i as int].0 < id);
                assert(eval_child(nodes, id, i as int) == eval_const(nodes, c.0 as int));
                let v = match try_eval_constant(store, c) {
                    Some(v) => v,
                    None => {
                        proof {
                            lemma_product_none(nodes, id, i as int + 1, len as int);
                        }
                        return None;
                    },
                };
                if !arith::mul_fits(prod, v) {
                    proof {
                        lemma_product_none(nodes, id, i as int + 1, len as int);
                    }
                    return None;
                }
                prod = arith::rat_mul(prod, v);
                i = i + 1;
            }
            Some(prod)
        },
        (Op::Pow, _) => {
            if len != 2 {
                return None;
            }
            assert(n.children@[0].0 < id && n.children@[1].0 < id);
            assert(eval_child(nodes, id, 0) == eval_const(nodes, n.children@[0].0 as int));
            assert(eval_child(nodes, id, 1) == eval_const(nodes, n.children@[1].0 as int));
            let b = match try_eval_constant(store, n.children[0]) {
                Some(b) => b,
                None => {
                    return None;
                },
            };
            let e = match try_eval_constant(store, n.children[1]) {
                Some(e) => e,
                None => {
                    return None;
                },
            };
            if e.1 != 1 {
                return None;
            }
            eval_pow(b, e.0)
        },
        _ => None,
    }
}

/// The children of node `id`, copied out of the store.
pub(crate) fn children_of(store: &Store, id: ExprId) -> (v: Vec<ExprId>)
    requires
        id.0 < store.nodes().len(),
    ensures
        v@ == store.nodes()[id.0 as int].children@,
{
    let n = store.get(id);
    let mut v: Vec<ExprId> = Vec::new();
    let mut i: usize = 0;
    while i < n.children.len()
        invariant
            i <= n.children@.len(),
            v@ == n.children@.take(i as int),
        decreases n.children@.len() - i,
    {
        v.push(n.children[i]);
        proof {
            assert(n.children@.take(i as int + 1) =~= n.children@.take(i as int).push(n.children@[i as int]));
        }
        i = i + 1;
    }
    proof {
        assert(n.children@.take(n.children@.len() as int) =~= n.children@);
    }
    v
}

/// What folding `expr` gives in a store `old` that becomes `new`: a constant expression
/// (`eval_const`) becomes its number, an integer when the denominator is 1 (and stays as
/// it is when the fraction is out of range). A sum or product is rebuilt by `add` or
/// `mul` from its children folded one after the other (`folds_into`), or returned as is
/// when that sum or product would overflow; a power is rebuilt by `pow` from its folded
/// base and exponent; a function application is applied again, by its name, to its
/// folded arguments; anything else is returned as is.
pub open spec fn fold_result(old: Seq<Node>, new: Seq<Node>, expr: ExprId, r: ExprId) -> bool
    decreases expr.0, 1int, 0int,
{
    &&& r.0 < new.len()
    &&& match eval_const(old, expr.0 as int) {
        Some(v) => if v.1 == 1 {
            expr_core::interned(old, new, r, Op::Integer, expr_core::int_key(v.0), Seq::empty())
        } else if arith::norm_ok(v.0, v.1) {
            expr_core::interned(
                old,
                new,
                r,
                expr_core::number_key(v.0, v.1).0,
                expr_core::number_key(v.0, v.1).1,
                Seq::empty(),
            )
        } else {
            r == expr && new == old
        },
        None => if !(expr.0 < old.len()) {
            r == expr && new == old
        } else {
            let n = old[expr.0 as int];
            match (n.op, n.payload) {
                (Op::Add, _) => exists|ss: Seq<Seq<Node>>, fs: Seq<ExprId>|
                    #[trigger] fold_stages(ss, fs) && folds_into(old, ss, n.children@, fs, expr.0 as int) && if expr_core::add_flatten(
                        ss.last(),
                        fs,
                    ).1 is Some {
                        expr_core::sum_result(ss.last(), new, fs, r)
                    } else {
                        r == expr && new == ss.last()
                    },
                (Op::Mul, _) => exists|ss: Seq<Seq<Node>>, fs: Seq<ExprId>|
                    #[trigger] fold_stages(ss, fs) && folds_into(old, ss, n.children@, fs, expr.0 as int) && if expr_core::mul_flatten(
                        ss.last(),
                        fs,
                    ).1 is Some {
                        expr_core::product_result(ss.last(), new, fs, r)
                    } else {
                        r == expr && new == ss.last()
                    },
                (Op::Pow, _) => if n.children@.len() != 2 {
                    r == expr && new == old
                } else if n.children@[0].0 < expr.0 && n.children@[1].0 < expr.0 {
                    exists|m1: Seq<Node>, b: ExprId, m2: Seq<Node>, e: ExprId|
                        #[trigger] pow_stages(m1, b, m2, e) && fold_result(old, m1, n.children@[0], b) && fold_result(
                            m1,
                            m2,
                            n.children@[1],
                            e,
                        ) && expr_core::pow_result(m2, new, b, e, r)
                } else {
                    false
                },
                (Op::Function, Payload::Func(name)) => exists|ss: Seq<Seq<Node>>, fs: Seq<ExprId>|
                    #[trigger] fold_stages(ss, fs) && folds_into(old, ss, n.children@, fs, expr.0 as int) && expr_core::interned(
                        ss.last(),
                        new,
                        r,
                        Op::Function,
                        (4, name@, 0, 0),
                        fs,
                    ),
                _ => r == expr && new == old,
            }
        },
    }
}

/// The stores after folding a base and an exponent, the second no smaller than the first.
pub open spec fn pow_stages(m1: Seq<Node>, b: ExprId, m2: Seq<Node>, e: ExprId) -> bool {
    m1.len() <= m2.len()
}

/// Stores and folded children of matching lengths: one store before each fold and one
/// after the last.
pub open spec fn fold_stages(ss: Seq<Seq<Node>>, fs: Seq<ExprId>) -> bool {
    ss.len() == fs.len() + 1
}

/// Folding the children `cs` (each below node `bound`) one after the other, from store
/// `old`: the stores `ss[0] = old, …, ss[n]` and the folded children `fs`.
pub open spec fn folds_into(old: Seq<Node>, ss: Seq<Seq<Node>>, cs: Seq<ExprId>, fs: Seq<ExprId>, bound: int) -> bool
    decreases bound, 0int, cs.len() + 1,
{
    &&& ss.len() == cs.len() + 1
    &&& fs.len() == cs.len()
    &&& ss[0] == old
    &&& fold_steps(ss, cs, fs, bound, cs.len() as int)
}

/// The first `k` steps of `folds_into`.
pub open spec fn fold_steps(ss: Seq<Seq<Node>>, cs: Seq<ExprId>, fs: Seq<ExprId>, bound: int, k: int) -> bool
    decreases bound, 0int, k,
{
    if k <= 0 {
        true
    } else {
        fold_steps(ss, cs, fs, bound, k - 1) && if 0 <= cs[k - 1].0 < bound {
            fold_result(ss[k - 1], ss[k], cs[k - 1], fs[k - 1])
        } else {
            false
        }
    }
}

proof fn lemma_fold_steps(ss: Seq<Seq<Node>>, cs: Seq<ExprId>, fs: Seq<ExprId>, bound: int, k: int)
    requires
        0 <= k <= cs.len(),
        fold_chain(ss, cs, fs),
        forall|j: int| 0 <= j < cs.len() ==> (#[trigger] cs[j]).0 < bound,
    ensures
        fold_steps(ss, cs, fs, bound, k),
    decreases k,
{
    if k > 0 {
        lemma_fold_steps(ss, cs, fs, bound, k - 1);
        assert(fold_result(ss[k - 1], ss[k - 1 + 1], cs[k - 1], fs[k - 1]));
    }
}

/// The stores `ss[0], …, ss[n]` of folding the children `cs` one after the other into
/// `r`.
pub open spec fn fold_chain(ss: Seq<Seq<Node>>, cs: Seq<ExprId>, r: Seq<ExprId>) -> bool {
    &&& ss.len() == cs.len() + 1
    &&& r.len() == cs.len()
    &&& forall|k: int| 0 <= k < cs.len() ==> #[trigger] fold_result(ss[k], ss[k + 1], cs[k], r[k])
}

/// The children of `expr`, each folded, in order.
fn fold_children(store: &mut Store, expr: ExprId) -> (r: Vec<ExprId>)
    requires
        old(store).wf(),
        expr.0 < old(store).nodes().len(),
    ensures
        final(store).wf(),
        expr_core::extends(old(store).nodes(), final(store).nodes()),
        expr_core::valid_ids(final(store).nodes(), r@),
        exists|ss: Seq<Seq<Node>>|
            #![trigger fold_chain(ss, old(store).nodes()[expr.0 as int].children@, r@)]
            fold_chain(ss, old(store).nodes()[expr.0 as int].children@, r@) && ss[0] == old(store).nodes()
                && ss.last() == final(store).nodes(),
    decreases expr.0, 0int,
{
    let ghost nodes0 = store.nodes();
    let children = children_of(store, expr);
    let mut folded: Vec<ExprId> = Vec::new();
    let ghost mut ss: Seq<Seq<Node>> = seq![nodes0];
    proof {
        assert(children@.take(0) =~= Seq::<ExprId>::empty());
    }
    let mut i: usize = 0;
    while i < children.len()
        invariant
            store.wf(),
            nodes0 == old(store).nodes(),
            expr_core::nodes_wf(nodes0),
            expr.0 < nodes0.len(),
            children@ == nodes0[expr.0 as int].children@,
            expr_core::extends(nodes0, store.nodes()),
            expr_core::valid_ids(store.nodes(), folded@),
            i <= children@.len(),
            fold_chain(ss, children@.take(i as int), folded@),
            ss[0] == nodes0,
            ss.last() == store.nodes(),
        decreases children@.len() - i,
    {
        let c = children[i];
        assert(c.0 < expr.0);
        let ghost before = store.nodes();
        let f = fold_constants(store, c);
        proof {
            expr_core::lemma_extends_trans(nodes0, before, store.nodes());
            let ss2 = ss.push(store.nodes());
            let cs2 = children@.take(i as int + 1);
            let r2 = folded@.push(f);
            assert forall|k: int| 0 <= k < cs2.len() implies #[trigger] fold_result(ss2[k], ss2[k + 1], cs2[k], r2[k]) by {
                if k < i {
                    assert(fold_result(ss[k], ss[k + 1], children@.take(i as int)[k], folded@[k]));
                }
            }
            ss = ss2;
        }
        folded.push(f);
        i = i + 1;
    }
    proof {
        assert(children@.take(children@.len() as int) =~= children@);
    }
    folded
}

/// `expr` with its constant subexpressions replaced by their values. A constant
/// expression (`eval_const`) becomes its number, an integer when the denominator is 1;
/// otherwise sums, products, powers and function applications are rebuilt from their
/// folded children, and anything else is returned as is.
#[verifier::spinoff_prover]
pub fn fold_constants(store: &mut Store, expr: ExprId) -> (r: ExprId)
    requires
        old(store).wf(),
        expr.0 < old(store).nodes().len(),
    ensures
        final(store).wf(),
        expr_core::extends(old(store).nodes(), final(store).nodes()),
        fold_result(old(store).nodes(), final(store).nodes(), expr, r),
    decreases expr.0, 1int,
{
    let ghost nodes0 = store.nodes();
    if let Some((num, den)) = try_eval_constant(store, expr) {
        if den == 1 {
            return store.integer(num);
        }
        if den == 0 || num == i64::MIN || den == i64::MIN {
            return expr;
        }
        return store.rat(num, den);
    }
    let op = store.get(expr).op;
    match op {
        Op::Add => {
            let folded = fold_children(store, expr);
            let ghost children = nodes0[expr.0 as int].children@;
            let ghost ss = choose|ss: Seq<Seq<Node>>|
                fold_chain(ss, children, folded@) && ss[0] == nodes0 && ss.last() == store.nodes();
            proof {
                assert forall|j: int| 0 <= j < children.len() implies (#[trigger] children[j]).0 < expr.0 by {
                    assert(nodes0[expr.0 as int].children@[j].0 < expr.0);
                }
                lemma_fold_steps(ss, children, folded@, expr.0 as int, children.len() as int);
                assert(folds_into(nodes0, ss, children, folded@, expr.0 as int));
                assert(fold_stages(ss, folded@));
            }
            if !store.sum_fits(&folded) {
                return expr;
            }
            let ghost mid = store.nodes();
            let r = store.add(folded);
            proof {
                expr_core::lemma_extends_trans(nodes0, mid, store.nodes());
                assert(mid == ss.last());
                assert(expr_core::sum_result(ss.last(), store.nodes(), folded@, r));
            }
            r
        },
        Op::Mul => {
            let folded = fold_children(store, expr);
            let ghost children = nodes0[expr.0 as int].children@;
            let ghost ss = choose|ss: Seq<Seq<Node>>|
                fold_chain(ss, children, folded@) && ss[0] == nodes0 && ss.last() == store.nodes();
            proof {
                assert forall|j: int| 0 <= j < children.len() implies (#[trigger] children[j]).0 < expr.0 by {
                    assert(nodes0[expr.0 as int].children@[j].0 < expr.0);
                }
                lemma_fold_steps(ss, children, folded@, expr.0 as int, children.len() as int);
                assert(folds_into(nodes0, ss, children, folded@, expr.0 as int));
                assert(fold_stages(ss, folded@));
            }
            if !store.product_fits(&folded) {
                return expr;
            }
            let ghost mid = store.nodes();
            let r = store.mul(folded);
            proof {
                expr_core::lemma_extends_trans(nodes0, mid, store.nodes());
            }
            r
        },
        Op::Pow => {
            let children = children_of(store, expr);
            if children.len() != 2 {
                return expr;
            }
            assert(children@[0].0 < expr.0 && children@[1].0 < expr.0);
            let base = fold_constants(store, children[0]);
            let ghost mid = store.nodes();
            let e = fold_constants(store, children[1]);
            let ghost mid2 = store.nodes();
            proof {
                expr_core::lemma_extends_trans(nodes0, mid, mid2);
            }
            let r = store.pow(base, e);
            proof {
                expr_core::lemma_extends_trans(nodes0, mid2, store.nodes());
                assert(pow_stages(mid, base, mid2, e));
            }
            r
        },
        Op::Function => {
            let name = match &store.get(expr).payload {
                Payload::Func(f) => f.clone(),
                _ => {
                    return expr;
                },
            };
            let folded = fold_children(store, expr);
            let ghost children = nodes0[expr.0 as int].children@;
            let ghost ss = choose|ss: Seq<Seq<Node>>|
                fold_chain(ss, children, folded@) && ss[0] == nodes0 && ss.last() == store.nodes();
            proof {
                assert forall|j: int| 0 <= j < children.len() implies (#[trigger] children[j]).0 < expr.0 by {
                    assert(nodes0[expr.0 as int].children@[j].0 < expr.0);
                }
                lemma_fold_steps(ss, children, folded@, expr.0 as int, children.len() as int);
                assert(folds_into(nodes0, ss, children, folded@, expr.0 as int));
                assert(fold_stages(ss, folded@));
            }
            let ghost mid = store.nodes();
            let r = store.func(name.as_str(), folded);
            proof {
                expr_core::lemma_extends_trans(nodes0, mid, store.nodes());
            }
            r
        },
        _ => expr,
    }
}

} // verus!
