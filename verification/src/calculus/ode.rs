//! Recognising the shapes of first-order ODE right-hand sides: powers of the unknown,
//! the coefficient of a variable in a product, and the split of a product into a factor
//! in `x` and a factor in `y`.
use vstd::prelude::*;
use crate::expr_core::{self, ExprId, Node, Op, Payload, Store};
use crate::calculus::evaluate::children_of;
use crate::calculus::risch::{depends, depends_on_var};
use crate::text;

verus! {

/// Node `id` is the symbol `var`.
pub open spec fn sym_is(nodes: Seq<Node>, id: ExprId, var: Seq<char>) -> bool {
    id.0 < nodes.len() && nodes[id.0 as int].op == Op::Symbol && match nodes[id.0 as int].payload {
        Payload::Sym(s) => s@ == var,
        _ => false,
    }
}

/// The power `n` when node `id` is `var`, `var^n` with an integer `n`, or a product with
/// such a factor (the first one); `None` otherwise.
pub open spec fn power_of(nodes: Seq<Node>, id: int, var: Seq<char>) -> Option<int>
    decreases id, 1int, 0int,
{
    if !(0 <= id < nodes.len()) {
        None
    } else {
        let n = nodes[id];
        match n.op {
            Op::Symbol => if sym_is(nodes, ExprId(id as usize), var) {
                Some(1)
            } else {
                None
            },
            Op::Pow => if n.children@.len() == 2 && sym_is(nodes, n.children@[0], var) && n.children@[1].0 < nodes.len()
                && nodes[n.children@[1].0 as int].op == Op::Integer {
                match nodes[n.children@[1].0 as int].payload {
                    Payload::Int(p) => Some(p as int),
                    _ => None,
                }
            } else {
                None
            },
            Op::Mul => power_of_from(nodes, id, var, 0),
            _ => None,
        }
    }
}

/// `power_of` of the first factor of `id`, from factor `k` on, that has one.
pub open spec fn power_of_from(nodes: Seq<Node>, id: int, var: Seq<char>, k: int) -> Option<int>
    decreases id, 0int, nodes[id].children@.len() - k,
{
    if !(0 <= id < nodes.len()) || k < 0 || k >= nodes[id].children@.len() {
        None
    } else {
        let c = nodes[id].children@[k].0 as int;
        if 0 <= c < id && power_of(nodes, c, var) is Some {
            power_of(nodes, c, var)
        } else {
            power_of_from(nodes, id, var, k + 1)
        }
    }
}

/// Whether node `id` is the symbol `var`.
fn symbol_is(store: &Store, id: ExprId, var: &str) -> (b: bool)
    requires
        id.0 < store.nodes().len(),
    ensures
        b == sym_is(store.nodes(), id, var@),
{
    let n = store.get(id);
    match (&n.op, &n.payload) {
        (Op::Symbol, Payload::Sym(s)) => text::string_is(s, var),
        _ => false,
    }
}

/// The power of `var` in `expr` (`power_of`).
pub fn is_power_of_var(store: &Store, expr: ExprId, var: &str) -> (r: Option<i64>)
    requires
        store.wf(),
        expr.0 < store.nodes().len(),
    ensures
        match (r, power_of(store.nodes(), expr.0 as int, var@)) {
            (Some(p), Some(q)) => p as int == q,
            (None, None) => true,
            _ => false,
        },
    decreases expr.0,
{
    let ghost nodes = store.nodes();
    let ghost i = expr.0 as int;
    let n = store.get(expr);
    match n.op {
        Op::Symbol => {
            if symbol_is(store, expr, var) {
                Some(1)
            } else {
                None
            }
        },
        Op::Pow => {
            if n.children.len() != 2 {
                return None;
            }
            let base = n.children[0];
            let exp = n.children[1];
            assert(base.0 < expr.0 && exp.0 < expr.0);
            if !symbol_is(store, base, var) {
                return None;
            }
            let e = store.get(exp);
            match (&e.op, &e.payload) {
                (Op::Integer, Payload::Int(p)) => Some(*p),
                _ => None,
            }
        },
        Op::Mul => {
            let len = n.children.len();
            let mut k: usize = 0;
            while k < len
                invariant
                    store.wf(),
                    nodes == store.nodes(),
                    *n == nodes[i],
                    0 <= i < nodes.len(),
                    i == expr.0,
                    len == n.children@.len(),
                    k <= len,
                    power_of(nodes, i, var@) == power_of_from(nodes, i, var@, 0),
                    power_of_from(nodes, i, var@, 0) == power_of_from(nodes, i, var@, k as int),
                decreases len - k,
            {
                let c = n.children[k];
                assert(n.children@[k as int].0 < i);
                assert(power_of_from(nodes, i, var@, k as int) == (if power_of(nodes, c.0 as int, var@) is Some {
                    power_of(nodes, c.0 as int, var@)
                } else {
                    power_of_from(nodes, i, var@, k as int + 1)
                }));
                match is_power_of_var(store, c, var) {
                    Some(p) => {
                        return Some(p);
                    },
                    None => {},
                }
                k = k + 1;
            }
            None
        },
        _ => None,
    }
}

/// The first `k` factors of `cs` with the first factor that is `var` left out, and
/// whether one was.
pub open spec fn drop_var(nodes: Seq<Node>, cs: Seq<ExprId>, var: Seq<char>, k: int) -> (bool, Seq<ExprId>)
    decreases k,
{
    if k <= 0 {
        (false, Seq::empty())
    } else {
        let (found, parts) = drop_var(nodes, cs, var, k - 1);
        if !found && sym_is(nodes, cs[k - 1], var) {
            (true, parts)
        } else {
            (found, parts.push(cs[k - 1]))
        }
    }
}

/// The coefficient of `var` in `expr` (store `old` becoming `new`): 1 for `var` itself;
/// for a product with a factor `var`, the product of the other factors (1 when none is
/// left; `None` when that product would overflow); `None` for anything else.
pub open spec fn coeff_of_var(old: Seq<Node>, new: Seq<Node>, expr: ExprId, var: Seq<char>, r: Option<ExprId>) -> bool {
    let n = old[expr.0 as int];
    let (found, parts) = drop_var(old, n.children@, var, n.children@.len() as int);
    if n.op == Op::Symbol && sym_is(old, expr, var) {
        r matches Some(o) && expr_core::interned(old, new, o, Op::Integer, expr_core::int_key(1), Seq::empty())
    } else if n.op == Op::Mul && found {
        if parts.len() == 0 {
            r matches Some(o) && expr_core::interned(old, new, o, Op::Integer, expr_core::int_key(1), Seq::empty())
        } else if expr_core::mul_flatten(old, parts).1 is Some {
            r matches Some(o) && expr_core::product_result(old, new, parts, o)
        } else {
            r is None && new == old
        }
    } else {
        r is None && new == old
    }
}

/// The coefficient of `var` in `expr`, e.g. `3·x` for `3·x·y` and `y` (`coeff_of_var`).
pub fn extract_coefficient_of_var(store: &mut Store, expr: ExprId, var: &str) -> (r: Option<ExprId>)
    requires
        old(store).wf(),
        expr.0 < old(store).nodes().len(),
    ensures
        final(store).wf(),
        expr_core::extends(old(store).nodes(), final(store).nodes()),
        r matches Some(o) ==> o.0 < final(store).nodes().len(),
        coeff_of_var(old(store).nodes(), final(store).nodes(), expr, var@, r),
{
    let ghost nodes = store.nodes();
    let op = store.get(expr).op;
    if op == Op::Symbol {
        if symbol_is(store, expr, var) {
            return Some(store.integer(1));
        }
        return None;
    }
    if op != Op::Mul {
        return None;
    }
    let children = children_of(store, expr);
    let mut parts: Vec<ExprId> = Vec::new();
    let mut found = false;
    let mut k: usize = 0;
    while k < children.len()
        invariant
            store.wf(),
            nodes == store.nodes(),
            expr.0 < nodes.len(),
            children@ == nodes[expr.0 as int].children@,
            k <= children@.len(),
            (found, parts@) == drop_var(nodes, children@, var@, k as int),
            expr_core::valid_ids(nodes, parts@),
        decreases children@.len() - k,
    {
        let c = children[k];
        assert(c.0 < expr.0);
        if !found && symbol_is(store, c, var) {
            found = true;
        } else {
            parts.push(c);
        }
        k = k + 1;
    }
    if !found {
        return None;
    }
    if parts.len() == 0 {
        return Some(store.integer(1));
    }
    if !store.product_fits(&parts) {
        return None;
    }
    Some(store.mul(parts))
}

/// Splitting the first `k` factors of `cs` by the variables they mention: `None` when
/// one mentions both `x` and `y`; else the factors without `y` (constants among them)
/// and those with `y` only.
pub open spec fn split_xy(nodes: Seq<Node>, cs: Seq<ExprId>, x: Seq<char>, y: Seq<char>, k: int) -> Option<
    (Seq<ExprId>, Seq<ExprId>),
>
    decreases k,
{
    if k <= 0 {
        Some((Seq::empty(), Seq::empty()))
    } else {
        match split_xy(nodes, cs, x, y, k - 1) {
            None => None,
            Some((xs, ys)) => {
                let c = cs[k - 1].0 as int;
                let hx = depends(nodes, c, x);
                let hy = depends(nodes, c, y);
                if hx && hy {
                    None
                } else if hx || !hy {
                    Some((xs.push(cs[k - 1]), ys))
                } else {
                    Some((xs, ys.push(cs[k - 1])))
                }
            },
        }
    }
}

/// The product of `fs` in store `m` becoming `new` (1 when `fs` is empty), or `None`
/// when it would overflow.
pub open spec fn product_or_one(m: Seq<Node>, new: Seq<Node>, fs: Seq<ExprId>, r: Option<ExprId>) -> bool {
    if fs.len() == 0 {
        r matches Some(o) && expr_core::interned(m, new, o, Op::Integer, expr_core::int_key(1), Seq::empty())
    } else if expr_core::mul_flatten(m, fs).1 is Some {
        r matches Some(o) && expr_core::product_result(m, new, fs, o)
    } else {
        r is None && new == m
    }
}

/// `expr` as `f(x)·g(y)` (store `old` becoming `new`): an expression that is not a
/// product is `(expr, 1)` when it does not mention `y`, `(1, expr)` when it does not
/// mention `x`, and `None` otherwise; a product is split by `split_xy` and each part
/// multiplied out (`None` when a factor mentions both, or a product would overflow).
pub open spec fn separable_result(
    old: Seq<Node>,
    new: Seq<Node>,
    expr: ExprId,
    y: Seq<char>,
    x: Seq<char>,
    r: Option<(ExprId, ExprId)>,
) -> bool {
    let n = old[expr.0 as int];
    if n.op != Op::Mul {
        if !depends(old, expr.0 as int, y) {
            r matches Some((f, g)) && f == expr && expr_core::interned(old, new, g, Op::Integer, expr_core::int_key(1), Seq::empty())
        } else if !depends(old, expr.0 as int, x) {
            r matches Some((f, g)) && g == expr && expr_core::interned(old, new, f, Op::Integer, expr_core::int_key(1), Seq::empty())
        } else {
            r is None && new == old
        }
    } else {
        match split_xy(old, n.children@, x, y, n.children@.len() as int) {
            None => r is None && new == old,
            Some((xs, ys)) => separable_head(old, new, xs, ys, r),
        }
    }
}

/// A split product multiplied out: `f(x)` from store `old` to `m1`, then
/// `separable_tail`; `None` when the first product would overflow.
pub open spec fn separable_head(old: Seq<Node>, new: Seq<Node>, xs: Seq<ExprId>, ys: Seq<ExprId>, r: Option<(ExprId, ExprId)>) -> bool {
    exists|m1: Seq<Node>, f: Option<ExprId>|
        #[trigger] product_or_one(old, m1, xs, f) && expr_core::extends(old, m1) && match f {
            None => r is None && new == m1,
            Some(fo) => separable_tail(m1, new, ys, fo, r),
        }
}

/// The second part of a split product: `g(y)` multiplied out from store `m1` to `new`,
/// and the pair `(f, g)`, or `None` when that product would overflow.
pub open spec fn separable_tail(m1: Seq<Node>, new: Seq<Node>, ys: Seq<ExprId>, f: ExprId, r: Option<(ExprId, ExprId)>) -> bool {
    exists|g: Option<ExprId>|
        #[trigger] product_or_one(m1, new, ys, g) && match g {
            None => r is None,
            Some(go) => r == Some((f, go)),
        }
}

/// The product of `fs` (1 when empty), or `None` when it would overflow
/// (`product_or_one`).
fn multiply_out(store: &mut Store, fs: Vec<ExprId>) -> (r: Option<ExprId>)
    requires
        old(store).wf(),
        expr_core::valid_ids(old(store).nodes(), fs@),
    ensures
        final(store).wf(),
        expr_core::extends(old(store).nodes(), final(store).nodes()),
        r matches Some(o) ==> o.0 < final(store).nodes().len(),
        product_or_one(old(store).nodes(), final(store).nodes(), fs@, r),
{
    if fs.len() == 0 {
        return Some(store.integer(1));
    }
    if !store.product_fits(&fs) {
        return None;
    }
    Some(store.mul(fs))
}

/// Splits `expr` into `f(x)·g(y)` (`separable_result`).
#[verifier::spinoff_prover]
pub fn extract_separable_factors(store: &mut Store, expr: ExprId, y_var: &str, x_var: &str) -> (r: Option<(ExprId, ExprId)>)
    requires
        old(store).wf(),
        expr.0 < old(store).nodes().len(),
    ensures
        final(store).wf(),
        expr_core::extends(old(store).nodes(), final(store).nodes()),
        separable_result(old(store).nodes(), final(store).nodes(), expr, y_var@, x_var@, r),
{
    let ghost nodes = store.nodes();
    if store.get(expr).op != Op::Mul {
        if !depends_on_var(store, expr, y_var) {
            let one = store.integer(1);
            return Some((expr, one));
        }
        if !depends_on_var(store, expr, x_var) {
            let one = store.integer(1);
            return Some((one, expr));
        }
        return None;
    }
    let children = children_of(store, expr);
    let mut xs: Vec<ExprId> = Vec::new();
    let mut ys: Vec<ExprId> = Vec::new();
    let mut k: usize = 0;
    while k < children.len()
        invariant
            store.wf(),
            nodes == store.nodes(),
            nodes == old(store).nodes(),
            expr.0 < nodes.len(),
            nodes[expr.0 as int].op == Op::Mul,
            children@ == nodes[expr.0 as int].children@,
            k <= children@.len(),
            split_xy(nodes, children@, x_var@, y_var@, k as int) == Some((xs@, ys@)),
            expr_core::valid_ids(nodes, xs@),
            expr_core::valid_ids(nodes, ys@),
        decreases children@.len() - k,
    {
        let c = children[k];
        assert(c.0 < expr.0);
        let hx = depends_on_var(store, c, x_var);
        let hy = depends_on_var(store, c, y_var);
        if hx && hy {
            proof {
                assert(split_xy(nodes, children@, x_var@, y_var@, k as int + 1) is None);
                lemma_split_none(nodes, children@, x_var@, y_var@, k as int + 1, children@.len() as int);
                assert(nodes[expr.0 as int].op == Op::Mul);
                assert(split_xy(nodes, nodes[expr.0 as int].children@, x_var@, y_var@, nodes[expr.0 as int].children@.len() as int) is None);
            }
            return None;
        } else if hx || !hy {
            xs.push(c);
        } else {
            ys.push(c);
        }
        k = k + 1;
    }
    let f = multiply_out(store, xs);
    let ghost m1 = store.nodes();
    proof {
        assert(product_or_one(nodes, m1, xs@, f));
        assert(split_xy(nodes, nodes[expr.0 as int].children@, x_var@, y_var@, nodes[expr.0 as int].children@.len() as int)
            == Some((xs@, ys@)));
    }
    match f {
        None => {
            proof {
                let n = nodes[expr.0 as int];
                assert(n.op == Op::Mul);
                assert(split_xy(nodes, n.children@, x_var@, y_var@, n.children@.len() as int) == Some((xs@, ys@)));
                assert(product_or_one(nodes, m1, xs@, None::<ExprId>));
                assert(expr_core::extends(nodes, m1));
                assert(store.nodes() == m1);
                assert(separable_head(nodes, m1, xs@, ys@, None));
            }
            None
        },
        Some(fo) => {
            proof {
                assert forall|t: int| 0 <= t < ys@.len() implies (#[trigger] ys@[t]).0 < m1.len() by {
                    assert(ys@[t].0 < nodes.len());
                }
            }
            let g = multiply_out(store, ys);
            proof {
                expr_core::lemma_extends_trans(nodes, m1, store.nodes());
                assert(product_or_one(m1, store.nodes(), ys@, g));
            }
            let res = match g {
                None => None,
                Some(go) => Some((fo, go)),
            };
            proof {
                assert(separable_tail(m1, store.nodes(), ys@, fo, res));
                assert(product_or_one(nodes, m1, xs@, Some(fo)));
                assert(separable_head(nodes, store.nodes(), xs@, ys@, res));
            }
            res
        },
    }
}

/// Once a split fails it stays failed.
proof fn lemma_split_none(nodes: Seq<Node>, cs: Seq<ExprId>, x: Seq<char>, y: Seq<char>, k: int, m: int)
    requires
        0 < k <= m,
        split_xy(nodes, cs, x, y, k) is None,
    ensures
        split_xy(nodes, cs, x, y, m) is None,
    decreases m - k,
{
    if m > k {
        lemma_split_none(nodes, cs, x, y, k, m - 1);
    }
}

/// The first `k` factors of `cs` that are not a power of `var` (`power_of` is `None`).
pub open spec fn non_power_factors(nodes: Seq<Node>, cs: Seq<ExprId>, var: Seq<char>, k: int) -> Seq<ExprId>
    decreases k,
{
    if k <= 0 {
        Seq::empty()
    } else if power_of(nodes, cs[k - 1].0 as int, var) is None {
        non_power_factors(nodes, cs, var, k - 1).push(cs[k - 1])
    } else {
        non_power_factors(nodes, cs, var, k - 1)
    }
}

/// The coefficient of `var^n` in `expr` (store `old` becoming `new`): for `var` itself, 1
/// when `n` is 1 and `expr` otherwise; for a product, the product of its factors that
/// are not powers of `var` (1 when there are none; `expr` when that product would
/// overflow); for anything else, 1.
pub open spec fn coeff_of_power(old: Seq<Node>, new: Seq<Node>, expr: ExprId, var: Seq<char>, n: int, r: ExprId) -> bool {
    let nd = old[expr.0 as int];
    let one = expr_core::interned(old, new, r, Op::Integer, expr_core::int_key(1), Seq::empty());
    if nd.op == Op::Symbol {
        if sym_is(old, expr, var) && n == 1 {
            one
        } else {
            r == expr && new == old
        }
    } else if nd.op == Op::Mul {
        let parts = non_power_factors(old, nd.children@, var, nd.children@.len() as int);
        if parts.len() == 0 {
            one
        } else if expr_core::mul_flatten(old, parts).1 is Some {
            expr_core::product_result(old, new, parts, r)
        } else {
            r == expr && new == old
        }
    } else {
        one
    }
}

/// The coefficient of `var^n` in `expr` (`coeff_of_power`).
pub fn extract_coeff_of_power(store: &mut Store, expr: ExprId, var: &str, n: i64) -> (r: ExprId)
    requires
        old(store).wf(),
        expr.0 < old(store).nodes().len(),
    ensures
        final(store).wf(),
        expr_core::extends(old(store).nodes(), final(store).nodes()),
        r.0 < final(store).nodes().len(),
        coeff_of_power(old(store).nodes(), final(store).nodes(), expr, var@, n as int, r),
{
    let ghost nodes = store.nodes();
    let op = store.get(expr).op;
    if op == Op::Symbol {
        if symbol_is(store, expr, var) && n == 1 {
            return store.integer(1);
        }
        return expr;
    }
    if op != Op::Mul {
        return store.integer(1);
    }
    let children = children_of(store, expr);
    let mut parts: Vec<ExprId> = Vec::new();
    let mut k: usize = 0;
    while k < children.len()
        invariant
            store.wf(),
            nodes == store.nodes(),
            expr.0 < nodes.len(),
            children@ == nodes[expr.0 as int].children@,
            k <= children@.len(),
            parts@ == non_power_factors(nodes, children@, var@, k as int),
            expr_core::valid_ids(nodes, parts@),
        decreases children@.len() - k,
    {
        let c = children[k];
        assert(c.0 < expr.0);
        if is_power_of_var(store, c, var).is_none() {
            parts.push(c);
        }
        k = k + 1;
    }
    if parts.len() == 0 {
        return store.integer(1);
    }
    if !store.product_fits(&parts) {
        return expr;
    }
    store.mul(parts)
}

} // verus!
