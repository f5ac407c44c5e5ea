//! Bounds of definite integrals, and substitution of a value for a variable.
use vstd::prelude::*;
use crate::expr_core::{self, ExprId, Node, Op, Payload, Store};
use crate::text;

verus! {

/// A bound of a definite integral.
#[derive(Debug, Clone, PartialEq)]
pub enum Bound {
    /// A finite symbolic bound.
    Finite(ExprId),
    /// `+inf`.
    PosInfinity,
    /// `-inf`.
    NegInfinity,
}

/// The outcome of a definite integral.
#[derive(Debug, Clone)]
pub enum DefiniteResult {
    /// A symbolic value.
    Symbolic(ExprId),
    /// The integral diverges.
    Divergent,
    /// Convergence is not known.
    Unknown,
}

/// Whether an integral over `[lower, upper]` is improper: a bound is infinite.
pub fn is_improper(lower: &Bound, upper: &Bound) -> (b: bool)
    ensures
        b == (!(*lower is Finite) || !(*upper is Finite)),
{
    match (lower, upper) {
        (Bound::Finite(_), Bound::Finite(_)) => false,
        _ => true,
    }
}

/// What substituting `value` for the symbol `var` in `expr` gives, in a store `old` that
/// becomes `new`: the symbol `var` becomes `value`, numbers and other symbols stay, and
/// any other node is rebuilt (`subst_rebuild`) from its children substituted one after
/// the other (`subst_into`).
pub open spec fn subst_result(old: Seq<Node>, new: Seq<Node>, expr: ExprId, var: Seq<char>, value: ExprId, r: ExprId) -> bool
    decreases expr.0, 1int, 0int,
{
    &&& r.0 < new.len()
    &&& if !(expr.0 < old.len()) {
        r == expr && new == old
    } else {
        let n = old[expr.0 as int];
        match (n.op, n.payload) {
            (Op::Symbol, Payload::Sym(s)) => r == (if s@ == var { value } else { expr }) && new == old,
            (Op::Integer, _) | (Op::Rational, _) | (Op::Symbol, _) => r == expr && new == old,
            _ => exists|ss: Seq<Seq<Node>>, fs: Seq<ExprId>|
                #[trigger] subst_stages(ss, fs) && subst_into(old, ss, n.children@, fs, expr.0 as int, var, value)
                    && subst_rebuild(ss.last(), new, n, fs, expr, r),
        }
    }
}

/// Rebuilding node `n` (id `expr`) from its substituted children `fs`, store `m` becoming
/// `new`: a sum or product by `add` or `mul` (left as it was when its numbers would
/// overflow), a power by `pow` of its two children, a function application applied again
/// by name; anything else is left as it was.
pub open spec fn subst_rebuild(m: Seq<Node>, new: Seq<Node>, n: Node, fs: Seq<ExprId>, expr: ExprId, r: ExprId) -> bool {
    match (n.op, n.payload) {
        (Op::Add, _) => if expr_core::add_flatten(m, fs).1 is Some {
            expr_core::sum_result(m, new, fs, r)
        } else {
            r == expr && new == m
        },
        (Op::Mul, _) => if expr_core::mul_flatten(m, fs).1 is Some {
            expr_core::product_result(m, new, fs, r)
        } else {
            r == expr && new == m
        },
        (Op::Pow, _) => if fs.len() != 2 {
            r == expr && new == m
        } else {
            expr_core::pow_result(m, new, fs[0], fs[1], r)
        },
        (Op::Function, Payload::Func(f)) => expr_core::interned(m, new, r, Op::Function, (4, f@, 0, 0), fs),
        _ => r == expr && new == m,
    }
}

/// Stores and substituted children of matching lengths: one store before each child and
/// one after the last.
pub open spec fn subst_stages(ss: Seq<Seq<Node>>, fs: Seq<ExprId>) -> bool {
    ss.len() == fs.len() + 1
}

/// Substituting in the children `cs` (each below node `bound`) one after the other, from
/// store `old`: the stores `ss[0] = old, …, ss[n]` and the results `fs`.
pub open spec fn subst_into(
    old: Seq<Node>,
    ss: Seq<Seq<Node>>,
    cs: Seq<ExprId>,
    fs: Seq<ExprId>,
    bound: int,
    var: Seq<char>,
    value: ExprId,
) -> bool
    decreases bound, 0int, cs.len() + 1,
{
    &&& ss.len() == cs.len() + 1
    &&& fs.len() == cs.len()
    &&& ss[0] == old
    &&& subst_steps(ss, cs, fs, bound, var, value, cs.len() as int)
}

/// The first `k` steps of `subst_into`.
pub open spec fn subst_steps(
    ss: Seq<Seq<Node>>,
    cs: Seq<ExprId>,
    fs: Seq<ExprId>,
    bound: int,
    var: Seq<char>,
    value: ExprId,
    k: int,
) -> bool
    decreases bound, 0int, k,
{
    if k <= 0 {
        true
    } else {
        subst_steps(ss, cs, fs, bound, var, value, k - 1) && if 0 <= cs[k - 1].0 < bound {
            subst_result(ss[k - 1], ss[k], cs[k - 1], var, value, fs[k - 1])
        } else {
            false
        }
    }
}

/// The stores `ss[0], …, ss[n]` of substituting in the children `cs` one after the
/// other into `fs`.
pub open spec fn subst_chain(ss: Seq<Seq<Node>>, cs: Seq<ExprId>, fs: Seq<ExprId>, var: Seq<char>, value: ExprId) -> bool {
    &&& ss.len() == cs.len() + 1
    &&& fs.len() == cs.len()
    &&& forall|k: int| 0 <= k < cs.len() ==> #[trigger] subst_result(ss[k], ss[k + 1], cs[k], var, value, fs[k])
}

proof fn lemma_subst_steps(
    ss: Seq<Seq<Node>>,
    cs: Seq<ExprId>,
    fs: Seq<ExprId>,
    bound: int,
    var: Seq<char>,
    value: ExprId,
    k: int,
)
    requires
        0 <= k <= cs.len(),
        subst_chain(ss, cs, fs, var, value),
        forall|j: int| 0 <= j < cs.len() ==> (#[trigger] cs[j]).0 < bound,
    ensures
        subst_steps(ss, cs, fs, bound, var, value, k),
    decreases k,
{
    if k > 0 {
        lemma_subst_steps(ss, cs, fs, bound, var, value, k - 1);
        assert(subst_result(ss[k - 1], ss[k - 1 + 1], cs[k - 1], var, value, fs[k - 1]));
    }
}

/// The children of `expr`, each with `value` substituted for `var`, in order.
fn substitute_children(store: &mut Store, expr: ExprId, var: &str, value: ExprId) -> (r: Vec<ExprId>)
    requires
        old(store).wf(),
        expr.0 < old(store).nodes().len(),
        value.0 < old(store).nodes().len(),
    ensures
        final(store).wf(),
        expr_core::extends(old(store).nodes(), final(store).nodes()),
        expr_core::valid_ids(final(store).nodes(), r@),
        r@.len() == old(store).nodes()[expr.0 as int].children@.len(),
        exists|ss: Seq<Seq<Node>>|
            #![trigger subst_chain(ss, old(store).nodes()[expr.0 as int].children@, r@, var@, value)]
            subst_chain(ss, old(store).nodes()[expr.0 as int].children@, r@, var@, value) && ss[0] == old(store).nodes()
                && ss.last() == final(store).nodes(),
    decreases expr.0, 0int,
{
    let ghost nodes0 = store.nodes();
    let children = crate::calculus::evaluate::children_of(store, expr);
    let mut out: Vec<ExprId> = Vec::new();
    let ghost mut ss: Seq<Seq<Node>> = seq![nodes0];
    proof {
        assert(children@.take(0) =~= Seq::<ExprId>::empty());
    }
    let mut i: usize = 0;
    while i < children.len()
        invariant
            store.wf(),
            nodes0 == old(store).nodes(),
            expr_core::nodes_wf(nodes0),
            expr.0 < nodes0.len(),
            value.0 < nodes0.len(),
            children@ == nodes0[expr.0 as int].children@,
            expr_core::extends(nodes0, store.nodes()),
            expr_core::valid_ids(store.nodes(), out@),
            i <= children@.len(),
            out@.len() == i,
            subst_chain(ss, children@.take(i as int), out@, var@, value),
            ss[0] == nodes0,
            ss.last() == store.nodes(),
        decreases children@.len() - i,
    {
        let c = children[i];
        assert(c.0 < expr.0);
        let ghost before = store.nodes();
        let s = substitute(store, c, var, value);
        proof {
            expr_core::lemma_extends_trans(nodes0, before, store.nodes());
            let ss2 = ss.push(store.nodes());
            let cs2 = children@.take(i as int + 1);
            let r2 = out@.push(s);
            assert forall|k: int| 0 <= k < cs2.len() implies #[trigger] subst_result(
                ss2[k],
                ss2[k + 1],
                cs2[k],
                var@,
                value,
                r2[k],
            ) by {
                if k < i {
                    assert(subst_result(ss[k], ss[k + 1], children@.take(i as int)[k], var@, value, out@[k]));
                }
            }
            assert forall|k: int| 0 <= k < r2.len() implies (#[trigger] r2[k]).0 < store.nodes().len() by {
                if k < i {
                    assert(out@[k].0 < before.len());
                }
            }
            ss = ss2;
        }
        out.push(s);
        i = i + 1;
    }
    proof {
        assert(children@.take(children@.len() as int) =~= children@);
    }
    out
}

/// `expr` with `value` in place of the symbol `var`: the symbol becomes `value`, numbers
/// stay, and sums, products, powers and function applications are rebuilt from their
/// substituted children (a sum or product whose numbers would overflow stays as it was).
pub fn substitute(store: &mut Store, expr: ExprId, var: &str, value: ExprId) -> (r: ExprId)
    requires
        old(store).wf(),
        expr.0 < old(store).nodes().len(),
        value.0 < old(store).nodes().len(),
    ensures
        final(store).wf(),
        expr_core::extends(old(store).nodes(), final(store).nodes()),
        r.0 < final(store).nodes().len(),
        subst_result(old(store).nodes(), final(store).nodes(), expr, var@, value, r),
    decreases expr.0, 1int,
{
    let ghost nodes0 = store.nodes();
    let op = store.get(expr).op;
    match &store.get(expr).payload {
        Payload::Sym(s) => {
            if op == Op::Symbol && text::string_is(s, var) {
                return value;
            }
        },
        _ => {},
    }
    if op == Op::Integer || op == Op::Rational || op == Op::Symbol {
        return expr;
    }
    let children = substitute_children(store, expr, var, value);
    let ghost mid = store.nodes();
    let ghost cs = nodes0[expr.0 as int].children@;
    let ghost ss = choose|ss: Seq<Seq<Node>>|
        subst_chain(ss, cs, children@, var@, value) && ss[0] == nodes0 && ss.last() == mid;
    proof {
        assert forall|j: int| 0 <= j < cs.len() implies (#[trigger] cs[j]).0 < expr.0 by {
            assert(nodes0[expr.0 as int].children@[j].0 < expr.0);
        }
        lemma_subst_steps(ss, cs, children@, expr.0 as int, var@, value, cs.len() as int);
        assert(subst_into(nodes0, ss, cs, children@, expr.0 as int, var@, value));
        assert(subst_stages(ss, children@));
    }
    let r = match op {
        Op::Add => {
            if !store.sum_fits(&children) {
                return expr;
            }
            store.add(children)
        },
        Op::Mul => {
            if !store.product_fits(&children) {
                return expr;
            }
            store.mul(children)
        },
        Op::Pow => {
            if children.len() != 2 {
                return expr;
            }
            store.pow(children[0], children[1])
        },
        Op::Function => {
            let fname = match &store.get(expr).payload {
                Payload::Func(f) => f.clone(),
                _ => {
                    return expr;
                },
            };
            store.func(fname.as_str(), children)
        },
        _ => {
            return expr;
        },
    };
    proof {
        expr_core::lemma_extends_trans(nodes0, mid, store.nodes());
    }
    r
}

/// `id` is a node of `m`.
pub open spec fn in_store(m: Seq<Node>, id: ExprId) -> bool {
    id.0 < m.len()
}

/// `fb - fa` built from store `m` into `new` as `fb + (-1)·fa`, or `None` when a sum or
/// product would overflow.
pub open spec fn difference_result(m: Seq<Node>, new: Seq<Node>, fb: ExprId, fa: ExprId, r: Option<ExprId>) -> bool {
    exists|m1: Seq<Node>, neg: ExprId|
        #[trigger] expr_core::interned(m, m1, neg, Op::Integer, expr_core::int_key(-1), Seq::empty()) && if expr_core::mul_flatten(
            m1,
            seq![neg, fa],
        ).1 is None {
            r is None && new == m1
        } else {
            exists|m2: Seq<Node>, nfa: ExprId|
                #[trigger] in_store(m2, nfa) && expr_core::product_result(m1, m2, seq![neg, fa], nfa) && expr_core::extends(m1, m2)
                    && if expr_core::add_flatten(m2, seq![fb, nfa]).1 is Some {
                    r matches Some(o) && expr_core::sum_result(m2, new, seq![fb, nfa], o)
                } else {
                    r is None && new == m2
                }
        }
}

/// What follows the antiderivative `f` of a definite integral over `[lower, upper]`
/// (store `old` becoming `new`): for finite bounds `a`, `b`, the value `f(b) − f(a)`
/// (`subst_result` at `b`, then at `a`, then `difference_result`); `Unknown` when a bound
/// is infinite and the other finite or both are infinite in order; `None` otherwise.
pub open spec fn bounds_result(old: Seq<Node>, new: Seq<Node>, f: ExprId, var: Seq<char>, lower: Bound, upper: Bound, r: Option<DefiniteResult>) -> bool {
    match (lower, upper) {
        (Bound::Finite(a), Bound::Finite(b)) => exists|m1: Seq<Node>, fb: ExprId, m2: Seq<Node>, fa: ExprId|
            #![trigger subst_result(old, m1, f, var, b, fb), subst_result(m1, m2, f, var, a, fa)]
            subst_result(old, m1, f, var, b, fb) && subst_result(m1, m2, f, var, a, fa) && exists|d: Option<ExprId>|
                #[trigger] difference_result(m2, new, fb, fa, d) && match d {
                    Some(o) => r == Some(DefiniteResult::Symbolic(o)),
                    None => r is None,
                },
        (Bound::Finite(_), Bound::PosInfinity) | (Bound::NegInfinity, Bound::Finite(_)) | (
            Bound::NegInfinity,
            Bound::PosInfinity,
        ) => r == Some(DefiniteResult::Unknown) && new == old,
        _ => r is None && new == old,
    }
}

/// `f(b) − f(a)` for the antiderivative `f` of a definite integral (`bounds_result`):
/// the fundamental-theorem step that follows integration, left unsimplified.
#[verifier::spinoff_prover]
pub fn definite_from_antiderivative(store: &mut Store, f: ExprId, var: &str, lower: &Bound, upper: &Bound) -> (r: Option<
    DefiniteResult,
>)
    requires
        old(store).wf(),
        f.0 < old(store).nodes().len(),
        lower matches Bound::Finite(a) ==> a.0 < old(store).nodes().len(),
        upper matches Bound::Finite(b) ==> b.0 < old(store).nodes().len(),
    ensures
        final(store).wf(),
        expr_core::extends(old(store).nodes(), final(store).nodes()),
        bounds_result(old(store).nodes(), final(store).nodes(), f, var@, *lower, *upper, r),
{
    let ghost nodes0 = store.nodes();
    match (lower, upper) {
        (Bound::Finite(a), Bound::Finite(b)) => {
            let a = *a;
            let b = *b;
            let fb = substitute(store, f, var, b);
            let ghost m1 = store.nodes();
            let fa = substitute(store, f, var, a);
            let ghost m2 = store.nodes();
            proof {
                expr_core::lemma_extends_trans(nodes0, m1, m2);
            }
            let neg = store.integer(-1);
            let ghost m3 = store.nodes();
            proof {
                expr_core::lemma_extends_trans(nodes0, m2, m3);
            }
            let mut pair: Vec<ExprId> = Vec::new();
            pair.push(neg);
            pair.push(fa);
            assert(pair@ =~= seq![neg, fa]);
            let d = if !store.product_fits(&pair) {
                None
            } else {
                let nfa = store.mul(pair);
                let ghost m4 = store.nodes();
                proof {
                    expr_core::lemma_extends_trans(nodes0, m3, m4);
                    expr_core::lemma_extends_trans(m2, m3, m4);
                    assert(in_store(m4, nfa));
                }
                let mut sum: Vec<ExprId> = Vec::new();
                sum.push(fb);
                sum.push(nfa);
                assert(sum@ =~= seq![fb, nfa]);
                if !store.sum_fits(&sum) {
                    None
                } else {
                    let o = store.add(sum);
                    proof {
                        expr_core::lemma_extends_trans(nodes0, m4, store.nodes());
                    }
                    Some(o)
                }
            };
            proof {
                assert(difference_result(m2, store.nodes(), fb, fa, d));
            }
            match d {
                Some(o) => Some(DefiniteResult::Symbolic(o)),
                None => None,
            }
        },
        (Bound::Finite(_), Bound::PosInfinity) | (Bound::NegInfinity, Bound::Finite(_)) | (
            Bound::NegInfinity,
            Bound::PosInfinity,
        ) => Some(DefiniteResult::Unknown),
        _ => None,
    }
}

} // verus!
