//! Groundwork for Risch integration: recognising exponential and logarithmic
//! extensions of the base field.
use vstd::prelude::*;
use crate::expr_core::{self, ExprId, Node, Op, Payload, Store};
use crate::text;

verus! {

/// The kind of extension an expression is.
#[derive(Debug, Clone, PartialEq, Eq)]
pub enum ExtensionType {
    /// `t = exp(u)`, holding `u`.
    Exponential(ExprId),
    /// `t = ln(u)`, holding `u`.
    Logarithmic(ExprId),
    /// No extension: an element of the base field.
    Base,
}

/// An element of a differential field tower.
#[derive(Debug, Clone)]
pub struct TowerElement {
    /// The expression itself.
    pub expr: ExprId,
    /// The extension it represents.
    pub extension: ExtensionType,
    /// Its derivative with respect to the variable, when known.
    pub derivative: Option<ExprId>,
}

/// Node `id` mentions the symbol `var`.
pub open spec fn depends(nodes: Seq<Node>, id: int, var: Seq<char>) -> bool
    decreases id, 1int, 0int,
{
    if !(0 <= id < nodes.len()) {
        false
    } else {
        match (nodes[id].op, nodes[id].payload) {
            (Op::Symbol, Payload::Sym(s)) => s@ == var,
            (Op::Integer, _) => false,
            (Op::Rational, _) => false,
            _ => depends_any(nodes, id, var, nodes[id].children@.len() as int),
        }
    }
}

/// One of the first `k` children of `id` mentions `var`.
pub open spec fn depends_any(nodes: Seq<Node>, id: int, var: Seq<char>, k: int) -> bool
    decreases id, 0int, k,
{
    if k <= 0 || !(0 <= id < nodes.len()) || k > nodes[id].children@.len() {
        false
    } else {
        let c = nodes[id].children@[k - 1].0 as int;
        depends_any(nodes, id, var, k - 1) || (0 <= c < id && depends(nodes, c, var))
    }
}

/// Whether `expr` mentions `var` (`depends`).
pub fn depends_on_var(store: &Store, expr: ExprId, var: &str) -> (b: bool)
    requires
        store.wf(),
        expr.0 < store.nodes().len(),
    ensures
        b == depends(store.nodes(), expr.0 as int, var@),
    decreases expr.0,
{
    let ghost nodes = store.nodes();
    let ghost i = expr.0 as int;
    let nd = store.get(expr);
    match (&nd.op, &nd.payload) {
        (Op::Symbol, Payload::Sym(s)) => text::string_is(s, var),
        (Op::Integer, _) | (Op::Rational, _) => false,
        _ => {
            let len = nd.children.len();
            let mut k: usize = 0;
            while k < len
                invariant
                    store.wf(),
                    nodes == store.nodes(),
                    *nd == nodes[i],
                    0 <= i < nodes.len(),
                    i == expr.0,
                    len == nd.children@.len(),
                    k <= len,
                    !depends_any(nodes, i, var@, k as int),
                    depends(nodes, i, var@) == depends_any(nodes, i, var@, len as int),
                decreases len - k,
            {
                let c = nd.children[k];
                assert(nd.children@[k as int].0 < i);
                if depends_on_var(store, c, var) {
                    proof {
                        lemma_any_stays(nodes, i, var@, k as int + 1, len as int);
                    }
                    return true;
                }
                k = k + 1;
            }
            false
        },
    }
}

/// Once a child mentions the variable, longer prefixes do too.
proof fn lemma_any_stays(nodes: Seq<Node>, id: int, var: Seq<char>, k: int, m: int)
    requires
        0 <= k <= m,
        0 <= id < nodes.len(),
        m <= nodes[id].children@.len(),
        depends_any(nodes, id, var, k),
    ensures
        depends_any(nodes, id, var, m),
    decreases m - k,
{
    if m > k {
        lemma_any_stays(nodes, id, var, k, m - 1);
    }
}

/// The argument of `id` when it is a one-argument application of `exp` (`which` 0) or of
/// `ln`/`log` (`which` 1).
pub open spec fn unary_arg(nodes: Seq<Node>, id: int, which: int) -> Option<ExprId> {
    if !(0 <= id < nodes.len()) {
        None
    } else {
        match (nodes[id].op, nodes[id].payload) {
            (Op::Function, Payload::Func(f)) => if nodes[id].children@.len() == 1 && ((which == 0 && f@ == "exp"@) || (
            which == 1 && (f@ == "ln"@ || f@ == "log"@))) {
                Some(nodes[id].children@[0])
            } else {
                None
            },
            _ => None,
        }
    }
}

/// The argument of `expr` when it is `exp(u)` (`unary_arg` for `exp`).
pub fn is_exponential(store: &Store, expr: ExprId) -> (r: Option<ExprId>)
    requires
        expr.0 < store.nodes().len(),
    ensures
        r == unary_arg(store.nodes(), expr.0 as int, 0),
{
    let nd = store.get(expr);
    match (&nd.op, &nd.payload) {
        (Op::Function, Payload::Func(f)) => {
            if text::string_is(f, "exp") && nd.children.len() == 1 {
                Some(nd.children[0])
            } else {
                None
            }
        },
        _ => None,
    }
}

/// The argument of `expr` when it is `ln(u)` or `log(u)` (`unary_arg` for the logarithm).
pub fn is_logarithm(store: &Store, expr: ExprId) -> (r: Option<ExprId>)
    requires
        expr.0 < store.nodes().len(),
    ensures
        r == unary_arg(store.nodes(), expr.0 as int, 1),
{
    let nd = store.get(expr);
    match (&nd.op, &nd.payload) {
        (Op::Function, Payload::Func(f)) => {
            if (text::string_is(f, "ln") || text::string_is(f, "log")) && nd.children.len() == 1 {
                Some(nd.children[0])
            } else {
                None
            }
        },
        _ => None,
    }
}

/// The extension `expr` is over the base field in `var`: `exp(u)` or `ln(u)`/`log(u)` of
/// an argument that mentions `var`; the base field otherwise.
pub open spec fn extension_of(nodes: Seq<Node>, id: int, var: Seq<char>) -> ExtensionType {
    match unary_arg(nodes, id, 0) {
        Some(u) => if depends(nodes, u.0 as int, var) { ExtensionType::Exponential(u) } else { ExtensionType::Base },
        None => match unary_arg(nodes, id, 1) {
            Some(u) => if depends(nodes, u.0 as int, var) { ExtensionType::Logarithmic(u) } else { ExtensionType::Base },
            None => ExtensionType::Base,
        },
    }
}

/// The extension `expr` is over the base field in `var` (`extension_of`).
pub fn detect_extension(store: &Store, expr: ExprId, var: &str) -> (r: ExtensionType)
    requires
        store.wf(),
        expr.0 < store.nodes().len(),
    ensures
        r == extension_of(store.nodes(), expr.0 as int, var@),
{
    proof {
        reveal_strlit("exp");
        reveal_strlit("ln");
        reveal_strlit("log");
    }
    if let Some(u) = is_exponential(store, expr) {
        assert(u.0 < expr.0);
        return if depends_on_var(store, u, var) { ExtensionType::Exponential(u) } else { ExtensionType::Base };
    }
    if let Some(u) = is_logarithm(store, expr) {
        assert(u.0 < expr.0);
        return if depends_on_var(store, u, var) { ExtensionType::Logarithmic(u) } else { ExtensionType::Base };
    }
    ExtensionType::Base
}

/// Integration of logarithmic patterns: not attempted here; always `None`, the store
/// untouched.
pub fn try_integrate_logarithmic(_store: &mut Store, _expr: ExprId, _var: &str) -> (r: Option<ExprId>)
    ensures
        r is None,
        *final(_store) == *old(_store),
{
    None
}

} // verus!
