//! LaTeX printer for expressions: deterministic and precedence-aware.
use vstd::prelude::*;
use crate::expr_core::{self, ExprId, Node, Op, Payload, Store};
use crate::text;

verus! {

/// `s` with every underscore escaped as `\_`.
pub open spec fn escape_underscores(s: Seq<char>) -> Seq<char>
    decreases s.len(),
{
    if s.len() == 0 {
        Seq::empty()
    } else {
        escape_underscores(s.drop_last()) + (if s.last() == '_' { seq!['\\', '_'] } else { seq![s.last()] })
    }
}

/// The LaTeX head of a function: `\sin`, `\cos`, `\exp`, `\ln` for those names, else the
/// name itself.
pub open spec fn latex_head(name: Seq<char>) -> Seq<char> {
    if name == seq!['s', 'i', 'n'] {
        seq!['\\', 's', 'i', 'n']
    } else if name == seq!['c', 'o', 's'] {
        seq!['\\', 'c', 'o', 's']
    } else if name == seq!['e', 'x', 'p'] {
        seq!['\\', 'e', 'x', 'p']
    } else if name == seq!['l', 'n'] {
        seq!['\\', 'l', 'n']
    } else {
        name
    }
}

/// The LaTeX of node `id` under a parent of binding strength `pp`.
pub open spec fn latex(nodes: Seq<Node>, id: int, pp: int) -> Seq<char>
    decreases id, 2int, 0int,
{
    if !(0 <= id < nodes.len()) {
        Seq::empty()
    } else {
        let n = nodes[id];
        let body = match (n.op, n.payload) {
            (Op::Integer, Payload::Int(k)) => text::int_decimal(k as int),
            (Op::Rational, Payload::Rat(a, b)) => seq!['\\', 'f', 'r', 'a', 'c', '{'] + text::int_decimal(a as int)
                + seq!['}', '{'] + text::int_decimal(b as int) + seq!['}'],
            (Op::Symbol, Payload::Sym(name)) => escape_underscores(name@),
            (Op::Function, Payload::Func(name)) => latex_head(name@) + seq!['('] + latex_join(
                nodes,
                id,
                seq![',', ' '],
                n.children@.len() as int,
            ) + seq![')'],
            (Op::Add, _) => latex_sum(nodes, id, n.children@.len() as int),
            (Op::Mul, _) => latex_product(nodes, id, n.children@.len() as int),
            (Op::Pow, _) => latex_base(nodes, id) + seq!['^', '{'] + latex_child(nodes, id, 1, 0) + seq!['}'],
            _ => seq!['<', 'u', 'n', 'k', 'n', 'o', 'w', 'n', '>'],
        };
        if expr_core::prec_of(n.op) < pp { seq!['('] + body + seq![')'] } else { body }
    }
}

/// Child `k` of node `id` under binding strength `pp`.
pub open spec fn latex_child(nodes: Seq<Node>, id: int, k: int, pp: int) -> Seq<char>
    decreases id, 0int, 0int,
{
    if 0 <= id < nodes.len() && 0 <= k < nodes[id].children@.len() && nodes[id].children@[k].0 < id {
        latex(nodes, nodes[id].children@[k].0 as int, pp)
    } else {
        Seq::empty()
    }
}

/// The kind of child `k` of node `id`.
pub open spec fn child_op(nodes: Seq<Node>, id: int, k: int) -> Op {
    nodes[nodes[id].children@[k].0 as int].op
}

/// The base of a power, parenthesized when it binds weaker than a power.
pub open spec fn latex_base(nodes: Seq<Node>, id: int) -> Seq<char>
    decreases id, 1int, 0int,
{
    let b = latex_child(nodes, id, 0, 0);
    if 0 <= id < nodes.len() && nodes[id].children@.len() > 0 && expr_core::prec_of(child_op(nodes, id, 0)) < 3 {
        seq!['('] + b + seq![')']
    } else {
        b
    }
}

/// The first `k` children of `id` at neutral binding, separated by `sep`.
pub open spec fn latex_join(nodes: Seq<Node>, id: int, sep: Seq<char>, k: int) -> Seq<char>
    decreases id, 1int, k,
{
    if k <= 0 {
        Seq::empty()
    } else if k == 1 {
        latex_child(nodes, id, 0, 0)
    } else {
        latex_join(nodes, id, sep, k - 1) + sep + latex_child(nodes, id, k - 1, 0)
    }
}

/// The first `k` terms of a sum, separated by ` + `.
pub open spec fn latex_sum(nodes: Seq<Node>, id: int, k: int) -> Seq<char>
    decreases id, 1int, k,
{
    if k <= 0 {
        Seq::empty()
    } else if k == 1 {
        latex_child(nodes, id, 0, 1)
    } else {
        latex_sum(nodes, id, k - 1) + seq![' ', '+', ' '] + latex_child(nodes, id, k - 1, 1)
    }
}

/// A factor of a product: parenthesized when it is a sum.
pub open spec fn latex_factor(nodes: Seq<Node>, id: int, k: int) -> Seq<char>
    decreases id, 0int, 1int,
{
    let f = latex_child(nodes, id, k, 0);
    if 0 <= id < nodes.len() && 0 <= k < nodes[id].children@.len() && child_op(nodes, id, k) == Op::Add {
        seq!['('] + f + seq![')']
    } else {
        f
    }
}

/// The first `k` factors of a product, separated by ` \cdot `.
pub open spec fn latex_product(nodes: Seq<Node>, id: int, k: int) -> Seq<char>
    decreases id, 1int, k,
{
    if k <= 0 {
        Seq::empty()
    } else if k == 1 {
        latex_factor(nodes, id, 0)
    } else {
        latex_product(nodes, id, k - 1) + seq![' ', '\\', 'c', 'd', 'o', 't', ' '] + latex_factor(nodes, id, k - 1)
    }
}

/// Appends `s` with underscores escaped.
fn push_escaped(out: &mut String, s: &str)
    ensures
        final(out)@ == old(out)@ + escape_underscores(s@),
{
    let len = s.unicode_len();
    let ghost start = out@;
    let mut i: usize = 0;
    proof {
        reveal_strlit("\\_");
        assert("\\_"@ =~= seq!['\\', '_']);
        assert(s@.take(0) =~= Seq::<char>::empty());
    }
    while i < len
        invariant
            len == s@.len(),
            i <= len,
            out@ == start + escape_underscores(s@.take(i as int)),
        decreases len - i,
    {
        let c = s.get_char(i);
        proof {
            assert(s@.take(i as int + 1).drop_last() =~= s@.take(i as int));
        }
        proof {
            reveal_strlit("\\_");
            assert("\\_"@ =~= seq!['\\', '_']);
            assert(s@.take(i as int + 1).last() == c);
        }
        if c == '_' {
            out.append("\\_");
        } else {
            let piece = s.substring_char(i, i + 1);
            proof {
                assert(piece@ =~= seq![c]);
            }
            out.append(piece);
        }
        proof {
            assert(out@ =~= start + escape_underscores(s@.take(i as int + 1)));
        }
        i = i + 1;
    }
    proof {
        assert(s@.take(len as int) =~= s@);
    }
}

/// Appends the LaTeX head of the function `name`.
fn push_head(out: &mut String, name: &String)
    ensures
        final(out)@ == old(out)@ + latex_head(name@),
{
    proof {
        reveal_strlit("sin");
        reveal_strlit("cos");
        reveal_strlit("exp");
        reveal_strlit("ln");
        reveal_strlit("\\sin");
        reveal_strlit("\\cos");
        reveal_strlit("\\exp");
        reveal_strlit("\\ln");
        assert("sin"@ =~= seq!['s', 'i', 'n']);
        assert("cos"@ =~= seq!['c', 'o', 's']);
        assert("exp"@ =~= seq!['e', 'x', 'p']);
        assert("ln"@ =~= seq!['l', 'n']);
        assert("\\sin"@ =~= seq!['\\', 's', 'i', 'n']);
        assert("\\cos"@ =~= seq!['\\', 'c', 'o', 's']);
        assert("\\exp"@ =~= seq!['\\', 'e', 'x', 'p']);
        assert("\\ln"@ =~= seq!['\\', 'l', 'n']);
    }
    if text::string_is(name, "sin") {
        out.append("\\sin");
    } else if text::string_is(name, "cos") {
        out.append("\\cos");
    } else if text::string_is(name, "exp") {
        out.append("\\exp");
    } else if text::string_is(name, "ln") {
        out.append("\\ln");
    } else {
        out.append(name.as_str());
    }
}

/// Appends child `k` of `id` at binding strength `pp`.
fn push_child(st: &Store, out: &mut String, id: ExprId, k: usize, pp: u8)
    requires
        st.wf(),
        id.0 < st.nodes().len(),
        k < st.nodes()[id.0 as int].children@.len(),
    ensures
        final(out)@ == old(out)@ + latex_child(st.nodes(), id.0 as int, k as int, pp as int),
    decreases id.0, 0int,
{
    let c = st.get(id).children[k];
    proof {
        assert(st.nodes()[id.0 as int].children@[k as int].0 < id.0);
    }
    let s = go(st, c, pp);
    out.append(s.as_str());
}

/// Appends factor `k` of the product `id`, parenthesized when it is a sum.
fn push_factor(st: &Store, out: &mut String, id: ExprId, k: usize)
    requires
        st.wf(),
        id.0 < st.nodes().len(),
        k < st.nodes()[id.0 as int].children@.len(),
    ensures
        final(out)@ == old(out)@ + latex_factor(st.nodes(), id.0 as int, k as int),
    decreases id.0, 1int,
{
    let c = st.get(id).children[k];
    proof {
        assert(st.nodes()[id.0 as int].children@[k as int].0 < id.0);
        reveal_strlit("(");
        reveal_strlit(")");
    }
    let is_sum = match st.get(c).op {
        Op::Add => true,
        _ => false,
    };
    let mut inner = String::new();
    push_child(st, &mut inner, id, k, 0);
    if is_sum {
        out.append("(");
        out.append(inner.as_str());
        out.append(")");
    } else {
        out.append(inner.as_str());
    }
    proof {
        assert(out@ =~= old(out)@ + latex_factor(st.nodes(), id.0 as int, k as int));
    }
}

/// Appends the LaTeX of all children of `id`, joined in the way `kind` says:
/// 0 for function arguments, 1 for a sum, 2 for a product.
fn push_children(st: &Store, out: &mut String, id: ExprId, kind: u8)
    requires
        st.wf(),
        id.0 < st.nodes().len(),
        kind <= 2,
    ensures
        final(out)@ == old(out)@ + (if kind == 0 {
            latex_join(st.nodes(), id.0 as int, seq![',', ' '], st.nodes()[id.0 as int].children@.len() as int)
        } else if kind == 1 {
            latex_sum(st.nodes(), id.0 as int, st.nodes()[id.0 as int].children@.len() as int)
        } else {
            latex_product(st.nodes(), id.0 as int, st.nodes()[id.0 as int].children@.len() as int)
        }),
    decreases id.0, 2int,
{
    let len = st.get(id).children.len();
    let ghost start = out@;
    let ghost nodes = st.nodes();
    let ghost i0 = id.0 as int;
    proof {
        reveal_strlit(", ");
        reveal_strlit(" + ");
        reveal_strlit(" \\cdot ");
        assert(", "@ =~= seq![',', ' ']);
        assert(" + "@ =~= seq![' ', '+', ' ']);
        assert(" \\cdot "@ =~= seq![' ', '\\', 'c', 'd', 'o', 't', ' ']);
    }
    let mut k: usize = 0;
    while k < len
        invariant
            st.wf(),
            nodes == st.nodes(),
            i0 == id.0,
            id.0 < nodes.len(),
            len == nodes[i0].children@.len(),
            kind <= 2,
            k <= len,
            out@ == start + (if kind == 0 {
                latex_join(nodes, i0, seq![',', ' '], k as int)
            } else if kind == 1 {
                latex_sum(nodes, i0, k as int)
            } else {
                latex_product(nodes, i0, k as int)
            }),
        decreases len - k,
    {
        if kind == 0 {
            if k > 0 {
                out.append(", ");
            }
            push_child(st, out, id, k, 0);
        } else if kind == 1 {
            if k > 0 {
                out.append(" + ");
            }
            push_child(st, out, id, k, 1);
        } else {
            if k > 0 {
                out.append(" \\cdot ");
            }
            push_factor(st, out, id, k);
        }
        proof {
            reveal_strlit(", ");
            reveal_strlit(" + ");
            reveal_strlit(" \\cdot ");
            assert(", "@ =~= seq![',', ' ']);
            assert(" + "@ =~= seq![' ', '+', ' ']);
            assert(" \\cdot "@ =~= seq![' ', '\\', 'c', 'd', 'o', 't', ' ']);
            if kind == 0 {
                assert(out@ =~= start + latex_join(nodes, i0, seq![',', ' '], k as int + 1));
            } else if kind == 1 {
                assert(out@ =~= start + latex_sum(nodes, i0, k as int + 1));
            } else {
                assert(out@ =~= start + latex_product(nodes, i0, k as int + 1));
            }
        }
        k = k + 1;
    }
}

/// The LaTeX of `id` under a parent of binding strength `pp`.
fn go(st: &Store, id: ExprId, pp: u8) -> (s: String)
    requires
        st.wf(),
        id.0 < st.nodes().len(),
    ensures
        s@ == latex(st.nodes(), id.0 as int, pp as int),
    decreases id.0, 3int,
{
    let n = st.get(id);
    let ghost nodes = st.nodes();
    let ghost i0 = id.0 as int;
    let mut body = String::new();
    let prec: u8 = match n.op {
        Op::Add => 1,
        Op::Mul => 2,
        Op::Pow => 3,
        _ => 4,
    };
    proof {
        reveal_strlit("\\frac{");
        reveal_strlit("}{");
        reveal_strlit("}");
        reveal_strlit("(");
        reveal_strlit(")");
        reveal_strlit("^{");
        reveal_strlit("<unknown>");
        assert("\\frac{"@ =~= seq!['\\', 'f', 'r', 'a', 'c', '{']);
        assert("}{"@ =~= seq!['}', '{']);
        assert("^{"@ =~= seq!['^', '{']);
    }
    match (&n.op, &n.payload) {
        (Op::Integer, Payload::Int(k)) => {
            text::push_i64(&mut body, *k);
        },
        (Op::Rational, Payload::Rat(a, b)) => {
            body.append("\\frac{");
            text::push_i64(&mut body, *a);
            body.append("}{");
            text::push_i64(&mut body, *b);
            body.append("}");
            assert(body@ =~= seq!['\\', 'f', 'r', 'a', 'c', '{'] + text::int_decimal(*a as int) + seq!['}', '{']
                + text::int_decimal(*b as int) + seq!['}']);
        },
        (Op::Symbol, Payload::Sym(name)) => {
            push_escaped(&mut body, name.as_str());
        },
        (Op::Function, Payload::Func(name)) => {
            push_head(&mut body, name);
            body.append("(");
            push_children(st, &mut body, id, 0);
            body.append(")");
            assert(body@ =~= latex_head(name@) + seq!['('] + latex_join(nodes, i0, seq![',', ' '], n.children@.len() as int)
                + seq![')']);
        },
        (Op::Add, _) => {
            push_children(st, &mut body, id, 1);
        },
        (Op::Mul, _) => {
            push_children(st, &mut body, id, 2);
        },
        (Op::Pow, _) => {
            let b_id = n.children[0];
            proof {
                assert(nodes[i0].children@[0].0 < i0);
            }
            let is_weak = match st.get(b_id).op {
                Op::Add | Op::Mul => true,
                _ => false,
            };
            let mut base = String::new();
            push_child(st, &mut base, id, 0, 0);
            if is_weak {
                body.append("(");
                body.append(base.as_str());
                body.append(")");
            } else {
                body.append(base.as_str());
            }
            body.append("^{");
            push_child(st, &mut body, id, 1, 0);
            body.append("}");
            assert(body@ =~= latex_base(nodes, i0) + seq!['^', '{'] + latex_child(nodes, i0, 1, 0) + seq!['}']);
        },
        _ => {
            body.append("<unknown>");
        },
    }
    if prec < pp {
        let mut out = String::new();
        out.append("(");
        out.append(body.as_str());
        out.append(")");
        assert(out@ =~= seq!['('] + body@ + seq![')']);
        out
    } else {
        body
    }
}

/// The LaTeX text of an expression.
pub fn to_latex(st: &Store, id: ExprId) -> (s: String)
    requires
        st.wf(),
        id.0 < st.nodes().len(),
    ensures
        s@ == latex(st.nodes(), id.0 as int, 0),
{
    go(st, id, 0)
}

/// The texts `parts` separated by `sep`.
pub open spec fn join_texts(parts: Seq<Seq<char>>, sep: Seq<char>) -> Seq<char>
    decreases parts.len(),
{
    if parts.len() == 0 {
        Seq::empty()
    } else if parts.len() == 1 {
        parts[0]
    } else {
        join_texts(parts.drop_last(), sep) + sep + parts.last()
    }
}

/// The LaTeX of each child of node `id`, at neutral binding.
pub open spec fn child_texts(nodes: Seq<Node>, id: int) -> Seq<Seq<char>> {
    Seq::new(nodes[id].children@.len(), |k: int| latex(nodes, nodes[id].children@[k].0 as int, 0))
}

proof fn lemma_join_children(nodes: Seq<Node>, id: int, k: int)
    requires
        expr_core::nodes_wf(nodes),
        0 <= id < nodes.len(),
        0 <= k <= nodes[id].children@.len(),
    ensures
        latex_join(nodes, id, seq![',', ' '], k) == join_texts(child_texts(nodes, id).take(k), seq![',', ' ']),
    decreases k,
{
    let parts = child_texts(nodes, id);
    if k >= 1 {
        assert(nodes[id].children@[k - 1].0 < id);
        assert(latex_child(nodes, id, k - 1, 0) == parts[k - 1]);
    }
    if k == 1 {
        assert(parts.take(1).len() == 1);
        assert(parts.take(1)[0] == parts[0]);
    } else if k > 1 {
        lemma_join_children(nodes, id, k - 1);
        assert(parts.take(k).drop_last() =~= parts.take(k - 1));
        assert(parts.take(k).last() == parts[k - 1]);
    } else {
        assert(parts.take(0).len() == 0);
    }
}

/// The LaTeX of a function application is its name, then the LaTeX of its arguments in
/// order, separated by `, `, in parentheses: `f(x, y)`.
pub proof fn lemma_function_latex(nodes: Seq<Node>, id: int, name: String)
    requires
        expr_core::nodes_wf(nodes),
        0 <= id < nodes.len(),
        nodes[id].op == Op::Function,
        nodes[id].payload == Payload::Func(name),
    ensures
        latex(nodes, id, 0) == latex_head(name@) + seq!['('] + join_texts(child_texts(nodes, id), seq![',', ' '])
            + seq![')'],
{
    lemma_join_children(nodes, id, nodes[id].children@.len() as int);
    assert(child_texts(nodes, id).take(nodes[id].children@.len() as int) =~= child_texts(nodes, id));
}

} // verus!
