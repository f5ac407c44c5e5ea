//! Solving a polynomial system one variable at a time: each variable takes the first
//! small integer at which an equation that involves it vanishes, given the values found
//! before it.
use vstd::prelude::*;
use crate::arith;
use crate::arith::{tv, add_ok, mul_ok};
use crate::calculus::evaluate::{eval_pow, pow_value};
use crate::expr_core::{self, ExprId, Node, Op, Payload, Store, opt_tv};
use crate::text;

verus! {

/// The value bound to `name` by the first binding of it in `env`.
pub open spec fn env_lookup(env: Seq<(Seq<char>, int)>, name: Seq<char>) -> Option<int>
    decreases env.len(),
{
    if env.len() == 0 {
        None
    } else if env[0].0 == name {
        Some(env[0].1)
    } else {
        env_lookup(env.drop_first(), name)
    }
}

/// The rational value of node `id` with the symbols bound in `env` replaced by their
/// values: numbers, bound symbols, sums, products and integer powers; `None` for
/// anything else, or when a step overflows `i64`.
pub open spec fn eval_env(nodes: Seq<Node>, id: int, env: Seq<(Seq<char>, int)>) -> Option<(int, int)>
    decreases id, 1int, 0int,
{
    if !(0 <= id < nodes.len()) {
        None
    } else {
        let n = nodes[id];
        let len = n.children@.len() as int;
        match (n.op, n.payload) {
            (Op::Integer, Payload::Int(k)) => Some((k as int, 1)),
            (Op::Rational, Payload::Rat(p, q)) => Some((p as int, q as int)),
            (Op::Symbol, Payload::Sym(s)) => match env_lookup(env, s@) {
                Some(v) => Some((v, 1)),
                None => None,
            },
            (Op::Add, _) => env_sum(nodes, id, len, env),
            (Op::Mul, _) => env_product(nodes, id, len, env),
            (Op::Pow, _) => if len != 2 {
                None
            } else {
                match (env_child(nodes, id, 0, env), env_child(nodes, id, 1, env)) {
                    (Some(b), Some(e)) => if e.1 != 1 { None } else { pow_value(b, e.0) },
                    _ => None,
                }
            },
            _ => None,
        }
    }
}

/// The value of child `k` of node `id`.
pub open spec fn env_child(nodes: Seq<Node>, id: int, k: int, env: Seq<(Seq<char>, int)>) -> Option<(int, int)>
    decreases id, 0int, 0int,
{
    if 0 <= id < nodes.len() && 0 <= k < nodes[id].children@.len() && 0 <= nodes[id].children@[k].0 < id {
        eval_env(nodes, nodes[id].children@[k].0 as int, env)
    } else {
        None
    }
}

/// The checked sum of the values of the first `k` children of node `id`.
pub open spec fn env_sum(nodes: Seq<Node>, id: int, k: int, env: Seq<(Seq<char>, int)>) -> Option<(int, int)>
    decreases id, 0int, k,
{
    if k <= 0 {
        Some((0, 1))
    } else {
        match (env_sum(nodes, id, k - 1, env), env_child(nodes, id, k - 1, env)) {
            (Some(s), Some(v)) => if add_ok(s, v) { Some(arith::add_spec(s, v)) } else { None },
            _ => None,
        }
    }
}

/// The checked product of the values of the first `k` children of node `id`.
pub open spec fn env_product(nodes: Seq<Node>, id: int, k: int, env: Seq<(Seq<char>, int)>) -> Option<(int, int)>
    decreases id, 0int, k,
{
    if k <= 0 {
        Some((1, 1))
    } else {
        match (env_product(nodes, id, k - 1, env), env_child(nodes, id, k - 1, env)) {
            (Some(s), Some(v)) => if mul_ok(s, v) { Some(arith::mul_spec(s, v)) } else { None },
            _ => None,
        }
    }
}

proof fn lemma_env_sum_none(nodes: Seq<Node>, id: int, k: int, m: int, env: Seq<(Seq<char>, int)>)
    requires
        0 <= k <= m,
        env_sum(nodes, id, k, env) is None,
    ensures
        env_sum(nodes, id, m, env) is None,
    decreases m - k,
{
    if m > k {
        lemma_env_sum_none(nodes, id, k, m - 1, env);
    }
}

proof fn lemma_env_product_none(nodes: Seq<Node>, id: int, k: int, m: int, env: Seq<(Seq<char>, int)>)
    requires
        0 <= k <= m,
        env_product(nodes, id, k, env) is None,
    ensures
        env_product(nodes, id, m, env) is None,
    decreases m - k,
{
    if m > k {
        lemma_env_product_none(nodes, id, k, m - 1, env);
    }
}

/// The bindings of `env` as names and integers.
pub open spec fn env_view(env: Seq<(String, i64)>) -> Seq<(Seq<char>, int)> {
    Seq::new(env.len(), |i: int| (env[i].0@, env[i].1 as int))
}

/// The value bound to `name` in `env` (`env_lookup`).
fn lookup(env: &Vec<(String, i64)>, name: &String) -> (r: Option<i64>)
    ensures
        match (r, env_lookup(env_view(env@), name@)) {
            (Some(x), Some(v)) => x as int == v,
            (None, None) => true,
            _ => false,
        },
{
    let mut i: usize = 0;
    proof {
        assert(env_view(env@).skip(0) =~= env_view(env@));
    }
    while i < env.len()
        invariant
            i <= env@.len(),
            env_lookup(env_view(env@), name@) == env_lookup(env_view(env@).skip(i as int), name@),
        decreases env@.len() - i,
    {
        let ghost rest = env_view(env@).skip(i as int);
        proof {
            assert(rest[0] == (env@[i as int].0@, env@[i as int].1 as int));
            assert(rest.drop_first() =~= env_view(env@).skip(i as int + 1));
        }
        if text::string_is(&env[i].0, name.as_str()) {
            return Some(env[i].1);
        }
        i = i + 1;
    }
    proof {
        assert(env_view(env@).skip(i as int) =~= Seq::<(Seq<char>, int)>::empty());
    }
    None
}

/// The value of `expr` with the symbols bound in `env` replaced (`eval_env`).
pub fn eval_with(store: &Store, expr: ExprId, env: &Vec<(String, i64)>) -> (r: Option<(i64, i64)>)
    requires
        store.wf(),
        expr.0 < store.nodes().len(),
    ensures
        opt_tv(r) == eval_env(store.nodes(), expr.0 as int, env_view(env@)),
    decreases expr.0,
{
    let ghost nodes = store.nodes();
    let ghost id = expr.0 as int;
    let ghost ev = env_view(env@);
    let n = store.get(expr);
    let len = n.children.len();
    match (&n.op, &n.payload) {
        (Op::Integer, Payload::Int(k)) => Some((*k, 1)),
        (Op::Rational, Payload::Rat(p, q)) => Some((*p, *q)),
        (Op::Symbol, Payload::Sym(s)) => match lookup(env, s) {
            Some(v) => Some((v, 1)),
            None => None,
        },
        (Op::Add, _) => {
            let mut sum: (i64, i64) = (0, 1);
            let mut i: usize = 0;
            while i < len
                invariant
                    store.wf(),
                    nodes == store.nodes(),
                    ev == env_view(env@),
                    *n == nodes[id],
                    0 <= id < nodes.len(),
                    id == expr.0,
                    len == n.children@.len(),
                    i <= len,
                    env_sum(nodes, id, i as int, ev) == Some(tv(sum)),
                    eval_env(nodes, id, ev) == env_sum(nodes, id, len as int, ev),
                decreases len - i,
            {
                let c = n.children[i];
                assert(n.children@[i as int].0 < id);
                assert(env_child(nodes, id, i as int, ev) == eval_env(nodes, c.0 as int, ev));
                let v = match eval_with(store, c, env) {
                    Some(v) => v,
                    None => {
                        proof {
                            lemma_env_sum_none(nodes, id, i as int + 1, len as int, ev);
                        }
                        return None;
                    },
                };
                if !arith::add_fits(sum, v) {
                    proof {
                        lemma_env_sum_none(nodes, id, i as int + 1, len as int, ev);
                    }
                    return None;
                }
                sum = arith::rat_add(sum, v);
                i = i + 1;
            }
            Some(sum)
        },
        (Op::Mul, _) => {
            let mut prod: (i64, i64) = (1, 1);
            let mut i: usize = 0;
            while i < len
                invariant
                    store.wf(),
                    nodes == store.nodes(),
                    ev == env_view(env@),
                    *n == nodes[id],
                    0 <= id < nodes.len(),
                    id == expr.0,
                    len == n.children@.len(),
                    i <= len,
                    env_product(nodes, id, i as int, ev) == Some(tv(prod)),
                    eval_env(nodes, id, ev) == env_product(nodes, id, len as int, ev),
                decreases len - i,
            {
                let c = n.children[i];
                assert(n.children@[i as int].0 < id);
                assert(env_child(nodes, id, i as int, ev) == eval_env(nodes, c.0 as int, ev));
                let v = match eval_with(store, c, env) {
                    Some(v) => v,
                    None => {
                        proof {
                            lemma_env_product_none(nodes, id, i as int + 1, len as int, ev);
                        }
                        return None;
                    },
                };
                if !arith::mul_fits(prod, v) {
                    proof {
                        lemma_env_product_none(nodes, id, i as int + 1, len as int, ev);
                    }
                    return None;
                }
                prod = arith::rat_mul(prod, v);
                i = i + 1;
            }
            Some(prod)
        },
        (Op::Pow, _) => {
            if len != 2 {
                return None;
            }
            assert(n.children@[0].0 < id && n.children@[1].0 < id);
            assert(env_child(nodes, id, 0, ev) == eval_env(nodes, n.children@[0].0 as int, ev));
            assert(env_child(nodes, id, 1, ev) == eval_env(nodes, n.children@[1].0 as int, ev));
            let b = match eval_with(store, n.children[0], env) {
                Some(b) => b,
                None => {
                    return None;
                },
            };
            let e = match eval_with(store, n.children[1], env) {
                Some(e) => e,
                None => {
                    return None;
                },
            };
            if e.1 != 1 {
                return None;
            }
            eval_pow(b, e.0)
        },
        _ => None,
    }
}

/// How many small integers are tried for each variable.
pub const CANDIDATES: u64 = 201;

/// The `c`-th value tried for a variable: 0, 1, -1, 2, -2, ...
pub open spec fn candidate(c: int) -> int {
    if c % 2 == 1 {
        (c + 1) / 2
    } else {
        -(c / 2)
    }
}

/// No equation that has a value under `env` has a nonzero one.
pub open spec fn admits(nodes: Seq<Node>, eqs: Seq<ExprId>, env: Seq<(Seq<char>, int)>) -> bool {
    forall|j: int|
        0 <= j < eqs.len() ==> match #[trigger] eval_env(nodes, eqs[j].0 as int, env) {
            Some(v) => v.0 == 0,
            None => true,
        }
}

/// Every equation has the value zero under `env`.
pub open spec fn vanishes(nodes: Seq<Node>, eqs: Seq<ExprId>, env: Seq<(Seq<char>, int)>) -> bool {
    forall|j: int|
        0 <= j < eqs.len() ==> (#[trigger] eval_env(nodes, eqs[j].0 as int, env) matches Some(v) && v.0 == 0)
}

/// The first candidate, from the `c`-th on, that `name` can take after the bindings of
/// `env` without giving an equation a nonzero value.
pub open spec fn first_fit(
    nodes: Seq<Node>,
    eqs: Seq<ExprId>,
    env: Seq<(Seq<char>, int)>,
    name: Seq<char>,
    c: nat,
) -> Option<int>
    decreases CANDIDATES - c,
{
    if c >= CANDIDATES {
        None
    } else if admits(nodes, eqs, env.push((name, candidate(c as int)))) {
        Some(candidate(c as int))
    } else {
        first_fit(nodes, eqs, env, name, c + 1)
    }
}

/// `env` extended by the first fitting value of each of `names[k..]` in turn; `None`
/// when some variable has none.
pub open spec fn assign(
    nodes: Seq<Node>,
    eqs: Seq<ExprId>,
    names: Seq<Seq<char>>,
    env: Seq<(Seq<char>, int)>,
    k: nat,
) -> Option<Seq<(Seq<char>, int)>>
    decreases names.len() - k,
{
    if k >= names.len() {
        Some(env)
    } else {
        match first_fit(nodes, eqs, env, names[k as int], 0) {
            Some(v) => assign(nodes, eqs, names, env.push((names[k as int], v)), k + 1),
            None => None,
        }
    }
}

/// The solution found for the system `eqs` in the variables `names`: the values given
/// one variable after the other, kept only when every equation then vanishes. An empty
/// system has none.
pub open spec fn solution(nodes: Seq<Node>, eqs: Seq<ExprId>, names: Seq<Seq<char>>) -> Option<
    Seq<(Seq<char>, int)>,
> {
    if eqs.len() == 0 {
        None
    } else {
        match assign(nodes, eqs, names, Seq::empty(), 0) {
            Some(env) => if vanishes(nodes, eqs, env) {
                Some(env)
            } else {
                None
            },
            None => None,
        }
    }
}

/// Node `id` of `nodes` is the integer `v`.
pub open spec fn int_node(nodes: Seq<Node>, id: ExprId, v: int) -> bool {
    id.0 < nodes.len() && nodes[id.0 as int].op == Op::Integer && expr_core::payload_key(nodes[id.0 as int].payload)
        == expr_core::int_key(v)
}

/// The names of `vars` as character sequences.
pub open spec fn names_view(vars: Seq<String>) -> Seq<Seq<char>> {
    Seq::new(vars.len(), |i: int| vars[i]@)
}

/// The `c`-th candidate as a machine integer.
fn candidate_value(c: u64) -> (r: i64)
    requires
        c < CANDIDATES,
    ensures
        r as int == candidate(c as int),
{
    if c % 2 == 1 {
        ((c + 1) / 2) as i64
    } else {
        -((c / 2) as i64)
    }
}

/// Whether `env` admits every equation (`admits`).
fn admits_all(store: &Store, eqs: &Vec<ExprId>, env: &Vec<(String, i64)>) -> (b: bool)
    requires
        store.wf(),
        expr_core::valid_ids(store.nodes(), eqs@),
    ensures
        b == admits(store.nodes(), eqs@, env_view(env@)),
{
    let mut j: usize = 0;
    while j < eqs.len()
        invariant
            store.wf(),
            expr_core::valid_ids(store.nodes(), eqs@),
            j <= eqs.len(),
            forall|i: int|
                0 <= i < j ==> match #[trigger] eval_env(store.nodes(), eqs@[i].0 as int, env_view(env@)) {
                    Some(v) => v.0 == 0,
                    None => true,
                },
        decreases eqs.len() - j,
    {
        assert(eqs@[j as int].0 < store.nodes().len());
        match eval_with(store, eqs[j], env) {
            Some(v) => {
                if v.0 != 0 {
                    return false;
                }
            },
            None => {},
        }
        j = j + 1;
    }
    true
}

/// Whether every equation vanishes under `env` (`vanishes`).
fn vanishes_all(store: &Store, eqs: &Vec<ExprId>, env: &Vec<(String, i64)>) -> (b: bool)
    requires
        store.wf(),
        expr_core::valid_ids(store.nodes(), eqs@),
    ensures
        b == vanishes(store.nodes(), eqs@, env_view(env@)),
{
    let mut j: usize = 0;
    while j < eqs.len()
        invariant
            store.wf(),
            expr_core::valid_ids(store.nodes(), eqs@),
            j <= eqs.len(),
            forall|i: int|
                0 <= i < j ==> (#[trigger] eval_env(store.nodes(), eqs@[i].0 as int, env_view(env@)) matches Some(
                    v,
                ) && v.0 == 0),
        decreases eqs.len() - j,
    {
        assert(eqs@[j as int].0 < store.nodes().len());
        match eval_with(store, eqs[j], env) {
            Some(v) => {
                if v.0 != 0 {
                    return false;
                }
            },
            None => {
                return false;
            },
        }
        j = j + 1;
    }
    true
}

/// The first fitting value of `name` after the bindings of `env` (`first_fit`); `env`
/// is left as it was.
fn fit_value(store: &Store, eqs: &Vec<ExprId>, env: &mut Vec<(String, i64)>, name: &String) -> (r: Option<i64>)
    requires
        store.wf(),
        expr_core::valid_ids(store.nodes(), eqs@),
    ensures
        final(env)@ == old(env)@,
        opt_int(r) == first_fit(store.nodes(), eqs@, env_view(old(env)@), name@, 0),
{
    let ghost start = env@;
    let mut c: u64 = 0;
    while c < CANDIDATES
        invariant
            store.wf(),
            expr_core::valid_ids(store.nodes(), eqs@),
            env@ == start,
            start == old(env)@,
            c <= CANDIDATES,
            first_fit(store.nodes(), eqs@, env_view(start), name@, 0) == first_fit(
                store.nodes(),
                eqs@,
                env_view(start),
                name@,
                c as nat,
            ),
        decreases CANDIDATES - c,
    {
        let v = candidate_value(c);
        env.push((name.clone(), v));
        proof {
            assert(env_view(env@) =~= env_view(start).push((name@, candidate(c as int))));
        }
        let ok = admits_all(store, eqs, env);
        env.pop();
        proof {
            assert(env@ =~= start);
        }
        if ok {
            return Some(v);
        }
        c = c + 1;
    }
    None
}

/// The integer in an optional machine integer.
pub open spec fn opt_int(r: Option<i64>) -> Option<int> {
    match r {
        Some(x) => Some(x as int),
        None => None,
    }
}

/// The solution of the system `eqs` in the variables `vars` (`solution`), as bindings of
/// names to integers in the order of `vars`.
pub fn solve_values(store: &Store, eqs: &Vec<ExprId>, vars: &Vec<String>) -> (r: Option<Vec<(String, i64)>>)
    requires
        store.wf(),
        expr_core::valid_ids(store.nodes(), eqs@),
    ensures
        match r {
            Some(env) => solution(store.nodes(), eqs@, names_view(vars@)) == Some(env_view(env@)),
            None => solution(store.nodes(), eqs@, names_view(vars@)) is None,
        },
        r matches Some(env) ==> env@.len() == vars@.len() && forall|i: int| 0 <= i < vars@.len() ==> #[trigger] env@[i].0
            == vars@[i],
{
    if eqs.len() == 0 {
        return None;
    }
    let ghost names = names_view(vars@);
    let ghost nodes = store.nodes();
    let mut env: Vec<(String, i64)> = Vec::new();
    proof {
        assert(env_view(env@) =~= Seq::<(Seq<char>, int)>::empty());
    }
    let mut k: usize = 0;
    while k < vars.len()
        invariant
            store.wf(),
            nodes == store.nodes(),
            expr_core::valid_ids(nodes, eqs@),
            names == names_view(vars@),
            k <= vars.len(),
            assign(nodes, eqs@, names, Seq::empty(), 0) == assign(nodes, eqs@, names, env_view(env@), k as nat),
            env@.len() == k,
            forall|i: int| 0 <= i < k ==> #[trigger] env@[i].0 == vars@[i],
        decreases vars.len() - k,
    {
        let ghost before = env@;
        assert(names[k as int] == vars@[k as int]@);
        match fit_value(store, eqs, &mut env, &vars[k]) {
            Some(v) => {
                env.push((vars[k].clone(), v));
                proof {
                    assert(env_view(env@) =~= env_view(before).push((names[k as int], v as int)));
                }
            },
            None => {
                return None;
            },
        }
        k = k + 1;
    }
    if vanishes_all(store, eqs, &env) {
        Some(env)
    } else {
        None
    }
}

} // verus!
