//! Monomials and monomial orders for Gröbner bases, with the basis loop of Buchberger's
//! algorithm.
use vstd::prelude::*;
use std::cmp::Ordering;
use std::collections::HashMap;
use crate::expr_core::{self, ExprId, Node, Op, Payload, Store};
use crate::text;
use crate::polysolve;

verus! {

/// A monomial order.
#[derive(Debug, Clone, Copy, PartialEq, Eq, Structural)]
pub enum MonomialOrder {
    /// Lexicographic order.
    Lex,
    /// Total degree first, then lexicographic.
    GrLex,
    /// Total degree first, then reverse lexicographic.
    GRevLex,
}

/// Exponents by variable name, each name once, in the order the names first came.
#[derive(Debug, Clone, PartialEq, Eq)]
pub struct Exponents {
    entries: Vec<(String, i64)>,
}

/// The entries as names and integers.
pub open spec fn entries_view(e: Seq<(String, i64)>) -> Seq<(Seq<char>, int)> {
    e.map_values(|p: (String, i64)| (p.0@, p.1 as int))
}

/// The exponent of `name` among `e`, 0 when absent.
pub open spec fn exp_of(e: Seq<(Seq<char>, int)>, name: Seq<char>) -> int
    decreases e.len(),
{
    if e.len() == 0 {
        0
    } else if e.last().0 == name {
        e.last().1
    } else {
        exp_of(e.drop_last(), name)
    }
}

/// The names of `e` are distinct.
pub open spec fn distinct_names(e: Seq<(Seq<char>, int)>) -> bool {
    forall|i: int, j: int| 0 <= i < j < e.len() ==> #[trigger] e[i].0 != #[trigger] e[j].0
}

/// `name` occurs among the names of `e`.
pub open spec fn has_name(e: Seq<(Seq<char>, int)>, name: Seq<char>) -> bool {
    exists|i: int| 0 <= i < e.len() && #[trigger] e[i].0 == name
}

/// The sum of the exponents of `e`.
pub open spec fn exp_sum(e: Seq<(Seq<char>, int)>) -> int
    decreases e.len(),
{
    if e.len() == 0 { 0 } else { exp_sum(e.drop_last()) + e.last().1 }
}

impl View for Exponents {
    type V = Seq<(Seq<char>, int)>;

    closed spec fn view(&self) -> Seq<(Seq<char>, int)> {
        entries_view(self.entries@)
    }
}

/// The position of `name` among the names of `e`, or -1.
pub open spec fn name_index(e: Seq<(Seq<char>, int)>, name: Seq<char>) -> int
    decreases e.len(),
{
    if e.len() == 0 {
        -1
    } else if e.last().0 == name {
        e.len() - 1
    } else {
        name_index(e.drop_last(), name)
    }
}

/// `e` with `d` added to the exponent of `name` (a new entry `d` when absent), or `None`
/// when the exponent leaves `i64`.
pub open spec fn bump(e: Seq<(Seq<char>, int)>, name: Seq<char>, d: int) -> Option<Seq<(Seq<char>, int)>> {
    let k = name_index(e, name);
    if k >= 0 {
        if i64::MIN <= e[k].1 + d <= i64::MAX { Some(e.update(k, (name, e[k].1 + d))) } else { None }
    } else {
        Some(e.push((name, d)))
    }
}

/// `name_index` finds the entry, and the entry holds `exp_of`.
proof fn lemma_name_index(e: Seq<(Seq<char>, int)>, name: Seq<char>)
    ensures
        -1 <= name_index(e, name) < e.len(),
        name_index(e, name) >= 0 ==> e[name_index(e, name)].0 == name && exp_of(e, name) == e[name_index(e, name)].1,
        name_index(e, name) < 0 ==> !has_name(e, name) && exp_of(e, name) == 0,
    decreases e.len(),
{
    if e.len() > 0 {
        lemma_name_index(e.drop_last(), name);
        if e.last().0 != name && name_index(e.drop_last(), name) < 0 {
            assert forall|i: int| 0 <= i < e.len() implies #[trigger] e[i].0 != name by {
                if i < e.len() - 1 {
                    assert(e[i] == e.drop_last()[i]);
                }
            }
        }
    }
}

/// In a list of distinct names, the entry at `i` is the one `name_index` finds.
proof fn lemma_index_unique(e: Seq<(Seq<char>, int)>, i: int)
    requires
        distinct_names(e),
        0 <= i < e.len(),
    ensures
        name_index(e, e[i].0) == i,
    decreases e.len(),
{
    if i < e.len() - 1 {
        assert(e[i].0 != e.last().0);
        assert(distinct_names(e.drop_last()));
        assert(e.drop_last()[i] == e[i]);
        lemma_index_unique(e.drop_last(), i);
    }
}

impl Exponents {
    /// The names are distinct.
    pub closed spec fn wf(&self) -> bool {
        distinct_names(self@)
    }

    /// The entries in order.
    pub closed spec fn entries(&self) -> Seq<(Seq<char>, int)> {
        self@
    }

    /// No exponents.
    pub fn new() -> (r: Self)
        ensures
            r.wf(),
            r.entries() == Seq::<(Seq<char>, int)>::empty(),
    {
        let r = Exponents { entries: Vec::new() };
        assert(r@ =~= Seq::<(Seq<char>, int)>::empty());
        r
    }

    /// The position of `name`, if present.
    fn find(&self, name: &str) -> (r: Option<usize>)
        ensures
            match r {
                Some(i) => i < self@.len() && name_index(self@, name@) == i,
                None => name_index(self@, name@) < 0,
            },
    {
        let mut i = self.entries.len();
        proof {
            assert(self@.take(i as int) =~= self@);
        }
        while i > 0
            invariant
                i <= self.entries@.len(),
                self@ == entries_view(self.entries@),
                name_index(self@, name@) == name_index(self@.take(i as int), name@),
            decreases i,
        {
            let ghost t = self@.take(i as int);
            proof {
                assert(t.drop_last() =~= self@.take(i as int - 1));
                assert(t.last() == self@[i as int - 1]);
                assert(self@[i as int - 1].0 == self.entries@[i as int - 1].0@);
            }
            if text::string_is(&self.entries[i - 1].0, name) {
                return Some(i - 1);
            }
            i = i - 1;
        }
        proof {
            assert(self@.take(0) =~= Seq::<(Seq<char>, int)>::empty());
        }
        None
    }

    /// The exponent of `name`, if present.
    pub fn get(&self, name: &str) -> (r: Option<&i64>)
        requires
            self.wf(),
        ensures
            match r {
                Some(v) => has_name(self.entries(), name@) && *v == exp_of(self.entries(), name@),
                None => !has_name(self.entries(), name@),
            },
    {
        proof {
            lemma_name_index(self@, name@);
        }
        match self.find(name) {
            Some(i) => Some(&self.entries[i].1),
            None => None,
        }
    }

    /// The exponent of `name`, 0 when absent.
    fn value(&self, name: &str) -> (v: i64)
        ensures
            v == exp_of(self@, name@),
    {
        proof {
            lemma_name_index(self@, name@);
        }
        match self.find(name) {
            Some(i) => self.entries[i].1,
            None => 0,
        }
    }

    /// Sets the exponent of `name` to `v`, adding `name` at the end when absent.
    pub fn insert(&mut self, name: String, v: i64)
        requires
            old(self).wf(),
        ensures
            final(self).wf(),
            forall|n: Seq<char>| #[trigger] exp_of(final(self).entries(), n) == (if n == name@ { v as int } else { exp_of(old(self).entries(), n) }),
            forall|n: Seq<char>| #[trigger] has_name(final(self).entries(), n) == (has_name(old(self).entries(), n) || n == name@),
    {
        let ghost e = self@;
        proof {
            lemma_name_index(e, name@);
        }
        match self.find(name.as_str()) {
            Some(i) => {
                self.entries.set(i, (name, v));
                proof {
                    assert(self@ =~= e.update(i as int, (name@, v as int)));
                    lemma_update_exp(e, i as int, v as int);
                }
            },
            None => {
                self.entries.push((name, v));
                proof {
                    assert(self@ =~= e.push((name@, v as int)));
                    lemma_push_exp(e, name@, v as int);
                }
            },
        }
    }

    /// Adds `d` to the exponent of `name` (`bump`); `false`, with nothing changed, when
    /// it would leave `i64`.
    fn add_to(&mut self, name: &String, d: i64) -> (ok: bool)
        requires
            old(self).wf(),
        ensures
            final(self).wf(),
            ok == (bump(old(self)@, name@, d as int) is Some),
            ok ==> bump(old(self)@, name@, d as int) == Some(final(self)@),
    {
        let ghost e = self@;
        proof {
            lemma_name_index(e, name@);
        }
        match self.find(name.as_str()) {
            Some(i) => {
                let cur = self.entries[i].1;
                match cur.checked_add(d) {
                    Some(nv) => {
                        self.entries.set(i, (name.clone(), nv));
                        proof {
                            assert(self@ =~= e.update(i as int, (name@, cur + d)));
                            lemma_update_exp(e, i as int, nv as int);
                        }
                        true
                    },
                    None => false,
                }
            },
            None => {
                self.entries.push((name.clone(), d));
                proof {
                    assert(self@ =~= e.push((name@, d as int)));
                    lemma_push_exp(e, name@, d as int);
                }
                true
            },
        }
    }

    /// The sum of the exponents, in entry order.
    fn sum(&self) -> (s: i64)
        requires
            forall|k: int| 0 <= k <= self.entries().len() ==> i64::MIN <= #[trigger] exp_sum(self.entries().take(k)) <= i64::MAX,
        ensures
            s == exp_sum(self@),
    {
        let mut s: i64 = 0;
        let mut i: usize = 0;
        proof {
            assert(self@.take(0) =~= Seq::<(Seq<char>, int)>::empty());
        }
        while i < self.entries.len()
            invariant
                i <= self.entries@.len(),
                self@ == entries_view(self.entries@),
                self@ == self.entries(),
                forall|k: int| 0 <= k <= self.entries().len() ==> i64::MIN <= #[trigger] exp_sum(self.entries().take(k)) <= i64::MAX,
                s == exp_sum(self@.take(i as int)),
            decreases self.entries@.len() - i,
        {
            proof {
                assert(self@.take(i as int + 1).drop_last() =~= self@.take(i as int));
                assert(exp_sum(self@.take(i as int + 1)) == exp_sum(self@.take(i as int)) + self@[i as int].1);
            }
            s = s + self.entries[i].1;
            i = i + 1;
        }
        proof {
            assert(self@.take(self@.len() as int) =~= self@);
        }
        s
    }
}

/// Replacing entry `i` of a list of distinct names keeps them distinct and changes only
/// that exponent.
proof fn lemma_update_exp(e: Seq<(Seq<char>, int)>, i: int, v: int)
    requires
        distinct_names(e),
        0 <= i < e.len(),
    ensures
        distinct_names(e.update(i, (e[i].0, v))),
        forall|n: Seq<char>| #[trigger] exp_of(e.update(i, (e[i].0, v)), n) == (if n == e[i].0 { v } else { exp_of(e, n) }),
        forall|n: Seq<char>| #[trigger] has_name(e.update(i, (e[i].0, v)), n) == has_name(e, n),
{
    let u = e.update(i, (e[i].0, v));
    assert forall|n: Seq<char>| #[trigger] exp_of(u, n) == (if n == e[i].0 { v } else { exp_of(e, n) }) by {
        lemma_name_index(u, n);
        lemma_name_index(e, n);
        lemma_index_unique(e, i);
        assert(distinct_names(u));
        lemma_index_unique(u, i);
        if n != e[i].0 {
            if name_index(e, n) >= 0 {
                lemma_index_unique(u, name_index(e, n));
            }
            if name_index(u, n) >= 0 {
                lemma_index_unique(e, name_index(u, n));
            }
        }
    }
    assert forall|n: Seq<char>| #[trigger] has_name(u, n) == has_name(e, n) by {
        if has_name(u, n) {
            let w = choose|w: int| 0 <= w < u.len() && #[trigger] u[w].0 == n;
            assert(e[w].0 == n);
        }
        if has_name(e, n) {
            let w = choose|w: int| 0 <= w < e.len() && #[trigger] e[w].0 == n;
            assert(u[w].0 == n);
        }
    }
}

/// Appending a new name keeps the names distinct.
proof fn lemma_push_exp(e: Seq<(Seq<char>, int)>, name: Seq<char>, v: int)
    requires
        distinct_names(e),
        !has_name(e, name),
    ensures
        distinct_names(e.push((name, v))),
        forall|n: Seq<char>| #[trigger] exp_of(e.push((name, v)), n) == (if n == name { v } else { exp_of(e, n) }),
        forall|n: Seq<char>| #[trigger] has_name(e.push((name, v)), n) == (has_name(e, n) || n == name),
{
    let p = e.push((name, v));
    assert(p.drop_last() =~= e);
    assert forall|i: int, j: int| 0 <= i < j < p.len() implies #[trigger] p[i].0 != #[trigger] p[j].0 by {
        if j == e.len() {
            assert(p[i].0 == e[i].0);
        } else {
            assert(p[i] == e[i] && p[j] == e[j]);
        }
    }
    assert forall|n: Seq<char>| #[trigger] has_name(p, n) == (has_name(e, n) || n == name) by {
        if has_name(p, n) {
            let w = choose|w: int| 0 <= w < p.len() && #[trigger] p[w].0 == n;
            if w < e.len() {
                assert(e[w].0 == n);
            }
        }
        if has_name(e, n) {
            let w = choose|w: int| 0 <= w < e.len() && #[trigger] e[w].0 == n;
            assert(p[w].0 == n);
        }
        if n == name {
            assert(p[e.len() as int].0 == n);
        }
    }
}

/// The exponents of a monomial node, added to `e`: numbers add nothing, a symbol adds 1
/// to its own exponent, a power of a symbol to an integer adds that integer, and a
/// product adds each factor in turn; `None` for anything else or on overflow.
pub open spec fn extract(nodes: Seq<Node>, id: int, e: Seq<(Seq<char>, int)>) -> Option<Seq<(Seq<char>, int)>>
    decreases id, 1int, 0int,
{
    if !(0 <= id < nodes.len()) {
        None
    } else {
        let nd = nodes[id];
        let len = nd.children@.len() as int;
        match nd.op {
            Op::Integer | Op::Rational => Some(e),
            Op::Symbol => match nd.payload {
                Payload::Sym(var) => bump(e, var@, 1),
                _ => Some(e),
            },
            Op::Pow => {
                let b = nd.children@[0].0 as int;
                let x = nd.children@[1].0 as int;
                if len != 2 || !(0 <= b < nodes.len()) || !(0 <= x < nodes.len()) {
                    None
                } else {
                    match (nodes[x].op, nodes[x].payload, nodes[b].payload) {
                        (Op::Integer, Payload::Int(k), Payload::Sym(var)) => bump(e, var@, k as int),
                        _ => None,
                    }
                }
            },
            Op::Mul => extract_factors(nodes, id, len, e),
            _ => None,
        }
    }
}

/// The exponents of the first `k` factors of `id`, added to `e` in order.
pub open spec fn extract_factors(nodes: Seq<Node>, id: int, k: int, e: Seq<(Seq<char>, int)>) -> Option<Seq<(Seq<char>, int)>>
    decreases id, 0int, k,
{
    if k <= 0 {
        Some(e)
    } else {
        match extract_factors(nodes, id, k - 1, e) {
            Some(e2) => {
                let c = nodes[id].children@[k - 1].0 as int;
                if 0 <= id < nodes.len() && k - 1 < nodes[id].children@.len() && 0 <= c < id {
                    extract(nodes, c, e2)
                } else {
                    None
                }
            },
            None => None,
        }
    }
}

/// A monomial: a product of variables to integer powers.
#[derive(Debug, Clone, PartialEq, Eq)]
pub struct Monomial {
    /// The exponent of each variable.
    pub exponents: Exponents,
}

/// A failed extraction stays failed through the remaining factors.
proof fn lemma_factors_none(nodes: Seq<Node>, id: int, k: int, m: int, e: Seq<(Seq<char>, int)>)
    requires
        0 <= k <= m,
        extract_factors(nodes, id, k, e) is None,
    ensures
        extract_factors(nodes, id, m, e) is None,
    decreases m - k,
{
    if m > k {
        lemma_factors_none(nodes, id, k, m - 1, e);
    }
}

/// Adds the exponents of `expr` to `exps` (`extract`); `false` when `expr` is no monomial.
fn extract_monomial(store: &Store, expr: ExprId, exps: &mut Exponents) -> (ok: bool)
    requires
        store.wf(),
        expr.0 < store.nodes().len(),
        old(exps).wf(),
    ensures
        final(exps).wf(),
        ok == (extract(store.nodes(), expr.0 as int, old(exps)@) is Some),
        ok ==> extract(store.nodes(), expr.0 as int, old(exps)@) == Some(final(exps)@),
    decreases expr.0,
{
    let ghost nodes = store.nodes();
    let ghost i = expr.0 as int;
    let nd = store.get(expr);
    match nd.op {
        Op::Integer | Op::Rational => true,
        Op::Symbol => match &nd.payload {
            Payload::Sym(var) => exps.add_to(var, 1),
            _ => true,
        },
        Op::Pow => {
            if nd.children.len() != 2 {
                return false;
            }
            let b = nd.children[0];
            let x = nd.children[1];
            let xn = store.get(x);
            let bn = store.get(b);
            match (&xn.op, &xn.payload, &bn.payload) {
                (Op::Integer, Payload::Int(k), Payload::Sym(var)) => exps.add_to(var, *k),
                _ => false,
            }
        },
        Op::Mul => {
            let len = nd.children.len();
            let ghost e0 = exps@;
            let mut k: usize = 0;
            while k < len
                invariant
                    store.wf(),
                    nodes == store.nodes(),
                    *nd == nodes[i],
                    0 <= i < nodes.len(),
                    i == expr.0,
                    nd.op == Op::Mul,
                    len == nd.children@.len(),
                    k <= len,
                    exps.wf(),
                    e0 == old(exps)@,
                    extract_factors(nodes, i, k as int, e0) == Some(exps@),
                decreases len - k,
            {
                let c = nd.children[k];
                assert(nd.children@[k as int].0 < i);
                if !extract_monomial(store, c, exps) {
                    proof {
                        lemma_factors_none(nodes, i, k as int + 1, len as int, e0);
                    }
                    return false;
                }
                k = k + 1;
            }
            true
        },
        _ => false,
    }
}

impl Monomial {
    /// The monomial `expr` stands for (`extract` from no exponents), if it is one.
    pub fn from_expr(store: &Store, expr: ExprId) -> (r: Option<Self>)
        requires
            store.wf(),
            expr.0 < store.nodes().len(),
        ensures
            match (extract(store.nodes(), expr.0 as int, Seq::empty()), r) {
                (None, None) => true,
                (Some(e), Some(m)) => m.exponents.wf() && m.exponents.entries() == e,
                _ => false,
            },
    {
        let mut exps = Exponents::new();
        if extract_monomial(store, expr, &mut exps) {
            Some(Monomial { exponents: exps })
        } else {
            None
        }
    }

    /// The total degree: the sum of the exponents.
    pub fn degree(&self) -> (d: i64)
        requires
            forall|k: int| 0 <= k <= self.exponents.entries().len() ==> i64::MIN <= #[trigger] exp_sum(self.exponents.entries().take(k)) <= i64::MAX,
        ensures
            d == exp_sum(self.exponents.entries()),
    {
        self.exponents.sum()
    }
}

/// A position as an integer.
pub open spec fn to_int(k: usize) -> int {
    k as int
}

/// The length of a list of names as an integer.
pub open spec fn seq_len(v: Seq<String>) -> int {
    v.len() as int
}

/// Lexicographic order on the exponents of `vars[k..]`: the first variable whose
/// exponents differ decides.
pub open spec fn lex_from(a: Seq<(Seq<char>, int)>, b: Seq<(Seq<char>, int)>, vars: Seq<String>, k: int) -> Ordering
    decreases vars.len() - k,
{
    if k < 0 || k >= vars.len() {
        Ordering::Equal
    } else {
        let x = exp_of(a, vars[k]@);
        let y = exp_of(b, vars[k]@);
        if x < y {
            Ordering::Less
        } else if x > y {
            Ordering::Greater
        } else {
            lex_from(a, b, vars, k + 1)
        }
    }
}

/// Reverse lexicographic order on the exponents of `vars[..k]`, from the last variable
/// back: the first whose exponents differ decides, the smaller exponent ranking higher.
pub open spec fn revlex_upto(a: Seq<(Seq<char>, int)>, b: Seq<(Seq<char>, int)>, vars: Seq<String>, k: int) -> Ordering
    decreases k,
{
    if k <= 0 || k > vars.len() {
        Ordering::Equal
    } else {
        let x = exp_of(a, vars[k - 1]@);
        let y = exp_of(b, vars[k - 1]@);
        if y < x {
            Ordering::Less
        } else if y > x {
            Ordering::Greater
        } else {
            revlex_upto(a, b, vars, k - 1)
        }
    }
}

/// How the monomial with exponents `a` ranks against `b` in `order` over `vars`.
pub open spec fn monomial_rank(a: Seq<(Seq<char>, int)>, b: Seq<(Seq<char>, int)>, order: MonomialOrder, vars: Seq<String>) -> Ordering {
    match order {
        MonomialOrder::Lex => lex_from(a, b, vars, 0),
        MonomialOrder::GrLex => if exp_sum(a) < exp_sum(b) {
            Ordering::Less
        } else if exp_sum(a) > exp_sum(b) {
            Ordering::Greater
        } else {
            lex_from(a, b, vars, 0)
        },
        MonomialOrder::GRevLex => if exp_sum(a) < exp_sum(b) {
            Ordering::Less
        } else if exp_sum(a) > exp_sum(b) {
            Ordering::Greater
        } else {
            revlex_upto(a, b, vars, seq_len(vars))
        },
    }
}

/// The exponents sum without overflow in entry order.
pub open spec fn sums_fit(e: Seq<(Seq<char>, int)>) -> bool {
    forall|k: int| 0 <= k <= e.len() ==> i64::MIN <= #[trigger] exp_sum(e.take(k)) <= i64::MAX
}

impl Monomial {
    /// How `self` ranks against `other` in `order` over `vars` (`monomial_rank`).
    pub fn compare(&self, other: &Self, order: MonomialOrder, vars: &[String]) -> (r: Ordering)
        requires
            order != MonomialOrder::Lex ==> sums_fit(self.exponents.entries()) && sums_fit(other.exponents.entries()),
        ensures
            r == monomial_rank(self.exponents.entries(), other.exponents.entries(), order, vars@),
    {
        let ghost a = self.exponents.entries();
        let ghost b = other.exponents.entries();
        let by_vars = match order {
            MonomialOrder::Lex => true,
            _ => {
                let d1 = self.degree();
                let d2 = other.degree();
                if d1 < d2 {
                    return Ordering::Less;
                }
                if d1 > d2 {
                    return Ordering::Greater;
                }
                order == MonomialOrder::GrLex
            },
        };
        if by_vars {
            let mut k: usize = 0;
            while k < vars.len()
                invariant
                    k <= vars@.len(),
                    a == self.exponents.entries(),
                    b == other.exponents.entries(),
                    lex_from(a, b, vars@, 0) == lex_from(a, b, vars@, to_int(k)),
                    monomial_rank(a, b, order, vars@) == lex_from(a, b, vars@, 0),
                decreases vars@.len() - k,
            {
                let e1 = self.exponents.value(vars[k].as_str());
                let e2 = other.exponents.value(vars[k].as_str());
                if e1 < e2 {
                    return Ordering::Less;
                }
                if e1 > e2 {
                    return Ordering::Greater;
                }
                k = k + 1;
            }
            Ordering::Equal
        } else {
            let mut k: usize = vars.len();
            while k > 0
                invariant
                    k <= vars@.len(),
                    a == self.exponents.entries(),
                    b == other.exponents.entries(),
                    revlex_upto(a, b, vars@, seq_len(vars@)) == revlex_upto(a, b, vars@, to_int(k)),
                    monomial_rank(a, b, order, vars@) == revlex_upto(a, b, vars@, seq_len(vars@)),
                decreases k,
            {
                let e1 = self.exponents.value(vars[k - 1].as_str());
                let e2 = other.exponents.value(vars[k - 1].as_str());
                if e2 < e1 {
                    return Ordering::Less;
                }
                if e2 > e1 {
                    return Ordering::Greater;
                }
                k = k - 1;
            }
            Ordering::Equal
        }
    }
}

/// The S-polynomial of `f` and `g`: not computed; always `None`, the store untouched.
pub fn s_polynomial(_store: &mut Store, _f: ExprId, _g: ExprId, _vars: &[String], _order: MonomialOrder) -> (r: Option<ExprId>)
    ensures
        r is None,
        *final(_store) == *old(_store),
{
    None
}

/// The remainder of `f` by `basis`: division is not performed; `f` itself, the store
/// untouched.
pub fn reduce(_store: &mut Store, f: ExprId, _basis: &[ExprId], _vars: &[String], _order: MonomialOrder) -> (r: ExprId)
    ensures
        r == f,
        *final(_store) == *old(_store),
{
    f
}

/// Buchberger's loop over pairs of basis polynomials (at most 100 rounds), adding each
/// nonzero reduced S-polynomial. As `s_polynomial` yields none, the basis is `polys`.
pub fn buchberger(store: &mut Store, polys: Vec<ExprId>, vars: Vec<String>, order: MonomialOrder) -> (r: Vec<ExprId>)
    requires
        old(store).wf(),
    ensures
        r@ == polys@,
        *final(store) == *old(store),
{
    if polys.len() == 0 {
        return Vec::new();
    }
    let ghost orig = polys@;
    let mut basis = polys;
    let mut pairs: Vec<(usize, usize)> = Vec::new();
    let n = basis.len();
    let mut i: usize = 0;
    while i < n
        invariant
            i <= n,
        decreases n - i,
    {
        let mut j: usize = i + 1;
        while j < n
            invariant
                i < n,
                i + 1 <= j <= n,
            decreases n - j,
        {
            pairs.push((i, j));
            j = j + 1;
        }
        i = i + 1;
    }
    let max_iterations: usize = 100;
    let mut iteration: usize = 0;
    while pairs.len() > 0 && iteration < max_iterations
        invariant
            basis@ == orig,
            *store == *old(store),
            store.wf(),
            iteration <= max_iterations,
            max_iterations == 100,
        decreases max_iterations - iteration,
    {
        iteration = iteration + 1;
        let (pi, pj) = match pairs.pop() {
            Some(p) => p,
            None => {
                break;
            },
        };
        if pi >= basis.len() || pj >= basis.len() {
            continue;
        }
        if let Some(s) = s_polynomial(store, basis[pi], basis[pj], vars.as_slice(), order) {
            let remainder = reduce(store, s, basis.as_slice(), vars.as_slice(), order);
            let rn = store.get(remainder);
            let is_zero = match (&rn.op, &rn.payload) {
                (Op::Integer, Payload::Int(0)) => true,
                _ => false,
            };
            if !is_zero {
                let new_idx = basis.len();
                basis.push(remainder);
                let mut k: usize = 0;
                while k < new_idx
                    invariant
                        k <= new_idx,
                    decreases new_idx - k,
                {
                    pairs.push((k, new_idx));
                    k = k + 1;
                }
            }
        }
    }
    basis
}

/// The solutions of a polynomial system: one map from each variable to the integer node
/// of its value, found by `polysolve::solve_values`; `None` when that finds none (an
/// empty system among them). A name given twice is mapped to its later value. What the
/// map holds is stated under vstd's key model for `String` (`obeys_key_model`), on which
/// vstd's `HashMap::insert` specification rests.
#[verifier::spinoff_prover]
pub fn solve_system(store: &mut Store, equations: Vec<ExprId>, vars: Vec<String>) -> (r: Option<Vec<HashMap<String, ExprId>>>)
    requires
        old(store).wf(),
        expr_core::valid_ids(old(store).nodes(), equations@),
    ensures
        final(store).wf(),
        expr_core::extends(old(store).nodes(), final(store).nodes()),
        r is Some <==> polysolve::solution(old(store).nodes(), equations@, polysolve::names_view(vars@)) is Some,
        r matches Some(maps) ==> maps.len() == 1,
        vstd::std_specs::hash::obeys_key_model::<String>() ==> (r matches Some(maps) ==> {
            let env = polysolve::solution(old(store).nodes(), equations@, polysolve::names_view(vars@))->Some_0;
            &&& forall|i: int|
                0 <= i < vars@.len() ==> #[trigger] maps[0]@.contains_key(vars@[i]) && exists|j: int|
                    0 <= j < vars@.len() && vars@[j] == vars@[i] && polysolve::int_node(
                        final(store).nodes(),
                        maps[0]@[vars@[i]],
                        env[j].1,
                    )
            &&& forall|k: String| #[trigger] maps[0]@.contains_key(k) ==> exists|i: int| 0 <= i < vars@.len() && vars@[i] == k
        }),
{
    let ghost start = store.nodes();
    let env = match polysolve::solve_values(store, &equations, &vars) {
        Some(env) => env,
        None => {
            return None;
        },
    };
    let ghost sol = polysolve::env_view(env@);
    proof {
        broadcast use vstd::std_specs::hash::axiom_random_state_builds_valid_hashers;
    }
    let mut map: HashMap<String, ExprId> = HashMap::new();
    let mut i: usize = 0;
    while i < env.len()
        invariant
            store.wf(),
            expr_core::extends(start, store.nodes()),
            i <= env.len(),
            env@.len() == vars@.len(),
            forall|t: int| 0 <= t < vars@.len() ==> #[trigger] env@[t].0 == vars@[t],
            sol == polysolve::env_view(env@),
            vstd::std_specs::hash::builds_valid_hashers::<std::hash::RandomState>(),
            vstd::std_specs::hash::obeys_key_model::<String>() ==> {
                &&& forall|t: int|
                    0 <= t < i ==> #[trigger] map@.contains_key(vars@[t]) && exists|j: int|
                        0 <= j < i && vars@[j] == vars@[t] && polysolve::int_node(store.nodes(), map@[vars@[t]], sol[j].1)
                &&& forall|k: String| #[trigger] map@.contains_key(k) ==> exists|t: int| 0 <= t < i && vars@[t] == k
            },
        decreases env.len() - i,
    {
        let ghost before = store.nodes();
        let ghost old_map = map@;
        let id = store.integer(env[i].1);
        let key = env[i].0.clone();
        map.insert(key, id);
        proof {
            if vstd::std_specs::hash::obeys_key_model::<String>() {
                assert(key == vars@[i as int]);
                assert(polysolve::int_node(store.nodes(), id, sol[i as int].1));
                assert forall|t: int| 0 <= t < i + 1 implies #[trigger] map@.contains_key(vars@[t]) && exists|j: int|
                    0 <= j < i + 1 && vars@[j] == vars@[t] && polysolve::int_node(store.nodes(), map@[vars@[t]], sol[j].1) by {
                    if vars@[t] == key {
                        assert(map@[vars@[t]] == id);
                    } else {
                        assert(t < i);
                        assert(old_map.contains_key(vars@[t]));
                        let j = choose|j: int|
                            0 <= j < i && vars@[j] == vars@[t] && polysolve::int_node(before, old_map[vars@[t]], sol[j].1);
                        assert(map@[vars@[t]] == old_map[vars@[t]]);
                        assert(polysolve::int_node(store.nodes(), map@[vars@[t]], sol[j].1));
                    }
                }
                assert forall|k: String| #[trigger] map@.contains_key(k) implies exists|t: int| 0 <= t < i + 1 && vars@[t] == k by {
                    if k == key {
                        assert(vars@[i as int] == k);
                    } else {
                        assert(old_map.contains_key(k));
                    }
                }
            }
        }
        i = i + 1;
    }
    let mut out: Vec<HashMap<String, ExprId>> = Vec::new();
    out.push(map);
    proof {
        assert(out@[0] == map);
    }
    Some(out)
}

} // verus!
