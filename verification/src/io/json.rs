//! JSON serializer and parser for expressions, in a fixed format:
//! `{"Integer": k}`, `{"Rational": {"num": n, "den": d}}`, `{"Symbol": "name"}`,
//! `{"Function": {"name": "f", "args": [...]}}`, `{"Add": [...]}`, `{"Mul": [...]}`,
//! `{"Pow": {"base": ..., "exp": ...}}`.
use vstd::prelude::*;
use crate::expr_core::{self, ExprId, Node, Op, Payload, Store};
use crate::arith;
use crate::io::sexpr::{self, is_ws, skip_ws, read_string, parse_i64};
use crate::text;

verus! {

/// A parsed JSON value.
pub enum J {
    Obj(Vec<(String, J)>),
    Arr(Vec<J>),
    Str(String),
    Num(i64),
    Null,
}

/// What a JSON value stands for.
pub enum JV {
    Obj(Seq<(Seq<char>, JV)>),
    Arr(Seq<JV>),
    Str(Seq<char>),
    Num(int),
    Null,
}

/// The meaning of a parsed JSON value.
pub open spec fn jview(j: J) -> JV
    decreases j,
{
    match j {
        J::Obj(fields) => JV::Obj(Seq::new(fields@.len(), |k: int| if 0 <= k < fields@.len() {
            (fields@[k].0@, jview(fields@[k].1))
        } else {
            (Seq::empty(), JV::Null)
        })),
        J::Arr(items) => JV::Arr(Seq::new(items@.len(), |k: int| if 0 <= k < items@.len() {
            jview(items@[k])
        } else {
            JV::Null
        })),
        J::Str(s) => JV::Str(s@),
        J::Num(k) => JV::Num(k as int),
        J::Null => JV::Null,
    }
}

/// `s` with `\\` and `"` escaped by a backslash.
pub open spec fn json_escape(s: Seq<char>) -> Seq<char>
    decreases s.len(),
{
    if s.len() == 0 {
        Seq::empty()
    } else {
        json_escape(s.drop_last()) + (if s.last() == '\\' || s.last() == '"' {
            seq!['\\', s.last()]
        } else {
            seq![s.last()]
        })
    }
}

/// The JSON text of node `id`.
pub open spec fn json(nodes: Seq<Node>, id: int) -> Seq<char>
    decreases id, 1int, 0int,
{
    if !(0 <= id < nodes.len()) {
        Seq::empty()
    } else {
        let n = nodes[id];
        let len = n.children@.len() as int;
        match (n.op, n.payload) {
            (Op::Integer, Payload::Int(k)) => "{\"Integer\": "@ + text::int_decimal(k as int) + "}"@,
            (Op::Rational, Payload::Rat(a, b)) => "{\"Rational\": {\"num\": "@ + text::int_decimal(a as int)
                + ", \"den\": "@ + text::int_decimal(b as int) + "}}"@,
            (Op::Symbol, Payload::Sym(name)) => "{\"Symbol\": \""@ + json_escape(name@) + "\"}"@,
            (Op::Function, Payload::Func(name)) => "{\"Function\": {\"name\": \""@ + json_escape(name@)
                + "\", \"args\": ["@ + json_join(nodes, id, len) + "]}}"@,
            (Op::Add, _) => "{\"Add\": ["@ + json_join(nodes, id, len) + "]}"@,
            (Op::Mul, _) => "{\"Mul\": ["@ + json_join(nodes, id, len) + "]}"@,
            (Op::Pow, _) => "{\"Pow\": {\"base\": "@ + json_child(nodes, id, 0) + ", \"exp\": "@ + json_child(nodes, id, 1)
                + "}}"@,
            _ => "{\"Unknown\": null}"@,
        }
    }
}

/// The JSON text of child `k` of `id`.
pub open spec fn json_child(nodes: Seq<Node>, id: int, k: int) -> Seq<char>
    decreases id, 0int, 0int,
{
    if 0 <= id < nodes.len() && 0 <= k < nodes[id].children@.len() && nodes[id].children@[k].0 < id {
        json(nodes, nodes[id].children@[k].0 as int)
    } else {
        Seq::empty()
    }
}

/// The first `k` children of `id`, separated by `, `.
pub open spec fn json_join(nodes: Seq<Node>, id: int, k: int) -> Seq<char>
    decreases id, 0int, k,
{
    if k <= 0 {
        Seq::empty()
    } else if k == 1 {
        json_child(nodes, id, 0)
    } else {
        json_join(nodes, id, k - 1) + ", "@ + json_child(nodes, id, k - 1)
    }
}

/// Appends `s` escaped for a JSON string.
fn push_escaped(out: &mut String, s: &str)
    ensures
        final(out)@ == old(out)@ + json_escape(s@),
{
    let ghost start = out@;
    let len = s.unicode_len();
    let mut i: usize = 0;
    proof {
        assert(s@.take(0) =~= Seq::<char>::empty());
    }
    while i < len
        invariant
            len == s@.len(),
            i <= len,
            out@ == start + json_escape(s@.take(i as int)),
        decreases len - i,
    {
        let c = s.get_char(i);
        proof {
            reveal_strlit("\\");
            assert("\\"@ =~= seq!['\\']);
            assert(s@.take(i as int + 1).drop_last() =~= s@.take(i as int));
            assert(s@.take(i as int + 1).last() == c);
        }
        if c == '\\' || c == '"' {
            out.append("\\");
        }
        let piece = s.substring_char(i, i + 1);
        proof {
            assert(piece@ =~= seq![c]);
        }
        out.append(piece);
        proof {
            assert(out@ =~= start + json_escape(s@.take(i as int + 1)));
        }
        i = i + 1;
    }
    proof {
        assert(s@.take(len as int) =~= s@);
    }
}

/// Appends child `k` of `id`.
fn push_child(st: &Store, out: &mut String, id: ExprId, k: usize)
    requires
        st.wf(),
        id.0 < st.nodes().len(),
        k < st.nodes()[id.0 as int].children@.len(),
    ensures
        final(out)@ == old(out)@ + json_child(st.nodes(), id.0 as int, k as int),
    decreases id.0, 0int,
{
    let c = st.get(id).children[k];
    proof {
        assert(st.nodes()[id.0 as int].children@[k as int].0 < id.0);
    }
    let s = go(st, c);
    out.append(s.as_str());
}

/// Appends all children of `id`, separated by `, `.
fn push_children(st: &Store, out: &mut String, id: ExprId)
    requires
        st.wf(),
        id.0 < st.nodes().len(),
    ensures
        final(out)@ == old(out)@ + json_join(st.nodes(), id.0 as int, st.nodes()[id.0 as int].children@.len() as int),
    decreases id.0, 1int,
{
    let len = st.get(id).children.len();
    let ghost start = out@;
    let mut k: usize = 0;
    while k < len
        invariant
            st.wf(),
            id.0 < st.nodes().len(),
            len == st.nodes()[id.0 as int].children@.len(),
            k <= len,
            out@ == start + json_join(st.nodes(), id.0 as int, k as int),
        decreases len - k,
    {
        if k > 0 {
            out.append(", ");
        }
        push_child(st, out, id, k);
        proof {
            assert(out@ =~= start + json_join(st.nodes(), id.0 as int, k as int + 1));
        }
        k = k + 1;
    }
}

/// The JSON text of `id`.
fn go(st: &Store, id: ExprId) -> (s: String)
    requires
        st.wf(),
        id.0 < st.nodes().len(),
    ensures
        s@ == json(st.nodes(), id.0 as int),
    decreases id.0, 2int,
{
    let n = st.get(id);
    let ghost nodes = st.nodes();
    let ghost i0 = id.0 as int;
    let ghost len = n.children@.len() as int;
    let mut out = String::new();
    match (&n.op, &n.payload) {
        (Op::Integer, Payload::Int(k)) => {
            out.append("{\"Integer\": ");
            text::push_i64(&mut out, *k);
            out.append("}");
            assert(out@ =~= "{\"Integer\": "@ + text::int_decimal(*k as int) + "}"@);
        },
        (Op::Rational, Payload::Rat(a, b)) => {
            out.append("{\"Rational\": {\"num\": ");
            text::push_i64(&mut out, *a);
            out.append(", \"den\": ");
            text::push_i64(&mut out, *b);
            out.append("}}");
            assert(out@ =~= "{\"Rational\": {\"num\": "@ + text::int_decimal(*a as int) + ", \"den\": "@
                + text::int_decimal(*b as int) + "}}"@);
        },
        (Op::Symbol, Payload::Sym(name)) => {
            out.append("{\"Symbol\": \"");
            push_escaped(&mut out, name.as_str());
            out.append("\"}");
            assert(out@ =~= "{\"Symbol\": \""@ + json_escape(name@) + "\"}"@);
        },
        (Op::Function, Payload::Func(name)) => {
            out.append("{\"Function\": {\"name\": \"");
            push_escaped(&mut out, name.as_str());
            out.append("\", \"args\": [");
            push_children(st, &mut out, id);
            out.append("]}}");
            assert(out@ =~= "{\"Function\": {\"name\": \""@ + json_escape(name@) + "\", \"args\": ["@
                + json_join(nodes, i0, len) + "]}}"@);
        },
        (Op::Add, _) => {
            out.append("{\"Add\": [");
            push_children(st, &mut out, id);
            out.append("]}");
            assert(out@ =~= "{\"Add\": ["@ + json_join(nodes, i0, len) + "]}"@);
        },
        (Op::Mul, _) => {
            out.append("{\"Mul\": [");
            push_children(st, &mut out, id);
            out.append("]}");
            assert(out@ =~= "{\"Mul\": ["@ + json_join(nodes, i0, len) + "]}"@);
        },
        (Op::Pow, _) => {
            out.append("{\"Pow\": {\"base\": ");
            push_child(st, &mut out, id, 0);
            out.append(", \"exp\": ");
            push_child(st, &mut out, id, 1);
            out.append("}}");
            assert(out@ =~= "{\"Pow\": {\"base\": "@ + json_child(nodes, i0, 0) + ", \"exp\": "@
                + json_child(nodes, i0, 1) + "}}"@);
        },
        _ => {
            out.append("{\"Unknown\": null}");
        },
    }
    out
}

/// The JSON text of an expression.
pub fn to_json(st: &Store, id: ExprId) -> (s: String)
    requires
        st.wf(),
        id.0 < st.nodes().len(),
    ensures
        s@ == json(st.nodes(), id.0 as int),
{
    go(st, id)
}

/// The end of the run of decimal digits from `i`.
pub open spec fn digit_run(s: Seq<char>, i: int) -> int
    decreases s.len() - i,
{
    if i < 0 || i >= s.len() || !('0' <= s[i] <= '9') { i } else { digit_run(s, i + 1) }
}

/// The JSON integer at `j`: an optional `-`, at least one digit, within `i64`; its value
/// and end.
pub open spec fn jnum(s: Seq<char>, j: int) -> Option<(int, int)> {
    let k = if 0 <= j < s.len() && s[j] == '-' { j + 1 } else { j };
    let e = digit_run(s, k);
    if e <= k {
        None
    } else {
        match parse_i64(s.subrange(j, e)) {
            Some(v) => Some((v, e)),
            None => None,
        }
    }
}

/// The JSON value at `i` (after optional whitespace) and its end, or `None`: an object,
/// an array, a string with backslash escapes, or an integer.
pub open spec fn jvalue(s: Seq<char>, i: int) -> Option<(JV, int)>
    decreases s.len() - i, 2int,
{
    if !(0 <= i <= s.len()) {
        None
    } else {
        let j = skip_ws(s, i);
        if !(i <= j < s.len()) {
            None
        } else {
            let c = s[j];
            if c == '{' {
                let k = skip_ws(s, j + 1);
                if k < s.len() && s[k] == '}' {
                    Some((JV::Obj(Seq::empty()), k + 1))
                } else {
                    jmembers(s, j + 1, Seq::empty())
                }
            } else if c == '[' {
                let k = skip_ws(s, j + 1);
                if k < s.len() && s[k] == ']' {
                    Some((JV::Arr(Seq::empty()), k + 1))
                } else {
                    jitems(s, j + 1, Seq::empty())
                }
            } else if c == '"' {
                match read_string(s, j + 1, Seq::empty()) {
                    Some((t, e)) => Some((JV::Str(t), e)),
                    None => None,
                }
            } else if c == '-' || ('0' <= c <= '9') {
                match jnum(s, j) {
                    Some((v, e)) => Some((JV::Num(v), e)),
                    None => None,
                }
            } else {
                None
            }
        }
    }
}

/// The members of an object from `i` on (`acc` read so far) up to its `}`.
pub open spec fn jmembers(s: Seq<char>, i: int, acc: Seq<(Seq<char>, JV)>) -> Option<(JV, int)>
    decreases s.len() - i, 3int,
{
    if !(0 <= i <= s.len()) {
        None
    } else {
        let a0 = skip_ws(s, i);
        if !(a0 < s.len() && s[a0] == '"') {
            None
        } else {
            match read_string(s, a0 + 1, Seq::empty()) {
                None => None,
                Some((key, a)) => {
                    let c = skip_ws(s, a);
                    if !(i <= c < s.len() && s[c] == ':') {
                        None
                    } else {
                        match jvalue(s, c + 1) {
                            None => None,
                            Some((v, e)) => {
                                let k = skip_ws(s, e);
                                if !(i <= k < s.len()) {
                                    None
                                } else if s[k] == ',' {
                                    jmembers(s, k + 1, acc.push((key, v)))
                                } else if s[k] == '}' {
                                    Some((JV::Obj(acc.push((key, v))), k + 1))
                                } else {
                                    None
                                }
                            },
                        }
                    }
                },
            }
        }
    }
}

/// The items of an array from `i` on (`acc` read so far) up to its `]`.
pub open spec fn jitems(s: Seq<char>, i: int, acc: Seq<JV>) -> Option<(JV, int)>
    decreases s.len() - i, 3int,
{
    if !(0 <= i <= s.len()) {
        None
    } else {
        match jvalue(s, i) {
            None => None,
            Some((v, e)) => {
                let k = skip_ws(s, e);
                if !(i <= k < s.len()) {
                    None
                } else if s[k] == ',' {
                    jitems(s, k + 1, acc.push(v))
                } else if s[k] == ']' {
                    Some((JV::Arr(acc.push(v)), k + 1))
                } else {
                    None
                }
            },
        }
    }
}

/// The index of the last member named `key`, or -1.
pub open spec fn last_key(f: Seq<(Seq<char>, JV)>, key: Seq<char>) -> int
    decreases f.len(),
{
    if f.len() == 0 {
        -1
    } else if f.last().0 == key {
        f.len() - 1
    } else {
        last_key(f.drop_last(), key)
    }
}

/// Every member named `key` holds an integer.
pub open spec fn all_num(f: Seq<(Seq<char>, JV)>, key: Seq<char>) -> bool {
    forall|t: int| 0 <= t < f.len() && #[trigger] f[t].0 == key ==> f[t].1 is Num
}

/// The members of a `Rational`: every `num` and `den` an integer, both present, and the
/// last of each a fraction `rat` accepts.
pub open spec fn rat_ok(f: Seq<(Seq<char>, JV)>) -> bool {
    let ni = last_key(f, "num"@);
    let di = last_key(f, "den"@);
    &&& all_num(f, "num"@)
    &&& all_num(f, "den"@)
    &&& 0 <= ni < f.len()
    &&& 0 <= di < f.len()
    &&& match (f[ni].1, f[di].1) {
        (JV::Num(n), JV::Num(d)) => arith::norm_ok(n, d),
        _ => false,
    }
}

/// The JSON value describes an expression in the fixed format: a one-member object whose
/// key names the kind and whose value holds what that kind needs.
pub open spec fn jbuild_ok(v: JV) -> bool
    decreases v,
{
    match v {
        JV::Obj(f) => if f.len() != 1 {
            false
        } else {
            let k = f[0].0;
            let w = f[0].1;
            if k == "Integer"@ {
                w is Num
            } else if k == "Rational"@ {
                match w {
                    JV::Obj(f2) => rat_ok(f2),
                    _ => false,
                }
            } else if k == "Symbol"@ {
                w is Str
            } else if k == "Function"@ {
                match w {
                    JV::Obj(f2) => {
                        let ni = last_key(f2, "name"@);
                        let ai = last_key(f2, "args"@);
                        &&& forall|t: int| 0 <= t < f2.len() && #[trigger] f2[t].0 == "name"@ ==> f2[t].1 is Str
                        &&& forall|t: int| 0 <= t < f2.len() && #[trigger] f2[t].0 == "args"@ ==> f2[t].1 is Arr
                        &&& 0 <= ni < f2.len()
                        &&& 0 <= ai < f2.len()
                        &&& match f2[ai].1 {
                            JV::Arr(items) => forall|t: int| 0 <= t < items.len() ==> jbuild_ok(#[trigger] items[t]),
                            _ => false,
                        }
                    },
                    _ => false,
                }
            } else if k == "Add"@ || k == "Mul"@ {
                match w {
                    JV::Arr(items) => forall|t: int| 0 <= t < items.len() ==> jbuild_ok(#[trigger] items[t]),
                    _ => false,
                }
            } else if k == "Pow"@ {
                match w {
                    JV::Obj(f2) => {
                        let bi = last_key(f2, "base"@);
                        let ei = last_key(f2, "exp"@);
                        0 <= bi < f2.len() && 0 <= ei < f2.len() && jbuild_ok(f2[bi].1) && jbuild_ok(f2[ei].1)
                    },
                    _ => false,
                }
            } else {
                false
            }
        },
        _ => false,
    }
}

/// The integer of a JSON number (0 for any other value).
pub open spec fn jint(v: JV) -> int {
    match v {
        JV::Num(x) => x,
        _ => 0,
    }
}

/// The text of a JSON string (empty for any other value).
pub open spec fn jtext(v: JV) -> Seq<char> {
    match v {
        JV::Str(x) => x,
        _ => Seq::empty(),
    }
}

/// The numerator and denominator of a `Rational`: the last `num` and `den` members.
pub open spec fn rat_parts(f: Seq<(Seq<char>, JV)>) -> (int, int) {
    (jint(f[last_key(f, "num"@)].1), jint(f[last_key(f, "den"@)].1))
}

/// `id` is a node of `nodes`.
pub open spec fn holds_id(nodes: Seq<Node>, id: ExprId) -> bool {
    id.0 < nodes.len()
}

/// Building the expression that `v` describes (`jbuild_ok`), from a store `old` that
/// became `new`, gave node `id`: numbers and symbols are interned, a function is applied
/// to its built arguments, a sum or product is the canonical one of its built terms, a
/// power is `pow` of its built base and exponent.
pub open spec fn jbuilt(v: JV, old: Seq<Node>, new: Seq<Node>, id: ExprId) -> bool
    decreases v,
{
    match v {
        JV::Obj(f) => if f.len() != 1 {
            false
        } else {
            let k = f[0].0;
            if k == "Integer"@ {
                expr_core::interned(old, new, id, Op::Integer, expr_core::int_key(jint(f[0].1)), Seq::empty())
            } else if k == "Rational"@ {
                match f[0].1 {
                    JV::Obj(f2) => expr_core::interned(
                        old,
                        new,
                        id,
                        expr_core::number_key(rat_parts(f2).0, rat_parts(f2).1).0,
                        expr_core::number_key(rat_parts(f2).0, rat_parts(f2).1).1,
                        Seq::empty(),
                    ),
                    _ => false,
                }
            } else if k == "Symbol"@ {
                expr_core::interned(old, new, id, Op::Symbol, (1, jtext(f[0].1), 0, 0), Seq::empty())
            } else if k == "Function"@ {
                match f[0].1 {
                    JV::Obj(f2) => {
                        let ai = last_key(f2, "args"@);
                        let name = jtext(f2[last_key(f2, "name"@)].1);
                        if 0 <= ai < f2.len() {
                            match f2[ai].1 {
                                JV::Arr(items) => exists|mid: Seq<Node>, ids: Seq<ExprId>|
                                    #![trigger expr_core::extends(old, mid), expr_core::valid_ids(mid, ids)]
                                    expr_core::extends(old, mid) && expr_core::valid_ids(mid, ids)
                                        && jitems_built(items, old, mid, ids)
                                        && expr_core::interned(mid, new, id, Op::Function, (4, name, 0, 0), ids),
                                _ => false,
                            }
                        } else {
                            false
                        }
                    },
                    _ => false,
                }
            } else if k == "Add"@ || k == "Mul"@ {
                match f[0].1 {
                    JV::Arr(items) => exists|mid: Seq<Node>, ids: Seq<ExprId>|
                        #![trigger expr_core::extends(old, mid), expr_core::valid_ids(mid, ids)]
                        expr_core::extends(old, mid) && expr_core::valid_ids(mid, ids)
                            && jitems_built(items, old, mid, ids) && if k == "Add"@ {
                            expr_core::add_flatten(mid, ids).1 is Some && expr_core::sum_result(mid, new, ids, id)
                        } else {
                            expr_core::mul_flatten(mid, ids).1 is Some && expr_core::product_result(mid, new, ids, id)
                        },
                    _ => false,
                }
            } else if k == "Pow"@ {
                match f[0].1 {
                    JV::Obj(f2) => {
                        let bi = last_key(f2, "base"@);
                        let ei = last_key(f2, "exp"@);
                        if 0 <= bi < f2.len() && 0 <= ei < f2.len() {
                            exists|m1: Seq<Node>, b: ExprId, m2: Seq<Node>, e: ExprId|
                                #![trigger expr_core::extends(old, m1), holds_id(m1, b), expr_core::extends(m1, m2), holds_id(m2, e)]
                                expr_core::extends(old, m1) && holds_id(m1, b) && expr_core::extends(m1, m2)
                                    && holds_id(m2, e) && jbuilt(f2[bi].1, old, m1, b) && jbuilt(f2[ei].1, m1, m2, e)
                                    && expr_core::pow_result(m2, new, b, e, id)
                        } else {
                            false
                        }
                    },
                    _ => false,
                }
            } else {
                false
            }
        },
        _ => false,
    }
}

/// Building `items` one after the other, from a store `old` that became `new`, gave
/// the nodes `ids`.
pub open spec fn jitems_built(items: Seq<JV>, old: Seq<Node>, new: Seq<Node>, ids: Seq<ExprId>) -> bool
    decreases items,
{
    if items.len() == 0 {
        new == old && ids.len() == 0
    } else {
        &&& ids.len() == items.len()
        &&& exists|mid: Seq<Node>|
            #[trigger] expr_core::extends(old, mid) && jitems_built(items.drop_last(), old, mid, ids.drop_last())
                && jbuilt(items.last(), mid, new, ids.last())
    }
}

/// No sum or product met in building `v` from store `old` overflows: for every way the
/// parts before it were built, the numbers of each sum or product stay in range.
pub open spec fn jfits(v: JV, old: Seq<Node>) -> bool
    decreases v,
{
    match v {
        JV::Obj(f) => if f.len() != 1 {
            true
        } else {
            let k = f[0].0;
            if k == "Add"@ || k == "Mul"@ {
                match f[0].1 {
                    JV::Arr(items) => jitems_fit(items, old) && forall|mid: Seq<Node>, ids: Seq<ExprId>|
                        #[trigger] jitems_built(items, old, mid, ids) ==> if k == "Add"@ {
                            expr_core::add_flatten(mid, ids).1 is Some
                        } else {
                            expr_core::mul_flatten(mid, ids).1 is Some
                        },
                    _ => true,
                }
            } else if k == "Function"@ {
                match f[0].1 {
                    JV::Obj(f2) => {
                        let ai = last_key(f2, "args"@);
                        if 0 <= ai < f2.len() {
                            match f2[ai].1 {
                                JV::Arr(items) => jitems_fit(items, old),
                                _ => true,
                            }
                        } else {
                            true
                        }
                    },
                    _ => true,
                }
            } else if k == "Pow"@ {
                match f[0].1 {
                    JV::Obj(f2) => {
                        let bi = last_key(f2, "base"@);
                        let ei = last_key(f2, "exp"@);
                        if 0 <= bi < f2.len() && 0 <= ei < f2.len() {
                            jfits(f2[bi].1, old) && forall|m1: Seq<Node>, b: ExprId|
                                #[trigger] jbuilt(f2[bi].1, old, m1, b) ==> jfits(f2[ei].1, m1)
                        } else {
                            true
                        }
                    },
                    _ => true,
                }
            } else {
                true
            }
        },
        _ => true,
    }
}

/// No sum or product met in building `items` one after the other from store `old`
/// overflows.
pub open spec fn jitems_fit(items: Seq<JV>, old: Seq<Node>) -> bool
    decreases items,
{
    if items.len() == 0 {
        true
    } else {
        &&& jitems_fit(items.drop_last(), old)
        &&& forall|mid: Seq<Node>, ids: Seq<ExprId>|
            #[trigger] jitems_built(items.drop_last(), old, mid, ids) ==> jfits(items.last(), mid)
    }
}

/// `s` is the JSON text of an expression: its leading value parses and describes one
/// (what follows that value is not read).
pub open spec fn jaccepts(s: Seq<char>) -> bool {
    match jvalue(s, 0) {
        Some((v, _)) => jbuild_ok(v),
        None => false,
    }
}

/// The meanings of the members of an object.
pub open spec fn fields_view(v: Seq<(String, J)>) -> Seq<(Seq<char>, JV)> {
    Seq::new(v.len(), |k: int| (v[k].0@, jview(v[k].1)))
}

/// The meanings of the items of an array.
pub open spec fn items_view(v: Seq<J>) -> Seq<JV> {
    Seq::new(v.len(), |k: int| jview(v[k]))
}

/// An object or array means the object or array of its parts' meanings.
proof fn lemma_jview_compound(j: J)
    ensures
        j matches J::Obj(f) ==> jview(j) == JV::Obj(fields_view(f@)),
        j matches J::Arr(a) ==> jview(j) == JV::Arr(items_view(a@)),
{
    match j {
        J::Obj(f) => {
            if let JV::Obj(x) = jview(j) {
                assert(x =~= fields_view(f@));
            }
        },
        J::Arr(a) => {
            if let JV::Arr(x) = jview(j) {
                assert(x =~= items_view(a@));
            }
        },
        _ => {},
    }
}

/// The end of the run of digits from `i`.
fn digit_end(s: &str, n: usize, i: usize) -> (e: usize)
    requires
        n == s@.len(),
        i <= n,
    ensures
        e == digit_run(s@, i as int),
        i <= e <= n,
{
    let mut e = i;
    while e < n
        invariant
            n == s@.len(),
            i <= e <= n,
            digit_run(s@, e as int) == digit_run(s@, i as int),
        decreases n - e,
    {
        let c = s.get_char(e);
        if !('0' <= c && c <= '9') {
            return e;
        }
        e = e + 1;
    }
    e
}

/// The JSON integer at `j` (`jnum`).
fn parse_num(s: &str, n: usize, j: usize) -> (r: Option<(i64, usize)>)
    requires
        n == s@.len(),
        j < n,
    ensures
        match (jnum(s@, j as int), r) {
            (None, None) => true,
            (Some((v, e)), Some((x, e2))) => v == x as int && e == e2 as int && j < e2 <= n,
            _ => false,
        },
{
    let k = if s.get_char(j) == '-' { j + 1 } else { j };
    let e = digit_end(s, n, k);
    if e <= k {
        return None;
    }
    match sexpr::parse_int_token(s, j, e) {
        Some(v) => Some((v, e)),
        None => None,
    }
}

/// What parsing a JSON value from `i` may give (`jvalue`).
pub open spec fn value_outcome(expected: Option<(JV, int)>, r: Result<(J, usize), String>, i: int, n: int) -> bool {
    match (expected, r) {
        (None, Err(_)) => true,
        (Some((v, e)), Ok((j, e2))) => jview(j) == v && e == e2 as int && i < e2 <= n,
        _ => false,
    }
}

/// The JSON value at `i` and its end.
fn parse_value(s: &str, n: usize, i: usize) -> (r: Result<(J, usize), String>)
    requires
        n == s@.len(),
        i <= n,
    ensures
        value_outcome(jvalue(s@, i as int), r, i as int, n as int),
    decreases n - i, 2int,
{
    let j = sexpr::skip_spaces(s, n, i);
    if j >= n {
        return Err(String::from_str("unexpected token"));
    }
    let c = s.get_char(j);
    if c == '{' {
        let k = sexpr::skip_spaces(s, n, j + 1);
        if k < n && s.get_char(k) == '}' {
            let o = J::Obj(Vec::new());
            proof {
                lemma_jview_compound(o);
                assert(fields_view(Seq::<(String, J)>::empty()) =~= Seq::empty());
            }
            return Ok((o, k + 1));
        }
        parse_members(s, n, j + 1)
    } else if c == '[' {
        let k = sexpr::skip_spaces(s, n, j + 1);
        if k < n && s.get_char(k) == ']' {
            let o = J::Arr(Vec::new());
            proof {
                lemma_jview_compound(o);
                assert(items_view(Seq::<J>::empty()) =~= Seq::empty());
            }
            return Ok((o, k + 1));
        }
        parse_items(s, n, j + 1)
    } else if c == '"' {
        match sexpr::read_quoted(s, n, j + 1) {
            Some((t, e)) => Ok((J::Str(t), e)),
            None => Err(String::from_str("unterminated string")),
        }
    } else if c == '-' || ('0' <= c && c <= '9') {
        match parse_num(s, n, j) {
            Some((v, e)) => Ok((J::Num(v), e)),
            None => Err(String::from_str("invalid integer")),
        }
    } else {
        Err(String::from_str("unexpected token"))
    }
}

/// The members of an object from `i0` on, up to its `}`.
fn parse_members(s: &str, n: usize, i0: usize) -> (r: Result<(J, usize), String>)
    requires
        n == s@.len(),
        i0 <= n,
    ensures
        value_outcome(jmembers(s@, i0 as int, Seq::empty()), r, i0 as int, n as int),
    decreases n - i0, 3int,
{
    let mut acc: Vec<(String, J)> = Vec::new();
    let mut i = i0;
    proof {
        assert(fields_view(acc@) =~= Seq::empty());
    }
    loop
        invariant
            n == s@.len(),
            i0 <= i <= n,
            jmembers(s@, i0 as int, Seq::empty()) == jmembers(s@, i as int, fields_view(acc@)),
        decreases n - i,
    {
        let a0 = sexpr::skip_spaces(s, n, i);
        if !(a0 < n && s.get_char(a0) == '"') {
            return Err(String::from_str("expected string"));
        }
        let (key, a) = match sexpr::read_quoted(s, n, a0 + 1) {
            Some(p) => p,
            None => {
                return Err(String::from_str("unterminated string"));
            },
        };
        let c = sexpr::skip_spaces(s, n, a);
        if !(i <= c && c < n && s.get_char(c) == ':') {
            return Err(String::from_str("expected ':'"));
        }
        let (v, e) = match parse_value(s, n, c + 1) {
            Ok(p) => p,
            Err(m) => {
                return Err(m);
            },
        };
        let k = sexpr::skip_spaces(s, n, e);
        if !(i <= k && k < n) {
            return Err(String::from_str("expected ',' or '}'"));
        }
        let ch = s.get_char(k);
        let ghost before = acc@;
        let ghost kv = (key@, jview(v));
        acc.push((key, v));
        proof {
            assert(fields_view(acc@) =~= fields_view(before).push(kv));
        }
        if ch == ',' {
            i = k + 1;
        } else if ch == '}' {
            let o = J::Obj(acc);
            proof {
                lemma_jview_compound(o);
            }
            return Ok((o, k + 1));
        } else {
            return Err(String::from_str("expected ',' or '}'"));
        }
    }
}

/// The items of an array from `i0` on, up to its `]`.
fn parse_items(s: &str, n: usize, i0: usize) -> (r: Result<(J, usize), String>)
    requires
        n == s@.len(),
        i0 <= n,
    ensures
        value_outcome(jitems(s@, i0 as int, Seq::empty()), r, i0 as int, n as int),
    decreases n - i0, 3int,
{
    let mut acc: Vec<J> = Vec::new();
    let mut i = i0;
    proof {
        assert(items_view(acc@) =~= Seq::empty());
    }
    loop
        invariant
            n == s@.len(),
            i0 <= i <= n,
            jitems(s@, i0 as int, Seq::empty()) == jitems(s@, i as int, items_view(acc@)),
        decreases n - i,
    {
        let (v, e) = match parse_value(s, n, i) {
            Ok(p) => p,
            Err(m) => {
                return Err(m);
            },
        };
        let k = sexpr::skip_spaces(s, n, e);
        if !(i <= k && k < n) {
            return Err(String::from_str("expected ',' or ']'"));
        }
        let ch = s.get_char(k);
        let ghost before = acc@;
        let ghost jv = jview(v);
        acc.push(v);
        proof {
            assert(items_view(acc@) =~= items_view(before).push(jv));
        }
        if ch == ',' {
            i = k + 1;
        } else if ch == ']' {
            let o = J::Arr(acc);
            proof {
                lemma_jview_compound(o);
            }
            return Ok((o, k + 1));
        } else {
            return Err(String::from_str("expected ',' or ']'"));
        }
    }
}

/// `last_key` over a growing prefix, and its range.
proof fn lemma_last_key(f: Seq<(Seq<char>, JV)>, key: Seq<char>, t: int)
    requires
        0 <= t < f.len(),
    ensures
        last_key(f.take(t + 1), key) == (if f[t].0 == key { t } else { last_key(f.take(t), key) }),
{
    assert(f.take(t + 1).drop_last() =~= f.take(t));
}

/// `last_key` names a member with that key, or is -1.
proof fn lemma_last_key_range(f: Seq<(Seq<char>, JV)>, key: Seq<char>)
    ensures
        -1 <= last_key(f, key) < f.len(),
        last_key(f, key) >= 0 ==> f[last_key(f, key)].0 == key,
    decreases f.len(),
{
    if f.len() > 0 && f.last().0 != key {
        lemma_last_key_range(f.drop_last(), key);
    }
}

/// `o` is the integer held by the last member named `key` among the first `t`, or
/// `None` when there is none.
pub open spec fn tracked_num(fv: Seq<(Seq<char>, JV)>, t: int, key: Seq<char>, o: Option<i64>) -> bool {
    let idx = last_key(fv.take(t), key);
    match o {
        Some(x) => 0 <= idx < t && fv[idx].1 == JV::Num(x as int),
        None => idx == -1,
    }
}

/// The members of a `Rational`, built (`rat_ok`).
fn build_rational(st: &mut Store, f2: &Vec<(String, J)>) -> (r: Result<ExprId, String>)
    requires
        old(st).wf(),
    ensures
        final(st).wf(),
        expr_core::extends(old(st).nodes(), final(st).nodes()),
        r matches Ok(id) ==> rat_ok(fields_view(f2@)) && expr_core::interned(
            old(st).nodes(),
            final(st).nodes(),
            id,
            expr_core::number_key(rat_parts(fields_view(f2@)).0, rat_parts(fields_view(f2@)).1).0,
            expr_core::number_key(rat_parts(fields_view(f2@)).0, rat_parts(fields_view(f2@)).1).1,
            Seq::empty(),
        ),
        r is Err ==> !rat_ok(fields_view(f2@)),
{
    let ghost fv = fields_view(f2@);
    let mut nv: Option<i64> = None;
    let mut dv: Option<i64> = None;
    let mut t: usize = 0;
    let ghost nodes0 = st.nodes();
    proof {
        assert(fv.take(0) =~= Seq::empty());
    }
    while t < f2.len()
        invariant
            st.wf(),
            nodes0 == old(st).nodes(),
            st.nodes() == nodes0,
            fv == fields_view(f2@),
            t <= f2@.len(),
            all_num(fv.take(t as int), "num"@),
            all_num(fv.take(t as int), "den"@),
            tracked_num(fv, t as int, "num"@, nv),
            tracked_num(fv, t as int, "den"@, dv),
        decreases f2@.len() - t,
    {
        let (kk, vv) = &f2[t];
        proof {
            reveal_strlit("num");
            reveal_strlit("den");
            assert("num"@ =~= seq!['n', 'u', 'm']);
            assert("den"@ =~= seq!['d', 'e', 'n']);
            lemma_last_key(fv, "num"@, t as int);
            lemma_last_key(fv, "den"@, t as int);
            assert(fv[t as int] == (kk@, jview(*vv)));
        }
        if text::string_is(kk, "num") {
            match vv {
                J::Num(x) => {
                    nv = Some(*x);
                },
                _ => {
                    proof {
                        assert(fv.take(f2@.len() as int)[t as int] == fv[t as int]);
                        assert(fv.take(f2@.len() as int) =~= fv);
                    }
                    return Err(String::from_str("num must be number"));
                },
            }
        } else if text::string_is(kk, "den") {
            match vv {
                J::Num(x) => {
                    dv = Some(*x);
                },
                _ => {
                    proof {
                        assert(fv.take(f2@.len() as int) =~= fv);
                    }
                    return Err(String::from_str("den must be number"));
                },
            }
        }
        proof {
            assert forall|q: int| 0 <= q < t + 1 && #[trigger] fv.take(t as int + 1)[q].0 == "num"@ implies fv.take(t as int + 1)[q].1 is Num by {
                if q < t {
                    assert(fv.take(t as int + 1)[q] == fv.take(t as int)[q]);
                }
            }
            assert forall|q: int| 0 <= q < t + 1 && #[trigger] fv.take(t as int + 1)[q].0 == "den"@ implies fv.take(t as int + 1)[q].1 is Num by {
                if q < t {
                    assert(fv.take(t as int + 1)[q] == fv.take(t as int)[q]);
                }
            }
        }
        t = t + 1;
    }
    proof {
        assert(fv.take(f2@.len() as int) =~= fv);
    }
    match (nv, dv) {
        (Some(a), Some(b)) => {
            if b == 0 || a == i64::MIN || b == i64::MIN {
                return Err(String::from_str("invalid rational"));
            }
            Ok(st.rat(a, b))
        },
        _ => Err(String::from_str("missing num or den")),
    }
}

/// `o` is the index of the last member named `key` among the first `t`, or `None` when
/// there is none.
pub open spec fn tracked_idx(fv: Seq<(Seq<char>, JV)>, t: int, key: Seq<char>, o: Option<usize>) -> bool {
    match o {
        Some(x) => last_key(fv.take(t), key) == x,
        None => last_key(fv.take(t), key) == -1,
    }
}

/// Among the first `t` members, every one named `key` satisfies `p`.
pub open spec fn members_are(fv: Seq<(Seq<char>, JV)>, t: int, key: Seq<char>, want_str: bool) -> bool {
    forall|q: int| 0 <= q < t && #[trigger] fv[q].0 == key ==> (if want_str { fv[q].1 is Str } else { fv[q].1 is Arr })
}

/// The positions of the last `name` and `args` members of a `Function`, every `name`
/// being a string and every `args` an array; an error otherwise.
fn scan_function(f2: &Vec<(String, J)>) -> (r: Result<(usize, usize), String>)
    ensures
        r matches Ok((ni, ai)) ==> ({
            let fv = fields_view(f2@);
            &&& members_are(fv, fv.len() as int, "name"@, true)
            &&& members_are(fv, fv.len() as int, "args"@, false)
            &&& last_key(fv, "name"@) == ni && ni < fv.len()
            &&& last_key(fv, "args"@) == ai && ai < fv.len()
        }),
        r is Err ==> ({
            let fv = fields_view(f2@);
            !(members_are(fv, fv.len() as int, "name"@, true) && members_are(fv, fv.len() as int, "args"@, false)
                && 0 <= last_key(fv, "name"@) && 0 <= last_key(fv, "args"@))
        }),
{
    let ghost fv = fields_view(f2@);
    let mut ni: Option<usize> = None;
    let mut ai: Option<usize> = None;
    let mut t: usize = 0;
    proof {
        assert(fv.take(0) =~= Seq::empty());
    }
    while t < f2.len()
        invariant
            fv == fields_view(f2@),
            t <= f2@.len(),
            members_are(fv, t as int, "name"@, true),
            members_are(fv, t as int, "args"@, false),
            tracked_idx(fv, t as int, "name"@, ni),
            tracked_idx(fv, t as int, "args"@, ai),
        decreases f2@.len() - t,
    {
        let (kk, vv) = &f2[t];
        proof {
            reveal_strlit("name");
            reveal_strlit("args");
            assert("name"@ =~= seq!['n', 'a', 'm', 'e']);
            assert("args"@ =~= seq!['a', 'r', 'g', 's']);
            lemma_last_key(fv, "name"@, t as int);
            lemma_last_key(fv, "args"@, t as int);
            assert(fv[t as int] == (kk@, jview(*vv)));
        }
        if text::string_is(kk, "name") {
            match vv {
                J::Str(_) => {
                    ni = Some(t);
                },
                _ => {
                    return Err(String::from_str("name must be string"));
                },
            }
        } else if text::string_is(kk, "args") {
            match vv {
                J::Arr(_) => {
                    ai = Some(t);
                },
                _ => {
                    return Err(String::from_str("args must be array"));
                },
            }
        }
        t = t + 1;
    }
    proof {
        assert(fv.take(f2@.len() as int) =~= fv);
        lemma_last_key_range(fv, "name"@);
        lemma_last_key_range(fv, "args"@);
    }
    match (ni, ai) {
        (Some(n), Some(a)) => Ok((n, a)),
        (None, _) => Err(String::from_str("missing name")),
        _ => Err(String::from_str("missing args")),
    }
}

/// The positions of the last `base` and `exp` members of a `Pow`.
fn scan_pow(f2: &Vec<(String, J)>) -> (r: Option<(usize, usize)>)
    ensures
        match r {
            Some((bi, ei)) => last_key(fields_view(f2@), "base"@) == bi && last_key(fields_view(f2@), "exp"@) == ei
                && bi < f2@.len() && ei < f2@.len(),
            None => last_key(fields_view(f2@), "base"@) < 0 || last_key(fields_view(f2@), "exp"@) < 0,
        },
{
    let ghost fv = fields_view(f2@);
    let mut bi: Option<usize> = None;
    let mut ei: Option<usize> = None;
    let mut t: usize = 0;
    proof {
        assert(fv.take(0) =~= Seq::empty());
    }
    while t < f2.len()
        invariant
            fv == fields_view(f2@),
            t <= f2@.len(),
            tracked_idx(fv, t as int, "base"@, bi),
            tracked_idx(fv, t as int, "exp"@, ei),
        decreases f2@.len() - t,
    {
        let (kk, _) = &f2[t];
        proof {
            reveal_strlit("base");
            reveal_strlit("exp");
            assert("base"@ =~= seq!['b', 'a', 's', 'e']);
            assert("exp"@ =~= seq!['e', 'x', 'p']);
            lemma_last_key(fv, "base"@, t as int);
            lemma_last_key(fv, "exp"@, t as int);
            assert(fv[t as int].0 == kk@);
        }
        if text::string_is(kk, "base") {
            bi = Some(t);
        } else if text::string_is(kk, "exp") {
            ei = Some(t);
        }
        t = t + 1;
    }
    proof {
        assert(fv.take(f2@.len() as int) =~= fv);
        lemma_last_key_range(fv, "base"@);
        lemma_last_key_range(fv, "exp"@);
    }
    match (bi, ei) {
        (Some(b), Some(e)) => Some((b, e)),
        _ => None,
    }
}

/// What fits for a list of items fits for each of its prefixes.
proof fn lemma_jitems_fit_prefix(items: Seq<JV>, old: Seq<Node>, k: int)
    requires
        jitems_fit(items, old),
        0 <= k <= items.len(),
    ensures
        jitems_fit(items.take(k), old),
    decreases items.len(),
{
    if k == items.len() {
        assert(items.take(k) =~= items);
    } else {
        assert(items.drop_last().take(k) =~= items.take(k));
        lemma_jitems_fit_prefix(items.drop_last(), old, k);
    }
}

/// The expressions of `items`, in order.
fn build_items(st: &mut Store, items: &Vec<J>) -> (r: Result<Vec<ExprId>, String>)
    requires
        old(st).wf(),
    ensures
        final(st).wf(),
        expr_core::extends(old(st).nodes(), final(st).nodes()),
        r matches Ok(ids) ==> (forall|q: int| 0 <= q < items@.len() ==> jbuild_ok(#[trigger] items_view(items@)[q]))
            && expr_core::valid_ids(final(st).nodes(), ids@)
            && jitems_built(items_view(items@), old(st).nodes(), final(st).nodes(), ids@),
        r is Err ==> !(forall|q: int| 0 <= q < items@.len() ==> jbuild_ok(#[trigger] items_view(items@)[q]))
            || !jitems_fit(items_view(items@), old(st).nodes()),
    decreases *items, 2int,
{
    let ghost nodes0 = st.nodes();
    let mut ids: Vec<ExprId> = Vec::new();
    let mut t: usize = 0;
    proof {
        assert(items_view(items@).take(0) =~= Seq::<JV>::empty());
    }
    while t < items.len()
        invariant
            st.wf(),
            nodes0 == old(st).nodes(),
            expr_core::extends(nodes0, st.nodes()),
            expr_core::valid_ids(st.nodes(), ids@),
            t <= items@.len(),
            forall|q: int| 0 <= q < t ==> jbuild_ok(#[trigger] items_view(items@)[q]),
            jitems_built(items_view(items@).take(t as int), nodes0, st.nodes(), ids@),
        decreases items@.len() - t,
    {
        let ghost before = st.nodes();
        let ghost iv = items_view(items@);
        let ghost ids0 = ids@;
        assert(decreases_to!(*items => items@[t as int]));
        assert(iv[t as int] == jview(items@[t as int]));
        match build(st, &items[t]) {
            Ok(id) => {
                proof {
                    expr_core::lemma_extends_trans(nodes0, before, st.nodes());
                }
                ids.push(id);
                proof {
                    let s1 = iv.take(t as int + 1);
                    assert(s1.drop_last() =~= iv.take(t as int));
                    assert(ids@.drop_last() =~= ids0);
                    assert(s1.last() == iv[t as int]);
                    assert(jitems_built(s1.drop_last(), nodes0, before, ids@.drop_last()));
                    assert(jbuilt(s1.last(), before, st.nodes(), ids@.last()));
                    assert(expr_core::extends(nodes0, before));
                    assert(jitems_built(s1, nodes0, st.nodes(), ids@));
                }
            },
            Err(e) => {
                proof {
                    expr_core::lemma_extends_trans(nodes0, before, st.nodes());
                    if jitems_fit(iv, nodes0) {
                        lemma_jitems_fit_prefix(iv, nodes0, t as int + 1);
                        let s1 = iv.take(t as int + 1);
                        assert(s1.drop_last() =~= iv.take(t as int));
                        assert(jitems_built(s1.drop_last(), nodes0, before, ids0));
                        assert(jfits(s1.last(), before));
                    }
                }
                return Err(e);
            },
        }
        t = t + 1;
    }
    proof {
        assert(items_view(items@).take(items@.len() as int) =~= items_view(items@));
    }
    Ok(ids)
}

/// The expression a parsed JSON value describes (`jbuilt`, when `jbuild_ok`); an error
/// when it describes none, and when a sum or product of numbers would overflow
/// (`jfits`).
fn build(st: &mut Store, v: &J) -> (r: Result<ExprId, String>)
    requires
        old(st).wf(),
    ensures
        final(st).wf(),
        expr_core::extends(old(st).nodes(), final(st).nodes()),
        r matches Ok(id) ==> jbuild_ok(jview(*v)) && id.0 < final(st).nodes().len() && jbuilt(
            jview(*v),
            old(st).nodes(),
            final(st).nodes(),
            id,
        ),
        r is Err ==> !jbuild_ok(jview(*v)) || !jfits(jview(*v), old(st).nodes()),
    decreases *v, 1int,
{
    let ghost nodes0 = st.nodes();
    let fields = match v {
        J::Obj(f) => f,
        _ => {
            return Err(String::from_str("expected object"));
        },
    };
    if fields.len() != 1 {
        return Err(String::from_str("expected single-key object"));
    }
    let (k, w) = &fields[0];
    let ghost jv = jview(*v);
    let ghost fv = fields_view(fields@);
    proof {
        reveal_strlit("Integer");
        reveal_strlit("Rational");
        reveal_strlit("Symbol");
        reveal_strlit("Function");
        reveal_strlit("Add");
        reveal_strlit("Mul");
        reveal_strlit("Pow");
        assert("Integer"@ =~= seq!['I', 'n', 't', 'e', 'g', 'e', 'r']);
        assert("Rational"@ =~= seq!['R', 'a', 't', 'i', 'o', 'n', 'a', 'l']);
        assert("Symbol"@ =~= seq!['S', 'y', 'm', 'b', 'o', 'l']);
        assert("Function"@ =~= seq!['F', 'u', 'n', 'c', 't', 'i', 'o', 'n']);
        assert("Add"@ =~= seq!['A', 'd', 'd']);
        assert("Mul"@ =~= seq!['M', 'u', 'l']);
        assert("Pow"@ =~= seq!['P', 'o', 'w']);
        assert("Add"@[0] != "Mul"@[0] && "Add"@[0] != "Pow"@[0] && "Mul"@[0] != "Pow"@[0]);
        lemma_jview_compound(*v);
        lemma_jview_compound(*w);
        assert(fields_view(fields@)[0] == (k@, jview(*w)));
        assert(jv == JV::Obj(fv) && fv.len() == 1 && fv[0].0 == k@ && fv[0].1 == jview(*w));
    }
    if text::string_is(k, "Integer") {
        match w {
            J::Num(x) => Ok(st.integer(*x)),
            _ => Err(String::from_str("Integer expects number")),
        }
    } else if text::string_is(k, "Rational") {
        match w {
            J::Obj(f2) => build_rational(st, f2),
            _ => Err(String::from_str("Rational expects object")),
        }
    } else if text::string_is(k, "Symbol") {
        match w {
            J::Str(x) => Ok(st.sym(x.as_str())),
            _ => Err(String::from_str("Symbol expects string")),
        }
    } else if text::string_is(k, "Function") {
        build_function(st, v)
    } else if text::string_is(k, "Add") {
        build_combination(st, v, true)
    } else if text::string_is(k, "Mul") {
        build_combination(st, v, false)
    } else if text::string_is(k, "Pow") {
        build_pow(st, v)
    } else {
        Err(String::from_str("unknown head"))
    }
}

/// The application that a `Function` value describes.
fn build_function(st: &mut Store, v: &J) -> (r: Result<ExprId, String>)
    requires
        old(st).wf(),
        *v matches J::Obj(f) && f@.len() == 1 && f@[0].0@ == "Function"@,
    ensures
        final(st).wf(),
        expr_core::extends(old(st).nodes(), final(st).nodes()),
        r matches Ok(id) ==> jbuild_ok(jview(*v)) && id.0 < final(st).nodes().len() && jbuilt(
            jview(*v),
            old(st).nodes(),
            final(st).nodes(),
            id,
        ),
        r is Err ==> !jbuild_ok(jview(*v)) || !jfits(jview(*v), old(st).nodes()),
    decreases *v, 0int,
{
    let ghost nodes0 = st.nodes();
    let fields = match v {
        J::Obj(f) => f,
        _ => {
            return Err(String::from_str("expected object"));
        },
    };
    if fields.len() != 1 {
        return Err(String::from_str("expected single-key object"));
    }
    let (k, w) = &fields[0];
    let ghost jv = jview(*v);
    let ghost fv = fields_view(fields@);
    proof {
        reveal_strlit("Integer");
        reveal_strlit("Rational");
        reveal_strlit("Symbol");
        reveal_strlit("Function");
        reveal_strlit("Add");
        reveal_strlit("Mul");
        reveal_strlit("Pow");
        assert("Integer"@ =~= seq!['I', 'n', 't', 'e', 'g', 'e', 'r']);
        assert("Rational"@ =~= seq!['R', 'a', 't', 'i', 'o', 'n', 'a', 'l']);
        assert("Symbol"@ =~= seq!['S', 'y', 'm', 'b', 'o', 'l']);
        assert("Function"@ =~= seq!['F', 'u', 'n', 'c', 't', 'i', 'o', 'n']);
        assert("Add"@ =~= seq!['A', 'd', 'd']);
        assert("Mul"@ =~= seq!['M', 'u', 'l']);
        assert("Pow"@ =~= seq!['P', 'o', 'w']);
        assert("Add"@[0] != "Mul"@[0] && "Add"@[0] != "Pow"@[0] && "Mul"@[0] != "Pow"@[0]);
        lemma_jview_compound(*v);
        lemma_jview_compound(*w);
        assert(fields_view(fields@)[0] == (k@, jview(*w)));
        assert(jv == JV::Obj(fv) && fv.len() == 1 && fv[0].0 == k@ && fv[0].1 == jview(*w));
    }
    match w {
        J::Obj(f2) => {
            let (ni, ai) = match scan_function(f2) {
                Ok(p) => p,
                Err(e) => {
                    return Err(e);
                },
            };
            proof {
                reveal_strlit("name");
                reveal_strlit("args");
                assert("name"@ =~= seq!['n', 'a', 'm', 'e']);
                assert("args"@ =~= seq!['a', 'r', 'g', 's']);
                assert(fields_view(f2@)[ni as int] == (f2@[ni as int].0@, jview(f2@[ni as int].1)));
                assert(fields_view(f2@)[ai as int] == (f2@[ai as int].0@, jview(f2@[ai as int].1)));
                lemma_jview_compound(f2@[ai as int].1);
                lemma_last_key_range(fields_view(f2@), "name"@);
                lemma_last_key_range(fields_view(f2@), "args"@);
                assert(jview(*w) == JV::Obj(fields_view(f2@)));
            }
            let name = match &f2[ni].1 {
                J::Str(x) => x,
                _ => {
                    return Err(String::from_str("name must be string"));
                },
            };
            let items = match &f2[ai].1 {
                J::Arr(a) => a,
                _ => {
                    return Err(String::from_str("args must be array"));
                },
            };
            assert(decreases_to!(*v => *items));
            let ghost f2v = fields_view(f2@);
            proof {
                assert(f2v[ai as int].1 == JV::Arr(items_view(items@)));
                assert(f2v[ni as int].1 == JV::Str(name@));
            }
            let ids = match build_items(st, items) {
                Ok(ids) => ids,
                Err(e) => {
                    return Err(e);
                },
            };
            let ghost mid = st.nodes();
            let id = st.func(name.as_str(), ids);
            proof {
                expr_core::lemma_extends_trans(nodes0, mid, st.nodes());
                assert(expr_core::extends(nodes0, mid) && expr_core::valid_ids(mid, ids@));
                assert(fv[0].0 == "Function"@);
                assert(fv[0].1 == JV::Obj(f2v));
                assert(jbuild_ok(jv));
                assert(jbuilt(jv, nodes0, st.nodes(), id));
            }
            Ok(id)
        },
        _ => Err(String::from_str("Function expects object")),
    }
}

/// The sum (`is_add`) or product that an `Add` or `Mul` value describes.
fn build_combination(st: &mut Store, v: &J, is_add: bool) -> (r: Result<ExprId, String>)
    requires
        old(st).wf(),
        *v matches J::Obj(f) && f@.len() == 1 && f@[0].0@ == (if is_add { "Add"@ } else { "Mul"@ }),
    ensures
        final(st).wf(),
        expr_core::extends(old(st).nodes(), final(st).nodes()),
        r matches Ok(id) ==> jbuild_ok(jview(*v)) && id.0 < final(st).nodes().len() && jbuilt(
            jview(*v),
            old(st).nodes(),
            final(st).nodes(),
            id,
        ),
        r is Err ==> !jbuild_ok(jview(*v)) || !jfits(jview(*v), old(st).nodes()),
    decreases *v, 0int,
{
    let ghost nodes0 = st.nodes();
    let fields = match v {
        J::Obj(f) => f,
        _ => {
            return Err(String::from_str("expected object"));
        },
    };
    if fields.len() != 1 {
        return Err(String::from_str("expected single-key object"));
    }
    let (k, w) = &fields[0];
    let ghost jv = jview(*v);
    let ghost fv = fields_view(fields@);
    proof {
        reveal_strlit("Integer");
        reveal_strlit("Rational");
        reveal_strlit("Symbol");
        reveal_strlit("Function");
        reveal_strlit("Add");
        reveal_strlit("Mul");
        reveal_strlit("Pow");
        assert("Integer"@ =~= seq!['I', 'n', 't', 'e', 'g', 'e', 'r']);
        assert("Rational"@ =~= seq!['R', 'a', 't', 'i', 'o', 'n', 'a', 'l']);
        assert("Symbol"@ =~= seq!['S', 'y', 'm', 'b', 'o', 'l']);
        assert("Function"@ =~= seq!['F', 'u', 'n', 'c', 't', 'i', 'o', 'n']);
        assert("Add"@ =~= seq!['A', 'd', 'd']);
        assert("Mul"@ =~= seq!['M', 'u', 'l']);
        assert("Pow"@ =~= seq!['P', 'o', 'w']);
        assert("Add"@[0] != "Mul"@[0] && "Add"@[0] != "Pow"@[0] && "Mul"@[0] != "Pow"@[0]);
        lemma_jview_compound(*v);
        lemma_jview_compound(*w);
        assert(fields_view(fields@)[0] == (k@, jview(*w)));
        assert(jv == JV::Obj(fv) && fv.len() == 1 && fv[0].0 == k@ && fv[0].1 == jview(*w));
    }
    match w {
        J::Arr(items) => {
            assert(decreases_to!(*v => *items));
            proof {
                assert(jview(*w) == JV::Arr(items_view(items@)));
            }
            let ids = match build_items(st, items) {
                Ok(ids) => ids,
                Err(e) => {
                    return Err(e);
                },
            };
            let ghost mid = st.nodes();
            proof {
                assert(expr_core::extends(nodes0, mid) && expr_core::valid_ids(mid, ids@));
            }
            if is_add {
                if !st.sum_fits(&ids) {
                    return Err(String::from_str("sum out of range"));
                }
                let id = st.add(ids);
                proof {
                    expr_core::lemma_extends_trans(nodes0, mid, st.nodes());
                }
                Ok(id)
            } else {
                if !st.product_fits(&ids) {
                    return Err(String::from_str("product out of range"));
                }
                let id = st.mul(ids);
                proof {
                    expr_core::lemma_extends_trans(nodes0, mid, st.nodes());
                }
                Ok(id)
            }
        },
        _ => Err(String::from_str("Add or Mul expects array")),
    }
}

/// The power that a `Pow` value describes.
fn build_pow(st: &mut Store, v: &J) -> (r: Result<ExprId, String>)
    requires
        old(st).wf(),
        *v matches J::Obj(f) && f@.len() == 1 && f@[0].0@ == "Pow"@,
    ensures
        final(st).wf(),
        expr_core::extends(old(st).nodes(), final(st).nodes()),
        r matches Ok(id) ==> jbuild_ok(jview(*v)) && id.0 < final(st).nodes().len() && jbuilt(
            jview(*v),
            old(st).nodes(),
            final(st).nodes(),
            id,
        ),
        r is Err ==> !jbuild_ok(jview(*v)) || !jfits(jview(*v), old(st).nodes()),
    decreases *v, 0int,
{
    let ghost nodes0 = st.nodes();
    let fields = match v {
        J::Obj(f) => f,
        _ => {
            return Err(String::from_str("expected object"));
        },
    };
    if fields.len() != 1 {
        return Err(String::from_str("expected single-key object"));
    }
    let (k, w) = &fields[0];
    let ghost jv = jview(*v);
    let ghost fv = fields_view(fields@);
    proof {
        reveal_strlit("Integer");
        reveal_strlit("Rational");
        reveal_strlit("Symbol");
        reveal_strlit("Function");
        reveal_strlit("Add");
        reveal_strlit("Mul");
        reveal_strlit("Pow");
        assert("Integer"@ =~= seq!['I', 'n', 't', 'e', 'g', 'e', 'r']);
        assert("Rational"@ =~= seq!['R', 'a', 't', 'i', 'o', 'n', 'a', 'l']);
        assert("Symbol"@ =~= seq!['S', 'y', 'm', 'b', 'o', 'l']);
        assert("Function"@ =~= seq!['F', 'u', 'n', 'c', 't', 'i', 'o', 'n']);
        assert("Add"@ =~= seq!['A', 'd', 'd']);
        assert("Mul"@ =~= seq!['M', 'u', 'l']);
        assert("Pow"@ =~= seq!['P', 'o', 'w']);
        assert("Add"@[0] != "Mul"@[0] && "Add"@[0] != "Pow"@[0] && "Mul"@[0] != "Pow"@[0]);
        lemma_jview_compound(*v);
        lemma_jview_compound(*w);
        assert(fields_view(fields@)[0] == (k@, jview(*w)));
        assert(jv == JV::Obj(fv) && fv.len() == 1 && fv[0].0 == k@ && fv[0].1 == jview(*w));
    }
    match w {
        J::Obj(f2) => {
            let (bi, ei) = match scan_pow(f2) {
                Some(p) => p,
                None => {
                    return Err(String::from_str("missing base or exp"));
                },
            };
            let ghost f2v = fields_view(f2@);
            proof {
                assert(jview(*w) == JV::Obj(f2v));
                assert(f2v[bi as int] == (f2@[bi as int].0@, jview(f2@[bi as int].1)));
                assert(f2v[ei as int] == (f2@[ei as int].0@, jview(f2@[ei as int].1)));
            }
            assert(decreases_to!(*v => f2@[bi as int].1));
            let b = match build(st, &f2[bi].1) {
                Ok(b) => b,
                Err(e) => {
                    return Err(e);
                },
            };
            let ghost mid = st.nodes();
            assert(decreases_to!(*v => f2@[ei as int].1));
            let e = match build(st, &f2[ei].1) {
                Ok(e) => e,
                Err(m) => {
                    proof {
                        expr_core::lemma_extends_trans(nodes0, mid, st.nodes());
                        assert(holds_id(mid, b));
                        assert(jbuilt(f2v[bi as int].1, nodes0, mid, b));
                    }
                    return Err(m);
                },
            };
            let ghost mid2 = st.nodes();
            proof {
                expr_core::lemma_extends_trans(nodes0, mid, mid2);
            }
            let id = st.pow(b, e);
            proof {
                expr_core::lemma_extends_trans(nodes0, mid2, st.nodes());
                assert(expr_core::extends(nodes0, mid) && holds_id(mid, b) && expr_core::extends(mid, mid2)
                    && holds_id(mid2, e));
            }
            Ok(id)
        },
        _ => Err(String::from_str("Pow expects object")),
    }
}

/// The leading JSON value of `s` (`Null` when none parses).
pub open spec fn jvalue_read(s: Seq<char>) -> JV {
    match jvalue(s, 0) {
        Some((v, _)) => v,
        None => JV::Null,
    }
}

/// Parses the JSON text of an expression into `st` (`jaccepts`): the leading value is
/// read and built (`jbuilt`); an error when it does not describe an expression, and
/// otherwise only when a sum or product of numbers would overflow (`jfits`).
pub fn from_json(st: &mut Store, input: &str) -> (r: Result<ExprId, String>)
    requires
        old(st).wf(),
    ensures
        final(st).wf(),
        expr_core::extends(old(st).nodes(), final(st).nodes()),
        r matches Ok(id) ==> jaccepts(input@) && id.0 < final(st).nodes().len() && jbuilt(
            jvalue_read(input@),
            old(st).nodes(),
            final(st).nodes(),
            id,
        ),
        !jaccepts(input@) ==> r is Err,
        r is Err ==> !jaccepts(input@) || !jfits(jvalue_read(input@), old(st).nodes()),
{
    let n = input.unicode_len();
    let (v, _) = match parse_value(input, n, 0) {
        Ok(p) => p,
        Err(e) => {
            return Err(e);
        },
    };
    build(st, &v)
}

/// A quoted run without backslashes or quotes reads back as itself.
proof fn lemma_read_plain(s: Seq<char>, k: int, len: int, acc: Seq<char>)
    requires
        0 <= k,
        0 <= len,
        k + len < s.len(),
        forall|t: int| k <= t < k + len ==> #[trigger] s[t] != '\\' && s[t] != '"',
        s[k + len] == '"',
    ensures
        read_string(s, k, acc) == Some((acc + s.subrange(k, k + len), k + len + 1)),
    decreases len,
{
    if len == 0 {
        assert(acc + s.subrange(k, k) =~= acc);
    } else {
        assert(s[k] != '\\' && s[k] != '"');
        lemma_read_plain(s, k + 1, len - 1, acc.push(s[k]));
        assert(acc.push(s[k]) + s.subrange(k + 1, k + len) =~= acc + s.subrange(k, k + len));
    }
}

/// The run of digits from `i` ends at `e` when `s[i..e]` are digits and `s[e]` is not.
proof fn lemma_digit_run_to(s: Seq<char>, i: int, e: int)
    requires
        0 <= i <= e <= s.len(),
        forall|k: int| i <= k < e ==> '0' <= #[trigger] s[k] <= '9',
        e < s.len() ==> !('0' <= s[e] <= '9'),
    ensures
        digit_run(s, i) == e,
    decreases e - i,
{
    if i < e {
        lemma_digit_run_to(s, i + 1, e);
    }
}

/// Reading back the JSON of an integer node: the text `{"Integer": k}` is accepted, and
/// the expression read from it is exactly the integer `k` interned into the store.
#[verifier::spinoff_prover]
pub proof fn lemma_json_integer_reads_back(nodes: Seq<Node>, id: int, k: i64, old: Seq<Node>, new: Seq<Node>, r: ExprId)
    requires
        0 <= id < nodes.len(),
        nodes[id].op == Op::Integer,
        nodes[id].payload == Payload::Int(k),
    ensures
        jaccepts(json(nodes, id)),
        jbuilt(jvalue_read(json(nodes, id)), old, new, r) <==> expr_core::interned(
            old,
            new,
            r,
            Op::Integer,
            expr_core::int_key(k as int),
            Seq::empty(),
        ),
{
    reveal_strlit("{\"Integer\": ");
    reveal_strlit("}");
    reveal_strlit("Integer");
    let d = text::int_decimal(k as int);
    let s = json(nodes, id);
    assert(s == "{\"Integer\": "@ + d + "}"@);
    sexpr::lemma_int_decimal_parses(k);
    let e: int = 12 + d.len() as int;
    assert(s.len() == e + 1);
    assert(s[e] == '}');
    assert(s.subrange(12, e) =~= d);
    assert(s[0] == '{' && s[1] == '"' && s[9] == '"' && s[10] == ':' && s[11] == ' ');
    assert(s[12] == d[0]);
    // the key
    assert forall|t: int| 2 <= t < 9 implies #[trigger] s[t] != '\\' && s[t] != '"' by {
        assert(s[t] == "Integer"@[t - 2]);
    }
    lemma_read_plain(s, 2, 7, Seq::empty());
    assert(Seq::<char>::empty() + s.subrange(2, 9) =~= "Integer"@);
    // the number
    let st: int = if k < 0 { 13 } else { 12 };
    if k < 0 {
        let n = (-(k as int)) as nat;
        sexpr::lemma_nat_digits_value(n);
        assert(d == seq!['-'] + text::nat_digits(n));
        assert forall|t: int| 13 <= t < e implies '0' <= #[trigger] s[t] <= '9' by {
            assert(s[t] == text::nat_digits(n)[t - 13]);
        }
    } else {
        sexpr::lemma_nat_digits_value(k as nat);
        assert forall|t: int| 12 <= t < e implies '0' <= #[trigger] s[t] <= '9' by {
            assert(s[t] == text::nat_digits(k as nat)[t - 12]);
        }
    }
    lemma_digit_run_to(s, st, e);
    assert(jnum(s, 12) == Some((k as int, e)));
    assert(skip_ws(s, 12) == 12);
    assert(skip_ws(s, 11) == 12);
    assert(jvalue(s, 11) == Some((JV::Num(k as int), e)));
    assert(skip_ws(s, 10) == 10);
    assert(skip_ws(s, e) == e);
    assert(skip_ws(s, 1) == 1);
    let f = seq![("Integer"@, JV::Num(k as int))];
    assert(Seq::<(Seq<char>, JV)>::empty().push(("Integer"@, JV::Num(k as int))) =~= f);
    assert(jmembers(s, 1, Seq::empty()) == Some((JV::Obj(f), e + 1)));
    assert(skip_ws(s, 0) == 0);
    assert(jvalue(s, 0) == Some((JV::Obj(f), e + 1)));
    assert(jvalue_read(s) == JV::Obj(f));
}

/// JSON escaping of a name is the S-expression escaping: a backslash before every `"`
/// and `\`.
proof fn lemma_json_escape_is(x: Seq<char>)
    ensures
        json_escape(x) == sexpr::escape_name(x),
    decreases x.len(),
{
    if x.len() > 0 {
        lemma_json_escape_is(x.drop_last());
    }
}

/// Reading back the JSON of a symbol node: the text `{"Symbol": "name"}` is accepted, and
/// the expression read from it is exactly the symbol of that name interned into the store.
#[verifier::spinoff_prover]
pub proof fn lemma_json_symbol_reads_back(nodes: Seq<Node>, id: int, name: String, old: Seq<Node>, new: Seq<Node>, r: ExprId)
    requires
        0 <= id < nodes.len(),
        nodes[id].op == Op::Symbol,
        nodes[id].payload == Payload::Sym(name),
    ensures
        jaccepts(json(nodes, id)),
        jbuilt(jvalue_read(json(nodes, id)), old, new, r) <==> expr_core::interned(
            old,
            new,
            r,
            Op::Symbol,
            (1, name@, 0, 0),
            Seq::empty(),
        ),
{
    reveal_strlit("{\"Symbol\": \"");
    reveal_strlit("\"}");
    reveal_strlit("Symbol");
    reveal_strlit("Integer");
    reveal_strlit("Rational");
    let x = name@;
    let ex = json_escape(x);
    lemma_json_escape_is(x);
    let s = json(nodes, id);
    assert(s == "{\"Symbol\": \""@ + ex + "\"}"@);
    let el: int = ex.len() as int;
    assert(s.len() == 14 + el);
    assert(s[0] == '{' && s[1] == '"' && s[8] == '"' && s[9] == ':' && s[10] == ' ' && s[11] == '"');
    assert(s[12 + el] == '"' && s[13 + el] == '}');
    assert(s.subrange(12, 12 + el) =~= ex);
    // the key
    assert forall|t: int| 2 <= t < 8 implies #[trigger] s[t] != '\\' && s[t] != '"' by {
        assert(s[t] == "Symbol"@[t - 2]);
    }
    lemma_read_plain(s, 2, 6, Seq::empty());
    assert(Seq::<char>::empty() + s.subrange(2, 8) =~= "Symbol"@);
    // the name
    sexpr::lemma_read_escaped(s, 12, x, Seq::empty());
    assert(Seq::<char>::empty() + x =~= x);
    assert(skip_ws(s, 11) == 11);
    assert(skip_ws(s, 10) == 11);
    assert(jvalue(s, 10) == Some((JV::Str(x), 13 + el)));
    assert(skip_ws(s, 9) == 9);
    assert(skip_ws(s, 13 + el) == 13 + el);
    assert(skip_ws(s, 1) == 1);
    let f = seq![("Symbol"@, JV::Str(x))];
    assert(Seq::<(Seq<char>, JV)>::empty().push(("Symbol"@, JV::Str(x))) =~= f);
    assert(jmembers(s, 1, Seq::empty()) == Some((JV::Obj(f), 14 + el)));
    assert(skip_ws(s, 0) == 0);
    assert(jvalue(s, 0) == Some((JV::Obj(f), 14 + el)));
    assert(jvalue_read(s) == JV::Obj(f));
    assert("Symbol"@ != "Integer"@) by {
        assert("Symbol"@[0] != "Integer"@[0]);
    }
    assert("Symbol"@ != "Rational"@) by {
        assert("Symbol"@[0] != "Rational"@[0]);
    }
}

/// The decimal text of `k` at `j..e`, followed by a non-digit, is read as the number `k`.
proof fn lemma_jnum_at(s: Seq<char>, j: int, e: int, k: i64)
    requires
        0 <= j < e < s.len(),
        s.subrange(j, e) == text::int_decimal(k as int),
        !('0' <= s[e] <= '9'),
    ensures
        jnum(s, j) == Some((k as int, e)),
        s[j] == '-' || ('0' <= s[j] <= '9'),
{
    let d = text::int_decimal(k as int);
    sexpr::lemma_int_decimal_parses(k);
    assert(s[j] == d[0]);
    if k < 0 {
        let n = (-(k as int)) as nat;
        sexpr::lemma_nat_digits_value(n);
        assert(d == seq!['-'] + text::nat_digits(n));
        assert forall|t: int| j + 1 <= t < e implies '0' <= #[trigger] s[t] <= '9' by {
            assert(s[t] == d[t - j]);
            assert(d[t - j] == text::nat_digits(n)[t - j - 1]);
        }
        lemma_digit_run_to(s, j + 1, e);
    } else {
        sexpr::lemma_nat_digits_value(k as nat);
        assert forall|t: int| j <= t < e implies '0' <= #[trigger] s[t] <= '9' by {
            assert(s[t] == d[t - j]);
        }
        lemma_digit_run_to(s, j, e);
    }
}

/// Reading back the JSON of a fraction node in lowest terms (denominator above 1,
/// numerator above `i64::MIN`): the text `{"Rational": {"num": p, "den": q}}` is
/// accepted, and the expression read from it is exactly the fraction `p/q` interned into
/// the store.
#[verifier::spinoff_prover]
#[verifier::rlimit(60)]
pub proof fn lemma_json_rational_reads_back(nodes: Seq<Node>, id: int, p: i64, q: i64, old: Seq<Node>, new: Seq<Node>, r: ExprId)
    requires
        0 <= id < nodes.len(),
        nodes[id].op == Op::Rational,
        nodes[id].payload == Payload::Rat(p, q),
        arith::is_reduced(p as int, q as int),
        q != 1,
        p != i64::MIN,
    ensures
        jaccepts(json(nodes, id)),
        jbuilt(jvalue_read(json(nodes, id)), old, new, r) <==> expr_core::interned(
            old,
            new,
            r,
            Op::Rational,
            (3, Seq::empty(), p as int, q as int),
            Seq::empty(),
        ),
{
    reveal_strlit("{\"Rational\": {\"num\": ");
    reveal_strlit(", \"den\": ");
    reveal_strlit("}}");
    reveal_strlit("Rational");
    reveal_strlit("Integer");
    reveal_strlit("num");
    reveal_strlit("den");
    let dp = text::int_decimal(p as int);
    let dq = text::int_decimal(q as int);
    sexpr::lemma_int_decimal_parses(p);
    sexpr::lemma_int_decimal_parses(q);
    let s = json(nodes, id);
    assert(s == "{\"Rational\": {\"num\": "@ + dp + ", \"den\": "@ + dq + "}}"@);
    let e1: int = 21 + dp.len() as int;
    let e2: int = e1 + 9 + dq.len() as int;
    assert(s.len() == e2 + 2);
    assert(s[0] == '{' && s[1] == '"' && s[10] == '"' && s[11] == ':' && s[12] == ' ' && s[13] == '{');
    assert(s[14] == '"' && s[18] == '"' && s[19] == ':' && s[20] == ' ');
    assert(s[e1] == ',' && s[e1 + 1] == ' ' && s[e1 + 2] == '"' && s[e1 + 6] == '"' && s[e1 + 7] == ':' && s[e1 + 8] == ' ');
    assert(s[e2] == '}' && s[e2 + 1] == '}');
    assert(s.subrange(21, e1) =~= dp);
    assert(s.subrange(e1 + 9, e2) =~= dq);
    lemma_jnum_at(s, 21, e1, p);
    lemma_jnum_at(s, e1 + 9, e2, q);
    // keys
    assert forall|t: int| 2 <= t < 10 implies #[trigger] s[t] != '\\' && s[t] != '"' by {
        assert(s[t] == "Rational"@[t - 2]);
    }
    lemma_read_plain(s, 2, 8, Seq::empty());
    assert(Seq::<char>::empty() + s.subrange(2, 10) =~= "Rational"@);
    assert forall|t: int| 15 <= t < 18 implies #[trigger] s[t] != '\\' && s[t] != '"' by {
        assert(s[t] == "num"@[t - 15]);
    }
    lemma_read_plain(s, 15, 3, Seq::empty());
    assert(Seq::<char>::empty() + s.subrange(15, 18) =~= "num"@);
    assert forall|t: int| e1 + 3 <= t < e1 + 6 implies #[trigger] s[t] != '\\' && s[t] != '"' by {
        assert(s[t] == "den"@[t - e1 - 3]);
    }
    lemma_read_plain(s, e1 + 3, 3, Seq::empty());
    assert(Seq::<char>::empty() + s.subrange(e1 + 3, e1 + 6) =~= "den"@);
    // the inner object
    assert(skip_ws(s, e2) == e2);
    assert(skip_ws(s, e1 + 9) == e1 + 9);
    assert(skip_ws(s, e1 + 8) == e1 + 9);
    assert(jvalue(s, e1 + 8) == Some((JV::Num(q as int), e2)));
    assert(skip_ws(s, e1 + 7) == e1 + 7);
    assert(skip_ws(s, e1 + 2) == e1 + 2);
    assert(skip_ws(s, e1 + 1) == e1 + 2);
    let f2 = seq![("num"@, JV::Num(p as int)), ("den"@, JV::Num(q as int))];
    assert(Seq::<(Seq<char>, JV)>::empty().push(("num"@, JV::Num(p as int))).push(("den"@, JV::Num(q as int))) =~= f2);
    assert(jmembers(s, e1 + 1, seq![("num"@, JV::Num(p as int))]) == Some((JV::Obj(f2), e2 + 1)));
    assert(skip_ws(s, e1) == e1);
    assert(skip_ws(s, 21) == 21);
    assert(skip_ws(s, 20) == 21);
    assert(jvalue(s, 20) == Some((JV::Num(p as int), e1)));
    assert(skip_ws(s, 19) == 19);
    assert(skip_ws(s, 14) == 14);
    assert(Seq::<(Seq<char>, JV)>::empty().push(("num"@, JV::Num(p as int))) =~= seq![("num"@, JV::Num(p as int))]);
    assert(jmembers(s, 14, Seq::empty()) == Some((JV::Obj(f2), e2 + 1)));
    assert(skip_ws(s, 13) == 13);
    assert(skip_ws(s, 12) == 13);
    assert(jvalue(s, 12) == Some((JV::Obj(f2), e2 + 1)));
    // the outer object
    assert(skip_ws(s, 11) == 11);
    assert(skip_ws(s, e2 + 1) == e2 + 1);
    assert(skip_ws(s, 1) == 1);
    let f = seq![("Rational"@, JV::Obj(f2))];
    assert(Seq::<(Seq<char>, JV)>::empty().push(("Rational"@, JV::Obj(f2))) =~= f);
    assert(jmembers(s, 1, Seq::empty()) == Some((JV::Obj(f), e2 + 2)));
    assert(skip_ws(s, 0) == 0);
    assert(jvalue(s, 0) == Some((JV::Obj(f), e2 + 2)));
    assert(jvalue_read(s) == JV::Obj(f));
    assert("Rational"@ != "Integer"@) by {
        assert("Rational"@[0] != "Integer"@[0]);
    }
    assert("den"@ != "num"@) by {
        assert("den"@[0] != "num"@[0]);
    }
    assert(last_key(f2.drop_last(), "num"@) == 0);
    assert(last_key(f2, "num"@) == 0);
    assert(last_key(f2, "den"@) == 1);
    assert(all_num(f2, "num"@));
    assert(all_num(f2, "den"@));
    assert(rat_ok(f2));
    arith::lemma_normalize_reduced(p as int, q as int);
    assert(rat_parts(f2) == (p as int, q as int));
}

} // verus!
