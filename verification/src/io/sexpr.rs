//! S-expression serializer and parser for expressions.
//! Atoms: `(Int k)`, `(Rat n d)`, `(Sym name)`; composites: `(+ e1 e2 ...)`,
//! `(* e1 e2 ...)`, `(^ base exp)`, `(Fn name arg1 arg2 ...)`.
//! Names are bare tokens, or quoted with `"` where they hold other characters.
use vstd::prelude::*;
use crate::expr_core::{self, ExprId, Node, Op, Payload, Store};
use crate::arith;
use crate::text;

verus! {

/// A character allowed in a bare name.
pub open spec fn bare_name_char(c: char) -> bool {
    ('a' <= c <= 'z') || ('A' <= c <= 'Z') || ('0' <= c <= '9') || c == '_' || c == '-'
}

/// Every character of `s` is allowed in a bare name.
pub open spec fn all_bare(s: Seq<char>) -> bool {
    forall|i: int| 0 <= i < s.len() ==> bare_name_char(#[trigger] s[i])
}

/// `s` with every `"` and every `\` escaped by a `\` before it.
pub open spec fn escape_name(s: Seq<char>) -> Seq<char>
    decreases s.len(),
{
    if s.len() == 0 {
        Seq::empty()
    } else {
        escape_name(s.drop_last()) + (if s.last() == '"' || s.last() == '\\' {
            seq!['\\', s.last()]
        } else {
            seq![s.last()]
        })
    }
}

/// A name as written in an S-expression: bare, or quoted with its quotes and
/// backslashes escaped.
pub open spec fn name_text(s: Seq<char>) -> Seq<char> {
    if all_bare(s) { s } else { seq!['"'] + escape_name(s) + seq!['"'] }
}

/// The S-expression of node `id`.
pub open spec fn sexpr(nodes: Seq<Node>, id: int) -> Seq<char>
    decreases id, 1int, 0int,
{
    if !(0 <= id < nodes.len()) {
        Seq::empty()
    } else {
        let n = nodes[id];
        let len = n.children@.len() as int;
        match (n.op, n.payload) {
            (Op::Integer, Payload::Int(k)) => seq!['(', 'I', 'n', 't', ' '] + text::int_decimal(k as int) + seq![')'],
            (Op::Rational, Payload::Rat(a, b)) => seq!['(', 'R', 'a', 't', ' '] + text::int_decimal(a as int) + seq![' ']
                + text::int_decimal(b as int) + seq![')'],
            (Op::Symbol, Payload::Sym(name)) => seq!['(', 'S', 'y', 'm', ' '] + name_text(name@) + seq![')'],
            (Op::Function, Payload::Func(name)) => seq!['(', 'F', 'n', ' '] + name_text(name@) + seq![' ']
                + sexpr_join(nodes, id, len) + seq![')'],
            (Op::Add, _) => seq!['(', '+', ' '] + sexpr_join(nodes, id, len) + seq![')'],
            (Op::Mul, _) => seq!['(', '*', ' '] + sexpr_join(nodes, id, len) + seq![')'],
            (Op::Pow, _) => seq!['(', '^', ' '] + sexpr_child(nodes, id, 0) + seq![' '] + sexpr_child(nodes, id, 1) + seq![')'],
            _ => seq!['(', 'U', 'n', 'k', 'n', 'o', 'w', 'n', ')'],
        }
    }
}

/// Child `k` of node `id`.
pub open spec fn sexpr_child(nodes: Seq<Node>, id: int, k: int) -> Seq<char>
    decreases id, 0int, 0int,
{
    if 0 <= id < nodes.len() && 0 <= k < nodes[id].children@.len() && nodes[id].children@[k].0 < id {
        sexpr(nodes, nodes[id].children@[k].0 as int)
    } else {
        Seq::empty()
    }
}

/// The first `k` children of `id`, separated by spaces.
pub open spec fn sexpr_join(nodes: Seq<Node>, id: int, k: int) -> Seq<char>
    decreases id, 0int, k,
{
    if k <= 0 {
        Seq::empty()
    } else if k == 1 {
        sexpr_child(nodes, id, 0)
    } else {
        sexpr_join(nodes, id, k - 1) + seq![' '] + sexpr_child(nodes, id, k - 1)
    }
}

/// Whether every character of `s` is allowed in a bare name.
fn is_bare(s: &str) -> (b: bool)
    ensures
        b == all_bare(s@),
{
    let len = s.unicode_len();
    let mut i: usize = 0;
    while i < len
        invariant
            len == s@.len(),
            i <= len,
            forall|j: int| 0 <= j < i ==> bare_name_char(#[trigger] s@[j]),
        decreases len - i,
    {
        let c = s.get_char(i);
        if !(('a' <= c && c <= 'z') || ('A' <= c && c <= 'Z') || ('0' <= c && c <= '9') || c == '_' || c == '-') {
            return false;
        }
        i = i + 1;
    }
    true
}

/// Appends a name as written in an S-expression.
fn push_name(out: &mut String, s: &str)
    ensures
        final(out)@ == old(out)@ + name_text(s@),
{
    if is_bare(s) {
        out.append(s);
        return;
    }
    proof {
        reveal_strlit("\"");
        reveal_strlit("\\\"");
        assert("\""@ =~= seq!['"']);
        assert("\\\""@ =~= seq!['\\', '"']);
    }
    let ghost start = out@;
    out.append("\"");
    let len = s.unicode_len();
    let mut i: usize = 0;
    proof {
        assert(s@.take(0) =~= Seq::<char>::empty());
    }
    while i < len
        invariant
            len == s@.len(),
            i <= len,
            out@ == start + seq!['"'] + escape_name(s@.take(i as int)),
        decreases len - i,
    {
        let c = s.get_char(i);
        proof {
            reveal_strlit("\\\"");
            assert("\\\""@ =~= seq!['\\', '"']);
            assert(s@.take(i as int + 1).drop_last() =~= s@.take(i as int));
            assert(s@.take(i as int + 1).last() == c);
        }
        if c == '"' {
            out.append("\\\"");
        } else if c == '\\' {
            proof {
                reveal_strlit("\\\\");
                assert("\\\\"@ =~= seq!['\\', '\\']);
            }
            out.append("\\\\");
        } else {
            let piece = s.substring_char(i, i + 1);
            proof {
                assert(piece@ =~= seq![c]);
            }
            out.append(piece);
        }
        proof {
            assert(out@ =~= start + seq!['"'] + escape_name(s@.take(i as int + 1)));
        }
        i = i + 1;
    }
    proof {
        reveal_strlit("\"");
        assert("\""@ =~= seq!['"']);
        assert(s@.take(len as int) =~= s@);
    }
    out.append("\"");
    proof {
        assert(out@ =~= start + name_text(s@));
    }
}

/// Appends child `k` of `id`.
fn push_child(st: &Store, out: &mut String, id: ExprId, k: usize)
    requires
        st.wf(),
        id.0 < st.nodes().len(),
        k < st.nodes()[id.0 as int].children@.len(),
    ensures
        final(out)@ == old(out)@ + sexpr_child(st.nodes(), id.0 as int, k as int),
    decreases id.0, 0int,
{
    let c = st.get(id).children[k];
    proof {
        assert(st.nodes()[id.0 as int].children@[k as int].0 < id.0);
    }
    let s = go(st, c);
    out.append(s.as_str());
}

/// Appends all children of `id`, separated by spaces.
fn push_children(st: &Store, out: &mut String, id: ExprId)
    requires
        st.wf(),
        id.0 < st.nodes().len(),
    ensures
        final(out)@ == old(out)@ + sexpr_join(st.nodes(), id.0 as int, st.nodes()[id.0 as int].children@.len() as int),
    decreases id.0, 1int,
{
    let len = st.get(id).children.len();
    let ghost start = out@;
    let mut k: usize = 0;
    while k < len
        invariant
            st.wf(),
            id.0 < st.nodes().len(),
            len == st.nodes()[id.0 as int].children@.len(),
            k <= len,
            out@ == start + sexpr_join(st.nodes(), id.0 as int, k as int),
        decreases len - k,
    {
        proof {
            reveal_strlit(" ");
            assert(" "@ =~= seq![' ']);
        }
        if k > 0 {
            out.append(" ");
        }
        push_child(st, out, id, k);
        proof {
            assert(out@ =~= start + sexpr_join(st.nodes(), id.0 as int, k as int + 1));
        }
        k = k + 1;
    }
}

/// The S-expression of `id`.
fn go(st: &Store, id: ExprId) -> (s: String)
    requires
        st.wf(),
        id.0 < st.nodes().len(),
    ensures
        s@ == sexpr(st.nodes(), id.0 as int),
    decreases id.0, 2int,
{
    let n = st.get(id);
    let ghost nodes = st.nodes();
    let ghost i0 = id.0 as int;
    let ghost len = n.children@.len() as int;
    let mut out = String::new();
    proof {
        reveal_strlit("(Int ");
        reveal_strlit("(Rat ");
        reveal_strlit("(Sym ");
        reveal_strlit("(Fn ");
        reveal_strlit("(+ ");
        reveal_strlit("(* ");
        reveal_strlit("(^ ");
        reveal_strlit(" ");
        reveal_strlit(")");
        reveal_strlit("(Unknown)");
        assert("(Int "@ =~= seq!['(', 'I', 'n', 't', ' ']);
        assert("(Rat "@ =~= seq!['(', 'R', 'a', 't', ' ']);
        assert("(Sym "@ =~= seq!['(', 'S', 'y', 'm', ' ']);
        assert("(Fn "@ =~= seq!['(', 'F', 'n', ' ']);
        assert("(+ "@ =~= seq!['(', '+', ' ']);
        assert("(* "@ =~= seq!['(', '*', ' ']);
        assert("(^ "@ =~= seq!['(', '^', ' ']);
        assert("(Unknown)"@ =~= seq!['(', 'U', 'n', 'k', 'n', 'o', 'w', 'n', ')']);
    }
    match (&n.op, &n.payload) {
        (Op::Integer, Payload::Int(k)) => {
            out.append("(Int ");
            text::push_i64(&mut out, *k);
            out.append(")");
            assert(out@ =~= seq!['(', 'I', 'n', 't', ' '] + text::int_decimal(*k as int) + seq![')']);
        },
        (Op::Rational, Payload::Rat(a, b)) => {
            out.append("(Rat ");
            text::push_i64(&mut out, *a);
            out.append(" ");
            text::push_i64(&mut out, *b);
            out.append(")");
            assert(out@ =~= seq!['(', 'R', 'a', 't', ' '] + text::int_decimal(*a as int) + seq![' ']
                + text::int_decimal(*b as int) + seq![')']);
        },
        (Op::Symbol, Payload::Sym(name)) => {
            out.append("(Sym ");
            push_name(&mut out, name.as_str());
            out.append(")");
            assert(out@ =~= seq!['(', 'S', 'y', 'm', ' '] + name_text(name@) + seq![')']);
        },
        (Op::Function, Payload::Func(name)) => {
            out.append("(Fn ");
            push_name(&mut out, name.as_str());
            out.append(" ");
            push_children(st, &mut out, id);
            out.append(")");
            assert(out@ =~= seq!['(', 'F', 'n', ' '] + name_text(name@) + seq![' '] + sexpr_join(nodes, i0, len)
                + seq![')']);
        },
        (Op::Add, _) => {
            out.append("(+ ");
            push_children(st, &mut out, id);
            out.append(")");
            assert(out@ =~= seq!['(', '+', ' '] + sexpr_join(nodes, i0, len) + seq![')']);
        },
        (Op::Mul, _) => {
            out.append("(* ");
            push_children(st, &mut out, id);
            out.append(")");
            assert(out@ =~= seq!['(', '*', ' '] + sexpr_join(nodes, i0, len) + seq![')']);
        },
        (Op::Pow, _) => {
            out.append("(^ ");
            push_child(st, &mut out, id, 0);
            out.append(" ");
            push_child(st, &mut out, id, 1);
            out.append(")");
            assert(out@ =~= seq!['(', '^', ' '] + sexpr_child(nodes, i0, 0) + seq![' '] + sexpr_child(nodes, i0, 1)
                + seq![')']);
        },
        _ => {
            out.append("(Unknown)");
        },
    }
    out
}

/// The S-expression text of an expression.
pub fn to_sexpr(st: &Store, id: ExprId) -> (s: String)
    requires
        st.wf(),
        id.0 < st.nodes().len(),
    ensures
        s@ == sexpr(st.nodes(), id.0 as int),
{
    go(st, id)
}

// ---------- Lexer ----------

/// A token of an S-expression.
pub enum Tok {
    LParen,
    RParen,
    Str(String),
    Sym(String),
    Int(i64),
}

/// What a token stands for.
pub enum TokV {
    LParen,
    RParen,
    Str(Seq<char>),
    Sym(Seq<char>),
    Int(int),
}

/// The meaning of a token.
pub open spec fn tok_view(t: Tok) -> TokV {
    match t {
        Tok::LParen => TokV::LParen,
        Tok::RParen => TokV::RParen,
        Tok::Str(s) => TokV::Str(s@),
        Tok::Sym(s) => TokV::Sym(s@),
        Tok::Int(k) => TokV::Int(k as int),
    }
}

/// The meanings of a list of tokens.
pub open spec fn toks_view(ts: Seq<Tok>) -> Seq<TokV> {
    ts.map_values(|t: Tok| tok_view(t))
}

/// ASCII whitespace: space, tab, line feed, form feed, carriage return.
pub open spec fn is_ws(c: char) -> bool {
    c == ' ' || c == '\t' || c == '\n' || c == '\x0C' || c == '\r'
}

/// A character of an integer token.
pub open spec fn int_char(c: char) -> bool {
    c == '-' || ('0' <= c <= '9')
}

/// A character of a bare symbol token.
pub open spec fn sym_char(c: char) -> bool {
    !is_ws(c) && c != '(' && c != ')'
}

/// The first index from `i` on that is not whitespace.
pub open spec fn skip_ws(s: Seq<char>, i: int) -> int
    decreases s.len() - i,
{
    if i >= s.len() || !is_ws(s[i]) { i } else { skip_ws(s, i + 1) }
}

/// The end of the run of integer characters from `i`.
pub open spec fn int_run(s: Seq<char>, i: int) -> int
    decreases s.len() - i,
{
    if i >= s.len() || !int_char(s[i]) { i } else { int_run(s, i + 1) }
}

/// The end of the run of symbol characters from `i`.
pub open spec fn sym_run(s: Seq<char>, i: int) -> int
    decreases s.len() - i,
{
    if i >= s.len() || !sym_char(s[i]) { i } else { sym_run(s, i + 1) }
}

/// The value of a run of decimal digits.
pub open spec fn digits_value(d: Seq<char>) -> int
    decreases d.len(),
{
    if d.len() == 0 {
        0
    } else {
        digits_value(d.drop_last()) * 10 + (d.last() as int - '0' as int)
    }
}

/// All characters are decimal digits.
pub open spec fn all_digits(d: Seq<char>) -> bool {
    forall|k: int| 0 <= k < d.len() ==> '0' <= #[trigger] d[k] <= '9'
}

/// Rust's `i64` parsing of a token made of `-` and digits: an optional leading `-`, then
/// at least one digit, within range.
pub open spec fn parse_i64(t: Seq<char>) -> Option<int> {
    if t.len() > 0 && t[0] == '-' {
        let d = t.subrange(1, t.len() as int);
        if d.len() > 0 && all_digits(d) && -digits_value(d) >= i64::MIN {
            Some(-digits_value(d))
        } else {
            None
        }
    } else if t.len() > 0 && all_digits(t) && digits_value(t) <= i64::MAX {
        Some(digits_value(t))
    } else {
        None
    }
}

/// A quoted string read from `k` (just after the opening quote), `acc` read so far:
/// its contents and the index after the closing quote, or `None` when unterminated.
pub open spec fn read_string(s: Seq<char>, k: int, acc: Seq<char>) -> Option<(Seq<char>, int)>
    decreases s.len() - k,
{
    if k >= s.len() || k < 0 {
        None
    } else if s[k] == '\\' {
        if k + 1 >= s.len() { None } else { read_string(s, k + 2, acc.push(s[k + 1])) }
    } else if s[k] == '"' {
        Some((acc, k + 1))
    } else {
        read_string(s, k + 1, acc.push(s[k]))
    }
}

/// The tokens of `s` from `i` on, or `None` on a lexical error.
pub open spec fn lex(s: Seq<char>, i: int) -> Option<Seq<TokV>>
    decreases s.len() - i,
{
    let j = skip_ws(s, i);
    if i < 0 || j >= s.len() {
        Some(Seq::empty())
    } else if j < i {
        None
    } else {
        let c = s[j];
        if c == '(' {
            match lex(s, j + 1) {
                Some(rest) => Some(seq![TokV::LParen] + rest),
                None => None,
            }
        } else if c == ')' {
            match lex(s, j + 1) {
                Some(rest) => Some(seq![TokV::RParen] + rest),
                None => None,
            }
        } else if c == '"' {
            match read_string(s, j + 1, Seq::empty()) {
                None => None,
                Some((text, k)) => if j < k <= s.len() {
                    match lex(s, k) {
                        Some(rest) => Some(seq![TokV::Str(text)] + rest),
                        None => None,
                    }
                } else {
                    None
                },
            }
        } else if int_char(c) {
            let e = int_run(s, j);
            match parse_i64(s.subrange(j, e)) {
                None => None,
                Some(v) => if j < e <= s.len() {
                    match lex(s, e) {
                        Some(rest) => Some(seq![TokV::Int(v)] + rest),
                        None => None,
                    }
                } else {
                    None
                },
            }
        } else {
            let e = sym_run(s, j);
            if j < e <= s.len() {
                match lex(s, e) {
                    Some(rest) => Some(seq![TokV::Sym(s.subrange(j, e))] + rest),
                    None => None,
                }
            } else {
                None
            }
        }
    }
}


/// The name a token gives as a list head or a symbol: symbols and strings give one.
pub open spec fn tok_name(t: TokV) -> Option<Seq<char>> {
    match t {
        TokV::Sym(s) => Some(s),
        TokV::Str(s) => Some(s),
        _ => None,
    }
}

/// The integer a token holds.
pub open spec fn tok_int(t: TokV) -> Option<int> {
    match t {
        TokV::Int(k) => Some(k),
        _ => None,
    }
}

/// The end (the index just after it) of the term that starts at token `i`, or `None`
/// when none does. A term is a list, or a single integer, symbol or string token.
pub open spec fn term_end(t: Seq<TokV>, i: int) -> Option<int>
    decreases t.len() - i, 1int,
{
    if !(0 <= i < t.len()) {
        None
    } else {
        match t[i] {
            TokV::LParen => list_end(t, i),
            TokV::RParen => None,
            _ => Some(i + 1),
        }
    }
}

/// The index of the `)` that ends the run of terms starting at token `i`, or `None`.
pub open spec fn terms_end(t: Seq<TokV>, i: int) -> Option<int>
    decreases t.len() - i, 2int,
{
    if !(0 <= i < t.len()) {
        None
    } else if t[i] is RParen {
        Some(i)
    } else {
        match term_end(t, i) {
            Some(k) => if i < k <= t.len() { terms_end(t, k) } else { None },
            None => None,
        }
    }
}

/// The end of the list that opens at token `i`: a head, the arguments that head takes
/// (`head_body`), and `)`.
pub open spec fn list_end(t: Seq<TokV>, i: int) -> Option<int>
    decreases t.len() - i, 0int,
{
    if !(0 <= i && i + 1 < t.len()) {
        None
    } else {
        match tok_name(t[i + 1]) {
            None => None,
            Some(h) => match head_body(t, i + 2, h) {
                Some(c) => if 0 <= c < t.len() && t[c] is RParen { Some(c + 1) } else { None },
                None => None,
            },
        }
    }
}

/// The end of the arguments of head `h` from token `a` on. `+` and `*` take any number
/// of terms, `^` two terms, `Int` an integer, `Rat` two integers that make a fraction,
/// `Sym` a name, `Fn` a name and any number of terms; other heads are unknown.
pub open spec fn head_body(t: Seq<TokV>, a: int, h: Seq<char>) -> Option<int>
    decreases t.len() - a + 1, 0int,
{
    if !(0 <= a <= t.len()) {
        None
    } else if h == seq!['+'] || h == seq!['*'] {
        terms_end(t, a)
    } else if h == seq!['^'] {
        match term_end(t, a) {
            Some(k) => if a < k <= t.len() { term_end(t, k) } else { None },
            None => None,
        }
    } else if h == seq!['I', 'n', 't'] {
        if a < t.len() && tok_int(t[a]) is Some { Some(a + 1) } else { None }
    } else if h == seq!['R', 'a', 't'] {
        if a + 1 < t.len() {
            match (tok_int(t[a]), tok_int(t[a + 1])) {
                (Some(n), Some(d)) => if arith::norm_ok(n, d) { Some(a + 2) } else { None },
                _ => None,
            }
        } else {
            None
        }
    } else if h == seq!['S', 'y', 'm'] {
        if a < t.len() && tok_name(t[a]) is Some { Some(a + 1) } else { None }
    } else if h == seq!['F', 'n'] {
        if a < t.len() && tok_name(t[a]) is Some { terms_end(t, a + 1) } else { None }
    } else {
        None
    }
}

/// `id` is a node of `nodes`.
pub open spec fn holds_id(nodes: Seq<Node>, id: ExprId) -> bool {
    id.0 < nodes.len()
}

/// Building the term at token `i` (`term_end`), from a store `old` that became `new`,
/// gave node `id`: an integer or a symbol is interned, a list is built by its head.
pub open spec fn term_built(t: Seq<TokV>, i: int, old: Seq<Node>, new: Seq<Node>, id: ExprId) -> bool
    decreases t.len() - i, 1int,
{
    if !(0 <= i < t.len()) {
        false
    } else {
        match t[i] {
            TokV::LParen => list_built(t, i, old, new, id),
            TokV::RParen => false,
            TokV::Int(k) => expr_core::interned(old, new, id, Op::Integer, expr_core::int_key(k), Seq::empty()),
            TokV::Sym(x) => expr_core::interned(old, new, id, Op::Symbol, (1, x, 0, 0), Seq::empty()),
            TokV::Str(x) => expr_core::interned(old, new, id, Op::Symbol, (1, x, 0, 0), Seq::empty()),
        }
    }
}

/// Building the terms from token `k` up to the closing `)` one after the other, from a
/// store `old` that became `new`, gave the nodes `ids`.
pub open spec fn terms_built(t: Seq<TokV>, k: int, old: Seq<Node>, new: Seq<Node>, ids: Seq<ExprId>) -> bool
    decreases t.len() - k, 2int,
{
    if !(0 <= k < t.len()) {
        false
    } else if t[k] is RParen {
        new == old && ids.len() == 0
    } else {
        match term_end(t, k) {
            Some(k2) => if k < k2 <= t.len() {
                &&& ids.len() > 0
                &&& exists|mid: Seq<Node>|
                    #[trigger] expr_core::extends(old, mid) && term_built(t, k, old, mid, ids[0])
                        && terms_built(t, k2, mid, new, ids.drop_first())
            } else {
                false
            },
            None => false,
        }
    }
}

/// Building the list that opens at token `i`, from a store `old` that became `new`, gave
/// node `id`: `+` and `*` give the canonical sum and product of their built terms, `^`
/// gives `pow` of its built base and exponent, `Int`, `Rat` and `Sym` intern their
/// number or name, and `Fn` applies its name to its built arguments.
pub open spec fn list_built(t: Seq<TokV>, i: int, old: Seq<Node>, new: Seq<Node>, id: ExprId) -> bool
    decreases t.len() - i, 0int,
{
    if !(0 <= i && i + 1 < t.len()) {
        false
    } else {
        match tok_name(t[i + 1]) {
            None => false,
            Some(h) => {
                let a = i + 2;
                if h == seq!['+'] || h == seq!['*'] {
                    exists|mid: Seq<Node>, ids: Seq<ExprId>|
                        #![trigger expr_core::extends(old, mid), expr_core::valid_ids(mid, ids)]
                        expr_core::extends(old, mid) && expr_core::valid_ids(mid, ids) && terms_built(t, a, old, mid, ids)
                            && if h == seq!['+'] {
                            expr_core::add_flatten(mid, ids).1 is Some && expr_core::sum_result(mid, new, ids, id)
                        } else {
                            expr_core::mul_flatten(mid, ids).1 is Some && expr_core::product_result(mid, new, ids, id)
                        }
                } else if h == seq!['^'] {
                    match term_end(t, a) {
                        Some(k1) => if a < k1 {
                            exists|m1: Seq<Node>, b: ExprId, m2: Seq<Node>, e: ExprId|
                                #![trigger expr_core::extends(old, m1), holds_id(m1, b), expr_core::extends(m1, m2), holds_id(m2, e)]
                                expr_core::extends(old, m1) && holds_id(m1, b) && expr_core::extends(m1, m2)
                                    && holds_id(m2, e) && term_built(t, a, old, m1, b) && term_built(t, k1, m1, m2, e)
                                    && expr_core::pow_result(m2, new, b, e, id)
                        } else {
                            false
                        },
                        None => false,
                    }
                } else if h == seq!['I', 'n', 't'] {
                    a < t.len() && expr_core::interned(old, new, id, Op::Integer, expr_core::int_key(tok_int(t[a])->0), Seq::empty())
                } else if h == seq!['R', 'a', 't'] {
                    a + 1 < t.len() && expr_core::interned(
                        old,
                        new,
                        id,
                        expr_core::number_key(tok_int(t[a])->0, tok_int(t[a + 1])->0).0,
                        expr_core::number_key(tok_int(t[a])->0, tok_int(t[a + 1])->0).1,
                        Seq::empty(),
                    )
                } else if h == seq!['S', 'y', 'm'] {
                    a < t.len() && expr_core::interned(old, new, id, Op::Symbol, (1, tok_name(t[a])->0, 0, 0), Seq::empty())
                } else if h == seq!['F', 'n'] {
                    a < t.len() && exists|mid: Seq<Node>, ids: Seq<ExprId>|
                        #![trigger expr_core::extends(old, mid), expr_core::valid_ids(mid, ids)]
                        expr_core::extends(old, mid) && expr_core::valid_ids(mid, ids) && terms_built(t, a + 1, old, mid, ids)
                            && expr_core::interned(mid, new, id, Op::Function, (4, tok_name(t[a])->0, 0, 0), ids)
                } else {
                    false
                }
            },
        }
    }
}

/// No sum or product met in building the term at token `i` from store `old` overflows:
/// for every way the parts before it were built, the numbers of each sum or product stay
/// in range.
pub open spec fn term_fits(t: Seq<TokV>, i: int, old: Seq<Node>) -> bool
    decreases t.len() - i, 1int,
{
    if 0 <= i < t.len() && t[i] is LParen {
        list_fits(t, i, old)
    } else {
        true
    }
}

/// No sum or product met in building the terms from token `k` up to `)` overflows.
pub open spec fn terms_fits(t: Seq<TokV>, k: int, old: Seq<Node>) -> bool
    decreases t.len() - k, 2int,
{
    if !(0 <= k < t.len()) || t[k] is RParen {
        true
    } else {
        &&& term_fits(t, k, old)
        &&& match term_end(t, k) {
            Some(k2) => if k < k2 <= t.len() {
                forall|mid: Seq<Node>, id: ExprId| #[trigger] term_built(t, k, old, mid, id) ==> terms_fits(t, k2, mid)
            } else {
                true
            },
            None => true,
        }
    }
}

/// No sum or product met in building the list that opens at token `i` overflows.
pub open spec fn list_fits(t: Seq<TokV>, i: int, old: Seq<Node>) -> bool
    decreases t.len() - i, 0int,
{
    if !(0 <= i && i + 1 < t.len()) {
        true
    } else {
        match tok_name(t[i + 1]) {
            None => true,
            Some(h) => {
                let a = i + 2;
                if h == seq!['+'] || h == seq!['*'] {
                    &&& terms_fits(t, a, old)
                    &&& forall|mid: Seq<Node>, ids: Seq<ExprId>|
                        #[trigger] terms_built(t, a, old, mid, ids) ==> if h == seq!['+'] {
                            expr_core::add_flatten(mid, ids).1 is Some
                        } else {
                            expr_core::mul_flatten(mid, ids).1 is Some
                        }
                } else if h == seq!['^'] {
                    &&& term_fits(t, a, old)
                    &&& match term_end(t, a) {
                        Some(k1) => if a < k1 {
                            forall|m1: Seq<Node>, b: ExprId| #[trigger] term_built(t, a, old, m1, b) ==> term_fits(t, k1, m1)
                        } else {
                            true
                        },
                        None => true,
                    }
                } else if h == seq!['F', 'n'] {
                    a < t.len() ==> terms_fits(t, a + 1, old)
                } else {
                    true
                }
            },
        }
    }
}

/// `s` is the text of one expression: it lexes, and its tokens form exactly one term.
pub open spec fn accepts(s: Seq<char>) -> bool {
    match lex(s, 0) {
        Some(t) => term_end(t, 0) == Some(t.len() as int),
        None => false,
    }
}

/// Whether `c` is ASCII whitespace.
pub(crate) fn is_space(c: char) -> (b: bool)
    ensures
        b == is_ws(c),
{
    c == ' ' || c == '\t' || c == '\n' || c == '\x0C' || c == '\r'
}

/// The first index from `i` on that is not whitespace.
pub(crate) fn skip_spaces(s: &str, n: usize, i: usize) -> (j: usize)
    requires
        n == s@.len(),
        i <= n,
    ensures
        j == skip_ws(s@, i as int),
        i <= j <= n,
{
    let mut j = i;
    while j < n
        invariant
            n == s@.len(),
            i <= j <= n,
            skip_ws(s@, j as int) == skip_ws(s@, i as int),
        decreases n - j,
    {
        if !is_space(s.get_char(j)) {
            return j;
        }
        j = j + 1;
    }
    j
}

/// The end of the run of integer characters from `i`.
fn int_end(s: &str, n: usize, i: usize) -> (e: usize)
    requires
        n == s@.len(),
        i <= n,
    ensures
        e == int_run(s@, i as int),
        i <= e <= n,
{
    let mut e = i;
    while e < n
        invariant
            n == s@.len(),
            i <= e <= n,
            int_run(s@, e as int) == int_run(s@, i as int),
        decreases n - e,
    {
        let c = s.get_char(e);
        if !(c == '-' || ('0' <= c && c <= '9')) {
            return e;
        }
        e = e + 1;
    }
    e
}

/// The end of the run of symbol characters from `i`.
fn sym_end(s: &str, n: usize, i: usize) -> (e: usize)
    requires
        n == s@.len(),
        i <= n,
    ensures
        e == sym_run(s@, i as int),
        i <= e <= n,
{
    let mut e = i;
    while e < n
        invariant
            n == s@.len(),
            i <= e <= n,
            sym_run(s@, e as int) == sym_run(s@, i as int),
        decreases n - e,
    {
        let c = s.get_char(e);
        if is_space(c) || c == '(' || c == ')' {
            return e;
        }
        e = e + 1;
    }
    e
}

/// The quoted string whose contents start at `k0`: its contents and the index after the
/// closing quote, or `None` when it is not closed.
pub(crate) fn read_quoted(s: &str, n: usize, k0: usize) -> (r: Option<(String, usize)>)
    requires
        n == s@.len(),
        k0 <= n,
    ensures
        match (read_string(s@, k0 as int, Seq::empty()), r) {
            (None, None) => true,
            (Some((text, e)), Some((out, e2))) => out@ == text && e2 as int == e && k0 < e2 <= n,
            _ => false,
        },
{
    let mut out = String::new();
    let mut k = k0;
    while k < n
        invariant
            n == s@.len(),
            k0 <= k <= n,
            read_string(s@, k as int, out@) == read_string(s@, k0 as int, Seq::empty()),
        decreases n - k,
    {
        let c = s.get_char(k);
        if c == '\\' {
            if k + 1 >= n {
                return None;
            }
            let ghost before = out@;
            out.append(s.substring_char(k + 1, k + 2));
            proof {
                assert(out@ =~= before.push(s@[k + 1]));
            }
            k = k + 2;
        } else if c == '"' {
            return Some((out, k + 1));
        } else {
            let ghost before = out@;
            out.append(s.substring_char(k, k + 1));
            proof {
                assert(out@ =~= before.push(s@[k as int]));
            }
            k = k + 1;
        }
    }
    None
}

/// Every digit of a run of decimal digits counts for at least nothing.
proof fn lemma_digits_nonneg(d: Seq<char>)
    requires
        all_digits(d),
    ensures
        digits_value(d) >= 0,
    decreases d.len(),
{
    if d.len() > 0 {
        assert(all_digits(d.drop_last())) by {
            assert forall|k: int| 0 <= k < d.drop_last().len() implies '0' <= #[trigger] d.drop_last()[k] <= '9' by {
                assert(d.drop_last()[k] == d[k]);
            }
        }
        lemma_digits_nonneg(d.drop_last());
        assert('0' <= d[d.len() - 1] <= '9');
    }
}

/// The integer spelled by `s[j..e]`, as `str::parse::<i64>` reads a run of `-` and digits.
pub(crate) fn parse_int_token(s: &str, j: usize, e: usize) -> (r: Option<i64>)
    requires
        j <= e <= s@.len(),
    ensures
        match (parse_i64(s@.subrange(j as int, e as int)), r) {
            (None, None) => true,
            (Some(v), Some(k)) => v == k as int,
            _ => false,
        },
{
    let ghost t = s@.subrange(j as int, e as int);
    let neg = e > j && s.get_char(j) == '-';
    let start = if neg { j + 1 } else { j };
    let ghost d = s@.subrange(start as int, e as int);
    proof {
        if neg {
            assert(t[0] == '-');
            assert(t.subrange(1, t.len() as int) =~= d);
        } else {
            assert(t =~= d);
        }
    }
    if start >= e {
        return None;
    }
    let mut v: u64 = 0;
    let mut over = false;
    let mut k = start;
    proof {
        assert(d.take(0) =~= Seq::<char>::empty());
    }
    while k < e
        invariant
            j <= start < e <= s@.len(),
            start <= k <= e,
            d == s@.subrange(start as int, e as int),
            t == s@.subrange(j as int, e as int),
            neg ==> t.len() > 0 && t[0] == '-' && t.subrange(1, t.len() as int) == d,
            !neg ==> t == d && (t.len() > 0 ==> t[0] != '-'),
            all_digits(d.take(k - start)),
            !over ==> v as int == digits_value(d.take(k - start)) && v <= 0x8000_0000_0000_0000,
            over ==> digits_value(d.take(k - start)) > 0x8000_0000_0000_0000,
        decreases e - k,
    {
        let c = s.get_char(k);
        let ghost m = k - start;
        proof {
            assert(d[m] == c);
            assert(d.take(m + 1).drop_last() =~= d.take(m));
            assert(d.take(m + 1).last() == c);
        }
        if !('0' <= c && c <= '9') {
            proof {
                assert(!all_digits(d));
            }
            return None;
        }
        let dv = (c as u32 - '0' as u32) as u64;
        proof {
            assert(all_digits(d.take(m + 1))) by {
                assert forall|q: int| 0 <= q < d.take(m + 1).len() implies '0' <= #[trigger] d.take(m + 1)[q] <= '9' by {
                    if q < m {
                        assert(d.take(m + 1)[q] == d.take(m)[q]);
                    }
                }
            }
            lemma_digits_nonneg(d.take(m));
        }
        if !over {
            let nv: u128 = v as u128 * 10 + dv as u128;
            if nv > 0x8000_0000_0000_0000 {
                over = true;
            } else {
                v = nv as u64;
            }
        }
        k = k + 1;
    }
    proof {
        assert(d.take(d.len() as int) =~= d);
    }
    if over {
        return None;
    }
    if neg {
        Some((-(v as i128)) as i64)
    } else if v <= 0x7fff_ffff_ffff_ffff {
        Some(v as i64)
    } else {
        None
    }
}

/// Skipping whitespace moves forward, and stops at the end or at a non-space.
pub proof fn lemma_skip_ws(s: Seq<char>, i: int)
    requires
        0 <= i <= s.len(),
    ensures
        i <= skip_ws(s, i) <= s.len(),
        skip_ws(s, i) < s.len() ==> !is_ws(s[skip_ws(s, i)]),
    decreases s.len() - i,
{
    if i < s.len() && is_ws(s[i]) {
        lemma_skip_ws(s, i + 1);
    }
}

/// A run never ends before it starts.
proof fn lemma_runs_forward(s: Seq<char>, i: int)
    requires
        0 <= i <= s.len(),
    ensures
        i <= int_run(s, i) <= s.len(),
        i <= sym_run(s, i) <= s.len(),
    decreases s.len() - i,
{
    if i < s.len() {
        lemma_runs_forward(s, i + 1);
    }
}

/// The tokens of `s`, or the lexical error met.
fn lex_all(s: &str) -> (r: Result<Vec<Tok>, String>)
    ensures
        match (lex(s@, 0), r) {
            (Some(ts), Ok(toks)) => toks_view(toks@) == ts,
            (None, Err(_)) => true,
            _ => false,
        },
{
    let n = s.unicode_len();
    let mut toks: Vec<Tok> = Vec::new();
    let mut i: usize = 0;
    proof {
        assert(toks_view(toks@) =~= Seq::<TokV>::empty());
        assert(lex(s@, 0) == (match lex(s@, 0) {
            Some(rest) => Some(Seq::<TokV>::empty() + rest),
            None => None,
        })) by {
            if let Some(rest) = lex(s@, 0) {
                assert(Seq::<TokV>::empty() + rest =~= rest);
            }
        }
    }
    loop
        invariant
            n == s@.len(),
            i <= n,
            lex(s@, 0) == (match lex(s@, i as int) {
                Some(rest) => Some(toks_view(toks@) + rest),
                None => None,
            }),
        decreases n - i,
    {
        let j = skip_spaces(s, n, i);
        let ghost pre = toks_view(toks@);
        if j >= n {
            proof {
                assert(pre + Seq::<TokV>::empty() =~= pre);
            }
            return Ok(toks);
        }
        let c = s.get_char(j);
        proof {
            lemma_skip_ws(s@, i as int);
            assert(s@[j as int] == c);
        }
        let ghost tok_v: TokV;
        let next: usize;
        if c == '(' {
            toks.push(Tok::LParen);
            next = j + 1;
            proof { tok_v = TokV::LParen; }
        } else if c == ')' {
            toks.push(Tok::RParen);
            next = j + 1;
            proof { tok_v = TokV::RParen; }
        } else if c == '"' {
            match read_quoted(s, n, j + 1) {
                None => {
                    return Err(String::from_str("unterminated string"));
                },
                Some((text, k)) => {
                    proof { tok_v = TokV::Str(text@); }
                    toks.push(Tok::Str(text));
                    next = k;
                },
            }
        } else if c == '-' || ('0' <= c && c <= '9') {
            let e = int_end(s, n, j);
            proof {
                assert(int_char(c));
                lemma_runs_forward(s@, j as int + 1);
            }
            match parse_int_token(s, j, e) {
                None => {
                    let mut msg = String::from_str("invalid int: ");
                    msg.append(s.substring_char(j, e));
                    return Err(msg);
                },
                Some(v) => {
                    toks.push(Tok::Int(v));
                    next = e;
                    proof { tok_v = TokV::Int(v as int); }
                },
            }
        } else {
            let e = sym_end(s, n, j);
            proof {
                assert(sym_char(c));
                lemma_runs_forward(s@, j as int + 1);
            }
            let name = String::from_str(s.substring_char(j, e));
            proof { tok_v = TokV::Sym(name@); }
            toks.push(Tok::Sym(name));
            next = e;
        }
        proof {
            assert(i < next <= n);
            assert(lex(s@, i as int) == (match lex(s@, next as int) {
                Some(rest) => Some(seq![tok_v] + rest),
                None => None,
            }));
            assert(toks_view(toks@) =~= pre.push(tok_v));
            if let Some(rest) = lex(s@, next as int) {
                assert(pre + (seq![tok_v] + rest) =~= pre.push(tok_v) + rest);
            }
        }
        i = next;
    }
}

/// An optional string by its characters.
pub open spec fn opt_text(o: Option<String>) -> Option<Seq<char>> {
    match o {
        Some(x) => Some(x@),
        None => None,
    }
}

/// The name the token at `i` gives, if any.
fn name_at(toks: &Vec<Tok>, i: usize) -> (r: Option<String>)
    requires
        i < toks@.len(),
    ensures
        opt_text(r) == tok_name(tok_view(toks@[i as int])),
{
    match &toks[i] {
        Tok::Sym(x) => Some(x.clone()),
        Tok::Str(x) => Some(x.clone()),
        _ => None,
    }
}

/// The integer the token at `i` holds, if any.
fn int_at(toks: &Vec<Tok>, i: usize) -> (r: Option<i64>)
    requires
        i < toks@.len(),
    ensures
        match (tok_int(tok_view(toks@[i as int])), r) {
            (None, None) => true,
            (Some(v), Some(k)) => v == k as int,
            _ => false,
        },
{
    match &toks[i] {
        Tok::Int(k) => Some(*k),
        _ => None,
    }
}

/// Whether the token at `i` is `)`.
fn is_close(toks: &Vec<Tok>, i: usize) -> (b: bool)
    requires
        i < toks@.len(),
    ensures
        b == (tok_view(toks@[i as int]) is RParen),
{
    match &toks[i] {
        Tok::RParen => true,
        _ => false,
    }
}

/// What parsing a term at `i` may give: on success the term's end and a node of the
/// store; failure whenever no term starts there.
pub open spec fn parse_outcome(end: Option<int>, r: Result<(ExprId, usize), String>, nodes: Seq<Node>) -> bool {
    &&& (r matches Ok((id, j)) ==> end == Some(j as int) && id.0 < nodes.len())
    &&& (end is None ==> r is Err)
}

/// The term at token `i`, added to the store.
fn parse_term(st: &mut Store, toks: &Vec<Tok>, i: usize) -> (r: Result<(ExprId, usize), String>)
    requires
        old(st).wf(),
        i <= toks@.len(),
    ensures
        final(st).wf(),
        expr_core::extends(old(st).nodes(), final(st).nodes()),
        parse_outcome(term_end(toks_view(toks@), i as int), r, final(st).nodes()),
        r matches Ok((id, j)) ==> i < j <= toks@.len() && term_built(
            toks_view(toks@),
            i as int,
            old(st).nodes(),
            final(st).nodes(),
            id,
        ),
        r is Err ==> term_end(toks_view(toks@), i as int) is None || !term_fits(
            toks_view(toks@),
            i as int,
            old(st).nodes(),
        ),
    decreases toks@.len() - i, 1int,
{
    if i >= toks.len() {
        return Err(String::from_str("unexpected end of input"));
    }
    match &toks[i] {
        Tok::LParen => parse_list(st, toks, i),
        Tok::RParen => Err(String::from_str("unexpected token while parsing")),
        Tok::Int(k) => {
            let id = st.integer(*k);
            Ok((id, i + 1))
        },
        Tok::Sym(x) => {
            let id = st.sym(x.as_str());
            Ok((id, i + 1))
        },
        Tok::Str(x) => {
            let id = st.sym(x.as_str());
            Ok((id, i + 1))
        },
    }
}

/// The terms from token `j` up to a `)`, added to the store in order, and the index of
/// that `)`.
fn parse_terms(st: &mut Store, toks: &Vec<Tok>, j: usize) -> (r: Result<(Vec<ExprId>, usize), String>)
    requires
        old(st).wf(),
        j <= toks@.len(),
    ensures
        final(st).wf(),
        expr_core::extends(old(st).nodes(), final(st).nodes()),
        r matches Ok((ids, c)) ==> terms_end(toks_view(toks@), j as int) == Some(c as int) && j <= c < toks@.len()
            && expr_core::valid_ids(final(st).nodes(), ids@)
            && terms_built(toks_view(toks@), j as int, old(st).nodes(), final(st).nodes(), ids@),
        terms_end(toks_view(toks@), j as int) is None ==> r is Err,
        r is Err ==> terms_end(toks_view(toks@), j as int) is None || !terms_fits(
            toks_view(toks@),
            j as int,
            old(st).nodes(),
        ),
    decreases toks@.len() - j, 2int,
{
    let ghost t = toks_view(toks@);
    let ghost nodes0 = st.nodes();
    if j >= toks.len() {
        return Err(String::from_str("unexpected end of input"));
    }
    if is_close(toks, j) {
        let ids: Vec<ExprId> = Vec::new();
        proof {
            assert(ids@ =~= Seq::<ExprId>::empty());
        }
        return Ok((ids, j));
    }
    let (id, k2) = match parse_term(st, toks, j) {
        Ok(p) => p,
        Err(e) => {
            return Err(e);
        },
    };
    let ghost mid = st.nodes();
    let (rest, c) = match parse_terms(st, toks, k2) {
        Ok(p) => p,
        Err(e) => {
            proof {
                expr_core::lemma_extends_trans(nodes0, mid, st.nodes());
            }
            return Err(e);
        },
    };
    proof {
        expr_core::lemma_extends_trans(nodes0, mid, st.nodes());
    }
    let mut ids = rest;
    let ghost rest_v = ids@;
    ids.insert(0, id);
    proof {
        assert(ids@.drop_first() =~= rest_v);
        assert(ids@[0] == id);
        assert(expr_core::extends(nodes0, mid));
        assert forall|q: int| 0 <= q < ids@.len() implies (#[trigger] ids@[q]).0 < st.nodes().len() by {
            if q > 0 {
                assert(ids@[q] == rest_v[q - 1]);
            }
        }
    }
    Ok((ids, c))
}

/// The list that opens at token `i`, added to the store.
fn parse_list(st: &mut Store, toks: &Vec<Tok>, i: usize) -> (r: Result<(ExprId, usize), String>)
    requires
        old(st).wf(),
        i < toks@.len(),
        toks@[i as int] is LParen,
    ensures
        final(st).wf(),
        expr_core::extends(old(st).nodes(), final(st).nodes()),
        parse_outcome(list_end(toks_view(toks@), i as int), r, final(st).nodes()),
        r matches Ok((id, j)) ==> i < j <= toks@.len() && list_built(
            toks_view(toks@),
            i as int,
            old(st).nodes(),
            final(st).nodes(),
            id,
        ),
        r is Err ==> list_end(toks_view(toks@), i as int) is None || !list_fits(
            toks_view(toks@),
            i as int,
            old(st).nodes(),
        ),
    decreases toks@.len() - i, 0int,
{
    let ghost t = toks_view(toks@);
    let ghost nodes0 = st.nodes();
    let len = toks.len();
    if i + 1 >= len {
        return Err(String::from_str("expected symbol or string"));
    }
    let head = match name_at(toks, i + 1) {
        Some(h) => h,
        None => {
            return Err(String::from_str("expected symbol or string"));
        },
    };
    let a = i + 2;
    let ghost h = head@;
    proof {
        reveal_strlit("+");
        reveal_strlit("*");
        reveal_strlit("^");
        reveal_strlit("Int");
        reveal_strlit("Rat");
        reveal_strlit("Sym");
        reveal_strlit("Fn");
        assert("+"@ =~= seq!['+']);
        assert("*"@ =~= seq!['*']);
        assert("^"@ =~= seq!['^']);
        assert("Int"@ =~= seq!['I', 'n', 't']);
        assert("Rat"@ =~= seq!['R', 'a', 't']);
        assert("Sym"@ =~= seq!['S', 'y', 'm']);
        assert("Fn"@ =~= seq!['F', 'n']);
    }
    let is_plus = text::string_is(&head, "+");
    let is_times = text::string_is(&head, "*");
    let (id, c): (ExprId, usize) = if is_plus || is_times {
        match parse_terms(st, toks, a) {
            Err(e) => {
                return Err(e);
            },
            Ok((ids, c)) => {
                let ghost mid = st.nodes();
                proof {
                    assert(expr_core::extends(nodes0, mid) && expr_core::valid_ids(mid, ids@));
                }
                if is_plus {
                    if !st.sum_fits(&ids) {
                        return Err(String::from_str("sum out of range"));
                    }
                    let id = st.add(ids);
                    proof {
                        expr_core::lemma_extends_trans(nodes0, mid, st.nodes());
                    }
                    (id, c)
                } else {
                    if !st.product_fits(&ids) {
                        return Err(String::from_str("product out of range"));
                    }
                    let id = st.mul(ids);
                    proof {
                        expr_core::lemma_extends_trans(nodes0, mid, st.nodes());
                    }
                    (id, c)
                }
            },
        }
    } else if text::string_is(&head, "^") {
        let (b, k) = match parse_term(st, toks, a) {
            Err(e) => {
                return Err(e);
            },
            Ok(p) => p,
        };
        let ghost mid = st.nodes();
        let (e, k2) = match parse_term(st, toks, k) {
            Err(e) => {
                proof {
                    expr_core::lemma_extends_trans(nodes0, mid, st.nodes());
                    assert(term_built(t, a as int, nodes0, mid, b));
                }
                return Err(e);
            },
            Ok(p) => p,
        };
        let ghost mid2 = st.nodes();
        proof {
            expr_core::lemma_extends_trans(nodes0, mid, mid2);
        }
        let id = st.pow(b, e);
        proof {
            expr_core::lemma_extends_trans(nodes0, mid2, st.nodes());
            assert(expr_core::extends(nodes0, mid) && holds_id(mid, b) && expr_core::extends(mid, mid2)
                && holds_id(mid2, e));
        }
        (id, k2)
    } else if text::string_is(&head, "Int") {
        if a >= toks.len() {
            return Err(String::from_str("expected integer"));
        }
        match int_at(toks, a) {
            Some(k) => (st.integer(k), a + 1),
            None => {
                return Err(String::from_str("expected integer"));
            },
        }
    } else if text::string_is(&head, "Rat") {
        if a >= len || a + 1 >= len {
            return Err(String::from_str("expected integer"));
        }
        let (num, den) = match (int_at(toks, a), int_at(toks, a + 1)) {
            (Some(num), Some(den)) => (num, den),
            _ => {
                return Err(String::from_str("expected integer"));
            },
        };
        if den == 0 || num == i64::MIN || den == i64::MIN {
            return Err(String::from_str("invalid rational"));
        }
        (st.rat(num, den), a + 2)
    } else if text::string_is(&head, "Sym") {
        if a >= toks.len() {
            return Err(String::from_str("expected symbol or string"));
        }
        match name_at(toks, a) {
            Some(name) => (st.sym(name.as_str()), a + 1),
            None => {
                return Err(String::from_str("expected symbol or string"));
            },
        }
    } else if text::string_is(&head, "Fn") {
        if a >= toks.len() {
            return Err(String::from_str("expected symbol or string"));
        }
        let name = match name_at(toks, a) {
            Some(name) => name,
            None => {
                return Err(String::from_str("expected symbol or string"));
            },
        };
        match parse_terms(st, toks, a + 1) {
            Err(e) => {
                return Err(e);
            },
            Ok((args, c)) => {
                let ghost mid = st.nodes();
                proof {
                    assert(expr_core::extends(nodes0, mid) && expr_core::valid_ids(mid, args@));
                }
                let id = st.func(name.as_str(), args);
                proof {
                    expr_core::lemma_extends_trans(nodes0, mid, st.nodes());
                }
                (id, c)
            },
        }
    } else {
        let mut msg = String::from_str("unknown head: ");
        msg.append(head.as_str());
        return Err(msg);
    };
    proof {
        assert(head_body(t, a as int, h) == Some(c as int));
    }
    if c < toks.len() && is_close(toks, c) {
        Ok((id, c + 1))
    } else {
        Err(String::from_str("unexpected token"))
    }
}

/// The tokens of `s` (none when it does not lex).
pub open spec fn lexed(s: Seq<char>) -> Seq<TokV> {
    match lex(s, 0) {
        Some(t) => t,
        None => Seq::empty(),
    }
}

/// Parses the S-expression `input` into `st` (`term_built`, when `accepts`); an error
/// when it is not the text of one expression, and otherwise only when a sum or product
/// of numbers would overflow (`term_fits`).
pub fn from_sexpr(st: &mut Store, input: &str) -> (r: Result<ExprId, String>)
    requires
        old(st).wf(),
    ensures
        final(st).wf(),
        expr_core::extends(old(st).nodes(), final(st).nodes()),
        r matches Ok(id) ==> accepts(input@) && id.0 < final(st).nodes().len() && term_built(
            lexed(input@),
            0,
            old(st).nodes(),
            final(st).nodes(),
            id,
        ),
        !accepts(input@) ==> r is Err,
        r is Err ==> !accepts(input@) || !term_fits(lexed(input@), 0, old(st).nodes()),
{
    let toks = match lex_all(input) {
        Ok(toks) => toks,
        Err(e) => {
            return Err(e);
        },
    };
    let (id, j) = match parse_term(st, &toks, 0) {
        Ok(p) => p,
        Err(e) => {
            return Err(e);
        },
    };
    if j < toks.len() {
        return Err(String::from_str("trailing tokens"));
    }
    Ok(id)
}

/// The decimal digits of `n` are digits, at least one, and read back as `n`.
pub(crate) proof fn lemma_nat_digits_value(n: nat)
    ensures
        text::nat_digits(n).len() >= 1,
        all_digits(text::nat_digits(n)),
        digits_value(text::nat_digits(n)) == n,
    decreases n,
{
    let d = text::nat_digits(n);
    if n < 10 {
        assert(d.drop_last() =~= Seq::<char>::empty());
        assert(digits_value(Seq::<char>::empty()) == 0);
    } else {
        lemma_nat_digits_value(n / 10);
        let last = text::digit_char((n % 10) as int);
        assert(d == text::nat_digits(n / 10).push(last));
        assert(d.drop_last() =~= text::nat_digits(n / 10));
        assert(forall|k: int| 0 <= k < d.len() ==> '0' <= #[trigger] d[k] <= '9') by {
            assert forall|k: int| 0 <= k < d.len() implies '0' <= #[trigger] d[k] <= '9' by {
                if k < d.len() - 1 {
                    assert(d[k] == text::nat_digits(n / 10)[k]);
                }
            }
        }
    }
}

/// The run of integer characters from `i` ends at `e` when `s[i..e]` are all integer
/// characters and `s[e]` is not.
proof fn lemma_int_run_to(s: Seq<char>, i: int, e: int)
    requires
        0 <= i <= e <= s.len(),
        forall|k: int| i <= k < e ==> int_char(#[trigger] s[k]),
        e < s.len() ==> !int_char(s[e]),
    ensures
        int_run(s, i) == e,
    decreases e - i,
{
    if i < e {
        lemma_int_run_to(s, i + 1, e);
    }
}

/// The run of symbol characters from `i` ends at `e` under the same conditions.
proof fn lemma_sym_run_to(s: Seq<char>, i: int, e: int)
    requires
        0 <= i <= e <= s.len(),
        forall|k: int| i <= k < e ==> sym_char(#[trigger] s[k]),
        e < s.len() ==> !sym_char(s[e]),
    ensures
        sym_run(s, i) == e,
    decreases e - i,
{
    if i < e {
        lemma_sym_run_to(s, i + 1, e);
    }
}

/// The decimal text of an `i64` parses back to it, and is made of integer characters.
pub(crate) proof fn lemma_int_decimal_parses(k: i64)
    ensures
        text::int_decimal(k as int).len() >= 1,
        forall|j: int| 0 <= j < text::int_decimal(k as int).len() ==> int_char(#[trigger] text::int_decimal(k as int)[j]),
        parse_i64(text::int_decimal(k as int)) == Some(k as int),
{
    let d = text::int_decimal(k as int);
    if k < 0 {
        let n = (-(k as int)) as nat;
        lemma_nat_digits_value(n);
        let nd = text::nat_digits(n);
        assert(d == seq!['-'] + nd);
        assert(d.subrange(1, d.len() as int) =~= nd);
        assert forall|j: int| 0 <= j < d.len() implies int_char(#[trigger] d[j]) by {
            if j > 0 {
                assert(d[j] == nd[j - 1]);
            }
        }
    } else {
        lemma_nat_digits_value(k as nat);
        assert(d[0] != '-');
    }
}

/// Reading back the S-expression of an integer node: the text `(Int k)` is accepted, and
/// the term read from it is exactly the integer `k` interned into the store.
#[verifier::spinoff_prover]
pub proof fn lemma_sexpr_integer_reads_back(nodes: Seq<Node>, id: int, k: i64, old: Seq<Node>, new: Seq<Node>, r: ExprId)
    requires
        0 <= id < nodes.len(),
        nodes[id].op == Op::Integer,
        nodes[id].payload == Payload::Int(k),
    ensures
        accepts(sexpr(nodes, id)),
        term_built(lexed(sexpr(nodes, id)), 0, old, new, r) <==> expr_core::interned(
            old,
            new,
            r,
            Op::Integer,
            expr_core::int_key(k as int),
            Seq::empty(),
        ),
{
    let d = text::int_decimal(k as int);
    let s = sexpr(nodes, id);
    assert(s == seq!['(', 'I', 'n', 't', ' '] + d + seq![')']);
    lemma_int_decimal_parses(k);
    let e: int = 5 + d.len() as int;
    assert(s.len() == e + 1);
    assert(s[e] == ')');
    assert forall|j: int| 5 <= j < e implies int_char(#[trigger] s[j]) by {
        assert(s[j] == d[j - 5]);
    }
    assert(s.subrange(5, e) =~= d);
    lemma_int_run_to(s, 5, e);
    assert(s[0] == '(' && s[1] == 'I' && s[2] == 'n' && s[3] == 't' && s[4] == ' ' && s[5] == d[0]);
    lemma_sym_run_to(s, 1, 4);
    assert(s.subrange(1, 4) =~= seq!['I', 'n', 't']);
    assert(skip_ws(s, e + 1) == e + 1);
    assert(lex(s, e + 1) == Some(Seq::<TokV>::empty()));
    assert(skip_ws(s, e) == e);
    assert(lex(s, e) == Some(seq![TokV::RParen]));
    assert(skip_ws(s, 5) == 5);
    assert(skip_ws(s, 4) == 5);
    assert(lex(s, 4) == Some(seq![TokV::Int(k as int)] + seq![TokV::RParen]));
    assert(skip_ws(s, 1) == 1);
    assert(lex(s, 1) == Some(seq![TokV::Sym(seq!['I', 'n', 't'])] + (seq![TokV::Int(k as int)] + seq![TokV::RParen])));
    assert(skip_ws(s, 0) == 0);
    let t = seq![TokV::LParen, TokV::Sym(seq!['I', 'n', 't']), TokV::Int(k as int), TokV::RParen];
    assert(lex(s, 0) == Some(t)) by {
        assert(seq![TokV::LParen] + (seq![TokV::Sym(seq!['I', 'n', 't'])] + (seq![TokV::Int(k as int)] + seq![TokV::RParen])) =~= t);
    }
    assert(lexed(s) == t);
    assert(head_body(t, 2, seq!['I', 'n', 't']) == Some(3int));
    assert(list_end(t, 0) == Some(4int));
    assert(term_end(t, 0) == Some(4int));
}

/// Escaping distributes over concatenation.
pub(crate) proof fn lemma_escape_concat(a: Seq<char>, b: Seq<char>)
    ensures
        escape_name(a + b) == escape_name(a) + escape_name(b),
    decreases b.len(),
{
    if b.len() == 0 {
        assert(a + b =~= a);
        assert(escape_name(b) =~= Seq::<char>::empty());
        assert(escape_name(a) + escape_name(b) =~= escape_name(a));
    } else {
        lemma_escape_concat(a, b.drop_last());
        assert((a + b).drop_last() =~= a + b.drop_last());
        assert((a + b).last() == b.last());
        let tail = if b.last() == '"' || b.last() == '\\' {
            seq!['\\', b.last()]
        } else {
            seq![b.last()]
        };
        assert(escape_name(a) + escape_name(b.drop_last()) + tail =~= escape_name(a) + (escape_name(b.drop_last()) + tail));
    }
}

/// Reading a quoted string over an escaped name gives the name back, and stops just
/// after the closing quote.
pub(crate) proof fn lemma_read_escaped(s: Seq<char>, k: int, x: Seq<char>, acc: Seq<char>)
    requires
        0 <= k,
        k + escape_name(x).len() < s.len(),
        s.subrange(k, k + escape_name(x).len()) == escape_name(x),
        s[k + escape_name(x).len()] == '"',
    ensures
        read_string(s, k, acc) == Some((acc + x, k + escape_name(x).len() + 1)),
    decreases x.len(),
{
    if x.len() == 0 {
        assert(escape_name(x) =~= Seq::<char>::empty());
        assert(acc + x =~= acc);
    } else {
        let c = x[0];
        let rest = x.drop_first();
        assert(x =~= seq![c] + rest);
        lemma_escape_concat(seq![c], rest);
        assert(seq![c].drop_last() =~= Seq::<char>::empty());
        assert(escape_name(Seq::<char>::empty()) =~= Seq::<char>::empty());
        let ec = escape_name(seq![c]);
        let er = escape_name(rest);
        assert(escape_name(x) == ec + er);
        assert(ec =~= (if c == '"' || c == '\\' { seq!['\\', c] } else { seq![c] }));
        let k2 = k + ec.len();
        assert(s.subrange(k2, k2 + er.len()) =~= er) by {
            assert forall|j: int| 0 <= j < er.len() implies s.subrange(k2, k2 + er.len())[j] == er[j] by {
                assert(s[k2 + j] == s.subrange(k, k + escape_name(x).len())[ec.len() + j]);
            }
        }
        assert(s[k] == ec[0]) by {
            assert(s[k] == s.subrange(k, k + escape_name(x).len())[0]);
        }
        if c == '"' || c == '\\' {
            assert(s[k + 1] == c) by {
                assert(s[k + 1] == s.subrange(k, k + escape_name(x).len())[1]);
            }
        }
        lemma_read_escaped(s, k2, rest, acc.push(c));
        assert(acc.push(c) + rest =~= acc + x);
    }
}

/// A name whose S-expression text reads back as that name: nonempty, and either quoted
/// or bare without a leading digit or `-` (a bare name that starts like a number lexes as
/// one).
pub open spec fn name_reads_back(name: Seq<char>) -> bool {
    name.len() > 0 && (!all_bare(name) || !int_char(name[0]))
}

/// Reading back the S-expression of a symbol node whose name `name_reads_back`: the text
/// `(Sym name)` is accepted, and the term read from it is exactly the symbol of that name
/// interned into the store.
#[verifier::spinoff_prover]
pub proof fn lemma_sexpr_symbol_reads_back(nodes: Seq<Node>, id: int, name: String, old: Seq<Node>, new: Seq<Node>, r: ExprId)
    requires
        0 <= id < nodes.len(),
        nodes[id].op == Op::Symbol,
        nodes[id].payload == Payload::Sym(name),
        name_reads_back(name@),
    ensures
        accepts(sexpr(nodes, id)),
        term_built(lexed(sexpr(nodes, id)), 0, old, new, r) <==> expr_core::interned(
            old,
            new,
            r,
            Op::Symbol,
            (1, name@, 0, 0),
            Seq::empty(),
        ),
{
    let x = name@;
    let d = name_text(x);
    let s = sexpr(nodes, id);
    assert(s == seq!['(', 'S', 'y', 'm', ' '] + d + seq![')']);
    let e: int = 5 + d.len() as int;
    assert(s.len() == e + 1);
    assert(s[e] == ')');
    assert(s.subrange(5, e) =~= d);
    assert(s[0] == '(' && s[1] == 'S' && s[2] == 'y' && s[3] == 'm' && s[4] == ' ');
    lemma_sym_run_to(s, 1, 4);
    assert(s.subrange(1, 4) =~= seq!['S', 'y', 'm']);
    assert(skip_ws(s, e + 1) == e + 1);
    assert(lex(s, e + 1) == Some(Seq::<TokV>::empty()));
    assert(skip_ws(s, e) == e);
    assert(lex(s, e) == Some(seq![TokV::RParen]));
    let tok = if all_bare(x) { TokV::Sym(x) } else { TokV::Str(x) };
    if all_bare(x) {
        assert(d == x);
        assert(s[5] == x[0]);
        assert forall|j: int| 5 <= j < e implies sym_char(#[trigger] s[j]) by {
            assert(s[j] == x[j - 5]);
            assert(bare_name_char(x[j - 5]));
        }
        lemma_sym_run_to(s, 5, e);
        assert(bare_name_char(x[0]));
        assert(skip_ws(s, 5) == 5);
        assert(lex(s, 5) == Some(seq![tok] + seq![TokV::RParen]));
    } else {
        let ex = escape_name(x);
        let el: int = ex.len() as int;
        assert(d == seq!['"'] + ex + seq!['"']);
        assert(s[5] == '"');
        assert(s.subrange(6, 6 + el) =~= ex);
        assert(s[6 + el] == '"');
        lemma_read_escaped(s, 6, x, Seq::empty());
        assert(Seq::<char>::empty() + x =~= x);
        assert(6 + el + 1 == e);
        assert(skip_ws(s, 5) == 5);
        assert(lex(s, 5) == Some(seq![tok] + seq![TokV::RParen]));
    }
    assert(skip_ws(s, 4) == 5);
    assert(lex(s, 4) == lex(s, 5)) by {
        assert(skip_ws(s, 4) == skip_ws(s, 5));
    }
    assert(skip_ws(s, 1) == 1);
    assert(lex(s, 1) == Some(seq![TokV::Sym(seq!['S', 'y', 'm'])] + (seq![tok] + seq![TokV::RParen])));
    assert(skip_ws(s, 0) == 0);
    let t = seq![TokV::LParen, TokV::Sym(seq!['S', 'y', 'm']), tok, TokV::RParen];
    assert(lex(s, 0) == Some(t)) by {
        assert(seq![TokV::LParen] + (seq![TokV::Sym(seq!['S', 'y', 'm'])] + (seq![tok] + seq![TokV::RParen])) =~= t);
    }
    assert(lexed(s) == t);
    assert(tok_name(tok) == Some(x));
    assert(head_body(t, 2, seq!['S', 'y', 'm']) == Some(3int));
    assert(list_end(t, 0) == Some(4int));
    assert(term_end(t, 0) == Some(4int));
}

/// Reading back the S-expression of a fraction node in lowest terms (denominator above 1,
/// numerator above `i64::MIN`): the text `(Rat p q)` is accepted, and the term read from
/// it is exactly the fraction `p/q` interned into the store.
#[verifier::spinoff_prover]
pub proof fn lemma_sexpr_rational_reads_back(nodes: Seq<Node>, id: int, p: i64, q: i64, old: Seq<Node>, new: Seq<Node>, r: ExprId)
    requires
        0 <= id < nodes.len(),
        nodes[id].op == Op::Rational,
        nodes[id].payload == Payload::Rat(p, q),
        arith::is_reduced(p as int, q as int),
        q != 1,
        p != i64::MIN,
    ensures
        accepts(sexpr(nodes, id)),
        term_built(lexed(sexpr(nodes, id)), 0, old, new, r) <==> expr_core::interned(
            old,
            new,
            r,
            Op::Rational,
            (3, Seq::empty(), p as int, q as int),
            Seq::empty(),
        ),
{
    let dp = text::int_decimal(p as int);
    let dq = text::int_decimal(q as int);
    let s = sexpr(nodes, id);
    assert(s == seq!['(', 'R', 'a', 't', ' '] + dp + seq![' '] + dq + seq![')']);
    lemma_int_decimal_parses(p);
    lemma_int_decimal_parses(q);
    let e1: int = 5 + dp.len() as int;
    let e2: int = e1 + 1 + dq.len() as int;
    assert(s.len() == e2 + 1);
    assert(s[e1] == ' ');
    assert(s[e2] == ')');
    assert(s.subrange(5, e1) =~= dp);
    assert(s.subrange(e1 + 1, e2) =~= dq);
    assert forall|j: int| 5 <= j < e1 implies int_char(#[trigger] s[j]) by {
        assert(s[j] == dp[j - 5]);
    }
    assert forall|j: int| e1 + 1 <= j < e2 implies int_char(#[trigger] s[j]) by {
        assert(s[j] == dq[j - e1 - 1]);
    }
    lemma_int_run_to(s, 5, e1);
    lemma_int_run_to(s, e1 + 1, e2);
    assert(s[0] == '(' && s[1] == 'R' && s[2] == 'a' && s[3] == 't' && s[4] == ' ' && s[5] == dp[0]);
    assert(s[e1 + 1] == dq[0]);
    lemma_sym_run_to(s, 1, 4);
    assert(s.subrange(1, 4) =~= seq!['R', 'a', 't']);
    assert(skip_ws(s, e2 + 1) == e2 + 1);
    assert(lex(s, e2 + 1) == Some(Seq::<TokV>::empty()));
    assert(skip_ws(s, e2) == e2);
    assert(lex(s, e2) == Some(seq![TokV::RParen]));
    assert(skip_ws(s, e1 + 1) == e1 + 1);
    assert(skip_ws(s, e1) == e1 + 1);
    assert(lex(s, e1) == Some(seq![TokV::Int(q as int)] + seq![TokV::RParen]));
    assert(skip_ws(s, 5) == 5);
    assert(skip_ws(s, 4) == 5);
    assert(lex(s, 4) == Some(seq![TokV::Int(p as int)] + (seq![TokV::Int(q as int)] + seq![TokV::RParen])));
    assert(skip_ws(s, 1) == 1);
    assert(lex(s, 1) == Some(seq![TokV::Sym(seq!['R', 'a', 't'])] + (seq![TokV::Int(p as int)] + (seq![
        TokV::Int(q as int),
    ] + seq![TokV::RParen]))));
    assert(skip_ws(s, 0) == 0);
    let t = seq![TokV::LParen, TokV::Sym(seq!['R', 'a', 't']), TokV::Int(p as int), TokV::Int(q as int), TokV::RParen];
    assert(lex(s, 0) == Some(t)) by {
        assert(seq![TokV::LParen] + (seq![TokV::Sym(seq!['R', 'a', 't'])] + (seq![TokV::Int(p as int)] + (seq![
            TokV::Int(q as int),
        ] + seq![TokV::RParen]))) =~= t);
    }
    assert(lexed(s) == t);
    assert(arith::norm_ok(p as int, q as int));
    assert(head_body(t, 2, seq!['R', 'a', 't']) == Some(4int));
    assert(list_end(t, 0) == Some(5int));
    assert(term_end(t, 0) == Some(5int));
    arith::lemma_normalize_reduced(p as int, q as int);
    assert(expr_core::number_key(p as int, q as int) == (Op::Rational, (3int, Seq::<char>::empty(), p as int, q as int)));
}

} // verus!
