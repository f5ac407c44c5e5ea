//! Immutable expression DAG with hash-consing: canonical sums, products and powers,
//! deterministic FNV-1a digests, and a precedence-aware printer.
use vstd::prelude::*;
use crate::arith;
use crate::arith::{normalize_rat, rat_add, rat_mul};
use crate::text;

verus! {

/// The index of a node in a `Store`.
#[derive(Clone, Copy, Debug, PartialEq, Eq, Hash, Structural)]
pub struct ExprId(pub usize);

/// The kind of a node.
#[derive(Clone, Copy, Debug, PartialEq, Eq, Hash, Structural)]
pub enum Op {
    Add,
    Mul,
    Pow,
    Symbol,
    Integer,
    Rational,
    Function,
}

/// The data of an atom: a name, an integer, or a reduced fraction.
#[derive(Clone, Debug, PartialEq, Eq, Hash)]
pub enum Payload {
    Empty,
    Sym(String),
    Int(i64),
    Rat(i64, i64),
    Func(String),
}

/// A node of the expression DAG.
#[derive(Clone, Debug)]
pub struct Node {
    pub op: Op,
    pub payload: Payload,
    pub children: Vec<ExprId>,
    pub digest: u64,
}

/// What identifies a payload: a tag, a name, and up to two integers.
pub open spec fn payload_key(p: Payload) -> (int, Seq<char>, int, int) {
    match p {
        Payload::Empty => (0, Seq::empty(), 0, 0),
        Payload::Sym(s) => (1, s@, 0, 0),
        Payload::Int(k) => (2, Seq::empty(), k as int, 0),
        Payload::Rat(n, d) => (3, Seq::empty(), n as int, d as int),
        Payload::Func(s) => (4, s@, 0, 0),
    }
}

/// The digests of the nodes `ids` refer to.
pub open spec fn digests_of(nodes: Seq<Node>, ids: Seq<ExprId>) -> Seq<u64> {
    ids.map_values(|c: ExprId| nodes[c.0 as int].digest)
}

/// The interning key of node `i`: its kind, payload and child digests.
pub open spec fn key_at(nodes: Seq<Node>, i: int) -> (Op, (int, Seq<char>, int, int), Seq<u64>) {
    (nodes[i].op, payload_key(nodes[i].payload), digests_of(nodes, nodes[i].children@))
}

// ---------- FNV-1a 64 ----------

/// One byte into an FNV-1a state.
pub open spec fn fnv_byte(h: u64, b: u8) -> u64 {
    vstd::wrapping::u64_specs::wrapping_mul(h ^ (b as u64), 0x100000001b3)
}

/// Bytes into an FNV-1a state, in order.
pub open spec fn fnv_bytes(h: u64, bs: Seq<u8>) -> u64
    decreases bs.len(),
{
    if bs.len() == 0 {
        h
    } else {
        fnv_byte(fnv_bytes(h, bs.drop_last()), bs.last())
    }
}

/// The little-endian bytes of `x`.
pub open spec fn le_bytes(x: u64) -> Seq<u8> {
    Seq::new(8, |k: int| ((x >> (8 * k) as u64) & 0xff) as u8)
}

/// Words into an FNV-1a state, each as its little-endian bytes.
pub open spec fn fnv_words(h: u64, ws: Seq<u64>) -> u64
    decreases ws.len(),
{
    if ws.len() == 0 {
        h
    } else {
        fnv_bytes(fnv_words(h, ws.drop_last()), le_bytes(ws.last()))
    }
}

/// The tag of each kind in the digest.
pub open spec fn op_tag(op: Op) -> u8 {
    match op {
        Op::Add => 1,
        Op::Mul => 2,
        Op::Pow => 3,
        Op::Symbol => 4,
        Op::Integer => 5,
        Op::Rational => 6,
        Op::Function => 7,
    }
}

/// The payload written into a digest state.
pub open spec fn fnv_payload(h: u64, p: Payload) -> u64 {
    match p {
        Payload::Empty => fnv_byte(h, 0),
        Payload::Int(k) => fnv_bytes(fnv_byte(h, 1), le_bytes(k as u64)),
        Payload::Rat(n, d) => fnv_bytes(fnv_bytes(fnv_byte(h, 2), le_bytes(n as u64)), le_bytes(d as u64)),
        Payload::Sym(s) => fnv_bytes(fnv_byte(h, 3), vstd::utf8::encode_utf8(s@)),
        Payload::Func(s) => fnv_bytes(fnv_byte(h, 4), vstd::utf8::encode_utf8(s@)),
    }
}

/// The digest of a node: FNV-1a 64 over its kind tag, payload and child digests.
pub open spec fn digest_spec(op: Op, p: Payload, cds: Seq<u64>) -> u64 {
    fnv_words(fnv_payload(fnv_byte(0xcbf29ce484222325, op_tag(op)), p), cds)
}

fn fnv_write_u8(h: u64, x: u8) -> (r: u64)
    ensures
        r == fnv_byte(h, x),
{
    (h ^ (x as u64)).wrapping_mul(0x100000001b3)
}

fn fnv_write_u64(h: u64, x: u64) -> (r: u64)
    ensures
        r == fnv_bytes(h, le_bytes(x)),
{
    let mut g = h;
    let mut k: u64 = 0;
    while k < 8
        invariant
            k <= 8,
            g == fnv_bytes(h, le_bytes(x).take(k as int)),
        decreases 8 - k,
    {
        let b = ((x >> (8 * k)) & 0xff) as u8;
        proof {
            assert(le_bytes(x).take(k as int + 1).drop_last() =~= le_bytes(x).take(k as int));
            assert(le_bytes(x)[k as int] == b);
        }
        g = fnv_write_u8(g, b);
        k = k + 1;
    }
    proof {
        assert(le_bytes(x).take(8) =~= le_bytes(x));
    }
    g
}

fn fnv_write_bytes(h: u64, bs: &[u8]) -> (r: u64)
    ensures
        r == fnv_bytes(h, bs@),
{
    let mut g = h;
    let mut i: usize = 0;
    while i < bs.len()
        invariant
            i <= bs@.len(),
            g == fnv_bytes(h, bs@.take(i as int)),
        decreases bs@.len() - i,
    {
        proof {
            assert(bs@.take(i as int + 1).drop_last() =~= bs@.take(i as int));
        }
        g = fnv_write_u8(g, bs[i]);
        i = i + 1;
    }
    proof {
        assert(bs@.take(bs@.len() as int) =~= bs@);
    }
    g
}

fn op_tag_exec(op: Op) -> (t: u8)
    ensures
        t == op_tag(op),
{
    match op {
        Op::Add => 1,
        Op::Mul => 2,
        Op::Pow => 3,
        Op::Symbol => 4,
        Op::Integer => 5,
        Op::Rational => 6,
        Op::Function => 7,
    }
}

/// The digest of a node with these parts.
fn digest_node(op: Op, payload: &Payload, child_digests: &Vec<u64>) -> (r: u64)
    ensures
        r == digest_spec(op, *payload, child_digests@),
{
    let mut h = fnv_write_u8(0xcbf29ce484222325, op_tag_exec(op));
    match payload {
        Payload::Empty => {
            h = fnv_write_u8(h, 0);
        },
        Payload::Int(k) => {
            h = fnv_write_u8(h, 1);
            h = fnv_write_u64(h, *k as u64);
        },
        Payload::Rat(n, d) => {
            h = fnv_write_u8(h, 2);
            h = fnv_write_u64(h, *n as u64);
            h = fnv_write_u64(h, *d as u64);
        },
        Payload::Sym(s) => {
            h = fnv_write_u8(h, 3);
            h = fnv_write_bytes(h, s.as_str().as_bytes());
        },
        Payload::Func(s) => {
            h = fnv_write_u8(h, 4);
            h = fnv_write_bytes(h, s.as_str().as_bytes());
        },
    }
    let ghost h0 = h;
    let mut i: usize = 0;
    while i < child_digests.len()
        invariant
            i <= child_digests@.len(),
            h == fnv_words(h0, child_digests@.take(i as int)),
        decreases child_digests@.len() - i,
    {
        proof {
            assert(child_digests@.take(i as int + 1).drop_last() =~= child_digests@.take(i as int));
        }
        h = fnv_write_u64(h, child_digests[i]);
        i = i + 1;
    }
    proof {
        assert(child_digests@.take(child_digests@.len() as int) =~= child_digests@);
    }
    h
}

// ---------- Store (arena + interner) ----------

/// An arena of nodes; equal nodes are stored once.
pub struct Store {
    nodes: Vec<Node>,
}

/// Children come before their parents, digests are those of `digest_spec`, and no two
/// nodes share an interning key.
pub open spec fn nodes_wf(nodes: Seq<Node>) -> bool {
    &&& forall|i: int, k: int|
        0 <= i < nodes.len() && 0 <= k < nodes[i].children@.len() ==> (#[trigger] nodes[i].children@[k]).0 < i
    &&& forall|i: int| 0 <= i < nodes.len() ==> #[trigger] nodes[i].digest == digest_spec(
        nodes[i].op,
        nodes[i].payload,
        digests_of(nodes, nodes[i].children@),
    )
    &&& forall|i: int, j: int| 0 <= i < j < nodes.len() ==> #[trigger] key_at(nodes, i) != #[trigger] key_at(nodes, j)
    &&& forall|i: int| 0 <= i < nodes.len() && (#[trigger] nodes[i]).op == Op::Pow ==> nodes[i].children@.len() == 2
}

/// `ids` all refer to nodes of `nodes`.
pub open spec fn valid_ids(nodes: Seq<Node>, ids: Seq<ExprId>) -> bool {
    forall|k: int| 0 <= k < ids.len() ==> (#[trigger] ids[k]).0 < nodes.len()
}

/// `new` keeps every node of `old` and may add more after them.
pub open spec fn extends(old: Seq<Node>, new: Seq<Node>) -> bool {
    &&& old.len() <= new.len()
    &&& forall|i: int| 0 <= i < old.len() ==> #[trigger] new[i] == old[i]
}

/// Some node of `nodes` has this interning key.
pub open spec fn has_key(nodes: Seq<Node>, key: (Op, (int, Seq<char>, int, int), Seq<u64>)) -> bool {
    exists|i: int| 0 <= i < nodes.len() && key_at(nodes, i) == key
}

/// The result of interning a node with key `key` into `old`: the new store keeps the old
/// nodes, `r` has that key, the store is unchanged when the key was present, and
/// otherwise exactly one node with these parts was appended.
pub open spec fn interned(
    old: Seq<Node>,
    new: Seq<Node>,
    r: ExprId,
    op: Op,
    pk: (int, Seq<char>, int, int),
    children: Seq<ExprId>,
) -> bool {
    let key = (op, pk, digests_of(old, children));
    &&& nodes_wf(new)
    &&& extends(old, new)
    &&& r.0 < new.len()
    &&& key_at(new, r.0 as int) == key
    &&& has_key(old, key) ==> new == old
    &&& !has_key(old, key) ==> {
        &&& r.0 == old.len()
        &&& new.len() == old.len() + 1
        &&& new[r.0 as int].op == op
        &&& payload_key(new[r.0 as int].payload) == pk
        &&& new[r.0 as int].children@ == children
    }
}

/// Digests of old nodes are unchanged in an extension.
pub(crate) proof fn lemma_extends_digests(old: Seq<Node>, new: Seq<Node>, ids: Seq<ExprId>)
    requires
        extends(old, new),
        valid_ids(old, ids),
    ensures
        digests_of(new, ids) == digests_of(old, ids),
{
    assert(digests_of(new, ids) =~= digests_of(old, ids));
}

/// Keys of old nodes are unchanged in an extension of a well-formed store.
pub(crate) proof fn lemma_extends_key(old: Seq<Node>, new: Seq<Node>, i: int)
    requires
        extends(old, new),
        nodes_wf(old),
        0 <= i < old.len(),
    ensures
        key_at(new, i) == key_at(old, i),
{
    assert forall|k: int| 0 <= k < old[i].children@.len() implies (#[trigger] old[i].children@[k]).0 < old.len() by {
        assert(old[i].children@[k].0 < i);
    }
    lemma_extends_digests(old, new, old[i].children@);
}

/// The two payloads carry the same data.
fn payload_eq(a: &Payload, b: &Payload) -> (r: bool)
    ensures
        r == (payload_key(*a) == payload_key(*b)),
{
    match (a, b) {
        (Payload::Empty, Payload::Empty) => true,
        (Payload::Sym(x), Payload::Sym(y)) => *x == *y,
        (Payload::Int(x), Payload::Int(y)) => *x == *y,
        (Payload::Rat(x1, x2), Payload::Rat(y1, y2)) => *x1 == *y1 && *x2 == *y2,
        (Payload::Func(x), Payload::Func(y)) => *x == *y,
        _ => false,
    }
}

/// A copy of a payload.
fn copy_payload(p: &Payload) -> (r: Payload)
    ensures
        r == *p,
{
    match p {
        Payload::Empty => Payload::Empty,
        Payload::Sym(s) => Payload::Sym(s.clone()),
        Payload::Int(k) => Payload::Int(*k),
        Payload::Rat(n, d) => Payload::Rat(*n, *d),
        Payload::Func(s) => Payload::Func(s.clone()),
    }
}

/// Whether two lists of digests are equal.
fn digests_equal(a: &Vec<u64>, b: &Vec<u64>) -> (r: bool)
    ensures
        r == (a@ == b@),
{
    if a.len() != b.len() {
        return false;
    }
    let mut i: usize = 0;
    while i < a.len()
        invariant
            a@.len() == b@.len(),
            i <= a@.len(),
            forall|k: int| 0 <= k < i ==> a@[k] == b@[k],
        decreases a@.len() - i,
    {
        if a[i] != b[i] {
            return false;
        }
        i = i + 1;
    }
    proof {
        assert(a@ =~= b@);
    }
    true
}

impl Store {
    /// The nodes, in the order they were created.
    pub closed spec fn nodes(&self) -> Seq<Node> {
        self.nodes@
    }

    /// The store is well formed.
    pub open spec fn wf(&self) -> bool {
        nodes_wf(self.nodes())
    }

    /// An empty store.
    pub fn new() -> (st: Self)
        ensures
            st.wf(),
            st.nodes().len() == 0,
    {
        Store { nodes: Vec::new() }
    }

    /// The node of `id`.
    pub fn get(&self, id: ExprId) -> (n: &Node)
        requires
            id.0 < self.nodes().len(),
        ensures
            *n == self.nodes()[id.0 as int],
    {
        &self.nodes[id.0]
    }

    /// The digests of the children of a prospective node.
    fn child_digests(&self, children: &Vec<ExprId>) -> (r: Vec<u64>)
        requires
            valid_ids(self.nodes(), children@),
        ensures
            r@ == digests_of(self.nodes(), children@),
    {
        let mut r: Vec<u64> = Vec::new();
        let mut i: usize = 0;
        while i < children.len()
            invariant
                valid_ids(self.nodes(), children@),
                i <= children@.len(),
                r@ == digests_of(self.nodes(), children@.take(i as int)),
            decreases children@.len() - i,
        {
            let c = children[i];
            r.push(self.nodes[c.0].digest);
            proof {
                assert(digests_of(self.nodes(), children@.take(i as int + 1)) =~= digests_of(
                    self.nodes(),
                    children@.take(i as int),
                ).push(self.nodes()[c.0 as int].digest));
            }
            i = i + 1;
        }
        proof {
            assert(children@.take(children@.len() as int) =~= children@);
        }
        r
    }

    /// The node with this kind, payload and child digests: the existing one, or a new one.
    fn intern(&mut self, op: Op, payload: Payload, children: Vec<ExprId>) -> (r: ExprId)
        requires
            old(self).wf(),
            valid_ids(old(self).nodes(), children@),
            forall|k: int| 0 <= k < children@.len() ==> (#[trigger] children@[k]).0 < old(self).nodes().len(),
            op == Op::Pow ==> children@.len() == 2,
        ensures
            interned(old(self).nodes(), final(self).nodes(), r, op, payload_key(payload), children@),
    {
        let cds = self.child_digests(&children);
        let ghost key = (op, payload_key(payload), cds@);
        let mut i: usize = 0;
        while i < self.nodes.len()
            invariant
                self.wf(),
                self.nodes() == old(self).nodes(),
                cds@ == digests_of(self.nodes(), children@),
                key == (op, payload_key(payload), cds@),
                i <= self.nodes().len(),
                forall|j: int| 0 <= j < i ==> #[trigger] key_at(self.nodes(), j) != key,
            decreases self.nodes().len() - i,
        {
            let n = &self.nodes[i];
            let ghost ni = self.nodes()[i as int];
            proof {
                assert forall|k: int| 0 <= k < ni.children@.len() implies (#[trigger] ni.children@[k]).0 < self.nodes().len() by {
                    assert(ni.children@[k].0 < i);
                }
            }
            if n.op == op && payload_eq(&n.payload, &payload) {
                let ncd = self.child_digests(&n.children);
                if digests_equal(&ncd, &cds) {
                    proof {
                        assert(key_at(self.nodes(), i as int) == key);
                    }
                    return ExprId(i);
                }
            }
            i = i + 1;
        }
        let digest = digest_node(op, &payload, &cds);
        let id = ExprId(self.nodes.len());
        let ghost old_nodes = self.nodes();
        let node = Node { op, payload, children, digest };
        self.nodes.push(node);
        proof {
            let nn = self.nodes();
            assert(extends(old_nodes, nn));
            lemma_extends_digests(old_nodes, nn, children@);
            assert forall|j: int| 0 <= j < old_nodes.len() implies #[trigger] key_at(nn, j) == key_at(old_nodes, j) by {
                lemma_extends_key(old_nodes, nn, j);
            }
            assert forall|a: int, k: int|
                0 <= a < nn.len() && 0 <= k < nn[a].children@.len() implies (#[trigger] nn[a].children@[k]).0 < a by {
                if a < old_nodes.len() {
                    assert(nn[a] == old_nodes[a]);
                }
            }
            assert forall|a: int| 0 <= a < nn.len() implies #[trigger] nn[a].digest == digest_spec(
                nn[a].op,
                nn[a].payload,
                digests_of(nn, nn[a].children@),
            ) by {
                if a < old_nodes.len() {
                    assert(nn[a] == old_nodes[a]);
                    lemma_extends_key(old_nodes, nn, a);
                }
            }
            assert forall|a: int, b: int| 0 <= a < b < nn.len() implies #[trigger] key_at(nn, a) != #[trigger] key_at(nn, b) by {
                if b < old_nodes.len() {
                    assert(key_at(old_nodes, a) != key_at(old_nodes, b));
                } else {
                    assert(key_at(nn, b) == key);
                }
            }
            assert(key_at(nn, id.0 as int) == key);
        }
        id
    }
}

/// Hash-consing: in a well-formed store, nodes with equal keys are the same node.
pub proof fn lemma_hash_consing(st: &Store, i: int, j: int)
    requires
        st.wf(),
        0 <= i < st.nodes().len(),
        0 <= j < st.nodes().len(),
        key_at(st.nodes(), i) == key_at(st.nodes(), j),
    ensures
        i == j,
{
    if i < j {
        assert(key_at(st.nodes(), i) != key_at(st.nodes(), j));
    } else if j < i {
        assert(key_at(st.nodes(), j) != key_at(st.nodes(), i));
    }
}

/// Interning a key that is already present returns that node.
pub proof fn lemma_interned_existing(
    old: Seq<Node>,
    new: Seq<Node>,
    r: ExprId,
    op: Op,
    pk: (int, Seq<char>, int, int),
    children: Seq<ExprId>,
    i: int,
)
    requires
        nodes_wf(old),
        interned(old, new, r, op, pk, children),
        0 <= i < old.len(),
        key_at(old, i) == (op, pk, digests_of(old, children)),
    ensures
        new == old,
        r.0 == i,
{
    assert(has_key(old, (op, pk, digests_of(old, children))));
    if r.0 < i {
        assert(key_at(old, r.0 as int) != key_at(old, i));
    } else if i < r.0 {
        assert(key_at(old, i) != key_at(old, r.0 as int));
    }
}

impl Store {
    /// The symbol `name`.
    pub fn sym(&mut self, name: &str) -> (r: ExprId)
        requires
            old(self).wf(),
        ensures
            final(self).wf(),
            interned(old(self).nodes(), final(self).nodes(), r, Op::Symbol, (1, name@, 0, 0), Seq::empty()),
    {
        let s = String::from_str(name);
        let children: Vec<ExprId> = Vec::new();
        proof {
            assert(children@ =~= Seq::<ExprId>::empty());
        }
        self.intern(Op::Symbol, Payload::Sym(s), children)
    }
}

/// The payload key of an integer.
pub open spec fn int_key(k: int) -> (int, Seq<char>, int, int) {
    (2, Seq::empty(), k, 0)
}

/// The kind and payload key of the number `num/den` once normalized: an integer when
/// the denominator reduces to 1, else a reduced fraction.
pub open spec fn number_key(num: int, den: int) -> (Op, (int, Seq<char>, int, int)) {
    let (n, d) = arith::normalize_spec(num, den);
    if d == 1 {
        (Op::Integer, int_key(n))
    } else {
        (Op::Rational, (3, Seq::empty(), n, d))
    }
}

impl Store {
    /// The integer `n`.
    pub fn integer(&mut self, n: i64) -> (r: ExprId)
        requires
            old(self).wf(),
        ensures
            final(self).wf(),
            interned(old(self).nodes(), final(self).nodes(), r, Op::Integer, int_key(n as int), Seq::empty()),
    {
        let children: Vec<ExprId> = Vec::new();
        proof {
            assert(children@ =~= Seq::<ExprId>::empty());
        }
        self.intern(Op::Integer, Payload::Int(n), children)
    }

    /// The rational `num/den`, normalized; an integer when the denominator reduces to 1.
    pub fn rat(&mut self, num: i64, den: i64) -> (r: ExprId)
        requires
            old(self).wf(),
            arith::norm_ok(num as int, den as int),
        ensures
            final(self).wf(),
            interned(
                old(self).nodes(),
                final(self).nodes(),
                r,
                number_key(num as int, den as int).0,
                number_key(num as int, den as int).1,
                Seq::empty(),
            ),
    {
        let (n, d) = normalize_rat(num, den);
        if d == 1 {
            return self.integer(n);
        }
        let children: Vec<ExprId> = Vec::new();
        proof {
            assert(children@ =~= Seq::<ExprId>::empty());
        }
        self.intern(Op::Rational, Payload::Rat(n, d), children)
    }

    /// The application of the function `name` to `args`, in order.
    pub fn func(&mut self, name: &str, args: Vec<ExprId>) -> (r: ExprId)
        requires
            old(self).wf(),
            valid_ids(old(self).nodes(), args@),
        ensures
            final(self).wf(),
            interned(old(self).nodes(), final(self).nodes(), r, Op::Function, (4, name@, 0, 0), args@),
    {
        let s = String::from_str(name);
        self.intern(Op::Function, Payload::Func(s), args)
    }

    /// Whether node `id` is the integer `k`.
    fn is_int(&self, id: ExprId, k: i64) -> (b: bool)
        requires
            id.0 < self.nodes().len(),
        ensures
            b == (self.nodes()[id.0 as int].op == Op::Integer && payload_key(self.nodes()[id.0 as int].payload)
                == int_key(k as int)),
    {
        let n = self.get(id);
        match (&n.op, &n.payload) {
            (Op::Integer, Payload::Int(v)) => *v == k,
            _ => false,
        }
    }

    /// `base^exp`, with `x^1 = x` and `x^0 = 1` except for `0^0`, which stays a power.
    pub fn pow(&mut self, base: ExprId, exp: ExprId) -> (r: ExprId)
        requires
            old(self).wf(),
            base.0 < old(self).nodes().len(),
            exp.0 < old(self).nodes().len(),
        ensures
            final(self).wf(),
            extends(old(self).nodes(), final(self).nodes()),
            pow_result(old(self).nodes(), final(self).nodes(), base, exp, r),
    {
        if self.is_int(exp, 1) {
            return base;
        }
        if self.is_int(exp, 0) {
            if self.is_int(base, 0) {
                let children = vec![base, exp];
                return self.intern(Op::Pow, Payload::Empty, children);
            }
            return self.integer(1);
        }
        let children = vec![base, exp];
        self.intern(Op::Pow, Payload::Empty, children)
    }
}

/// What `pow` makes of `base^exp`: `base` itself when the exponent is 1, the integer 1
/// when it is 0 and the base is not 0, and a power node otherwise.
pub open spec fn pow_result(nodes: Seq<Node>, new: Seq<Node>, base: ExprId, exp: ExprId, r: ExprId) -> bool {
    let exp_is_one = nodes[exp.0 as int].op == Op::Integer && payload_key(nodes[exp.0 as int].payload) == int_key(1);
    let exp_is_zero = nodes[exp.0 as int].op == Op::Integer && payload_key(nodes[exp.0 as int].payload) == int_key(0);
    let base_is_zero = nodes[base.0 as int].op == Op::Integer && payload_key(nodes[base.0 as int].payload) == int_key(0);
    if exp_is_one {
        r == base && new == nodes
    } else if exp_is_zero && !base_is_zero {
        interned(nodes, new, r, Op::Integer, int_key(1), Seq::empty())
    } else {
        interned(nodes, new, r, Op::Pow, (0, Seq::empty(), 0, 0), seq![base, exp])
    }
}

/// Checked rational sum of an optional running total.
pub open spec fn opt_add(o: Option<(int, int)>, b: (int, int)) -> Option<(int, int)> {
    match o {
        None => None,
        Some(a) => if arith::add_ok(a, b) { Some(arith::add_spec(a, b)) } else { None },
    }
}

/// Checked rational product of an optional running product.
pub open spec fn opt_mul(o: Option<(int, int)>, b: (int, int)) -> Option<(int, int)> {
    match o {
        None => None,
        Some(a) => if arith::mul_ok(a, b) { Some(arith::mul_spec(a, b)) } else { None },
    }
}

/// The terms of a sum with nested sums spliced in and numbers left out, and the
/// running sum of the numbers (`None` if it overflows).
pub open spec fn add_flatten(nodes: Seq<Node>, inputs: Seq<ExprId>) -> (Seq<ExprId>, Option<(int, int)>)
    decreases inputs.len(),
{
    if inputs.len() == 0 {
        (Seq::empty(), Some((0, 1)))
    } else {
        let (terms, num) = add_flatten(nodes, inputs.drop_last());
        let t = inputs.last();
        let n = nodes[t.0 as int];
        match n.op {
            Op::Add => (terms + n.children@, num),
            Op::Integer => match n.payload {
                Payload::Int(k) => (terms, opt_add(num, (k as int, 1))),
                _ => (terms, num),
            },
            Op::Rational => match n.payload {
                Payload::Rat(a, b) => (terms, opt_add(num, (a as int, b as int))),
                _ => (terms, num),
            },
            _ => (terms.push(t), num),
        }
    }
}

/// An optional pair of `i64`s as integers.
pub open spec fn opt_tv(o: Option<(i64, i64)>) -> Option<(int, int)> {
    match o {
        Some(q) => Some(arith::tv(q)),
        None => None,
    }
}

impl Store {
    /// Whether the numbers among `it` (nested sums aside) add up without overflowing,
    /// that is, whether `add` accepts `it`.
    pub fn sum_fits(&self, it: &Vec<ExprId>) -> (b: bool)
        requires
            self.wf(),
            valid_ids(self.nodes(), it@),
        ensures
            b == (add_flatten(self.nodes(), it@).1 is Some),
    {
        let mut num: Option<(i64, i64)> = Some((0, 1));
        let mut i: usize = 0;
        while i < it.len()
            invariant
                self.wf(),
                valid_ids(self.nodes(), it@),
                i <= it@.len(),
                add_flatten(self.nodes(), it@.take(i as int)).1 == opt_tv(num),
            decreases it@.len() - i,
        {
            let t = it[i];
            proof {
                assert(it@.take(i as int + 1).drop_last() =~= it@.take(i as int));
            }
            let n = self.get(t);
            let q: Option<(i64, i64)> = match (&n.op, &n.payload) {
                (Op::Integer, Payload::Int(k)) => Some((*k, 1)),
                (Op::Rational, Payload::Rat(a, d)) => Some((*a, *d)),
                _ => None,
            };
            match (num, q) {
                (Some(a), Some(b)) => {
                    if arith::add_fits(a, b) {
                        num = Some(rat_add(a, b));
                    } else {
                        num = None;
                    }
                },
                _ => {},
            }
            i = i + 1;
        }
        proof {
            assert(it@.take(it@.len() as int) =~= it@);
        }
        num.is_some()
    }

    /// Whether the numbers among `it` (nested products aside) multiply without
    /// overflowing before a zero factor, that is, whether `mul` accepts `it`.
    pub fn product_fits(&self, it: &Vec<ExprId>) -> (b: bool)
        requires
            self.wf(),
            valid_ids(self.nodes(), it@),
        ensures
            b == (mul_flatten(self.nodes(), it@).1 is Some),
    {
        let mut num: Option<(i64, i64)> = Some((1, 1));
        let mut zero = false;
        let mut i: usize = 0;
        while i < it.len()
            invariant
                self.wf(),
                valid_ids(self.nodes(), it@),
                i <= it@.len(),
                mul_flatten(self.nodes(), it@.take(i as int)).1 == opt_tv(num),
                mul_flatten(self.nodes(), it@.take(i as int)).2 == zero,
            decreases it@.len() - i,
        {
            let t = it[i];
            proof {
                assert(it@.take(i as int + 1).drop_last() =~= it@.take(i as int));
            }
            if !zero {
                if let Some(a) = num {
                    let n = self.get(t);
                    match (&n.op, &n.payload) {
                        (Op::Integer, Payload::Int(k)) => {
                            if *k == 0 {
                                zero = true;
                            } else if arith::mul_fits(a, (*k, 1)) {
                                num = Some(rat_mul(a, (*k, 1)));
                            } else {
                                num = None;
                            }
                        },
                        (Op::Rational, Payload::Rat(p, d)) => {
                            if *p == 0 {
                                zero = true;
                            } else if arith::mul_fits(a, (*p, *d)) {
                                num = Some(rat_mul(a, (*p, *d)));
                            } else {
                                num = None;
                            }
                        },
                        _ => {},
                    }
                }
            }
            i = i + 1;
        }
        proof {
            assert(it@.take(it@.len() as int) =~= it@);
        }
        num.is_some()
    }
}

/// Keeping the nodes of a store is transitive.
pub proof fn lemma_extends_trans(a: Seq<Node>, b: Seq<Node>, c: Seq<Node>)
    requires
        extends(a, b),
        extends(b, c),
    ensures
        extends(a, c),
{
    assert forall|i: int| 0 <= i < a.len() implies #[trigger] c[i] == a[i] by {
        assert(c[i] == b[i]);
    }
}

/// Node `id` is the integer `k`.
pub open spec fn is_int_node(nodes: Seq<Node>, id: ExprId, k: int) -> bool {
    nodes[id.0 as int].op == Op::Integer && payload_key(nodes[id.0 as int].payload) == int_key(k)
}

/// The ids of `s` that are not the integer `k`, in order.
pub open spec fn drop_int(nodes: Seq<Node>, s: Seq<ExprId>, k: int) -> Seq<ExprId>
    decreases s.len(),
{
    if s.len() == 0 {
        Seq::empty()
    } else {
        let rest = drop_int(nodes, s.drop_last(), k);
        if is_int_node(nodes, s.last(), k) { rest } else { rest.push(s.last()) }
    }
}

/// The first position in `s` whose digest exceeds `d`, from `i` on.
pub open spec fn first_above(nodes: Seq<Node>, s: Seq<ExprId>, d: u64, i: int) -> int
    decreases s.len() - i,
{
    if i >= s.len() {
        s.len() as int
    } else if nodes[s[i].0 as int].digest > d {
        i
    } else {
        first_above(nodes, s, d, i + 1)
    }
}

/// `s` stably sorted by digest: each id goes after every earlier one with a digest not
/// above its own.
pub open spec fn sort_by_digest(nodes: Seq<Node>, s: Seq<ExprId>) -> Seq<ExprId>
    decreases s.len(),
{
    if s.len() == 0 {
        Seq::empty()
    } else {
        let sorted = sort_by_digest(nodes, s.drop_last());
        let x = s.last();
        sorted.insert(first_above(nodes, sorted, nodes[x.0 as int].digest, 0), x)
    }
}

/// The kind and payload key of the atom `Empty`.
pub open spec fn empty_key() -> (int, Seq<char>, int, int) {
    (0, Seq::empty(), 0, 0)
}

/// How a canonical sum or product ends, given the store `mid` after the number node and
/// the terms `terms` before removing the neutral element `unit`: the neutral element
/// alone, the single term, or a node of kind `op` over the terms sorted by digest.
pub open spec fn combine_result(
    mid: Seq<Node>,
    new: Seq<Node>,
    terms: Seq<ExprId>,
    unit: int,
    op: Op,
    r: ExprId,
) -> bool {
    let kept = drop_int(mid, terms, unit);
    &&& kept.len() == 0 ==> interned(mid, new, r, Op::Integer, int_key(unit), Seq::empty())
    &&& kept.len() == 1 ==> r == kept[0] && new == mid
    &&& kept.len() >= 2 ==> interned(mid, new, r, op, empty_key(), sort_by_digest(mid, kept))
}

/// What `add` makes of `inputs`: nested sums spliced in, the numbers summed into one
/// number node (left out when zero), zeros removed, then `combine_result`.
pub open spec fn sum_result(old: Seq<Node>, new: Seq<Node>, inputs: Seq<ExprId>, r: ExprId) -> bool {
    combined_with_number(old, new, add_flatten(old, inputs).0, flat_number(add_flatten(old, inputs).1, (0, 1)), 0, Op::Add, r)
}

/// The number of a fold, or `dflt` when it overflowed.
pub open spec fn flat_number(o: Option<(int, int)>, dflt: (int, int)) -> (int, int) {
    match o {
        Some(v) => v,
        None => dflt,
    }
}

/// The terms `terms0`, with the number `num` appended as a node unless it is the
/// neutral element `unit`, combined into a node of kind `op`.
pub open spec fn combined_with_number(
    old: Seq<Node>,
    new: Seq<Node>,
    terms0: Seq<ExprId>,
    num: (int, int),
    unit: int,
    op: Op,
    r: ExprId,
) -> bool {
    exists|mid: Seq<Node>|
        #![trigger nodes_wf(mid)]
        {
            &&& nodes_wf(mid)
            &&& extends(old, mid)
            &&& extends(mid, new)
            &&& num == (unit, 1int) ==> mid == old && combine_result(mid, new, terms0, unit, op, r)
            &&& num != (unit, 1int) ==> exists|q: ExprId|
                #![trigger interned(old, mid, q, number_key(num.0, num.1).0, number_key(num.0, num.1).1, Seq::empty())]
                interned(old, mid, q, number_key(num.0, num.1).0, number_key(num.0, num.1).1, Seq::empty())
                    && combine_result(mid, new, terms0.push(q), unit, op, r)
        }
}

proof fn lemma_add_flatten_prefix(nodes: Seq<Node>, inputs: Seq<ExprId>, i: int)
    requires
        0 <= i <= inputs.len(),
        add_flatten(nodes, inputs).1 is Some,
    ensures
        add_flatten(nodes, inputs.take(i)).1 is Some,
    decreases inputs.len(),
{
    if i < inputs.len() {
        assert(inputs.drop_last().take(i) =~= inputs.take(i));
        lemma_add_flatten_prefix(nodes, inputs.drop_last(), i);
    } else {
        assert(inputs.take(i) =~= inputs);
    }
}

proof fn lemma_flatten_same(old: Seq<Node>, new: Seq<Node>, s: Seq<ExprId>, k: int)
    requires
        extends(old, new),
        valid_ids(old, s),
    ensures
        drop_int(new, s, k) == drop_int(old, s, k),
    decreases s.len(),
{
    if s.len() > 0 {
        lemma_flatten_same(old, new, s.drop_last(), k);
    }
}

impl Store {
    /// Inserts `x` into `v` after every id whose digest is not above that of `x`.
    fn insert_by_digest(&self, v: &mut Vec<ExprId>, x: ExprId)
        requires
            valid_ids(self.nodes(), old(v)@),
            x.0 < self.nodes().len(),
        ensures
            final(v)@ == old(v)@.insert(first_above(self.nodes(), old(v)@, self.nodes()[x.0 as int].digest, 0), x),
            valid_ids(self.nodes(), final(v)@),
    {
        let d = self.nodes[x.0].digest;
        let mut k: usize = 0;
        while k < v.len() && self.nodes[v[k].0].digest <= d
            invariant
                valid_ids(self.nodes(), v@),
                v@ == old(v)@,
                k <= v@.len(),
                first_above(self.nodes(), v@, d, k as int) == first_above(self.nodes(), v@, d, 0),
            decreases v@.len() - k,
        {
            k = k + 1;
        }
        v.insert(k, x);
        proof {
            assert forall|j: int| 0 <= j < v@.len() implies (#[trigger] v@[j]).0 < self.nodes().len() by {
                if j < k {
                    assert(v@[j] == old(v)@[j]);
                } else if j > k {
                    assert(v@[j] == old(v)@[j - 1]);
                }
            }
        }
    }

    /// `s` stably sorted by digest.
    fn sort_ids(&self, s: &Vec<ExprId>) -> (r: Vec<ExprId>)
        requires
            valid_ids(self.nodes(), s@),
        ensures
            r@ == sort_by_digest(self.nodes(), s@),
            valid_ids(self.nodes(), r@),
    {
        let mut out: Vec<ExprId> = Vec::new();
        let mut i: usize = 0;
        while i < s.len()
            invariant
                valid_ids(self.nodes(), s@),
                valid_ids(self.nodes(), out@),
                i <= s@.len(),
                out@ == sort_by_digest(self.nodes(), s@.take(i as int)),
            decreases s@.len() - i,
        {
            proof {
                assert(s@.take(i as int + 1).drop_last() =~= s@.take(i as int));
            }
            self.insert_by_digest(&mut out, s[i]);
            i = i + 1;
        }
        proof {
            assert(s@.take(s@.len() as int) =~= s@);
        }
        out
    }

    /// The ids of `s` other than the integer `k`.
    fn without_int(&self, s: &Vec<ExprId>, k: i64) -> (r: Vec<ExprId>)
        requires
            valid_ids(self.nodes(), s@),
        ensures
            r@ == drop_int(self.nodes(), s@, k as int),
            valid_ids(self.nodes(), r@),
    {
        let mut out: Vec<ExprId> = Vec::new();
        let mut i: usize = 0;
        while i < s.len()
            invariant
                valid_ids(self.nodes(), s@),
                valid_ids(self.nodes(), out@),
                i <= s@.len(),
                out@ == drop_int(self.nodes(), s@.take(i as int), k as int),
            decreases s@.len() - i,
        {
            proof {
                assert(s@.take(i as int + 1).drop_last() =~= s@.take(i as int));
            }
            if !self.is_int(s[i], k) {
                out.push(s[i]);
            }
            i = i + 1;
        }
        proof {
            assert(s@.take(s@.len() as int) =~= s@);
        }
        out
    }

    /// The end of `add` and `mul`: drop the neutral element `unit`, then the neutral
    /// element alone, the single term, or a node of kind `op` over the sorted terms.
    fn combine(&mut self, terms: Vec<ExprId>, unit: i64, op: Op) -> (r: ExprId)
        requires
            old(self).wf(),
            valid_ids(old(self).nodes(), terms@),
            op == Op::Add || op == Op::Mul,
        ensures
            final(self).wf(),
            extends(old(self).nodes(), final(self).nodes()),
            r.0 < final(self).nodes().len(),
            combine_result(old(self).nodes(), final(self).nodes(), terms@, unit as int, op, r),
    {
        let kept = self.without_int(&terms, unit);
        if kept.len() == 0 {
            return self.integer(unit);
        }
        if kept.len() == 1 {
            return kept[0];
        }
        let sorted = self.sort_ids(&kept);
        self.intern(op, Payload::Empty, sorted)
    }

    /// The canonical sum of `it`: nested sums are spliced in, the numbers are summed into
    /// one number (left out when zero), zeros are dropped, and the terms are sorted by
    /// digest; a single term is returned as is, no term gives 0.
    pub fn add(&mut self, it: Vec<ExprId>) -> (r: ExprId)
        requires
            old(self).wf(),
            valid_ids(old(self).nodes(), it@),
            add_flatten(old(self).nodes(), it@).1 is Some,
        ensures
            final(self).wf(),
            extends(old(self).nodes(), final(self).nodes()),
            r.0 < final(self).nodes().len(),
            sum_result(old(self).nodes(), final(self).nodes(), it@, r),
    {
        let ghost old_nodes = self.nodes();
        let mut terms: Vec<ExprId> = Vec::new();
        let mut num: (i64, i64) = (0, 1);
        let mut i: usize = 0;
        while i < it.len()
            invariant
                self.wf(),
                self.nodes() == old_nodes,
                valid_ids(old_nodes, it@),
                add_flatten(old_nodes, it@).1 is Some,
                i <= it@.len(),
                add_flatten(old_nodes, it@.take(i as int)) == (terms@, Some(arith::tv(num))),
                valid_ids(old_nodes, terms@),
            decreases it@.len() - i,
        {
            let t = it[i];
            proof {
                assert(it@.take(i as int + 1).drop_last() =~= it@.take(i as int));
                lemma_add_flatten_prefix(old_nodes, it@, i as int + 1);
            }
            let n = self.get(t);
            match n.op {
                Op::Add => {
                    let mut k: usize = 0;
                    let ghost t0 = terms@;
                    while k < n.children.len()
                        invariant
                            self.wf(),
                            self.nodes() == old_nodes,
                            t.0 < old_nodes.len(),
                            *n == old_nodes[t.0 as int],
                            k <= n.children@.len(),
                            terms@ == t0 + n.children@.take(k as int),
                            valid_ids(old_nodes, t0),
                        decreases n.children@.len() - k,
                    {
                        terms.push(n.children[k]);
                        proof {
                            assert(t0 + n.children@.take(k as int + 1) =~= (t0 + n.children@.take(k as int)).push(
                                n.children@[k as int],
                            ));
                        }
                        k = k + 1;
                    }
                    proof {
                        assert(n.children@.take(n.children@.len() as int) =~= n.children@);
                        assert forall|j: int| 0 <= j < terms@.len() implies (#[trigger] terms@[j]).0 < old_nodes.len() by {
                            if j >= t0.len() {
                                assert(terms@[j] == n.children@[j - t0.len()]);
                                assert(n.children@[j - t0.len()].0 < t.0);
                            }
                        }
                    }
                },
                Op::Integer => {
                    match &n.payload {
                        Payload::Int(k) => {
                            num = rat_add(num, (*k, 1));
                        },
                        _ => {},
                    }
                },
                Op::Rational => {
                    match &n.payload {
                        Payload::Rat(a, b) => {
                            num = rat_add(num, (*a, *b));
                        },
                        _ => {},
                    }
                },
                _ => {
                    terms.push(t);
                },
            }
            i = i + 1;
        }
        proof {
            assert(it@.take(it@.len() as int) =~= it@);
        }
        let ghost terms0 = terms@;
        if num.0 != 0 {
            proof {
                if it@.len() > 0 {
                    arith::lemma_normalize_fits(0, 1);
                }
                lemma_number_ok(old_nodes, it@);
            }
            let q = self.rat(num.0, num.1);
            let ghost mid = self.nodes();
            terms.push(q);
            proof {
                assert forall|j: int| 0 <= j < terms@.len() implies (#[trigger] terms@[j]).0 < mid.len() by {}
            }
            let ghost terms1 = terms@;
            let r = self.combine(terms, 0, Op::Add);
            proof {
                let new = self.nodes();
                assert(terms1 == terms0.push(q));
                assert(nodes_wf(mid) && extends(old_nodes, mid) && extends(mid, new));
                assert(combine_result(mid, new, terms0.push(q), 0, Op::Add, r));
                assert(interned(old_nodes, mid, q, number_key(num.0 as int, num.1 as int).0, number_key(num.0 as int, num.1 as int).1, Seq::empty()));
                assert(extends(old_nodes, new));
                assert(add_flatten(old_nodes, it@).0 == terms0);
                assert(add_flatten(old_nodes, it@).1 == Some((num.0 as int, num.1 as int)));
                assert(exists|qq: ExprId|
                    #![trigger interned(old_nodes, mid, qq, number_key(num.0 as int, num.1 as int).0, number_key(num.0 as int, num.1 as int).1, Seq::empty())]
                    interned(old_nodes, mid, qq, number_key(num.0 as int, num.1 as int).0, number_key(num.0 as int, num.1 as int).1, Seq::empty())
                        && combine_result(mid, new, terms0.push(qq), 0, Op::Add, r));
                let spec_num = (num.0 as int, num.1 as int);
                assert(spec_num != (0int, 1int));
                assert(combined_with_number(old_nodes, new, terms0, spec_num, 0, Op::Add, r));
                assert(sum_result(old_nodes, new, it@, r));
            }
            r
        } else {
            proof {
                assert forall|j: int| 0 <= j < terms@.len() implies (#[trigger] terms@[j]).0 < old_nodes.len() by {}
            }
            let ghost mid = self.nodes();
            let r = self.combine(terms, 0, Op::Add);
            proof {
                let new = self.nodes();
                let q = ExprId(0);
                assert(nodes_wf(mid) && extends(old_nodes, mid) && extends(mid, new));
                assert(combine_result(mid, new, terms0, 0, Op::Add, r));
                assert(extends(old_nodes, new));
                assert(add_flatten(old_nodes, it@).0 == terms0);
                assert(add_flatten(old_nodes, it@).1 == Some((num.0 as int, num.1 as int)));
                let spec_num = (num.0 as int, num.1 as int);
                lemma_number_ok(old_nodes, it@);
                assert(arith::normalize_spec(spec_num.0, spec_num.1) == spec_num);
                assert(spec_num == (0int, 1int));
                assert(combined_with_number(old_nodes, new, terms0, spec_num, 0, Op::Add, r));
                assert(sum_result(old_nodes, new, it@, r));
            }
            r
        }
    }
}

/// The running sum of `add_flatten` is a normalized pair of `i64`s.
proof fn lemma_number_ok(nodes: Seq<Node>, inputs: Seq<ExprId>)
    requires
        add_flatten(nodes, inputs).1 is Some,
    ensures
        ({
            let v = add_flatten(nodes, inputs).1->0;
            arith::norm_ok(v.0, v.1) && arith::normalize_spec(v.0, v.1) == v
        }),
    decreases inputs.len(),
{
    if inputs.len() > 0 {
        lemma_add_flatten_prefix(nodes, inputs, inputs.len() - 1);
        assert(inputs.take(inputs.len() - 1) =~= inputs.drop_last());
        lemma_number_ok(nodes, inputs.drop_last());
        let (terms, num) = add_flatten(nodes, inputs.drop_last());
        let a = num->0;
        let t = inputs.last();
        let n = nodes[t.0 as int];
        match n.op {
            Op::Integer => match n.payload {
                Payload::Int(k) => {
                    if arith::add_ok(a, (k as int, 1)) {
                        let x = a.0 * 1 + (k as int) * a.1;
                        let y = a.1 * 1;
                        arith::lemma_normalize_fits(x, y);
                        arith::lemma_normalize(x, y);
                        let v = arith::normalize_spec(x, y);
                        arith::lemma_normalize_reduced(v.0, v.1);
                    }
                },
                _ => {},
            },
            Op::Rational => match n.payload {
                Payload::Rat(x, y) => {
                    if arith::add_ok(a, (x as int, y as int)) {
                        let xx = a.0 * (y as int) + (x as int) * a.1;
                        let yy = a.1 * (y as int);
                        arith::lemma_normalize_fits(xx, yy);
                        arith::lemma_normalize(xx, yy);
                        let v = arith::normalize_spec(xx, yy);
                        arith::lemma_normalize_reduced(v.0, v.1);
                    }
                },
                _ => {},
            },
            _ => {},
        }
    } else {
        assert(arith::normalize_spec(0, 1) == (0int, 1int));
    }
}

/// The factors of a product with nested products spliced in and numbers left out, the
/// running product of the numbers (`None` if it overflows), and whether a zero was met,
/// which ends the scan.
pub open spec fn mul_flatten(nodes: Seq<Node>, inputs: Seq<ExprId>) -> (Seq<ExprId>, Option<(int, int)>, bool)
    decreases inputs.len(),
{
    if inputs.len() == 0 {
        (Seq::empty(), Some((1int, 1int)), false)
    } else {
        let (fs, num, zero) = mul_flatten(nodes, inputs.drop_last());
        if zero || num is None {
            (fs, num, zero)
        } else {
            let t = inputs.last();
            let n = nodes[t.0 as int];
            match n.op {
                Op::Mul => (fs + n.children@, num, false),
                Op::Integer => match n.payload {
                    Payload::Int(k) => if k == 0 {
                        (fs, num, true)
                    } else {
                        (fs, opt_mul(num, (k as int, 1)), false)
                    },
                    _ => (fs, num, false),
                },
                Op::Rational => match n.payload {
                    Payload::Rat(a, b) => if a == 0 {
                        (fs, num, true)
                    } else {
                        (fs, opt_mul(num, (a as int, b as int)), false)
                    },
                    _ => (fs, num, false),
                },
                _ => (fs.push(t), num, false),
            }
        }
    }
}

/// What `mul` makes of `inputs`: 0 when a factor is zero; otherwise nested products
/// spliced in, the numbers multiplied into one number node (left out when 1), ones
/// removed, then `combine_result`.
pub open spec fn product_result(old: Seq<Node>, new: Seq<Node>, inputs: Seq<ExprId>, r: ExprId) -> bool {
    if mul_flatten(old, inputs).2 {
        interned(old, new, r, Op::Integer, int_key(0), Seq::empty())
    } else {
        combined_with_number(
            old,
            new,
            mul_flatten(old, inputs).0,
            flat_number(mul_flatten(old, inputs).1, (1int, 1int)),
            1,
            Op::Mul,
            r,
        )
    }
}

proof fn lemma_mul_flatten_prefix(nodes: Seq<Node>, inputs: Seq<ExprId>, i: int)
    requires
        0 <= i <= inputs.len(),
        mul_flatten(nodes, inputs).1 is Some,
    ensures
        mul_flatten(nodes, inputs.take(i)).1 is Some,
        mul_flatten(nodes, inputs.take(i)).2 ==> mul_flatten(nodes, inputs) == mul_flatten(nodes, inputs.take(i)),
    decreases inputs.len(),
{
    if i < inputs.len() {
        assert(inputs.drop_last().take(i) =~= inputs.take(i));
        lemma_mul_flatten_prefix(nodes, inputs.drop_last(), i);
    } else {
        assert(inputs.take(i) =~= inputs);
    }
}

/// The running product of `mul_flatten` is a normalized pair of `i64`s.
proof fn lemma_mul_number_ok(nodes: Seq<Node>, inputs: Seq<ExprId>)
    requires
        mul_flatten(nodes, inputs).1 is Some,
    ensures
        ({
            let v = mul_flatten(nodes, inputs).1->0;
            arith::norm_ok(v.0, v.1) && arith::normalize_spec(v.0, v.1) == v
        }),
    decreases inputs.len(),
{
    if inputs.len() > 0 {
        lemma_mul_flatten_prefix(nodes, inputs, inputs.len() - 1);
        assert(inputs.take(inputs.len() - 1) =~= inputs.drop_last());
        lemma_mul_number_ok(nodes, inputs.drop_last());
        let (fs, num, zero) = mul_flatten(nodes, inputs.drop_last());
        let a = num->0;
        let t = inputs.last();
        let n = nodes[t.0 as int];
        if !zero {
            match n.op {
                Op::Integer => match n.payload {
                    Payload::Int(k) => {
                        if k != 0 && arith::mul_ok(a, (k as int, 1)) {
                            let x = a.0 * (k as int);
                            let y = a.1 * 1;
                            arith::lemma_normalize_fits(x, y);
                            arith::lemma_normalize(x, y);
                            let v = arith::normalize_spec(x, y);
                            arith::lemma_normalize_reduced(v.0, v.1);
                        }
                    },
                    _ => {},
                },
                Op::Rational => match n.payload {
                    Payload::Rat(p, q) => {
                        if p != 0 && arith::mul_ok(a, (p as int, q as int)) {
                            let x = a.0 * (p as int);
                            let y = a.1 * (q as int);
                            arith::lemma_normalize_fits(x, y);
                            arith::lemma_normalize(x, y);
                            let v = arith::normalize_spec(x, y);
                            arith::lemma_normalize_reduced(v.0, v.1);
                        }
                    },
                    _ => {},
                },
                _ => {},
            }
        }
    } else {
        assert(arith::gcd(1, 0) == 1);
        assert(arith::gcd(1, 1) == 1);
        arith::lemma_normalize_reduced(1, 1);
    }
}

impl Store {
    /// The canonical product of `it`: 0 as soon as a factor is zero; otherwise nested
    /// products are spliced in, the numbers multiplied into one number (left out when 1),
    /// ones dropped, and the factors sorted by digest; one factor is returned as is, none
    /// gives 1.
    pub fn mul(&mut self, it: Vec<ExprId>) -> (r: ExprId)
        requires
            old(self).wf(),
            valid_ids(old(self).nodes(), it@),
            mul_flatten(old(self).nodes(), it@).1 is Some,
        ensures
            final(self).wf(),
            extends(old(self).nodes(), final(self).nodes()),
            r.0 < final(self).nodes().len(),
            product_result(old(self).nodes(), final(self).nodes(), it@, r),
    {
        let ghost old_nodes = self.nodes();
        let mut factors: Vec<ExprId> = Vec::new();
        let mut num: (i64, i64) = (1, 1);
        let mut i: usize = 0;
        while i < it.len()
            invariant
                self.wf(),
                self.nodes() == old_nodes,
                old_nodes == old(self).nodes(),
                valid_ids(old_nodes, it@),
                mul_flatten(old_nodes, it@).1 is Some,
                i <= it@.len(),
                mul_flatten(old_nodes, it@.take(i as int)) == (factors@, Some(arith::tv(num)), false),
                valid_ids(old_nodes, factors@),
            decreases it@.len() - i,
        {
            let t = it[i];
            proof {
                assert(it@.take(i as int + 1).drop_last() =~= it@.take(i as int));
                lemma_mul_flatten_prefix(old_nodes, it@, i as int + 1);
            }
            let n = self.get(t);
            match n.op {
                Op::Mul => {
                    let mut k: usize = 0;
                    let ghost f0 = factors@;
                    while k < n.children.len()
                        invariant
                            self.wf(),
                            self.nodes() == old_nodes,
                            t.0 < old_nodes.len(),
                            *n == old_nodes[t.0 as int],
                            k <= n.children@.len(),
                            factors@ == f0 + n.children@.take(k as int),
                            valid_ids(old_nodes, f0),
                        decreases n.children@.len() - k,
                    {
                        factors.push(n.children[k]);
                        proof {
                            assert(f0 + n.children@.take(k as int + 1) =~= (f0 + n.children@.take(k as int)).push(
                                n.children@[k as int],
                            ));
                        }
                        k = k + 1;
                    }
                    proof {
                        assert(n.children@.take(n.children@.len() as int) =~= n.children@);
                        assert forall|j: int| 0 <= j < factors@.len() implies (#[trigger] factors@[j]).0 < old_nodes.len() by {
                            if j >= f0.len() {
                                assert(factors@[j] == n.children@[j - f0.len()]);
                                assert(n.children@[j - f0.len()].0 < t.0);
                            }
                        }
                    }
                },
                Op::Integer => {
                    match &n.payload {
                        Payload::Int(k) => {
                            if *k == 0 {
                                let ghost taken = it@.take(i as int + 1);
                                proof {
                                    assert(mul_flatten(old_nodes, taken).2);
                                    assert(mul_flatten(old_nodes, it@) == mul_flatten(old_nodes, taken));
                                }
                                return self.integer(0);
                            }
                            num = rat_mul(num, (*k, 1));
                        },
                        _ => {},
                    }
                },
                Op::Rational => {
                    match &n.payload {
                        Payload::Rat(a, b) => {
                            if *a == 0 {
                                let ghost taken = it@.take(i as int + 1);
                                proof {
                                    assert(mul_flatten(old_nodes, taken).2);
                                    assert(mul_flatten(old_nodes, it@) == mul_flatten(old_nodes, taken));
                                }
                                return self.integer(0);
                            }
                            num = rat_mul(num, (*a, *b));
                        },
                        _ => {},
                    }
                },
                _ => {
                    factors.push(t);
                },
            }
            i = i + 1;
        }
        proof {
            assert(it@.take(it@.len() as int) =~= it@);
            lemma_mul_number_ok(old_nodes, it@);
        }
        let ghost f0 = factors@;
        let ghost spec_num = (num.0 as int, num.1 as int);
        if !(num.0 == 1 && num.1 == 1) {
            let q = self.rat(num.0, num.1);
            let ghost mid = self.nodes();
            factors.push(q);
            let r = self.combine(factors, 1, Op::Mul);
            proof {
                let new = self.nodes();
                assert(interned(old_nodes, mid, q, number_key(spec_num.0, spec_num.1).0, number_key(spec_num.0, spec_num.1).1, Seq::empty()));
                assert(combine_result(mid, new, f0.push(q), 1, Op::Mul, r));
                assert(nodes_wf(mid) && extends(old_nodes, mid) && extends(mid, new));
                assert(combined_with_number(old_nodes, new, f0, spec_num, 1, Op::Mul, r));
            }
            r
        } else {
            let ghost mid = self.nodes();
            let r = self.combine(factors, 1, Op::Mul);
            proof {
                let new = self.nodes();
                assert(nodes_wf(mid) && extends(old_nodes, mid) && extends(mid, new));
                assert(combine_result(mid, new, f0, 1, Op::Mul, r));
                assert(combined_with_number(old_nodes, new, f0, spec_num, 1, Op::Mul, r));
            }
            r
        }
    }
}

// ---------- Printing ----------

/// Binding strength of each kind for the printer.
pub open spec fn prec_of(op: Op) -> int {
    match op {
        Op::Add => 1,
        Op::Mul => 2,
        Op::Pow => 3,
        _ => 4,
    }
}

/// The text of node `id` under a parent of binding strength `pp`: parenthesized when
/// its own binding is weaker.
pub open spec fn render(nodes: Seq<Node>, id: int, pp: int) -> Seq<char>
    decreases id, 1int, 0int,
{
    if !(0 <= id < nodes.len()) {
        Seq::empty()
    } else {
        let n = nodes[id];
        let body = match (n.op, n.payload) {
            (Op::Integer, Payload::Int(k)) => text::int_decimal(k as int),
            (Op::Rational, Payload::Rat(a, b)) => text::int_decimal(a as int) + seq!['/'] + text::int_decimal(b as int),
            (Op::Symbol, Payload::Sym(name)) => name@,
            (Op::Function, Payload::Func(name)) => name@ + seq!['('] + render_join(nodes, id, 0, seq![',', ' '], n.children@.len() as int) + seq![')'],
            (Op::Add, _) => render_join(nodes, id, 1, seq![' ', '+', ' '], n.children@.len() as int),
            (Op::Mul, _) => render_join(nodes, id, 2, seq![' ', '*', ' '], n.children@.len() as int),
            (Op::Pow, _) => render_child(nodes, id, 0, 3) + seq!['^'] + render_child(nodes, id, 1, 3),
            _ => seq!['<', 'u', 'n', 'k', 'n', 'o', 'w', 'n', '>'],
        };
        if prec_of(n.op) < pp { seq!['('] + body + seq![')'] } else { body }
    }
}

/// Child `k` of node `id` rendered under binding strength `pp`.
pub open spec fn render_child(nodes: Seq<Node>, id: int, k: int, pp: int) -> Seq<char>
    decreases id, 0int, 0int,
{
    if 0 <= id < nodes.len() && 0 <= k < nodes[id].children@.len() && nodes[id].children@[k].0 < id {
        render(nodes, nodes[id].children@[k].0 as int, pp)
    } else {
        Seq::empty()
    }
}

/// The first `k` children of node `id` rendered under `pp`, separated by `sep`.
pub open spec fn render_join(nodes: Seq<Node>, id: int, pp: int, sep: Seq<char>, k: int) -> Seq<char>
    decreases id, 0int, k,
{
    if k <= 0 {
        Seq::empty()
    } else if k == 1 {
        render_child(nodes, id, 0, pp)
    } else {
        render_join(nodes, id, pp, sep, k - 1) + sep + render_child(nodes, id, k - 1, pp)
    }
}

impl Store {
    /// Appends child `k` of `id` rendered under `pp`.
    fn push_child(&self, out: &mut String, id: ExprId, k: usize, pp: u8)
        requires
            self.wf(),
            id.0 < self.nodes().len(),
            k < self.nodes()[id.0 as int].children@.len(),
        ensures
            final(out)@ == old(out)@ + render_child(self.nodes(), id.0 as int, k as int, pp as int),
        decreases id.0, 0int,
    {
        let c = self.nodes[id.0].children[k];
        proof {
            assert(self.nodes()[id.0 as int].children@[k as int].0 < id.0);
        }
        let s = self.render_node(c, pp);
        out.append(s.as_str());
    }

    /// Appends the first `k` children of `id` rendered under `pp`, separated by `sep`.
    fn push_join(&self, out: &mut String, id: ExprId, pp: u8, sep: &str)
        requires
            self.wf(),
            id.0 < self.nodes().len(),
        ensures
            final(out)@ == old(out)@ + render_join(
                self.nodes(),
                id.0 as int,
                pp as int,
                sep@,
                self.nodes()[id.0 as int].children@.len() as int,
            ),
        decreases id.0, 1int,
    {
        let n = &self.nodes[id.0];
        let len = n.children.len();
        let ghost start = out@;
        let mut k: usize = 0;
        while k < len
            invariant
                self.wf(),
                id.0 < self.nodes().len(),
                *n == self.nodes()[id.0 as int],
                len == n.children@.len(),
                k <= len,
                out@ == start + render_join(self.nodes(), id.0 as int, pp as int, sep@, k as int),
            decreases len - k,
        {
            if k > 0 {
                out.append(sep);
            }
            self.push_child(out, id, k, pp);
            proof {
                if k == 0 {
                    assert(out@ =~= start + render_join(self.nodes(), id.0 as int, pp as int, sep@, 1));
                } else {
                    assert(out@ =~= start + render_join(self.nodes(), id.0 as int, pp as int, sep@, k as int + 1));
                }
            }
            k = k + 1;
        }
    }

    /// The text of `id` under a parent of binding strength `pp`.
    fn render_node(&self, id: ExprId, pp: u8) -> (s: String)
        requires
            self.wf(),
            id.0 < self.nodes().len(),
        ensures
            s@ == render(self.nodes(), id.0 as int, pp as int),
        decreases id.0, 2int,
    {
        let n = &self.nodes[id.0];
        let mut body = String::new();
        let prec: u8 = match n.op {
            Op::Add => 1,
            Op::Mul => 2,
            Op::Pow => 3,
            _ => 4,
        };
        proof {
            reveal_strlit("/");
            reveal_strlit("(");
            reveal_strlit(")");
            reveal_strlit("^");
            reveal_strlit(", ");
            reveal_strlit(" + ");
            reveal_strlit(" * ");
            reveal_strlit("<unknown>");
            assert(" + "@ =~= seq![' ', '+', ' ']);
            assert(" * "@ =~= seq![' ', '*', ' ']);
            assert(", "@ =~= seq![',', ' ']);
        }
        match (&n.op, &n.payload) {
            (Op::Integer, Payload::Int(k)) => {
                text::push_i64(&mut body, *k);
            },
            (Op::Rational, Payload::Rat(a, b)) => {
                text::push_i64(&mut body, *a);
                body.append("/");
                text::push_i64(&mut body, *b);
                assert(body@ =~= text::int_decimal(*a as int) + seq!['/'] + text::int_decimal(*b as int));
            },
            (Op::Symbol, Payload::Sym(name)) => {
                body.append(name.as_str());
            },
            (Op::Function, Payload::Func(name)) => {
                body.append(name.as_str());
                body.append("(");
                self.push_join(&mut body, id, 0, ", ");
                body.append(")");
                assert(body@ =~= name@ + seq!['('] + render_join(self.nodes(), id.0 as int, 0, seq![',', ' '], n.children@.len() as int) + seq![')']);
            },
            (Op::Add, _) => {
                self.push_join(&mut body, id, 1, " + ");
                assert(body@ =~= render_join(self.nodes(), id.0 as int, 1, seq![' ', '+', ' '], n.children@.len() as int));
            },
            (Op::Mul, _) => {
                self.push_join(&mut body, id, 2, " * ");
                assert(body@ =~= render_join(self.nodes(), id.0 as int, 2, seq![' ', '*', ' '], n.children@.len() as int));
            },
            (Op::Pow, _) => {
                self.push_child(&mut body, id, 0, 3);
                body.append("^");
                self.push_child(&mut body, id, 1, 3);
                assert(body@ =~= render_child(self.nodes(), id.0 as int, 0, 3) + seq!['^'] + render_child(self.nodes(), id.0 as int, 1, 3));
            },
            _ => {
                body.append("<unknown>");
            },
        }
        if prec < pp {
            let mut out = String::new();
            out.append("(");
            out.append(body.as_str());
            out.append(")");
            assert(out@ =~= seq!['('] + body@ + seq![')']);
            out
        } else {
            body
        }
    }

    /// The text of an expression, with parentheses only where binding requires them.
    pub fn to_string(&self, id: ExprId) -> (s: String)
        requires
            self.wf(),
            id.0 < self.nodes().len(),
        ensures
            s@ == render(self.nodes(), id.0 as int, 0),
    {
        self.render_node(id, 0)
    }
}

} // verus!
