//! Laws of the canonical constructors: numbers are stored in lowest terms, and combining
//! a rearrangement of the same inputs gives back the node that the first sum or product
//! built.
use vstd::prelude::*;
use vstd::relations::{sorted_by, total_ordering};
use crate::arith;
use crate::expr_core::{lemma_extends_digests, lemma_extends_key};
use crate::expr_core::{
    add_flatten, combine_result, mul_flatten, product_result, combined_with_number, drop_int, empty_key, extends, first_above,
    flat_number, has_key, int_key, interned, is_int_node, key_at, nodes_wf, number_key,
    sort_by_digest, sum_result, valid_ids, ExprId, Node, Op, Payload,
};

verus! {

broadcast use {vstd::seq_lib::group_to_multiset_ensures, vstd::multiset::group_multiset_axioms};

/// The terms that one input contributes to a sum: the terms of a nested sum, nothing for
/// a number, the input itself otherwise.
pub open spec fn sum_terms_of(nodes: Seq<Node>, t: ExprId) -> Seq<ExprId> {
    let n = nodes[t.0 as int];
    match n.op {
        Op::Add => n.children@,
        Op::Integer => Seq::empty(),
        Op::Rational => Seq::empty(),
        _ => seq![t],
    }
}

/// The value of an input that is a number.
pub open spec fn number_of(nodes: Seq<Node>, t: ExprId) -> Option<(int, int)> {
    let n = nodes[t.0 as int];
    match n.op {
        Op::Integer => match n.payload {
            Payload::Int(k) => Some((k as int, 1int)),
            _ => None,
        },
        Op::Rational => match n.payload {
            Payload::Rat(a, b) => Some((a as int, b as int)),
            _ => None,
        },
        _ => None,
    }
}

/// A running sum with the number of input `t` added, if it is one.
pub open spec fn add_number(v: (int, int), nodes: Seq<Node>, t: ExprId) -> (int, int) {
    match number_of(nodes, t) {
        Some(q) => arith::add_spec(v, q),
        None => v,
    }
}

/// The exact sum of the numbers among `s`, taken from the left.
pub open spec fn number_sum(nodes: Seq<Node>, s: Seq<ExprId>) -> (int, int)
    decreases s.len(),
{
    if s.len() == 0 {
        (0, 1)
    } else {
        add_number(number_sum(nodes, s.drop_last()), nodes, s.last())
    }
}

/// Input `t` is no number with a zero denominator.
pub open spec fn den_ok(nodes: Seq<Node>, t: ExprId) -> bool {
    number_of(nodes, t) matches Some(q) ==> q.1 != 0
}

/// No input of `s` is a number with a zero denominator.
pub open spec fn dens_ok(nodes: Seq<Node>, s: Seq<ExprId>) -> bool {
    forall|k: int| 0 <= k < s.len() ==> #[trigger] den_ok(nodes, s[k])
}

/// A sum that does not overflow is the exact sum of its numbers, which has a positive
/// denominator, and no number in it has a zero denominator.
proof fn lemma_flatten_number(nodes: Seq<Node>, s: Seq<ExprId>)
    requires
        add_flatten(nodes, s).1 is Some,
    ensures
        add_flatten(nodes, s).1 == Some(number_sum(nodes, s)),
        number_sum(nodes, s).1 > 0,
        dens_ok(nodes, s),
    decreases s.len(),
{
    if s.len() > 0 {
        let dl = s.drop_last();
        let t = s.last();
        let n = nodes[t.0 as int];
        let prev = add_flatten(nodes, dl).1;
        assert(prev is Some) by {
            if prev is None {
                assert(add_flatten(nodes, s).1 is None);
            }
        }
        lemma_flatten_number(nodes, dl);
        let v = number_sum(nodes, dl);
        match number_of(nodes, t) {
            Some(q) => {
                assert(add_flatten(nodes, s).1 == crate::expr_core::opt_add(prev, q));
                assert(arith::add_ok(v, q));
                assert(v.1 * q.1 != 0);
                assert(q.1 != 0) by {
                    if q.1 == 0 {
                        assert(v.1 * q.1 == 0);
                    }
                }
                arith::lemma_normalize(v.0 * q.1 + q.0 * v.1, v.1 * q.1);
            },
            None => {},
        }
        assert forall|k: int| 0 <= k < s.len() implies #[trigger] den_ok(nodes, s[k]) by {
            if k < s.len() - 1 {
                assert(s[k] == dl[k]);
            }
        }
    }
}

/// Adding the numbers of two inputs in either order gives the same sum.
proof fn lemma_add_number_swap(v: (int, int), nodes: Seq<Node>, a: ExprId, b: ExprId)
    requires
        v.1 != 0,
        den_ok(nodes, a),
        den_ok(nodes, b),
    ensures
        add_number(add_number(v, nodes, a), nodes, b) == add_number(add_number(v, nodes, b), nodes, a),
{
    match (number_of(nodes, a), number_of(nodes, b)) {
        (Some(p), Some(q)) => {
            arith::lemma_add_associative(v, p, q);
            arith::lemma_add_associative(v, q, p);
            arith::lemma_add_commutative(p, q);
        },
        _ => {},
    }
}

/// Adding a number keeps the denominator nonzero.
proof fn lemma_add_number_den(v: (int, int), nodes: Seq<Node>, a: ExprId)
    requires
        v.1 != 0,
        den_ok(nodes, a),
    ensures
        add_number(v, nodes, a).1 != 0,
{
    if let Some(q) = number_of(nodes, a) {
        assert(v.1 * q.1 != 0) by (nonlinear_arith)
            requires
                v.1 != 0,
                q.1 != 0,
        ;
        arith::lemma_normalize(v.0 * q.1 + q.0 * v.1, v.1 * q.1);
    }
}

/// The exact sum has a nonzero denominator.
proof fn lemma_number_sum_den(nodes: Seq<Node>, s: Seq<ExprId>)
    requires
        dens_ok(nodes, s),
    ensures
        number_sum(nodes, s).1 != 0,
    decreases s.len(),
{
    if s.len() > 0 {
        assert(den_ok(nodes, s[s.len() - 1]));
        assert(dens_ok(nodes, s.drop_last())) by {
            assert forall|k: int| 0 <= k < s.len() - 1 implies #[trigger] den_ok(nodes, s.drop_last()[k]) by {
                assert(den_ok(nodes, s[k]));
            }
        }
        lemma_number_sum_den(nodes, s.drop_last());
        lemma_add_number_den(number_sum(nodes, s.drop_last()), nodes, s.last());
    }
}

/// Removing one input and adding its number last gives the same exact sum.
proof fn lemma_number_sum_remove(nodes: Seq<Node>, s: Seq<ExprId>, i: int)
    requires
        dens_ok(nodes, s),
        0 <= i < s.len(),
    ensures
        number_sum(nodes, s) == add_number(number_sum(nodes, s.remove(i)), nodes, s[i]),
    decreases s.len(),
{
    let dl = s.drop_last();
    if i == s.len() - 1 {
        assert(s.remove(i) =~= dl);
    } else {
        assert(dens_ok(nodes, dl)) by {
            assert forall|k: int| 0 <= k < dl.len() implies #[trigger] den_ok(nodes, dl[k]) by {
                assert(den_ok(nodes, s[k]));
            }
        }
        lemma_number_sum_remove(nodes, dl, i);
        let r = dl.remove(i);
        assert(s.remove(i) =~= r.push(s.last()));
        assert(s.remove(i).drop_last() =~= r);
        assert(dens_ok(nodes, r)) by {
            assert forall|k: int| 0 <= k < r.len() implies #[trigger] den_ok(nodes, r[k]) by {
                if k < i {
                    assert(den_ok(nodes, s[k]));
                } else {
                    assert(den_ok(nodes, s[k + 1]));
                }
            }
        }
        lemma_number_sum_den(nodes, r);
        assert(den_ok(nodes, s[i]));
        assert(den_ok(nodes, s[s.len() - 1]));
        lemma_add_number_swap(number_sum(nodes, r), nodes, s[i], s.last());
    }
}

/// One more input adds its terms at the end.
proof fn lemma_flatten_step(nodes: Seq<Node>, s: Seq<ExprId>)
    requires
        s.len() > 0,
    ensures
        add_flatten(nodes, s).0 =~= add_flatten(nodes, s.drop_last()).0 + sum_terms_of(nodes, s.last()),
{
}

/// Removing one input removes its terms.
proof fn lemma_flatten_remove(nodes: Seq<Node>, s: Seq<ExprId>, i: int)
    requires
        0 <= i < s.len(),
    ensures
        add_flatten(nodes, s).0.to_multiset() =~= add_flatten(nodes, s.remove(i)).0.to_multiset().add(
            sum_terms_of(nodes, s[i]).to_multiset(),
        ),
    decreases s.len(),
{
    broadcast use vstd::seq_lib::lemma_multiset_commutative;

    let dl = s.drop_last();
    lemma_flatten_step(nodes, s);
    if i == s.len() - 1 {
        assert(s.remove(i) =~= dl);
    } else {
        lemma_flatten_remove(nodes, dl, i);
        let r = dl.remove(i);
        assert(s.remove(i) =~= r.push(s.last()));
        assert(s.remove(i).drop_last() =~= r);
        lemma_flatten_step(nodes, s.remove(i));
    }
}

/// Rearranging the inputs of a sum rearranges its terms and keeps the exact sum of its
/// numbers.
proof fn lemma_flatten_permutation(nodes: Seq<Node>, s1: Seq<ExprId>, s2: Seq<ExprId>)
    requires
        s1.to_multiset() == s2.to_multiset(),
        dens_ok(nodes, s1),
        dens_ok(nodes, s2),
    ensures
        add_flatten(nodes, s1).0.to_multiset() == add_flatten(nodes, s2).0.to_multiset(),
        number_sum(nodes, s1) == number_sum(nodes, s2),
    decreases s1.len(),
{
    if s1.len() == 0 {
        vstd::seq_lib::to_multiset_len(s1);
        vstd::seq_lib::to_multiset_len(s2);
        assert(s2.len() == 0);
        assert(s1 =~= s2);
    } else {
        let t = s1.last();
        let d1 = s1.drop_last();
        assert(s1.to_multiset().count(t) > 0) by {
            assert(s1 =~= d1.push(t));
        }
        assert(s2.contains(t));
        let i = choose|i: int| 0 <= i < s2.len() && s2[i] == t;
        let d2 = s2.remove(i);
        assert(s1 =~= d1.push(t));
        assert(d1.to_multiset() =~= d2.to_multiset());
        assert(dens_ok(nodes, d1)) by {
            assert forall|k: int| 0 <= k < d1.len() implies #[trigger] den_ok(nodes, d1[k]) by {
                assert(den_ok(nodes, s1[k]));
            }
        }
        assert(dens_ok(nodes, d2)) by {
            assert forall|k: int| 0 <= k < d2.len() implies #[trigger] den_ok(nodes, d2[k]) by {
                if k < i {
                    assert(den_ok(nodes, s2[k]));
                } else {
                    assert(den_ok(nodes, s2[k + 1]));
                }
            }
        }
        lemma_flatten_permutation(nodes, d1, d2);
        lemma_flatten_remove(nodes, s1, s1.len() - 1);
        assert(s1.remove(s1.len() - 1) =~= d1);
        lemma_flatten_remove(nodes, s2, i);
        lemma_number_sum_remove(nodes, s2, i);
    }
}

/// The digest of the node `a` refers to (0 outside the store).
pub open spec fn digest_of(nodes: Seq<Node>, a: ExprId) -> u64 {
    if a.0 < nodes.len() {
        nodes[a.0 as int].digest
    } else {
        0
    }
}

/// Ids ordered by digest, then by index.
pub open spec fn digest_leq(nodes: Seq<Node>) -> spec_fn(ExprId, ExprId) -> bool {
    |a: ExprId, b: ExprId|
        digest_of(nodes, a) < digest_of(nodes, b) || (digest_of(nodes, a) == digest_of(nodes, b)
            && a.0 <= b.0)
}

/// No two nodes of the store share a digest.
pub open spec fn digests_distinct(nodes: Seq<Node>) -> bool {
    forall|i: int, j: int| 0 <= i < j < nodes.len() ==> #[trigger] nodes[i].digest != #[trigger] nodes[j].digest
}

proof fn lemma_digest_leq_total(nodes: Seq<Node>)
    ensures
        total_ordering(digest_leq(nodes)),
{
    let leq = digest_leq(nodes);
    assert forall|a: ExprId, b: ExprId| #[trigger] leq(a, b) && #[trigger] leq(b, a) implies a == b by {
        assert(a.0 == b.0);
    }
}

/// Where `first_above` stops: every digest before it is not above `d`, the one at it is.
proof fn lemma_first_above(nodes: Seq<Node>, s: Seq<ExprId>, d: u64, i: int)
    requires
        0 <= i <= s.len(),
    ensures
        i <= first_above(nodes, s, d, i) <= s.len(),
        forall|j: int| i <= j < first_above(nodes, s, d, i) ==> nodes[#[trigger] s[j].0 as int].digest <= d,
        first_above(nodes, s, d, i) < s.len() ==> nodes[s[first_above(nodes, s, d, i)].0 as int].digest > d,
    decreases s.len() - i,
{
    if i < s.len() && nodes[s[i].0 as int].digest <= d {
        lemma_first_above(nodes, s, d, i + 1);
    }
}

/// Sorting keeps the ids, and they stay in the store.
proof fn lemma_sort_keeps(nodes: Seq<Node>, s: Seq<ExprId>)
    requires
        valid_ids(nodes, s),
    ensures
        sort_by_digest(nodes, s).to_multiset() =~= s.to_multiset(),
        sort_by_digest(nodes, s).len() == s.len(),
        valid_ids(nodes, sort_by_digest(nodes, s)),
    decreases s.len(),
{
    if s.len() > 0 {
        let dl = s.drop_last();
        let x = s.last();
        lemma_sort_keeps(nodes, dl);
        let sorted = sort_by_digest(nodes, dl);
        let k = first_above(nodes, sorted, nodes[x.0 as int].digest, 0);
        lemma_first_above(nodes, sorted, nodes[x.0 as int].digest, 0);
        assert(s =~= dl.push(x));
        let r = sorted.insert(k, x);
        assert forall|j: int| 0 <= j < r.len() implies (#[trigger] r[j]).0 < nodes.len() by {
            if j < k {
                assert(r[j] == sorted[j]);
            } else if j > k {
                assert(r[j] == sorted[j - 1]);
            }
        }
    }
}

/// In a store without digest collisions, sorting by digest orders by `digest_leq`.
proof fn lemma_sort_sorted(nodes: Seq<Node>, s: Seq<ExprId>)
    requires
        valid_ids(nodes, s),
        digests_distinct(nodes),
    ensures
        sorted_by(sort_by_digest(nodes, s), digest_leq(nodes)),
    decreases s.len(),
{
    let leq = digest_leq(nodes);
    if s.len() > 0 {
        let dl = s.drop_last();
        let x = s.last();
        lemma_sort_sorted(nodes, dl);
        lemma_sort_keeps(nodes, dl);
        let sorted = sort_by_digest(nodes, dl);
        let d = nodes[x.0 as int].digest;
        let k = first_above(nodes, sorted, d, 0);
        lemma_first_above(nodes, sorted, d, 0);
        let r = sorted.insert(k, x);
        assert(r == sort_by_digest(nodes, s));
        assert forall|i: int, j: int| 0 <= i < j < r.len() implies #[trigger] leq(r[i], r[j]) by {
            if i != k && j != k {
                let i0 = if i < k { i } else { i - 1 };
                let j0 = if j < k { j } else { j - 1 };
                assert(r[i] == sorted[i0] && r[j] == sorted[j0]);
                assert(leq(sorted[i0], sorted[j0]));
            } else if i == k {
                assert(r[j] == sorted[j - 1]);
                assert(k < sorted.len());
                if j - 1 > k {
                    assert(leq(sorted[k], sorted[j - 1]));
                }
                assert(nodes[sorted[j - 1].0 as int].digest > d);
            } else {
                assert(r[i] == sorted[i]);
                assert(nodes[sorted[i].0 as int].digest <= d);
                if nodes[sorted[i].0 as int].digest == d && sorted[i].0 != x.0 {
                    if sorted[i].0 < x.0 {
                        assert(nodes[sorted[i].0 as int].digest != nodes[x.0 as int].digest);
                    } else {
                        assert(nodes[x.0 as int].digest != nodes[sorted[i].0 as int].digest);
                    }
                }
            }
        }
    }
}

/// In a store without digest collisions, two arrangements of the same ids sort alike.
proof fn lemma_sort_unique(nodes: Seq<Node>, s1: Seq<ExprId>, s2: Seq<ExprId>)
    requires
        valid_ids(nodes, s1),
        valid_ids(nodes, s2),
        digests_distinct(nodes),
        s1.to_multiset() == s2.to_multiset(),
    ensures
        sort_by_digest(nodes, s1) == sort_by_digest(nodes, s2),
{
    lemma_sort_keeps(nodes, s1);
    lemma_sort_keeps(nodes, s2);
    lemma_sort_sorted(nodes, s1);
    lemma_sort_sorted(nodes, s2);
    lemma_digest_leq_total(nodes);
    vstd::seq_lib::lemma_sorted_unique(sort_by_digest(nodes, s1), sort_by_digest(nodes, s2), digest_leq(nodes));
}

/// A larger store reads the inputs alike.
proof fn lemma_flatten_extends(old: Seq<Node>, new: Seq<Node>, s: Seq<ExprId>)
    requires
        extends(old, new),
        valid_ids(old, s),
    ensures
        add_flatten(new, s) == add_flatten(old, s),
    decreases s.len(),
{
    if s.len() > 0 {
        lemma_flatten_extends(old, new, s.drop_last());
        assert(new[s.last().0 as int] == old[s.last().0 as int]);
    }
}

proof fn lemma_first_above_extends(old: Seq<Node>, new: Seq<Node>, s: Seq<ExprId>, d: u64, i: int)
    requires
        extends(old, new),
        valid_ids(old, s),
        0 <= i <= s.len(),
    ensures
        first_above(new, s, d, i) == first_above(old, s, d, i),
    decreases s.len() - i,
{
    if i < s.len() {
        assert(new[s[i].0 as int] == old[s[i].0 as int]);
        lemma_first_above_extends(old, new, s, d, i + 1);
    }
}

/// A larger store sorts the ids alike.
proof fn lemma_sort_extends(old: Seq<Node>, new: Seq<Node>, s: Seq<ExprId>)
    requires
        extends(old, new),
        valid_ids(old, s),
    ensures
        sort_by_digest(new, s) == sort_by_digest(old, s),
    decreases s.len(),
{
    if s.len() > 0 {
        let dl = s.drop_last();
        lemma_sort_extends(old, new, dl);
        lemma_sort_keeps(old, dl);
        let x = s.last();
        assert(new[x.0 as int] == old[x.0 as int]);
        lemma_first_above_extends(old, new, sort_by_digest(old, dl), old[x.0 as int].digest, 0);
    }
}

/// A larger store drops the same integers.
proof fn lemma_drop_int_extends(old: Seq<Node>, new: Seq<Node>, s: Seq<ExprId>, k: int)
    requires
        extends(old, new),
        valid_ids(old, s),
    ensures
        drop_int(new, s, k) == drop_int(old, s, k),
    decreases s.len(),
{
    if s.len() > 0 {
        lemma_drop_int_extends(old, new, s.drop_last(), k);
        assert(new[s.last().0 as int] == old[s.last().0 as int]);
    }
}

/// Dropping the integer `k` removes every copy of it and keeps the rest.
proof fn lemma_drop_int_count(nodes: Seq<Node>, s: Seq<ExprId>, k: int, x: ExprId)
    ensures
        drop_int(nodes, s, k).to_multiset().count(x) == if is_int_node(nodes, x, k) {
            0
        } else {
            s.to_multiset().count(x)
        },
    decreases s.len(),
{
    if s.len() > 0 {
        let dl = s.drop_last();
        lemma_drop_int_count(nodes, dl, k, x);
        assert(s =~= dl.push(s.last()));
    }
}

/// Dropping the integer `k` from two arrangements of the same ids leaves two arrangements
/// of the same ids.
proof fn lemma_drop_int_permutation(nodes: Seq<Node>, s1: Seq<ExprId>, s2: Seq<ExprId>, k: int)
    requires
        s1.to_multiset() == s2.to_multiset(),
    ensures
        drop_int(nodes, s1, k).to_multiset() == drop_int(nodes, s2, k).to_multiset(),
{
    assert forall|x: ExprId| #[trigger] drop_int(nodes, s1, k).to_multiset().count(x) == drop_int(nodes, s2, k).to_multiset().count(x) by {
        lemma_drop_int_count(nodes, s1, k, x);
        lemma_drop_int_count(nodes, s2, k, x);
    }
    assert(drop_int(nodes, s1, k).to_multiset() =~= drop_int(nodes, s2, k).to_multiset());
}

/// No two nodes of a well-formed store share an interning key.
proof fn lemma_key_unique(nodes: Seq<Node>, a: ExprId, b: ExprId)
    requires
        nodes_wf(nodes),
        a.0 < nodes.len(),
        b.0 < nodes.len(),
        key_at(nodes, a.0 as int) == key_at(nodes, b.0 as int),
    ensures
        a == b,
{
    if a.0 < b.0 {
        assert(key_at(nodes, a.0 as int) != key_at(nodes, b.0 as int));
    } else if b.0 < a.0 {
        assert(key_at(nodes, b.0 as int) != key_at(nodes, a.0 as int));
    }
}

/// The ids that survive `drop_int` are ids of `s`.
proof fn lemma_drop_int_valid(nodes: Seq<Node>, other: Seq<Node>, s: Seq<ExprId>, k: int)
    requires
        valid_ids(nodes, s),
    ensures
        valid_ids(nodes, drop_int(other, s, k)),
    decreases s.len(),
{
    if s.len() > 0 {
        lemma_drop_int_valid(nodes, other, s.drop_last(), k);
    }
}

/// Two arrangements of the same ids have the same ids.
proof fn lemma_permutation_valid(nodes: Seq<Node>, s1: Seq<ExprId>, s2: Seq<ExprId>)
    requires
        valid_ids(nodes, s1),
        s1.to_multiset() == s2.to_multiset(),
    ensures
        valid_ids(nodes, s2),
{
    assert forall|k: int| 0 <= k < s2.len() implies (#[trigger] s2[k]).0 < nodes.len() by {
        assert(s2.contains(s2[k]));
        assert(s2.to_multiset().count(s2[k]) > 0);
        assert(s1.to_multiset().count(s2[k]) > 0);
        assert(s1.contains(s2[k]));
    }
}

/// Ending a sum or product twice, on two arrangements of the same terms, the second time
/// in the store the first produced, gives the same node and adds nothing.
proof fn lemma_combine_again(
    mid1: Seq<Node>,
    st1: Seq<Node>,
    st2: Seq<Node>,
    t1: Seq<ExprId>,
    t2: Seq<ExprId>,
    unit: int,
    op: Op,
    r1: ExprId,
    r2: ExprId,
)
    requires
        nodes_wf(mid1),
        extends(mid1, st1),
        nodes_wf(st1),
        valid_ids(mid1, t1),
        t1.to_multiset() == t2.to_multiset(),
        combine_result(mid1, st1, t1, unit, op, r1),
        combine_result(st1, st2, t2, unit, op, r2),
        digests_distinct(st1),
    ensures
        r2 == r1,
        st2 == st1,
{
    lemma_permutation_valid(mid1, t1, t2);
    let kept1 = drop_int(mid1, t1, unit);
    let kept2 = drop_int(st1, t2, unit);
    lemma_drop_int_extends(mid1, st1, t1, unit);
    lemma_drop_int_permutation(st1, t1, t2, unit);
    lemma_drop_int_valid(mid1, mid1, t1, unit);
    lemma_drop_int_valid(mid1, st1, t2, unit);
    assert(valid_ids(st1, kept1)) by {
        assert forall|k: int| 0 <= k < kept1.len() implies (#[trigger] kept1[k]).0 < st1.len() by {
            assert(kept1[k].0 < mid1.len());
        }
    }
    assert(valid_ids(st1, kept2)) by {
        assert forall|k: int| 0 <= k < kept2.len() implies (#[trigger] kept2[k]).0 < st1.len() by {
            assert(kept2[k].0 < mid1.len());
        }
    }
    vstd::seq_lib::to_multiset_len(kept1);
    vstd::seq_lib::to_multiset_len(kept2);
    assert(kept1.len() == kept2.len());
    if kept1.len() == 0 {
        let key = (Op::Integer, int_key(unit), crate::expr_core::digests_of(mid1, Seq::empty()));
        assert(crate::expr_core::digests_of(st1, Seq::<ExprId>::empty()) =~= crate::expr_core::digests_of(mid1, Seq::<ExprId>::empty()));
        assert(key_at(st1, r1.0 as int) == key);
        assert(has_key(st1, key));
        lemma_key_unique(st1, r1, r2);
    } else if kept1.len() == 1 {
        assert(kept1.contains(kept1[0]));
        assert(kept2.to_multiset().count(kept1[0]) > 0);
        assert(kept2.contains(kept1[0]));
    } else {
        let sorted = sort_by_digest(mid1, kept1);
        lemma_sort_keeps(mid1, kept1);
        lemma_sort_extends(mid1, st1, kept1);
        lemma_sort_unique(st1, kept1, kept2);
        lemma_extends_digests(mid1, st1, sorted);
        let key = (op, empty_key(), crate::expr_core::digests_of(mid1, sorted));
        assert(key_at(st1, r1.0 as int) == key);
        assert(has_key(st1, key));
        lemma_key_unique(st1, r1, r2);
    }
}

/// The terms of a sum are ids of the store.
proof fn lemma_flatten_valid(nodes: Seq<Node>, s: Seq<ExprId>)
    requires
        nodes_wf(nodes),
        valid_ids(nodes, s),
    ensures
        valid_ids(nodes, add_flatten(nodes, s).0),
    decreases s.len(),
{
    if s.len() > 0 {
        lemma_flatten_valid(nodes, s.drop_last());
        lemma_flatten_step(nodes, s);
        let t = s.last();
        let ch = nodes[t.0 as int].children@;
        assert forall|k: int| 0 <= k < ch.len() implies (#[trigger] ch[k]).0 < nodes.len() by {
            assert(nodes[t.0 as int].children@[k].0 < t.0);
        }
    }
}

/// Appending the number node and ending the sum or product, twice, on two arrangements of
/// the same terms, the second time in the store the first produced, gives the same node
/// and adds nothing.
proof fn lemma_combined_again(
    st0: Seq<Node>,
    st1: Seq<Node>,
    st2: Seq<Node>,
    terms1: Seq<ExprId>,
    terms2: Seq<ExprId>,
    num: (int, int),
    unit: int,
    op: Op,
    r1: ExprId,
    r2: ExprId,
)
    requires
        nodes_wf(st0),
        valid_ids(st0, terms1),
        terms1.to_multiset() == terms2.to_multiset(),
        nodes_wf(st1),
        extends(st0, st1),
        combined_with_number(st0, st1, terms1, num, unit, op, r1),
        combined_with_number(st1, st2, terms2, num, unit, op, r2),
        digests_distinct(st1),
    ensures
        r2 == r1,
        st2 == st1,
{
    let mid1 = choose|mid: Seq<Node>|
        #![trigger nodes_wf(mid)]
        {
            &&& nodes_wf(mid)
            &&& extends(st0, mid)
            &&& extends(mid, st1)
            &&& num == (unit, 1int) ==> mid == st0 && combine_result(mid, st1, terms1, unit, op, r1)
            &&& num != (unit, 1int) ==> exists|q: ExprId|
                #![trigger interned(st0, mid, q, number_key(num.0, num.1).0, number_key(num.0, num.1).1, Seq::empty())]
                interned(st0, mid, q, number_key(num.0, num.1).0, number_key(num.0, num.1).1, Seq::empty())
                    && combine_result(mid, st1, terms1.push(q), unit, op, r1)
        };
    let mid2 = choose|mid: Seq<Node>|
        #![trigger nodes_wf(mid)]
        {
            &&& nodes_wf(mid)
            &&& extends(st1, mid)
            &&& extends(mid, st2)
            &&& num == (unit, 1int) ==> mid == st1 && combine_result(mid, st2, terms2, unit, op, r2)
            &&& num != (unit, 1int) ==> exists|q: ExprId|
                #![trigger interned(st1, mid, q, number_key(num.0, num.1).0, number_key(num.0, num.1).1, Seq::empty())]
                interned(st1, mid, q, number_key(num.0, num.1).0, number_key(num.0, num.1).1, Seq::empty())
                    && combine_result(mid, st2, terms2.push(q), unit, op, r2)
        };
    if num == (unit, 1int) {
        lemma_combine_again(st0, st1, st2, terms1, terms2, unit, op, r1, r2);
    } else {
        let nk = number_key(num.0, num.1);
        let q1 = choose|q: ExprId|
            #![trigger interned(st0, mid1, q, nk.0, nk.1, Seq::empty())]
            interned(st0, mid1, q, nk.0, nk.1, Seq::empty())
                && combine_result(mid1, st1, terms1.push(q), unit, op, r1);
        let q2 = choose|q: ExprId|
            #![trigger interned(st1, mid2, q, nk.0, nk.1, Seq::empty())]
            interned(st1, mid2, q, nk.0, nk.1, Seq::empty())
                && combine_result(mid2, st2, terms2.push(q), unit, op, r2);
        let key = (nk.0, nk.1, crate::expr_core::digests_of(st0, Seq::<ExprId>::empty()));
        assert(crate::expr_core::digests_of(st1, Seq::<ExprId>::empty()) =~= crate::expr_core::digests_of(st0, Seq::<ExprId>::empty()));
        lemma_extends_key(mid1, st1, q1.0 as int);
        assert(key_at(st1, q1.0 as int) == key);
        assert(has_key(st1, key));
        assert(mid2 == st1);
        lemma_key_unique(st1, q1, q2);
        let t1 = terms1.push(q1);
        let t2 = terms2.push(q1);
        assert(valid_ids(mid1, t1)) by {
            assert forall|k: int| 0 <= k < t1.len() implies (#[trigger] t1[k]).0 < mid1.len() by {
                if k < terms1.len() {
                    assert(t1[k] == terms1[k]);
                }
            }
        }
        assert(t1.to_multiset() =~= t2.to_multiset());
        lemma_combine_again(mid1, st1, st2, t1, t2, unit, op, r1, r2);
    }
}

/// Canonical sums do not depend on the order of their inputs: in the store that summing
/// `s1` produced, summing any rearrangement `s2` of `s1` gives back the same node and adds
/// no node, provided no two nodes of that store share a digest.
pub proof fn lemma_add_order_independent(
    st0: Seq<Node>,
    st1: Seq<Node>,
    st2: Seq<Node>,
    s1: Seq<ExprId>,
    s2: Seq<ExprId>,
    r1: ExprId,
    r2: ExprId,
)
    requires
        nodes_wf(st0),
        valid_ids(st0, s1),
        add_flatten(st0, s1).1 is Some,
        nodes_wf(st1),
        extends(st0, st1),
        sum_result(st0, st1, s1, r1),
        s2.to_multiset() == s1.to_multiset(),
        add_flatten(st1, s2).1 is Some,
        sum_result(st1, st2, s2, r2),
        digests_distinct(st1),
    ensures
        r2 == r1,
        st2 == st1,
{
    lemma_permutation_valid(st0, s1, s2);
    lemma_flatten_extends(st0, st1, s2);
    lemma_flatten_number(st0, s1);
    lemma_flatten_number(st0, s2);
    lemma_flatten_permutation(st0, s1, s2);
    lemma_flatten_valid(st0, s1);
    let terms1 = add_flatten(st0, s1).0;
    let terms2 = add_flatten(st0, s2).0;
    let num = flat_number(add_flatten(st0, s1).1, (0, 1));
    assert(flat_number(add_flatten(st1, s2).1, (0, 1)) == num);
    lemma_combined_again(st0, st1, st2, terms1, terms2, num, 0, Op::Add, r1, r2);
}

// ---------------------------------------------------------------------------
// Products
// ---------------------------------------------------------------------------

/// The factors that one input contributes to a product: the factors of a nested product,
/// nothing for a number, the input itself otherwise.
pub open spec fn product_factors_of(nodes: Seq<Node>, t: ExprId) -> Seq<ExprId> {
    let n = nodes[t.0 as int];
    match n.op {
        Op::Mul => n.children@,
        Op::Integer => Seq::empty(),
        Op::Rational => Seq::empty(),
        _ => seq![t],
    }
}

/// The factors of all the inputs of a product, in order.
pub open spec fn product_factors(nodes: Seq<Node>, s: Seq<ExprId>) -> Seq<ExprId>
    decreases s.len(),
{
    if s.len() == 0 {
        Seq::empty()
    } else {
        product_factors(nodes, s.drop_last()) + product_factors_of(nodes, s.last())
    }
}

/// Input `t` is the number zero.
pub open spec fn is_zero_number(nodes: Seq<Node>, t: ExprId) -> bool {
    number_of(nodes, t) matches Some(q) && q.0 == 0
}

/// Some input of `s` is the number zero.
pub open spec fn has_zero(nodes: Seq<Node>, s: Seq<ExprId>) -> bool {
    exists|k: int| 0 <= k < s.len() && #[trigger] is_zero_number(nodes, s[k])
}

/// A running product with the number of input `t` multiplied in, if it is one.
pub open spec fn mul_number(v: (int, int), nodes: Seq<Node>, t: ExprId) -> (int, int) {
    match number_of(nodes, t) {
        Some(q) => arith::mul_spec(v, q),
        None => v,
    }
}

/// The exact product of the numbers among `s`, taken from the left.
pub open spec fn number_product(nodes: Seq<Node>, s: Seq<ExprId>) -> (int, int)
    decreases s.len(),
{
    if s.len() == 0 {
        (1, 1)
    } else {
        mul_number(number_product(nodes, s.drop_last()), nodes, s.last())
    }
}

/// A product that does not overflow met a zero exactly when one of its inputs is zero;
/// otherwise it scanned every input: its factors are those of all inputs, its number is
/// the exact product, with a positive denominator, and no number in it has a zero
/// denominator.
proof fn lemma_mul_flatten_facts(nodes: Seq<Node>, s: Seq<ExprId>)
    requires
        mul_flatten(nodes, s).1 is Some,
    ensures
        mul_flatten(nodes, s).2 == has_zero(nodes, s),
        !has_zero(nodes, s) ==> {
            &&& mul_flatten(nodes, s).0 == product_factors(nodes, s)
            &&& mul_flatten(nodes, s).1 == Some(number_product(nodes, s))
            &&& number_product(nodes, s).1 > 0
            &&& dens_ok(nodes, s)
        },
    decreases s.len(),
{
    if s.len() == 0 {
        assert(!has_zero(nodes, s));
    } else {
        let dl = s.drop_last();
        let t = s.last();
        let prev = mul_flatten(nodes, dl);
        assert(prev.1 is Some) by {
            if prev.1 is None {
                assert(mul_flatten(nodes, s).1 is None);
            }
        }
        lemma_mul_flatten_facts(nodes, dl);
        assert forall|k: int| 0 <= k < dl.len() implies #[trigger] s[k] == dl[k] by {}
        if prev.2 {
            let k = choose|k: int| 0 <= k < dl.len() && #[trigger] is_zero_number(nodes, dl[k]);
            assert(is_zero_number(nodes, s[k]));
        } else {
            let v = number_product(nodes, dl);
            if has_zero(nodes, s) {
                let k = choose|k: int| 0 <= k < s.len() && #[trigger] is_zero_number(nodes, s[k]);
                if k < dl.len() {
                    assert(is_zero_number(nodes, dl[k]));
                }
            }
            match number_of(nodes, t) {
                Some(q) => {
                    if q.0 == 0 {
                        assert(is_zero_number(nodes, s[s.len() - 1]));
                    } else {
                        assert(mul_flatten(nodes, s).1 == crate::expr_core::opt_mul(prev.1, q));
                        assert(arith::mul_ok(v, q));
                        assert(q.1 != 0) by {
                            if q.1 == 0 {
                                assert(v.1 * q.1 == 0);
                            }
                        }
                        arith::lemma_normalize(v.0 * q.0, v.1 * q.1);
                    }
                },
                None => {},
            }
            if !has_zero(nodes, s) {
                assert(mul_flatten(nodes, s).0 =~= product_factors(nodes, s));
                assert forall|k: int| 0 <= k < s.len() implies #[trigger] den_ok(nodes, s[k]) by {
                    if k < s.len() - 1 {
                        assert(den_ok(nodes, dl[k]));
                    }
                }
            }
        }
    }
}

/// Multiplying in the numbers of two inputs in either order gives the same product.
proof fn lemma_mul_number_swap(v: (int, int), nodes: Seq<Node>, a: ExprId, b: ExprId)
    requires
        v.1 != 0,
        den_ok(nodes, a),
        den_ok(nodes, b),
    ensures
        mul_number(mul_number(v, nodes, a), nodes, b) == mul_number(mul_number(v, nodes, b), nodes, a),
{
    match (number_of(nodes, a), number_of(nodes, b)) {
        (Some(p), Some(q)) => {
            arith::lemma_mul_associative(v, p, q);
            arith::lemma_mul_associative(v, q, p);
            arith::lemma_mul_commutative(p, q);
        },
        _ => {},
    }
}

/// The exact product has a nonzero denominator.
proof fn lemma_number_product_den(nodes: Seq<Node>, s: Seq<ExprId>)
    requires
        dens_ok(nodes, s),
    ensures
        number_product(nodes, s).1 != 0,
    decreases s.len(),
{
    if s.len() > 0 {
        let dl = s.drop_last();
        assert(den_ok(nodes, s[s.len() - 1]));
        assert(dens_ok(nodes, dl)) by {
            assert forall|k: int| 0 <= k < dl.len() implies #[trigger] den_ok(nodes, dl[k]) by {
                assert(den_ok(nodes, s[k]));
            }
        }
        lemma_number_product_den(nodes, dl);
        let v = number_product(nodes, dl);
        if let Some(q) = number_of(nodes, s.last()) {
            assert(v.1 * q.1 != 0) by (nonlinear_arith)
                requires
                    v.1 != 0,
                    q.1 != 0,
            ;
            arith::lemma_normalize(v.0 * q.0, v.1 * q.1);
        }
    }
}

/// Removing one input and multiplying its number in last gives the same exact product.
proof fn lemma_number_product_remove(nodes: Seq<Node>, s: Seq<ExprId>, i: int)
    requires
        dens_ok(nodes, s),
        0 <= i < s.len(),
    ensures
        number_product(nodes, s) == mul_number(number_product(nodes, s.remove(i)), nodes, s[i]),
    decreases s.len(),
{
    let dl = s.drop_last();
    if i == s.len() - 1 {
        assert(s.remove(i) =~= dl);
    } else {
        assert(dens_ok(nodes, dl)) by {
            assert forall|k: int| 0 <= k < dl.len() implies #[trigger] den_ok(nodes, dl[k]) by {
                assert(den_ok(nodes, s[k]));
            }
        }
        lemma_number_product_remove(nodes, dl, i);
        let r = dl.remove(i);
        assert(s.remove(i) =~= r.push(s.last()));
        assert(s.remove(i).drop_last() =~= r);
        assert(dens_ok(nodes, r)) by {
            assert forall|k: int| 0 <= k < r.len() implies #[trigger] den_ok(nodes, r[k]) by {
                if k < i {
                    assert(den_ok(nodes, s[k]));
                } else {
                    assert(den_ok(nodes, s[k + 1]));
                }
            }
        }
        lemma_number_product_den(nodes, r);
        assert(den_ok(nodes, s[i]));
        assert(den_ok(nodes, s[s.len() - 1]));
        lemma_mul_number_swap(number_product(nodes, r), nodes, s[i], s.last());
    }
}

/// Removing one input removes its factors.
proof fn lemma_product_factors_remove(nodes: Seq<Node>, s: Seq<ExprId>, i: int)
    requires
        0 <= i < s.len(),
    ensures
        product_factors(nodes, s).to_multiset() =~= product_factors(nodes, s.remove(i)).to_multiset().add(
            product_factors_of(nodes, s[i]).to_multiset(),
        ),
    decreases s.len(),
{
    broadcast use vstd::seq_lib::lemma_multiset_commutative;

    let dl = s.drop_last();
    if i == s.len() - 1 {
        assert(s.remove(i) =~= dl);
    } else {
        lemma_product_factors_remove(nodes, dl, i);
        let r = dl.remove(i);
        assert(s.remove(i) =~= r.push(s.last()));
        assert(s.remove(i).drop_last() =~= r);
    }
}

/// Rearranging the inputs of a product rearranges its factors, keeps the exact product
/// of its numbers, and keeps whether one of them is zero.
proof fn lemma_product_permutation(nodes: Seq<Node>, s1: Seq<ExprId>, s2: Seq<ExprId>)
    requires
        s1.to_multiset() == s2.to_multiset(),
    ensures
        product_factors(nodes, s1).to_multiset() == product_factors(nodes, s2).to_multiset(),
        dens_ok(nodes, s1) && dens_ok(nodes, s2) ==> number_product(nodes, s1) == number_product(nodes, s2),
        has_zero(nodes, s1) == has_zero(nodes, s2),
    decreases s1.len(),
{
    if s1.len() == 0 {
        vstd::seq_lib::to_multiset_len(s1);
        vstd::seq_lib::to_multiset_len(s2);
        assert(s2.len() == 0);
        assert(s1 =~= s2);
    } else {
        let t = s1.last();
        let d1 = s1.drop_last();
        assert(s1 =~= d1.push(t));
        assert(s1.to_multiset().count(t) > 0);
        assert(s2.contains(t));
        let i = choose|i: int| 0 <= i < s2.len() && s2[i] == t;
        let d2 = s2.remove(i);
        assert(d1.to_multiset() =~= d2.to_multiset());
        lemma_product_permutation(nodes, d1, d2);
        lemma_product_factors_remove(nodes, s1, s1.len() - 1);
        assert(s1.remove(s1.len() - 1) =~= d1);
        lemma_product_factors_remove(nodes, s2, i);
        if dens_ok(nodes, s1) && dens_ok(nodes, s2) {
            assert(dens_ok(nodes, d1)) by {
                assert forall|k: int| 0 <= k < d1.len() implies #[trigger] den_ok(nodes, d1[k]) by {
                    assert(den_ok(nodes, s1[k]));
                }
            }
            assert(dens_ok(nodes, d2)) by {
                assert forall|k: int| 0 <= k < d2.len() implies #[trigger] den_ok(nodes, d2[k]) by {
                    if k < i {
                        assert(den_ok(nodes, s2[k]));
                    } else {
                        assert(den_ok(nodes, s2[k + 1]));
                    }
                }
            }
            lemma_number_product_remove(nodes, s2, i);
        }
        // a zero among the inputs of one is among the inputs of the other
        assert(has_zero(nodes, s1) == (has_zero(nodes, d1) || is_zero_number(nodes, t))) by {
            if has_zero(nodes, s1) {
                let k = choose|k: int| 0 <= k < s1.len() && #[trigger] is_zero_number(nodes, s1[k]);
                if k < d1.len() {
                    assert(is_zero_number(nodes, d1[k]));
                }
            }
            if has_zero(nodes, d1) {
                let k = choose|k: int| 0 <= k < d1.len() && #[trigger] is_zero_number(nodes, d1[k]);
                assert(is_zero_number(nodes, s1[k]));
            }
            if is_zero_number(nodes, t) {
                assert(is_zero_number(nodes, s1[s1.len() - 1]));
            }
        }
        assert(has_zero(nodes, s2) == (has_zero(nodes, d2) || is_zero_number(nodes, t))) by {
            if has_zero(nodes, s2) {
                let k = choose|k: int| 0 <= k < s2.len() && #[trigger] is_zero_number(nodes, s2[k]);
                if k < i {
                    assert(is_zero_number(nodes, d2[k]));
                } else if k > i {
                    assert(is_zero_number(nodes, d2[k - 1]));
                }
            }
            if has_zero(nodes, d2) {
                let k = choose|k: int| 0 <= k < d2.len() && #[trigger] is_zero_number(nodes, d2[k]);
                if k < i {
                    assert(is_zero_number(nodes, s2[k]));
                } else {
                    assert(is_zero_number(nodes, s2[k + 1]));
                }
            }
            if is_zero_number(nodes, t) {
                assert(is_zero_number(nodes, s2[i]));
            }
        }
    }
}

/// A larger store reads the factors alike.
proof fn lemma_mul_flatten_extends(old: Seq<Node>, new: Seq<Node>, s: Seq<ExprId>)
    requires
        extends(old, new),
        valid_ids(old, s),
    ensures
        mul_flatten(new, s) == mul_flatten(old, s),
    decreases s.len(),
{
    if s.len() > 0 {
        lemma_mul_flatten_extends(old, new, s.drop_last());
        assert(new[s.last().0 as int] == old[s.last().0 as int]);
    }
}

/// The factors of a product are ids of the store.
proof fn lemma_product_factors_valid(nodes: Seq<Node>, s: Seq<ExprId>)
    requires
        nodes_wf(nodes),
        valid_ids(nodes, s),
    ensures
        valid_ids(nodes, product_factors(nodes, s)),
    decreases s.len(),
{
    if s.len() > 0 {
        lemma_product_factors_valid(nodes, s.drop_last());
        let t = s.last();
        let ch = nodes[t.0 as int].children@;
        assert forall|k: int| 0 <= k < ch.len() implies (#[trigger] ch[k]).0 < nodes.len() by {
            assert(nodes[t.0 as int].children@[k].0 < t.0);
        }
    }
}

/// Canonical products do not depend on the order of their inputs: in the store that
/// multiplying `s1` produced, multiplying any rearrangement `s2` of `s1` gives back the
/// same node and adds no node, provided no two nodes of that store share a digest.
pub proof fn lemma_mul_order_independent(
    st0: Seq<Node>,
    st1: Seq<Node>,
    st2: Seq<Node>,
    s1: Seq<ExprId>,
    s2: Seq<ExprId>,
    r1: ExprId,
    r2: ExprId,
)
    requires
        nodes_wf(st0),
        valid_ids(st0, s1),
        mul_flatten(st0, s1).1 is Some,
        nodes_wf(st1),
        extends(st0, st1),
        product_result(st0, st1, s1, r1),
        s2.to_multiset() == s1.to_multiset(),
        mul_flatten(st1, s2).1 is Some,
        product_result(st1, st2, s2, r2),
        digests_distinct(st1),
    ensures
        r2 == r1,
        st2 == st1,
{
    lemma_permutation_valid(st0, s1, s2);
    lemma_mul_flatten_extends(st0, st1, s2);
    lemma_mul_flatten_facts(st0, s1);
    lemma_mul_flatten_facts(st0, s2);
    lemma_product_permutation(st0, s1, s2);
    assert(crate::expr_core::digests_of(st1, Seq::<ExprId>::empty()) =~= crate::expr_core::digests_of(st0, Seq::<ExprId>::empty()));
    if has_zero(st0, s1) {
        let key = (Op::Integer, int_key(0), crate::expr_core::digests_of(st0, Seq::<ExprId>::empty()));
        assert(key_at(st1, r1.0 as int) == key);
        assert(has_key(st1, key));
        lemma_key_unique(st1, r1, r2);
    } else {
        lemma_product_factors_valid(st0, s1);
        let terms1 = product_factors(st0, s1);
        let terms2 = product_factors(st0, s2);
        let num = flat_number(mul_flatten(st0, s1).1, (1, 1));
        assert(flat_number(mul_flatten(st1, s2).1, (1, 1)) == num);
        lemma_combined_again(st0, st1, st2, terms1, terms2, num, 1, Op::Mul, r1, r2);
    }
}

// ---------------------------------------------------------------------------
// Numbers
// ---------------------------------------------------------------------------

/// Numbers are stored in lowest terms: in the store that making the number `a/b`
/// produced, making a number `c/d` of the same value gives back the same node and adds
/// no node.
pub proof fn lemma_rat_same_value(
    st0: Seq<Node>,
    st1: Seq<Node>,
    st2: Seq<Node>,
    a: int,
    b: int,
    c: int,
    d: int,
    r1: ExprId,
    r2: ExprId,
)
    requires
        b != 0,
        d != 0,
        a * d == c * b,
        interned(st0, st1, r1, number_key(a, b).0, number_key(a, b).1, Seq::empty()),
        interned(st1, st2, r2, number_key(c, d).0, number_key(c, d).1, Seq::empty()),
    ensures
        r2 == r1,
        st2 == st1,
{
    arith::lemma_normalize_same_value(a, b, c, d);
    assert(number_key(a, b) == number_key(c, d));
    assert(crate::expr_core::digests_of(st1, Seq::<ExprId>::empty()) =~= crate::expr_core::digests_of(st0, Seq::<ExprId>::empty()));
    crate::expr_core::lemma_interned_existing(
        st1,
        st2,
        r2,
        number_key(c, d).0,
        number_key(c, d).1,
        Seq::empty(),
        r1.0 as int,
    );
}

} // verus!
