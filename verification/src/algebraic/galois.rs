//! Galois groups of a few simple extensions of Q.
use vstd::prelude::*;
use crate::arith;
use crate::algebraic::cyclotomic::{self, euler_phi, is_primitive_root};
use crate::text::{self, push_nat};

verus! {

/// An automorphism of a field extension, by name and order.
#[derive(Clone, Debug, PartialEq, Eq)]
pub struct FieldAutomorphism {
    pub name: String,
    pub order: usize,
}

impl FieldAutomorphism {
    /// The automorphism with the given name and order.
    pub fn new(name: String, order: usize) -> (r: FieldAutomorphism)
        ensures
            r.name@ == name@,
            r.order == order,
    {
        FieldAutomorphism { name, order }
    }

    /// The identity automorphism, named `id`, of order 1.
    pub fn identity() -> (r: FieldAutomorphism)
        ensures
            r.name@ == "id"@,
            r.order == 1,
    {
        FieldAutomorphism { name: String::from_str("id"), order: 1 }
    }
}

/// A Galois group: its automorphisms, their number, and whether the extension is Galois.
#[derive(Clone, Debug)]
pub struct GaloisGroup {
    pub elements: Vec<FieldAutomorphism>,
    pub order: usize,
    pub is_galois: bool,
}

impl GaloisGroup {
    /// The group of the given automorphisms; its order is their number.
    pub fn new(elements: Vec<FieldAutomorphism>, is_galois: bool) -> (r: GaloisGroup)
        ensures
            r.elements@ == elements@,
            r.order == elements@.len(),
            r.is_galois == is_galois,
    {
        let order = elements.len();
        GaloisGroup { elements, order, is_galois }
    }

    /// The trivial group `{id}` of a Galois extension.
    pub fn trivial() -> (r: GaloisGroup)
        ensures
            r.elements@.len() == 1,
            r.elements@[0].name@ == "id"@,
            r.elements@[0].order == 1,
            r.order == 1,
            r.is_galois,
    {
        GaloisGroup { elements: vec![FieldAutomorphism::identity()], order: 1, is_galois: true }
    }

    /// Cyclic: some automorphism's order is the order of the group, so that it
    /// generates the group.
    pub fn is_cyclic(&self) -> (r: bool)
        ensures
            r == exists|i: int| 0 <= i < self.elements@.len() && #[trigger] self.elements@[i].order == self.order,
    {
        let mut i: usize = 0;
        while i < self.elements.len()
            invariant
                i <= self.elements@.len(),
                forall|j: int| 0 <= j < i ==> #[trigger] self.elements@[j].order != self.order,
            decreases self.elements@.len() - i,
        {
            if self.elements[i].order == self.order {
                return true;
            }
            i = i + 1;
        }
        false
    }

    /// Abelian by order: groups of order at most 4 (the automorphisms carry no
    /// composition to test commutativity on).
    pub fn is_abelian(&self) -> (r: bool)
        ensures
            r == (self.order <= 4),
    {
        self.order <= 4
    }
}

/// Gal(Q(√d)/Q) = {id, √d ↦ -√d}.
pub fn galois_group_quadratic(_d: i64) -> (r: GaloisGroup)
    ensures
        r.order == 2,
        r.is_galois,
        r.elements@.len() == 2,
        r.elements@[0].name@ == "id"@ && r.elements@[0].order == 1,
        r.elements@[1].name@ == "σ: √d ↦ -√d"@ && r.elements@[1].order == 2,
{
    let id = FieldAutomorphism::identity();
    let conj = FieldAutomorphism::new(String::from_str("σ: √d ↦ -√d"), 2);
    GaloisGroup::new(vec![id, conj], true)
}

/// Gal(Q(i)/Q) = {id, i ↦ -i}.
pub fn galois_group_gaussian() -> (r: GaloisGroup)
    ensures
        r.order == 2,
        r.is_galois,
        r.elements@.len() == 2,
        r.elements@[0].name@ == "id"@ && r.elements@[0].order == 1,
        r.elements@[1].name@ == "σ: i ↦ -i"@ && r.elements@[1].order == 2,
{
    let id = FieldAutomorphism::identity();
    let conj = FieldAutomorphism::new(String::from_str("σ: i ↦ -i"), 2);
    GaloisGroup::new(vec![id, conj], true)
}

/// The name `σ_k: ζ_n ↦ ζ_n^k`.
pub open spec fn cyclotomic_auto_name(k: nat, n: nat) -> Seq<char> {
    "σ_"@ + text::nat_digits(k) + ": ζ_"@ + text::nat_digits(n) + " ↦ ζ_"@ + text::nat_digits(n) + "^"@
        + text::nat_digits(k)
}

/// The `k` in `2..=m` with `gcd(k, n) == 1`, in increasing order.
pub open spec fn coprime_from_two(n: nat, m: nat) -> Seq<nat>
    decreases m,
{
    if m < 2 {
        Seq::empty()
    } else {
        let prev = coprime_from_two(n, (m - 1) as nat);
        if arith::gcd(m, n) == 1 {
            prev.push(m)
        } else {
            prev
        }
    }
}

proof fn lemma_coprime_from_two_len(n: nat, m: nat)
    ensures
        coprime_from_two(n, m).len() <= m,
    decreases m,
{
    if m >= 2 {
        lemma_coprime_from_two_len(n, (m - 1) as nat);
    }
}

fn cyclotomic_name(k: usize, n: usize) -> (s: String)
    ensures
        s@ == cyclotomic_auto_name(k as nat, n as nat),
{
    let mut s = String::from_str("σ_");
    push_nat(&mut s, k as u64);
    s.append(": ζ_");
    push_nat(&mut s, n as u64);
    s.append(" ↦ ζ_");
    push_nat(&mut s, n as u64);
    s.append("^");
    push_nat(&mut s, k as u64);
    s
}

/// The powers `x = k^e mod n` from `e` on: the first `e < n` with `x == 1`, else `n`.
pub open spec fn order_search(k: nat, n: nat, e: nat, x: nat) -> nat
    decreases n - e,
{
    if e >= n {
        n
    } else if x == 1 {
        e
    } else {
        order_search(k, n, e + 1, (x * k) % n)
    }
}

/// The multiplicative order of `k` modulo `n`: the least `e ≥ 1` with `k^e ≡ 1`
/// (`n` when there is none below `n`).
pub open spec fn mult_order(k: nat, n: nat) -> nat {
    order_search(k, n, 1, k % n)
}

/// The multiplicative order of `k` modulo `n` (`mult_order`).
fn multiplicative_order(k: usize, n: usize) -> (r: usize)
    requires
        n >= 1,
    ensures
        r == mult_order(k as nat, n as nat),
{
    let nn = n as u128;
    let kk = k as u128;
    let mut e: usize = 1;
    let mut x: u128 = kk % nn;
    while e < n
        invariant
            1 <= e <= n,
            nn == n,
            kk == k,
            x < nn,
            order_search(k as nat, n as nat, e as nat, x as nat) == mult_order(k as nat, n as nat),
        decreases n - e,
    {
        if x == 1 {
            return e;
        }
        assert(x * kk <= 0xffff_ffff_ffff_ffffu128 * 0xffff_ffff_ffff_ffffu128) by (nonlinear_arith)
            requires
                x < nn,
                nn <= 0xffff_ffff_ffff_ffff,
                kk <= 0xffff_ffff_ffff_ffff,
        ;
        x = (x * kk) % nn;
        e = e + 1;
    }
    n
}

/// Gal(Q(ζ_n)/Q): the identity, then σ_k (ζ_n ↦ ζ_n^k), whose order is that of `k`
/// modulo `n`, for each `k` in `2..=n` coprime to `n`.
pub fn galois_group_cyclotomic(n: usize) -> (r: GaloisGroup)
    ensures
        r.is_galois,
        r.elements@.len() == 1 + coprime_from_two(n as nat, n as nat).len(),
        r.order == r.elements@.len(),
        r.elements@[0].name@ == "id"@ && r.elements@[0].order == 1,
        forall|i: int|
            0 <= i < coprime_from_two(n as nat, n as nat).len() ==> {
                &&& (#[trigger] r.elements@[i + 1]).name@ == cyclotomic_auto_name(
                    coprime_from_two(n as nat, n as nat)[i],
                    n as nat,
                )
                &&& r.elements@[i + 1].order == mult_order(coprime_from_two(n as nat, n as nat)[i], n as nat)
            },
{
    let phi_n = euler_phi(n);
    let mut elements = vec![FieldAutomorphism::identity()];
    let mut k: usize = 1;
    while k < n
        invariant
            1 <= k <= n || (n == 0 && k == 1),
            phi_n == cyclotomic::phi(n as nat),
            elements@.len() == 1 + coprime_from_two(n as nat, k as nat).len(),
            elements@[0].name@ == "id"@ && elements@[0].order == 1,
            forall|i: int|
                0 <= i < coprime_from_two(n as nat, k as nat).len() ==> {
                    &&& (#[trigger] elements@[i + 1]).name@ == cyclotomic_auto_name(
                        coprime_from_two(n as nat, k as nat)[i],
                        n as nat,
                    )
                    &&& elements@[i + 1].order == mult_order(coprime_from_two(n as nat, k as nat)[i], n as nat)
                },
        decreases n - k,
    {
        k = k + 1;
        proof {
            lemma_coprime_from_two_len(n as nat, k as nat);
        }
        if is_primitive_root(k, n) {
            let name = cyclotomic_name(k, n);
            let ord = multiplicative_order(k, n);
            elements.push(FieldAutomorphism::new(name, ord));
        }
    }
    proof {
        if n < 2 {
            assert(coprime_from_two(n as nat, n as nat) == coprime_from_two(n as nat, 1));
        }
    }
    GaloisGroup::new(elements, true)
}

/// Gal(Q(∛2)/Q) = {id}; the extension is not Galois.
pub fn galois_group_cbrt2() -> (r: GaloisGroup)
    ensures
        r.order == 1,
        !r.is_galois,
        r.elements@.len() == 1,
        r.elements@[0].name@ == "id"@ && r.elements@[0].order == 1,
{
    GaloisGroup::new(vec![FieldAutomorphism::identity()], false)
}

/// Over Q every extension is separable, so Galois means normal and separable.
pub fn is_galois_extension(_degree: usize, is_normal: bool, is_separable: bool) -> (r: bool)
    ensures
        r == (is_normal && is_separable),
{
    is_normal && is_separable
}

/// The tower law `[K:F] = [K:E]·[E:F]`.
pub fn extension_degree(base_degree: usize, ext_degree: usize) -> (r: usize)
    requires
        base_degree * ext_degree <= usize::MAX,
    ensures
        r == base_degree * ext_degree,
{
    base_degree * ext_degree
}

/// Whether `n` is prime, by trial division with odd divisors up to √n.
pub fn is_prime(n: usize) -> (r: bool)
    ensures
        r == arith::is_prime_nat(n as nat),
{
    if n < 2 {
        return false;
    }
    if n == 2 {
        assert(arith::is_prime_nat(2));
        return true;
    }
    if n % 2 == 0 {
        assert((n as nat) % 2 == 0);
        return false;
    }
    let mut i: usize = 3;
    while square_at_most(i, n)
        invariant
            n >= 3,
            n % 2 == 1,
            3 <= i,
            i % 2 == 1,
            forall|d: nat| 2 <= d < i ==> #[trigger] ((n as nat) % d) != 0,
        decreases n - i + 2,
    {
        if n % i == 0 {
            assert(((n as nat) % (i as nat)) == 0);
            assert(i < n) by (nonlinear_arith)
                requires
                    (i as int) * (i as int) <= n,
                    i >= 3,
            ;
            return false;
        }
        proof {
            assert(((n as nat) % ((i + 1) as nat)) != 0) by {
                lemma_odd_not_even_divisible(n as nat, (i + 1) as nat);
            }
        }
        assert(i < n) by (nonlinear_arith)
            requires
                (i as int) * (i as int) <= n,
                i >= 3,
        ;
        i = i + 2;
    }
    proof {
        assert forall|d: nat| 2 <= d < n implies #[trigger] ((n as nat) % d) != 0 by {
            if d >= i && (n as nat) % d == 0 {
                arith::lemma_small_divisor(n as nat, d);
                let e = choose|e: nat| 2 <= e && e * e <= n && #[trigger] ((n as nat) % e) == 0;
                assert(e < i) by (nonlinear_arith)
                    requires
                        e * e <= n,
                        (i as int) * (i as int) > n,
                        i >= 3,
                        e >= 2,
                ;
            }
        }
    }
    true
}

/// Whether `i * i <= n`, without overflow.
fn square_at_most(i: usize, n: usize) -> (r: bool)
    ensures
        r == ((i as int) * (i as int) <= n as int),
{
    assert((i as u128) * (i as u128) <= 0xffff_ffff_ffff_ffffu128 * 0xffff_ffff_ffff_ffffu128)
        by (nonlinear_arith)
        requires
            i <= 0xffff_ffff_ffff_ffffu128,
    ;
    (i as u128) * (i as u128) <= n as u128
}

proof fn lemma_odd_not_even_divisible(n: nat, e: nat)
    requires
        n % 2 == 1,
        e % 2 == 0,
        e >= 2,
    ensures
        n % e != 0,
{
    if n % e == 0 {
        vstd::arithmetic::div_mod::lemma_fundamental_div_mod(n as int, e as int);
        vstd::arithmetic::div_mod::lemma_fundamental_div_mod(e as int, 2);
        let q = n / e;
        let h = e / 2;
        assert(n == 2 * (h * q)) by (nonlinear_arith)
            requires
                n == e * q,
                e == 2 * h,
        ;
        vstd::arithmetic::div_mod::lemma_mod_multiples_basic((h * q) as int, 2);
        vstd::arithmetic::mul::lemma_mul_is_commutative(2, (h * q) as int);
    }
}

} // verus!
