//! Exact matrices over Q and elimination methods.
use vstd::prelude::*;
use crate::arith::{self, Q, add_q, div_q, mul_q, sub_q};

verus! {

/// Checked rational sum: `None` where `add_q` would overflow.
pub open spec fn add_opt(a: (int, int), b: (int, int)) -> Option<(int, int)> {
    if arith::add_ok(a, b) { Some(arith::add_spec(a, b)) } else { None }
}

/// Checked rational difference.
pub open spec fn sub_opt(a: (int, int), b: (int, int)) -> Option<(int, int)> {
    if arith::sub_ok(a, b) { Some(arith::sub_spec(a, b)) } else { None }
}

/// Checked rational product.
pub open spec fn mul_opt(a: (int, int), b: (int, int)) -> Option<(int, int)> {
    if arith::mul_ok(a, b) { Some(arith::mul_spec(a, b)) } else { None }
}

/// Checked rational quotient.
pub open spec fn div_opt(a: (int, int), b: (int, int)) -> Option<(int, int)> {
    if arith::div_ok(a, b) { Some(arith::div_spec(a, b)) } else { None }
}

/// The pairs of a list of `Q`s.
pub open spec fn qvs(s: Seq<Q>) -> Seq<(int, int)> {
    s.map_values(|q: Q| arith::qv(q))
}

/// A dense matrix over Q, stored row by row.
#[derive(Clone, Debug, PartialEq, Eq)]
pub struct MatrixQ {
    pub rows: usize,
    pub cols: usize,
    pub data: Vec<Q>,
}

impl MatrixQ {
    /// The storage holds `rows · cols` entries.
    pub open spec fn wf(&self) -> bool {
        self.data@.len() == self.rows * self.cols
    }

    /// The entries as pairs, row by row.
    pub open spec fn entries(&self) -> Seq<(int, int)> {
        qvs(self.data@)
    }

    /// The entry in row `r`, column `c`.
    pub open spec fn at(&self, r: int, c: int) -> (int, int) {
        arith::qv(self.data@[r * self.cols + c])
    }

    /// A matrix from its entries, row by row.
    pub fn new(rows: usize, cols: usize, data: Vec<Q>) -> (m: Self)
        requires
            rows * cols <= usize::MAX,
            data@.len() == rows * cols,
        ensures
            m.rows == rows,
            m.cols == cols,
            m.data@ == data@,
            m.wf(),
    {
        MatrixQ { rows, cols, data }
    }

    /// A matrix of integers, row by row.
    pub fn from_i64(rows: usize, cols: usize, data: &[i64]) -> (m: Self)
        requires
            rows * cols <= usize::MAX,
            data@.len() == rows * cols,
        ensures
            m.rows == rows,
            m.cols == cols,
            m.wf(),
            forall|i: int| 0 <= i < data@.len() ==> #[trigger] m.data@[i] == Q(data@[i], 1),
    {
        let mut v: Vec<Q> = Vec::new();
        let mut i: usize = 0;
        while i < data.len()
            invariant
                i <= data@.len(),
                v@.len() == i,
                forall|j: int| 0 <= j < i ==> #[trigger] v@[j] == Q(data@[j], 1),
            decreases data@.len() - i,
        {
            v.push(Q(data[i], 1));
            i = i + 1;
        }
        Self::new(rows, cols, v)
    }

    /// The `n × n` identity matrix.
    pub fn identity(n: usize) -> (m: Self)
        requires
            n * n <= usize::MAX,
        ensures
            m.rows == n,
            m.cols == n,
            m.wf(),
            forall|r: int, c: int|
                0 <= r < n && 0 <= c < n ==> #[trigger] m.data@[r * n + c] == (if r == c {
                    Q(1, 1)
                } else {
                    Q(0, 1)
                }),
    {
        let total = n * n;
        let mut v: Vec<Q> = Vec::new();
        let mut i: usize = 0;
        while i < total
            invariant
                total == n * n,
                i <= total,
                v@.len() == i,
                forall|j: int| 0 <= j < i ==> #[trigger] v@[j] == Q(0, 1),
            decreases total - i,
        {
            v.push(Q::zero());
            i = i + 1;
        }
        proof {
            assert forall|r: int, c: int| 0 <= r < n && 0 <= c < n implies #[trigger] v@[r * n + c] == (if r == c && r < 0 {
                Q(1, 1)
            } else {
                Q(0, 1)
            }) by {
                lemma_index_in_range(r, c, n as int, n as int);
            }
        }
        let mut k: usize = 0;
        while k < n
            invariant
                total == n * n,
                k <= n,
                v@.len() == total,
                forall|r: int, c: int|
                    0 <= r < n && 0 <= c < n ==> #[trigger] v@[r * n + c] == (if r == c && r < k {
                        Q(1, 1)
                    } else {
                        Q(0, 1)
                    }),
            decreases n - k,
        {
            proof {
                lemma_index_in_range(k as int, k as int, n as int, n as int);
            }
            v.set(k * n + k, Q::one());
            proof {
                assert forall|r: int, c: int|
                    0 <= r < n && 0 <= c < n implies #[trigger] v@[r * n + c] == (if r == c && r < k + 1 {
                        Q(1, 1)
                    } else {
                        Q(0, 1)
                    }) by {
                    lemma_index_in_range(r, c, n as int, n as int);
                    if r * n + c == k * n + k {
                        lemma_index_unique(r, c, k as int, k as int, n as int);
                    }
                }
            }
            k = k + 1;
        }
        Self::new(n, n, v)
    }

    /// The entry at row `r`, column `c`.
    pub fn get(&self, r: usize, c: usize) -> (q: Q)
        requires
            r * self.cols + c < self.data@.len(),
        ensures
            q == self.data@[r * self.cols + c],
    {
        let len = self.data.len();
        assert(r * self.cols + c < len);
        self.data[r * self.cols + c]
    }

    /// Replaces the entry at row `r`, column `c`.
    pub fn set(&mut self, r: usize, c: usize, v: Q)
        requires
            r * old(self).cols + c < old(self).data@.len(),
        ensures
            final(self).rows == old(self).rows,
            final(self).cols == old(self).cols,
            final(self).data@ == old(self).data@.update(r * old(self).cols + c, v),
    {
        let len = self.data.len();
        assert(r * self.cols + c < len);
        let i = r * self.cols + c;
        self.data.set(i, v);
    }

    /// A copy with the same entries.
    fn duplicate(&self) -> (m: Self)
        ensures
            m.rows == self.rows,
            m.cols == self.cols,
            m.data@ == self.data@,
    {
        let mut v: Vec<Q> = Vec::new();
        let mut i: usize = 0;
        while i < self.data.len()
            invariant
                i <= self.data@.len(),
                v@.len() == i,
                forall|j: int| 0 <= j < i ==> #[trigger] v@[j] == self.data@[j],
            decreases self.data@.len() - i,
        {
            v.push(self.data[i]);
            i = i + 1;
        }
        proof {
            assert(v@ =~= self.data@);
        }
        MatrixQ { rows: self.rows, cols: self.cols, data: v }
    }

    /// Element-wise sum; an error when the dimensions differ.
    pub fn add(&self, other: &MatrixQ) -> (r: Result<MatrixQ, &'static str>)
        requires
            self.rows == other.rows && self.cols == other.cols ==> {
                &&& self.wf()
                &&& other.wf()
                &&& forall|i: int| 0 <= i < self.data@.len() ==> #[trigger] arith::add_ok(
                    arith::qv(self.data@[i]),
                    arith::qv(other.data@[i]),
                )
            },
        ensures
            match r {
                Ok(m) => {
                    &&& self.rows == other.rows && self.cols == other.cols
                    &&& m.rows == self.rows && m.cols == self.cols && m.wf()
                    &&& forall|i: int| 0 <= i < m.data@.len() ==> #[trigger] arith::qv(m.data@[i])
                        == arith::add_spec(arith::qv(self.data@[i]), arith::qv(other.data@[i]))
                },
                Err(_) => self.rows != other.rows || self.cols != other.cols,
            },
    {
        if self.rows != other.rows || self.cols != other.cols {
            return Err("matrix dimensions must match for addition");
        }
        let mut v: Vec<Q> = Vec::new();
        let mut i: usize = 0;
        while i < self.data.len()
            invariant
                self.wf(),
                other.wf(),
                self.rows == other.rows && self.cols == other.cols,
                forall|k: int| 0 <= k < self.data@.len() ==> #[trigger] arith::add_ok(
                    arith::qv(self.data@[k]),
                    arith::qv(other.data@[k]),
                ),
                i <= self.data@.len(),
                v@.len() == i,
                forall|k: int| 0 <= k < i ==> #[trigger] arith::qv(v@[k])
                    == arith::add_spec(arith::qv(self.data@[k]), arith::qv(other.data@[k])),
            decreases self.data@.len() - i,
        {
            v.push(add_q(self.data[i], other.data[i]));
            i = i + 1;
        }
        Ok(MatrixQ::new(self.rows, self.cols, v))
    }

    /// Element-wise difference; an error when the dimensions differ.
    pub fn sub(&self, other: &MatrixQ) -> (r: Result<MatrixQ, &'static str>)
        requires
            self.rows == other.rows && self.cols == other.cols ==> {
                &&& self.wf()
                &&& other.wf()
                &&& forall|i: int| 0 <= i < self.data@.len() ==> #[trigger] arith::sub_ok(
                    arith::qv(self.data@[i]),
                    arith::qv(other.data@[i]),
                )
            },
        ensures
            match r {
                Ok(m) => {
                    &&& self.rows == other.rows && self.cols == other.cols
                    &&& m.rows == self.rows && m.cols == self.cols && m.wf()
                    &&& forall|i: int| 0 <= i < m.data@.len() ==> #[trigger] arith::qv(m.data@[i])
                        == arith::sub_spec(arith::qv(self.data@[i]), arith::qv(other.data@[i]))
                },
                Err(_) => self.rows != other.rows || self.cols != other.cols,
            },
    {
        if self.rows != other.rows || self.cols != other.cols {
            return Err("matrix dimensions must match for subtraction");
        }
        let mut v: Vec<Q> = Vec::new();
        let mut i: usize = 0;
        while i < self.data.len()
            invariant
                self.wf(),
                other.wf(),
                self.rows == other.rows && self.cols == other.cols,
                forall|k: int| 0 <= k < self.data@.len() ==> #[trigger] arith::sub_ok(
                    arith::qv(self.data@[k]),
                    arith::qv(other.data@[k]),
                ),
                i <= self.data@.len(),
                v@.len() == i,
                forall|k: int| 0 <= k < i ==> #[trigger] arith::qv(v@[k])
                    == arith::sub_spec(arith::qv(self.data@[k]), arith::qv(other.data@[k])),
            decreases self.data@.len() - i,
        {
            v.push(sub_q(self.data[i], other.data[i]));
            i = i + 1;
        }
        Ok(MatrixQ::new(self.rows, self.cols, v))
    }
}

/// The product entry `(i, j)` summed over the first `k` terms, left to right, as
/// `mul` computes it; `None` if a step overflows.
pub open spec fn dot_opt(
    a: Seq<(int, int)>,
    b: Seq<(int, int)>,
    acols: int,
    bcols: int,
    i: int,
    j: int,
    k: nat,
) -> Option<(int, int)>
    decreases k,
{
    if k == 0 {
        Some((0, 1))
    } else {
        match dot_opt(a, b, acols, bcols, i, j, (k - 1) as nat) {
            None => None,
            Some(s) => match mul_opt(a[i * acols + (k - 1)], b[(k - 1) * bcols + j]) {
                None => None,
                Some(p) => add_opt(s, p),
            },
        }
    }
}

/// A computation that succeeds over `k` terms succeeds over fewer.
pub proof fn lemma_dot_prefix(
    a: Seq<(int, int)>,
    b: Seq<(int, int)>,
    acols: int,
    bcols: int,
    i: int,
    j: int,
    k: nat,
    k2: nat,
)
    requires
        k2 <= k,
        dot_opt(a, b, acols, bcols, i, j, k) is Some,
    ensures
        dot_opt(a, b, acols, bcols, i, j, k2) is Some,
    decreases k,
{
    if k2 < k {
        lemma_dot_prefix(a, b, acols, bcols, i, j, (k - 1) as nat, k2);
    }
}

/// A `Vec` of `len` zeros.
fn zeros(len: usize) -> (v: Vec<Q>)
    ensures
        v@.len() == len,
        forall|j: int| 0 <= j < len ==> #[trigger] v@[j] == Q(0, 1),
{
    let mut v: Vec<Q> = Vec::new();
    let mut i: usize = 0;
    while i < len
        invariant
            i <= len,
            v@.len() == i,
            forall|j: int| 0 <= j < i ==> #[trigger] v@[j] == Q(0, 1),
        decreases len - i,
    {
        v.push(Q::zero());
        i = i + 1;
    }
    v
}

impl MatrixQ {
    /// The matrix product; an error when `self.cols != other.rows`.
    pub fn mul(&self, other: &MatrixQ) -> (r: Result<MatrixQ, &'static str>)
        requires
            self.cols == other.rows ==> {
                &&& self.wf()
                &&& other.wf()
                &&& self.rows * other.cols <= usize::MAX
                &&& forall|i: int, j: int|
                    0 <= i < self.rows && 0 <= j < other.cols ==> #[trigger] dot_opt(
                        self.entries(),
                        other.entries(),
                        self.cols as int,
                        other.cols as int,
                        i,
                        j,
                        self.cols as nat,
                    ) is Some
            },
        ensures
            match r {
                Ok(m) => {
                    &&& self.cols == other.rows
                    &&& m.rows == self.rows && m.cols == other.cols && m.wf()
                    &&& forall|i: int, j: int|
                        0 <= i < self.rows && 0 <= j < other.cols ==> Some(#[trigger] m.at(i, j)) == dot_opt(
                            self.entries(),
                            other.entries(),
                            self.cols as int,
                            other.cols as int,
                            i,
                            j,
                            self.cols as nat,
                        )
                },
                Err(_) => self.cols != other.rows,
            },
    {
        if self.cols != other.rows {
            return Err("incompatible dimensions for matrix multiplication");
        }
        let m = self.rows;
        let n = other.cols;
        let p = self.cols;
        let ghost ea = self.entries();
        let ghost eb = other.entries();
        let mut data = zeros(m * n);
        let mut i: usize = 0;
        while i < m
            invariant
                m == self.rows,
                n == other.cols,
                p == self.cols,
                p == other.rows,
                self.wf(),
                other.wf(),
                m * n <= usize::MAX,
                ea == self.entries(),
                eb == other.entries(),
                forall|i2: int, j2: int|
                    0 <= i2 < m && 0 <= j2 < n ==> #[trigger] dot_opt(ea, eb, p as int, n as int, i2, j2, p as nat) is Some,
                i <= m,
                data@.len() == m * n,
                forall|r: int, c: int|
                    0 <= r < i && 0 <= c < n ==> Some(arith::qv(#[trigger] data@[r * n + c])) == dot_opt(
                        ea,
                        eb,
                        p as int,
                        n as int,
                        r,
                        c,
                        p as nat,
                    ),
            decreases m - i,
        {
            let mut j: usize = 0;
            while j < n
                invariant
                    m == self.rows,
                    n == other.cols,
                    p == self.cols,
                    p == other.rows,
                    self.wf(),
                    other.wf(),
                    m * n <= usize::MAX,
                    ea == self.entries(),
                    eb == other.entries(),
                    forall|i2: int, j2: int|
                        0 <= i2 < m && 0 <= j2 < n ==> #[trigger] dot_opt(ea, eb, p as int, n as int, i2, j2, p as nat) is Some,
                    i < m,
                    j <= n,
                    data@.len() == m * n,
                    forall|r: int, c: int|
                        0 <= r < m && 0 <= c < n && (r < i || (r == i && c < j)) ==> Some(arith::qv(
                            #[trigger] data@[r * n + c],
                        )) == dot_opt(ea, eb, p as int, n as int, r, c, p as nat),
                decreases n - j,
            {
                let mut sum = Q::zero();
                let mut k: usize = 0;
                while k < p
                    invariant
                        m == self.rows,
                        n == other.cols,
                        p == self.cols,
                        p == other.rows,
                        self.wf(),
                        other.wf(),
                        ea == self.entries(),
                        eb == other.entries(),
                        i < m,
                        j < n,
                        k <= p,
                        dot_opt(ea, eb, p as int, n as int, i as int, j as int, p as nat) is Some,
                        Some(arith::qv(sum)) == dot_opt(ea, eb, p as int, n as int, i as int, j as int, k as nat),
                    decreases p - k,
                {
                    proof {
                        lemma_index_in_range(i as int, k as int, m as int, p as int);
                        lemma_index_in_range(k as int, j as int, p as int, n as int);
                        lemma_dot_prefix(ea, eb, p as int, n as int, i as int, j as int, p as nat, (k + 1) as nat);
                    }
                    let x = self.get(i, k);
                    let y = other.get(k, j);
                    let prod = mul_q(x, y);
                    sum = add_q(sum, prod);
                    k = k + 1;
                }
                proof {
                    lemma_index_in_range(i as int, j as int, m as int, n as int);
                }
                data.set(i * n + j, sum);
                proof {
                    assert forall|r: int, c: int|
                        0 <= r < m && 0 <= c < n && (r < i || (r == i && c < j + 1)) implies Some(arith::qv(
                            #[trigger] data@[r * n + c],
                        )) == dot_opt(ea, eb, p as int, n as int, r, c, p as nat) by {
                        lemma_index_in_range(r, c, m as int, n as int);
                        if r * n + c == i * n + j {
                            lemma_index_unique(r, c, i as int, j as int, n as int);
                        }
                    }
                }
                j = j + 1;
            }
            i = i + 1;
        }
        Ok(MatrixQ::new(m, n, data))
    }

    /// The transpose.
    pub fn transpose(&self) -> (t: MatrixQ)
        requires
            self.wf(),
        ensures
            is_transpose(*self, t),
    {
        let m = self.rows;
        let n = self.cols;
        let len = self.data.len();
        proof {
            vstd::arithmetic::mul::lemma_mul_is_commutative(n as int, m as int);
        }
        let mut data = zeros(len);
        let mut r: usize = 0;
        while r < n
            invariant
                m == self.rows,
                n == self.cols,
                self.wf(),
                n * m <= usize::MAX,
                data@.len() == n * m,
                r <= n,
                forall|r2: int, c2: int| 0 <= r2 < r && 0 <= c2 < m ==> #[trigger] data@[r2 * m + c2]
                    == self.data@[c2 * n + r2],
            decreases n - r,
        {
            let mut c: usize = 0;
            while c < m
                invariant
                    m == self.rows,
                    n == self.cols,
                    self.wf(),
                    n * m <= usize::MAX,
                    data@.len() == n * m,
                    r < n,
                    c <= m,
                    forall|r2: int, c2: int| 0 <= r2 < n && 0 <= c2 < m && (r2 < r || (r2 == r && c2 < c))
                        ==> #[trigger] data@[r2 * m + c2] == self.data@[c2 * n + r2],
                decreases m - c,
            {
                proof {
                    lemma_index_in_range(c as int, r as int, m as int, n as int);
                    lemma_index_in_range(r as int, c as int, n as int, m as int);
                    vstd::arithmetic::mul::lemma_mul_is_commutative(n as int, m as int);
                }
                let v = self.get(c, r);
                data.set(r * m + c, v);
                proof {
                    assert forall|r2: int, c2: int| 0 <= r2 < n && 0 <= c2 < m && (r2 < r || (r2 == r && c2 < c + 1))
                        implies #[trigger] data@[r2 * m + c2] == self.data@[c2 * n + r2] by {
                        lemma_index_in_range(r2, c2, n as int, m as int);
                        if r2 * m + c2 == r * m + c {
                            lemma_index_unique(r2, c2, r as int, c as int, m as int);
                        }
                    }
                }
                c = c + 1;
            }
            r = r + 1;
        }
        proof {
            vstd::arithmetic::mul::lemma_mul_is_commutative(n as int, m as int);
        }
        MatrixQ::new(n, m, data)
    }

    /// Every entry multiplied by `s`.
    pub fn scalar_mul(&self, s: Q) -> (t: MatrixQ)
        requires
            self.wf(),
            forall|i: int| 0 <= i < self.data@.len() ==> #[trigger] arith::mul_ok(arith::qv(self.data@[i]), arith::qv(s)),
        ensures
            t.rows == self.rows,
            t.cols == self.cols,
            t.wf(),
            forall|i: int| 0 <= i < self.data@.len() ==> #[trigger] arith::qv(t.data@[i])
                == arith::mul_spec(arith::qv(self.data@[i]), arith::qv(s)),
    {
        let mut v: Vec<Q> = Vec::new();
        let mut i: usize = 0;
        while i < self.data.len()
            invariant
                self.wf(),
                forall|k: int| 0 <= k < self.data@.len() ==> #[trigger] arith::mul_ok(arith::qv(self.data@[k]), arith::qv(s)),
                i <= self.data@.len(),
                v@.len() == i,
                forall|k: int| 0 <= k < i ==> #[trigger] arith::qv(v@[k])
                    == arith::mul_spec(arith::qv(self.data@[k]), arith::qv(s)),
            decreases self.data@.len() - i,
        {
            v.push(mul_q(self.data[i], s));
            i = i + 1;
        }
        MatrixQ::new(self.rows, self.cols, v)
    }

    /// The sum of the diagonal entries; an error for a matrix that is not square.
    pub fn trace(&self) -> (r: Result<Q, &'static str>)
        requires
            self.rows == self.cols ==> self.wf() && diag_sum_opt(self.entries(), self.cols as int, self.rows as nat) is Some,
        ensures
            match r {
                Ok(t) => self.rows == self.cols && Some(arith::qv(t)) == diag_sum_opt(
                    self.entries(),
                    self.cols as int,
                    self.rows as nat,
                ),
                Err(_) => self.rows != self.cols,
            },
    {
        if self.rows != self.cols {
            return Err("trace requires square matrix");
        }
        let n = self.rows;
        let ghost e = self.entries();
        let mut sum = Q::zero();
        let mut i: usize = 0;
        while i < n
            invariant
                n == self.rows,
                n == self.cols,
                self.wf(),
                e == self.entries(),
                i <= n,
                diag_sum_opt(e, n as int, n as nat) is Some,
                Some(arith::qv(sum)) == diag_sum_opt(e, n as int, i as nat),
            decreases n - i,
        {
            proof {
                lemma_index_in_range(i as int, i as int, n as int, n as int);
                lemma_diag_prefix(e, n as int, n as nat, (i + 1) as nat);
            }
            sum = add_q(sum, self.get(i, i));
            i = i + 1;
        }
        Ok(sum)
    }
}

/// The sum of the first `k` diagonal entries, left to right; `None` on overflow.
pub open spec fn diag_sum_opt(a: Seq<(int, int)>, n: int, k: nat) -> Option<(int, int)>
    decreases k,
{
    if k == 0 {
        Some((0, 1))
    } else {
        match diag_sum_opt(a, n, (k - 1) as nat) {
            None => None,
            Some(s) => add_opt(s, a[(k - 1) * n + (k - 1)]),
        }
    }
}

proof fn lemma_diag_prefix(a: Seq<(int, int)>, n: int, k: nat, k2: nat)
    requires
        k2 <= k,
        diag_sum_opt(a, n, k) is Some,
    ensures
        diag_sum_opt(a, n, k2) is Some,
    decreases k,
{
    if k2 < k {
        lemma_diag_prefix(a, n, (k - 1) as nat, k2);
    }
}

/// The first row at or after `r` whose entry in column `k` is nonzero (`n` if none).
pub open spec fn pivot_row(a: Seq<(int, int)>, w: int, n: int, k: int, r: int) -> int
    decreases n - r,
{
    if r >= n {
        n
    } else if a[r * w + k].0 != 0 {
        r
    } else {
        pivot_row(a, w, n, k, r + 1)
    }
}

/// Rows `k` and `pr` (of width `w`) exchanged entry by entry from column `c` on.
pub open spec fn swap_cols(a: Seq<(int, int)>, w: int, k: int, pr: int, c: int) -> Seq<(int, int)>
    decreases w - c,
{
    if c >= w {
        a
    } else {
        swap_cols(a.update(k * w + c, a[pr * w + c]).update(pr * w + c, a[k * w + c]), w, k, pr, c + 1)
    }
}

/// Row `i` minus `f` times row `k` (rows of width `w`), columns `j..jend` in order;
/// `None` on overflow.
pub open spec fn row_update(
    a: Seq<(int, int)>,
    w: int,
    k: int,
    i: int,
    f: (int, int),
    j: int,
    jend: int,
) -> Option<Seq<(int, int)>>
    decreases jend - j,
{
    if j >= jend {
        Some(a)
    } else {
        match mul_opt(f, a[k * w + j]) {
            None => None,
            Some(p) => match sub_opt(a[i * w + j], p) {
                None => None,
                Some(v) => row_update(a.update(i * w + j, v), w, k, i, f, j + 1, jend),
            },
        }
    }
}

/// Elimination below the pivot `akk` in column `k`, rows `i..n`; `None` on overflow.
pub open spec fn elim_below(a: Seq<(int, int)>, n: int, k: int, akk: (int, int), i: int) -> Option<
    Seq<(int, int)>,
>
    decreases n - i,
{
    if i >= n {
        Some(a)
    } else if a[i * n + k].0 == 0 {
        elim_below(a, n, k, akk, i + 1)
    } else {
        match div_opt(a[i * n + k], akk) {
            None => None,
            Some(f) => match row_update(a, n, k, i, f, k, n) {
                None => None,
                Some(a2) => elim_below(a2.update(i * n + k, (0, 1)), n, k, akk, i + 1),
            },
        }
    }
}

/// `acc` times the diagonal entries `i..n`, left to right; `None` on overflow.
pub open spec fn diag_prod(a: Seq<(int, int)>, n: int, i: int, acc: (int, int)) -> Option<(int, int)>
    decreases n - i,
{
    if i >= n {
        Some(acc)
    } else {
        match mul_opt(acc, a[i * n + i]) {
            None => None,
            Some(x) => diag_prod(a, n, i + 1, x),
        }
    }
}

/// Gaussian elimination with row pivoting from column `k` on, the sign of the row
/// exchanges so far being `sign`: the determinant as `det_bareiss` computes it, or
/// `None` where a step would overflow.
pub open spec fn det_from(a: Seq<(int, int)>, n: int, k: int, sign: (int, int)) -> Option<(int, int)>
    decreases n - k,
{
    if k >= n {
        diag_prod(a, n, 0, sign)
    } else {
        let pr = pivot_row(a, n, n, k, k);
        if pr >= n {
            Some((0, 1))
        } else {
            let a1 = if pr != k { swap_cols(a, n, k, pr, 0) } else { a };
            let s1 = if pr != k { mul_opt(sign, (-1, 1)) } else { Some(sign) };
            match s1 {
                None => None,
                Some(sg) => match elim_below(a1, n, k, a1[k * n + k], k + 1) {
                    None => None,
                    Some(a2) => det_from(a2, n, k + 1, sg),
                },
            }
        }
    }
}

/// The determinant of a square matrix as `det_bareiss` computes it.
pub open spec fn det_spec(m: MatrixQ) -> Option<(int, int)> {
    if m.rows == 0 {
        Some((1, 1))
    } else {
        det_from(m.entries(), m.rows as int, 0, (1, 1))
    }
}

proof fn lemma_qvs_update(s: Seq<Q>, i: int, v: Q)
    requires
        0 <= i < s.len(),
    ensures
        qvs(s.update(i, v)) == qvs(s).update(i, arith::qv(v)),
{
    assert(qvs(s.update(i, v)) =~= qvs(s).update(i, arith::qv(v)));
}

impl MatrixQ {
    /// Whether the entry at row `r`, column `c` is zero.
    fn entry_is_zero(&self, r: usize, c: usize) -> (z: bool)
        requires
            self.wf(),
            r < self.rows,
            c < self.cols,
        ensures
            z == (self.entries()[r * self.cols + c].0 == 0),
    {
        proof {
            lemma_index_in_range(r as int, c as int, self.rows as int, self.cols as int);
        }
        self.get(r, c).is_zero()
    }

    /// Exchanges rows `k` and `pr` of a square matrix of size `n`.
    fn swap_rows(&mut self, n: usize, k: usize, pr: usize)
        requires
            old(self).wf(),
            old(self).rows == n,
            old(self).cols == n,
            k < n,
            pr < n,
        ensures
            final(self).wf(),
            final(self).rows == n,
            final(self).cols == n,
            final(self).entries() == swap_cols(old(self).entries(), n as int, k as int, pr as int, 0),
    {
        let ghost target = swap_cols(self.entries(), n as int, k as int, pr as int, 0);
        let mut c: usize = 0;
        while c < n
            invariant
                self.wf(),
                self.rows == n,
                self.cols == n,
                k < n,
                pr < n,
                c <= n,
                swap_cols(self.entries(), n as int, k as int, pr as int, c as int) == target,
            decreases n - c,
        {
            proof {
                lemma_index_in_range(k as int, c as int, n as int, n as int);
                lemma_index_in_range(pr as int, c as int, n as int, n as int);
            }
            let t = self.get(k, c);
            let u = self.get(pr, c);
            let ghost d0 = self.data@;
            let ghost e0 = self.entries();
            self.set(k, c, u);
            let ghost d1 = self.data@;
            self.set(pr, c, t);
            proof {
                lemma_qvs_update(d0, (k * n + c) as int, u);
                lemma_qvs_update(d1, (pr * n + c) as int, t);
                assert(self.entries() == e0.update(k * n + c, e0[pr * n + c]).update(pr * n + c, e0[k * n + c]));
            }
            c = c + 1;
        }
    }

    /// Subtracts `f` times row `k` from row `i` over columns `j0..n`.
    fn subtract_row(&mut self, n: usize, k: usize, i: usize, f: Q, j0: usize)
        requires
            old(self).wf(),
            old(self).rows == n,
            old(self).cols == n,
            k < n,
            i < n,
            i != k,
            j0 <= n,
            row_update(old(self).entries(), n as int, k as int, i as int, arith::qv(f), j0 as int, n as int) is Some,
        ensures
            final(self).wf(),
            final(self).rows == n,
            final(self).cols == n,
            Some(final(self).entries()) == row_update(
                old(self).entries(),
                n as int,
                k as int,
                i as int,
                arith::qv(f),
                j0 as int,
                n as int,
            ),
    {
        let ghost target = row_update(self.entries(), n as int, k as int, i as int, arith::qv(f), j0 as int, n as int);
        let mut j: usize = j0;
        while j < n
            invariant
                self.wf(),
                self.rows == n,
                self.cols == n,
                k < n,
                i < n,
                j0 <= j <= n,
                target is Some,
                row_update(self.entries(), n as int, k as int, i as int, arith::qv(f), j as int, n as int) == target,
            decreases n - j,
        {
            proof {
                lemma_index_in_range(k as int, j as int, n as int, n as int);
                lemma_index_in_range(i as int, j as int, n as int, n as int);
            }
            let x = self.get(i, j);
            let y = self.get(k, j);
            let p = mul_q(f, y);
            let v = sub_q(x, p);
            let ghost d0 = self.data@;
            self.set(i, j, v);
            proof {
                lemma_qvs_update(d0, (i * n + j) as int, v);
            }
            j = j + 1;
        }
    }

    /// Determinant by Gaussian elimination with row pivoting; 1 for the empty matrix, an
    /// error for a matrix that is not square.
    pub fn det_bareiss(&self) -> (r: Result<Q, &'static str>)
        requires
            self.rows == self.cols ==> self.wf() && det_spec(*self) is Some,
        ensures
            match r {
                Ok(d) => self.rows == self.cols && Some(arith::qv(d)) == det_spec(*self),
                Err(_) => self.rows != self.cols,
            },
    {
        if self.rows != self.cols {
            return Err("determinant requires square matrix");
        }
        let n = self.rows;
        if n == 0 {
            assert(det_spec(*self) == Some((1int, 1int)));
            return Ok(Q::one());
        }
        let ghost target = det_spec(*self);
        let mut a = self.duplicate();
        let mut sign = Q::one();
        let mut k: usize = 0;
        while k < n
            invariant
                a.wf(),
                a.rows == n,
                a.cols == n,
                n > 0,
                k <= n,
                self.rows == n,
                self.cols == n,
                target == det_spec(*self),
                target is Some,
                det_from(a.entries(), n as int, k as int, arith::qv(sign)) == target,
            decreases n - k,
        {
            let ghost ek = a.entries();
            let mut pr = k;
            while pr < n && a.entry_is_zero(pr, k)
                invariant
                    a.wf(),
                    a.rows == n,
                    a.cols == n,
                    a.entries() == ek,
                    k < n,
                    k <= pr <= n,
                    pivot_row(ek, n as int, n as int, k as int, pr as int) == pivot_row(ek, n as int, n as int, k as int, k as int),
                decreases n - pr,
            {
                proof {
                    lemma_index_in_range(pr as int, k as int, n as int, n as int);
                }
                pr = pr + 1;
            }
            proof {
                if pr < n {
                    lemma_index_in_range(pr as int, k as int, n as int, n as int);
                }
            }
            if pr == n {
                assert(pivot_row(ek, n as int, n as int, k as int, n as int) == n);
                assert(pivot_row(ek, n as int, n as int, k as int, k as int) == n);
                assert(det_from(ek, n as int, k as int, arith::qv(sign)) == Some((0int, 1int)));
                return Ok(Q::zero());
            }
            if pr != k {
                a.swap_rows(n, k, pr);
                sign = mul_q(sign, Q(-1, 1));
            }
            let ghost a1 = a.entries();
            proof {
                lemma_index_in_range(k as int, k as int, n as int, n as int);
            }
            let akk = a.get(k, k);
            let ghost target_k = elim_below(a1, n as int, k as int, arith::qv(akk), k as int + 1);
            let mut i: usize = k + 1;
            while i < n
                invariant
                    a.wf(),
                    a.rows == n,
                    a.cols == n,
                    k < n,
                    k + 1 <= i <= n,
                    target_k is Some,
                    elim_below(a.entries(), n as int, k as int, arith::qv(akk), i as int) == target_k,
                decreases n - i,
            {
                proof {
                    lemma_index_in_range(i as int, k as int, n as int, n as int);
                }
                let aik = a.get(i, k);
                if aik.is_zero() {
                    i = i + 1;
                    continue;
                }
                let factor = div_q(aik, akk);
                a.subtract_row(n, k, i, factor, k);
                let ghost d2 = a.data@;
                proof {
                    lemma_index_in_range(i as int, k as int, n as int, n as int);
                }
                a.set(i, k, Q::zero());
                proof {
                    lemma_qvs_update(d2, (i * n + k) as int, Q(0, 1));
                }
                i = i + 1;
            }
            k = k + 1;
        }
        let mut det = sign;
        let mut i: usize = 0;
        while i < n
            invariant
                a.wf(),
                a.rows == n,
                a.cols == n,
                i <= n,
                self.rows == n,
                self.cols == n,
                target == det_spec(*self),
                target is Some,
                diag_prod(a.entries(), n as int, i as int, arith::qv(det)) == target,
            decreases n - i,
        {
            proof {
                lemma_index_in_range(i as int, i as int, n as int, n as int);
            }
            det = mul_q(det, a.get(i, i));
            i = i + 1;
        }
        Ok(det)
    }
}

/// The computed determinant is zero.
pub open spec fn det_is_zero(m: MatrixQ) -> bool {
    match det_spec(m) {
        Some(d) => d.0 == 0,
        None => false,
    }
}

/// Column `col` of an `n × n` matrix replaced by `b`, rows `r..n` in order.
pub open spec fn replace_col(a: Seq<(int, int)>, n: int, b: Seq<(int, int)>, col: int, r: int) -> Seq<(int, int)>
    decreases n - r,
{
    if r >= n {
        a
    } else {
        replace_col(a.update(r * n + col, b[r]), n, b, col, r + 1)
    }
}

/// The solution of `A x = b` by Cramer's rule, as `solve_bareiss` computes it: the
/// determinant with column `col` replaced by `b`, divided by the determinant of `A`.
pub open spec fn cramer_entry(a: Seq<(int, int)>, n: int, b: Seq<(int, int)>, col: int) -> Option<(int, int)> {
    match det_from(a, n, 0, (1, 1)) {
        None => None,
        Some(d) => match det_from(replace_col(a, n, b, col, 0), n, 0, (1, 1)) {
            None => None,
            Some(di) => div_opt(di, d),
        },
    }
}

impl MatrixQ {
    /// Solves `A x = b` by Cramer's rule: `Some(x)` when the determinant is nonzero,
    /// `None` when it is zero; an error for a matrix that is not square or a right-hand
    /// side of the wrong length.
    pub fn solve_bareiss(&self, b: &[Q]) -> (r: Result<Option<Vec<Q>>, &'static str>)
        requires
            self.rows == self.cols && b@.len() == self.rows && self.rows > 0 ==> {
                &&& self.wf()
                &&& det_spec(*self) is Some
                &&& !det_is_zero(*self) ==> forall|col: int|
                    0 <= col < self.rows ==> #[trigger] cramer_entry(self.entries(), self.rows as int, qvs(b@), col)
                        is Some
            },
        ensures
            match r {
                Err(_) => self.rows != self.cols || b@.len() != self.rows,
                Ok(None) => self.rows == self.cols && b@.len() == self.rows && self.rows > 0
                    && det_is_zero(*self),
                Ok(Some(x)) => {
                    &&& self.rows == self.cols && b@.len() == self.rows
                    &&& x@.len() == self.rows
                    &&& self.rows > 0 ==> !det_is_zero(*self)
                    &&& forall|col: int| 0 <= col < self.rows ==> Some(arith::qv(#[trigger] x@[col]))
                        == cramer_entry(self.entries(), self.rows as int, qvs(b@), col)
                },
            },
    {
        if self.rows != self.cols {
            return Err("solve requires square matrix");
        }
        let n = self.rows;
        if b.len() != n {
            return Err("rhs length must equal number of rows");
        }
        if n == 0 {
            return Ok(Some(Vec::new()));
        }
        let det_a = match self.det_bareiss() {
            Ok(d) => d,
            Err(e) => {
                return Err(e);
            },
        };
        if det_a.is_zero() {
            return Ok(None);
        }
        let mut x = zeros(n);
        let mut col: usize = 0;
        while col < n
            invariant
                self.rows == n,
                self.cols == n,
                n > 0,
                self.wf(),
                b@.len() == n,
                det_spec(*self) == Some(arith::qv(det_a)),
                det_a.0 != 0,
                forall|c: int| 0 <= c < n ==> #[trigger] cramer_entry(self.entries(), n as int, qvs(b@), c) is Some,
                col <= n,
                x@.len() == n,
                forall|c: int| 0 <= c < col ==> Some(arith::qv(#[trigger] x@[c])) == cramer_entry(
                    self.entries(),
                    n as int,
                    qvs(b@),
                    c,
                ),
            decreases n - col,
        {
            let mut a_col = self.duplicate();
            let ghost start = a_col.entries();
            let mut r: usize = 0;
            while r < n
                invariant
                    a_col.rows == n,
                    a_col.cols == n,
                    a_col.wf(),
                    b@.len() == n,
                    col < n,
                    r <= n,
                    start == self.entries(),
                    replace_col(a_col.entries(), n as int, qvs(b@), col as int, r as int)
                        == replace_col(start, n as int, qvs(b@), col as int, 0),
                decreases n - r,
            {
                proof {
                    lemma_index_in_range(r as int, col as int, n as int, n as int);
                }
                let ghost d0 = a_col.data@;
                a_col.set(r, col, b[r]);
                proof {
                    lemma_qvs_update(d0, (r * n + col) as int, b@[r as int]);
                }
                r = r + 1;
            }
            proof {
                assert(a_col.entries() == replace_col(self.entries(), n as int, qvs(b@), col as int, 0));
                assert(cramer_entry(self.entries(), n as int, qvs(b@), col as int) is Some);
                assert(det_spec(a_col) == det_from(a_col.entries(), n as int, 0, (1, 1)));
            }
            let det_i = match a_col.det_bareiss() {
                Ok(d) => d,
                Err(e) => {
                    return Err(e);
                },
            };
            x.set(col, div_q(det_i, det_a));
            col = col + 1;
        }
        Ok(Some(x))
    }
}

/// Row `r` (of width `w`) divided by `piv`, columns `j..w` in order; `None` on overflow.
pub open spec fn scale_row(a: Seq<(int, int)>, w: int, r: int, piv: (int, int), j: int) -> Option<Seq<(int, int)>>
    decreases w - j,
{
    if j >= w {
        Some(a)
    } else {
        match div_opt(a[r * w + j], piv) {
            None => None,
            Some(v) => scale_row(a.update(r * w + j, v), w, r, piv, j + 1),
        }
    }
}

/// Elimination of column `col` from every row `i..n` other than `col` (rows of width `w`).
pub open spec fn elim_others(a: Seq<(int, int)>, n: int, w: int, col: int, i: int) -> Option<Seq<(int, int)>>
    decreases n - i,
{
    if i >= n {
        Some(a)
    } else if i == col || a[i * w + col].0 == 0 {
        elim_others(a, n, w, col, i + 1)
    } else {
        match row_update(a, w, col, i, a[i * w + col], 0, w) {
            None => None,
            Some(a2) => elim_others(a2, n, w, col, i + 1),
        }
    }
}

/// Gauss–Jordan elimination of the `n × 2n` matrix from column `col` on: `Some(None)`
/// when a column has no pivot, `None` on overflow.
pub open spec fn gj_from(a: Seq<(int, int)>, n: int, col: int) -> Option<Option<Seq<(int, int)>>>
    decreases n - col,
{
    if col >= n {
        Some(Some(a))
    } else {
        let w = 2 * n;
        let pr = pivot_row(a, w, n, col, col);
        if pr >= n {
            Some(None)
        } else {
            let a1 = if pr != col { swap_cols(a, w, col, pr, 0) } else { a };
            match scale_row(a1, w, col, a1[col * w + col], 0) {
                None => None,
                Some(a2) => match elim_others(a2, n, w, col, 0) {
                    None => None,
                    Some(a3) => gj_from(a3, n, col + 1),
                },
            }
        }
    }
}

/// The matrix `[A | I]` for an `n × n` matrix `A`.
pub open spec fn augmented(a: Seq<(int, int)>, n: int) -> Seq<(int, int)> {
    Seq::new(
        (n * (2 * n)) as nat,
        |idx: int|
            if idx % (2 * n) < n {
                a[(idx / (2 * n)) * n + idx % (2 * n)]
            } else if idx % (2 * n) - n == idx / (2 * n) {
                (1, 1)
            } else {
                (0, 1)
            },
    )
}

/// The right half of an `n × 2n` matrix.
pub open spec fn right_half(a: Seq<(int, int)>, n: int) -> Seq<(int, int)> {
    Seq::new((n * n) as nat, |idx: int| a[(idx / n) * (2 * n) + idx % n + n])
}

/// The inverse as `inverse` computes it: `Some(None)` when the determinant is zero or a
/// pivot is missing, `None` on overflow.
pub open spec fn inverse_spec(m: MatrixQ) -> Option<Option<Seq<(int, int)>>> {
    let n = m.rows as int;
    if n == 0 {
        Some(Some(Seq::empty()))
    } else {
        match det_spec(m) {
            None => None,
            Some(d) => {
                if d.0 == 0 {
                    Some(None)
                } else {
                    match gj_from(augmented(m.entries(), n), n, 0) {
                        None => None,
                        Some(None) => Some(None),
                        Some(Some(a)) => Some(Some(right_half(a, n))),
                    }
                }
            },
        }
    }
}

/// Row `r`, column `c` of a grid of width `w` sits at `r·w + c`.
proof fn lemma_grid_div_mod(r: int, c: int, w: int)
    requires
        0 <= c < w,
        0 <= r,
    ensures
        (r * w + c) / w == r,
        (r * w + c) % w == c,
{
    vstd::arithmetic::div_mod::lemma_fundamental_div_mod_converse(r * w + c, w, r, c);
}

impl MatrixQ {
    /// Divides row `r` of an `n × w` matrix by `piv`.
    fn scale_row_by(&mut self, w: usize, r: usize, piv: Q)
        requires
            old(self).wf(),
            old(self).cols == w,
            r < old(self).rows,
            scale_row(old(self).entries(), w as int, r as int, arith::qv(piv), 0) is Some,
        ensures
            final(self).wf(),
            final(self).rows == old(self).rows,
            final(self).cols == w,
            Some(final(self).entries()) == scale_row(old(self).entries(), w as int, r as int, arith::qv(piv), 0),
    {
        let ghost target = scale_row(self.entries(), w as int, r as int, arith::qv(piv), 0);
        let mut j: usize = 0;
        while j < w
            invariant
                self.wf(),
                self.cols == w,
                self.rows == old(self).rows,
                r < self.rows,
                j <= w,
                target is Some,
                scale_row(self.entries(), w as int, r as int, arith::qv(piv), j as int) == target,
            decreases w - j,
        {
            proof {
                lemma_index_in_range(r as int, j as int, self.rows as int, w as int);
            }
            let v = div_q(self.get(r, j), piv);
            let ghost d0 = self.data@;
            self.set(r, j, v);
            proof {
                lemma_qvs_update(d0, (r * w + j) as int, v);
            }
            j = j + 1;
        }
    }

    /// Subtracts `f` times row `k` from row `i` over all columns of an `n × w` matrix.
    fn subtract_row_wide(&mut self, w: usize, k: usize, i: usize, f: Q)
        requires
            old(self).wf(),
            old(self).cols == w,
            k < old(self).rows,
            i < old(self).rows,
            row_update(old(self).entries(), w as int, k as int, i as int, arith::qv(f), 0, w as int) is Some,
        ensures
            final(self).wf(),
            final(self).rows == old(self).rows,
            final(self).cols == w,
            Some(final(self).entries()) == row_update(old(self).entries(), w as int, k as int, i as int, arith::qv(f), 0, w as int),
    {
        let ghost target = row_update(self.entries(), w as int, k as int, i as int, arith::qv(f), 0, w as int);
        let mut j: usize = 0;
        while j < w
            invariant
                self.wf(),
                self.cols == w,
                self.rows == old(self).rows,
                k < self.rows,
                i < self.rows,
                j <= w,
                target is Some,
                row_update(self.entries(), w as int, k as int, i as int, arith::qv(f), j as int, w as int) == target,
            decreases w - j,
        {
            proof {
                lemma_index_in_range(k as int, j as int, self.rows as int, w as int);
                lemma_index_in_range(i as int, j as int, self.rows as int, w as int);
            }
            let x = self.get(i, j);
            let y = self.get(k, j);
            let v = sub_q(x, mul_q(f, y));
            let ghost d0 = self.data@;
            self.set(i, j, v);
            proof {
                lemma_qvs_update(d0, (i * w + j) as int, v);
            }
            j = j + 1;
        }
    }

    /// Exchanges rows `k` and `pr` of an `n × w` matrix.
    fn swap_rows_wide(&mut self, w: usize, k: usize, pr: usize)
        requires
            old(self).wf(),
            old(self).cols == w,
            k < old(self).rows,
            pr < old(self).rows,
        ensures
            final(self).wf(),
            final(self).rows == old(self).rows,
            final(self).cols == w,
            final(self).entries() == swap_cols(old(self).entries(), w as int, k as int, pr as int, 0),
    {
        let ghost target = swap_cols(self.entries(), w as int, k as int, pr as int, 0);
        let mut c: usize = 0;
        while c < w
            invariant
                self.wf(),
                self.rows == old(self).rows,
                self.cols == w,
                k < self.rows,
                pr < self.rows,
                c <= w,
                swap_cols(self.entries(), w as int, k as int, pr as int, c as int) == target,
            decreases w - c,
        {
            proof {
                lemma_index_in_range(k as int, c as int, self.rows as int, w as int);
                lemma_index_in_range(pr as int, c as int, self.rows as int, w as int);
            }
            let t = self.get(k, c);
            let u = self.get(pr, c);
            let ghost d0 = self.data@;
            let ghost e0 = self.entries();
            self.set(k, c, u);
            let ghost d1 = self.data@;
            self.set(pr, c, t);
            proof {
                lemma_qvs_update(d0, (k * w + c) as int, u);
                lemma_qvs_update(d1, (pr * w + c) as int, t);
                assert(self.entries() == e0.update(k * w + c, e0[pr * w + c]).update(pr * w + c, e0[k * w + c]));
            }
            c = c + 1;
        }
    }

    /// The inverse by Gauss–Jordan elimination on `[A | I]`: `None` for a singular
    /// matrix, an error for a matrix that is not square.
    pub fn inverse(&self) -> (r: Result<Option<MatrixQ>, &'static str>)
        requires
            self.rows == self.cols ==> self.wf() && 2 * self.rows * self.rows <= usize::MAX && inverse_spec(*self)
                is Some,
        ensures
            match r {
                Err(_) => self.rows != self.cols,
                Ok(None) => self.rows == self.cols && inverse_spec(*self) == Some(None::<Seq<(int, int)>>),
                Ok(Some(m)) => {
                    &&& self.rows == self.cols
                    &&& m.rows == self.rows && m.cols == self.rows && m.wf()
                    &&& inverse_spec(*self) == Some(Some(m.entries()))
                },
            },
    {
        if self.rows != self.cols {
            return Err("inverse requires square matrix");
        }
        let n = self.rows;
        if n == 0 {
            let m = MatrixQ::new(0, 0, Vec::new());
            proof {
                assert(m.entries() =~= Seq::<(int, int)>::empty());
            }
            return Ok(Some(m));
        }
        let det = match self.det_bareiss() {
            Ok(d) => d,
            Err(e) => {
                return Err(e);
            },
        };
        if det.is_zero() {
            return Ok(None);
        }
        assert(2 * n <= 2 * n * n) by (nonlinear_arith)
            requires
                n >= 1,
        ;
        let w = 2 * n;
        proof {
            vstd::arithmetic::mul::lemma_mul_is_associative(2, n as int, n as int);
            vstd::arithmetic::mul::lemma_mul_is_commutative(n as int, 2 * n as int);
        }
        let mut aug = MatrixQ::new(n, w, zeros(n * w));
        let ghost e = self.entries();
        proof {
            assert forall|r: int, c: int| 0 <= r < n && 0 <= c < w implies #[trigger] aug.entries()[r * w + c]
                == (0int, 1int) by {
                lemma_index_in_range(r, c, n as int, w as int);
            }
        }
        let mut i: usize = 0;
        while i < n
            invariant
                self.rows == n,
                self.cols == n,
                self.wf(),
                e == self.entries(),
                w == 2 * n,
                n * w <= usize::MAX,
                aug.wf(),
                aug.rows == n,
                aug.cols == w,
                i <= n,
                forall|r: int, c: int| 0 <= r < n && 0 <= c < w ==> #[trigger] aug.entries()[r * w + c] == (if r < i {
                    if c < n {
                        e[r * n + c]
                    } else if c - n == r {
                        (1int, 1int)
                    } else {
                        (0, 1)
                    }
                } else {
                    (0int, 1int)
                }),
            decreases n - i,
        {
            let mut j: usize = 0;
            while j < n
                invariant
                    self.rows == n,
                    self.cols == n,
                    self.wf(),
                    e == self.entries(),
                    w == 2 * n,
                    n * w <= usize::MAX,
                    aug.wf(),
                    aug.rows == n,
                    aug.cols == w,
                    i < n,
                    j <= n,
                    forall|r: int, c: int| 0 <= r < n && 0 <= c < w ==> #[trigger] aug.entries()[r * w + c] == (if r < i
                        || (r == i && (c < j || (n <= c < n + j))) {
                        if c < n {
                            e[r * n + c]
                        } else if c - n == r {
                            (1int, 1int)
                        } else {
                            (0, 1)
                        }
                    } else {
                        (0int, 1int)
                    }),
                decreases n - j,
            {
                proof {
                    lemma_index_in_range(i as int, j as int, n as int, n as int);
                    lemma_index_in_range(i as int, j as int, n as int, w as int);
                    lemma_index_in_range(i as int, (j + n) as int, n as int, w as int);
                }
                let v = self.get(i, j);
                let ghost d0 = aug.data@;
                let ghost ea0 = aug.entries();
                aug.set(i, j, v);
                let ghost d1 = aug.data@;
                let one_or_zero = if i == j { Q::one() } else { Q::zero() };
                aug.set(i, j + n, one_or_zero);
                proof {
                    lemma_qvs_update(d0, (i * w + j) as int, v);
                    lemma_qvs_update(d1, (i * w + j + n) as int, one_or_zero);
                    let ea = qvs(d0);
                    assert forall|r: int, c: int| 0 <= r < n && 0 <= c < w implies #[trigger] aug.entries()[r * w + c]
                        == (if r < i || (r == i && (c < j + 1 || (n <= c < n + j + 1))) {
                        if c < n {
                            e[r * n + c]
                        } else if c - n == r {
                            (1int, 1int)
                        } else {
                            (0, 1)
                        }
                    } else {
                        (0int, 1int)
                    }) by {
                        lemma_index_in_range(r, c, n as int, w as int);
                        if r == i && c == j {
                            assert(aug.entries()[r * w + c] == arith::qv(v));
                        } else if r == i && c == j + n {
                            assert(aug.entries()[r * w + c] == arith::qv(one_or_zero));
                        } else {
                            if r * w + c == i * w + j {
                                lemma_index_unique(r, c, i as int, j as int, w as int);
                            }
                            if r * w + c == i * w + (j + n) {
                                lemma_index_unique(r, c, i as int, (j + n) as int, w as int);
                            }
                            assert(aug.entries()[r * w + c] == ea[r * w + c]);
                            assert(ea == ea0);
                            assert(ea0[r * w + c] == (if r < i || (r == i && (c < j || (n <= c < n + j))) {
                                if c < n {
                                    e[r * n + c]
                                } else if c - n == r {
                                    (1int, 1int)
                                } else {
                                    (0, 1)
                                }
                            } else {
                                (0int, 1int)
                            }));
                        }
                    }
                }
                j = j + 1;
            }
            i = i + 1;
        }
        proof {
            assert forall|idx: int| 0 <= idx < n * w implies #[trigger] aug.entries()[idx]
                == augmented(e, n as int)[idx] by {
                let r = idx / (w as int);
                let c = idx % (w as int);
                vstd::arithmetic::div_mod::lemma_fundamental_div_mod(idx, w as int);
                vstd::arithmetic::div_mod::lemma_mod_bound(idx, w as int);
                vstd::arithmetic::div_mod::lemma_div_pos_is_pos(idx, w as int);
                if r >= n {
                    assert(r * w >= n * w) by (nonlinear_arith)
                        requires
                            r >= n,
                            w >= 0,
                    ;
                }
                vstd::arithmetic::mul::lemma_mul_is_commutative(w as int, r);
                assert(idx == r * w + c);
                lemma_index_in_range(r, c, n as int, w as int);
            }
            assert(aug.entries() =~= augmented(e, n as int));
        }
        let ghost gj_target = gj_from(augmented(e, n as int), n as int, 0);
        let mut col: usize = 0;
        while col < n
            invariant
                self.rows == n,
                self.cols == n,
                w == 2 * n,
                n * w <= usize::MAX,
                aug.wf(),
                aug.rows == n,
                aug.cols == w,
                col <= n,
                gj_target == gj_from(augmented(e, n as int), n as int, 0),
                gj_target is Some,
                gj_from(aug.entries(), n as int, col as int) == gj_target,
                e == self.entries(),
                inverse_spec(*self) is Some,
                det_spec(*self) == Some(arith::qv(det)),
                det.0 != 0,
            decreases n - col,
        {
            let ghost ec = aug.entries();
            let mut pivot_row_idx = col;
            while pivot_row_idx < n && aug.entry_is_zero(pivot_row_idx, col)
                invariant
                    aug.wf(),
                    aug.rows == n,
                    aug.cols == w,
                    w == 2 * n,
                    aug.entries() == ec,
                    col < n,
                    col <= pivot_row_idx <= n,
                    pivot_row(ec, w as int, n as int, col as int, pivot_row_idx as int) == pivot_row(
                        ec,
                        w as int,
                        n as int,
                        col as int,
                        col as int,
                    ),
                decreases n - pivot_row_idx,
            {
                pivot_row_idx = pivot_row_idx + 1;
            }
            if pivot_row_idx == n {
                return Ok(None);
            }
            if pivot_row_idx != col {
                aug.swap_rows_wide(w, col, pivot_row_idx);
            }
            proof {
                lemma_index_in_range(col as int, col as int, n as int, w as int);
            }
            let pivot = aug.get(col, col);
            aug.scale_row_by(w, col, pivot);
            let ghost target_e = elim_others(aug.entries(), n as int, w as int, col as int, 0);
            let mut i: usize = 0;
            while i < n
                invariant
                    aug.wf(),
                    aug.rows == n,
                    aug.cols == w,
                    w == 2 * n,
                    col < n,
                    i <= n,
                    target_e is Some,
                    elim_others(aug.entries(), n as int, w as int, col as int, i as int) == target_e,
                decreases n - i,
            {
                if i == col {
                    i = i + 1;
                    continue;
                }
                proof {
                    lemma_index_in_range(i as int, col as int, n as int, w as int);
                }
                let factor = aug.get(i, col);
                if factor.is_zero() {
                    i = i + 1;
                    continue;
                }
                aug.subtract_row_wide(w, col, i, factor);
                i = i + 1;
            }
            col = col + 1;
        }
        let mut inv_data = zeros(n * n);
        let mut r: usize = 0;
        while r < n
            invariant
                aug.wf(),
                aug.rows == n,
                aug.cols == w,
                w == 2 * n,
                n * w <= usize::MAX,
                n * n <= n * w,
                inv_data@.len() == n * n,
                r <= n,
                forall|r2: int, c2: int| 0 <= r2 < r && 0 <= c2 < n ==> #[trigger] arith::qv(inv_data@[r2 * n + c2])
                    == aug.entries()[r2 * w + c2 + n],
            decreases n - r,
        {
            let mut c: usize = 0;
            while c < n
                invariant
                    aug.wf(),
                    aug.rows == n,
                    aug.cols == w,
                    w == 2 * n,
                    n * w <= usize::MAX,
                    n * n <= n * w,
                    inv_data@.len() == n * n,
                    r < n,
                    c <= n,
                    forall|r2: int, c2: int| 0 <= r2 < n && 0 <= c2 < n && (r2 < r || (r2 == r && c2 < c))
                        ==> #[trigger] arith::qv(inv_data@[r2 * n + c2]) == aug.entries()[r2 * w + c2 + n],
                decreases n - c,
            {
                proof {
                    lemma_index_in_range(r as int, c as int, n as int, n as int);
                    lemma_index_in_range(r as int, (c + n) as int, n as int, w as int);
                }
                let v = aug.get(r, c + n);
                inv_data.set(r * n + c, v);
                proof {
                    assert forall|r2: int, c2: int| 0 <= r2 < n && 0 <= c2 < n && (r2 < r || (r2 == r && c2 < c + 1))
                        implies #[trigger] arith::qv(inv_data@[r2 * n + c2]) == aug.entries()[r2 * w + c2 + n] by {
                        lemma_index_in_range(r2, c2, n as int, n as int);
                        if r2 * n + c2 == r * n + c {
                            lemma_index_unique(r2, c2, r as int, c as int, n as int);
                        }
                    }
                }
                c = c + 1;
            }
            r = r + 1;
        }
        let m = MatrixQ::new(n, n, inv_data);
        proof {
            assert forall|idx: int| 0 <= idx < n * n implies #[trigger] m.entries()[idx]
                == right_half(aug.entries(), n as int)[idx] by {
                let r2 = idx / (n as int);
                let c2 = idx % (n as int);
                vstd::arithmetic::div_mod::lemma_fundamental_div_mod(idx, n as int);
                vstd::arithmetic::div_mod::lemma_mod_bound(idx, n as int);
                vstd::arithmetic::div_mod::lemma_div_pos_is_pos(idx, n as int);
                if r2 >= n {
                    assert(r2 * n >= n * n) by (nonlinear_arith)
                        requires
                            r2 >= n,
                            n >= 0,
                    ;
                }
                vstd::arithmetic::mul::lemma_mul_is_commutative(n as int, r2);
                assert(idx == r2 * n + c2);
                lemma_index_in_range(r2, c2, n as int, n as int);
            }
            assert(m.entries() =~= right_half(aug.entries(), n as int));
        }
        Ok(Some(m))
    }
}

/// Every row `i..nrows` other than `prow` with a nonzero entry in column `pcol` has
/// that multiple of row `prow` subtracted (rows of width `w`); `None` on overflow.
pub open spec fn clear_column(a: Seq<(int, int)>, nrows: int, w: int, prow: int, pcol: int, i: int) -> Option<
    Seq<(int, int)>,
>
    decreases nrows - i,
{
    if i >= nrows {
        Some(a)
    } else if i == prow || a[i * w + pcol].0 == 0 {
        clear_column(a, nrows, w, prow, pcol, i + 1)
    } else {
        match row_update(a, w, prow, i, a[i * w + pcol], 0, w) {
            None => None,
            Some(a2) => clear_column(a2, nrows, w, prow, pcol, i + 1),
        }
    }
}

/// Reduction to reduced row echelon form from pivot row `r` and column `c` on: the
/// reduced entries and the pivot columns, or `None` on overflow.
pub open spec fn rref_from(a: Seq<(int, int)>, nrows: int, w: int, r: int, c: int) -> Option<
    (Seq<(int, int)>, Seq<int>),
>
    decreases w - c,
{
    if c >= w || r >= nrows {
        Some((a, Seq::empty()))
    } else {
        let pr = pivot_row(a, w, nrows, c, r);
        if pr >= nrows {
            rref_from(a, nrows, w, r, c + 1)
        } else {
            let a1 = if pr != r { swap_cols(a, w, r, pr, 0) } else { a };
            match scale_row(a1, w, r, a1[r * w + c], 0) {
                None => None,
                Some(a2) => match clear_column(a2, nrows, w, r, c, 0) {
                    None => None,
                    Some(a3) => match rref_from(a3, nrows, w, r + 1, c + 1) {
                        None => None,
                        Some((a4, ps)) => Some((a4, seq![c] + ps)),
                    },
                },
            }
        }
    }
}

/// The reduced row echelon form of a matrix and its pivot columns.
pub open spec fn rref_spec(m: MatrixQ) -> Option<(Seq<(int, int)>, Seq<int>)> {
    rref_from(m.entries(), m.rows as int, m.cols as int, 0, 0)
}

/// The pivot columns of the reduced row echelon form.
pub open spec fn rref_pivots(m: MatrixQ) -> Seq<int> {
    match rref_spec(m) {
        Some((_, ps)) => ps,
        None => Seq::empty(),
    }
}

/// The entries of the reduced row echelon form.
pub open spec fn rref_entries(m: MatrixQ) -> Seq<(int, int)> {
    match rref_spec(m) {
        Some((a, _)) => a,
        None => Seq::empty(),
    }
}

/// Positions as integers.
pub open spec fn as_ints(s: Seq<usize>) -> Seq<int> {
    s.map_values(|x: usize| x as int)
}

/// The continuation of a reduction that has found the pivots `done` so far.
pub open spec fn rref_resume(a: Seq<(int, int)>, nrows: int, w: int, r: int, c: int, done: Seq<int>) -> Option<
    (Seq<(int, int)>, Seq<int>),
> {
    match rref_from(a, nrows, w, r, c) {
        None => None,
        Some((af, ps)) => Some((af, done + ps)),
    }
}

impl MatrixQ {
    /// Subtracts `f` times row `k` from row `i` over all columns (rows of width `w`).
    fn clear_column_exec(&mut self, w: usize, prow: usize, pcol: usize)
        requires
            old(self).wf(),
            old(self).cols == w,
            prow < old(self).rows,
            pcol < w,
            clear_column(old(self).entries(), old(self).rows as int, w as int, prow as int, pcol as int, 0) is Some,
        ensures
            final(self).wf(),
            final(self).rows == old(self).rows,
            final(self).cols == w,
            Some(final(self).entries()) == clear_column(
                old(self).entries(),
                old(self).rows as int,
                w as int,
                prow as int,
                pcol as int,
                0,
            ),
    {
        let ghost target = clear_column(self.entries(), self.rows as int, w as int, prow as int, pcol as int, 0);
        let nrows = self.rows;
        let mut i: usize = 0;
        while i < nrows
            invariant
                self.wf(),
                self.cols == w,
                self.rows == nrows,
                nrows == old(self).rows,
                prow < nrows,
                pcol < w,
                i <= nrows,
                target is Some,
                clear_column(self.entries(), nrows as int, w as int, prow as int, pcol as int, i as int) == target,
            decreases nrows - i,
        {
            if i == prow || self.entry_is_zero(i, pcol) {
                i = i + 1;
                continue;
            }
            proof {
                lemma_index_in_range(i as int, pcol as int, nrows as int, w as int);
            }
            let factor = self.get(i, pcol);
            self.subtract_row_wide(w, prow, i, factor);
            i = i + 1;
        }
    }

    /// Reduced row echelon form: the reduced matrix and its pivot columns.
    fn rref(&self) -> (r: (MatrixQ, Vec<usize>))
        requires
            self.wf(),
            rref_spec(*self) is Some,
        ensures
            r.0.wf(),
            r.0.rows == self.rows,
            r.0.cols == self.cols,
            rref_spec(*self) == Some((r.0.entries(), as_ints(r.1@))),
            r.1@.len() <= self.rows,
            forall|k: int| 0 <= k < r.1@.len() ==> #[trigger] r.1@[k] < self.cols,
    {
        let nrows = self.rows;
        let w = self.cols;
        let mut a = self.duplicate();
        let mut pivots: Vec<usize> = Vec::new();
        let ghost target = rref_spec(*self);
        let mut r: usize = 0;
        let mut c: usize = 0;
        proof {
            assert(as_ints(pivots@) =~= Seq::<int>::empty());
            assert(Seq::<int>::empty() + rref_pivots(*self) =~= rref_pivots(*self));
        }
        while r < nrows && c < w
            invariant
                a.wf(),
                a.rows == nrows,
                a.cols == w,
                nrows == self.rows,
                w == self.cols,
                r <= nrows,
                c <= w,
                r == pivots@.len(),
                r <= c,
                forall|k: int| 0 <= k < pivots@.len() ==> #[trigger] pivots@[k] < c,
                target == rref_spec(*self),
                target is Some,
                rref_resume(a.entries(), nrows as int, w as int, r as int, c as int, as_ints(pivots@)) == target,
            decreases w - c,
        {
            let ghost ec = a.entries();
            let mut pr = r;
            while pr < nrows && a.entry_is_zero(pr, c)
                invariant
                    a.wf(),
                    a.rows == nrows,
                    a.cols == w,
                    a.entries() == ec,
                    r < nrows,
                    c < w,
                    r <= pr <= nrows,
                    pivot_row(ec, w as int, nrows as int, c as int, pr as int) == pivot_row(
                        ec,
                        w as int,
                        nrows as int,
                        c as int,
                        r as int,
                    ),
                decreases nrows - pr,
            {
                pr = pr + 1;
            }
            if pr == nrows {
                c = c + 1;
                continue;
            }
            if pr != r {
                a.swap_rows_wide(w, r, pr);
            }
            proof {
                lemma_index_in_range(r as int, c as int, nrows as int, w as int);
            }
            let pivot = a.get(r, c);
            a.scale_row_by(w, r, pivot);
            a.clear_column_exec(w, r, c);
            let ghost before = as_ints(pivots@);
            pivots.push(c);
            proof {
                assert(as_ints(pivots@) =~= before.push(c as int));
                let rest = rref_from(a.entries(), nrows as int, w as int, (r + 1) as int, (c + 1) as int);
                if rest is Some {
                    let (af, ps) = rest->0;
                    assert(before + (seq![c as int] + ps) =~= before.push(c as int) + ps);
                }
            }
            r = r + 1;
            c = c + 1;
        }
        proof {
            assert(rref_from(a.entries(), nrows as int, w as int, r as int, c as int) == Some(
                (a.entries(), Seq::<int>::empty()),
            ));
            assert(as_ints(pivots@) + Seq::<int>::empty() =~= as_ints(pivots@));
        }
        (a, pivots)
    }

    /// The rank: the number of pivots of the reduced row echelon form.
    pub fn rank(&self) -> (r: usize)
        requires
            self.wf(),
            rref_spec(*self) is Some,
        ensures
            r == rref_pivots(*self).len(),
    {
        let (_, pivots) = self.rref();
        pivots.len()
    }
}

/// The unit vector at `f` of length `n`.
pub open spec fn null_base(n: int, f: int) -> Seq<(int, int)> {
    Seq::new(n as nat, |j: int| if j == f { (1int, 1int) } else { (0int, 1int) })
}

/// The null-space vector of free column `f`, with the entries of the first `i` pivot
/// columns filled in: the negated entries of column `f` of the reduced matrix.
pub open spec fn null_vec(rr: Seq<(int, int)>, n: int, ps: Seq<int>, f: int, i: nat) -> Seq<(int, int)>
    decreases i,
{
    if i == 0 {
        null_base(n, f)
    } else {
        let e = rr[(i - 1) * n + f];
        null_vec(rr, n, ps, f, (i - 1) as nat).update(ps[i - 1], (-e.0, e.1))
    }
}

/// The null-space vectors of the free columns below `f`, in order.
pub open spec fn null_list(rr: Seq<(int, int)>, n: int, ps: Seq<int>, f: nat) -> Seq<Seq<(int, int)>>
    decreases f,
{
    if f == 0 {
        Seq::empty()
    } else {
        null_list(rr, n, ps, (f - 1) as nat) + (if ps.contains(f - 1) {
            Seq::empty()
        } else {
            seq![null_vec(rr, n, ps, f - 1, ps.len())]
        })
    }
}

/// A basis of the null space, one vector per free column of the reduced row echelon form.
pub open spec fn nullspace_spec(m: MatrixQ) -> Seq<Seq<(int, int)>> {
    null_list(rref_entries(m), m.cols as int, rref_pivots(m), m.cols as nat)
}

/// Column `c` of an `m × n` matrix.
pub open spec fn column_of(a: Seq<(int, int)>, m: int, n: int, c: int) -> Seq<(int, int)> {
    Seq::new(m as nat, |r: int| a[r * n + c])
}

/// The pivot columns of the matrix itself, a basis of its column space.
pub open spec fn columnspace_spec(m: MatrixQ) -> Seq<Seq<(int, int)>> {
    rref_pivots(m).map_values(|c: int| column_of(m.entries(), m.rows as int, m.cols as int, c))
}

/// The pairs of each vector in a list.
pub open spec fn vecs_qvs(s: Seq<Vec<Q>>) -> Seq<Seq<(int, int)>> {
    s.map_values(|v: Vec<Q>| qvs(v@))
}

proof fn lemma_vecs_qvs_push(s: Seq<Vec<Q>>, v: Vec<Q>)
    ensures
        vecs_qvs(s.push(v)) == vecs_qvs(s).push(qvs(v@)),
{
    assert(vecs_qvs(s.push(v)) =~= vecs_qvs(s).push(qvs(v@)));
}

/// Whether `x` occurs in `v`.
fn contains_usize(v: &Vec<usize>, x: usize) -> (r: bool)
    ensures
        r == as_ints(v@).contains(x as int),
{
    let mut i: usize = 0;
    while i < v.len()
        invariant
            i <= v@.len(),
            forall|k: int| 0 <= k < i ==> #[trigger] v@[k] != x,
        decreases v@.len() - i,
    {
        if v[i] == x {
            proof {
                assert(as_ints(v@)[i as int] == x as int);
            }
            return true;
        }
        i = i + 1;
    }
    proof {
        if as_ints(v@).contains(x as int) {
            let k = choose|k: int| 0 <= k < as_ints(v@).len() && as_ints(v@)[k] == x as int;
            assert(v@[k] == x);
        }
    }
    false
}

impl MatrixQ {
    /// A basis of the null space: for each free column `f` of the reduced row echelon
    /// form, the vector with 1 at `f` and the negated entries of column `f` at the pivots.
    pub fn nullspace(&self) -> (r: Vec<Vec<Q>>)
        requires
            self.wf(),
            rref_spec(*self) is Some,
            forall|k: int| 0 <= k < rref_entries(*self).len() ==> #[trigger] rref_entries(*self)[k].0 > i64::MIN,
        ensures
            vecs_qvs(r@) == nullspace_spec(*self),
    {
        let (red, pivots) = self.rref();
        let n = self.cols;
        let ghost rr = red.entries();
        let ghost ps = as_ints(pivots@);
        let mut result: Vec<Vec<Q>> = Vec::new();
        let mut f: usize = 0;
        proof {
            assert(vecs_qvs(result@) =~= Seq::<Seq<(int, int)>>::empty());
            assert(rr == rref_entries(*self));
            assert forall|k: int| 0 <= k < rr.len() implies #[trigger] rr[k].0 > i64::MIN by {
                assert(rref_entries(*self)[k].0 > i64::MIN);
            }
        }
        while f < n
            invariant
                n == self.cols,
                red.wf(),
                red.rows == self.rows,
                red.cols == n,
                rr == red.entries(),
                ps == as_ints(pivots@),
                rr == rref_entries(*self),
                ps == rref_pivots(*self),
                pivots@.len() <= self.rows,
                forall|k: int| 0 <= k < pivots@.len() ==> #[trigger] pivots@[k] < n,
                forall|k: int| 0 <= k < rr.len() ==> #[trigger] rr[k].0 > i64::MIN,
                f <= n,
                vecs_qvs(result@) == null_list(rr, n as int, ps, f as nat),
            decreases n - f,
        {
            if contains_usize(&pivots, f) {
                f = f + 1;
                continue;
            }
            let mut v: Vec<Q> = Vec::new();
            let mut j: usize = 0;
            while j < n
                invariant
                    j <= n,
                    f < n,
                    v@.len() == j,
                    forall|k: int| 0 <= k < j ==> #[trigger] arith::qv(v@[k]) == null_base(n as int, f as int)[k],
                decreases n - j,
            {
                v.push(if j == f { Q::one() } else { Q::zero() });
                j = j + 1;
            }
            proof {
                assert(qvs(v@) =~= null_vec(rr, n as int, ps, f as int, 0));
            }
            let mut i: usize = 0;
            while i < pivots.len()
                invariant
                    n == self.cols,
                    red.wf(),
                    red.rows == self.rows,
                    red.cols == n,
                    rr == red.entries(),
                    ps == as_ints(pivots@),
                    pivots@.len() <= self.rows,
                    forall|k: int| 0 <= k < pivots@.len() ==> #[trigger] pivots@[k] < n,
                    forall|k: int| 0 <= k < rr.len() ==> #[trigger] rr[k].0 > i64::MIN,
                    f < n,
                    i <= pivots@.len(),
                    v@.len() == n,
                    qvs(v@) == null_vec(rr, n as int, ps, f as int, i as nat),
                decreases pivots@.len() - i,
            {
                proof {
                    lemma_index_in_range(i as int, f as int, self.rows as int, n as int);
                }
                let e = red.get(i, f);
                proof {
                    assert(rr[i * n + f].0 > i64::MIN);
                }
                let pc = pivots[i];
                let ghost v0 = v@;
                let ne = Q(-e.0, e.1);
                v.set(pc, ne);
                proof {
                    lemma_qvs_update(v0, pc as int, ne);
                }
                i = i + 1;
            }
            let ghost before = result@;
            result.push(v);
            proof {
                lemma_vecs_qvs_push(before, v);
            }
            f = f + 1;
        }
        result
    }

    /// A basis of the column space: the columns of the matrix at the pivots of its
    /// reduced row echelon form.
    pub fn columnspace(&self) -> (r: Vec<Vec<Q>>)
        requires
            self.wf(),
            rref_spec(*self) is Some,
        ensures
            vecs_qvs(r@) == columnspace_spec(*self),
    {
        let (_, pivots) = self.rref();
        let m = self.rows;
        let n = self.cols;
        let ghost ps = as_ints(pivots@);
        let mut result: Vec<Vec<Q>> = Vec::new();
        let mut k: usize = 0;
        while k < pivots.len()
            invariant
                m == self.rows,
                n == self.cols,
                self.wf(),
                ps == as_ints(pivots@),
                ps == rref_pivots(*self),
                forall|t: int| 0 <= t < pivots@.len() ==> #[trigger] pivots@[t] < n,
                k <= pivots@.len(),
                vecs_qvs(result@) == columnspace_spec(*self).take(k as int),
            decreases pivots@.len() - k,
        {
            let c = pivots[k];
            let mut v: Vec<Q> = Vec::new();
            let mut r: usize = 0;
            while r < m
                invariant
                    m == self.rows,
                    n == self.cols,
                    self.wf(),
                    c < n,
                    r <= m,
                    v@.len() == r,
                    forall|t: int| 0 <= t < r ==> #[trigger] arith::qv(v@[t]) == self.entries()[t * n + c],
                decreases m - r,
            {
                proof {
                    lemma_index_in_range(r as int, c as int, m as int, n as int);
                }
                v.push(self.get(r, c));
                r = r + 1;
            }
            let ghost before = result@;
            result.push(v);
            proof {
                lemma_vecs_qvs_push(before, v);
                assert(qvs(v@) =~= column_of(self.entries(), m as int, n as int, c as int));
                assert(columnspace_spec(*self).take(k as int + 1) =~= columnspace_spec(*self).take(k as int).push(
                    column_of(self.entries(), m as int, n as int, c as int),
                ));
            }
            k = k + 1;
        }
        proof {
            assert(columnspace_spec(*self).take(k as int) =~= columnspace_spec(*self));
        }
        result
    }
}

/// `t` is the transpose of `m`: its rows are the columns of `m`.
pub open spec fn is_transpose(m: MatrixQ, t: MatrixQ) -> bool {
    &&& t.rows == m.cols
    &&& t.cols == m.rows
    &&& t.wf()
    &&& forall|r: int, c: int| 0 <= r < m.cols && 0 <= c < m.rows ==> #[trigger] t.data@[r * m.rows + c]
        == m.data@[c * m.cols + r]
}

/// Transposing twice gives back the matrix.
pub proof fn lemma_transpose_involution(m: MatrixQ, t: MatrixQ, tt: MatrixQ)
    requires
        m.wf(),
        is_transpose(m, t),
        is_transpose(t, tt),
    ensures
        tt.rows == m.rows,
        tt.cols == m.cols,
        tt.data@ == m.data@,
{
    let rows = m.rows as int;
    let cols = m.cols as int;
    assert forall|i: int| 0 <= i < m.data@.len() implies #[trigger] tt.data@[i] == m.data@[i] by {
        vstd::arithmetic::div_mod::lemma_fundamental_div_mod(i, cols);
        let r = i / cols;
        let c = i % cols;
        assert(0 <= r < rows) by (nonlinear_arith)
            requires
                0 <= i < rows * cols,
                i == cols * r + c,
                0 <= c < cols,
        ;
        assert(tt.data@[r * cols + c] == t.data@[c * rows + r]);
        assert(t.data@[c * rows + r] == m.data@[r * cols + c]);
        vstd::arithmetic::mul::lemma_mul_is_commutative(r, cols);
    }
    assert(tt.data@ =~= m.data@);
}

/// Row-major positions of an `rows × cols` grid lie in range.
pub proof fn lemma_index_in_range(r: int, c: int, rows: int, cols: int)
    requires
        0 <= r < rows,
        0 <= c < cols,
    ensures
        0 <= r * cols + c < rows * cols,
        r * cols + c <= (rows - 1) * cols + (cols - 1),
{
    assert(r * cols <= (rows - 1) * cols) by (nonlinear_arith)
        requires
            0 <= r <= rows - 1,
            cols >= 0,
    ;
    assert((rows - 1) * cols + cols == rows * cols) by (nonlinear_arith);
    assert(r * cols >= 0) by (nonlinear_arith)
        requires
            r >= 0,
            cols >= 0,
    ;
}

/// Distinct grid cells have distinct row-major positions.
pub proof fn lemma_index_unique(r: int, c: int, r2: int, c2: int, cols: int)
    requires
        0 <= c < cols,
        0 <= c2 < cols,
        r * cols + c == r2 * cols + c2,
    ensures
        r == r2,
        c == c2,
{
    if r < r2 {
        assert(r * cols + c < r2 * cols + c2) by (nonlinear_arith)
            requires
                r < r2,
                0 <= c < cols,
                0 <= c2,
        ;
    } else if r > r2 {
        assert(r * cols + c > r2 * cols + c2) by (nonlinear_arith)
            requires
                r > r2,
                0 <= c2 < cols,
                0 <= c,
        ;
    }
}

// ---------------------------------------------------------------------------
// LU decomposition
// ---------------------------------------------------------------------------

/// Elimination below the pivot `akk` in column `k`, rows `i..n`, recording each
/// multiplier in column `k` of `l`; `None` on overflow.
pub open spec fn lu_elim(
    u: Seq<(int, int)>,
    l: Seq<(int, int)>,
    n: int,
    k: int,
    akk: (int, int),
    i: int,
) -> Option<(Seq<(int, int)>, Seq<(int, int)>)>
    decreases n - i,
{
    if i >= n {
        Some((u, l))
    } else if u[i * n + k].0 == 0 {
        lu_elim(u, l, n, k, akk, i + 1)
    } else {
        match div_opt(u[i * n + k], akk) {
            None => None,
            Some(f) => match row_update(u, n, k, i, f, k, n) {
                None => None,
                Some(u2) => lu_elim(u2.update(i * n + k, (0, 1)), l.update(i * n + k, f), n, k, akk, i + 1),
            },
        }
    }
}

/// Elimination with row pivoting from column `k` on, rows of `u`, `l` and the entries of
/// the permutation `p` exchanged together: the factors without the unit diagonal of `l`,
/// `Some(None)` when a column has no pivot, `None` where a step would overflow.
pub open spec fn lu_from(u: Seq<(int, int)>, l: Seq<(int, int)>, p: Seq<int>, n: int, k: int) -> Option<
    Option<(Seq<(int, int)>, Seq<(int, int)>, Seq<int>)>,
>
    decreases n - k,
{
    if k >= n {
        Some(Some((l, u, p)))
    } else {
        let pr = pivot_row(u, n, n, k, k);
        if pr >= n {
            Some(None)
        } else {
            let u1 = if pr != k { swap_cols(u, n, k, pr, 0) } else { u };
            let l1 = if pr != k { swap_cols(l, n, k, pr, 0) } else { l };
            let p1 = if pr != k { p.update(k, p[pr]).update(pr, p[k]) } else { p };
            match lu_elim(u1, l1, n, k, u1[k * n + k], k + 1) {
                None => None,
                Some(ul) => lu_from(ul.0, ul.1, p1, n, k + 1),
            }
        }
    }
}

/// `l` with ones on the diagonal from row `i` on.
pub open spec fn unit_diag(l: Seq<(int, int)>, n: int, i: int) -> Seq<(int, int)>
    decreases n - i,
{
    if i >= n {
        l
    } else {
        unit_diag(l.update(i * n + i, (1, 1)), n, i + 1)
    }
}

/// `len` zeros, as pairs.
pub open spec fn zero_pairs(len: int) -> Seq<(int, int)> {
    Seq::new(len as nat, |i: int| (0int, 1int))
}

/// The identity permutation of `0..n`.
pub open spec fn iota(n: int) -> Seq<int> {
    Seq::new(n as nat, |i: int| i)
}

/// The LU factors of a square matrix as `lu_decompose` computes them: `L` with a unit
/// diagonal, `U` and the row order `p`; `Some(None)` for a singular matrix, `None` on
/// overflow.
pub open spec fn lu_spec(m: MatrixQ) -> Option<Option<(Seq<(int, int)>, Seq<(int, int)>, Seq<int>)>> {
    let n = m.rows as int;
    match lu_from(m.entries(), zero_pairs(n * n), iota(n), n, 0) {
        None => None,
        Some(None) => Some(None),
        Some(Some(f)) => Some(Some((unit_diag(f.0, n, 0), f.1, f.2))),
    }
}

/// The data of `n × n` zeros, as pairs.
proof fn lemma_zeros_entries(v: Seq<Q>, len: int)
    requires
        v.len() == len,
        forall|j: int| 0 <= j < len ==> #[trigger] v[j] == Q(0, 1),
    ensures
        qvs(v) == zero_pairs(len),
{
    assert(qvs(v) =~= zero_pairs(len));
}

impl MatrixQ {
    /// LU decomposition of a square matrix by Gaussian elimination with row pivoting:
    /// `(L, U, p)` with the multipliers in `L` below a unit diagonal, the eliminated
    /// matrix in `U`, and the order `p` in which the rows of the matrix were taken; an
    /// error when the matrix is not square or is singular.
    pub fn lu_decompose(&self) -> (r: Result<(MatrixQ, MatrixQ, Vec<usize>), &'static str>)
        requires
            self.rows == self.cols ==> self.wf() && lu_spec(*self) is Some,
        ensures
            match r {
                Ok(f) => {
                    &&& self.rows == self.cols
                    &&& f.0.rows == self.rows && f.0.cols == self.rows && f.0.wf()
                    &&& f.1.rows == self.rows && f.1.cols == self.rows && f.1.wf()
                    &&& f.2@.len() == self.rows
                    &&& forall|i: int| 0 <= i < self.rows ==> #[trigger] f.2@[i] < self.rows
                    &&& lu_spec(*self) == Some(Some((f.0.entries(), f.1.entries(), as_ints(f.2@))))
                },
                Err(_) => self.rows != self.cols || lu_spec(*self) == Some(
                    None::<(Seq<(int, int)>, Seq<(int, int)>, Seq<int>)>,
                ),
            },
    {
        if self.rows != self.cols {
            return Err("LU decomposition requires square matrix");
        }
        let n = self.rows;
        let ghost n_i = n as int;
        let len = self.data.len();
        let mut u = self.duplicate();
        let z = zeros(len);
        proof {
            lemma_zeros_entries(z@, len as int);
        }
        let mut l = MatrixQ::new(n, n, z);
        let mut p: Vec<usize> = Vec::new();
        let mut j: usize = 0;
        while j < n
            invariant
                j <= n,
                p@.len() == j,
                forall|t: int| 0 <= t < j ==> #[trigger] p@[t] == t,
            decreases n - j,
        {
            p.push(j);
            j = j + 1;
        }
        proof {
            assert(as_ints(p@) =~= iota(n as int));
        }
        let ghost target = lu_from(self.entries(), zero_pairs(n_i * n_i), iota(n_i), n_i, 0);
        let mut k: usize = 0;
        while k < n
            invariant
                u.wf(),
                u.rows == n,
                u.cols == n,
                l.wf(),
                l.rows == n,
                l.cols == n,
                p@.len() == n,
                forall|t: int| 0 <= t < n ==> #[trigger] p@[t] < n,
                k <= n,
                self.rows == n,
                self.cols == n,
                n_i == n,
                target == lu_from(self.entries(), zero_pairs(n_i * n_i), iota(n_i), n_i, 0),
                target is Some,
                lu_from(u.entries(), l.entries(), as_ints(p@), n as int, k as int) == target,
            decreases n - k,
        {
            let ghost ek = u.entries();
            let mut pr = k;
            while pr < n && u.entry_is_zero(pr, k)
                invariant
                    u.wf(),
                    u.rows == n,
                    u.cols == n,
                    u.entries() == ek,
                    k < n,
                    k <= pr <= n,
                    pivot_row(ek, n as int, n as int, k as int, pr as int) == pivot_row(ek, n as int, n as int, k as int, k as int),
                decreases n - pr,
            {
                pr = pr + 1;
            }
            if pr == n {
                assert(pivot_row(ek, n as int, n as int, k as int, n as int) == n);
                assert(pivot_row(ek, n as int, n as int, k as int, k as int) == n);
                assert(target == Some(None::<(Seq<(int, int)>, Seq<(int, int)>, Seq<int>)>));
                return Err("matrix is singular");
            }
            if pr != k {
                u.swap_rows(n, k, pr);
                l.swap_rows(n, k, pr);
                let ghost p0 = as_ints(p@);
                let pk = p[k];
                let pp = p[pr];
                p.set(k, pp);
                p.set(pr, pk);
                proof {
                    assert(as_ints(p@) =~= p0.update(k as int, p0[pr as int]).update(pr as int, p0[k as int]));
                }
            }
            proof {
                lemma_index_in_range(k as int, k as int, n as int, n as int);
            }
            let akk = u.get(k, k);
            let ghost target_k = lu_elim(u.entries(), l.entries(), n as int, k as int, arith::qv(akk), k as int + 1);
            let mut i: usize = k + 1;
            while i < n
                invariant
                    u.wf(),
                    u.rows == n,
                    u.cols == n,
                    l.wf(),
                    l.rows == n,
                    l.cols == n,
                    k < n,
                    k + 1 <= i <= n,
                    target_k is Some,
                    lu_elim(u.entries(), l.entries(), n as int, k as int, arith::qv(akk), i as int) == target_k,
                decreases n - i,
            {
                proof {
                    lemma_index_in_range(i as int, k as int, n as int, n as int);
                }
                let aik = u.get(i, k);
                if aik.is_zero() {
                    i = i + 1;
                    continue;
                }
                let factor = div_q(aik, akk);
                u.subtract_row(n, k, i, factor, k);
                let ghost d2 = u.data@;
                let ghost dl = l.data@;
                proof {
                    lemma_index_in_range(i as int, k as int, n as int, n as int);
                }
                u.set(i, k, Q::zero());
                l.set(i, k, factor);
                proof {
                    lemma_qvs_update(d2, (i * n + k) as int, Q(0, 1));
                    lemma_qvs_update(dl, (i * n + k) as int, factor);
                }
                i = i + 1;
            }
            k = k + 1;
        }
        let ghost l0 = l.entries();
        let mut i: usize = 0;
        while i < n
            invariant
                l.wf(),
                l.rows == n,
                l.cols == n,
                i <= n,
                unit_diag(l.entries(), n as int, i as int) == unit_diag(l0, n as int, 0),
            decreases n - i,
        {
            proof {
                lemma_index_in_range(i as int, i as int, n as int, n as int);
            }
            let ghost dl = l.data@;
            l.set(i, i, Q::one());
            proof {
                lemma_qvs_update(dl, (i * n + i) as int, Q(1, 1));
            }
            i = i + 1;
        }
        Ok((l, u, p))
    }
}

/// `Σ a[i][t]·x[t]` over `t0 <= t < t1` (rows of width `n`), left to right; `None` on
/// overflow.
pub open spec fn row_dot(a: Seq<(int, int)>, x: Seq<(int, int)>, n: int, i: int, t0: int, t1: int) -> Option<
    (int, int),
>
    decreases t1 - t0,
{
    if t1 <= t0 {
        Some((0, 1))
    } else {
        match row_dot(a, x, n, i, t0, t1 - 1) {
            None => None,
            Some(s) => match mul_opt(a[i * n + (t1 - 1)], x[t1 - 1]) {
                None => None,
                Some(q) => add_opt(s, q),
            },
        }
    }
}

/// Forward substitution with the unit lower triangular `l` on `pb`, rows `i..n`, the
/// solved entries so far being `y`; `None` on overflow.
pub open spec fn forward_from(l: Seq<(int, int)>, pb: Seq<(int, int)>, n: int, i: int, y: Seq<(int, int)>) -> Option<
    Seq<(int, int)>,
>
    decreases n - i,
{
    if i >= n {
        Some(y)
    } else {
        match row_dot(l, y, n, i, 0, i) {
            None => None,
            Some(s) => match sub_opt(pb[i], s) {
                None => None,
                Some(v) => forward_from(l, pb, n, i + 1, y.push(v)),
            },
        }
    }
}

/// Back substitution with the upper triangular `u` on `y`, rows `i - 1` down to 0, the
/// entries below them being solved in `x`; `None` on overflow.
pub open spec fn back_from(u: Seq<(int, int)>, y: Seq<(int, int)>, n: int, i: int, x: Seq<(int, int)>) -> Option<
    Seq<(int, int)>,
>
    decreases i,
{
    if i <= 0 {
        Some(x)
    } else {
        let r = i - 1;
        match row_dot(u, x, n, r, r + 1, n) {
            None => None,
            Some(s) => match sub_opt(y[r], s) {
                None => None,
                Some(d) => match div_opt(d, u[r * n + r]) {
                    None => None,
                    Some(v) => back_from(u, y, n, r, x.update(r, v)),
                },
            },
        }
    }
}

/// The entries `b[p[0]], …, b[p[n - 1]]`.
pub open spec fn permuted(b: Seq<(int, int)>, p: Seq<int>, n: int) -> Seq<(int, int)> {
    Seq::new(n as nat, |i: int| b[p[i]])
}

/// The solution of `A·x = b` as `solve_lu` computes it from the LU factors:
/// `Some(None)` for a singular matrix, `None` on overflow.
pub open spec fn solve_lu_spec(m: MatrixQ, b: Seq<(int, int)>) -> Option<Option<Seq<(int, int)>>> {
    let n = m.rows as int;
    match lu_spec(m) {
        None => None,
        Some(None) => Some(None),
        Some(Some(f)) => match forward_from(f.0, permuted(b, f.2, n), n, 0, Seq::empty()) {
            None => None,
            Some(y) => match back_from(f.1, y, n, n, zero_pairs(n)) {
                None => None,
                Some(x) => Some(Some(x)),
            },
        },
    }
}

impl MatrixQ {
    /// `Σ self[i][t]·x[t]` over `t0 <= t < t1`, left to right.
    fn row_dot_exec(&self, x: &Vec<Q>, i: usize, t0: usize, t1: usize) -> (s: Q)
        requires
            self.wf(),
            self.rows == self.cols,
            i < self.rows,
            t0 <= t1 <= self.cols,
            t1 <= x@.len(),
            row_dot(self.entries(), qvs(x@), self.cols as int, i as int, t0 as int, t1 as int) is Some,
        ensures
            Some(arith::qv(s)) == row_dot(self.entries(), qvs(x@), self.cols as int, i as int, t0 as int, t1 as int),
    {
        let n = self.cols;
        let mut s = Q::zero();
        let mut t: usize = t0;
        while t < t1
            invariant
                self.wf(),
                self.rows == n,
                self.cols == n,
                i < n,
                t0 <= t <= t1,
                t1 <= n,
                t1 <= x@.len(),
                row_dot(self.entries(), qvs(x@), n as int, i as int, t0 as int, t1 as int) is Some,
                Some(arith::qv(s)) == row_dot(self.entries(), qvs(x@), n as int, i as int, t0 as int, t as int),
            decreases t1 - t,
        {
            proof {
                lemma_index_in_range(i as int, t as int, n as int, n as int);
                lemma_row_dot_prefix(self.entries(), qvs(x@), n as int, i as int, t0 as int, t1 as int, t as int + 1);
            }
            let q = mul_q(self.get(i, t), x[t]);
            s = add_q(s, q);
            t = t + 1;
        }
        s
    }
}

/// A sum that succeeds up to `t1` succeeds up to any `t <= t1`.
proof fn lemma_row_dot_prefix(a: Seq<(int, int)>, x: Seq<(int, int)>, n: int, i: int, t0: int, t1: int, t: int)
    requires
        t <= t1,
        row_dot(a, x, n, i, t0, t1) is Some,
    ensures
        row_dot(a, x, n, i, t0, t) is Some,
    decreases t1 - t,
{
    if t < t1 && t0 < t1 {
        lemma_row_dot_prefix(a, x, n, i, t0, t1 - 1, t);
    }
}

impl MatrixQ {
    /// Solves `A x = b` through the LU decomposition: `Some(x)` for a nonsingular matrix,
    /// `None` for a singular one; an error for a matrix that is not square or a right-hand
    /// side of the wrong length.
    pub fn solve_lu(&self, b: &[Q]) -> (r: Result<Option<Vec<Q>>, &'static str>)
        requires
            self.rows == self.cols && b@.len() == self.rows ==> self.wf() && solve_lu_spec(*self, qvs(b@)) is Some,
        ensures
            match r {
                Err(_) => self.rows != self.cols || b@.len() != self.rows,
                Ok(None) => self.rows == self.cols && b@.len() == self.rows && solve_lu_spec(*self, qvs(b@))
                    == Some(None::<Seq<(int, int)>>),
                Ok(Some(x)) => self.rows == self.cols && b@.len() == self.rows && solve_lu_spec(*self, qvs(b@))
                    == Some(Some(qvs(x@))),
            },
    {
        if self.rows != self.cols {
            return Err("solve requires square matrix");
        }
        let n = self.rows;
        if b.len() != n {
            return Err("rhs length must equal number of rows");
        }
        let ghost bq = qvs(b@);
        let (l, u, p) = match self.lu_decompose() {
            Ok(f) => f,
            Err(_) => {
                return Ok(None);
            },
        };
        let ghost lt = l.entries();
        let ghost ut = u.entries();
        let ghost pt = as_ints(p@);
        let mut pb: Vec<Q> = Vec::new();
        let mut i: usize = 0;
        while i < n
            invariant
                i <= n,
                p@.len() == n,
                b@.len() == n,
                forall|t: int| 0 <= t < n ==> #[trigger] p@[t] < n,
                pb@.len() == i,
                forall|t: int| 0 <= t < i ==> #[trigger] pb@[t] == b@[p@[t] as int],
            decreases n - i,
        {
            pb.push(b[p[i]]);
            i = i + 1;
        }
        proof {
            assert(qvs(pb@) =~= permuted(bq, pt, n as int));
        }
        let ghost fwd = forward_from(lt, permuted(bq, pt, n as int), n as int, 0, Seq::empty());
        let mut y: Vec<Q> = Vec::new();
        proof {
            assert(qvs(y@) =~= Seq::<(int, int)>::empty());
        }
        let mut i: usize = 0;
        while i < n
            invariant
                l.wf(),
                l.rows == n,
                l.cols == n,
                lt == l.entries(),
                i <= n,
                pb@.len() == n,
                qvs(pb@) == permuted(bq, pt, n as int),
                y@.len() == i,
                fwd is Some,
                forward_from(lt, permuted(bq, pt, n as int), n as int, i as int, qvs(y@)) == fwd,
            decreases n - i,
        {
            let sm = l.row_dot_exec(&y, i, 0, i);
            let v = sub_q(pb[i], sm);
            let ghost y0 = y@;
            y.push(v);
            proof {
                assert(qvs(y@) =~= qvs(y0).push(arith::qv(v)));
            }
            i = i + 1;
        }
        let ghost bwd = back_from(ut, qvs(y@), n as int, n as int, zero_pairs(n as int));
        let mut x = zeros(n);
        proof {
            lemma_zeros_entries(x@, n as int);
        }
        let mut k: usize = n;
        while k > 0
            invariant
                u.wf(),
                u.rows == n,
                u.cols == n,
                ut == u.entries(),
                k <= n,
                y@.len() == n,
                x@.len() == n,
                bwd is Some,
                back_from(ut, qvs(y@), n as int, k as int, qvs(x@)) == bwd,
            decreases k,
        {
            let r = k - 1;
            let sm = u.row_dot_exec(&x, r, r + 1, n);
            let d = sub_q(y[r], sm);
            proof {
                lemma_index_in_range(r as int, r as int, n as int, n as int);
            }
            let v = div_q(d, u.get(r, r));
            let ghost x0 = x@;
            x.set(r, v);
            proof {
                lemma_qvs_update(x0, r as int, v);
            }
            k = r;
        }
        Ok(Some(x))
    }
}

/// The pair `x` is the rational `n/d`.
pub open spec fn rep(x: (int, int), n: int, d: int) -> bool {
    x.0 * d == n * x.1 && x.1 != 0 && d != 0
}

proof fn lemma_cancel(a: int, b: int, c: int)
    requires
        a * c == b * c,
        c != 0,
    ensures
        a == b,
{
    assert((a - b) * c == 0) by (nonlinear_arith)
        requires
            a * c == b * c,
    ;
    assert(a - b == 0) by (nonlinear_arith)
        requires
            (a - b) * c == 0,
            c != 0,
    ;
}

/// A rational that is `n1/d1` is also `n2/d2` when those are equal.
proof fn lemma_rep_trans(x: (int, int), n1: int, d1: int, n2: int, d2: int)
    requires
        rep(x, n1, d1),
        n1 * d2 == n2 * d1,
        d2 != 0,
    ensures
        rep(x, n2, d2),
{
    assert((x.0 * d2) * d1 == (n2 * x.1) * d1) by (nonlinear_arith)
        requires
            x.0 * d1 == n1 * x.1,
            n1 * d2 == n2 * d1,
    ;
    lemma_cancel(x.0 * d2, n2 * x.1, d1);
}

proof fn lemma_rep_norm(n: int, d: int)
    requires
        d != 0,
    ensures
        rep(arith::normalize_spec(n, d), n, d),
{
    arith::lemma_normalize(n, d);
}

proof fn lemma_rep_mul(x: (int, int), y: (int, int), xn: int, xd: int, yn: int, yd: int)
    requires
        rep(x, xn, xd),
        rep(y, yn, yd),
    ensures
        rep(arith::mul_spec(x, y), xn * yn, xd * yd),
{
    assert(x.1 * y.1 != 0 && xd * yd != 0) by (nonlinear_arith)
        requires
            x.1 != 0,
            y.1 != 0,
            xd != 0,
            yd != 0,
    ;
    lemma_rep_norm(x.0 * y.0, x.1 * y.1);
    assert((x.0 * y.0) * (xd * yd) == (xn * yn) * (x.1 * y.1)) by (nonlinear_arith)
        requires
            x.0 * xd == xn * x.1,
            y.0 * yd == yn * y.1,
    ;
    lemma_rep_trans(arith::mul_spec(x, y), x.0 * y.0, x.1 * y.1, xn * yn, xd * yd);
}

proof fn lemma_cross_term(x0: int, x1: int, y1: int, xn: int, xd: int, yd: int)
    requires
        x0 * xd == xn * x1,
    ensures
        x0 * y1 * (xd * yd) == xn * yd * (x1 * y1),
{
    assert(x0 * y1 * (xd * yd) == (x0 * xd) * (y1 * yd)) by (nonlinear_arith);
    assert((x0 * xd) * (y1 * yd) == (xn * x1) * (y1 * yd));
    assert((xn * x1) * (y1 * yd) == xn * yd * (x1 * y1)) by (nonlinear_arith);
}

proof fn lemma_sub_cross(x0: int, x1: int, y0: int, y1: int, xn: int, xd: int, yn: int, yd: int)
    requires
        x0 * xd == xn * x1,
        y0 * yd == yn * y1,
    ensures
        (x0 * y1 + (-y0) * x1) * (xd * yd) == (xn * yd - yn * xd) * (x1 * y1),
{
    lemma_cross_term(x0, x1, y1, xn, xd, yd);
    lemma_cross_term(y0, y1, x1, yn, yd, xd);
    assert(y0 * x1 * (yd * xd) == y0 * x1 * (xd * yd)) by (nonlinear_arith);
    assert(yn * xd * (y1 * x1) == yn * xd * (x1 * y1)) by (nonlinear_arith);
    assert((x0 * y1 + (-y0) * x1) * (xd * yd) == x0 * y1 * (xd * yd) - y0 * x1 * (xd * yd)) by (nonlinear_arith);
    assert((xn * yd - yn * xd) * (x1 * y1) == xn * yd * (x1 * y1) - yn * xd * (x1 * y1)) by (nonlinear_arith);
}

proof fn lemma_rep_sub(x: (int, int), y: (int, int), xn: int, xd: int, yn: int, yd: int)
    requires
        rep(x, xn, xd),
        rep(y, yn, yd),
    ensures
        rep(arith::sub_spec(x, y), xn * yd - yn * xd, xd * yd),
{
    assert(x.1 * y.1 != 0 && xd * yd != 0) by (nonlinear_arith)
        requires
            x.1 != 0,
            y.1 != 0,
            xd != 0,
            yd != 0,
    ;
    lemma_rep_norm(x.0 * y.1 + (-y.0) * x.1, x.1 * y.1);
    lemma_sub_cross(x.0, x.1, y.0, y.1, xn, xd, yn, yd);
    lemma_rep_trans(arith::sub_spec(x, y), x.0 * y.1 + (-y.0) * x.1, x.1 * y.1, xn * yd - yn * xd, xd * yd);
}

proof fn lemma_rep_div(x: (int, int), y: (int, int), xn: int, xd: int, yn: int, yd: int)
    requires
        rep(x, xn, xd),
        rep(y, yn, yd),
        y.0 != 0,
    ensures
        rep(arith::div_spec(x, y), xn * yd, xd * yn),
{
    assert(yn != 0) by (nonlinear_arith)
        requires
            y.0 * yd == yn * y.1,
            y.0 != 0,
            yd != 0,
    ;
    assert(x.1 * y.0 != 0 && xd * yn != 0) by (nonlinear_arith)
        requires
            x.1 != 0,
            y.0 != 0,
            xd != 0,
            yn != 0,
    ;
    lemma_rep_norm(x.0 * y.1, x.1 * y.0);
    assert((x.0 * y.1) * (xd * yn) == (xn * yd) * (x.1 * y.0)) by (nonlinear_arith)
        requires
            x.0 * xd == xn * x.1,
            y.0 * yd == yn * y.1,
    ;
    lemma_rep_trans(arith::div_spec(x, y), x.0 * y.1, x.1 * y.0, xn * yd, xd * yn);
}

proof fn lemma_zero_result(v: (int, int), td: int, tn: int)
    requires
        v == (0int, 1int),
        tn == 0,
    ensures
        v.1 != 0,
        v.0 * td == tn * v.1,
{
}

proof fn lemma_ring_six(a0: int, a1: int, b1: int, c1: int, d1: int, t: int)
    ensures
        (1 * a0 * t) * (a1 * b1 * c1 * d1) == t * (1 * a1 * (d1 * (c1 * a0 * b1))),
{
    assert((1 * a0 * t) * (a1 * b1 * c1 * d1) == t * (1 * a1 * (d1 * (c1 * a0 * b1)))) by (nonlinear_arith);
}

/// The determinant of a 2×2 matrix `[[a, b], [c, d]]` is `ad − bc`: whenever `det_spec`
/// gives a value (no step overflows), that value is the rational
/// `(a₀d₀b₁c₁ − b₀c₀a₁d₁)/(a₁b₁c₁d₁)` for entries `x = x₀/x₁`. Exchanging the rows
/// negates it, so `det [[0,1],[1,0]] = −1`.
#[verifier::spinoff_prover]
#[verifier::rlimit(60)]
pub proof fn lemma_det_2x2(m: MatrixQ, v: (int, int))
    requires
        m.rows == 2,
        m.cols == 2,
        m.wf(),
        forall|i: int| 0 <= i < 4 ==> #[trigger] m.entries()[i].1 != 0,
        det_spec(m) == Some(v),
    ensures
        ({
            let e = m.entries();
            let (a, b, c, d) = (e[0], e[1], e[2], e[3]);
            v.1 != 0 && v.0 * (a.1 * b.1 * c.1 * d.1) == (a.0 * d.0 * b.1 * c.1 - b.0 * c.0 * a.1 * d.1) * v.1
        }),
{
    let e = m.entries();
    assert(e.len() == 4);
    let (a, b, c, d) = (e[0], e[1], e[2], e[3]);
    assert(a.1 != 0 && b.1 != 0 && c.1 != 0 && d.1 != 0) by {
        assert(e[0].1 != 0);
        assert(e[1].1 != 0);
        assert(e[2].1 != 0);
        assert(e[3].1 != 0);
    }
    let tn = a.0 * d.0 * b.1 * c.1 - b.0 * c.0 * a.1 * d.1;
    let td = a.1 * b.1 * c.1 * d.1;
    assert(td != 0) by (nonlinear_arith)
        requires
            a.1 != 0,
            b.1 != 0,
            c.1 != 0,
            d.1 != 0,
            td == a.1 * b.1 * c.1 * d.1,
    ;
    assert(det_spec(m) == det_from(e, 2, 0, (1, 1)));
    assert(rep(a, a.0, a.1) && rep(b, b.0, b.1) && rep(c, c.0, c.1) && rep(d, d.0, d.1));
    assert(rep((1int, 1int), 1, 1));
    if a.0 != 0 {
        assert(pivot_row(e, 2, 2, 0, 0) == 0);
        let v1: (int, int);
        let a2: Seq<(int, int)>;
        if c.0 == 0 {
            assert(elim_below(e, 2, 0, a, 1) == elim_below(e, 2, 0, a, 2));
            a2 = e;
            v1 = d;
            assert(rep(v1, d.0 * a.0 * c.1 * b.1 - c.0 * a.1 * b.0 * d.1, d.1 * (c.1 * a.0 * b.1))) by {
                assert(c.0 * a.1 * b.0 * d.1 == 0) by (nonlinear_arith)
                    requires
                        c.0 == 0,
                ;
                assert(d.1 * (c.1 * a.0 * b.1) != 0) by (nonlinear_arith)
                    requires
                        d.1 != 0,
                        c.1 != 0,
                        a.0 != 0,
                        b.1 != 0,
                ;
                assert(d.0 * (d.1 * (c.1 * a.0 * b.1)) == (d.0 * a.0 * c.1 * b.1 - 0) * d.1) by (nonlinear_arith);
            }
            assert(elim_below(e, 2, 0, a, 1) == Some(a2));
        } else {
            let f = arith::div_spec(c, a);
            assert(div_opt(c, a) is Some) by {
                if !arith::div_ok(c, a) {
                    assert(det_from(e, 2, 0, (1, 1)) is None);
                }
            }
            lemma_rep_div(c, a, c.0, c.1, a.0, a.1);
            let p0 = arith::mul_spec(f, a);
            assert(mul_opt(f, e[0]) is Some && sub_opt(e[2], p0) is Some) by {
                if !(mul_opt(f, e[0]) is Some && sub_opt(e[2], p0) is Some) {
                    assert(row_update(e, 2, 0, 1, f, 0, 2) is None);
                    assert(det_from(e, 2, 0, (1, 1)) is None);
                }
            }
            let e1 = e.update(2, arith::sub_spec(c, p0));
            assert(e1[1] == b && e1[3] == d);
            let p1 = arith::mul_spec(f, b);
            assert(mul_opt(f, e1[1]) is Some && sub_opt(e1[3], p1) is Some) by {
                if !(mul_opt(f, e1[1]) is Some && sub_opt(e1[3], p1) is Some) {
                    assert(row_update(e1, 2, 0, 1, f, 1, 2) is None);
                    assert(row_update(e, 2, 0, 1, f, 0, 2) is None);
                    assert(det_from(e, 2, 0, (1, 1)) is None);
                }
            }
            let e2 = e1.update(3, arith::sub_spec(d, p1));
            assert(row_update(e2, 2, 0, 1, f, 2, 2) == Some(e2));
            assert(row_update(e1, 2, 0, 1, f, 1, 2) == Some(e2));
            assert(row_update(e, 2, 0, 1, f, 0, 2) == Some(e2));
            a2 = e2.update(2, (0int, 1int));
            assert(elim_below(a2, 2, 0, a, 2) == Some(a2));
            assert(elim_below(e, 2, 0, a, 1) == Some(a2));
            v1 = arith::sub_spec(d, p1);
            lemma_rep_mul(f, b, c.0 * a.1, c.1 * a.0, b.0, b.1);
            lemma_rep_sub(d, p1, d.0, d.1, c.0 * a.1 * b.0, c.1 * a.0 * b.1);
            assert(d.0 * (c.1 * a.0 * b.1) - c.0 * a.1 * b.0 * d.1 == d.0 * a.0 * c.1 * b.1 - c.0 * a.1 * b.0 * d.1)
                by (nonlinear_arith);
        }
        assert(a2[0] == a && a2[3] == v1);
        let nv = d.0 * a.0 * c.1 * b.1 - c.0 * a.1 * b.0 * d.1;
        let dv = d.1 * (c.1 * a.0 * b.1);
        assert(rep(v1, nv, dv));
        assert(det_from(e, 2, 0, (1, 1)) == det_from(a2, 2, 1, (1, 1)));
        assert(nv == tn) by (nonlinear_arith)
            requires
                nv == d.0 * a.0 * c.1 * b.1 - c.0 * a.1 * b.0 * d.1,
                tn == a.0 * d.0 * b.1 * c.1 - b.0 * c.0 * a.1 * d.1,
        ;
        if v1.0 == 0 {
            assert(pivot_row(a2, 2, 2, 1, 2) == 2);
            assert(pivot_row(a2, 2, 2, 1, 1) == pivot_row(a2, 2, 2, 1, 2));
            assert(v == (0int, 1int));
            assert(nv == 0) by (nonlinear_arith)
                requires
                    v1.0 * dv == nv * v1.1,
                    v1.0 == 0,
                    v1.1 != 0,
            ;
            lemma_zero_result(v, td, tn);
        } else {
            assert(pivot_row(a2, 2, 2, 1, 1) == 1);
            assert(elim_below(a2, 2, 1, v1, 2) == Some(a2));
            assert(det_from(a2, 2, 1, (1, 1)) == det_from(a2, 2, 2, (1, 1)));
            assert(det_from(a2, 2, 2, (1, 1)) == diag_prod(a2, 2, 0, (1, 1)));
            let q1 = arith::mul_spec((1, 1), a);
            assert(mul_opt((1, 1), a2[0]) is Some) by {
                if !(mul_opt((1, 1), a2[0]) is Some) {
                    assert(diag_prod(a2, 2, 0, (1, 1)) is None);
                }
            }
            assert(diag_prod(a2, 2, 0, (1, 1)) == diag_prod(a2, 2, 1, q1));
            assert(mul_opt(q1, a2[3]) is Some) by {
                if !(mul_opt(q1, a2[3]) is Some) {
                    assert(diag_prod(a2, 2, 1, q1) is None);
                }
            }
            assert(diag_prod(a2, 2, 1, q1) == diag_prod(a2, 2, 2, arith::mul_spec(q1, v1)));
            assert(v == arith::mul_spec(q1, v1));
            lemma_rep_mul((1, 1), a, 1, 1, a.0, a.1);
            lemma_rep_mul(q1, v1, 1 * a.0, 1 * a.1, nv, dv);
            lemma_ring_six(a.0, a.1, b.1, c.1, d.1, tn);
            assert((1 * a.0 * nv) * td == tn * (1 * a.1 * dv));
            lemma_rep_trans(v, 1 * a.0 * nv, 1 * a.1 * dv, tn, td);
        }
    } else if c.0 != 0 {
        assert(pivot_row(e, 2, 2, 0, 0) == pivot_row(e, 2, 2, 0, 1));
        assert(pivot_row(e, 2, 2, 0, 1) == 1);
        let a1 = swap_cols(e, 2, 0, 1, 0);
        let e1 = e.update(0, e[2]).update(2, e[0]);
        let e2 = e1.update(1, e1[3]).update(3, e1[1]);
        assert(swap_cols(e2, 2, 0, 1, 2) == e2);
        assert(swap_cols(e1, 2, 0, 1, 1) == e2);
        assert(a1 == e2);
        assert(a1[0] == c && a1[1] == d && a1[2] == a && a1[3] == b);
        let sg = arith::mul_spec((1, 1), (-1, 1));
        assert(mul_opt((1, 1), (-1, 1)) is Some) by {
            if !(mul_opt((1, 1), (-1, 1)) is Some) {
                assert(det_from(e, 2, 0, (1, 1)) is None);
            }
        }
        lemma_rep_mul((1, 1), (-1, 1), 1, 1, -1, 1);
        assert(rep(sg, -1, 1));
        assert(elim_below(a1, 2, 0, c, 1) == elim_below(a1, 2, 0, c, 2));
        assert(elim_below(a1, 2, 0, c, 1) == Some(a1));
        assert(det_from(e, 2, 0, (1, 1)) == det_from(a1, 2, 1, sg));
        if b.0 == 0 {
            assert(pivot_row(a1, 2, 2, 1, 2) == 2);
            assert(pivot_row(a1, 2, 2, 1, 1) == pivot_row(a1, 2, 2, 1, 2));
            assert(v == (0int, 1int));
            assert(tn == 0) by (nonlinear_arith)
                requires
                    a.0 == 0,
                    b.0 == 0,
                    tn == a.0 * d.0 * b.1 * c.1 - b.0 * c.0 * a.1 * d.1,
            ;
            lemma_zero_result(v, td, tn);
        } else {
            assert(pivot_row(a1, 2, 2, 1, 1) == 1);
            assert(elim_below(a1, 2, 1, b, 2) == Some(a1));
            assert(det_from(a1, 2, 1, sg) == det_from(a1, 2, 2, sg));
            assert(det_from(a1, 2, 2, sg) == diag_prod(a1, 2, 0, sg));
            let q1 = arith::mul_spec(sg, c);
            assert(mul_opt(sg, a1[0]) is Some) by {
                if !(mul_opt(sg, a1[0]) is Some) {
                    assert(diag_prod(a1, 2, 0, sg) is None);
                }
            }
            assert(diag_prod(a1, 2, 0, sg) == diag_prod(a1, 2, 1, q1));
            assert(mul_opt(q1, a1[3]) is Some) by {
                if !(mul_opt(q1, a1[3]) is Some) {
                    assert(diag_prod(a1, 2, 1, q1) is None);
                }
            }
            assert(diag_prod(a1, 2, 1, q1) == diag_prod(a1, 2, 2, arith::mul_spec(q1, b)));
            assert(v == arith::mul_spec(q1, b));
            lemma_rep_mul(sg, c, -1int, 1int, c.0, c.1);
            lemma_rep_mul(q1, b, -1 * c.0, 1 * c.1, b.0, b.1);
            assert((-1 * c.0 * b.0) * td == tn * (1 * c.1 * b.1)) by (nonlinear_arith)
                requires
                    a.0 == 0,
                    tn == a.0 * d.0 * b.1 * c.1 - b.0 * c.0 * a.1 * d.1,
                    td == a.1 * b.1 * c.1 * d.1,
            ;
            lemma_rep_trans(v, -1 * c.0 * b.0, 1 * c.1 * b.1, tn, td);
        }
    } else {
        assert(pivot_row(e, 2, 2, 0, 2) == 2);
        assert(pivot_row(e, 2, 2, 0, 1) == pivot_row(e, 2, 2, 0, 2));
        assert(pivot_row(e, 2, 2, 0, 0) == pivot_row(e, 2, 2, 0, 1));
        assert(v == (0int, 1int));
        assert(tn == 0) by (nonlinear_arith)
            requires
                a.0 == 0,
                c.0 == 0,
                tn == a.0 * d.0 * b.1 * c.1 - b.0 * c.0 * a.1 * d.1,
        ;
        lemma_zero_result(v, td, tn);
    }
}


/// The rational `x` with its sign flipped.
pub open spec fn neg_pair(x: (int, int)) -> (int, int) {
    (-x.0, x.1)
}

proof fn lemma_normalize_neg(num: int, den: int)
    ensures
        arith::normalize_spec(-num, den) == neg_pair(arith::normalize_spec(num, den)),
{
    let nn = if den < 0 { -num } else { num };
    let dd = if den < 0 { -den } else { den };
    if nn != 0 {
        let g = arith::gcd(arith::abs_int(nn), dd as nat) as int;
        assert(arith::abs_int(-nn) == arith::abs_int(nn));
        arith::lemma_gcd_divides(arith::abs_int(nn), dd as nat);
        assert(g > 0);
        let q = arith::abs_int(nn) as int / g;
        vstd::arithmetic::div_mod::lemma_fundamental_div_mod(arith::abs_int(nn) as int, g);
        let sq = if nn > 0 { q } else { -q };
        assert(nn == sq * g) by (nonlinear_arith)
            requires
                arith::abs_int(nn) as int == g * q,
                sq == (if nn > 0 { q } else { -q }),
                arith::abs_int(nn) as int == (if nn < 0 { -nn } else { nn }),
        ;
        assert(-nn == (-sq) * g) by (nonlinear_arith)
            requires
                nn == sq * g,
        ;
        vstd::arithmetic::div_mod::lemma_fundamental_div_mod_converse(nn, g, sq, 0);
        vstd::arithmetic::div_mod::lemma_fundamental_div_mod_converse(-nn, g, -sq, 0);
    }
}

proof fn lemma_mul_neg(x: (int, int), y: (int, int))
    ensures
        arith::mul_spec(neg_pair(x), y) == neg_pair(arith::mul_spec(x, y)),
{
    assert((-x.0) * y.0 == -(x.0 * y.0)) by (nonlinear_arith);
    lemma_normalize_neg(x.0 * y.0, x.1 * y.1);
}

proof fn lemma_diag_prod_neg(a: Seq<(int, int)>, n: int, i: int, acc: (int, int))
    requires
        diag_prod(a, n, i, acc) is Some,
        diag_prod(a, n, i, neg_pair(acc)) is Some,
    ensures
        diag_prod(a, n, i, neg_pair(acc)) == Some(neg_pair(diag_prod(a, n, i, acc)->0)),
    decreases n - i,
{
    if i < n {
        lemma_mul_neg(acc, a[i * n + i]);
        lemma_diag_prod_neg(a, n, i + 1, arith::mul_spec(acc, a[i * n + i]));
    }
}

proof fn lemma_det_from_neg(a: Seq<(int, int)>, n: int, k: int, s: (int, int))
    requires
        det_from(a, n, k, s) is Some,
        det_from(a, n, k, neg_pair(s)) is Some,
    ensures
        det_from(a, n, k, neg_pair(s)) == Some(neg_pair(det_from(a, n, k, s)->0)),
    decreases n - k,
{
    if k >= n {
        lemma_diag_prod_neg(a, n, 0, s);
    } else {
        let pr = pivot_row(a, n, n, k, k);
        if pr < n {
            let a1 = if pr != k { swap_cols(a, n, k, pr, 0) } else { a };
            let a2 = elim_below(a1, n, k, a1[k * n + k], k + 1)->0;
            if pr != k {
                lemma_mul_neg(s, (-1, 1));
                lemma_det_from_neg(a2, n, k + 1, arith::mul_spec(s, (-1, 1)));
            } else {
                lemma_det_from_neg(a2, n, k + 1, s);
            }
        }
    }
}

/// `pivot_row` finds the first row from `r` on whose entry in column `k` is nonzero.
proof fn lemma_pivot_at(a: Seq<(int, int)>, w: int, n: int, k: int, r: int, p: int)
    requires
        r <= p < n,
        forall|i: int| r <= i < p ==> (#[trigger] a[i * w + k]).0 == 0,
        a[p * w + k].0 != 0,
    ensures
        pivot_row(a, w, n, k, r) == p,
    decreases p - r,
{
    if r < p {
        assert(a[r * w + k].0 == 0);
        lemma_pivot_at(a, w, n, k, r + 1, p);
    }
}

/// What `swap_cols` leaves at each position: rows `k` and `pr` exchanged from column `c`
/// on, everything else in place.
proof fn lemma_swap_cols(a: Seq<(int, int)>, w: int, k: int, pr: int, c: int)
    requires
        0 <= c <= w,
        0 <= k * w,
        k * w + w <= pr * w,
        pr * w + w <= a.len(),
    ensures
        swap_cols(a, w, k, pr, c).len() == a.len(),
        forall|i: int|
            0 <= i < a.len() ==> #[trigger] swap_cols(a, w, k, pr, c)[i] == (if k * w + c <= i < k * w + w {
                a[i - k * w + pr * w]
            } else if pr * w + c <= i < pr * w + w {
                a[i - pr * w + k * w]
            } else {
                a[i]
            }),
    decreases w - c,
{
    if c < w {
        let a1 = a.update(k * w + c, a[pr * w + c]).update(pr * w + c, a[k * w + c]);
        lemma_swap_cols(a1, w, k, pr, c + 1);
    }
}

/// Exchanging two rows negates the determinant. For a square matrix `m` whose column 0
/// is zero in rows `0..p` and nonzero in row `p`, and `m2` the same matrix with rows `0`
/// and `p` exchanged: where both determinants are computed without overflow,
/// `det m = −det m2`. In particular `det [[0,1],[1,0]] = −det [[1,0],[0,1]] = −1`.
pub proof fn lemma_det_row_swap(m: MatrixQ, m2: MatrixQ, p: int, v: (int, int), w: (int, int))
    requires
        m.rows == m.cols,
        m.wf(),
        m2.rows == m.rows,
        m2.cols == m.cols,
        m2.wf(),
        1 <= p < m.rows,
        forall|i: int| 0 <= i < p ==> (#[trigger] m.at(i, 0)).0 == 0,
        m.at(p, 0).0 != 0,
        forall|j: int| 0 <= j < m.cols ==> #[trigger] m2.at(0, j) == m.at(p, j) && m2.at(p, j) == m.at(0, j),
        forall|i: int, j: int|
            0 <= i < m.rows && 0 <= j < m.cols && i != 0 && i != p ==> #[trigger] m2.at(i, j) == m.at(i, j),
        det_spec(m) == Some(v),
        det_spec(m2) == Some(w),
    ensures
        v == (-w.0, w.1),
{
    let n = m.rows as int;
    let e = m.entries();
    let e2 = m2.entries();
    assert(e.len() == n * n && e2.len() == n * n);
    assert forall|i: int| 0 <= i < p implies (#[trigger] e[i * n + 0]).0 == 0 by {
        assert(m.at(i, 0).0 == 0);
        lemma_index_in_range(i, 0, n, n);
    }
    lemma_index_in_range(p, 0, n, n);
    assert(e[p * n + 0] == m.at(p, 0));
    lemma_pivot_at(e, n, n, 0, 0, p);
    assert(0 * n + n <= p * n) by (nonlinear_arith)
        requires
            1 <= p,
            n >= 0,
    ;
    assert(p * n + n <= n * n) by (nonlinear_arith)
        requires
            p <= n - 1,
            n >= 0,
    ;
    lemma_swap_cols(e, n, 0, p, 0);
    let sw = swap_cols(e, n, 0, p, 0);
    assert forall|i: int| 0 <= i < n * n implies #[trigger] sw[i] == e2[i] by {
        let r = i / n;
        let c = i % n;
        vstd::arithmetic::div_mod::lemma_fundamental_div_mod(i, n);
        vstd::arithmetic::div_mod::lemma_div_pos_is_pos(i, n);
        assert(i == r * n + c);
        assert(r < n) by (nonlinear_arith)
            requires
                i == r * n + c,
                0 <= c,
                i < n * n,
                n > 0,
        ;
        assert(e2[i] == m2.at(r, c));
        if r == 0 {
            assert(m2.at(0, c) == m.at(p, c));
            lemma_index_in_range(p, c, n, n);
        } else if r == p {
            assert(m2.at(0, c) == m.at(p, c));
            assert(m2.at(p, c) == m.at(0, c));
        } else {
            assert(m2.at(r, c) == m.at(r, c));
            assert(r * n >= n) by (nonlinear_arith)
                requires
                    r >= 1,
                    n > 0,
            ;
            if p * n <= i < p * n + n {
                lemma_index_unique(r, c, p, i - p * n, n);
            }
        }
    }
    assert(sw =~= e2);
    assert(e2[0 * n + 0] == m.at(p, 0));
    assert(pivot_row(e2, n, n, 0, 0) == 0);
    lemma_normalize_neg(1, 1);
    arith::lemma_normalize_reduced_int(1);
    assert(arith::mul_spec((1, 1), (-1, 1)) == (-1int, 1int));
    assert(det_spec(m) == det_from(e, n, 0, (1, 1)));
    assert(det_spec(m2) == det_from(e2, n, 0, (1, 1)));
    assert(mul_opt((1, 1), (-1, 1)) is Some) by {
        if !(mul_opt((1, 1), (-1, 1)) is Some) {
            assert(det_from(e, n, 0, (1, 1)) is None);
        }
    }
    let el = elim_below(e2, n, 0, e2[0 * n + 0], 1);
    assert(el is Some) by {
        if el is None {
            assert(det_from(e2, n, 0, (1, 1)) is None);
        }
    }
    let a2 = el->0;
    assert(det_from(e, n, 0, (1, 1)) == det_from(a2, n, 1, (-1, 1)));
    assert(det_from(e2, n, 0, (1, 1)) == det_from(a2, n, 1, (1, 1)));
    lemma_det_from_neg(a2, n, 1, (1, 1));
}


/// The product of the numerators of the diagonal entries `i..n` of an `n × n` grid.
pub open spec fn diag_nums(a: Seq<(int, int)>, n: int, i: int) -> int
    decreases n - i,
{
    if i >= n {
        1
    } else {
        a[i * n + i].0 * diag_nums(a, n, i + 1)
    }
}

/// The product of the denominators of the diagonal entries `i..n` of an `n × n` grid.
pub open spec fn diag_dens(a: Seq<(int, int)>, n: int, i: int) -> int
    decreases n - i,
{
    if i >= n {
        1
    } else {
        a[i * n + i].1 * diag_dens(a, n, i + 1)
    }
}

/// The first diagonal position from `k` on with a zero entry (`n` if none).
pub open spec fn first_zero_diag(a: Seq<(int, int)>, n: int, k: int) -> int
    decreases n - k,
{
    if k >= n {
        n
    } else if a[k * n + k].0 == 0 {
        k
    } else {
        first_zero_diag(a, n, k + 1)
    }
}

/// Entries below the diagonal of an `n × n` grid are zero.
pub open spec fn upper_triangular(a: Seq<(int, int)>, n: int) -> bool {
    forall|i: int, j: int| 0 <= j < i < n ==> (#[trigger] a[i * n + j]).0 == 0
}

proof fn lemma_pivot_none(a: Seq<(int, int)>, w: int, n: int, k: int, r: int)
    requires
        forall|i: int| r <= i < n ==> (#[trigger] a[i * w + k]).0 == 0,
    ensures
        pivot_row(a, w, n, k, r) == n,
    decreases n - r,
{
    if r < n {
        assert(a[r * w + k].0 == 0);
        lemma_pivot_none(a, w, n, k, r + 1);
    }
}

proof fn lemma_elim_noop(a: Seq<(int, int)>, n: int, k: int, akk: (int, int), i: int)
    requires
        forall|r: int| i <= r < n ==> (#[trigger] a[r * n + k]).0 == 0,
    ensures
        elim_below(a, n, k, akk, i) == Some(a),
    decreases n - i,
{
    if i < n {
        assert(a[i * n + k].0 == 0);
        lemma_elim_noop(a, n, k, akk, i + 1);
    }
}

proof fn lemma_det_triangular_from(a: Seq<(int, int)>, n: int, k: int)
    requires
        0 <= k <= n,
        upper_triangular(a, n),
    ensures
        det_from(a, n, k, (1, 1)) == (if first_zero_diag(a, n, k) < n {
            Some((0int, 1int))
        } else {
            diag_prod(a, n, 0, (1, 1))
        }),
    decreases n - k,
{
    if k < n {
        assert forall|r: int| k + 1 <= r < n implies (#[trigger] a[r * n + k]).0 == 0 by {
            assert(0 <= k < r < n);
        }
        if a[k * n + k].0 == 0 {
            lemma_pivot_none(a, n, n, k, k);
        } else {
            assert(pivot_row(a, n, n, k, k) == k);
            lemma_elim_noop(a, n, k, a[k * n + k], k + 1);
            lemma_det_triangular_from(a, n, k + 1);
        }
    }
}

proof fn lemma_diag_nums_zero(a: Seq<(int, int)>, n: int, i: int)
    requires
        first_zero_diag(a, n, i) < n,
    ensures
        diag_nums(a, n, i) == 0,
    decreases n - i,
{
    if i < n && a[i * n + i].0 != 0 {
        lemma_diag_nums_zero(a, n, i + 1);
    }
}

proof fn lemma_diag_prod_rep(a: Seq<(int, int)>, n: int, i: int, acc: (int, int), x: int, y: int, v: (int, int))
    requires
        diag_prod(a, n, i, acc) == Some(v),
        rep(acc, x, y),
        forall|j: int| i <= j < n ==> (#[trigger] a[j * n + j]).1 != 0,
    ensures
        rep(v, x * diag_nums(a, n, i), y * diag_dens(a, n, i)),
    decreases n - i,
{
    if i < n {
        let d = a[i * n + i];
        assert(d.1 != 0);
        lemma_rep_mul(acc, d, x, y, d.0, d.1);
        lemma_diag_prod_rep(a, n, i + 1, arith::mul_spec(acc, d), x * d.0, y * d.1, v);
        assert((x * d.0) * diag_nums(a, n, i + 1) == x * (d.0 * diag_nums(a, n, i + 1))) by (nonlinear_arith);
        assert((y * d.1) * diag_dens(a, n, i + 1) == y * (d.1 * diag_dens(a, n, i + 1))) by (nonlinear_arith);
    } else {
        assert(x * 1 == x && y * 1 == y);
    }
}

/// The determinant of an upper-triangular matrix is the product of its diagonal:
/// whenever `det_spec` gives a value `v` (no step overflows), `v` is the rational
/// `Πdᵢ₀ / Πdᵢ₁` for diagonal entries `dᵢ = dᵢ₀/dᵢ₁`.
pub proof fn lemma_det_triangular(m: MatrixQ, v: (int, int))
    requires
        m.rows == m.cols,
        m.wf(),
        upper_triangular(m.entries(), m.rows as int),
        forall|i: int| 0 <= i < m.rows ==> (#[trigger] m.at(i, i)).1 != 0,
        det_spec(m) == Some(v),
    ensures
        v.1 != 0,
        v.0 * diag_dens(m.entries(), m.rows as int, 0) == diag_nums(m.entries(), m.rows as int, 0) * v.1,
{
    let n = m.rows as int;
    let a = m.entries();
    if n == 0 {
        assert(v == (1int, 1int));
    } else {
        assert(det_spec(m) == det_from(a, n, 0, (1, 1)));
        lemma_det_triangular_from(a, n, 0);
        if first_zero_diag(a, n, 0) < n {
            lemma_diag_nums_zero(a, n, 0);
            assert(v == (0int, 1int));
            assert(v.0 * diag_dens(a, n, 0) == 0);
        } else {
            assert forall|j: int| 0 <= j < n implies (#[trigger] a[j * n + j]).1 != 0 by {
                assert(m.at(j, j).1 != 0);
                lemma_index_in_range(j, j, n, n);
            }
            lemma_diag_prod_rep(a, n, 0, (1, 1), 1, 1, v);
        }
    }
}

} // verus!
