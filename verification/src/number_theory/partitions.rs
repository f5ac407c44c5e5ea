use vstd::prelude::*;

verus! {

/// The number of partitions of `n` into parts at most `k`.
pub open spec fn parts_upto(n: int, k: int) -> int
    decreases n + k,
{
    if n == 0 {
        1
    } else if n < 0 || k <= 0 {
        0
    } else {
        parts_upto(n, k - 1) + (if k <= n { parts_upto(n - k, k) } else { 0 })
    }
}

/// The number of partitions of `n` into distinct parts at most `k`.
pub open spec fn distinct_upto(n: int, k: int) -> int
    decreases k,
{
    if n == 0 {
        1
    } else if n < 0 || k <= 0 {
        0
    } else {
        distinct_upto(n, k - 1) + (if k <= n { distinct_upto(n - k, k - 1) } else { 0 })
    }
}

/// The number of partitions of `n` into odd parts among `1, 3, …, 2j − 1`.
pub open spec fn odd_upto(n: int, j: int) -> int
    decreases n + j,
{
    if n == 0 {
        1
    } else if n < 0 || j <= 0 {
        0
    } else {
        odd_upto(n, j - 1) + (if 2 * j - 1 <= n { odd_upto(n - (2 * j - 1), j) } else { 0 })
    }
}

/// The number of partitions of `n` into exactly `k` parts.
pub open spec fn exactly_k(n: int, k: int) -> int
    decreases n,
{
    if k <= 0 {
        if n == 0 { 1 } else { 0 }
    } else if n <= 0 || k > n {
        0
    } else if k == 1 {
        1
    } else {
        exactly_k(n - 1, k - 1) + exactly_k(n - k, k)
    }
}

proof fn lemma_counts_nonneg(n: int, k: int)
    ensures
        parts_upto(n, k) >= 0,
        distinct_upto(n, k) >= 0,
        odd_upto(n, k) >= 0,
{
    lemma_parts_nonneg(n, k);
    lemma_distinct_nonneg(n, k);
    lemma_odd_nonneg(n, k);
}

proof fn lemma_parts_nonneg(n: int, k: int)
    ensures
        parts_upto(n, k) >= 0,
    decreases n + k,
{
    if n > 0 && k > 0 {
        lemma_parts_nonneg(n, k - 1);
        if k <= n {
            lemma_parts_nonneg(n - k, k);
        }
    }
}

proof fn lemma_distinct_nonneg(n: int, k: int)
    ensures
        distinct_upto(n, k) >= 0,
    decreases k,
{
    if n > 0 && k > 0 {
        lemma_distinct_nonneg(n, k - 1);
        lemma_distinct_nonneg(n - k, k - 1);
    }
}

proof fn lemma_odd_nonneg(n: int, j: int)
    ensures
        odd_upto(n, j) >= 0,
    decreases n + j,
{
    if n > 0 && j > 0 {
        lemma_odd_nonneg(n, j - 1);
        if 2 * j - 1 <= n {
            lemma_odd_nonneg(n - (2 * j - 1), j);
        }
    }
}

proof fn lemma_exactly_k_nonneg(n: int, k: int)
    ensures
        exactly_k(n, k) >= 0,
    decreases n,
{
    if k > 1 && n > 0 && k <= n {
        lemma_exactly_k_nonneg(n - 1, k - 1);
        lemma_exactly_k_nonneg(n - k, k);
    }
}

/// With parts at most `k ≥ n`, every part is allowed.
proof fn lemma_parts_upto_saturates(n: int, k: int)
    requires
        0 <= n <= k,
    ensures
        parts_upto(n, k) == parts_upto(n, n),
    decreases k - n,
{
    if k > n {
        lemma_parts_upto_saturates(n, k - 1);
    }
}

/// The partition function `p(n)`: the number of ways to write `n` as a sum of positive
/// integers, by the table of partitions into parts at most `k` for `k = 1..n`.
pub fn partition_count(n: u64) -> (r: u64)
    requires
        n < usize::MAX,
        forall|i: int, k: int| 0 <= i <= n && 0 <= k <= n ==> #[trigger] parts_upto(i, k) <= u64::MAX,
    ensures
        r == parts_upto(n as int, n as int),
{
    let size = (n + 1) as usize;
    let mut dp: Vec<u64> = Vec::new();
    let mut t: usize = 0;
    while t < size
        invariant
            size == n + 1,
            t <= size,
            dp@.len() == t,
            forall|j: int| 0 <= j < t ==> #[trigger] dp@[j] == parts_upto(j, 0),
        decreases size - t,
    {
        dp.push(if t == 0 { 1 } else { 0 });
        t = t + 1;
    }
    let mut part: u64 = 1;
    while part <= n
        invariant
            size == n + 1,
            1 <= part <= n + 1,
            dp@.len() == size,
            forall|i: int, k: int| 0 <= i <= n && 0 <= k <= n ==> #[trigger] parts_upto(i, k) <= u64::MAX,
            forall|j: int| 0 <= j <= n ==> #[trigger] dp@[j] == parts_upto(j, part - 1),
        decreases n + 1 - part,
    {
        let mut i: u64 = part;
        while i <= n
            invariant
                size == n + 1,
                1 <= part <= n,
                part <= i <= n + 1,
                dp@.len() == size,
                forall|i2: int, k: int| 0 <= i2 <= n && 0 <= k <= n ==> #[trigger] parts_upto(i2, k) <= u64::MAX,
                forall|j: int| 0 <= j < i ==> #[trigger] dp@[j] == parts_upto(j, part as int),
                forall|j: int| i <= j <= n ==> #[trigger] dp@[j] == parts_upto(j, part - 1),
            decreases n + 1 - i,
        {
            proof {
                assert(dp@[i as int] == parts_upto(i as int, part - 1));
                assert(dp@[(i - part) as int] == parts_upto(i - part, part as int));
                assert(parts_upto(i as int, part as int) <= u64::MAX);
                lemma_counts_nonneg(i - part, part as int);
            }
            let v = dp[i as usize] + dp[(i - part) as usize];
            dp.set(i as usize, v);
            i = i + 1;
        }
        proof {
            assert forall|j: int| 0 <= j <= n implies #[trigger] dp@[j] == parts_upto(j, part as int) by {
                if j < part {
                    assert(parts_upto(j, part as int) == parts_upto(j, part - 1));
                }
            }
        }
        part = part + 1;
    }
    dp[n as usize]
}

/// Partitions of `n` into distinct parts.
pub fn partition_count_distinct(n: u64) -> (r: u64)
    requires
        n < usize::MAX,
        forall|i: int, k: int| 0 <= i <= n && 0 <= k <= n ==> #[trigger] distinct_upto(i, k) <= u64::MAX,
    ensures
        r == distinct_upto(n as int, n as int),
{
    if n == 0 {
        return 1;
    }
    let size = (n + 1) as usize;
    let mut dp: Vec<u64> = Vec::new();
    let mut t: usize = 0;
    while t < size
        invariant
            size == n + 1,
            t <= size,
            dp@.len() == t,
            forall|j: int| 0 <= j < t ==> #[trigger] dp@[j] == distinct_upto(j, 0),
        decreases size - t,
    {
        dp.push(if t == 0 { 1 } else { 0 });
        t = t + 1;
    }
    let mut part: u64 = 1;
    while part <= n
        invariant
            size == n + 1,
            1 <= part <= n + 1,
            dp@.len() == size,
            forall|i: int, k: int| 0 <= i <= n && 0 <= k <= n ==> #[trigger] distinct_upto(i, k) <= u64::MAX,
            forall|j: int| 0 <= j <= n ==> #[trigger] dp@[j] == distinct_upto(j, part - 1),
        decreases n + 1 - part,
    {
        let mut i: u64 = n;
        while i >= part
            invariant
                size == n + 1,
                1 <= part <= n,
                part - 1 <= i <= n,
                dp@.len() == size,
                forall|i2: int, k: int| 0 <= i2 <= n && 0 <= k <= n ==> #[trigger] distinct_upto(i2, k) <= u64::MAX,
                forall|j: int| i < j <= n ==> #[trigger] dp@[j] == distinct_upto(j, part as int),
                forall|j: int| 0 <= j <= i ==> #[trigger] dp@[j] == distinct_upto(j, part - 1),
            decreases i,
        {
            proof {
                assert(dp@[i as int] == distinct_upto(i as int, part - 1));
                assert(dp@[(i - part) as int] == distinct_upto(i - part, part - 1));
                assert(distinct_upto(i as int, part as int) <= u64::MAX);
                lemma_counts_nonneg(i - part, part - 1);
            }
            let v = dp[i as usize] + dp[(i - part) as usize];
            dp.set(i as usize, v);
            i = i - 1;
        }
        proof {
            assert forall|j: int| 0 <= j <= n implies #[trigger] dp@[j] == distinct_upto(j, part as int) by {
                if j < part {
                    assert(distinct_upto(j, part as int) == distinct_upto(j, part - 1));
                }
            }
        }
        part = part + 1;
    }
    dp[n as usize]
}

/// Partitions of `n` into odd parts.
pub fn partition_count_odd_parts(n: u64) -> (r: u64)
    requires
        n < usize::MAX,
        forall|i: int, j: int| 0 <= i <= n && 0 <= j <= n ==> #[trigger] odd_upto(i, j) <= u64::MAX,
    ensures
        r == odd_upto(n as int, (n as int + 1) / 2),
{
    if n == 0 {
        return 1;
    }
    let size = (n + 1) as usize;
    let mut dp: Vec<u64> = Vec::new();
    let mut t: usize = 0;
    while t < size
        invariant
            size == n + 1,
            t <= size,
            dp@.len() == t,
            forall|j: int| 0 <= j < t ==> #[trigger] dp@[j] == odd_upto(j, 0),
        decreases size - t,
    {
        dp.push(if t == 0 { 1 } else { 0 });
        t = t + 1;
    }
    let mut part: u64 = 1;
    while part <= n
        invariant
            size == n + 1,
            1 <= part <= n + 2,
            part % 2 == 1,
            dp@.len() == size,
            forall|i: int, j: int| 0 <= i <= n && 0 <= j <= n ==> #[trigger] odd_upto(i, j) <= u64::MAX,
            forall|j: int| 0 <= j <= n ==> #[trigger] dp@[j] == odd_upto(j, (part - 1) / 2),
        decreases n + 2 - part,
    {
        let ghost jj: int = (part as int + 1) / 2;
        let mut i: u64 = part;
        while i <= n
            invariant
                size == n + 1,
                1 <= part <= n,
                part % 2 == 1,
                jj == (part as int + 1) / 2,
                part <= i <= n + 1,
                dp@.len() == size,
                forall|i2: int, j: int| 0 <= i2 <= n && 0 <= j <= n ==> #[trigger] odd_upto(i2, j) <= u64::MAX,
                forall|j: int| 0 <= j < i ==> #[trigger] dp@[j] == odd_upto(j, jj),
                forall|j: int| i <= j <= n ==> #[trigger] dp@[j] == odd_upto(j, jj - 1),
            decreases n + 1 - i,
        {
            proof {
                assert(dp@[i as int] == odd_upto(i as int, jj - 1));
                assert(dp@[(i - part) as int] == odd_upto(i - part, jj));
                assert(odd_upto(i as int, jj) <= u64::MAX);
                lemma_counts_nonneg(i - part, jj);
            }
            let v = dp[i as usize] + dp[(i - part) as usize];
            dp.set(i as usize, v);
            i = i + 1;
        }
        proof {
            assert forall|j: int| 0 <= j <= n implies #[trigger] dp@[j] == odd_upto(j, jj) by {
                if j < part {
                    assert(odd_upto(j, jj) == odd_upto(j, jj - 1));
                }
            }
        }
        part = part + 2;
    }
    dp[n as usize]
}

/// Partitions of `n` into exactly `k` parts, by the table `p(i, j) = p(i−1, j−1) + p(i−j, j)`.
pub fn partition_count_k_parts(n: u64, k: u64) -> (r: u64)
    requires
        n < usize::MAX,
        forall|i: int, j: int| 0 <= i <= n && 0 <= j <= k ==> #[trigger] exactly_k(i, j) <= u64::MAX,
        k <= n ==> (n + 1) * (k + 1) <= usize::MAX,
    ensures
        r == exactly_k(n as int, k as int),
{
    if k == 0 {
        return if n == 0 { 1 } else { 0 };
    }
    if n == 0 || k > n {
        return 0;
    }
    if k == 1 {
        return 1;
    }
    let rows = (n + 1) as usize;
    let cols = (k + 1) as usize;
    let mut dp: Vec<Vec<u64>> = Vec::new();
    let mut t: usize = 0;
    while t < rows
        invariant
            rows == n + 1,
            cols == k + 1,
            2 <= k <= n,
            t <= rows,
            dp@.len() == t,
            forall|a: int| 0 <= a < t ==> #[trigger] dp@[a]@.len() == cols,
            forall|a: int, b: int| 0 <= a < t && 0 <= b < cols ==> #[trigger] dp@[a]@[b] == (if b == 0 {
                if a == 0 { 1int } else { 0 }
            } else if b == 1 && a >= 1 {
                1
            } else {
                0
            }),
        decreases rows - t,
    {
        let mut row: Vec<u64> = Vec::new();
        let mut c: usize = 0;
        while c < cols
            invariant
                cols == k + 1,
                c <= cols,
                row@.len() == c,
                forall|b: int| 0 <= b < c ==> #[trigger] row@[b] == (if b == 0 {
                    if t == 0 { 1int } else { 0 }
                } else if b == 1 && t >= 1 {
                    1
                } else {
                    0
                }),
            decreases cols - c,
        {
            let v: u64 = if c == 0 {
                if t == 0 { 1 } else { 0 }
            } else if c == 1 && t >= 1 {
                1
            } else {
                0
            };
            row.push(v);
            c = c + 1;
        }
        dp.push(row);
        t = t + 1;
    }
    let mut i: usize = 2;
    while i <= n as usize
        invariant
            rows == n + 1,
            cols == k + 1,
            2 <= k <= n,
            2 <= i <= n + 1,
            dp@.len() == rows,
            forall|i2: int, j: int| 0 <= i2 <= n && 0 <= j <= k ==> #[trigger] exactly_k(i2, j) <= u64::MAX,
            forall|a: int| 0 <= a < rows ==> #[trigger] dp@[a]@.len() == cols,
            forall|a: int, b: int| 0 <= a < i && 0 <= b < cols ==> #[trigger] dp@[a]@[b] == exactly_k(a, b),
            forall|a: int, b: int| i <= a < rows && 0 <= b < cols ==> #[trigger] dp@[a]@[b] == (if b == 0 {
                0int
            } else if b == 1 {
                1
            } else {
                0
            }),
        decreases n + 1 - i,
    {
        let jmax: usize = if (k as usize) < i { k as usize } else { i };
        let mut j: usize = 2;
        while j <= jmax
            invariant
                rows == n + 1,
                cols == k + 1,
                2 <= k <= n,
                2 <= i <= n,
                jmax == (if k < i { k as int } else { i as int }),
                2 <= j <= jmax + 1,
                dp@.len() == rows,
                forall|i2: int, j2: int| 0 <= i2 <= n && 0 <= j2 <= k ==> #[trigger] exactly_k(i2, j2) <= u64::MAX,
                forall|a: int| 0 <= a < rows ==> #[trigger] dp@[a]@.len() == cols,
                forall|a: int, b: int| 0 <= a < i && 0 <= b < cols ==> #[trigger] dp@[a]@[b] == exactly_k(a, b),
                forall|b: int| 0 <= b < j ==> #[trigger] dp@[i as int]@[b] == exactly_k(i as int, b),
                forall|b: int| j <= b < cols ==> #[trigger] dp@[i as int]@[b] == (if b == 1 { 1int } else { 0 }),
                forall|a: int, b: int| i < a < rows && 0 <= b < cols ==> #[trigger] dp@[a]@[b] == (if b == 0 {
                    0int
                } else if b == 1 {
                    1
                } else {
                    0
                }),
            decreases jmax + 1 - j,
        {
            proof {
                lemma_exactly_k_nonneg(i - 1, j - 1);
                lemma_exactly_k_nonneg((i - j) as int, j as int);
                assert(exactly_k(i as int, j as int) <= u64::MAX);
            }
            let mut v = dp[i - 1][j - 1];
            if i >= j {
                v = v + dp[i - j][j];
            }
            let mut row = dp[i].clone();
            proof {
                assert(row@ =~= dp@[i as int]@);
            }
            row.set(j, v);
            dp.set(i, row);
            j = j + 1;
        }
        proof {
            assert forall|b: int| 0 <= b < cols implies #[trigger] dp@[i as int]@[b] == exactly_k(i as int, b) by {
                if b > jmax {
                    assert(b > i as int);
                }
            }
        }
        i = i + 1;
    }
    dp[n as usize][k as usize]
}

/// Every sequence of `s` with `c` in front.
pub open spec fn prefix_each(c: Seq<u64>, s: Seq<Seq<u64>>) -> Seq<Seq<u64>> {
    s.map_values(|t: Seq<u64>| c + t)
}

/// The partitions of `n` into parts at most `max`, each in nonincreasing order, listed
/// with the largest first part first.
pub open spec fn partitions_of(n: nat, max: nat) -> Seq<Seq<u64>>
    decreases n, 1nat, 0nat,
{
    if n == 0 {
        seq![Seq::<u64>::empty()]
    } else {
        partitions_from(n, if max < n { max } else { n }, 1)
    }
}

/// The partitions of `n` whose first part lies in `lo..=top`, first parts descending.
pub open spec fn partitions_from(n: nat, top: nat, lo: nat) -> Seq<Seq<u64>>
    decreases n, 0nat, top + 1 - lo,
{
    if lo == 0 || lo > top || top > n {
        Seq::empty()
    } else {
        partitions_from(n, top, lo + 1) + prefix_each(seq![lo as u64], partitions_of((n - lo) as nat, lo))
    }
}

/// The contents of a list of vectors.
pub open spec fn vec_views(s: Seq<Vec<u64>>) -> Seq<Seq<u64>> {
    s.map_values(|v: Vec<u64>| v@)
}

proof fn lemma_vec_views_push(s: Seq<Vec<u64>>, v: Vec<u64>)
    ensures
        vec_views(s.push(v)) == vec_views(s).push(v@),
{
    assert(vec_views(s.push(v)) =~= vec_views(s).push(v@));
}

proof fn lemma_prefix_each_concat(c: Seq<u64>, a: Seq<Seq<u64>>, b: Seq<Seq<u64>>)
    ensures
        prefix_each(c, a + b) == prefix_each(c, a) + prefix_each(c, b),
{
    assert(prefix_each(c, a + b) =~= prefix_each(c, a) + prefix_each(c, b));
}

proof fn lemma_prefix_each_nest(c: Seq<u64>, p: u64, s: Seq<Seq<u64>>)
    ensures
        prefix_each(c, prefix_each(seq![p], s)) == prefix_each(c.push(p), s),
{
    assert forall|i: int| 0 <= i < s.len() implies #[trigger] prefix_each(c, prefix_each(seq![p], s))[i]
        == prefix_each(c.push(p), s)[i] by {
        assert(c + (seq![p] + s[i]) =~= c.push(p) + s[i]);
    }
    assert(prefix_each(c, prefix_each(seq![p], s)) =~= prefix_each(c.push(p), s));
}

/// Appends, after `current`, every partition of `n` with parts at most `max_part`.
fn generate_partitions_helper(n: u64, max_part: u64, current: &mut Vec<u64>, result: &mut Vec<Vec<u64>>)
    ensures
        final(current)@ == old(current)@,
        vec_views(final(result)@) == vec_views(old(result)@) + prefix_each(
            old(current)@,
            partitions_of(n as nat, max_part as nat),
        ),
    decreases n,
{
    if n == 0 {
        let c = current.clone();
        proof {
            assert(c@ =~= current@);
            lemma_vec_views_push(result@, c);
            assert(prefix_each(current@, seq![Seq::<u64>::empty()]) =~= seq![current@]);
        }
        result.push(c);
        return;
    }
    let top: u64 = if max_part < n { max_part } else { n };
    let ghost c0 = current@;
    let ghost r0 = vec_views(result@);
    let mut part: u64 = top;
    proof {
        assert(partitions_from(n as nat, top as nat, (top + 1) as nat) =~= Seq::<Seq<u64>>::empty());
        assert(prefix_each(c0, Seq::<Seq<u64>>::empty()) =~= Seq::<Seq<u64>>::empty());
        assert(r0 + Seq::<Seq<u64>>::empty() =~= r0);
    }
    while part >= 1
        invariant
            1 <= n,
            top == (if max_part < n { max_part } else { n }),
            part <= top,
            current@ == c0,
            vec_views(result@) == r0 + prefix_each(c0, partitions_from(n as nat, top as nat, (part + 1) as nat)),
        decreases part,
    {
        let ghost before = vec_views(result@);
        current.push(part);
        generate_partitions_helper(n - part, part, current, result);
        current.pop();
        proof {
            assert(current@ =~= c0);
            let rest = partitions_of((n - part) as nat, part as nat);
            let higher = partitions_from(n as nat, top as nat, (part + 1) as nat);
            assert(partitions_from(n as nat, top as nat, part as nat)
                == higher + prefix_each(seq![part], rest));
            lemma_prefix_each_concat(c0, higher, prefix_each(seq![part], rest));
            lemma_prefix_each_nest(c0, part, rest);
            assert(vec_views(result@) =~= r0 + prefix_each(c0, partitions_from(n as nat, top as nat, part as nat)));
        }
        part = part - 1;
    }
}

/// All partitions of `n`, each with its parts in nonincreasing order, largest first parts
/// first; for `n == 0` the one empty partition.
pub fn generate_partitions(n: u64) -> (r: Vec<Vec<u64>>)
    ensures
        vec_views(r@) == partitions_of(n as nat, n as nat),
{
    if n == 0 {
        let mut r: Vec<Vec<u64>> = Vec::new();
        r.push(Vec::new());
        proof {
            assert(vec_views(r@) =~= seq![Seq::<u64>::empty()]);
        }
        return r;
    }
    let mut result: Vec<Vec<u64>> = Vec::new();
    let mut current: Vec<u64> = Vec::new();
    generate_partitions_helper(n, n, &mut current, &mut result);
    proof {
        let s = partitions_of(n as nat, n as nat);
        assert(vec_views(Seq::<Vec<u64>>::empty()) =~= Seq::<Seq<u64>>::empty());
        assert forall|i: int| 0 <= i < s.len() implies #[trigger] prefix_each(Seq::<u64>::empty(), s)[i] == s[i] by {
            assert(Seq::<u64>::empty() + s[i] =~= s[i]);
        }
        assert(prefix_each(Seq::<u64>::empty(), s) =~= s);
        assert(Seq::<Seq<u64>>::empty() + s =~= s);
    }
    result
}

/// The sum of a sequence.
pub open spec fn seq_sum(s: Seq<u64>) -> int
    decreases s.len(),
{
    if s.len() == 0 {
        0
    } else {
        s[0] + seq_sum(s.drop_first())
    }
}

/// `s` is a partition of `n` into parts at most `max`, in nonincreasing order.
pub open spec fn is_partition(s: Seq<u64>, n: int, max: int) -> bool {
    &&& seq_sum(s) == n
    &&& forall|i: int| 0 <= i < s.len() ==> 1 <= #[trigger] s[i] <= max
    &&& forall|i: int, j: int| 0 <= i < j < s.len() ==> #[trigger] s[i] >= #[trigger] s[j]
}

/// Each listed sequence is a partition of `n` with parts at most `max`.
pub proof fn lemma_partitions_valid(n: nat, max: nat)
    requires
        n <= u64::MAX,
    ensures
        forall|i: int| 0 <= i < partitions_of(n, max).len() ==> is_partition(
            #[trigger] partitions_of(n, max)[i],
            n as int,
            max as int,
        ),
    decreases n, 1nat, 0nat,
{
    if n == 0 {
        assert(seq_sum(Seq::<u64>::empty()) == 0);
    } else {
        let top = if max < n { max } else { n };
        lemma_from_valid(n, top, 1);
        assert(partitions_of(n, max) == partitions_from(n, top, 1));
        assert forall|i: int| 0 <= i < partitions_of(n, max).len() implies is_partition(
            #[trigger] partitions_of(n, max)[i],
            n as int,
            max as int,
        ) by {
            let t = partitions_from(n, top, 1)[i];
            assert(is_partition(t, n as int, top as int));
            assert forall|k: int| 0 <= k < t.len() implies 1 <= #[trigger] t[k] <= max by {
                assert(t[k] <= top);
            }
        }
    }
}

proof fn lemma_from_valid(n: nat, top: nat, lo: nat)
    requires
        n >= 1,
        n <= u64::MAX,
    ensures
        forall|i: int| 0 <= i < partitions_from(n, top, lo).len() ==> is_partition(
            #[trigger] partitions_from(n, top, lo)[i],
            n as int,
            top as int,
        ),
    decreases n, 0nat, top + 1 - lo,
{
    if lo == 0 || lo > top || top > n {
    } else {
        lemma_from_valid(n, top, lo + 1);
        let rest = partitions_of((n - lo) as nat, lo);
        lemma_partitions_valid((n - lo) as nat, lo);
        let head = partitions_from(n, top, lo + 1);
        let tail = prefix_each(seq![lo as u64], rest);
        assert forall|i: int| 0 <= i < partitions_from(n, top, lo).len() implies is_partition(
            #[trigger] partitions_from(n, top, lo)[i],
            n as int,
            top as int,
        ) by {
            assert(partitions_from(n, top, lo) == head + tail);
            if i < head.len() {
                assert(partitions_from(n, top, lo)[i] == head[i]);
            } else {
                let t = rest[i - head.len()];
                let s2 = seq![lo as u64] + t;
                assert(tail[i - head.len()] == s2);
                assert(partitions_from(n, top, lo)[i] == s2);
                assert(s2.drop_first() =~= t);
                let k = i - head.len();
                assert(0 <= k < rest.len());
                assert(is_partition(partitions_of((n - lo) as nat, lo)[k], ((n - lo) as nat) as int, lo as int));
                assert(is_partition(t, n - lo, lo as int));
                assert(s2.len() > 0 && s2[0] == lo as u64);
                assert(seq_sum(s2) == s2[0] + seq_sum(s2.drop_first()));
                assert(seq_sum(s2) == lo + seq_sum(t));
                assert forall|a: int| 0 <= a < s2.len() implies 1 <= #[trigger] s2[a] <= top by {
                    if a > 0 {
                        assert(s2[a] == t[a - 1]);
                    }
                }
                assert forall|a: int, b: int| 0 <= a < b < s2.len() implies #[trigger] s2[a] >= #[trigger] s2[b] by {
                    if a > 0 {
                        assert(t[a - 1] >= t[b - 1]);
                    } else {
                        assert(t[b - 1] <= lo);
                    }
                }
            }
        }
    }
}

/// As many partitions are listed as `parts_upto` counts.
pub proof fn lemma_partitions_count(n: nat, max: nat)
    ensures
        partitions_of(n, max).len() == parts_upto(n as int, max as int),
    decreases n, 1nat, 0nat,
{
    if n > 0 {
        let top = if max < n { max } else { n };
        lemma_from_count(n, top, 1);
        if max >= n {
            lemma_parts_upto_saturates(n as int, max as int);
        }
        assert(parts_upto(n as int, 0) == 0);
    }
}

proof fn lemma_from_count(n: nat, top: nat, lo: nat)
    requires
        n >= 1,
        1 <= lo <= top + 1,
        top <= n,
    ensures
        partitions_from(n, top, lo).len() + parts_upto(n as int, lo - 1) == parts_upto(n as int, top as int),
    decreases n, 0nat, top + 1 - lo,
{
    if lo <= top {
        lemma_from_count(n, top, lo + 1);
        lemma_partitions_count((n - lo) as nat, lo);
    }
}

/// The listing and the count agree: `generate_partitions(n)` has `partition_count(n)` entries.
pub proof fn lemma_generate_matches_count(n: nat)
    ensures
        partitions_of(n, n).len() == parts_upto(n as int, n as int),
{
    lemma_partitions_count(n, n);
}

} // verus!
