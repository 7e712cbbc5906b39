//! Laplacians `L = D - A` of the canonical graph families: cycles, paths and
//! complete graphs. Their entries are integers, so they are built exactly.
use vstd::arithmetic::div_mod::*;
use vstd::prelude::*;

verus! {

/// Sum of the entries of a row.
pub open spec fn seq_sum(s: Seq<i64>) -> int
    decreases s.len(),
{
    if s.len() == 0 {
        0
    } else {
        seq_sum(s.drop_last()) + s.last()
    }
}

/// Sum of the diagonal entries of a matrix given by its rows.
pub open spec fn trace(m: Seq<Seq<i64>>) -> int
    decreases m.len(),
{
    if m.len() == 0 {
        0
    } else {
        trace(m.drop_last()) + m.last()[m.len() - 1]
    }
}

/// `m` has `n` rows of `n` entries each.
pub open spec fn is_square(m: Seq<Seq<i64>>, n: nat) -> bool {
    &&& m.len() == n
    &&& forall|i: int| 0 <= i < n ==> #[trigger] m[i].len() == n
}

/// `m` equals its transpose.
pub open spec fn is_symmetric(m: Seq<Seq<i64>>) -> bool {
    forall|i: int, j: int|
        0 <= i < m.len() && 0 <= j < m.len() ==> #[trigger] m[i][j] == #[trigger] m[j][i]
}

/// Every row of `m` sums to zero: the constant vector lies in the kernel.
pub open spec fn rows_sum_to_zero(m: Seq<Seq<i64>>) -> bool {
    forall|i: int| 0 <= i < m.len() ==> seq_sum(#[trigger] m[i]) == 0
}

/// Entry `(i, j)` of the cycle Laplacian as it is built: the diagonal holds 2
/// and the two ring neighbours `(i + 1) % n` and `(i + n - 1) % n` hold -1,
/// the neighbours written last (so for `n == 1` the single entry is -1).
pub open spec fn cycle_entry(n: int, i: int, j: int) -> int {
    if j == (i + 1) % n || j == (i + n - 1) % n {
        -1
    } else if j == i {
        2
    } else {
        0
    }
}

/// Degree of vertex `i` in the path graph on `n` vertices.
pub open spec fn path_degree(n: int, i: int) -> int {
    (if i > 0 { 1int } else { 0int }) + (if i + 1 < n { 1int } else { 0int })
}

/// Entry `(i, j)` of the path Laplacian.
pub open spec fn path_entry(n: int, i: int, j: int) -> int {
    if i == j {
        path_degree(n, i)
    } else if i == j + 1 || j == i + 1 {
        -1
    } else {
        0
    }
}

/// Entry `(i, j)` of the complete-graph Laplacian.
pub open spec fn complete_entry(n: int, i: int, j: int) -> int {
    if i == j {
        n - 1
    } else {
        -1
    }
}

pub open spec fn is_cycle_laplacian(m: Seq<Seq<i64>>, n: nat) -> bool {
    &&& is_square(m, n)
    &&& forall|i: int, j: int|
        0 <= i < n && 0 <= j < n ==> #[trigger] m[i][j] == cycle_entry(n as int, i, j)
}

pub open spec fn is_path_laplacian(m: Seq<Seq<i64>>, n: nat) -> bool {
    &&& is_square(m, n)
    &&& forall|i: int, j: int|
        0 <= i < n && 0 <= j < n ==> #[trigger] m[i][j] == path_entry(n as int, i, j)
}

pub open spec fn is_complete_laplacian(m: Seq<Seq<i64>>, n: nat) -> bool {
    &&& is_square(m, n)
    &&& forall|i: int, j: int|
        0 <= i < n && 0 <= j < n ==> #[trigger] m[i][j] == complete_entry(n as int, i, j)
}

/// Build the Laplacian of the cycle graph C_n (n vertices in a ring).
pub fn cycle_laplacian(n: usize) -> (l: Vec<Vec<i64>>)
    ensures
        is_cycle_laplacian(l.deep_view(), n as nat),
{
    let mut l: Vec<Vec<i64>> = Vec::new();
    for i in 0..n
        invariant
            l.len() == i,
            i <= n,
            forall|a: int| 0 <= a < i ==> #[trigger] l@[a]@.len() == n,
            forall|a: int, b: int|
                0 <= a < i && 0 <= b < n ==> #[trigger] l@[a]@[b] == cycle_entry(
                    n as int,
                    a,
                    b,
                ),
    {
        let next: usize = if i + 1 == n { 0 } else { i + 1 };
        let prev: usize = if i == 0 { n - 1 } else { i - 1 };
        proof {
            let ni = n as int;
            let ii = i as int;
            if ii + 1 == ni {
                lemma_mod_self_0(ni);
            } else {
                lemma_small_mod((ii + 1) as nat, ni as nat);
            }
            if ii == 0 {
                lemma_small_mod((ni - 1) as nat, ni as nat);
            } else {
                lemma_mod_add_multiples_vanish(ii - 1, ni);
                lemma_small_mod((ii - 1) as nat, ni as nat);
            }
            assert(next == (ii + 1) % ni);
            assert(prev == (ii + ni - 1) % ni);
        }
        let mut row: Vec<i64> = Vec::new();
        for j in 0..n
            invariant
                row.len() == j,
                j <= n,
                i < n,
                next == (i + 1) % (n as int),
                prev == (i + n - 1) % (n as int),
                forall|b: int| 0 <= b < j ==> #[trigger] row@[b] == cycle_entry(n as int, i as int, b),
        {
            let v: i64 = if j == next || j == prev {
                -1
            } else if j == i {
                2
            } else {
                0
            };
            row.push(v);
        }
        l.push(row);
    }
    proof {
        assert(l.deep_view().len() == n);
        assert forall|a: int, b: int| 0 <= a < n && 0 <= b < n implies #[trigger] l.deep_view()[a][b]
            == cycle_entry(n as int, a, b) by {
            assert(l.deep_view()[a] == l@[a]@);
        }
        assert forall|a: int| 0 <= a < n implies #[trigger] l.deep_view()[a].len() == n by {
            assert(l.deep_view()[a] == l@[a]@);
        }
    }
    l
}

/// Build the Laplacian of the path graph P_n (n vertices in a line).
pub fn path_laplacian(n: usize) -> (l: Vec<Vec<i64>>)
    ensures
        is_path_laplacian(l.deep_view(), n as nat),
{
    let mut l: Vec<Vec<i64>> = Vec::new();
    for i in 0..n
        invariant
            l.len() == i,
            i <= n,
            forall|a: int| 0 <= a < i ==> #[trigger] l@[a]@.len() == n,
            forall|a: int, b: int|
                0 <= a < i && 0 <= b < n ==> #[trigger] l@[a]@[b] == path_entry(n as int, a, b),
    {
        let degree: i64 = (if i > 0 { 1i64 } else { 0i64 }) + (if i + 1 < n { 1i64 } else { 0i64 });
        let mut row: Vec<i64> = Vec::new();
        for j in 0..n
            invariant
                row.len() == j,
                j <= n,
                i < n,
                degree == path_degree(n as int, i as int),
                forall|b: int| 0 <= b < j ==> #[trigger] row@[b] == path_entry(n as int, i as int, b),
        {
            let v: i64 = if j == i {
                degree
            } else if i == j + 1 || j == i + 1 {
                -1
            } else {
                0
            };
            row.push(v);
        }
        l.push(row);
    }
    proof {
        assert forall|a: int, b: int| 0 <= a < n && 0 <= b < n implies #[trigger] l.deep_view()[a][b]
            == path_entry(n as int, a, b) by {
            assert(l.deep_view()[a] == l@[a]@);
        }
        assert forall|a: int| 0 <= a < n implies #[trigger] l.deep_view()[a].len() == n by {
            assert(l.deep_view()[a] == l@[a]@);
        }
    }
    l
}

/// Build the Laplacian of the complete graph K_n.
pub fn complete_laplacian(n: usize) -> (l: Vec<Vec<i64>>)
    requires
        // an n x n matrix with a larger n cannot be held in memory
        n <= i64::MAX,
    ensures
        is_complete_laplacian(l.deep_view(), n as nat),
{
    let mut l: Vec<Vec<i64>> = Vec::new();
    for i in 0..n
        invariant
            l.len() == i,
            i <= n,
            n <= i64::MAX,
            forall|a: int| 0 <= a < i ==> #[trigger] l@[a]@.len() == n,
            forall|a: int, b: int|
                0 <= a < i && 0 <= b < n ==> #[trigger] l@[a]@[b] == complete_entry(
                    n as int,
                    a,
                    b,
                ),
    {
        let degree: i64 = (n - 1) as i64;
        let mut row: Vec<i64> = Vec::new();
        for j in 0..n
            invariant
                row.len() == j,
                j <= n,
                i < n,
                degree == n - 1,
                forall|b: int|
                    0 <= b < j ==> #[trigger] row@[b] == complete_entry(n as int, i as int, b),
        {
            let v: i64 = if j == i {
                degree
            } else {
                -1
            };
            row.push(v);
        }
        l.push(row);
    }
    proof {
        assert forall|a: int, b: int| 0 <= a < n && 0 <= b < n implies #[trigger] l.deep_view()[a][b]
            == complete_entry(n as int, a, b) by {
            assert(l.deep_view()[a] == l@[a]@);
        }
        assert forall|a: int| 0 <= a < n implies #[trigger] l.deep_view()[a].len() == n by {
            assert(l.deep_view()[a] == l@[a]@);
        }
    }
    l
}


proof fn lemma_seq_sum_take_step(s: Seq<i64>, k: int)
    requires
        0 <= k < s.len(),
    ensures
        seq_sum(s.take(k + 1)) == seq_sum(s.take(k)) + s[k],
{
    assert(s.take(k + 1).drop_last() =~= s.take(k));
}

proof fn lemma_trace_take_step(m: Seq<Seq<i64>>, k: int)
    requires
        0 <= k < m.len(),
    ensures
        trace(m.take(k + 1)) == trace(m.take(k)) + m[k][k],
{
    assert(m.take(k + 1).drop_last() =~= m.take(k));
}

/// The two ring neighbours of `i` in a cycle of length `n`.
pub(crate) proof fn lemma_ring_neighbours(n: int, i: int)
    requires
        n >= 1,
        0 <= i < n,
    ensures
        (i + 1) % n == (if i + 1 == n { 0 } else { i + 1 }),
        (i + n - 1) % n == (if i == 0 { n - 1 } else { i - 1 }),
{
    if i + 1 == n {
        lemma_mod_self_0(n);
    } else {
        lemma_small_mod((i + 1) as nat, n as nat);
    }
    if i == 0 {
        lemma_small_mod((n - 1) as nat, n as nat);
    } else {
        lemma_mod_add_multiples_vanish(i - 1, n);
        lemma_small_mod((i - 1) as nat, n as nat);
    }
}

proof fn lemma_cycle_row_partial(m: Seq<Seq<i64>>, n: nat, i: int, k: int)
    requires
        is_cycle_laplacian(m, n),
        n >= 3,
        0 <= i < n,
        0 <= k <= n,
    ensures
        seq_sum(m[i].take(k)) == (if k > i { 2int } else { 0int }) - (if k > (i + 1) % (n as int) {
            1int
        } else {
            0int
        }) - (if k > (i + n - 1) % (n as int) { 1int } else { 0int }),
    decreases k,
{
    lemma_ring_neighbours(n as int, i);
    if k == 0 {
        assert(m[i].take(0) =~= Seq::<i64>::empty());
    } else {
        lemma_cycle_row_partial(m, n, i, k - 1);
        lemma_seq_sum_take_step(m[i], k - 1);
        assert(m[i][k - 1] == cycle_entry(n as int, i, k - 1));
    }
}

proof fn lemma_path_row_partial(m: Seq<Seq<i64>>, n: nat, i: int, k: int)
    requires
        is_path_laplacian(m, n),
        0 <= i < n,
        0 <= k <= n,
    ensures
        seq_sum(m[i].take(k)) == (if k > i { path_degree(n as int, i) } else { 0int }) - (if i > 0
            && k > i - 1 {
            1int
        } else {
            0int
        }) - (if i + 1 < n && k > i + 1 { 1int } else { 0int }),
    decreases k,
{
    if k == 0 {
        assert(m[i].take(0) =~= Seq::<i64>::empty());
    } else {
        lemma_path_row_partial(m, n, i, k - 1);
        lemma_seq_sum_take_step(m[i], k - 1);
        assert(m[i][k - 1] == path_entry(n as int, i, k - 1));
    }
}

proof fn lemma_complete_row_partial(m: Seq<Seq<i64>>, n: nat, i: int, k: int)
    requires
        is_complete_laplacian(m, n),
        0 <= i < n,
        0 <= k <= n,
    ensures
        seq_sum(m[i].take(k)) == (if k > i { n - 1 - (k - 1) } else { -k }),
    decreases k,
{
    if k == 0 {
        assert(m[i].take(0) =~= Seq::<i64>::empty());
    } else {
        lemma_complete_row_partial(m, n, i, k - 1);
        lemma_seq_sum_take_step(m[i], k - 1);
        assert(m[i][k - 1] == complete_entry(n as int, i, k - 1));
    }
}

proof fn lemma_cycle_trace_partial(m: Seq<Seq<i64>>, n: nat, k: int)
    requires
        is_cycle_laplacian(m, n),
        n >= 2,
        0 <= k <= n,
    ensures
        trace(m.take(k)) == 2 * k,
    decreases k,
{
    if k == 0 {
        assert(m.take(0) =~= Seq::<Seq<i64>>::empty());
    } else {
        lemma_cycle_trace_partial(m, n, k - 1);
        lemma_trace_take_step(m, k - 1);
        lemma_ring_neighbours(n as int, k - 1);
        assert(m[k - 1][k - 1] == cycle_entry(n as int, k - 1, k - 1));
    }
}

proof fn lemma_path_trace_partial(m: Seq<Seq<i64>>, n: nat, k: int)
    requires
        is_path_laplacian(m, n),
        0 <= k <= n,
    ensures
        trace(m.take(k)) == (if k > 0 { k - 1 } else { 0 }) + (if k < n { k } else if k > 0 { k - 1 } else { 0 }),
    decreases k,
{
    if k == 0 {
        assert(m.take(0) =~= Seq::<Seq<i64>>::empty());
    } else {
        lemma_path_trace_partial(m, n, k - 1);
        lemma_trace_take_step(m, k - 1);
        assert(m[k - 1][k - 1] == path_entry(n as int, k - 1, k - 1));
        assert(m[k - 1][k - 1] == path_degree(n as int, k - 1));
        if k < n {
            assert(path_degree(n as int, k - 1) == (if k > 1 { 1int } else { 0int }) + 1);
        } else {
            assert(path_degree(n as int, k - 1) == (if k > 1 { 1int } else { 0int }));
        }
    }
}

proof fn lemma_complete_trace_partial(m: Seq<Seq<i64>>, n: nat, k: int)
    requires
        is_complete_laplacian(m, n),
        0 <= k <= n,
    ensures
        trace(m.take(k)) == k * (n - 1),
    decreases k,
{
    if k == 0 {
        assert(m.take(0) =~= Seq::<Seq<i64>>::empty());
    } else {
        lemma_complete_trace_partial(m, n, k - 1);
        lemma_trace_take_step(m, k - 1);
        assert(m[k - 1][k - 1] == complete_entry(n as int, k - 1, k - 1));
        assert(k * (n - 1) == (k - 1) * (n - 1) + (n - 1)) by (nonlinear_arith);
    }
}

/// The cycle Laplacian is symmetric for every `n`. For `n >= 3` every row
/// sums to zero (the constant vector is in its kernel), and for `n >= 2` its
/// trace, the sum of the degrees, is `2n`.
pub proof fn lemma_cycle_laplacian_laws(m: Seq<Seq<i64>>, n: nat)
    requires
        is_cycle_laplacian(m, n),
    ensures
        is_symmetric(m),
        n >= 3 ==> rows_sum_to_zero(m),
        n >= 2 ==> trace(m) == 2 * n,
{
    assert forall|i: int, j: int| 0 <= i < m.len() && 0 <= j < m.len() implies #[trigger] m[i][j]
        == #[trigger] m[j][i] by {
        lemma_ring_neighbours(n as int, i);
        lemma_ring_neighbours(n as int, j);
    }
    if n >= 3 {
        assert forall|i: int| 0 <= i < m.len() implies seq_sum(#[trigger] m[i]) == 0 by {
            lemma_cycle_row_partial(m, n, i, n as int);
            lemma_ring_neighbours(n as int, i);
            assert(m[i].take(n as int) =~= m[i]);
        }
    }
    if n >= 2 {
        lemma_cycle_trace_partial(m, n, n as int);
        assert(m.take(n as int) =~= m);
    }
}

/// The path Laplacian is symmetric, its rows sum to zero, and for `n >= 1`
/// its trace is `2(n - 1)`, twice the number of edges.
pub proof fn lemma_path_laplacian_laws(m: Seq<Seq<i64>>, n: nat)
    requires
        is_path_laplacian(m, n),
    ensures
        is_symmetric(m),
        rows_sum_to_zero(m),
        n >= 1 ==> trace(m) == 2 * (n - 1),
{
    assert forall|i: int| 0 <= i < m.len() implies seq_sum(#[trigger] m[i]) == 0 by {
        lemma_path_row_partial(m, n, i, n as int);
        assert(m[i].take(n as int) =~= m[i]);
    }
    if n >= 1 {
        lemma_path_trace_partial(m, n, n as int);
        assert(m.take(n as int) =~= m);
    }
}

/// The complete-graph Laplacian is symmetric, its rows sum to zero, and its
/// trace is `n(n - 1)`, twice the number of edges.
pub proof fn lemma_complete_laplacian_laws(m: Seq<Seq<i64>>, n: nat)
    requires
        is_complete_laplacian(m, n),
    ensures
        is_symmetric(m),
        rows_sum_to_zero(m),
        trace(m) == n * (n - 1),
{
    assert forall|i: int| 0 <= i < m.len() implies seq_sum(#[trigger] m[i]) == 0 by {
        lemma_complete_row_partial(m, n, i, n as int);
        assert(m[i].take(n as int) =~= m[i]);
    }
    lemma_complete_trace_partial(m, n, n as int);
    assert(m.take(n as int) =~= m);
}

} // verus!
