//! The quadratic form `x^T L x` of the canonical Laplacians: it equals the sum
//! of `(x_i - x_j)^2` over the edges of the graph, so each of these Laplacians
//! is positive semidefinite.
use crate::laplacian::{
    complete_entry, cycle_entry, is_complete_laplacian, is_cycle_laplacian, is_path_laplacian,
    lemma_ring_neighbours, path_entry,
};
use vstd::prelude::*;

verus! {

/// `sum_{j < row.len()} row[j] * x[j]`.
pub open spec fn dot(row: Seq<i64>, x: Seq<int>) -> int
    decreases row.len(),
{
    if row.len() == 0 {
        0
    } else {
        dot(row.drop_last(), x) + row.last() * x[row.len() - 1]
    }
}

/// `sum_{i < k} x[i] * (m[i] . x)`: the first `k` rows' share of `x^T m x`.
pub open spec fn quadratic_prefix(m: Seq<Seq<i64>>, x: Seq<int>, k: int) -> int
    decreases k,
{
    if k <= 0 {
        0
    } else {
        quadratic_prefix(m, x, k - 1) + x[k - 1] * dot(m[k - 1], x)
    }
}

/// `x^T m x` for a square matrix `m` given by its rows.
pub open spec fn quadratic_form(m: Seq<Seq<i64>>, x: Seq<int>) -> int {
    quadratic_prefix(m, x, m.len() as int)
}

/// `sum_{i + 1 < k} (x[i + 1] - x[i])^2`: the path edges among the first `k`
/// vertices.
pub open spec fn path_energy(x: Seq<int>, k: int) -> int
    decreases k,
{
    if k <= 1 {
        0
    } else {
        path_energy(x, k - 1) + (x[k - 1] - x[k - 2]) * (x[k - 1] - x[k - 2])
    }
}

/// The path edges of `0 .. n` plus the closing edge `(n - 1, 0)` of the ring.
pub open spec fn cycle_energy(x: Seq<int>, n: int) -> int {
    path_energy(x, n) + (x[n - 1] - x[0]) * (x[n - 1] - x[0])
}

/// `sum_{i < k} (x[i] - x[j])^2`.
pub open spec fn energy_to(x: Seq<int>, j: int, k: int) -> int
    decreases k,
{
    if k <= 0 {
        0
    } else {
        energy_to(x, j, k - 1) + (x[k - 1] - x[j]) * (x[k - 1] - x[j])
    }
}

/// `sum_{i < j < k} (x[i] - x[j])^2`: every pair among the first `k` vertices.
pub open spec fn complete_energy(x: Seq<int>, k: int) -> int
    decreases k,
{
    if k <= 0 {
        0
    } else {
        complete_energy(x, k - 1) + energy_to(x, k - 1, k - 1)
    }
}

/// Row `i` of the path Laplacian on `n` vertices applied to `x`.
spec fn path_row(x: Seq<int>, n: int, i: int) -> int {
    (if i > 0 {
        x[i] - x[i - 1]
    } else {
        0
    }) + (if i + 1 < n {
        x[i] - x[i + 1]
    } else {
        0
    })
}

/// `sum_{i < k} x[i] * path_row(x, n, i)`.
spec fn path_row_prefix(x: Seq<int>, n: int, k: int) -> int
    decreases k,
{
    if k <= 0 {
        0
    } else {
        path_row_prefix(x, n, k - 1) + x[k - 1] * path_row(x, n, k - 1)
    }
}

proof fn lemma_square_nonneg(t: int)
    ensures
        t * t >= 0,
{
    assert(t * t >= 0) by (nonlinear_arith);
}

/// Products with the small constants that Laplacian entries take.
proof fn lemma_small_product(v: int, t: int)
    ensures
        v == 0 ==> v * t == 0,
        v == 1 ==> v * t == t,
        v == 2 ==> v * t == 2 * t,
        v == -1 ==> v * t == -t,
        t == 0 ==> v * t == 0,
{
    assert(v == 0 ==> v * t == 0) by (nonlinear_arith);
    assert(v == 1 ==> v * t == t) by (nonlinear_arith);
    assert(v == 2 ==> v * t == 2 * t) by (nonlinear_arith);
    assert(v == -1 ==> v * t == -t) by (nonlinear_arith);
    assert(t == 0 ==> v * t == 0) by (nonlinear_arith);
}

proof fn lemma_dot_take_step(row: Seq<i64>, x: Seq<int>, j: int)
    requires
        0 <= j < row.len(),
    ensures
        dot(row.take(j + 1), x) == dot(row.take(j), x) + row[j] * x[j],
{
    assert(row.take(j + 1).drop_last() =~= row.take(j));
}

proof fn lemma_path_dot_partial(m: Seq<Seq<i64>>, n: nat, x: Seq<int>, i: int, k: int)
    requires
        is_path_laplacian(m, n),
        x.len() == n,
        0 <= i < n,
        0 <= k <= n,
    ensures
        dot(m[i].take(k), x) == (if i > 0 && k > i {
            x[i]
        } else {
            0
        }) - (if i > 0 && k > i - 1 {
            x[i - 1]
        } else {
            0
        }) + (if i + 1 < n && k > i {
            x[i]
        } else {
            0
        }) - (if i + 1 < n && k > i + 1 {
            x[i + 1]
        } else {
            0
        }),
    decreases k,
{
    if k == 0 {
        assert(m[i].take(0) =~= Seq::<i64>::empty());
    } else {
        let j = k - 1;
        lemma_path_dot_partial(m, n, x, i, j);
        lemma_dot_take_step(m[i], x, j);
        assert(m[i][j] == path_entry(n as int, i, j));
        lemma_small_product(m[i][j] as int, x[j]);
    }
}

/// A full row of the path Laplacian applied to `x`.
proof fn lemma_path_dot(m: Seq<Seq<i64>>, n: nat, x: Seq<int>, i: int)
    requires
        is_path_laplacian(m, n),
        x.len() == n,
        0 <= i < n,
    ensures
        dot(m[i], x) == path_row(x, n as int, i),
{
    lemma_path_dot_partial(m, n, x, i, n as int);
    assert(m[i].take(n as int) =~= m[i]);
}

proof fn lemma_path_quadratic_prefix(m: Seq<Seq<i64>>, n: nat, x: Seq<int>, k: int)
    requires
        is_path_laplacian(m, n),
        x.len() == n,
        0 <= k <= n,
    ensures
        quadratic_prefix(m, x, k) == path_row_prefix(x, n as int, k),
    decreases k,
{
    if k > 0 {
        lemma_path_quadratic_prefix(m, n, x, k - 1);
        lemma_path_dot(m, n, x, k - 1);
    }
}

/// Summing `x[i] * path_row(i)` over the first `k` rows gives the energy of
/// the edges inside them plus the first half of the edge leaving them.
proof fn lemma_path_row_prefix_energy(x: Seq<int>, n: int, k: int)
    requires
        x.len() == n,
        0 <= k <= n,
    ensures
        path_row_prefix(x, n, k) == path_energy(x, k) + (if 1 <= k < n {
            x[k - 1] * x[k - 1] - x[k - 1] * x[k]
        } else {
            0
        }),
    decreases k,
{
    if k == 1 {
        assert(path_row_prefix(x, n, 0) == 0);
        assert(path_energy(x, 1) == 0);
        let b = x[0];
        let r = path_row(x, n, 0);
        if 1 < n {
            let c = x[1];
            assert(r == b - c);
            assert(b * r == b * b - b * c) by (nonlinear_arith)
                requires
                    r == b - c,
            ;
        } else {
            assert(r == 0);
            lemma_small_product(b, r);
        }
    } else if k >= 2 {
        lemma_path_row_prefix_energy(x, n, k - 1);
        let a = x[k - 2];
        let b = x[k - 1];
        let r = path_row(x, n, k - 1);
        let p = path_row_prefix(x, n, k - 1);
        let e = path_energy(x, k - 1);
        assert(p == e + a * a - a * b);
        if k < n {
            let c = x[k];
            assert(r == (b - a) + (b - c));
            assert(p + b * r == e + (b - a) * (b - a) + (b * b - b * c)) by (nonlinear_arith)
                requires
                    p == e + a * a - a * b,
                    r == (b - a) + (b - c),
            ;
        } else {
            assert(r == b - a);
            assert(p + b * r == e + (b - a) * (b - a)) by (nonlinear_arith)
                requires
                    p == e + a * a - a * b,
                    r == b - a,
            ;
        }
    }
}

proof fn lemma_path_energy_nonneg(x: Seq<int>, k: int)
    ensures
        path_energy(x, k) >= 0,
    decreases k,
{
    if k > 1 {
        lemma_path_energy_nonneg(x, k - 1);
        lemma_square_nonneg(x[k - 1] - x[k - 2]);
    }
}

/// The path Laplacian is positive semidefinite: for every integer vector `x`,
/// `x^T L x` is the sum of `(x[i + 1] - x[i])^2` over the path's edges.
pub proof fn lemma_path_laplacian_energy(m: Seq<Seq<i64>>, n: nat, x: Seq<int>)
    requires
        is_path_laplacian(m, n),
        x.len() == n,
    ensures
        quadratic_form(m, x) == path_energy(x, n as int),
        quadratic_form(m, x) >= 0,
{
    lemma_path_quadratic_prefix(m, n, x, n as int);
    lemma_path_row_prefix_energy(x, n as int, n as int);
    lemma_path_energy_nonneg(x, n as int);
}


proof fn lemma_cycle_dot_partial(m: Seq<Seq<i64>>, n: nat, x: Seq<int>, i: int, k: int)
    requires
        is_cycle_laplacian(m, n),
        n >= 3,
        x.len() == n,
        0 <= i < n,
        0 <= k <= n,
    ensures
        ({
            let next = if i + 1 == n { 0 } else { i + 1 };
            let prev = if i == 0 { n - 1 } else { i - 1 };
            dot(m[i].take(k), x) == (if k > i {
                2 * x[i]
            } else {
                0
            }) - (if k > next {
                x[next]
            } else {
                0
            }) - (if k > prev {
                x[prev]
            } else {
                0
            })
        }),
    decreases k,
{
    lemma_ring_neighbours(n as int, i);
    if k == 0 {
        assert(m[i].take(0) =~= Seq::<i64>::empty());
    } else {
        let j = k - 1;
        lemma_cycle_dot_partial(m, n, x, i, j);
        lemma_dot_take_step(m[i], x, j);
        assert(m[i][j] == cycle_entry(n as int, i, j));
        lemma_small_product(m[i][j] as int, x[j]);
    }
}

/// A full row of the cycle Laplacian is the path row plus the closing edge
/// `(n - 1, 0)`, seen from its two ends.
proof fn lemma_cycle_dot(m: Seq<Seq<i64>>, n: nat, x: Seq<int>, i: int)
    requires
        is_cycle_laplacian(m, n),
        n >= 3,
        x.len() == n,
        0 <= i < n,
    ensures
        dot(m[i], x) == path_row(x, n as int, i) + (if i == 0 {
            x[0] - x[n - 1]
        } else {
            0
        }) + (if i == n - 1 {
            x[n - 1] - x[0]
        } else {
            0
        }),
{
    lemma_cycle_dot_partial(m, n, x, i, n as int);
    assert(m[i].take(n as int) =~= m[i]);
}

proof fn lemma_cycle_quadratic_prefix(m: Seq<Seq<i64>>, n: nat, x: Seq<int>, k: int)
    requires
        is_cycle_laplacian(m, n),
        n >= 3,
        x.len() == n,
        0 <= k <= n,
    ensures
        quadratic_prefix(m, x, k) == path_row_prefix(x, n as int, k) + (if k >= 1 {
            x[0] * (x[0] - x[n - 1])
        } else {
            0
        }) + (if k >= n {
            x[n - 1] * (x[n - 1] - x[0])
        } else {
            0
        }),
    decreases k,
{
    if k > 0 {
        lemma_cycle_quadratic_prefix(m, n, x, k - 1);
        lemma_cycle_dot(m, n, x, k - 1);
        let b = x[k - 1];
        let d = dot(m[k - 1], x);
        let p = path_row(x, n as int, k - 1);
        let c = d - p;
        assert(b * d == b * p + b * c) by (nonlinear_arith)
            requires
                c == d - p,
        ;
        lemma_small_product(b, c);
    }
}

/// The cycle Laplacian on `n >= 3` vertices is positive semidefinite: for
/// every integer vector `x`, `x^T L x` is the sum of `(x[j] - x[i])^2` over the
/// ring's edges `(i, i + 1)` and `(n - 1, 0)`.
pub proof fn lemma_cycle_laplacian_energy(m: Seq<Seq<i64>>, n: nat, x: Seq<int>)
    requires
        is_cycle_laplacian(m, n),
        n >= 3,
        x.len() == n,
    ensures
        quadratic_form(m, x) == cycle_energy(x, n as int),
        quadratic_form(m, x) >= 0,
{
    lemma_cycle_quadratic_prefix(m, n, x, n as int);
    lemma_path_row_prefix_energy(x, n as int, n as int);
    lemma_path_energy_nonneg(x, n as int);
    let a = x[0];
    let z = x[n - 1];
    assert(a * (a - z) + z * (z - a) == (z - a) * (z - a)) by (nonlinear_arith);
    lemma_square_nonneg(z - a);
}


/// `sum_{i < k} x[i]`.
spec fn sum_x(x: Seq<int>, k: int) -> int
    decreases k,
{
    if k <= 0 {
        0
    } else {
        sum_x(x, k - 1) + x[k - 1]
    }
}

/// `sum_{i < k} x[i]^2`.
spec fn sum_sq(x: Seq<int>, k: int) -> int
    decreases k,
{
    if k <= 0 {
        0
    } else {
        sum_sq(x, k - 1) + x[k - 1] * x[k - 1]
    }
}

proof fn lemma_complete_dot_partial(m: Seq<Seq<i64>>, n: nat, x: Seq<int>, i: int, k: int)
    requires
        is_complete_laplacian(m, n),
        x.len() == n,
        0 <= i < n,
        0 <= k <= n,
    ensures
        dot(m[i].take(k), x) == (if k > i {
            n * x[i]
        } else {
            0
        }) - sum_x(x, k),
    decreases k,
{
    if k == 0 {
        assert(m[i].take(0) =~= Seq::<i64>::empty());
    } else {
        let j = k - 1;
        lemma_complete_dot_partial(m, n, x, i, j);
        lemma_dot_take_step(m[i], x, j);
        assert(m[i][j] == complete_entry(n as int, i, j));
        let v = m[i][j] as int;
        let t = x[j];
        if j == i {
            assert(v * t == n * t - t) by (nonlinear_arith)
                requires
                    v == n - 1,
            ;
        } else {
            lemma_small_product(v, t);
        }
    }
}

proof fn lemma_complete_quadratic_prefix(m: Seq<Seq<i64>>, n: nat, x: Seq<int>, k: int)
    requires
        is_complete_laplacian(m, n),
        x.len() == n,
        0 <= k <= n,
    ensures
        quadratic_prefix(m, x, k) == n * sum_sq(x, k) - sum_x(x, n as int) * sum_x(x, k),
    decreases k,
{
    if k > 0 {
        lemma_complete_quadratic_prefix(m, n, x, k - 1);
        lemma_complete_dot_partial(m, n, x, k - 1, n as int);
        assert(m[k - 1].take(n as int) =~= m[k - 1]);
        let b = x[k - 1];
        let d = dot(m[k - 1], x);
        let total = sum_x(x, n as int);
        let q0 = sum_sq(x, k - 1);
        let s0 = sum_x(x, k - 1);
        let p0 = quadratic_prefix(m, x, k - 1);
        let nn = n as int;
        assert(p0 + b * d == nn * (q0 + b * b) - total * (s0 + b)) by (nonlinear_arith)
            requires
                d == nn * b - total,
                p0 == nn * q0 - total * s0,
        ;
    }
}

proof fn lemma_energy_to(x: Seq<int>, j: int, k: int)
    requires
        k >= 0,
    ensures
        energy_to(x, j, k) == sum_sq(x, k) - 2 * x[j] * sum_x(x, k) + k * (x[j] * x[j]),
    decreases k,
{
    if k > 0 {
        lemma_energy_to(x, j, k - 1);
        let a = x[j];
        let b = x[k - 1];
        let e0 = energy_to(x, j, k - 1);
        let q0 = sum_sq(x, k - 1);
        let s0 = sum_x(x, k - 1);
        assert(e0 + (b - a) * (b - a) == (q0 + b * b) - 2 * a * (s0 + b) + k * (a * a))
            by (nonlinear_arith)
            requires
                e0 == q0 - 2 * a * s0 + (k - 1) * (a * a),
        ;
    } else {
        lemma_small_product(k, x[j] * x[j]);
    }
}

proof fn lemma_complete_energy(x: Seq<int>, k: int)
    requires
        k >= 0,
    ensures
        complete_energy(x, k) == k * sum_sq(x, k) - sum_x(x, k) * sum_x(x, k),
    decreases k,
{
    if k > 0 {
        lemma_complete_energy(x, k - 1);
        lemma_energy_to(x, k - 1, k - 1);
        let b = x[k - 1];
        let c0 = complete_energy(x, k - 1);
        let e = energy_to(x, k - 1, k - 1);
        let q0 = sum_sq(x, k - 1);
        let s0 = sum_x(x, k - 1);
        assert(c0 + e == k * (q0 + b * b) - (s0 + b) * (s0 + b)) by (nonlinear_arith)
            requires
                c0 == (k - 1) * q0 - s0 * s0,
                e == q0 - 2 * b * s0 + (k - 1) * (b * b),
        ;
    }
}

proof fn lemma_energy_to_nonneg(x: Seq<int>, j: int, k: int)
    ensures
        energy_to(x, j, k) >= 0,
    decreases k,
{
    if k > 0 {
        lemma_energy_to_nonneg(x, j, k - 1);
        lemma_square_nonneg(x[k - 1] - x[j]);
    }
}

proof fn lemma_complete_energy_nonneg(x: Seq<int>, k: int)
    ensures
        complete_energy(x, k) >= 0,
    decreases k,
{
    if k > 0 {
        lemma_complete_energy_nonneg(x, k - 1);
        lemma_energy_to_nonneg(x, k - 1, k - 1);
    }
}

/// The complete-graph Laplacian is positive semidefinite: for every integer
/// vector `x`, `x^T L x` is the sum of `(x[i] - x[j])^2` over all pairs
/// `i < j`.
pub proof fn lemma_complete_laplacian_energy(m: Seq<Seq<i64>>, n: nat, x: Seq<int>)
    requires
        is_complete_laplacian(m, n),
        x.len() == n,
    ensures
        quadratic_form(m, x) == complete_energy(x, n as int),
        quadratic_form(m, x) >= 0,
{
    lemma_complete_quadratic_prefix(m, n, x, n as int);
    lemma_complete_energy(x, n as int);
    lemma_complete_energy_nonneg(x, n as int);
}

} // verus!
