//! The counting step of a sweep cut: for each prefix `S` of a vertex order,
//! the number of edges leaving `S`.
use vstd::prelude::*;

verus! {

/// Vertex `j` is among the first `k` vertices of `order`.
pub open spec fn in_prefix(order: Seq<usize>, k: int, j: int) -> bool {
    exists|t: int| 0 <= t < k && order[t] == j
}

/// Number of `j < m` with an edge `v -> j` and `j` outside the first `k`
/// vertices of `order`.
pub open spec fn leaving_edges(edges: Seq<Seq<bool>>, order: Seq<usize>, k: int, v: int, m: int) -> nat
    decreases m,
{
    if m <= 0 {
        0
    } else {
        leaving_edges(edges, order, k, v, m - 1) + if edges[v][m - 1] && !in_prefix(order, k, m - 1) {
            1nat
        } else {
            0nat
        }
    }
}

/// Edges from the first `t` vertices of `order` to vertices outside the first
/// `k` ones; `cut_size(edges, order, k, k)` is the size of the cut around the
/// prefix of length `k`.
pub open spec fn cut_size(edges: Seq<Seq<bool>>, order: Seq<usize>, k: int, t: int) -> nat
    decreases t,
{
    if t <= 0 {
        0
    } else {
        cut_size(edges, order, k, t - 1) + leaving_edges(
            edges,
            order,
            k,
            order[t - 1] as int,
            edges.len() as int,
        )
    }
}

/// The matrix is `n x n` and the order lists `n` vertices below `n`.
pub open spec fn sweep_input(edges: Seq<Seq<bool>>, order: Seq<usize>) -> bool {
    &&& forall|i: int| 0 <= i < edges.len() ==> #[trigger] edges[i].len() == edges.len()
    &&& order.len() == edges.len()
    &&& forall|t: int| 0 <= t < order.len() ==> #[trigger] order[t] < edges.len()
}

proof fn lemma_leaving_edges_bound(edges: Seq<Seq<bool>>, order: Seq<usize>, k: int, v: int, m: int)
    ensures
        leaving_edges(edges, order, k, v, m) <= if m < 0 { 0 } else { m },
    decreases m,
{
    if m > 0 {
        lemma_leaving_edges_bound(edges, order, k, v, m - 1);
    }
}

proof fn lemma_cut_size_bound(edges: Seq<Seq<bool>>, order: Seq<usize>, k: int, t: int)
    requires
        t >= 0,
    ensures
        cut_size(edges, order, k, t) <= t * edges.len(),
    decreases t,
{
    if t > 0 {
        lemma_cut_size_bound(edges, order, k, t - 1);
        lemma_leaving_edges_bound(edges, order, k, order[t - 1] as int, edges.len() as int);
        assert((t - 1) * edges.len() + edges.len() == t * edges.len()) by (nonlinear_arith);
    }
}

/// Whether `j` is among the first `k` entries of `order`.
fn prefix_contains(order: &Vec<usize>, k: usize, j: usize) -> (b: bool)
    requires
        k <= order.len(),
    ensures
        b == in_prefix(order@, k as int, j as int),
{
    let mut t: usize = 0;
    while t < k
        invariant
            k <= order.len(),
            t <= k,
            forall|u: int| 0 <= u < t ==> order@[u] != j,
        decreases k - t,
    {
        if order[t] == j {
            return true;
        }
        t += 1;
    }
    false
}

/// For each `k` in `0..n`, the number of edges leaving the set of the first
/// `k` vertices of `order`: pairs `(u, j)` with `u` among the first `k`
/// vertices (once per position), `j` outside them, and `edges[u][j]`.
pub fn sweep_cut_sizes(edges: &Vec<Vec<bool>>, order: &Vec<usize>) -> (cuts: Vec<usize>)
    requires
        sweep_input(edges.deep_view(), order@),
        // the n x n matrix holds n * n entries
        edges.len() * edges.len() <= usize::MAX,
    ensures
        cuts@.len() == edges.len(),
        forall|k: int| 0 <= k < edges.len() ==> #[trigger] cuts@[k] == cut_size(
            edges.deep_view(),
            order@,
            k,
            k,
        ),
{
    let ghost e = edges.deep_view();
    let n = edges.len();
    let mut cuts: Vec<usize> = Vec::new();
    let mut k: usize = 0;
    while k < n
        invariant
            e == edges.deep_view(),
            n == e.len(),
            sweep_input(e, order@),
            n * n <= usize::MAX,
            k <= n,
            cuts@.len() == k,
            forall|a: int| 0 <= a < k ==> #[trigger] cuts@[a] == cut_size(e, order@, a, a),
        decreases n - k,
    {
        let mut cut: usize = 0;
        let mut t: usize = 0;
        while t < k
            invariant
                e == edges.deep_view(),
                n == e.len(),
                sweep_input(e, order@),
                n * n <= usize::MAX,
                k < n,
                t <= k,
                cut == cut_size(e, order@, k as int, t as int),
            decreases k - t,
        {
            let v = order[t];
            let mut j: usize = 0;
            let mut leaving: usize = 0;
            proof {
                assert(e[v as int] == edges@[v as int]@);
            }
            while j < n
                invariant
                    e == edges.deep_view(),
                    n == e.len(),
                    sweep_input(e, order@),
                    k < n,
                    v < n,
                    e[v as int] == edges@[v as int]@,
                    j <= n,
                    leaving == leaving_edges(e, order@, k as int, v as int, j as int),
                    leaving <= j,
                decreases n - j,
            {
                if edges[v][j] && !prefix_contains(order, k, j) {
                    leaving = leaving + 1;
                }
                j += 1;
            }
            proof {
                lemma_cut_size_bound(e, order@, k as int, t + 1);
                assert((t + 1) * n <= n * n) by (nonlinear_arith)
                    requires
                        t + 1 <= n,
                ;
            }
            cut = cut + leaving;
            t += 1;
        }
        cuts.push(cut);
        k += 1;
    }
    cuts
}


/// Number of `j < m` with `row[j]`: the out-degree of a vertex, counted over
/// the first `m` columns.
pub open spec fn row_degree(row: Seq<bool>, m: int) -> nat
    decreases m,
{
    if m <= 0 {
        0
    } else {
        row_degree(row, m - 1) + if row[m - 1] {
            1nat
        } else {
            0nat
        }
    }
}

/// Number of `j < m` with `row[j]` and `j` listed in `inside`.
pub open spec fn inside_edges(row: Seq<bool>, inside: Seq<usize>, m: int) -> nat
    decreases m,
{
    if m <= 0 {
        0
    } else {
        inside_edges(row, inside, m - 1) + if row[m - 1] && inside.contains((m - 1) as usize) {
            1nat
        } else {
            0nat
        }
    }
}

/// Sum of the out-degrees of the first `t` vertices of `order`.
pub open spec fn prefix_volume(edges: Seq<Seq<bool>>, order: Seq<usize>, t: int) -> nat
    decreases t,
{
    if t <= 0 {
        0
    } else {
        prefix_volume(edges, order, t - 1) + row_degree(
            edges[order[t - 1] as int],
            edges.len() as int,
        )
    }
}

/// Edges from the first `t` vertices of `order` to vertices among the first
/// `k` ones.
pub open spec fn prefix_inner_edges(
    edges: Seq<Seq<bool>>,
    order: Seq<usize>,
    k: int,
    t: int,
) -> nat
    decreases t,
{
    if t <= 0 {
        0
    } else {
        prefix_inner_edges(edges, order, k, t - 1) + inside_edges(
            edges[order[t - 1] as int],
            order.take(k),
            edges.len() as int,
        )
    }
}

proof fn lemma_in_prefix_is_listed(order: Seq<usize>, k: int, j: int)
    requires
        0 <= k <= order.len(),
        0 <= j <= usize::MAX,
    ensures
        in_prefix(order, k, j) <==> order.take(k).contains(j as usize),
{
    if in_prefix(order, k, j) {
        let t = choose|t: int| 0 <= t < k && order[t] == j;
        assert(order.take(k)[t] == j as usize);
    }
    if order.take(k).contains(j as usize) {
        let t = choose|t: int| 0 <= t < order.take(k).len() && order.take(k)[t] == j as usize;
        assert(order[t] == j);
    }
}

proof fn lemma_row_split(edges: Seq<Seq<bool>>, order: Seq<usize>, k: int, v: int, m: int)
    requires
        0 <= k <= order.len(),
        0 <= m <= usize::MAX + 1,
    ensures
        leaving_edges(edges, order, k, v, m) + inside_edges(edges[v], order.take(k), m)
            == row_degree(edges[v], m),
    decreases m,
{
    if m > 0 {
        lemma_row_split(edges, order, k, v, m - 1);
        lemma_in_prefix_is_listed(order, k, m - 1);
    }
}

proof fn lemma_prefix_split(edges: Seq<Seq<bool>>, order: Seq<usize>, k: int, t: int)
    requires
        sweep_input(edges, order),
        edges.len() <= usize::MAX,
        0 <= k <= order.len(),
        0 <= t <= order.len(),
    ensures
        cut_size(edges, order, k, t) + prefix_inner_edges(edges, order, k, t) == prefix_volume(
            edges,
            order,
            t,
        ),
    decreases t,
{
    if t > 0 {
        lemma_prefix_split(edges, order, k, t - 1);
        lemma_row_split(edges, order, k, order[t - 1] as int, edges.len() as int);
    }
}

/// The cut around a prefix of the order is the volume of the prefix (the sum
/// of its vertices' out-degrees) less the edges that stay inside it: every
/// edge out of a prefix vertex either ends among the first `k` vertices of
/// `order` or crosses the cut, and never both.
pub proof fn lemma_cut_is_volume_less_inner_edges(
    edges: Seq<Seq<bool>>,
    order: Seq<usize>,
    k: int,
)
    requires
        sweep_input(edges, order),
        edges.len() <= usize::MAX,
        0 <= k <= order.len(),
    ensures
        cut_size(edges, order, k, k) == prefix_volume(edges, order, k) - prefix_inner_edges(
            edges,
            order,
            k,
            k,
        ),
{
    lemma_prefix_split(edges, order, k, k);
}

/// `edges` is the adjacency matrix of the path `0 - 1 - ... - (n - 1)`.
pub open spec fn is_path_adjacency(edges: Seq<Seq<bool>>, n: nat) -> bool {
    &&& edges.len() == n
    &&& forall|i: int| 0 <= i < n ==> #[trigger] edges[i].len() == n
    &&& forall|i: int, j: int|
        0 <= i < n && 0 <= j < n ==> (#[trigger] edges[i][j] <==> (i == j + 1 || j == i + 1))
}

proof fn lemma_path_leaving(edges: Seq<Seq<bool>>, order: Seq<usize>, n: nat, k: int, v: int, m: int)
    requires
        is_path_adjacency(edges, n),
        order.len() == n,
        forall|t: int| 0 <= t < n ==> #[trigger] order[t] == t,
        0 <= v < k < n,
        0 <= m <= n,
    ensures
        leaving_edges(edges, order, k, v, m) == if v == k - 1 && m > k {
            1nat
        } else {
            0nat
        },
    decreases m,
{
    if m > 0 {
        let j = m - 1;
        lemma_path_leaving(edges, order, n, k, v, j);
        if j < k {
            assert(order[j] == j);
            assert(in_prefix(order, k, j));
        } else {
            assert(!in_prefix(order, k, j));
        }
        assert(edges[v][j] <==> (v == j + 1 || j == v + 1));
    }
}

proof fn lemma_path_cut_partial(edges: Seq<Seq<bool>>, order: Seq<usize>, n: nat, k: int, t: int)
    requires
        is_path_adjacency(edges, n),
        order.len() == n,
        forall|s: int| 0 <= s < n ==> #[trigger] order[s] == s,
        0 < k < n,
        0 <= t <= k,
    ensures
        cut_size(edges, order, k, t) == if t == k {
            1nat
        } else {
            0nat
        },
    decreases t,
{
    if t > 0 {
        lemma_path_cut_partial(edges, order, n, k, t - 1);
        assert(order[t - 1] == t - 1);
        lemma_path_leaving(edges, order, n, k, t - 1, n as int);
    }
}

/// Sweeping the path `0 - 1 - ... - (n - 1)` in its own order, the empty
/// prefix has no leaving edge and every proper prefix `0 .. k` is left by the
/// single edge `(k - 1, k)`.
pub proof fn lemma_path_sweep_cuts(edges: Seq<Seq<bool>>, order: Seq<usize>, n: nat)
    requires
        is_path_adjacency(edges, n),
        order.len() == n,
        forall|t: int| 0 <= t < n ==> #[trigger] order[t] == t,
    ensures
        cut_size(edges, order, 0, 0) == 0,
        forall|k: int| 0 < k < n ==> #[trigger] cut_size(edges, order, k, k) == 1,
{
    assert forall|k: int| 0 < k < n implies #[trigger] cut_size(edges, order, k, k) == 1 by {
        lemma_path_cut_partial(edges, order, n, k, k);
    }
}

} // verus!
