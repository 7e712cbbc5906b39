//! The cycle metrics of a call graph do not depend on the order in which its
//! entries are listed: a call graph is a map from callers to callees.
use crate::cycles::{
    all_names, callee_names, calls_each_other, degree_square_sum, degree_sum, hub_count, hubs_among,
    in_degree, is_hub, lemma_dedup, lemma_occurrences_append, lemma_push_contains,
    mutual_pair_count, mutual_pairs_from, mutual_partners, node_seq, occurrences,
    self_call_count,
};
use vstd::prelude::*;

verus! {

/// `sum over k of f(s[k])`.
pub open spec fn sum_over<A>(s: Seq<A>, f: spec_fn(A) -> int) -> int
    decreases s.len(),
{
    if s.len() == 0 {
        0
    } else {
        sum_over(s.drop_last(), f) + f(s.last())
    }
}

proof fn lemma_sum_over_remove<A>(s: Seq<A>, f: spec_fn(A) -> int, i: int)
    requires
        0 <= i < s.len(),
    ensures
        sum_over(s, f) == sum_over(s.remove(i), f) + f(s[i]),
    decreases s.len(),
{
    if i == s.len() - 1 {
        assert(s.remove(i) =~= s.drop_last());
    } else {
        lemma_sum_over_remove(s.drop_last(), f, i);
        assert(s.remove(i).drop_last() =~= s.drop_last().remove(i));
        assert(s.remove(i).last() == s.last());
    }
}

/// Sums do not depend on the order of the summands.
proof fn lemma_sum_over_reorder<A>(s1: Seq<A>, s2: Seq<A>, f: spec_fn(A) -> int)
    requires
        s1.to_multiset() == s2.to_multiset(),
    ensures
        sum_over(s1, f) == sum_over(s2, f),
    decreases s1.len(),
{
    broadcast use vstd::seq_lib::group_to_multiset_ensures;
    broadcast use vstd::multiset::group_multiset_axioms;

    if s1.len() == 0 {
        assert(s2.to_multiset().len() == 0);
        assert(s2.len() == 0);
    } else {
        let x = s1.last();
        let rest = s1.drop_last();
        assert(s1 =~= rest.push(x));
        assert(s1.to_multiset().count(x) > 0);
        assert(s2.contains(x));
        let i = choose|i: int| 0 <= i < s2.len() && s2[i] == x;
        assert(s2.remove(i).to_multiset() =~= s2.to_multiset().remove(x));
        assert(rest.to_multiset() =~= s1.to_multiset().remove(x));
        lemma_sum_over_reorder(rest, s2.remove(i), f);
        lemma_sum_over_remove(s2, f, i);
    }
}


/// Number of callees of an entry.
pub open spec fn edge_term() -> spec_fn((Seq<char>, Seq<Seq<char>>)) -> int {
    |e: (Seq<char>, Seq<Seq<char>>)| e.1.len() as int
}

/// 1 when the entry's caller calls itself.
pub open spec fn self_term() -> spec_fn((Seq<char>, Seq<Seq<char>>)) -> int {
    |e: (Seq<char>, Seq<Seq<char>>)| if e.1.contains(e.0) { 1int } else { 0int }
}

/// Calls to `v` in the entry's callee list.
pub open spec fn calls_to_term(v: Seq<char>) -> spec_fn((Seq<char>, Seq<Seq<char>>)) -> int {
    |e: (Seq<char>, Seq<Seq<char>>)| occurrences(e.1, v) as int
}

/// 1 when the callers of `e` and `f` call each other.
pub open spec fn mutual_term(
    e: (Seq<char>, Seq<Seq<char>>),
) -> spec_fn((Seq<char>, Seq<Seq<char>>)) -> int {
    |f: (Seq<char>, Seq<Seq<char>>)| if e.1.contains(f.0) && f.1.contains(e.0) { 1int } else { 0int }
}

/// For each entry, the number of entries whose caller it calls and is called by.
pub open spec fn mutual_row_term(g: Seq<(Seq<char>, Seq<Seq<char>>)>) -> spec_fn(
    (Seq<char>, Seq<Seq<char>>),
) -> int {
    |e: (Seq<char>, Seq<Seq<char>>)| sum_over(g, mutual_term(e))
}

proof fn lemma_edges_as_sum(g: Seq<(Seq<char>, Seq<Seq<char>>)>)
    ensures
        callee_names(g).len() == sum_over(g, edge_term()),
    decreases g.len(),
{
    if g.len() > 0 {
        lemma_edges_as_sum(g.drop_last());
    }
}

proof fn lemma_self_calls_as_sum(g: Seq<(Seq<char>, Seq<Seq<char>>)>)
    ensures
        self_call_count(g) == sum_over(g, self_term()),
    decreases g.len(),
{
    if g.len() > 0 {
        lemma_self_calls_as_sum(g.drop_last());
    }
}

proof fn lemma_in_degree_as_sum(g: Seq<(Seq<char>, Seq<Seq<char>>)>, v: Seq<char>)
    ensures
        in_degree(g, v) == sum_over(g, calls_to_term(v)),
    decreases g.len(),
{
    if g.len() > 0 {
        lemma_in_degree_as_sum(g.drop_last(), v);
        lemma_occurrences_append(callee_names(g.drop_last()), g.last().1, v);
    }
}

proof fn lemma_all_names_contains(g: Seq<(Seq<char>, Seq<Seq<char>>)>, x: Seq<char>)
    ensures
        all_names(g).contains(x) <==> exists|i: int|
            0 <= i < g.len() && (g[i].0 == x || g[i].1.contains(x)),
    decreases g.len(),
{
    if g.len() > 0 {
        let rest = g.drop_last();
        let last = g.last();
        lemma_all_names_contains(rest, x);
        let front = all_names(rest).push(last.0);
        lemma_push_contains(all_names(rest), last.0, x);
        assert(all_names(g) == front + last.1);
        if (front + last.1).contains(x) {
            let t = choose|t: int| 0 <= t < (front + last.1).len() && (front + last.1)[t] == x;
            if t < front.len() {
                assert(front[t] == x);
            } else {
                assert(last.1[t - front.len()] == x);
            }
        }
        if front.contains(x) {
            let t = choose|t: int| 0 <= t < front.len() && front[t] == x;
            assert((front + last.1)[t] == x);
        }
        if last.1.contains(x) {
            let t = choose|t: int| 0 <= t < last.1.len() && last.1[t] == x;
            assert((front + last.1)[front.len() + t] == x);
        }
        if exists|i: int| 0 <= i < g.len() && (g[i].0 == x || g[i].1.contains(x)) {
            let i = choose|i: int| 0 <= i < g.len() && (g[i].0 == x || g[i].1.contains(x));
            if i < rest.len() {
                assert(rest[i] == g[i]);
            } else {
                assert(g[i] == last);
            }
        }
        if exists|i: int| 0 <= i < rest.len() && (rest[i].0 == x || rest[i].1.contains(x)) {
            let i = choose|i: int| 0 <= i < rest.len() && (rest[i].0 == x || rest[i].1.contains(x));
            assert(g[i] == rest[i]);
        }
    }
}


/// Number of `j < k` whose caller and that of `i` call each other.
spec fn row_mutual(g: Seq<(Seq<char>, Seq<Seq<char>>)>, i: int, k: int) -> nat
    decreases k,
{
    if k <= 0 {
        0
    } else {
        row_mutual(g, i, k - 1) + if calls_each_other(g, i, k - 1) {
            1nat
        } else {
            0nat
        }
    }
}

/// Number of `i < k` whose caller and that of `j` call each other.
spec fn col_mutual(g: Seq<(Seq<char>, Seq<Seq<char>>)>, j: int, k: int) -> nat
    decreases k,
{
    if k <= 0 {
        0
    } else {
        col_mutual(g, j, k - 1) + if calls_each_other(g, k - 1, j) {
            1nat
        } else {
            0nat
        }
    }
}

/// Number of `i < k` whose caller calls itself.
spec fn diag_mutual(g: Seq<(Seq<char>, Seq<Seq<char>>)>, k: int) -> nat
    decreases k,
{
    if k <= 0 {
        0
    } else {
        diag_mutual(g, k - 1) + if calls_each_other(g, k - 1, k - 1) {
            1nat
        } else {
            0nat
        }
    }
}

/// `sum over i < k of row_mutual(g, i, i)`: the pairs below the diagonal.
spec fn lower_sum(g: Seq<(Seq<char>, Seq<Seq<char>>)>, k: int) -> nat
    decreases k,
{
    if k <= 0 {
        0
    } else {
        lower_sum(g, k - 1) + row_mutual(g, k - 1, k - 1)
    }
}

/// `sum over i < r of mutual_partners(g, i, b)`.
spec fn pairs_upto(g: Seq<(Seq<char>, Seq<Seq<char>>)>, r: nat, b: nat) -> nat
    decreases r,
{
    if r == 0 {
        0
    } else {
        pairs_upto(g, (r - 1) as nat, b) + mutual_partners(g, (r - 1) as nat, b)
    }
}

/// `sum over i < k of row_mutual(g, i, g.len())`.
spec fn full_sum(g: Seq<(Seq<char>, Seq<Seq<char>>)>, k: int) -> nat
    decreases k,
{
    if k <= 0 {
        0
    } else {
        full_sum(g, k - 1) + row_mutual(g, k - 1, g.len() as int)
    }
}

proof fn lemma_col_is_row(g: Seq<(Seq<char>, Seq<Seq<char>>)>, j: int, k: int)
    ensures
        col_mutual(g, j, k) == row_mutual(g, j, k),
    decreases k,
{
    if k > 0 {
        lemma_col_is_row(g, j, k - 1);
    }
}

proof fn lemma_row_split(g: Seq<(Seq<char>, Seq<Seq<char>>)>, i: nat, k: nat)
    requires
        i < k,
    ensures
        row_mutual(g, i as int, k as int) == row_mutual(g, i as int, i as int) + (if calls_each_other(
            g,
            i as int,
            i as int,
        ) {
            1nat
        } else {
            0nat
        }) + mutual_partners(g, i, k),
    decreases k,
{
    if k > i + 1 {
        lemma_row_split(g, i, (k - 1) as nat);
    }
}

proof fn lemma_pairs_step(g: Seq<(Seq<char>, Seq<Seq<char>>)>, r: nat, b: nat)
    requires
        r <= b,
    ensures
        pairs_upto(g, r, b + 1) == pairs_upto(g, r, b) + col_mutual(g, b as int, r as int),
    decreases r,
{
    if r > 0 {
        lemma_pairs_step(g, (r - 1) as nat, b);
    }
}

proof fn lemma_lower_is_pairs(g: Seq<(Seq<char>, Seq<Seq<char>>)>, k: nat)
    ensures
        lower_sum(g, k as int) == pairs_upto(g, k, k),
    decreases k,
{
    if k > 0 {
        let j = (k - 1) as nat;
        lemma_lower_is_pairs(g, j);
        lemma_pairs_step(g, j, j);
        lemma_col_is_row(g, j as int, j as int);
    }
}

proof fn lemma_full_split(g: Seq<(Seq<char>, Seq<Seq<char>>)>, k: nat)
    requires
        k <= g.len(),
    ensures
        full_sum(g, k as int) == lower_sum(g, k as int) + diag_mutual(g, k as int) + pairs_upto(
            g,
            k,
            g.len(),
        ),
    decreases k,
{
    if k > 0 {
        lemma_full_split(g, (k - 1) as nat);
        lemma_row_split(g, (k - 1) as nat, g.len());
    }
}

proof fn lemma_pairs_is_mutual(g: Seq<(Seq<char>, Seq<Seq<char>>)>, k: nat)
    ensures
        pairs_upto(g, k, g.len()) == mutual_pairs_from(g, k),
    decreases k,
{
    if k > 0 {
        lemma_pairs_is_mutual(g, (k - 1) as nat);
    }
}

proof fn lemma_diag_is_self_calls(g: Seq<(Seq<char>, Seq<Seq<char>>)>, k: nat)
    requires
        k <= g.len(),
    ensures
        diag_mutual(g, k as int) == self_call_count(g.take(k as int)),
    decreases k,
{
    if k == 0 {
        assert(g.take(0) =~= Seq::<(Seq<char>, Seq<Seq<char>>)>::empty());
    } else {
        lemma_diag_is_self_calls(g, (k - 1) as nat);
        assert(g.take(k as int).drop_last() =~= g.take(k - 1));
        assert(g.take(k as int).last() == g[k - 1]);
    }
}

proof fn lemma_row_as_sum(g: Seq<(Seq<char>, Seq<Seq<char>>)>, i: int, k: int)
    requires
        0 <= i < g.len(),
        0 <= k <= g.len(),
    ensures
        row_mutual(g, i, k) == sum_over(g.take(k), mutual_term(g[i])),
    decreases k,
{
    if k == 0 {
        assert(g.take(0) =~= Seq::<(Seq<char>, Seq<Seq<char>>)>::empty());
    } else {
        lemma_row_as_sum(g, i, k - 1);
        assert(g.take(k).drop_last() =~= g.take(k - 1));
        assert(g.take(k).last() == g[k - 1]);
    }
}

proof fn lemma_full_as_sum(g: Seq<(Seq<char>, Seq<Seq<char>>)>, k: int)
    requires
        0 <= k <= g.len(),
    ensures
        full_sum(g, k) == sum_over(g.take(k), mutual_row_term(g)),
    decreases k,
{
    if k == 0 {
        assert(g.take(0) =~= Seq::<(Seq<char>, Seq<Seq<char>>)>::empty());
    } else {
        lemma_full_as_sum(g, k - 1);
        assert(g.take(k).drop_last() =~= g.take(k - 1));
        assert(g.take(k).last() == g[k - 1]);
        lemma_row_as_sum(g, k - 1, g.len() as int);
        assert(g.take(g.len() as int) =~= g);
    }
}

/// Counting every ordered pair of entries whose callers call each other, the
/// unordered pairs of distinct entries count twice and the self-calls once.
proof fn lemma_mutual_as_sum(g: Seq<(Seq<char>, Seq<Seq<char>>)>)
    ensures
        2 * mutual_pair_count(g) + self_call_count(g) == sum_over(g, mutual_row_term(g)),
{
    let n = g.len();
    lemma_full_split(g, n);
    lemma_lower_is_pairs(g, n);
    lemma_pairs_is_mutual(g, n);
    lemma_diag_is_self_calls(g, n);
    lemma_full_as_sum(g, n as int);
    assert(g.take(n as int) =~= g);
}


/// In-degree of a name.
pub open spec fn degree_term(g: Seq<(Seq<char>, Seq<Seq<char>>)>) -> spec_fn(Seq<char>) -> int {
    |v: Seq<char>| in_degree(g, v) as int
}

/// Squared in-degree of a name.
pub open spec fn square_term(g: Seq<(Seq<char>, Seq<Seq<char>>)>) -> spec_fn(Seq<char>) -> int {
    |v: Seq<char>| (in_degree(g, v) * in_degree(g, v)) as int
}

/// 1 when the name's in-degree is a hub value for `(n, s, q)`.
pub open spec fn hub_term(g: Seq<(Seq<char>, Seq<Seq<char>>)>, n: int, s: int, q: int) -> spec_fn(
    Seq<char>,
) -> int {
    |v: Seq<char>| if is_hub(n, s, q, in_degree(g, v) as int) { 1int } else { 0int }
}

proof fn lemma_name_sums(g: Seq<(Seq<char>, Seq<Seq<char>>)>, vs: Seq<Seq<char>>, n: int, s: int, q: int)
    ensures
        degree_sum(g, vs) == sum_over(vs, degree_term(g)),
        degree_square_sum(g, vs) == sum_over(vs, square_term(g)),
        hubs_among(g, vs, n, s, q) == sum_over(vs, hub_term(g, n, s, q)),
    decreases vs.len(),
{
    if vs.len() > 0 {
        lemma_name_sums(g, vs.drop_last(), n, s, q);
    }
}

/// Two duplicate-free sequences with the same elements hold them with the
/// same multiplicities.
proof fn lemma_same_elements_same_multiset(a: Seq<Seq<char>>, b: Seq<Seq<char>>)
    requires
        a.no_duplicates(),
        b.no_duplicates(),
        forall|x: Seq<char>| a.contains(x) <==> b.contains(x),
    ensures
        a.to_multiset() =~= b.to_multiset(),
{
    broadcast use vstd::seq_lib::group_to_multiset_ensures;

    a.lemma_multiset_has_no_duplicates();
    b.lemma_multiset_has_no_duplicates();
    assert forall|x: Seq<char>| a.to_multiset().count(x) == b.to_multiset().count(x) by {
        if a.contains(x) {
            assert(a.to_multiset().contains(x));
            assert(b.to_multiset().contains(x));
        } else {
            assert(!a.to_multiset().contains(x));
            assert(!b.to_multiset().contains(x));
        }
    }
}

/// The cycle metrics ignore the order of the call graph's entries: two lists
/// that hold the same (caller, callees) entries, in any order, have the same
/// nodes, edges, self-calls, mutual call pairs and hubs.
pub proof fn lemma_cycle_metrics_ignore_entry_order(
    g1: Seq<(Seq<char>, Seq<Seq<char>>)>,
    g2: Seq<(Seq<char>, Seq<Seq<char>>)>,
)
    requires
        g1.to_multiset() == g2.to_multiset(),
    ensures
        all_names(g1).to_set() == all_names(g2).to_set(),
        node_seq(g1).len() == node_seq(g2).len(),
        callee_names(g1).len() == callee_names(g2).len(),
        self_call_count(g1) == self_call_count(g2),
        mutual_pair_count(g1) == mutual_pair_count(g2),
        forall|v: Seq<char>| in_degree(g1, v) == in_degree(g2, v),
        hub_count(g1) == hub_count(g2),
{
    broadcast use vstd::seq_lib::group_to_multiset_ensures;

    // nodes
    assert forall|x: Seq<char>| #[trigger] all_names(g1).contains(x) <==> all_names(g2).contains(x) by {
        lemma_all_names_contains(g1, x);
        lemma_all_names_contains(g2, x);
        if exists|i: int| 0 <= i < g1.len() && (g1[i].0 == x || g1[i].1.contains(x)) {
            let i = choose|i: int| 0 <= i < g1.len() && (g1[i].0 == x || g1[i].1.contains(x));
            assert(g1.contains(g1[i]));
            assert(g1.to_multiset().count(g1[i]) > 0);
            assert(g2.to_multiset().count(g1[i]) > 0);
            assert(g2.contains(g1[i]));
            let j = choose|j: int| 0 <= j < g2.len() && g2[j] == g1[i];
            assert(g2[j].0 == x || g2[j].1.contains(x));
        }
        if exists|j: int| 0 <= j < g2.len() && (g2[j].0 == x || g2[j].1.contains(x)) {
            let j = choose|j: int| 0 <= j < g2.len() && (g2[j].0 == x || g2[j].1.contains(x));
            assert(g2.contains(g2[j]));
            assert(g2.to_multiset().count(g2[j]) > 0);
            assert(g1.to_multiset().count(g2[j]) > 0);
            assert(g1.contains(g2[j]));
            let i = choose|i: int| 0 <= i < g1.len() && g1[i] == g2[j];
            assert(g1[i].0 == x || g1[i].1.contains(x));
        }
    }
    assert(all_names(g1).to_set() =~= all_names(g2).to_set());
    let ns1 = node_seq(g1);
    let ns2 = node_seq(g2);
    lemma_dedup(all_names(g1));
    lemma_dedup(all_names(g2));
    assert forall|x: Seq<char>| ns1.contains(x) <==> ns2.contains(x) by {
        assert(all_names(g1).contains(x) <==> all_names(g2).contains(x));
    }
    lemma_same_elements_same_multiset(ns1, ns2);
    assert(ns1.len() == ns2.len()) by {
        assert(ns1.to_multiset().len() == ns2.to_multiset().len());
    }
    // edges and self-calls
    lemma_edges_as_sum(g1);
    lemma_edges_as_sum(g2);
    lemma_sum_over_reorder(g1, g2, edge_term());
    lemma_self_calls_as_sum(g1);
    lemma_self_calls_as_sum(g2);
    lemma_sum_over_reorder(g1, g2, self_term());
    // in-degrees
    assert forall|v: Seq<char>| in_degree(g1, v) == in_degree(g2, v) by {
        lemma_in_degree_as_sum(g1, v);
        lemma_in_degree_as_sum(g2, v);
        lemma_sum_over_reorder(g1, g2, calls_to_term(v));
    }
    // mutual pairs
    assert(mutual_row_term(g1) =~= mutual_row_term(g2)) by {
        assert forall|e: (Seq<char>, Seq<Seq<char>>)| #[trigger] mutual_row_term(g1)(e)
            == mutual_row_term(g2)(e) by {
            lemma_sum_over_reorder(g1, g2, mutual_term(e));
        }
    }
    lemma_mutual_as_sum(g1);
    lemma_mutual_as_sum(g2);
    lemma_sum_over_reorder(g1, g2, mutual_row_term(g2));
    // hubs
    assert(degree_term(g1) =~= degree_term(g2));
    assert(square_term(g1) =~= square_term(g2));
    let n = ns1.len() as int;
    lemma_name_sums(g1, ns1, 0, 0, 0);
    lemma_name_sums(g2, ns2, 0, 0, 0);
    lemma_sum_over_reorder(ns1, ns2, degree_term(g2));
    lemma_sum_over_reorder(ns1, ns2, square_term(g2));
    let s = degree_sum(g1, ns1) as int;
    let q = degree_square_sum(g1, ns1) as int;
    assert(degree_sum(g2, ns2) == s);
    assert(degree_square_sum(g2, ns2) == q);
    assert(hub_term(g1, n, s, q) =~= hub_term(g2, n, s, q));
    lemma_name_sums(g1, ns1, n, s, q);
    lemma_name_sums(g2, ns2, n, s, q);
    lemma_sum_over_reorder(ns1, ns2, hub_term(g2, n, s, q));
}

} // verus!
