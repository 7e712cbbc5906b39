//! Cycle-based structural metrics of call graphs: self-calls, mutual call
//! pairs, hub functions and densities.
use crate::ratio::Ratio;
use crate::wide::{mul_wide, wide_lt, wide_sub};
use vstd::prelude::*;

verus! {

/// Every caller occurs in at most one entry, as in a map from callers to callees.
pub open spec fn distinct_callers(g: Seq<(Seq<char>, Seq<Seq<char>>)>) -> bool {
    forall|i: int, j: int| 0 <= i < j < g.len() ==> g[i].0 != g[j].0
}

/// All callee occurrences, entry after entry (each call edge once).
pub open spec fn callee_names(g: Seq<(Seq<char>, Seq<Seq<char>>)>) -> Seq<Seq<char>>
    decreases g.len(),
{
    if g.len() == 0 {
        Seq::empty()
    } else {
        callee_names(g.drop_last()) + g.last().1
    }
}

/// Every name the graph mentions, as a caller or as a callee.
pub open spec fn all_names(g: Seq<(Seq<char>, Seq<Seq<char>>)>) -> Seq<Seq<char>>
    decreases g.len(),
{
    if g.len() == 0 {
        Seq::empty()
    } else {
        all_names(g.drop_last()).push(g.last().0) + g.last().1
    }
}

/// Number of entries whose caller calls itself.
pub open spec fn self_call_count(g: Seq<(Seq<char>, Seq<Seq<char>>)>) -> nat
    decreases g.len(),
{
    if g.len() == 0 {
        0
    } else {
        self_call_count(g.drop_last()) + if g.last().1.contains(g.last().0) {
            1nat
        } else {
            0nat
        }
    }
}

/// The callers of entries `i` and `j` call each other.
pub open spec fn calls_each_other(g: Seq<(Seq<char>, Seq<Seq<char>>)>, i: int, j: int) -> bool {
    g[i].1.contains(g[j].0) && g[j].1.contains(g[i].0)
}

/// Number of `j` with `i < j < k` whose caller and that of `i` call each other.
pub open spec fn mutual_partners(g: Seq<(Seq<char>, Seq<Seq<char>>)>, i: nat, k: nat) -> nat
    decreases k,
{
    if k <= i + 1 {
        0
    } else {
        mutual_partners(g, i, (k - 1) as nat) + if calls_each_other(g, i as int, k - 1) {
            1nat
        } else {
            0nat
        }
    }
}

/// Number of pairs `i < j < g.len()` with `i < k` whose callers call each other.
pub open spec fn mutual_pairs_from(g: Seq<(Seq<char>, Seq<Seq<char>>)>, k: nat) -> nat
    decreases k,
{
    if k == 0 {
        0
    } else {
        mutual_pairs_from(g, (k - 1) as nat) + mutual_partners(g, (k - 1) as nat, g.len())
    }
}

/// Number of unordered pairs of distinct callers that call each other.
pub open spec fn mutual_pair_count(g: Seq<(Seq<char>, Seq<Seq<char>>)>) -> nat {
    mutual_pairs_from(g, g.len())
}

proof fn lemma_take_step<A>(s: Seq<A>, i: int)
    requires
        0 <= i < s.len(),
    ensures
        s.take(i + 1).drop_last() =~= s.take(i),
        s.take(i + 1).last() == s[i],
        s.take(i + 1).len() == i + 1,
{
}

proof fn lemma_callee_names_prefix_len(g: Seq<(Seq<char>, Seq<Seq<char>>)>, i: int, j: int)
    requires
        0 <= i <= j <= g.len(),
    ensures
        callee_names(g.take(i)).len() <= callee_names(g.take(j)).len(),
    decreases j - i,
{
    if i < j {
        lemma_callee_names_prefix_len(g, i, j - 1);
        lemma_take_step(g, j - 1);
    }
}

/// `name` occurs in `list`.
fn list_contains(list: &Vec<String>, name: &String) -> (b: bool)
    ensures
        b == list.deep_view().contains(name@),
{
    let mut k: usize = 0;
    while k < list.len()
        invariant
            k <= list.len(),
            forall|t: int| 0 <= t < k ==> list.deep_view()[t] != name@,
        decreases list.len() - k,
    {
        assert(list.deep_view()[k as int] == list@[k as int]@);
        if list[k] == *name {
            assert(list.deep_view()[k as int] == name@);
            return true;
        }
        k += 1;
    }
    proof {
        if list.deep_view().contains(name@) {
            let t = choose|t: int| 0 <= t < list.deep_view().len() && list.deep_view()[t] == name@;
            assert(list.deep_view()[t] == name@);
        }
    }
    false
}

/// Total number of call edges: the sum of the lengths of the callee lists.
fn count_edges(adjacency: &Vec<(String, Vec<String>)>) -> (total: usize)
    requires
        callee_names(adjacency.deep_view()).len() <= usize::MAX,
    ensures
        total == callee_names(adjacency.deep_view()).len(),
{
    let ghost g = adjacency.deep_view();
    let mut total: usize = 0;
    let mut i: usize = 0;
    while i < adjacency.len()
        invariant
            g == adjacency.deep_view(),
            i <= adjacency.len(),
            callee_names(g).len() <= usize::MAX,
            total == callee_names(g.take(i as int)).len(),
        decreases adjacency.len() - i,
    {
        proof {
            lemma_take_step(g, i as int);
            lemma_callee_names_prefix_len(g, i + 1, g.len() as int);
            assert(g.take(g.len() as int) =~= g);
            assert(g[i as int].1 == adjacency@[i as int].1.deep_view());
        }
        total = total + adjacency[i].1.len();
        i += 1;
    }
    proof {
        assert(g.take(g.len() as int) =~= g);
    }
    total
}

/// Number of callers that appear in their own callee list.
fn count_self_calls(adjacency: &Vec<(String, Vec<String>)>) -> (count: usize)
    ensures
        count == self_call_count(adjacency.deep_view()),
{
    let ghost g = adjacency.deep_view();
    let mut count: usize = 0;
    let mut i: usize = 0;
    while i < adjacency.len()
        invariant
            g == adjacency.deep_view(),
            i <= adjacency.len(),
            count == self_call_count(g.take(i as int)),
            count <= i,
        decreases adjacency.len() - i,
    {
        proof {
            lemma_take_step(g, i as int);
            assert(g[i as int].1 == adjacency@[i as int].1.deep_view());
            assert(g[i as int].0 == adjacency@[i as int].0@);
        }
        if list_contains(&adjacency[i].1, &adjacency[i].0) {
            count = count + 1;
        }
        i += 1;
    }
    proof {
        assert(g.take(g.len() as int) =~= g);
    }
    count
}

/// Number of unordered pairs of distinct callers that call each other.
fn count_mutual_pairs(adjacency: &Vec<(String, Vec<String>)>) -> (count: usize)
    requires
        distinct_callers(adjacency.deep_view()),
        callee_names(adjacency.deep_view()).len() <= usize::MAX,
    ensures
        count == mutual_pair_count(adjacency.deep_view()),
{
    let ghost g = adjacency.deep_view();
    let n = adjacency.len();
    let mut count: usize = 0;
    let mut i: usize = 0;
    while i < n
        invariant
            g == adjacency.deep_view(),
            distinct_callers(g),
            callee_names(g).len() <= usize::MAX,
            n == g.len(),
            i <= n,
            count == mutual_pairs_from(g, i as nat),
        decreases n - i,
    {
        let mut j: usize = i + 1;
        let mut partners: usize = 0;
        while j < n
            invariant
                g == adjacency.deep_view(),
                n == g.len(),
                i < n,
                i + 1 <= j <= n,
                partners == mutual_partners(g, i as nat, j as nat),
                partners <= j,
            decreases n - j,
        {
            proof {
                assert(g[i as int].1 == adjacency@[i as int].1.deep_view());
                assert(g[i as int].0 == adjacency@[i as int].0@);
                assert(g[j as int].1 == adjacency@[j as int].1.deep_view());
                assert(g[j as int].0 == adjacency@[j as int].0@);
            }
            if list_contains(&adjacency[i].1, &adjacency[j].0) && list_contains(
                &adjacency[j].1,
                &adjacency[i].0,
            ) {
                partners = partners + 1;
            }
            j += 1;
        }
        proof {
            lemma_mutual_pairs_bound(g, (i + 1) as nat);
            lemma_callee_names_prefix_len(g, i + 1, g.len() as int);
            assert(g.take(g.len() as int) =~= g);
        }
        count = count + partners;
        i += 1;
    }
    count
}

/// The sequence with every repeated element after its first occurrence removed.
pub open spec fn dedup(s: Seq<Seq<char>>) -> Seq<Seq<char>>
    decreases s.len(),
{
    if s.len() == 0 {
        s
    } else {
        let d = dedup(s.drop_last());
        if d.contains(s.last()) {
            d
        } else {
            d.push(s.last())
        }
    }
}

/// The distinct names of the graph in order of first mention.
pub open spec fn node_seq(g: Seq<(Seq<char>, Seq<Seq<char>>)>) -> Seq<Seq<char>> {
    dedup(all_names(g))
}

/// Number of occurrences of `v` in `s`.
pub open spec fn occurrences(s: Seq<Seq<char>>, v: Seq<char>) -> nat
    decreases s.len(),
{
    if s.len() == 0 {
        0
    } else {
        occurrences(s.drop_last(), v) + if s.last() == v {
            1nat
        } else {
            0nat
        }
    }
}

/// Number of calls to `v`, counting every occurrence in every callee list.
pub open spec fn in_degree(g: Seq<(Seq<char>, Seq<Seq<char>>)>, v: Seq<char>) -> nat {
    occurrences(callee_names(g), v)
}

pub(crate) proof fn lemma_push_contains(q: Seq<Seq<char>>, y: Seq<char>, x: Seq<char>)
    ensures
        q.push(y).contains(x) <==> (q.contains(x) || x == y),
{
    if q.contains(x) {
        let t = choose|t: int| 0 <= t < q.len() && q[t] == x;
        assert(q.push(y)[t] == x);
    }
    if x == y {
        assert(q.push(y)[q.len() as int] == x);
    }
    if q.push(y).contains(x) && x != y {
        let t = choose|t: int| 0 <= t < q.push(y).len() && q.push(y)[t] == x;
        assert(q[t] == x);
    }
}

pub(crate) proof fn lemma_dedup(s: Seq<Seq<char>>)
    ensures
        dedup(s).no_duplicates(),
        forall|x: Seq<char>| dedup(s).contains(x) <==> s.contains(x),
        dedup(s).len() <= s.len(),
    decreases s.len(),
{
    if s.len() > 0 {
        let s1 = s.drop_last();
        let l = s.last();
        lemma_dedup(s1);
        let d = dedup(s1);
        assert(s =~= s1.push(l));
        assert forall|x: Seq<char>| dedup(s).contains(x) <==> s.contains(x) by {
            lemma_push_contains(s1, l, x);
            lemma_push_contains(d, l, x);
        }
        if !d.contains(l) {
            assert forall|a: int, b: int|
                0 <= a < dedup(s).len() && 0 <= b < dedup(s).len() && a != b implies dedup(s)[a]
                != dedup(s)[b] by {
                if a == d.len() {
                    assert(d[b] == dedup(s)[b]);
                } else if b == d.len() {
                    assert(d[a] == dedup(s)[a]);
                }
            }
        }
    }
}

pub(crate) proof fn lemma_occurrences_append(a: Seq<Seq<char>>, b: Seq<Seq<char>>, v: Seq<char>)
    ensures
        occurrences(a + b, v) == occurrences(a, v) + occurrences(b, v),
    decreases b.len(),
{
    if b.len() == 0 {
        assert(a + b =~= a);
    } else {
        lemma_occurrences_append(a, b.drop_last(), v);
        assert((a + b).drop_last() =~= a + b.drop_last());
    }
}

proof fn lemma_occurrences_le_len(s: Seq<Seq<char>>, v: Seq<char>)
    ensures
        occurrences(s, v) <= s.len(),
    decreases s.len(),
{
    if s.len() > 0 {
        lemma_occurrences_le_len(s.drop_last(), v);
    }
}

/// `(a + b).take(j + 1) == (a + b.take(j)).push(b[j])`, in the form the loops use.
proof fn lemma_concat_take_step(a: Seq<Seq<char>>, b: Seq<Seq<char>>, j: int)
    requires
        0 <= j < b.len(),
    ensures
        a + b.take(j + 1) =~= (a + b.take(j)).push(b[j]),
        (a + b.take(j + 1)).drop_last() =~= a + b.take(j),
{
}

proof fn lemma_all_names_step(g: Seq<(Seq<char>, Seq<Seq<char>>)>, i: int)
    requires
        0 <= i < g.len(),
    ensures
        all_names(g.take(i + 1)) == all_names(g.take(i)).push(g[i].0) + g[i].1,
        callee_names(g.take(i + 1)) == callee_names(g.take(i)) + g[i].1,
{
    lemma_take_step(g, i);
}

/// `v` occurs in `list`, counted.
fn count_in_list(list: &Vec<String>, name: &String) -> (count: usize)
    ensures
        count == occurrences(list.deep_view(), name@),
{
    let ghost s = list.deep_view();
    let mut count: usize = 0;
    let mut k: usize = 0;
    while k < list.len()
        invariant
            s == list.deep_view(),
            k <= list.len(),
            count == occurrences(s.take(k as int), name@),
            count <= k,
        decreases list.len() - k,
    {
        proof {
            assert(s.take(k + 1).drop_last() =~= s.take(k as int));
            assert(s[k as int] == list@[k as int]@);
        }
        if list[k] == *name {
            count = count + 1;
        }
        k += 1;
    }
    proof {
        assert(s.take(s.len() as int) =~= s);
    }
    count
}

/// The distinct names of the graph, in order of first mention.
fn collect_nodes(adjacency: &Vec<(String, Vec<String>)>) -> (nodes: Vec<String>)
    ensures
        nodes.deep_view() == node_seq(adjacency.deep_view()),
{
    let ghost g = adjacency.deep_view();
    let mut nodes: Vec<String> = Vec::new();
    let mut i: usize = 0;
    proof {
        assert(g.take(0) =~= Seq::<(Seq<char>, Seq<Seq<char>>)>::empty());
        assert(nodes.deep_view() =~= dedup(all_names(g.take(0))));
    }
    while i < adjacency.len()
        invariant
            g == adjacency.deep_view(),
            i <= adjacency.len(),
            nodes.deep_view() == dedup(all_names(g.take(i as int))),
        decreases adjacency.len() - i,
    {
        proof {
            lemma_all_names_step(g, i as int);
            assert(g[i as int].1 == adjacency@[i as int].1.deep_view());
            assert(g[i as int].0 == adjacency@[i as int].0@);
        }
        let ghost prefix = all_names(g.take(i as int)).push(g[i as int].0);
        let caller = &adjacency[i].0;
        if !list_contains(&nodes, caller) {
            nodes.push(caller.clone());
        }
        proof {
            assert(prefix.drop_last() =~= all_names(g.take(i as int)));
            assert(nodes.deep_view() =~= dedup(prefix));
        }
        let callees = &adjacency[i].1;
        let mut j: usize = 0;
        proof {
            assert(prefix + g[i as int].1.take(0) =~= prefix);
        }
        while j < callees.len()
            invariant
                g == adjacency.deep_view(),
                i < adjacency.len(),
                callees.deep_view() == g[i as int].1,
                j <= callees.len(),
                nodes.deep_view() == dedup(prefix + g[i as int].1.take(j as int)),
            decreases callees.len() - j,
        {
            proof {
                lemma_concat_take_step(prefix, g[i as int].1, j as int);
                assert(g[i as int].1[j as int] == callees@[j as int]@);
            }
            if !list_contains(&nodes, &callees[j]) {
                nodes.push(callees[j].clone());
            }
            proof {
                assert(nodes.deep_view() =~= dedup(prefix + g[i as int].1.take(j + 1)));
            }
            j += 1;
        }
        proof {
            assert(g[i as int].1.take(j as int) =~= g[i as int].1);
        }
        i += 1;
    }
    proof {
        assert(g.take(g.len() as int) =~= g);
    }
    nodes
}

/// In-degree of `name`: its occurrences over all callee lists.
fn count_calls_to(adjacency: &Vec<(String, Vec<String>)>, name: &String) -> (count: usize)
    requires
        callee_names(adjacency.deep_view()).len() <= usize::MAX,
    ensures
        count == in_degree(adjacency.deep_view(), name@),
        count <= callee_names(adjacency.deep_view()).len(),
{
    let ghost g = adjacency.deep_view();
    let mut count: usize = 0;
    let mut i: usize = 0;
    proof {
        assert(g.take(0) =~= Seq::<(Seq<char>, Seq<Seq<char>>)>::empty());
    }
    while i < adjacency.len()
        invariant
            g == adjacency.deep_view(),
            i <= adjacency.len(),
            callee_names(g).len() <= usize::MAX,
            count == occurrences(callee_names(g.take(i as int)), name@),
        decreases adjacency.len() - i,
    {
        proof {
            lemma_all_names_step(g, i as int);
            lemma_occurrences_append(callee_names(g.take(i as int)), g[i as int].1, name@);
            lemma_occurrences_le_len(callee_names(g.take(i + 1)), name@);
            lemma_callee_names_prefix_len(g, i + 1, g.len() as int);
            assert(g.take(g.len() as int) =~= g);
            assert(g[i as int].1 == adjacency@[i as int].1.deep_view());
        }
        let c = count_in_list(&adjacency[i].1, name);
        count = count + c;
        i += 1;
    }
    proof {
        assert(g.take(g.len() as int) =~= g);
        lemma_occurrences_le_len(callee_names(g), name@);
    }
    count
}


/// `sum over k of occurrences(s, vs[k])`.
pub open spec fn occurrence_sum(s: Seq<Seq<char>>, vs: Seq<Seq<char>>) -> nat
    decreases vs.len(),
{
    if vs.len() == 0 {
        0
    } else {
        occurrence_sum(s, vs.drop_last()) + occurrences(s, vs.last())
    }
}

/// Sum of the in-degrees of the names in `vs`.
pub open spec fn degree_sum(g: Seq<(Seq<char>, Seq<Seq<char>>)>, vs: Seq<Seq<char>>) -> nat {
    occurrence_sum(callee_names(g), vs)
}

/// Sum of the squared in-degrees of the names in `vs`.
pub open spec fn degree_square_sum(g: Seq<(Seq<char>, Seq<Seq<char>>)>, vs: Seq<Seq<char>>) -> nat
    decreases vs.len(),
{
    if vs.len() == 0 {
        0
    } else {
        degree_square_sum(g, vs.drop_last()) + in_degree(g, vs.last()) * in_degree(g, vs.last())
    }
}

/// Among `n` values with sum `s` and sum of squares `q`, the value `d` lies
/// strictly above the mean plus twice the (population) standard deviation:
/// `d > s/n + 2 * sqrt(q/n - (s/n)^2)`, multiplied out by `n`.
pub open spec fn is_hub(n: int, s: int, q: int, d: int) -> bool {
    n * d - s > 0 && (n * d - s) * (n * d - s) > 4 * (n * q - s * s)
}

/// Number of names in `vs` whose in-degree is a hub value for `(n, s, q)`.
pub open spec fn hubs_among(
    g: Seq<(Seq<char>, Seq<Seq<char>>)>,
    vs: Seq<Seq<char>>,
    n: int,
    s: int,
    q: int,
) -> nat
    decreases vs.len(),
{
    if vs.len() == 0 {
        0
    } else {
        hubs_among(g, vs.drop_last(), n, s, q) + if is_hub(n, s, q, in_degree(g, vs.last()) as int) {
            1nat
        } else {
            0nat
        }
    }
}

/// Number of distinct names whose in-degree exceeds the mean in-degree plus
/// twice its standard deviation, taken over all names of the graph.
pub open spec fn hub_count(g: Seq<(Seq<char>, Seq<Seq<char>>)>) -> nat {
    let vs = node_seq(g);
    hubs_among(g, vs, vs.len() as int, degree_sum(g, vs) as int, degree_square_sum(g, vs) as int)
}

proof fn lemma_occurrences_push(s: Seq<Seq<char>>, x: Seq<char>, v: Seq<char>)
    ensures
        occurrences(s.push(x), v) == occurrences(s, v) + if x == v {
            1nat
        } else {
            0nat
        },
{
    assert(s.push(x).drop_last() =~= s);
}

proof fn lemma_occurrence_sum_push(s: Seq<Seq<char>>, x: Seq<char>, vs: Seq<Seq<char>>)
    ensures
        occurrence_sum(s.push(x), vs) == occurrence_sum(s, vs) + occurrences(vs, x),
    decreases vs.len(),
{
    if vs.len() > 0 {
        lemma_occurrence_sum_push(s, x, vs.drop_last());
        lemma_occurrences_push(s, x, vs.last());
    }
}

proof fn lemma_occurrences_absent(s: Seq<Seq<char>>, x: Seq<char>)
    requires
        !s.contains(x),
    ensures
        occurrences(s, x) == 0,
    decreases s.len(),
{
    if s.len() > 0 {
        assert(s[s.len() - 1] == s.last());
        assert forall|t: int| 0 <= t < s.drop_last().len() implies s.drop_last()[t] != x by {
            assert(s[t] == s.drop_last()[t]);
        }
        lemma_occurrences_absent(s.drop_last(), x);
    }
}

proof fn lemma_occurrences_present(s: Seq<Seq<char>>, x: Seq<char>)
    requires
        s.contains(x),
    ensures
        occurrences(s, x) >= 1,
    decreases s.len(),
{
    if s.last() != x {
        let t = choose|t: int| 0 <= t < s.len() && s[t] == x;
        assert(s.drop_last()[t] == x);
        lemma_occurrences_present(s.drop_last(), x);
    }
}

proof fn lemma_occurrences_distinct(vs: Seq<Seq<char>>, x: Seq<char>)
    requires
        vs.no_duplicates(),
    ensures
        occurrences(vs, x) <= 1,
    decreases vs.len(),
{
    if vs.len() > 0 {
        let v1 = vs.drop_last();
        if vs.last() == x {
            assert forall|t: int| 0 <= t < v1.len() implies v1[t] != x by {
                assert(vs[t] == v1[t]);
                assert(vs[vs.len() - 1] == x);
            }
            lemma_occurrences_absent(v1, x);
        } else {
            lemma_occurrences_distinct(v1, x);
        }
    }
}

/// Summed over distinct names, the occurrences in `s` add up to at most `|s|`.
proof fn lemma_occurrence_sum_le_len(s: Seq<Seq<char>>, vs: Seq<Seq<char>>)
    requires
        vs.no_duplicates(),
    ensures
        occurrence_sum(s, vs) <= s.len(),
    decreases s.len(),
{
    if s.len() == 0 {
        lemma_occurrence_sum_zero(s, vs);
    } else {
        let s1 = s.drop_last();
        assert(s =~= s1.push(s.last()));
        lemma_occurrence_sum_le_len(s1, vs);
        lemma_occurrence_sum_push(s1, s.last(), vs);
        lemma_occurrences_distinct(vs, s.last());
    }
}

proof fn lemma_occurrence_sum_zero(s: Seq<Seq<char>>, vs: Seq<Seq<char>>)
    requires
        s.len() == 0,
    ensures
        occurrence_sum(s, vs) == 0,
    decreases vs.len(),
{
    if vs.len() > 0 {
        lemma_occurrence_sum_zero(s, vs.drop_last());
    }
}

proof fn lemma_square_sum_le(g: Seq<(Seq<char>, Seq<Seq<char>>)>, vs: Seq<Seq<char>>)
    ensures
        degree_square_sum(g, vs) <= degree_sum(g, vs) * degree_sum(g, vs),
    decreases vs.len(),
{
    if vs.len() > 0 {
        lemma_square_sum_le(g, vs.drop_last());
        let q1 = degree_square_sum(g, vs.drop_last());
        let s1 = degree_sum(g, vs.drop_last());
        let d = in_degree(g, vs.last());
        assert(q1 + d * d <= (s1 + d) * (s1 + d)) by (nonlinear_arith)
            requires
                q1 <= s1 * s1,
                s1 >= 0,
                d >= 0,
        ;
    }
}

/// The callers of the graph, entry by entry.
pub open spec fn callers(g: Seq<(Seq<char>, Seq<Seq<char>>)>) -> Seq<Seq<char>> {
    Seq::new(g.len(), |t: int| g[t].0)
}

proof fn lemma_partners_bound(g: Seq<(Seq<char>, Seq<Seq<char>>)>, i: nat, k: nat)
    requires
        i < g.len(),
        i + 1 <= k <= g.len(),
    ensures
        mutual_partners(g, i, k) <= occurrence_sum(
            g[i as int].1,
            callers(g).subrange(i + 1 as int, k as int),
        ),
    decreases k,
{
    if k > i + 1 {
        lemma_partners_bound(g, i, (k - 1) as nat);
        let sub = callers(g).subrange(i + 1 as int, k as int);
        assert(sub.drop_last() =~= callers(g).subrange(i + 1 as int, k - 1));
        assert(sub.last() == g[k - 1].0);
        if calls_each_other(g, i as int, k - 1) {
            lemma_occurrences_present(g[i as int].1, g[k - 1].0);
        }
    } else {
        assert(callers(g).subrange(i + 1 as int, k as int).len() == 0);
    }
}

proof fn lemma_mutual_pairs_bound(g: Seq<(Seq<char>, Seq<Seq<char>>)>, k: nat)
    requires
        distinct_callers(g),
        k <= g.len(),
    ensures
        mutual_pairs_from(g, k) <= callee_names(g.take(k as int)).len(),
    decreases k,
{
    if k > 0 {
        let i = (k - 1) as nat;
        lemma_mutual_pairs_bound(g, i);
        lemma_all_names_step(g, i as int);
        lemma_partners_bound(g, i, g.len());
        let sub = callers(g).subrange(i + 1 as int, g.len() as int);
        assert(sub.no_duplicates()) by {
            assert forall|a: int, b: int| 0 <= a < sub.len() && 0 <= b < sub.len() && a != b implies sub[a]
                != sub[b] by {
                assert(sub[a] == g[i + 1 + a].0);
                assert(sub[b] == g[i + 1 + b].0);
            }
        }
        lemma_occurrence_sum_le_len(g[i as int].1, sub);
    }
}

proof fn lemma_subrange_distinct(g: Seq<(Seq<char>, Seq<Seq<char>>)>, a: int, b: int)
    requires
        distinct_callers(g),
        0 <= a <= b <= g.len(),
    ensures
        callers(g).subrange(a, b).no_duplicates(),
{
    let sub = callers(g).subrange(a, b);
    assert forall|x: int, y: int| 0 <= x < sub.len() && 0 <= y < sub.len() && x != y implies sub[x]
        != sub[y] by {
        assert(sub[x] == g[a + x].0);
        assert(sub[y] == g[a + y].0);
    }
}

proof fn lemma_cyclic_at_most_edges(g: Seq<(Seq<char>, Seq<Seq<char>>)>, k: nat)
    requires
        distinct_callers(g),
        k <= g.len(),
    ensures
        self_call_count(g.take(k as int)) + mutual_pairs_from(g, k) <= callee_names(
            g.take(k as int),
        ).len(),
    decreases k,
{
    if k == 0 {
        assert(g.take(0) =~= Seq::<(Seq<char>, Seq<Seq<char>>)>::empty());
    } else {
        let i = (k - 1) as nat;
        lemma_cyclic_at_most_edges(g, i);
        lemma_all_names_step(g, i as int);
        lemma_take_step(g, i as int);
        lemma_partners_bound(g, i, g.len());
        let list = g[i as int].1;
        let from_i = callers(g).subrange(i as int, g.len() as int);
        let after_i = callers(g).subrange(i + 1 as int, g.len() as int);
        lemma_subrange_distinct(g, i as int, g.len() as int);
        lemma_occurrence_sum_le_len(list, from_i);
        // from_i is the caller of entry i followed by after_i
        lemma_occurrence_sum_prepend(list, g[i as int].0, after_i);
        assert(from_i =~= seq![g[i as int].0] + after_i);
        if list.contains(g[i as int].0) {
            lemma_occurrences_present(list, g[i as int].0);
        }
    }
}

proof fn lemma_occurrence_sum_prepend(s: Seq<Seq<char>>, x: Seq<char>, vs: Seq<Seq<char>>)
    ensures
        occurrence_sum(s, seq![x] + vs) == occurrences(s, x) + occurrence_sum(s, vs),
    decreases vs.len(),
{
    let w = seq![x] + vs;
    if vs.len() == 0 {
        assert(w.drop_last() =~= Seq::<Seq<char>>::empty());
        assert(w.last() == x);
        assert(occurrence_sum(s, w.drop_last()) == 0);
        assert(occurrence_sum(s, w) == occurrence_sum(s, w.drop_last()) + occurrences(s, x));
        assert(occurrence_sum(s, vs) == 0);
    } else {
        lemma_occurrence_sum_prepend(s, x, vs.drop_last());
        assert(w.drop_last() =~= seq![x] + vs.drop_last());
        assert(w.last() == vs.last());
        assert(occurrence_sum(s, w) == occurrence_sum(s, w.drop_last()) + occurrences(s, vs.last()));
        assert(occurrence_sum(s, vs) == occurrence_sum(s, vs.drop_last()) + occurrences(
            s,
            vs.last(),
        ));
    }
}

/// Self-calls and mutual call pairs never outnumber the edges (each uses at
/// least one edge of its own), so the cycle density is at most 1.
pub proof fn lemma_cycle_density_at_most_one(g: Seq<(Seq<char>, Seq<Seq<char>>)>)
    requires
        distinct_callers(g),
    ensures
        self_call_count(g) + mutual_pair_count(g) <= callee_names(g).len(),
{
    lemma_cyclic_at_most_edges(g, g.len());
    assert(g.take(g.len() as int) =~= g);
}

/// Decides `is_hub(n, s, q, d)` exactly, with 256-bit intermediate values.
fn hub_test(n: u128, s: u128, q: u128, d: u128) -> (r: bool)
    requires
        n <= 0xffff_ffff_ffff_ffff,
        s <= 0xffff_ffff_ffff_ffff,
        d <= 0xffff_ffff_ffff_ffff,
    ensures
        r == is_hub(n as int, s as int, q as int, d as int),
{
    assert(n * d <= 0xffff_ffff_ffff_ffff * 0xffff_ffff_ffff_ffffnat) by (nonlinear_arith)
        requires
            n <= 0xffff_ffff_ffff_ffff,
            d <= 0xffff_ffff_ffff_ffff,
    ;
    let nd = n * d;
    if nd <= s {
        return false;
    }
    let x = nd - s;
    let square = mul_wide(x, x);
    let four_nq = mul_wide(4 * n, q);
    let four_ss = mul_wide(2 * s, 2 * s);
    assert(four_nq.value() == 4 * (n * q)) by (nonlinear_arith)
        requires
            four_nq.value() == (4 * n) * q,
    ;
    assert(four_ss.value() == 4 * (s * s)) by (nonlinear_arith)
        requires
            four_ss.value() == (2 * s) * (2 * s),
    ;
    if !wide_lt(four_ss, four_nq) {
        assert(x * x > 0) by (nonlinear_arith)
            requires
                x > 0,
        ;
        true
    } else {
        let rest = wide_sub(four_nq, four_ss);
        wide_lt(rest, square)
    }
}


/// Cycle-based metrics that capture structural differences between call graphs.
#[derive(Clone, Copy, Debug)]
pub struct CycleMetrics {
    /// Number of self-calling functions (A -> A edges)
    pub self_calls: usize,
    /// Number of mutual call pairs (A -> B and B -> A)
    pub mutual_call_pairs: usize,
    /// (self_calls + mutual_call_pairs) / total_edges, or 0 without edges
    pub cycle_density: Ratio,
    /// Number of hub nodes (in-degree > mean + 2 * std)
    pub hub_count: usize,
    /// total_edges / (nodes * (nodes - 1)), or 0 with fewer than two nodes
    pub edge_density: Ratio,
    /// Total number of edges
    pub total_edges: usize,
    /// Total number of nodes
    pub total_nodes: usize,
}

/// Compute cycle-based structural metrics of a call graph, given as the list
/// of (function, functions it calls) entries with each function listed once.
///
/// Nodes are all names that occur as callers or callees; every occurrence in
/// a callee list is an edge.
pub fn compute_cycle_metrics(adjacency: &Vec<(String, Vec<String>)>) -> (m: CycleMetrics)
    requires
        distinct_callers(adjacency.deep_view()),
        // the edge count is a usize
        callee_names(adjacency.deep_view()).len() <= usize::MAX,
    ensures
        ({
            let g = adjacency.deep_view();
            let edges = callee_names(g).len();
            let nodes = all_names(g).to_set().len();
            &&& m.total_nodes == nodes
            &&& m.total_nodes == node_seq(g).len()
            &&& m.total_edges == edges
            &&& m.self_calls == self_call_count(g)
            &&& m.mutual_call_pairs == mutual_pair_count(g)
            &&& m.hub_count == hub_count(g)
            &&& m.cycle_density == (if edges > 0 {
                Ratio {
                    numerator: (self_call_count(g) + mutual_pair_count(g)) as u128,
                    denominator: edges as u128,
                }
            } else {
                Ratio { numerator: 0, denominator: 1 }
            })
            &&& m.edge_density == (if nodes > 1 {
                Ratio { numerator: edges as u128, denominator: (nodes * (nodes - 1)) as u128 }
            } else {
                Ratio { numerator: 0, denominator: 1 }
            })
        }),
{
    let ghost g = adjacency.deep_view();
    let total_edges = count_edges(adjacency);
    let self_calls = count_self_calls(adjacency);
    let mutual_pairs = count_mutual_pairs(adjacency);
    let nodes = collect_nodes(adjacency);
    let n = nodes.len();
    proof {
        lemma_dedup(all_names(g));
        node_seq(g).unique_seq_to_set();
        assert(node_seq(g).to_set() =~= all_names(g).to_set()) by {
            assert forall|x: Seq<char>| node_seq(g).to_set().contains(x) <==> all_names(g).to_set().contains(
                x,
            ) by {}
        }
    }
    // In-degree of every node.
    let mut degrees: Vec<usize> = Vec::new();
    let mut k: usize = 0;
    while k < n
        invariant
            g == adjacency.deep_view(),
            callee_names(g).len() <= usize::MAX,
            nodes.deep_view() == node_seq(g),
            n == nodes.len(),
            k <= n,
            degrees.len() == k,
            forall|t: int| 0 <= t < k ==> #[trigger] degrees@[t] == in_degree(g, node_seq(g)[t]),
        decreases n - k,
    {
        proof {
            assert(nodes.deep_view()[k as int] == nodes@[k as int]@);
        }
        let d = count_calls_to(adjacency, &nodes[k]);
        degrees.push(d);
        k += 1;
    }
    // Sum and sum of squares of the in-degrees.
    let ghost vs = node_seq(g);
    let mut sum: u128 = 0;
    let mut square_sum: u128 = 0;
    k = 0;
    proof {
        lemma_dedup(all_names(g));
        assert(vs.take(0) =~= Seq::<Seq<char>>::empty());
    }
    while k < n
        invariant
            g == adjacency.deep_view(),
            vs == node_seq(g),
            vs.no_duplicates(),
            vs.len() == n,
            callee_names(g).len() <= usize::MAX,
            degrees.len() == n,
            forall|t: int| 0 <= t < n ==> #[trigger] degrees@[t] == in_degree(g, vs[t]),
            k <= n,
            sum == degree_sum(g, vs.take(k as int)),
            square_sum == degree_square_sum(g, vs.take(k as int)),
        decreases n - k,
    {
        let ghost next = vs.take(k + 1);
        proof {
            assert(next.drop_last() =~= vs.take(k as int));
            assert(next.last() == vs[k as int]);
            assert(next.no_duplicates()) by {
                assert forall|a: int, b: int| 0 <= a < next.len() && 0 <= b < next.len() && a != b implies next[a]
                    != next[b] by {
                    assert(next[a] == vs[a] && next[b] == vs[b]);
                }
            }
            lemma_occurrence_sum_le_len(callee_names(g), next);
            lemma_square_sum_le(g, next);
            assert(degree_sum(g, next) * degree_sum(g, next) <= 0xffff_ffff_ffff_ffff
                * 0xffff_ffff_ffff_ffffnat) by (nonlinear_arith)
                requires
                    degree_sum(g, next) <= 0xffff_ffff_ffff_ffff,
            ;
        }
        let d = degrees[k] as u128;
        sum = sum + d;
        square_sum = square_sum + d * d;
        k += 1;
    }
    proof {
        assert(vs.take(n as int) =~= vs);
        lemma_occurrence_sum_le_len(callee_names(g), vs);
    }
    // Hubs: in-degree above mean + 2 * standard deviation.
    let mut hubs: usize = 0;
    k = 0;
    proof {
        assert(vs.take(0) =~= Seq::<Seq<char>>::empty());
    }
    while k < n
        invariant
            g == adjacency.deep_view(),
            vs == node_seq(g),
            vs.len() == n,
            callee_names(g).len() <= usize::MAX,
            degrees.len() == n,
            forall|t: int| 0 <= t < n ==> #[trigger] degrees@[t] == in_degree(g, vs[t]),
            k <= n,
            sum == degree_sum(g, vs),
            sum <= usize::MAX,
            square_sum == degree_square_sum(g, vs),
            hubs == hubs_among(g, vs.take(k as int), n as int, sum as int, square_sum as int),
            hubs <= k,
        decreases n - k,
    {
        proof {
            assert(vs.take(k + 1).drop_last() =~= vs.take(k as int));
            assert(vs.take(k + 1).last() == vs[k as int]);
        }
        if hub_test(n as u128, sum, square_sum, degrees[k] as u128) {
            hubs = hubs + 1;
        }
        k += 1;
    }
    proof {
        assert(vs.take(n as int) =~= vs);
    }
    let cycle_density = if total_edges > 0 {
        Ratio { numerator: self_calls as u128 + mutual_pairs as u128, denominator: total_edges as u128 }
    } else {
        Ratio { numerator: 0, denominator: 1 }
    };
    let edge_density = if n > 1 {
        assert(n * (n - 1) <= 0xffff_ffff_ffff_ffff * 0xffff_ffff_ffff_ffffnat) by (nonlinear_arith)
            requires
                n <= 0xffff_ffff_ffff_ffff,
        ;
        Ratio { numerator: total_edges as u128, denominator: n as u128 * (n as u128 - 1) }
    } else {
        Ratio { numerator: 0, denominator: 1 }
    };
    CycleMetrics {
        self_calls,
        mutual_call_pairs: mutual_pairs,
        cycle_density,
        hub_count: hubs,
        edge_density,
        total_edges,
        total_nodes: n,
    }
}

} // verus!
