//! Directed graphs as adjacency lists over the vertices `0..n`, and
//! reachability in them.

use vstd::prelude::*;

verus! {

/// The adjacency lists of a graph, each as the sequence of its targets.
pub open spec fn graph_of(adj: Seq<Vec<usize>>) -> Seq<Seq<usize>> {
    adj.map_values(|row: Vec<usize>| row@)
}

/// Every target of every adjacency list is a vertex of the graph.
pub open spec fn well_formed(g: Seq<Seq<usize>>) -> bool {
    forall|u: int, j: int| 0 <= u < g.len() && 0 <= j < g[u].len() ==> #[trigger] g[u][j] < g.len()
}

/// No adjacency list names a target twice.
pub open spec fn simple(g: Seq<Seq<usize>>) -> bool {
    forall|u: int| 0 <= u < g.len() ==> (#[trigger] g[u]).no_duplicates()
}

/// The graph has an edge from `u` to `v`.
pub open spec fn has_edge(g: Seq<Seq<usize>>, u: int, v: int) -> bool {
    0 <= u < g.len() && exists|j: int| 0 <= j < g[u].len() && #[trigger] g[u][j] == v
}

/// Some walk of exactly `n` edges leads from `u` to `v`.
pub open spec fn reach_in(g: Seq<Seq<usize>>, u: int, v: int, n: nat) -> bool
    decreases n,
{
    if n == 0 {
        u == v
    } else {
        exists|w: int| reach_in(g, u, w, (n - 1) as nat) && #[trigger] has_edge(g, w, v)
    }
}

/// Some walk leads from `u` to `v`.
pub open spec fn reach(g: Seq<Seq<usize>>, u: int, v: int) -> bool {
    exists|n: nat| reach_in(g, u, v, n)
}

/// Each of the two vertices can be reached from the other.
pub open spec fn mutual(g: Seq<Seq<usize>>, u: int, v: int) -> bool {
    reach(g, u, v) && reach(g, v, u)
}

/// `t` has the edges of `g`, each turned round.
pub open spec fn transposed(g: Seq<Seq<usize>>, t: Seq<Seq<usize>>) -> bool {
    &&& g.len() == t.len()
    &&& forall|u: int, v: int| has_edge(g, u, v) ==> has_edge(t, v, u)
    &&& forall|u: int, v: int| has_edge(t, v, u) ==> has_edge(g, u, v)
}

/// Every vertex reaches itself.
pub proof fn lemma_reach_refl(g: Seq<Seq<usize>>, u: int)
    ensures
        reach(g, u, u),
{
    assert(reach_in(g, u, u, 0));
}

/// A walk goes on along an edge.
pub proof fn lemma_reach_step(g: Seq<Seq<usize>>, u: int, w: int, v: int)
    requires
        reach(g, u, w),
        has_edge(g, w, v),
    ensures
        reach(g, u, v),
{
    let n = choose|n: nat| reach_in(g, u, w, n);
    assert(reach_in(g, u, w, ((n + 1) - 1) as nat));
    assert(reach_in(g, u, v, n + 1));
}

/// A walk of `n` edges after a walk is a walk.
proof fn lemma_reach_trans_in(g: Seq<Seq<usize>>, u: int, w: int, v: int, n: nat)
    requires
        reach(g, u, w),
        reach_in(g, w, v, n),
    ensures
        reach(g, u, v),
    decreases n,
{
    if n == 0 {
    } else {
        let x = choose|x: int| reach_in(g, w, x, (n - 1) as nat) && #[trigger] has_edge(g, x, v);
        lemma_reach_trans_in(g, u, w, x, (n - 1) as nat);
        lemma_reach_step(g, u, x, v);
    }
}

/// Reachability is transitive.
pub proof fn lemma_reach_trans(g: Seq<Seq<usize>>, u: int, w: int, v: int)
    requires
        reach(g, u, w),
        reach(g, w, v),
    ensures
        reach(g, u, v),
{
    let n = choose|n: nat| reach_in(g, w, v, n);
    lemma_reach_trans_in(g, u, w, v, n);
}

/// An edge is a walk.
pub proof fn lemma_reach_edge(g: Seq<Seq<usize>>, u: int, v: int)
    requires
        has_edge(g, u, v),
    ensures
        reach(g, u, v),
{
    lemma_reach_refl(g, u);
    lemma_reach_step(g, u, u, v);
}

/// Mutual reachability is transitive.
pub proof fn lemma_mutual_trans(g: Seq<Seq<usize>>, u: int, w: int, v: int)
    requires
        mutual(g, u, w),
        mutual(g, w, v),
    ensures
        mutual(g, u, v),
{
    lemma_reach_trans(g, u, w, v);
    lemma_reach_trans(g, v, w, u);
}

/// The set `s` holds the target of each edge that starts in it.
pub open spec fn closed_forward(g: Seq<Seq<usize>>, s: Set<int>) -> bool {
    forall|a: int, b: int| s.contains(a) && #[trigger] has_edge(g, a, b) ==> s.contains(b)
}

/// The set `s` holds the source of each edge that ends in it.
pub open spec fn closed_backward(g: Seq<Seq<usize>>, s: Set<int>) -> bool {
    forall|a: int, b: int| s.contains(b) && #[trigger] has_edge(g, a, b) ==> s.contains(a)
}

/// A walk of `n` edges that starts in a set closed under edges ends in it.
proof fn lemma_closed_forward_in(g: Seq<Seq<usize>>, s: Set<int>, u: int, v: int, n: nat)
    requires
        closed_forward(g, s),
        s.contains(u),
        reach_in(g, u, v, n),
    ensures
        s.contains(v),
    decreases n,
{
    if n == 0 {
    } else {
        let w = choose|w: int| reach_in(g, u, w, (n - 1) as nat) && #[trigger] has_edge(g, w, v);
        lemma_closed_forward_in(g, s, u, w, (n - 1) as nat);
    }
}

/// A walk that starts in a set closed under edges ends in it.
pub proof fn lemma_closed_forward(g: Seq<Seq<usize>>, s: Set<int>, u: int, v: int)
    requires
        closed_forward(g, s),
        s.contains(u),
        reach(g, u, v),
    ensures
        s.contains(v),
{
    let n = choose|n: nat| reach_in(g, u, v, n);
    lemma_closed_forward_in(g, s, u, v, n);
}

/// A walk of `n` edges that ends in a set closed under turned edges
/// starts in it.
proof fn lemma_closed_backward_in(g: Seq<Seq<usize>>, s: Set<int>, u: int, v: int, n: nat)
    requires
        closed_backward(g, s),
        s.contains(v),
        reach_in(g, u, v, n),
    ensures
        s.contains(u),
    decreases n,
{
    if n == 0 {
    } else {
        let w = choose|w: int| reach_in(g, u, w, (n - 1) as nat) && #[trigger] has_edge(g, w, v);
        lemma_closed_backward_in(g, s, u, w, (n - 1) as nat);
    }
}

/// A walk that ends in a set closed under turned edges starts in it.
pub proof fn lemma_closed_backward(g: Seq<Seq<usize>>, s: Set<int>, u: int, v: int)
    requires
        closed_backward(g, s),
        s.contains(v),
        reach(g, u, v),
    ensures
        s.contains(u),
{
    let n = choose|n: nat| reach_in(g, u, v, n);
    lemma_closed_backward_in(g, s, u, v, n);
}

/// A walk in the transposed graph is a walk of the graph, turned round.
pub proof fn lemma_reach_transposed(g: Seq<Seq<usize>>, t: Seq<Seq<usize>>, u: int, v: int)
    requires
        transposed(g, t),
        reach(t, v, u),
    ensures
        reach(g, u, v),
{
    let s = Set::new(|x: int| reach(g, x, v));
    lemma_reach_refl(g, v);
    assert forall|a: int, b: int| s.contains(a) && #[trigger] has_edge(t, a, b) implies s.contains(
        b,
    ) by {
        assert(has_edge(g, b, a));
        lemma_reach_edge(g, b, a);
        lemma_reach_trans(g, b, a, v);
    }
    lemma_closed_forward(t, s, v, u);
}

/// How many entries of the sequence are `false`.
pub open spec fn count_false(s: Seq<bool>) -> nat
    decreases s.len(),
{
    if s.len() == 0 {
        0
    } else {
        count_false(s.drop_last()) + if s.last() {
            0nat
        } else {
            1nat
        }
    }
}

/// Setting a `false` entry to `true` leaves one `false` entry less.
pub proof fn lemma_count_false_set(s: Seq<bool>, i: int)
    requires
        0 <= i < s.len(),
        !s[i],
    ensures
        count_false(s.update(i, true)) + 1 == count_false(s),
    decreases s.len(),
{
    let t = s.update(i, true);
    if i == s.len() - 1 {
        assert(t.drop_last() =~= s.drop_last());
    } else {
        assert(t.drop_last() =~= s.drop_last().update(i, true));
        lemma_count_false_set(s.drop_last(), i);
    }
}

/// A sequence that is `true` wherever another is has no more `false`
/// entries.
pub proof fn lemma_count_false_monotone(s: Seq<bool>, t: Seq<bool>)
    requires
        s.len() == t.len(),
        forall|i: int| 0 <= i < s.len() && s[i] ==> t[i],
    ensures
        count_false(t) <= count_false(s),
    decreases s.len(),
{
    if s.len() == 0 {
    } else {
        assert forall|i: int| 0 <= i < s.drop_last().len() && s.drop_last()[i] implies t.drop_last()[i] by {
            assert(s[i] ==> t[i]);
        }
        lemma_count_false_monotone(s.drop_last(), t.drop_last());
        assert(s[s.len() - 1] ==> t[s.len() - 1]);
    }
}

} // verus!
