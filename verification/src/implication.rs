//! The implication graph of a formula whose clauses have two literals,
//! and what it says of satisfiability: the formula is satisfiable exactly
//! when no variable has its two vertices on a common cycle.

use crate::cnf::{
    clause_holds, formula_holds, literal_holds, satisfiable, Assignment, CNFLiteral,
};
use crate::graph::{
    has_edge, lemma_closed_forward, lemma_mutual_trans, lemma_reach_edge, lemma_reach_refl,
    lemma_reach_trans, mutual, reach,
};
use vstd::prelude::*;

verus! {

/// The vertex that stands for a literal being true (`negate` false) or
/// false (`negate` true): vertex `2v` says that variable `v` is true,
/// vertex `2v + 1` that it is false.
pub open spec fn vertex_of(l: CNFLiteral, negate: bool) -> int {
    if negate == l.negate {
        2 * l.variable
    } else {
        2 * l.variable + 1
    }
}

/// The clause of two literals demands the implication from `u` to `v`:
/// one of its literals being false forces the other to be true.
pub open spec fn clause_implies(c: Seq<CNFLiteral>, u: int, v: int) -> bool {
    ||| (u == vertex_of(c[0], true) && v == vertex_of(c[1], false))
    ||| (u == vertex_of(c[1], true) && v == vertex_of(c[0], false))
}

/// One of the first `n` clauses of the formula demands the implication
/// from `u` to `v`.
pub open spec fn implication(f: Seq<Seq<CNFLiteral>>, n: int, u: int, v: int) -> bool {
    exists|k: int| 0 <= k < n && k < f.len() && clause_implies(#[trigger] f[k], u, v)
}

/// Every clause of the formula has exactly two literals.
pub open spec fn width_two(f: Seq<Seq<CNFLiteral>>) -> bool {
    forall|i: int| 0 <= i < f.len() ==> (#[trigger] f[i]).len() == 2
}

/// The vertices of every literal of the formula are below `vertices`.
pub open spec fn vertices_below(f: Seq<Seq<CNFLiteral>>, vertices: int) -> bool {
    forall|i: int, j: int|
        0 <= i < f.len() && 0 <= j < f[i].len() ==> 2 * (#[trigger] f[i][j]).variable + 1
            < vertices
}

/// The vertices of every literal of the formula can be counted in `usize`.
pub open spec fn vertices_fit(f: Seq<Seq<CNFLiteral>>) -> bool {
    forall|i: int, j: int|
        0 <= i < f.len() && 0 <= j < f[i].len() ==> 2 * (#[trigger] f[i][j]).variable + 2
            <= usize::MAX
}

/// What the vertex says holds under the assignment.
pub open spec fn vertex_holds(a: Assignment, x: int) -> bool {
    if x % 2 == 0 {
        a((x / 2) as u32)
    } else {
        !a((x / 2) as u32)
    }
}

/// `g` is the implication graph of the formula.
pub open spec fn implication_graph(f: Seq<Seq<CNFLiteral>>, g: Seq<Seq<usize>>) -> bool {
    forall|u: int, v: int| has_edge(g, u, v) <==> implication(f, f.len() as int, u, v)
}

/// Under an assignment that satisfies the formula, what a vertex says
/// holds wherever it holds for a vertex that reaches it.
pub proof fn lemma_implications_hold(
    f: Seq<Seq<CNFLiteral>>,
    g: Seq<Seq<usize>>,
    a: Assignment,
    u: int,
    v: int,
)
    requires
        width_two(f),
        implication_graph(f, g),
        formula_holds(a, f),
        vertex_holds(a, u),
        reach(g, u, v),
    ensures
        vertex_holds(a, v),
{
    let s = Set::new(|x: int| vertex_holds(a, x));
    assert forall|x: int, y: int| s.contains(x) && #[trigger] has_edge(g, x, y) implies s.contains(
        y,
    ) by {
        assert(implication(f, f.len() as int, x, y));
        let k = choose|k: int|
            0 <= k < f.len() && k < f.len() && clause_implies(#[trigger] f[k], x, y);
        let c = f[k];
        assert(clause_holds(a, c));
        let j = choose|j: int| 0 <= j < c.len() && literal_holds(a, #[trigger] c[j]);
        assert(c.len() == 2);
        assert(j == 0 || j == 1);
    }
    lemma_closed_forward(g, s, u, v);
}

/// A formula is unsatisfiable where the two vertices of some variable
/// reach each other in its implication graph.
pub proof fn lemma_conflict_unsatisfiable(f: Seq<Seq<CNFLiteral>>, g: Seq<Seq<usize>>, v: int)
    requires
        width_two(f),
        implication_graph(f, g),
        0 <= v <= u32::MAX,
        mutual(g, 2 * v, 2 * v + 1),
    ensures
        !satisfiable(f),
{
    assert forall|a: Assignment| !formula_holds(a, f) by {
        if formula_holds(a, f) {
            if a(v as u32) {
                lemma_implications_hold(f, g, a, 2 * v, 2 * v + 1);
            } else {
                lemma_implications_hold(f, g, a, 2 * v + 1, 2 * v);
            }
        }
    }
}

/// The two vertices of variable `v` reach each other.
pub open spec fn conflict(g: Seq<Seq<usize>>, v: int) -> bool {
    mutual(g, 2 * v, 2 * v + 1)
}

/// No variable has two vertices that reach each other.
pub open spec fn conflict_free(g: Seq<Seq<usize>>) -> bool {
    forall|v: int| 0 <= v <= u32::MAX ==> !#[trigger] conflict(g, v)
}

/// The vertices of the graph that `u` reaches.
pub open spec fn reachable_set(g: Seq<Seq<usize>>, u: int) -> Set<int> {
    Set::new(|x: int| 0 <= x < g.len() && reach(g, u, x))
}

/// How many vertices of the graph `u` reaches.
pub open spec fn reach_count(g: Seq<Seq<usize>>, u: int) -> nat {
    reachable_set(g, u).len()
}

/// `m` is the least vertex that shares a cycle with `u`.
pub open spec fn least_partner(g: Seq<Seq<usize>>, u: int, m: int) -> bool {
    &&& 0 <= m
    &&& mutual(g, u, m)
    &&& forall|k: int| 0 <= k < m ==> !#[trigger] mutual(g, u, k)
}

/// The least vertex that shares a cycle with `u`: the same for all the
/// vertices of a strongly connected component.
pub open spec fn representative(g: Seq<Seq<usize>>, u: int) -> int {
    choose|m: int| least_partner(g, u, m)
}

/// `u` stands before `v` where it reaches fewer vertices, or as many and
/// its representative is the lesser one.
pub open spec fn precedes(g: Seq<Seq<usize>>, u: int, v: int) -> bool {
    ||| reach_count(g, u) < reach_count(g, v)
    ||| (reach_count(g, u) == reach_count(g, v) && representative(g, u) < representative(g, v))
}

/// The assignment read off the graph: a variable is true where its true
/// vertex stands before its false vertex.
pub open spec fn graph_assignment(g: Seq<Seq<usize>>) -> Assignment {
    |v: u32| precedes(g, 2 * v, 2 * v + 1)
}

/// A vertex reaches finitely many vertices of the graph.
pub proof fn lemma_reachable_finite(g: Seq<Seq<usize>>, u: int)
    ensures
        reachable_set(g, u).finite(),
{
    vstd::set_lib::lemma_int_range(0, g.len() as int);
    assert(reachable_set(g, u).subset_of(vstd::set_lib::set_int_range(0, g.len() as int)));
    vstd::set_lib::lemma_len_subset(
        reachable_set(g, u),
        vstd::set_lib::set_int_range(0, g.len() as int),
    );
}

/// The target of an edge reaches no more vertices than its source, and as
/// many only where it reaches the source.
pub proof fn lemma_edge_counts(g: Seq<Seq<usize>>, u: int, v: int)
    requires
        has_edge(g, u, v),
    ensures
        reach_count(g, v) <= reach_count(g, u),
        reach_count(g, v) == reach_count(g, u) ==> mutual(g, u, v),
{
    let from_u = reachable_set(g, u);
    let from_v = reachable_set(g, v);
    lemma_reachable_finite(g, u);
    lemma_reachable_finite(g, v);
    lemma_reach_edge(g, u, v);
    assert forall|x: int| from_v.contains(x) implies from_u.contains(x) by {
        lemma_reach_trans(g, u, v, x);
    }
    vstd::set_lib::lemma_len_subset(from_v, from_u);
    if from_v.len() == from_u.len() {
        vstd::set_lib::lemma_subset_equality(from_v, from_u);
        lemma_reach_refl(g, u);
        assert(from_u.contains(u));
        assert(from_v.contains(u));
    }
}

/// A vertex that shares a cycle with some vertex `b` has a least such
/// vertex.
proof fn lemma_least_partner_exists(g: Seq<Seq<usize>>, u: int, b: int)
    requires
        0 <= b,
        mutual(g, u, b),
    ensures
        exists|m: int| least_partner(g, u, m),
    decreases b,
{
    if exists|k: int| 0 <= k < b && mutual(g, u, k) {
        let k = choose|k: int| 0 <= k < b && mutual(g, u, k);
        lemma_least_partner_exists(g, u, k);
    } else {
        assert(least_partner(g, u, b));
    }
}

/// The representative of a vertex is the least vertex on a cycle with it.
pub proof fn lemma_representative(g: Seq<Seq<usize>>, u: int)
    requires
        0 <= u,
    ensures
        least_partner(g, u, representative(g, u)),
{
    lemma_reach_refl(g, u);
    lemma_least_partner_exists(g, u, u);
}

/// Vertices that reach each other have one representative.
pub proof fn lemma_representative_shared(g: Seq<Seq<usize>>, u: int, v: int)
    requires
        0 <= u,
        0 <= v,
        mutual(g, u, v),
    ensures
        representative(g, u) == representative(g, v),
{
    lemma_representative(g, u);
    lemma_representative(g, v);
    let ru = representative(g, u);
    let rv = representative(g, v);
    lemma_mutual_trans(g, v, u, ru);
    lemma_mutual_trans(g, u, v, rv);
    if ru < rv {
        assert(!mutual(g, v, ru));
    }
    if rv < ru {
        assert(!mutual(g, u, rv));
    }
}

/// Vertices with one representative reach each other.
pub proof fn lemma_representative_joins(g: Seq<Seq<usize>>, u: int, v: int)
    requires
        0 <= u,
        0 <= v,
        representative(g, u) == representative(g, v),
    ensures
        mutual(g, u, v),
{
    lemma_representative(g, u);
    lemma_representative(g, v);
    lemma_mutual_trans(g, u, representative(g, u), v);
}

/// The source of an edge does not stand before its target.
pub proof fn lemma_edge_order(g: Seq<Seq<usize>>, u: int, v: int)
    requires
        has_edge(g, u, v),
        0 <= v,
    ensures
        !precedes(g, u, v),
{
    lemma_edge_counts(g, u, v);
    if reach_count(g, v) == reach_count(g, u) {
        lemma_representative_shared(g, u, v);
    }
}

/// Where no variable has two vertices that reach each other, the
/// assignment read off the implication graph satisfies the formula.
pub proof fn lemma_conflict_free_satisfiable(f: Seq<Seq<CNFLiteral>>, g: Seq<Seq<usize>>)
    requires
        width_two(f),
        implication_graph(f, g),
        conflict_free(g),
    ensures
        formula_holds(graph_assignment(g), f),
        satisfiable(f),
{
    let a = graph_assignment(g);
    assert forall|i: int| 0 <= i < f.len() implies clause_holds(a, #[trigger] f[i]) by {
        let c = f[i];
        assert(c.len() == 2);
        let v0 = c[0].variable as int;
        let v1 = c[1].variable as int;
        let t0 = vertex_of(c[0], false);
        let f0 = vertex_of(c[0], true);
        let t1 = vertex_of(c[1], false);
        let f1 = vertex_of(c[1], true);
        assert(clause_implies(f[i], f0, t1));
        assert(clause_implies(f[i], f1, t0));
        assert(implication(f, f.len() as int, f0, t1));
        assert(implication(f, f.len() as int, f1, t0));
        lemma_edge_order(g, f0, t1);
        lemma_edge_order(g, f1, t0);
        assert(!conflict(g, v0));
        assert(!conflict(g, v1));
        if representative(g, 2 * v0) == representative(g, 2 * v0 + 1) {
            lemma_representative_joins(g, 2 * v0, 2 * v0 + 1);
        }
        if representative(g, 2 * v1) == representative(g, 2 * v1 + 1) {
            lemma_representative_joins(g, 2 * v1, 2 * v1 + 1);
        }
        if !literal_holds(a, c[0]) && !literal_holds(a, c[1]) {
            assert(precedes(g, f0, t0));
            assert(precedes(g, f1, t1));
            assert(false);
        }
        if literal_holds(a, c[0]) {
            assert(literal_holds(a, f[i][0]));
        } else {
            assert(literal_holds(a, f[i][1]));
        }
    }
    assert(formula_holds(a, f));
}

/// A formula of clauses of two literals is satisfiable exactly when no
/// variable has two vertices that reach each other in its implication
/// graph.
pub proof fn lemma_two_sat_criterion(f: Seq<Seq<CNFLiteral>>, g: Seq<Seq<usize>>)
    requires
        width_two(f),
        implication_graph(f, g),
    ensures
        satisfiable(f) == conflict_free(g),
{
    if conflict_free(g) {
        lemma_conflict_free_satisfiable(f, g);
    } else {
        let v = choose|v: int| 0 <= v <= u32::MAX && #[trigger] conflict(g, v);
        lemma_conflict_unsatisfiable(f, g, v);
    }
}

} // verus!
