//! What the two depth-first passes over an implication graph establish:
//! an order of the vertices, a component for each vertex, and an
//! assignment read off the components.

use crate::cnf::{Assignment, CNFLiteral, clause_holds, formula_holds, literal_holds};
use crate::graph::{
    has_edge, lemma_closed_backward, lemma_closed_forward, lemma_mutual_trans, lemma_reach_refl,
    lemma_reach_step, lemma_reach_trans, lemma_reach_transposed, mutual, reach, transposed,
    well_formed,
};
use crate::implication::{
    clause_implies, implication, implication_graph, vertex_of, vertices_below, width_two,
};
use vstd::prelude::*;

verus! {

/// The vertex stands in the order.
pub open spec fn listed(order: Seq<usize>, x: int) -> bool {
    exists|k: int| 0 <= k < order.len() && (#[trigger] order[k]) == x
}

/// The vertex has been entered by the first pass and not yet left.
pub open spec fn gray(visited: Seq<bool>, order: Seq<usize>, x: int) -> bool {
    0 <= x < visited.len() && visited[x] && !listed(order, x)
}

/// Vertex `b` shares a strongly connected component with a vertex that
/// the first pass has not left yet.
pub open spec fn pending(g: Seq<Seq<usize>>, visited: Seq<bool>, order: Seq<usize>, b: int) -> bool {
    exists|x: int| gray(visited, order, x) && #[trigger] mutual(g, b, x)
}

/// Vertex `r` stands in the order, and no later than some vertex of the
/// strongly connected component of `b`.
pub open spec fn covered(g: Seq<Seq<usize>>, order: Seq<usize>, b: int, r: int) -> bool {
    exists|m: int, z: int|
        #![trigger order[m], order[z]]
        0 <= m <= z < order.len() && order[m] == r && mutual(g, b, order[z] as int)
}

/// Whatever `b` reaches stands in the order no later than the last vertex
/// of the strongly connected component of `b`.
pub open spec fn settled(g: Seq<Seq<usize>>, order: Seq<usize>, b: int) -> bool {
    forall|r: int| #[trigger] reach(g, b, r) ==> covered(g, order, b, r)
}

/// What holds between two steps of the first pass: the vertices that it
/// has left form `order`, without repetition; their edges lead to
/// entered vertices; and each of them is settled, or shares a component
/// with a vertex that is still open.
pub open spec fn first_pass_inv(g: Seq<Seq<usize>>, visited: Seq<bool>, order: Seq<usize>) -> bool {
    &&& visited.len() == g.len()
    &&& order.no_duplicates()
    &&& forall|k: int|
        0 <= k < order.len() ==> (#[trigger] order[k]) < g.len() && visited[order[k] as int]
    &&& forall|k: int, j: int|
        0 <= k < order.len() && 0 <= j < g[order[k] as int].len() ==> visited[(
        #[trigger] g[order[k] as int][j]) as int]
    &&& forall|k: int|
        0 <= k < order.len() ==> settled(g, order, (#[trigger] order[k]) as int) || pending(
            g,
            visited,
            order,
            order[k] as int,
        )
}

/// A settled vertex stays settled when the order grows.
pub proof fn lemma_settled_extends(g: Seq<Seq<usize>>, order: Seq<usize>, v: usize, b: int)
    requires
        settled(g, order, b),
    ensures
        settled(g, order.push(v), b),
{
    let order2 = order.push(v);
    assert forall|r: int| #[trigger] reach(g, b, r) implies covered(g, order2, b, r) by {
        assert(covered(g, order, b, r));
        let (m, z) = choose|m: int, z: int|
            #![trigger order[m], order[z]]
            0 <= m <= z < order.len() && order[m] == r && mutual(g, b, order[z] as int);
        assert(order2[m] == order[m] && order2[z] == order[z]);
    }
}

/// The first pass may leave a vertex once all its edges lead to entered
/// vertices.
pub proof fn lemma_leave_vertex(g: Seq<Seq<usize>>, visited: Seq<bool>, order: Seq<usize>, vertex: usize)
    requires
        well_formed(g),
        first_pass_inv(g, visited, order),
        gray(visited, order, vertex as int),
        forall|j: int| 0 <= j < g[vertex as int].len() ==> visited[(#[trigger] g[vertex as int][j]) as int],
        forall|x: int| gray(visited, order, x) && x != vertex ==> reach(g, x, vertex as int),
    ensures
        first_pass_inv(g, visited, order.push(vertex)),
{
    let order2 = order.push(vertex);
    let last = order.len() as int;
    assert(order2[last] == vertex);
    assert forall|k: int| 0 <= k < order2.len() implies (#[trigger] order2[k]) < g.len()
        && visited[order2[k] as int] by {
        if k < last {
            assert(order2[k] == order[k]);
        }
    }
    assert forall|k: int, j: int|
        0 <= k < order2.len() && 0 <= j < g[order2[k] as int].len() implies visited[(
    #[trigger] g[order2[k] as int][j]) as int] by {
        if k < last {
            assert(order2[k] == order[k]);
        }
    }
    assert(order2.no_duplicates()) by {
        assert forall|a: int, b: int| 0 <= a < order2.len() && 0 <= b < order2.len() && a != b implies order2[a] != order2[b] by {
            if a < last {
                assert(order2[a] == order[a]);
                assert(listed(order, order[a] as int));
            }
            if b < last {
                assert(order2[b] == order[b]);
                assert(listed(order, order[b] as int));
            }
        }
    }
    assert forall|x: int| gray(visited, order2, x) <==> (gray(visited, order, x) && x != vertex) by {
        if listed(order2, x) {
            let k = choose|k: int| 0 <= k < order2.len() && (#[trigger] order2[k]) == x;
            if k < last {
                assert(order[k] == x);
            }
        }
        if listed(order, x) {
            let k = choose|k: int| 0 <= k < order.len() && (#[trigger] order[k]) == x;
            assert(order2[k] == x);
        }
        if x == vertex {
            assert(order2[last] == x);
        }
    }
    lemma_reach_refl(g, vertex as int);
    if exists|x: int| gray(visited, order2, x) && reach(g, vertex as int, x) {
        let x0 = choose|x: int| gray(visited, order2, x) && reach(g, vertex as int, x);
        assert(mutual(g, vertex as int, x0));
        assert forall|k: int| 0 <= k < order2.len() implies settled(
            g,
            order2,
            (#[trigger] order2[k]) as int,
        ) || pending(g, visited, order2, order2[k] as int) by {
            let b = order2[k] as int;
            if k == last {
                assert(pending(g, visited, order2, b));
            } else {
                assert(order2[k] == order[k]);
                if settled(g, order, b) {
                    lemma_settled_extends(g, order, vertex, b);
                } else {
                    assert(pending(g, visited, order, b));
                    let y = choose|y: int| gray(visited, order, y) && #[trigger] mutual(g, b, y);
                    if y == vertex {
                        lemma_mutual_trans(g, b, vertex as int, x0);
                        assert(pending(g, visited, order2, b));
                    } else {
                        assert(gray(visited, order2, y));
                        assert(pending(g, visited, order2, b));
                    }
                }
            }
        }
    } else {
        let s = Set::new(
            |x: int| 0 <= x < g.len() && listed(order2, x) && reach(g, vertex as int, x),
        );
        assert(s.contains(vertex as int));
        assert forall|a: int, b: int| s.contains(a) && #[trigger] has_edge(g, a, b) implies s.contains(
            b,
        ) by {
            let j = choose|j: int| 0 <= j < g[a].len() && #[trigger] g[a][j] == b;
            let k = choose|k: int| 0 <= k < order2.len() && (#[trigger] order2[k]) == a;
            assert(visited[g[order2[k] as int][j] as int]);
            lemma_reach_step(g, vertex as int, a, b);
            if !listed(order2, b) {
                assert(gray(visited, order2, b));
            }
        }
        assert forall|k: int| 0 <= k < order2.len() implies settled(
            g,
            order2,
            (#[trigger] order2[k]) as int,
        ) || pending(g, visited, order2, order2[k] as int) by {
            let b = order2[k] as int;
            let joined = if k == last {
                true
            } else {
                !settled(g, order, b) && mutual(g, b, vertex as int)
            };
            if k < last {
                assert(order2[k] == order[k]);
            }
            if joined {
                assert(mutual(g, b, vertex as int));
                assert forall|r: int| #[trigger] reach(g, b, r) implies covered(g, order2, b, r) by {
                    lemma_reach_trans(g, vertex as int, b, r);
                    lemma_closed_forward(g, s, vertex as int, r);
                    let m = choose|m: int| 0 <= m < order2.len() && (#[trigger] order2[m]) == r;
                    assert(0 <= m <= last < order2.len() && order2[m] == r && mutual(
                        g,
                        b,
                        order2[last] as int,
                    ));
                }
                assert(settled(g, order2, b));
            } else {
                if settled(g, order, b) {
                    lemma_settled_extends(g, order, vertex, b);
                } else {
                    assert(pending(g, visited, order, b));
                    let y = choose|y: int| gray(visited, order, y) && #[trigger] mutual(g, b, y);
                    assert(y != vertex);
                    assert(gray(visited, order2, y));
                    assert(pending(g, visited, order2, b));
                }
            }
        }
    }
}

/// Which vertices have a component.
pub open spec fn assigned(components: Seq<Option<usize>>) -> Seq<bool> {
    components.map_values(|c: Option<usize>| c is Some)
}

/// Every edge that leaves `x` leads to a vertex with a component.
pub open spec fn closed_at(t: Seq<Seq<usize>>, components: Seq<Option<usize>>, x: int) -> bool {
    forall|j: int| 0 <= j < t[x].len() ==> components[(#[trigger] t[x][j]) as int] is Some
}

/// Vertex `x` got its component between `before` and `after`.
pub open spec fn newly(before: Seq<Option<usize>>, after: Seq<Option<usize>>, x: int) -> bool {
    0 <= x < before.len() && before[x] is None && after[x] is Some
}

/// Where vertex `c` stands in the order.
pub open spec fn position(order: Seq<usize>, c: int) -> int {
    choose|z: int| 0 <= z < order.len() && (#[trigger] order[z]) == c
}

/// Where the component of vertex `x` stands in the order.
pub open spec fn rank(order: Seq<usize>, components: Seq<Option<usize>>, x: int) -> int {
    position(order, components[x].unwrap() as int)
}

/// In an order without repetition each vertex stands where it stands.
pub proof fn lemma_position(order: Seq<usize>, z: int)
    requires
        order.no_duplicates(),
        0 <= z < order.len(),
    ensures
        position(order, order[z] as int) == z,
{
    let p = position(order, order[z] as int);
    assert(0 <= p < order.len() && order[p] == order[z]);
}

/// What the first pass leaves behind: every vertex stands in the order,
/// once, and is settled.
pub open spec fn first_pass_done(g: Seq<Seq<usize>>, order: Seq<usize>) -> bool {
    &&& order.no_duplicates()
    &&& forall|k: int| 0 <= k < order.len() ==> (#[trigger] order[k]) < g.len()
    &&& forall|x: int| 0 <= x < g.len() ==> listed(order, x)
    &&& forall|x: int| 0 <= x < g.len() ==> settled(g, order, x)
}

/// What holds in the second pass once the vertices from place `i` of the
/// order on have been taken as roots: they have a component; the edges
/// that enter a vertex with a component come from such vertices, whose
/// component stands no earlier in the order; and each vertex with a
/// component shares a strongly connected component with it.
pub open spec fn second_pass_inv(
    g: Seq<Seq<usize>>,
    t: Seq<Seq<usize>>,
    order: Seq<usize>,
    components: Seq<Option<usize>>,
    i: int,
) -> bool {
    &&& components.len() == g.len()
    &&& forall|k: int| i <= k < order.len() ==> components[(#[trigger] order[k]) as int] is Some
    &&& forall|x: int|
        0 <= x < components.len() && (#[trigger] components[x]) is Some ==> {
            &&& closed_at(t, components, x)
            &&& components[x].unwrap() < g.len()
            &&& i <= rank(order, components, x) < order.len()
            &&& order[rank(order, components, x)] == components[x].unwrap()
            &&& mutual(g, x, components[x].unwrap() as int)
        }
    &&& forall|x: int, j: int|
        0 <= x < components.len() && components[x] is Some && 0 <= j < t[x].len() ==> rank(
            order,
            components,
            (#[trigger] t[x][j]) as int,
        ) >= rank(order, components, x)
}

/// One root of the second pass keeps what holds in it.
pub proof fn lemma_second_pass_step(
    g: Seq<Seq<usize>>,
    t: Seq<Seq<usize>>,
    order: Seq<usize>,
    before: Seq<Option<usize>>,
    after: Seq<Option<usize>>,
    i: int,
)
    requires
        well_formed(g),
        well_formed(t),
        transposed(g, t),
        first_pass_done(g, order),
        0 <= i < order.len(),
        second_pass_inv(g, t, order, before, i + 1),
        after.len() == before.len(),
        after[order[i] as int] is Some,
        before[order[i] as int] is Some ==> after == before,
        forall|x: int| 0 <= x < before.len() && before[x] is Some ==> after[x] == before[x],
        forall|x: int| #[trigger]
            newly(before, after, x) ==> after[x] == Some(order[i]) && reach(t, order[i] as int, x)
                && closed_at(t, after, x),
    ensures
        second_pass_inv(g, t, order, after, i),
{
    let root = order[i] as int;
    if before[root] is Some {
        assert(second_pass_inv(g, t, order, after, i));
    } else {
        lemma_position(order, i);
        let done = Set::new(|y: int| 0 <= y < before.len() && before[y] is Some);
        assert forall|a: int, b: int| done.contains(b) && #[trigger] has_edge(g, a, b) implies done.contains(
            a,
        ) by {
            assert(has_edge(t, b, a));
            let j = choose|j: int| 0 <= j < t[b].len() && #[trigger] t[b][j] == a;
            assert(closed_at(t, before, b));
            assert(before[t[b][j] as int] is Some);
        }
        assert forall|x: int| 0 <= x < after.len() && (#[trigger] after[x]) is Some implies {
            &&& closed_at(t, after, x)
            &&& after[x].unwrap() < g.len()
            &&& i <= rank(order, after, x) < order.len()
            &&& order[rank(order, after, x)] == after[x].unwrap()
            &&& mutual(g, x, after[x].unwrap() as int)
        } by {
            if before[x] is Some {
                assert(after[x] == before[x]);
                assert(closed_at(t, before, x));
                assert forall|j: int| 0 <= j < t[x].len() implies after[(#[trigger] t[x][j]) as int] is Some by {
                    assert(before[t[x][j] as int] is Some);
                }
            } else {
                assert(newly(before, after, x));
                lemma_reach_transposed(g, t, x, root);
                assert(settled(g, order, x));
                assert(covered(g, order, x, root));
                let (m, z) = choose|m: int, z: int|
                    #![trigger order[m], order[z]]
                    0 <= m <= z < order.len() && order[m] == root && mutual(
                        g,
                        x,
                        order[z] as int,
                    );
                assert(m == i);
                if z > i {
                    assert(before[order[z] as int] is Some);
                    assert(done.contains(order[z] as int));
                    lemma_closed_backward(g, done, x, order[z] as int);
                    assert(false);
                }
            }
        }
        assert forall|k: int| i <= k < order.len() implies after[(#[trigger] order[k]) as int] is Some by {
            if k > i {
                assert(before[order[k] as int] is Some);
            }
        }
        assert forall|x: int, j: int|
            0 <= x < after.len() && after[x] is Some && 0 <= j < t[x].len() implies rank(
            order,
            after,
            (#[trigger] t[x][j]) as int,
        ) >= rank(order, after, x) by {
            let y = t[x][j] as int;
            if before[x] is Some {
                assert(closed_at(t, before, x));
                assert(before[y] is Some);
                assert(after[y] == before[y]);
                assert(after[x] == before[x]);
                assert(rank(order, before, y) >= rank(order, before, x));
            } else {
                assert(newly(before, after, x));
                assert(closed_at(t, after, x));
                assert(after[y] is Some);
                if before[y] is Some {
                    assert(after[y] == before[y]);
                    assert(rank(order, before, y) >= i + 1);
                } else {
                    assert(newly(before, after, y));
                }
            }
        }
    }
}

/// The two vertices of variable `v` have different components.
pub open spec fn apart(components: Seq<Option<usize>>, v: int) -> bool {
    components[2 * v] != components[2 * v + 1]
}

/// The assignment read off the components: a variable is true where the
/// component of its true vertex stands earlier in the order than that of
/// its false vertex.
pub open spec fn component_assignment(order: Seq<usize>, components: Seq<Option<usize>>) -> Assignment {
    |v: u32| rank(order, components, 2 * v) < rank(order, components, 2 * v + 1)
}

/// Where no variable has both its vertices in one component at the end of
/// the second pass, the assignment read off the components satisfies the
/// formula.
pub proof fn lemma_components_satisfy(
    f: Seq<Seq<CNFLiteral>>,
    g: Seq<Seq<usize>>,
    t: Seq<Seq<usize>>,
    order: Seq<usize>,
    components: Seq<Option<usize>>,
    n: int,
)
    requires
        width_two(f),
        vertices_below(f, 2 * n),
        g.len() == 2 * n,
        implication_graph(f, g),
        transposed(g, t),
        first_pass_done(g, order),
        second_pass_inv(g, t, order, components, 0),
        forall|v: int| 0 <= v < n ==> #[trigger] apart(components, v),
    ensures
        formula_holds(component_assignment(order, components), f),
{
    let a = component_assignment(order, components);
    assert forall|x: int| 0 <= x < g.len() implies (#[trigger] components[x]) is Some by {
        assert(listed(order, x));
        let k = choose|k: int| 0 <= k < order.len() && (#[trigger] order[k]) == x;
        assert(components[order[k] as int] is Some);
    }
    assert forall|i: int| 0 <= i < f.len() implies clause_holds(a, #[trigger] f[i]) by {
        let c = f[i];
        assert(c.len() == 2);
        let v0 = c[0].variable as int;
        let v1 = c[1].variable as int;
        assert(2 * f[i][0].variable + 1 < 2 * n);
        assert(2 * f[i][1].variable + 1 < 2 * n);
        let t0 = vertex_of(c[0], false);
        let f0 = vertex_of(c[0], true);
        let t1 = vertex_of(c[1], false);
        let f1 = vertex_of(c[1], true);
        assert(clause_implies(f[i], f0, t1));
        assert(clause_implies(f[i], f1, t0));
        assert(implication(f, f.len() as int, f0, t1));
        assert(implication(f, f.len() as int, f1, t0));
        assert(has_edge(g, f0, t1));
        assert(has_edge(g, f1, t0));
        assert(has_edge(t, t1, f0));
        assert(has_edge(t, t0, f1));
        let j1 = choose|j: int| 0 <= j < t[t1].len() && #[trigger] t[t1][j] == f0;
        let j0 = choose|j: int| 0 <= j < t[t0].len() && #[trigger] t[t0][j] == f1;
        assert(components[t1] is Some);
        assert(components[t0] is Some);
        assert(rank(order, components, t[t1][j1] as int) >= rank(order, components, t1));
        assert(rank(order, components, t[t0][j0] as int) >= rank(order, components, t0));
        assert(apart(components, v0));
        assert(apart(components, v1));
        assert(components[2 * v0] is Some && components[2 * v0 + 1] is Some);
        assert(components[2 * v1] is Some && components[2 * v1 + 1] is Some);
        assert(rank(order, components, 2 * v0) != rank(order, components, 2 * v0 + 1));
        assert(rank(order, components, 2 * v1) != rank(order, components, 2 * v1 + 1));
        if !literal_holds(a, c[0]) && !literal_holds(a, c[1]) {
            assert(rank(order, components, t0) > rank(order, components, f0));
            assert(rank(order, components, t1) > rank(order, components, f1));
            assert(false);
        }
        if literal_holds(a, c[0]) {
            assert(literal_holds(a, f[i][0]));
        } else {
            assert(literal_holds(a, f[i][1]));
        }
    }
}

} // verus!
