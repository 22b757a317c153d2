//! Decision procedure for formulas whose clauses have exactly two
//! literals: the implication graph of the formula, its strongly connected
//! components by two depth-first passes, and the answer read off them.

use crate::cnf::{CNFFormula, CNFLiteral, satisfiable};
use crate::dpll::dpll_sat;
use crate::components::{
    apart, assigned, closed_at, first_pass_done, first_pass_inv, gray, lemma_components_satisfy,
    lemma_leave_vertex, lemma_second_pass_step, listed, newly, pending, second_pass_inv, settled,
};
use crate::graph::{
    count_false, graph_of, has_edge, lemma_count_false_monotone, lemma_count_false_set,
    lemma_reach_edge, lemma_reach_refl, lemma_reach_step, lemma_reach_trans, mutual, reach, simple,
    transposed, well_formed,
};
use crate::implication::{
    clause_implies, implication, implication_graph, lemma_conflict_unsatisfiable, vertex_of,
    vertices_below, vertices_fit, width_two,
};
use vstd::prelude::*;

verus! {

/// The vertex of the literal, or of its complement where `negate` is set.
pub fn compute_idx(literal: &CNFLiteral, negate: bool) -> (idx: usize)
    requires
        2 * literal.variable + 1 <= usize::MAX,
    ensures
        idx == vertex_of(*literal, negate),
{
    if negate == literal.negate {
        2 * (literal.variable as usize)
    } else {
        2 * (literal.variable as usize) + 1
    }
}

/// Whether the list holds the vertex.
fn list_has(list: &Vec<usize>, vertex: usize) -> (found: bool)
    ensures
        found == list@.contains(vertex),
{
    let mut j: usize = 0;
    while j < list.len()
        invariant
            j <= list.len(),
            forall|i: int| 0 <= i < j ==> list@[i] != vertex,
        decreases list.len() - j,
    {
        if list[j] == vertex {
            return true;
        }
        j += 1;
    }
    false
}

/// Adds the edge from `from` to `to`, unless the graph has it.
fn add_edge(adj: &mut Vec<Vec<usize>>, from: usize, to: usize)
    requires
        well_formed(graph_of(old(adj)@)),
        simple(graph_of(old(adj)@)),
        from < old(adj).len(),
        to < old(adj).len(),
    ensures
        final(adj).len() == old(adj).len(),
        well_formed(graph_of(final(adj)@)),
        simple(graph_of(final(adj)@)),
        forall|u: int, v: int|
            has_edge(graph_of(final(adj)@), u, v) <==> (has_edge(graph_of(old(adj)@), u, v) || (u
                == from && v == to)),
{
    let ghost g0 = graph_of(adj@);
    if list_has(&adj[from], to) {
        proof {
            assert(g0[from as int].contains(to));
            let j = choose|j: int| 0 <= j < g0[from as int].len() && g0[from as int][j] == to;
            assert(g0[from as int][j] == to);
            assert(has_edge(g0, from as int, to as int));
        }
        return ;
    }
    adj[from].push(to);
    proof {
        let g1 = graph_of(adj@);
        assert(g1[from as int] == g0[from as int].push(to));
        assert forall|u: int, v: int| has_edge(g1, u, v) <==> (has_edge(g0, u, v) || (u == from
            && v == to)) by {
            if has_edge(g1, u, v) {
                let j = choose|j: int| 0 <= j < g1[u].len() && #[trigger] g1[u][j] == v;
                if u == from {
                    if j < g0[u].len() {
                        assert(g0[u][j] == v);
                    }
                } else {
                    assert(g0[u] == g1[u]);
                    assert(g0[u][j] == v);
                }
            }
            if has_edge(g0, u, v) {
                let j = choose|j: int| 0 <= j < g0[u].len() && #[trigger] g0[u][j] == v;
                assert(g1[u][j] == v);
            }
            if u == from && v == to {
                assert(g1[u][g1[u].len() - 1] == v);
            }
        }
        assert forall|u: int, j: int| 0 <= u < g1.len() && 0 <= j < g1[u].len() implies #[trigger] g1[u][j]
            < g1.len() by {
            if u == from {
                if j < g0[u].len() {
                    assert(g1[u][j] == g0[u][j]);
                }
            } else {
                assert(g1[u][j] == g0[u][j]);
            }
        }
        assert forall|u: int| 0 <= u < g1.len() implies (#[trigger] g1[u]).no_duplicates() by {
            assert(g0[u].no_duplicates());
            if u == from {
                assert forall|i: int, j: int|
                    0 <= i < g1[u].len() && 0 <= j < g1[u].len() && i != j implies g1[u][i]
                    != g1[u][j] by {
                    if i < g0[u].len() {
                        assert(g0[u][i] == g1[u][i]);
                        assert(g0[u].contains(g0[u][i]));
                    }
                    if j < g0[u].len() {
                        assert(g0[u][j] == g1[u][j]);
                        assert(g0[u].contains(g0[u][j]));
                    }
                }
            } else {
                assert(g1[u] == g0[u]);
            }
        }
    }
}

/// A graph of `vertices` vertices and no edge.
fn empty_digraph(vertices: usize) -> (adj: Vec<Vec<usize>>)
    ensures
        adj.len() == vertices,
        forall|u: int| 0 <= u < vertices ==> (#[trigger] graph_of(adj@)[u]).len() == 0,
{
    let mut adj: Vec<Vec<usize>> = Vec::new();
    while adj.len() < vertices
        invariant
            adj.len() <= vertices,
            forall|u: int| 0 <= u < adj.len() ==> (#[trigger] graph_of(adj@)[u]).len() == 0,
        decreases vertices - adj.len(),
    {
        let ghost before = graph_of(adj@);
        adj.push(Vec::new());
        proof {
            assert forall|u: int| 0 <= u < adj.len() implies (#[trigger] graph_of(adj@)[u]).len()
                == 0 by {
                if u < before.len() {
                    assert(graph_of(adj@)[u] == before[u]);
                }
            }
        }
    }
    adj
}

/// The implication graph of the formula on `vertices` vertices, and the
/// same graph with every edge turned round.
pub fn build_digraph(formula: &CNFFormula, vertices: usize) -> (graphs: (
    Vec<Vec<usize>>,
    Vec<Vec<usize>>,
))
    requires
        width_two(formula@),
        vertices_below(formula@, vertices as int),
    ensures
        graphs.0.len() == vertices,
        graphs.1.len() == vertices,
        well_formed(graph_of(graphs.0@)),
        well_formed(graph_of(graphs.1@)),
        simple(graph_of(graphs.0@)),
        simple(graph_of(graphs.1@)),
        forall|u: int, v: int|
            has_edge(graph_of(graphs.0@), u, v) <==> implication(
                formula@,
                formula@.len() as int,
                u,
                v,
            ),
        transposed(graph_of(graphs.0@), graph_of(graphs.1@)),
{
    let mut adj = empty_digraph(vertices);
    let mut adj_t = empty_digraph(vertices);
    let mut i: usize = 0;
    while i < formula.clauses.len()
        invariant
            i <= formula.clauses.len(),
            width_two(formula@),
            vertices_below(formula@, vertices as int),
            adj.len() == vertices,
            adj_t.len() == vertices,
            well_formed(graph_of(adj@)),
            well_formed(graph_of(adj_t@)),
            simple(graph_of(adj@)),
            simple(graph_of(adj_t@)),
            forall|u: int, v: int|
                has_edge(graph_of(adj@), u, v) <==> implication(formula@, i as int, u, v),
            forall|u: int, v: int|
                has_edge(graph_of(adj_t@), v, u) <==> implication(formula@, i as int, u, v),
        decreases formula.clauses.len() - i,
    {
        let clause = &formula.clauses[i];
        proof {
            assert(formula@[i as int] == clause@);
            assert(formula@[i as int].len() == 2);
            assert(2 * formula@[i as int][0].variable + 1 < vertices);
            assert(2 * formula@[i as int][1].variable + 1 < vertices);
        }
        let ghost g0 = graph_of(adj@);
        let ghost t0 = graph_of(adj_t@);
        let not_first = compute_idx(&clause.literals[0], true);
        let first = compute_idx(&clause.literals[0], false);
        let not_second = compute_idx(&clause.literals[1], true);
        let second = compute_idx(&clause.literals[1], false);
        add_edge(&mut adj, not_first, second);
        add_edge(&mut adj_t, second, not_first);
        add_edge(&mut adj, not_second, first);
        add_edge(&mut adj_t, first, not_second);
        proof {
            let g1 = graph_of(adj@);
            let t1 = graph_of(adj_t@);
            assert forall|u: int, v: int| has_edge(g1, u, v) <==> implication(
                formula@,
                i + 1,
                u,
                v,
            ) by {
                assert(has_edge(g0, u, v) <==> implication(formula@, i as int, u, v));
                if implication(formula@, i + 1, u, v) {
                    let k = choose|k: int|
                        0 <= k < i + 1 && k < formula@.len() && clause_implies(
                            #[trigger] formula@[k],
                            u,
                            v,
                        );
                    if k < i {
                        assert(implication(formula@, i as int, u, v));
                    }
                }
                if implication(formula@, i as int, u, v) {
                    let k = choose|k: int|
                        0 <= k < i && k < formula@.len() && clause_implies(
                            #[trigger] formula@[k],
                            u,
                            v,
                        );
                    assert(implication(formula@, i + 1, u, v));
                }
                if clause_implies(formula@[i as int], u, v) {
                    assert(implication(formula@, i + 1, u, v));
                }
            }
            assert forall|u: int, v: int| has_edge(t1, v, u) <==> implication(
                formula@,
                i + 1,
                u,
                v,
            ) by {
                assert(has_edge(t0, v, u) <==> implication(formula@, i as int, u, v));
                assert(has_edge(g0, u, v) <==> implication(formula@, i as int, u, v));
                assert(has_edge(g1, u, v) <==> implication(formula@, i + 1, u, v));
            }
        }
        i += 1;
    }
    (adj, adj_t)
}

/// First pass: enters `vertex` unless it has been entered, follows its
/// edges depth first, and appends it to `ordering` on leaving it.
fn dfs1(
    adj: &Vec<Vec<usize>>,
    vertex: usize,
    visited: &mut Vec<bool>,
    ordering: &mut Vec<usize>,
)
    requires
        well_formed(graph_of(adj@)),
        vertex < adj.len(),
        first_pass_inv(graph_of(adj@), old(visited)@, old(ordering)@),
        forall|x: int|
            gray(old(visited)@, old(ordering)@, x) ==> reach(graph_of(adj@), x, vertex as int),
    ensures
        first_pass_inv(graph_of(adj@), final(visited)@, final(ordering)@),
        final(visited)@[vertex as int],
        forall|x: int| 0 <= x < old(visited).len() && old(visited)@[x] ==> final(visited)@[x],
        forall|x: int| #[trigger]
            gray(final(visited)@, final(ordering)@, x) <==> gray(
                old(visited)@,
                old(ordering)@,
                x,
            ),
    decreases count_false(old(visited)@),
{
    if visited[vertex] {
        return ;
    }
    let ghost g = graph_of(adj@);
    let ghost visited0 = visited@;
    let ghost order0 = ordering@;
    visited.set(vertex, true);
    proof {
        lemma_count_false_set(visited0, vertex as int);
        assert(!listed(order0, vertex as int)) by {
            if listed(order0, vertex as int) {
                let k = choose|k: int| 0 <= k < order0.len() && (#[trigger] order0[k]) == vertex;
                assert(visited0[order0[k] as int]);
            }
        }
        assert forall|k: int| 0 <= k < order0.len() implies settled(
            g,
            order0,
            (#[trigger] order0[k]) as int,
        ) || pending(g, visited@, order0, order0[k] as int) by {
            let b = order0[k] as int;
            if !settled(g, order0, b) {
                assert(pending(g, visited0, order0, b));
                let y = choose|y: int| gray(visited0, order0, y) && #[trigger] mutual(g, b, y);
                assert(gray(visited@, order0, y));
            }
        }
    }
    let mut j: usize = 0;
    while j < adj[vertex].len()
        invariant
            j <= adj[vertex as int].len(),
            g == graph_of(adj@),
            well_formed(g),
            vertex < adj.len(),
            visited0 == old(visited)@,
            visited0.len() == g.len(),
            first_pass_inv(g, visited@, ordering@),
            forall|x: int| #[trigger]
                gray(visited@, ordering@, x) <==> (gray(visited0, order0, x) || x == vertex),
            forall|x: int| gray(visited0, order0, x) ==> reach(g, x, vertex as int),
            forall|x: int| 0 <= x < visited0.len() && visited0[x] ==> visited@[x],
            visited@[vertex as int],
            forall|i: int| 0 <= i < j ==> visited@[(#[trigger] g[vertex as int][i]) as int],
            count_false(visited@) < count_false(visited0),
        decreases adj[vertex as int].len() - j,
    {
        let neighbour = adj[vertex][j];
        let ghost visited1 = visited@;
        let ghost order1 = ordering@;
        proof {
            assert(gray(visited1, order1, vertex as int));
            assert(g[vertex as int][j as int] == neighbour);
            assert(has_edge(g, vertex as int, neighbour as int));
            assert forall|x: int| gray(visited@, ordering@, x) implies reach(
                g,
                x,
                neighbour as int,
            ) by {
                if x == vertex {
                    lemma_reach_edge(g, vertex as int, neighbour as int);
                } else {
                    lemma_reach_step(g, x, vertex as int, neighbour as int);
                }
            }
        }
        dfs1(adj, neighbour, visited, ordering);
        proof {
            lemma_count_false_monotone(visited1, visited@);
            assert forall|x: int| #[trigger]
                gray(visited@, ordering@, x) <==> (gray(visited0, order0, x) || x == vertex) by {
                assert(gray(visited@, ordering@, x) <==> gray(visited1, order1, x));
            }
        }
        j += 1;
    }
    proof {
        assert forall|x: int| gray(visited@, ordering@, x) && x != vertex implies reach(
            g,
            x,
            vertex as int,
        ) by {}
        lemma_leave_vertex(g, visited@, ordering@, vertex);
        let order2 = ordering@.push(vertex);
        assert forall|x: int| gray(visited@, order2, x) <==> gray(visited0, order0, x) by {
            assert(gray(visited@, ordering@, x) <==> (gray(visited0, order0, x) || x == vertex));
            assert(!gray(visited0, order0, vertex as int));
            if listed(order2, x) {
                let k = choose|k: int| 0 <= k < order2.len() && (#[trigger] order2[k]) == x;
                if k < ordering@.len() {
                    assert(ordering@[k] == x);
                }
            }
            if listed(ordering@, x) {
                let k = choose|k: int| 0 <= k < ordering@.len() && (#[trigger] ordering@[k]) == x;
                assert(order2[k] == x);
            }
            if x == vertex {
                assert(order2[ordering@.len() as int] == x);
            }
        }
    }
    ordering.push(vertex);
}

/// Second pass: gives `vertex` and whatever it reaches through vertices
/// without a component the component `root`.
fn dfs2(
    adj_t: &Vec<Vec<usize>>,
    root: usize,
    vertex: usize,
    components: &mut Vec<Option<usize>>,
)
    requires
        well_formed(graph_of(adj_t@)),
        old(components).len() == adj_t.len(),
        root < adj_t.len(),
        vertex < adj_t.len(),
        reach(graph_of(adj_t@), root as int, vertex as int),
    ensures
        final(components).len() == old(components).len(),
        final(components)@[vertex as int] is Some,
        old(components)@[vertex as int] is Some ==> final(components)@ == old(components)@,
        forall|x: int|
            0 <= x < old(components).len() && old(components)@[x] is Some
                ==> final(components)@[x] == old(components)@[x],
        forall|x: int| #[trigger]
            newly(old(components)@, final(components)@, x) ==> final(components)@[x] == Some(root)
                && reach(graph_of(adj_t@), root as int, x) && closed_at(
                graph_of(adj_t@),
                final(components)@,
                x,
            ),
    decreases count_false(assigned(old(components)@)),
{
    if components[vertex].is_some() {
        return ;
    }
    let ghost t = graph_of(adj_t@);
    let ghost comps0 = components@;
    components.set(vertex, Some(root));
    proof {
        lemma_count_false_set(assigned(comps0), vertex as int);
        assert(assigned(components@) =~= assigned(comps0).update(vertex as int, true));
    }
    let mut j: usize = 0;
    while j < adj_t[vertex].len()
        invariant
            j <= adj_t[vertex as int].len(),
            t == graph_of(adj_t@),
            well_formed(t),
            root < adj_t.len(),
            vertex < adj_t.len(),
            comps0 == old(components)@,
            comps0.len() == adj_t.len(),
            comps0[vertex as int] is None,
            components.len() == comps0.len(),
            reach(t, root as int, vertex as int),
            components@[vertex as int] == Some(root),
            forall|x: int|
                0 <= x < comps0.len() && comps0[x] is Some ==> components@[x] == comps0[x],
            forall|x: int| #[trigger]
                newly(comps0, components@, x) ==> components@[x] == Some(root) && reach(
                    t,
                    root as int,
                    x,
                ) && (x != vertex ==> closed_at(t, components@, x)),
            forall|i: int| 0 <= i < j ==> components@[(#[trigger] t[vertex as int][i]) as int] is Some,
            count_false(assigned(components@)) < count_false(assigned(comps0)),
        decreases adj_t[vertex as int].len() - j,
    {
        let neighbour = adj_t[vertex][j];
        let ghost comps1 = components@;
        proof {
            assert(t[vertex as int][j as int] == neighbour);
            assert(has_edge(t, vertex as int, neighbour as int));
            lemma_reach_step(t, root as int, vertex as int, neighbour as int);
        }
        dfs2(adj_t, root, neighbour, components);
        proof {
            let comps2 = components@;
            assert forall|i: int| 0 <= i < comps1.len() && assigned(comps1)[i] implies assigned(
                comps2,
            )[i] by {}
            lemma_count_false_monotone(assigned(comps1), assigned(comps2));
            assert forall|x: int| #[trigger] newly(comps0, comps2, x) implies comps2[x] == Some(
                root,
            ) && reach(t, root as int, x) && (x != vertex ==> closed_at(t, comps2, x)) by {
                if newly(comps1, comps2, x) {
                } else {
                    assert(newly(comps0, comps1, x));
                    assert(comps2[x] == comps1[x]);
                    if x != vertex {
                        assert(closed_at(t, comps1, x));
                        assert forall|i: int| 0 <= i < t[x].len() implies comps2[(
                        #[trigger] t[x][i]) as int] is Some by {
                            assert(comps1[t[x][i] as int] is Some);
                        }
                    }
                }
            }
            assert forall|i: int| 0 <= i < j + 1 implies comps2[(
            #[trigger] t[vertex as int][i]) as int] is Some by {
                if i < j {
                    assert(comps1[t[vertex as int][i] as int] is Some);
                }
            }
        }
        j += 1;
    }
    proof {
        assert(closed_at(t, components@, vertex as int));
    }
}

/// Some literal of the formula is over variable `v`.
pub open spec fn formula_has_variable(f: Seq<Seq<CNFLiteral>>, v: int) -> bool {
    exists|i: int, j: int|
        0 <= i < f.len() && 0 <= j < f[i].len() && (#[trigger] f[i][j]).variable == v
}

/// The number of variables that the vertices are made for: one more than
/// the greatest variable of the formula, or none where it has no literal.
fn variable_bound(formula: &CNFFormula) -> (n: usize)
    requires
        forall|i: int, j: int|
            0 <= i < formula@.len() && 0 <= j < formula@[i].len() ==> (
            #[trigger] formula@[i][j]).variable < usize::MAX,
    ensures
        forall|i: int, j: int|
            0 <= i < formula@.len() && 0 <= j < formula@[i].len() ==> (
            #[trigger] formula@[i][j]).variable < n,
        n == 0 || formula_has_variable(formula@, (n - 1) as int),
{
    let mut n: usize = 0;
    let mut i: usize = 0;
    while i < formula.clauses.len()
        invariant
            i <= formula.clauses.len(),
            forall|i: int, j: int|
                0 <= i < formula@.len() && 0 <= j < formula@[i].len() ==> (
                #[trigger] formula@[i][j]).variable < usize::MAX,
            forall|k: int, j: int|
                0 <= k < i && 0 <= j < formula@[k].len() ==> (#[trigger] formula@[k][j]).variable
                    < n,
            n == 0 || formula_has_variable(formula@, (n - 1) as int),
        decreases formula.clauses.len() - i,
    {
        let clause = &formula.clauses[i];
        let mut j: usize = 0;
        while j < clause.literals.len()
            invariant
                j <= clause.literals.len(),
                i < formula.clauses.len(),
                clause@ == formula@[i as int],
                forall|i: int, j: int|
                    0 <= i < formula@.len() && 0 <= j < formula@[i].len() ==> (
                    #[trigger] formula@[i][j]).variable < usize::MAX,
                forall|k: int, j: int|
                    0 <= k < i && 0 <= j < formula@[k].len() ==> (
                    #[trigger] formula@[k][j]).variable < n,
                forall|m: int| 0 <= m < j ==> (#[trigger] formula@[i as int][m]).variable < n,
                n == 0 || formula_has_variable(formula@, (n - 1) as int),
            decreases clause.literals.len() - j,
        {
            let variable = clause.literals[j].variable;
            proof {
                assert(formula@[i as int][j as int].variable == variable);
            }
            if variable as usize >= n {
                n = variable as usize + 1;
            }
            j += 1;
        }
        i += 1;
    }
    n
}

/// What `digraph_2sat` answers, for where the name of the procedure
/// stands in a contract.
pub open spec fn digraph_answer(formula: &CNFFormula) -> bool {
    satisfiable(formula@)
}

/// The two procedures give the same answer on every formula that the
/// procedure for clauses of two literals takes.
pub proof fn lemma_procedures_agree(formula: &CNFFormula)
    requires
        width_two(formula@),
        vertices_fit(formula@),
    ensures
        digraph_2sat(formula) == dpll_sat(formula),
{
}

/// Decides whether a formula of clauses of two literals is satisfiable.
///
/// Builds the implication graph, orders its vertices by a first
/// depth-first pass, gives each a component by a second pass over the
/// turned edges, and answers that the formula is satisfiable exactly when
/// no variable has its two vertices in one component.
#[verifier::when_used_as_spec(digraph_answer)]
pub fn digraph_2sat(formula: &CNFFormula) -> (sat: bool)
    requires
        width_two(formula@),
        vertices_fit(formula@),
    ensures
        sat == satisfiable(formula@),
        sat == digraph_answer(formula),
{
    let n = variable_bound(formula);
    proof {
        if n != 0 {
            let (i, j) = choose|i: int, j: int|
                0 <= i < formula@.len() && 0 <= j < formula@[i].len() && (
                #[trigger] formula@[i][j]).variable == n - 1;
            assert(2 * formula@[i][j].variable + 2 <= usize::MAX);
        }
        assert(n <= u32::MAX + 1);
    }
    let vertices = 2 * n;
    let (adj, adj_t) = build_digraph(formula, vertices);
    let ghost g = graph_of(adj@);
    let ghost t = graph_of(adj_t@);

    let mut ordering: Vec<usize> = Vec::new();
    let mut visited: Vec<bool> = Vec::new();
    while visited.len() < vertices
        invariant
            visited.len() <= vertices,
            forall|x: int| 0 <= x < visited.len() ==> !visited@[x],
        decreases vertices - visited.len(),
    {
        visited.push(false);
    }
    let mut vertex: usize = 0;
    while vertex < vertices
        invariant
            vertex <= vertices,
            vertices == adj.len(),
            g == graph_of(adj@),
            well_formed(g),
            first_pass_inv(g, visited@, ordering@),
            forall|x: int| !gray(visited@, ordering@, x),
            forall|x: int| 0 <= x < vertex ==> visited@[x],
        decreases vertices - vertex,
    {
        let ghost visited1 = visited@;
        let ghost order1 = ordering@;
        dfs1(&adj, vertex, &mut visited, &mut ordering);
        proof {
            assert forall|x: int| !gray(visited@, ordering@, x) by {
                assert(gray(visited@, ordering@, x) <==> gray(visited1, order1, x));
            }
        }
        vertex += 1;
    }
    proof {
        assert forall|x: int| 0 <= x < g.len() implies listed(ordering@, x) by {
            assert(!gray(visited@, ordering@, x));
        }
        assert forall|x: int| 0 <= x < g.len() implies settled(g, ordering@, x) by {
            assert(listed(ordering@, x));
            let k = choose|k: int| 0 <= k < ordering@.len() && (#[trigger] ordering@[k]) == x;
            if pending(g, visited@, ordering@, ordering@[k] as int) {
                let y = choose|y: int|
                    gray(visited@, ordering@, y) && #[trigger] mutual(g, ordering@[k] as int, y);
                assert(false);
            }
        }
        assert(first_pass_done(g, ordering@));
    }

    let mut components: Vec<Option<usize>> = Vec::new();
    while components.len() < vertices
        invariant
            components.len() <= vertices,
            forall|x: int| 0 <= x < components.len() ==> components@[x] is None,
        decreases vertices - components.len(),
    {
        components.push(None);
    }
    let mut i: usize = ordering.len();
    while i > 0
        invariant
            i <= ordering.len(),
            vertices == adj_t.len(),
            g == graph_of(adj@),
            t == graph_of(adj_t@),
            g.len() == vertices,
            well_formed(g),
            well_formed(t),
            transposed(g, t),
            first_pass_done(g, ordering@),
            second_pass_inv(g, t, ordering@, components@, i as int),
        decreases i,
    {
        i -= 1;
        let root = ordering[i];
        let ghost before = components@;
        proof {
            lemma_reach_refl(t, root as int);
        }
        dfs2(&adj_t, root, root, &mut components);
        proof {
            lemma_second_pass_step(g, t, ordering@, before, components@, i as int);
        }
    }

    let mut variable: usize = 0;
    while variable < n
        invariant
            variable <= n,
            n <= u32::MAX + 1,
            vertices == 2 * n,
            components.len() == vertices,
            g.len() == vertices,
            width_two(formula@),
            implication_graph(formula@, g),
            first_pass_done(g, ordering@),
            second_pass_inv(g, t, ordering@, components@, 0),
            forall|v: int| 0 <= v < variable ==> #[trigger] apart(components@, v),
        decreases n - variable,
    {
        if components[2 * variable] == components[2 * variable + 1] {
            proof {
                let x = components@[2 * variable as int];
                let v = variable as int;
                assert(listed(ordering@, 2 * v));
                let k = choose|k: int|
                    0 <= k < ordering@.len() && (#[trigger] ordering@[k]) == 2 * v;
                assert(components@[ordering@[k] as int] is Some);
                let c = components@[2 * v].unwrap() as int;
                assert(mutual(g, 2 * v, c));
                assert(components@[2 * v + 1] is Some);
                assert(mutual(g, 2 * v + 1, c));
                lemma_reach_trans(g, 2 * v, c, 2 * v + 1);
                lemma_reach_trans(g, 2 * v + 1, c, 2 * v);
                lemma_conflict_unsatisfiable(formula@, g, v);
            }
            return false;
        }
        variable += 1;
    }
    proof {
        lemma_components_satisfy(formula@, g, t, ordering@, components@, n as int);
    }
    true
}

/// Whether every clause of the formula has exactly two literals.
pub fn has_width_two(formula: &CNFFormula) -> (yes: bool)
    ensures
        yes == width_two(formula@),
{
    let mut i: usize = 0;
    while i < formula.clauses.len()
        invariant
            i <= formula.clauses.len(),
            forall|k: int| 0 <= k < i ==> (#[trigger] formula@[k]).len() == 2,
        decreases formula.clauses.len() - i,
    {
        if formula.clauses[i].literals.len() != 2 {
            proof {
                assert(formula@[i as int].len() != 2);
            }
            return false;
        }
        i += 1;
    }
    true
}

/// Whether the vertices of every literal can be counted in `usize`.
fn has_vertices_that_fit(formula: &CNFFormula) -> (yes: bool)
    ensures
        yes == vertices_fit(formula@),
{
    let mut i: usize = 0;
    while i < formula.clauses.len()
        invariant
            i <= formula.clauses.len(),
            forall|k: int, j: int|
                0 <= k < i && 0 <= j < formula@[k].len() ==> 2 * (
                #[trigger] formula@[k][j]).variable + 2 <= usize::MAX,
        decreases formula.clauses.len() - i,
    {
        let clause = &formula.clauses[i];
        let mut j: usize = 0;
        while j < clause.literals.len()
            invariant
                j <= clause.literals.len(),
                i < formula.clauses.len(),
                clause@ == formula@[i as int],
                forall|m: int|
                    0 <= m < j ==> 2 * (#[trigger] formula@[i as int][m]).variable + 2
                        <= usize::MAX,
            decreases clause.literals.len() - j,
        {
            let variable = clause.literals[j].variable;
            if variable as u64 > (usize::MAX as u64 - 2) / 2 {
                proof {
                    assert(formula@[i as int][j as int].variable == variable);
                    assert(2 * formula@[i as int][j as int].variable + 2 > usize::MAX);
                }
                return false;
            }
            proof {
                assert(formula@[i as int][j as int].variable == variable);
            }
            j += 1;
        }
        i += 1;
    }
    true
}

/// Decides whether the formula is satisfiable where it can be decided by
/// the implication graph: where every clause has exactly two literals (and
/// the vertices can be counted). Any other formula is turned down.
pub fn checked_digraph_2sat(formula: &CNFFormula) -> (answer: Option<bool>)
    ensures
        answer is Some <==> width_two(formula@) && vertices_fit(formula@),
        answer matches Some(sat) ==> sat == satisfiable(formula@),
{
    if has_width_two(formula) && has_vertices_that_fit(formula) {
        Some(digraph_2sat(formula))
    } else {
        None
    }
}

} // verus!
