//! What unit propagation and pure-literal elimination make of a formula,
//! and why the result is satisfiable exactly when the formula is.

use crate::cnf::{
    Assignment, CNFLiteral, clause_holds, formula_holds, literal_holds, satisfiable, with_literal,
};
use crate::variables::{clause_mentions, complement, formula_contains, formula_mentions};
use vstd::prelude::*;

verus! {

/// The clause without its literals over variable `v`.
pub open spec fn without_variable(c: Seq<CNFLiteral>, v: u32) -> Seq<CNFLiteral> {
    c.filter(|m: CNFLiteral| m.variable != v)
}

/// The formula once `l` is known to be true: clauses that contain `l` are
/// gone, and the others have lost the complement of `l`.
pub open spec fn unit_propagated(f: Seq<Seq<CNFLiteral>>, l: CNFLiteral) -> Seq<Seq<CNFLiteral>> {
    f.filter(|c: Seq<CNFLiteral>| !c.contains(l)).map_values(
        |c: Seq<CNFLiteral>| without_variable(c, l.variable),
    )
}

/// The formula without the clauses that mention variable `v`.
pub open spec fn without_clauses_on(f: Seq<Seq<CNFLiteral>>, v: u32) -> Seq<Seq<CNFLiteral>> {
    f.filter(|c: Seq<CNFLiteral>| !clause_mentions(c, v))
}

/// Filtering a sequence that ends in `x` filters what comes before and
/// then decides on `x`.
pub proof fn lemma_filter_push<A>(s: Seq<A>, x: A, pred: spec_fn(A) -> bool)
    ensures
        s.push(x).filter(pred) == if pred(x) {
            s.filter(pred).push(x)
        } else {
            s.filter(pred)
        },
{
    reveal(Seq::filter);
    assert(s.push(x).drop_last() =~= s);
}

/// Two predicates that agree on the items of a sequence filter it alike.
pub proof fn lemma_filter_agree<A>(s: Seq<A>, p: spec_fn(A) -> bool, q: spec_fn(A) -> bool)
    requires
        forall|i: int| 0 <= i < s.len() ==> p(#[trigger] s[i]) == q(s[i]),
    ensures
        s.filter(p) == s.filter(q),
    decreases s.len(),
{
    reveal(Seq::filter);
    if s.len() == 0 {
    } else {
        let d = s.drop_last();
        assert forall|i: int| 0 <= i < d.len() implies p(#[trigger] d[i]) == q(d[i]) by {
            assert(d[i] == s[i]);
        }
        lemma_filter_agree(d, p, q);
        assert(p(s[s.len() - 1]) == q(s[s.len() - 1]));
    }
}

/// Filtering twice is filtering once by both predicates.
pub proof fn lemma_filter_twice<A>(
    s: Seq<A>,
    p: spec_fn(A) -> bool,
    q: spec_fn(A) -> bool,
    both: spec_fn(A) -> bool,
)
    requires
        forall|x: A| #[trigger] both(x) == (p(x) && q(x)),
    ensures
        s.filter(p).filter(q) == s.filter(both),
    decreases s.len(),
{
    reveal(Seq::filter);
    if s.len() == 0 {
    } else {
        let d = s.drop_last();
        let x = s.last();
        lemma_filter_twice(d, p, q, both);
        assert(s =~= d.push(x));
        lemma_filter_push(d, x, p);
        lemma_filter_push(d, x, both);
        assert(both(x) == (p(x) && q(x)));
        if p(x) {
            lemma_filter_push(d.filter(p), x, q);
        }
    }
}

/// Filtering by a predicate that holds of everything keeps everything.
pub proof fn lemma_filter_all<A>(s: Seq<A>)
    ensures
        s.filter(|x: A| true) == s,
    decreases s.len(),
{
    reveal(Seq::filter);
    if s.len() == 0 {
    } else {
        lemma_filter_all(s.drop_last());
        assert(s.drop_last().push(s.last()) =~= s);
    }
}

/// Propagation over a formula that ends in `c`.
pub proof fn lemma_unit_propagated_push(f: Seq<Seq<CNFLiteral>>, c: Seq<CNFLiteral>, l: CNFLiteral)
    ensures
        unit_propagated(f.push(c), l) == if c.contains(l) {
            unit_propagated(f, l)
        } else {
            unit_propagated(f, l).push(without_variable(c, l.variable))
        },
{
    let keep = |c: Seq<CNFLiteral>| !c.contains(l);
    lemma_filter_push(f, c, keep);
    if c.contains(l) {
    } else {
        assert(unit_propagated(f.push(c), l) =~= unit_propagated(f, l).push(
            without_variable(c, l.variable),
        ));
    }
}

/// The clause `c` is what propagation of `l` leaves of some clause of `f`.
pub open spec fn propagated_from(f: Seq<Seq<CNFLiteral>>, l: CNFLiteral, c: Seq<CNFLiteral>) -> bool {
    exists|i: int|
        0 <= i < f.len() && !(#[trigger] f[i]).contains(l) && c == without_variable(
            f[i],
            l.variable,
        )
}

/// Each clause of the propagated formula comes from a clause of `f` that
/// does not contain `l`, and each such clause of `f` is represented.
pub proof fn lemma_unit_propagated_clauses(f: Seq<Seq<CNFLiteral>>, l: CNFLiteral)
    ensures
        forall|k: int|
            0 <= k < unit_propagated(f, l).len() ==> propagated_from(
                f,
                l,
                #[trigger] unit_propagated(f, l)[k],
            ),
        forall|i: int|
            0 <= i < f.len() && !(#[trigger] f[i]).contains(l) ==> unit_propagated(f, l).contains(
                without_variable(f[i], l.variable),
            ),
    decreases f.len(),
{
    reveal(Seq::filter);
    let r = unit_propagated(f, l);
    if f.len() == 0 {
        assert(r.len() == 0);
    } else {
        let g = f.drop_last();
        let c = f.last();
        assert(f =~= g.push(c));
        lemma_unit_propagated_clauses(g, l);
        lemma_unit_propagated_push(g, c, l);
        let rg = unit_propagated(g, l);
        assert forall|k: int| 0 <= k < r.len() implies propagated_from(f, l, #[trigger] r[k]) by {
            if k < rg.len() {
                assert(r[k] == rg[k]);
                assert(propagated_from(g, l, rg[k]));
                let i = choose|i: int|
                    0 <= i < g.len() && !(#[trigger] g[i]).contains(l) && rg[k]
                        == without_variable(g[i], l.variable);
                assert(f[i] == g[i]);
            } else {
                assert(!c.contains(l));
                assert(r[k] == without_variable(f[f.len() - 1], l.variable));
            }
        }
        assert forall|i: int| 0 <= i < f.len() && !(#[trigger] f[i]).contains(l) implies r.contains(
            without_variable(f[i], l.variable),
        ) by {
            if i < g.len() {
                assert(f[i] == g[i]);
                assert(rg.contains(without_variable(g[i], l.variable)));
                let k = choose|k: int|
                    0 <= k < rg.len() && rg[k] == without_variable(g[i], l.variable);
                assert(r[k] == rg[k]);
            } else {
                assert(r[r.len() - 1] == without_variable(f[i], l.variable));
            }
        }
    }
}

/// A clause without the literals over `v` keeps exactly its other literals.
pub proof fn lemma_without_variable(c: Seq<CNFLiteral>, v: u32)
    ensures
        forall|k: int|
            0 <= k < without_variable(c, v).len() ==> (#[trigger] without_variable(c, v)[k]).variable
                != v && c.contains(without_variable(c, v)[k]),
        forall|j: int|
            0 <= j < c.len() && (#[trigger] c[j]).variable != v ==> without_variable(c, v).contains(
                c[j],
            ),
        without_variable(c, v).len() <= c.len(),
        !clause_mentions(c, v) ==> without_variable(c, v) == c,
    decreases c.len(),
{
    reveal(Seq::filter);
    let pred = |m: CNFLiteral| m.variable != v;
    let r = without_variable(c, v);
    if c.len() == 0 {
    } else {
        let d = c.drop_last();
        let rd = without_variable(d, v);
        lemma_without_variable(d, v);
        assert forall|k: int| 0 <= k < r.len() implies (#[trigger] r[k]).variable != v
            && c.contains(r[k]) by {
            if k < rd.len() {
                assert(r[k] == rd[k]);
                let j = choose|j: int| 0 <= j < d.len() && d[j] == rd[k];
                assert(c[j] == d[j]);
            } else {
                assert(r[k] == c[c.len() - 1]);
            }
        }
        assert forall|j: int| 0 <= j < c.len() && (#[trigger] c[j]).variable != v implies r.contains(
            c[j],
        ) by {
            if j < d.len() {
                assert(d[j] == c[j]);
                let k = choose|k: int| 0 <= k < rd.len() && rd[k] == d[j];
                assert(r[k] == rd[k]);
            } else {
                assert(r[r.len() - 1] == c[j]);
            }
        }
        if !clause_mentions(c, v) {
            assert(!clause_mentions(d, v)) by {
                if clause_mentions(d, v) {
                    let j = choose|j: int| 0 <= j < d.len() && (#[trigger] d[j]).variable == v;
                    assert(c[j] == d[j]);
                }
            }
            assert(c[c.len() - 1].variable != v);
            assert(r =~= c);
        }
    }
}

/// Unit propagation keeps satisfiability: where the clause made of `l` alone
/// belongs to `f`, the propagated formula is satisfiable exactly when `f` is.
pub proof fn lemma_unit_propagation_equisatisfiable(f: Seq<Seq<CNFLiteral>>, l: CNFLiteral)
    requires
        f.contains(seq![l]),
    ensures
        satisfiable(unit_propagated(f, l)) == satisfiable(f),
{
    let r = unit_propagated(f, l);
    lemma_unit_propagated_clauses(f, l);
    if satisfiable(f) {
        let a = choose|a: Assignment| formula_holds(a, f);
        let u = choose|u: int| 0 <= u < f.len() && f[u] == seq![l];
        assert(clause_holds(a, f[u]));
        assert(literal_holds(a, l)) by {
            let j = choose|j: int| 0 <= j < f[u].len() && literal_holds(a, #[trigger] f[u][j]);
            assert(f[u][j] == l);
        }
        assert forall|k: int| 0 <= k < r.len() implies clause_holds(a, #[trigger] r[k]) by {
            assert(propagated_from(f, l, r[k]));
            let i = choose|i: int|
                0 <= i < f.len() && !(#[trigger] f[i]).contains(l) && r[k] == without_variable(
                    f[i],
                    l.variable,
                );
            lemma_without_variable(f[i], l.variable);
            assert(clause_holds(a, f[i]));
            let j = choose|j: int| 0 <= j < f[i].len() && literal_holds(a, #[trigger] f[i][j]);
            assert(f[i].contains(f[i][j]));
            assert(f[i][j].variable != l.variable);
            assert(r[k].contains(f[i][j]));
            let m = choose|m: int| 0 <= m < r[k].len() && r[k][m] == f[i][j];
            assert(literal_holds(a, r[k][m]));
        }
        assert(formula_holds(a, r));
    }
    if satisfiable(r) {
        let a = choose|a: Assignment| formula_holds(a, r);
        let b = with_literal(a, l);
        assert forall|i: int| 0 <= i < f.len() implies clause_holds(b, #[trigger] f[i]) by {
            if f[i].contains(l) {
                let j = choose|j: int| 0 <= j < f[i].len() && f[i][j] == l;
                assert(literal_holds(b, f[i][j]));
            } else {
                let c = without_variable(f[i], l.variable);
                lemma_without_variable(f[i], l.variable);
                assert(r.contains(c));
                let k = choose|k: int| 0 <= k < r.len() && r[k] == c;
                assert(clause_holds(a, r[k]));
                let m = choose|m: int| 0 <= m < c.len() && literal_holds(a, #[trigger] c[m]);
                assert(f[i].contains(c[m]));
                let j = choose|j: int| 0 <= j < f[i].len() && f[i][j] == c[m];
                assert(literal_holds(b, f[i][j]));
            }
        }
        assert(formula_holds(b, f));
    }
}

/// Propagation of `l` mentions only variables of `f` other than that of `l`.
pub proof fn lemma_unit_propagated_variables(f: Seq<Seq<CNFLiteral>>, l: CNFLiteral)
    ensures
        forall|w: u32| #[trigger]
            formula_mentions(unit_propagated(f, l), w) ==> formula_mentions(f, w) && w
                != l.variable,
{
    let r = unit_propagated(f, l);
    lemma_unit_propagated_clauses(f, l);
    assert forall|w: u32| #[trigger] formula_mentions(r, w) implies formula_mentions(f, w) && w
        != l.variable by {
        let k = choose|k: int| 0 <= k < r.len() && clause_mentions(#[trigger] r[k], w);
        assert(propagated_from(f, l, r[k]));
        let i = choose|i: int|
            0 <= i < f.len() && !(#[trigger] f[i]).contains(l) && r[k] == without_variable(
                f[i],
                l.variable,
            );
        lemma_without_variable(f[i], l.variable);
        let m = choose|m: int| 0 <= m < r[k].len() && (#[trigger] r[k][m]).variable == w;
        assert(f[i].contains(r[k][m]));
        let j = choose|j: int| 0 <= j < f[i].len() && f[i][j] == r[k][m];
        assert(f[i][j].variable == w);
        assert(clause_mentions(f[i], w));
    }
}

/// Pure-literal elimination keeps satisfiability: where the complement of `l`
/// occurs nowhere in `f`, the formula without the clauses that mention the
/// variable of `l` is satisfiable exactly when `f` is.
pub proof fn lemma_pure_literal_equisatisfiable(f: Seq<Seq<CNFLiteral>>, l: CNFLiteral)
    requires
        !formula_contains(f, complement(l)),
    ensures
        satisfiable(without_clauses_on(f, l.variable)) == satisfiable(f),
{
    let keep = |c: Seq<CNFLiteral>| !clause_mentions(c, l.variable);
    let r = without_clauses_on(f, l.variable);
    if satisfiable(f) {
        let a = choose|a: Assignment| formula_holds(a, f);
        assert forall|k: int| 0 <= k < r.len() implies clause_holds(a, #[trigger] r[k]) by {
            assert(r.contains(r[k]));
            f.lemma_filter_contains_rev(keep, r[k]);
            let i = choose|i: int| 0 <= i < f.len() && f[i] == r[k];
            assert(clause_holds(a, f[i]));
        }
        assert(formula_holds(a, r));
    }
    if satisfiable(r) {
        let a = choose|a: Assignment| formula_holds(a, r);
        let b = with_literal(a, l);
        assert forall|i: int| 0 <= i < f.len() implies clause_holds(b, #[trigger] f[i]) by {
            if clause_mentions(f[i], l.variable) {
                let j = choose|j: int|
                    0 <= j < f[i].len() && (#[trigger] f[i][j]).variable == l.variable;
                assert(f[i][j] != complement(l)) by {
                    if f[i][j] == complement(l) {
                        assert(f[i].contains(complement(l)));
                    }
                }
                assert(f[i][j] == l);
                assert(literal_holds(b, f[i][j]));
            } else {
                f.lemma_filter_contains(keep, i);
                let k = choose|k: int| 0 <= k < r.len() && r[k] == f[i];
                assert(clause_holds(a, r[k]));
                let j = choose|j: int| 0 <= j < f[i].len() && literal_holds(a, #[trigger] f[i][j]);
                assert(f[i][j].variable != l.variable);
                assert(literal_holds(b, f[i][j]));
            }
        }
        assert(formula_holds(b, f));
    }
}

/// The variables that occur in the clause with the given polarity.
pub open spec fn clause_polarity_variables(c: Seq<CNFLiteral>, negate: bool) -> Set<u32> {
    Set::new(|v: u32| c.contains(CNFLiteral { negate, variable: v }))
}

/// The variables that occur in the formula with the given polarity.
pub open spec fn polarity_variables(f: Seq<Seq<CNFLiteral>>, negate: bool) -> Set<u32> {
    Set::new(|v: u32| formula_contains(f, CNFLiteral { negate, variable: v }))
}

/// The literal occurs in the formula and its complement does not.
pub open spec fn is_pure(f: Seq<Seq<CNFLiteral>>, l: CNFLiteral) -> bool {
    formula_contains(f, l) && !formula_contains(f, complement(l))
}

/// One more literal adds its variable to the set of its polarity.
pub proof fn lemma_clause_polarity_push(c: Seq<CNFLiteral>, x: CNFLiteral, negate: bool)
    ensures
        clause_polarity_variables(c.push(x), negate) == if x.negate == negate {
            clause_polarity_variables(c, negate).insert(x.variable)
        } else {
            clause_polarity_variables(c, negate)
        },
{
    let d = c.push(x);
    assert forall|v: u32|
        d.contains(CNFLiteral { negate, variable: v }) <==> (c.contains(
            CNFLiteral { negate, variable: v },
        ) || (x.negate == negate && x.variable == v)) by {
        let l = CNFLiteral { negate, variable: v };
        if d.contains(l) {
            let j = choose|j: int| 0 <= j < d.len() && d[j] == l;
            if j < c.len() {
                assert(c[j] == l);
            }
        }
        if c.contains(l) {
            let j = choose|j: int| 0 <= j < c.len() && c[j] == l;
            assert(d[j] == l);
        }
        if x.negate == negate && x.variable == v {
            assert(d[d.len() - 1] == l);
        }
    }
    if x.negate == negate {
        assert(clause_polarity_variables(d, negate) =~= clause_polarity_variables(c, negate).insert(
            x.variable,
        ));
    } else {
        assert(clause_polarity_variables(d, negate) =~= clause_polarity_variables(c, negate));
    }
}

/// One more clause adds the variables that it has with the polarity.
pub proof fn lemma_polarity_push(f: Seq<Seq<CNFLiteral>>, c: Seq<CNFLiteral>, negate: bool)
    ensures
        polarity_variables(f.push(c), negate) == polarity_variables(f, negate).union(
            clause_polarity_variables(c, negate),
        ),
{
    let g = f.push(c);
    assert forall|v: u32|
        formula_contains(g, CNFLiteral { negate, variable: v }) <==> (formula_contains(
            f,
            CNFLiteral { negate, variable: v },
        ) || c.contains(CNFLiteral { negate, variable: v })) by {
        let l = CNFLiteral { negate, variable: v };
        if formula_contains(g, l) {
            let i = choose|i: int| 0 <= i < g.len() && (#[trigger] g[i]).contains(l);
            if i < f.len() {
                assert(f[i] == g[i]);
            }
        }
        if formula_contains(f, l) {
            let i = choose|i: int| 0 <= i < f.len() && (#[trigger] f[i]).contains(l);
            assert(g[i] == f[i]);
        }
        if c.contains(l) {
            assert(g[g.len() - 1].contains(l));
        }
    }
    assert(polarity_variables(g, negate) =~= polarity_variables(f, negate).union(
        clause_polarity_variables(c, negate),
    ));
}

/// Some literal of the clause is pure in the formula.
pub open spec fn has_pure_literal(f: Seq<Seq<CNFLiteral>>, c: Seq<CNFLiteral>) -> bool {
    exists|j: int| 0 <= j < c.len() && is_pure(f, #[trigger] c[j])
}

/// The formula without the clauses that have a literal which is pure in it.
pub open spec fn without_pure_literals(f: Seq<Seq<CNFLiteral>>) -> Seq<Seq<CNFLiteral>> {
    f.filter(|c: Seq<CNFLiteral>| !has_pure_literal(f, c))
}

/// No literal of the clause is over a variable of the set.
pub open spec fn avoids(c: Seq<CNFLiteral>, variables: Set<u32>) -> bool {
    forall|j: int| 0 <= j < c.len() ==> !variables.contains((#[trigger] c[j]).variable)
}

/// The formula without the clauses that mention a variable of the set.
pub open spec fn avoiding(f: Seq<Seq<CNFLiteral>>, variables: Set<u32>) -> Seq<Seq<CNFLiteral>> {
    f.filter(|c: Seq<CNFLiteral>| avoids(c, variables))
}

/// The values of the sequence that the set does not hold.
pub open spec fn missing_from(values: Seq<u32>, other: Set<u32>) -> Set<u32> {
    Set::new(|v: u32| values.contains(v) && !other.contains(v))
}

/// One more value is missing from the set, or not.
pub proof fn lemma_missing_from_push(values: Seq<u32>, x: u32, other: Set<u32>)
    ensures
        missing_from(values.push(x), other) == if other.contains(x) {
            missing_from(values, other)
        } else {
            missing_from(values, other).insert(x)
        },
{
    let more = values.push(x);
    assert forall|v: u32| more.contains(v) <==> (values.contains(v) || v == x) by {
        if more.contains(v) {
            let i = choose|i: int| 0 <= i < more.len() && more[i] == v;
            if i < values.len() {
                assert(values[i] == v);
            }
        }
        if values.contains(v) {
            let i = choose|i: int| 0 <= i < values.len() && values[i] == v;
            assert(more[i] == v);
        }
        if v == x {
            assert(more[more.len() - 1] == v);
        }
    }
    if other.contains(x) {
        assert(missing_from(more, other) =~= missing_from(values, other));
    } else {
        assert(missing_from(more, other) =~= missing_from(values, other).insert(x));
    }
}

/// Dropping the clauses on one more variable.
pub proof fn lemma_avoiding_insert(f: Seq<Seq<CNFLiteral>>, variables: Set<u32>, v: u32)
    ensures
        without_clauses_on(avoiding(f, variables), v) == avoiding(f, variables.insert(v)),
{
    let p = |c: Seq<CNFLiteral>| avoids(c, variables);
    let q = |c: Seq<CNFLiteral>| !clause_mentions(c, v);
    let both = |c: Seq<CNFLiteral>| avoids(c, variables.insert(v));
    assert forall|c: Seq<CNFLiteral>| #[trigger] both(c) == (p(c) && q(c)) by {
        if avoids(c, variables.insert(v)) {
            assert forall|j: int| 0 <= j < c.len() implies !variables.contains(
                (#[trigger] c[j]).variable,
            ) by {
                assert(!variables.insert(v).contains(c[j].variable));
            }
            if clause_mentions(c, v) {
                let j = choose|j: int| 0 <= j < c.len() && (#[trigger] c[j]).variable == v;
                assert(variables.insert(v).contains(c[j].variable));
            }
        }
        if avoids(c, variables) && !clause_mentions(c, v) {
            assert forall|j: int| 0 <= j < c.len() implies !variables.insert(v).contains(
                (#[trigger] c[j]).variable,
            ) by {
                assert(!variables.contains(c[j].variable));
            }
        }
    }
    lemma_filter_twice(f, p, q, both);
}

/// The clauses that avoid the variables occurring with one polarity only
/// are those without a pure literal.
pub proof fn lemma_avoiding_pure(f: Seq<Seq<CNFLiteral>>, variables: Set<u32>)
    requires
        forall|v: u32|
            variables.contains(v) <==> (polarity_variables(f, false).contains(v)
                != polarity_variables(f, true).contains(v)),
    ensures
        avoiding(f, variables) == without_pure_literals(f),
{
    let p = |c: Seq<CNFLiteral>| avoids(c, variables);
    let q = |c: Seq<CNFLiteral>| !has_pure_literal(f, c);
    assert forall|i: int| 0 <= i < f.len() implies p(#[trigger] f[i]) == q(f[i]) by {
        let c = f[i];
        if has_pure_literal(f, c) {
            let j = choose|j: int| 0 <= j < c.len() && is_pure(f, #[trigger] c[j]);
            let l = c[j];
            assert(l == CNFLiteral { negate: l.negate, variable: l.variable });
            assert(complement(l) == CNFLiteral { negate: !l.negate, variable: l.variable });
            assert(polarity_variables(f, l.negate).contains(l.variable));
            assert(!polarity_variables(f, !l.negate).contains(l.variable));
            assert(variables.contains(c[j].variable));
        }
        if !avoids(c, variables) {
            let j = choose|j: int| 0 <= j < c.len() && variables.contains((#[trigger] c[j]).variable);
            let l = c[j];
            assert(l == CNFLiteral { negate: l.negate, variable: l.variable });
            assert(complement(l) == CNFLiteral { negate: !l.negate, variable: l.variable });
            assert(f[i].contains(l));
            assert(formula_contains(f, l));
            assert(polarity_variables(f, l.negate).contains(l.variable));
            assert(!polarity_variables(f, !l.negate).contains(l.variable));
            assert(is_pure(f, c[j]));
        }
    }
    lemma_filter_agree(f, p, q);
}

/// Every clause that avoids a set of variables is a clause of the formula.
pub proof fn lemma_avoiding_subformula(f: Seq<Seq<CNFLiteral>>, variables: Set<u32>)
    ensures
        forall|k: int|
            0 <= k < avoiding(f, variables).len() ==> f.contains(
                #[trigger] avoiding(f, variables)[k],
            ),
{
    let r = avoiding(f, variables);
    assert forall|k: int| 0 <= k < r.len() implies f.contains(#[trigger] r[k]) by {
        assert(r.contains(r[k]));
        f.lemma_filter_contains_rev(|c: Seq<CNFLiteral>| avoids(c, variables), r[k]);
    }
}

/// The value stands in the sequence at place `from` or later.
pub open spec fn upcoming(values: Seq<u32>, from: int, v: u32) -> bool {
    exists|i: int| from <= i < values.len() && #[trigger] values[i] == v
}

} // verus!
