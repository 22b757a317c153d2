//! Which variables and literals a formula holds, and how many variables.

use crate::cnf::{CNFLiteral};
use vstd::prelude::*;

verus! {

/// The literal over the same variable with the opposite polarity.
pub open spec fn complement(l: CNFLiteral) -> CNFLiteral {
    CNFLiteral { negate: !l.negate, variable: l.variable }
}

/// The clause has a literal over variable `v`.
pub open spec fn clause_mentions(c: Seq<CNFLiteral>, v: u32) -> bool {
    exists|j: int| 0 <= j < c.len() && (#[trigger] c[j]).variable == v
}

/// Some clause of the formula has a literal over variable `v`.
pub open spec fn formula_mentions(f: Seq<Seq<CNFLiteral>>, v: u32) -> bool {
    exists|i: int| 0 <= i < f.len() && clause_mentions(#[trigger] f[i], v)
}

/// Some clause of the formula contains the literal `l`.
pub open spec fn formula_contains(f: Seq<Seq<CNFLiteral>>, l: CNFLiteral) -> bool {
    exists|i: int| 0 <= i < f.len() && (#[trigger] f[i]).contains(l)
}

/// The variables that the clause mentions.
pub open spec fn clause_variables(c: Seq<CNFLiteral>) -> Set<u32> {
    Set::new(|v: u32| clause_mentions(c, v))
}

/// The variables that the formula mentions.
pub open spec fn formula_variables(f: Seq<Seq<CNFLiteral>>) -> Set<u32> {
    Set::new(|v: u32| formula_mentions(f, v))
}

/// The formula has a clause of exactly one literal.
pub open spec fn has_unit_clause(f: Seq<Seq<CNFLiteral>>) -> bool {
    exists|i: int| 0 <= i < f.len() && (#[trigger] f[i]).len() == 1
}

/// A clause mentions finitely many variables.
pub proof fn lemma_clause_variables_finite(c: Seq<CNFLiteral>)
    ensures
        clause_variables(c).finite(),
    decreases c.len(),
{
    if c.len() == 0 {
        assert(clause_variables(c) =~= Set::<u32>::empty());
    } else {
        let d = c.drop_last();
        lemma_clause_variables_finite(d);
        assert forall|v: u32| clause_mentions(c, v) <==> (clause_mentions(d, v) || v
            == c.last().variable) by {
            if clause_mentions(c, v) {
                let j = choose|j: int| 0 <= j < c.len() && (#[trigger] c[j]).variable == v;
                if j < d.len() {
                    assert(d[j] == c[j]);
                }
            }
            if clause_mentions(d, v) {
                let j = choose|j: int| 0 <= j < d.len() && (#[trigger] d[j]).variable == v;
                assert(c[j] == d[j]);
            }
            if v == c.last().variable {
                assert(c[c.len() - 1].variable == v);
            }
        }
        assert(clause_variables(c) =~= clause_variables(d).insert(c.last().variable));
    }
}

/// A formula mentions finitely many variables.
pub proof fn lemma_formula_variables_finite(f: Seq<Seq<CNFLiteral>>)
    ensures
        formula_variables(f).finite(),
    decreases f.len(),
{
    if f.len() == 0 {
        assert(formula_variables(f) =~= Set::<u32>::empty());
    } else {
        let g = f.drop_last();
        lemma_formula_variables_finite(g);
        lemma_clause_variables_finite(f.last());
        assert forall|v: u32| formula_mentions(f, v) <==> (formula_mentions(g, v)
            || clause_mentions(f.last(), v)) by {
            if formula_mentions(f, v) {
                let i = choose|i: int| 0 <= i < f.len() && clause_mentions(#[trigger] f[i], v);
                if i < g.len() {
                    assert(g[i] == f[i]);
                }
            }
            if formula_mentions(g, v) {
                let i = choose|i: int| 0 <= i < g.len() && clause_mentions(#[trigger] g[i], v);
                assert(f[i] == g[i]);
            }
            if clause_mentions(f.last(), v) {
                assert(clause_mentions(f[f.len() - 1], v));
            }
        }
        assert(formula_variables(f) =~= formula_variables(g).union(clause_variables(f.last())));
    }
}

/// A formula that mentions only variables of `f`, and not `v`, which `f`
/// mentions, has fewer variables than `f`.
pub proof fn lemma_fewer_variables(f: Seq<Seq<CNFLiteral>>, g: Seq<Seq<CNFLiteral>>, v: u32)
    requires
        formula_mentions(f, v),
        forall|w: u32| formula_mentions(g, w) ==> formula_mentions(f, w) && w != v,
    ensures
        formula_variables(g).len() < formula_variables(f).len(),
{
    lemma_formula_variables_finite(f);
    let big = formula_variables(f);
    let small = formula_variables(g);
    assert(small.subset_of(big.remove(v)));
    vstd::set_lib::lemma_len_subset(small, big.remove(v));
}

/// A formula that mentions only variables of `f` has no more variables
/// than `f`.
pub proof fn lemma_no_more_variables(f: Seq<Seq<CNFLiteral>>, g: Seq<Seq<CNFLiteral>>)
    requires
        forall|w: u32| formula_mentions(g, w) ==> formula_mentions(f, w),
    ensures
        formula_variables(g).len() <= formula_variables(f).len(),
{
    lemma_formula_variables_finite(f);
    assert(formula_variables(g).subset_of(formula_variables(f)));
    vstd::set_lib::lemma_len_subset(formula_variables(g), formula_variables(f));
}

/// Where every clause of `g` is a clause of `f`, whatever `g` mentions,
/// contains or has as a unit clause, `f` does too.
pub proof fn lemma_subformula(f: Seq<Seq<CNFLiteral>>, g: Seq<Seq<CNFLiteral>>)
    requires
        forall|k: int| 0 <= k < g.len() ==> f.contains(#[trigger] g[k]),
    ensures
        forall|w: u32| formula_mentions(g, w) ==> formula_mentions(f, w),
        forall|l: CNFLiteral| formula_contains(g, l) ==> formula_contains(f, l),
        has_unit_clause(g) ==> has_unit_clause(f),
        formula_variables(g).len() <= formula_variables(f).len(),
{
    assert forall|w: u32| formula_mentions(g, w) implies formula_mentions(f, w) by {
        let k = choose|k: int| 0 <= k < g.len() && clause_mentions(#[trigger] g[k], w);
        assert(f.contains(g[k]));
        let i = choose|i: int| 0 <= i < f.len() && f[i] == g[k];
        assert(clause_mentions(f[i], w));
    }
    assert forall|l: CNFLiteral| formula_contains(g, l) implies formula_contains(f, l) by {
        let k = choose|k: int| 0 <= k < g.len() && (#[trigger] g[k]).contains(l);
        assert(f.contains(g[k]));
        let i = choose|i: int| 0 <= i < f.len() && f[i] == g[k];
        assert(f[i].contains(l));
    }
    if has_unit_clause(g) {
        let k = choose|k: int| 0 <= k < g.len() && (#[trigger] g[k]).len() == 1;
        assert(f.contains(g[k]));
        let i = choose|i: int| 0 <= i < f.len() && f[i] == g[k];
        assert(f[i].len() == 1);
    }
    lemma_no_more_variables(f, g);
}

/// A unit clause over a variable that the formula mentions adds no
/// variable, and is a unit clause.
pub proof fn lemma_unit_clause_added(f: Seq<Seq<CNFLiteral>>, l: CNFLiteral)
    requires
        formula_mentions(f, l.variable),
    ensures
        formula_variables(f.push(seq![l])).len() == formula_variables(f).len(),
        has_unit_clause(f.push(seq![l])),
{
    let g = f.push(seq![l]);
    assert(g[g.len() - 1].len() == 1);
    assert forall|w: u32| formula_mentions(g, w) <==> formula_mentions(f, w) by {
        if formula_mentions(g, w) {
            let i = choose|i: int| 0 <= i < g.len() && clause_mentions(#[trigger] g[i], w);
            if i < f.len() {
                assert(f[i] == g[i]);
            } else {
                let j = choose|j: int| 0 <= j < g[i].len() && (#[trigger] g[i][j]).variable == w;
                assert(w == l.variable);
            }
        }
        if formula_mentions(f, w) {
            let i = choose|i: int| 0 <= i < f.len() && clause_mentions(#[trigger] f[i], w);
            assert(g[i] == f[i]);
        }
    }
    assert(formula_variables(g) =~= formula_variables(f));
}

} // verus!
