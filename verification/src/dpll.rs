//! Backtracking decision procedure for formulas whose clauses have any
//! width: unit propagation, pure-literal elimination, then branching on a
//! variable.

use crate::cnf::{
    CNFClause, CNFFormula, CNFLiteral, clauses_view, lemma_branching,
    lemma_empty_clause_unsatisfiable, lemma_empty_formula_satisfiable,
    lemma_satisfiable_monotone, satisfiable,
};
use crate::occurrences::{
    ascending, clause_variable_list, concat_chunks, formula_variable_list, lemma_chunk_counts,
    lemma_variable_list_mentions, occurrences, runs_of_equal,
};
use crate::simplify::{
    avoiding, avoids, clause_polarity_variables, lemma_avoiding_insert, lemma_avoiding_pure,
    lemma_avoiding_subformula, lemma_clause_polarity_push, lemma_filter_agree, lemma_filter_all,
    lemma_filter_push, lemma_missing_from_push, lemma_polarity_push,
    lemma_pure_literal_equisatisfiable, lemma_unit_propagated_push,
    lemma_unit_propagated_variables, lemma_unit_propagation_equisatisfiable, missing_from,
    polarity_variables, unit_propagated, upcoming, without_clauses_on, without_pure_literals,
    without_variable,
};
use crate::variables::{
    clause_mentions, complement, formula_contains, formula_mentions, formula_variables,
    has_unit_clause, lemma_fewer_variables, lemma_subformula, lemma_unit_clause_added,
};
use itertools::Itertools;
use std::collections::HashSet;
use vstd::prelude::*;

verus! {

/// Whether the clause contains the literal.
fn clause_has_literal(clause: &CNFClause, literal: &CNFLiteral) -> (found: bool)
    ensures
        found == clause@.contains(*literal),
{
    let mut j: usize = 0;
    while j < clause.literals.len()
        invariant
            j <= clause.literals.len(),
            forall|k: int| 0 <= k < j ==> clause@[k] != *literal,
        decreases clause.literals.len() - j,
    {
        if clause.literals[j] == *literal {
            return true;
        }
        j += 1;
    }
    false
}

/// Whether the clause has a literal over the variable.
fn clause_has_variable(clause: &CNFClause, variable: u32) -> (found: bool)
    ensures
        found == clause_mentions(clause@, variable),
{
    let mut j: usize = 0;
    while j < clause.literals.len()
        invariant
            j <= clause.literals.len(),
            forall|k: int| 0 <= k < j ==> (#[trigger] clause@[k]).variable != variable,
        decreases clause.literals.len() - j,
    {
        if clause.literals[j].variable == variable {
            return true;
        }
        j += 1;
    }
    false
}

/// A copy of the clause that leaves out the literals over the variable.
fn clause_without_variable(clause: &CNFClause, variable: u32) -> (out: CNFClause)
    ensures
        out@ == without_variable(clause@, variable),
{
    let mut literals: Vec<CNFLiteral> = Vec::new();
    let mut j: usize = 0;
    proof {
        reveal(Seq::filter);
        assert(clause@.subrange(0, 0) =~= Seq::<CNFLiteral>::empty());
    }
    while j < clause.literals.len()
        invariant
            j <= clause.literals.len(),
            literals@ == without_variable(clause@.subrange(0, j as int), variable),
        decreases clause.literals.len() - j,
    {
        proof {
            lemma_filter_push(
                clause@.subrange(0, j as int),
                clause@[j as int],
                |m: CNFLiteral| m.variable != variable,
            );
            assert(clause@.subrange(0, j as int).push(clause@[j as int]) =~= clause@.subrange(
                0,
                j + 1,
            ));
        }
        if clause.literals[j].variable != variable {
            literals.push(clause.literals[j]);
        }
        j += 1;
    }
    proof {
        assert(clause@.subrange(0, j as int) =~= clause@);
    }
    CNFClause { literals }
}

/// Makes `literal` true throughout the formula: drops the clauses that
/// contain it and removes its complement from the others.
pub fn dpll_unit_propagate(formula: &CNFFormula, literal: &CNFLiteral) -> (out: CNFFormula)
    ensures
        out@ == unit_propagated(formula@, *literal),
        formula@.contains(seq![*literal]) ==> satisfiable(out@) == satisfiable(formula@),
{
    let mut clauses: Vec<CNFClause> = Vec::new();
    let mut i: usize = 0;
    proof {
        reveal(Seq::filter);
        assert(formula@.subrange(0, 0) =~= Seq::<Seq<CNFLiteral>>::empty());
        assert(clauses_view(clauses@) =~= unit_propagated(formula@.subrange(0, 0), *literal));
    }
    while i < formula.clauses.len()
        invariant
            i <= formula.clauses.len(),
            clauses_view(clauses@) == unit_propagated(formula@.subrange(0, i as int), *literal),
        decreases formula.clauses.len() - i,
    {
        let clause = &formula.clauses[i];
        proof {
            lemma_unit_propagated_push(formula@.subrange(0, i as int), clause@, *literal);
            assert(formula@.subrange(0, i as int).push(clause@) =~= formula@.subrange(0, i + 1));
        }
        if !clause_has_literal(clause, literal) {
            let reduced = clause_without_variable(clause, literal.variable);
            proof {
                assert(clauses_view(clauses@.push(reduced)) =~= clauses_view(clauses@).push(
                    reduced@,
                ));
            }
            clauses.push(reduced);
        }
        i += 1;
    }
    proof {
        assert(formula@.subrange(0, i as int) =~= formula@);
        if formula@.contains(seq![*literal]) {
            lemma_unit_propagation_equisatisfiable(formula@, *literal);
        }
    }
    CNFFormula { clauses }
}

/// Drops every clause that mentions the variable of `literal`.
pub fn dpll_pure_literal_elimination(formula: &CNFFormula, literal: &CNFLiteral) -> (out:
    CNFFormula)
    ensures
        out@ == without_clauses_on(formula@, literal.variable),
        !formula_contains(formula@, complement(*literal)) ==> satisfiable(out@) == satisfiable(
            formula@,
        ),
{
    let mut clauses: Vec<CNFClause> = Vec::new();
    let mut i: usize = 0;
    proof {
        reveal(Seq::filter);
        assert(formula@.subrange(0, 0) =~= Seq::<Seq<CNFLiteral>>::empty());
        assert(clauses_view(clauses@) =~= without_clauses_on(
            formula@.subrange(0, 0),
            literal.variable,
        ));
    }
    while i < formula.clauses.len()
        invariant
            i <= formula.clauses.len(),
            clauses_view(clauses@) == without_clauses_on(
                formula@.subrange(0, i as int),
                literal.variable,
            ),
        decreases formula.clauses.len() - i,
    {
        let clause = &formula.clauses[i];
        proof {
            lemma_filter_push(
                formula@.subrange(0, i as int),
                clause@,
                |c: Seq<CNFLiteral>| !clause_mentions(c, literal.variable),
            );
            assert(formula@.subrange(0, i as int).push(clause@) =~= formula@.subrange(0, i + 1));
        }
        if !clause_has_variable(clause, literal.variable) {
            let kept = clause.clone();
            proof {
                assert(clauses_view(clauses@.push(kept)) =~= clauses_view(clauses@).push(kept@));
            }
            clauses.push(kept);
        }
        i += 1;
    }
    proof {
        assert(formula@.subrange(0, i as int) =~= formula@);
        if !formula_contains(formula@, complement(*literal)) {
            lemma_pure_literal_equisatisfiable(formula@, *literal);
        }
    }
    CNFFormula { clauses }
}

/// The literal of the first clause that has exactly one literal, if any.
fn find_unit_literal(formula: &CNFFormula) -> (found: Option<CNFLiteral>)
    ensures
        match found {
            Some(l) => formula@.contains(seq![l]) && exists|i: int|
                0 <= i < formula@.len() && #[trigger] formula@[i] == seq![l] && forall|k: int|
                    0 <= k < i ==> (#[trigger] formula@[k]).len() != 1,
            None => !has_unit_clause(formula@),
        },
{
    let mut i: usize = 0;
    while i < formula.clauses.len()
        invariant
            i <= formula.clauses.len(),
            forall|k: int| 0 <= k < i ==> (#[trigger] formula@[k]).len() != 1,
        decreases formula.clauses.len() - i,
    {
        if formula.clauses[i].literals.len() == 1 {
            let l = formula.clauses[i].literals[0];
            proof {
                assert(formula@[i as int] =~= seq![l]);
            }
            return Some(l);
        }
        i += 1;
    }
    None
}

/// The variables that occur un-negated, and those that occur negated.
fn polarity_sets(formula: &CNFFormula) -> (sets: (HashSet<u32>, HashSet<u32>))
    ensures
        sets.0@ == polarity_variables(formula@, false),
        sets.1@ == polarity_variables(formula@, true),
{
    broadcast use vstd::std_specs::hash::group_hash_axioms;

    let mut pos_variables: HashSet<u32> = HashSet::new();
    let mut neg_variables: HashSet<u32> = HashSet::new();
    let mut i: usize = 0;
    proof {
        assert(formula@.subrange(0, 0) =~= Seq::<Seq<CNFLiteral>>::empty());
        assert(polarity_variables(formula@.subrange(0, 0), false) =~= Set::<u32>::empty());
        assert(polarity_variables(formula@.subrange(0, 0), true) =~= Set::<u32>::empty());
    }
    while i < formula.clauses.len()
        invariant
            i <= formula.clauses.len(),
            pos_variables@ == polarity_variables(formula@.subrange(0, i as int), false),
            neg_variables@ == polarity_variables(formula@.subrange(0, i as int), true),
        decreases formula.clauses.len() - i,
    {
        let clause = &formula.clauses[i];
        let ghost seen = formula@.subrange(0, i as int);
        let mut j: usize = 0;
        proof {
            assert(clause@.subrange(0, 0) =~= Seq::<CNFLiteral>::empty());
            assert(clause_polarity_variables(clause@.subrange(0, 0), false) =~= Set::<u32>::empty());
            assert(clause_polarity_variables(clause@.subrange(0, 0), true) =~= Set::<u32>::empty());
            assert(pos_variables@ =~= polarity_variables(seen, false).union(Set::<u32>::empty()));
            assert(neg_variables@ =~= polarity_variables(seen, true).union(Set::<u32>::empty()));
        }
        while j < clause.literals.len()
            invariant
                j <= clause.literals.len(),
                pos_variables@ == polarity_variables(seen, false).union(
                    clause_polarity_variables(clause@.subrange(0, j as int), false),
                ),
                neg_variables@ == polarity_variables(seen, true).union(
                    clause_polarity_variables(clause@.subrange(0, j as int), true),
                ),
            decreases clause.literals.len() - j,
        {
            let literal = clause.literals[j];
            proof {
                lemma_clause_polarity_push(clause@.subrange(0, j as int), literal, false);
                lemma_clause_polarity_push(clause@.subrange(0, j as int), literal, true);
                assert(clause@.subrange(0, j as int).push(literal) =~= clause@.subrange(0, j + 1));
            }
            if literal.negate {
                neg_variables.insert(literal.variable);
                proof {
                    assert(neg_variables@ =~= polarity_variables(seen, true).union(
                        clause_polarity_variables(clause@.subrange(0, j + 1), true),
                    ));
                }
            } else {
                pos_variables.insert(literal.variable);
                proof {
                    assert(pos_variables@ =~= polarity_variables(seen, false).union(
                        clause_polarity_variables(clause@.subrange(0, j + 1), false),
                    ));
                }
            }
            j += 1;
        }
        proof {
            assert(clause@.subrange(0, j as int) =~= clause@);
            lemma_polarity_push(seen, clause@, false);
            lemma_polarity_push(seen, clause@, true);
            assert(seen.push(clause@) =~= formula@.subrange(0, i + 1));
        }
        i += 1;
    }
    proof {
        assert(formula@.subrange(0, i as int) =~= formula@);
    }
    (pos_variables, neg_variables)
}

/// Drops the clauses that have a pure literal: one over a variable that
/// occurs with one polarity only in the formula.
pub fn eliminate_pure_literals(formula: CNFFormula) -> (out: CNFFormula)
    ensures
        out@ == without_pure_literals(formula@),
        satisfiable(out@) == satisfiable(formula@),
        forall|k: int| 0 <= k < out@.len() ==> formula@.contains(#[trigger] out@[k]),
{
    broadcast use vstd::std_specs::hash::group_hash_axioms;

    let ghost before = formula@;
    let (pos_variables, neg_variables) = polarity_sets(&formula);
    let mut formula = formula;
    let ghost mut seen: Seq<u32> = Seq::empty();
    proof {
        assert(missing_from(seen, neg_variables@) =~= Set::<u32>::empty());
        lemma_filter_agree(
            before,
            |c: Seq<CNFLiteral>| avoids(c, Set::<u32>::empty()),
            |c: Seq<CNFLiteral>| true,
        );
        lemma_filter_all(before);
    }
    for variable in it: pos_variables.iter()
        invariant
            it.seq().unref().to_set() == pos_variables@,
            forall|v: u32| seen.contains(v) ==> pos_variables@.contains(v),
            forall|v: u32|
                pos_variables@.contains(v) ==> seen.contains(v) || upcoming(
                    it.seq().unref(),
                    it.index() as int,
                    v,
                ),
            satisfiable(formula@) == satisfiable(before),
            formula@ == avoiding(before, missing_from(seen, neg_variables@)),
            pos_variables@ == polarity_variables(before, false),
            neg_variables@ == polarity_variables(before, true),
    {
        proof {
            lemma_missing_from_push(seen, *variable, neg_variables@);
        }
        if !neg_variables.contains(variable) {
            let literal = CNFLiteral { variable: *variable, negate: false };
            proof {
                assert(!formula_contains(before, complement(literal)));
                lemma_avoiding_subformula(before, missing_from(seen, neg_variables@));
                lemma_subformula(before, formula@);
                lemma_avoiding_insert(before, missing_from(seen, neg_variables@), *variable);
            }
            formula = dpll_pure_literal_elimination(&formula, &literal);
        }
        proof {
            let ghost more = seen.push(*variable);
            assert forall|v: u32| more.contains(v) implies pos_variables@.contains(v) by {
                let i = choose|i: int| 0 <= i < more.len() && more[i] == v;
                if i < seen.len() {
                    assert(seen[i] == v);
                    assert(seen.contains(v));
                } else {
                    assert(it.seq().unref()[it.index() as int] == v);
                    assert(it.seq().unref().contains(v));
                    assert(it.seq().unref().to_set().contains(v));
                }
            }
            assert forall|v: u32| pos_variables@.contains(v) implies more.contains(v) || upcoming(
                it.seq().unref(),
                it.index() + 1,
                v,
            ) by {
                if seen.contains(v) {
                    let i = choose|i: int| 0 <= i < seen.len() && seen[i] == v;
                    assert(more[i] == v);
                } else {
                    let i = choose|i: int|
                        it.index() <= i < it.seq().unref().len() && #[trigger] it.seq().unref()[i]
                            == v;
                    if i == it.index() {
                        assert(more[more.len() - 1] == v);
                    }
                }
            }
            seen = more;
        }
    }
    let ghost positive = missing_from(seen, neg_variables@);
    proof {
        assert forall|v: u32|
            positive.contains(v) <==> (pos_variables@.contains(v) && !neg_variables@.contains(
                v,
            )) by {}
        seen = Seq::empty();
        assert(missing_from(seen, pos_variables@) =~= Set::<u32>::empty());
        assert(positive.union(Set::<u32>::empty()) =~= positive);
    }
    for variable in it: neg_variables.iter()
        invariant
            it.seq().unref().to_set() == neg_variables@,
            forall|v: u32| seen.contains(v) ==> neg_variables@.contains(v),
            forall|v: u32|
                neg_variables@.contains(v) ==> seen.contains(v) || upcoming(
                    it.seq().unref(),
                    it.index() as int,
                    v,
                ),
            satisfiable(formula@) == satisfiable(before),
            formula@ == avoiding(before, positive.union(missing_from(seen, pos_variables@))),
            pos_variables@ == polarity_variables(before, false),
            neg_variables@ == polarity_variables(before, true),
    {
        proof {
            lemma_missing_from_push(seen, *variable, pos_variables@);
        }
        if !pos_variables.contains(variable) {
            let literal = CNFLiteral { variable: *variable, negate: true };
            proof {
                let so_far = positive.union(missing_from(seen, pos_variables@));
                assert(!formula_contains(before, complement(literal)));
                lemma_avoiding_subformula(before, so_far);
                lemma_subformula(before, formula@);
                lemma_avoiding_insert(before, so_far, *variable);
                assert(so_far.insert(*variable) =~= positive.union(
                    missing_from(seen, pos_variables@).insert(*variable),
                ));
            }
            formula = dpll_pure_literal_elimination(&formula, &literal);
        }
        proof {
            let ghost more = seen.push(*variable);
            assert forall|v: u32| more.contains(v) implies neg_variables@.contains(v) by {
                let i = choose|i: int| 0 <= i < more.len() && more[i] == v;
                if i < seen.len() {
                    assert(seen[i] == v);
                    assert(seen.contains(v));
                } else {
                    assert(it.seq().unref()[it.index() as int] == v);
                    assert(it.seq().unref().contains(v));
                    assert(it.seq().unref().to_set().contains(v));
                }
            }
            assert forall|v: u32| neg_variables@.contains(v) implies more.contains(v) || upcoming(
                it.seq().unref(),
                it.index() + 1,
                v,
            ) by {
                if seen.contains(v) {
                    let i = choose|i: int| 0 <= i < seen.len() && seen[i] == v;
                    assert(more[i] == v);
                } else {
                    let i = choose|i: int|
                        it.index() <= i < it.seq().unref().len() && #[trigger] it.seq().unref()[i]
                            == v;
                    if i == it.index() {
                        assert(more[more.len() - 1] == v);
                    }
                }
            }
            seen = more;
        }
    }
    proof {
        let all = positive.union(missing_from(seen, pos_variables@));
        assert forall|v: u32|
            all.contains(v) <==> (polarity_variables(before, false).contains(v)
                != polarity_variables(before, true).contains(v)) by {}
        lemma_avoiding_pure(before, all);
        lemma_avoiding_subformula(before, all);
    }
    formula
}

/// `Itertools::sorted` on a list of variables. The result holds the same
/// values as often as the argument does, in ascending order.
#[verifier::external_body]
fn sorted_variables(variables: Vec<u32>) -> (sorted: Vec<u32>)
    ensures
        sorted@.to_multiset() == variables@.to_multiset(),
        ascending(sorted@),
{
    variables.into_iter().sorted().collect()
}

/// `Itertools::chunk_by` on a list of variables, keyed by the variable
/// itself. The result holds the runs of equal consecutive values in their
/// order, each with its value as key: no run is empty, neighbouring runs
/// differ in their key, and the runs put together are the argument.
#[verifier::external_body]
fn chunk_by_variable(variables: Vec<u32>) -> (chunks: Vec<(u32, Vec<u32>)>)
    ensures
        concat_chunks(chunks@) == variables@,
        runs_of_equal(chunks@),
{
    variables.into_iter().chunk_by(|&x| x).into_iter().map(
        |(key, chunk)| (key, chunk.collect()),
    ).collect()
}

/// The variables of all literal positions of the formula.
fn variable_list(formula: &CNFFormula) -> (variables: Vec<u32>)
    ensures
        variables@ == formula_variable_list(formula@),
{
    let mut variables: Vec<u32> = Vec::new();
    let mut i: usize = 0;
    proof {
        assert(formula@.subrange(0, 0) =~= Seq::<Seq<CNFLiteral>>::empty());
    }
    while i < formula.clauses.len()
        invariant
            i <= formula.clauses.len(),
            variables@ == formula_variable_list(formula@.subrange(0, i as int)),
        decreases formula.clauses.len() - i,
    {
        let clause = &formula.clauses[i];
        let ghost seen = variables@;
        let mut j: usize = 0;
        while j < clause.literals.len()
            invariant
                j <= clause.literals.len(),
                variables@ == seen + clause_variable_list(clause@.subrange(0, j as int)),
            decreases clause.literals.len() - j,
        {
            variables.push(clause.literals[j].variable);
            proof {
                assert(clause@.subrange(0, j as int).push(clause@[j as int]) =~= clause@.subrange(
                    0,
                    j + 1,
                ));
                assert(variables@ =~= seen + clause_variable_list(clause@.subrange(0, j + 1)));
            }
            j += 1;
        }
        proof {
            assert(clause@.subrange(0, j as int) =~= clause@);
            assert(formula@.subrange(0, i + 1).drop_last() =~= formula@.subrange(0, i as int));
            assert(formula@.subrange(0, i + 1).last() == clause@);
        }
        i += 1;
    }
    proof {
        assert(formula@.subrange(0, i as int) =~= formula@);
    }
    variables
}

/// The variable to branch on: one that stands in the most literal
/// positions of the formula.
pub fn dpll_choose_literal(formula: &CNFFormula) -> (variable: u32)
    requires
        exists|v: u32| formula_mentions(formula@, v),
    ensures
        formula_mentions(formula@, variable),
        forall|w: u32| occurrences(formula@, w) <= occurrences(formula@, variable),
{
    let variables = variable_list(formula);
    let sorted = sorted_variables(variables);
    let chunks = chunk_by_variable(sorted);
    proof {
        broadcast use vstd::seq_lib::group_to_multiset_ensures;

        lemma_variable_list_mentions(formula@);
        let v = choose|v: u32| formula_mentions(formula@, v);
        assert(variables@.contains(v));
        assert(sorted@.to_multiset().count(v) > 0);
        assert(sorted@.contains(v));
        assert(concat_chunks(chunks@).len() > 0);
    }
    let mut best: usize = 0;
    let mut k: usize = 1;
    while k < chunks.len()
        invariant
            1 <= k,
            best < chunks.len(),
            forall|i: int| 0 <= i < k && i < chunks.len() ==> (#[trigger] chunks[i]).1.len()
                <= chunks[best as int].1.len(),
        decreases chunks.len() - k,
    {
        if chunks[k].1.len() >= chunks[best].1.len() {
            best = k;
        }
        k += 1;
    }
    proof {
        broadcast use vstd::seq_lib::group_to_multiset_ensures;

        lemma_variable_list_mentions(formula@);
        lemma_chunk_counts(chunks@);
        let chosen = chunks[best as int].0;
        assert(sorted@.to_multiset().count(chosen) > 0);
        assert(variables@.contains(chosen));
        assert forall|w: u32| occurrences(formula@, w) <= occurrences(formula@, chosen) by {
            if occurrences(formula@, w) > 0 {
                let i = choose|i: int| 0 <= i < chunks.len() && (#[trigger] chunks[i]).0 == w;
                assert(chunks[i].1.len() <= chunks[best as int].1.len());
            }
        }
    }
    chunks[best].0
}

/// Whether some clause of the formula has no literal.
fn has_empty_clause(formula: &CNFFormula) -> (found: bool)
    ensures
        found == exists|i: int| 0 <= i < formula@.len() && (#[trigger] formula@[i]).len() == 0,
{
    let mut i: usize = 0;
    while i < formula.clauses.len()
        invariant
            i <= formula.clauses.len(),
            forall|k: int| 0 <= k < i ==> (#[trigger] formula@[k]).len() != 0,
        decreases formula.clauses.len() - i,
    {
        if formula.clauses[i].literals.len() == 0 {
            proof {
                assert(formula@[i as int].len() == 0);
            }
            return true;
        }
        i += 1;
    }
    false
}

/// A copy of the formula with one more clause, made of `literal` alone.
fn with_unit_clause(formula: &CNFFormula, literal: CNFLiteral) -> (out: CNFFormula)
    ensures
        out@ == formula@.push(seq![literal]),
{
    let mut out = formula.clone();
    let mut literals: Vec<CNFLiteral> = Vec::new();
    literals.push(literal);
    let clause = CNFClause { literals };
    proof {
        assert(clause@ =~= seq![literal]);
        assert(clauses_view(out.clauses@.push(clause)) =~= clauses_view(out.clauses@).push(clause@));
    }
    out.clauses.push(clause);
    out
}

/// What `dpll_sat` answers, for where the name of the procedure stands in
/// a contract.
pub open spec fn dpll_answer(init_formula: &CNFFormula) -> bool {
    satisfiable(init_formula@)
}

/// Decides whether the formula is satisfiable.
///
/// Propagates unit clauses until none is left, drops the clauses on pure
/// literals, and then either stops (no clause left: satisfiable; an empty
/// clause: unsatisfiable) or forces a variable true, then false.
#[verifier::when_used_as_spec(dpll_answer)]
pub fn dpll_sat(init_formula: &CNFFormula) -> (sat: bool)
    ensures
        sat == satisfiable(init_formula@),
        sat == dpll_answer(init_formula),
    decreases
        formula_variables(init_formula@).len(),
        (if has_unit_clause(init_formula@) { 0nat } else { 1nat }),
{
    let mut formula = init_formula.clone();

    let mut unit = find_unit_literal(&formula);
    while unit.is_some()
        invariant
            satisfiable(formula@) == satisfiable(init_formula@),
            formula@ == init_formula@ || formula_variables(formula@).len() < formula_variables(
                init_formula@,
            ).len(),
            match unit {
                Some(l) => formula@.contains(seq![l]),
                None => !has_unit_clause(formula@),
            },
        decreases formula_variables(formula@).len(),
    {
        let literal = unit.unwrap();
        proof {
            let u = choose|u: int| 0 <= u < formula@.len() && formula@[u] == seq![literal];
            assert(formula@[u][0].variable == literal.variable);
            assert(clause_mentions(formula@[u], literal.variable));
            lemma_unit_propagated_variables(formula@, literal);
            lemma_fewer_variables(
                formula@,
                unit_propagated(formula@, literal),
                literal.variable,
            );
        }
        formula = dpll_unit_propagate(&formula, &literal);
        unit = find_unit_literal(&formula);
    }

    let ghost propagated = formula@;
    let formula = eliminate_pure_literals(formula);
    proof {
        lemma_subformula(propagated, formula@);
    }

    if formula.clauses.len() == 0 {
        proof {
            assert(formula@ =~= Seq::<Seq<CNFLiteral>>::empty());
            lemma_empty_formula_satisfiable();
        }
        return true;
    }
    if has_empty_clause(&formula) {
        proof {
            let i = choose|i: int| 0 <= i < formula@.len() && (#[trigger] formula@[i]).len() == 0;
            lemma_empty_clause_unsatisfiable(formula@, i);
        }
        return false;
    }
    proof {
        assert(formula@[0].len() > 0);
        assert(clause_mentions(formula@[0], formula@[0][0].variable));
        assert(formula_mentions(formula@, formula@[0][0].variable));
    }
    let variable = dpll_choose_literal(&formula);
    let positive = with_unit_clause(&formula, CNFLiteral { variable, negate: false });
    let negative = with_unit_clause(&formula, CNFLiteral { variable, negate: true });
    proof {
        lemma_branching(formula@, variable);
        lemma_unit_clause_added(formula@, CNFLiteral { variable, negate: false });
        lemma_unit_clause_added(formula@, CNFLiteral { variable, negate: true });
    }
    dpll_sat(&positive) || dpll_sat(&negative)
}

/// The procedure answers that the formula without clauses is satisfiable.
pub proof fn lemma_dpll_no_clause(formula: &CNFFormula)
    requires
        formula@.len() == 0,
    ensures
        dpll_sat(formula),
{
    assert(formula@ =~= Seq::<Seq<CNFLiteral>>::empty());
    lemma_empty_formula_satisfiable();
}

/// The procedure answers that a formula with a clause without literals is
/// unsatisfiable.
pub proof fn lemma_dpll_empty_clause(formula: &CNFFormula, i: int)
    requires
        0 <= i < formula@.len(),
        formula@[i].len() == 0,
    ensures
        !dpll_sat(formula),
{
    lemma_empty_clause_unsatisfiable(formula@, i);
}

/// Where the procedure answers that a formula with one more clause is
/// satisfiable, it answers so for the formula.
pub proof fn lemma_dpll_monotone(formula: &CNFFormula, extended: &CNFFormula, clause: &CNFClause)
    requires
        extended@ == formula@.push(clause@),
        dpll_sat(extended),
    ensures
        dpll_sat(formula),
{
    lemma_satisfiable_monotone(formula@, clause@);
}

} // verus!
