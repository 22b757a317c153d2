use ksat::cnf::{CNFClause, CNFFormula, CNFLiteral};
use ksat::dpll::{
    dpll_choose_literal, dpll_pure_literal_elimination, dpll_sat, dpll_unit_propagate,
    eliminate_pure_literals,
};

fn lit(variable: u32, negate: bool) -> CNFLiteral {
    CNFLiteral { negate, variable }
}

fn clause(literals: Vec<CNFLiteral>) -> CNFClause {
    CNFClause { literals }
}

#[test]
fn test_satisfiable() {
    let formula = CNFFormula {
        clauses: vec![
            clause(vec![lit(1, false), lit(2, true)]),
            clause(vec![lit(1, true), lit(2, false), lit(3, false)]),
            clause(vec![lit(1, true)]),
        ],
    };
    assert!(dpll_sat(&formula));
}

#[test]
fn test_unsatisfiable() {
    let formula = CNFFormula {
        clauses: vec![
            clause(vec![lit(1, false), lit(2, false), lit(3, false)]),
            clause(vec![lit(1, false), lit(2, false), lit(3, true)]),
            clause(vec![lit(1, false), lit(2, true), lit(3, false)]),
            clause(vec![lit(1, false), lit(2, true), lit(3, true)]),
            clause(vec![lit(1, true), lit(2, false), lit(3, false)]),
            clause(vec![lit(1, true), lit(2, false), lit(3, true)]),
            clause(vec![lit(1, true), lit(2, true), lit(3, false)]),
            clause(vec![lit(1, true), lit(2, true), lit(3, true)]),
        ],
    };
    assert!(!dpll_sat(&formula));
}

fn formula(clauses: Vec<Vec<CNFLiteral>>) -> CNFFormula {
    CNFFormula {
        clauses: clauses.into_iter().map(clause).collect(),
    }
}

fn literals(formula: &CNFFormula) -> Vec<Vec<CNFLiteral>> {
    formula
        .clauses
        .iter()
        .map(|clause| clause.literals.clone())
        .collect()
}

#[test]
fn empty_formula_is_satisfiable() {
    assert!(dpll_sat(&formula(vec![])));
}

#[test]
fn empty_clause_is_unsatisfiable() {
    assert!(!dpll_sat(&formula(vec![vec![]])));
    assert!(!dpll_sat(&formula(vec![
        vec![lit(0, false), lit(1, true)],
        vec![],
        vec![lit(2, false)],
    ])));
}

#[test]
fn opposite_units_are_unsatisfiable() {
    assert!(!dpll_sat(&formula(vec![
        vec![lit(4, false)],
        vec![lit(4, true)]
    ])));
}

#[test]
fn clause_with_both_polarities_is_satisfied_by_its_unit() {
    assert!(dpll_sat(&formula(vec![
        vec![lit(0, true), lit(0, false)],
        vec![lit(0, false)],
    ])));
    assert!(dpll_sat(&formula(vec![
        vec![lit(0, false), lit(0, true)],
        vec![lit(0, true)],
    ])));
}

#[test]
fn repeated_literals_do_not_change_the_answer() {
    assert!(dpll_sat(&formula(vec![
        vec![lit(1, false), lit(1, false)],
        vec![lit(1, true), lit(2, true), lit(2, true)],
    ])));
    assert!(!dpll_sat(&formula(vec![
        vec![lit(1, false), lit(1, false)],
        vec![lit(1, true), lit(1, true)],
    ])));
}

#[test]
fn branching_is_needed_and_finds_the_assignment() {
    // Neither a unit clause nor a pure literal: x0 = x1 = x2 is forced by
    // the first three clauses, and the last two allow only all false.
    assert!(dpll_sat(&formula(vec![
        vec![lit(0, true), lit(1, false)],
        vec![lit(1, true), lit(2, false)],
        vec![lit(2, true), lit(0, false)],
        vec![lit(0, true), lit(1, true)],
        vec![lit(0, false), lit(1, true), lit(2, true)],
    ])));
}

#[test]
fn pigeons_do_not_fit() {
    // Three pigeons, two holes: variable 2 * p + h says pigeon p sits in hole h.
    let mut clauses = vec![];
    for p in 0..3u32 {
        clauses.push(vec![lit(2 * p, false), lit(2 * p + 1, false)]);
    }
    for h in 0..2u32 {
        for p in 0..3u32 {
            for q in (p + 1)..3u32 {
                clauses.push(vec![lit(2 * p + h, true), lit(2 * q + h, true)]);
            }
        }
    }
    assert!(!dpll_sat(&formula(clauses)));
}

#[test]
fn adding_a_clause_never_helps() {
    let base = vec![
        vec![lit(0, false), lit(1, false)],
        vec![lit(0, true), lit(1, false)],
        vec![lit(0, false), lit(1, true)],
    ];
    let mut more = base.clone();
    more.push(vec![lit(0, true), lit(1, true)]);
    let with = dpll_sat(&formula(more));
    let without = dpll_sat(&formula(base));
    assert!(!with);
    assert!(without);
    assert!(!with || without);
}

#[test]
fn unit_propagation_drops_and_shortens() {
    let before = formula(vec![
        vec![lit(1, false)],
        vec![lit(1, false), lit(2, true)],
        vec![lit(1, true), lit(2, false), lit(1, true), lit(3, false)],
        vec![lit(2, false), lit(3, true)],
        vec![lit(1, true)],
        vec![lit(3, false), lit(1, true), lit(1, false)],
    ]);
    let after = dpll_unit_propagate(&before, &lit(1, false));
    assert_eq!(
        vec![
            vec![lit(2, false), lit(3, false)],
            vec![lit(2, false), lit(3, true)],
            vec![],
        ],
        literals(&after)
    );
    assert_eq!(6, before.clauses.len());
}

#[test]
fn unit_propagation_keeps_the_answer() {
    let sat = formula(vec![
        vec![lit(1, true)],
        vec![lit(1, false), lit(2, true)],
        vec![lit(1, true), lit(2, false), lit(3, false)],
    ]);
    let after = dpll_unit_propagate(&sat, &lit(1, true));
    assert_eq!(vec![vec![lit(2, true)]], literals(&after));
    assert_eq!(dpll_sat(&sat), dpll_sat(&after));

    let unsat = formula(vec![
        vec![lit(1, false)],
        vec![lit(1, true), lit(2, false)],
        vec![lit(1, true), lit(2, true)],
    ]);
    let after = dpll_unit_propagate(&unsat, &lit(1, false));
    assert_eq!(vec![vec![lit(2, false)], vec![lit(2, true)]], literals(&after));
    assert_eq!(dpll_sat(&unsat), dpll_sat(&after));
    assert!(!dpll_sat(&after));
}

#[test]
fn pure_literal_elimination_drops_the_clauses_on_the_variable() {
    let before = formula(vec![
        vec![lit(1, false), lit(2, true)],
        vec![lit(2, false), lit(3, true)],
        vec![lit(3, false), lit(1, false)],
        vec![],
    ]);
    let after = dpll_pure_literal_elimination(&before, &lit(1, false));
    assert_eq!(
        vec![vec![lit(2, false), lit(3, true)], vec![]],
        literals(&after)
    );
}

#[test]
fn pure_literal_elimination_keeps_the_answer() {
    let sat = formula(vec![
        vec![lit(1, false), lit(2, true)],
        vec![lit(2, false), lit(3, true)],
        vec![lit(3, false), lit(1, false)],
    ]);
    let after = dpll_pure_literal_elimination(&sat, &lit(1, false));
    assert_eq!(dpll_sat(&sat), dpll_sat(&after));

    let unsat = formula(vec![
        vec![lit(1, false), lit(2, true)],
        vec![lit(2, false)],
        vec![lit(2, true)],
    ]);
    let after = dpll_pure_literal_elimination(&unsat, &lit(1, false));
    assert_eq!(vec![vec![lit(2, false)], vec![lit(2, true)]], literals(&after));
    assert_eq!(dpll_sat(&unsat), dpll_sat(&after));
}

#[test]
fn all_pure_literals_go_at_once() {
    // 1 occurs un-negated only, 4 negated only; 2 and 3 occur both ways.
    let before = formula(vec![
        vec![lit(1, false), lit(2, true)],
        vec![lit(2, false), lit(3, true)],
        vec![lit(3, false), lit(2, true)],
        vec![lit(4, true), lit(3, false)],
        vec![lit(2, false), lit(3, false)],
    ]);
    let after = eliminate_pure_literals(before);
    assert_eq!(
        vec![
            vec![lit(2, false), lit(3, true)],
            vec![lit(3, false), lit(2, true)],
            vec![lit(2, false), lit(3, false)],
        ],
        literals(&after)
    );
}

#[test]
fn pure_literals_are_those_of_the_formula_as_given() {
    // Without its first clause the formula has 2 as a pure literal; the
    // clause on it stays, since 2 is not pure in the formula as given.
    let before = formula(vec![
        vec![lit(1, false), lit(2, true)],
        vec![lit(2, false), lit(3, true)],
        vec![lit(3, false), lit(3, true)],
    ]);
    let after = eliminate_pure_literals(before);
    assert_eq!(
        vec![
            vec![lit(2, false), lit(3, true)],
            vec![lit(3, false), lit(3, true)],
        ],
        literals(&after)
    );
}

#[test]
fn the_most_frequent_variable_is_chosen() {
    let f = formula(vec![
        vec![lit(1, false), lit(2, true), lit(1, true)],
        vec![lit(2, false), lit(1, false)],
        vec![lit(3, false), lit(3, true)],
    ]);
    assert_eq!(1, dpll_choose_literal(&f));
}

#[test]
fn the_choice_counts_both_polarities_and_all_clauses() {
    let f = formula(vec![
        vec![lit(9, false), lit(5, true)],
        vec![lit(7, false), lit(5, false)],
        vec![lit(5, true), lit(7, true), lit(8, false)],
        vec![lit(0, false)],
    ]);
    assert_eq!(5, dpll_choose_literal(&f));
}

#[test]
fn the_only_variable_is_chosen() {
    assert_eq!(6, dpll_choose_literal(&formula(vec![vec![lit(6, true)]])));
}
