use ksat::cnf::{CNFClause, CNFFormula, CNFLiteral};

fn lit(variable: u32, negate: bool) -> CNFLiteral {
    CNFLiteral { negate, variable }
}

#[test]
fn literal_text_plain() {
    assert_eq!("x_{0}", lit(0, false).to_string());
    assert_eq!("x_{7}", lit(7, false).to_string());
}

#[test]
fn literal_text_negated() {
    assert_eq!("¬x_{12}", lit(12, true).to_string());
}

#[test]
fn literal_text_has_all_digits() {
    assert_eq!("x_{1234567890}", lit(1234567890, false).to_string());
    assert_eq!("¬x_{4294967295}", lit(u32::MAX, true).to_string());
    assert_eq!("x_{100}", lit(100, false).to_string());
}

#[test]
fn clause_text_joins_literals() {
    let clause = CNFClause {
        literals: vec![lit(1, false), lit(2, true), lit(30, false)],
    };
    assert_eq!("x_{1}∨¬x_{2}∨x_{30}", clause.to_string());
}

#[test]
fn clause_text_of_one_literal_and_of_none() {
    assert_eq!(
        "¬x_{5}",
        CNFClause {
            literals: vec![lit(5, true)]
        }
        .to_string()
    );
    assert_eq!("", CNFClause { literals: vec![] }.to_string());
}

#[test]
fn formula_text_brackets_clauses() {
    let formula = CNFFormula {
        clauses: vec![
            CNFClause {
                literals: vec![lit(0, false), lit(1, true)],
            },
            CNFClause {
                literals: vec![lit(2, true)],
            },
            CNFClause { literals: vec![] },
        ],
    };
    assert_eq!("(x_{0}∨¬x_{1})∧(¬x_{2})∧()", formula.to_string());
}

#[test]
fn formula_text_of_no_clause() {
    assert_eq!("", CNFFormula { clauses: vec![] }.to_string());
}

#[test]
fn clone_keeps_the_literals() {
    let formula = CNFFormula {
        clauses: vec![
            CNFClause {
                literals: vec![lit(3, false), lit(4, true)],
            },
            CNFClause { literals: vec![] },
        ],
    };
    let copy = formula.clone();
    assert_eq!(2, copy.clauses.len());
    assert_eq!(vec![lit(3, false), lit(4, true)], copy.clauses[0].literals);
    assert!(copy.clauses[1].literals.is_empty());
    assert_eq!(formula.to_string(), copy.to_string());
}
