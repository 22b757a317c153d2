use ksat::cnf::{CNFClause, CNFFormula};
use ksat::digraph::digraph_2sat;
use ksat::dpll::dpll_sat;
use ksat::rand_cnf::{ClauseDraw, NextDraw};
use rand::rngs::StdRng;
use rand::SeedableRng;

fn generate_cnf(k: u8, n: u32, alpha: f32, seed: u64) -> CNFFormula {
    assert!(n >= k.into());
    let mut rng = StdRng::seed_from_u64(seed);
    let clauses_cnt = (alpha * (n as f32)) as usize;
    let mut clauses: Vec<CNFClause> = Vec::new();
    for _ in 0..clauses_cnt {
        let mut draw = ClauseDraw::new(k, n);
        while draw.next() != NextDraw::Nothing {
            draw = draw.step(&mut rng);
        }
        clauses.push(draw.clause());
    }
    CNFFormula { clauses }
}

#[test]
fn test_gen() {
    let formula = generate_cnf(3, 5, 2., 42);
    assert_eq!(10, formula.clauses.len());
    assert!(formula.clauses.iter().all(|clause| clause.literals.len() == 3));
    assert_eq!(
        "(¬x_{1}∨¬x_{4}∨¬x_{3})∧(x_{4}∨x_{3}∨x_{2})∧(¬x_{3}∨¬x_{4}∨x_{2})∧(¬x_{2}∨¬x_{0}∨x_{3})∧(¬x_{2}∨x_{0}∨x_{1})∧(¬x_{2}∨x_{3}∨¬x_{4})∧(x_{4}∨¬x_{3}∨¬x_{1})∧(¬x_{0}∨¬x_{2}∨¬x_{3})∧(x_{1}∨x_{0}∨x_{2})∧(¬x_{4}∨x_{1}∨¬x_{3})",
        formula.to_string()
    );
}

#[test]
fn test_random_satisfiable() {
    let formula = generate_cnf(2, 25, 0.5, 42);
    assert!(digraph_2sat(&formula));
}

#[test]
fn test_random_unsatisfiable() {
    let formula = generate_cnf(2, 25, 2., 42);
    assert!(!digraph_2sat(&formula));
}

#[test]
fn a_new_clause_asks_for_a_variable() {
    let draw = ClauseDraw::new(2, 5);
    assert_eq!(NextDraw::Variable, draw.next());
}

#[test]
fn a_clause_of_no_literal_is_complete_at_once() {
    let draw = ClauseDraw::new(0, 0);
    assert_eq!(NextDraw::Nothing, draw.next());
    assert!(draw.clause().literals.is_empty());
}

#[test]
fn a_variable_drawn_again_is_passed_over() {
    let draw = ClauseDraw::new(2, 5);
    let draw = draw.offer_variable(3);
    assert_eq!(NextDraw::Variable, draw.next());
    let draw = draw.offer_variable(3);
    assert_eq!(NextDraw::Variable, draw.next());
    let draw = draw.offer_variable(1);
    assert_eq!(NextDraw::Polarity, draw.next());
    let draw = draw.offer_polarity(true);
    assert_eq!(NextDraw::Polarity, draw.next());
    let draw = draw.offer_polarity(false);
    assert_eq!(NextDraw::Nothing, draw.next());
    let clause = draw.clause();
    assert_eq!("¬x_{3}∨x_{1}", clause.to_string());
}

#[test]
fn a_complete_clause_takes_no_more() {
    let mut rng = StdRng::seed_from_u64(1);
    let mut draw = ClauseDraw::new(1, 4);
    while draw.next() != NextDraw::Nothing {
        draw = draw.step(&mut rng);
    }
    let before = draw.clause().to_string();
    let draw = draw.step(&mut rng);
    assert_eq!(NextDraw::Nothing, draw.next());
    assert_eq!(before, draw.clause().to_string());
}

#[test]
fn drawn_clauses_have_different_variables_below_the_bound() {
    for seed in 0..20u64 {
        let formula = generate_cnf(4, 6, 3., seed);
        assert_eq!(18, formula.clauses.len());
        for clause in formula.clauses.iter() {
            assert_eq!(4, clause.literals.len());
            for (i, literal) in clause.literals.iter().enumerate() {
                assert!(literal.variable < 6);
                for other in clause.literals[..i].iter() {
                    assert_ne!(other.variable, literal.variable);
                }
            }
        }
    }
}

#[test]
fn every_variable_is_drawn_when_the_width_is_the_bound() {
    let formula = generate_cnf(5, 5, 1., 7);
    assert_eq!(5, formula.clauses.len());
    for clause in formula.clauses.iter() {
        let mut variables: Vec<u32> = clause.literals.iter().map(|l| l.variable).collect();
        variables.sort();
        assert_eq!(vec![0, 1, 2, 3, 4], variables);
    }
}

#[test]
fn both_polarities_are_drawn() {
    let formula = generate_cnf(3, 10, 5., 3);
    let negated = formula
        .clauses
        .iter()
        .flat_map(|clause| clause.literals.iter())
        .filter(|literal| literal.negate)
        .count();
    assert!(0 < negated && negated < 150);
}

#[test]
fn the_same_seed_gives_the_same_formula() {
    let first = generate_cnf(3, 5, 2., 42);
    let second = generate_cnf(3, 5, 2., 42);
    assert_eq!(first.to_string(), second.to_string());
    let other = generate_cnf(3, 5, 2., 43);
    assert_ne!(first.to_string(), other.to_string());
}

#[test]
fn the_number_of_clauses_is_rounded_down() {
    assert_eq!(12, generate_cnf(2, 25, 0.5, 42).clauses.len());
    assert_eq!(0, generate_cnf(2, 25, 0., 42).clauses.len());
    assert_eq!(7, generate_cnf(2, 5, 1.5, 42).clauses.len());
}

#[test]
fn both_procedures_agree_on_random_formulas() {
    let mut seen_sat = 0;
    let mut seen_unsat = 0;
    for seed in 0..40u64 {
        let formula = generate_cnf(2, 12, 1., seed);
        let by_graph = digraph_2sat(&formula);
        assert_eq!(dpll_sat(&formula), by_graph, "{}", formula.to_string());
        if by_graph {
            seen_sat += 1;
        } else {
            seen_unsat += 1;
        }
    }
    assert!(seen_sat > 0 && seen_unsat > 0);
}
