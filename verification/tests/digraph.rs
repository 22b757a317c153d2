use ksat::cnf::{CNFClause, CNFFormula, CNFLiteral};
use ksat::digraph::{
    build_digraph, checked_digraph_2sat, compute_idx, digraph_2sat, has_width_two,
};
use ksat::dpll::dpll_sat;

#[test]
fn test_simple_satisfiable() {
    let formula = CNFFormula {
        clauses: vec![
            CNFClause {
                literals: vec![
                    CNFLiteral {
                        negate: false,
                        variable: 0,
                    },
                    CNFLiteral {
                        negate: true,
                        variable: 1,
                    },
                ],
            },
            CNFClause {
                literals: vec![
                    CNFLiteral {
                        negate: false,
                        variable: 1,
                    },
                    CNFLiteral {
                        negate: false,
                        variable: 2,
                    },
                ],
            },
            CNFClause {
                literals: vec![
                    CNFLiteral {
                        negate: true,
                        variable: 2,
                    },
                    CNFLiteral {
                        negate: true,
                        variable: 0,
                    },
                ],
            },
        ],
    };
    assert!(digraph_2sat(&formula));
}

fn lit(variable: u32, negate: bool) -> CNFLiteral {
    CNFLiteral { negate, variable }
}

fn formula(clauses: Vec<Vec<CNFLiteral>>) -> CNFFormula {
    CNFFormula {
        clauses: clauses
            .into_iter()
            .map(|literals| CNFClause { literals })
            .collect(),
    }
}

#[test]
fn empty_formula_is_satisfiable_by_the_graph() {
    assert!(digraph_2sat(&formula(vec![])));
}

#[test]
fn all_four_clauses_on_two_variables_are_unsatisfiable() {
    let f = formula(vec![
        vec![lit(0, false), lit(1, false)],
        vec![lit(0, false), lit(1, true)],
        vec![lit(0, true), lit(1, false)],
        vec![lit(0, true), lit(1, true)],
    ]);
    assert!(!digraph_2sat(&f));
    assert!(!dpll_sat(&f));
}

#[test]
fn a_variable_forced_both_ways_is_unsatisfiable() {
    let f = formula(vec![
        vec![lit(3, false), lit(3, false)],
        vec![lit(3, true), lit(3, true)],
    ]);
    assert!(!digraph_2sat(&f));
}

#[test]
fn a_chain_of_implications_that_closes_is_unsatisfiable() {
    // x0 -> x1 -> x2 -> not x0, and not x0 -> x0.
    let f = formula(vec![
        vec![lit(0, true), lit(1, false)],
        vec![lit(1, true), lit(2, false)],
        vec![lit(2, true), lit(0, true)],
        vec![lit(0, false), lit(0, false)],
    ]);
    assert!(!digraph_2sat(&f));
    assert!(!dpll_sat(&f));
}

#[test]
fn a_chain_of_implications_that_stays_open_is_satisfiable() {
    let f = formula(vec![
        vec![lit(0, true), lit(1, false)],
        vec![lit(1, true), lit(2, false)],
        vec![lit(2, true), lit(0, true)],
    ]);
    assert!(digraph_2sat(&f));
    assert!(dpll_sat(&f));
}

#[test]
fn variables_need_not_be_dense() {
    let f = formula(vec![
        vec![lit(40, false), lit(7, true)],
        vec![lit(7, false), lit(40, true)],
        vec![lit(40, false), lit(7, false)],
    ]);
    assert!(digraph_2sat(&f));
    let g = formula(vec![
        vec![lit(40, false), lit(7, true)],
        vec![lit(7, false), lit(40, true)],
        vec![lit(40, false), lit(7, false)],
        vec![lit(40, true), lit(7, true)],
    ]);
    assert!(!digraph_2sat(&g));
}

#[test]
fn both_procedures_agree_on_clauses_of_two_literals() {
    // Every formula of up to three clauses over two variables.
    let mut pool = vec![];
    for a in 0..2u32 {
        for b in 0..2u32 {
            for na in [false, true] {
                for nb in [false, true] {
                    pool.push(vec![lit(a, na), lit(b, nb)]);
                }
            }
        }
    }
    let mut seen_sat = 0;
    let mut seen_unsat = 0;
    for i in 0..pool.len() {
        for j in 0..pool.len() {
            for k in 0..pool.len() {
                let f = formula(vec![pool[i].clone(), pool[j].clone(), pool[k].clone()]);
                let by_graph = digraph_2sat(&f);
                assert_eq!(dpll_sat(&f), by_graph, "{}", f.to_string());
                if by_graph {
                    seen_sat += 1;
                } else {
                    seen_unsat += 1;
                }
            }
        }
    }
    assert!(seen_sat > 0 && seen_unsat > 0);
}

#[test]
fn vertex_of_each_literal() {
    assert_eq!(0, compute_idx(&lit(0, false), false));
    assert_eq!(1, compute_idx(&lit(0, false), true));
    assert_eq!(1, compute_idx(&lit(0, true), false));
    assert_eq!(0, compute_idx(&lit(0, true), true));
    assert_eq!(14, compute_idx(&lit(7, false), false));
    assert_eq!(15, compute_idx(&lit(7, true), false));
    assert_eq!(15, compute_idx(&lit(7, false), true));
    assert_eq!(14, compute_idx(&lit(7, true), true));
}

#[test]
fn implication_graph_of_one_clause() {
    // x0 or not x1: not x0 implies not x1, and x1 implies x0.
    let f = formula(vec![vec![lit(0, false), lit(1, true)]]);
    let (adj, adj_t) = build_digraph(&f, 4);
    assert_eq!(vec![vec![], vec![3], vec![0], vec![]], adj);
    assert_eq!(vec![vec![2], vec![], vec![], vec![1]], adj_t);
}

#[test]
fn implication_graph_has_room_for_unused_vertices() {
    let f = formula(vec![vec![lit(1, false), lit(1, false)]]);
    let (adj, adj_t) = build_digraph(&f, 6);
    assert_eq!(6, adj.len());
    assert_eq!(6, adj_t.len());
    assert_eq!(vec![2], adj[3]);
    assert_eq!(vec![3], adj_t[2]);
    for u in [0, 1, 2, 4, 5] {
        assert!(adj[u].is_empty());
    }
}

#[test]
fn a_repeated_clause_adds_each_edge_once() {
    let f = formula(vec![
        vec![lit(0, false), lit(1, true)],
        vec![lit(1, true), lit(0, false)],
        vec![lit(0, false), lit(1, true)],
    ]);
    let (adj, adj_t) = build_digraph(&f, 4);
    assert_eq!(vec![vec![], vec![3], vec![0], vec![]], adj);
    assert_eq!(vec![vec![2], vec![], vec![], vec![1]], adj_t);
}

#[test]
fn width_is_checked() {
    assert!(has_width_two(&formula(vec![])));
    assert!(has_width_two(&formula(vec![
        vec![lit(0, false), lit(1, true)],
        vec![lit(1, false), lit(1, false)],
    ])));
    assert!(!has_width_two(&formula(vec![
        vec![lit(0, false), lit(1, true)],
        vec![lit(1, false)],
    ])));
    assert!(!has_width_two(&formula(vec![vec![]])));
    assert!(!has_width_two(&formula(vec![vec![
        lit(0, false),
        lit(1, true),
        lit(2, true)
    ]])));
}

#[test]
fn other_widths_are_turned_down() {
    assert_eq!(
        None,
        checked_digraph_2sat(&formula(vec![
            vec![lit(0, false), lit(1, true)],
            vec![lit(0, false), lit(1, true), lit(2, false)],
        ]))
    );
    assert_eq!(None, checked_digraph_2sat(&formula(vec![vec![lit(0, false)]])));
    assert_eq!(None, checked_digraph_2sat(&formula(vec![vec![]])));
}

#[test]
fn width_two_is_decided() {
    assert_eq!(Some(true), checked_digraph_2sat(&formula(vec![])));
    assert_eq!(
        Some(true),
        checked_digraph_2sat(&formula(vec![vec![lit(0, false), lit(1, true)]]))
    );
    assert_eq!(
        Some(false),
        checked_digraph_2sat(&formula(vec![
            vec![lit(0, false), lit(0, false)],
            vec![lit(0, true), lit(0, true)],
        ]))
    );
}
