use sat_solver_core::cnf::{Literal, OwnedCNF, OwnedClause};
use sat_solver_core::solve;
use sat_solver_core::Outcome;

/// Builds a formula directly from literal codes.
fn formula(num_variables: u32, clauses: &[&[i32]]) -> OwnedCNF {
    let clauses = clauses
        .iter()
        .map(|lits| OwnedClause(lits.iter().map(|&code| Literal::new(code)).collect()))
        .collect();
    OwnedCNF { num_variables, clauses }
}

/// The truth-table oracle: evaluates every assignment of the `n` variables.
fn brute_force(num_variables: u32, clauses: &[&[i32]]) -> Outcome {
    for mask in 0u64..(1u64 << num_variables) {
        let lit_true = |code: i32| {
            let var = code.unsigned_abs() as u64;
            let positive = mask & (1u64 << (var - 1)) != 0;
            if code > 0 {
                positive
            } else {
                !positive
            }
        };
        if clauses
            .iter()
            .all(|clause| clause.iter().any(|&code| lit_true(code)))
        {
            return Outcome::Satisfiable;
        }
    }
    Outcome::Unsatisfiable
}

#[test]
fn zero_clauses_yield_satisfiable() {
    assert_eq!(solve(formula(0, &[])), Outcome::Satisfiable);
    assert_eq!(solve(formula(5, &[])), Outcome::Satisfiable);
}

#[test]
fn an_empty_clause_yields_unsatisfiable() {
    assert_eq!(solve(formula(0, &[&[]])), Outcome::Unsatisfiable);
    assert_eq!(solve(formula(2, &[&[1, 2], &[]])), Outcome::Unsatisfiable);
}

#[test]
fn simple_satisfiable_formulas() {
    assert_eq!(solve(formula(1, &[&[1]])), Outcome::Satisfiable);
    assert_eq!(solve(formula(1, &[&[-1]])), Outcome::Satisfiable);
    assert_eq!(solve(formula(3, &[&[1, 2, 3], &[-1, -2], &[-3, 1]])), Outcome::Satisfiable);
}

#[test]
fn simple_unsatisfiable_formulas() {
    assert_eq!(solve(formula(1, &[&[1], &[-1]])), Outcome::Unsatisfiable);
    assert_eq!(
        solve(formula(2, &[&[1, 2], &[1, -2], &[-1, 2], &[-1, -2]])),
        Outcome::Unsatisfiable
    );
}

#[test]
fn pigeonhole_two_pigeons_one_hole_is_unsatisfiable() {
    // pigeon i in hole: variable i; both pigeons need the hole, but not together
    assert_eq!(solve(formula(2, &[&[1], &[2], &[-1, -2]])), Outcome::Unsatisfiable);
}

#[test]
fn agreement_with_truth_table_oracle() {
    // every 3-variable formula over a fixed clause pool, up to 2 clauses,
    // plus a batch of 4-variable formulas derived deterministically
    let pool: &[&[i32]] = &[
        &[1],
        &[-1],
        &[1, 2],
        &[-1, 2],
        &[1, -2],
        &[-1, -2],
        &[1, 2, 3],
        &[-1, -2, -3],
        &[2, -3],
        &[3],
    ];
    for i in 0..pool.len() {
        let f1: &[&[i32]] = &[pool[i]];
        assert_eq!(solve(formula(3, f1)), brute_force(3, f1));
        for j in 0..pool.len() {
            let f2: &[&[i32]] = &[pool[i], pool[j]];
            assert_eq!(solve(formula(3, f2)), brute_force(3, f2));
        }
    }
    for i in 0..pool.len() {
        for j in 0..pool.len() {
            for k in 0..pool.len() {
                let f3: &[&[i32]] = &[pool[i], pool[j], pool[k], &[-2, 4], &[-4, -3, 1]];
                assert_eq!(solve(formula(4, f3)), brute_force(4, f3));
            }
        }
    }
}

#[test]
fn forcing_a_pure_literal_preserves_the_outcome() {
    // variable 2 occurs only positively in both formulas
    let sat: &[&[i32]] = &[&[1, 2], &[-1, 2]];
    let sat_forced: &[&[i32]] = &[&[1, 2], &[-1, 2], &[2]];
    assert_eq!(solve(formula(2, sat)), solve(formula(2, sat_forced)));

    let unsat: &[&[i32]] = &[&[1], &[-1], &[2, 3]];
    let unsat_forced: &[&[i32]] = &[&[1], &[-1], &[2, 3], &[2]];
    assert_eq!(solve(formula(3, unsat)), solve(formula(3, unsat_forced)));
}

#[test]
fn pigeonhole_three_pigeons_two_holes_is_unsatisfiable() {
    // variable 2*(p-1)+h: pigeon p sits in hole h
    let f: &[&[i32]] = &[
        &[1, 2],
        &[3, 4],
        &[5, 6],
        &[-1, -3],
        &[-1, -5],
        &[-3, -5],
        &[-2, -4],
        &[-2, -6],
        &[-4, -6],
    ];
    assert_eq!(solve(formula(6, f)), Outcome::Unsatisfiable);
    assert_eq!(solve(formula(6, f)), brute_force(6, f));
}

#[test]
fn chained_implications_force_a_model() {
    // 1, 1->2, 2->3, ..., 7->8, and a clause satisfied by the chain
    let f: &[&[i32]] = &[
        &[1],
        &[-1, 2],
        &[-2, 3],
        &[-3, 4],
        &[-4, 5],
        &[-5, 6],
        &[-6, 7],
        &[-7, 8],
        &[8, -1],
    ];
    assert_eq!(solve(formula(8, f)), Outcome::Satisfiable);
    let contradicted: &[&[i32]] = &[
        &[1],
        &[-1, 2],
        &[-2, 3],
        &[-3, 4],
        &[-4, 5],
        &[-5, 6],
        &[-6, 7],
        &[-7, 8],
        &[-8],
    ];
    assert_eq!(solve(formula(8, contradicted)), Outcome::Unsatisfiable);
}

#[test]
fn outcome_combination_rule() {
    let s = Outcome::Satisfiable;
    let u = Outcome::Unsatisfiable;
    assert_eq!(s.combine(s), Outcome::Satisfiable);
    assert_eq!(s.combine(u), Outcome::Satisfiable);
    assert_eq!(u.combine(s), Outcome::Satisfiable);
    assert_eq!(u.combine(u), Outcome::Unsatisfiable);
}

#[test]
fn negation_is_an_involution() {
    for code in [1i32, -1, 7, -42, 2147483647, -2147483647] {
        let l = Literal::new(code);
        assert_eq!(l.not().not(), l);
        assert_ne!(l.not(), l);
    }
}

#[test]
fn literal_accessors() {
    let l = Literal::new(-3);
    assert!(l.is_neg());
    assert!(!l.not().is_neg());
    assert_eq!(l.into_variable(), l.not().into_variable());
}
