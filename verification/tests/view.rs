use sat_solver_core::cnf::{Literal, OwnedCNF, OwnedClause, Variable};
use sat_solver_core::solver::assignment::Assignment;
use sat_solver_core::solver::cnf::PartiallyAssignedCNF;

fn formula(num_variables: u32, clauses: &[&[i32]]) -> OwnedCNF {
    let clauses = clauses
        .iter()
        .map(|lits| OwnedClause(lits.iter().map(|&code| Literal::new(code)).collect()))
        .collect();
    OwnedCNF { num_variables, clauses }
}

fn codes(literals: &[Literal]) -> Vec<i32> {
    literals.iter().map(|l| l.code).collect()
}

#[test]
fn clause_operations() {
    let mut clause = OwnedClause(vec![Literal::new(1), Literal::new(-2), Literal::new(1)]);
    assert!(clause.contains(Literal::new(1)));
    assert!(clause.contains(Literal::new(-2)));
    assert!(!clause.contains(Literal::new(2)));
    assert!(!clause.is_empty());
    assert!(clause.as_unit_clause().is_none());

    // removes every occurrence of exactly that literal, nothing else
    clause.remove(Literal::new(1));
    assert_eq!(codes(&clause.iter_literals()), vec![-2]);
    assert_eq!(clause.as_unit_clause(), Some(Literal::new(-2)));

    clause.remove(Literal::new(-2));
    assert!(clause.is_empty());
}

#[test]
fn formula_queries() {
    let empty = formula(2, &[]);
    assert!(empty.is_empty());
    assert!(!empty.contains_empty_clause());

    let with_empty = formula(2, &[&[1], &[]]);
    assert!(!with_empty.is_empty());
    assert!(with_empty.contains_empty_clause());
}

#[test]
fn variable_construction_bounds() {
    assert!(Variable::new(0).is_none());
    assert!(Variable::new(1).is_some());
    assert!(Variable::new(0x7fff_ffff).is_some());
    assert!(Variable::new(0x8000_0000).is_none());
}

#[test]
fn assignment_first_decision_wins() {
    let mut trail = Assignment::default();
    assert_eq!(trail.len(), 0);
    trail.add(Literal::new(1));
    trail.add(Literal::new(-2));
    // deciding an already-decided variable is a no-op
    trail.add(Literal::new(-1));
    trail.add(Literal::new(2));
    assert_eq!(trail.len(), 2);
    assert_eq!(codes(&trail.iter_literals()), vec![1, -2]);
    assert!(trail.contains_variable(Variable::new(1).unwrap()));
    assert!(trail.contains_variable(Variable::new(2).unwrap()));
    assert!(!trail.contains_variable(Variable::new(3).unwrap()));
}

#[test]
fn view_tracks_clause_states() {
    let mut view = PartiallyAssignedCNF::new(formula(2, &[&[1, 2], &[-1]]));
    assert!(!view.is_satisfied());
    assert!(!view.is_contradicting());

    // assigning 1 satisfies the first clause and falsifies the second
    view.assign(Literal::new(1));
    assert!(!view.is_satisfied());
    assert!(view.is_contradicting());
}

#[test]
fn view_satisfied_when_every_clause_holds() {
    let mut view = PartiallyAssignedCNF::new(formula(2, &[&[1, 2], &[2]]));
    view.assign(Literal::new(2));
    assert!(view.is_satisfied());
    assert!(!view.is_contradicting());
}

#[test]
fn empty_clause_starts_contradicting() {
    let view = PartiallyAssignedCNF::new(formula(1, &[&[]]));
    assert!(view.is_contradicting());
}

#[test]
fn fork_is_independent() {
    let mut parent = PartiallyAssignedCNF::new(formula(1, &[&[1]]));
    let child = parent.as_borrowing();
    parent.assign(Literal::new(1));
    assert!(parent.is_satisfied());
    // the fork still sees the original, undetermined clause
    assert!(!child.is_satisfied());
    assert_eq!(codes(&child.get_unit_clauses()), vec![1]);
}

#[test]
fn unit_clauses_reflect_current_state() {
    let mut view = PartiallyAssignedCNF::new(formula(3, &[&[1], &[-1, 2], &[2, 3]]));
    assert_eq!(codes(&view.get_unit_clauses()), vec![1]);
    view.assign(Literal::new(1));
    // removing -1 turned the second clause into a unit
    assert_eq!(codes(&view.get_unit_clauses()), vec![2]);
}

#[test]
fn pure_literals_by_polarity() {
    // 1 occurs both ways; 2 only positively; 3 only negatively; 4 not at all
    let view = PartiallyAssignedCNF::new(formula(4, &[&[1, 2], &[-1, -3], &[2, -3]]));
    assert_eq!(codes(&view.get_pure_literals()), vec![2, -3]);
}

#[test]
fn propagation_reaches_a_fixpoint() {
    let mut view = PartiallyAssignedCNF::new(formula(3, &[&[1], &[-1, 2], &[-2, 3]]));
    loop {
        let units = view.get_unit_clauses();
        if units.is_empty() {
            break;
        }
        for unit in units {
            view.assign(unit);
        }
    }
    let satisfied = view.is_satisfied();
    let contradicting = view.is_contradicting();
    let pures = codes(&view.get_pure_literals());

    // repeating the loop after it reports no unit clauses changes nothing
    let units = view.get_unit_clauses();
    assert!(units.is_empty());
    for unit in units {
        view.assign(unit);
    }
    assert!(view.get_unit_clauses().is_empty());
    assert_eq!(view.is_satisfied(), satisfied);
    assert_eq!(view.is_contradicting(), contradicting);
    assert_eq!(codes(&view.get_pure_literals()), pures);
}

#[test]
fn variables_enumerate_in_increasing_order() {
    let view = PartiallyAssignedCNF::new(formula(4, &[&[1]]));
    let ids: Vec<i32> = view.iter_variables().iter().map(|v| v.id).collect();
    assert_eq!(ids, vec![1, 2, 3, 4]);
}
