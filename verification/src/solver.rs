//! The DPLL driver: simplify, check termination, branch, combine.

use vstd::prelude::*;

use crate::cnf::{Literal, OwnedCNF};
use crate::semantics::{
    assign_view, cnf_satisfiable, has_contradiction, initial_view, is_unit_literal, justified,
    lemma_all_tautologies_sat, lemma_assign_justified_preserves_sat, lemma_assign_view_sat,
    lemma_assign_view_size, lemma_contradiction_unsat, lemma_initial_view_sat,
    lemma_justified_stable, lemma_remove_lit_props, lemma_split, lemma_unit_literal_occurs,
    lit_var, occurs, state_contains, view_satisfiable, view_size, ClauseState,
};
use crate::solver::assignment::{trail_contains_var, Assignment};
use crate::solver::cnf::PartiallyAssignedCNF;
use crate::solver::outcome::Outcome;

pub mod assignment;
pub mod cnf;
pub mod outcome;

verus! {

// ------------------------------------------------------------------
// The invariant threaded through the search
// ------------------------------------------------------------------

/// An undetermined clause of the view is nonempty and all its literals'
/// variables lie in `[1, n]`.
pub open spec fn state_wf(st: ClauseState, n: int) -> bool {
    st matches ClauseState::Undetermined(c) ==> (c.len() > 0 && (forall|j: int|
        0 <= j < c.len() ==> 1 <= lit_var(#[trigger] c[j]) <= n))
}

pub open spec fn view_wf(v: Seq<ClauseState>, n: int) -> bool {
    forall|i: int| 0 <= i < v.len() ==> state_wf(#[trigger] v[i], n)
}

/// The trail decides each variable at most once, and only variables of the
/// formula.
pub open spec fn trail_wf(t: Seq<int>, n: int) -> bool {
    &&& forall|i: int| 0 <= i < t.len() ==> 1 <= lit_var(#[trigger] t[i]) <= n
    &&& forall|i: int, j: int|
        0 <= i < t.len() && 0 <= j < t.len() && i != j ==> lit_var(#[trigger] t[i]) != lit_var(
            #[trigger] t[j],
        )
}

/// Whatever still occurs in an undetermined clause has not been decided:
/// assigning is done exactly once per decided literal per branch.
pub open spec fn undecided(v: Seq<ClauseState>, t: Seq<int>) -> bool {
    forall|x: int| #[trigger] occurs(v, x) ==> !trail_contains_var(t, lit_var(x))
}

pub open spec fn search_inv(v: Seq<ClauseState>, n: int, t: Seq<int>) -> bool {
    &&& 0 <= n <= 0x7fff_ffff
    &&& view_wf(v, n)
    &&& trail_wf(t, n)
    &&& undecided(v, t)
}

// ------------------------------------------------------------------
// Facts about the invariant
// ------------------------------------------------------------------

/// A literal occurring in a well-formed view has its variable in `[1, n]`;
/// in particular it is nonzero and negation cannot overflow.
proof fn lemma_occurs_var_range(v: Seq<ClauseState>, n: int, x: int)
    requires
        view_wf(v, n),
        occurs(v, x),
    ensures
        1 <= lit_var(x) <= n,
{
    let i = choose|i: int| 0 <= i < v.len() && state_contains(#[trigger] v[i], x);
    let c = v[i]->Undetermined_0;
    let j = choose|j: int| 0 <= j < c.len() && c[j] == x;
    assert(state_wf(v[i], n));
}

/// The trail cannot decide more variables than the formula has.
proof fn lemma_trail_len_bound(t: Seq<int>, n: int)
    requires
        trail_wf(t, n),
        0 <= n,
    ensures
        t.len() <= n,
{
    let vars = t.map_values(|l: int| lit_var(l));
    assert(vars.no_duplicates());
    vars.unique_seq_to_set();
    assert(vars.to_set().subset_of(vstd::set_lib::set_int_range(1, n + 1))) by {
        assert forall|x: int| vars.to_set().contains(x) implies vstd::set_lib::set_int_range(
            1,
            n + 1,
        ).contains(x) by {
            let i = choose|i: int| 0 <= i < vars.len() && vars[i] == x;
            assert(1 <= lit_var(t[i]) <= n);
        }
    }
    vstd::set_lib::lemma_int_range(1, n + 1);
    vstd::set_lib::lemma_len_subset(vars.to_set(), vstd::set_lib::set_int_range(1, n + 1));
}

/// Assigning a literal of the formula maintains the search invariant, both
/// with the trail as it was and with the literal appended to it.
proof fn lemma_assign_step(v: Seq<ClauseState>, n: int, t: Seq<int>, l: int)
    requires
        view_wf(v, n),
        undecided(v, t),
        1 <= lit_var(l) <= n,
    ensures
        view_wf(assign_view(v, l), n),
        undecided(assign_view(v, l), t),
        undecided(assign_view(v, l), t.push(l)),
{
    let w = assign_view(v, l);
    assert forall|i: int| 0 <= i < w.len() implies state_wf(#[trigger] w[i], n) by {
        match v[i] {
            ClauseState::Undetermined(c) => {
                if !c.contains(l) {
                    let c2 = crate::semantics::remove_lit(c, -l);
                    lemma_remove_lit_props(c, -l);
                    if c2.len() > 0 {
                        assert(w[i] == ClauseState::Undetermined(c2));
                        assert forall|j: int| 0 <= j < c2.len() implies 1 <= lit_var(
                            #[trigger] c2[j],
                        ) <= n by {
                            assert(c2.contains(c2[j]));
                            let j2 = choose|j2: int| 0 <= j2 < c.len() && c[j2] == c2[j];
                            assert(state_wf(v[i], n));
                        }
                    }
                }
            },
            _ => {},
        }
    }
    assert forall|x: int| #[trigger] occurs(w, x) implies !trail_contains_var(
        t.push(l),
        lit_var(x),
    ) by {
        crate::semantics::lemma_occurs_monotone(v, l, x);
        assert(!trail_contains_var(t, lit_var(x)));
        // the assigned variable no longer occurs anywhere
        assert(lit_var(x) != lit_var(l)) by {
            let i = choose|i: int| 0 <= i < w.len() && state_contains(#[trigger] w[i], x);
            match v[i] {
                ClauseState::Undetermined(c) => {
                    if c.contains(l) {
                        assert(w[i] == ClauseState::Tautology);
                    } else {
                        let c2 = crate::semantics::remove_lit(c, -l);
                        lemma_remove_lit_props(c, -l);
                        assert(c2.contains(x));
                        assert(x != -l && !c.contains(l));
                        assert(x != l);
                    }
                },
                _ => {},
            }
        }
        if trail_contains_var(t.push(l), lit_var(x)) {
            let i = choose|i: int|
                0 <= i < t.push(l).len() && lit_var(#[trigger] t.push(l)[i]) == lit_var(x);
            if i < t.len() {
                assert(lit_var(t[i]) == lit_var(x));
                assert(trail_contains_var(t, lit_var(x)));
            } else {
                assert(t.push(l)[i] == l);
            }
        }
    }
    assert forall|x: int| #[trigger] occurs(w, x) implies !trail_contains_var(t, lit_var(x)) by {
        crate::semantics::lemma_occurs_monotone(v, l, x);
    }
}

/// Appending an undecided variable's literal keeps the trail well formed.
proof fn lemma_trail_push(t: Seq<int>, n: int, l: int)
    requires
        trail_wf(t, n),
        1 <= lit_var(l) <= n,
        !trail_contains_var(t, lit_var(l)),
    ensures
        trail_wf(t.push(l), n),
{
    let t2 = t.push(l);
    assert forall|i: int, j: int|
        0 <= i < t2.len() && 0 <= j < t2.len() && i != j implies lit_var(#[trigger] t2[i])
        != lit_var(#[trigger] t2[j]) by {
        if i < t.len() && j < t.len() {
            assert(t2[i] == t[i] && t2[j] == t[j]);
        } else if i < t.len() {
            assert(t2[j] == l && t2[i] == t[i]);
            if lit_var(t[i]) == lit_var(l) {
                assert(trail_contains_var(t, lit_var(l)));
            }
        } else {
            assert(t2[i] == l && t2[j] == t[j]);
            if lit_var(t[j]) == lit_var(l) {
                assert(trail_contains_var(t, lit_var(l)));
            }
        }
    }
}

// ------------------------------------------------------------------
// The driver
// ------------------------------------------------------------------

/// Decides satisfiability of a formula: `Satisfiable` exactly when some
/// assignment of truth values makes every clause true.
pub fn solve(cnf: OwnedCNF) -> (r: Outcome)
    requires
        cnf.wf(),
    ensures
        (r == Outcome::Satisfiable) <==> cnf_satisfiable(cnf@),
{
    let ghost cs = cnf@;
    let ghost n = cnf.num_vars();
    let view = PartiallyAssignedCNF::new(cnf);
    let assignment = Assignment::default();
    proof {
        lemma_initial_view_sat(cs);
        assert forall|i: int| 0 <= i < view@.len() implies state_wf(#[trigger] view@[i], n) by {
            assert(view@[i] == initial_view(cs)[i]);
            if cs[i].len() > 0 {
                assert(view@[i] == ClauseState::Undetermined(cs[i]));
            }
        }
        assert(search_inv(view@, n, assignment@));
    }
    dpll(view, assignment)
}

/// One branch of the search: simplify by pure literals and unit propagation,
/// check termination, branch on the lowest undecided variable, combine.
fn dpll(view: PartiallyAssignedCNF, assignment: Assignment) -> (r: Outcome)
    requires
        search_inv(view@, view.num_vars(), assignment@),
    ensures
        (r == Outcome::Satisfiable) <==> view_satisfiable(view@),
    decreases view.num_vars() - assignment@.len(),
{
    let ghost n = view.num_vars();
    let ghost v0 = view@;
    let ghost t0 = assignment@;
    let mut view = view;
    let mut assignment = assignment;

    // Pure-literal elimination, one pass: a fresh pass happens implicitly at
    // the start of the next recursive call.
    let pure_literals = view.get_pure_literals();
    proof {
        assert forall|k: int| 0 <= k < pure_literals@.len() implies justified(
            v0,
            (#[trigger] pure_literals@[k])@,
        ) && 1 <= lit_var(pure_literals@[k]@) <= n by {
            lemma_occurs_var_range(v0, n, pure_literals@[k]@);
        }
    }
    let mut idx: usize = 0;
    while idx < pure_literals.len()
        invariant
            search_inv(view@, n, assignment@),
            view.num_vars() == n,
            view_satisfiable(view@) <==> view_satisfiable(v0),
            assignment@.len() >= t0.len(),
            0 <= idx <= pure_literals@.len(),
            forall|k: int|
                idx <= k < pure_literals@.len() ==> justified(
                    view@,
                    (#[trigger] pure_literals@[k])@,
                ),
            forall|k: int|
                0 <= k < pure_literals@.len() ==> 1 <= lit_var((#[trigger] pure_literals@[k])@)
                    <= n,
        decreases pure_literals@.len() - idx,
    {
        let p = pure_literals[idx];
        let ghost vc = view@;
        let ghost tc = assignment@;
        assert(p.wf());
        assignment.add(p);
        view.assign(p);
        proof {
            lemma_assign_justified_preserves_sat(vc, p@);
            lemma_assign_step(vc, n, tc, p@);
            if !trail_contains_var(tc, lit_var(p@)) {
                lemma_trail_push(tc, n, p@);
            }
            assert forall|k: int| idx + 1 <= k < pure_literals@.len() implies justified(
                view@,
                (#[trigger] pure_literals@[k])@,
            ) by {
                lemma_justified_stable(vc, p@, pure_literals@[k]@);
            }
        }
        idx = idx + 1;
    }

    // Unit propagation to fixpoint.
    loop
        invariant
            search_inv(view@, n, assignment@),
            view.num_vars() == n,
            view_satisfiable(view@) <==> view_satisfiable(v0),
            assignment@.len() >= t0.len(),
        decreases view_size(view@),
    {
        let unit_literals = view.get_unit_clauses();
        if unit_literals.len() == 0 {
            break ;
        }
        let ghost vb = view@;
        let ghost size0 = view_size(view@);
        proof {
            assert forall|k: int| 0 <= k < unit_literals@.len() implies justified(
                vb,
                (#[trigger] unit_literals@[k])@,
            ) && 1 <= lit_var(unit_literals@[k]@) <= n by {
                lemma_unit_literal_occurs(vb, unit_literals@[k]@);
                lemma_occurs_var_range(vb, n, unit_literals@[k]@);
            }
        }
        let mut k: usize = 0;
        while k < unit_literals.len()
            invariant
                search_inv(view@, n, assignment@),
                view.num_vars() == n,
                view_satisfiable(view@) <==> view_satisfiable(v0),
                assignment@.len() >= t0.len(),
                0 <= k <= unit_literals@.len(),
                unit_literals@.len() > 0,
                forall|k2: int|
                    0 <= k2 < unit_literals@.len() ==> is_unit_literal(
                        vb,
                        (#[trigger] unit_literals@[k2])@,
                    ),
                forall|k2: int|
                    k <= k2 < unit_literals@.len() ==> justified(
                        view@,
                        (#[trigger] unit_literals@[k2])@,
                    ),
                forall|k2: int|
                    0 <= k2 < unit_literals@.len() ==> 1 <= lit_var(
                        (#[trigger] unit_literals@[k2])@,
                    ) <= n,
                view_size(view@) <= size0,
                k > 0 ==> view_size(view@) < size0,
                k == 0 ==> view@ == vb,
            decreases unit_literals@.len() - k,
        {
            let u = unit_literals[k];
            let ghost vc = view@;
            let ghost tc = assignment@;
            assert(u.wf());
            assignment.add(u);
            view.assign(u);
            proof {
                lemma_assign_justified_preserves_sat(vc, u@);
                lemma_assign_step(vc, n, tc, u@);
                if !trail_contains_var(tc, lit_var(u@)) {
                    lemma_trail_push(tc, n, u@);
                }
                assert forall|k2: int| k + 1 <= k2 < unit_literals@.len() implies justified(
                    view@,
                    (#[trigger] unit_literals@[k2])@,
                ) by {
                    lemma_justified_stable(vc, u@, unit_literals@[k2]@);
                }
                if k == 0 {
                    lemma_unit_literal_occurs(vb, u@);
                    lemma_assign_view_size(vb, u@);
                } else {
                    lemma_assign_view_size(vc, u@);
                }
            }
            k = k + 1;
        }
    }

    // Termination check.
    if view.is_satisfied() {
        proof {
            lemma_all_tautologies_sat(view@);
        }
        return Outcome::Satisfiable;
    }
    if view.is_contradicting() {
        proof {
            lemma_contradiction_unsat(view@);
        }
        return Outcome::Unsatisfiable;
    }

    // Branch selection: some clause is undetermined and nonempty, so an
    // undecided variable must exist.
    proof {
        let i = choose|i: int| 0 <= i < view@.len() && !((#[trigger] view@[i]) is Tautology);
        assert(view@[i] matches ClauseState::Undetermined(c));
        let c = view@[i]->Undetermined_0;
        assert(state_wf(view@[i], n));
        let x = c[0];
        assert(c.contains(x));
        assert(state_contains(view@[i], x));
        assert(occurs(view@, x));
        assert(!trail_contains_var(assignment@, lit_var(x)));
        assert(1 <= lit_var(x) <= n);
    }
    let next_literal = get_next_literal(&view, &assignment);

    // Positive branch first, on a forked view and a cloned trail.
    let ghost vc = view@;
    let ghost tc = assignment@;
    let mut positive_view = view.as_borrowing();
    positive_view.assign(next_literal);
    let mut positive_assignment = assignment.clone();
    positive_assignment.add(next_literal);
    proof {
        lemma_assign_step(vc, n, tc, next_literal@);
        lemma_trail_push(tc, n, next_literal@);
        lemma_trail_len_bound(tc.push(next_literal@), n);
        assert(search_inv(positive_view@, n, positive_assignment@));
    }
    let positive_outcome = dpll(positive_view, positive_assignment);
    proof {
        lemma_assign_view_sat(vc, next_literal@);
        lemma_split(vc, next_literal@);
    }
    if positive_outcome == Outcome::Satisfiable {
        return Outcome::Satisfiable;
    }

    // Negative branch on the still-owned view with the original trail.
    let negated = next_literal.not();
    assignment.add(negated);
    view.assign(negated);
    proof {
        lemma_assign_step(vc, n, tc, negated@);
        lemma_trail_push(tc, n, negated@);
        lemma_trail_len_bound(tc.push(negated@), n);
        assert(search_inv(view@, n, assignment@));
    }
    let negative_outcome = dpll(view, assignment);
    positive_outcome.combine(negative_outcome)
}

/// The lowest-identifier variable not yet decided, as a positive literal.
fn get_next_literal(view: &PartiallyAssignedCNF, assignment: &Assignment) -> (r: Literal)
    requires
        view.num_vars() <= 0x7fff_ffff,
        exists|x: int| 1 <= x <= view.num_vars() && !trail_contains_var(assignment@, x),
    ensures
        1 <= r@ <= view.num_vars(),
        !trail_contains_var(assignment@, r@),
        forall|y: int| 1 <= y < r@ ==> trail_contains_var(assignment@, y),
        r.wf(),
{
    let variables = view.iter_variables();
    let mut k: usize = 0;
    while k < variables.len()
        invariant
            0 <= k <= variables@.len(),
            variables@.len() == view.num_vars(),
            forall|i: int| 0 <= i < variables@.len() ==> (#[trigger] variables@[i])@ == i + 1
                && variables@[i].wf(),
            forall|y: int| 1 <= y <= k ==> trail_contains_var(assignment@, y),
            exists|x: int| 1 <= x <= view.num_vars() && !trail_contains_var(assignment@, x),
        decreases variables@.len() - k,
    {
        let variable = variables[k];
        if !assignment.contains_variable(variable) {
            return Literal::new_from_variable(variable, false);
        }
        k = k + 1;
    }
    proof {
        let x = choose|x: int| 1 <= x <= view.num_vars() && !trail_contains_var(assignment@, x);
        assert(trail_contains_var(assignment@, x));
    }
    vstd::pervasive::unreached()
}

} // verus!

