//! The mathematical model of CNF satisfiability.
//!
//! A literal is modelled as a nonzero integer whose magnitude is the variable
//! identifier and whose sign is the polarity; a clause as a sequence of such
//! integers; a formula as a sequence of clauses.  An assignment is a total
//! valuation of variable identifiers.  This module also models the solver's
//! partial-assignment view of a formula ([`ClauseState`]) and proves the
//! facts about assigning a literal that the search procedure rests on.

use vstd::prelude::*;

verus! {

// ------------------------------------------------------------------
// Literals, clauses, formulas
// ------------------------------------------------------------------

/// The variable identifier of a literal: its magnitude.
pub open spec fn lit_var(l: int) -> int {
    if l < 0 {
        -l
    } else {
        l
    }
}

/// Negation of a literal flips its sign and nothing else.
pub open spec fn lit_neg(l: int) -> int {
    -l
}

/// A literal is truthified by a valuation `f` when its variable is mapped to
/// the literal's polarity.
pub open spec fn lit_true(f: spec_fn(int) -> bool, l: int) -> bool {
    if l > 0 {
        f(l)
    } else {
        !f(-l)
    }
}

/// A clause (a disjunction) is true under `f` when some literal of it is.
pub open spec fn clause_true(f: spec_fn(int) -> bool, c: Seq<int>) -> bool {
    exists|i: int| 0 <= i < c.len() && lit_true(f, c[i])
}

/// A formula (a conjunction) is true under `f` when every clause of it is.
pub open spec fn cnf_true(f: spec_fn(int) -> bool, cs: Seq<Seq<int>>) -> bool {
    forall|i: int| 0 <= i < cs.len() ==> clause_true(f, #[trigger] cs[i])
}

/// Satisfiability: some valuation makes the whole formula true.
pub open spec fn cnf_satisfiable(cs: Seq<Seq<int>>) -> bool {
    exists|f: spec_fn(int) -> bool| cnf_true(f, cs)
}

/// Well-formedness of a formula over `n` variables: every literal's variable
/// identifier lies in `[1, n]`, and `n` fits in a signed 32-bit word.
pub open spec fn cnf_wf(n: int, cs: Seq<Seq<int>>) -> bool {
    &&& 0 <= n <= 0x7fff_ffff
    &&& forall|i: int, j: int|
        0 <= i < cs.len() && 0 <= j < cs[i].len() ==> 1 <= lit_var(#[trigger] cs[i][j]) <= n
}

// ------------------------------------------------------------------
// The partial-assignment view of a formula
// ------------------------------------------------------------------

/// The state of one clause under a partial assignment: already satisfied,
/// already falsified, or undetermined with the literals that remain.
#[verifier::ext_equal]
pub enum ClauseState {
    Tautology,
    Contradiction,
    Undetermined(Seq<int>),
}

/// Truth of a clause state under a total valuation.  A `Tautology` is true
/// under every valuation, a `Contradiction` under none.
pub open spec fn state_true(f: spec_fn(int) -> bool, st: ClauseState) -> bool {
    match st {
        ClauseState::Tautology => true,
        ClauseState::Contradiction => false,
        ClauseState::Undetermined(c) => clause_true(f, c),
    }
}

pub open spec fn view_true(f: spec_fn(int) -> bool, v: Seq<ClauseState>) -> bool {
    forall|i: int| 0 <= i < v.len() ==> state_true(f, #[trigger] v[i])
}

pub open spec fn view_satisfiable(v: Seq<ClauseState>) -> bool {
    exists|f: spec_fn(int) -> bool| view_true(f, v)
}

/// An undetermined clause of the view still holds the literal `l`.
pub open spec fn state_contains(st: ClauseState, l: int) -> bool {
    st matches ClauseState::Undetermined(c) && c.contains(l)
}

/// The literal `l` still occurs in some undetermined clause of the view.
pub open spec fn occurs(v: Seq<ClauseState>, l: int) -> bool {
    exists|i: int| 0 <= i < v.len() && state_contains(#[trigger] v[i], l)
}

pub open spec fn all_tautologies(v: Seq<ClauseState>) -> bool {
    forall|i: int| 0 <= i < v.len() ==> (#[trigger] v[i]) is Tautology
}

pub open spec fn has_contradiction(v: Seq<ClauseState>) -> bool {
    exists|i: int| 0 <= i < v.len() && (#[trigger] v[i]) is Contradiction
}

/// Some undetermined clause of the view has exactly one literal left.
pub open spec fn has_unit(v: Seq<ClauseState>) -> bool {
    exists|i: int|
        0 <= i < v.len() && ((#[trigger] v[i]) matches ClauseState::Undetermined(c) && c.len()
            == 1)
}

/// `l` is the single literal of some undetermined unit clause of the view.
pub open spec fn is_unit_literal(v: Seq<ClauseState>, l: int) -> bool {
    exists|i: int|
        0 <= i < v.len() && ((#[trigger] v[i]) matches ClauseState::Undetermined(c) && c.len() == 1
            && c[0] == l)
}

// ------------------------------------------------------------------
// Removing a literal from a clause
// ------------------------------------------------------------------

/// Drops every occurrence of exactly `l`, keeping the other literals in order.
pub open spec fn remove_lit(c: Seq<int>, l: int) -> Seq<int>
    decreases c.len(),
{
    if c.len() == 0 {
        Seq::empty()
    } else if c.last() == l {
        remove_lit(c.drop_last(), l)
    } else {
        remove_lit(c.drop_last(), l).push(c.last())
    }
}

pub proof fn lemma_remove_lit_props(c: Seq<int>, l: int)
    ensures
        forall|x: int| #[trigger] remove_lit(c, l).contains(x) <==> (c.contains(x) && x != l),
        remove_lit(c, l).len() <= c.len(),
    decreases c.len(),
{
    if c.len() == 0 {
    } else {
        let d = c.drop_last();
        lemma_remove_lit_props(d, l);
        assert forall|x: int| c.contains(x) && x != l implies #[trigger] remove_lit(c, l).contains(
            x,
        ) by {
            let i = choose|i: int| 0 <= i < c.len() && c[i] == x;
            if i < c.len() - 1 {
                assert(d[i] == x);
                assert(d.contains(x));
                assert(remove_lit(d, l).contains(x));
                let j = choose|j: int|
                    0 <= j < remove_lit(d, l).len() && remove_lit(d, l)[j] == x;
                if c.last() == l {
                    assert(remove_lit(c, l)[j] == x);
                } else {
                    assert(remove_lit(c, l) == remove_lit(d, l).push(c.last()));
                    assert(remove_lit(c, l)[j] == x);
                }
            } else {
                assert(c.last() == x);
                assert(remove_lit(c, l) == remove_lit(d, l).push(x));
                assert(remove_lit(c, l).last() == x);
            }
        }
        assert forall|x: int| #[trigger] remove_lit(c, l).contains(x) implies (c.contains(x) && x
            != l) by {
            let r = remove_lit(c, l);
            let i = choose|i: int| 0 <= i < r.len() && r[i] == x;
            if c.last() == l {
                assert(remove_lit(d, l)[i] == x);
                assert(remove_lit(d, l).contains(x));
                let j = choose|j: int| 0 <= j < d.len() && d[j] == x;
                assert(c[j] == x);
            } else {
                assert(r == remove_lit(d, l).push(c.last()));
                if i < remove_lit(d, l).len() {
                    assert(remove_lit(d, l)[i] == x);
                    assert(remove_lit(d, l).contains(x));
                    let j = choose|j: int| 0 <= j < d.len() && d[j] == x;
                    assert(c[j] == x);
                } else {
                    assert(x == c.last());
                    assert(c[c.len() - 1] == x);
                }
            }
        }
    }
}

// ------------------------------------------------------------------
// Assigning a literal in the partial-assignment view
// ------------------------------------------------------------------

/// Marking as satisfied: a clause that still holds `l` becomes a `Tautology`.
pub open spec fn taut_state(st: ClauseState, l: int) -> ClauseState {
    if state_contains(st, l) {
        ClauseState::Tautology
    } else {
        st
    }
}

/// Removal: `l` is dropped from an undetermined clause; an emptied clause
/// becomes a `Contradiction`.
pub open spec fn remove_state(st: ClauseState, l: int) -> ClauseState {
    match st {
        ClauseState::Undetermined(c) => {
            let c2 = remove_lit(c, l);
            if c2.len() == 0 {
                ClauseState::Contradiction
            } else {
                ClauseState::Undetermined(c2)
            }
        },
        _ => st,
    }
}

/// Deciding `l` true for one clause: satisfied if it holds `l`, otherwise
/// `¬l` is removed from it.
pub open spec fn assign_state(st: ClauseState, l: int) -> ClauseState {
    remove_state(taut_state(st, l), lit_neg(l))
}

pub open spec fn taut_view(v: Seq<ClauseState>, l: int) -> Seq<ClauseState> {
    v.map_values(|st: ClauseState| taut_state(st, l))
}

pub open spec fn remove_view(v: Seq<ClauseState>, l: int) -> Seq<ClauseState> {
    v.map_values(|st: ClauseState| remove_state(st, l))
}

/// Deciding `l` true for the whole view.
pub open spec fn assign_view(v: Seq<ClauseState>, l: int) -> Seq<ClauseState> {
    v.map_values(|st: ClauseState| assign_state(st, l))
}

/// Assigning decomposes into the two passes the implementation makes.
pub proof fn lemma_assign_view_decomposes(v: Seq<ClauseState>, l: int)
    ensures
        assign_view(v, l) =~= remove_view(taut_view(v, l), lit_neg(l)),
{
}

/// The valuation that agrees with `f` everywhere except that it makes `l`
/// true.
pub open spec fn override_lit(f: spec_fn(int) -> bool, l: int) -> spec_fn(int) -> bool {
    |v: int|
        if v == lit_var(l) {
            l > 0
        } else {
            f(v)
        }
}

proof fn lemma_override_makes_true(f: spec_fn(int) -> bool, l: int)
    requires
        l != 0,
    ensures
        lit_true(override_lit(f, l), l),
        forall|x: int| lit_var(x) != lit_var(l) ==> lit_true(override_lit(f, l), x) == lit_true(
            f,
            x,
        ),
{
}

/// Truth of one clause state under an assignment of `l`, in both directions:
/// a valuation that makes `l` true keeps a state it satisfies satisfied, and
/// any valuation satisfying the assigned state satisfies the original state
/// once it is overridden to make `l` true.
proof fn lemma_state_assign_forward(f: spec_fn(int) -> bool, st: ClauseState, l: int)
    requires
        l != 0,
        lit_true(f, l),
        state_true(f, st),
    ensures
        state_true(f, assign_state(st, l)),
{
    match st {
        ClauseState::Tautology => {},
        ClauseState::Contradiction => {},
        ClauseState::Undetermined(c) => {
            if c.contains(l) {
                assert(assign_state(st, l) == ClauseState::Tautology);
            } else {
                let c2 = remove_lit(c, -l);
                lemma_remove_lit_props(c, -l);
                let i = choose|i: int| 0 <= i < c.len() && lit_true(f, c[i]);
                let x = c[i];
                assert(c.contains(x));
                assert(x != -l) by {
                    if x == -l {
                        assert(lit_true(f, -l) == !lit_true(f, l));
                    }
                }
                assert(c2.contains(x));
                let j = choose|j: int| 0 <= j < c2.len() && c2[j] == x;
                assert(lit_true(f, c2[j]));
                assert(clause_true(f, c2));
            }
        },
    }
}

proof fn lemma_state_assign_backward(f: spec_fn(int) -> bool, st: ClauseState, l: int)
    requires
        l != 0,
        state_true(f, assign_state(st, l)),
    ensures
        state_true(override_lit(f, l), st),
{
    let g = override_lit(f, l);
    lemma_override_makes_true(f, l);
    match st {
        ClauseState::Tautology => {},
        ClauseState::Contradiction => {
            assert(assign_state(st, l) == ClauseState::Contradiction);
        },
        ClauseState::Undetermined(c) => {
            if c.contains(l) {
                let i = choose|i: int| 0 <= i < c.len() && c[i] == l;
                assert(lit_true(g, c[i]));
                assert(clause_true(g, c));
            } else {
                let c2 = remove_lit(c, -l);
                lemma_remove_lit_props(c, -l);
                assert(c2.len() != 0) by {
                    if c2.len() == 0 {
                        assert(assign_state(st, l) == ClauseState::Contradiction);
                    }
                }
                assert(assign_state(st, l) == ClauseState::Undetermined(c2));
                let i = choose|i: int| 0 <= i < c2.len() && lit_true(f, c2[i]);
                let x = c2[i];
                assert(c2.contains(x));
                assert(c.contains(x) && x != -l);
                assert(x != l);
                assert(lit_var(x) != lit_var(l));
                assert(lit_true(g, x) == lit_true(f, x));
                let j = choose|j: int| 0 <= j < c.len() && c[j] == x;
                assert(lit_true(g, c[j]));
                assert(clause_true(g, c));
            }
        },
    }
}

/// The satisfiable valuations of the assigned view are exactly those of the
/// original view that make the assigned literal true (up to overriding the
/// assigned variable).
pub proof fn lemma_assign_view_sat(v: Seq<ClauseState>, l: int)
    requires
        l != 0,
    ensures
        view_satisfiable(assign_view(v, l)) <==> (exists|f: spec_fn(int) -> bool|
            lit_true(f, l) && view_true(f, v)),
{
    if exists|f: spec_fn(int) -> bool| lit_true(f, l) && view_true(f, v) {
        let f = choose|f: spec_fn(int) -> bool| lit_true(f, l) && view_true(f, v);
        assert forall|i: int| 0 <= i < assign_view(v, l).len() implies state_true(
            f,
            #[trigger] assign_view(v, l)[i],
        ) by {
            assert(state_true(f, v[i]));
            lemma_state_assign_forward(f, v[i], l);
        }
        assert(view_true(f, assign_view(v, l)));
    }
    if view_satisfiable(assign_view(v, l)) {
        let f = choose|f: spec_fn(int) -> bool| view_true(f, assign_view(v, l));
        let g = override_lit(f, l);
        lemma_override_makes_true(f, l);
        assert forall|i: int| 0 <= i < v.len() implies state_true(g, #[trigger] v[i]) by {
            assert(state_true(f, assign_view(v, l)[i]));
            lemma_state_assign_backward(f, v[i], l);
        }
        assert(lit_true(g, l) && view_true(g, v));
    }
}

/// Splitting on a variable: a view is satisfiable exactly when one of the two
/// branches on a literal of that variable is.
pub proof fn lemma_split(v: Seq<ClauseState>, l: int)
    requires
        l != 0,
    ensures
        view_satisfiable(v) <==> (view_satisfiable(assign_view(v, l)) || view_satisfiable(
            assign_view(v, -l),
        )),
{
    lemma_assign_view_sat(v, l);
    lemma_assign_view_sat(v, -l);
    if view_satisfiable(v) {
        let f = choose|f: spec_fn(int) -> bool| view_true(f, v);
        if lit_true(f, l) {
            assert(lit_true(f, l) && view_true(f, v));
        } else {
            assert(lit_true(f, -l));
            assert(lit_true(f, -l) && view_true(f, v));
        }
    }
}

/// Pure-literal elimination preserves satisfiability: when the negation of a
/// literal occurs in no undetermined clause, forcing that literal true leaves
/// the view satisfiable exactly when it already was.
pub proof fn lemma_pure_literal_preserves_sat(v: Seq<ClauseState>, l: int)
    requires
        l != 0,
        !occurs(v, -l),
    ensures
        view_satisfiable(assign_view(v, l)) <==> view_satisfiable(v),
{
    lemma_assign_view_sat(v, l);
    if view_satisfiable(v) {
        let f = choose|f: spec_fn(int) -> bool| view_true(f, v);
        let g = override_lit(f, l);
        lemma_override_makes_true(f, l);
        assert forall|i: int| 0 <= i < v.len() implies state_true(g, #[trigger] v[i]) by {
            assert(state_true(f, v[i]));
            match v[i] {
                ClauseState::Tautology => {},
                ClauseState::Contradiction => {},
                ClauseState::Undetermined(c) => {
                    let j = choose|j: int| 0 <= j < c.len() && lit_true(f, c[j]);
                    let x = c[j];
                    if lit_var(x) == lit_var(l) {
                        assert(x == l || x == -l);
                        if x == -l {
                            assert(c.contains(x));
                            assert(state_contains(v[i], -l));
                            assert(occurs(v, -l));
                        }
                        assert(x == l);
                        assert(lit_true(g, c[j]));
                    } else {
                        assert(lit_true(g, c[j]) == lit_true(f, c[j]));
                    }
                    assert(clause_true(g, c));
                },
            }
        }
        assert(lit_true(g, l) && view_true(g, v));
    }
}

/// Unit propagation preserves satisfiability: assigning the single literal of
/// an undetermined unit clause.
pub proof fn lemma_unit_preserves_sat(v: Seq<ClauseState>, l: int)
    requires
        l != 0,
        is_unit_literal(v, l),
    ensures
        view_satisfiable(assign_view(v, l)) <==> view_satisfiable(v),
{
    lemma_assign_view_sat(v, l);
    lemma_split(v, l);
    let i = choose|i: int|
        0 <= i < v.len() && ((#[trigger] v[i]) matches ClauseState::Undetermined(c) && c.len() == 1
            && c[0] == l);
    let c = v[i]->Undetermined_0;
    assert(c =~= seq![l]);
    assert(!c.contains(-l)) by {
        if c.contains(-l) {
            let j = choose|j: int| 0 <= j < c.len() && c[j] == -l;
        }
    }
    lemma_remove_lit_props(c, l);
    assert(remove_lit(c, l).len() == 0) by {
        lemma_remove_lit_empty(c, l);
        assert forall|x: int| c.contains(x) implies x == l by {
            let j = choose|j: int| 0 <= j < c.len() && c[j] == x;
        }
    }
    assert(assign_state(v[i], -l) == ClauseState::Contradiction);
    assert(assign_view(v, -l)[i] is Contradiction);
    assert(has_contradiction(assign_view(v, -l)));
    lemma_contradiction_unsat(assign_view(v, -l));
}

/// A view with a contradicting clause is satisfied by no valuation.
pub proof fn lemma_contradiction_unsat(v: Seq<ClauseState>)
    requires
        has_contradiction(v),
    ensures
        !view_satisfiable(v),
{
    let i = choose|i: int| 0 <= i < v.len() && (#[trigger] v[i]) is Contradiction;
    assert forall|f: spec_fn(int) -> bool| !view_true(f, v) by {
        assert(!state_true(f, v[i]));
    }
}

/// A view whose clauses are all tautologies is satisfied by every valuation.
pub proof fn lemma_all_tautologies_sat(v: Seq<ClauseState>)
    requires
        all_tautologies(v),
    ensures
        view_satisfiable(v),
{
    let f: spec_fn(int) -> bool = |x: int| true;
    assert forall|i: int| 0 <= i < v.len() implies state_true(f, #[trigger] v[i]) by {
        assert(v[i] is Tautology);
    }
    assert(view_true(f, v));
}

/// A contradiction persists under any further assignment.
pub proof fn lemma_contradiction_persists(v: Seq<ClauseState>, l: int)
    requires
        has_contradiction(v),
    ensures
        has_contradiction(assign_view(v, l)),
{
    let i = choose|i: int| 0 <= i < v.len() && (#[trigger] v[i]) is Contradiction;
    assert(assign_view(v, l)[i] is Contradiction);
}

/// Assigning never introduces occurrences: a literal occurring afterwards
/// occurred before.
pub proof fn lemma_occurs_monotone(v: Seq<ClauseState>, a: int, x: int)
    requires
        occurs(assign_view(v, a), x),
    ensures
        occurs(v, x),
{
    let i = choose|i: int| 0 <= i < assign_view(v, a).len() && state_contains(
        #[trigger] assign_view(v, a)[i],
        x,
    );
    match v[i] {
        ClauseState::Tautology => {},
        ClauseState::Contradiction => {},
        ClauseState::Undetermined(c) => {
            if c.contains(a) {
                assert(assign_view(v, a)[i] == ClauseState::Tautology);
            } else {
                lemma_remove_lit_props(c, -a);
                assert(c.contains(x));
                assert(state_contains(v[i], x));
            }
        },
    }
}

// ------------------------------------------------------------------
// Justified assignments: the three sound reasons for deciding a literal
// ------------------------------------------------------------------

/// An assignment of `l` is justified when `l` is a unit literal, when `l` is
/// pure (its negation occurs nowhere), or when the view already holds a
/// contradiction.  Each case preserves satisfiability.
pub open spec fn justified(v: Seq<ClauseState>, l: int) -> bool {
    is_unit_literal(v, l) || !occurs(v, -l) || has_contradiction(v)
}

pub proof fn lemma_assign_justified_preserves_sat(v: Seq<ClauseState>, l: int)
    requires
        l != 0,
        justified(v, l),
    ensures
        view_satisfiable(assign_view(v, l)) <==> view_satisfiable(v),
{
    if is_unit_literal(v, l) {
        lemma_unit_preserves_sat(v, l);
    } else if !occurs(v, -l) {
        lemma_pure_literal_preserves_sat(v, l);
    } else {
        lemma_contradiction_unsat(v);
        lemma_contradiction_persists(v, l);
        lemma_contradiction_unsat(assign_view(v, l));
    }
}

/// A justification for `l` survives any intervening justified-or-not
/// assignment of another literal.
pub proof fn lemma_justified_stable(v: Seq<ClauseState>, a: int, l: int)
    requires
        justified(v, l),
        a != 0,
    ensures
        justified(assign_view(v, a), l),
{
    let w = assign_view(v, a);
    if has_contradiction(v) {
        lemma_contradiction_persists(v, a);
    } else if is_unit_literal(v, l) {
        let i = choose|i: int|
            0 <= i < v.len() && ((#[trigger] v[i]) matches ClauseState::Undetermined(c) && c.len()
                == 1 && c[0] == l);
        let c = v[i]->Undetermined_0;
        assert(c =~= seq![l]);
        if l == a {
            // the unit clause becomes a tautology, and every occurrence of
            // its negation is removed: `l` is pure afterwards
            assert forall|j: int| 0 <= j < w.len() implies !state_contains(#[trigger] w[j], -l) by {
                match v[j] {
                    ClauseState::Undetermined(cj) => {
                        if !cj.contains(a) {
                            lemma_remove_lit_props(cj, -a);
                        }
                    },
                    _ => {},
                }
            }
            assert(!occurs(w, -l)) by {
                if occurs(w, -l) {
                    let j = choose|j: int| 0 <= j < w.len() && state_contains(#[trigger] w[j], -l);
                }
            }
        } else if l == -a {
            assert(c.contains(l));
            assert(!c.contains(a)) by {
                if c.contains(a) {
                    let j = choose|j: int| 0 <= j < c.len() && c[j] == a;
                }
            }
            lemma_remove_lit_props(c, -a);
            lemma_remove_lit_empty(c, -a);
            assert forall|x: int| c.contains(x) implies x == -a by {
                let j = choose|j: int| 0 <= j < c.len() && c[j] == x;
            }
            assert(assign_state(v[i], a) == ClauseState::Contradiction);
            assert(w[i] is Contradiction);
        } else {
            assert(!c.contains(a)) by {
                if c.contains(a) {
                    let j = choose|j: int| 0 <= j < c.len() && c[j] == a;
                }
            }
            lemma_remove_lit_props(c, -a);
            assert(c.contains(l));
            let c2 = remove_lit(c, -a);
            assert(c2.contains(l));
            assert(c2.len() >= 1);
            assert(c2.len() <= 1);
            assert(c2[0] == l) by {
                let j = choose|j: int| 0 <= j < c2.len() && c2[j] == l;
            }
            assert(assign_state(v[i], a) == ClauseState::Undetermined(c2));
            assert((w[i] matches ClauseState::Undetermined(cc) && cc.len() == 1 && cc[0] == l));
        }
    } else {
        assert(!occurs(v, -l));
        assert(!occurs(w, -l)) by {
            if occurs(w, -l) {
                lemma_occurs_monotone(v, a, -l);
            }
        }
    }
}

// ------------------------------------------------------------------
// A size measure for termination of unit propagation
// ------------------------------------------------------------------

/// The number of literal slots an undetermined clause still occupies, plus
/// one for the clause itself.
pub open spec fn state_size(st: ClauseState) -> nat {
    match st {
        ClauseState::Undetermined(c) => c.len() + 1,
        _ => 0,
    }
}

pub open spec fn view_size(v: Seq<ClauseState>) -> nat
    decreases v.len(),
{
    if v.len() == 0 {
        0
    } else {
        view_size(v.drop_last()) + state_size(v.last())
    }
}

proof fn lemma_view_size_pointwise(v1: Seq<ClauseState>, v2: Seq<ClauseState>, strict_at: int)
    requires
        v1.len() == v2.len(),
        forall|i: int| 0 <= i < v1.len() ==> state_size(#[trigger] v1[i]) <= state_size(v2[i]),
        strict_at < v1.len(),
        0 <= strict_at ==> state_size(v1[strict_at]) < state_size(v2[strict_at]),
    ensures
        view_size(v1) <= view_size(v2),
        0 <= strict_at ==> view_size(v1) < view_size(v2),
    decreases v1.len(),
{
    if v1.len() > 0 {
        let d1 = v1.drop_last();
        let d2 = v2.drop_last();
        assert(forall|i: int| 0 <= i < d1.len() ==> state_size(#[trigger] d1[i]) <= state_size(
            d2[i],
        ));
        if strict_at == v1.len() - 1 {
            lemma_view_size_pointwise(d1, d2, -1);
        } else {
            lemma_view_size_pointwise(d1, d2, strict_at);
        }
    }
}

proof fn lemma_assign_state_size(st: ClauseState, l: int)
    ensures
        state_size(assign_state(st, l)) <= state_size(st),
        state_contains(st, l) ==> state_size(assign_state(st, l)) < state_size(st),
{
    match st {
        ClauseState::Undetermined(c) => {
            if c.contains(l) {
            } else {
                lemma_remove_lit_props(c, -l);
            }
        },
        _ => {},
    }
}

/// Assigning never grows the view, and strictly shrinks it when the literal
/// still occurs somewhere.
pub proof fn lemma_assign_view_size(v: Seq<ClauseState>, l: int)
    ensures
        view_size(assign_view(v, l)) <= view_size(v),
        occurs(v, l) ==> view_size(assign_view(v, l)) < view_size(v),
{
    let w = assign_view(v, l);
    assert forall|i: int| 0 <= i < w.len() implies state_size(#[trigger] w[i]) <= state_size(
        v[i],
    ) by {
        lemma_assign_state_size(v[i], l);
    }
    if occurs(v, l) {
        let i = choose|i: int| 0 <= i < v.len() && state_contains(#[trigger] v[i], l);
        lemma_assign_state_size(v[i], l);
        lemma_view_size_pointwise(w, v, i);
    } else {
        lemma_view_size_pointwise(w, v, -1);
    }
}

/// A unit literal of the view occurs in it: its unit clause holds it.
pub proof fn lemma_unit_literal_occurs(v: Seq<ClauseState>, l: int)
    requires
        is_unit_literal(v, l),
    ensures
        occurs(v, l),
{
    let i = choose|i: int|
        0 <= i < v.len() && ((#[trigger] v[i]) matches ClauseState::Undetermined(c) && c.len() == 1
            && c[0] == l);
    let c = v[i]->Undetermined_0;
    assert(c.contains(l));
    assert(state_contains(v[i], l));
}

// ------------------------------------------------------------------
// Fixpoint of unit propagation
// ------------------------------------------------------------------

/// Assigning a batch of literals left to right.
pub open spec fn assign_all(v: Seq<ClauseState>, ls: Seq<int>) -> Seq<ClauseState>
    decreases ls.len(),
{
    if ls.len() == 0 {
        v
    } else {
        assign_all(assign_view(v, ls[0]), ls.drop_first())
    }
}

/// Unit propagation is at a fixpoint once no unit clause remains: a batch of
/// unit literals of such a view is necessarily empty, so repeating the
/// propagation loop leaves the view unchanged.
pub proof fn lemma_propagation_fixpoint(v: Seq<ClauseState>, ls: Seq<int>)
    requires
        !has_unit(v),
        forall|k: int| 0 <= k < ls.len() ==> is_unit_literal(v, #[trigger] ls[k]),
    ensures
        assign_all(v, ls) == v,
{
    if ls.len() > 0 {
        assert(is_unit_literal(v, ls[0]));
        let i = choose|i: int|
            0 <= i < v.len() && ((#[trigger] v[i]) matches ClauseState::Undetermined(c) && c.len()
                == 1 && c[0] == ls[0]);
        assert(has_unit(v));
    }
}

// ------------------------------------------------------------------
// The initial view of a formula
// ------------------------------------------------------------------

/// Wrapping a formula: a clause with literals left starts undetermined, and a
/// clause with zero literals denotes a falsified constraint.
pub open spec fn initial_view(cs: Seq<Seq<int>>) -> Seq<ClauseState> {
    cs.map_values(
        |c: Seq<int>|
            if c.len() == 0 {
                ClauseState::Contradiction
            } else {
                ClauseState::Undetermined(c)
            },
    )
}

pub proof fn lemma_initial_view_sat(cs: Seq<Seq<int>>)
    ensures
        view_satisfiable(initial_view(cs)) <==> cnf_satisfiable(cs),
{
    let v = initial_view(cs);
    assert forall|f: spec_fn(int) -> bool| view_true(f, v) == cnf_true(f, cs) by {
        assert forall|i: int| 0 <= i < cs.len() implies state_true(f, #[trigger] v[i])
            == clause_true(f, #[trigger] cs[i]) by {
            if cs[i].len() == 0 {
                assert(!clause_true(f, cs[i]));
            }
        }
        if view_true(f, v) {
            assert forall|i: int| 0 <= i < cs.len() implies clause_true(f, #[trigger] cs[i]) by {
                assert(state_true(f, v[i]));
            }
            assert(cnf_true(f, cs));
        }
        if cnf_true(f, cs) {
            assert forall|i: int| 0 <= i < v.len() implies state_true(f, #[trigger] v[i]) by {
                assert(clause_true(f, cs[i]));
            }
        }
    }
    if view_satisfiable(v) {
        let f = choose|f: spec_fn(int) -> bool| view_true(f, v);
        assert(cnf_true(f, cs));
    }
    if cnf_satisfiable(cs) {
        let f = choose|f: spec_fn(int) -> bool| cnf_true(f, cs);
        assert(view_true(f, v));
    }
}

// ------------------------------------------------------------------
// Laws about whole formulas
// ------------------------------------------------------------------

/// A formula with zero clauses is satisfiable.
pub proof fn lemma_empty_formula_satisfiable(cs: Seq<Seq<int>>)
    requires
        cs.len() == 0,
    ensures
        cnf_satisfiable(cs),
{
    let f: spec_fn(int) -> bool = |x: int| true;
    assert(cnf_true(f, cs));
}

/// A formula containing a clause with zero literals is unsatisfiable.
pub proof fn lemma_empty_clause_unsatisfiable(cs: Seq<Seq<int>>)
    requires
        exists|i: int| 0 <= i < cs.len() && (#[trigger] cs[i]).len() == 0,
    ensures
        !cnf_satisfiable(cs),
{
    let i = choose|i: int| 0 <= i < cs.len() && (#[trigger] cs[i]).len() == 0;
    assert forall|f: spec_fn(int) -> bool| !cnf_true(f, cs) by {
        assert(!clause_true(f, cs[i]));
    }
}

/// The valuation described by a finite vector of truth values for the
/// variables `1..=len`, everything else false.
pub open spec fn seq_assignment(s: Seq<bool>) -> spec_fn(int) -> bool {
    |v: int| 1 <= v <= s.len() && s[v - 1]
}

/// Satisfiability by exhaustive evaluation: some vector of `n` truth values
/// makes the formula true.
pub open spec fn exhaustively_satisfiable(n: int, cs: Seq<Seq<int>>) -> bool {
    exists|s: Seq<bool>| s.len() == n && cnf_true(seq_assignment(s), cs)
}

/// Exhaustively evaluating all assignments of the `n` variables agrees with
/// satisfiability over unrestricted valuations: the search's outcome matches
/// the truth-table oracle.
pub proof fn lemma_exhaustive_agreement(n: int, cs: Seq<Seq<int>>)
    requires
        cnf_wf(n, cs),
    ensures
        exhaustively_satisfiable(n, cs) <==> cnf_satisfiable(cs),
{
    if exhaustively_satisfiable(n, cs) {
        let s = choose|s: Seq<bool>| s.len() == n && cnf_true(seq_assignment(s), cs);
        assert(cnf_true(seq_assignment(s), cs));
    }
    if cnf_satisfiable(cs) {
        let f = choose|f: spec_fn(int) -> bool| cnf_true(f, cs);
        let s = Seq::new(n as nat, |i: int| f(i + 1));
        let g = seq_assignment(s);
        assert forall|i: int| 0 <= i < cs.len() implies clause_true(g, #[trigger] cs[i]) by {
            assert(clause_true(f, cs[i]));
            let j = choose|j: int| 0 <= j < cs[i].len() && lit_true(f, cs[i][j]);
            let x = cs[i][j];
            assert(1 <= lit_var(x) <= n);
            assert(g(lit_var(x)) == f(lit_var(x)));
            assert(lit_true(g, x) == lit_true(f, x));
            assert(lit_true(g, cs[i][j]));
        }
        assert(cnf_true(g, cs));
        assert(s.len() == n);
    }
}

/// A removal result is empty exactly when every element was the removed
/// literal.
pub proof fn lemma_remove_lit_empty(c: Seq<int>, l: int)
    ensures
        remove_lit(c, l).len() == 0 <==> (forall|x: int| c.contains(x) ==> x == l),
{
    lemma_remove_lit_props(c, l);
    let r = remove_lit(c, l);
    if r.len() == 0 {
        assert forall|x: int| c.contains(x) implies x == l by {
            if x != l {
                assert(r.contains(x));
                let i = choose|i: int| 0 <= i < r.len() && r[i] == x;
            }
        }
    } else {
        assert(r.contains(r[0]));
        assert(c.contains(r[0]) && r[0] != l);
    }
}

} // verus!
