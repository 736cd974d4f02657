//! The partial-assignment view of a formula used while solving.
//!
//! Each clause is classified as already satisfied (`Tautology`), already
//! falsified (`Contradiction`), or undetermined with the literals that
//! remain.  Assigning a literal is the only mutation surface.

use vstd::prelude::*;

use crate::cnf::{copy_literals, Literal, OwnedCNF, OwnedClause, Variable};
use crate::semantics::{
    all_tautologies, assign_view, has_contradiction, initial_view, is_unit_literal,
    lemma_assign_view_decomposes, lit_neg, occurs, remove_lit, remove_state, remove_view,
    state_contains, taut_state, taut_view, ClauseState,
};

verus! {

/// One clause of the view.
#[derive(Debug)]
pub enum PartiallyAssignedClause {
    Tautology,
    Contradiction,
    Undetermined(OwnedClause),
}

impl View for PartiallyAssignedClause {
    type V = ClauseState;

    open spec fn view(&self) -> ClauseState {
        match self {
            PartiallyAssignedClause::Tautology => ClauseState::Tautology,
            PartiallyAssignedClause::Contradiction => ClauseState::Contradiction,
            PartiallyAssignedClause::Undetermined(c) => ClauseState::Undetermined(c@),
        }
    }
}

impl PartiallyAssignedClause {
    /// An independent copy for a forked view.
    pub fn as_borrowing(&self) -> (r: PartiallyAssignedClause)
        ensures
            r@ == self@,
    {
        match self {
            PartiallyAssignedClause::Tautology => PartiallyAssignedClause::Tautology,
            PartiallyAssignedClause::Contradiction => PartiallyAssignedClause::Contradiction,
            PartiallyAssignedClause::Undetermined(c) => PartiallyAssignedClause::Undetermined(
                c.clone(),
            ),
        }
    }

    /// The clause's single remaining literal, when it is undetermined and
    /// exactly one literal remains.
    pub fn as_unit_clause(&self) -> (r: Option<Literal>)
        ensures
            self@ matches ClauseState::Undetermined(c) ==> {
                &&& c.len() == 1 ==> (r matches Some(l) && l@ == c[0])
                &&& c.len() != 1 ==> r is None
            },
            !(self@ matches ClauseState::Undetermined(c)) ==> r is None,
    {
        match self {
            PartiallyAssignedClause::Undetermined(c) => c.as_unit_clause(),
            _ => None,
        }
    }

    pub fn contains(&self, literal: Literal) -> (r: bool)
        ensures
            r == state_contains(self@, literal@),
    {
        match self {
            PartiallyAssignedClause::Undetermined(c) => c.contains(literal),
            _ => false,
        }
    }

    /// Removes the literal from an undetermined clause; an emptied clause
    /// becomes a contradiction.  Satisfied and falsified clauses are left
    /// untouched.
    pub fn remove(&mut self, literal: Literal)
        ensures
            final(self)@ == remove_state(old(self)@, literal@),
    {
        let replacement = match &*self {
            PartiallyAssignedClause::Undetermined(c) => {
                let mut cc = c.clone();
                cc.remove(literal);
                if cc.is_empty() {
                    PartiallyAssignedClause::Contradiction
                } else {
                    PartiallyAssignedClause::Undetermined(cc)
                }
            },
            PartiallyAssignedClause::Tautology => PartiallyAssignedClause::Tautology,
            PartiallyAssignedClause::Contradiction => PartiallyAssignedClause::Contradiction,
        };
        *self = replacement;
    }

    /// The remaining literals of an undetermined clause; empty otherwise.
    pub fn get_literals(&self) -> (r: Vec<Literal>)
        ensures
            self@ matches ClauseState::Undetermined(c) ==> r@.map_values(|l: Literal| l@) == c,
            !(self@ matches ClauseState::Undetermined(c)) ==> r@.len() == 0,
    {
        match self {
            PartiallyAssignedClause::Undetermined(c) => copy_literals(&c.0),
            _ => Vec::new(),
        }
    }
}

/// A branch-local view of a formula over variables `1..=num_variables`.
#[derive(Debug)]
pub struct PartiallyAssignedCNF {
    pub num_variables: u32,
    pub clauses: Vec<PartiallyAssignedClause>,
}

impl View for PartiallyAssignedCNF {
    type V = Seq<ClauseState>;

    open spec fn view(&self) -> Seq<ClauseState> {
        self.clauses@.map_values(|pc: PartiallyAssignedClause| pc@)
    }
}

impl PartiallyAssignedCNF {
    pub open spec fn num_vars(&self) -> int {
        self.num_variables as int
    }

    /// Wraps a formula.  A clause with literals left starts undetermined; a
    /// clause with zero literals denotes a falsified constraint and starts
    /// contradicting.
    pub fn new(cnf: OwnedCNF) -> (r: Self)
        ensures
            r@ == initial_view(cnf@),
            r.num_vars() == cnf.num_vars(),
    {
        let mut clauses: Vec<PartiallyAssignedClause> = Vec::new();
        let mut i: usize = 0;
        while i < cnf.clauses.len()
            invariant
                0 <= i <= cnf.clauses.len(),
                clauses@.len() == i,
                forall|j: int| 0 <= j < i ==> clauses@[j]@ == initial_view(cnf@)[j],
            decreases cnf.clauses.len() - i,
        {
            if cnf.clauses[i].is_empty() {
                clauses.push(PartiallyAssignedClause::Contradiction);
            } else {
                let copy = cnf.clauses[i].clone();
                clauses.push(PartiallyAssignedClause::Undetermined(copy));
            }
            assert(cnf@[i as int] == cnf.clauses@[i as int]@);
            i = i + 1;
        }
        let r = PartiallyAssignedCNF { num_variables: cnf.num_variables, clauses };
        assert(r@ =~~= initial_view(cnf@));
        r
    }

    /// Produces an independent view: no mutation performed on the one is
    /// visible from the other after this point.  This is the operation that
    /// makes branching possible.
    pub fn as_borrowing(&self) -> (r: PartiallyAssignedCNF)
        ensures
            r@ == self@,
            r.num_vars() == self.num_vars(),
    {
        let mut clauses: Vec<PartiallyAssignedClause> = Vec::new();
        let mut i: usize = 0;
        while i < self.clauses.len()
            invariant
                0 <= i <= self.clauses.len(),
                clauses@.len() == i,
                forall|j: int| 0 <= j < i ==> clauses@[j]@ == self@[j],
            decreases self.clauses.len() - i,
        {
            let copy = self.clauses[i].as_borrowing();
            clauses.push(copy);
            i = i + 1;
        }
        let r = PartiallyAssignedCNF { num_variables: self.num_variables, clauses };
        assert(r@ =~~= self@);
        r
    }

    /// All variable identifiers `1..=num_variables`, in increasing order,
    /// independent of assignment state.
    pub fn iter_variables(&self) -> (r: Vec<Variable>)
        requires
            self.num_vars() <= 0x7fff_ffff,
        ensures
            r@.len() == self.num_vars(),
            forall|i: int| 0 <= i < r@.len() ==> (#[trigger] r@[i])@ == i + 1 && r@[i].wf(),
    {
        let mut r: Vec<Variable> = Vec::new();
        let mut idx: u32 = 0;
        while idx < self.num_variables
            invariant
                0 <= idx <= self.num_variables,
                self.num_vars() <= 0x7fff_ffff,
                r@.len() == idx,
                forall|i: int| 0 <= i < r@.len() ==> (#[trigger] r@[i])@ == i + 1 && r@[i].wf(),
            decreases self.num_variables - idx,
        {
            r.push(Variable { id: (idx + 1) as i32 });
            idx = idx + 1;
        }
        r
    }

    /// Every clause is already satisfied.
    pub fn is_satisfied(&self) -> (r: bool)
        ensures
            r == all_tautologies(self@),
    {
        let mut i: usize = 0;
        while i < self.clauses.len()
            invariant
                0 <= i <= self.clauses.len(),
                forall|j: int| 0 <= j < i ==> (#[trigger] self@[j]) is Tautology,
            decreases self.clauses.len() - i,
        {
            match &self.clauses[i] {
                PartiallyAssignedClause::Tautology => {},
                _ => {
                    assert(!(self@[i as int] is Tautology));
                    return false;
                },
            }
            assert(self@[i as int] is Tautology);
            i = i + 1;
        }
        true
    }

    /// Some clause is already falsified.
    pub fn is_contradicting(&self) -> (r: bool)
        ensures
            r == has_contradiction(self@),
    {
        let mut i: usize = 0;
        while i < self.clauses.len()
            invariant
                0 <= i <= self.clauses.len(),
                forall|j: int| 0 <= j < i ==> !((#[trigger] self@[j]) is Contradiction),
            decreases self.clauses.len() - i,
        {
            match &self.clauses[i] {
                PartiallyAssignedClause::Contradiction => {
                    assert(self@[i as int] is Contradiction);
                    return true;
                },
                _ => {},
            }
            assert(!(self@[i as int] is Contradiction));
            i = i + 1;
        }
        false
    }

    /// Marks every clause containing `literal` as satisfied, then removes the
    /// negated literal from every remaining undetermined clause.  This is the
    /// only mutation surface of the view.
    pub fn assign(&mut self, literal: Literal)
        requires
            literal.wf(),
        ensures
            final(self)@ == assign_view(old(self)@, literal@),
            final(self).num_vars() == old(self).num_vars(),
    {
        let ghost v0 = self@;
        self.remove_clauses_containing(literal);
        self.remove_from_clauses(literal.not());
        proof {
            lemma_assign_view_decomposes(v0, literal@);
        }
    }

    /// Marks every clause still containing `literal` as satisfied.
    pub fn remove_clauses_containing(&mut self, literal: Literal)
        ensures
            final(self)@ == taut_view(old(self)@, literal@),
            final(self).num_vars() == old(self).num_vars(),
    {
        let ghost v0 = self@;
        let mut i: usize = 0;
        while i < self.clauses.len()
            invariant
                0 <= i <= self.clauses.len(),
                self@.len() == v0.len(),
                self.num_vars() == old(self).num_vars(),
                forall|j: int| 0 <= j < i ==> self@[j] == taut_state(v0[j], literal@),
                forall|j: int| i <= j < v0.len() ==> self@[j] == v0[j],
            decreases self.clauses.len() - i,
        {
            let ghost pre = self@;
            if self.clauses[i].contains(literal) {
                self.clauses.set(i, PartiallyAssignedClause::Tautology);
            }
            proof {
                assert forall|j: int| 0 <= j < i + 1 implies self@[j] == taut_state(
                    v0[j],
                    literal@,
                ) by {
                    if j < i {
                        assert(pre[j] == taut_state(v0[j], literal@));
                        assert(self@[j] == pre[j]);
                    } else {
                        assert(pre[j] == v0[j]);
                    }
                }
                assert forall|j: int| i + 1 <= j < v0.len() implies self@[j] == v0[j] by {
                    assert(pre[j] == v0[j]);
                    assert(self@[j] == pre[j]);
                }
            }
            i = i + 1;
        }
        assert(self@ =~~= taut_view(v0, literal@));
    }

    /// Removes `literal` from every undetermined clause; an emptied clause
    /// becomes a contradiction.
    pub fn remove_from_clauses(&mut self, literal: Literal)
        ensures
            final(self)@ == remove_view(old(self)@, literal@),
            final(self).num_vars() == old(self).num_vars(),
    {
        let ghost v0 = self@;
        let mut i: usize = 0;
        while i < self.clauses.len()
            invariant
                0 <= i <= self.clauses.len(),
                self@.len() == v0.len(),
                self.num_vars() == old(self).num_vars(),
                forall|j: int| 0 <= j < i ==> self@[j] == remove_state(v0[j], literal@),
                forall|j: int| i <= j < v0.len() ==> self@[j] == v0[j],
            decreases self.clauses.len() - i,
        {
            let ghost pre = self@;
            let mut clause = self.clauses[i].as_borrowing();
            clause.remove(literal);
            self.clauses.set(i, clause);
            proof {
                assert forall|j: int| 0 <= j < i + 1 implies self@[j] == remove_state(
                    v0[j],
                    literal@,
                ) by {
                    if j < i {
                        assert(pre[j] == remove_state(v0[j], literal@));
                        assert(self@[j] == pre[j]);
                    } else {
                        assert(pre[j] == v0[j]);
                    }
                }
                assert forall|j: int| i + 1 <= j < v0.len() implies self@[j] == v0[j] by {
                    assert(pre[j] == v0[j]);
                    assert(self@[j] == pre[j]);
                }
            }
            i = i + 1;
        }
        assert(self@ =~~= remove_view(v0, literal@));
    }

    /// Every undetermined clause currently holding exactly one literal yields
    /// that literal; a fresh vector reflecting the current state.
    pub fn get_unit_clauses(&self) -> (r: Vec<Literal>)
        ensures
            forall|k: int| 0 <= k < r@.len() ==> is_unit_literal(self@, (#[trigger] r@[k])@),
            forall|i: int|
                0 <= i < self@.len() ==> ((#[trigger] self@[i])
                    matches ClauseState::Undetermined(c) ==> (c.len() == 1 ==> exists|k: int|
                    0 <= k < r@.len() && (#[trigger] r@[k])@ == c[0])),
    {
        let mut r: Vec<Literal> = Vec::new();
        let mut i: usize = 0;
        while i < self.clauses.len()
            invariant
                0 <= i <= self.clauses.len(),
                forall|k: int| 0 <= k < r@.len() ==> is_unit_literal(self@, (#[trigger] r@[k])@),
                forall|j: int|
                    0 <= j < i ==> ((#[trigger] self@[j]) matches ClauseState::Undetermined(c) ==> (
                    c.len() == 1 ==> exists|k: int|
                        0 <= k < r@.len() && (#[trigger] r@[k])@ == c[0])),
            decreases self.clauses.len() - i,
        {
            let ghost rpre = r@;
            match self.clauses[i].as_unit_clause() {
                Some(unit_literal) => {
                    proof {
                        assert(self@[i as int] matches ClauseState::Undetermined(c) && c.len() == 1
                            && c[0] == unit_literal@);
                        assert(is_unit_literal(self@, unit_literal@));
                    }
                    r.push(unit_literal);
                    assert(forall|k: int|
                        0 <= k < rpre.len() ==> r@[k] == rpre[k] && (#[trigger] r@[k])@
                            == rpre[k]@);
                    assert(r@[rpre.len() as int]@ == unit_literal@);
                },
                None => {},
            }
            assert forall|j: int| 0 <= j < i + 1 implies ((#[trigger] self@[j])
                matches ClauseState::Undetermined(c) ==> (c.len() == 1 ==> exists|k: int|
                0 <= k < r@.len() && (#[trigger] r@[k])@ == c[0])) by {
                if self@[j] is Undetermined && self@[j]->Undetermined_0.len() == 1 {
                    let c = self@[j]->Undetermined_0;
                    if j < i {
                        let k = choose|k: int| 0 <= k < rpre.len() && (#[trigger] rpre[k])@ == c[0];
                        assert(r@[k]@ == c[0]);
                    } else {
                        assert(r@[r@.len() - 1]@ == c[0]);
                    }
                }
            }
            i = i + 1;
        }
        r
    }

    /// Scans all undetermined clauses and returns, for each variable
    /// occurring with exactly one polarity, the literal of that polarity.  A
    /// variable with no remaining occurrences yields nothing.
    pub fn get_pure_literals(&self) -> (r: Vec<Literal>)
        requires
            self.num_vars() <= 0x7fff_ffff,
        ensures
            forall|k: int|
                0 <= k < r@.len() ==> occurs(self@, (#[trigger] r@[k])@) && !occurs(
                    self@,
                    lit_neg(r@[k]@),
                ),
            forall|x: int|
                1 <= crate::semantics::lit_var(x) <= self.num_vars() && #[trigger] occurs(self@, x)
                    && !occurs(self@, -x) ==> exists|k: int|
                    0 <= k < r@.len() && (#[trigger] r@[k])@ == x,
    {
        let mut r: Vec<Literal> = Vec::new();
        let mut v: u32 = 0;
        while v < self.num_variables
            invariant
                0 <= v <= self.num_variables,
                self.num_vars() <= 0x7fff_ffff,
                forall|k: int|
                    0 <= k < r@.len() ==> occurs(self@, (#[trigger] r@[k])@) && !occurs(
                        self@,
                        lit_neg(r@[k]@),
                    ),
                forall|x: int|
                    1 <= crate::semantics::lit_var(x) <= v && #[trigger] occurs(self@, x)
                        && !occurs(self@, -x) ==> exists|k: int|
                        0 <= k < r@.len() && (#[trigger] r@[k])@ == x,
            decreases self.num_variables - v,
        {
            let ghost rpre = r@;
            let id: i32 = (v + 1) as i32;
            let pos = Literal { code: id };
            let neg = Literal { code: -id };
            let has_pos = self.occurs_exec(pos);
            let has_neg = self.occurs_exec(neg);
            if has_pos && !has_neg {
                r.push(pos);
            } else if has_neg && !has_pos {
                r.push(neg);
            }
            assert(forall|k: int|
                0 <= k < rpre.len() ==> r@[k] == rpre[k] && (#[trigger] r@[k])@ == rpre[k]@);
            assert forall|x: int|
                1 <= crate::semantics::lit_var(x) <= v + 1 && #[trigger] occurs(self@, x)
                    && !occurs(self@, -x) implies exists|k: int|
                0 <= k < r@.len() && (#[trigger] r@[k])@ == x by {
                if crate::semantics::lit_var(x) <= v {
                    let k = choose|k: int| 0 <= k < rpre.len() && (#[trigger] rpre[k])@ == x;
                    assert(r@[k]@ == x);
                } else {
                    assert(x == id as int || x == -(id as int));
                    assert(r@[r@.len() - 1]@ == x);
                }
            }
            v = v + 1;
        }
        r
    }

    /// Whether the literal still occurs in some undetermined clause.
    fn occurs_exec(&self, literal: Literal) -> (r: bool)
        ensures
            r == occurs(self@, literal@),
    {
        let mut i: usize = 0;
        while i < self.clauses.len()
            invariant
                0 <= i <= self.clauses.len(),
                forall|j: int| 0 <= j < i ==> !state_contains(#[trigger] self@[j], literal@),
            decreases self.clauses.len() - i,
        {
            if self.clauses[i].contains(literal) {
                assert(state_contains(self@[i as int], literal@));
                return true;
            }
            assert(!state_contains(self@[i as int], literal@));
            i = i + 1;
        }
        assert forall|j: int| 0 <= j < self@.len() implies !state_contains(
            #[trigger] self@[j],
            literal@,
        ) by {}
        false
    }
}

} // verus!
