//! The decision trail: which literals have been decided along one branch.

use vstd::prelude::*;

use crate::cnf::{copy_literals, Literal, Variable};
use crate::semantics::lit_var;

verus! {

/// Some entry of the trail decides the variable `v`.
pub open spec fn trail_contains_var(t: Seq<int>, v: int) -> bool {
    exists|i: int| 0 <= i < t.len() && lit_var(#[trigger] t[i]) == v
}

/// The literals decided true so far on one branch, in decision order, at
/// most one per variable.
#[derive(Debug)]
pub struct Assignment(pub Vec<Literal>);

impl View for Assignment {
    type V = Seq<int>;

    open spec fn view(&self) -> Seq<int> {
        self.0@.map_values(|l: Literal| l@)
    }
}

impl Default for Assignment {
    /// The empty trail at the root of the search.
    fn default() -> (r: Self)
        ensures
            r@.len() == 0,
    {
        Assignment(Vec::new())
    }
}

impl Clone for Assignment {
    /// An independent copy, taken when branching diverges.
    fn clone(&self) -> (r: Self)
        ensures
            r@ == self@,
    {
        Assignment(copy_literals(&self.0))
    }
}

impl Assignment {
    /// Every decided literal, in insertion order, as a fresh vector.
    pub fn iter_literals(&self) -> (r: Vec<Literal>)
        ensures
            r@.map_values(|l: Literal| l@) == self@,
    {
        copy_literals(&self.0)
    }

    pub fn len(&self) -> (r: usize)
        ensures
            r == self@.len(),
    {
        self.0.len()
    }

    pub fn contains_variable(&self, variable: Variable) -> (r: bool)
        requires
            variable.wf(),
        ensures
            r == trail_contains_var(self@, variable@),
    {
        let mut i: usize = 0;
        while i < self.0.len()
            invariant
                0 <= i <= self.0.len(),
                variable.wf(),
                forall|j: int| 0 <= j < i ==> lit_var(#[trigger] self@[j]) != variable@,
            decreases self.0.len() - i,
        {
            let code = self.0[i].code;
            if code == variable.id || code == -variable.id {
                assert(lit_var(self@[i as int]) == variable@);
                return true;
            }
            assert(lit_var(self@[i as int]) != variable@);
            i = i + 1;
        }
        false
    }

    /// Appends the literal unless its variable is already decided: the first
    /// decision for a variable wins, later ones are no-ops.
    pub fn add(&mut self, literal: Literal)
        requires
            literal.wf(),
        ensures
            trail_contains_var(old(self)@, lit_var(literal@)) ==> final(self)@ == old(self)@,
            !trail_contains_var(old(self)@, lit_var(literal@)) ==> final(self)@ == old(
                self,
            )@.push(literal@),
    {
        if !self.contains_variable(literal.into_variable()) {
            let ghost pre = self@;
            self.0.push(literal);
            assert(self@ =~= pre.push(literal@));
        }
    }
}

} // verus!
