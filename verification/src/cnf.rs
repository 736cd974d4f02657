//! General-purpose data types for CNF formulas.

use vstd::prelude::*;

use crate::semantics::{cnf_wf, lit_neg, lit_var, remove_lit};

verus! {

/// A boolean variable, identified by a positive 32-bit integer.
#[derive(Debug, Copy, Clone, PartialEq, Eq, Structural)]
pub struct Variable {
    pub id: i32,
}

impl View for Variable {
    type V = int;

    open spec fn view(&self) -> int {
        self.id as int
    }
}

impl Variable {
    /// The identifier is positive: never zero or negative.
    pub open spec fn wf(self) -> bool {
        self@ > 0
    }

    /// Returns `None` when the index is zero or too large: only identifiers
    /// up to `i32::MAX` are allowed.
    pub fn new(inner: u32) -> (r: Option<Variable>)
        ensures
            1 <= inner <= 0x7fff_ffff ==> (r matches Some(v) && v@ == inner as int && v.wf()),
            !(1 <= inner <= 0x7fff_ffff) ==> r is None,
    {
        if 1 <= inner && inner <= 0x7fff_ffff {
            Some(Variable { id: inner as i32 })
        } else {
            None
        }
    }
}

/// A literal: a variable or its negation, encoded as a signed 32-bit integer
/// whose magnitude is the variable identifier and whose sign is the polarity.
#[derive(Debug, Copy, Clone, PartialEq, Eq, Structural)]
pub struct Literal {
    pub code: i32,
}

impl View for Literal {
    type V = int;

    open spec fn view(&self) -> int {
        self.code as int
    }
}

impl Literal {
    /// The magnitude is never zero, and negation never overflows.
    pub open spec fn wf(self) -> bool {
        self@ != 0 && self@ != -0x8000_0000
    }

    pub fn new(inner: i32) -> (r: Literal)
        requires
            inner != 0,
            inner != -0x8000_0000,
        ensures
            r@ == inner as int,
            r.wf(),
    {
        Literal { code: inner }
    }

    pub fn new_from_variable(variable: Variable, is_not: bool) -> (r: Literal)
        requires
            variable.wf(),
        ensures
            r@ == if is_not {
                lit_neg(variable@)
            } else {
                variable@
            },
            r.wf(),
    {
        if is_not {
            Literal { code: -variable.id }
        } else {
            Literal { code: variable.id }
        }
    }

    /// Strips the sign, yielding the literal's variable.
    pub fn into_variable(self) -> (r: Variable)
        requires
            self.wf(),
        ensures
            r@ == lit_var(self@),
            r.wf(),
    {
        if self.code < 0 {
            Variable { id: -self.code }
        } else {
            Variable { id: self.code }
        }
    }

    pub fn is_neg(self) -> (r: bool)
        ensures
            r == (self@ < 0),
    {
        self.code < 0
    }

    /// Logical negation: flips the sign and nothing else.
    pub fn not(self) -> (r: Literal)
        requires
            self.wf(),
        ensures
            r@ == lit_neg(self@),
            r.wf(),
    {
        Literal { code: -self.code }
    }
}

/// Negation is an involution: negating a literal twice yields the original.
pub proof fn lemma_negation_involution(l: int)
    ensures
        lit_neg(lit_neg(l)) == l,
{
}

/// Copies a vector of literals element by element.
pub(crate) fn copy_literals(v: &Vec<Literal>) -> (r: Vec<Literal>)
    ensures
        r@ == v@,
{
    let mut r: Vec<Literal> = Vec::new();
    let mut i: usize = 0;
    while i < v.len()
        invariant
            0 <= i <= v.len(),
            r@ == v@.subrange(0, i as int),
        decreases v.len() - i,
    {
        r.push(v[i]);
        assert(v@.subrange(0, i + 1 as int) == v@.subrange(0, i as int).push(v@[i as int]));
        i = i + 1;
    }
    assert(v@.subrange(0, v.len() as int) == v@);
    r
}

/// A disjunction of literals.
#[derive(Debug)]
pub struct OwnedClause(pub Vec<Literal>);

impl View for OwnedClause {
    type V = Seq<int>;

    open spec fn view(&self) -> Seq<int> {
        self.0@.map_values(|l: Literal| l@)
    }
}

impl Clone for OwnedClause {
    fn clone(&self) -> (r: Self)
        ensures
            r@ == self@,
    {
        OwnedClause(copy_literals(&self.0))
    }
}

impl OwnedClause {
    /// Every literal of the clause, as a fresh vector of copies.
    pub fn iter_literals(&self) -> (r: Vec<Literal>)
        ensures
            r@.map_values(|l: Literal| l@) == self@,
    {
        copy_literals(&self.0)
    }

    pub fn contains(&self, literal: Literal) -> (r: bool)
        ensures
            r == self@.contains(literal@),
    {
        let mut i: usize = 0;
        while i < self.0.len()
            invariant
                0 <= i <= self.0.len(),
                forall|j: int| 0 <= j < i ==> self@[j] != literal@,
            decreases self.0.len() - i,
        {
            if self.0[i] == literal {
                assert(self@[i as int] == literal@);
                return true;
            }
            i = i + 1;
        }
        false
    }

    /// Drops every occurrence of exactly `literal`, leaving other literals of
    /// the same variable untouched.
    pub fn remove(&mut self, literal_to_remove: Literal)
        ensures
            final(self)@ == remove_lit(old(self)@, literal_to_remove@),
    {
        let ghost orig = self@;
        let mut kept: Vec<Literal> = Vec::new();
        let mut i: usize = 0;
        while i < self.0.len()
            invariant
                0 <= i <= self.0.len(),
                self@ == orig,
                kept@.map_values(|l: Literal| l@) == remove_lit(orig.subrange(0, i as int),
                    literal_to_remove@),
            decreases self.0.len() - i,
        {
            let ghost pre = orig.subrange(0, i as int);
            let ghost post = orig.subrange(0, i + 1 as int);
            assert(post.drop_last() == pre);
            assert(post.last() == orig[i as int]);
            if self.0[i] != literal_to_remove {
                kept.push(self.0[i]);
                assert(kept@.map_values(|l: Literal| l@) == remove_lit(pre,
                    literal_to_remove@).push(orig[i as int]));
            }
            i = i + 1;
        }
        assert(orig.subrange(0, self.0.len() as int) == orig);
        self.0 = kept;
    }

    pub fn is_empty(&self) -> (r: bool)
        ensures
            r == (self@.len() == 0),
    {
        self.0.len() == 0
    }

    /// The single literal of the clause, when exactly one remains.
    pub fn as_unit_clause(&self) -> (r: Option<Literal>)
        ensures
            self@.len() == 1 ==> (r matches Some(l) && l@ == self@[0]),
            self@.len() != 1 ==> r is None,
    {
        if self.0.len() == 1 {
            Some(self.0[0])
        } else {
            None
        }
    }
}

/// A conjunction of clauses over variables `1..=num_variables`.
#[derive(Debug)]
pub struct OwnedCNF {
    pub num_variables: u32,
    pub clauses: Vec<OwnedClause>,
}

impl View for OwnedCNF {
    type V = Seq<Seq<int>>;

    open spec fn view(&self) -> Seq<Seq<int>> {
        self.clauses@.map_values(|c: OwnedClause| c@)
    }
}

impl OwnedCNF {
    pub open spec fn num_vars(&self) -> int {
        self.num_variables as int
    }

    /// Every literal's variable identifier lies in `[1, num_variables]`.
    pub open spec fn wf(&self) -> bool {
        cnf_wf(self.num_vars(), self@)
    }

    pub fn is_empty(&self) -> (r: bool)
        ensures
            r == (self@.len() == 0),
    {
        self.clauses.len() == 0
    }

    /// Checks the formula's invariant at run time: every literal's variable
    /// identifier lies in `[1, num_variables]`.
    pub fn is_well_formed(&self) -> (r: bool)
        ensures
            r == self.wf(),
    {
        if self.num_variables > 0x7fff_ffff {
            return false;
        }
        let mut i: usize = 0;
        while i < self.clauses.len()
            invariant
                0 <= i <= self.clauses.len(),
                self.num_vars() <= 0x7fff_ffff,
                forall|i2: int, j: int|
                    0 <= i2 < i && 0 <= j < self@[i2].len() ==> 1 <= lit_var(
                        #[trigger] self@[i2][j],
                    ) <= self.num_vars(),
            decreases self.clauses.len() - i,
        {
            let clause = &self.clauses[i];
            let mut j: usize = 0;
            while j < clause.0.len()
                invariant
                    0 <= j <= clause.0.len(),
                    self.num_vars() <= 0x7fff_ffff,
                    clause@ == self@[i as int],
                    i < self@.len(),
                    forall|j2: int|
                        0 <= j2 < j ==> 1 <= lit_var(#[trigger] clause@[j2]) <= self.num_vars(),
                decreases clause.0.len() - j,
            {
                let code = clause.0[j].code;
                if code == 0 || code == -0x8000_0000 {
                    assert(!(1 <= lit_var(clause@[j as int]) <= self.num_vars()));
                    return false;
                }
                let magnitude: i32 = if code < 0 {
                    -code
                } else {
                    code
                };
                if magnitude as u32 > self.num_variables {
                    assert(!(1 <= lit_var(clause@[j as int]) <= self.num_vars()));
                    return false;
                }
                assert(1 <= lit_var(clause@[j as int]) <= self.num_vars());
                j = j + 1;
            }
            i = i + 1;
        }
        true
    }

    pub fn contains_empty_clause(&self) -> (r: bool)
        ensures
            r == exists|i: int| 0 <= i < self@.len() && self@[i].len() == 0,
    {
        let mut i: usize = 0;
        while i < self.clauses.len()
            invariant
                0 <= i <= self.clauses.len(),
                forall|j: int| 0 <= j < i ==> self@[j].len() != 0,
            decreases self.clauses.len() - i,
        {
            if self.clauses[i].is_empty() {
                assert(self@[i as int].len() == 0);
                return true;
            }
            i = i + 1;
        }
        false
    }
}

} // verus!
