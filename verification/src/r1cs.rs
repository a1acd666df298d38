//! The vocabulary of rank-one constraint systems: variables, linear
//! combinations, lookup tables and synthesis errors.
use vstd::prelude::*;

use crate::field::Fr;

verus! {

/// Where a variable lives: the position among the public (input) or the
/// private (auxiliary) variables.
#[derive(Clone, Copy, Debug, PartialEq, Eq, Hash, Structural)]
pub enum Index {
    Public(usize),
    Private(usize),
}

/// A variable of a constraint system.
#[derive(Clone, Copy, Debug, PartialEq, Eq, Hash, Structural)]
pub struct Variable(Index);

impl Variable {
    /// The index the variable stands for.
    pub closed spec fn spec_index(self) -> Index {
        self.0
    }

    /// The variable at `index`.
    pub closed spec fn spec_new(index: Index) -> Variable {
        Variable(index)
    }

    /// The variable at `index` is the variable whose index is `index`.
    pub proof fn lemma_spec_new(index: Index)
        ensures
            Variable::spec_new(index).spec_index() == index,
            forall|v: Variable| v.spec_index() == index ==> v == Variable::spec_new(index),
    {
    }

    /// The variable at `index`, whether or not a system has allocated it.
    pub fn new_unchecked(index: Index) -> (r: Variable)
        ensures
            r == Variable::spec_new(index),
            r.spec_index() == index,
    {
        Variable(index)
    }

    /// The index of the variable.
    pub fn get_unchecked(&self) -> (r: Index)
        ensures
            r == self.spec_index(),
    {
        self.0
    }
}

/// A sum of terms `coefficient * variable`.
#[derive(Clone, Debug)]
pub struct LinearCombination(pub Vec<(Variable, Fr)>);

impl LinearCombination {
    /// The empty sum.
    pub fn zero() -> (r: LinearCombination)
        ensures
            r.0@ == Seq::<(Variable, Fr)>::empty(),
    {
        LinearCombination(Vec::new())
    }
}

/// A table of rows `(a, b, c)` that a lookup constraint checks against.
#[derive(Clone, Debug)]
pub struct LookupTable {
    pub table: Vec<(Fr, Fr, Fr)>,
}

/// Why the synthesis of a circuit failed.
#[derive(Clone, Copy, Debug, PartialEq, Eq, Structural)]
pub enum SynthesisError {
    /// A value that a variable needs was not available.
    AssignmentMissing,
    /// A lookup constraint was enforced before any lookup table was added.
    LookupTableMissing,
    /// The evaluated row of a lookup constraint is not in the lookup table.
    LookupValueMissing,
}

} // verus!
