//! The outcomes of running a constraint.

use vstd::prelude::*;

verus! {

/// What a constraint reports after it has looked at a state.
#[derive(Debug, PartialEq, Eq)]
pub enum ConstraintResult<T> {
    /// The constraint cannot hold: the state is inconsistent.
    Failed,
    /// The constraint has contributed all it can and may be dropped.
    Irrelevant,
    /// The constraint stays as it is.
    Unchanged,
    /// The constraint is replaced by a stronger form.
    Updated(T),
}

/// The kind of a [`ConstraintResult`], without the replacement.
#[derive(Debug, PartialEq, Eq)]
pub enum Verdict {
    Failed,
    Irrelevant,
    Unchanged,
    Updated,
}

impl<T> ConstraintResult<T> {
    /// The kind of this outcome.
    pub open spec fn kind(self) -> Verdict {
        match self {
            ConstraintResult::Failed => Verdict::Failed,
            ConstraintResult::Irrelevant => Verdict::Irrelevant,
            ConstraintResult::Unchanged => Verdict::Unchanged,
            ConstraintResult::Updated(_) => Verdict::Updated,
        }
    }
}

/// `Irrelevant` for a state that is still consistent, `Failed` for one that
/// is not.
pub open spec fn retired(ok: bool) -> Verdict {
    if ok {
        Verdict::Irrelevant
    } else {
        Verdict::Failed
    }
}

} // verus!
