//! The allow/deny policy.
//!
//! A policy is a pure predicate on fully-resolved absolute paths.  It holds a
//! configured set of protected paths and denies exactly those; it has no
//! other state, so re-evaluating it at every hop of a resolution is free of
//! ordering concerns.

use crate::path::path_eq;
use vstd::prelude::*;

verus! {

/// One policy decision.
#[derive(Debug, PartialEq, Eq, Structural, Clone, Copy)]
pub enum Decision {
    Allow,
    Deny,
}

/// A stateless policy denying a configured set of absolute paths.
pub struct Policy {
    protected: Vec<Vec<String>>,
}

impl Policy {
    /// The configured protected paths.
    pub closed spec fn protected_spec(self) -> Seq<Seq<Seq<char>>> {
        self.protected.deep_view()
    }

    /// Whether the policy allows the resolved absolute path `p`.
    pub open spec fn allows(self, p: Seq<Seq<char>>) -> bool {
        !self.protected_spec().contains(p)
    }

    /// The decision on `p`, as a function of the policy value and the path
    /// alone.
    pub open spec fn decision(self, p: Seq<Seq<char>>) -> Decision {
        if self.allows(p) {
            Decision::Allow
        } else {
            Decision::Deny
        }
    }

    /// A policy denying exactly the given paths.
    pub fn new(protected: Vec<Vec<String>>) -> (r: Policy)
        ensures
            r.protected_spec() == protected.deep_view(),
    {
        Policy { protected }
    }

    /// Evaluates the policy on a resolved absolute path.
    pub fn decide(&self, path: &Vec<String>) -> (d: Decision)
        ensures
            d == self.decision(path.deep_view()),
    {
        let mut i: usize = 0;
        while i < self.protected.len()
            invariant
                i <= self.protected.len(),
                self.protected.len() == self.protected_spec().len(),
                forall|j: int| 0 <= j < i ==> self.protected_spec()[j] != path.deep_view(),
            decreases self.protected.len() - i,
        {
            if path_eq(&self.protected[i], path) {
                proof {
                    assert(self.protected_spec()[i as int] == path.deep_view());
                    assert(self.protected_spec().contains(path.deep_view()));
                }
                return Decision::Deny;
            }
            i += 1;
        }
        proof {
            assert(!self.protected_spec().contains(path.deep_view()));
        }
        Decision::Allow
    }
}

/// Re-evaluating the policy on the same resolved absolute path always yields
/// the same decision: what each call of `decide` returns is pinned to
/// `decision`, a function of the policy value and the path alone, so two
/// evaluations agree.
pub proof fn lemma_policy_idempotent(
    pol: Policy,
    p: Seq<Seq<char>>,
    d1: Decision,
    d2: Decision,
)
    requires
        d1 == pol.decision(p),
        d2 == pol.decision(p),
    ensures
        d1 == d2,
{
}

} // verus!
