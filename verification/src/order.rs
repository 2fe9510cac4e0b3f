//! States are compared by their identifiers alone.

use vstd::prelude::*;
use crate::nfa::State;

verus! {

impl PartialEq for State {
    /// Two states are equal when their identifiers are.
    fn eq(&self, other: &Self) -> (equal: bool) {
        self.id == other.id
    }
}

impl vstd::std_specs::cmp::PartialEqSpecImpl for State {
    open spec fn obeys_eq_spec() -> bool {
        true
    }

    open spec fn eq_spec(&self, other: &Self) -> bool {
        self.id == other.id
    }
}

impl Eq for State {
}

impl PartialOrd for State {
    /// States are ordered as their identifiers are.
    fn partial_cmp(&self, other: &Self) -> (order: Option<std::cmp::Ordering>) {
        if self.id < other.id {
            Some(std::cmp::Ordering::Less)
        } else if self.id == other.id {
            Some(std::cmp::Ordering::Equal)
        } else {
            Some(std::cmp::Ordering::Greater)
        }
    }
}

impl vstd::std_specs::cmp::PartialOrdSpecImpl for State {
    open spec fn obeys_partial_cmp_spec() -> bool {
        true
    }

    open spec fn partial_cmp_spec(&self, other: &Self) -> Option<std::cmp::Ordering> {
        if self.id < other.id {
            Some(std::cmp::Ordering::Less)
        } else if self.id == other.id {
            Some(std::cmp::Ordering::Equal)
        } else {
            Some(std::cmp::Ordering::Greater)
        }
    }
}

} // verus!
