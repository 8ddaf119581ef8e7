//! The order of weighted plays: by score, then by priority. The play itself
//! does not count.

use crate::weight::WeightedPlay;
use core::cmp::Ordering;
use vstd::prelude::*;
use vstd::std_specs::cmp::{PartialEqSpecImpl, PartialOrdSpecImpl};

verus! {

impl WeightedPlay {
    /// How this weight stands to another: the scores decide, and the
    /// priorities where the scores are equal.
    pub open spec fn order(self, other: WeightedPlay) -> Ordering {
        if self.score < other.score {
            Ordering::Less
        } else if self.score > other.score {
            Ordering::Greater
        } else if self.priority < other.priority {
            Ordering::Less
        } else if self.priority > other.priority {
            Ordering::Greater
        } else {
            Ordering::Equal
        }
    }

    /// Compares two weights: by score, then by priority.
    pub fn cmp(&self, other: &Self) -> (r: Ordering)
        ensures
            r == self.order(*other),
    {
        if self.score < other.score {
            Ordering::Less
        } else if self.score > other.score {
            Ordering::Greater
        } else if self.priority < other.priority {
            Ordering::Less
        } else if self.priority > other.priority {
            Ordering::Greater
        } else {
            Ordering::Equal
        }
    }
}

impl PartialEq for WeightedPlay {
    /// Two weighted plays are equal if they weigh the same.
    fn eq(&self, other: &Self) -> (r: bool) {
        self.score == other.score && self.priority == other.priority
    }
}

impl PartialEqSpecImpl for WeightedPlay {
    /// Equality is what `eq_spec` says.
    open spec fn obeys_eq_spec() -> bool {
        true
    }

    /// The scores are equal and the priorities are equal.
    open spec fn eq_spec(&self, other: &Self) -> bool {
        self.score == other.score && self.priority == other.priority
    }
}

impl Eq for WeightedPlay {

}

impl PartialOrd for WeightedPlay {
    /// Every two weights can be compared.
    fn partial_cmp(&self, other: &Self) -> (r: Option<Ordering>) {
        Some(self.cmp(other))
    }
}

impl PartialOrdSpecImpl for WeightedPlay {
    /// The comparison is what `partial_cmp_spec` says.
    open spec fn obeys_partial_cmp_spec() -> bool {
        true
    }

    /// The order of the two weights.
    open spec fn partial_cmp_spec(&self, other: &Self) -> Option<Ordering> {
        Some(self.order(*other))
    }
}

} // verus!
