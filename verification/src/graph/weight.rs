//! The weight of the best way to a node that is known so far.
use vstd::prelude::*;
use core::cmp::Ordering;
use vstd::std_specs::cmp::PartialOrdSpecImpl;

verus! {

/// A weight that is not known yet counts as infinite, above every number.
#[derive(PartialEq, Eq, Structural, Clone, Copy, Debug)]
pub enum TentativeWeight {
    Infinite,
    Number(u32),
}

impl TentativeWeight {
    /// The weight as a number: an infinite one lies right above the
    /// greatest number.
    pub open spec fn value(self) -> int {
        match self {
            TentativeWeight::Infinite => u32::MAX + 1,
            TentativeWeight::Number(n) => n + 0,
        }
    }

    /// How two weights compare: numbers by their size, and every number
    /// below the infinite weight.
    pub open spec fn compared(self, other: TentativeWeight) -> Ordering {
        if self.value() < other.value() {
            Ordering::Less
        } else if self.value() == other.value() {
            Ordering::Equal
        } else {
            Ordering::Greater
        }
    }

    /// Compares two weights.
    pub fn cmp(&self, other: &TentativeWeight) -> (order: Ordering)
        ensures
            order == self.compared(*other),
    {
        match other {
            TentativeWeight::Infinite => match self {
                TentativeWeight::Infinite => Ordering::Equal,
                _ => Ordering::Less,
            },
            TentativeWeight::Number(o) => match self {
                TentativeWeight::Infinite => Ordering::Greater,
                TentativeWeight::Number(s) => {
                    if *s < *o {
                        Ordering::Less
                    } else if *s == *o {
                        Ordering::Equal
                    } else {
                        Ordering::Greater
                    }
                },
            },
        }
    }
}

impl PartialOrd for TentativeWeight {
    fn partial_cmp(&self, other: &TentativeWeight) -> (order: Option<Ordering>) {
        Some(self.cmp(other))
    }
}

impl PartialOrdSpecImpl for TentativeWeight {
    open spec fn obeys_partial_cmp_spec() -> bool {
        true
    }

    open spec fn partial_cmp_spec(&self, other: &TentativeWeight) -> Option<Ordering> {
        Some(self.compared(*other))
    }
}

} // verus!
