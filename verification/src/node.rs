use std::cmp::Ordering;
use vstd::prelude::*;
use vstd::std_specs::cmp::{PartialEqSpecImpl, PartialOrdSpecImpl};

verus! {

/// An entry of the frontier: a cell and the f-score it was entered with.
/// A score of `None` stands for "not reached so far" and counts as larger
/// than every number. Two nodes are equal, and ordered, by their scores
/// alone.
#[derive(Clone, Copy, Debug)]
pub struct PathfinderNode {
    pub index: usize,
    pub f_score: Option<u128>,
}

/// The order of scores: numbers by size, and every number before `None`.
pub open spec fn score_before(a: Option<u128>, b: Option<u128>) -> bool {
    a is Some && (b is None || a.unwrap() < b.unwrap())
}

/// How the first score stands to the second.
pub open spec fn score_order(a: Option<u128>, b: Option<u128>) -> Ordering {
    if score_before(a, b) {
        Ordering::Less
    } else if score_before(b, a) {
        Ordering::Greater
    } else {
        Ordering::Equal
    }
}

impl PartialEq for PathfinderNode {
    fn eq(&self, other: &Self) -> (r: bool) {
        match self.f_score {
            None => other.f_score.is_none(),
            Some(a) => match other.f_score {
                None => false,
                Some(b) => a == b,
            },
        }
    }
}

impl PartialEqSpecImpl for PathfinderNode {
    open spec fn obeys_eq_spec() -> bool {
        true
    }

    open spec fn eq_spec(&self, other: &Self) -> bool {
        self.f_score == other.f_score
    }
}

impl PartialOrd for PathfinderNode {
    fn partial_cmp(&self, other: &Self) -> (r: Option<Ordering>) {
        match self.f_score {
            None => match other.f_score {
                None => Some(Ordering::Equal),
                Some(_) => Some(Ordering::Greater),
            },
            Some(a) => match other.f_score {
                None => Some(Ordering::Less),
                Some(b) => if a < b {
                    Some(Ordering::Less)
                } else if a == b {
                    Some(Ordering::Equal)
                } else {
                    Some(Ordering::Greater)
                },
            },
        }
    }
}

impl PartialOrdSpecImpl for PathfinderNode {
    open spec fn obeys_partial_cmp_spec() -> bool {
        true
    }

    open spec fn partial_cmp_spec(&self, other: &Self) -> Option<Ordering> {
        Some(score_order(self.f_score, other.f_score))
    }
}

impl PathfinderNode {
    /// Whether this node leaves the frontier before `other` by its score.
    pub fn before(&self, other: &PathfinderNode) -> (r: bool)
        ensures
            r == score_before(self.f_score, other.f_score),
    {
        match self.f_score {
            None => false,
            Some(a) => match other.f_score {
                None => true,
                Some(b) => a < b,
            },
        }
    }
}

} // verus!
