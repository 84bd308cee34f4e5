//! The record that waits in the priority queue, and the order by which the
//! queue hands records out.

use std::cmp::Ordering;
use vstd::prelude::*;
use vstd::std_specs::cmp::PartialEqSpecImpl;
use vstd::std_specs::cmp::PartialOrdSpecImpl;

verus! {

/// A candidate for expansion: the node stored at `index`, reached with
/// accumulated `cost`, and estimated to lead to a goal for `estimated_cost`
/// in total.
///
/// Several candidates may name the same `index`; the order and the equality
/// below look at the two costs only.
#[derive(Clone, Copy, Debug)]
pub struct SmallestCostHolder {
    pub estimated_cost: u64,
    pub cost: u64,
    pub index: usize,
}

impl SmallestCostHolder {
    /// The two candidates carry the same pair of costs.
    pub open spec fn ties_with(self, other: Self) -> bool {
        self.estimated_cost == other.estimated_cost && self.cost == other.cost
    }

    /// `self` is served strictly before `other`: its estimate is smaller, or
    /// the estimates agree and `self` has accumulated the larger cost.
    pub open spec fn outranks(self, other: Self) -> bool {
        self.estimated_cost < other.estimated_cost || (self.estimated_cost
            == other.estimated_cost && self.cost > other.cost)
    }

    /// The order of the queue, in which the greatest candidate is served
    /// first.
    pub open spec fn order(self, other: Self) -> Ordering {
        if self.outranks(other) {
            Ordering::Greater
        } else if self.ties_with(other) {
            Ordering::Equal
        } else {
            Ordering::Less
        }
    }

    /// Compares by estimate, smaller estimates being greater, and on equal
    /// estimates by accumulated cost, larger costs being greater.
    pub fn cmp(&self, other: &Self) -> (o: Ordering)
        ensures
            o == self.order(*other),
    {
        if other.estimated_cost < self.estimated_cost {
            Ordering::Less
        } else if other.estimated_cost > self.estimated_cost {
            Ordering::Greater
        } else if self.cost < other.cost {
            Ordering::Less
        } else if self.cost > other.cost {
            Ordering::Greater
        } else {
            Ordering::Equal
        }
    }

    /// Whether `self` is served strictly before `other`.
    pub fn precedes(&self, other: &Self) -> (b: bool)
        ensures
            b == self.outranks(*other),
    {
        match self.cmp(other) {
            Ordering::Greater => true,
            _ => false,
        }
    }
}

impl PartialEq for SmallestCostHolder {
    fn eq(&self, other: &Self) -> (b: bool) {
        self.estimated_cost == other.estimated_cost && self.cost == other.cost
    }
}

impl PartialEqSpecImpl for SmallestCostHolder {
    open spec fn obeys_eq_spec() -> bool {
        true
    }

    open spec fn eq_spec(&self, other: &Self) -> bool {
        self.ties_with(*other)
    }
}

impl Eq for SmallestCostHolder {

}

impl PartialOrd for SmallestCostHolder {
    fn partial_cmp(&self, other: &Self) -> (o: Option<Ordering>) {
        Some(self.cmp(other))
    }
}

impl PartialOrdSpecImpl for SmallestCostHolder {
    open spec fn obeys_partial_cmp_spec() -> bool {
        true
    }

    open spec fn partial_cmp_spec(&self, other: &Self) -> Option<Ordering> {
        Some(self.order(*other))
    }
}

/// Of two candidates exactly one of three holds: the first is served
/// before the second, the second before the first, or they tie.
pub proof fn lemma_order_total(a: SmallestCostHolder, b: SmallestCostHolder)
    ensures
        a.outranks(b) || b.outranks(a) || a.ties_with(b),
        !(a.outranks(b) && b.outranks(a)),
        !(a.outranks(b) && a.ties_with(b)),
        !a.outranks(a),
        a.order(b) == Ordering::Greater <==> b.order(a) == Ordering::Less,
        a.order(b) == Ordering::Equal <==> b.order(a) == Ordering::Equal,
{
}

/// Being served before is transitive, also through ties.
pub proof fn lemma_outranks_transitive(
    a: SmallestCostHolder,
    b: SmallestCostHolder,
    c: SmallestCostHolder,
)
    requires
        !b.outranks(a),
        !c.outranks(b),
    ensures
        !c.outranks(a),
        a.outranks(b) || b.outranks(c) ==> a.outranks(c),
{
}

/// On equal estimates the candidate with the larger accumulated cost is
/// served first.
pub proof fn lemma_tie_prefers_larger_cost(a: SmallestCostHolder, b: SmallestCostHolder)
    requires
        a.estimated_cost == b.estimated_cost,
        a.cost > b.cost,
    ensures
        a.outranks(b),
        a.order(b) == Ordering::Greater,
{
}

} // verus!
