//! What holds of the store and the queue while a search runs, and why each
//! step of the search keeps it so.

use crate::cost::capped;
use crate::cost::lemma_total_push;
use crate::cost::total;
use crate::entry::SmallestCostHolder;
use crate::graph::guided_move;
use crate::graph::is_guided_route;
use crate::graph::is_route;
use crate::graph::lemma_guided_route_is_route;
use crate::path::ends_within;
use crate::path::full_trail;
use crate::path::lemma_full_trail;
use crate::path::lemma_full_trail_unfold;
use crate::path::trail_ends;
use crate::store::distinct_nodes;
use crate::store::holds;
use crate::store::index_of;
use crate::store::relax_outcome;
use crate::store::relaxed;
use crate::store::FrontierEntry;
use crate::store::RelaxOutcome;
use vstd::multiset::Multiset;
use vstd::prelude::*;

verus! {

/// A record, kept beside the store for the proofs only: for each index the
/// cost of the move by which the node was last reached, and the moment at
/// which its entry was last written.
pub struct Trace {
    pub links: Seq<u64>,
    pub stamps: Seq<nat>,
    pub clock: nat,
}

impl Trace {
    /// The record of a store that holds the start node only.
    pub open spec fn initial() -> Trace {
        Trace { links: seq![0u64], stamps: seq![0nat], clock: 1 }
    }

    /// The record after an offer that came by a move of cost `link` and
    /// ended as `outcome`.
    pub open spec fn after(self, outcome: RelaxOutcome, link: u64) -> Trace {
        match outcome {
            RelaxOutcome::Inserted(_) => Trace {
                links: self.links.push(link),
                stamps: self.stamps.push(self.clock),
                clock: self.clock + 1,
            },
            RelaxOutcome::Improved(j) => Trace {
                links: self.links.update(j as int, link),
                stamps: self.stamps.update(j as int, self.clock),
                clock: self.clock + 1,
            },
            RelaxOutcome::Rejected => self,
        }
    }
}

/// The entry of the start node: no parent, cost zero.
pub open spec fn root(start: u64) -> FrontierEntry {
    FrontierEntry { node: start, parent: usize::MAX, cost: 0 }
}

/// The candidate with which a search begins: the node at index 0, at cost
/// and estimate zero.
pub open spec fn origin() -> SmallestCostHolder {
    SmallestCostHolder { estimated_cost: 0, cost: 0, index: 0 }
}

/// The start node stands at index 0, without a parent and at cost zero, and
/// no node is stored twice.
pub open spec fn anchored(s: Seq<FrontierEntry>, start: u64) -> bool {
    &&& 1 <= s.len() <= usize::MAX
    &&& distinct_nodes(s)
    &&& s[0] == root(start)
}

/// The entry at index `i` points to a stored parent from which a move of
/// the recorded cost leads to it; its cost is no less than the parent's
/// cost and that move together; and it is either dearer than its parent or
/// was written later.
pub open spec fn link_ok<FN: FnMut(&Option<&u64>, &u64) -> Vec<(u64, u64)>>(
    successors: FN,
    start: u64,
    s: Seq<FrontierEntry>,
    t: Trace,
    i: int,
) -> bool {
    let p = s[i].parent as int;
    &&& p < s.len()
    &&& guided_move(successors, start, s[p].node, s[i].node, t.links[i])
    &&& s[i].cost >= capped(s[p].cost + t.links[i])
    &&& (s[p].cost < s[i].cost || (s[p].cost == s[i].cost && t.stamps[p] < t.stamps[i]))
}

/// Every entry but the first is linked to its parent.
pub open spec fn linked<FN: FnMut(&Option<&u64>, &u64) -> Vec<(u64, u64)>>(
    successors: FN,
    start: u64,
    s: Seq<FrontierEntry>,
    t: Trace,
) -> bool {
    &&& t.links.len() == s.len()
    &&& t.stamps.len() == s.len()
    &&& forall|i: int| 1 <= i < s.len() ==> #[trigger] link_ok(successors, start, s, t, i)
    &&& forall|i: int| 0 <= i < s.len() ==> #[trigger] t.stamps[i] < t.clock
}

/// Every candidate names a stored node, at a cost no less than the stored
/// one and no more than its own estimate.
pub open spec fn queue_ok(s: Seq<FrontierEntry>, q: Multiset<SmallestCostHolder>) -> bool {
    forall|e: SmallestCostHolder| #[trigger]
        q.count(e) > 0 ==> e.index < s.len() && e.cost >= s[e.index as int].cost && e.cost
            <= e.estimated_cost
}

/// The sum of the stored costs.
pub open spec fn cost_sum(s: Seq<FrontierEntry>) -> nat
    decreases s.len(),
{
    if s.len() == 0 {
        0
    } else {
        cost_sum(s.drop_last()) + s.last().cost as nat
    }
}

/// Lowering one stored cost lowers the sum by as much.
pub proof fn lemma_cost_sum_update(s: Seq<FrontierEntry>, i: int, e: FrontierEntry)
    requires
        0 <= i < s.len(),
    ensures
        cost_sum(s.update(i, e)) + s[i].cost == cost_sum(s) + e.cost,
    decreases s.len(),
{
    let s2 = s.update(i, e);
    if i == s.len() - 1 {
        assert(s2.drop_last() =~= s.drop_last());
    } else {
        assert(s2.drop_last() =~= s.drop_last().update(i, e));
        lemma_cost_sum_update(s.drop_last(), i, e);
    }
}

/// The search has come closer to its end: a node was added, or no node was
/// added and the stored costs went down, or the store is as it was and the
/// queue is no longer than `limit`.
pub open spec fn advanced(
    s0: Seq<FrontierEntry>,
    limit: nat,
    s: Seq<FrontierEntry>,
    q: Multiset<SmallestCostHolder>,
) -> bool {
    ||| s.len() > s0.len()
    ||| s.len() == s0.len() && cost_sum(s) < cost_sum(s0)
    ||| s.len() == s0.len() && cost_sum(s) == cost_sum(s0) && q.len() <= limit
}

/// One offer, made while the node at index `u` is expanded along a move of
/// cost `w` to `to`, keeps the store anchored and linked, leaves the
/// entry at `u` alone, and does not move the search away from its end.
pub proof fn lemma_offer_keeps_links<FN: FnMut(&Option<&u64>, &u64) -> Vec<(u64, u64)>>(
    successors: FN,
    s: Seq<FrontierEntry>,
    t: Trace,
    start: u64,
    u: int,
    to: u64,
    w: u64,
)
    requires
        anchored(s, start),
        linked(successors, start, s, t),
        0 <= u < s.len(),
        relaxed(s, to, u as usize, capped(s[u].cost + w)).len() <= usize::MAX,
        guided_move(successors, start, s[u].node, to, w),
    ensures
        ({
            let cost = capped(s[u].cost + w);
            let s2 = relaxed(s, to, u as usize, cost);
            let t2 = t.after(relax_outcome(s, to, cost), w);
            &&& anchored(s2, start)
            &&& linked(successors, start, s2, t2)
            &&& s2[u] == s[u]
            &&& s2.len() >= s.len()
            &&& forall|i: int| 0 <= i < s.len() ==> (#[trigger] s2[i]).node == s[i].node
            &&& forall|i: int| 0 <= i < s.len() ==> (#[trigger] s2[i]).cost <= s[i].cost
            &&& relax_outcome(s, to, cost) is Rejected ==> s2 == s
            &&& !(relax_outcome(s, to, cost) is Rejected) ==> s2.len() > s.len() || (s2.len()
                == s.len() && cost_sum(s2) < cost_sum(s))
        }),
{
    let cost = capped(s[u].cost + w);
    let s2 = relaxed(s, to, u as usize, cost);
    let outcome = relax_outcome(s, to, cost);
    let t2 = t.after(outcome, w);
    let fresh = FrontierEntry { node: to, parent: u as usize, cost };
    if !holds(s, to) {
        let j = s.len() as int;
        assert(s2 == s.push(fresh));
        assert(distinct_nodes(s2)) by {
            assert forall|a: int, b: int| 0 <= a < b < s2.len() implies (#[trigger] s2[a]).node != (
            #[trigger] s2[b]).node by {
                if b == j {
                    assert(s[a].node != to);
                }
            }
        }
        assert forall|i: int| 1 <= i < s2.len() implies #[trigger] link_ok(
            successors,
            start,
            s2,
            t2,
            i,
        ) by {
            if i < j {
                assert(link_ok(successors, start, s, t, i));
            }
        }
    } else {
        let j = index_of(s, to);
        assert(s[j].node == to);
        if s[j].cost > cost {
            assert(j != u);
            assert(j != 0);
            assert(s2 == s.update(j, fresh));
            assert(distinct_nodes(s2));
            assert forall|i: int| 1 <= i < s2.len() implies #[trigger] link_ok(
                successors,
                start,
                s2,
                t2,
                i,
            ) by {
                assert(link_ok(successors, start, s, t, i));
                if i == j {
                    assert(t.stamps[u] < t.clock);
                }
            }
            lemma_cost_sum_update(s, j, fresh);
        }
    }
}

/// A new candidate for the node just written, at the cost just written,
/// keeps the queue in order; so does the queue as it is where nothing was
/// written.
pub proof fn lemma_offer_keeps_queue(
    s: Seq<FrontierEntry>,
    q: Multiset<SmallestCostHolder>,
    s2: Seq<FrontierEntry>,
    e: SmallestCostHolder,
)
    requires
        queue_ok(s, q),
        s2.len() >= s.len(),
        forall|i: int| 0 <= i < s.len() ==> (#[trigger] s2[i]).cost <= s[i].cost,
        e.index < s2.len(),
        e.cost >= s2[e.index as int].cost,
        e.cost <= e.estimated_cost,
    ensures
        queue_ok(s2, q),
        queue_ok(s2, q.insert(e)),
{
    assert forall|x: SmallestCostHolder| #[trigger] q.count(x) > 0 implies x.index < s2.len()
        && x.cost >= s2[x.index as int].cost && x.cost <= x.estimated_cost by {
        assert(s2[x.index as int].cost <= s[x.index as int].cost);
    }
    assert forall|x: SmallestCostHolder| #[trigger] q.insert(e).count(x) > 0 implies x.index
        < s2.len() && x.cost >= s2[x.index as int].cost && x.cost <= x.estimated_cost by {
        if x != e {
            assert(q.count(x) > 0);
        }
    }
}

/// From every stored node the parents lead back to the start node, along
/// moves that `successors` may hand out, and those moves together cost no
/// more than the node's stored cost.
pub proof fn lemma_trail_is_route<FN: FnMut(&Option<&u64>, &u64) -> Vec<(u64, u64)>>(
    successors: FN,
    s: Seq<FrontierEntry>,
    t: Trace,
    start: u64,
    i: int,
)
    requires
        anchored(s, start),
        linked(successors, start, s, t),
        0 <= i < s.len(),
    ensures
        trail_ends(s, i),
        full_trail(s, i).len() >= 1,
        full_trail(s, i)[0] == s[i].node,
        full_trail(s, i).last() == start,
        i == 0 ==> full_trail(s, i) == seq![start],
        exists|costs: Seq<u64>| #[trigger]
            is_guided_route(successors, start, full_trail(s, i).reverse(), costs) && is_route(
                successors,
                full_trail(s, i).reverse(),
                costs,
            ) && capped(total(costs) as int) <= s[i].cost,
    decreases s[i].cost, t.stamps[i],
{
    if i == 0 {
        assert(ends_within(s, s[0].parent as int, 0));
        assert(ends_within(s, 0, 1));
        lemma_full_trail(s, 0, 1);
        reveal_with_fuel(crate::path::trail, 2);
        assert(full_trail(s, 0) =~= seq![start]);
        let costs = Seq::<u64>::empty();
        assert(is_guided_route(successors, start, full_trail(s, i).reverse(), costs));
        assert(is_route(successors, full_trail(s, i).reverse(), costs));
    } else {
        let p = s[i].parent as int;
        assert(link_ok(successors, start, s, t, i));
        lemma_trail_is_route(successors, s, t, start, p);
        let fp = choose|f: nat| ends_within(s, p, f);
        assert(ends_within(s, i, fp + 1));
        lemma_full_trail(s, i, fp + 1);
        lemma_full_trail_unfold(s, i);
        let tp = full_trail(s, p);
        let ti = full_trail(s, i);
        assert(ti == seq![s[i].node] + tp);
        let cp = choose|costs: Seq<u64>| #[trigger]
            is_guided_route(successors, start, tp.reverse(), costs) && is_route(
                successors,
                tp.reverse(),
                costs,
            ) && capped(total(costs) as int) <= s[p].cost;
        let ci = cp.push(t.links[i]);
        assert(ti.reverse() =~= tp.reverse().push(s[i].node));
        assert(is_guided_route(successors, start, ti.reverse(), ci)) by {
            assert forall|k: int| 0 <= k < ci.len() implies guided_move(
                successors,
                start,
                ti.reverse()[k],
                ti.reverse()[k + 1],
                #[trigger] ci[k],
            ) by {
                if k < cp.len() {
                    assert(guided_move(
                        successors,
                        start,
                        tp.reverse()[k],
                        tp.reverse()[k + 1],
                        cp[k],
                    ));
                } else {
                    assert(tp.reverse()[k] == tp[0]);
                }
            }
        }
        lemma_guided_route_is_route(successors, start, ti.reverse(), ci);
        lemma_total_push(cp, t.links[i]);
        assert(capped(total(ci) as int) <= s[i].cost);
    }
}

} // verus!
