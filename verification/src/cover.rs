//! Why a search that ends has looked far enough: every stored node either
//! still waits in the queue at its stored cost, or all its moves were
//! offered at that cost.

use crate::cost::capped;
use crate::cost::lemma_total_concat;
use crate::cost::lemma_total_push;
use crate::cost::total;
use crate::entry::SmallestCostHolder;
use crate::graph::admissible;
use crate::graph::goal_fixed;
use crate::graph::has_move;
use crate::graph::is_goal;
use crate::graph::is_route;
use crate::graph::moves_fixed;
use crate::store::distinct_nodes;
use crate::store::holds;
use crate::store::index_of;
use crate::store::relax_outcome;
use crate::store::relaxed;
use crate::store::FrontierEntry;
use crate::store::RelaxOutcome;
use crate::trace::anchored;
use crate::trace::queue_ok;
use vstd::multiset::Multiset;
use vstd::prelude::*;

verus! {

/// Some candidate in the queue names index `i` at exactly the stored cost.
pub open spec fn is_live(
    s: Seq<FrontierEntry>,
    q: Multiset<SmallestCostHolder>,
    i: int,
) -> bool {
    exists|e: SmallestCostHolder| #[trigger] q.count(e) > 0 && e.index == i && e.cost == s[i].cost
}

/// The store holds `to` at a cost of at most `cost`.
pub open spec fn reached(s: Seq<FrontierEntry>, to: u64, cost: u64) -> bool {
    exists|j: int| 0 <= j < s.len() && (#[trigger] s[j]).node == to && s[j].cost <= cost
}

/// The node at index `i` is no goal, and each of its moves has been
/// offered at its stored cost: the target is stored at no more than that
/// cost and the move together.
pub open spec fn settled<
    FN: FnMut(&Option<&u64>, &u64) -> Vec<(u64, u64)>,
    FS: FnMut(&u64) -> bool,
>(successors: FN, success: FS, s: Seq<FrontierEntry>, i: int) -> bool {
    &&& !is_goal(success, s[i].node)
    &&& forall|to: u64, w: u64| #[trigger]
        has_move(successors, s[i].node, to, w) ==> reached(s, to, capped(s[i].cost + w))
}

/// The node at index `i` waits in the queue at its stored cost, or is
/// settled.
pub open spec fn covers<
    FN: FnMut(&Option<&u64>, &u64) -> Vec<(u64, u64)>,
    FS: FnMut(&u64) -> bool,
>(
    successors: FN,
    success: FS,
    s: Seq<FrontierEntry>,
    q: Multiset<SmallestCostHolder>,
    i: int,
) -> bool {
    is_live(s, q, i) || settled(successors, success, s, i)
}

/// Every stored node, but perhaps the one at index `but`, waits in the
/// queue at its stored cost or is settled.
pub open spec fn covered_but<
    FN: FnMut(&Option<&u64>, &u64) -> Vec<(u64, u64)>,
    FS: FnMut(&u64) -> bool,
>(
    successors: FN,
    success: FS,
    s: Seq<FrontierEntry>,
    q: Multiset<SmallestCostHolder>,
    but: int,
) -> bool {
    forall|i: int| 0 <= i < s.len() && i != but ==> #[trigger] covers(successors, success, s, q, i)
}

/// Every stored node waits in the queue at its stored cost or is settled.
pub open spec fn covered<
    FN: FnMut(&Option<&u64>, &u64) -> Vec<(u64, u64)>,
    FS: FnMut(&u64) -> bool,
>(successors: FN, success: FS, s: Seq<FrontierEntry>, q: Multiset<SmallestCostHolder>) -> bool {
    covered_but(successors, success, s, q, -1)
}

/// The candidate's estimate is its cost, or its cost and something that
/// `heuristic` may answer for its node, together.
pub open spec fn estimate_ok<FH: FnMut(&u64) -> u64>(
    heuristic: FH,
    s: Seq<FrontierEntry>,
    e: SmallestCostHolder,
) -> bool {
    e.estimated_cost == e.cost || exists|h: u64| #[trigger]
        call_ensures(heuristic, (&s[e.index as int].node,), h) && e.estimated_cost == capped(
            e.cost + h,
        )
}

/// Every candidate in the queue carries such an estimate.
pub open spec fn estimated<FH: FnMut(&u64) -> u64>(
    heuristic: FH,
    s: Seq<FrontierEntry>,
    q: Multiset<SmallestCostHolder>,
) -> bool {
    forall|e: SmallestCostHolder| #[trigger] q.count(e) > 0 ==> estimate_ok(heuristic, s, e)
}

/// The moves `moves[0..k]` out of the node at index `u` have been offered
/// at cost `cost`.
pub open spec fn offered(s: Seq<FrontierEntry>, moves: Seq<(u64, u64)>, k: int, cost: u64) -> bool {
    forall|m: int| 0 <= m < k ==> reached(s, (#[trigger] moves[m]).0, capped(cost + moves[m].1))
}

/// Taking a candidate out of the queue leaves every node covered, but
/// perhaps the one it names.
pub proof fn lemma_pop_keeps_cover<
    FN: FnMut(&Option<&u64>, &u64) -> Vec<(u64, u64)>,
    FS: FnMut(&u64) -> bool,
>(
    successors: FN,
    success: FS,
    s: Seq<FrontierEntry>,
    q: Multiset<SmallestCostHolder>,
    e: SmallestCostHolder,
)
    requires
        covered(successors, success, s, q),
        q.count(e) > 0,
        e.index < s.len(),
    ensures
        covered_but(successors, success, s, q.remove(e), e.index as int),
        e.cost != s[e.index as int].cost ==> covered(successors, success, s, q.remove(e)),
{
    let q2 = q.remove(e);
    assert forall|i: int|
        0 <= i < s.len() && (i != e.index || e.cost != s[i].cost) implies #[trigger] covers(
        successors,
        success,
        s,
        q2,
        i,
    ) by {
        assert(covers(successors, success, s, q, i));
        if is_live(s, q, i) {
            let x = choose|x: SmallestCostHolder| #[trigger]
                q.count(x) > 0 && x.index == i && x.cost == s[i].cost;
            assert(x != e);
            assert(q2.count(x) > 0);
        }
    }
}

/// One offer, made while the node at index `u` is expanded, and the new
/// candidate pushed where the offer was taken, leave every other node
/// covered, and leave offered what was offered before.
pub proof fn lemma_offer_keeps_cover<
    FN: FnMut(&Option<&u64>, &u64) -> Vec<(u64, u64)>,
    FS: FnMut(&u64) -> bool,
>(
    successors: FN,
    success: FS,
    s: Seq<FrontierEntry>,
    q: Multiset<SmallestCostHolder>,
    u: int,
    to: u64,
    cost: u64,
    fresh: SmallestCostHolder,
)
    requires
        0 <= u < s.len(),
        distinct_nodes(s),
        covered_but(successors, success, s, q, u),
        relax_outcome(s, to, cost) matches RelaxOutcome::Inserted(j) ==> fresh.index == j
            && fresh.cost == cost,
        relax_outcome(s, to, cost) matches RelaxOutcome::Improved(j) ==> fresh.index == j
            && fresh.cost == cost,
        relaxed(s, to, u as usize, cost).len() <= usize::MAX,
    ensures
        ({
            let s2 = relaxed(s, to, u as usize, cost);
            let q2 = if relax_outcome(s, to, cost) is Rejected {
                q
            } else {
                q.insert(fresh)
            };
            &&& covered_but(successors, success, s2, q2, u)
            &&& reached(s2, to, cost)
            &&& forall|n: u64, c: u64| reached(s, n, c) ==> #[trigger] reached(s2, n, c)
        }),
{
    let s2 = relaxed(s, to, u as usize, cost);
    let outcome = relax_outcome(s, to, cost);
    let q2 = if outcome is Rejected {
        q
    } else {
        q.insert(fresh)
    };
    if holds(s, to) {
        let j = index_of(s, to);
        assert(s[j].node == to);
    }
    assert(s2.len() >= s.len());
    assert forall|i: int| 0 <= i < s.len() implies (#[trigger] s2[i]).node == s[i].node
        && s2[i].cost <= s[i].cost by {}
    assert forall|n: u64, c: u64| reached(s, n, c) implies #[trigger] reached(s2, n, c) by {
        let j = choose|j: int| 0 <= j < s.len() && (#[trigger] s[j]).node == n && s[j].cost <= c;
        assert(s2[j].node == n && s2[j].cost <= c);
    }
    assert(reached(s2, to, cost)) by {
        if !holds(s, to) {
            assert(s2[s.len() as int].node == to);
        } else {
            let j = index_of(s, to);
            assert(s2[j].node == to && s2[j].cost <= cost);
        }
    }
    assert forall|i: int| 0 <= i < s2.len() && i != u implies #[trigger] covers(
        successors,
        success,
        s2,
        q2,
        i,
    ) by {
        if i < s.len() && s2[i] == s[i] {
            assert(covers(successors, success, s, q, i));
            if is_live(s, q, i) {
                let x = choose|x: SmallestCostHolder| #[trigger]
                    q.count(x) > 0 && x.index == i && x.cost == s[i].cost;
                assert(q2.count(x) > 0);
            } else {
                assert forall|n: u64, w: u64| #[trigger]
                    has_move(successors, s2[i].node, n, w) implies reached(
                    s2,
                    n,
                    capped(s2[i].cost + w),
                ) by {
                    assert(reached(s, n, capped(s[i].cost + w)));
                }
            }
        } else {
            assert(fresh.index == i);
            assert(s2[i].cost == cost);
            assert(q2.count(fresh) > 0);
        }
    }
}

/// Once every move of the node at index `u` has been offered at its stored
/// cost, and `success` has turned the node down, the node is settled.
pub proof fn lemma_expanded_is_settled<
    FN: FnMut(&Option<&u64>, &u64) -> Vec<(u64, u64)>,
    FS: FnMut(&u64) -> bool,
>(
    successors: FN,
    success: FS,
    s: Seq<FrontierEntry>,
    q: Multiset<SmallestCostHolder>,
    u: int,
    parent: &Option<&u64>,
    moves: Vec<(u64, u64)>,
)
    requires
        0 <= u < s.len(),
        moves_fixed(successors),
        goal_fixed(success),
        covered_but(successors, success, s, q, u),
        call_ensures(successors, (parent, &s[u].node), moves),
        call_ensures(success, (&s[u].node,), false),
        offered(s, moves@, moves@.len() as int, s[u].cost),
    ensures
        covered(successors, success, s, q),
{
    assert forall|to: u64, w: u64| #[trigger]
        has_move(successors, s[u].node, to, w) implies reached(s, to, capped(s[u].cost + w)) by {
        let (p, out) = choose|p: &Option<&u64>, out: Vec<(u64, u64)>| #[trigger]
            call_ensures(successors, (p, &s[u].node), out) && out@.contains((to, w));
        assert(out@ == moves@);
        let m = choose|m: int| 0 <= m < moves@.len() && moves@[m] == (to, w);
        assert(reached(s, moves@[m].0, capped(s[u].cost + moves@[m].1)));
    }
    assert(settled(successors, success, s, u));
    assert forall|i: int| 0 <= i < s.len() && i != -1 implies #[trigger] covers(
        successors,
        success,
        s,
        q,
        i,
    ) by {
        if i != u {
            assert(covers(successors, success, s, q, i));
        }
    }
}

/// The new candidate carries an estimate as the queue asks for, and the
/// candidates already there keep theirs while the store grows.
pub proof fn lemma_offer_keeps_estimates<FH: FnMut(&u64) -> u64>(
    heuristic: FH,
    s: Seq<FrontierEntry>,
    q: Multiset<SmallestCostHolder>,
    s2: Seq<FrontierEntry>,
    fresh: SmallestCostHolder,
    h: u64,
)
    requires
        estimated(heuristic, s, q),
        queue_ok(s, q),
        s2.len() >= s.len(),
        forall|i: int| 0 <= i < s.len() ==> (#[trigger] s2[i]).node == s[i].node,
        fresh.index < s2.len(),
        call_ensures(heuristic, (&s2[fresh.index as int].node,), h),
        fresh.estimated_cost == capped(fresh.cost + h),
    ensures
        estimated(heuristic, s2, q),
        estimated(heuristic, s2, q.insert(fresh)),
{
    assert forall|e: SmallestCostHolder| #[trigger] q.count(e) > 0 implies estimate_ok(
        heuristic,
        s2,
        e,
    ) by {
        assert(estimate_ok(heuristic, s, e));
        assert(s2[e.index as int].node == s[e.index as int].node);
    }
    assert forall|e: SmallestCostHolder| #[trigger] q.insert(fresh).count(e) > 0 implies estimate_ok(
        heuristic,
        s2,
        e,
    ) by {
        if e != fresh {
            assert(q.count(e) > 0);
        }
    }
}

/// On a route from the start node, up to its position `k`: either some
/// node up to there waits in the queue at its stored cost, which is no more
/// than the route costs up to it; or the node at `k` is stored at no more
/// than the route costs up to it, and is settled.
pub open spec fn route_met<
    FN: FnMut(&Option<&u64>, &u64) -> Vec<(u64, u64)>,
    FS: FnMut(&u64) -> bool,
>(
    successors: FN,
    success: FS,
    s: Seq<FrontierEntry>,
    q: Multiset<SmallestCostHolder>,
    nodes: Seq<u64>,
    costs: Seq<u64>,
    k: int,
) -> bool {
    ||| exists|x: SmallestCostHolder, i: int| #[trigger]
        waits_on_route(s, q, nodes, costs, x, i) && 0 <= i <= k
    ||| exists|j: int|
        0 <= j < s.len() && (#[trigger] s[j]).node == nodes[k] && s[j].cost <= capped(
            total(costs.take(k)) as int,
        ) && settled(successors, success, s, j)
}

/// The candidate `x` waits in the queue for the node at position `i` of the
/// route, at the stored cost, which is no more than the route costs up to
/// there.
pub open spec fn waits_on_route(
    s: Seq<FrontierEntry>,
    q: Multiset<SmallestCostHolder>,
    nodes: Seq<u64>,
    costs: Seq<u64>,
    x: SmallestCostHolder,
    i: int,
) -> bool {
    &&& 0 <= i <= costs.len()
    &&& q.count(x) > 0
    &&& x.index < s.len()
    &&& s[x.index as int].node == nodes[i]
    &&& x.cost == s[x.index as int].cost
    &&& x.cost <= capped(total(costs.take(i)) as int)
}

/// Every route from the start node is met, at each of its positions.
pub proof fn lemma_route_met<
    FN: FnMut(&Option<&u64>, &u64) -> Vec<(u64, u64)>,
    FS: FnMut(&u64) -> bool,
>(
    successors: FN,
    success: FS,
    s: Seq<FrontierEntry>,
    q: Multiset<SmallestCostHolder>,
    start: u64,
    nodes: Seq<u64>,
    costs: Seq<u64>,
    k: int,
)
    requires
        anchored(s, start),
        covered(successors, success, s, q),
        is_route(successors, nodes, costs),
        nodes[0] == start,
        0 <= k <= costs.len(),
    ensures
        route_met(successors, success, s, q, nodes, costs, k),
    decreases k,
{
    if k == 0 {
        assert(costs.take(0) =~= Seq::<u64>::empty());
        lemma_met_at(successors, success, s, q, nodes, costs, 0, 0);
    } else {
        lemma_route_met(successors, success, s, q, start, nodes, costs, k - 1);
        if exists|x: SmallestCostHolder, i: int| #[trigger]
            waits_on_route(s, q, nodes, costs, x, i) && 0 <= i <= k - 1 {
            let (x, i) = choose|x: SmallestCostHolder, i: int| #[trigger]
                waits_on_route(s, q, nodes, costs, x, i) && 0 <= i <= k - 1;
            assert(waits_on_route(s, q, nodes, costs, x, i) && 0 <= i <= k);
        } else {
            let j = choose|j: int|
                0 <= j < s.len() && (#[trigger] s[j]).node == nodes[k - 1] && s[j].cost <= capped(
                    total(costs.take(k - 1)) as int,
                ) && settled(successors, success, s, j);
            assert(has_move(successors, nodes[k - 1], nodes[k - 1 + 1], costs[k - 1]));
            assert(reached(s, nodes[k], capped(s[j].cost + costs[k - 1])));
            let j2 = choose|j2: int|
                0 <= j2 < s.len() && (#[trigger] s[j2]).node == nodes[k] && s[j2].cost <= capped(
                    s[j].cost + costs[k - 1],
                );
            assert(costs.take(k) =~= costs.take(k - 1).push(costs[k - 1]));
            lemma_total_push(costs.take(k - 1), costs[k - 1]);
            lemma_met_at(successors, success, s, q, nodes, costs, k, j2);
        }
    }
}

/// A node of the route that is stored at no more than the route costs up
/// to it meets the route there.
proof fn lemma_met_at<
    FN: FnMut(&Option<&u64>, &u64) -> Vec<(u64, u64)>,
    FS: FnMut(&u64) -> bool,
>(
    successors: FN,
    success: FS,
    s: Seq<FrontierEntry>,
    q: Multiset<SmallestCostHolder>,
    nodes: Seq<u64>,
    costs: Seq<u64>,
    k: int,
    j: int,
)
    requires
        covered(successors, success, s, q),
        0 <= k <= costs.len(),
        0 <= j < s.len(),
        s[j].node == nodes[k],
        s[j].cost <= capped(total(costs.take(k)) as int),
    ensures
        route_met(successors, success, s, q, nodes, costs, k),
{
    assert(covers(successors, success, s, q, j));
    if is_live(s, q, j) {
        let x = choose|x: SmallestCostHolder| #[trigger]
            q.count(x) > 0 && x.index == j && x.cost == s[j].cost;
        assert(waits_on_route(s, q, nodes, costs, x, k) && 0 <= k <= k);
    }
}

/// With an empty queue no route from the start node ends in a goal.
pub proof fn lemma_exhausted<
    FN: FnMut(&Option<&u64>, &u64) -> Vec<(u64, u64)>,
    FS: FnMut(&u64) -> bool,
>(
    successors: FN,
    success: FS,
    s: Seq<FrontierEntry>,
    q: Multiset<SmallestCostHolder>,
    start: u64,
    nodes: Seq<u64>,
    costs: Seq<u64>,
)
    requires
        anchored(s, start),
        covered(successors, success, s, q),
        q.len() == 0,
        is_route(successors, nodes, costs),
        nodes[0] == start,
    ensures
        !is_goal(success, nodes.last()),
{
    lemma_route_met(successors, success, s, q, start, nodes, costs, costs.len() as int);
    assert forall|x: SmallestCostHolder| q.count(x) == 0 by {
        if q.count(x) > 0 {
            assert(q.remove(x).len() == q.len() - 1);
        }
    }
}

/// The candidate that is served first costs no more than any route from
/// the start node to a goal, where `heuristic` never estimates too much.
pub proof fn lemma_first_served_is_cheapest<
    FN: FnMut(&Option<&u64>, &u64) -> Vec<(u64, u64)>,
    FH: FnMut(&u64) -> u64,
    FS: FnMut(&u64) -> bool,
>(
    successors: FN,
    heuristic: FH,
    success: FS,
    s: Seq<FrontierEntry>,
    q: Multiset<SmallestCostHolder>,
    start: u64,
    best: SmallestCostHolder,
    nodes: Seq<u64>,
    costs: Seq<u64>,
)
    requires
        anchored(s, start),
        covered(successors, success, s, q),
        queue_ok(s, q),
        estimated(heuristic, s, q),
        admissible(successors, heuristic, success),
        q.count(best) > 0,
        forall|x: SmallestCostHolder| q.count(x) > 0 ==> !x.outranks(best),
        is_route(successors, nodes, costs),
        nodes[0] == start,
        is_goal(success, nodes.last()),
    ensures
        best.cost <= capped(total(costs) as int),
{
    let n = costs.len() as int;
    lemma_route_met(successors, success, s, q, start, nodes, costs, n);
    let (x, i) = choose|x: SmallestCostHolder, i: int| #[trigger]
        waits_on_route(s, q, nodes, costs, x, i) && 0 <= i <= n;
    assert(!x.outranks(best));
    assert(estimate_ok(heuristic, s, x));
    assert(costs.take(i) + costs.skip(i) =~= costs);
    lemma_total_concat(costs.take(i), costs.skip(i));
    if x.estimated_cost != x.cost {
        let h = choose|h: u64| #[trigger]
            call_ensures(heuristic, (&s[x.index as int].node,), h) && x.estimated_cost == capped(
                x.cost + h,
            );
        let rest = nodes.skip(i);
        let rest_costs = costs.skip(i);
        assert(is_route(successors, rest, rest_costs)) by {
            assert forall|m: int| 0 <= m < rest_costs.len() implies has_move(
                successors,
                rest[m],
                rest[m + 1],
                #[trigger] rest_costs[m],
            ) by {
                assert(has_move(successors, nodes[i + m], nodes[i + m + 1], costs[i + m]));
            }
        }
        assert(rest[0] == nodes[i]);
        assert(rest.last() == nodes.last());
        assert(h <= total(rest_costs));
    }
}

} // verus!
