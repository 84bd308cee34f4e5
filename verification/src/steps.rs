//! The steps of a search, each with what it keeps and what it adds: a
//! candidate is served; it is a goal, or stale, or its node is expanded,
//! one offer for each move.

use crate::cost::capped;
use crate::cost::total;
use crate::cover::covered;
use crate::cover::covered_but;
use crate::cover::estimated;
use crate::cover::lemma_exhausted;
use crate::cover::lemma_expanded_is_settled;
use crate::cover::lemma_first_served_is_cheapest;
use crate::cover::lemma_offer_keeps_cover;
use crate::cover::lemma_offer_keeps_estimates;
use crate::cover::lemma_pop_keeps_cover;
use crate::cover::offered;
use crate::cover::reached;
use crate::entry::SmallestCostHolder;
use crate::graph::admissible;
use crate::graph::always_zero;
use crate::graph::goal_fixed;
use crate::graph::goal_in_reach;
use crate::graph::guided_move;
use crate::graph::hands_out;
use crate::graph::is_guided_route;
use crate::graph::lemma_guided_move_is_move;
use crate::graph::names_parent;
use crate::graph::in_reach;
use crate::graph::is_best_path;
use crate::graph::is_goal;
use crate::graph::is_route;
use crate::graph::leads_to_goal;
use crate::graph::lemma_zero_is_admissible;
use crate::graph::moves_fixed;
use crate::graph::surely_goal;
use crate::path::full_trail;
use crate::path::trail_ends;
use crate::store::relax_outcome;
use crate::store::relaxed;
use crate::store::FrontierEntry;
use crate::store::RelaxOutcome;
use crate::trace::advanced;
use crate::trace::anchored;
use crate::trace::lemma_offer_keeps_links;
use crate::trace::lemma_offer_keeps_queue;
use crate::trace::lemma_trail_is_route;
use crate::trace::link_ok;
use crate::trace::linked;
use crate::trace::origin;
use crate::trace::queue_ok;
use crate::trace::root;
use crate::trace::Trace;
use vstd::multiset::Multiset;
use vstd::prelude::*;

verus! {

/// What holds between two steps of a search from `start`, of store `s`,
/// queue `q` and record `t`.
pub open spec fn steady<
    FN: FnMut(&Option<&u64>, &u64) -> Vec<(u64, u64)>,
    FH: FnMut(&u64) -> u64,
    FS: FnMut(&u64) -> bool,
>(
    successors: FN,
    heuristic: FH,
    success: FS,
    start: u64,
    s: Seq<FrontierEntry>,
    q: Multiset<SmallestCostHolder>,
    t: Trace,
) -> bool {
    &&& anchored(s, start)
    &&& linked(successors, start, s, t)
    &&& queue_ok(s, q)
    &&& estimated(heuristic, s, q)
    &&& moves_fixed(successors) && goal_fixed(success) ==> covered(successors, success, s, q)
    &&& surely_goal(success, start) ==> s == seq![root(start)] && q == Multiset::singleton(
        origin(),
    )
}

/// What holds while the node at index `u` is expanded, after the first `k`
/// of its `moves` have been offered.
pub open spec fn expanding<
    FN: FnMut(&Option<&u64>, &u64) -> Vec<(u64, u64)>,
    FH: FnMut(&u64) -> u64,
    FS: FnMut(&u64) -> bool,
>(
    successors: FN,
    heuristic: FH,
    success: FS,
    start: u64,
    s: Seq<FrontierEntry>,
    q: Multiset<SmallestCostHolder>,
    t: Trace,
    u: int,
    moves: Seq<(u64, u64)>,
    k: int,
) -> bool {
    &&& anchored(s, start)
    &&& linked(successors, start, s, t)
    &&& queue_ok(s, q)
    &&& estimated(heuristic, s, q)
    &&& 0 <= u < s.len()
    &&& 0 <= k <= moves.len()
    &&& in_reach(successors, start, s[u].node)
    &&& forall|m: int|
        0 <= m < moves.len() ==> guided_move(
            successors,
            start,
            s[u].node,
            (#[trigger] moves[m]).0,
            moves[m].1,
        )
    &&& call_ensures(success, (&s[u].node,), false)
    &&& !surely_goal(success, start)
    &&& moves_fixed(successors) && goal_fixed(success) ==> covered_but(
        successors,
        success,
        s,
        q,
        u,
    ) && offered(s, moves, k, s[u].cost)
}

/// The candidate that is pushed when an offer at `cost` is taken, `h`
/// being the estimate for the node.
pub open spec fn candidate(outcome: RelaxOutcome, cost: u64, h: u64) -> SmallestCostHolder {
    SmallestCostHolder {
        estimated_cost: capped(cost + h),
        cost,
        index: match outcome {
            RelaxOutcome::Inserted(j) => j,
            RelaxOutcome::Improved(j) => j,
            RelaxOutcome::Rejected => 0,
        },
    }
}

/// The queue after an offer that ended as `outcome`.
pub open spec fn queue_after(
    q: Multiset<SmallestCostHolder>,
    outcome: RelaxOutcome,
    cost: u64,
    h: u64,
) -> Multiset<SmallestCostHolder> {
    if outcome is Rejected {
        q
    } else {
        q.insert(candidate(outcome, cost, h))
    }
}

/// A search begins steady: the start node alone in the store, its
/// candidate alone in the queue.
pub proof fn lemma_search_begins<
    FN: FnMut(&Option<&u64>, &u64) -> Vec<(u64, u64)>,
    FH: FnMut(&u64) -> u64,
    FS: FnMut(&u64) -> bool,
>(
    successors: FN,
    heuristic: FH,
    success: FS,
    start: u64,
    s: Seq<FrontierEntry>,
    q: Multiset<SmallestCostHolder>,
)
    requires
        s =~= seq![root(start)],
        q =~= Multiset::singleton(origin()),
    ensures
        steady(successors, heuristic, success, start, s, q, Trace::initial()),
{
    assert forall|i: int| 0 <= i < s.len() implies #[trigger] crate::cover::covers(
        successors,
        success,
        s,
        q,
        i,
    ) by {
        assert(q.count(origin()) > 0);
    }
}

/// The candidate that is served names a stored node, and that node is in
/// reach of the start node.
pub proof fn lemma_served<
    FN: FnMut(&Option<&u64>, &u64) -> Vec<(u64, u64)>,
    FH: FnMut(&u64) -> u64,
    FS: FnMut(&u64) -> bool,
>(
    successors: FN,
    heuristic: FH,
    success: FS,
    start: u64,
    s: Seq<FrontierEntry>,
    q: Multiset<SmallestCostHolder>,
    t: Trace,
    best: SmallestCostHolder,
)
    requires
        steady(successors, heuristic, success, start, s, q, t),
        q.count(best) > 0,
    ensures
        best.index < s.len(),
        in_reach(successors, start, s[best.index as int].node),
        surely_goal(success, start) ==> best == origin(),
{
    let i = best.index as int;
    lemma_trail_is_route(successors, s, t, start, i);
    let costs = choose|costs: Seq<u64>| #[trigger]
        is_guided_route(successors, start, full_trail(s, i).reverse(), costs) && is_route(
            successors,
            full_trail(s, i).reverse(),
            costs,
        );
    assert(full_trail(s, i).reverse().last() == s[i].node);
}

/// With an empty queue no goal is in reach, where moves and goals are
/// fixed.
pub proof fn lemma_search_exhausted<
    FN: FnMut(&Option<&u64>, &u64) -> Vec<(u64, u64)>,
    FH: FnMut(&u64) -> u64,
    FS: FnMut(&u64) -> bool,
>(
    successors: FN,
    heuristic: FH,
    success: FS,
    start: u64,
    s: Seq<FrontierEntry>,
    q: Multiset<SmallestCostHolder>,
    t: Trace,
)
    requires
        steady(successors, heuristic, success, start, s, q, t),
        q.len() == 0,
    ensures
        !surely_goal(success, start),
        moves_fixed(successors) && goal_fixed(success) ==> !goal_in_reach(
            successors,
            success,
            start,
        ),
{
    assert(Multiset::singleton(origin()).len() == 1);
    if moves_fixed(successors) && goal_fixed(success) {
        assert forall|nodes: Seq<u64>, costs: Seq<u64>|
            !leads_to_goal(successors, success, start, nodes, costs) by {
            if is_route(successors, nodes, costs) && nodes[0] == start {
                lemma_exhausted(successors, success, s, q, start, nodes, costs);
            }
        }
    }
}

/// When the candidate that is served names a goal, the way back from it
/// is the answer: it ends at the start node, each of its moves is one that
/// `successors` may hand out, and together they cost no more than the
/// candidate says. Where moves and goals are fixed and `heuristic` never
/// estimates too much, they cost exactly that, and no route to a goal costs
/// less.
pub proof fn lemma_goal_served<
    FN: FnMut(&Option<&u64>, &u64) -> Vec<(u64, u64)>,
    FH: FnMut(&u64) -> u64,
    FS: FnMut(&u64) -> bool,
>(
    successors: FN,
    heuristic: FH,
    success: FS,
    start: u64,
    s: Seq<FrontierEntry>,
    q: Multiset<SmallestCostHolder>,
    t: Trace,
    best: SmallestCostHolder,
)
    requires
        steady(successors, heuristic, success, start, s, q, t),
        q.count(best) > 0,
        forall|x: SmallestCostHolder| q.count(x) > 0 ==> !x.outranks(best),
        best.index < s.len(),
        is_goal(success, s[best.index as int].node),
    ensures
        trail_ends(s, best.index as int),
        ({
            let path = full_trail(s, best.index as int);
            &&& path.len() >= 1
            &&& path.last() == start
            &&& is_goal(success, path[0])
            &&& exists|costs: Seq<u64>| #[trigger]
                is_guided_route(successors, start, path.reverse(), costs) && capped(
                    total(costs) as int,
                ) <= best.cost
            &&& surely_goal(success, start) ==> path == seq![start] && best.cost == 0
            &&& goal_in_reach(successors, success, start)
            &&& moves_fixed(successors) && goal_fixed(success) && (admissible(
                successors,
                heuristic,
                success,
            ) || always_zero(heuristic)) ==> is_best_path(
                successors,
                success,
                start,
                path,
                best.cost,
            )
        }),
{
    let i = best.index as int;
    let path = full_trail(s, i);
    lemma_trail_is_route(successors, s, t, start, i);
    let costs = choose|costs: Seq<u64>| #[trigger]
        is_guided_route(successors, start, path.reverse(), costs) && is_route(
            successors,
            path.reverse(),
            costs,
        ) && capped(total(costs) as int) <= s[i].cost;
    assert(leads_to_goal(successors, success, start, path.reverse(), costs));
    if always_zero(heuristic) {
        lemma_zero_is_admissible(successors, heuristic, success);
    }
    if moves_fixed(successors) && goal_fixed(success) && admissible(
        successors,
        heuristic,
        success,
    ) {
        assert forall|nodes: Seq<u64>, costs: Seq<u64>| #[trigger]
            leads_to_goal(successors, success, start, nodes, costs) implies best.cost <= capped(
            total(costs) as int,
        ) by {
            lemma_first_served_is_cheapest(
                successors,
                heuristic,
                success,
                s,
                q,
                start,
                best,
                nodes,
                costs,
            );
        }
    }
}

/// A stale candidate is dropped, and the search stays steady.
pub proof fn lemma_stale_dropped<
    FN: FnMut(&Option<&u64>, &u64) -> Vec<(u64, u64)>,
    FH: FnMut(&u64) -> u64,
    FS: FnMut(&u64) -> bool,
>(
    successors: FN,
    heuristic: FH,
    success: FS,
    start: u64,
    s: Seq<FrontierEntry>,
    q: Multiset<SmallestCostHolder>,
    t: Trace,
    best: SmallestCostHolder,
)
    requires
        steady(successors, heuristic, success, start, s, q, t),
        q.count(best) > 0,
        best.index < s.len(),
        best.cost > s[best.index as int].cost,
    ensures
        steady(successors, heuristic, success, start, s, q.remove(best), t),
{
    let q2 = q.remove(best);
    assert forall|x: SmallestCostHolder| #[trigger] q2.count(x) > 0 implies q.count(x) > 0 by {}
    if moves_fixed(successors) && goal_fixed(success) {
        lemma_pop_keeps_cover(successors, success, s, q, best);
    }
}

/// The expansion of the node that the served candidate names begins: the
/// candidate was at the stored cost, the node is no goal, and its moves
/// are at hand.
pub proof fn lemma_expansion_begins<
    FN: FnMut(&Option<&u64>, &u64) -> Vec<(u64, u64)>,
    FH: FnMut(&u64) -> u64,
    FS: FnMut(&u64) -> bool,
>(
    successors: FN,
    heuristic: FH,
    success: FS,
    start: u64,
    s: Seq<FrontierEntry>,
    q: Multiset<SmallestCostHolder>,
    t: Trace,
    best: SmallestCostHolder,
    parent: &Option<&u64>,
    moves: Vec<(u64, u64)>,
)
    requires
        steady(successors, heuristic, success, start, s, q, t),
        q.count(best) > 0,
        best.index < s.len(),
        best.cost <= s[best.index as int].cost,
        in_reach(successors, start, s[best.index as int].node),
        call_ensures(success, (&s[best.index as int].node,), false),
        call_ensures(successors, (parent, &s[best.index as int].node), moves),
        s[best.index as int].parent < s.len() ==> names_parent(
            parent,
            Some(s[s[best.index as int].parent as int].node),
        ),
        s[best.index as int].parent >= s.len() ==> names_parent(parent, None),
    ensures
        best.cost == s[best.index as int].cost,
        expanding(
            successors,
            heuristic,
            success,
            start,
            s,
            q.remove(best),
            t,
            best.index as int,
            moves@,
            0,
        ),
{
    let q2 = q.remove(best);
    let u = best.index as int;
    assert forall|x: SmallestCostHolder| #[trigger] q2.count(x) > 0 implies q.count(x) > 0 by {}
    assert forall|m: int| 0 <= m < moves@.len() implies guided_move(
        successors,
        start,
        s[u].node,
        (#[trigger] moves@[m]).0,
        moves@[m].1,
    ) by {
        let (to, w) = moves@[m];
        assert(moves@.contains((to, w)));
        if u == 0 {
            assert(hands_out(successors, None, s[u].node, to, w));
        } else {
            let p = s[u].parent as int;
            assert(link_ok(successors, start, s, t, u));
            assert(s[u].node != s[0].node);
            lemma_guided_move_is_move(successors, start, s[p].node, s[u].node, t.links[u]);
            assert(hands_out(successors, Some(s[p].node), s[u].node, to, w));
        }
    }
    if moves_fixed(successors) && goal_fixed(success) {
        lemma_pop_keeps_cover(successors, success, s, q, best);
    }
}

/// One offer: the move `moves[k]` out of the node at index `u` is offered
/// to the store, and where the store takes it, a candidate with the
/// estimate `h` joins the queue. The expansion goes on with the next move,
/// and the search has not moved away from its end.
pub proof fn lemma_offer<
    FN: FnMut(&Option<&u64>, &u64) -> Vec<(u64, u64)>,
    FH: FnMut(&u64) -> u64,
    FS: FnMut(&u64) -> bool,
>(
    successors: FN,
    heuristic: FH,
    success: FS,
    start: u64,
    s: Seq<FrontierEntry>,
    q: Multiset<SmallestCostHolder>,
    t: Trace,
    u: int,
    moves: Seq<(u64, u64)>,
    k: int,
    h: u64,
    s0: Seq<FrontierEntry>,
    limit: nat,
)
    requires
        expanding(successors, heuristic, success, start, s, q, t, u, moves, k),
        k < moves.len(),
        relaxed(s, moves[k].0, u as usize, capped(s[u].cost + moves[k].1)).len() <= usize::MAX,
        !(relax_outcome(s, moves[k].0, capped(s[u].cost + moves[k].1)) is Rejected)
            ==> call_ensures(heuristic, (&moves[k].0,), h),
        advanced(s0, limit, s, q),
    ensures
        ({
            let cost = capped(s[u].cost + moves[k].1);
            let outcome = relax_outcome(s, moves[k].0, cost);
            let s2 = relaxed(s, moves[k].0, u as usize, cost);
            let q2 = queue_after(q, outcome, cost, h);
            &&& expanding(
                successors,
                heuristic,
                success,
                start,
                s2,
                q2,
                t.after(outcome, moves[k].1),
                u,
                moves,
                k + 1,
            )
            &&& s2[u] == s[u]
            &&& advanced(s0, limit, s2, q2)
        }),
{
    let (to, w) = moves[k];
    let cost = capped(s[u].cost + w);
    let outcome = relax_outcome(s, to, cost);
    let s2 = relaxed(s, to, u as usize, cost);
    let fresh = candidate(outcome, cost, h);
    let q2 = queue_after(q, outcome, cost, h);
    assert(guided_move(successors, start, s[u].node, moves[k].0, moves[k].1));
    lemma_offer_keeps_links(successors, s, t, start, u, to, w);
    if !(outcome is Rejected) {
        lemma_offer_keeps_queue(s, q, s2, fresh);
        lemma_offer_keeps_estimates(heuristic, s, q, s2, fresh, h);
    }
    if moves_fixed(successors) && goal_fixed(success) {
        lemma_offer_keeps_cover(successors, success, s, q, u, to, cost, fresh);
        assert forall|m: int| 0 <= m < k + 1 implies reached(
            s2,
            (#[trigger] moves[m]).0,
            capped(s2[u].cost + moves[m].1),
        ) by {
            if m < k {
                assert(reached(s, moves[m].0, capped(s[u].cost + moves[m].1)));
            }
        }
    }
}

/// The expansion ends: every move of the node has been offered, and the
/// search is steady again.
pub proof fn lemma_expansion_ends<
    FN: FnMut(&Option<&u64>, &u64) -> Vec<(u64, u64)>,
    FH: FnMut(&u64) -> u64,
    FS: FnMut(&u64) -> bool,
>(
    successors: FN,
    heuristic: FH,
    success: FS,
    start: u64,
    s: Seq<FrontierEntry>,
    q: Multiset<SmallestCostHolder>,
    t: Trace,
    u: int,
    parent: &Option<&u64>,
    moves: Vec<(u64, u64)>,
)
    requires
        expanding(
            successors,
            heuristic,
            success,
            start,
            s,
            q,
            t,
            u,
            moves@,
            moves@.len() as int,
        ),
        call_ensures(successors, (parent, &s[u].node), moves),
    ensures
        steady(successors, heuristic, success, start, s, q, t),
{
    if moves_fixed(successors) && goal_fixed(success) {
        lemma_expanded_is_settled(successors, success, s, q, u, parent, moves);
    }
}

} // verus!
