//! What the three caller-supplied functions say about the graph: which moves
//! exist, which nodes are goals, and what a route costs.

use crate::cost::capped;
use crate::cost::total;
use vstd::prelude::*;

verus! {

/// Some call of `successors` on `from`, whatever parent it is given, may
/// hand out the move to `to` at `cost`.
pub open spec fn has_move<FN: FnMut(&Option<&u64>, &u64) -> Vec<(u64, u64)>>(
    successors: FN,
    from: u64,
    to: u64,
    cost: u64,
) -> bool {
    exists|parent: &Option<&u64>, out: Vec<(u64, u64)>|
        #[trigger] call_ensures(successors, (parent, &from), out) && out@.contains((to, cost))
}

/// `success` may accept `node`.
pub open spec fn is_goal<FS: FnMut(&u64) -> bool>(success: FS, node: u64) -> bool {
    call_ensures(success, (&node,), true)
}

/// `success` accepts `node` whenever it is asked.
pub open spec fn surely_goal<FS: FnMut(&u64) -> bool>(success: FS, node: u64) -> bool {
    forall|b: bool| call_ensures(success, (&node,), b) ==> b
}

/// `nodes` can be walked from its first to its last node by moves that
/// `successors` may hand out, the move into `nodes[i + 1]` at `costs[i]`.
pub open spec fn is_route<FN: FnMut(&Option<&u64>, &u64) -> Vec<(u64, u64)>>(
    successors: FN,
    nodes: Seq<u64>,
    costs: Seq<u64>,
) -> bool {
    &&& nodes.len() == costs.len() + 1
    &&& forall|i: int|
        0 <= i < costs.len() ==> has_move(successors, nodes[i], nodes[i + 1], #[trigger] costs[i])
}

/// `given`, as it is handed to `successors`, names the node `parent`, or
/// no node where `parent` is `None`.
pub open spec fn names_parent(given: &Option<&u64>, parent: Option<u64>) -> bool {
    match *given {
        Some(node) => parent == Some(*node),
        None => parent is None,
    }
}

/// A call of `successors` on `from`, given `parent` as the node that `from`
/// was reached from, may hand out the move to `to` at `cost`.
pub open spec fn hands_out<FN: FnMut(&Option<&u64>, &u64) -> Vec<(u64, u64)>>(
    successors: FN,
    parent: Option<u64>,
    from: u64,
    to: u64,
    cost: u64,
) -> bool {
    exists|given: &Option<&u64>, out: Vec<(u64, u64)>|
        #[trigger] call_ensures(successors, (given, &from), out) && names_parent(given, parent)
            && out@.contains((to, cost))
}

/// The move from `from` to `to` at `cost` is one that `successors` may hand
/// out to a search from `start`: given no parent where `from` is `start`,
/// and else given a parent from which a move leads to `from`.
pub open spec fn guided_move<FN: FnMut(&Option<&u64>, &u64) -> Vec<(u64, u64)>>(
    successors: FN,
    start: u64,
    from: u64,
    to: u64,
    cost: u64,
) -> bool {
    if from == start {
        hands_out(successors, None, from, to, cost)
    } else {
        exists|before: u64, c: u64| #[trigger]
            has_move(successors, before, from, c) && hands_out(
                successors,
                Some(before),
                from,
                to,
                cost,
            )
    }
}

/// `nodes` is a route each of whose moves `successors` may hand out to a
/// search from `start`.
pub open spec fn is_guided_route<FN: FnMut(&Option<&u64>, &u64) -> Vec<(u64, u64)>>(
    successors: FN,
    start: u64,
    nodes: Seq<u64>,
    costs: Seq<u64>,
) -> bool {
    &&& nodes.len() == costs.len() + 1
    &&& forall|i: int|
        0 <= i < costs.len() ==> guided_move(
            successors,
            start,
            nodes[i],
            nodes[i + 1],
            #[trigger] costs[i],
        )
}

/// A move that is handed out to a search is a move.
pub proof fn lemma_guided_move_is_move<FN: FnMut(&Option<&u64>, &u64) -> Vec<(u64, u64)>>(
    successors: FN,
    start: u64,
    from: u64,
    to: u64,
    cost: u64,
)
    requires
        guided_move(successors, start, from, to, cost),
    ensures
        has_move(successors, from, to, cost),
{
    if from == start {
        let (given, out) = choose|given: &Option<&u64>, out: Vec<(u64, u64)>|
            #[trigger] call_ensures(successors, (given, &from), out) && names_parent(given, None)
                && out@.contains((to, cost));
        assert(call_ensures(successors, (given, &from), out) && out@.contains((to, cost)));
    } else {
        let (before, c) = choose|before: u64, c: u64| #[trigger]
            has_move(successors, before, from, c) && hands_out(
                successors,
                Some(before),
                from,
                to,
                cost,
            );
        let (given, out) = choose|given: &Option<&u64>, out: Vec<(u64, u64)>|
            #[trigger] call_ensures(successors, (given, &from), out) && names_parent(
                given,
                Some(before),
            ) && out@.contains((to, cost));
        assert(call_ensures(successors, (given, &from), out) && out@.contains((to, cost)));
    }
}

/// A route whose moves are handed out to a search is a route.
pub proof fn lemma_guided_route_is_route<FN: FnMut(&Option<&u64>, &u64) -> Vec<(u64, u64)>>(
    successors: FN,
    start: u64,
    nodes: Seq<u64>,
    costs: Seq<u64>,
)
    requires
        is_guided_route(successors, start, nodes, costs),
    ensures
        is_route(successors, nodes, costs),
{
    assert forall|i: int| 0 <= i < costs.len() implies has_move(
        successors,
        nodes[i],
        nodes[i + 1],
        #[trigger] costs[i],
    ) by {
        lemma_guided_move_is_move(successors, start, nodes[i], nodes[i + 1], costs[i]);
    }
}

/// Some route leads from `start` to `node`.
pub open spec fn in_reach<FN: FnMut(&Option<&u64>, &u64) -> Vec<(u64, u64)>>(
    successors: FN,
    start: u64,
    node: u64,
) -> bool {
    exists|nodes: Seq<u64>, costs: Seq<u64>| #[trigger]
        is_route(successors, nodes, costs) && nodes[0] == start && nodes.last() == node
}

/// A move out of a node in reach leads to a node in reach.
pub proof fn lemma_reach_step<FN: FnMut(&Option<&u64>, &u64) -> Vec<(u64, u64)>>(
    successors: FN,
    start: u64,
    from: u64,
    to: u64,
    cost: u64,
)
    requires
        in_reach(successors, start, from),
        has_move(successors, from, to, cost),
    ensures
        in_reach(successors, start, to),
{
    let (nodes, costs) = choose|nodes: Seq<u64>, costs: Seq<u64>| #[trigger]
        is_route(successors, nodes, costs) && nodes[0] == start && nodes.last() == from;
    let nodes2 = nodes.push(to);
    let costs2 = costs.push(cost);
    assert forall|i: int| 0 <= i < costs2.len() implies has_move(
        successors,
        nodes2[i],
        nodes2[i + 1],
        #[trigger] costs2[i],
    ) by {
        if i < costs.len() {
            assert(has_move(successors, nodes[i], nodes[i + 1], costs[i]));
        }
    }
    assert(is_route(successors, nodes2, costs2) && nodes2[0] == start && nodes2.last() == to);
}

/// `nodes` is a route from `start` to a node that `success` may accept.
pub open spec fn leads_to_goal<
    FN: FnMut(&Option<&u64>, &u64) -> Vec<(u64, u64)>,
    FS: FnMut(&u64) -> bool,
>(successors: FN, success: FS, start: u64, nodes: Seq<u64>, costs: Seq<u64>) -> bool {
    is_route(successors, nodes, costs) && nodes[0] == start && is_goal(success, nodes.last())
}

/// Some route leads from `start` to a node that `success` may accept.
pub open spec fn goal_in_reach<
    FN: FnMut(&Option<&u64>, &u64) -> Vec<(u64, u64)>,
    FS: FnMut(&u64) -> bool,
>(successors: FN, success: FS, start: u64) -> bool {
    exists|nodes: Seq<u64>, costs: Seq<u64>| #[trigger]
        leads_to_goal(successors, success, start, nodes, costs)
}

/// No route from `start` to a goal costs less than `cost`.
pub open spec fn cheapest<
    FN: FnMut(&Option<&u64>, &u64) -> Vec<(u64, u64)>,
    FS: FnMut(&u64) -> bool,
>(successors: FN, success: FS, start: u64, cost: u64) -> bool {
    forall|nodes: Seq<u64>, costs: Seq<u64>| #[trigger]
        leads_to_goal(successors, success, start, nodes, costs) ==> cost <= capped(
            total(costs) as int,
        )
}

/// `path`, read from its last node to its first, is a route from `start` to
/// a goal that costs `cost`, and no route from `start` to a goal costs
/// less.
pub open spec fn is_best_path<
    FN: FnMut(&Option<&u64>, &u64) -> Vec<(u64, u64)>,
    FS: FnMut(&u64) -> bool,
>(successors: FN, success: FS, start: u64, path: Seq<u64>, cost: u64) -> bool {
    &&& cheapest(successors, success, start, cost)
    &&& exists|costs: Seq<u64>| #[trigger]
        leads_to_goal(successors, success, start, path.reverse(), costs) && capped(
            total(costs) as int,
        ) == cost
}

/// `successors` hands out the same moves whenever it is asked about the
/// same node, whatever the parent.
pub open spec fn moves_fixed<FN: FnMut(&Option<&u64>, &u64) -> Vec<(u64, u64)>>(
    successors: FN,
) -> bool {
    forall|given: &Option<&u64>, other: &Option<&u64>, n: &u64, out: Vec<(u64, u64)>, other_out: Vec<(u64, u64)>|
        #[trigger] call_ensures(successors, (given, n), out) && #[trigger] call_ensures(
            successors,
            (other, n),
            other_out,
        ) ==> out@ == other_out@
}

/// `success` gives the same answer whenever it is asked about the same
/// node.
pub open spec fn goal_fixed<FS: FnMut(&u64) -> bool>(success: FS) -> bool {
    forall|n: &u64, b1: bool, b2: bool|
        #[trigger] call_ensures(success, (n,), b1) && #[trigger] call_ensures(success, (n,), b2)
            ==> b1 == b2
}

/// `heuristic` never estimates more than a route from the node to a goal
/// costs.
pub open spec fn admissible<
    FN: FnMut(&Option<&u64>, &u64) -> Vec<(u64, u64)>,
    FH: FnMut(&u64) -> u64,
    FS: FnMut(&u64) -> bool,
>(successors: FN, heuristic: FH, success: FS) -> bool {
    forall|h: u64, nodes: Seq<u64>, costs: Seq<u64>|
        #![trigger call_ensures(heuristic, (&nodes[0],), h), is_route(successors, nodes, costs)]
        call_ensures(heuristic, (&nodes[0],), h) && is_route(successors, nodes, costs) && is_goal(
            success,
            nodes.last(),
        ) ==> h <= total(costs)
}

/// `heuristic` estimates zero everywhere.
pub open spec fn always_zero<FH: FnMut(&u64) -> u64>(heuristic: FH) -> bool {
    forall|n: &u64, h: u64| #[trigger] call_ensures(heuristic, (n,), h) ==> h == 0
}

/// An estimate of zero everywhere never exceeds what a route costs.
pub proof fn lemma_zero_is_admissible<
    FN: FnMut(&Option<&u64>, &u64) -> Vec<(u64, u64)>,
    FH: FnMut(&u64) -> u64,
    FS: FnMut(&u64) -> bool,
>(successors: FN, heuristic: FH, success: FS)
    requires
        always_zero(heuristic),
    ensures
        admissible(successors, heuristic, success),
{
}

} // verus!
