//! The search itself.

use crate::cost::capped;
use crate::cost::plus;
use crate::cost::total;
use crate::cost::zero;
use crate::entry::SmallestCostHolder;
use crate::graph::admissible;
use crate::graph::always_zero;
use crate::graph::goal_fixed;
use crate::graph::goal_in_reach;
use crate::graph::is_guided_route;
use crate::graph::lemma_guided_move_is_move;
use crate::graph::lemma_reach_step;
use crate::graph::in_reach;
use crate::graph::is_best_path;
use crate::graph::is_goal;
use crate::graph::moves_fixed;
use crate::graph::surely_goal;
use crate::path::path_from;
use crate::queue::CostQueue;
use crate::store::relax_outcome;
use crate::store::FrontierStore;
use crate::store::RelaxOutcome;
use crate::steps::expanding;
use crate::steps::lemma_expansion_begins;
use crate::steps::lemma_expansion_ends;
use crate::steps::lemma_goal_served;
use crate::steps::lemma_offer;
use crate::steps::lemma_search_begins;
use crate::steps::lemma_search_exhausted;
use crate::steps::lemma_served;
use crate::steps::lemma_stale_dropped;
use crate::steps::steady;
use crate::trace::advanced;
use crate::trace::cost_sum;
use crate::trace::Trace;
use vstd::prelude::*;

verus! {

/// Searches a cheapest path from `start` to a node that `success` accepts.
///
/// `successors` is given the node from which the current node was best
/// reached so far, or `None` for `start`, and the current node, and hands
/// out the moves from there, each with its cost. `heuristic` estimates what
/// is left from a node to a goal.
///
/// The result is the path, goal first and `start` last, with its cost; or
/// `None` where the search ran out of nodes. The three functions need to
/// be callable on the nodes in reach of `start` only. Costs add up as
/// [`plus`] does: a sum that would leave the range of `u64` stays at
/// `u64::MAX`.
///
/// Whatever the three functions do, a path that is returned leads from
/// `start` to a node that `success` accepted, by moves that `successors`
/// handed out when it was told where the search had come from, and these
/// cost no more than the cost returned. Where `successors` and `success`
/// answer the same whenever asked the same, a path is returned exactly
/// where a goal is in reach; and where moreover `heuristic` never
/// estimates more than what is left, the path costs what is returned, and
/// no path to a goal costs less. Which of several cheapest paths is
/// returned is left open.
pub fn astar_jps<FN, FH, FS>(
    start: &u64,
    successors: FN,
    heuristic: FH,
    success: FS,
) -> (result: Option<(Vec<u64>, u64)>) where
    FN: FnMut(&Option<&u64>, &u64) -> Vec<(u64, u64)>,
    FH: FnMut(&u64) -> u64,
    FS: FnMut(&u64) -> bool,

    requires
        forall|p: &Option<&u64>, n: &u64|
            in_reach(successors, *start, *n) ==> #[trigger] call_requires(successors, (p, n)),
        forall|n: &u64|
            in_reach(successors, *start, *n) ==> #[trigger] call_requires(heuristic, (n,)),
        forall|n: &u64|
            in_reach(successors, *start, *n) ==> #[trigger] call_requires(success, (n,)),
    ensures
        result matches Some((path, cost)) ==> {
            &&& path@.len() >= 1
            &&& path@.last() == *start
            &&& is_goal(success, path@[0])
            &&& exists|costs: Seq<u64>| #[trigger]
                is_guided_route(successors, *start, path@.reverse(), costs) && capped(
                    total(costs) as int,
                ) <= cost
        },
        surely_goal(success, *start) ==> (result matches Some((path, cost)) && path@ == seq![
            *start,
        ] && cost == 0),
        !goal_in_reach(successors, success, *start) ==> result is None,
        moves_fixed(successors) && goal_fixed(success) && goal_in_reach(
            successors,
            success,
            *start,
        ) ==> result is Some,
        moves_fixed(successors) && goal_fixed(success) && admissible(
            successors,
            heuristic,
            success,
        ) ==> (result matches Some((path, cost)) ==> is_best_path(
            successors,
            success,
            *start,
            path@,
            cost,
        )),
        moves_fixed(successors) && goal_fixed(success) && always_zero(heuristic) ==> (
        result matches Some((path, cost)) ==> is_best_path(
            successors,
            success,
            *start,
            path@,
            cost,
        )),
{
    let mut expand = successors;
    let mut estimate = heuristic;
    let mut accept = success;
    let mut parents = FrontierStore::new();
    let first = parents.lookup_or_create(*start);
    let mut to_see = CostQueue::new();
    to_see.push(SmallestCostHolder { estimated_cost: zero(), cost: zero(), index: first });
    let ghost mut trace = Trace::initial();
    proof {
        lemma_search_begins(successors, heuristic, success, *start, parents@, to_see@);
    }
    loop
        invariant
            forall|p: &Option<&u64>, n: &u64|
                in_reach(successors, *start, *n) ==> #[trigger] call_requires(successors, (p, n)),
            forall|n: &u64|
                in_reach(successors, *start, *n) ==> #[trigger] call_requires(heuristic, (n,)),
            forall|n: &u64|
                in_reach(successors, *start, *n) ==> #[trigger] call_requires(success, (n,)),
            expand == successors,
            estimate == heuristic,
            accept == success,
            parents.wf(),
            to_see.wf(),
            steady(successors, heuristic, success, *start, parents@, to_see@, trace),
        decreases usize::MAX - parents@.len(), cost_sum(parents@), to_see@.len(),
    {
        let ghost known = parents@;
        let ghost waiting = to_see@;
        let best = match to_see.pop_best() {
            Some(best) => best,
            None => {
                proof {
                    lemma_search_exhausted(
                        successors,
                        heuristic,
                        success,
                        *start,
                        known,
                        waiting,
                        trace,
                    );
                }
                return None;
            },
        };
        let SmallestCostHolder { cost, index, .. } = best;
        proof {
            lemma_served(successors, heuristic, success, *start, known, waiting, trace, best);
        }
        let entry = parents.get_by_index(index);
        let node = entry.node;
        if accept(&node) {
            proof {
                lemma_goal_served(
                    successors,
                    heuristic,
                    success,
                    *start,
                    known,
                    waiting,
                    trace,
                    best,
                );
            }
            let path = path_from(&parents, index);
            return Some((path, cost));
        }
        // A node may wait in the queue several times, once for each better
        // way that was found to it. Only the best of them is expanded.

        if cost > entry.cost {
            proof {
                lemma_stale_dropped(
                    successors,
                    heuristic,
                    success,
                    *start,
                    known,
                    waiting,
                    trace,
                    best,
                );
            }
            continue ;
        }
        let parent_node = match parents.entry_at(entry.parent) {
            Some(parent) => Some(parent.node),
            None => None,
        };
        let parent_ref = parent_node.as_ref();
        let moves = expand(&parent_ref, &node);
        proof {
            lemma_expansion_begins(
                successors,
                heuristic,
                success,
                *start,
                known,
                waiting,
                trace,
                best,
                &parent_ref,
                moves,
            );
        }
        let mut k: usize = 0;
        while k < moves.len()
            invariant
                forall|n: &u64|
                    in_reach(successors, *start, *n) ==> #[trigger] call_requires(heuristic, (n,)),
                estimate == heuristic,
                parents.wf(),
                to_see.wf(),
                index < parents@.len(),
                parents@[index as int] == entry,
                entry.node == node,
                entry.cost == cost,
                call_ensures(successors, (&parent_ref, &node), moves),
                expanding(
                    successors,
                    heuristic,
                    success,
                    *start,
                    parents@,
                    to_see@,
                    trace,
                    index as int,
                    moves@,
                    k as int,
                ),
                advanced(known, (waiting.len() - 1) as nat, parents@, to_see@),
                waiting.len() >= 1,
            decreases moves.len() - k,
        {
            let ghost before = parents@;
            let ghost queued = to_see@;
            let (successor, move_cost) = moves[k];
            let new_cost = plus(cost, move_cost);
            proof {
                lemma_guided_move_is_move(successors, *start, node, successor, move_cost);
                lemma_reach_step(successors, *start, node, successor, move_cost);
            }
            match parents.relax(successor, index, new_cost) {
                RelaxOutcome::Inserted(n) | RelaxOutcome::Improved(n) => {
                    let h = estimate(&successor);
                    proof {
                        lemma_offer(
                            successors,
                            heuristic,
                            success,
                            *start,
                            before,
                            queued,
                            trace,
                            index as int,
                            moves@,
                            k as int,
                            h,
                            known,
                            (waiting.len() - 1) as nat,
                        );
                    }
                    to_see.push(
                        SmallestCostHolder {
                            estimated_cost: plus(new_cost, h),
                            cost: new_cost,
                            index: n,
                        },
                    );
                },
                RelaxOutcome::Rejected => {
                    proof {
                        lemma_offer(
                            successors,
                            heuristic,
                            success,
                            *start,
                            before,
                            queued,
                            trace,
                            index as int,
                            moves@,
                            k as int,
                            0,
                            known,
                            (waiting.len() - 1) as nat,
                        );
                    }
                },
            }
            proof {
                trace = trace.after(relax_outcome(before, successor, new_cost), move_cost);
            }
            k += 1;
        }
        proof {
            lemma_expansion_ends(
                successors,
                heuristic,
                success,
                *start,
                parents@,
                to_see@,
                trace,
                index as int,
                &parent_ref,
                moves,
            );
        }
    }
}

} // verus!
