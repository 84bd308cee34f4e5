use astar_jps::astar_jps;

const SIDE: u64 = 3;

fn cell(x: u64, y: u64) -> u64 {
    y * SIDE + x
}

fn grid_moves(node: u64) -> Vec<(u64, u64)> {
    let (x, y) = (node % SIDE, node / SIDE);
    let mut moves = Vec::new();
    if x > 0 {
        moves.push((cell(x - 1, y), 1));
    }
    if x + 1 < SIDE {
        moves.push((cell(x + 1, y), 1));
    }
    if y > 0 {
        moves.push((cell(x, y - 1), 1));
    }
    if y + 1 < SIDE {
        moves.push((cell(x, y + 1), 1));
    }
    moves
}

fn manhattan(node: u64, goal: u64) -> u64 {
    let (x, y) = (node % SIDE, node / SIDE);
    let (gx, gy) = (goal % SIDE, goal / SIDE);
    x.abs_diff(gx) + y.abs_diff(gy)
}

#[test]
fn grid_corner_to_corner() {
    let goal = cell(2, 2);
    let start = cell(0, 0);
    let result = astar_jps(
        &start,
        |_parent: &Option<&u64>, n: &u64| grid_moves(*n),
        |n: &u64| manhattan(*n, goal),
        |n: &u64| *n == goal,
    );
    let (path, cost) = result.expect("the goal can be reached");
    assert_eq!(cost, 4);
    assert_eq!(path.len(), 5);
    assert_eq!(path[0], cell(2, 2));
    assert_eq!(path[4], cell(0, 0));
    for pair in path.windows(2) {
        assert!(grid_moves(pair[1]).contains(&(pair[0], 1)));
    }
}

#[test]
fn grid_without_goal_is_exhausted() {
    let start = cell(0, 0);
    let mut expanded = Vec::new();
    let result = astar_jps(
        &start,
        |_parent: &Option<&u64>, n: &u64| {
            expanded.push(*n);
            grid_moves(*n)
        },
        |_n: &u64| 0,
        |_n: &u64| false,
    );
    assert!(result.is_none());
    expanded.sort();
    assert_eq!(expanded, (0..9).collect::<Vec<u64>>());
}

#[test]
fn start_that_is_goal_gives_itself_at_cost_zero() {
    let start = 7;
    let result = astar_jps(
        &start,
        |_parent: &Option<&u64>, n: &u64| vec![(*n + 1, 5)],
        |_n: &u64| 3,
        |n: &u64| *n == 7,
    );
    assert_eq!(result, Some((vec![7], 0)));
}

#[test]
fn zero_heuristic_finds_the_same_cost() {
    let goal = cell(2, 2);
    let start = cell(0, 0);
    let informed = astar_jps(
        &start,
        |_parent: &Option<&u64>, n: &u64| grid_moves(*n),
        |n: &u64| manhattan(*n, goal),
        |n: &u64| *n == goal,
    );
    let blind = astar_jps(
        &start,
        |_parent: &Option<&u64>, n: &u64| grid_moves(*n),
        |_n: &u64| 0,
        |n: &u64| *n == goal,
    );
    assert_eq!(informed.map(|r| r.1), Some(4));
    assert_eq!(blind.map(|r| r.1), Some(4));
}

// 0 -> 1 costs 1, 1 -> 3 costs 1, 0 -> 2 costs 5, 2 -> 3 costs 1, 0 -> 3 costs 10.
fn diamond(node: u64) -> Vec<(u64, u64)> {
    match node {
        0 => vec![(3, 10), (2, 5), (1, 1)],
        1 => vec![(3, 1)],
        2 => vec![(3, 1)],
        _ => vec![],
    }
}

#[test]
fn cheaper_way_found_later_wins() {
    let result = astar_jps(
        &0,
        |_parent: &Option<&u64>, n: &u64| diamond(*n),
        |_n: &u64| 0,
        |n: &u64| *n == 3,
    );
    assert_eq!(result, Some((vec![3, 1, 0], 2)));
}

#[test]
fn dearer_way_found_later_changes_nothing() {
    // 0 -> 1 (1), 0 -> 2 (2), 2 -> 1 (7), 1 -> 4 (9), 2 -> 4 (9)
    let result = astar_jps(
        &0,
        |_parent: &Option<&u64>, n: &u64| match *n {
            0 => vec![(1, 1), (2, 2)],
            1 => vec![(4, 9)],
            2 => vec![(1, 7), (4, 9)],
            _ => vec![],
        },
        |_n: &u64| 0,
        |n: &u64| *n == 4,
    );
    assert_eq!(result, Some((vec![4, 1, 0], 10)));
}

#[test]
fn successors_are_told_the_parent() {
    let mut seen: Vec<(Option<u64>, u64)> = Vec::new();
    let result = astar_jps(
        &10,
        |parent: &Option<&u64>, n: &u64| {
            seen.push((parent.copied(), *n));
            if *n < 13 {
                vec![(*n + 1, 2)]
            } else {
                vec![]
            }
        },
        |_n: &u64| 0,
        |n: &u64| *n == 13,
    );
    assert_eq!(result, Some((vec![13, 12, 11, 10], 6)));
    assert_eq!(seen, vec![(None, 10), (Some(10), 11), (Some(11), 12)]);
}

#[test]
fn moves_may_depend_on_the_parent() {
    // From 1 the way on to 2 is open only for those who came from 0.
    let result = astar_jps(
        &0,
        |parent: &Option<&u64>, n: &u64| match (parent.copied(), *n) {
            (None, 0) => vec![(1, 1)],
            (Some(0), 1) => vec![(2, 1)],
            _ => vec![],
        },
        |_n: &u64| 0,
        |n: &u64| *n == 2,
    );
    assert_eq!(result, Some((vec![2, 1, 0], 2)));
}

#[test]
fn unreachable_goal_gives_none() {
    let result = astar_jps(
        &0,
        |_parent: &Option<&u64>, n: &u64| if *n < 3 { vec![(*n + 1, 1)] } else { vec![] },
        |_n: &u64| 0,
        |n: &u64| *n == 99,
    );
    assert_eq!(result, None);
}

#[test]
fn a_circle_of_free_moves_ends() {
    let result = astar_jps(
        &0,
        |_parent: &Option<&u64>, n: &u64| vec![((*n + 1) % 4, 0)],
        |_n: &u64| 0,
        |_n: &u64| false,
    );
    assert_eq!(result, None);
    let result = astar_jps(
        &0,
        |_parent: &Option<&u64>, n: &u64| vec![((*n + 1) % 4, 0)],
        |_n: &u64| 0,
        |n: &u64| *n == 3,
    );
    assert_eq!(result, Some((vec![3, 2, 1, 0], 0)));
}

#[test]
fn costs_stay_at_the_upper_end() {
    let result = astar_jps(
        &0,
        |_parent: &Option<&u64>, n: &u64| match *n {
            0 => vec![(1, u64::MAX - 1)],
            1 => vec![(2, 5)],
            _ => vec![],
        },
        |_n: &u64| 7,
        |n: &u64| *n == 2,
    );
    assert_eq!(result, Some((vec![2, 1, 0], u64::MAX)));
}

#[test]
fn goal_is_taken_when_it_is_served_not_when_it_is_seen() {
    // The goal is first seen through the dear move; the cheap way is found
    // before the goal is served.
    let result = astar_jps(
        &0,
        |_parent: &Option<&u64>, n: &u64| match *n {
            0 => vec![(9, 100), (1, 1)],
            1 => vec![(9, 1)],
            _ => vec![],
        },
        |_n: &u64| 0,
        |n: &u64| *n == 9,
    );
    assert_eq!(result, Some((vec![9, 1, 0], 2)));
}

struct Dice(u64);

impl Dice {
    fn roll(&mut self, sides: u64) -> u64 {
        self.0 = self.0.wrapping_mul(6364136223846793005).wrapping_add(1442695040888963407);
        (self.0 >> 33) % sides
    }
}

fn random_graph(dice: &mut Dice, nodes: u64) -> Vec<Vec<(u64, u64)>> {
    let mut graph = Vec::new();
    for _ in 0..nodes {
        let mut moves = Vec::new();
        for _ in 0..dice.roll(4) {
            moves.push((dice.roll(nodes), dice.roll(6)));
        }
        graph.push(moves);
    }
    graph
}

// The least cost from each node to `goal`, or `None` where there is no way.
fn least_costs_to(graph: &[Vec<(u64, u64)>], goal: u64) -> Vec<Option<u64>> {
    let mut least = vec![None; graph.len()];
    least[goal as usize] = Some(0);
    for _ in 0..graph.len() {
        for from in 0..graph.len() {
            for &(to, cost) in &graph[from] {
                if let Some(rest) = least[to as usize] {
                    if least[from].map_or(true, |known| rest + cost < known) {
                        least[from] = Some(rest + cost);
                    }
                }
            }
        }
    }
    least
}

fn assert_is_route(graph: &[Vec<(u64, u64)>], path: &[u64], start: u64, goal: u64, cost: u64) {
    assert_eq!(path[0], goal);
    assert_eq!(path[path.len() - 1], start);
    let mut cheapest_moves = 0;
    for pair in path.windows(2) {
        let step = graph[pair[1] as usize].iter().filter(|m| m.0 == pair[0]).map(|m| m.1).min();
        cheapest_moves += step.expect("each step of the path is a move of the graph");
    }
    assert!(cheapest_moves <= cost);
}

#[test]
fn random_graphs_give_the_least_cost() {
    let mut dice = Dice(2024);
    for round in 0..300 {
        let nodes = 2 + dice.roll(9);
        let graph = random_graph(&mut dice, nodes);
        let start = dice.roll(nodes);
        let goal = dice.roll(nodes);
        let least = least_costs_to(&graph, goal);
        let blind = astar_jps(
            &start,
            |_parent: &Option<&u64>, n: &u64| graph[*n as usize].clone(),
            |_n: &u64| 0,
            |n: &u64| *n == goal,
        );
        // Half of what is truly left never estimates too much.
        let informed = astar_jps(
            &start,
            |_parent: &Option<&u64>, n: &u64| graph[*n as usize].clone(),
            |n: &u64| least[*n as usize].map_or(0, |rest| rest / 2),
            |n: &u64| *n == goal,
        );
        // What is truly left is the best estimate there is.
        let exact = astar_jps(
            &start,
            |_parent: &Option<&u64>, n: &u64| graph[*n as usize].clone(),
            |n: &u64| least[*n as usize].unwrap_or(0),
            |n: &u64| *n == goal,
        );
        for found in [blind, informed, exact] {
            match (found, least[start as usize]) {
                (Some((path, cost)), Some(expected)) => {
                    assert_eq!(cost, expected, "round {}", round);
                    assert_is_route(&graph, &path, start, goal, cost);
                },
                (None, None) => {},
                (found, expected) => panic!("round {}: {:?} but {:?}", round, found, expected),
            }
        }
    }
}

#[test]
fn estimates_that_are_too_high_still_give_a_route() {
    let mut dice = Dice(7);
    for _ in 0..200 {
        let nodes = 2 + dice.roll(9);
        let graph = random_graph(&mut dice, nodes);
        let start = dice.roll(nodes);
        let goal = dice.roll(nodes);
        let least = least_costs_to(&graph, goal);
        let found = astar_jps(
            &start,
            |_parent: &Option<&u64>, n: &u64| graph[*n as usize].clone(),
            |n: &u64| (*n * 37) % 11,
            |n: &u64| *n == goal,
        );
        match (found, least[start as usize]) {
            (Some((path, cost)), Some(expected)) => {
                assert!(cost >= expected);
                assert_is_route(&graph, &path, start, goal, cost);
            },
            (None, None) => {},
            (found, expected) => panic!("{:?} but {:?}", found, expected),
        }
    }
}

#[test]
fn a_way_that_is_closed_for_the_parent_is_not_taken() {
    // Only the start node, which has no parent, is handed a move.
    let result = astar_jps(
        &0,
        |parent: &Option<&u64>, n: &u64| if parent.is_none() { vec![(*n + 1, 1)] } else { vec![] },
        |_n: &u64| 0,
        |n: &u64| *n == 2,
    );
    assert_eq!(result, None);
}
