use astar_jps::cost::plus;
use astar_jps::entry::SmallestCostHolder;
use astar_jps::path::path_from;
use astar_jps::path::step;
use astar_jps::queue::CostQueue;
use astar_jps::store::FrontierEntry;
use astar_jps::store::FrontierStore;
use astar_jps::store::RelaxOutcome;
use std::cmp::Ordering;

fn held(estimated_cost: u64, cost: u64, index: usize) -> SmallestCostHolder {
    SmallestCostHolder { estimated_cost, cost, index }
}

#[test]
fn smaller_estimate_is_greater() {
    assert_eq!(held(3, 1, 0).cmp(&held(5, 1, 0)), Ordering::Greater);
    assert_eq!(held(5, 1, 0).cmp(&held(3, 1, 0)), Ordering::Less);
    assert!(held(3, 1, 0) > held(5, 1, 0));
    assert!(held(3, 1, 0).precedes(&held(5, 1, 0)));
    assert!(!held(5, 1, 0).precedes(&held(3, 1, 0)));
}

#[test]
fn equal_estimates_prefer_the_larger_cost() {
    assert_eq!(held(5, 4, 0).cmp(&held(5, 2, 0)), Ordering::Greater);
    assert_eq!(held(5, 2, 0).cmp(&held(5, 4, 0)), Ordering::Less);
    assert!(held(5, 4, 0) > held(5, 2, 0));
    assert_eq!(held(5, 4, 0).partial_cmp(&held(5, 2, 0)), Some(Ordering::Greater));
}

#[test]
fn equality_ignores_the_index() {
    assert_eq!(held(5, 4, 0), held(5, 4, 9));
    assert_eq!(held(5, 4, 0).cmp(&held(5, 4, 9)), Ordering::Equal);
    assert_ne!(held(5, 4, 0), held(5, 3, 0));
    assert_ne!(held(5, 4, 0), held(6, 4, 0));
    assert!(!held(5, 4, 0).precedes(&held(5, 4, 9)));
}

#[test]
fn queue_serves_by_estimate_then_by_larger_cost() {
    let mut q = CostQueue::new();
    assert!(q.is_empty());
    assert_eq!(q.pop_best(), None);
    q.push(held(7, 1, 1));
    q.push(held(4, 1, 2));
    q.push(held(4, 3, 3));
    q.push(held(9, 0, 4));
    q.push(held(5, 5, 5));
    assert_eq!(q.len(), 5);
    let order: Vec<usize> = std::iter::from_fn(|| q.pop_best()).map(|e| e.index).collect();
    assert_eq!(order, vec![3, 2, 5, 1, 4]);
    assert!(q.is_empty());
}

#[test]
fn queue_keeps_repeated_candidates() {
    let mut q = CostQueue::new();
    q.push(held(2, 2, 6));
    q.push(held(2, 2, 6));
    q.push(held(1, 1, 6));
    assert_eq!(q.len(), 3);
    assert_eq!(q.pop_best().map(|e| e.cost), Some(1));
    assert_eq!(q.pop_best().map(|e| e.index), Some(6));
    assert_eq!(q.pop_best().map(|e| e.index), Some(6));
    assert_eq!(q.pop_best(), None);
}

#[test]
fn queue_serves_many_in_order() {
    let mut q = CostQueue::new();
    let mut x: u64 = 12345;
    for i in 0..200 {
        x = x.wrapping_mul(6364136223846793005).wrapping_add(1442695040888963407);
        q.push(held((x >> 33) % 50, (x >> 20) % 7, i));
    }
    let mut last: Option<SmallestCostHolder> = None;
    let mut served = 0;
    while let Some(e) = q.pop_best() {
        if let Some(l) = last {
            assert!(l.cmp(&e) != Ordering::Less);
        }
        last = Some(e);
        served += 1;
    }
    assert_eq!(served, 200);
}

#[test]
fn store_assigns_indices_in_order() {
    let mut s = FrontierStore::new();
    assert_eq!(s.len(), 0);
    assert_eq!(s.lookup_or_create(40), 0);
    assert_eq!(s.relax(41, 0, 3), RelaxOutcome::Inserted(1));
    assert_eq!(s.relax(42, 1, 8), RelaxOutcome::Inserted(2));
    assert_eq!(s.len(), 3);
    assert_eq!(s.get_by_index(0), FrontierEntry { node: 40, parent: usize::MAX, cost: 0 });
    assert_eq!(s.get_by_index(1), FrontierEntry { node: 41, parent: 0, cost: 3 });
    assert_eq!(s.get_by_index(2), FrontierEntry { node: 42, parent: 1, cost: 8 });
    assert_eq!(s.entry_at(3), None);
    assert_eq!(s.entry_at(usize::MAX), None);
}

#[test]
fn lookup_or_create_leaves_a_known_node_alone() {
    let mut s = FrontierStore::new();
    s.lookup_or_create(40);
    s.relax(41, 0, 3);
    assert_eq!(s.lookup_or_create(41), 1);
    assert_eq!(s.lookup_or_create(40), 0);
    assert_eq!(s.len(), 2);
    assert_eq!(s.get_by_index(1), FrontierEntry { node: 41, parent: 0, cost: 3 });
    assert_eq!(s.lookup_or_create(50), 2);
    assert_eq!(s.get_by_index(2), FrontierEntry { node: 50, parent: usize::MAX, cost: 0 });
}

#[test]
fn improvement_keeps_the_index() {
    let mut s = FrontierStore::new();
    s.lookup_or_create(40);
    s.relax(41, 0, 9);
    s.relax(42, 0, 2);
    assert_eq!(s.relax(41, 2, 5), RelaxOutcome::Improved(1));
    assert_eq!(s.get_by_index(1), FrontierEntry { node: 41, parent: 2, cost: 5 });
    assert_eq!(s.get_by_index(2), FrontierEntry { node: 42, parent: 0, cost: 2 });
    assert_eq!(s.len(), 3);
}

#[test]
fn dearer_or_equal_offer_is_rejected() {
    let mut s = FrontierStore::new();
    s.lookup_or_create(40);
    s.relax(41, 0, 5);
    s.relax(42, 0, 1);
    assert_eq!(s.relax(41, 2, 5), RelaxOutcome::Rejected);
    assert_eq!(s.relax(41, 2, 6), RelaxOutcome::Rejected);
    assert_eq!(s.relax(40, 2, 0), RelaxOutcome::Rejected);
    assert_eq!(s.get_by_index(1), FrontierEntry { node: 41, parent: 0, cost: 5 });
    assert_eq!(s.get_by_index(0), FrontierEntry { node: 40, parent: usize::MAX, cost: 0 });
}

#[test]
fn step_walks_to_the_parent() {
    let mut s = FrontierStore::new();
    s.lookup_or_create(40);
    s.relax(41, 0, 3);
    let mut i = 1;
    assert_eq!(step(&s, &mut i), Some(41));
    assert_eq!(i, 0);
    assert_eq!(step(&s, &mut i), Some(40));
    assert_eq!(i, usize::MAX);
    assert_eq!(step(&s, &mut i), None);
    assert_eq!(i, usize::MAX);
}

#[test]
fn path_runs_from_the_node_to_the_root() {
    let mut s = FrontierStore::new();
    s.lookup_or_create(40);
    s.relax(41, 0, 3);
    s.relax(42, 1, 4);
    s.relax(43, 0, 1);
    s.relax(44, 2, 6);
    assert_eq!(path_from(&s, 4), vec![44, 42, 41, 40]);
    assert_eq!(path_from(&s, 3), vec![43, 40]);
    assert_eq!(path_from(&s, 0), vec![40]);
    assert_eq!(path_from(&s, 17), Vec::<u64>::new());
}

#[test]
fn plus_adds_and_stays_in_range() {
    assert_eq!(plus(2, 3), 5);
    assert_eq!(plus(0, 0), 0);
    assert_eq!(plus(u64::MAX, 0), u64::MAX);
    assert_eq!(plus(u64::MAX - 1, 1), u64::MAX);
    assert_eq!(plus(u64::MAX - 1, 2), u64::MAX);
    assert_eq!(plus(u64::MAX, u64::MAX), u64::MAX);
}
