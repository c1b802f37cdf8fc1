use bidir_search::algorithms::frontier::{Entry, Frontier};
use bidir_search::fixed::{saturating_sum, whole, INFINITE, UNIT};

fn drain(frontier: &mut Frontier) -> Vec<(u128, usize)> {
    let mut out = Vec::new();
    while let Some(entry) = frontier.pop() {
        out.push((entry.priority, entry.node));
    }
    out
}

#[test]
fn new_frontier_is_empty() {
    let mut f = Frontier::new();
    assert!(f.is_empty());
    assert_eq!(f.peek(), None);
    assert!(f.pop().is_none());
    assert!(f.is_empty());
}

#[test]
fn entries_leave_by_ascending_priority() {
    let mut f = Frontier::new();
    for (priority, node) in [(5000, 1), (1000, 2), (3000, 3), (0, 4), (4000, 5), (2000, 6)] {
        f.push(priority, node);
    }
    assert!(!f.is_empty());
    assert_eq!(f.peek(), Some(0));
    assert_eq!(
        drain(&mut f),
        vec![(0, 4), (1000, 2), (2000, 6), (3000, 3), (4000, 5), (5000, 1)]
    );
    assert!(f.is_empty());
}

#[test]
fn equal_priorities_leave_by_ascending_node() {
    let mut f = Frontier::new();
    for (priority, node) in [(7, 9), (7, 3), (2, 8), (7, 5), (2, 1), (7, 3)] {
        f.push(priority, node);
    }
    assert_eq!(drain(&mut f), vec![(2, 1), (2, 8), (7, 3), (7, 3), (7, 5), (7, 9)]);
}

#[test]
fn pushes_and_pops_may_alternate() {
    let mut f = Frontier::new();
    f.push(10, 0);
    f.push(30, 1);
    let first = f.pop().unwrap();
    assert_eq!((first.priority, first.node), (10, 0));
    f.push(20, 2);
    f.push(5, 3);
    assert_eq!(f.peek(), Some(5));
    assert_eq!(drain(&mut f), vec![(5, 3), (20, 2), (30, 1)]);
}

#[test]
fn the_largest_priority_leaves_last() {
    let mut f = Frontier::new();
    f.push(INFINITE, 0);
    f.push(0, usize::MAX);
    f.push(INFINITE, usize::MAX);
    assert_eq!(drain(&mut f), vec![(0, usize::MAX), (INFINITE, 0), (INFINITE, usize::MAX)]);
}

#[test]
fn entry_order_is_by_priority_then_node() {
    let low = Entry { priority: 1, node: 9 };
    let high = Entry { priority: 2, node: 0 };
    let twin = Entry { priority: 1, node: 10 };
    assert!(low.leaves_before(&high));
    assert!(!high.leaves_before(&low));
    assert!(low.leaves_before(&twin));
    assert!(!twin.leaves_before(&low));
    assert!(low.leaves_before(&low));
}

#[test]
fn costs_are_counted_in_thousandths() {
    assert_eq!(UNIT, 1000);
    assert_eq!(whole(0), 0);
    assert_eq!(whole(1), 1000);
    assert_eq!(whole(37), 37_000);
    assert_eq!(whole(usize::MAX), usize::MAX as u128 * 1000);
    assert_eq!(INFINITE, u128::MAX);
}

#[test]
fn sums_are_cut_off_at_infinite() {
    assert_eq!(saturating_sum(0, 0), 0);
    assert_eq!(saturating_sum(1500, 2500), 4000);
    assert_eq!(saturating_sum(INFINITE, 0), INFINITE);
    assert_eq!(saturating_sum(INFINITE, 1000), INFINITE);
    assert_eq!(saturating_sum(INFINITE - 1, 1), INFINITE);
    assert_eq!(saturating_sum(INFINITE - 2, 1), INFINITE - 1);
    assert_eq!(saturating_sum(INFINITE, INFINITE), INFINITE);
}
