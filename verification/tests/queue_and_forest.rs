use tsp_rs::forest::Forest;
use tsp_rs::queue::MinQueue;

#[test]
fn queue_hands_entries_out_in_ascending_order() {
    let mut q = MinQueue::new();
    assert_eq!(q.len(), 0);
    assert_eq!(q.pop(), None);
    q.push((5, 1, 2));
    q.push((3, 9, 9));
    q.push((5, 0, 7));
    q.push((5, 1, 1));
    q.push((3, 9, 9));
    assert_eq!(q.len(), 5);
    assert_eq!(q.pop(), Some((3, 9, 9)));
    assert_eq!(q.pop(), Some((3, 9, 9)));
    assert_eq!(q.pop(), Some((5, 0, 7)));
    assert_eq!(q.pop(), Some((5, 1, 1)));
    assert_eq!(q.pop(), Some((5, 1, 2)));
    assert_eq!(q.pop(), None);
}

#[test]
fn forest_joins_sets_by_membership() {
    let mut f = Forest::new(6);
    for i in 0..6 {
        assert_eq!(f.find(i), i);
    }
    f.union(0, 1);
    f.union(4, 5);
    assert_eq!(f.find(0), f.find(1));
    assert_eq!(f.find(4), f.find(5));
    assert_ne!(f.find(1), f.find(4));
    assert_ne!(f.find(2), f.find(3));
    f.union(1, 5);
    assert_eq!(f.find(0), f.find(4));
    assert_ne!(f.find(0), f.find(2));
    f.union(0, 4);
    assert_eq!(f.find(1), f.find(5));
    f.union(3, 2);
    f.union(2, 0);
    let root = f.find(0);
    for i in 0..6 {
        assert_eq!(f.find(i), root);
    }
}

#[test]
fn queue_orders_many_entries() {
    let mut q = MinQueue::new();
    let mut state: u64 = 12345;
    let mut all: Vec<(u128, usize, usize)> = Vec::new();
    for _ in 0..500 {
        state = state.wrapping_mul(6364136223846793005).wrapping_add(1442695040888963407);
        let e = (((state >> 33) % 50) as u128, ((state >> 20) % 7) as usize, ((state >> 10) % 5) as usize);
        q.push(e);
        all.push(e);
    }
    all.sort();
    for e in all {
        assert_eq!(q.pop(), Some(e));
    }
    assert_eq!(q.pop(), None);
    assert_eq!(q.len(), 0);
}

#[test]
fn forest_counts_its_sets() {
    let mut f = Forest::new(4);
    assert_eq!(f.num_sets(), 4);
    f.union(0, 1);
    assert_eq!(f.num_sets(), 3);
    f.union(1, 0);
    assert_eq!(f.num_sets(), 3);
    f.union(2, 3);
    f.union(0, 3);
    assert_eq!(f.num_sets(), 1);
}
