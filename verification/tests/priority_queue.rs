use aoc::priority_queue::PriorityQueue;

#[test]
fn test_dedup_invariant() {
    let mut q = PriorityQueue::new();
    assert!(!q.contains(1));
    q.push(1, 5);
    assert!(q.contains(1));
    q.push(1, 9);
    assert!(q.contains(1));
    q.push(1, 2);
    assert!(q.contains(1));
    assert_eq!(q.pop(), Some(1));
    assert!(!q.contains(1));
}

#[test]
fn test_min_extraction_order() {
    let mut q = PriorityQueue::new();
    q.push(10, 3);
    q.push(20, 1);
    q.push(30, 2);
    assert_eq!(q.pop(), Some(20));
    assert_eq!(q.pop(), Some(30));
    assert_eq!(q.pop(), Some(10));
    assert_eq!(q.pop(), None);
}

#[test]
fn test_pop_until_empty() {
    let mut q = PriorityQueue::new();
    q.push(4, 40);
    q.push(5, 50);
    q.push(6, 60);
    assert!(q.pop().is_some());
    assert!(q.pop().is_some());
    assert!(q.pop().is_some());
    assert_eq!(q.pop(), None);
    assert!(!q.contains(4));
    assert!(!q.contains(5));
    assert!(!q.contains(6));
}

#[test]
fn test_push_idempotent() {
    let mut q = PriorityQueue::new();
    q.push(7, 1);
    q.push(7, 1);
    assert_eq!(q.pop(), Some(7));
    assert_eq!(q.pop(), None);
}

#[test]
fn test_first_priority_kept() {
    let mut q = PriorityQueue::new();
    q.push(1, 10);
    q.push(2, 5);
    q.push(1, 1);
    assert_eq!(q.pop(), Some(2));
    assert_eq!(q.pop(), Some(1));
    assert_eq!(q.pop(), None);
}
