use exact_path::lex::precedes;
use exact_path::pool::CandidatePool;

#[test]
fn precedes_by_the_first_difference() {
    assert!(precedes(&vec![0, 1, 2], &vec![0, 3, 2]));
    assert!(!precedes(&vec![0, 3, 2], &vec![0, 1, 2]));
    assert!(precedes(&vec![1, 5], &vec![2]));
    assert!(!precedes(&vec![2], &vec![1, 5]));
    assert!(precedes(&vec![0, 1, 9, 9], &vec![0, 2]));
}

#[test]
fn precedes_puts_a_beginning_first() {
    assert!(precedes(&vec![1], &vec![1, 0]));
    assert!(!precedes(&vec![1, 0], &vec![1]));
    assert!(precedes(&vec![], &vec![0]));
    assert!(!precedes(&vec![0], &vec![]));
}

#[test]
fn precedes_holds_of_equal_paths() {
    assert!(precedes(&vec![], &vec![]));
    assert!(precedes(&vec![4, 2], &vec![4, 2]));
}

#[test]
fn empty_pool_gives_nothing() {
    let mut pool = CandidatePool::new();
    assert_eq!(pool.pop(), None);
    assert_eq!(pool.pop(), None);
}

#[test]
fn pool_gives_the_greatest_path_first() {
    let mut pool = CandidatePool::new();
    pool.push(vec![0, 1, 2]);
    pool.push(vec![0, 3, 2]);
    pool.push(vec![0, 3]);
    pool.push(vec![0, 2, 9, 9, 9]);
    assert_eq!(pool.pop(), Some(vec![0, 3, 2]));
    assert_eq!(pool.pop(), Some(vec![0, 3]));
    assert_eq!(pool.pop(), Some(vec![0, 2, 9, 9, 9]));
    assert_eq!(pool.pop(), Some(vec![0, 1, 2]));
    assert_eq!(pool.pop(), None);
}

#[test]
fn pool_does_not_order_by_length() {
    let mut pool = CandidatePool::new();
    pool.push(vec![0, 1]);
    pool.push(vec![0, 5, 4, 3, 2, 1]);
    assert_eq!(pool.pop(), Some(vec![0, 5, 4, 3, 2, 1]));
    assert_eq!(pool.pop(), Some(vec![0, 1]));
}

#[test]
fn pool_keeps_a_path_as_often_as_it_was_put_in() {
    let mut pool = CandidatePool::new();
    pool.push(vec![0, 2, 1]);
    pool.push(vec![0, 1]);
    pool.push(vec![0, 2, 1]);
    assert_eq!(pool.pop(), Some(vec![0, 2, 1]));
    assert_eq!(pool.pop(), Some(vec![0, 2, 1]));
    assert_eq!(pool.pop(), Some(vec![0, 1]));
    assert_eq!(pool.pop(), None);
}

#[test]
fn pool_takes_paths_between_pops() {
    let mut pool = CandidatePool::new();
    pool.push(vec![3]);
    pool.push(vec![1]);
    assert_eq!(pool.pop(), Some(vec![3]));
    pool.push(vec![2]);
    pool.push(vec![0]);
    assert_eq!(pool.pop(), Some(vec![2]));
    assert_eq!(pool.pop(), Some(vec![1]));
    assert_eq!(pool.pop(), Some(vec![0]));
    assert_eq!(pool.pop(), None);
}
