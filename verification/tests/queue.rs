use pqueue::PriorityQueue;
use pqueue::PriorityQueueImpl;

#[test]
fn it_works() {
    let mut queue = PriorityQueueImpl::new();
    assert!(queue.is_empty());

    queue.insert(vec![0], 5).unwrap();
    assert!(!queue.is_empty());
    assert_eq!(queue.peek(), Some(vec![0]));

    queue.insert(vec![1], 10).unwrap();
    queue.insert(vec![2], 3).unwrap();
    queue.insert(vec![3], 4).unwrap();
    queue.insert(vec![4], 6).unwrap();

    assert_eq!(queue.pop(), Some(vec![1]));
    assert_eq!(queue.pop(), Some(vec![4]));
    assert_eq!(queue.pop(), Some(vec![0]));
    assert_eq!(queue.pop(), Some(vec![3]));
    assert_eq!(queue.pop(), Some(vec![2]));

    assert!(queue.is_empty());
    assert_eq!(queue.peek(), None);
}

#[test]
fn large_number() {
    let mut queue = PriorityQueueImpl::new();
    queue.insert(vec![10], 10000).unwrap();
    queue.insert(vec![5], 25000).unwrap();
    queue.insert(vec![0], 0).unwrap();
    assert_eq!(queue.peek(), Some(vec![5]));
}

#[test]
fn key_is_zero() {
    let mut queue = PriorityQueueImpl::new();
    queue.insert(vec![10, 3], 0).unwrap();
    assert_eq!(queue.peek(), Some(vec![10, 3]));
    assert_eq!(queue.pop(), Some(vec![10, 3]));
    assert_eq!(queue.pop(), None);
    assert!(queue.is_empty());
}

#[test]
fn key_with_multiple_elements() {
    let mut queue = PriorityQueueImpl::new();
    queue.insert(vec![10; 5], 10).unwrap();
    queue.insert(vec![5], 10).unwrap();
    queue.insert(vec![100; 20], 10).unwrap();
    assert_eq!(queue.pop(), Some(vec![10; 5]));
    assert_eq!(queue.pop(), Some(vec![5]));
    assert_eq!(queue.pop(), Some(vec![100; 20]));
    assert!(queue.is_empty());
}

#[test]
fn element_empty_vec() {
    let mut queue = PriorityQueueImpl::new();
    queue.insert(Vec::new(), 10).unwrap();
    queue.insert(Vec::new(), 10).unwrap();
    assert_eq!(queue.peek(), Some(vec![]));
    assert_eq!(queue.pop(), Some(vec![]));
    assert_eq!(queue.peek(), Some(vec![]));
    assert_eq!(queue.pop(), Some(vec![]));
    assert_eq!(queue.pop(), None);
    assert!(queue.is_empty());
}

#[test]
fn empty_queue_gives_nothing() {
    let mut queue = PriorityQueueImpl::new();
    assert_eq!(queue.peek(), None);
    assert_eq!(queue.pop(), None);
    assert!(queue.is_empty());
}

#[test]
fn peek_is_idempotent() {
    let mut queue = PriorityQueueImpl::new();
    queue.insert(vec![7, 8], 3).unwrap();
    queue.insert(vec![9], 12).unwrap();
    let first = queue.peek();
    let second = queue.peek();
    assert_eq!(first, Some(vec![9]));
    assert_eq!(first, second);
    assert_eq!(queue.pop(), Some(vec![9]));
    assert_eq!(queue.pop(), Some(vec![7, 8]));
}

#[test]
fn distinct_priorities_pop_in_descending_order() {
    let mut queue = PriorityQueueImpl::new();
    let priorities: [u64; 7] = [3, 19, 1, 250, 7, 90, 42];
    for p in priorities {
        queue.insert(vec![p as u8], p).unwrap();
    }
    let mut expected: Vec<u64> = priorities.to_vec();
    expected.sort();
    expected.reverse();
    for p in expected {
        assert_eq!(queue.pop(), Some(vec![p as u8]));
    }
    assert!(queue.is_empty());
}

#[test]
fn shared_priority_pops_first_in_first_out() {
    let mut queue = PriorityQueueImpl::new();
    queue.insert(vec![1], 10).unwrap();
    queue.insert(vec![2], 10).unwrap();
    queue.insert(vec![3], 10).unwrap();
    assert_eq!(queue.pop(), Some(vec![1]));
    assert_eq!(queue.pop(), Some(vec![2]));
    assert_eq!(queue.pop(), Some(vec![3]));
    assert!(queue.is_empty());
}

#[test]
fn payload_boundary() {
    let mut queue = PriorityQueueImpl::new();
    queue.insert(vec![42; 255], 1).unwrap();
    assert_eq!(queue.peek(), Some(vec![42; 255]));

    let err = queue.insert(vec![42; 256], 2);
    assert_eq!(err, Err(pqueue::QueueError::PayloadTooLarge));
    // the failed insert left the queue unchanged
    assert_eq!(queue.pop(), Some(vec![42; 255]));
    assert!(queue.is_empty());

    queue.insert(Vec::new(), 3).unwrap();
    assert_eq!(queue.pop(), Some(vec![]));
}

#[test]
fn mixed_tiers_interleaved_with_pops() {
    let mut queue = PriorityQueueImpl::new();
    queue.insert(vec![1], 5).unwrap();
    queue.insert(vec![2], 5).unwrap();
    queue.insert(vec![3], 9).unwrap();
    assert_eq!(queue.pop(), Some(vec![3]));
    queue.insert(vec![4], 9).unwrap();
    assert_eq!(queue.pop(), Some(vec![4]));
    assert_eq!(queue.pop(), Some(vec![1]));
    queue.insert(vec![5], 0).unwrap();
    assert_eq!(queue.pop(), Some(vec![2]));
    assert_eq!(queue.pop(), Some(vec![5]));
    assert_eq!(queue.pop(), None);
}
