use datastructures::queue::Queue;

#[test]
fn queue_fifo() {
    let mut queue = Queue::new();
    queue.enqueue(vec![0x01]);
    queue.enqueue(vec![0x02, 0x03]);
    queue.enqueue(vec![]);
    assert_eq!(queue.length(), 3);
    assert_eq!(queue.dequeue(), Some(vec![0x01]));
    assert_eq!(queue.dequeue(), Some(vec![0x02, 0x03]));
    assert_eq!(queue.dequeue(), Some(vec![]));
    assert_eq!(queue.dequeue(), None);
    assert!(queue.is_empty());
}

#[test]
fn queue_peek() {
    let mut queue = Queue::new();
    queue.enqueue(vec![0xAA]);
    queue.enqueue(vec![0xBB]);
    assert_eq!(queue.peek(), Some(vec![0xAA]));
    assert_eq!(queue.length(), 2);
    assert_eq!(queue.dequeue(), Some(vec![0xAA]));
    assert_eq!(queue.peek(), Some(vec![0xBB]));
}

#[test]
fn new_queue_holds_nothing() {
    let queue = Queue::new();
    assert_eq!(queue.length(), 0);
    assert!(queue.is_empty());
    assert_eq!(queue.peek(), None);
}

#[test]
fn dequeue_on_empty_queue_is_absent_and_leaves_it_empty() {
    let mut queue = Queue::new();
    assert_eq!(queue.dequeue(), None);
    assert_eq!(queue.length(), 0);
    assert!(queue.is_empty());
    assert_eq!(queue.dequeue(), None);
    assert!(queue.is_empty());
}

#[test]
fn peek_on_empty_queue_is_absent() {
    let mut queue = Queue::new();
    assert_eq!(queue.peek(), None);
    queue.enqueue(vec![7]);
    assert_eq!(queue.dequeue(), Some(vec![7]));
    assert_eq!(queue.peek(), None);
}

#[test]
fn buffers_leave_in_the_order_they_entered() {
    let mut queue = Queue::new();
    let mut n: u8 = 0;
    while n < 200 {
        queue.enqueue(vec![n, n.wrapping_mul(3), 255 - n]);
        n += 1;
    }
    assert_eq!(queue.length(), 200);
    let mut k: u8 = 0;
    while k < 200 {
        assert_eq!(queue.dequeue(), Some(vec![k, k.wrapping_mul(3), 255 - k]));
        k += 1;
    }
    assert_eq!(queue.dequeue(), None);
}

#[test]
fn length_is_enqueues_less_dequeues() {
    let mut queue = Queue::new();
    let mut n: u8 = 0;
    while n < 5 {
        queue.enqueue(vec![n]);
        n += 1;
    }
    assert_eq!(queue.length(), 5);
    queue.dequeue();
    queue.dequeue();
    queue.dequeue();
    assert_eq!(queue.length(), 2);
    queue.dequeue();
    queue.dequeue();
    assert_eq!(queue.length(), 0);
}

#[test]
fn more_dequeues_than_enqueues_leave_length_zero() {
    let mut queue = Queue::new();
    queue.enqueue(vec![1]);
    queue.enqueue(vec![2]);
    let mut n: u8 = 0;
    while n < 5 {
        queue.dequeue();
        n += 1;
    }
    assert_eq!(queue.length(), 0);
    assert!(queue.is_empty());
}

#[test]
fn length_after_mixed_requests() {
    let mut queue = Queue::new();
    queue.enqueue(vec![1]);
    queue.enqueue(vec![2]);
    assert_eq!(queue.dequeue(), Some(vec![1]));
    queue.enqueue(vec![3]);
    queue.enqueue(vec![4]);
    assert_eq!(queue.dequeue(), Some(vec![2]));
    assert_eq!(queue.length(), 2);
    assert_eq!(queue.dequeue(), Some(vec![3]));
    assert_eq!(queue.dequeue(), Some(vec![4]));
    assert_eq!(queue.length(), 0);
}

#[test]
fn a_dequeue_that_meets_an_empty_queue_does_not_count() {
    let mut queue = Queue::new();
    assert_eq!(queue.dequeue(), None);
    queue.enqueue(vec![9]);
    assert_eq!(queue.length(), 1);
    assert_eq!(queue.peek(), Some(vec![9]));
}

#[test]
fn is_empty_says_whether_length_is_zero() {
    let mut queue = Queue::new();
    assert_eq!(queue.is_empty(), queue.length() == 0);
    queue.enqueue(vec![]);
    assert_eq!(queue.length(), 1);
    assert!(!queue.is_empty());
    assert_eq!(queue.is_empty(), queue.length() == 0);
    queue.enqueue(vec![1, 2, 3]);
    assert_eq!(queue.is_empty(), queue.length() == 0);
    queue.dequeue();
    assert!(!queue.is_empty());
    queue.dequeue();
    assert!(queue.is_empty());
    assert_eq!(queue.is_empty(), queue.length() == 0);
}

#[test]
fn peek_shows_what_the_next_dequeue_returns() {
    let mut queue = Queue::new();
    queue.enqueue(vec![0x10, 0x20]);
    queue.enqueue(vec![0x30]);
    queue.enqueue(vec![]);
    while !queue.is_empty() {
        let before: usize = queue.length();
        let seen = queue.peek();
        assert_eq!(queue.length(), before);
        assert!(seen.is_some());
        assert_eq!(queue.peek(), seen);
        assert_eq!(queue.dequeue(), seen);
        assert_eq!(queue.length(), before - 1);
    }
}

#[test]
fn peek_hands_out_a_copy() {
    let mut queue = Queue::new();
    queue.enqueue(vec![1, 2, 3]);
    let mut seen = queue.peek().unwrap();
    seen.push(4);
    seen[0] = 9;
    assert_eq!(queue.peek(), Some(vec![1, 2, 3]));
    assert_eq!(queue.dequeue(), Some(vec![1, 2, 3]));
}

#[test]
fn every_octet_value_passes_through() {
    let mut all: Vec<u8> = Vec::new();
    let mut n: u16 = 0;
    while n < 256 {
        all.push(n as u8);
        n += 1;
    }
    let mut queue = Queue::new();
    queue.enqueue(all.clone());
    queue.enqueue(vec![0x00]);
    queue.enqueue(vec![0xFF, 0x00, 0xFF]);
    assert_eq!(queue.dequeue(), Some(all));
    assert_eq!(queue.dequeue(), Some(vec![0x00]));
    assert_eq!(queue.dequeue(), Some(vec![0xFF, 0x00, 0xFF]));
}

#[test]
fn empty_buffers_are_buffers() {
    let mut queue = Queue::new();
    queue.enqueue(vec![]);
    queue.enqueue(vec![]);
    assert_eq!(queue.length(), 2);
    assert!(!queue.is_empty());
    assert_eq!(queue.peek(), Some(vec![]));
    assert_eq!(queue.dequeue(), Some(vec![]));
    assert_eq!(queue.dequeue(), Some(vec![]));
    assert_eq!(queue.dequeue(), None);
}

#[test]
fn equal_buffers_are_held_apart() {
    let mut queue = Queue::new();
    queue.enqueue(vec![5, 5]);
    queue.enqueue(vec![5, 5]);
    queue.enqueue(vec![6]);
    assert_eq!(queue.length(), 3);
    assert_eq!(queue.dequeue(), Some(vec![5, 5]));
    assert_eq!(queue.dequeue(), Some(vec![5, 5]));
    assert_eq!(queue.dequeue(), Some(vec![6]));
}

#[test]
fn a_drained_queue_can_be_filled_again() {
    let mut queue = Queue::new();
    queue.enqueue(vec![1]);
    assert_eq!(queue.dequeue(), Some(vec![1]));
    assert!(queue.is_empty());
    queue.enqueue(vec![2]);
    queue.enqueue(vec![3]);
    assert!(!queue.is_empty());
    assert_eq!(queue.peek(), Some(vec![2]));
    assert_eq!(queue.dequeue(), Some(vec![2]));
    assert_eq!(queue.dequeue(), Some(vec![3]));
    assert!(queue.is_empty());
}

#[test]
fn two_queues_do_not_share_buffers() {
    let mut first = Queue::new();
    let mut second = Queue::new();
    first.enqueue(vec![1]);
    second.enqueue(vec![2]);
    second.enqueue(vec![3]);
    assert_eq!(first.length(), 1);
    assert_eq!(second.length(), 2);
    assert_eq!(first.dequeue(), Some(vec![1]));
    assert_eq!(first.dequeue(), None);
    assert_eq!(second.dequeue(), Some(vec![2]));
}
