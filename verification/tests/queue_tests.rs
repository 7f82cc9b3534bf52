use microbit_telemetry::queue::{ByteQueue, CAPACITY};

#[test]
fn push_reports_accepted_prefix() {
    let mut q = ByteQueue::new();
    assert_eq!(q.push(b"abc"), 3);
    assert_eq!(q.len(), 3);
}

#[test]
fn push_beyond_capacity_keeps_prefix_and_reports_overflow() {
    let mut q = ByteQueue::new();
    let big = vec![b'x'; 2000];
    let accepted = q.push(&big);
    assert_eq!(accepted, CAPACITY);
    assert_eq!(q.len(), CAPACITY);
    // A further push accepts nothing.
    assert_eq!(q.push(b"y"), 0);
    assert_eq!(q.len(), CAPACITY);
}

#[test]
fn reset_is_idempotent_and_total() {
    let mut q = ByteQueue::new();
    q.push(b"leftover");
    q.reset();
    assert_eq!(q.len(), 0);
    q.reset();
    assert_eq!(q.len(), 0);
    q.reset();
    assert_eq!(q.len(), 0);
}

#[test]
fn pop_all_drains_in_fifo_order() {
    let mut q = ByteQueue::new();
    q.push(b"ab");
    q.push(b"cd");
    let out = q.pop_all(CAPACITY);
    assert_eq!(out, b"abcd".to_vec());
    assert_eq!(q.len(), 0);
}

#[test]
fn pop_all_respects_the_limit() {
    let mut q = ByteQueue::new();
    q.push(b"abcd");
    let out = q.pop_all(3);
    assert_eq!(out, b"abc".to_vec());
    assert_eq!(q.len(), 1);
    assert_eq!(q.pop_all(10), b"d".to_vec());
}

#[test]
fn push_from_skips_the_prefix() {
    let mut q = ByteQueue::new();
    assert_eq!(q.push_from(b"abcdef", 4), 2);
    let out = q.pop_all(CAPACITY);
    assert_eq!(out, b"ef".to_vec());
}
