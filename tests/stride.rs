use core::cmp::Ordering;
use rvkernel::manager::{advance_stride, pick_stride, stride_cmp, TaskManager};

#[test]
fn stride_250_runs_before_10() {
    // 250 - 10 is 240 modulo 256, so 250 is 16 behind 10.
    assert_eq!(stride_cmp(250, 10), Ordering::Greater);
    assert_eq!(stride_cmp(10, 250), Ordering::Less);
    assert_eq!(stride_cmp(42, 42), Ordering::Equal);
}

#[test]
fn stride_difference_of_128_is_ahead() {
    assert_eq!(stride_cmp(128, 0), Ordering::Less);
    assert_eq!(stride_cmp(0, 128), Ordering::Less);
    assert_eq!(stride_cmp(129, 0), Ordering::Greater);
    assert_eq!(stride_cmp(0, 129), Ordering::Less);
}

#[test]
fn pick_takes_wrapped_stride() {
    assert_eq!(pick_stride(&vec![10, 250]), 1);
    assert_eq!(pick_stride(&vec![250, 10]), 0);
    assert_eq!(pick_stride(&vec![5, 3, 9]), 1);
    assert_eq!(pick_stride(&vec![7]), 0);
}

#[test]
fn advance_by_big_stride_over_priority() {
    assert_eq!(advance_stride(0, 16), 16);
    assert_eq!(advance_stride(250, 16), 10);
    assert_eq!(advance_stride(0, 2), 128);
    assert_eq!(advance_stride(0, 255), 1);
    // priorities below 2 count as 2
    assert_eq!(advance_stride(0, 1), 128);
    assert_eq!(advance_stride(0, 0), 128);
}

#[test]
fn ready_queue_keeps_order_and_takes() {
    let mut m = TaskManager::new();
    m.add(3);
    m.add(5);
    m.add(9);
    assert_eq!(m.len(), 3);
    assert_eq!(m.take(1), 5);
    assert_eq!(m.get(0), 3);
    assert_eq!(m.get(1), 9);
}
