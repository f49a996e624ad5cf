use pyruvate::pool::WorkerPool;

#[test]
fn round_robin_assignment() {
    let mut pool = WorkerPool::new(2);
    assert_eq!(pool.assign(10), 0);
    assert_eq!(pool.assign(11), 1);
    assert_eq!(pool.assign(12), 0);
    assert_eq!(pool.queued(0), 2);
    assert_eq!(pool.queued(1), 1);
}

#[test]
fn saturation_two_workers_three_slow_callbacks() {
    // pool-saturation scenario: worker count 2, three connections whose
    // callbacks all block; at most two execute at once
    let mut pool = WorkerPool::new(2);
    pool.assign(1);
    pool.assign(2);
    pool.assign(3);

    // both shards begin their first dispatch
    assert_eq!(pool.start_next(0), Some(1));
    assert_eq!(pool.start_next(1), Some(2));
    assert_eq!(pool.busy_workers(), 2);

    // the third connection was accepted but its dispatch is deferred:
    // its shard is still executing
    assert_eq!(pool.start_next(0), None);
    assert_eq!(pool.queued(0), 1);

    // the other shard finishes and keeps serving its own connections
    pool.finish(1);
    assert_eq!(pool.busy_workers(), 1);
    pool.assign(4);
    assert_eq!(pool.start_next(1), Some(4));
    assert_eq!(pool.busy_workers(), 2);

    // only when shard 0 frees up does the deferred dispatch start
    pool.finish(0);
    assert_eq!(pool.start_next(0), Some(3));
    assert_eq!(pool.busy_workers(), 2);
}

#[test]
fn idle_shard_with_empty_queue_starts_nothing() {
    let mut pool = WorkerPool::new(3);
    assert_eq!(pool.start_next(2), None);
    assert_eq!(pool.busy_workers(), 0);
}

#[test]
fn drain_stops_accepting() {
    let mut pool = WorkerPool::new(2);
    assert!(pool.accepting());
    pool.assign(1);
    pool.begin_drain();
    assert!(!pool.accepting());
    // in-flight work still finishes
    assert_eq!(pool.start_next(0), Some(1));
    pool.finish(0);
    assert_eq!(pool.busy_workers(), 0);
}
