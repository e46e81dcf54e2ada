use mapscrape::pool::{GetStep, ObjectPoolInner};

#[test]
fn grants_free_workers_up_to_capacity() {
    let mut pool: ObjectPoolInner<u64> = ObjectPoolInner::new(vec![7, 8]);
    let a = match pool.try_get() {
        GetStep::Granted(w) => w,
        _ => panic!("expected a worker"),
    };
    let b = match pool.try_get() {
        GetStep::Granted(w) => w,
        _ => panic!("expected a worker"),
    };
    assert!(a != b);
    // the third caller has to wait
    assert!(matches!(pool.try_get(), GetStep::Enqueued(_)));
}

#[test]
fn second_lease_on_capacity_one_waits_and_release_unblocks_it() {
    let mut pool: ObjectPoolInner<u64> = ObjectPoolInner::new(vec![7]);
    let w = match pool.try_get() {
        GetStep::Granted(w) => w,
        _ => panic!("expected a worker"),
    };
    let ticket = match pool.try_get() {
        GetStep::Enqueued(t) => t,
        _ => panic!("expected to wait"),
    };
    // nothing deposited yet
    assert_eq!(pool.recv(ticket), None);
    // dropping the first lease hands the worker straight to the waiter
    pool.return_object(w);
    assert_eq!(pool.recv(ticket), Some(7));
}

#[test]
fn waiters_are_served_fifo() {
    let mut pool: ObjectPoolInner<u64> = ObjectPoolInner::new(vec![9]);
    let w = match pool.try_get() {
        GetStep::Granted(w) => w,
        _ => panic!("expected a worker"),
    };
    let first = match pool.try_get() {
        GetStep::Enqueued(t) => t,
        _ => panic!("expected to wait"),
    };
    let second = match pool.try_get() {
        GetStep::Enqueued(t) => t,
        _ => panic!("expected to wait"),
    };
    pool.return_object(w);
    // the earlier waiter receives the one released worker
    assert_eq!(pool.recv(second), None);
    assert_eq!(pool.recv(first), Some(9));
}

#[test]
fn cancelled_waiter_leaves_the_queue() {
    let mut pool: ObjectPoolInner<u64> = ObjectPoolInner::new(vec![1]);
    let w = match pool.try_get() {
        GetStep::Granted(w) => w,
        _ => panic!("expected a worker"),
    };
    let t1 = match pool.try_get() {
        GetStep::Enqueued(t) => t,
        _ => panic!("expected to wait"),
    };
    let t2 = match pool.try_get() {
        GetStep::Enqueued(t) => t,
        _ => panic!("expected to wait"),
    };
    assert!(pool.waiting_contains(t1));
    pool.cancel(t1);
    assert!(!pool.waiting_contains(t1));
    // the release now goes to the remaining waiter
    pool.return_object(w);
    assert_eq!(pool.recv(t1), None);
    assert_eq!(pool.recv(t2), Some(1));
}

#[test]
fn cancelling_a_waiter_that_was_already_handed_a_worker_returns_it() {
    let mut pool: ObjectPoolInner<u64> = ObjectPoolInner::new(vec![5]);
    let w = match pool.try_get() {
        GetStep::Granted(w) => w,
        _ => panic!("expected a worker"),
    };
    let t = match pool.try_get() {
        GetStep::Enqueued(t) => t,
        _ => panic!("expected to wait"),
    };
    pool.return_object(w);
    // the worker now sits in the waiter's slot, unobserved; abandoning the
    // waiter must route it back into the pool, not leak it
    pool.cancel(t);
    assert_eq!(pool.recv(t), None);
    assert!(matches!(pool.try_get(), GetStep::Granted(5)));
}

#[test]
fn lease_after_close_fails_with_pool_closed() {
    let mut pool: ObjectPoolInner<u64> = ObjectPoolInner::new(vec![2]);
    let (free, tickets) = pool.close();
    assert_eq!(free, vec![2]);
    assert_eq!(tickets.len(), 0);
    assert!(matches!(pool.try_get(), GetStep::Closed));
}

#[test]
fn close_shuts_down_every_worker_exactly_once() {
    let mut pool: ObjectPoolInner<u64> = ObjectPoolInner::new(vec![3, 4]);
    let leased = match pool.try_get() {
        GetStep::Granted(w) => w,
        _ => panic!("expected a worker"),
    };
    let (free, tickets) = pool.close();
    // one worker was free and is handed out at once; one drain ticket stands
    // for the leased worker
    assert_eq!(free.len(), 1);
    assert_eq!(tickets.len(), 1);
    assert_eq!(free.len() + tickets.len(), 2);
    // the drain ticket is served once the lease drops
    assert_eq!(pool.recv(tickets[0]), None);
    pool.return_object(leased);
    let drained = pool.recv(tickets[0]);
    assert_eq!(drained, Some(leased));
    let mut shut_down = free;
    shut_down.push(drained.unwrap());
    shut_down.sort();
    assert_eq!(shut_down, vec![3, 4]);
}

#[test]
fn close_abandons_queued_waiters() {
    let mut pool: ObjectPoolInner<u64> = ObjectPoolInner::new(vec![6]);
    let _w = match pool.try_get() {
        GetStep::Granted(w) => w,
        _ => panic!("expected a worker"),
    };
    let t = match pool.try_get() {
        GetStep::Enqueued(t) => t,
        _ => panic!("expected to wait"),
    };
    let (_, tickets) = pool.close();
    assert_eq!(tickets.len(), 1);
    // the waiter is no longer queued and has no deposit: it sees PoolClosed
    assert!(!pool.waiting_contains(t));
    assert_eq!(pool.recv(t), None);
}
