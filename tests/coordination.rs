use xline_core::barrier::{IdBarrier, IndexBarrier, WaitOutcome};
use xline_core::recovery::{Recovery, RecoveryStep, Store};
use xline_core::shutdown::{ShutdownSignal, Subscription};

#[test]
fn index_wait_before_trigger_is_pending() {
    let mut b = IndexBarrier::new();
    assert_eq!(b.wait(3), WaitOutcome::Pending(0));
    assert_eq!(b.wait(5), WaitOutcome::Pending(1));
    assert_eq!(b.wait(3), WaitOutcome::Pending(2));
    assert_eq!(b.applied(), 0);
}

#[test]
fn index_trigger_wakes_only_reached_waiters() {
    let mut b = IndexBarrier::new();
    let t3 = b.wait(3);
    let t5 = b.wait(5);
    let t4 = b.wait(4);
    assert_eq!((t3, t5, t4), (WaitOutcome::Pending(0), WaitOutcome::Pending(1), WaitOutcome::Pending(2)));
    assert_eq!(b.trigger(2), Vec::<u64>::new());
    assert_eq!(b.trigger(3), vec![0]);
    assert_eq!(b.trigger(4), vec![2]);
    assert_eq!(b.trigger(5), vec![1]);
    assert_eq!(b.applied(), 5);
}

#[test]
fn index_trigger_skipping_wakes_all_earlier() {
    let mut b = IndexBarrier::new();
    b.wait(1);
    b.wait(2);
    b.wait(9);
    assert_eq!(b.trigger(7), vec![0, 1]);
    assert_eq!(b.trigger(9), vec![2]);
}

#[test]
fn index_wait_on_applied_is_ready() {
    let mut b = IndexBarrier::new();
    assert_eq!(b.wait(0), WaitOutcome::Ready);
    b.trigger(10);
    assert_eq!(b.wait(10), WaitOutcome::Ready);
    assert_eq!(b.wait(4), WaitOutcome::Ready);
    assert_eq!(b.wait(11), WaitOutcome::Pending(0));
}

#[test]
fn index_stale_trigger_changes_nothing() {
    let mut b = IndexBarrier::new();
    b.trigger(8);
    b.wait(9);
    assert_eq!(b.trigger(3), Vec::<u64>::new());
    assert_eq!(b.applied(), 8);
    assert_eq!(b.trigger(9), vec![0]);
}

#[test]
fn index_interleaved_trigger_and_wait_never_miss() {
    let mut b = IndexBarrier::new();
    let mut woken: Vec<u64> = Vec::new();
    let mut pending: Vec<u64> = Vec::new();
    for i in 1..=200u64 {
        match b.wait(i) {
            WaitOutcome::Ready => {}
            WaitOutcome::Pending(t) => pending.push(t),
        }
        if i % 2 == 0 {
            woken.extend(b.trigger(i - 1));
        }
        match b.wait(i - 1) {
            WaitOutcome::Ready => {}
            WaitOutcome::Pending(t) => pending.push(t),
        }
    }
    woken.extend(b.trigger(200));
    pending.sort();
    woken.sort();
    assert_eq!(pending, woken);
}

#[test]
fn index_cancel_removes_waiter() {
    let mut b = IndexBarrier::new();
    b.wait(4);
    b.wait(4);
    assert!(b.cancel(0));
    assert!(!b.cancel(0));
    assert!(!b.cancel(7));
    assert_eq!(b.trigger(4), vec![1]);
    assert!(b.has_free_ticket());
}

#[test]
fn id_barrier_wait_and_trigger() {
    let mut b = IdBarrier::new();
    assert_eq!(b.wait(77), WaitOutcome::Pending(0));
    assert_eq!(b.wait(88), WaitOutcome::Pending(1));
    assert_eq!(b.wait(77), WaitOutcome::Pending(2));
    assert_eq!(b.trigger(77), vec![0, 2]);
    assert!(b.is_applied(77));
    assert!(!b.is_applied(88));
    assert_eq!(b.trigger(88), vec![1]);
}

#[test]
fn id_barrier_late_waiter_is_ready() {
    let mut b = IdBarrier::new();
    assert_eq!(b.trigger(5), Vec::<u64>::new());
    assert_eq!(b.wait(5), WaitOutcome::Ready);
    assert_eq!(b.wait(6), WaitOutcome::Pending(0));
}

#[test]
fn id_barrier_duplicate_trigger_wakes_nobody() {
    let mut b = IdBarrier::new();
    b.wait(3);
    assert_eq!(b.trigger(3), vec![0]);
    b.wait(4);
    assert_eq!(b.trigger(3), Vec::<u64>::new());
    assert!(b.cancel(1));
    assert_eq!(b.trigger(4), Vec::<u64>::new());
    assert!(b.has_free_ticket());
}

#[test]
fn shutdown_wakes_each_consumer_once() {
    let mut s = ShutdownSignal::new();
    let mut tokens: Vec<u64> = Vec::new();
    for _ in 0..5 {
        match s.subscribe() {
            Subscription::Pending(t) => tokens.push(t),
            Subscription::Fired => panic!("not fired yet"),
        }
    }
    assert_eq!(tokens, vec![0, 1, 2, 3, 4]);
    assert!(!s.is_fired());
    assert_eq!(s.fire(), Some(vec![0, 1, 2, 3, 4]));
    assert!(s.is_fired());
    assert_eq!(s.fire(), None);
    assert_eq!(s.subscribe(), Subscription::Fired);
    assert!(s.has_free_token());
}

#[test]
fn shutdown_with_no_consumer() {
    let mut s = ShutdownSignal::new();
    assert_eq!(s.fire(), Some(Vec::new()));
    assert_eq!(s.fire(), None);
}

#[test]
fn recovery_runs_lease_kv_auth() {
    let mut r = Recovery::new();
    assert_eq!(r.next_step(), RecoveryStep::Recover(Store::Lease));
    assert_eq!(r.record(Store::Lease, true), RecoveryStep::Recover(Store::Kv));
    assert_eq!(r.record(Store::Kv, true), RecoveryStep::Recover(Store::Auth));
    assert_eq!(r.record(Store::Auth, true), RecoveryStep::Serve);
    assert_eq!(r.next_step(), RecoveryStep::Serve);
}

#[test]
fn recovery_kv_needs_populated_lease_store() {
    // A key-value recovery that insists on a restored lease store passes
    // when driven by the recovery plan.
    let mut lease_ready = false;
    let mut r = Recovery::new();
    loop {
        match r.next_step() {
            RecoveryStep::Recover(Store::Lease) => {
                lease_ready = true;
                r.record(Store::Lease, true);
            }
            RecoveryStep::Recover(Store::Kv) => {
                assert!(lease_ready);
                r.record(Store::Kv, true);
            }
            RecoveryStep::Recover(Store::Auth) => {
                r.record(Store::Auth, true);
            }
            RecoveryStep::Serve => break,
            RecoveryStep::Abort(_) => panic!("no failure"),
        }
    }
}

#[test]
fn recovery_failure_aborts() {
    let mut r = Recovery::new();
    r.record(Store::Lease, true);
    assert_eq!(r.record(Store::Kv, false), RecoveryStep::Abort(Store::Kv));
    assert_eq!(r.next_step(), RecoveryStep::Abort(Store::Kv));
    let mut first = Recovery::new();
    assert_eq!(first.record(Store::Lease, false), RecoveryStep::Abort(Store::Lease));
}
