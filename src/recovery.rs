use vstd::prelude::*;

verus! {

/// A storage engine that is restored at startup.
#[derive(Clone, Copy, Debug, PartialEq, Eq, Structural)]
pub enum Store {
    Lease,
    Kv,
    Auth,
}

/// What startup should do next.
#[derive(Clone, Copy, Debug, PartialEq, Eq, Structural)]
pub enum RecoveryStep {
    /// Restore this store from its persisted state.
    Recover(Store),
    /// Every store is restored: the node may serve.
    Serve,
    /// A store could not be restored: the node must not start.
    Abort(Store),
}

/// The fixed order of recovery: leases first, since key-value recovery
/// attaches keys to leases, then key-value, then auth.
pub open spec fn recovery_order() -> Seq<Store> {
    seq![Store::Lease, Store::Kv, Store::Auth]
}

/// The abstract state of startup recovery.
pub struct RecoveryView {
    /// Stores restored so far, in order.
    pub recovered: Seq<Store>,
    /// The store whose recovery failed, if any.
    pub failed: Option<Store>,
}

impl RecoveryView {
    pub open spec fn wf(self) -> bool {
        &&& self.recovered.len() <= 3
        &&& self.recovered == recovery_order().take(self.recovered.len() as int)
        &&& (self.failed matches Some(s) ==> self.recovered.len() < 3 && s == recovery_order()[self.recovered.len() as int])
    }

    /// The step that follows this state.
    pub open spec fn next(self) -> RecoveryStep {
        match self.failed {
            Some(s) => RecoveryStep::Abort(s),
            None => if self.recovered.len() < 3 {
                RecoveryStep::Recover(recovery_order()[self.recovered.len() as int])
            } else {
                RecoveryStep::Serve
            },
        }
    }
}

/// Drives the restoration of the storage engines in their fixed order.
pub struct Recovery {
    done: usize,
    failed: Option<Store>,
}

impl View for Recovery {
    type V = RecoveryView;

    closed spec fn view(&self) -> RecoveryView {
        RecoveryView { recovered: recovery_order().take(if self.done <= 3 { self.done as int } else { 3 }), failed: self.failed }
    }
}

/// The store recovered at position `i` of the order.
fn store_at(i: usize) -> (r: Store)
    requires
        i < 3,
    ensures
        r == recovery_order()[i as int],
{
    if i == 0 {
        Store::Lease
    } else if i == 1 {
        Store::Kv
    } else {
        Store::Auth
    }
}

impl Recovery {
    pub closed spec fn inv(&self) -> bool {
        &&& self.done <= 3
        &&& (self.failed matches Some(s) ==> self.done < 3 && s == recovery_order()[self.done as int])
    }

    /// Nothing restored yet.
    pub fn new() -> (r: Recovery)
        ensures
            r.inv(),
            r@.wf(),
            r@.recovered == Seq::<Store>::empty(),
            r@.failed is None,
    {
        let r = Recovery { done: 0, failed: None };
        assert(r@.recovered =~= Seq::<Store>::empty());
        r
    }

    /// The step to take now.
    pub fn next_step(&self) -> (r: RecoveryStep)
        requires
            self.inv(),
        ensures
            r == self@.next(),
    {
        match self.failed {
            Some(s) => RecoveryStep::Abort(s),
            None => if self.done < 3 {
                RecoveryStep::Recover(store_at(self.done))
            } else {
                RecoveryStep::Serve
            },
        }
    }

    /// Records the outcome of restoring `store`, which must be the store
    /// that `next_step` named, and returns the step that follows.
    pub fn record(&mut self, store: Store, ok: bool) -> (r: RecoveryStep)
        requires
            old(self).inv(),
            old(self)@.next() == RecoveryStep::Recover(store),
        ensures
            final(self).inv(),
            final(self)@.wf(),
            ok ==> final(self)@.recovered == old(self)@.recovered.push(store) && final(self)@.failed is None,
            !ok ==> final(self)@.recovered == old(self)@.recovered && final(self)@.failed == Some(store),
            r == final(self)@.next(),
    {
        if ok {
            let ghost before = self@.recovered;
            self.done = self.done + 1;
            assert(self@.recovered =~= before.push(store));
        } else {
            self.failed = Some(store);
        }
        self.next_step()
    }
}

/// Recovery keeps its order: key-value recovery is only ever the next step
/// once lease recovery has succeeded, auth only once both others have, the
/// node serves only once all three are restored, and a failure is final.
pub proof fn lemma_recovery_order(r: RecoveryView)
    requires
        r.wf(),
    ensures
        r.next() == RecoveryStep::Recover(Store::Kv) ==> r.recovered == seq![Store::Lease],
        r.next() == RecoveryStep::Recover(Store::Auth) ==> r.recovered == seq![Store::Lease, Store::Kv],
        r.next() == RecoveryStep::Serve ==> r.recovered == recovery_order(),
        r.failed is Some ==> r.next() is Abort,
{
    if r.recovered.len() == 1 {
        assert(r.recovered =~= seq![Store::Lease]);
    } else if r.recovered.len() == 2 {
        assert(r.recovered =~= seq![Store::Lease, Store::Kv]);
    } else if r.recovered.len() == 3 {
        assert(r.recovered =~= recovery_order());
    }
}

} // verus!
