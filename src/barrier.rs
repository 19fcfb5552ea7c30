use vstd::prelude::*;

verus! {

/// A suspended request: the ticket it was given and the key (an apply index
/// or a proposal id) it waits for.
#[derive(Clone, Copy, Debug, PartialEq, Eq, Structural)]
pub struct Waiter {
    pub ticket: u64,
    pub key: u64,
}

/// What a request that asks to wait should do.
#[derive(Clone, Copy, Debug, PartialEq, Eq, Structural)]
pub enum WaitOutcome {
    /// The key has already been applied: go on at once.
    Ready,
    /// Suspend until the ticket is woken.
    Pending(u64),
}

/// Tickets of the waiters whose key is done, in registration order.
pub open spec fn woken(s: Seq<Waiter>, done: spec_fn(u64) -> bool) -> Seq<u64>
    decreases s.len(),
{
    if s.len() == 0 {
        Seq::empty()
    } else if done(s.last().key) {
        woken(s.drop_last(), done).push(s.last().ticket)
    } else {
        woken(s.drop_last(), done)
    }
}

/// The waiters whose key is not done, in registration order.
pub open spec fn remaining(s: Seq<Waiter>, done: spec_fn(u64) -> bool) -> Seq<Waiter>
    decreases s.len(),
{
    if s.len() == 0 {
        Seq::empty()
    } else if done(s.last().key) {
        remaining(s.drop_last(), done)
    } else {
        remaining(s.drop_last(), done).push(s.last())
    }
}

/// The waiters other than the one holding `ticket`.
pub open spec fn without_ticket(s: Seq<Waiter>, ticket: u64) -> Seq<Waiter>
    decreases s.len(),
{
    if s.len() == 0 {
        Seq::empty()
    } else if s.last().ticket == ticket {
        without_ticket(s.drop_last(), ticket)
    } else {
        without_ticket(s.drop_last(), ticket).push(s.last())
    }
}

pub open spec fn has_ticket(s: Seq<Waiter>, ticket: u64) -> bool {
    exists|i: int| 0 <= i < s.len() && s[i].ticket == ticket
}

/// Tickets are distinct and all below `next_ticket`.
pub open spec fn tickets_ok(s: Seq<Waiter>, next_ticket: u64) -> bool {
    &&& forall|i: int| 0 <= i < s.len() ==> #[trigger] s[i].ticket < next_ticket
    &&& forall|i: int, j: int| 0 <= i < s.len() && 0 <= j < s.len() && i != j ==> s[i].ticket != s[j].ticket
}

/// Waking is sound and complete: a ticket is woken exactly when its
/// waiter's key is done, and every waiter left behind waits for a key that
/// is not done.
pub proof fn lemma_woken_exact(s: Seq<Waiter>, done: spec_fn(u64) -> bool)
    ensures
        forall|i: int| 0 <= i < s.len() && done(s[i].key) ==> woken(s, done).contains(#[trigger] s[i].ticket),
        forall|t: u64| #[trigger] woken(s, done).contains(t) ==>
            exists|i: int| 0 <= i < s.len() && s[i].ticket == t && done(s[i].key),
        forall|w: Waiter| #[trigger] remaining(s, done).contains(w) ==> s.contains(w) && !done(w.key),
        forall|i: int| 0 <= i < s.len() && !done(s[i].key) ==> remaining(s, done).contains(#[trigger] s[i]),
    decreases s.len(),
{
    if s.len() > 0 {
        let p = s.drop_last();
        lemma_woken_exact(p, done);
        assert forall|i: int| 0 <= i < s.len() && done(s[i].key) implies woken(s, done).contains(#[trigger] s[i].ticket) by {
            if i < s.len() - 1 {
                assert(p[i] == s[i]);
                let j = choose|j: int| 0 <= j < woken(p, done).len() && woken(p, done)[j] == s[i].ticket;
                assert(woken(s, done)[j] == s[i].ticket);
            } else {
                assert(woken(s, done).last() == s[i].ticket);
            }
        }
        assert forall|t: u64| #[trigger] woken(s, done).contains(t) implies
            exists|i: int| 0 <= i < s.len() && s[i].ticket == t && done(s[i].key) by {
            let j = choose|j: int| 0 <= j < woken(s, done).len() && woken(s, done)[j] == t;
            if done(s.last().key) && j == woken(s, done).len() - 1 {
                assert(s[s.len() - 1].ticket == t);
            } else {
                assert(woken(p, done)[j] == t);
                assert(woken(p, done).contains(t));
                let i = choose|i: int| 0 <= i < p.len() && p[i].ticket == t && done(p[i].key);
                assert(s[i] == p[i]);
            }
        }
        assert forall|w: Waiter| #[trigger] remaining(s, done).contains(w) implies s.contains(w) && !done(w.key) by {
            let j = choose|j: int| 0 <= j < remaining(s, done).len() && remaining(s, done)[j] == w;
            if !done(s.last().key) && j == remaining(s, done).len() - 1 {
                assert(s[s.len() - 1] == w);
            } else {
                assert(remaining(p, done)[j] == w);
                assert(remaining(p, done).contains(w));
                let i = choose|i: int| 0 <= i < p.len() && p[i] == w;
                assert(s[i] == w);
            }
        }
        assert forall|i: int| 0 <= i < s.len() && !done(s[i].key) implies remaining(s, done).contains(#[trigger] s[i]) by {
            if i < s.len() - 1 {
                assert(p[i] == s[i]);
                let j = choose|j: int| 0 <= j < remaining(p, done).len() && remaining(p, done)[j] == s[i];
                assert(remaining(s, done)[j] == s[i]);
            } else {
                assert(remaining(s, done).last() == s[i]);
            }
        }
    }
}

proof fn lemma_remaining_tickets(s: Seq<Waiter>, done: spec_fn(u64) -> bool, next_ticket: u64)
    requires
        tickets_ok(s, next_ticket),
    ensures
        tickets_ok(remaining(s, done), next_ticket),
        remaining(s, done).len() <= s.len(),
    decreases s.len(),
{
    if s.len() > 0 {
        let p = s.drop_last();
        lemma_remaining_tickets(p, done, next_ticket);
        lemma_woken_exact(p, done);
        let r = remaining(s, done);
        if !done(s.last().key) {
            assert forall|i: int| 0 <= i < r.len() - 1 implies r[i].ticket != s.last().ticket by {
                assert(remaining(p, done)[i] == r[i]);
                assert(remaining(p, done).contains(r[i]));
                let k = choose|k: int| 0 <= k < p.len() && p[k] == r[i];
                assert(s[k] == p[k]);
            }
        }
    }
}

proof fn lemma_without_ticket(s: Seq<Waiter>, ticket: u64, next_ticket: u64)
    requires
        tickets_ok(s, next_ticket),
    ensures
        tickets_ok(without_ticket(s, ticket), next_ticket),
        forall|w: Waiter| #[trigger] without_ticket(s, ticket).contains(w) <==> s.contains(w) && w.ticket != ticket,
    decreases s.len(),
{
    if s.len() > 0 {
        let p = s.drop_last();
        lemma_without_ticket(p, ticket, next_ticket);
        let r = without_ticket(s, ticket);
        assert forall|w: Waiter| #[trigger] r.contains(w) <==> s.contains(w) && w.ticket != ticket by {
            if s.contains(w) && w.ticket != ticket {
                let k = choose|k: int| 0 <= k < s.len() && s[k] == w;
                if k < s.len() - 1 {
                    assert(p[k] == w);
                    assert(p.contains(w));
                    assert(without_ticket(p, ticket).contains(w));
                    let j = choose|j: int| 0 <= j < without_ticket(p, ticket).len() && without_ticket(p, ticket)[j] == w;
                    assert(r[j] == w);
                } else {
                    assert(r.last() == w);
                }
            }
            if r.contains(w) {
                let j = choose|j: int| 0 <= j < r.len() && r[j] == w;
                if s.last().ticket != ticket && j == r.len() - 1 {
                    assert(s[s.len() - 1] == w);
                } else {
                    assert(without_ticket(p, ticket)[j] == w);
                    assert(without_ticket(p, ticket).contains(w));
                    let k = choose|k: int| 0 <= k < p.len() && p[k] == w;
                    assert(s[k] == w);
                }
            }
        }
        if s.last().ticket != ticket {
            assert forall|i: int| 0 <= i < r.len() - 1 implies r[i].ticket != s.last().ticket by {
                assert(without_ticket(p, ticket)[i] == r[i]);
                assert(without_ticket(p, ticket).contains(r[i]));
                let k = choose|k: int| 0 <= k < p.len() && p[k] == r[i];
                assert(s[k] == p[k]);
            }
        }
    }
}

/// Keys up to and including `applied`.
pub open spec fn up_to(applied: u64) -> spec_fn(u64) -> bool {
    |k: u64| k <= applied
}

/// Exactly the key `id`.
pub open spec fn equal_to(id: u64) -> spec_fn(u64) -> bool {
    |k: u64| k == id
}

pub open spec fn key_done(bound: u64, exact: bool) -> spec_fn(u64) -> bool {
    if exact {
        equal_to(bound)
    } else {
        up_to(bound)
    }
}

/// Splits the waiters into the tickets to wake and the waiters to keep.
fn split_waiters(waiting: &Vec<Waiter>, bound: u64, exact: bool) -> (r: (Vec<u64>, Vec<Waiter>))
    ensures
        r.0@ == woken(waiting@, key_done(bound, exact)),
        r.1@ == remaining(waiting@, key_done(bound, exact)),
{
    let ghost done = key_done(bound, exact);
    let mut woke: Vec<u64> = Vec::new();
    let mut rest: Vec<Waiter> = Vec::new();
    let mut i: usize = 0;
    assert(waiting@.subrange(0, 0) =~= Seq::<Waiter>::empty());
    while i < waiting.len()
        invariant
            i <= waiting@.len(),
            done == key_done(bound, exact),
            woke@ == woken(waiting@.subrange(0, i as int), done),
            rest@ == remaining(waiting@.subrange(0, i as int), done),
        decreases waiting@.len() - i,
    {
        let w = waiting[i];
        let ghost pre = waiting@.subrange(0, i as int);
        let ghost next = waiting@.subrange(0, i + 1);
        assert(next.drop_last() =~= pre);
        assert(next.last() == w);
        let hit = if exact { w.key == bound } else { w.key <= bound };
        assert(hit == done(w.key));
        if hit {
            woke.push(w.ticket);
        } else {
            rest.push(w);
        }
        i = i + 1;
    }
    assert(waiting@.subrange(0, i as int) =~= waiting@);
    (woke, rest)
}

/// Removes the waiter holding `ticket`, saying whether there was one.
fn drop_ticket(waiting: &Vec<Waiter>, ticket: u64) -> (r: (bool, Vec<Waiter>))
    ensures
        r.0 == has_ticket(waiting@, ticket),
        r.1@ == without_ticket(waiting@, ticket),
{
    let mut found = false;
    let mut rest: Vec<Waiter> = Vec::new();
    let mut i: usize = 0;
    assert(waiting@.subrange(0, 0) =~= Seq::<Waiter>::empty());
    while i < waiting.len()
        invariant
            i <= waiting@.len(),
            found == has_ticket(waiting@.subrange(0, i as int), ticket),
            rest@ == without_ticket(waiting@.subrange(0, i as int), ticket),
        decreases waiting@.len() - i,
    {
        let w = waiting[i];
        let ghost pre = waiting@.subrange(0, i as int);
        let ghost next = waiting@.subrange(0, i + 1);
        assert(next.drop_last() =~= pre);
        assert(next.last() == w);
        if w.ticket == ticket {
            found = true;
            assert(next[i as int].ticket == ticket);
        } else {
            rest.push(w);
            proof {
                if has_ticket(next, ticket) {
                    let k = choose|k: int| 0 <= k < next.len() && next[k].ticket == ticket;
                    assert(pre[k].ticket == ticket);
                }
            }
        }
        proof {
            if found && has_ticket(pre, ticket) {
                let k = choose|k: int| 0 <= k < pre.len() && pre[k].ticket == ticket;
                assert(next[k].ticket == ticket);
            }
        }
        i = i + 1;
    }
    assert(waiting@.subrange(0, i as int) =~= waiting@);
    (found, rest)
}

/// The abstract state of an index barrier.
pub struct IndexBarrierView {
    /// Highest apply index triggered so far.
    pub applied: u64,
    /// The ticket the next suspended request gets.
    pub next_ticket: u64,
    /// Suspended requests, in registration order.
    pub waiting: Seq<Waiter>,
}

/// Lets a request wait until local apply has reached an index.
pub struct IndexBarrier {
    applied: u64,
    next_ticket: u64,
    waiting: Vec<Waiter>,
}

impl View for IndexBarrier {
    type V = IndexBarrierView;

    closed spec fn view(&self) -> IndexBarrierView {
        IndexBarrierView { applied: self.applied, next_ticket: self.next_ticket, waiting: self.waiting@ }
    }
}

impl IndexBarrierView {
    /// Tickets are distinct, and nobody waits for an index already applied.
    pub open spec fn wf(self) -> bool {
        &&& tickets_ok(self.waiting, self.next_ticket)
        &&& forall|i: int| 0 <= i < self.waiting.len() ==> #[trigger] self.waiting[i].key > self.applied
    }
}

impl IndexBarrier {
    /// A barrier at apply index zero with nobody waiting.
    pub fn new() -> (r: IndexBarrier)
        ensures
            r@.wf(),
            r@.applied == 0,
            r@.next_ticket == 0,
            r@.waiting == Seq::<Waiter>::empty(),
    {
        IndexBarrier { applied: 0, next_ticket: 0, waiting: Vec::new() }
    }

    /// Highest apply index triggered so far.
    pub fn applied(&self) -> (r: u64)
        ensures
            r == self@.applied,
    {
        self.applied
    }

    /// Whether another request can still be given a ticket.
    pub fn has_free_ticket(&self) -> (r: bool)
        ensures
            r == (self@.next_ticket < u64::MAX),
    {
        self.next_ticket < u64::MAX
    }

    /// Asks to wait for `index`. An index already applied is ready at once;
    /// otherwise the request is registered under a fresh ticket. The check
    /// and the registration are one step, so no trigger can fall between them.
    pub fn wait(&mut self, index: u64) -> (r: WaitOutcome)
        requires
            old(self)@.wf(),
            old(self)@.next_ticket < u64::MAX,
        ensures
            final(self)@.wf(),
            index <= old(self)@.applied ==> r == WaitOutcome::Ready && final(self)@ == old(self)@,
            index > old(self)@.applied ==> r == WaitOutcome::Pending(old(self)@.next_ticket)
                && final(self)@ == (IndexBarrierView {
                    applied: old(self)@.applied,
                    next_ticket: (old(self)@.next_ticket + 1) as u64,
                    waiting: old(self)@.waiting.push(Waiter { ticket: old(self)@.next_ticket, key: index }),
                }),
    {
        if index <= self.applied {
            WaitOutcome::Ready
        } else {
            let ticket = self.next_ticket;
            self.waiting.push(Waiter { ticket, key: index });
            self.next_ticket = ticket + 1;
            WaitOutcome::Pending(ticket)
        }
    }

    /// Records that local apply has reached `index` and returns the tickets
    /// to wake: those of every request waiting for an index up to the new
    /// applied index, in registration order. A stale index changes nothing.
    pub fn trigger(&mut self, index: u64) -> (r: Vec<u64>)
        requires
            old(self)@.wf(),
        ensures
            final(self)@.wf(),
            final(self)@.applied == if index > old(self)@.applied { index } else { old(self)@.applied },
            final(self)@.next_ticket == old(self)@.next_ticket,
            r@ == woken(old(self)@.waiting, up_to(final(self)@.applied)),
            final(self)@.waiting == remaining(old(self)@.waiting, up_to(final(self)@.applied)),
    {
        let a = if index > self.applied { index } else { self.applied };
        let (woke, rest) = split_waiters(&self.waiting, a, false);
        proof {
            lemma_woken_exact(self.waiting@, up_to(a));
            lemma_remaining_tickets(self.waiting@, up_to(a), self.next_ticket);
            let r = rest@;
            assert forall|i: int| 0 <= i < r.len() implies #[trigger] r[i].key > a by {
                assert(r.contains(r[i]));
            }
        }
        self.applied = a;
        self.waiting = rest;
        woke
    }

    /// Withdraws the request holding `ticket` (its caller gave up), saying
    /// whether it was still waiting.
    pub fn cancel(&mut self, ticket: u64) -> (r: bool)
        requires
            old(self)@.wf(),
        ensures
            final(self)@.wf(),
            r == has_ticket(old(self)@.waiting, ticket),
            final(self)@.applied == old(self)@.applied,
            final(self)@.next_ticket == old(self)@.next_ticket,
            final(self)@.waiting == without_ticket(old(self)@.waiting, ticket),
    {
        let (found, rest) = drop_ticket(&self.waiting, ticket);
        proof {
            lemma_without_ticket(self.waiting@, ticket, self.next_ticket);
            let r = rest@;
            assert forall|i: int| 0 <= i < r.len() implies #[trigger] r[i].key > self.applied by {
                assert(r.contains(r[i]));
                let k = choose|k: int| 0 <= k < self.waiting@.len() && self.waiting@[k] == r[i];
            }
        }
        self.waiting = rest;
        found
    }
}

/// A trigger of apply index `applied` wakes a waiter exactly when the index
/// it waits for is at most `applied`, and keeps only waiters for later
/// indexes: no waiter resumes before its index is applied, and none that
/// is due is left behind.
pub proof fn lemma_index_trigger_exact(waiting: Seq<Waiter>, applied: u64)
    ensures
        forall|i: int| 0 <= i < waiting.len() && waiting[i].key <= applied
            ==> woken(waiting, up_to(applied)).contains(#[trigger] waiting[i].ticket),
        forall|t: u64| #[trigger] woken(waiting, up_to(applied)).contains(t)
            ==> exists|i: int| 0 <= i < waiting.len() && waiting[i].ticket == t && waiting[i].key <= applied,
        forall|w: Waiter| #[trigger] remaining(waiting, up_to(applied)).contains(w) ==> w.key > applied,
{
    lemma_woken_exact(waiting, up_to(applied));
}

/// The abstract state of an id barrier.
pub struct IdBarrierView {
    /// Proposal ids triggered so far.
    pub applied: Set<u64>,
    /// The ticket the next suspended request gets.
    pub next_ticket: u64,
    /// Suspended requests, in registration order.
    pub waiting: Seq<Waiter>,
}

/// Lets a request wait until a given proposal has been applied locally.
pub struct IdBarrier {
    applied: Vec<u64>,
    next_ticket: u64,
    waiting: Vec<Waiter>,
}

impl View for IdBarrier {
    type V = IdBarrierView;

    closed spec fn view(&self) -> IdBarrierView {
        IdBarrierView { applied: self.applied@.to_set(), next_ticket: self.next_ticket, waiting: self.waiting@ }
    }
}

impl IdBarrierView {
    /// Tickets are distinct, and nobody waits for an id already applied.
    pub open spec fn wf(self) -> bool {
        &&& tickets_ok(self.waiting, self.next_ticket)
        &&& forall|i: int| 0 <= i < self.waiting.len() ==> !self.applied.contains(#[trigger] self.waiting[i].key)
    }
}

impl IdBarrier {
    /// A barrier with no id applied and nobody waiting.
    pub fn new() -> (r: IdBarrier)
        ensures
            r@.wf(),
            r@.applied == Set::<u64>::empty(),
            r@.next_ticket == 0,
            r@.waiting == Seq::<Waiter>::empty(),
    {
        let r = IdBarrier { applied: Vec::new(), next_ticket: 0, waiting: Vec::new() };
        assert(r@.applied =~= Set::<u64>::empty());
        r
    }

    /// Whether another request can still be given a ticket.
    pub fn has_free_ticket(&self) -> (r: bool)
        ensures
            r == (self@.next_ticket < u64::MAX),
    {
        self.next_ticket < u64::MAX
    }

    /// Whether the proposal `id` has been applied.
    pub fn is_applied(&self, id: u64) -> (r: bool)
        ensures
            r == self@.applied.contains(id),
    {
        let mut i: usize = 0;
        while i < self.applied.len()
            invariant
                i <= self.applied@.len(),
                forall|k: int| 0 <= k < i ==> self.applied@[k] != id,
            decreases self.applied@.len() - i,
        {
            if self.applied[i] == id {
                assert(self.applied@.contains(id));
                return true;
            }
            i = i + 1;
        }
        false
    }

    /// Asks to wait for the proposal `id`. An id already applied is ready
    /// at once; otherwise the request is registered under a fresh ticket.
    pub fn wait(&mut self, id: u64) -> (r: WaitOutcome)
        requires
            old(self)@.wf(),
            old(self)@.next_ticket < u64::MAX,
        ensures
            final(self)@.wf(),
            old(self)@.applied.contains(id) ==> r == WaitOutcome::Ready && final(self)@ == old(self)@,
            !old(self)@.applied.contains(id) ==> r == WaitOutcome::Pending(old(self)@.next_ticket)
                && final(self)@ == (IdBarrierView {
                    applied: old(self)@.applied,
                    next_ticket: (old(self)@.next_ticket + 1) as u64,
                    waiting: old(self)@.waiting.push(Waiter { ticket: old(self)@.next_ticket, key: id }),
                }),
    {
        if self.is_applied(id) {
            WaitOutcome::Ready
        } else {
            let ticket = self.next_ticket;
            self.waiting.push(Waiter { ticket, key: id });
            self.next_ticket = ticket + 1;
            WaitOutcome::Pending(ticket)
        }
    }

    /// Records that the proposal `id` has been applied and returns the
    /// tickets of the requests waiting for it, in registration order. An id
    /// triggered before changes nothing and wakes nobody.
    pub fn trigger(&mut self, id: u64) -> (r: Vec<u64>)
        requires
            old(self)@.wf(),
        ensures
            final(self)@.wf(),
            final(self)@.applied == old(self)@.applied.insert(id),
            final(self)@.next_ticket == old(self)@.next_ticket,
            old(self)@.applied.contains(id) ==> r@ == Seq::<u64>::empty() && final(self)@ == old(self)@,
            !old(self)@.applied.contains(id) ==> r@ == woken(old(self)@.waiting, equal_to(id))
                && final(self)@.waiting == remaining(old(self)@.waiting, equal_to(id)),
    {
        if self.is_applied(id) {
            assert(self@.applied.insert(id) =~= self@.applied);
            return Vec::new();
        }
        let (woke, rest) = split_waiters(&self.waiting, id, true);
        let ghost before = self@;
        proof {
            lemma_woken_exact(self.waiting@, equal_to(id));
            lemma_remaining_tickets(self.waiting@, equal_to(id), self.next_ticket);
        }
        self.applied.push(id);
        self.waiting = rest;
        proof {
            assert(self.applied@.to_set() =~= before.applied.insert(id)) by {
                broadcast use vstd::seq_lib::group_seq_properties;
            }
            let r = rest@;
            assert forall|i: int| 0 <= i < r.len() implies !self@.applied.contains(#[trigger] r[i].key) by {
                assert(r.contains(r[i]));
                let k = choose|k: int| 0 <= k < before.waiting.len() && before.waiting[k] == r[i];
            }
        }
        woke
    }

    /// Withdraws the request holding `ticket`, saying whether it was still
    /// waiting.
    pub fn cancel(&mut self, ticket: u64) -> (r: bool)
        requires
            old(self)@.wf(),
        ensures
            final(self)@.wf(),
            r == has_ticket(old(self)@.waiting, ticket),
            final(self)@.applied == old(self)@.applied,
            final(self)@.next_ticket == old(self)@.next_ticket,
            final(self)@.waiting == without_ticket(old(self)@.waiting, ticket),
    {
        let (found, rest) = drop_ticket(&self.waiting, ticket);
        proof {
            lemma_without_ticket(self.waiting@, ticket, self.next_ticket);
            let r = rest@;
            assert forall|i: int| 0 <= i < r.len() implies !self@.applied.contains(#[trigger] r[i].key) by {
                assert(r.contains(r[i]));
                let k = choose|k: int| 0 <= k < self.waiting@.len() && self.waiting@[k] == r[i];
            }
        }
        self.waiting = rest;
        found
    }
}

} // verus!
