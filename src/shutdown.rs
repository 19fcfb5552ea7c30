use vstd::prelude::*;

verus! {

/// What a consumer that subscribes to the shutdown signal should do.
#[derive(Clone, Copy, Debug, PartialEq, Eq, Structural)]
pub enum Subscription {
    /// Run, and stop when this token is woken.
    Pending(u64),
    /// Shutdown has already been signalled: stop now.
    Fired,
}

/// The abstract state of the shutdown signal.
pub struct ShutdownView {
    pub fired: bool,
    pub next_token: u64,
    /// Consumers still waiting for the signal, in subscription order.
    pub subscribers: Seq<u64>,
}

impl ShutdownView {
    /// Tokens are distinct and below `next_token`; once fired, nobody waits.
    pub open spec fn wf(self) -> bool {
        &&& self.subscribers.no_duplicates()
        &&& forall|i: int| 0 <= i < self.subscribers.len() ==> #[trigger] self.subscribers[i] < self.next_token
        &&& self.fired ==> self.subscribers.len() == 0
    }
}

/// A one-shot broadcast that tells background consumers to stop.
pub struct ShutdownSignal {
    fired: bool,
    next_token: u64,
    subscribers: Vec<u64>,
}

impl View for ShutdownSignal {
    type V = ShutdownView;

    closed spec fn view(&self) -> ShutdownView {
        ShutdownView { fired: self.fired, next_token: self.next_token, subscribers: self.subscribers@ }
    }
}

impl ShutdownSignal {
    /// A signal not yet fired, with no consumer.
    pub fn new() -> (r: ShutdownSignal)
        ensures
            r@.wf(),
            !r@.fired,
            r@.next_token == 0,
            r@.subscribers == Seq::<u64>::empty(),
    {
        ShutdownSignal { fired: false, next_token: 0, subscribers: Vec::new() }
    }

    /// Whether the signal has been fired.
    pub fn is_fired(&self) -> (r: bool)
        ensures
            r == self@.fired,
    {
        self.fired
    }

    /// Whether another consumer can still be given a token.
    pub fn has_free_token(&self) -> (r: bool)
        ensures
            r == (self@.next_token < u64::MAX),
    {
        self.next_token < u64::MAX
    }

    /// Registers a consumer. Before the signal fires it gets a fresh token;
    /// after, it is told to stop at once.
    pub fn subscribe(&mut self) -> (r: Subscription)
        requires
            old(self)@.wf(),
            old(self)@.next_token < u64::MAX,
        ensures
            final(self)@.wf(),
            old(self)@.fired ==> r == Subscription::Fired && final(self)@ == old(self)@,
            !old(self)@.fired ==> r == Subscription::Pending(old(self)@.next_token)
                && final(self)@ == (ShutdownView {
                    fired: false,
                    next_token: (old(self)@.next_token + 1) as u64,
                    subscribers: old(self)@.subscribers.push(old(self)@.next_token),
                }),
    {
        if self.fired {
            Subscription::Fired
        } else {
            let token = self.next_token;
            self.subscribers.push(token);
            self.next_token = token + 1;
            Subscription::Pending(token)
        }
    }

    /// Fires the signal. The first call returns the token of every consumer
    /// subscribed so far, each once; any later call returns `None`.
    pub fn fire(&mut self) -> (r: Option<Vec<u64>>)
        requires
            old(self)@.wf(),
        ensures
            final(self)@.wf(),
            final(self)@.fired,
            final(self)@.subscribers == Seq::<u64>::empty(),
            final(self)@.next_token == old(self)@.next_token,
            match r {
                Some(v) => !old(self)@.fired && v@ == old(self)@.subscribers,
                None => old(self)@.fired,
            },
    {
        if self.fired {
            None
        } else {
            let mut woke: Vec<u64> = Vec::new();
            std::mem::swap(&mut woke, &mut self.subscribers);
            self.fired = true;
            Some(woke)
        }
    }
}

/// Firing a well-formed signal wakes each subscribed consumer exactly once:
/// every token of the list handed out occurs in it exactly one time.
pub proof fn lemma_fire_wakes_each_once(s: ShutdownView)
    requires
        s.wf(),
    ensures
        forall|t: u64| #[trigger] s.subscribers.to_multiset().count(t) == if s.subscribers.contains(t) { 1nat } else { 0nat },
{
    broadcast use vstd::seq_lib::group_to_multiset_ensures;
    s.subscribers.lemma_multiset_has_no_duplicates();
    assert forall|t: u64| #[trigger] s.subscribers.to_multiset().count(t) == if s.subscribers.contains(t) { 1nat } else { 0nat } by {
        if !s.subscribers.contains(t) {
            assert(s.subscribers.to_multiset().count(t) == 0);
        }
    }
}

} // verus!
