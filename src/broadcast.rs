use vstd::prelude::*;
use crate::confirmation::ChannelError;
use crate::waiters::{WaiterId, Wakers};

verus! {

/// The outcome after settling with `value` a value whose outcome was `before`:
/// only the first settlement counts.
pub open spec fn settle_step<T>(
    before: Option<Result<T, ChannelError>>,
    value: Result<T, ChannelError>,
) -> Option<Result<T, ChannelError>> {
    match before {
        Some(settled) => Some(settled),
        None => Some(value),
    }
}

/// One observer of a broadcast value.
pub struct Subscriber {
    id: u64,
}

impl Subscriber {
    /// The number that tells this observer apart.
    pub closed spec fn view(&self) -> u64 {
        self.id
    }

    /// The number that tells this observer apart from the others of its value.
    pub fn id(&self) -> (r: u64)
        ensures
            r == self@,
    {
        self.id
    }
}

/// A value that is settled at most once, resolved or rejected, and that any
/// number of subscribers observe.
pub struct Broadcaster<T> {
    state: Option<Result<T, ChannelError>>,
    subscribers: Vec<u64>,
    next_id: u64,
    wakers: Wakers,
}

impl<T> Broadcaster<T> {
    /// The terminal value, once settled.
    pub closed spec fn outcome(&self) -> Option<Result<T, ChannelError>> {
        self.state
    }

    /// The live subscribers.
    pub closed spec fn subscribers(&self) -> Seq<u64> {
        self.subscribers@
    }

    /// The tasks suspended until this value settles.
    pub closed spec fn waiting(&self) -> Seq<WaiterId> {
        self.wakers@
    }

    /// How many subscribers were handed out so far.
    pub closed spec fn issued(&self) -> u64 {
        self.next_id
    }

    /// Subscribers are distinct and issued; no task waits on a settled value.
    pub closed spec fn wf(&self) -> bool {
        &&& self.subscribers@.no_duplicates()
        &&& forall|i: int| 0 <= i < self.subscribers@.len() ==> self.subscribers@[i] < self.next_id
        &&& self.wakers.wf()
        &&& self.state is Some ==> self.wakers@.len() == 0
    }

    /// Whether `s` is a live subscriber of this value.
    pub open spec fn has(&self, s: Subscriber) -> bool {
        self.subscribers().contains(s@)
    }

    /// A pending value with its primary subscriber.
    pub fn new() -> (r: (Self, Subscriber))
        ensures
            r.0.wf(),
            r.0.outcome() is None,
            r.0.subscribers() == seq![r.1@],
            r.0.waiting().len() == 0,
            r.0.issued() == 1,
    {
        let mut subscribers: Vec<u64> = Vec::new();
        subscribers.push(0);
        let b = Broadcaster { state: None, subscribers, next_id: 1, wakers: Wakers::new() };
        (b, Subscriber { id: 0 })
    }

    /// Adds a subscriber; it observes the value at once when it is settled already.
    pub fn subscribe(&mut self) -> (r: Subscriber)
        requires
            old(self).wf(),
            old(self).issued() < u64::MAX,
        ensures
            final(self).wf(),
            final(self).outcome() == old(self).outcome(),
            !old(self).subscribers().contains(r@),
            final(self).subscribers() == old(self).subscribers().push(r@),
            final(self).waiting() == old(self).waiting(),
            final(self).issued() == old(self).issued() + 1,
    {
        let id = self.next_id;
        self.next_id = self.next_id + 1;
        self.subscribers.push(id);
        Subscriber { id }
    }

    /// Removes a subscriber. The value itself is not affected: once settled it
    /// stays settled.
    pub fn unsubscribe(&mut self, s: Subscriber)
        requires
            old(self).wf(),
        ensures
            final(self).wf(),
            final(self).outcome() == old(self).outcome(),
            final(self).subscribers().to_set() == old(self).subscribers().to_set().remove(s@),
            final(self).subscribers().len() <= old(self).subscribers().len(),
            forall|x: Subscriber| #[trigger] final(self).has(x) <==> old(self).has(x) && x@ != s@,
            final(self).waiting() == old(self).waiting(),
            final(self).issued() == old(self).issued(),
    {
        let mut i: usize = 0;
        while i < self.subscribers.len()
            invariant
                i <= self.subscribers@.len(),
                self.subscribers@ == old(self).subscribers@,
                self.wf(),
                self.state == old(self).state,
                self.wakers@ == old(self).wakers@,
                self.next_id == old(self).next_id,
                forall|j: int| 0 <= j < i ==> self.subscribers@[j] != s@,
            decreases self.subscribers@.len() - i,
        {
            if self.subscribers[i] == s.id {
                let ghost before = self.subscribers@;
                self.subscribers.remove(i);
                proof {
                    let after = self.subscribers@;
                    assert forall|x: u64| after.to_set().contains(x) <==> before.to_set().remove(s@).contains(x) by {
                        if after.contains(x) {
                            let k = choose|k: int| 0 <= k < after.len() && after[k] == x;
                            if k < i {
                                assert(before[k] == x);
                            } else {
                                assert(before[k + 1] == x);
                            }
                        }
                        if before.contains(x) && x != s@ {
                            let k = choose|k: int| 0 <= k < before.len() && before[k] == x;
                            if k < i {
                                assert(after[k] == x);
                            } else {
                                assert(k != i);
                                assert(after[k - 1] == x);
                            }
                        }
                        if after.contains(x) {
                            let k = choose|k: int| 0 <= k < after.len() && after[k] == x;
                            if k < i {
                                assert(before[k] == x && k != i as int);
                            } else {
                                assert(before[k + 1] == x && k + 1 != i as int);
                            }
                        }
                    };
                    assert(after.to_set() =~= before.to_set().remove(s@));
                    assert forall|x: Subscriber| #[trigger] self.has(x) <==> old(self).has(x) && x@ != s@ by {
                        assert(after.to_set().contains(x@) == after.contains(x@));
                        assert(before.to_set().contains(x@) == before.contains(x@));
                    };
                    assert(after.no_duplicates()) by {
                        assert forall|a: int, b: int| 0 <= a < b < after.len() implies after[a] != after[b] by {
                            let a2 = if a < i { a } else { a + 1 };
                            let b2 = if b < i { b } else { b + 1 };
                            assert(before[a2] == after[a] && before[b2] == after[b]);
                        };
                    };
                    assert forall|k: int| 0 <= k < after.len() implies after[k] < self.next_id by {
                        if k < i {
                            assert(before[k] == after[k]);
                        } else {
                            assert(before[k + 1] == after[k]);
                        }
                    };
                }
                return;
            }
            i = i + 1;
        }
        proof {
            assert(!self.subscribers@.contains(s@));
            assert(self.subscribers@.to_set() =~= old(self).subscribers@.to_set().remove(s@));
        }
    }

    /// Settles the value as `Ok(value)` unless it is settled already; hands back
    /// the suspended tasks to notify.
    pub fn resolve(&mut self, value: T) -> (r: Vec<WaiterId>)
        requires
            old(self).wf(),
        ensures
            final(self).wf(),
            final(self).outcome() == settle_step(old(self).outcome(), Ok::<T, ChannelError>(value)),
            r@ == old(self).waiting(),
            r@.no_duplicates(),
            final(self).waiting().len() == 0,
            final(self).subscribers() == old(self).subscribers(),
            final(self).issued() == old(self).issued(),
    {
        if self.state.is_none() {
            self.state = Some(Ok(value));
            self.wakers.wake()
        } else {
            Vec::new()
        }
    }

    /// Settles the value as `Err(error)` unless it is settled already; hands
    /// back the suspended tasks to notify.
    pub fn reject(&mut self, error: ChannelError) -> (r: Vec<WaiterId>)
        requires
            old(self).wf(),
        ensures
            final(self).wf(),
            final(self).outcome() == settle_step(old(self).outcome(), Err::<T, ChannelError>(error)),
            r@ == old(self).waiting(),
            r@.no_duplicates(),
            final(self).waiting().len() == 0,
            final(self).subscribers() == old(self).subscribers(),
            final(self).issued() == old(self).issued(),
    {
        if self.state.is_none() {
            self.state = Some(Err(error));
            self.wakers.wake()
        } else {
            Vec::new()
        }
    }

    /// Polls for the value on behalf of subscriber `s`: the settled value, or
    /// nothing, with the task `waiter` then registered to be woken on settlement.
    pub fn poll(&mut self, s: &Subscriber, waiter: WaiterId) -> (r: Option<&Result<T, ChannelError>>)
        requires
            old(self).wf(),
            old(self).has(*s),
        ensures
            final(self).wf(),
            final(self).outcome() == old(self).outcome(),
            final(self).subscribers() == old(self).subscribers(),
            final(self).issued() == old(self).issued(),
            r is Some <==> old(self).outcome() is Some,
            r is Some ==> old(self).outcome() == Some(*r->0),
            old(self).outcome() is Some ==> final(self).waiting() == old(self).waiting(),
            old(self).outcome() is None && old(self).waiting().contains(waiter) ==> final(self).waiting() == old(self).waiting(),
            old(self).outcome() is None && !old(self).waiting().contains(waiter) ==> final(self).waiting() == old(self).waiting().push(waiter),
    {
        if self.state.is_none() {
            self.wakers.register(waiter);
        }
        self.state.as_ref()
    }

    /// Stops notifying task `waiter` on settlement.
    pub fn forget(&mut self, waiter: WaiterId)
        requires
            old(self).wf(),
        ensures
            final(self).wf(),
            final(self).outcome() == old(self).outcome(),
            final(self).subscribers() == old(self).subscribers(),
            final(self).issued() == old(self).issued(),
            !final(self).waiting().contains(waiter),
            forall|x: WaiterId| x != waiter ==> (final(self).waiting().contains(x) <==> old(self).waiting().contains(x)),
            !old(self).waiting().contains(waiter) ==> final(self).waiting() == old(self).waiting(),
    {
        self.wakers.remove(waiter);
        proof {
            if self.state is Some {
                assert(old(self).wakers@.len() == 0);
                assert(!old(self).wakers@.contains(waiter));
            }
        }
    }

    /// The settled value, if any.
    pub fn peek(&self) -> (r: Option<&Result<T, ChannelError>>)
        ensures
            r is Some <==> self.outcome() is Some,
            r is Some ==> self.outcome() == Some(*r->0),
    {
        self.state.as_ref()
    }

    /// Whether the value is settled.
    pub fn is_settled(&self) -> (r: bool)
        ensures
            r == self.outcome() is Some,
    {
        self.state.is_some()
    }

    /// Whether `s` is a live subscriber of this value.
    pub fn is_subscriber(&self, s: &Subscriber) -> (r: bool)
        ensures
            r == self.has(*s),
    {
        let mut i: usize = 0;
        while i < self.subscribers.len()
            invariant
                i <= self.subscribers@.len(),
                forall|j: int| 0 <= j < i ==> self.subscribers@[j] != s@,
            decreases self.subscribers@.len() - i,
        {
            if self.subscribers[i] == s.id {
                proof {
                    assert(self.subscribers@[i as int] == s@);
                }
                return true;
            }
            i = i + 1;
        }
        false
    }

    /// Whether any subscriber is live.
    pub fn has_subscribers(&self) -> (r: bool)
        ensures
            r == (self.subscribers().len() > 0),
    {
        self.subscribers.len() > 0
    }
}

/// A value settles exactly once: a second settlement, resolve or reject,
/// changes nothing, wakes no task, and every subscriber keeps observing the
/// first result.
pub proof fn lemma_settles_once<T>(
    b0: Broadcaster<T>,
    b1: Broadcaster<T>,
    b2: Broadcaster<T>,
    first: Result<T, ChannelError>,
    later: Result<T, ChannelError>,
    woken_later: Seq<WaiterId>,
)
    requires
        b0.wf(),
        b0.outcome() is None,
        b1.wf(),
        b1.outcome() == settle_step(b0.outcome(), first),
        b1.waiting().len() == 0,
        b2.outcome() == settle_step(b1.outcome(), later),
        woken_later == b1.waiting(),
    ensures
        b1.outcome() == Some(first),
        b2.outcome() == Some(first),
        woken_later.len() == 0,
{
}

/// A subscriber added after settlement observes the settled result at once.
pub proof fn lemma_late_subscriber<T>(
    b0: Broadcaster<T>,
    b1: Broadcaster<T>,
    s: Subscriber,
    settled: Result<T, ChannelError>,
)
    requires
        b0.wf(),
        b0.outcome() == Some(settled),
        b1.outcome() == b0.outcome(),
        b1.subscribers() == b0.subscribers().push(s@),
    ensures
        b1.has(s),
        b1.outcome() == Some(settled),
{
    assert(b1.subscribers()[b0.subscribers().len() as int] == s@);
}

} // verus!
