use vstd::prelude::*;

verus! {

/// Identifies one suspended task's notification handle: two handles that
/// wake the same task carry the same id.
pub type WaiterId = u64;

/// A deduplicated registry of suspended-task notification handles.
pub struct Wakers {
    waiting: Vec<WaiterId>,
}

impl Wakers {
    /// The registered handles, in the order they were first registered.
    pub closed spec fn view(&self) -> Seq<WaiterId> {
        self.waiting@
    }

    /// No handle is registered twice.
    pub closed spec fn wf(&self) -> bool {
        self.waiting@.no_duplicates()
    }

    /// An empty registry.
    pub fn new() -> (r: Self)
        ensures
            r.wf(),
            r@ == Seq::<WaiterId>::empty(),
    {
        Wakers { waiting: Vec::new() }
    }

    /// Adds `waiter` unless a handle that wakes the same task is already present.
    pub fn register(&mut self, waiter: WaiterId)
        requires
            old(self).wf(),
        ensures
            final(self).wf(),
            old(self)@.contains(waiter) ==> final(self)@ == old(self)@,
            !old(self)@.contains(waiter) ==> final(self)@ == old(self)@.push(waiter),
    {
        let mut i: usize = 0;
        while i < self.waiting.len()
            invariant
                i <= self.waiting@.len(),
                self.waiting@ == old(self).waiting@,
                self.wf(),
                forall|j: int| 0 <= j < i ==> self.waiting@[j] != waiter,
            decreases self.waiting@.len() - i,
        {
            if self.waiting[i] == waiter {
                proof {
                    assert(self.waiting@.contains(waiter));
                }
                return;
            }
            i = i + 1;
        }
        proof {
            assert(!self.waiting@.contains(waiter));
        }
        self.waiting.push(waiter);
    }

    /// Removes `waiter`, if registered; the others stay, in order.
    pub fn remove(&mut self, waiter: WaiterId)
        requires
            old(self).wf(),
        ensures
            final(self).wf(),
            !final(self)@.contains(waiter),
            forall|x: WaiterId| x != waiter ==> (final(self)@.contains(x) <==> old(self)@.contains(x)),
            !old(self)@.contains(waiter) ==> final(self)@ == old(self)@,
    {
        let mut i: usize = 0;
        while i < self.waiting.len()
            invariant
                i <= self.waiting@.len(),
                self.waiting@ == old(self).waiting@,
                self.wf(),
                forall|j: int| 0 <= j < i ==> self.waiting@[j] != waiter,
            decreases self.waiting@.len() - i,
        {
            if self.waiting[i] == waiter {
                let ghost before = self.waiting@;
                self.waiting.remove(i);
                proof {
                    let after = self.waiting@;
                    assert forall|a: int, b: int| 0 <= a < b < after.len() implies after[a] != after[b] by {
                        let a2 = if a < i { a } else { a + 1 };
                        let b2 = if b < i { b } else { b + 1 };
                        assert(before[a2] == after[a] && before[b2] == after[b]);
                    };
                    assert(!after.contains(waiter)) by {
                        if after.contains(waiter) {
                            let k = choose|k: int| 0 <= k < after.len() && after[k] == waiter;
                            let k2 = if k < i { k } else { k + 1 };
                            assert(before[k2] == waiter && k2 != i);
                        }
                    };
                    assert forall|x: WaiterId| x != waiter implies (after.contains(x) <==> before.contains(x)) by {
                        if after.contains(x) {
                            let k = choose|k: int| 0 <= k < after.len() && after[k] == x;
                            let k2 = if k < i { k } else { k + 1 };
                            assert(before[k2] == x);
                        }
                        if before.contains(x) {
                            let k = choose|k: int| 0 <= k < before.len() && before[k] == x;
                            if k < i {
                                assert(after[k] == x);
                            } else {
                                assert(k != i);
                                assert(after[k - 1] == x);
                            }
                        }
                    };
                }
                return;
            }
            i = i + 1;
        }
    }

    /// Removes every registered handle and hands them back, each once, to be notified.
    pub fn wake(&mut self) -> (r: Vec<WaiterId>)
        requires
            old(self).wf(),
        ensures
            final(self).wf(),
            r@ == old(self)@,
            r@.no_duplicates(),
            final(self)@ == Seq::<WaiterId>::empty(),
    {
        let mut r: Vec<WaiterId> = Vec::new();
        std::mem::swap(&mut r, &mut self.waiting);
        r
    }

    /// Whether no handle is registered.
    pub fn is_empty(&self) -> (r: bool)
        ensures
            r == (self@.len() == 0),
    {
        self.waiting.len() == 0
    }
}

/// Registering the same task twice on an empty registry leaves one entry, so
/// the wake that follows notifies it once.
pub proof fn lemma_register_twice(w0: Wakers, w1: Wakers, w2: Wakers, waiter: WaiterId, woken: Seq<WaiterId>)
    requires
        w0.wf(),
        w0@ == Seq::<WaiterId>::empty(),
        !w0@.contains(waiter) ==> w1@ == w0@.push(waiter),
        w1@.contains(waiter) ==> w2@ == w1@,
        woken == w2@,
    ensures
        woken == seq![waiter],
        woken.len() == 1,
{
    assert(w0@.push(waiter) =~= seq![waiter]);
    assert(w1@[0] == waiter);
}

} // verus!
