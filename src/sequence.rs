use vstd::prelude::*;

verus! {

/// A delivery tag: the channel-scoped number of one published message.
pub type DeliveryTag = u64;

/// Issues strictly increasing delivery tags, one per published message.
pub struct IdSequence {
    last: u64,
}

impl IdSequence {
    /// The last tag issued, or the starting value when none was issued yet.
    pub closed spec fn view(&self) -> u64 {
        self.last
    }

    /// A sequence whose first issued tag is `start + 1`.
    pub fn new(start: u64) -> (r: Self)
        ensures
            r@ == start,
    {
        IdSequence { last: start }
    }

    /// Issues the next tag: one more than the last one.
    pub fn next(&mut self) -> (r: DeliveryTag)
        requires
            old(self)@ < u64::MAX,
        ensures
            r == old(self)@ + 1,
            final(self)@ == r,
    {
        self.last = self.last + 1;
        self.last
    }

    /// The last tag issued, or the starting value when none was issued yet.
    pub fn current(&self) -> (r: DeliveryTag)
        ensures
            r == self@,
    {
        self.last
    }
}

} // verus!
