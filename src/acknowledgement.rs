use vstd::prelude::*;
use crate::broadcast::{Broadcaster, Subscriber};
use crate::confirmation::{
    after_returned, confirmation_of, next_returned, ChannelError, Confirmation, ReturnedMessage,
    ReturnedMessages,
};
use crate::sequence::{DeliveryTag, IdSequence};
use crate::waiters::WaiterId;

verus! {

/// The outcome a confirmation settles with.
pub type Outcome = Result<Confirmation, ChannelError>;

/// The `k`-th message of `waiting`, if there is one.
pub open spec fn nth_returned(waiting: Seq<ReturnedMessage>, k: int) -> Option<ReturnedMessage> {
    if 0 <= k < waiting.len() {
        Some(waiting[k])
    } else {
        None
    }
}

/// What is left of `waiting` once `n` messages were handed out.
pub open spec fn skip_returned(waiting: Seq<ReturnedMessage>, n: int) -> Seq<ReturnedMessage> {
    if n < waiting.len() {
        waiting.subrange(n, waiting.len() as int)
    } else {
        Seq::empty()
    }
}

/// `after` is `before` with the first `n` of `tags` settled in order, the
/// `k`-th of them with `outcome_at(k)`.
pub open spec fn settles_prefix(
    before: Map<DeliveryTag, Outcome>,
    after: Map<DeliveryTag, Outcome>,
    tags: Seq<DeliveryTag>,
    n: int,
    outcome_at: spec_fn(int) -> Outcome,
) -> bool {
    &&& forall|k: int| 0 <= k < n ==> #[trigger] after.contains_key(tags[k]) && after[tags[k]] == outcome_at(k)
    &&& forall|t: DeliveryTag| #[trigger] after.contains_key(t) ==> before.contains_key(t) || exists|k: int| 0 <= k < n && tags[k] == t
    &&& forall|t: DeliveryTag| #[trigger] before.contains_key(t) ==> after.contains_key(t) && after[t] == before[t]
}

/// The `k`-th settlement of a batch of acks (`success`) or nacks, drawing
/// returned messages from `waiting`.
pub open spec fn batch_outcome(success: bool, waiting: Seq<ReturnedMessage>) -> spec_fn(int) -> Outcome {
    |k: int| Ok(confirmation_of(success, nth_returned(waiting, k)))
}

/// The settlement of every entry rejected with `error`.
pub open spec fn rejected_outcome(error: ChannelError) -> spec_fn(int) -> Outcome {
    |k: int| Err(error)
}

/// Settling one more tag extends a settled prefix by one.
proof fn lemma_settles_step(
    before: Map<DeliveryTag, Outcome>,
    after: Map<DeliveryTag, Outcome>,
    tags: Seq<DeliveryTag>,
    n: int,
    outcome_at: spec_fn(int) -> Outcome,
)
    requires
        0 <= n < tags.len(),
        settles_prefix(before, after, tags, n, outcome_at),
        !after.contains_key(tags[n]),
    ensures
        settles_prefix(before, after.insert(tags[n], outcome_at(n)), tags, n + 1, outcome_at),
{
    let a2 = after.insert(tags[n], outcome_at(n));
    assert forall|k: int| 0 <= k < n + 1 implies #[trigger] a2.contains_key(tags[k]) && a2[tags[k]] == outcome_at(k) by {
        if k < n {
            assert(after.contains_key(tags[k]));
        }
    };
    assert forall|t: DeliveryTag| #[trigger] a2.contains_key(t) implies before.contains_key(t) || exists|k: int| 0 <= k < n + 1 && tags[k] == t by {
        if t != tags[n] {
            assert(after.contains_key(t));
        }
    };
}

/// Handing out one more returned message moves one step along the buffer.
proof fn lemma_skip_step(waiting: Seq<ReturnedMessage>, n: int)
    requires
        0 <= n,
    ensures
        next_returned(skip_returned(waiting, n)) == nth_returned(waiting, n),
        after_returned(skip_returned(waiting, n)) == skip_returned(waiting, n + 1),
{
    if n < waiting.len() {
        assert(skip_returned(waiting, n)[0] == waiting[n]);
        assert(after_returned(skip_returned(waiting, n)) =~= skip_returned(waiting, n + 1));
    }
}

proof fn lemma_holds_pending(t: Inner, k: int, g: PublisherConfirm)
    requires
        0 <= k < t.pending@.len(),
        t.pending@[k].tag == g.tag,
        t.pending@[k].cell.has(g.subscriber),
    ensures
        t.holds(g),
{
}

proof fn lemma_holds_settled(t: Inner, k: int, g: PublisherConfirm)
    requires
        0 <= k < t.settled@.len(),
        t.settled@[k].tag == g.tag,
        t.settled@[k].cell.has(g.subscriber),
    ensures
        t.holds(g),
{
}

/// Names a witness entry for an observer that a table holds.
proof fn lemma_holds_cases(t: Inner, g: PublisherConfirm)
    requires
        t.holds(g),
    ensures
        (exists|k: int| 0 <= k < t.pending@.len() && t.pending@[k].tag == g.tag && #[trigger] t.pending@[k].cell.has(g.subscriber))
            || (exists|k: int| 0 <= k < t.settled@.len() && t.settled@[k].tag == g.tag && #[trigger] t.settled@[k].cell.has(g.subscriber)),
{
}

/// Two tables with the same entries hold the same observers.
proof fn lemma_holds_same(a: Inner, b: Inner, g: PublisherConfirm)
    requires
        a.pending == b.pending,
        a.settled == b.settled,
    ensures
        a.holds(g) == b.holds(g),
{
    lemma_holds_kept(a, b, g);
    lemma_holds_kept(b, a, g);
}

/// A table keeps every observer of another whose entries it keeps: the same
/// outstanding entries, and the settled entries with more appended.
proof fn lemma_holds_kept(a: Inner, b: Inner, g: PublisherConfirm)
    requires
        a.pending == b.pending,
        a.settled@.len() <= b.settled@.len(),
        forall|k: int| 0 <= k < a.settled@.len() ==> b.settled@[k] == a.settled@[k],
    ensures
        a.holds(g) ==> b.holds(g),
{
    if a.holds(g) {
        lemma_holds_cases(a, g);
        if exists|k: int| 0 <= k < a.pending@.len() && a.pending@[k].tag == g.tag && #[trigger] a.pending@[k].cell.has(g.subscriber) {
            let k = choose|k: int| 0 <= k < a.pending@.len() && a.pending@[k].tag == g.tag && #[trigger] a.pending@[k].cell.has(g.subscriber);
            lemma_holds_pending(b, k, g);
        } else {
            let k = choose|k: int| 0 <= k < a.settled@.len() && a.settled@[k].tag == g.tag && #[trigger] a.settled@[k].cell.has(g.subscriber);
            assert(b.settled@[k] == a.settled@[k]);
            lemma_holds_settled(b, k, g);
        }
    }
}

/// Whether a table holds an observer depends only on its tag and number.
proof fn lemma_holds_observer(t: Inner, l: PublisherConfirm, g: PublisherConfirm)
    requires
        t.holds(l),
        l.same_observer(g),
    ensures
        t.holds(g),
{
    lemma_holds_cases(t, l);
    if exists|k: int| 0 <= k < t.pending@.len() && t.pending@[k].tag == l.tag && #[trigger] t.pending@[k].cell.has(l.subscriber) {
        let k = choose|k: int| 0 <= k < t.pending@.len() && t.pending@[k].tag == l.tag && #[trigger] t.pending@[k].cell.has(l.subscriber);
        assert(t.pending@[k].cell.has(g.subscriber));
        lemma_holds_pending(t, k, g);
    } else {
        let k = choose|k: int| 0 <= k < t.settled@.len() && t.settled@[k].tag == l.tag && #[trigger] t.settled@[k].cell.has(l.subscriber);
        assert(t.settled@[k].cell.has(g.subscriber));
        lemma_holds_settled(t, k, g);
    }
}

/// What `release` states, from the table before it, the table once the slot
/// was handled, and the table after.
proof fn lemma_release_done(t0: Inner, start: Inner, t1: Inner, h: PublisherConfirm)
    requires
        t0.wf(),
        start.inv(),
        t1.inv(),
        start.pending@.len() == t1.pending@.len(),
        tags_of(start.pending@) == tags_of(t1.pending@),
        start.outcomes == t0.outcomes,
        t1.outcomes == t0.outcomes,
        start.returned_messages == t0.returned_messages,
        t1.returned_messages == t0.returned_messages,
        start.delivery_tag == t0.delivery_tag,
        t1.delivery_tag == t0.delivery_tag,
        t1.channel_id == t0.channel_id,
        t1.wakeups == t0.wakeups,
        t1.last == start.last,
        t0.pending == start.pending,
        t0.settled == start.settled,
        t0.in_last_slot(h) ==> start.last is None,
        !t0.in_last_slot(h) ==> start.last == t0.last,
        forall|g: PublisherConfirm| t1.holds(g) <==> (start.holds(g) && !h.same_observer(g)),
    ensures
        t1.wf(),
        forall|g: PublisherConfirm| t1.holds(g) <==> (t0.holds(g) && !h.same_observer(g)),
        !t1.holds(h),
{
    assert forall|g: PublisherConfirm| start.holds(g) == t0.holds(g) by {
        lemma_holds_same(start, t0, g);
    };
    assert(h.same_observer(h));
    if t1.last is Some {
        let l = t1.last->0;
        assert(!h.same_observer(l));
        assert(t0.holds(l));
    }
}

/// One outstanding confirmation: its tag and the value it settles.
pub struct Entry {
    tag: DeliveryTag,
    cell: Broadcaster<Confirmation>,
}

impl Entry {
    /// The delivery tag of this entry.
    pub closed spec fn spec_tag(&self) -> DeliveryTag {
        self.tag
    }

    /// Whether `g` is a live observer of this entry's value.
    pub closed spec fn observed_by(&self, g: PublisherConfirm) -> bool {
        self.cell.has(g.subscriber)
    }

    /// The tasks suspended until this entry settles.
    pub closed spec fn waiting(&self) -> Seq<WaiterId> {
        self.cell.waiting()
    }
}

/// The value a publish hands back: it observes the confirmation of one tag.
pub struct PublisherConfirm {
    tag: DeliveryTag,
    subscriber: Subscriber,
}

impl PublisherConfirm {
    /// The delivery tag whose confirmation this observes.
    pub closed spec fn spec_tag(&self) -> DeliveryTag {
        self.tag
    }

    /// Whether `self` and `other` are the same observer.
    pub closed spec fn same_observer(&self, other: PublisherConfirm) -> bool {
        self.tag == other.tag && self.subscriber@ == other.subscriber@
    }

    /// The delivery tag whose confirmation this observes.
    pub fn tag(&self) -> (r: DeliveryTag)
        ensures
            r == self.spec_tag(),
    {
        self.tag
    }
}

/// The reply code of a failed precondition.
pub const PRECONDITION_FAILED: u16 = 406;

/// An ack or a nack named a delivery tag that has no outstanding confirmation.
#[derive(Clone, Debug, PartialEq, Eq)]
pub struct UnknownTag {
    pub ack: bool,
    pub delivery_tag: DeliveryTag,
    pub channel_id: u16,
    pub current: DeliveryTag,
    pub outstanding: Vec<DeliveryTag>,
}

impl UnknownTag {
    /// The reply code this error is reported with: a failed precondition.
    pub fn reply_code(&self) -> (r: u16)
        ensures
            r == PRECONDITION_FAILED,
    {
        PRECONDITION_FAILED
    }
}

/// The confirmations outstanding on one channel and the protocol that settles them.
pub struct Inner {
    channel_id: u16,
    delivery_tag: IdSequence,
    last: Option<PublisherConfirm>,
    pending: Vec<Entry>,
    settled: Vec<Entry>,
    returned_messages: ReturnedMessages,
    wakeups: Vec<WaiterId>,
    outcomes: Ghost<Map<DeliveryTag, Outcome>>,
}

/// The tags of `entries`, in order.
pub closed spec fn tags_of(entries: Seq<Entry>) -> Seq<DeliveryTag> {
    Seq::new(entries.len(), |i: int| entries[i].tag)
}

impl Inner {
    /// The outstanding tags, in increasing order.
    pub closed spec fn pending_tags(&self) -> Seq<DeliveryTag> {
        tags_of(self.pending@)
    }

    /// The outcome of every tag settled so far.
    pub closed spec fn outcomes(&self) -> Map<DeliveryTag, Outcome> {
        self.outcomes@
    }

    /// The returned messages buffered for this channel.
    pub closed spec fn returned(&self) -> Seq<ReturnedMessage> {
        self.returned_messages@
    }

    /// The last tag issued.
    pub closed spec fn current(&self) -> DeliveryTag {
        self.delivery_tag@
    }

    /// The channel this table belongs to.
    pub closed spec fn spec_channel_id(&self) -> u16 {
        self.channel_id
    }

    /// The tag of the confirmation held in the last-pending slot.
    pub closed spec fn last_tag(&self) -> Option<DeliveryTag> {
        match self.last {
            Some(h) => Some(h.tag),
            None => None,
        }
    }

    /// Whether `g` is the observer held in the last-pending slot.
    pub closed spec fn in_last_slot(&self, g: PublisherConfirm) -> bool {
        self.last matches Some(l) && l.same_observer(g)
    }

    /// The tasks to notify, gathered from settlements.
    pub closed spec fn wakeups(&self) -> Seq<WaiterId> {
        self.wakeups@
    }

    /// Whether `h` still observes a value of this table.
    pub closed spec fn holds(&self, h: PublisherConfirm) -> bool {
        (exists|i: int| 0 <= i < self.pending@.len() && self.pending@[i].tag == h.tag && #[trigger] self.pending@[i].cell.has(h.subscriber))
        || (exists|i: int| 0 <= i < self.settled@.len() && self.settled@[i].tag == h.tag && #[trigger] self.settled@[i].cell.has(h.subscriber))
    }

    /// The tasks suspended on the `i`-th outstanding confirmation.
    pub closed spec fn waiters_at(&self, i: int) -> Seq<WaiterId> {
        self.pending@[i].cell.waiting()
    }

    /// The tasks suspended on the first `n` outstanding confirmations, in order.
    pub closed spec fn waiters_before(&self, n: int) -> Seq<WaiterId>
        decreases n,
    {
        if n <= 0 {
            Seq::empty()
        } else {
            self.waiters_before(n - 1) + self.waiters_at(n - 1)
        }
    }

    /// `e` is fit to be outstanding here: unsettled, with a fresh tag already issued.
    pub closed spec fn pending_ok(&self, e: Entry) -> bool {
        &&& e.cell.wf()
        &&& e.cell.outcome() is None
        &&& !self.outcomes@.contains_key(e.tag)
        &&& e.tag <= self.delivery_tag@
    }

    /// `e` is settled here with the outcome recorded for its tag.
    pub closed spec fn settled_ok(&self, e: Entry) -> bool {
        &&& e.cell.wf()
        &&& self.outcomes@.contains_key(e.tag)
        &&& e.cell.outcome() == Some(self.outcomes@[e.tag])
    }

    /// Outstanding tags increase and are unsettled; settled entries agree with
    /// the recorded outcomes and carry distinct tags; no tag is settled before
    /// it is issued.
    pub closed spec fn inv(&self) -> bool {
        &&& forall|i: int, j: int| 0 <= i < j < self.pending@.len() ==> self.pending@[i].tag < self.pending@[j].tag
        &&& forall|i: int| 0 <= i < self.pending@.len() ==> self.pending_ok(#[trigger] self.pending@[i])
        &&& forall|i: int| 0 <= i < self.settled@.len() ==> self.settled_ok(#[trigger] self.settled@[i])
        &&& forall|i: int, j: int| 0 <= i < j < self.settled@.len() ==> self.settled@[i].tag != self.settled@[j].tag
        &&& forall|t: DeliveryTag| #[trigger] self.outcomes@.contains_key(t) ==> t <= self.delivery_tag@
    }

    /// The observer in the last-pending slot, if any, observes a value of this table.
    pub closed spec fn slot_held(&self) -> bool {
        self.last matches Some(l) ==> self.holds(l)
    }

    /// The observer in the last-pending slot observes `e`.
    pub closed spec fn slot_on(&self, e: Entry) -> bool {
        self.last matches Some(l) && l.tag == e.tag && e.cell.has(l.subscriber)
    }

    /// The table's invariant.
    pub closed spec fn wf(&self) -> bool {
        &&& self.inv()
        &&& self.slot_held()
    }

    /// An empty table for channel `channel_id`, whose first tag is `start + 1`.
    pub fn new(channel_id: u16, start: DeliveryTag, returned_messages: ReturnedMessages) -> (r: Self)
        ensures
            r.wf(),
            r.spec_channel_id() == channel_id,
            r.current() == start,
            r.pending_tags() == Seq::<DeliveryTag>::empty(),
            r.outcomes() == Map::<DeliveryTag, Outcome>::empty(),
            r.returned() == returned_messages@,
            r.last_tag() is None,
            r.wakeups() == Seq::<WaiterId>::empty(),
    {
        Inner {
            channel_id,
            delivery_tag: IdSequence::new(start),
            last: None,
            pending: Vec::new(),
            settled: Vec::new(),
            returned_messages,
            wakeups: Vec::new(),
            outcomes: Ghost(Map::empty()),
        }
    }

    /// Settles `entry` as an ack (`success`) or a nack, carrying the returned
    /// message buffered next for this channel, if any.
    pub fn complete_pending(&mut self, success: bool, entry: Entry)
        requires
            old(self).inv(),
            old(self).slot_held() || old(self).slot_on(entry),
            old(self).pending_ok(entry),
            !old(self).pending_tags().contains(entry.spec_tag()),
        ensures
            final(self).wf(),
            final(self).pending_tags() == old(self).pending_tags(),
            final(self).outcomes() == old(self).outcomes().insert(
                entry.spec_tag(),
                Ok(confirmation_of(success, next_returned(old(self).returned()))),
            ),
            final(self).returned() == after_returned(old(self).returned()),
            final(self).current() == old(self).current(),
            final(self).spec_channel_id() == old(self).spec_channel_id(),
            final(self).last_tag() == old(self).last_tag(),
            final(self).wakeups() == old(self).wakeups() + entry.waiting(),
            forall|k: int| 0 <= k < old(self).pending_tags().len() ==> final(self).waiters_at(k) == old(self).waiters_at(k),
            forall|g: PublisherConfirm| old(self).holds(g) ==> final(self).holds(g),
            forall|g: PublisherConfirm| g.spec_tag() == entry.spec_tag() && entry.observed_by(g) ==> final(self).holds(g),
    {
        let ghost pre: Inner = *old(self);
        let returned_message = self.returned_messages.get_waiting_message();
        let confirmation = if success {
            Confirmation::Ack(returned_message)
        } else {
            Confirmation::Nack(returned_message)
        };
        let ghost settled_with: Outcome = Ok(confirmation);
        let mut entry = entry;
        let mut woken = entry.cell.resolve(confirmation);
        self.wakeups.append(&mut woken);
        self.outcomes = Ghost(self.outcomes@.insert(entry.tag, settled_with));
        proof {
            assert forall|i: int| 0 <= i < self.pending@.len() implies self.pending_ok(#[trigger] self.pending@[i]) by {
                assert(old(self).pending_ok(old(self).pending@[i]));
                assert(tags_of(self.pending@)[i] == self.pending@[i].tag);
            };
            assert forall|i: int| 0 <= i < self.settled@.len() implies self.settled_ok(#[trigger] self.settled@[i]) by {
                assert(old(self).settled_ok(old(self).settled@[i]));
            };
        }
        let ghost mid: Inner = *self;
        proof {
            assert forall|g: PublisherConfirm| pre.holds(g) implies mid.holds(g) by {
                lemma_holds_kept(pre, mid, g);
            };
        }
        if entry.cell.has_subscribers() {
            self.settled.push(entry);
            proof {
                assert forall|i: int| 0 <= i < self.settled@.len() implies self.settled_ok(#[trigger] self.settled@[i]) by {
                    if i < self.settled@.len() - 1 {
                        assert(old(self).settled_ok(old(self).settled@[i]));
                    }
                };
                assert forall|g: PublisherConfirm| mid.holds(g) implies self.holds(g) by {
                    lemma_holds_kept(mid, *self, g);
                };
                assert forall|g: PublisherConfirm| g.spec_tag() == entry.spec_tag() && entry.observed_by(g) implies self.holds(g) by {
                    lemma_holds_settled(*self, self.settled@.len() - 1, g);
                };
                assert forall|a: int, b: int| 0 <= a < b < self.settled@.len() implies self.settled@[a].tag != self.settled@[b].tag by {
                    assert(pre.settled_ok(pre.settled@[a]));
                    if b < self.settled@.len() - 1 {
                        assert(pre.settled@[b] == self.settled@[b]);
                    }
                };
                if self.last is Some {
                    let l = self.last->0;
                    if pre.holds(l) {
                        assert(mid.holds(l));
                    } else {
                        assert(entry.observed_by(l));
                        assert(l.spec_tag() == entry.spec_tag());
                    }
                    assert(self.holds(l));
                }
            }
        } else {
            proof {
                if self.last is Some {
                    let l = self.last->0;
                    assert(pre.holds(l));
                    assert(mid.holds(l));
                }
            }
        }
    }

    /// The error for an ack (`ack`) or a nack of `delivery_tag`, which has no
    /// outstanding confirmation.
    fn unknown_tag(&self, delivery_tag: DeliveryTag, ack: bool) -> (r: UnknownTag)
        ensures
            r.ack == ack,
            r.delivery_tag == delivery_tag,
            r.channel_id == self.spec_channel_id(),
            r.current == self.current(),
            r.outstanding@ == self.pending_tags(),
    {
        let mut outstanding: Vec<DeliveryTag> = Vec::new();
        let mut i: usize = 0;
        while i < self.pending.len()
            invariant
                i <= self.pending@.len(),
                outstanding@ == tags_of(self.pending@).subrange(0, i as int),
            decreases self.pending@.len() - i,
        {
            outstanding.push(self.pending[i].tag);
            i = i + 1;
            proof {
                assert(outstanding@ =~= tags_of(self.pending@).subrange(0, i as int));
            }
        }
        proof {
            assert(outstanding@ =~= tags_of(self.pending@));
        }
        UnknownTag {
            ack,
            delivery_tag,
            channel_id: self.channel_id,
            current: self.delivery_tag.current(),
            outstanding,
        }
    }

    /// Settles the outstanding confirmation of `delivery_tag` as an ack
    /// (`success`) or a nack; fails, changing nothing, when there is none.
    pub fn drop_pending(&mut self, delivery_tag: DeliveryTag, success: bool) -> (r: Result<(), UnknownTag>)
        requires
            old(self).wf(),
        ensures
            final(self).wf(),
            r is Ok <==> old(self).pending_tags().contains(delivery_tag),
            r is Ok ==> exists|i: int|
                0 <= i < old(self).pending_tags().len()
                    && old(self).pending_tags()[i] == delivery_tag
                    && final(self).pending_tags() == old(self).pending_tags().remove(i),
            r is Ok ==> final(self).outcomes() == old(self).outcomes().insert(
                delivery_tag,
                Ok(confirmation_of(success, next_returned(old(self).returned()))),
            ),
            r is Ok ==> final(self).returned() == after_returned(old(self).returned()),
            r is Ok ==> final(self).current() == old(self).current(),
            r is Ok ==> final(self).spec_channel_id() == old(self).spec_channel_id(),
            r is Ok ==> final(self).last_tag() == old(self).last_tag(),
            r is Ok ==> !old(self).outcomes().contains_key(delivery_tag),
            r is Ok ==> !final(self).pending_tags().contains(delivery_tag),
            r is Ok ==> exists|i: int|
                0 <= i < old(self).pending_tags().len()
                    && old(self).pending_tags()[i] == delivery_tag
                    && final(self).wakeups() == old(self).wakeups() + old(self).waiters_at(i)
                    && (forall|k: int| 0 <= k < i ==> final(self).waiters_at(k) == old(self).waiters_at(k))
                    && (forall|k: int| i <= k < final(self).pending_tags().len() ==> final(self).waiters_at(k) == old(self).waiters_at(k + 1)),
            forall|g: PublisherConfirm| old(self).holds(g) ==> final(self).holds(g),
            r is Err ==> *final(self) == *old(self),
            r matches Err(e) ==> e == (UnknownTag {
                ack: success,
                delivery_tag,
                channel_id: old(self).spec_channel_id(),
                current: old(self).current(),
                outstanding: e.outstanding,
            }),
            r matches Err(e) ==> e.outstanding@ == old(self).pending_tags(),
    {
        let mut i: usize = 0;
        while i < self.pending.len()
            invariant
                i <= self.pending@.len(),
                self.wf(),
                *self == *old(self),
                forall|j: int| 0 <= j < i ==> self.pending@[j].tag != delivery_tag,
            decreases self.pending@.len() - i,
        {
            if self.pending[i].tag == delivery_tag {
                let ghost before = self.pending@;
                let entry = self.pending.remove(i);
                proof {
                    assert(tags_of(before)[i as int] == delivery_tag);
                    assert(tags_of(self.pending@) =~= tags_of(before).remove(i as int));
                    assert(self.pending_ok(entry)) by {
                        assert(old(self).pending_ok(before[i as int]));
                    };
                    assert forall|a: int, b: int| 0 <= a < b < self.pending@.len() implies self.pending@[a].tag < self.pending@[b].tag by {
                        let a2 = if a < i { a } else { a + 1 };
                        let b2 = if b < i { b } else { b + 1 };
                        assert(before[a2] == self.pending@[a] && before[b2] == self.pending@[b]);
                    };
                    assert forall|k: int| 0 <= k < self.pending@.len() implies self.pending_ok(#[trigger] self.pending@[k]) by {
                        let k2 = if k < i { k } else { k + 1 };
                        assert(before[k2] == self.pending@[k]);
                        assert(old(self).pending_ok(before[k2]));
                    };
                    assert(!tags_of(self.pending@).contains(delivery_tag)) by {
                        if tags_of(self.pending@).contains(delivery_tag) {
                            let k = choose|k: int| 0 <= k < tags_of(self.pending@).len() && tags_of(self.pending@)[k] == delivery_tag;
                            let k2 = if k < i { k } else { k + 1 };
                            assert(before[k2] == self.pending@[k]);
                        }
                    };
                    assert(tags_of(old(self).pending@).contains(delivery_tag));
                    assert(old(self).pending_ok(before[i as int]));
                    assert(old(self).waiters_at(i as int) == entry.waiting());
                }
                let ghost mid: Inner = *self;
                let ghost moved: Entry = entry;
                proof {
                    assert forall|g: PublisherConfirm| #![trigger old(self).holds(g)] old(self).holds(g) implies mid.holds(g) || (g.spec_tag() == entry.spec_tag() && entry.observed_by(g)) by {
                        if exists|k: int| 0 <= k < before.len() && before[k].tag == g.tag && #[trigger] before[k].cell.has(g.subscriber) {
                            let k = choose|k: int| 0 <= k < before.len() && before[k].tag == g.tag && #[trigger] before[k].cell.has(g.subscriber);
                            if k < i {
                                assert(mid.pending@[k] == before[k]);
                                lemma_holds_pending(mid, k, g);
                            } else if k > i {
                                assert(mid.pending@[k - 1] == before[k]);
                                lemma_holds_pending(mid, k - 1, g);
                            }
                        } else {
                            let k = choose|k: int| 0 <= k < mid.settled@.len() && mid.settled@[k].tag == g.tag && #[trigger] mid.settled@[k].cell.has(g.subscriber);
                            lemma_holds_settled(mid, k, g);
                        }
                    };
                }
                self.complete_pending(success, entry);
                proof {
                    assert forall|g: PublisherConfirm| old(self).holds(g) implies self.holds(g) by {
                        if mid.holds(g) {
                            assert(self.holds(g));
                        } else {
                            assert(g.spec_tag() == moved.spec_tag() && moved.observed_by(g));
                            assert(self.holds(g));
                        }
                    };
                    assert(mid.pending_tags().len() == mid.pending@.len());
                    assert forall|k: int| 0 <= k < i implies self.waiters_at(k) == old(self).waiters_at(k) by {
                        assert(mid.waiters_at(k) == self.waiters_at(k));
                        assert(mid.pending@[k] == before[k]);
                    };
                    assert forall|k: int| i <= k < self.pending_tags().len() implies self.waiters_at(k) == old(self).waiters_at(k + 1) by {
                        assert(mid.waiters_at(k) == self.waiters_at(k));
                        assert(mid.pending@[k] == before[k + 1]);
                    };
                    assert(self.wakeups() == old(self).wakeups() + old(self).waiters_at(i as int));
                    assert(old(self).pending_tags()[i as int] == delivery_tag);
                }
                return Ok(());
            }
            i = i + 1;
        }
        proof {
            assert(!tags_of(self.pending@).contains(delivery_tag)) by {
                if tags_of(self.pending@).contains(delivery_tag) {
                    let k = choose|k: int| 0 <= k < tags_of(self.pending@).len() && tags_of(self.pending@)[k] == delivery_tag;
                    assert(self.pending@[k].tag == delivery_tag);
                }
            };
        }
        Err(self.unknown_tag(delivery_tag, success))
    }

    /// Stops `h` from observing its confirmation; the confirmation itself still
    /// settles when the broker answers. When `h` is the observer held in the
    /// last-pending slot, the slot is emptied.
    pub fn release(&mut self, h: PublisherConfirm)
        requires
            old(self).wf(),
        ensures
            final(self).wf(),
            final(self).pending_tags() == old(self).pending_tags(),
            final(self).outcomes() == old(self).outcomes(),
            final(self).returned() == old(self).returned(),
            final(self).current() == old(self).current(),
            final(self).spec_channel_id() == old(self).spec_channel_id(),
            !old(self).in_last_slot(h) ==> final(self).last_tag() == old(self).last_tag(),
            old(self).in_last_slot(h) ==> final(self).last_tag() is None,
            final(self).wakeups() == old(self).wakeups(),
            forall|g: PublisherConfirm| final(self).holds(g) <==> (old(self).holds(g) && !h.same_observer(g)),
            !final(self).holds(h),
    {
        let in_slot = match &self.last {
            Some(l) => l.tag == h.tag && l.subscriber.id() == h.subscriber.id(),
            None => false,
        };
        if in_slot {
            self.last = None;
        }
        let ghost start: Inner = *self;
        proof {
            assert(in_slot == old(self).in_last_slot(h));
        }
        let mut i: usize = 0;
        while i < self.pending.len()
            invariant
                i <= self.pending@.len(),
                start.inv(),
                *self == start,
                old(self).wf(),
                old(self).pending == start.pending,
                old(self).settled == start.settled,
                old(self).outcomes == start.outcomes,
                old(self).returned_messages == start.returned_messages,
                old(self).delivery_tag == start.delivery_tag,
                old(self).channel_id == start.channel_id,
                old(self).wakeups == start.wakeups,
                old(self).in_last_slot(h) ==> start.last is None,
                !old(self).in_last_slot(h) ==> start.last == old(self).last,
                forall|k: int| 0 <= k < i ==> self.pending@[k].tag != h.tag,
            decreases self.pending@.len() - i,
        {
            if self.pending[i].tag == h.tag {
                let ghost before = self.pending@;
                let mut entry = self.pending.remove(i);
                proof {
                    assert(start.pending_ok(before[i as int]));
                }
                entry.cell.unsubscribe(h.subscriber);
                self.pending.insert(i, entry);
                proof {
                    assert(self.pending@ =~= before.update(i as int, entry));
                    assert(tags_of(self.pending@) =~= tags_of(before));
                    assert forall|k: int| 0 <= k < self.pending@.len() implies self.pending_ok(#[trigger] self.pending@[k]) by {
                        assert(start.pending_ok(before[k]));
                    };
                    assert forall|a: int, b: int| 0 <= a < b < self.pending@.len() implies self.pending@[a].tag < self.pending@[b].tag by {
                        assert(before[a].tag == self.pending@[a].tag && before[b].tag == self.pending@[b].tag);
                    };
                    assert forall|g: PublisherConfirm| self.holds(g) <==> (start.holds(g) && !h.same_observer(g)) by {
                        if self.holds(g) {
                            lemma_holds_cases(*self, g);
                            if exists|k: int| 0 <= k < self.pending@.len() && self.pending@[k].tag == g.tag && #[trigger] self.pending@[k].cell.has(g.subscriber) {
                                let k = choose|k: int| 0 <= k < self.pending@.len() && self.pending@[k].tag == g.tag && #[trigger] self.pending@[k].cell.has(g.subscriber);
                                assert(before[k].cell.has(g.subscriber));
                                lemma_holds_pending(start, k, g);
                                if k != i {
                                    if k < i {
                                        assert(before[k].tag < before[i as int].tag);
                                    } else {
                                        assert(before[i as int].tag < before[k].tag);
                                    }
                                }
                            } else {
                                let k = choose|k: int| 0 <= k < self.settled@.len() && self.settled@[k].tag == g.tag && #[trigger] self.settled@[k].cell.has(g.subscriber);
                                lemma_holds_settled(start, k, g);
                                assert(start.settled_ok(start.settled@[k]));
                                assert(start.pending_ok(before[i as int]));
                                assert(g.tag != h.tag);
                            }
                        }
                        if start.holds(g) && !h.same_observer(g) {
                            lemma_holds_cases(start, g);
                            if exists|k: int| 0 <= k < before.len() && before[k].tag == g.tag && #[trigger] before[k].cell.has(g.subscriber) {
                                let k = choose|k: int| 0 <= k < before.len() && before[k].tag == g.tag && #[trigger] before[k].cell.has(g.subscriber);
                                if k == i {
                                    assert(g.subscriber@ != h.subscriber@);
                                    assert(entry.cell.has(g.subscriber));
                                }
                                lemma_holds_pending(*self, k, g);
                            } else {
                                let k = choose|k: int| 0 <= k < self.settled@.len() && self.settled@[k].tag == g.tag && #[trigger] self.settled@[k].cell.has(g.subscriber);
                                lemma_holds_settled(*self, k, g);
                            }
                        }
                    };
                    lemma_release_done(*old(self), start, *self, h);
                }
                return;
            }
            i = i + 1;
        }
        let mut j: usize = 0;
        while j < self.settled.len()
            invariant
                j <= self.settled@.len(),
                start.inv(),
                *self == start,
                forall|k: int| 0 <= k < self.pending@.len() ==> self.pending@[k].tag != h.tag,
                forall|k: int| 0 <= k < j ==> self.settled@[k].tag != h.tag,
                old(self).wf(),
                old(self).pending == start.pending,
                old(self).settled == start.settled,
                old(self).outcomes == start.outcomes,
                old(self).returned_messages == start.returned_messages,
                old(self).delivery_tag == start.delivery_tag,
                old(self).channel_id == start.channel_id,
                old(self).wakeups == start.wakeups,
                old(self).in_last_slot(h) ==> start.last is None,
                !old(self).in_last_slot(h) ==> start.last == old(self).last,
            decreases self.settled@.len() - j,
        {
            if self.settled[j].tag == h.tag {
                let ghost before = self.settled@;
                let mut entry = self.settled.remove(j);
                proof {
                    assert(start.settled_ok(before[j as int]));
                }
                entry.cell.unsubscribe(h.subscriber);
                if entry.cell.has_subscribers() {
                    self.settled.insert(j, entry);
                    proof {
                        assert(self.settled@ =~= before.update(j as int, entry));
                        assert forall|k: int| 0 <= k < self.settled@.len() implies self.settled_ok(#[trigger] self.settled@[k]) by {
                            assert(start.settled_ok(before[k]));
                        };
                        assert forall|a: int, b: int| 0 <= a < b < self.settled@.len() implies self.settled@[a].tag != self.settled@[b].tag by {
                            assert(before[a].tag == self.settled@[a].tag && before[b].tag == self.settled@[b].tag);
                        };
                        assert forall|g: PublisherConfirm| self.holds(g) <==> (start.holds(g) && !h.same_observer(g)) by {
                            if self.holds(g) {
                                lemma_holds_cases(*self, g);
                                if exists|k: int| 0 <= k < self.settled@.len() && self.settled@[k].tag == g.tag && #[trigger] self.settled@[k].cell.has(g.subscriber) {
                                    let k = choose|k: int| 0 <= k < self.settled@.len() && self.settled@[k].tag == g.tag && #[trigger] self.settled@[k].cell.has(g.subscriber);
                                    assert(before[k].cell.has(g.subscriber));
                                    lemma_holds_settled(start, k, g);
                                    if k != j {
                                        assert(before[k].tag != before[j as int].tag);
                                    }
                                } else {
                                    let k = choose|k: int| 0 <= k < self.pending@.len() && self.pending@[k].tag == g.tag && #[trigger] self.pending@[k].cell.has(g.subscriber);
                                    lemma_holds_pending(start, k, g);
                                }
                            }
                            if start.holds(g) && !h.same_observer(g) {
                                lemma_holds_cases(start, g);
                                if exists|k: int| 0 <= k < before.len() && before[k].tag == g.tag && #[trigger] before[k].cell.has(g.subscriber) {
                                    let k = choose|k: int| 0 <= k < before.len() && before[k].tag == g.tag && #[trigger] before[k].cell.has(g.subscriber);
                                    if k == j {
                                        assert(entry.cell.has(g.subscriber));
                                    }
                                    lemma_holds_settled(*self, k, g);
                                } else {
                                    let k = choose|k: int| 0 <= k < self.pending@.len() && self.pending@[k].tag == g.tag && #[trigger] self.pending@[k].cell.has(g.subscriber);
                                    lemma_holds_pending(*self, k, g);
                                }
                            }
                        };
                        lemma_release_done(*old(self), start, *self, h);
                    }
                } else {
                    proof {
                        assert forall|k: int| 0 <= k < self.settled@.len() implies self.settled_ok(#[trigger] self.settled@[k]) by {
                            let k2 = if k < j { k } else { k + 1 };
                            assert(before[k2] == self.settled@[k]);
                            assert(start.settled_ok(before[k2]));
                        };
                        assert forall|a: int, b: int| 0 <= a < b < self.settled@.len() implies self.settled@[a].tag != self.settled@[b].tag by {
                            let a2 = if a < j { a } else { a + 1 };
                            let b2 = if b < j { b } else { b + 1 };
                            assert(before[a2] == self.settled@[a] && before[b2] == self.settled@[b]);
                        };
                        assert forall|g: PublisherConfirm| self.holds(g) <==> (start.holds(g) && !h.same_observer(g)) by {
                            if self.holds(g) {
                                lemma_holds_cases(*self, g);
                                if exists|k: int| 0 <= k < self.settled@.len() && self.settled@[k].tag == g.tag && #[trigger] self.settled@[k].cell.has(g.subscriber) {
                                    let k = choose|k: int| 0 <= k < self.settled@.len() && self.settled@[k].tag == g.tag && #[trigger] self.settled@[k].cell.has(g.subscriber);
                                    let k2 = if k < j { k } else { k + 1 };
                                    assert(before[k2] == self.settled@[k]);
                                    lemma_holds_settled(start, k2, g);
                                    assert(before[k2].tag != before[j as int].tag);
                                } else {
                                    let k = choose|k: int| 0 <= k < self.pending@.len() && self.pending@[k].tag == g.tag && #[trigger] self.pending@[k].cell.has(g.subscriber);
                                    lemma_holds_pending(start, k, g);
                                }
                            }
                            if start.holds(g) && !h.same_observer(g) {
                                lemma_holds_cases(start, g);
                                if exists|k: int| 0 <= k < before.len() && before[k].tag == g.tag && #[trigger] before[k].cell.has(g.subscriber) {
                                    let k = choose|k: int| 0 <= k < before.len() && before[k].tag == g.tag && #[trigger] before[k].cell.has(g.subscriber);
                                    if k == j {
                                        assert(entry.cell.has(g.subscriber));
                                        assert(entry.cell.subscribers().len() > 0) by {
                                            assert(entry.cell.subscribers().contains(g.subscriber@));
                                        };
                                    } else if k < j {
                                        assert(self.settled@[k] == before[k]);
                                        lemma_holds_settled(*self, k, g);
                                    } else {
                                        assert(self.settled@[k - 1] == before[k]);
                                        lemma_holds_settled(*self, k - 1, g);
                                    }
                                } else {
                                    let k = choose|k: int| 0 <= k < self.pending@.len() && self.pending@[k].tag == g.tag && #[trigger] self.pending@[k].cell.has(g.subscriber);
                                    lemma_holds_pending(*self, k, g);
                                }
                            }
                        };
                        lemma_release_done(*old(self), start, *self, h);
                    }
                }
                return;
            }
            j = j + 1;
        }
        proof {
            assert(!start.holds(h)) by {
                if start.holds(h) {
                    lemma_holds_cases(start, h);
                }
            };
            assert forall|g: PublisherConfirm| self.holds(g) <==> (start.holds(g) && !h.same_observer(g)) by {
                if h.same_observer(g) && start.holds(g) {
                    lemma_holds_cases(start, g);
                }
            };
            lemma_release_done(*old(self), start, *self, h);
        }
    }

    /// Registers a new outstanding confirmation under the next tag and hands
    /// back its observer. The new confirmation takes the last-pending slot with
    /// a second, independent observer; the observer held there before is released.
    pub fn register_pending(&mut self) -> (r: PublisherConfirm)
        requires
            old(self).wf(),
            old(self).current() < u64::MAX,
        ensures
            final(self).wf(),
            r.spec_tag() == old(self).current() + 1,
            final(self).current() == r.spec_tag(),
            forall|k: int| 0 <= k < old(self).pending_tags().len() ==> old(self).pending_tags()[k] < r.spec_tag(),
            !old(self).pending_tags().contains(r.spec_tag()),
            !final(self).outcomes().contains_key(r.spec_tag()),
            final(self).pending_tags() == old(self).pending_tags().push(r.spec_tag()),
            final(self).outcomes() == old(self).outcomes(),
            final(self).returned() == old(self).returned(),
            final(self).spec_channel_id() == old(self).spec_channel_id(),
            final(self).last_tag() == Some(r.spec_tag()),
            final(self).wakeups() == old(self).wakeups(),
            final(self).holds(r),
            !final(self).in_last_slot(r),
            forall|g: PublisherConfirm| old(self).holds(g) && !old(self).in_last_slot(g) ==> final(self).holds(g),
            forall|g: PublisherConfirm| old(self).in_last_slot(g) ==> !final(self).holds(g),
    {
        let ghost pre: Inner = *old(self);
        proof {
            lemma_wf_facts(pre);
        }
        if let Some(previous) = self.last.take() {
            proof {
                assert forall|g: PublisherConfirm| pre.holds(g) == self.holds(g) by {
                    lemma_holds_same(pre, *self, g);
                };
            }
            self.release(previous);
        }
        let ghost mid: Inner = *self;
        proof {
            assert forall|g: PublisherConfirm| pre.holds(g) && !pre.in_last_slot(g) implies mid.holds(g) by {
                if pre.last is Some {
                    assert(!pre.last->0.same_observer(g));
                }
            };
            assert forall|g: PublisherConfirm| pre.in_last_slot(g) implies !mid.holds(g) && g.tag <= pre.delivery_tag@ by {
                let l = pre.last->0;
                assert(l.same_observer(g));
                assert(pre.holds(l));
                lemma_holds_cases(pre, l);
                if exists|k: int| 0 <= k < pre.pending@.len() && pre.pending@[k].tag == l.tag && #[trigger] pre.pending@[k].cell.has(l.subscriber) {
                    let k = choose|k: int| 0 <= k < pre.pending@.len() && pre.pending@[k].tag == l.tag && #[trigger] pre.pending@[k].cell.has(l.subscriber);
                    assert(pre.pending_ok(pre.pending@[k]));
                } else {
                    let k = choose|k: int| 0 <= k < pre.settled@.len() && pre.settled@[k].tag == l.tag && #[trigger] pre.settled@[k].cell.has(l.subscriber);
                    assert(pre.settled_ok(pre.settled@[k]));
                }
            };
        }
        let delivery_tag = self.delivery_tag.next();
        let (mut cell, promise) = Broadcaster::new();
        let last = cell.subscribe();
        self.last = Some(PublisherConfirm { tag: delivery_tag, subscriber: last });
        let ghost before = self.pending@;
        self.pending.push(Entry { tag: delivery_tag, cell });
        let r = PublisherConfirm { tag: delivery_tag, subscriber: promise };
        proof {
            let n = before.len() as int;
            assert(tags_of(self.pending@) =~= tags_of(before).push(delivery_tag));
            assert(self.pending@[n].cell.subscribers()[0] == r.subscriber@);
            assert(self.pending@[n].cell.has(r.subscriber));
            assert(self.pending@[n].cell.subscribers()[1] == last@);
            assert(self.pending@[n].cell.has(last));
            lemma_holds_pending(*self, n, self.last->0);
            assert(last@ != promise@);
            assert forall|k: int| 0 <= k < self.pending@.len() implies self.pending_ok(#[trigger] self.pending@[k]) by {
                if k < n {
                    assert(mid.pending_ok(before[k]));
                }
            };
            assert forall|a: int, b: int| 0 <= a < b < self.pending@.len() implies self.pending@[a].tag < self.pending@[b].tag by {
                if b == n {
                    assert(mid.pending_ok(before[a]));
                }
            };
            assert forall|k: int| 0 <= k < self.settled@.len() implies self.settled_ok(#[trigger] self.settled@[k]) by {
                assert(mid.settled_ok(mid.settled@[k]));
            };
            assert forall|g: PublisherConfirm| mid.holds(g) implies self.holds(g) by {
                lemma_holds_cases(mid, g);
                if exists|k: int| 0 <= k < before.len() && before[k].tag == g.tag && #[trigger] before[k].cell.has(g.subscriber) {
                    let k = choose|k: int| 0 <= k < before.len() && before[k].tag == g.tag && #[trigger] before[k].cell.has(g.subscriber);
                    assert(self.pending@[k] == before[k]);
                    lemma_holds_pending(*self, k, g);
                } else {
                    let k = choose|k: int| 0 <= k < self.settled@.len() && self.settled@[k].tag == g.tag && #[trigger] self.settled@[k].cell.has(g.subscriber);
                    lemma_holds_settled(*self, k, g);
                }
            };
            assert forall|g: PublisherConfirm| self.holds(g) && g.tag <= pre.delivery_tag@ implies mid.holds(g) by {
                lemma_holds_cases(*self, g);
                if exists|k: int| 0 <= k < self.pending@.len() && self.pending@[k].tag == g.tag && #[trigger] self.pending@[k].cell.has(g.subscriber) {
                    let k = choose|k: int| 0 <= k < self.pending@.len() && self.pending@[k].tag == g.tag && #[trigger] self.pending@[k].cell.has(g.subscriber);
                    assert(k < n);
                    assert(self.pending@[k] == before[k]);
                    lemma_holds_pending(mid, k, g);
                } else {
                    let k = choose|k: int| 0 <= k < self.settled@.len() && self.settled@[k].tag == g.tag && #[trigger] self.settled@[k].cell.has(g.subscriber);
                    lemma_holds_settled(mid, k, g);
                }
            };
            assert forall|k: int| 0 <= k < pre.pending_tags().len() implies pre.pending_tags()[k] < r.spec_tag() by {
                assert(pre.pending_ok(pre.pending@[k]));
            };
        }
        r
    }

    /// Takes the observer of the latest outstanding confirmation out of the
    /// last-pending slot, if one is there. The observer it hands back still
    /// observes its confirmation.
    pub fn get_last_pending(&mut self) -> (r: Option<PublisherConfirm>)
        requires
            old(self).wf(),
        ensures
            final(self).wf(),
            r matches Some(h) ==> old(self).last_tag() == Some(h.spec_tag()) && old(self).in_last_slot(h),
            r matches Some(h) ==> old(self).holds(h) && final(self).holds(h),
            r is None <==> old(self).last_tag() is None,
            final(self).last_tag() is None,
            final(self).pending_tags() == old(self).pending_tags(),
            final(self).outcomes() == old(self).outcomes(),
            final(self).returned() == old(self).returned(),
            final(self).current() == old(self).current(),
            final(self).spec_channel_id() == old(self).spec_channel_id(),
            final(self).wakeups() == old(self).wakeups(),
            forall|g: PublisherConfirm| final(self).holds(g) <==> old(self).holds(g),
    {
        let r = self.last.take();
        proof {
            assert forall|g: PublisherConfirm| self.holds(g) <==> old(self).holds(g) by {
                lemma_holds_same(*self, *old(self), g);
            };
        }
        r
    }

    /// Removes the entry with the lowest outstanding tag.
    fn pop_front(&mut self) -> (e: Entry)
        requires
            old(self).inv(),
            old(self).pending@.len() > 0,
        ensures
            final(self).inv(),
            e.tag == old(self).pending_tags()[0],
            final(self).pending_tags() == old(self).pending_tags().drop_first(),
            final(self).pending_ok(e),
            !final(self).pending_tags().contains(e.tag),
            final(self).settled == old(self).settled,
            final(self).outcomes == old(self).outcomes,
            final(self).returned_messages == old(self).returned_messages,
            final(self).delivery_tag == old(self).delivery_tag,
            final(self).channel_id == old(self).channel_id,
            final(self).last == old(self).last,
            final(self).wakeups == old(self).wakeups,
            e.waiting() == old(self).waiters_at(0),
            final(self).pending@ == old(self).pending@.drop_first(),
            forall|g: PublisherConfirm| #![trigger old(self).holds(g)] old(self).holds(g) ==> final(self).holds(g) || (g.spec_tag() == e.spec_tag() && e.observed_by(g)),
    {
        let ghost before = self.pending@;
        let e = self.pending.remove(0);
        proof {
            assert(tags_of(self.pending@) =~= tags_of(before).drop_first());
            assert(old(self).pending_ok(before[0]));
            assert forall|k: int| 0 <= k < self.pending@.len() implies self.pending_ok(#[trigger] self.pending@[k]) by {
                assert(before[k + 1] == self.pending@[k]);
                assert(old(self).pending_ok(before[k + 1]));
            };
            assert forall|a: int, b: int| 0 <= a < b < self.pending@.len() implies self.pending@[a].tag < self.pending@[b].tag by {
                assert(before[a + 1] == self.pending@[a] && before[b + 1] == self.pending@[b]);
            };
            assert(!tags_of(self.pending@).contains(e.tag)) by {
                if tags_of(self.pending@).contains(e.tag) {
                    let k = choose|k: int| 0 <= k < tags_of(self.pending@).len() && tags_of(self.pending@)[k] == e.tag;
                    assert(before[k + 1] == self.pending@[k]);
                }
            };
            assert forall|g: PublisherConfirm| #![trigger old(self).holds(g)] old(self).holds(g) implies self.holds(g) || (g.spec_tag() == e.spec_tag() && e.observed_by(g)) by {
                if exists|k: int| 0 <= k < before.len() && before[k].tag == g.tag && #[trigger] before[k].cell.has(g.subscriber) {
                    let k = choose|k: int| 0 <= k < before.len() && before[k].tag == g.tag && #[trigger] before[k].cell.has(g.subscriber);
                    if k > 0 {
                        assert(self.pending@[k - 1] == before[k]);
                        lemma_holds_pending(*self, k - 1, g);
                    }
                } else {
                    let k = choose|k: int| 0 <= k < self.settled@.len() && self.settled@[k].tag == g.tag && #[trigger] self.settled@[k].cell.has(g.subscriber);
                    lemma_holds_settled(*self, k, g);
                }
            };
        }
        e
    }

    /// Rejects `entry` with `error`.
    fn reject_pending(&mut self, error: ChannelError, entry: Entry)
        requires
            old(self).inv(),
            old(self).slot_held() || old(self).slot_on(entry),
            old(self).pending_ok(entry),
            !old(self).pending_tags().contains(entry.spec_tag()),
        ensures
            final(self).wf(),
            final(self).pending@ == old(self).pending@,
            final(self).outcomes() == old(self).outcomes().insert(entry.spec_tag(), Err(error)),
            final(self).returned_messages == old(self).returned_messages,
            final(self).delivery_tag == old(self).delivery_tag,
            final(self).channel_id == old(self).channel_id,
            final(self).last == old(self).last,
            final(self).wakeups() == old(self).wakeups() + entry.waiting(),
            forall|g: PublisherConfirm| old(self).holds(g) ==> final(self).holds(g),
            forall|g: PublisherConfirm| g.spec_tag() == entry.spec_tag() && entry.observed_by(g) ==> final(self).holds(g),
    {
        let ghost pre: Inner = *old(self);
        let mut entry = entry;
        let mut woken = entry.cell.reject(error);
        self.wakeups.append(&mut woken);
        self.outcomes = Ghost(self.outcomes@.insert(entry.tag, Err(error)));
        let ghost mid: Inner = *self;
        proof {
            assert forall|i: int| 0 <= i < self.pending@.len() implies self.pending_ok(#[trigger] self.pending@[i]) by {
                assert(pre.pending_ok(pre.pending@[i]));
                assert(tags_of(self.pending@)[i] == self.pending@[i].tag);
            };
            assert forall|i: int| 0 <= i < self.settled@.len() implies self.settled_ok(#[trigger] self.settled@[i]) by {
                assert(pre.settled_ok(pre.settled@[i]));
            };
            assert forall|g: PublisherConfirm| pre.holds(g) implies mid.holds(g) by {
                lemma_holds_kept(pre, mid, g);
            };
        }
        if entry.cell.has_subscribers() {
            self.settled.push(entry);
            proof {
                assert forall|i: int| 0 <= i < self.settled@.len() implies self.settled_ok(#[trigger] self.settled@[i]) by {
                    if i < self.settled@.len() - 1 {
                        assert(mid.settled_ok(mid.settled@[i]));
                    }
                };
                assert forall|g: PublisherConfirm| mid.holds(g) implies self.holds(g) by {
                    lemma_holds_kept(mid, *self, g);
                };
                assert forall|g: PublisherConfirm| g.spec_tag() == entry.spec_tag() && entry.observed_by(g) implies self.holds(g) by {
                    lemma_holds_settled(*self, self.settled@.len() - 1, g);
                };
                assert forall|a: int, b: int| 0 <= a < b < self.settled@.len() implies self.settled@[a].tag != self.settled@[b].tag by {
                    assert(pre.settled_ok(pre.settled@[a]));
                    if b < self.settled@.len() - 1 {
                        assert(pre.settled@[b] == self.settled@[b]);
                    }
                };
                if self.last is Some {
                    let l = self.last->0;
                    if pre.holds(l) {
                        assert(mid.holds(l));
                    } else {
                        assert(entry.observed_by(l));
                        assert(l.spec_tag() == entry.spec_tag());
                    }
                    assert(self.holds(l));
                }
            }
        } else {
            proof {
                if self.last is Some {
                    let l = self.last->0;
                    assert(pre.holds(l));
                    assert(mid.holds(l));
                }
            }
        }
    }

    /// Settles every outstanding confirmation, lowest tag first, as an ack
    /// (`success`) or a nack, each carrying the returned message buffered next.
    pub fn drop_all(&mut self, success: bool)
        requires
            old(self).wf(),
        ensures
            final(self).wf(),
            final(self).pending_tags() == Seq::<DeliveryTag>::empty(),
            settles_prefix(
                old(self).outcomes(),
                final(self).outcomes(),
                old(self).pending_tags(),
                old(self).pending_tags().len() as int,
                batch_outcome(success, old(self).returned()),
            ),
            final(self).returned() == skip_returned(old(self).returned(), old(self).pending_tags().len() as int),
            final(self).current() == old(self).current(),
            final(self).spec_channel_id() == old(self).spec_channel_id(),
            final(self).last_tag() == old(self).last_tag(),
            final(self).wakeups() == old(self).wakeups() + old(self).waiters_before(old(self).pending_tags().len() as int),
            forall|g: PublisherConfirm| old(self).holds(g) ==> final(self).holds(g),
    {
        let ghost tags = tags_of(self.pending@);
        let ghost outcome_at = batch_outcome(success, self.returned_messages@);
        while self.pending.len() > 0
            invariant
                self.wf(),
                self.pending@.len() <= tags.len(),
                tags == old(self).pending_tags(),
                outcome_at == batch_outcome(success, old(self).returned()),
                tags_of(self.pending@) == tags.subrange(tags.len() - self.pending@.len(), tags.len() as int),
                settles_prefix(old(self).outcomes(), self.outcomes@, tags, tags.len() - self.pending@.len(), outcome_at),
                self.returned_messages@ == skip_returned(old(self).returned(), tags.len() - self.pending@.len()),
                self.current() == old(self).current(),
                self.spec_channel_id() == old(self).spec_channel_id(),
                self.last_tag() == old(self).last_tag(),
                forall|g: PublisherConfirm| old(self).holds(g) ==> self.holds(g),
                self.wakeups() == old(self).wakeups() + old(self).waiters_before(tags.len() - self.pending@.len()),
                forall|k: int| 0 <= k < self.pending@.len() ==> self.waiters_at(k) == old(self).waiters_at(k + tags.len() - self.pending@.len()),
            decreases self.pending@.len()
        {
            let ghost n = tags.len() - self.pending@.len();
            let ghost start: Inner = *self;
            let entry = self.pop_front();
            let ghost mid: Inner = *self;
            let ghost moved: Entry = entry;
            proof {
                assert(entry.tag == tags[n]);
                assert(tags_of(self.pending@) =~= tags.subrange(n + 1, tags.len() as int));
                lemma_skip_step(old(self).returned(), n);
                lemma_settles_step(old(self).outcomes(), self.outcomes@, tags, n, outcome_at);
                assert(moved.waiting() == old(self).waiters_at(n));
                assert forall|k: int| 0 <= k < mid.pending@.len() implies mid.waiters_at(k) == old(self).waiters_at(k + n + 1) by {
                    assert(mid.pending@[k] == start.pending@[k + 1]);
                    assert(start.waiters_at(k + 1) == old(self).waiters_at(k + 1 + n));
                };
            }
            self.complete_pending(success, entry);
            proof {
                assert(mid.pending_tags().len() == mid.pending@.len());
                assert(old(self).waiters_before(n + 1) == old(self).waiters_before(n) + old(self).waiters_at(n));
                assert(self.wakeups() =~= old(self).wakeups() + old(self).waiters_before(n + 1));
                assert forall|k: int| 0 <= k < self.pending@.len() implies self.waiters_at(k) == old(self).waiters_at(k + tags.len() - self.pending@.len()) by {
                    assert(mid.waiters_at(k) == self.waiters_at(k));
                };
                assert forall|g: PublisherConfirm| old(self).holds(g) implies self.holds(g) by {
                    assert(start.holds(g));
                    if mid.holds(g) {
                    } else {
                        assert(g.spec_tag() == moved.spec_tag() && moved.observed_by(g));
                    }
                };
            }
        }
        proof {
            assert(tags_of(self.pending@) =~= Seq::<DeliveryTag>::empty());
        }
    }

    /// Rejects every outstanding confirmation with `error`.
    pub fn on_channel_error(&mut self, error: ChannelError)
        requires
            old(self).wf(),
        ensures
            final(self).wf(),
            final(self).pending_tags() == Seq::<DeliveryTag>::empty(),
            settles_prefix(
                old(self).outcomes(),
                final(self).outcomes(),
                old(self).pending_tags(),
                old(self).pending_tags().len() as int,
                rejected_outcome(error),
            ),
            final(self).returned() == old(self).returned(),
            final(self).current() == old(self).current(),
            final(self).spec_channel_id() == old(self).spec_channel_id(),
            final(self).last_tag() == old(self).last_tag(),
            final(self).wakeups() == old(self).wakeups() + old(self).waiters_before(old(self).pending_tags().len() as int),
            forall|g: PublisherConfirm| old(self).holds(g) ==> final(self).holds(g),
    {
        let ghost tags = tags_of(self.pending@);
        let ghost outcome_at = rejected_outcome(error);
        while self.pending.len() > 0
            invariant
                self.wf(),
                self.pending@.len() <= tags.len(),
                tags == old(self).pending_tags(),
                outcome_at == rejected_outcome(error),
                tags_of(self.pending@) == tags.subrange(tags.len() - self.pending@.len(), tags.len() as int),
                settles_prefix(old(self).outcomes(), self.outcomes@, tags, tags.len() - self.pending@.len(), outcome_at),
                self.returned_messages == old(self).returned_messages,
                self.delivery_tag == old(self).delivery_tag,
                self.channel_id == old(self).channel_id,
                self.last == old(self).last,
                forall|g: PublisherConfirm| old(self).holds(g) ==> self.holds(g),
                self.wakeups() == old(self).wakeups() + old(self).waiters_before(tags.len() - self.pending@.len()),
                forall|k: int| 0 <= k < self.pending@.len() ==> self.waiters_at(k) == old(self).waiters_at(k + tags.len() - self.pending@.len()),
            decreases self.pending@.len()
        {
            let ghost n = tags.len() - self.pending@.len();
            let ghost start: Inner = *self;
            let entry = self.pop_front();
            let ghost mid: Inner = *self;
            let ghost moved: Entry = entry;
            proof {
                assert(entry.tag == tags[n]);
                assert(tags_of(self.pending@) =~= tags.subrange(n + 1, tags.len() as int));
                lemma_settles_step(old(self).outcomes(), self.outcomes@, tags, n, outcome_at);
                assert(moved.waiting() == old(self).waiters_at(n));
                assert forall|k: int| 0 <= k < mid.pending@.len() implies mid.waiters_at(k) == old(self).waiters_at(k + n + 1) by {
                    assert(mid.pending@[k] == start.pending@[k + 1]);
                    assert(start.waiters_at(k + 1) == old(self).waiters_at(k + 1 + n));
                };
            }
            self.reject_pending(error, entry);
            proof {
                assert(old(self).waiters_before(n + 1) == old(self).waiters_before(n) + old(self).waiters_at(n));
                assert(self.wakeups() =~= old(self).wakeups() + old(self).waiters_before(n + 1));
                assert forall|k: int| 0 <= k < self.pending@.len() implies self.waiters_at(k) == old(self).waiters_at(k + tags.len() - self.pending@.len()) by {
                    assert(mid.waiters_at(k) == self.waiters_at(k));
                };
                assert forall|g: PublisherConfirm| old(self).holds(g) implies self.holds(g) by {
                    assert(start.holds(g));
                    if mid.holds(g) {
                    } else {
                        assert(g.spec_tag() == moved.spec_tag() && moved.observed_by(g));
                    }
                };
            }
        }
        proof {
            assert(tags_of(self.pending@) =~= Seq::<DeliveryTag>::empty());
        }
    }

    /// Settles, as acks (`success`) or nacks and lowest tag first, every
    /// outstanding confirmation whose tag is at most `delivery_tag`. Each one
    /// settles on its own; an error met on the way does not stop the others,
    /// and the last one met is handed back.
    pub fn complete_pending_before(&mut self, delivery_tag: DeliveryTag, success: bool) -> (r: Result<(), UnknownTag>)
        requires
            old(self).wf(),
        ensures
            final(self).wf(),
            r is Ok,
            final(self).pending_tags().len() <= old(self).pending_tags().len(),
            final(self).pending_tags() == old(self).pending_tags().subrange(
                old(self).pending_tags().len() - final(self).pending_tags().len(),
                old(self).pending_tags().len() as int,
            ),
            forall|k: int| 0 <= k < old(self).pending_tags().len() ==>
                (old(self).pending_tags()[k] <= delivery_tag
                    <==> k < old(self).pending_tags().len() - final(self).pending_tags().len()),
            settles_prefix(
                old(self).outcomes(),
                final(self).outcomes(),
                old(self).pending_tags(),
                old(self).pending_tags().len() - final(self).pending_tags().len(),
                batch_outcome(success, old(self).returned()),
            ),
            final(self).returned() == skip_returned(
                old(self).returned(),
                old(self).pending_tags().len() - final(self).pending_tags().len(),
            ),
            final(self).current() == old(self).current(),
            final(self).spec_channel_id() == old(self).spec_channel_id(),
            final(self).last_tag() == old(self).last_tag(),
            final(self).wakeups() == old(self).wakeups() + old(self).waiters_before(
                old(self).pending_tags().len() - final(self).pending_tags().len(),
            ),
            forall|g: PublisherConfirm| old(self).holds(g) ==> final(self).holds(g),
    {
        let ghost tags = tags_of(self.pending@);
        let ghost outcome_at = batch_outcome(success, self.returned_messages@);
        let mut covered: Vec<DeliveryTag> = Vec::new();
        let mut i: usize = 0;
        while i < self.pending.len() && self.pending[i].tag <= delivery_tag
            invariant
                i <= self.pending@.len(),
                tags == tags_of(self.pending@),
                covered@ == tags.subrange(0, i as int),
                forall|k: int| 0 <= k < i ==> tags[k] <= delivery_tag,
            decreases self.pending@.len() - i,
        {
            covered.push(self.pending[i].tag);
            i = i + 1;
            proof {
                assert(covered@ =~= tags.subrange(0, i as int));
            }
        }
        proof {
            assert forall|k: int| 0 <= k < tags.len() implies (tags[k] <= delivery_tag <==> k < i) by {
                if k >= i {
                    assert(tags[i as int] > delivery_tag);
                    if k > i {
                        assert(self.pending@[i as int].tag < self.pending@[k].tag);
                    }
                }
            };
        }
        let mut res: Result<(), UnknownTag> = Ok(());
        let mut j: usize = 0;
        while j < covered.len()
            invariant
                self.wf(),
                j <= covered@.len(),
                covered@.len() <= tags.len(),
                covered@ == tags.subrange(0, covered@.len() as int),
                tags == old(self).pending_tags(),
                outcome_at == batch_outcome(success, old(self).returned()),
                tags_of(self.pending@) == tags.subrange(j as int, tags.len() as int),
                settles_prefix(old(self).outcomes(), self.outcomes@, tags, j as int, outcome_at),
                self.returned_messages@ == skip_returned(old(self).returned(), j as int),
                self.current() == old(self).current(),
                self.spec_channel_id() == old(self).spec_channel_id(),
                self.last_tag() == old(self).last_tag(),
                res is Ok,
                forall|g: PublisherConfirm| old(self).holds(g) ==> self.holds(g),
                self.wakeups() == old(self).wakeups() + old(self).waiters_before(j as int),
                forall|k: int| 0 <= k < self.pending@.len() ==> self.waiters_at(k) == old(self).waiters_at(k + j),
            decreases covered@.len() - j,
        {
            let tag = covered[j];
            let ghost before: Inner = *self;
            proof {
                assert(tags_of(self.pending@)[0] == tag);
                assert(before.pending_tags().contains(tag));
                assert(!self.outcomes@.contains_key(tag)) by {
                    assert(before.pending_ok(before.pending@[0]));
                };
                lemma_skip_step(old(self).returned(), j as int);
                lemma_settles_step(old(self).outcomes(), self.outcomes@, tags, j as int, outcome_at);
            }
            let r = self.drop_pending(tag, success);
            proof {
                assert forall|g: PublisherConfirm| old(self).holds(g) implies self.holds(g) by {
                    assert(before.holds(g));
                };
            }
            if let Err(e) = r {
                res = Err(e);
            }
            proof {
                let k = choose|k: int|
                    0 <= k < before.pending_tags().len()
                        && before.pending_tags()[k] == tag
                        && self.pending_tags() == before.pending_tags().remove(k);
                if k > 0 {
                    assert(before.pending@[0].tag < before.pending@[k].tag);
                }
                assert(tags_of(self.pending@) =~= tags.subrange(j + 1, tags.len() as int));
                let w = choose|w: int|
                    0 <= w < before.pending_tags().len()
                        && before.pending_tags()[w] == tag
                        && self.wakeups() == before.wakeups() + before.waiters_at(w)
                        && (forall|q: int| 0 <= q < w ==> self.waiters_at(q) == before.waiters_at(q))
                        && (forall|q: int| w <= q < self.pending_tags().len() ==> self.waiters_at(q) == before.waiters_at(q + 1));
                if w > 0 {
                    assert(before.pending@[0].tag < before.pending@[w].tag);
                }
                assert(before.waiters_at(0) == old(self).waiters_at(j as int));
                assert(old(self).waiters_before(j + 1) == old(self).waiters_before(j as int) + old(self).waiters_at(j as int));
                assert(self.wakeups() =~= old(self).wakeups() + old(self).waiters_before(j + 1));
                assert(self.pending_tags().len() == self.pending@.len());
                assert forall|q: int| 0 <= q < self.pending@.len() implies self.waiters_at(q) == old(self).waiters_at(q + j + 1) by {
                    assert(self.waiters_at(q) == before.waiters_at(q + 1));
                };
            }
            j = j + 1;
        }
        res
    }

    /// The settled outcome that `h` observes, once its confirmation settled.
    pub fn settled_outcome(&self, h: &PublisherConfirm) -> (r: Option<&Outcome>)
        requires
            self.wf(),
        ensures
            r is Some ==> self.outcomes().contains_key(h.spec_tag()) && self.outcomes()[h.spec_tag()] == *r->0,
            self.holds(*h) && self.outcomes().contains_key(h.spec_tag()) ==> r is Some,
    {
        let mut j: usize = 0;
        while j < self.settled.len()
            invariant
                j <= self.settled@.len(),
                self.wf(),
                forall|k: int| 0 <= k < j ==> !(self.settled@[k].tag == h.tag && #[trigger] self.settled@[k].cell.has(h.subscriber)),
            decreases self.settled@.len() - j,
        {
            if self.settled[j].tag == h.tag && self.settled[j].cell.is_subscriber(&h.subscriber) {
                let found = self.settled[j].cell.peek();
                proof {
                    assert(self.settled_ok(self.settled@[j as int]));
                }
                return found;
            }
            j = j + 1;
        }
        proof {
            if self.holds(*h) && self.outcomes().contains_key(h.spec_tag()) {
                if exists|i: int| 0 <= i < self.pending@.len() && self.pending@[i].tag == h.tag && #[trigger] self.pending@[i].cell.has(h.subscriber) {
                    let i = choose|i: int| 0 <= i < self.pending@.len() && self.pending@[i].tag == h.tag && #[trigger] self.pending@[i].cell.has(h.subscriber);
                    assert(self.pending_ok(self.pending@[i]));
                }
            }
        }
        None
    }

    /// Registers task `waiter` to be woken when the confirmation that `h`
    /// observes settles; false when it is not outstanding (or `h` was released).
    pub fn register_waiter(&mut self, h: &PublisherConfirm, waiter: WaiterId) -> (r: bool)
        requires
            old(self).wf(),
        ensures
            final(self).wf(),
            r ==> old(self).pending_tags().contains(h.spec_tag()),
            old(self).holds(*h) && old(self).pending_tags().contains(h.spec_tag()) ==> r,
            final(self).pending_tags() == old(self).pending_tags(),
            final(self).outcomes() == old(self).outcomes(),
            final(self).returned() == old(self).returned(),
            final(self).current() == old(self).current(),
            final(self).spec_channel_id() == old(self).spec_channel_id(),
            final(self).last_tag() == old(self).last_tag(),
            final(self).wakeups() == old(self).wakeups(),
            forall|g: PublisherConfirm| old(self).holds(g) ==> final(self).holds(g),
            r ==> exists|i: int|
                0 <= i < old(self).pending_tags().len()
                    && old(self).pending_tags()[i] == h.spec_tag()
                    && (old(self).waiters_at(i).contains(waiter) ==> final(self).waiters_at(i) == old(self).waiters_at(i))
                    && (!old(self).waiters_at(i).contains(waiter) ==> final(self).waiters_at(i) == old(self).waiters_at(i).push(waiter))
                    && (forall|k: int| 0 <= k < old(self).pending_tags().len() && k != i ==> final(self).waiters_at(k) == old(self).waiters_at(k)),
            !r ==> forall|k: int| 0 <= k < old(self).pending_tags().len() ==> final(self).waiters_at(k) == old(self).waiters_at(k),
    {
        let mut i: usize = 0;
        while i < self.pending.len()
            invariant
                i <= self.pending@.len(),
                self.wf(),
                *self == *old(self),
                forall|k: int| 0 <= k < i ==> self.pending@[k].tag != h.tag,
            decreases self.pending@.len() - i,
        {
            if self.pending[i].tag == h.tag {
                proof {
                    assert(tags_of(self.pending@)[i as int] == h.tag);
                    assert forall|k: int| 0 <= k < self.pending@.len() && self.pending@[k].tag == h.tag implies k == i by {
                        if k > i {
                            assert(self.pending@[i as int].tag < self.pending@[k].tag);
                        }
                    };
                }
                if !self.pending[i].cell.is_subscriber(&h.subscriber) {
                    return false;
                }
                let ghost before = self.pending@;
                let mut entry = self.pending.remove(i);
                proof {
                    assert(old(self).pending_ok(before[i as int]));
                }
                let _ = entry.cell.poll(&h.subscriber, waiter);
                self.pending.insert(i, entry);
                proof {
                    assert(old(self).waiters_at(i as int) == before[i as int].cell.waiting());
                    assert(self.waiters_at(i as int) == entry.cell.waiting());
                    assert(old(self).pending_tags()[i as int] == h.tag);
                    assert forall|k: int| 0 <= k < old(self).pending_tags().len() && k != i implies self.waiters_at(k) == old(self).waiters_at(k) by {
                        assert(self.pending@[k] == before[k]);
                    };
                    assert(self.pending@ =~= before.update(i as int, entry));
                    assert(tags_of(self.pending@) =~= tags_of(before));
                    assert forall|k: int| 0 <= k < self.pending@.len() implies self.pending_ok(#[trigger] self.pending@[k]) by {
                        assert(old(self).pending_ok(before[k]));
                    };
                    assert forall|a: int, b: int| 0 <= a < b < self.pending@.len() implies self.pending@[a].tag < self.pending@[b].tag by {
                        assert(before[a].tag == self.pending@[a].tag && before[b].tag == self.pending@[b].tag);
                    };
                    assert forall|g: PublisherConfirm| old(self).holds(g) implies self.holds(g) by {
                        if exists|k: int| 0 <= k < before.len() && before[k].tag == g.tag && #[trigger] before[k].cell.has(g.subscriber) {
                            let k = choose|k: int| 0 <= k < before.len() && before[k].tag == g.tag && #[trigger] before[k].cell.has(g.subscriber);
                            assert(self.pending@[k].cell.subscribers() == before[k].cell.subscribers());
                            assert(self.pending@[k].cell.has(g.subscriber));
                        } else {
                            let k = choose|k: int| 0 <= k < self.settled@.len() && self.settled@[k].tag == g.tag && #[trigger] self.settled@[k].cell.has(g.subscriber);
                            assert(self.settled@[k].cell.has(g.subscriber));
                        }
                    };
                }
                return true;
            }
            i = i + 1;
        }
        proof {
            assert(!tags_of(self.pending@).contains(h.tag)) by {
                if tags_of(self.pending@).contains(h.tag) {
                    let k = choose|k: int| 0 <= k < tags_of(self.pending@).len() && tags_of(self.pending@)[k] == h.tag;
                    assert(self.pending@[k].tag == h.tag);
                }
            };
        }
        false
    }

    /// Stops notifying task `waiter` when the confirmation that `h` observes
    /// settles; used when the observer is dropped before settlement.
    pub fn forget_waiter(&mut self, h: &PublisherConfirm, waiter: WaiterId)
        requires
            old(self).wf(),
        ensures
            final(self).wf(),
            final(self).pending_tags() == old(self).pending_tags(),
            final(self).outcomes() == old(self).outcomes(),
            final(self).returned() == old(self).returned(),
            final(self).current() == old(self).current(),
            final(self).spec_channel_id() == old(self).spec_channel_id(),
            final(self).last_tag() == old(self).last_tag(),
            final(self).wakeups() == old(self).wakeups(),
            forall|g: PublisherConfirm| final(self).holds(g) <==> old(self).holds(g),
            forall|k: int| 0 <= k < old(self).pending_tags().len() && old(self).pending_tags()[k] != h.spec_tag()
                ==> final(self).waiters_at(k) == old(self).waiters_at(k),
            forall|k: int| 0 <= k < old(self).pending_tags().len() && old(self).pending_tags()[k] == h.spec_tag()
                ==> !final(self).waiters_at(k).contains(waiter)
                    && forall|x: WaiterId| x != waiter ==> (final(self).waiters_at(k).contains(x) <==> old(self).waiters_at(k).contains(x)),
    {
        let mut i: usize = 0;
        while i < self.pending.len()
            invariant
                i <= self.pending@.len(),
                self.wf(),
                *self == *old(self),
                forall|k: int| 0 <= k < i ==> self.pending@[k].tag != h.tag,
            decreases self.pending@.len() - i,
        {
            if self.pending[i].tag == h.tag {
                let ghost before = self.pending@;
                let mut entry = self.pending.remove(i);
                proof {
                    assert(old(self).pending_ok(before[i as int]));
                }
                entry.cell.forget(waiter);
                self.pending.insert(i, entry);
                proof {
                    assert(self.pending@ =~= before.update(i as int, entry));
                    assert(tags_of(self.pending@) =~= tags_of(before));
                    assert forall|k: int| 0 <= k < self.pending@.len() implies self.pending_ok(#[trigger] self.pending@[k]) by {
                        assert(old(self).pending_ok(before[k]));
                    };
                    assert forall|a: int, b: int| 0 <= a < b < self.pending@.len() implies self.pending@[a].tag < self.pending@[b].tag by {
                        assert(before[a].tag == self.pending@[a].tag && before[b].tag == self.pending@[b].tag);
                    };
                    assert forall|k: int| 0 <= k < old(self).pending_tags().len() && k != i implies self.waiters_at(k) == old(self).waiters_at(k) by {
                        assert(self.pending@[k] == before[k]);
                    };
                    assert forall|k: int| 0 <= k < old(self).pending_tags().len() && old(self).pending_tags()[k] == h.tag implies k == i by {
                        if k < i {
                            assert(before[k].tag < before[i as int].tag);
                        } else if k > i {
                            assert(before[i as int].tag < before[k].tag);
                        }
                    };
                    assert forall|g: PublisherConfirm| self.holds(g) <==> old(self).holds(g) by {
                        if self.holds(g) {
                            lemma_holds_cases(*self, g);
                            if exists|k: int| 0 <= k < self.pending@.len() && self.pending@[k].tag == g.tag && #[trigger] self.pending@[k].cell.has(g.subscriber) {
                                let k = choose|k: int| 0 <= k < self.pending@.len() && self.pending@[k].tag == g.tag && #[trigger] self.pending@[k].cell.has(g.subscriber);
                                assert(before[k].cell.subscribers() == self.pending@[k].cell.subscribers());
                                lemma_holds_pending(*old(self), k, g);
                            } else {
                                let k = choose|k: int| 0 <= k < self.settled@.len() && self.settled@[k].tag == g.tag && #[trigger] self.settled@[k].cell.has(g.subscriber);
                                lemma_holds_settled(*old(self), k, g);
                            }
                        }
                        if old(self).holds(g) {
                            lemma_holds_cases(*old(self), g);
                            if exists|k: int| 0 <= k < before.len() && before[k].tag == g.tag && #[trigger] before[k].cell.has(g.subscriber) {
                                let k = choose|k: int| 0 <= k < before.len() && before[k].tag == g.tag && #[trigger] before[k].cell.has(g.subscriber);
                                assert(before[k].cell.subscribers() == self.pending@[k].cell.subscribers());
                                lemma_holds_pending(*self, k, g);
                            } else {
                                let k = choose|k: int| 0 <= k < self.settled@.len() && self.settled@[k].tag == g.tag && #[trigger] self.settled@[k].cell.has(g.subscriber);
                                lemma_holds_settled(*self, k, g);
                            }
                        }
                    };
                    if self.last is Some {
                        assert(old(self).holds(self.last->0));
                    }
                }
                return;
            }
            i = i + 1;
        }
        proof {
            assert forall|k: int| 0 <= k < old(self).pending_tags().len() && old(self).pending_tags()[k] == h.tag implies false by {
                assert(self.pending@[k].tag == h.tag);
            };
        }
    }

    /// Hands back, and forgets, the tasks to notify since the last call.
    pub fn take_wakeups(&mut self) -> (r: Vec<WaiterId>)
        requires
            old(self).wf(),
        ensures
            final(self).wf(),
            r@ == old(self).wakeups(),
            final(self).wakeups() == Seq::<WaiterId>::empty(),
            final(self).pending_tags() == old(self).pending_tags(),
            final(self).outcomes() == old(self).outcomes(),
            final(self).returned() == old(self).returned(),
            final(self).current() == old(self).current(),
            final(self).spec_channel_id() == old(self).spec_channel_id(),
            final(self).last_tag() == old(self).last_tag(),
            forall|k: int| 0 <= k < old(self).pending_tags().len() ==> final(self).waiters_at(k) == old(self).waiters_at(k),
            forall|g: PublisherConfirm| final(self).holds(g) <==> old(self).holds(g),
    {
        let mut r: Vec<WaiterId> = Vec::new();
        std::mem::swap(&mut r, &mut self.wakeups);
        proof {
            assert forall|g: PublisherConfirm| self.holds(g) <==> old(self).holds(g) by {
                lemma_holds_same(*self, *old(self), g);
            };
            if self.last is Some {
                assert(old(self).holds(self.last->0));
            }
        }
        r
    }

    /// Buffers a message the broker returned on this channel; the next
    /// confirmation to settle carries it.
    pub fn push_returned(&mut self, message: ReturnedMessage)
        requires
            old(self).wf(),
        ensures
            final(self).wf(),
            final(self).returned() == old(self).returned().push(message),
            final(self).pending_tags() == old(self).pending_tags(),
            final(self).outcomes() == old(self).outcomes(),
            final(self).current() == old(self).current(),
            final(self).spec_channel_id() == old(self).spec_channel_id(),
            final(self).last_tag() == old(self).last_tag(),
            final(self).wakeups() == old(self).wakeups(),
            forall|k: int| 0 <= k < old(self).pending_tags().len() ==> final(self).waiters_at(k) == old(self).waiters_at(k),
            forall|g: PublisherConfirm| final(self).holds(g) <==> old(self).holds(g),
    {
        self.returned_messages.push(message);
        proof {
            assert forall|g: PublisherConfirm| self.holds(g) <==> old(self).holds(g) by {
                lemma_holds_same(*self, *old(self), g);
            };
            if self.last is Some {
                assert(old(self).holds(self.last->0));
            }
        }
    }

    /// The channel this table belongs to.
    pub fn channel_id(&self) -> (r: u16)
        ensures
            r == self.spec_channel_id(),
    {
        self.channel_id
    }

    /// The last tag issued.
    pub fn current_tag(&self) -> (r: DeliveryTag)
        ensures
            r == self.current(),
    {
        self.delivery_tag.current()
    }

    /// How many confirmations are outstanding.
    pub fn pending_count(&self) -> (r: usize)
        ensures
            r == self.pending_tags().len(),
    {
        self.pending.len()
    }

    /// How many returned messages are buffered.
    pub fn returned_count(&self) -> (r: usize)
        ensures
            r == self.returned().len(),
    {
        self.returned_messages.len()
    }
}

/// What a well-formed table guarantees: outstanding tags are strictly
/// increasing, issued and unsettled; settled tags were issued; the observer in
/// the last-pending slot observes a value of the table.
pub proof fn lemma_wf_facts(t: Inner)
    requires
        t.wf(),
    ensures
        forall|i: int, j: int| 0 <= i < j < t.pending_tags().len() ==> t.pending_tags()[i] < t.pending_tags()[j],
        forall|i: int| 0 <= i < t.pending_tags().len() ==> t.pending_tags()[i] <= t.current(),
        forall|i: int| 0 <= i < t.pending_tags().len() ==> !t.outcomes().contains_key(#[trigger] t.pending_tags()[i]),
        forall|x: DeliveryTag| t.outcomes().contains_key(x) ==> x <= t.current(),
        forall|g: PublisherConfirm| t.in_last_slot(g) ==> t.holds(g),
{
    assert forall|i: int| 0 <= i < t.pending_tags().len() implies !t.outcomes().contains_key(#[trigger] t.pending_tags()[i]) && t.pending_tags()[i] <= t.current() by {
        assert(t.pending_ok(t.pending@[i]));
    };
    assert forall|g: PublisherConfirm| t.in_last_slot(g) implies t.holds(g) by {
        lemma_holds_observer(t, t.last->0, g);
    };
}

/// Settling a confirmation never settles one twice and never changes an
/// outcome settled before.
pub proof fn lemma_settled_once(t0: Inner, t1: Inner, delivery_tag: DeliveryTag, outcome: Outcome, earlier: DeliveryTag)
    requires
        !t0.outcomes().contains_key(delivery_tag),
        t1.outcomes() == t0.outcomes().insert(delivery_tag, outcome),
        t0.outcomes().contains_key(earlier),
    ensures
        earlier != delivery_tag,
        t1.outcomes().contains_key(earlier),
        t1.outcomes()[earlier] == t0.outcomes()[earlier],
        t1.outcomes()[delivery_tag] == outcome,
{
}

/// Two registrations in a row: the last-pending slot holds the second one, and
/// the first stays outstanding, to be settled on its own.
pub proof fn lemma_slot_supersession(t0: Inner, t1: Inner, t2: Inner, h1: PublisherConfirm, h2: PublisherConfirm)
    requires
        h1.spec_tag() == t0.current() + 1,
        t1.current() == h1.spec_tag(),
        t1.pending_tags() == t0.pending_tags().push(h1.spec_tag()),
        t1.last_tag() == Some(h1.spec_tag()),
        h2.spec_tag() == t1.current() + 1,
        t2.pending_tags() == t1.pending_tags().push(h2.spec_tag()),
        t2.last_tag() == Some(h2.spec_tag()),
    ensures
        h1.spec_tag() != h2.spec_tag(),
        t2.last_tag() == Some(h2.spec_tag()),
        t2.pending_tags().contains(h1.spec_tag()),
        t2.pending_tags().contains(h2.spec_tag()),
{
    let n = t0.pending_tags().len() as int;
    assert(t2.pending_tags()[n] == h1.spec_tag());
    assert(t2.pending_tags()[n + 1] == h2.spec_tag());
}

/// A channel error rejects every outstanding confirmation with that error and
/// leaves none outstanding, so any later ack or nack names an unknown tag.
pub proof fn lemma_channel_error_drains(t0: Inner, t1: Inner, error: ChannelError, later: DeliveryTag)
    requires
        t1.pending_tags() == Seq::<DeliveryTag>::empty(),
        settles_prefix(
            t0.outcomes(),
            t1.outcomes(),
            t0.pending_tags(),
            t0.pending_tags().len() as int,
            rejected_outcome(error),
        ),
    ensures
        forall|k: int| 0 <= k < t0.pending_tags().len() ==>
            #[trigger] t1.outcomes().contains_key(t0.pending_tags()[k]),
        forall|k: int| 0 <= k < t0.pending_tags().len() ==>
            #[trigger] t1.outcomes()[t0.pending_tags()[k]] == Err::<Confirmation, ChannelError>(error),
        t1.pending_tags().len() == 0,
        !t1.pending_tags().contains(later),
{
    assert forall|k: int| 0 <= k < t0.pending_tags().len() implies
        #[trigger] t1.outcomes()[t0.pending_tags()[k]] == Err::<Confirmation, ChannelError>(error) by {
        assert(t1.outcomes().contains_key(t0.pending_tags()[k]));
        assert(t1.outcomes()[t0.pending_tags()[k]] == rejected_outcome(error)(k));
    };
}

/// An ack carries the returned message buffered for the channel when it
/// arrives, and none when nothing is buffered.
pub proof fn lemma_returned_correlation(t0: Inner, t1: Inner, delivery_tag: DeliveryTag)
    requires
        t1.outcomes() == t0.outcomes().insert(
            delivery_tag,
            Ok(confirmation_of(true, next_returned(t0.returned()))),
        ),
        t1.returned() == after_returned(t0.returned()),
    ensures
        t0.returned().len() > 0 ==> t1.outcomes()[delivery_tag] == Ok::<Confirmation, ChannelError>(
            Confirmation::Ack(Some(t0.returned()[0])),
        ) && t1.returned() == t0.returned().drop_first(),
        t0.returned().len() == 0 ==> t1.outcomes()[delivery_tag] == Ok::<Confirmation, ChannelError>(
            Confirmation::Ack(None),
        ),
{
}

} // verus!
