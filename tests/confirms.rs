use confirms::acknowledgement::{Inner, Outcome, UnknownTag};
use confirms::broadcast::Broadcaster;
use confirms::confirmation::{ChannelError, Confirmation, ReturnedMessage, ReturnedMessages};
use confirms::sequence::IdSequence;
use confirms::waiters::Wakers;

fn table() -> Inner {
    Inner::new(3, 0, ReturnedMessages::new())
}

fn returned(text: &str) -> ReturnedMessage {
    ReturnedMessage {
        reply_code: 312,
        reply_text: "NO_ROUTE".to_string(),
        exchange: "ex".to_string(),
        routing_key: "key".to_string(),
        body: text.as_bytes().to_vec(),
    }
}

fn channel_error() -> ChannelError {
    ChannelError { reply_code: 504, class_id: 20, method_id: 40 }
}

#[test]
fn sequence_is_strictly_increasing() {
    let mut seq = IdSequence::new(0);
    assert_eq!(seq.current(), 0);
    assert_eq!(seq.next(), 1);
    assert_eq!(seq.next(), 2);
    assert_eq!(seq.current(), 2);
    let mut other = IdSequence::new(41);
    assert_eq!(other.next(), 42);
}

#[test]
fn waker_registered_twice_is_woken_once() {
    let mut w = Wakers::new();
    w.register(7);
    w.register(7);
    assert_eq!(w.wake(), vec![7]);
    assert!(w.is_empty());
    assert_eq!(w.wake(), Vec::<u64>::new());
}

#[test]
fn distinct_wakers_are_each_woken() {
    let mut w = Wakers::new();
    w.register(1);
    w.register(2);
    w.register(1);
    assert_eq!(w.wake(), vec![1, 2]);
}

#[test]
fn broadcast_resolves_once_for_every_subscriber() {
    let (mut b, first) = Broadcaster::<u32>::new();
    let second = b.subscribe();
    assert_ne!(first.id(), second.id());
    assert_eq!(b.poll(&first, 10), None);
    assert_eq!(b.poll(&second, 11), None);
    assert_eq!(b.poll(&second, 11), None);
    assert_eq!(b.resolve(5), vec![10, 11]);
    assert_eq!(b.resolve(6), Vec::<u64>::new());
    assert_eq!(b.reject(channel_error()), Vec::<u64>::new());
    assert_eq!(b.poll(&first, 10), Some(&Ok(5)));
    assert_eq!(b.poll(&second, 11), Some(&Ok(5)));
}

#[test]
fn late_subscriber_observes_settled_value() {
    let (mut b, _first) = Broadcaster::<u32>::new();
    b.reject(channel_error());
    let late = b.subscribe();
    assert!(b.is_subscriber(&late));
    assert_eq!(b.poll(&late, 1), Some(&Err(channel_error())));
    assert_eq!(b.peek(), Some(&Err(channel_error())));
}

#[test]
fn unsubscribed_handle_is_gone_but_value_still_settles() {
    let (mut b, first) = Broadcaster::<u32>::new();
    let second = b.subscribe();
    b.unsubscribe(first);
    assert!(b.has_subscribers());
    assert!(b.is_subscriber(&second));
    b.unsubscribe(second);
    assert!(!b.has_subscribers());
    b.resolve(9);
    assert!(b.is_settled());
    assert_eq!(b.peek(), Some(&Ok(9)));
}

fn outcome(t: &Inner, h: &confirms::acknowledgement::PublisherConfirm) -> Option<Outcome> {
    t.settled_outcome(h).cloned()
}

#[test]
fn cumulative_ack_settles_tags_up_to_bound() {
    let mut t = table();
    let h1 = t.register_pending();
    let h2 = t.register_pending();
    let h3 = t.register_pending();
    let h4 = t.register_pending();
    let h5 = t.register_pending();
    assert_eq!(t.drop_pending(h4.tag(), true), Ok(()));
    assert_eq!(t.complete_pending_before(4, true), Ok(()));
    assert_eq!(t.pending_count(), 1);
    assert_eq!(outcome(&t, &h1), Some(Ok(Confirmation::Ack(None))));
    assert_eq!(outcome(&t, &h2), Some(Ok(Confirmation::Ack(None))));
    assert_eq!(outcome(&t, &h3), Some(Ok(Confirmation::Ack(None))));
    assert_eq!(outcome(&t, &h5), None);
    assert_eq!(t.drop_pending(5, false), Ok(()));
    assert_eq!(outcome(&t, &h5), Some(Ok(Confirmation::Nack(None))));
    assert_eq!(t.pending_count(), 0);
}

#[test]
fn cumulative_nack_below_every_tag_settles_nothing() {
    let mut t = Inner::new(1, 10, ReturnedMessages::new());
    let h = t.register_pending();
    assert_eq!(h.tag(), 11);
    assert_eq!(t.complete_pending_before(10, false), Ok(()));
    assert_eq!(t.pending_count(), 1);
    assert_eq!(outcome(&t, &h), None);
}

#[test]
fn ack_of_unknown_tag_fails_and_changes_nothing() {
    let mut t = table();
    let h1 = t.register_pending();
    let _h2 = t.register_pending();
    let err = t.drop_pending(99, true).unwrap_err();
    assert_eq!(
        err,
        UnknownTag { ack: true, delivery_tag: 99, channel_id: 3, current: 2, outstanding: vec![1, 2] }
    );
    assert_eq!(t.pending_count(), 2);
    assert_eq!(t.current_tag(), 2);
    assert_eq!(outcome(&t, &h1), None);
    let err = t.drop_pending(0, false).unwrap_err();
    assert!(!err.ack);
}

#[test]
fn second_registration_supersedes_last_pending_slot() {
    let mut t = table();
    let h1 = t.register_pending();
    let h2 = t.register_pending();
    let last = t.get_last_pending().unwrap();
    assert_eq!(last.tag(), h2.tag());
    assert!(t.get_last_pending().is_none());
    assert_eq!(t.drop_pending(h1.tag(), true), Ok(()));
    assert_eq!(outcome(&t, &h1), Some(Ok(Confirmation::Ack(None))));
    assert_eq!(outcome(&t, &last), None);
    assert_eq!(t.drop_pending(h2.tag(), true), Ok(()));
    assert_eq!(outcome(&t, &last), Some(Ok(Confirmation::Ack(None))));
    assert_eq!(outcome(&t, &h2), Some(Ok(Confirmation::Ack(None))));
}

#[test]
fn channel_error_rejects_every_pending_confirmation() {
    let mut t = table();
    let handles: Vec<_> = (0..4).map(|_| t.register_pending()).collect();
    t.on_channel_error(channel_error());
    assert_eq!(t.pending_count(), 0);
    for h in &handles {
        assert_eq!(outcome(&t, h), Some(Err(channel_error())));
    }
    let err = t.drop_pending(2, true).unwrap_err();
    assert_eq!(err.outstanding, Vec::<u64>::new());
    assert_eq!(t.complete_pending_before(100, true), Ok(()));
}

#[test]
fn ack_carries_buffered_returned_message() {
    let mut t = table();
    let h1 = t.register_pending();
    let h2 = t.register_pending();
    t.push_returned(returned("lost"));
    assert_eq!(t.returned_count(), 1);
    assert_eq!(t.drop_pending(h1.tag(), true), Ok(()));
    assert_eq!(outcome(&t, &h1), Some(Ok(Confirmation::Ack(Some(returned("lost"))))));
    assert_eq!(t.returned_count(), 0);
    assert_eq!(t.drop_pending(h2.tag(), true), Ok(()));
    assert_eq!(outcome(&t, &h2), Some(Ok(Confirmation::Ack(None))));
    let c = Confirmation::Ack(Some(returned("x")));
    assert!(c.is_ack() && c.was_returned());
}

#[test]
fn drop_all_settles_in_tag_order_with_returned_messages() {
    let mut t = table();
    let h1 = t.register_pending();
    let h2 = t.register_pending();
    let h3 = t.register_pending();
    t.push_returned(returned("a"));
    t.push_returned(returned("b"));
    t.drop_all(false);
    assert_eq!(t.pending_count(), 0);
    assert_eq!(outcome(&t, &h1), Some(Ok(Confirmation::Nack(Some(returned("a"))))));
    assert_eq!(outcome(&t, &h2), Some(Ok(Confirmation::Nack(Some(returned("b"))))));
    assert_eq!(outcome(&t, &h3), Some(Ok(Confirmation::Nack(None))));
}

#[test]
fn waiters_are_handed_back_after_settlement() {
    let mut t = table();
    let h1 = t.register_pending();
    let h2 = t.register_pending();
    assert!(t.register_waiter(&h1, 100));
    assert!(t.register_waiter(&h1, 100));
    assert!(t.register_waiter(&h2, 200));
    assert_eq!(t.take_wakeups(), Vec::<u64>::new());
    assert_eq!(t.complete_pending_before(1, true), Ok(()));
    assert_eq!(t.take_wakeups(), vec![100]);
    assert!(!t.register_waiter(&h1, 100));
    t.on_channel_error(channel_error());
    assert_eq!(t.take_wakeups(), vec![200]);
    assert_eq!(t.take_wakeups(), Vec::<u64>::new());
}

#[test]
fn released_handle_no_longer_observes() {
    let mut t = table();
    let h1 = t.register_pending();
    let copy_tag = h1.tag();
    t.release(h1);
    let h2 = t.register_pending();
    assert_eq!(t.drop_pending(copy_tag, true), Ok(()));
    assert_eq!(t.drop_pending(h2.tag(), true), Ok(()));
    assert_eq!(outcome(&t, &h2), Some(Ok(Confirmation::Ack(None))));
    assert_eq!(t.channel_id(), 3);
}

#[test]
fn unknown_tag_reports_precondition_failed() {
    let mut t = table();
    let err = t.drop_pending(1, true).unwrap_err();
    assert_eq!(err.reply_code(), 406);
    assert_eq!(err.current, 0);
}

#[test]
fn batch_settlement_hands_back_waiters_in_tag_order() {
    let mut t = table();
    let h1 = t.register_pending();
    let h2 = t.register_pending();
    let h3 = t.register_pending();
    assert!(t.register_waiter(&h3, 30));
    assert!(t.register_waiter(&h1, 10));
    assert!(t.register_waiter(&h2, 20));
    assert!(t.register_waiter(&h2, 21));
    t.drop_all(true);
    assert_eq!(t.take_wakeups(), vec![10, 20, 21, 30]);
}

#[test]
fn superseded_slot_handle_is_released() {
    let mut t = table();
    let h1 = t.register_pending();
    let _h2 = t.register_pending();
    assert_eq!(t.drop_pending(h1.tag(), false), Ok(()));
    assert_eq!(outcome(&t, &h1), Some(Ok(Confirmation::Nack(None))));
    t.release(h1);
    let last = t.get_last_pending().unwrap();
    assert_eq!(last.tag(), 2);
    assert!(t.register_waiter(&last, 5));
}

#[test]
fn earlier_handles_keep_observing_after_later_registrations() {
    let mut t = table();
    let h1 = t.register_pending();
    let h2 = t.register_pending();
    let h3 = t.register_pending();
    let slot = t.get_last_pending().unwrap();
    assert_eq!(slot.tag(), 3);
    t.on_channel_error(channel_error());
    for h in [&h1, &h2, &h3, &slot] {
        assert_eq!(outcome(&t, h), Some(Err(channel_error())));
    }
}

#[test]
fn forgotten_waiter_is_not_woken() {
    let mut t = table();
    let h1 = t.register_pending();
    assert!(t.register_waiter(&h1, 1));
    assert!(t.register_waiter(&h1, 2));
    t.forget_waiter(&h1, 1);
    assert_eq!(t.drop_pending(1, true), Ok(()));
    assert_eq!(t.take_wakeups(), vec![2]);
}

#[test]
fn waker_remove_keeps_the_others() {
    let mut w = Wakers::new();
    w.register(1);
    w.register(2);
    w.register(3);
    w.remove(2);
    w.remove(9);
    assert_eq!(w.wake(), vec![1, 3]);
}

#[test]
fn released_settled_handle_is_dropped_from_table() {
    let mut t = table();
    let h1 = t.register_pending();
    let tag = h1.tag();
    assert_eq!(t.drop_pending(tag, true), Ok(()));
    let slot = t.get_last_pending().unwrap();
    t.release(h1);
    assert_eq!(outcome(&t, &slot), Some(Ok(Confirmation::Ack(None))));
    t.release(slot);
    assert_eq!(t.pending_count(), 0);
}
