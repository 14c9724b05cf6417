use vstd::prelude::*;

verus! {

/// The error a channel fails with; every confirmation still outstanding at
/// that moment is rejected with it.
#[derive(Clone, Copy, Debug, PartialEq, Eq, Structural)]
pub struct ChannelError {
    pub reply_code: u16,
    pub class_id: u16,
    pub method_id: u16,
}

/// A published message that the broker handed back as unroutable.
#[derive(Clone, Debug, PartialEq, Eq)]
pub struct ReturnedMessage {
    pub reply_code: u16,
    pub reply_text: String,
    pub exchange: String,
    pub routing_key: String,
    pub body: Vec<u8>,
}

/// The broker's verdict on one published message, with the message itself
/// when it was returned as unroutable.
#[derive(Clone, Debug, PartialEq, Eq)]
pub enum Confirmation {
    Ack(Option<ReturnedMessage>),
    Nack(Option<ReturnedMessage>),
}

/// The confirmation an ack (`success`) or a nack gives, carrying `returned`.
pub open spec fn confirmation_of(success: bool, returned: Option<ReturnedMessage>) -> Confirmation {
    if success {
        Confirmation::Ack(returned)
    } else {
        Confirmation::Nack(returned)
    }
}

/// The message that a store holding `waiting` hands out next, if any.
pub open spec fn next_returned(waiting: Seq<ReturnedMessage>) -> Option<ReturnedMessage> {
    if waiting.len() == 0 {
        None
    } else {
        Some(waiting[0])
    }
}

/// What a store holding `waiting` holds once it handed out its next message.
pub open spec fn after_returned(waiting: Seq<ReturnedMessage>) -> Seq<ReturnedMessage> {
    if waiting.len() == 0 {
        waiting
    } else {
        waiting.drop_first()
    }
}

impl Confirmation {
    /// Whether the broker acknowledged the message.
    pub fn is_ack(&self) -> (r: bool)
        ensures
            r == (self is Ack),
    {
        match self {
            Confirmation::Ack(_) => true,
            Confirmation::Nack(_) => false,
        }
    }

    /// Whether the broker returned the message as unroutable.
    pub fn was_returned(&self) -> (r: bool)
        ensures
            r == match self {
                Confirmation::Ack(m) => m is Some,
                Confirmation::Nack(m) => m is Some,
            },
    {
        match self {
            Confirmation::Ack(m) => m.is_some(),
            Confirmation::Nack(m) => m.is_some(),
        }
    }
}

/// The messages returned as unroutable on one channel, buffered in arrival
/// order until the confirmation they belong to is resolved.
pub struct ReturnedMessages {
    waiting: Vec<ReturnedMessage>,
}

impl ReturnedMessages {
    /// The buffered messages, oldest first.
    pub closed spec fn view(&self) -> Seq<ReturnedMessage> {
        self.waiting@
    }

    /// An empty buffer.
    pub fn new() -> (r: Self)
        ensures
            r@ == Seq::<ReturnedMessage>::empty(),
    {
        ReturnedMessages { waiting: Vec::new() }
    }

    /// Buffers a message that the broker returned.
    pub fn push(&mut self, message: ReturnedMessage)
        ensures
            final(self)@ == old(self)@.push(message),
    {
        self.waiting.push(message);
    }

    /// Takes the oldest buffered message, if any.
    pub fn get_waiting_message(&mut self) -> (r: Option<ReturnedMessage>)
        ensures
            r == next_returned(old(self)@),
            final(self)@ == after_returned(old(self)@),
    {
        if self.waiting.len() == 0 {
            None
        } else {
            Some(self.waiting.remove(0))
        }
    }

    /// How many messages are buffered.
    pub fn len(&self) -> (r: usize)
        ensures
            r == self@.len(),
    {
        self.waiting.len()
    }
}

} // verus!
