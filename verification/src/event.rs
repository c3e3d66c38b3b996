//! Events, the only way in which state changes, and what applying one yields.

use vstd::prelude::*;

verus! {

/// One accepted change of state.
#[derive(Clone, Debug, PartialEq, Eq)]
pub enum RQSEvent {
    QueueCreated { queue_id: String, visibility_timeout: u64 },
    QueueDeleted { queue_id: String },
    MessageSent { queue_id: String, body: String },
    MessageReceived { queue_id: String, max_messages: u64 },
    MessageDeleted { queue_id: String, receipt_handle: u64 },
    /// Issued by the lease sweeper, never by a client.
    MessageVisibilityExpired { queue_id: String, receipt_handle: u64 },
}

/// The mathematical value of an event.
pub enum EventView {
    QueueCreated { queue_id: Seq<char>, visibility_timeout: u64 },
    QueueDeleted { queue_id: Seq<char> },
    MessageSent { queue_id: Seq<char>, body: Seq<char> },
    MessageReceived { queue_id: Seq<char>, max_messages: u64 },
    MessageDeleted { queue_id: Seq<char>, receipt_handle: u64 },
    MessageVisibilityExpired { queue_id: Seq<char>, receipt_handle: u64 },
}

impl EventView {
    /// The queue that the event addresses.
    pub open spec fn queue_id(self) -> Seq<char> {
        match self {
            EventView::QueueCreated { queue_id, .. } => queue_id,
            EventView::QueueDeleted { queue_id } => queue_id,
            EventView::MessageSent { queue_id, .. } => queue_id,
            EventView::MessageReceived { queue_id, .. } => queue_id,
            EventView::MessageDeleted { queue_id, .. } => queue_id,
            EventView::MessageVisibilityExpired { queue_id, .. } => queue_id,
        }
    }
}

impl EventView {
    /// The number that tells the kinds of event apart in a log record.
    pub open spec fn tag(self) -> u8 {
        match self {
            EventView::QueueCreated { .. } => 0,
            EventView::QueueDeleted { .. } => 1,
            EventView::MessageSent { .. } => 2,
            EventView::MessageReceived { .. } => 3,
            EventView::MessageDeleted { .. } => 4,
            EventView::MessageVisibilityExpired { .. } => 5,
        }
    }

    /// The number that the event carries: a timeout, a count or a receipt
    /// handle; zero where it carries none.
    pub open spec fn number(self) -> u64 {
        match self {
            EventView::QueueCreated { visibility_timeout, .. } => visibility_timeout,
            EventView::QueueDeleted { .. } => 0,
            EventView::MessageSent { .. } => 0,
            EventView::MessageReceived { max_messages, .. } => max_messages,
            EventView::MessageDeleted { receipt_handle, .. } => receipt_handle,
            EventView::MessageVisibilityExpired { receipt_handle, .. } => receipt_handle,
        }
    }

    /// The payload that the event carries; empty where it carries none.
    pub open spec fn body(self) -> Seq<char> {
        match self {
            EventView::MessageSent { body, .. } => body,
            _ => Seq::empty(),
        }
    }

    /// The event with the given parts, if there is one: the tag names a kind
    /// of event, and a part that this kind does not carry is zero or empty.
    pub open spec fn assemble(tag: u8, number: u64, queue_id: Seq<char>, body: Seq<char>) -> Option<
        EventView,
    > {
        if tag != 2 && body.len() != 0 {
            None
        } else if tag == 0 {
            Some(EventView::QueueCreated { queue_id, visibility_timeout: number })
        } else if tag == 1 && number == 0 {
            Some(EventView::QueueDeleted { queue_id })
        } else if tag == 2 && number == 0 {
            Some(EventView::MessageSent { queue_id, body })
        } else if tag == 3 {
            Some(EventView::MessageReceived { queue_id, max_messages: number })
        } else if tag == 4 {
            Some(EventView::MessageDeleted { queue_id, receipt_handle: number })
        } else if tag == 5 {
            Some(EventView::MessageVisibilityExpired { queue_id, receipt_handle: number })
        } else {
            None
        }
    }

    /// An event is put together again from its own parts.
    pub proof fn lemma_assemble(self)
        ensures
            EventView::assemble(self.tag(), self.number(), self.queue_id(), self.body()) == Some(
                self,
            ),
    {
    }
}

impl View for RQSEvent {
    type V = EventView;

    open spec fn view(&self) -> EventView {
        match *self {
            RQSEvent::QueueCreated { queue_id, visibility_timeout } => EventView::QueueCreated {
                queue_id: queue_id@,
                visibility_timeout,
            },
            RQSEvent::QueueDeleted { queue_id } => EventView::QueueDeleted { queue_id: queue_id@ },
            RQSEvent::MessageSent { queue_id, body } => EventView::MessageSent {
                queue_id: queue_id@,
                body: body@,
            },
            RQSEvent::MessageReceived { queue_id, max_messages } => EventView::MessageReceived {
                queue_id: queue_id@,
                max_messages,
            },
            RQSEvent::MessageDeleted { queue_id, receipt_handle } => EventView::MessageDeleted {
                queue_id: queue_id@,
                receipt_handle,
            },
            RQSEvent::MessageVisibilityExpired {
                queue_id,
                receipt_handle,
            } => EventView::MessageVisibilityExpired { queue_id: queue_id@, receipt_handle },
        }
    }
}

impl RQSEvent {
    /// The queue that the event addresses.
    pub fn queue_id(&self) -> (id: &String)
        ensures
            id@ == self@.queue_id(),
    {
        match self {
            RQSEvent::QueueCreated { queue_id, .. } => queue_id,
            RQSEvent::QueueDeleted { queue_id } => queue_id,
            RQSEvent::MessageSent { queue_id, .. } => queue_id,
            RQSEvent::MessageReceived { queue_id, .. } => queue_id,
            RQSEvent::MessageDeleted { queue_id, .. } => queue_id,
            RQSEvent::MessageVisibilityExpired { queue_id, .. } => queue_id,
        }
    }
}

impl RQSEvent {
    /// The number that tells the kinds of event apart in a log record.
    pub fn tag(&self) -> (tag: u8)
        ensures
            tag == self@.tag(),
    {
        match self {
            RQSEvent::QueueCreated { .. } => 0,
            RQSEvent::QueueDeleted { .. } => 1,
            RQSEvent::MessageSent { .. } => 2,
            RQSEvent::MessageReceived { .. } => 3,
            RQSEvent::MessageDeleted { .. } => 4,
            RQSEvent::MessageVisibilityExpired { .. } => 5,
        }
    }

    /// The number that the event carries; zero where it carries none.
    pub fn number(&self) -> (number: u64)
        ensures
            number == self@.number(),
    {
        match self {
            RQSEvent::QueueCreated { visibility_timeout, .. } => *visibility_timeout,
            RQSEvent::QueueDeleted { .. } => 0,
            RQSEvent::MessageSent { .. } => 0,
            RQSEvent::MessageReceived { max_messages, .. } => *max_messages,
            RQSEvent::MessageDeleted { receipt_handle, .. } => *receipt_handle,
            RQSEvent::MessageVisibilityExpired { receipt_handle, .. } => *receipt_handle,
        }
    }

    /// The payload that the event carries, if it carries one.
    pub fn body(&self) -> (body: Option<&String>)
        ensures
            match body {
                Some(text) => text@ == self@.body() && self@ is MessageSent,
                None => self@.body() == Seq::<char>::empty() && !(self@ is MessageSent),
            },
    {
        match self {
            RQSEvent::MessageSent { body, .. } => Some(body),
            _ => None,
        }
    }

    /// The event with the given parts, if there is one.
    pub fn assemble(tag: u8, number: u64, queue_id: String, body: String) -> (event: Option<
        RQSEvent,
    >)
        ensures
            match EventView::assemble(tag, number, queue_id@, body@) {
                Some(view) => event matches Some(e) && e@ == view,
                None => event is None,
            },
    {
        if tag != 2 && !body.as_str().is_empty() {
            None
        } else if tag == 0 {
            Some(RQSEvent::QueueCreated { queue_id, visibility_timeout: number })
        } else if tag == 1 && number == 0 {
            Some(RQSEvent::QueueDeleted { queue_id })
        } else if tag == 2 && number == 0 {
            Some(RQSEvent::MessageSent { queue_id, body })
        } else if tag == 3 {
            Some(RQSEvent::MessageReceived { queue_id, max_messages: number })
        } else if tag == 4 {
            Some(RQSEvent::MessageDeleted { queue_id, receipt_handle: number })
        } else if tag == 5 {
            Some(RQSEvent::MessageVisibilityExpired { queue_id, receipt_handle: number })
        } else {
            None
        }
    }
}

/// One delivery of a message: its body and the handle under which this
/// delivery can be acknowledged.
#[derive(Clone, Debug, PartialEq, Eq)]
pub struct Delivery {
    pub receipt_handle: u64,
    pub body: String,
}

/// The mathematical value of a delivery.
pub struct DeliveryView {
    pub receipt_handle: u64,
    pub body: Seq<char>,
}

impl View for Delivery {
    type V = DeliveryView;

    open spec fn view(&self) -> DeliveryView {
        DeliveryView { receipt_handle: self.receipt_handle, body: self.body@ }
    }
}

/// The mathematical value of a list of deliveries.
pub open spec fn deliveries_view(deliveries: Seq<Delivery>) -> Seq<DeliveryView> {
    Seq::new(deliveries.len(), |i: int| deliveries[i]@)
}

/// What an accepted event hands back to its caller.
#[derive(Clone, Debug, PartialEq, Eq)]
pub enum Outcome {
    /// The event was applied; there is nothing to report.
    Done,
    /// The messages that a `MessageReceived` event leased, oldest first.
    Delivered(Vec<Delivery>),
}

/// The mathematical value of an outcome.
pub enum OutcomeView {
    Done,
    Delivered(Seq<DeliveryView>),
}

impl View for Outcome {
    type V = OutcomeView;

    open spec fn view(&self) -> OutcomeView {
        match *self {
            Outcome::Done => OutcomeView::Done,
            Outcome::Delivered(deliveries) => OutcomeView::Delivered(deliveries_view(deliveries@)),
        }
    }
}

} // verus!
