//! The state of the queues as a mathematical value, and the transition
//! function that every accepted event applies to it.

use crate::error::StoreError;
use crate::event::{DeliveryView, EventView, OutcomeView};
use vstd::prelude::*;

verus! {

/// Where a message stands in its life. A deleted message is purged from its
/// queue at once, so no stored message is ever in a third state.
#[derive(Clone, Copy, Debug, PartialEq, Eq, Structural)]
pub enum MessageState {
    /// Waiting to be received.
    Available,
    /// Leased to a receiver until `deadline`, under `receipt_handle`.
    InFlight { receipt_handle: u64, deadline: u64 },
}

/// The mathematical value of a message.
pub struct MessageView {
    pub body: Seq<char>,
    pub state: MessageState,
}

impl MessageView {
    /// The message is in flight under the handle `receipt_handle`.
    pub open spec fn leased_under(self, receipt_handle: u64) -> bool {
        self.state matches MessageState::InFlight { receipt_handle: h, .. } && h == receipt_handle
    }

    /// The message is in flight and its deadline is not after `now`.
    pub open spec fn lapsed(self, now: u64) -> bool {
        self.state matches MessageState::InFlight { deadline, .. } && deadline <= now
    }
}

/// The mathematical value of a queue: its messages in arrival order.
pub struct QueueView {
    pub id: Seq<char>,
    pub visibility_timeout: u64,
    pub messages: Seq<MessageView>,
}

/// The instant at which a lease taken at `now` ends. It never wraps: a lease
/// that would end after the last representable instant ends at that instant.
pub open spec fn lease_deadline(now: u64, visibility_timeout: u64) -> u64 {
    if now + visibility_timeout > u64::MAX {
        u64::MAX
    } else {
        (now + visibility_timeout) as u64
    }
}

impl QueueView {
    /// A queue without messages.
    pub open spec fn empty(id: Seq<char>, visibility_timeout: u64) -> QueueView {
        QueueView { id, visibility_timeout, messages: Seq::empty() }
    }

    /// How many of the first `i` messages are available.
    pub open spec fn rank(self, i: int) -> nat
        decreases i,
    {
        if i <= 0 || i > self.messages.len() {
            0
        } else if self.messages[i - 1].state is Available {
            self.rank(i - 1) + 1
        } else {
            self.rank(i - 1)
        }
    }

    /// How many messages are available.
    pub open spec fn available(self) -> nat {
        self.rank(self.messages.len() as int)
    }

    /// How many messages a receive takes that asks for `max_messages` while
    /// `next_receipt` is the next unused receipt handle.
    pub open spec fn leasable(self, max_messages: u64, next_receipt: u64) -> nat {
        let room = (u64::MAX - next_receipt) as nat;
        let wanted = if max_messages as nat <= room { max_messages as nat } else { room };
        if self.available() <= wanted { self.available() } else { wanted }
    }

    /// Message `i` is among the `count` oldest available ones.
    pub open spec fn selected(self, i: int, count: nat) -> bool {
        0 <= i < self.messages.len() && self.messages[i].state is Available && self.rank(i) < count
    }

    /// The queue after its `count` oldest available messages were leased
    /// until `deadline`, under the handles `first`, `first + 1`, ... in
    /// arrival order. No other message changes, and none changes place.
    pub open spec fn lease(self, count: nat, first: u64, deadline: u64) -> QueueView {
        QueueView {
            messages: Seq::new(
                self.messages.len(),
                |i: int|
                    if self.selected(i, count) {
                        MessageView {
                            body: self.messages[i].body,
                            state: MessageState::InFlight {
                                receipt_handle: (first + self.rank(i)) as u64,
                                deadline,
                            },
                        }
                    } else {
                        self.messages[i]
                    },
            ),
            ..self
        }
    }

    /// The place of the available message that has `r` available messages
    /// before it.
    pub open spec fn nth_available(self, r: nat) -> int {
        choose|i: int| self.selected(i, r + 1) && self.rank(i) == r
    }

    /// What a receive of `count` messages hands out: the `count` oldest
    /// available messages in arrival order, each with its new handle.
    pub open spec fn deliveries(self, count: nat, first: u64) -> Seq<DeliveryView> {
        Seq::new(
            count,
            |r: int|
                DeliveryView {
                    receipt_handle: (first + r) as u64,
                    body: self.messages[self.nth_available(r as nat)].body,
                },
        )
    }

    /// Counting further messages never lowers the rank, and raises it by at
    /// most one for each.
    pub proof fn lemma_rank_monotone(self, i: int, j: int)
        requires
            0 <= i <= j <= self.messages.len(),
        ensures
            self.rank(i) <= self.rank(j) <= self.rank(i) + (j - i),
        decreases j - i,
    {
        if i < j {
            self.lemma_rank_monotone(i, j - 1);
        }
    }

    /// An available message raises the rank of everything behind it.
    pub proof fn lemma_rank_strict(self, i: int, j: int)
        requires
            0 <= i < j <= self.messages.len(),
            self.messages[i].state is Available,
        ensures
            self.rank(i) < self.rank(j),
    {
        self.lemma_rank_monotone(i + 1, j);
    }

    /// An available message is found again by its rank.
    pub proof fn lemma_nth_available(self, i: int)
        requires
            0 <= i < self.messages.len(),
            self.messages[i].state is Available,
        ensures
            self.nth_available(self.rank(i)) == i,
    {
        let r = self.rank(i);
        assert(self.selected(i, r + 1) && self.rank(i) == r);
        let k = self.nth_available(r);
        assert(self.selected(k, r + 1) && self.rank(k) == r);
        if k < i {
            self.lemma_rank_strict(k, i);
        } else if i < k {
            self.lemma_rank_strict(i, k);
        }
    }

    /// Below the rank of a place, every rank belongs to an available message
    /// before that place.
    proof fn lemma_rank_reached(self, upto: int, r: nat)
        requires
            0 <= upto <= self.messages.len(),
            r < self.rank(upto),
        ensures
            exists|i: int| 0 <= i < upto && self.selected(i, r + 1) && self.rank(i) == r,
        decreases upto,
    {
        if self.messages[upto - 1].state is Available && self.rank(upto - 1) == r {
            assert(self.selected(upto - 1, r + 1));
        } else {
            self.lemma_rank_reached(upto - 1, r);
        }
    }

    /// Each rank below the number of available messages belongs to one of
    /// them.
    pub proof fn lemma_nth_available_exists(self, r: nat)
        requires
            r < self.available(),
        ensures
            self.selected(self.nth_available(r), r + 1),
            self.rank(self.nth_available(r)) == r,
    {
        self.lemma_rank_reached(self.messages.len() as int, r);
    }

    /// Some message is in flight under `receipt_handle`.
    pub open spec fn has_lease(self, receipt_handle: u64) -> bool {
        exists|i: int|
            0 <= i < self.messages.len() && #[trigger] self.messages[i].leased_under(
                receipt_handle,
            )
    }

    /// Message `i` is the oldest one in flight under `receipt_handle`.
    pub open spec fn oldest_lease(self, i: int, receipt_handle: u64) -> bool {
        &&& 0 <= i < self.messages.len()
        &&& self.messages[i].leased_under(receipt_handle)
        &&& forall|j: int| 0 <= j < i ==> !#[trigger] self.messages[j].leased_under(receipt_handle)
    }

    /// The place of the oldest message in flight under `receipt_handle`.
    pub open spec fn lease_index(self, receipt_handle: u64) -> int {
        choose|i: int| self.oldest_lease(i, receipt_handle)
    }

    /// Where a message is in flight under a handle, one of them is the oldest.
    proof fn lemma_oldest_lease_exists(self, i: int, receipt_handle: u64)
        requires
            0 <= i < self.messages.len(),
            self.messages[i].leased_under(receipt_handle),
        ensures
            exists|k: int| self.oldest_lease(k, receipt_handle),
        decreases i,
    {
        if exists|j: int| 0 <= j < i && #[trigger] self.messages[j].leased_under(receipt_handle) {
            let j = choose|j: int|
                0 <= j < i && #[trigger] self.messages[j].leased_under(receipt_handle);
            self.lemma_oldest_lease_exists(j, receipt_handle);
        } else {
            assert(self.oldest_lease(i, receipt_handle));
        }
    }

    /// A handle under which a message is in flight leads to the oldest such
    /// message.
    pub proof fn lemma_lease_index(self, receipt_handle: u64)
        requires
            self.has_lease(receipt_handle),
        ensures
            self.oldest_lease(self.lease_index(receipt_handle), receipt_handle),
    {
        let i = choose|i: int|
            0 <= i < self.messages.len() && #[trigger] self.messages[i].leased_under(
                receipt_handle,
            );
        self.lemma_oldest_lease_exists(i, receipt_handle);
    }

    /// The oldest message in flight under a handle is the one that the handle
    /// leads to.
    pub proof fn lemma_lease_index_is(self, i: int, receipt_handle: u64)
        requires
            self.oldest_lease(i, receipt_handle),
        ensures
            self.has_lease(receipt_handle),
            self.lease_index(receipt_handle) == i,
    {
        let k = self.lease_index(receipt_handle);
        assert(self.oldest_lease(k, receipt_handle));
    }

    /// The queue with one more available message at its tail.
    pub open spec fn send(self, body: Seq<char>) -> QueueView {
        QueueView {
            messages: self.messages.push(MessageView { body, state: MessageState::Available }),
            ..self
        }
    }

    /// The queue without the message at `i`.
    pub open spec fn purge(self, i: int) -> QueueView {
        QueueView { messages: self.messages.remove(i), ..self }
    }

    /// The queue with the message at `i` available again, in its old place.
    pub open spec fn release(self, i: int) -> QueueView {
        QueueView {
            messages: self.messages.update(
                i,
                MessageView { body: self.messages[i].body, state: MessageState::Available },
            ),
            ..self
        }
    }
}

/// The mathematical value of the store: the queues in the order of their
/// creation, and the next receipt handle that no delivery has used.
pub struct StoreView {
    pub queues: Seq<QueueView>,
    pub next_receipt: u64,
}

impl StoreView {
    /// The store before any event.
    pub open spec fn empty() -> StoreView {
        StoreView { queues: Seq::empty(), next_receipt: 0 }
    }

    /// Some queue has the id `id`.
    pub open spec fn has_queue(self, id: Seq<char>) -> bool {
        exists|i: int| 0 <= i < self.queues.len() && (#[trigger] self.queues[i]).id == id
    }

    /// The place of the queue with the id `id`.
    pub open spec fn queue_index(self, id: Seq<char>) -> int {
        choose|i: int| 0 <= i < self.queues.len() && (#[trigger] self.queues[i]).id == id
    }

    /// The handle under which message `m` of queue `q` is in flight, if it is.
    pub open spec fn lease_at(self, q: int, m: int) -> Option<u64> {
        if 0 <= q < self.queues.len() && 0 <= m < self.queues[q].messages.len() {
            match self.queues[q].messages[m].state {
                MessageState::InFlight { receipt_handle, .. } => Some(receipt_handle),
                MessageState::Available => None,
            }
        } else {
            None
        }
    }

    /// What holds of every state that events lead to: no two queues share an
    /// id, every handle in use was issued before `next_receipt`, and no two
    /// messages are in flight under one handle.
    pub open spec fn wf(self) -> bool {
        &&& forall|i: int, j: int|
            0 <= i < j < self.queues.len() ==> (#[trigger] self.queues[i]).id != (
            #[trigger] self.queues[j]).id
        &&& forall|q: int, m: int|
            (#[trigger] self.lease_at(q, m)) matches Some(h) ==> h < self.next_receipt
        &&& forall|q1: int, m1: int, q2: int, m2: int|
            (#[trigger] self.lease_at(q1, m1)) is Some && self.lease_at(q1, m1)
                == #[trigger] self.lease_at(q2, m2) ==> q1 == q2 && m1 == m2
    }

    /// The store with queue `q` replaced by `queue`.
    pub open spec fn with_queue(self, q: int, queue: QueueView) -> StoreView {
        StoreView { queues: self.queues.update(q, queue), ..self }
    }

    /// Why `event` is refused in this state, if it is. An expiry is never
    /// refused: where its lease is gone, it changes nothing.
    pub open spec fn refusal(self, event: EventView) -> Option<StoreError> {
        let q = self.queue_index(event.queue_id());
        match event {
            EventView::QueueCreated { queue_id, .. } => {
                if self.has_queue(queue_id) {
                    Some(StoreError::QueueAlreadyExists)
                } else {
                    None
                }
            },
            EventView::QueueDeleted { queue_id } | EventView::MessageSent { queue_id, .. }
            | EventView::MessageReceived { queue_id, .. } => {
                if self.has_queue(queue_id) {
                    None
                } else {
                    Some(StoreError::QueueNotFound)
                }
            },
            EventView::MessageDeleted { queue_id, receipt_handle } => {
                if !self.has_queue(queue_id) {
                    Some(StoreError::QueueNotFound)
                } else if !self.queues[q].has_lease(receipt_handle) {
                    Some(StoreError::ReceiptHandleInvalid)
                } else {
                    None
                }
            },
            EventView::MessageVisibilityExpired { .. } => None,
        }
    }

    /// The state that an accepted `event` leads to when it is applied at the
    /// instant `now`.
    pub open spec fn after(self, event: EventView, now: u64) -> StoreView {
        let q = self.queue_index(event.queue_id());
        match event {
            EventView::QueueCreated { queue_id, visibility_timeout } => StoreView {
                queues: self.queues.push(QueueView::empty(queue_id, visibility_timeout)),
                ..self
            },
            EventView::QueueDeleted { .. } => StoreView { queues: self.queues.remove(q), ..self },
            EventView::MessageSent { body, .. } => self.with_queue(q, self.queues[q].send(body)),
            EventView::MessageReceived { max_messages, .. } => {
                let queue = self.queues[q];
                let count = queue.leasable(max_messages, self.next_receipt);
                let deadline = lease_deadline(now, queue.visibility_timeout);
                StoreView {
                    queues: self.queues.update(q, queue.lease(count, self.next_receipt, deadline)),
                    next_receipt: (self.next_receipt + count) as u64,
                }
            },
            EventView::MessageDeleted { receipt_handle, .. } => {
                let queue = self.queues[q];
                self.with_queue(q, queue.purge(queue.lease_index(receipt_handle)))
            },
            EventView::MessageVisibilityExpired { queue_id, receipt_handle } => {
                if self.has_queue(queue_id) && self.queues[q].has_lease(receipt_handle) {
                    let queue = self.queues[q];
                    self.with_queue(q, queue.release(queue.lease_index(receipt_handle)))
                } else {
                    self
                }
            },
        }
    }

    /// What an accepted `event` hands back: the leased messages for a
    /// receive, nothing for any other event.
    pub open spec fn yields(self, event: EventView) -> OutcomeView {
        match event {
            EventView::MessageReceived { queue_id, max_messages } => {
                let queue = self.queues[self.queue_index(queue_id)];
                OutcomeView::Delivered(
                    queue.deliveries(
                        queue.leasable(max_messages, self.next_receipt),
                        self.next_receipt,
                    ),
                )
            },
            _ => OutcomeView::Done,
        }
    }

    /// The transition function: the state after `event` was applied at the
    /// instant `now` and what the event hands back, or the reason for which
    /// the event is refused.
    pub open spec fn step(self, event: EventView, now: u64) -> Result<
        (StoreView, OutcomeView),
        StoreError,
    > {
        match self.refusal(event) {
            Some(error) => Err(error),
            None => Ok((self.after(event, now), self.yields(event))),
        }
    }

    /// In a well-formed store a queue is found by its id.
    pub proof fn lemma_queue_index(self, i: int)
        requires
            self.wf(),
            0 <= i < self.queues.len(),
        ensures
            self.has_queue(self.queues[i].id),
            self.queue_index(self.queues[i].id) == i,
    {
        let id = self.queues[i].id;
        let k = self.queue_index(id);
        assert(0 <= k < self.queues.len() && self.queues[k].id == id);
    }
}

} // verus!
