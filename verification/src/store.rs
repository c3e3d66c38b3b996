//! The queues and their messages in memory, and the events applied to them.

use crate::error::StoreError;
use crate::event::{deliveries_view, Delivery, Outcome, RQSEvent};
use crate::model::{lease_deadline, MessageState, MessageView, QueueView, StoreView};
use crate::wellformed::lemma_step_wf;
use vstd::prelude::*;

verus! {

/// A message of a queue.
#[derive(Debug)]
pub struct Message {
    body: String,
    state: MessageState,
}

impl View for Message {
    type V = MessageView;

    closed spec fn view(&self) -> MessageView {
        MessageView { body: self.body@, state: self.state }
    }
}

impl Message {
    /// The payload, as it was sent.
    pub fn get_body(&self) -> (body: &String)
        ensures
            body@ == self@.body,
    {
        &self.body
    }

    /// Where the message stands in its life.
    pub fn get_state(&self) -> (state: MessageState)
        ensures
            state == self@.state,
    {
        self.state
    }
}

/// A named queue: its messages in arrival order.
#[derive(Debug)]
pub struct MessageQueue {
    id: String,
    visibility_timeout: u64,
    messages: Vec<Message>,
}

impl View for MessageQueue {
    type V = QueueView;

    closed spec fn view(&self) -> QueueView {
        QueueView {
            id: self.id@,
            visibility_timeout: self.visibility_timeout,
            messages: Seq::new(self.messages@.len(), |i: int| self.messages@[i]@),
        }
    }
}

impl MessageQueue {
    fn new(id: String, visibility_timeout: u64) -> (queue: MessageQueue)
        ensures
            queue@ == QueueView::empty(id@, visibility_timeout),
    {
        let queue = MessageQueue { id, visibility_timeout, messages: Vec::new() };
        assert(queue@.messages =~= Seq::empty());
        queue
    }

    /// The id under which the queue was created.
    pub fn get_name(&self) -> (name: &String)
        ensures
            name@ == self@.id,
    {
        &self.id
    }

    /// For how long a received message stays hidden from other receivers.
    pub fn get_visibility_timeout(&self) -> (timeout: u64)
        ensures
            timeout == self@.visibility_timeout,
    {
        self.visibility_timeout
    }

    /// The messages in arrival order.
    pub fn get_messages(&self) -> (messages: &Vec<Message>)
        ensures
            messages@.len() == self@.messages.len(),
            forall|i: int| 0 <= i < messages@.len() ==> (#[trigger] messages@[i])@ == self@.messages[i],
    {
        &self.messages
    }

    fn send(&mut self, body: String)
        ensures
            final(self)@ == old(self)@.send(body@),
    {
        self.messages.push(Message { body, state: MessageState::Available });
        assert(self@.messages =~= old(self)@.send(body@).messages);
    }

    fn purge(&mut self, i: usize)
        requires
            i < old(self)@.messages.len(),
        ensures
            final(self)@ == old(self)@.purge(i as int),
    {
        self.messages.remove(i);
        assert(self@.messages =~= old(self)@.purge(i as int).messages);
    }

    fn release(&mut self, i: usize)
        requires
            i < old(self)@.messages.len(),
        ensures
            final(self)@ == old(self)@.release(i as int),
    {
        self.messages[i].state = MessageState::Available;
        assert(self@.messages =~= old(self)@.release(i as int).messages);
    }

    /// How many messages a receive of at most `max_messages` takes.
    fn leasable(&self, max_messages: u64, next_receipt: u64) -> (count: u64)
        ensures
            count == self@.leasable(max_messages, next_receipt),
    {
        let room = u64::MAX - next_receipt;
        let wanted = if max_messages <= room { max_messages } else { room };
        let mut count: u64 = 0;
        let mut i: usize = 0;
        while i < self.messages.len() && count < wanted
            invariant
                i <= self.messages@.len(),
                count == self@.rank(i as int),
                count <= wanted,
            decreases self.messages@.len() - i,
        {
            match self.messages[i].state {
                MessageState::Available => {
                    count += 1;
                },
                MessageState::InFlight { .. } => {},
            }
            i += 1;
        }
        proof {
            self@.lemma_rank_monotone(i as int, self@.messages.len() as int);
        }
        count
    }

    /// Leases the `count` oldest available messages until `deadline` and
    /// hands them out, oldest first.
    fn lease(&mut self, count: u64, first: u64, deadline: u64) -> (deliveries: Vec<Delivery>)
        requires
            count <= old(self)@.available(),
            first + count <= u64::MAX,
        ensures
            final(self)@ == old(self)@.lease(count as nat, first, deadline),
            deliveries_view(deliveries@) == old(self)@.deliveries(count as nat, first),
    {
        let ghost before = self@;
        let ghost after = before.lease(count as nat, first, deadline);
        let ghost handed = before.deliveries(count as nat, first);
        let mut deliveries: Vec<Delivery> = Vec::new();
        let mut taken: u64 = 0;
        let mut i: usize = 0;
        while i < self.messages.len() && taken < count
            invariant
                self@.id == before.id,
                self@.visibility_timeout == before.visibility_timeout,
                self@.messages.len() == before.messages.len(),
                i <= self.messages@.len(),
                taken == before.rank(i as int),
                taken <= count,
                first + count <= u64::MAX,
                after == before.lease(count as nat, first, deadline),
                handed == before.deliveries(count as nat, first),
                forall|j: int| 0 <= j < i ==> self@.messages[j] == #[trigger] after.messages[j],
                forall|j: int|
                    i <= j < self@.messages.len() ==> #[trigger] self@.messages[j]
                        == before.messages[j],
                deliveries@.len() == taken,
                forall|r: int| 0 <= r < taken ==> (#[trigger] deliveries@[r])@ == handed[r],
            decreases self.messages@.len() - i,
        {
            let ghost current = self@;
            assert(current.messages[i as int] == before.messages[i as int]);
            match self.messages[i].state {
                MessageState::Available => {
                    let handle = first + taken;
                    let body = self.messages[i].body.clone();
                    self.messages[i].state = MessageState::InFlight {
                        receipt_handle: handle,
                        deadline,
                    };
                    deliveries.push(Delivery { receipt_handle: handle, body });
                    proof {
                        before.lemma_nth_available(i as int);
                        assert(before.selected(i as int, count as nat));
                        assert(self@.messages[i as int] == after.messages[i as int]);
                    }
                    taken += 1;
                },
                MessageState::InFlight { .. } => {
                    assert(!before.selected(i as int, count as nat));
                },
            }
            assert forall|j: int| 0 <= j < self@.messages.len() && j != i implies #[trigger] self@.messages[j]
                == current.messages[j] by {}
            i += 1;
        }
        proof {
            assert forall|j: int| i <= j < before.messages.len() implies !before.selected(
                j,
                count as nat,
            ) by {
                before.lemma_rank_monotone(i as int, j);
            }
            assert(self@.messages =~= after.messages);
            assert(deliveries_view(deliveries@) =~= handed);
        }
        deliveries
    }

    /// The place of the oldest message in flight under `receipt_handle`.
    fn find_lease(&self, receipt_handle: u64) -> (found: Option<usize>)
        ensures
            found is Some <==> self@.has_lease(receipt_handle),
            found matches Some(i) ==> i == self@.lease_index(receipt_handle) && i
                < self@.messages.len(),
    {
        let mut i: usize = 0;
        while i < self.messages.len()
            invariant
                i <= self.messages@.len(),
                forall|j: int| 0 <= j < i ==> !#[trigger] self@.messages[j].leased_under(receipt_handle),
            decreases self.messages@.len() - i,
        {
            match self.messages[i].state {
                MessageState::InFlight { receipt_handle: h, .. } => {
                    if h == receipt_handle {
                        proof {
                            self@.lemma_lease_index_is(i as int, receipt_handle);
                        }
                        return Some(i);
                    }
                },
                MessageState::Available => {},
            }
            i += 1;
        }
        None
    }
}

/// The authoritative state: every queue, in the order of creation. What
/// it holds is well-formed at all times.
#[derive(Debug)]
pub struct Store {
    queues: Vec<MessageQueue>,
    next_receipt: u64,
}

/// The mathematical value of a store with these parts.
spec fn view_of(queues: Seq<MessageQueue>, next_receipt: u64) -> StoreView {
    StoreView { queues: Seq::new(queues.len(), |i: int| queues[i]@), next_receipt }
}

impl View for Store {
    type V = StoreView;

    closed spec fn view(&self) -> StoreView {
        view_of(self.queues@, self.next_receipt)
    }
}

/// The instant at which a lease taken at `now` ends.
fn deadline_after(now: u64, visibility_timeout: u64) -> (deadline: u64)
    ensures
        deadline == lease_deadline(now, visibility_timeout),
{
    if visibility_timeout > u64::MAX - now {
        u64::MAX
    } else {
        now + visibility_timeout
    }
}

impl Store {
    /// What holds of every store at all times.
    #[verifier::type_invariant]
    pub open spec fn well_formed(&self) -> bool {
        self@.wf()
    }

    /// A store without queues.
    pub fn new() -> (store: Store)
        ensures
            store@ == StoreView::empty(),
    {
        assert(view_of(Seq::empty(), 0).queues =~= Seq::empty());
        Store { queues: Vec::new(), next_receipt: 0 }
    }

    /// The queues in the order of their creation.
    pub fn get_queues(&self) -> (queues: &Vec<MessageQueue>)
        ensures
            self@.wf(),
            queues@.len() == self@.queues.len(),
            forall|i: int| 0 <= i < queues@.len() ==> (#[trigger] queues@[i])@ == self@.queues[i],
    {
        proof {
            use_type_invariant(self);
        }
        &self.queues
    }

    /// Takes the parts out of the store and leaves it empty.
    fn take(&mut self) -> (parts: (Vec<MessageQueue>, u64))
        ensures
            view_of(parts.0@, parts.1) == old(self)@,
            old(self)@.wf(),
    {
        proof {
            use_type_invariant(&*self);
        }
        let mut taken = Store::new();
        std::mem::swap(&mut taken, self);
        let Store { queues, next_receipt } = taken;
        (queues, next_receipt)
    }

    /// Puts parts into the store.
    fn put(&mut self, queues: Vec<MessageQueue>, next_receipt: u64)
        requires
            view_of(queues@, next_receipt).wf(),
        ensures
            final(self)@ == view_of(queues@, next_receipt),
    {
        *self = Store { queues, next_receipt };
    }

    /// The place of the queue with the id `id`.
    fn find_queue(&self, id: &String) -> (found: Option<usize>)
        ensures
            self@.wf(),
            found is Some <==> self@.has_queue(id@),
            found matches Some(i) ==> i < self@.queues.len() && i == self@.queue_index(id@),
    {
        proof {
            use_type_invariant(self);
        }
        let mut i: usize = 0;
        while i < self.queues.len()
            invariant
                self@.wf(),
                i <= self.queues@.len(),
                forall|j: int| 0 <= j < i ==> (#[trigger] self@.queues[j]).id != id@,
            decreases self.queues@.len() - i,
        {
            if self.queues[i].id == *id {
                proof {
                    self@.lemma_queue_index(i as int);
                }
                return Some(i);
            }
            i += 1;
        }
        None
    }

    /// Tells whether `event` would be accepted now, and if not, why. Changes
    /// nothing.
    pub fn validate(&self, event: &RQSEvent) -> (verdict: Result<(), StoreError>)
        ensures
            self@.wf(),
            verdict == (match self@.refusal(event@) {
                Some(error) => Err::<(), StoreError>(error),
                None => Ok(()),
            }),
    {
        let found = self.find_queue(event.queue_id());
        match event {
            RQSEvent::QueueCreated { .. } => {
                if found.is_some() {
                    Err(StoreError::QueueAlreadyExists)
                } else {
                    Ok(())
                }
            },
            RQSEvent::QueueDeleted { .. }
            | RQSEvent::MessageSent { .. }
            | RQSEvent::MessageReceived { .. } => {
                if found.is_some() {
                    Ok(())
                } else {
                    Err(StoreError::QueueNotFound)
                }
            },
            RQSEvent::MessageDeleted { receipt_handle, .. } => {
                match found {
                    None => Err(StoreError::QueueNotFound),
                    Some(q) => {
                        if self.queues[q].find_lease(*receipt_handle).is_some() {
                            Ok(())
                        } else {
                            Err(StoreError::ReceiptHandleInvalid)
                        }
                    },
                }
            },
            RQSEvent::MessageVisibilityExpired { .. } => Ok(()),
        }
    }

    /// Applies `event` at the instant `now`. A refused event changes nothing.
    pub fn apply(&mut self, event: &RQSEvent, now: u64) -> (result: Result<Outcome, StoreError>)
        ensures
            old(self)@.wf(),
            final(self)@.wf(),
            match old(self)@.step(event@, now) {
                Ok((state, outcome)) => {
                    &&& result matches Ok(handed)
                    &&& handed@ == outcome
                    &&& final(self)@ == state
                },
                Err(error) => {
                    &&& result == Err::<Outcome, StoreError>(error)
                    &&& final(self)@ == old(self)@
                },
            },
    {
        let ghost before = self@;
        let ghost change = event@;
        let found = self.find_queue(event.queue_id());
        proof {
            if before.refusal(change) is None {
                lemma_step_wf(before, change, now);
            }
        }
        let (mut queues, mut next_receipt) = self.take();
        let mut result = Ok(Outcome::Done);
        match event {
            RQSEvent::QueueCreated { queue_id, visibility_timeout } => {
                if found.is_some() {
                    result = Err(StoreError::QueueAlreadyExists);
                } else {
                    queues.push(MessageQueue::new(queue_id.clone(), *visibility_timeout));
                }
            },
            RQSEvent::QueueDeleted { .. } => {
                match found {
                    None => {
                        result = Err(StoreError::QueueNotFound);
                    },
                    Some(q) => {
                        queues.remove(q);
                    },
                }
            },
            RQSEvent::MessageSent { body, .. } => {
                match found {
                    None => {
                        result = Err(StoreError::QueueNotFound);
                    },
                    Some(q) => {
                        queues[q].send(body.clone());
                    },
                }
            },
            RQSEvent::MessageReceived { max_messages, .. } => {
                match found {
                    None => {
                        result = Err(StoreError::QueueNotFound);
                    },
                    Some(q) => {
                        let first = next_receipt;
                        let count = queues[q].leasable(*max_messages, first);
                        let deadline = deadline_after(now, queues[q].visibility_timeout);
                        let deliveries = queues[q].lease(count, first, deadline);
                        next_receipt = first + count;
                        result = Ok(Outcome::Delivered(deliveries));
                    },
                }
            },
            RQSEvent::MessageDeleted { receipt_handle, .. } => {
                match found {
                    None => {
                        result = Err(StoreError::QueueNotFound);
                    },
                    Some(q) => {
                        match queues[q].find_lease(*receipt_handle) {
                            None => {
                                result = Err(StoreError::ReceiptHandleInvalid);
                            },
                            Some(i) => {
                                queues[q].purge(i);
                            },
                        }
                    },
                }
            },
            RQSEvent::MessageVisibilityExpired { receipt_handle, .. } => {
                match found {
                    None => {},
                    Some(q) => {
                        match queues[q].find_lease(*receipt_handle) {
                            None => {},
                            Some(i) => {
                                queues[q].release(i);
                            },
                        }
                    },
                }
            },
        }
        proof {
            let after = if before.refusal(change) is None {
                before.after(change, now)
            } else {
                before
            };
            assert(view_of(queues@, next_receipt).queues =~= after.queues);
        }
        self.put(queues, next_receipt);
        result
    }
}

} // verus!
