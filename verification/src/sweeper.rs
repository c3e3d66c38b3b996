//! The lease sweeper: it finds the messages whose lease has run out.
//!
//! The sweeper changes nothing itself. It names, as events, the leases to
//! end; they take the same way into the engine as every other event.

use crate::event::{EventView, RQSEvent};
use crate::model::{MessageState, QueueView, StoreView};
use crate::store::Store;
use vstd::prelude::*;

verus! {

/// The event that ends the lease of message `m` of `queue`.
pub open spec fn expiry_of(queue: QueueView, m: int) -> EventView {
    EventView::MessageVisibilityExpired {
        queue_id: queue.id,
        receipt_handle: match queue.messages[m].state {
            MessageState::InFlight { receipt_handle, .. } => receipt_handle,
            MessageState::Available => 0,
        },
    }
}

/// The expiries of the first `upto` messages of `queue` whose deadline is
/// not after `now`, in arrival order.
pub open spec fn due_in_queue(queue: QueueView, now: u64, upto: int) -> Seq<EventView>
    decreases upto,
{
    if upto <= 0 || upto > queue.messages.len() {
        Seq::empty()
    } else if queue.messages[upto - 1].lapsed(now) {
        due_in_queue(queue, now, upto - 1).push(expiry_of(queue, upto - 1))
    } else {
        due_in_queue(queue, now, upto - 1)
    }
}

/// The expiries that are due in the first `upto` queues of `store`.
pub open spec fn due_in_queues(store: StoreView, now: u64, upto: int) -> Seq<EventView>
    decreases upto,
{
    if upto <= 0 || upto > store.queues.len() {
        Seq::empty()
    } else {
        let queue = store.queues[upto - 1];
        due_in_queues(store, now, upto - 1) + due_in_queue(
            queue,
            now,
            queue.messages.len() as int,
        )
    }
}

/// The expiries that are due at the instant `now`: one for each message in
/// flight whose deadline is not after `now`, queue by queue in the order of
/// creation, and within a queue in arrival order.
pub open spec fn due(store: StoreView, now: u64) -> Seq<EventView> {
    due_in_queues(store, now, store.queues.len() as int)
}

/// The mathematical value of a list of events.
pub open spec fn events_view(events: Seq<RQSEvent>) -> Seq<EventView> {
    Seq::new(events.len(), |i: int| events[i]@)
}

/// Every expiry that is due in a queue ends the lease of a message of that
/// queue whose deadline has passed.
pub proof fn lemma_due_in_queue_sound(queue: QueueView, now: u64, upto: int, k: int)
    requires
        0 <= k < due_in_queue(queue, now, upto).len(),
    ensures
        exists|m: int|
            0 <= m < upto && m < queue.messages.len() && (#[trigger] queue.messages[m]).lapsed(now)
                && due_in_queue(queue, now, upto)[k] == expiry_of(queue, m),
    decreases upto,
{
    if upto <= 0 || upto > queue.messages.len() {
    } else {
        let before = due_in_queue(queue, now, upto - 1);
        if k < before.len() {
            lemma_due_in_queue_sound(queue, now, upto - 1, k);
        } else {
            assert(queue.messages[upto - 1].lapsed(now));
        }
    }
}

/// Every message of a queue whose deadline has passed has its expiry among
/// those that are due.
pub proof fn lemma_due_in_queue_complete(queue: QueueView, now: u64, upto: int, m: int)
    requires
        0 <= m < upto <= queue.messages.len(),
        queue.messages[m].lapsed(now),
    ensures
        due_in_queue(queue, now, upto).contains(expiry_of(queue, m)),
    decreases upto,
{
    let all = due_in_queue(queue, now, upto);
    if m == upto - 1 {
        assert(all[all.len() - 1] == expiry_of(queue, m));
    } else {
        lemma_due_in_queue_complete(queue, now, upto - 1, m);
        let before = due_in_queue(queue, now, upto - 1);
        let k = choose|k: int| 0 <= k < before.len() && before[k] == expiry_of(queue, m);
        assert(all[k] == expiry_of(queue, m));
    }
}

/// Every expiry that is due ends the lease of a message whose deadline has
/// passed.
pub proof fn lemma_due_sound(store: StoreView, now: u64, upto: int, k: int)
    requires
        0 <= k < due_in_queues(store, now, upto).len(),
    ensures
        exists|q: int, m: int|
            0 <= q < upto && q < store.queues.len() && 0 <= m < store.queues[q].messages.len()
                && (#[trigger] store.queues[q].messages[m]).lapsed(now) && due_in_queues(
                store,
                now,
                upto,
            )[k] == expiry_of(store.queues[q], m),
    decreases upto,
{
    if upto <= 0 || upto > store.queues.len() {
    } else {
        let before = due_in_queues(store, now, upto - 1);
        let queue = store.queues[upto - 1];
        if k < before.len() {
            lemma_due_sound(store, now, upto - 1, k);
        } else {
            lemma_due_in_queue_sound(queue, now, queue.messages.len() as int, k - before.len());
            let m = choose|m: int|
                0 <= m < queue.messages.len() && (#[trigger] queue.messages[m]).lapsed(now)
                    && due_in_queue(queue, now, queue.messages.len() as int)[k - before.len()]
                    == expiry_of(queue, m);
            assert(store.queues[upto - 1].messages[m].lapsed(now));
        }
    }
}

/// Every message whose deadline has passed has its expiry among those that
/// are due.
pub proof fn lemma_due_complete(store: StoreView, now: u64, upto: int, q: int, m: int)
    requires
        0 <= q < upto <= store.queues.len(),
        0 <= m < store.queues[q].messages.len(),
        store.queues[q].messages[m].lapsed(now),
    ensures
        due_in_queues(store, now, upto).contains(expiry_of(store.queues[q], m)),
    decreases upto,
{
    let all = due_in_queues(store, now, upto);
    let before = due_in_queues(store, now, upto - 1);
    let queue = store.queues[upto - 1];
    let last = due_in_queue(queue, now, queue.messages.len() as int);
    if q == upto - 1 {
        lemma_due_in_queue_complete(queue, now, queue.messages.len() as int, m);
        let k = choose|k: int| 0 <= k < last.len() && last[k] == expiry_of(queue, m);
        assert(all[before.len() + k] == expiry_of(queue, m));
    } else {
        lemma_due_complete(store, now, upto - 1, q, m);
        let k = choose|k: int| 0 <= k < before.len() && before[k] == expiry_of(store.queues[q], m);
        assert(all[k] == expiry_of(store.queues[q], m));
    }
}

/// Names the leases to end at the instant `now`.
pub fn sweep(store: &Store, now: u64) -> (events: Vec<RQSEvent>)
    ensures
        events_view(events@) == due(store@, now),
{
    let queues = store.get_queues();
    let mut events: Vec<RQSEvent> = Vec::new();
    let mut q: usize = 0;
    assert(events_view(events@) =~= due_in_queues(store@, now, 0));
    while q < queues.len()
        invariant
            q <= queues@.len(),
            queues@.len() == store@.queues.len(),
            forall|i: int| 0 <= i < queues@.len() ==> (#[trigger] queues@[i])@ == store@.queues[i],
            events_view(events@) == due_in_queues(store@, now, q as int),
        decreases queues@.len() - q,
    {
        let queue = &queues[q];
        let messages = queue.get_messages();
        let ghost before = events_view(events@);
        let mut m: usize = 0;
        assert(before + due_in_queue(queue@, now, 0) =~= before);
        while m < messages.len()
            invariant
                m <= messages@.len(),
                messages@.len() == queue@.messages.len(),
                forall|i: int|
                    0 <= i < messages@.len() ==> (#[trigger] messages@[i])@ == queue@.messages[i],
                events_view(events@) == before + due_in_queue(queue@, now, m as int),
            decreases messages@.len() - m,
        {
            let ghost so_far = events_view(events@);
            match messages[m].get_state() {
                MessageState::InFlight { receipt_handle, deadline } => {
                    if deadline <= now {
                        let event = RQSEvent::MessageVisibilityExpired {
                            queue_id: queue.get_name().clone(),
                            receipt_handle,
                        };
                        assert(event@ == expiry_of(queue@, m as int));
                        events.push(event);
                        assert(events_view(events@) =~= so_far.push(expiry_of(queue@, m as int)));
                        assert(events_view(events@) =~= before + due_in_queue(
                            queue@,
                            now,
                            m + 1,
                        ));
                    }
                },
                MessageState::Available => {},
            }
            m += 1;
        }
        q += 1;
    }
    events
}

} // verus!
