//! What holds of the engine whatever events it is given.

use crate::engine::{revived, EngineView};
use crate::error::{EngineError, LogError, StoreError};
use crate::event::{EventView, OutcomeView};
use crate::event_log::{
    lemma_head_of_cut_record, lemma_log_bytes_push, lemma_replay_written, log_bytes, next_entry,
    sequenced,
};
use crate::model::{lease_deadline, MessageState, MessageView, QueueView, StoreView};
use crate::record::EntryView;
use crate::sweeper::{due, expiry_of, lemma_due_complete, lemma_due_sound};
use crate::wellformed::{lemma_leasable_bounds, lemma_step_wf};
use vstd::prelude::*;

verus! {

/// An event together with the instant at which it is handed to the engine.
pub struct Submission {
    pub event: EventView,
    pub now: u64,
}

impl StoreView {
    /// The store after the events were handed to it one after the other;
    /// a refused event changes nothing.
    pub open spec fn after_all(self, submissions: Seq<Submission>) -> StoreView
        decreases submissions.len(),
    {
        if submissions.len() == 0 {
            self
        } else {
            let before = self.after_all(submissions.drop_last());
            let last = submissions.last();
            if before.refusal(last.event) is None {
                before.after(last.event, last.now)
            } else {
                before
            }
        }
    }

    /// Each of the events is accepted when they are handed to the store one
    /// after the other.
    pub open spec fn accepts_all(self, submissions: Seq<Submission>) -> bool
        decreases submissions.len(),
    {
        submissions.len() == 0 || (self.accepts_all(submissions.drop_last()) && self.after_all(
            submissions.drop_last(),
        ).refusal(submissions.last().event) is None)
    }

    /// No message is in flight under `receipt_handle`, and no message will
    /// be: the handle was issued before.
    pub open spec fn retired(self, receipt_handle: u64) -> bool {
        &&& receipt_handle < self.next_receipt
        &&& forall|q: int, m: int| #[trigger] self.lease_at(q, m) != Some(receipt_handle)
    }
}

impl EngineView {
    /// The engine after the events were handed to it one after the other.
    pub open spec fn handle_all(self, submissions: Seq<Submission>) -> EngineView
        decreases submissions.len(),
    {
        if submissions.len() == 0 {
            self
        } else {
            self.handle_all(submissions.drop_last()).handle(
                submissions.last().event,
                submissions.last().now,
            )
        }
    }
}

/// Uniqueness: creating a queue under an id that is taken fails with
/// `QueueAlreadyExists`, and the engine, the queue of that id included,
/// stays as it was.
pub proof fn lemma_create_existing_queue_fails(
    engine: EngineView,
    queue_id: Seq<char>,
    visibility_timeout: u64,
    now: u64,
)
    requires
        engine.store.has_queue(queue_id),
    ensures
        engine.refusal(EventView::QueueCreated { queue_id, visibility_timeout }, now) == Some(
            EngineError::Store(StoreError::QueueAlreadyExists),
        ),
        engine.handle(EventView::QueueCreated { queue_id, visibility_timeout }, now) == engine,
{
}

/// Deletion: once a queue is deleted, no queue has its id, every other
/// queue is still there, and the messages that it held are out of reach:
/// sending to it, receiving from it and deleting from it fail with
/// `QueueNotFound`, and an expiry for it changes nothing.
pub proof fn lemma_deleted_queue_is_gone(store: StoreView, queue_id: Seq<char>, now: u64)
    requires
        store.wf(),
        store.has_queue(queue_id),
    ensures
        store.refusal(EventView::QueueDeleted { queue_id }) is None,
        ({
            let after = store.after(EventView::QueueDeleted { queue_id }, now);
            &&& !after.has_queue(queue_id)
            &&& after.queues.len() == store.queues.len() - 1
            &&& forall|other: Seq<char>|
                other != queue_id ==> (#[trigger] after.has_queue(other) <==> store.has_queue(other))
            &&& forall|body: Seq<char>| #[trigger]
                after.refusal(EventView::MessageSent { queue_id, body }) == Some(
                    StoreError::QueueNotFound,
                )
            &&& forall|max_messages: u64| #[trigger]
                after.refusal(EventView::MessageReceived { queue_id, max_messages }) == Some(
                    StoreError::QueueNotFound,
                )
            &&& forall|receipt_handle: u64| #[trigger]
                after.refusal(EventView::MessageDeleted { queue_id, receipt_handle }) == Some(
                    StoreError::QueueNotFound,
                )
            &&& forall|receipt_handle: u64, later: u64| #[trigger]
                after.after(EventView::MessageVisibilityExpired { queue_id, receipt_handle }, later)
                    == after
        }),
{
    let q = store.queue_index(queue_id);
    let after = store.after(EventView::QueueDeleted { queue_id }, now);
    assert(after.queues == store.queues.remove(q));
    assert forall|i: int| 0 <= i < after.queues.len() implies (#[trigger] after.queues[i]).id
        != queue_id by {
        let j = if i < q { i } else { i + 1 };
        assert(after.queues[i] == store.queues[j]);
        if j < q {
            assert(store.queues[j].id != store.queues[q].id);
        } else {
            assert(store.queues[q].id != store.queues[j].id);
        }
    }
    assert forall|other: Seq<char>| other != queue_id implies (#[trigger] after.has_queue(other)
        <==> store.has_queue(other)) by {
        if store.has_queue(other) {
            let j = store.queue_index(other);
            let i = if j < q { j } else { j - 1 };
            assert(after.queues[i] == store.queues[j]);
        }
        if after.has_queue(other) {
            let i = after.queue_index(other);
            let j = if i < q { i } else { i + 1 };
            assert(after.queues[i] == store.queues[j]);
        }
    }
}

/// The engine stays well-formed whatever event it is handed.
pub proof fn lemma_handle_wf(engine: EngineView, event: EventView, now: u64)
    requires
        engine.wf(),
    ensures
        engine.handle(event, now).wf(),
{
    if engine.refusal(event, now) is None {
        let after = engine.after(event, now);
        let entry = next_entry(engine.log.len(), event, now);
        lemma_step_wf(engine.store, event, now);
        assert(after.log.drop_last() =~= engine.log);
        assert(sequenced(after.log, 0)) by {
            assert forall|i: int| 0 <= i < after.log.len() implies (#[trigger] after.log[i]).sequence
                == i && after.log[i].fits() by {
                if i < engine.log.len() {
                    assert(after.log[i] == engine.log[i]);
                }
            }
        }
    }
}

/// The engine stays well-formed whatever events it is handed.
pub proof fn lemma_handle_all_wf(engine: EngineView, submissions: Seq<Submission>)
    requires
        engine.wf(),
    ensures
        engine.handle_all(submissions).wf(),
    decreases submissions.len(),
{
    if submissions.len() > 0 {
        lemma_handle_all_wf(engine, submissions.drop_last());
        lemma_handle_wf(
            engine.handle_all(submissions.drop_last()),
            submissions.last().event,
            submissions.last().now,
        );
    }
}

/// A well-formed engine is rebuilt from the bytes of its log.
pub proof fn lemma_log_rebuilds_engine(engine: EngineView)
    requires
        engine.wf(),
    ensures
        revived(log_bytes(engine.log)) == Ok::<(EngineView, nat), LogError>(
            (engine, log_bytes(engine.log).len()),
        ),
{
    let bytes = log_bytes(engine.log);
    lemma_replay_written(engine.log, 0, 0, Seq::empty());
    assert(bytes + Seq::<u8>::empty() =~= bytes);
    assert(engine.log + Seq::<EntryView>::empty() =~= engine.log);
}

/// Recovery fidelity: whatever events a fresh engine was handed, a fresh
/// engine that replays the resulting log holds the same queues, messages
/// and leases.
pub proof fn lemma_recovery_fidelity(submissions: Seq<Submission>)
    ensures
        ({
            let engine = EngineView::fresh().handle_all(submissions);
            revived(log_bytes(engine.log)) == Ok::<(EngineView, nat), LogError>(
                (engine, log_bytes(engine.log).len()),
            )
        }),
{
    lemma_handle_all_wf(EngineView::fresh(), submissions);
    lemma_log_rebuilds_engine(EngineView::fresh().handle_all(submissions));
}

/// A log whose last record was cut short rebuilds the engine as it was
/// before that record.
pub proof fn lemma_torn_record_is_dropped(engine: EngineView, entry: EntryView, cut: int)
    requires
        engine.wf(),
        entry.fits(),
        0 <= cut < entry.record().len(),
    ensures
        revived(log_bytes(engine.log) + entry.record().take(cut)) == Ok::<
            (EngineView, nat),
            LogError,
        >((engine, log_bytes(engine.log).len())),
{
    let torn = entry.record().take(cut);
    lemma_replay_written(engine.log, 0, 0, torn);
    if cut > 0 {
        lemma_head_of_cut_record(entry, cut, engine.log.len() as int);
    }
    assert(engine.log + Seq::<EntryView>::empty() =~= engine.log);
}

/// The bytes of the log grow by exactly the record that `handle_event`
/// hands out.
pub proof fn lemma_log_grows_by_record(engine: EngineView, event: EventView, now: u64)
    requires
        engine.refusal(event, now) is None,
    ensures
        log_bytes(engine.handle(event, now).log) == log_bytes(engine.log) + next_entry(
            engine.log.len(),
            event,
            now,
        ).record(),
{
    lemma_log_bytes_push(engine.log, next_entry(engine.log.len(), event, now));
}

/// Lease exclusivity: a receive leaves every message that is in flight as
/// it is, under the same handle and deadline, and hands out no delivery
/// under that handle.
pub proof fn lemma_lease_is_exclusive(
    store: StoreView,
    queue_id: Seq<char>,
    max_messages: u64,
    now: u64,
    q: int,
    m: int,
)
    requires
        store.wf(),
        store.has_queue(queue_id),
        store.lease_at(q, m) is Some,
    ensures
        ({
            let event = EventView::MessageReceived { queue_id, max_messages };
            let after = store.after(event, now);
            &&& after.queues[q].messages[m] == store.queues[q].messages[m]
            &&& store.yields(event) matches OutcomeView::Delivered(deliveries)
            &&& forall|k: int|
                0 <= k < deliveries.len() ==> (#[trigger] deliveries[k]).receipt_handle
                    != store.lease_at(q, m)->0
        }),
{
    let target = store.queue_index(queue_id);
    lemma_leasable_bounds(store.queues[target], max_messages, store.next_receipt);
}

/// What a receive hands out is what it leased: its `k`-th delivery is the
/// available message with `k` available messages before it, which is from
/// then on in flight under the delivered handle, a handle that no earlier
/// delivery had, until the queue's visibility timeout has passed.
pub proof fn lemma_delivery_is_leased(
    store: StoreView,
    queue_id: Seq<char>,
    max_messages: u64,
    now: u64,
    k: int,
)
    requires
        store.wf(),
        store.has_queue(queue_id),
        0 <= k < store.queues[store.queue_index(queue_id)].leasable(
            max_messages,
            store.next_receipt,
        ),
    ensures
        ({
            let event = EventView::MessageReceived { queue_id, max_messages };
            let q = store.queue_index(queue_id);
            let queue = store.queues[q];
            let m = queue.nth_available(k as nat);
            let leased = store.after(event, now).queues[q].messages[m];
            &&& 0 <= m < queue.messages.len()
            &&& queue.messages[m].state is Available
            &&& store.yields(event) matches OutcomeView::Delivered(deliveries)
            &&& deliveries[k].body == queue.messages[m].body
            &&& deliveries[k].receipt_handle == store.next_receipt + k
            &&& leased.body == queue.messages[m].body
            &&& leased.state == (MessageState::InFlight {
                receipt_handle: deliveries[k].receipt_handle,
                deadline: lease_deadline(now, queue.visibility_timeout),
            })
        }),
{
    let q = store.queue_index(queue_id);
    let queue = store.queues[q];
    lemma_leasable_bounds(queue, max_messages, store.next_receipt);
    queue.lemma_nth_available_exists(k as nat);
}

/// Idempotent expiry: an expiry for a handle under which no message of the
/// queue is in flight, or for a queue that is gone, is accepted and changes
/// nothing.
pub proof fn lemma_expiry_without_lease_changes_nothing(
    store: StoreView,
    queue_id: Seq<char>,
    receipt_handle: u64,
    now: u64,
)
    requires
        !store.has_queue(queue_id) || !store.queues[store.queue_index(queue_id)].has_lease(
            receipt_handle,
        ),
    ensures
        store.step(EventView::MessageVisibilityExpired { queue_id, receipt_handle }, now) == Ok::<
            (StoreView, OutcomeView),
            StoreError,
        >((store, OutcomeView::Done)),
{
}

/// A handle is retired by the delete or the expiry that ends its lease.
pub proof fn lemma_settled_handle_is_retired(
    store: StoreView,
    queue_id: Seq<char>,
    receipt_handle: u64,
    expired: bool,
    now: u64,
)
    requires
        store.wf(),
        store.has_queue(queue_id),
        store.queues[store.queue_index(queue_id)].has_lease(receipt_handle),
    ensures
        store.after(
            if expired {
                EventView::MessageVisibilityExpired { queue_id, receipt_handle }
            } else {
                EventView::MessageDeleted { queue_id, receipt_handle }
            },
            now,
        ).retired(receipt_handle),
{
    let q = store.queue_index(queue_id);
    let queue = store.queues[q];
    let i = queue.lease_index(receipt_handle);
    queue.lemma_lease_index(receipt_handle);
    assert(store.lease_at(q, i) == Some(receipt_handle));
    if expired {
        let after = store.after(
            EventView::MessageVisibilityExpired { queue_id, receipt_handle },
            now,
        );
        assert forall|k: int, m: int| #[trigger] after.lease_at(k, m) != Some(receipt_handle) by {
            if k == q && m == i {
            } else if after.lease_at(k, m) is Some {
                assert(after.lease_at(k, m) == store.lease_at(k, m));
            }
        }
    } else {
        let after = store.after(EventView::MessageDeleted { queue_id, receipt_handle }, now);
        assert forall|k: int, m: int| #[trigger] after.lease_at(k, m) != Some(receipt_handle) by {
            let n = if k == q && m >= i { m + 1 } else { m };
            if after.lease_at(k, m) is Some {
                assert(after.lease_at(k, m) == store.lease_at(k, n));
            }
        }
    }
}

/// A retired handle stays retired whatever event is accepted: no message
/// is ever leased again under a handle that was in use before.
pub proof fn lemma_retired_handle_stays_retired(
    store: StoreView,
    event: EventView,
    now: u64,
    receipt_handle: u64,
)
    requires
        store.wf(),
        store.retired(receipt_handle),
        store.refusal(event) is None,
    ensures
        store.after(event, now).retired(receipt_handle),
{
    let after = store.after(event, now);
    let q = store.queue_index(event.queue_id());
    match event {
        EventView::QueueCreated { .. } => {
            assert forall|k: int, m: int| #[trigger] after.lease_at(k, m) == store.lease_at(k, m) by {}
        },
        EventView::QueueDeleted { .. } => {
            assert forall|k: int, m: int| #[trigger]
                after.lease_at(k, m) == store.lease_at(if k < q { k } else { k + 1 }, m) by {}
        },
        EventView::MessageSent { .. } => {
            assert forall|k: int, m: int| #[trigger] after.lease_at(k, m) == store.lease_at(k, m) by {}
        },
        EventView::MessageReceived { max_messages, .. } => {
            let queue = store.queues[q];
            let count = queue.leasable(max_messages, store.next_receipt);
            lemma_leasable_bounds(queue, max_messages, store.next_receipt);
            assert forall|k: int, m: int| #[trigger]
                after.lease_at(k, m) == (if k == q && queue.selected(m, count) {
                    Some((store.next_receipt + queue.rank(m)) as u64)
                } else {
                    store.lease_at(k, m)
                }) by {}
        },
        EventView::MessageDeleted { receipt_handle: h, .. } => {
            let i = store.queues[q].lease_index(h);
            store.queues[q].lemma_lease_index(h);
            assert forall|k: int, m: int| #[trigger]
                after.lease_at(k, m) == store.lease_at(k, if k == q && m >= i { m + 1 } else { m }) by {}
        },
        EventView::MessageVisibilityExpired { queue_id, receipt_handle: h } => {
            if store.has_queue(queue_id) && store.queues[q].has_lease(h) {
                let i = store.queues[q].lease_index(h);
                store.queues[q].lemma_lease_index(h);
                assert forall|k: int, m: int| #[trigger]
                    after.lease_at(k, m) == (if k == q && m == i {
                        None
                    } else {
                        store.lease_at(k, m)
                    }) by {}
            }
        },
    }
}

/// An expiry for a retired handle changes nothing, and a delete under it
/// is refused: a lease that was deleted, or that ran out and was taken by
/// another receiver, cannot be acted on again.
pub proof fn lemma_retired_handle_is_dead(
    store: StoreView,
    queue_id: Seq<char>,
    receipt_handle: u64,
    now: u64,
)
    requires
        store.retired(receipt_handle),
    ensures
        store.step(EventView::MessageVisibilityExpired { queue_id, receipt_handle }, now) == Ok::<
            (StoreView, OutcomeView),
            StoreError,
        >((store, OutcomeView::Done)),
        store.refusal(EventView::MessageDeleted { queue_id, receipt_handle }) == Some(
            if store.has_queue(queue_id) {
                StoreError::ReceiptHandleInvalid
            } else {
                StoreError::QueueNotFound
            },
        ),
{
    if store.has_queue(queue_id) {
        let q = store.queue_index(queue_id);
        let queue = store.queues[q];
        if queue.has_lease(receipt_handle) {
            let i = choose|i: int|
                0 <= i < queue.messages.len() && #[trigger] queue.messages[i].leased_under(
                    receipt_handle,
                );
            assert(store.lease_at(q, i) == Some(receipt_handle));
        }
    }
}

/// The queue that a creation makes.
pub open spec fn created_queue(event: EventView) -> QueueView {
    match event {
        EventView::QueueCreated { queue_id, visibility_timeout } => QueueView::empty(
            queue_id,
            visibility_timeout,
        ),
        _ => QueueView::empty(Seq::empty(), 0),
    }
}

/// Serialization: creations of queues under ids that differ from each
/// other and from those in use all succeed, in whatever order they reach
/// the store, and leave exactly one more queue for each, empty, behind the
/// queues that were there.
pub proof fn lemma_distinct_creations_all_succeed(store: StoreView, creations: Seq<Submission>)
    requires
        forall|i: int| 0 <= i < creations.len() ==> (#[trigger] creations[i]).event is QueueCreated,
        forall|i: int, j: int|
            0 <= i < j < creations.len() ==> (#[trigger] creations[i]).event.queue_id() != (
            #[trigger] creations[j]).event.queue_id(),
        forall|i: int|
            0 <= i < creations.len() ==> !store.has_queue((#[trigger] creations[i]).event.queue_id()),
    ensures
        store.accepts_all(creations),
        ({
            let after = store.after_all(creations);
            &&& after.next_receipt == store.next_receipt
            &&& after.queues == store.queues + Seq::new(
                creations.len(),
                |i: int| created_queue(creations[i].event),
            )
            &&& after.queues.len() == store.queues.len() + creations.len()
            &&& forall|i: int|
                0 <= i < creations.len() ==> after.has_queue(
                    (#[trigger] creations[i]).event.queue_id(),
                )
        }),
    decreases creations.len(),
{
    let after = store.after_all(creations);
    let made = Seq::new(creations.len(), |i: int| created_queue(creations[i].event));
    if creations.len() == 0 {
        assert(after.queues =~= store.queues + made);
    } else {
        let fewer = creations.drop_last();
        let last = creations.last();
        let id = last.event.queue_id();
        assert forall|i: int| 0 <= i < fewer.len() implies (#[trigger] fewer[i]) == creations[i] by {}
        lemma_distinct_creations_all_succeed(store, fewer);
        let before = store.after_all(fewer);
        let made_before = Seq::new(fewer.len(), |i: int| created_queue(fewer[i].event));
        assert(!before.has_queue(id)) by {
            if before.has_queue(id) {
                let k = before.queue_index(id);
                if k < store.queues.len() {
                    assert(store.queues[k].id == id);
                    assert(store.has_queue(creations[creations.len() - 1].event.queue_id()));
                } else {
                    let i = k - store.queues.len();
                    assert(before.queues[k] == made_before[i]);
                    assert(creations[i].event.queue_id() == creations[creations.len()
                        - 1].event.queue_id());
                }
            }
        }
        assert(after.queues =~= store.queues + made);
        assert forall|i: int| 0 <= i < creations.len() implies after.has_queue(
            (#[trigger] creations[i]).event.queue_id(),
        ) by {
            assert(after.queues[store.queues.len() + i].id == creations[i].event.queue_id());
        }
    }
}

/// Conflict resolution: of two creations under one id that is not in use,
/// the one that reaches the store first succeeds and the other fails with
/// `QueueAlreadyExists`, whichever of the two comes first.
pub proof fn lemma_same_id_creations_conflict(
    store: StoreView,
    queue_id: Seq<char>,
    first: Submission,
    second: Submission,
)
    requires
        !store.has_queue(queue_id),
        first.event matches EventView::QueueCreated { queue_id: id, .. } && id == queue_id,
        second.event matches EventView::QueueCreated { queue_id: id, .. } && id == queue_id,
    ensures
        store.refusal(first.event) is None,
        store.after(first.event, first.now).refusal(second.event) == Some(
            StoreError::QueueAlreadyExists,
        ),
        store.after_all(seq![first, second]) == store.after(first.event, first.now),
        store.after_all(seq![first, second]).queues.len() == store.queues.len() + 1,
{
    let after = store.after(first.event, first.now);
    assert(after.queues[store.queues.len() as int].id == queue_id);
    let both = seq![first, second];
    assert(both.drop_last() =~= seq![first]);
    assert(both.drop_last().drop_last() =~= Seq::<Submission>::empty());
    assert(store.after_all(both.drop_last().drop_last()) == store);
    assert(store.after_all(both.drop_last()) == after);
}

/// The events, each handed in at the instant `now`.
pub open spec fn handed_in(events: Seq<EventView>, now: u64) -> Seq<Submission> {
    Seq::new(events.len(), |i: int| Submission { event: events[i], now })
}

/// The store in which every message that is in flight, and whose expiry is
/// among `expiries`, is available again; nothing else differs.
pub open spec fn released(store: StoreView, expiries: Seq<EventView>) -> StoreView {
    StoreView {
        queues: Seq::new(
            store.queues.len(),
            |q: int|
                QueueView {
                    messages: Seq::new(
                        store.queues[q].messages.len(),
                        |m: int|
                            if store.queues[q].messages[m].state is InFlight && expiries.contains(
                                expiry_of(store.queues[q], m),
                            ) {
                                MessageView {
                                    body: store.queues[q].messages[m].body,
                                    state: MessageState::Available,
                                }
                            } else {
                                store.queues[q].messages[m]
                            },
                    ),
                    ..store.queues[q]
                },
        ),
        ..store
    }
}

/// The store in which every message whose deadline is not after `now` is
/// available again, in its old place; nothing else differs.
pub open spec fn reclaimed(store: StoreView, now: u64) -> StoreView {
    StoreView {
        queues: Seq::new(
            store.queues.len(),
            |q: int|
                QueueView {
                    messages: Seq::new(
                        store.queues[q].messages.len(),
                        |m: int|
                            if store.queues[q].messages[m].lapsed(now) {
                                MessageView {
                                    body: store.queues[q].messages[m].body,
                                    state: MessageState::Available,
                                }
                            } else {
                                store.queues[q].messages[m]
                            },
                    ),
                    ..store.queues[q]
                },
        ),
        ..store
    }
}

/// In a well-formed store, the expiry of a message in flight is the expiry
/// of no other message in flight.
proof fn lemma_expiry_names_one_message(store: StoreView, q1: int, m1: int, q2: int, m2: int)
    requires
        store.wf(),
        store.lease_at(q1, m1) is Some,
        store.lease_at(q2, m2) is Some,
        expiry_of(store.queues[q1], m1) == expiry_of(store.queues[q2], m2),
    ensures
        q1 == q2,
        m1 == m2,
{
    assert(store.lease_at(q1, m1) == store.lease_at(q2, m2));
}

/// One more expiry releases one more message, or none if it was released
/// before.
proof fn lemma_release_one_more(store: StoreView, done: Seq<EventView>, q: int, m: int, now: u64)
    requires
        store.wf(),
        store.lease_at(q, m) is Some,
    ensures
        released(store, done).step(expiry_of(store.queues[q], m), now) == Ok::<
            (StoreView, OutcomeView),
            StoreError,
        >((released(store, done.push(expiry_of(store.queues[q], m))), OutcomeView::Done)),
{
    let event = expiry_of(store.queues[q], m);
    let id = store.queues[q].id;
    let handle = store.lease_at(q, m)->0;
    let before = released(store, done);
    let more = done.push(event);
    let after = released(store, more);
    assert forall|e: EventView| #[trigger] more.contains(e) <==> done.contains(e) || e == event by {
        if done.contains(e) {
            let j = choose|j: int| 0 <= j < done.len() && done[j] == e;
            assert(more[j] == e);
        }
        if e == event {
            assert(more[done.len() as int] == e);
        }
        if more.contains(e) {
            let j = choose|j: int| 0 <= j < more.len() && more[j] == e;
            if j < done.len() {
                assert(done[j] == e);
            }
        }
    }
    assert(before.queues[q].id == id);
    let found = before.queue_index(id);
    assert(before.queues[found].id == store.queues[found].id);
    assert(found == q) by {
        if found < q {
            assert(store.queues[found].id != store.queues[q].id);
        } else if q < found {
            assert(store.queues[q].id != store.queues[found].id);
        }
    }
    let queue = before.queues[q];
    // no other message of the queue is in flight under the handle
    assert forall|j: int| 0 <= j < queue.messages.len() && j != m implies !(
    #[trigger] queue.messages[j]).leased_under(handle) by {
        if queue.messages[j].leased_under(handle) {
            assert(store.lease_at(q, j) == Some(handle));
        }
    }
    if done.contains(event) {
        assert(!queue.has_lease(handle));
        assert forall|k: int, n: int|
            0 <= k < store.queues.len() && 0 <= n < store.queues[k].messages.len() implies (
        #[trigger] after.queues[k].messages[n]) == before.queues[k].messages[n] by {}
        assert forall|k: int| 0 <= k < store.queues.len() implies (#[trigger] after.queues[k])
            == before.queues[k] by {
            assert(after.queues[k].messages =~= before.queues[k].messages);
        }
        assert(after.queues =~= before.queues);
    } else {
        assert(queue.messages[m].leased_under(handle));
        queue.lemma_lease_index_is(m, handle);
        let stepped = before.with_queue(q, queue.release(m));
        assert forall|k: int, n: int|
            0 <= k < store.queues.len() && 0 <= n < store.queues[k].messages.len() implies (
        #[trigger] after.queues[k].messages[n]) == stepped.queues[k].messages[n] by {
            if store.lease_at(k, n) is Some && expiry_of(store.queues[k], n) == event {
                lemma_expiry_names_one_message(store, k, n, q, m);
            }
        }
        assert forall|k: int| 0 <= k < store.queues.len() implies (#[trigger] after.queues[k])
            == stepped.queues[k] by {
            assert(after.queues[k].messages =~= stepped.queues[k].messages);
        }
        assert(after.queues =~= stepped.queues);
    }
}

/// The first `k` of the expiries that are due are all accepted, and release
/// the messages that they name.
proof fn lemma_sweep_releases(store: StoreView, now: u64, k: int)
    requires
        store.wf(),
        0 <= k <= due(store, now).len(),
    ensures
        store.accepts_all(handed_in(due(store, now).take(k), now)),
        store.after_all(handed_in(due(store, now).take(k), now)) == released(
            store,
            due(store, now).take(k),
        ),
    decreases k,
{
    let all = due(store, now);
    let events = all.take(k);
    let handed = handed_in(events, now);
    if k == 0 {
        assert forall|q: int| 0 <= q < store.queues.len() implies (#[trigger] released(
            store,
            events,
        ).queues[q]) == store.queues[q] by {
            assert(released(store, events).queues[q].messages =~= store.queues[q].messages);
        }
        assert(released(store, events).queues =~= store.queues);
    } else {
        lemma_sweep_releases(store, now, k - 1);
        let fewer = all.take(k - 1);
        assert(handed.drop_last() =~= handed_in(fewer, now));
        assert(fewer.push(all[k - 1]) =~= events);
        lemma_due_sound(store, now, store.queues.len() as int, k - 1);
        let (q, m) = choose|q: int, m: int|
            0 <= q < store.queues.len() && 0 <= m < store.queues[q].messages.len() && (
            #[trigger] store.queues[q].messages[m]).lapsed(now) && all[k - 1] == expiry_of(
                store.queues[q],
                m,
            );
        assert(store.lease_at(q, m) is Some);
        lemma_release_one_more(store, fewer, q, m, now);
    }
}

/// A sweep reclaims what was abandoned: the expiries that are due at an
/// instant are all accepted, and once they are applied, every message
/// whose deadline had passed is available again, in its old place, while
/// every other message, and every lease that still runs, is as it was.
pub proof fn lemma_sweep_reclaims(store: StoreView, now: u64)
    requires
        store.wf(),
    ensures
        store.accepts_all(handed_in(due(store, now), now)),
        store.after_all(handed_in(due(store, now), now)) == reclaimed(store, now),
{
    let all = due(store, now);
    lemma_sweep_releases(store, now, all.len() as int);
    assert(all.take(all.len() as int) =~= all);
    assert forall|q: int, m: int|
        0 <= q < store.queues.len() && 0 <= m < store.queues[q].messages.len() implies (
    #[trigger] released(store, all).queues[q].messages[m]) == reclaimed(
        store,
        now,
    ).queues[q].messages[m] by {
        let message = store.queues[q].messages[m];
        if message.lapsed(now) {
            lemma_due_complete(store, now, store.queues.len() as int, q, m);
        } else if message.state is InFlight && all.contains(expiry_of(store.queues[q], m)) {
            let j = choose|j: int| 0 <= j < all.len() && all[j] == expiry_of(store.queues[q], m);
            lemma_due_sound(store, now, store.queues.len() as int, j);
            let (q2, m2) = choose|q2: int, m2: int|
                0 <= q2 < store.queues.len() && 0 <= m2 < store.queues[q2].messages.len() && (
                #[trigger] store.queues[q2].messages[m2]).lapsed(now) && all[j] == expiry_of(
                    store.queues[q2],
                    m2,
                );
            assert(store.lease_at(q, m) is Some);
            assert(store.lease_at(q2, m2) is Some);
            lemma_expiry_names_one_message(store, q, m, q2, m2);
        }
    }
    assert forall|q: int| 0 <= q < store.queues.len() implies (#[trigger] released(
        store,
        all,
    ).queues[q]) == reclaimed(store, now).queues[q] by {
        assert(released(store, all).queues[q].messages =~= reclaimed(
            store,
            now,
        ).queues[q].messages);
    }
    assert(released(store, all).queues =~= reclaimed(store, now).queues);
}

} // verus!
