//! Every accepted event leads from a well-formed state to a well-formed one.

use crate::event::EventView;
use crate::model::{lease_deadline, QueueView, StoreView};
use vstd::prelude::*;

verus! {

/// Replacing queue `q` by one with the same id keeps the ids distinct.
proof fn lemma_ids_kept(s: StoreView, q: int, queue: QueueView)
    requires
        s.wf(),
        0 <= q < s.queues.len(),
        queue.id == s.queues[q].id,
    ensures
        forall|i: int, j: int|
            0 <= i < j < s.queues.len() ==> (#[trigger] s.with_queue(q, queue).queues[i]).id != (
            #[trigger] s.with_queue(q, queue).queues[j]).id,
{
    let t = s.with_queue(q, queue);
    assert forall|i: int, j: int| 0 <= i < j < s.queues.len() implies (#[trigger] t.queues[i]).id != (
    #[trigger] t.queues[j]).id by {
        assert(t.queues[i].id == s.queues[i].id);
        assert(t.queues[j].id == s.queues[j].id);
    }
}

/// A new queue under an unused id keeps the store well-formed.
proof fn lemma_created_wf(s: StoreView, id: Seq<char>, visibility_timeout: u64)
    requires
        s.wf(),
        !s.has_queue(id),
    ensures
        s.after(EventView::QueueCreated { queue_id: id, visibility_timeout }, 0).wf(),
{
    let t = s.after(EventView::QueueCreated { queue_id: id, visibility_timeout }, 0);
    assert forall|i: int, j: int| 0 <= i < j < t.queues.len() implies (#[trigger] t.queues[i]).id != (
    #[trigger] t.queues[j]).id by {
        assert(t.queues[i] == s.queues[i]);
        if j < s.queues.len() {
            assert(t.queues[j] == s.queues[j]);
        }
    }
    assert forall|q: int, m: int| #[trigger] t.lease_at(q, m) == s.lease_at(q, m) by {}
}

/// Removing a queue keeps the store well-formed.
proof fn lemma_queue_deleted_wf(s: StoreView, q: int)
    requires
        s.wf(),
        0 <= q < s.queues.len(),
    ensures
        (StoreView { queues: s.queues.remove(q), ..s }).wf(),
{
    let t = StoreView { queues: s.queues.remove(q), ..s };
    assert forall|i: int, j: int| 0 <= i < j < t.queues.len() implies (#[trigger] t.queues[i]).id != (
    #[trigger] t.queues[j]).id by {
        let a = if i < q { i } else { i + 1 };
        let b = if j < q { j } else { j + 1 };
        assert(t.queues[i] == s.queues[a]);
        assert(t.queues[j] == s.queues[b]);
    }
    assert forall|k: int, m: int| #[trigger]
        t.lease_at(k, m) == s.lease_at(if k < q { k } else { k + 1 }, m) by {}
    assert forall|q1: int, m1: int, q2: int, m2: int|
        (#[trigger] t.lease_at(q1, m1)) is Some && t.lease_at(q1, m1) == #[trigger] t.lease_at(
            q2,
            m2,
        ) implies q1 == q2 && m1 == m2 by {
        let a = if q1 < q { q1 } else { q1 + 1 };
        let b = if q2 < q { q2 } else { q2 + 1 };
        assert(s.lease_at(a, m1) == s.lease_at(b, m2));
    }
}

/// A new message keeps the store well-formed.
proof fn lemma_sent_wf(s: StoreView, q: int, body: Seq<char>)
    requires
        s.wf(),
        0 <= q < s.queues.len(),
    ensures
        s.with_queue(q, s.queues[q].send(body)).wf(),
{
    let t = s.with_queue(q, s.queues[q].send(body));
    lemma_ids_kept(s, q, s.queues[q].send(body));
    assert forall|k: int, m: int| #[trigger] t.lease_at(k, m) == s.lease_at(k, m) by {}
}

/// Purging a message keeps the store well-formed.
proof fn lemma_purged_wf(s: StoreView, q: int, i: int)
    requires
        s.wf(),
        0 <= q < s.queues.len(),
        0 <= i < s.queues[q].messages.len(),
    ensures
        s.with_queue(q, s.queues[q].purge(i)).wf(),
{
    let t = s.with_queue(q, s.queues[q].purge(i));
    lemma_ids_kept(s, q, s.queues[q].purge(i));
    assert forall|k: int, m: int| #[trigger]
        t.lease_at(k, m) == s.lease_at(k, if k == q && m >= i { m + 1 } else { m }) by {}
    assert forall|q1: int, m1: int, q2: int, m2: int|
        (#[trigger] t.lease_at(q1, m1)) is Some && t.lease_at(q1, m1) == #[trigger] t.lease_at(
            q2,
            m2,
        ) implies q1 == q2 && m1 == m2 by {
        let a = if q1 == q && m1 >= i { m1 + 1 } else { m1 };
        let b = if q2 == q && m2 >= i { m2 + 1 } else { m2 };
        assert(s.lease_at(q1, a) == s.lease_at(q2, b));
    }
}

/// Releasing a message keeps the store well-formed.
proof fn lemma_released_wf(s: StoreView, q: int, i: int)
    requires
        s.wf(),
        0 <= q < s.queues.len(),
        0 <= i < s.queues[q].messages.len(),
    ensures
        s.with_queue(q, s.queues[q].release(i)).wf(),
{
    let t = s.with_queue(q, s.queues[q].release(i));
    lemma_ids_kept(s, q, s.queues[q].release(i));
    assert forall|k: int, m: int| #[trigger]
        t.lease_at(k, m) == (if k == q && m == i { None } else { s.lease_at(k, m) }) by {}
}

/// Leasing available messages under handles that were never used keeps
/// the store well-formed.
proof fn lemma_leased_wf(s: StoreView, q: int, count: nat, deadline: u64)
    requires
        s.wf(),
        0 <= q < s.queues.len(),
        count <= s.queues[q].available(),
        s.next_receipt + count <= u64::MAX,
    ensures
        (StoreView {
            queues: s.queues.update(q, s.queues[q].lease(count, s.next_receipt, deadline)),
            next_receipt: (s.next_receipt + count) as u64,
        }).wf(),
{
    let queue = s.queues[q];
    let leased = queue.lease(count, s.next_receipt, deadline);
    let t = StoreView {
        queues: s.queues.update(q, leased),
        next_receipt: (s.next_receipt + count) as u64,
    };
    lemma_ids_kept(s, q, leased);
    assert(t.queues == s.with_queue(q, leased).queues);
    assert forall|k: int, m: int| #[trigger]
        t.lease_at(k, m) == (if k == q && queue.selected(m, count) {
            Some((s.next_receipt + queue.rank(m)) as u64)
        } else {
            s.lease_at(k, m)
        }) by {}
    assert forall|k: int, m: int| (#[trigger] t.lease_at(k, m)) is Some implies t.lease_at(k, m)->0
        < t.next_receipt by {
        if !(k == q && queue.selected(m, count)) {
            assert(s.lease_at(k, m) is Some);
        }
    }
    assert forall|q1: int, m1: int, q2: int, m2: int|
        (#[trigger] t.lease_at(q1, m1)) is Some && t.lease_at(q1, m1) == #[trigger] t.lease_at(
            q2,
            m2,
        ) implies q1 == q2 && m1 == m2 by {
        let new1 = q1 == q && queue.selected(m1, count);
        let new2 = q2 == q && queue.selected(m2, count);
        if new1 && new2 {
            if m1 < m2 {
                queue.lemma_rank_strict(m1, m2);
            } else if m2 < m1 {
                queue.lemma_rank_strict(m2, m1);
            }
        } else if !new1 && !new2 {
            assert(s.lease_at(q1, m1) == s.lease_at(q2, m2));
        } else if new1 {
            assert(s.lease_at(q2, m2) is Some);
        } else {
            assert(s.lease_at(q1, m1) is Some);
        }
    }
}

/// What a receive takes is never more than what is available, and its
/// handles stay below the last representable one.
pub proof fn lemma_leasable_bounds(queue: QueueView, max_messages: u64, next_receipt: u64)
    ensures
        queue.leasable(max_messages, next_receipt) <= queue.available(),
        queue.leasable(max_messages, next_receipt) <= max_messages,
        next_receipt + queue.leasable(max_messages, next_receipt) <= u64::MAX,
{
}

/// An accepted event leads from a well-formed state to a well-formed one.
pub proof fn lemma_step_wf(s: StoreView, event: EventView, now: u64)
    requires
        s.wf(),
        s.refusal(event) is None,
    ensures
        s.after(event, now).wf(),
{
    let q = s.queue_index(event.queue_id());
    match event {
        EventView::QueueCreated { queue_id, visibility_timeout } => {
            lemma_created_wf(s, queue_id, visibility_timeout);
        },
        EventView::QueueDeleted { queue_id } => {
            lemma_queue_deleted_wf(s, q);
        },
        EventView::MessageSent { queue_id, body } => {
            lemma_sent_wf(s, q, body);
        },
        EventView::MessageReceived { queue_id, max_messages } => {
            let deadline = lease_deadline(now, s.queues[q].visibility_timeout);
            lemma_leasable_bounds(s.queues[q], max_messages, s.next_receipt);
            lemma_leased_wf(
                s,
                q,
                s.queues[q].leasable(max_messages, s.next_receipt),
                deadline,
            );
        },
        EventView::MessageDeleted { queue_id, receipt_handle } => {
            s.queues[q].lemma_lease_index(receipt_handle);
            lemma_purged_wf(s, q, s.queues[q].lease_index(receipt_handle));
        },
        EventView::MessageVisibilityExpired { queue_id, receipt_handle } => {
            if s.has_queue(queue_id) && s.queues[q].has_lease(receipt_handle) {
                s.queues[q].lemma_lease_index(receipt_handle);
                lemma_released_wf(s, q, s.queues[q].lease_index(receipt_handle));
            }
        },
    }
}

} // verus!
