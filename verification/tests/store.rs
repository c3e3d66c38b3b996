use rqs::error::StoreError;
use rqs::event::{Delivery, Outcome, RQSEvent};
use rqs::model::MessageState;
use rqs::store::Store;

fn created(queue_id: &str, visibility_timeout: u64) -> RQSEvent {
    RQSEvent::QueueCreated { queue_id: queue_id.to_string(), visibility_timeout }
}

fn deleted(queue_id: &str) -> RQSEvent {
    RQSEvent::QueueDeleted { queue_id: queue_id.to_string() }
}

fn sent(queue_id: &str, body: &str) -> RQSEvent {
    RQSEvent::MessageSent { queue_id: queue_id.to_string(), body: body.to_string() }
}

fn received(queue_id: &str, max_messages: u64) -> RQSEvent {
    RQSEvent::MessageReceived { queue_id: queue_id.to_string(), max_messages }
}

fn message_deleted(queue_id: &str, receipt_handle: u64) -> RQSEvent {
    RQSEvent::MessageDeleted { queue_id: queue_id.to_string(), receipt_handle }
}

fn expired(queue_id: &str, receipt_handle: u64) -> RQSEvent {
    RQSEvent::MessageVisibilityExpired { queue_id: queue_id.to_string(), receipt_handle }
}

fn delivery(receipt_handle: u64, body: &str) -> Delivery {
    Delivery { receipt_handle, body: body.to_string() }
}

/// The queues as plain values: id, timeout, and each message's body and state.
fn snapshot(store: &Store) -> Vec<(String, u64, Vec<(String, MessageState)>)> {
    store
        .get_queues()
        .iter()
        .map(|queue| {
            (
                queue.get_name().clone(),
                queue.get_visibility_timeout(),
                queue
                    .get_messages()
                    .iter()
                    .map(|message| (message.get_body().clone(), message.get_state()))
                    .collect(),
            )
        })
        .collect()
}

fn in_flight(receipt_handle: u64, deadline: u64) -> MessageState {
    MessageState::InFlight { receipt_handle, deadline }
}

#[test]
fn a_new_store_has_no_queues() {
    assert!(Store::new().get_queues().is_empty());
}

#[test]
fn created_queue_is_empty_and_keeps_its_timeout() {
    let mut store = Store::new();
    assert_eq!(store.apply(&created("queue_1", 5), 10), Ok(Outcome::Done));
    assert_eq!(snapshot(&store), vec![("queue_1".to_string(), 5, vec![])]);
}

#[test]
fn creating_an_existing_queue_fails_and_changes_nothing() {
    let mut store = Store::new();
    store.apply(&created("queue_1", 5), 10).unwrap();
    store.apply(&sent("queue_1", "a"), 11).unwrap();
    let before = snapshot(&store);
    assert_eq!(store.apply(&created("queue_1", 9), 12), Err(StoreError::QueueAlreadyExists));
    assert_eq!(snapshot(&store), before);
}

#[test]
fn queues_stay_in_the_order_of_creation() {
    let mut store = Store::new();
    store.apply(&created("b", 1), 0).unwrap();
    store.apply(&created("a", 2), 0).unwrap();
    store.apply(&created("c", 3), 0).unwrap();
    store.apply(&deleted("a"), 0).unwrap();
    assert_eq!(
        snapshot(&store),
        vec![("b".to_string(), 1, vec![]), ("c".to_string(), 3, vec![])]
    );
}

#[test]
fn deleting_a_queue_discards_its_messages() {
    let mut store = Store::new();
    store.apply(&created("queue_1", 5), 0).unwrap();
    store.apply(&sent("queue_1", "a"), 1).unwrap();
    assert_eq!(store.apply(&deleted("queue_1"), 2), Ok(Outcome::Done));
    assert!(store.get_queues().is_empty());
    assert_eq!(store.apply(&sent("queue_1", "b"), 3), Err(StoreError::QueueNotFound));
    assert_eq!(store.apply(&received("queue_1", 1), 3), Err(StoreError::QueueNotFound));
    assert_eq!(store.apply(&message_deleted("queue_1", 0), 3), Err(StoreError::QueueNotFound));
    assert_eq!(store.apply(&deleted("queue_1"), 3), Err(StoreError::QueueNotFound));
    store.apply(&created("queue_1", 7), 4).unwrap();
    assert_eq!(snapshot(&store), vec![("queue_1".to_string(), 7, vec![])]);
}

#[test]
fn events_for_a_missing_queue_fail_with_queue_not_found() {
    let mut store = Store::new();
    store.apply(&created("other", 5), 0).unwrap();
    assert_eq!(store.apply(&deleted("queue_1"), 1), Err(StoreError::QueueNotFound));
    assert_eq!(store.apply(&sent("queue_1", "a"), 1), Err(StoreError::QueueNotFound));
    assert_eq!(store.apply(&received("queue_1", 1), 1), Err(StoreError::QueueNotFound));
    assert_eq!(store.apply(&message_deleted("queue_1", 0), 1), Err(StoreError::QueueNotFound));
    assert_eq!(snapshot(&store), vec![("other".to_string(), 5, vec![])]);
}

#[test]
fn sent_messages_arrive_at_the_tail() {
    let mut store = Store::new();
    store.apply(&created("queue_1", 5), 0).unwrap();
    assert_eq!(store.apply(&sent("queue_1", "a"), 1), Ok(Outcome::Done));
    assert_eq!(store.apply(&sent("queue_1", "b"), 2), Ok(Outcome::Done));
    assert_eq!(
        snapshot(&store),
        vec![(
            "queue_1".to_string(),
            5,
            vec![
                ("a".to_string(), MessageState::Available),
                ("b".to_string(), MessageState::Available)
            ]
        )]
    );
}

#[test]
fn receive_leases_the_oldest_available_messages() {
    let mut store = Store::new();
    store.apply(&created("queue_1", 5), 0).unwrap();
    store.apply(&sent("queue_1", "a"), 1).unwrap();
    store.apply(&sent("queue_1", "b"), 2).unwrap();
    store.apply(&sent("queue_1", "c"), 3).unwrap();
    assert_eq!(
        store.apply(&received("queue_1", 2), 100),
        Ok(Outcome::Delivered(vec![delivery(0, "a"), delivery(1, "b")]))
    );
    assert_eq!(
        snapshot(&store),
        vec![(
            "queue_1".to_string(),
            5,
            vec![
                ("a".to_string(), in_flight(0, 105)),
                ("b".to_string(), in_flight(1, 105)),
                ("c".to_string(), MessageState::Available)
            ]
        )]
    );
}

#[test]
fn a_leased_message_is_not_delivered_again() {
    let mut store = Store::new();
    store.apply(&created("queue_1", 5), 0).unwrap();
    store.apply(&sent("queue_1", "a"), 1).unwrap();
    store.apply(&sent("queue_1", "b"), 2).unwrap();
    store.apply(&received("queue_1", 1), 100).unwrap();
    assert_eq!(
        store.apply(&received("queue_1", 10), 101),
        Ok(Outcome::Delivered(vec![delivery(1, "b")]))
    );
    assert_eq!(store.apply(&received("queue_1", 10), 200), Ok(Outcome::Delivered(vec![])));
    assert_eq!(
        snapshot(&store),
        vec![(
            "queue_1".to_string(),
            5,
            vec![("a".to_string(), in_flight(0, 105)), ("b".to_string(), in_flight(1, 106))]
        )]
    );
}

#[test]
fn receive_of_nothing_delivers_nothing() {
    let mut store = Store::new();
    store.apply(&created("queue_1", 5), 0).unwrap();
    assert_eq!(store.apply(&received("queue_1", 3), 1), Ok(Outcome::Delivered(vec![])));
    store.apply(&sent("queue_1", "a"), 2).unwrap();
    assert_eq!(store.apply(&received("queue_1", 0), 3), Ok(Outcome::Delivered(vec![])));
    assert_eq!(
        snapshot(&store),
        vec![("queue_1".to_string(), 5, vec![("a".to_string(), MessageState::Available)])]
    );
}

#[test]
fn receipt_handles_are_never_reused_across_queues() {
    let mut store = Store::new();
    store.apply(&created("x", 5), 0).unwrap();
    store.apply(&created("y", 5), 0).unwrap();
    store.apply(&sent("x", "a"), 1).unwrap();
    store.apply(&sent("y", "b"), 1).unwrap();
    assert_eq!(
        store.apply(&received("x", 1), 2),
        Ok(Outcome::Delivered(vec![delivery(0, "a")]))
    );
    assert_eq!(
        store.apply(&received("y", 1), 2),
        Ok(Outcome::Delivered(vec![delivery(1, "b")]))
    );
}

#[test]
fn a_lease_never_ends_after_the_last_instant() {
    let mut store = Store::new();
    store.apply(&created("queue_1", 5), 0).unwrap();
    store.apply(&sent("queue_1", "a"), 1).unwrap();
    store.apply(&sent("queue_1", "b"), 1).unwrap();
    store.apply(&received("queue_1", 1), u64::MAX - 5).unwrap();
    store.apply(&received("queue_1", 1), u64::MAX - 4).unwrap();
    assert_eq!(
        snapshot(&store),
        vec![(
            "queue_1".to_string(),
            5,
            vec![
                ("a".to_string(), in_flight(0, u64::MAX)),
                ("b".to_string(), in_flight(1, u64::MAX))
            ]
        )]
    );
}

#[test]
fn delete_purges_the_leased_message() {
    let mut store = Store::new();
    store.apply(&created("queue_1", 5), 0).unwrap();
    store.apply(&sent("queue_1", "a"), 1).unwrap();
    store.apply(&sent("queue_1", "b"), 2).unwrap();
    store.apply(&received("queue_1", 2), 10).unwrap();
    assert_eq!(store.apply(&message_deleted("queue_1", 0), 11), Ok(Outcome::Done));
    assert_eq!(
        snapshot(&store),
        vec![("queue_1".to_string(), 5, vec![("b".to_string(), in_flight(1, 15))])]
    );
}

#[test]
fn delete_needs_the_handle_of_the_current_lease() {
    let mut store = Store::new();
    store.apply(&created("queue_1", 5), 0).unwrap();
    store.apply(&created("queue_2", 5), 0).unwrap();
    store.apply(&sent("queue_1", "a"), 1).unwrap();
    // never leased
    assert_eq!(
        store.apply(&message_deleted("queue_1", 0), 2),
        Err(StoreError::ReceiptHandleInvalid)
    );
    store.apply(&received("queue_1", 1), 10).unwrap();
    // a handle that was never issued, and the right handle in the wrong queue
    assert_eq!(
        store.apply(&message_deleted("queue_1", 7), 11),
        Err(StoreError::ReceiptHandleInvalid)
    );
    assert_eq!(
        store.apply(&message_deleted("queue_2", 0), 11),
        Err(StoreError::ReceiptHandleInvalid)
    );
    // deleted already
    assert_eq!(store.apply(&message_deleted("queue_1", 0), 12), Ok(Outcome::Done));
    assert_eq!(
        store.apply(&message_deleted("queue_1", 0), 13),
        Err(StoreError::ReceiptHandleInvalid)
    );
}

#[test]
fn delete_after_expiry_is_refused() {
    let mut store = Store::new();
    store.apply(&created("queue_1", 5), 0).unwrap();
    store.apply(&sent("queue_1", "a"), 1).unwrap();
    store.apply(&received("queue_1", 1), 10).unwrap();
    store.apply(&expired("queue_1", 0), 16).unwrap();
    assert_eq!(
        store.apply(&message_deleted("queue_1", 0), 17),
        Err(StoreError::ReceiptHandleInvalid)
    );
    // leased again under a new handle: the old one stays invalid
    assert_eq!(
        store.apply(&received("queue_1", 1), 18),
        Ok(Outcome::Delivered(vec![delivery(1, "a")]))
    );
    assert_eq!(
        store.apply(&message_deleted("queue_1", 0), 19),
        Err(StoreError::ReceiptHandleInvalid)
    );
    assert_eq!(store.apply(&message_deleted("queue_1", 1), 19), Ok(Outcome::Done));
    assert_eq!(snapshot(&store), vec![("queue_1".to_string(), 5, vec![])]);
}

#[test]
fn expiry_returns_the_message_to_its_place() {
    let mut store = Store::new();
    store.apply(&created("queue_1", 5), 0).unwrap();
    store.apply(&sent("queue_1", "a"), 1).unwrap();
    store.apply(&sent("queue_1", "b"), 2).unwrap();
    store.apply(&received("queue_1", 1), 10).unwrap();
    store.apply(&sent("queue_1", "c"), 11).unwrap();
    assert_eq!(store.apply(&expired("queue_1", 0), 16), Ok(Outcome::Done));
    assert_eq!(
        snapshot(&store),
        vec![(
            "queue_1".to_string(),
            5,
            vec![
                ("a".to_string(), MessageState::Available),
                ("b".to_string(), MessageState::Available),
                ("c".to_string(), MessageState::Available)
            ]
        )]
    );
    assert_eq!(
        store.apply(&received("queue_1", 3), 20),
        Ok(Outcome::Delivered(vec![delivery(1, "a"), delivery(2, "b"), delivery(3, "c")]))
    );
}

#[test]
fn expiry_without_its_lease_changes_nothing() {
    let mut store = Store::new();
    store.apply(&created("queue_1", 5), 0).unwrap();
    store.apply(&sent("queue_1", "a"), 1).unwrap();
    store.apply(&sent("queue_1", "b"), 1).unwrap();
    store.apply(&received("queue_1", 2), 10).unwrap();

    // deleted already
    store.apply(&message_deleted("queue_1", 0), 11).unwrap();
    let before = snapshot(&store);
    assert_eq!(store.apply(&expired("queue_1", 0), 16), Ok(Outcome::Done));
    assert_eq!(snapshot(&store), before);

    // expired already, and leased again under another handle
    store.apply(&expired("queue_1", 1), 16).unwrap();
    let before = snapshot(&store);
    assert_eq!(store.apply(&expired("queue_1", 1), 16), Ok(Outcome::Done));
    assert_eq!(snapshot(&store), before);
    store.apply(&received("queue_1", 1), 17).unwrap();
    let before = snapshot(&store);
    assert_eq!(before[0].2, vec![("b".to_string(), in_flight(2, 22))]);
    assert_eq!(store.apply(&expired("queue_1", 1), 18), Ok(Outcome::Done));
    assert_eq!(snapshot(&store), before);

    // the queue is gone, or never was
    store.apply(&deleted("queue_1"), 19).unwrap();
    assert_eq!(store.apply(&expired("queue_1", 2), 30), Ok(Outcome::Done));
    assert_eq!(store.apply(&expired("nowhere", 0), 30), Ok(Outcome::Done));
    assert!(store.get_queues().is_empty());
}

#[test]
fn validate_tells_what_apply_would_do() {
    let mut store = Store::new();
    assert_eq!(store.validate(&created("queue_1", 5)), Ok(()));
    assert_eq!(store.validate(&deleted("queue_1")), Err(StoreError::QueueNotFound));
    assert_eq!(store.validate(&sent("queue_1", "a")), Err(StoreError::QueueNotFound));
    assert_eq!(store.validate(&received("queue_1", 1)), Err(StoreError::QueueNotFound));
    assert_eq!(store.validate(&message_deleted("queue_1", 0)), Err(StoreError::QueueNotFound));
    assert_eq!(store.validate(&expired("queue_1", 0)), Ok(()));
    assert!(store.get_queues().is_empty());

    store.apply(&created("queue_1", 5), 0).unwrap();
    store.apply(&sent("queue_1", "a"), 1).unwrap();
    assert_eq!(store.validate(&created("queue_1", 5)), Err(StoreError::QueueAlreadyExists));
    assert_eq!(store.validate(&deleted("queue_1")), Ok(()));
    assert_eq!(store.validate(&sent("queue_1", "a")), Ok(()));
    assert_eq!(store.validate(&received("queue_1", 1)), Ok(()));
    assert_eq!(
        store.validate(&message_deleted("queue_1", 0)),
        Err(StoreError::ReceiptHandleInvalid)
    );
    store.apply(&received("queue_1", 1), 2).unwrap();
    assert_eq!(store.validate(&message_deleted("queue_1", 0)), Ok(()));
    assert_eq!(
        snapshot(&store),
        vec![("queue_1".to_string(), 5, vec![("a".to_string(), in_flight(0, 7))])]
    );
}

#[test]
fn distinct_creations_all_succeed_in_any_order() {
    let ids = ["queue_1", "queue_2", "queue_3"];
    let orders = [[0, 1, 2], [0, 2, 1], [1, 0, 2], [1, 2, 0], [2, 0, 1], [2, 1, 0]];
    for order in orders {
        let mut store = Store::new();
        for i in order {
            assert_eq!(store.apply(&created(ids[i], 5), 0), Ok(Outcome::Done));
        }
        let mut names: Vec<String> =
            store.get_queues().iter().map(|queue| queue.get_name().clone()).collect();
        assert_eq!(names.len(), 3);
        names.sort();
        assert_eq!(names, vec!["queue_1", "queue_2", "queue_3"]);
    }
}

#[test]
fn of_two_creations_under_one_id_exactly_one_succeeds() {
    for (first, second) in [(5, 9), (9, 5)] {
        let mut store = Store::new();
        assert_eq!(store.apply(&created("queue_1", first), 0), Ok(Outcome::Done));
        assert_eq!(
            store.apply(&created("queue_1", second), 0),
            Err(StoreError::QueueAlreadyExists)
        );
        assert_eq!(snapshot(&store), vec![("queue_1".to_string(), first, vec![])]);
    }
}
