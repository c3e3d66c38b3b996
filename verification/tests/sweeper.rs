use rqs::engine::Engine;
use rqs::event::{Delivery, Outcome, RQSEvent};
use rqs::model::MessageState;
use rqs::store::Store;
use rqs::sweeper::sweep;

fn created(queue_id: &str, visibility_timeout: u64) -> RQSEvent {
    RQSEvent::QueueCreated { queue_id: queue_id.to_string(), visibility_timeout }
}

fn sent(queue_id: &str, body: &str) -> RQSEvent {
    RQSEvent::MessageSent { queue_id: queue_id.to_string(), body: body.to_string() }
}

fn received(queue_id: &str, max_messages: u64) -> RQSEvent {
    RQSEvent::MessageReceived { queue_id: queue_id.to_string(), max_messages }
}

fn expired(queue_id: &str, receipt_handle: u64) -> RQSEvent {
    RQSEvent::MessageVisibilityExpired { queue_id: queue_id.to_string(), receipt_handle }
}

#[test]
fn sweep_of_an_empty_store_names_nothing() {
    assert_eq!(sweep(&Store::new(), 100), vec![]);
}

#[test]
fn sweep_names_the_leases_whose_deadline_has_passed() {
    let mut store = Store::new();
    store.apply(&created("slow", 50), 0).unwrap();
    store.apply(&created("fast", 5), 0).unwrap();
    store.apply(&sent("slow", "a"), 1).unwrap();
    store.apply(&sent("fast", "b"), 1).unwrap();
    store.apply(&sent("fast", "c"), 1).unwrap();
    store.apply(&sent("fast", "d"), 1).unwrap();
    store.apply(&received("slow", 1), 10).unwrap(); // handle 0, deadline 60
    store.apply(&received("fast", 1), 10).unwrap(); // handle 1, deadline 15
    store.apply(&received("fast", 1), 12).unwrap(); // handle 2, deadline 17

    assert_eq!(sweep(&store, 14), vec![]);
    // a deadline that is reached has passed
    assert_eq!(sweep(&store, 15), vec![expired("fast", 1)]);
    assert_eq!(sweep(&store, 16), vec![expired("fast", 1)]);
    assert_eq!(sweep(&store, 17), vec![expired("fast", 1), expired("fast", 2)]);
    assert_eq!(
        sweep(&store, 60),
        vec![expired("slow", 0), expired("fast", 1), expired("fast", 2)]
    );
}

#[test]
fn sweep_changes_nothing() {
    let mut store = Store::new();
    store.apply(&created("queue_1", 5), 0).unwrap();
    store.apply(&sent("queue_1", "a"), 1).unwrap();
    store.apply(&received("queue_1", 1), 10).unwrap();
    sweep(&store, 100);
    assert_eq!(
        store.get_queues()[0].get_messages()[0].get_state(),
        MessageState::InFlight { receipt_handle: 0, deadline: 15 }
    );
}

#[test]
fn an_abandoned_message_is_delivered_again_under_a_new_handle() {
    let mut engine = Engine::new();
    engine.handle_event(created("queue_1", 5), 1000).unwrap();
    engine.handle_event(sent("queue_1", "hello"), 1001).unwrap();
    let first = engine.handle_event(received("queue_1", 1), 1002).unwrap().outcome;
    assert_eq!(
        first,
        Outcome::Delivered(vec![Delivery { receipt_handle: 0, body: "hello".to_string() }])
    );
    assert_eq!(
        engine.get_queues()[0].get_messages()[0].get_state(),
        MessageState::InFlight { receipt_handle: 0, deadline: 1007 }
    );

    // within the timeout the sweeper leaves the lease alone, and nobody
    // else gets the message
    assert_eq!(sweep(engine.get_store(), 1006), vec![]);
    assert_eq!(
        engine.handle_event(received("queue_1", 1), 1006).unwrap().outcome,
        Outcome::Delivered(vec![])
    );

    // after it, the sweeper reclaims the message
    let due = sweep(engine.get_store(), 1008);
    assert_eq!(due, vec![expired("queue_1", 0)]);
    for event in due {
        assert_eq!(engine.handle_event(event, 1008).unwrap().outcome, Outcome::Done);
    }
    assert_eq!(
        engine.get_queues()[0].get_messages()[0].get_state(),
        MessageState::Available
    );
    assert_eq!(sweep(engine.get_store(), 1008), vec![]);

    let second = engine.handle_event(received("queue_1", 1), 1009).unwrap().outcome;
    assert_eq!(
        second,
        Outcome::Delivered(vec![Delivery { receipt_handle: 1, body: "hello".to_string() }])
    );
}

#[test]
fn a_sweep_reclaims_every_lapsed_lease_and_nothing_else() {
    let mut store = Store::new();
    store.apply(&created("slow", 50), 0).unwrap();
    store.apply(&created("fast", 5), 0).unwrap();
    store.apply(&sent("slow", "a"), 1).unwrap();
    store.apply(&sent("fast", "b"), 1).unwrap();
    store.apply(&sent("fast", "c"), 1).unwrap();
    store.apply(&sent("fast", "d"), 1).unwrap();
    store.apply(&received("slow", 1), 10).unwrap(); // handle 0, deadline 60
    store.apply(&received("fast", 2), 10).unwrap(); // handles 1 and 2, deadline 15

    for event in sweep(&store, 20) {
        assert_eq!(store.apply(&event, 20), Ok(Outcome::Done));
    }
    let states: Vec<Vec<(String, MessageState)>> = store
        .get_queues()
        .iter()
        .map(|queue| {
            queue
                .get_messages()
                .iter()
                .map(|message| (message.get_body().clone(), message.get_state()))
                .collect()
        })
        .collect();
    assert_eq!(
        states,
        vec![
            vec![("a".to_string(), MessageState::InFlight { receipt_handle: 0, deadline: 60 })],
            vec![
                ("b".to_string(), MessageState::Available),
                ("c".to_string(), MessageState::Available),
                ("d".to_string(), MessageState::Available),
            ],
        ]
    );
    assert_eq!(sweep(&store, 20), vec![]);
}
