use rqs::engine::Engine;
use rqs::error::{EngineError, LogError, StoreError};
use rqs::event::{Delivery, Outcome, RQSEvent};
use rqs::model::MessageState;
use rqs::record::encode_record;

fn created(queue_id: &str, visibility_timeout: u64) -> RQSEvent {
    RQSEvent::QueueCreated { queue_id: queue_id.to_string(), visibility_timeout }
}

fn deleted(queue_id: &str) -> RQSEvent {
    RQSEvent::QueueDeleted { queue_id: queue_id.to_string() }
}

fn sent(queue_id: &str, body: &str) -> RQSEvent {
    RQSEvent::MessageSent { queue_id: queue_id.to_string(), body: body.to_string() }
}

fn received(queue_id: &str, max_messages: u64) -> RQSEvent {
    RQSEvent::MessageReceived { queue_id: queue_id.to_string(), max_messages }
}

fn message_deleted(queue_id: &str, receipt_handle: u64) -> RQSEvent {
    RQSEvent::MessageDeleted { queue_id: queue_id.to_string(), receipt_handle }
}

fn expired(queue_id: &str, receipt_handle: u64) -> RQSEvent {
    RQSEvent::MessageVisibilityExpired { queue_id: queue_id.to_string(), receipt_handle }
}

fn snapshot(engine: &Engine) -> Vec<(String, u64, Vec<(String, MessageState)>)> {
    engine
        .get_queues()
        .iter()
        .map(|queue| {
            (
                queue.get_name().clone(),
                queue.get_visibility_timeout(),
                queue
                    .get_messages()
                    .iter()
                    .map(|message| (message.get_body().clone(), message.get_state()))
                    .collect(),
            )
        })
        .collect()
}

/// Hands the events to a fresh engine and collects the log. Refused events
/// leave no trace.
fn run(events: &[(RQSEvent, u64)]) -> (Engine, Vec<u8>) {
    let mut engine = Engine::new();
    let mut log = Vec::new();
    for (event, now) in events {
        if let Ok(handled) = engine.handle_event(event.clone(), *now) {
            log.extend_from_slice(&handled.record);
        }
    }
    (engine, log)
}

fn busy_history() -> Vec<(RQSEvent, u64)> {
    vec![
        (created("queue_1", 5), 100),
        (created("queue_2", 60), 101),
        (created("queue_1", 9), 102), // refused
        (sent("queue_1", "a"), 103),
        (sent("queue_1", "b"), 104),
        (sent("queue_2", "c"), 105),
        (sent("queue_3", "d"), 106), // refused
        (received("queue_1", 1), 107),
        (received("queue_2", 5), 108),
        (message_deleted("queue_1", 0), 109),
        (message_deleted("queue_1", 0), 110), // refused
        (received("queue_1", 1), 111),
        (expired("queue_1", 2), 117),
        (expired("queue_1", 2), 118), // changes nothing, but is logged
        (created("queue_3", 1), 119),
        (deleted("queue_3"), 120),
        (sent("queue_1", "e"), 121),
    ]
}

#[test]
fn a_new_engine_has_no_queues() {
    assert!(Engine::new().get_queues().is_empty());
    assert!(Engine::new().get_store().get_queues().is_empty());
}

#[test]
fn accepted_events_are_numbered_from_zero() {
    let mut engine = Engine::new();
    let first = engine.handle_event(created("queue_1", 5), 100).unwrap();
    assert_eq!(first.outcome, Outcome::Done);
    assert_eq!(first.sequence, 0);
    assert_eq!(first.record, encode_record(0, 100, &created("queue_1", 5)).unwrap());
    let second = engine.handle_event(sent("queue_1", "a"), 101).unwrap();
    assert_eq!(second.sequence, 1);
    assert_eq!(second.record, encode_record(1, 101, &sent("queue_1", "a")).unwrap());
    let third = engine.handle_event(received("queue_1", 1), 102).unwrap();
    assert_eq!(
        third.outcome,
        Outcome::Delivered(vec![Delivery { receipt_handle: 0, body: "a".to_string() }])
    );
    assert_eq!(third.sequence, 2);
    assert_eq!(third.record, encode_record(2, 102, &received("queue_1", 1)).unwrap());
}

#[test]
fn a_refused_event_takes_no_sequence_number() {
    let mut engine = Engine::new();
    engine.handle_event(created("queue_1", 5), 100).unwrap();
    assert_eq!(
        engine.handle_event(created("queue_1", 5), 101).err(),
        Some(EngineError::Store(StoreError::QueueAlreadyExists))
    );
    assert_eq!(
        engine.handle_event(sent("nowhere", "a"), 101).err(),
        Some(EngineError::Store(StoreError::QueueNotFound))
    );
    assert_eq!(
        engine.handle_event(message_deleted("queue_1", 3), 101).err(),
        Some(EngineError::Store(StoreError::ReceiptHandleInvalid))
    );
    assert_eq!(snapshot(&engine), vec![("queue_1".to_string(), 5, vec![])]);
    assert_eq!(engine.handle_event(sent("queue_1", "a"), 102).unwrap().sequence, 1);
}

#[test]
fn stage_hands_out_the_record_and_changes_nothing() {
    let mut engine = Engine::new();
    let event = created("queue_1", 5);
    let record = engine.stage(&event, 100).unwrap();
    assert_eq!(record, encode_record(0, 100, &event).unwrap());
    assert!(engine.get_queues().is_empty());
    // staged twice, the same record comes out: nothing was numbered
    assert_eq!(engine.stage(&event, 100), Ok(record.clone()));
    assert_eq!(engine.handle_event(event.clone(), 100).unwrap().record, record);
    assert_eq!(
        engine.stage(&event, 101),
        Err(EngineError::Store(StoreError::QueueAlreadyExists))
    );
    assert_eq!(
        engine.stage(&deleted("nowhere"), 101),
        Err(EngineError::Store(StoreError::QueueNotFound))
    );
    assert_eq!(
        engine.stage(&message_deleted("queue_1", 0), 101),
        Err(EngineError::Store(StoreError::ReceiptHandleInvalid))
    );
}

#[test]
fn a_log_rebuilds_the_engine_that_wrote_it() {
    let history = busy_history();
    for n in 0..=history.len() {
        let (mut engine, log) = run(&history[..n]);
        let mut revived = Engine::new();
        assert_eq!(revived.revive_from_log(&log), Ok(log.len()));
        assert_eq!(snapshot(&revived), snapshot(&engine));
        // the next handle and the next sequence number are rebuilt too
        for queue_id in ["queue_1", "queue_2"] {
            let here = engine.handle_event(received(queue_id, 9), 500);
            let there = revived.handle_event(received(queue_id, 9), 500);
            assert_eq!(here.is_ok(), there.is_ok());
            if let (Ok(here), Ok(there)) = (here, there) {
                assert_eq!(here.outcome, there.outcome);
                assert_eq!(here.sequence, there.sequence);
                assert_eq!(here.record, there.record);
            }
        }
    }
}

#[test]
fn the_whole_history_ends_in_the_expected_state() {
    let (engine, log) = run(&busy_history());
    let expected = vec![
        (
            "queue_1".to_string(),
            5,
            vec![
                ("b".to_string(), MessageState::Available),
                ("e".to_string(), MessageState::Available),
            ],
        ),
        (
            "queue_2".to_string(),
            60,
            vec![("c".to_string(), MessageState::InFlight { receipt_handle: 1, deadline: 168 })],
        ),
    ];
    assert_eq!(snapshot(&engine), expected);
    let mut revived = Engine::new();
    assert_eq!(revived.revive_from_log(&log), Ok(log.len()));
    assert_eq!(snapshot(&revived), expected);
}

#[test]
fn leases_are_rebuilt_with_the_timestamps_of_the_log() {
    let (_, log) = run(&[
        (created("queue_1", 5), 100),
        (sent("queue_1", "a"), 101),
        (received("queue_1", 1), 102),
    ]);
    let mut revived = Engine::new();
    revived.revive_from_log(&log).unwrap();
    assert_eq!(
        snapshot(&revived),
        vec![(
            "queue_1".to_string(),
            5,
            vec![("a".to_string(), MessageState::InFlight { receipt_handle: 0, deadline: 107 })]
        )]
    );
}

#[test]
fn reviving_forgets_what_the_engine_held() {
    let (mut engine, _) = run(&[(created("old", 5), 100)]);
    let (_, log) = run(&[(created("new", 7), 200)]);
    assert_eq!(engine.revive_from_log(&log), Ok(log.len()));
    assert_eq!(snapshot(&engine), vec![("new".to_string(), 7, vec![])]);
    assert_eq!(engine.revive_from_log(&[]), Ok(0));
    assert!(engine.get_queues().is_empty());
}

#[test]
fn a_torn_last_record_is_left_out() {
    let history = vec![(created("queue_1", 5), 100), (sent("queue_1", "a"), 101)];
    let (_, whole) = run(&history);
    let (first, first_log) = run(&history[..1]);
    for cut in first_log.len()..whole.len() {
        let mut revived = Engine::new();
        assert_eq!(revived.revive_from_log(&whole[..cut]), Ok(first_log.len()));
        assert_eq!(snapshot(&revived), snapshot(&first));
        // the engine goes on where the valid part of the log ends
        assert_eq!(revived.handle_event(sent("queue_1", "b"), 102).unwrap().sequence, 1);
    }
}

#[test]
fn a_log_damaged_before_its_end_leaves_the_engine_empty() {
    let (mut engine, mut log) = run(&[
        (created("queue_1", 5), 100),
        (sent("queue_1", "a"), 101),
        (sent("queue_1", "b"), 102),
    ]);
    log[10] ^= 0x40;
    assert_eq!(
        engine.revive_from_log(&log),
        Err(EngineError::Log(LogError::Corrupt { offset: 0 }))
    );
    assert!(engine.get_queues().is_empty());
    assert_eq!(engine.handle_event(created("queue_1", 5), 103).unwrap().sequence, 0);
}

#[test]
fn a_log_with_an_event_that_does_not_apply_leaves_the_engine_empty() {
    let mut log = encode_record(0, 100, &created("queue_1", 5)).unwrap();
    log.extend_from_slice(&encode_record(1, 101, &sent("queue_2", "a")).unwrap());
    log.extend_from_slice(&encode_record(2, 102, &sent("queue_1", "b")).unwrap());
    let mut engine = Engine::new();
    assert_eq!(
        engine.revive_from_log(&log),
        Err(EngineError::Log(LogError::Rejected { sequence: 1 }))
    );
    assert!(engine.get_queues().is_empty());
}

#[test]
fn clear_forgets_queues_and_entries() {
    let (mut engine, _) = run(&busy_history());
    engine.clear();
    assert!(engine.get_queues().is_empty());
    let handled = engine.handle_event(created("queue_1", 5), 100).unwrap();
    assert_eq!(handled.sequence, 0);
    engine.handle_event(sent("queue_1", "a"), 101).unwrap();
    assert_eq!(
        engine.handle_event(received("queue_1", 1), 102).unwrap().outcome,
        Outcome::Delivered(vec![Delivery { receipt_handle: 0, body: "a".to_string() }])
    );
}

#[test]
fn an_expiry_that_changes_nothing_is_accepted() {
    let mut engine = Engine::new();
    assert_eq!(engine.handle_event(expired("nowhere", 0), 100).unwrap().outcome, Outcome::Done);
    engine.handle_event(created("queue_1", 5), 101).unwrap();
    assert_eq!(engine.handle_event(expired("queue_1", 0), 102).unwrap().outcome, Outcome::Done);
    assert_eq!(snapshot(&engine), vec![("queue_1".to_string(), 5, vec![])]);
}
