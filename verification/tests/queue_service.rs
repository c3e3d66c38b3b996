use rqs::engine::Engine;
use rqs::error::{EngineError, LogError, StoreError};
use rqs::event::{Outcome, RQSEvent};
use rqs::queue::{
    DeleteQueueRequest, DeleteQueueResponse, NewQueueRequest, NewQueueResponse, Queue,
};

/// Hands an event to the engine as a server does: the record is appended
/// to the log before the event is applied.
fn submit(
    engine: &mut Engine,
    log: &mut Vec<u8>,
    event: RQSEvent,
    now: u64,
) -> Result<Outcome, EngineError> {
    let record = engine.stage(&event, now)?;
    log.extend_from_slice(&record);
    let handled = engine.handle_event(event, now)?;
    assert_eq!(handled.record, record);
    Ok(handled.outcome)
}

fn new_queue(
    engine: &mut Engine,
    log: &mut Vec<u8>,
    queue_id: &str,
    visibility_timeout: u64,
) -> NewQueueResponse {
    let service = Queue::default();
    let request = tonic::Request::new(NewQueueRequest {
        queue_id: queue_id.to_string(),
        visibility_timeout,
    });
    let event = service.new_queue_event(request);
    let result = submit(engine, log, event, 100);
    service
        .new_queue_response(&result)
        .expect("Failed to create queue request")
        .into_inner()
}

fn delete_queue(engine: &mut Engine, log: &mut Vec<u8>, queue_id: &str) -> DeleteQueueResponse {
    let service = Queue::default();
    let request = tonic::Request::new(DeleteQueueRequest { queue_id: queue_id.to_string() });
    let event = service.delete_queue_event(request);
    let result = submit(engine, log, event, 100);
    service.delete_queue_response(&result).expect("Failed to delete queue").into_inner()
}

fn queue_names(engine: &Engine) -> Vec<&String> {
    engine.get_queues().iter().map(|x| x.get_name()).collect::<Vec<&String>>()
}

#[test]
fn test_create_queue_request() {
    let mut engine = Engine::new();
    let mut log = Vec::new();
    let response = new_queue(&mut engine, &mut log, "queue_1", 5);
    assert!(response.success);
    assert_eq!(response.data, "Successfully created queue");

    let queues = queue_names(&engine);
    assert_eq!(queues, vec!["queue_1"]);
}

#[test]
fn test_create_and_delete_queue_request() {
    let mut engine = Engine::new();
    let mut log = Vec::new();
    new_queue(&mut engine, &mut log, "queue_1", 5);
    let response = delete_queue(&mut engine, &mut log, "queue_1");
    assert!(response.success);
    assert_eq!(response.data, "Successfully deleted queue");

    let queues = queue_names(&engine);
    assert_eq!(queues, vec![] as Vec<&String>);
}

#[test]
fn test_multiple_concurrent_queue_requests() {
    let mut engine = Engine::new();
    let mut log = Vec::new();
    new_queue(&mut engine, &mut log, "queue_1", 5);
    new_queue(&mut engine, &mut log, "queue_2", 5);

    // should have two queues
    let queues = queue_names(&engine);
    assert_eq!(queues, vec!["queue_1", "queue_2"]);

    // should also be able to revive the queues
    let mut rqs = Engine::new();
    assert_eq!(rqs.revive_from_log(&log), Ok(log.len()));
    let queues = queue_names(&rqs);
    assert_eq!(queues, vec!["queue_1", "queue_2"]);
}

#[test]
fn new_queue_event_carries_the_request() {
    let request = tonic::Request::new(NewQueueRequest {
        queue_id: "orders".to_string(),
        visibility_timeout: 30,
    });
    assert_eq!(
        Queue::default().new_queue_event(request),
        RQSEvent::QueueCreated { queue_id: "orders".to_string(), visibility_timeout: 30 }
    );
}

#[test]
fn delete_queue_event_carries_the_request() {
    let request = tonic::Request::new(DeleteQueueRequest { queue_id: "orders".to_string() });
    assert_eq!(
        Queue::default().delete_queue_event(request),
        RQSEvent::QueueDeleted { queue_id: "orders".to_string() }
    );
}

#[test]
fn creating_a_queue_twice_is_reported_as_failure() {
    let mut engine = Engine::new();
    let mut log = Vec::new();
    new_queue(&mut engine, &mut log, "queue_1", 5);
    let len = log.len();
    let response = new_queue(&mut engine, &mut log, "queue_1", 9);
    assert!(!response.success);
    assert_eq!(
        response.data,
        "Failed to create queue. Failed with error: queue already exists"
    );
    assert_eq!(log.len(), len);
    assert_eq!(queue_names(&engine), vec!["queue_1"]);
    assert_eq!(engine.get_queues()[0].get_visibility_timeout(), 5);
}

#[test]
fn deleting_a_missing_queue_is_reported_as_failure() {
    let mut engine = Engine::new();
    let mut log = Vec::new();
    let response = delete_queue(&mut engine, &mut log, "queue_1");
    assert!(!response.success);
    assert_eq!(response.data, "Failed to delete queue. Failed with error: queue not found");
    assert!(log.is_empty());
}

#[test]
fn a_failed_append_is_reported_as_failure() {
    let service = Queue::default();
    let result = Err(EngineError::Log(LogError::AppendFailed));
    let response = service.new_queue_response(&result).unwrap().into_inner();
    assert_eq!(
        response,
        NewQueueResponse {
            success: false,
            data: "Failed to create queue. Failed with error: log append failed".to_string(),
        }
    );
    let response = service.delete_queue_response(&result).unwrap().into_inner();
    assert_eq!(
        response,
        DeleteQueueResponse {
            success: false,
            data: "Failed to delete queue. Failed with error: log append failed".to_string(),
        }
    );
}

#[test]
fn every_error_has_its_words() {
    assert_eq!(StoreError::QueueAlreadyExists.describe(), "queue already exists");
    assert_eq!(StoreError::QueueNotFound.describe(), "queue not found");
    assert_eq!(StoreError::ReceiptHandleInvalid.describe(), "receipt handle is invalid");
    assert_eq!(LogError::EntryTooLarge.describe(), "event does not fit into a log record");
    assert_eq!(LogError::SequenceExhausted.describe(), "log sequence numbers are exhausted");
    assert_eq!(LogError::AppendFailed.describe(), "log append failed");
    assert_eq!(
        LogError::Corrupt { offset: 3 }.describe(),
        "log is damaged before its last record"
    );
    assert_eq!(
        LogError::Rejected { sequence: 3 }.describe(),
        "log holds an event that does not apply"
    );
    assert_eq!(
        EngineError::Store(StoreError::QueueNotFound).describe(),
        "queue not found"
    );
    assert_eq!(EngineError::Log(LogError::AppendFailed).describe(), "log append failed");
}

#[test]
fn the_server_holds_the_service() {
    let server = Queue::new_queue_server();
    let _service: &Queue = server.get_ref();
}
