//! The queue service: what the RPC layer asks of the engine, and what it
//! answers.
//!
//! Each request becomes exactly one event. What the engine makes of the
//! event becomes the response: a flag that tells success from failure, and
//! a line of text.

use crate::error::EngineError;
use crate::event::{EventView, Outcome, RQSEvent};
use crate::transport::{
    delete_queue_request_into_inner, delete_queue_request_message, delete_queue_response_message,
    delete_queue_response_new, new_queue_request_into_inner, new_queue_request_message,
    new_queue_response_message, new_queue_response_new,
};
use vstd::prelude::*;
use vstd::string::StringExecFns;

verus! {

/// The request to create a queue.
#[derive(Clone, Debug, PartialEq, Eq)]
pub struct NewQueueRequest {
    pub queue_id: String,
    pub visibility_timeout: u64,
}

/// The request to delete a queue.
#[derive(Clone, Debug, PartialEq, Eq)]
pub struct DeleteQueueRequest {
    pub queue_id: String,
}

/// The mathematical value of a request: the queue it names and, for a
/// creation, the visibility timeout; zero for a deletion.
pub struct RequestView {
    pub queue_id: Seq<char>,
    pub visibility_timeout: u64,
}

impl View for NewQueueRequest {
    type V = RequestView;

    open spec fn view(&self) -> RequestView {
        RequestView { queue_id: self.queue_id@, visibility_timeout: self.visibility_timeout }
    }
}

impl View for DeleteQueueRequest {
    type V = RequestView;

    open spec fn view(&self) -> RequestView {
        RequestView { queue_id: self.queue_id@, visibility_timeout: 0 }
    }
}

/// The response to the creation of a queue.
#[derive(Clone, Debug, PartialEq, Eq)]
pub struct NewQueueResponse {
    pub success: bool,
    pub data: String,
}

/// The response to the deletion of a queue.
#[derive(Clone, Debug, PartialEq, Eq)]
pub struct DeleteQueueResponse {
    pub success: bool,
    pub data: String,
}

/// The mathematical value of a response.
pub struct ResponseView {
    pub success: bool,
    pub data: Seq<char>,
}

impl View for NewQueueResponse {
    type V = ResponseView;

    open spec fn view(&self) -> ResponseView {
        ResponseView { success: self.success, data: self.data@ }
    }
}

impl View for DeleteQueueResponse {
    type V = ResponseView;

    open spec fn view(&self) -> ResponseView {
        ResponseView { success: self.success, data: self.data@ }
    }
}

impl NewQueueRequest {
    /// The event that the request asks for.
    pub fn into_event(self) -> (event: RQSEvent)
        ensures
            event@ == (EventView::QueueCreated {
                queue_id: self@.queue_id,
                visibility_timeout: self@.visibility_timeout,
            }),
    {
        RQSEvent::QueueCreated {
            queue_id: self.queue_id,
            visibility_timeout: self.visibility_timeout,
        }
    }
}

impl DeleteQueueRequest {
    /// The event that the request asks for.
    pub fn into_event(self) -> (event: RQSEvent)
        ensures
            event@ == (EventView::QueueDeleted { queue_id: self@.queue_id }),
    {
        RQSEvent::QueueDeleted { queue_id: self.queue_id }
    }
}

/// What a response says of an event that the engine has dealt with: on
/// success the flag is set and the text is `done`; on failure the flag is
/// clear and the text is `failed`, followed by the error in words.
pub open spec fn reply(failure: Option<EngineError>, done: Seq<char>, failed: Seq<char>) -> ResponseView {
    match failure {
        None => ResponseView { success: true, data: done },
        Some(error) => ResponseView { success: false, data: failed + error.description() },
    }
}

/// The error of a result, if it is one.
pub open spec fn failure_of<T>(result: Result<T, EngineError>) -> Option<EngineError> {
    match result {
        Ok(_) => None,
        Err(error) => Some(error),
    }
}

impl NewQueueResponse {
    /// The response to a request whose event the engine has dealt with.
    pub fn from_result(result: &Result<Outcome, EngineError>) -> (response: NewQueueResponse)
        ensures
            response@ == reply(
                failure_of(*result),
                "Successfully created queue"@,
                "Failed to create queue. Failed with error: "@,
            ),
    {
        match result {
            Ok(_) => NewQueueResponse {
                success: true,
                data: String::from_str("Successfully created queue"),
            },
            Err(error) => NewQueueResponse {
                success: false,
                data: String::from_str("Failed to create queue. Failed with error: ").concat(
                    error.describe().as_str(),
                ),
            },
        }
    }
}

impl DeleteQueueResponse {
    /// The response to a request whose event the engine has dealt with.
    pub fn from_result(result: &Result<Outcome, EngineError>) -> (response: DeleteQueueResponse)
        ensures
            response@ == reply(
                failure_of(*result),
                "Successfully deleted queue"@,
                "Failed to delete queue. Failed with error: "@,
            ),
    {
        match result {
            Ok(_) => DeleteQueueResponse {
                success: true,
                data: String::from_str("Successfully deleted queue"),
            },
            Err(error) => DeleteQueueResponse {
                success: false,
                data: String::from_str("Failed to delete queue. Failed with error: ").concat(
                    error.describe().as_str(),
                ),
            },
        }
    }
}

/// The queue service, as it is registered with an RPC server.
#[derive(Debug)]
pub struct QueueServiceServer<T> {
    inner: T,
}

impl<T> QueueServiceServer<T> {
    /// The service that the server answers with.
    pub closed spec fn service(&self) -> T {
        self.inner
    }

    /// A server that answers with `inner`.
    pub fn new(inner: T) -> (server: QueueServiceServer<T>)
        ensures
            server.service() == inner,
    {
        QueueServiceServer { inner }
    }

    /// The service that the server answers with.
    pub fn get_ref(&self) -> (inner: &T)
        ensures
            *inner == self.service(),
    {
        &self.inner
    }
}

/// The queue service. It holds no state of its own: the queues live in the
/// engine.
#[derive(Debug)]
pub struct Queue;

impl Default for Queue {
    fn default() -> (queue: Queue)
        ensures
            queue == Queue,
    {
        Queue
    }
}

impl Queue {
    /// The service, ready to be registered with an RPC server.
    pub fn new_queue_server() -> (server: QueueServiceServer<Queue>)
        ensures
            server.service() == Queue,
    {
        QueueServiceServer::new(Queue::default())
    }

    /// The event that a request to create a queue asks for.
    pub fn new_queue_event(&self, request: tonic::Request<NewQueueRequest>) -> (event: RQSEvent)
        ensures
            event@ == (EventView::QueueCreated {
                queue_id: new_queue_request_message(request).queue_id,
                visibility_timeout: new_queue_request_message(request).visibility_timeout,
            }),
    {
        new_queue_request_into_inner(request).into_event()
    }

    /// The response to a request to create a queue, once the engine has
    /// dealt with its event. The RPC as such never fails: a refused event
    /// is reported in the response.
    pub fn new_queue_response(&self, result: &Result<Outcome, EngineError>) -> (response: Result<
        tonic::Response<NewQueueResponse>,
        tonic::Status,
    >)
        ensures
            response matches Ok(carried) && new_queue_response_message(carried) == reply(
                failure_of(*result),
                "Successfully created queue"@,
                "Failed to create queue. Failed with error: "@,
            ),
    {
        Ok(new_queue_response_new(NewQueueResponse::from_result(result)))
    }

    /// The event that a request to delete a queue asks for.
    pub fn delete_queue_event(&self, request: tonic::Request<DeleteQueueRequest>) -> (event:
        RQSEvent)
        ensures
            event@ == (EventView::QueueDeleted {
                queue_id: delete_queue_request_message(request).queue_id,
            }),
    {
        delete_queue_request_into_inner(request).into_event()
    }

    /// The response to a request to delete a queue, once the engine has
    /// dealt with its event. The RPC as such never fails: a refused event
    /// is reported in the response.
    pub fn delete_queue_response(&self, result: &Result<Outcome, EngineError>) -> (response:
        Result<tonic::Response<DeleteQueueResponse>, tonic::Status>)
        ensures
            response matches Ok(carried) && delete_queue_response_message(carried) == reply(
                failure_of(*result),
                "Successfully deleted queue"@,
                "Failed to delete queue. Failed with error: "@,
            ),
    {
        Ok(delete_queue_response_new(DeleteQueueResponse::from_result(result)))
    }
}

} // verus!
