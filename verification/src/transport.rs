//! The envelopes in which the RPC layer hands requests over and takes
//! responses back.

use crate::queue::{
    DeleteQueueRequest, DeleteQueueResponse, NewQueueRequest, NewQueueResponse, RequestView,
    ResponseView,
};
use vstd::prelude::*;

verus! {

/// `tonic::Request`: a request message with its metadata.
#[verifier::external_type_specification]
#[verifier::external_body]
#[verifier::reject_recursive_types(T)]
pub struct ExRequest<T>(tonic::Request<T>);

/// `tonic::Response`: a response message with its metadata.
#[verifier::external_type_specification]
#[verifier::external_body]
#[verifier::reject_recursive_types(T)]
pub struct ExResponse<T>(tonic::Response<T>);

/// `tonic::Status`: the failure of an RPC as such.
#[verifier::external_type_specification]
#[verifier::external_body]
pub struct ExStatus(tonic::Status);

/// The message that a request to create a queue carries.
pub uninterp spec fn new_queue_request_message(
    request: tonic::Request<NewQueueRequest>,
) -> RequestView;

/// The message that a request to delete a queue carries.
pub uninterp spec fn delete_queue_request_message(
    request: tonic::Request<DeleteQueueRequest>,
) -> RequestView;

/// The message that a response to the creation of a queue carries.
pub uninterp spec fn new_queue_response_message(
    response: tonic::Response<NewQueueResponse>,
) -> ResponseView;

/// The message that a response to the deletion of a queue carries.
pub uninterp spec fn delete_queue_response_message(
    response: tonic::Response<DeleteQueueResponse>,
) -> ResponseView;

/// Takes the message out of a request. Calls `tonic::Request::into_inner`,
/// which hands out the message that the request carries and drops the rest.
#[verifier::external_body]
pub(crate) fn new_queue_request_into_inner(request: tonic::Request<NewQueueRequest>) -> (message:
    NewQueueRequest)
    ensures
        message@ == new_queue_request_message(request),
{
    request.into_inner()
}

/// Takes the message out of a request. Calls `tonic::Request::into_inner`,
/// which hands out the message that the request carries and drops the rest.
#[verifier::external_body]
pub(crate) fn delete_queue_request_into_inner(
    request: tonic::Request<DeleteQueueRequest>,
) -> (message: DeleteQueueRequest)
    ensures
        message@ == delete_queue_request_message(request),
{
    request.into_inner()
}

/// Puts a message into a response. Calls `tonic::Response::new`, which
/// makes a response that carries the message, with empty metadata.
#[verifier::external_body]
pub(crate) fn new_queue_response_new(message: NewQueueResponse) -> (response: tonic::Response<
    NewQueueResponse,
>)
    ensures
        new_queue_response_message(response) == message@,
{
    tonic::Response::new(message)
}

/// Puts a message into a response. Calls `tonic::Response::new`, which
/// makes a response that carries the message, with empty metadata.
#[verifier::external_body]
pub(crate) fn delete_queue_response_new(message: DeleteQueueResponse) -> (response:
    tonic::Response<DeleteQueueResponse>)
    ensures
        delete_queue_response_message(response) == message@,
{
    tonic::Response::new(message)
}

} // verus!
