//! Error answers shared by the request handlers and subscriptions.

use vstd::prelude::*;
use crate::event_hub::EventHistoryGap;
use crate::ids::{CollectionId, parse_collection_spec};
use crate::schema::{ErrorBody, ErrorResponse};
use crate::text::{decimal, u64_to_decimal};

verus! {

/// The message of a history gap.
pub open spec fn gap_text(gap: EventHistoryGap) -> Seq<char> {
    "event history after sequence "@ + decimal(gap.requested_sequence as nat)
        + " is unavailable; oldest available is "@ + decimal(gap.oldest_available_sequence as nat)
        + " (current "@ + decimal(gap.current_sequence as nat) + ")"@
}

/// The answer telling subscriber `request_id` to resynchronize.
pub fn history_gap_error(request_id: &str, gap: EventHistoryGap) -> (r: ErrorResponse)
    ensures
        r.id@ == request_id@,
        r.error.code@ == "resync_required"@,
        r.error.message@ == gap_text(gap),
{
    let mut message = String::from_str("event history after sequence ");
    message.append(u64_to_decimal(gap.requested_sequence).as_str());
    message.append(" is unavailable; oldest available is ");
    message.append(u64_to_decimal(gap.oldest_available_sequence).as_str());
    message.append(" (current ");
    message.append(u64_to_decimal(gap.current_sequence).as_str());
    message.append(")");
    ErrorResponse {
        id: String::from_str(request_id),
        error: ErrorBody { code: String::from_str("resync_required"), message },
    }
}

/// `response` answering request `request_id` instead.
pub fn with_request_id(response: ErrorResponse, request_id: &str) -> (r: ErrorResponse)
    ensures
        r.id@ == request_id@,
        r.error == response.error,
{
    let mut response = response;
    response.id = String::from_str(request_id);
    response
}

/// A public collection identity, or nothing.
pub fn parse_collection_id(raw: &str) -> (r: Option<CollectionId>)
    ensures
        match parse_collection_spec(raw@) {
            Some(n) => r matches Some(id) && id.value() == n,
            None => r is None,
        },
{
    match CollectionId::parse(raw) {
        Ok(id) => Some(id),
        Err(_) => None,
    }
}

/// The answer to request `id` naming an unknown collection.
pub fn collection_not_found(id: String, collection_id: &str) -> (r: ErrorResponse)
    ensures
        r.id@ == id@,
        r.error.code@ == "collection_not_found"@,
        r.error.message@ == "collection "@ + collection_id@ + " not found"@,
{
    let mut message = String::from_str("collection ");
    message.append(collection_id);
    message.append(" not found");
    ErrorResponse { id, error: ErrorBody { code: String::from_str("collection_not_found"), message } }
}

/// The answer to request `id` naming an unknown workspace.
pub fn workspace_not_found(id: String, workspace_id: &str) -> (r: ErrorResponse)
    ensures
        r.id@ == id@,
        r.error.code@ == "workspace_not_found"@,
        r.error.message@ == "workspace "@ + workspace_id@ + " not found"@,
{
    let mut message = String::from_str("workspace ");
    message.append(workspace_id);
    message.append(" not found");
    ErrorResponse { id, error: ErrorBody { code: String::from_str("workspace_not_found"), message } }
}

} // verus!
