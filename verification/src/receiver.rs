//! What a sender of spans is told. That is the whole contract: accepted, or
//! keep it.

use vstd::prelude::*;

use crate::buffer::Full;
use crate::otlp::{all_stored, decoded, from_bytes, spans_in};
use crate::spans::{span_views, Span};
use crate::types::Timestamp;

verus! {

/// The path OTLP over HTTP puts traces on.
pub const TRACES: &'static str = "/v1/traces";

/// A full success is an empty `ExportTraceServiceResponse`, which encodes to no
/// bytes at all: only the content type says what it is.
pub const PROTOBUF: &'static str = "application/x-protobuf";

/// What a sender is told.
#[derive(Debug)]
pub enum Reply {
    /// The spans were taken: a status, the content type and no bytes.
    Accepted { status: u16, content_type: &'static str },
    /// They were not: a status, and why.
    Refused { status: u16, message: String },
}

/// A reply, as plain values.
pub enum ReplyView {
    Accepted { status: u16, content_type: Seq<char> },
    Refused { status: u16, message: Seq<char> },
}

impl View for Reply {
    type V = ReplyView;

    open spec fn view(&self) -> ReplyView {
        match self {
            Reply::Accepted { status, content_type } => ReplyView::Accepted {
                status: *status,
                content_type: content_type@,
            },
            Reply::Refused { status, message } => ReplyView::Refused {
                status: *status,
                message: message@,
            },
        }
    }
}

/// The spans in a body, or what to tell a sender whose body cannot be read:
/// that is its mistake, and no amount of retrying will fix it.
pub fn read(body: &[u8], received_at: Timestamp) -> (read: Result<Vec<Span>, Reply>)
    ensures
        match decoded(body@) {
            Ok(request) => read matches Ok(rows) && span_views(rows@) == all_stored(
                spans_in(request),
                received_at@,
            ),
            Err(message) => read matches Err(reply) && reply@ == (ReplyView::Refused {
                status: 400,
                message,
            }),
        },
{
    match from_bytes(body, received_at) {
        Ok(spans) => Ok(spans),
        Err(malformed) => Err(Reply::Refused { status: 400, message: malformed.message }),
    }
}

/// What to tell a sender whose spans were queued, or found no room. Senders
/// retry, so saying no is what keeps the spans somewhere until prism can take
/// them.
pub fn answer(queued: Result<(), Full>) -> (reply: Reply)
    ensures
        reply@ == match queued {
            Ok(()) => ReplyView::Accepted {
                status: 200,
                content_type: "application/x-protobuf"@,
            },
            Err(_) => ReplyView::Refused { status: 503, message: "ingest queue is full"@ },
        },
{
    match queued {
        Ok(()) => Reply::Accepted { status: 200, content_type: PROTOBUF },
        Err(full) => Reply::Refused { status: 503, message: full.message() },
    }
}

} // verus!
