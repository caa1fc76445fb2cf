//! SQL in, rows out. What builds the queries lives elsewhere.

use arrow::json::ArrayWriter;
use vstd::prelude::*;
use vstd::utf8::encode_utf8;

use crate::record::{stops_json, RecordBatch};

verus! {

/// A query to run.
#[derive(Debug)]
pub struct Request {
    pub sql: String,
}

/// What a caller is told.
#[derive(Debug)]
pub enum Reply {
    /// A status, the content type and the rows.
    Rows { status: u16, content_type: &'static str, body: Vec<u8> },
    /// A status, and what went wrong.
    Failed { status: u16, message: String },
}

/// A reply, as plain values.
pub enum ReplyView {
    Rows { status: u16, content_type: Seq<char>, body: Seq<u8> },
    Failed { status: u16, message: Seq<char> },
}

impl View for Reply {
    type V = ReplyView;

    open spec fn view(&self) -> ReplyView {
        match self {
            Reply::Rows { status, content_type, body } => ReplyView::Rows {
                status: *status,
                content_type: content_type@,
                body: body@,
            },
            Reply::Failed { status, message } => ReplyView::Failed {
                status: *status,
                message: message@,
            },
        }
    }
}

/// What a caller whose query will not run is told: that is the caller's
/// mistake, and the message is what they need to fix it, so it is the body
/// rather than a log line.
pub fn refused(message: String) -> (reply: Reply)
    ensures
        reply@ == (ReplyView::Failed { status: 400, message: message@ }),
{
    Reply::Failed { status: 400, message }
}

/// What a caller whose rows cannot be written out is told: what went wrong, in
/// the writer's words.
pub fn failed(message: String) -> (reply: Reply)
    ensures
        reply@ == (ReplyView::Failed { status: 500, message: message@ }),
{
    Reply::Failed { status: 500, message }
}

/// An `arrow::json::ArrayWriter` into memory.
#[verifier::external_body]
pub struct JsonWriter {
    inner: ArrayWriter<Vec<u8>>,
}

/// The batches a writer has been given so far.
pub uninterp spec fn json_batches(writer: JsonWriter) -> Seq<RecordBatch>;

/// Whether a writer has written the end of the array.
pub uninterp spec fn json_ended(writer: JsonWriter) -> bool;

/// Whether a writer given some batches takes one more.
pub uninterp spec fn json_takes(batches: Seq<RecordBatch>, batch: RecordBatch) -> bool;

/// The bytes some batches are written as, with the end of the array or without.
pub uninterp spec fn json_bytes(batches: Seq<RecordBatch>, ended: bool) -> Seq<u8>;

/// `ArrayWriter::new`, over an empty vector: nothing written yet.
#[verifier::external_body]
fn json_writer() -> (writer: JsonWriter)
    ensures
        json_batches(writer) == Seq::<RecordBatch>::empty(),
        !json_ended(writer),
{
    JsonWriter { inner: ArrayWriter::new(Vec::new()) }
}

/// `ArrayWriter::write`: one batch more, or the words of the error, after which
/// there is nothing left to write to. Nothing is said of the words: they can
/// spell out a type, whose metadata comes in no order.
#[verifier::external_body]
fn write_json(writer: JsonWriter, batch: &RecordBatch) -> (result: Result<JsonWriter, String>)
    requires
        !json_ended(writer),
        !stops_json(*batch),
    ensures
        result is Ok <==> json_takes(json_batches(writer), *batch),
        result matches Ok(written) ==> json_batches(written) == json_batches(writer).push(*batch)
            && !json_ended(written),
{
    let mut writer = writer;
    match writer.inner.write(&batch.inner) {
        Ok(()) => Ok(writer),
        Err(error) => Err(error.to_string()),
    }
}

/// `ArrayWriter::finish`: the end of the array. Writing to memory, it does not
/// fail.
#[verifier::external_body]
fn finish_json(writer: &mut JsonWriter) -> (result: Result<(), String>)
    ensures
        result is Ok,
        json_batches(*final(writer)) == json_batches(*old(writer)),
        json_ended(*final(writer)),
{
    writer.inner.finish().map_err(|error| error.to_string())
}

/// `ArrayWriter::into_inner`: the bytes written.
#[verifier::external_body]
fn into_json(writer: JsonWriter) -> (bytes: Vec<u8>)
    ensures
        bytes@ == json_bytes(json_batches(writer), json_ended(writer)),
{
    writer.inner.into_inner()
}

/// Whether every one of some batches can be written, each after those before
/// it.
pub open spec fn all_taken(batches: Seq<RecordBatch>) -> bool {
    forall|i: int| 0 <= i < batches.len() ==> json_takes(batches.take(i), #[trigger] batches[i])
}

/// The body around some rows. A query matching nothing may produce no array at
/// all, which reads as one with nothing in it.
pub open spec fn framed(rows: Seq<u8>, elapsed_ms: Seq<char>) -> Seq<u8> {
    encode_utf8("{\"rows\":"@) + (if rows.len() == 0 {
        encode_utf8("[]"@)
    } else {
        rows
    }) + encode_utf8(",\"elapsed_ms\":"@) + encode_utf8(elapsed_ms) + encode_utf8("}"@)
}

/// Whether a reply is what a caller is told of the batches a query produced:
/// the rows, or that they could not be written out.
pub open spec fn answers(reply: ReplyView, batches: Seq<RecordBatch>, elapsed_ms: Seq<char>) -> bool {
    if all_taken(batches) {
        reply == (ReplyView::Rows {
            status: 200,
            content_type: "application/json"@,
            body: framed(json_bytes(batches, true), elapsed_ms),
        })
    } else {
        reply matches ReplyView::Failed { status, .. } && status == 500
    }
}

fn push_bytes(body: &mut Vec<u8>, bytes: &[u8])
    ensures
        final(body)@ == old(body)@ + bytes@,
{
    let ghost before = body@;
    let mut i: usize = 0;
    while i < bytes.len()
        invariant
            i <= bytes.len(),
            body@ == before + bytes@.take(i as int),
        decreases bytes.len() - i,
    {
        body.push(bytes[i]);
        i = i + 1;
        assert(body@ =~= before + bytes@.take(i as int));
    }
    assert(bytes@.take(i as int) =~= bytes@);
}

/// The body around some rows.
pub fn frame(rows: Vec<u8>, elapsed_ms: &str) -> (body: Vec<u8>)
    ensures
        body@ == framed(rows@, elapsed_ms@),
{
    let mut body: Vec<u8> = Vec::new();
    push_bytes(&mut body, "{\"rows\":".as_bytes());
    if rows.len() == 0 {
        push_bytes(&mut body, "[]".as_bytes());
    } else {
        push_bytes(&mut body, rows.as_slice());
    }
    push_bytes(&mut body, ",\"elapsed_ms\":".as_bytes());
    push_bytes(&mut body, elapsed_ms.as_bytes());
    push_bytes(&mut body, "}".as_bytes());
    assert(body@ =~= framed(rows@, elapsed_ms@));
    body
}

/// What a caller is told of the batches a query produced. `rows` are the
/// query's own columns, untouched: everything the store wants to say about
/// answering it goes beside them rather than among them.
pub fn json(batches: &Vec<RecordBatch>, elapsed_ms: &str) -> (reply: Reply)
    requires
        forall|i: int| 0 <= i < batches@.len() ==> !stops_json(#[trigger] batches@[i]),
    ensures
        answers(reply@, batches@, elapsed_ms@),
{
    let mut writer = json_writer();
    let mut i: usize = 0;
    assert(batches@.take(0) =~= Seq::<RecordBatch>::empty());
    while i < batches.len()
        invariant
            i <= batches.len(),
            forall|k: int| 0 <= k < batches@.len() ==> !stops_json(#[trigger] batches@[k]),
            json_batches(writer) == batches@.take(i as int),
            !json_ended(writer),
            forall|k: int|
                0 <= k < i ==> json_takes(batches@.take(k), #[trigger] batches@[k]),
        decreases batches.len() - i,
    {
        writer = match write_json(writer, &batches[i]) {
            Ok(written) => written,
            Err(message) => {
                return failed(message);
            },
        };
        i = i + 1;
        assert(json_batches(writer) =~= batches@.take(i as int));
    }
    assert(batches@.take(i as int) =~= batches@);
    if let Err(message) = finish_json(&mut writer) {
        return failed(message);
    }
    Reply::Rows {
        status: 200,
        content_type: "application/json",
        body: frame(into_json(writer), elapsed_ms),
    }
}

/// A body is the rows as they were written, between what says they are rows and
/// how long they took. No rows at all read as an array with nothing in it.
pub proof fn a_body_holds_the_rows(rows: Seq<u8>, elapsed_ms: Seq<char>)
    ensures
        rows.len() > 0 ==> framed(rows, elapsed_ms) == encode_utf8("{\"rows\":"@) + rows
            + encode_utf8(",\"elapsed_ms\":"@) + encode_utf8(elapsed_ms) + encode_utf8("}"@),
        rows.len() == 0 ==> framed(rows, elapsed_ms) == encode_utf8("{\"rows\":"@) + encode_utf8(
            "[]"@,
        ) + encode_utf8(",\"elapsed_ms\":"@) + encode_utf8(elapsed_ms) + encode_utf8("}"@),
{
}

/// A caller gets every row or is told that there was an error, and the first
/// batch that cannot be written is enough for that.
pub proof fn a_caller_gets_every_row_or_an_error(
    reply: ReplyView,
    batches: Seq<RecordBatch>,
    elapsed_ms: Seq<char>,
)
    requires
        answers(reply, batches, elapsed_ms),
    ensures
        (exists|i: int|
            0 <= i < batches.len() && !json_takes(batches.take(i), #[trigger] batches[i])) <==> (
        reply matches ReplyView::Failed { status, .. } && status == 500),
        reply matches ReplyView::Rows { status, content_type, body } ==> {
            &&& status == 200
            &&& content_type == "application/json"@
            &&& body == framed(json_bytes(batches, true), elapsed_ms)
        },
        reply matches ReplyView::Failed { status, .. } ==> status == 500,
{
}

} // verus!
