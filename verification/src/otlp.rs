//! Turns what OpenTelemetry sends into what prism stores.

use opentelemetry_proto::tonic::collector::trace::v1 as collector;
use opentelemetry_proto::tonic::common::v1 as common;
use opentelemetry_proto::tonic::common::v1::any_value;
use opentelemetry_proto::tonic::trace::v1::Span as SentSpan;
use prost::Message;
use vstd::prelude::*;

use crate::record::{Common, CommonView};
use crate::spans::{span_views, Span, SpanView, Status};
use crate::text::{
    decimal, decimal_reads_back, decimal_text, hex, hex_reads_back, hex_text, hex_value, is_empty,
    number_of, option_view,
};
use crate::types::{
    entry_views, last_values, lemma_last_value, lemma_last_values_keys, Entry, Id, Tags, Timestamp,
};

verus! {

#[verifier::external_type_specification]
#[verifier::external_body]
pub struct ExSentSpan(SentSpan);

#[verifier::external_type_specification]
#[verifier::external_body]
pub struct ExKeyValue(opentelemetry_proto::tonic::common::v1::KeyValue);

/// Hardcoded for demo.
pub const ORGANIZATION_ID: &'static str = "1";

pub const PROJECT_ID: &'static str = "1";

/// A value an attribute can have.
#[derive(Debug)]
pub enum Value {
    StringValue(String),
    BoolValue(bool),
    IntValue(i64),
    /// A number with a fraction, as text.
    DoubleValue(String),
    ArrayValue,
    KvlistValue,
    BytesValue(Vec<u8>),
    /// A reference into a table that only profiles have.
    StringValueStrindex(i32),
}

/// A value an attribute can have, as plain values.
pub enum ValueView {
    StringValue(Seq<char>),
    BoolValue(bool),
    IntValue(int),
    DoubleValue(Seq<char>),
    ArrayValue,
    KvlistValue,
    BytesValue(Seq<u8>),
    StringValueStrindex(int),
}

impl View for Value {
    type V = ValueView;

    open spec fn view(&self) -> ValueView {
        match self {
            Value::StringValue(text) => ValueView::StringValue(text@),
            Value::BoolValue(value) => ValueView::BoolValue(*value),
            Value::IntValue(value) => ValueView::IntValue(*value as int),
            Value::DoubleValue(text) => ValueView::DoubleValue(text@),
            Value::ArrayValue => ValueView::ArrayValue,
            Value::KvlistValue => ValueView::KvlistValue,
            Value::BytesValue(bytes) => ValueView::BytesValue(bytes@),
            Value::StringValueStrindex(index) => ValueView::StringValueStrindex(*index as int),
        }
    }
}

/// A value that may be empty.
#[derive(Debug)]
pub struct AnyValue {
    pub value: Option<Value>,
}

impl View for AnyValue {
    type V = Option<ValueView>;

    open spec fn view(&self) -> Option<ValueView> {
        match self.value {
            Some(value) => Some(value@),
            None => None,
        }
    }
}

/// An attribute: a key, and perhaps a value.
#[derive(Debug)]
pub struct Attribute {
    pub key: String,
    pub value: Option<AnyValue>,
}

/// An attribute, as plain values.
pub type AttributeView = (Seq<char>, Option<Option<ValueView>>);

impl View for Attribute {
    type V = AttributeView;

    open spec fn view(&self) -> AttributeView {
        (
            self.key@,
            match self.value {
                Some(value) => Some(value@),
                None => None,
            },
        )
    }
}

/// How a span ended, by a code and in words.
#[derive(Debug)]
pub struct OtlpStatus {
    pub code: i32,
    pub message: String,
}

/// A span as it arrives.
#[derive(Debug)]
pub struct OtlpSpan {
    pub trace_id: Vec<u8>,
    pub span_id: Vec<u8>,
    pub parent_span_id: Vec<u8>,
    pub name: String,
    pub start_time_unix_nano: u64,
    pub end_time_unix_nano: u64,
    pub status: Option<OtlpStatus>,
    pub attributes: Vec<Attribute>,
}

/// A span as it arrives, as plain values.
#[verifier::ext_equal]
pub struct OtlpSpanView {
    pub trace_id: Seq<u8>,
    pub span_id: Seq<u8>,
    pub parent_span_id: Seq<u8>,
    pub name: Seq<char>,
    pub start_time_unix_nano: u64,
    pub end_time_unix_nano: u64,
    pub status: Option<(i32, Seq<char>)>,
    pub attributes: Seq<AttributeView>,
}

pub open spec fn status_view(status: Option<OtlpStatus>) -> Option<(i32, Seq<char>)> {
    match status {
        Some(status) => Some((status.code, status.message@)),
        None => None,
    }
}

pub open spec fn attribute_views(attributes: Seq<Attribute>) -> Seq<AttributeView> {
    attributes.map_values(|attribute: Attribute| attribute@)
}

impl View for OtlpSpan {
    type V = OtlpSpanView;

    open spec fn view(&self) -> OtlpSpanView {
        OtlpSpanView {
            trace_id: self.trace_id@,
            span_id: self.span_id@,
            parent_span_id: self.parent_span_id@,
            name: self.name@,
            start_time_unix_nano: self.start_time_unix_nano,
            end_time_unix_nano: self.end_time_unix_nano,
            status: status_view(self.status),
            attributes: attribute_views(self.attributes@),
        }
    }
}

/// The spans of one instrumentation scope.
#[derive(Debug)]
pub struct ScopeSpans {
    pub spans: Vec<OtlpSpan>,
}

/// The spans of one resource, by scope.
#[derive(Debug)]
pub struct ResourceSpans {
    pub scope_spans: Vec<ScopeSpans>,
}

/// Spans as they arrive together, by resource.
#[derive(Debug)]
pub struct ExportTraceServiceRequest {
    pub resource_spans: Vec<ResourceSpans>,
}

pub type ScopeView = Seq<OtlpSpanView>;

pub type ResourceView = Seq<ScopeView>;

pub type RequestView = Seq<ResourceView>;

impl View for ScopeSpans {
    type V = ScopeView;

    open spec fn view(&self) -> ScopeView {
        self.spans@.map_values(|span: OtlpSpan| span@)
    }
}

impl View for ResourceSpans {
    type V = ResourceView;

    open spec fn view(&self) -> ResourceView {
        self.scope_spans@.map_values(|scope: ScopeSpans| scope@)
    }
}

impl View for ExportTraceServiceRequest {
    type V = RequestView;

    open spec fn view(&self) -> RequestView {
        self.resource_spans@.map_values(|resource: ResourceSpans| resource@)
    }
}

/// Tag values are text or none. Arrays and nested lists have no obvious text,
/// so they are mapped to none.
pub open spec fn value_text(value: ValueView) -> Option<Seq<char>> {
    match value {
        ValueView::StringValue(text) => Some(text),
        ValueView::BoolValue(value) => Some(
            if value {
                "true"@
            } else {
                "false"@
            },
        ),
        ValueView::IntValue(value) => Some(decimal(value)),
        ValueView::DoubleValue(text) => Some(text),
        ValueView::BytesValue(bytes) => Some(hex(bytes)),
        _ => None,
    }
}

/// The tag an attribute becomes. Keys pass through as they are; only values
/// need converting.
pub open spec fn tag_of(attribute: AttributeView) -> Entry {
    (
        attribute.0,
        match attribute.1 {
            Some(Some(value)) => value_text(value),
            _ => None,
        },
    )
}

pub open spec fn tags_of(attributes: Seq<AttributeView>) -> Seq<Entry> {
    attributes.map_values(|attribute: AttributeView| tag_of(attribute))
}

/// A 64-bit count read as a signed one.
pub open spec fn signed(count: u64) -> int {
    if count <= i64::MAX {
        count as int
    } else {
        count - 0x1_0000_0000_0000_0000
    }
}

/// What a status code says. One there is no name for says nothing.
pub open spec fn status_of(code: i32) -> Status {
    if code == 1 {
        Status::Okay
    } else if code == 2 {
        Status::Error
    } else {
        Status::Unset
    }
}

/// The span something that arrived is stored as. Ids are fixed width, and a
/// sender that gets it wrong has sent something prism cannot identify, so the
/// span is dropped rather than stored under a padded id that collides with
/// another.
pub open spec fn stored(span: OtlpSpanView, received_at: int) -> Option<SpanView> {
    if span.span_id.len() != 8 || span.trace_id.len() != 16 {
        None
    } else {
        let (code, message) = match span.status {
            Some(status) => status,
            None => (0i32, Seq::empty()),
        };
        Some(
            SpanView {
                common: CommonView {
                    organization_id: ORGANIZATION_ID@,
                    project_id: PROJECT_ID@,
                    received_at,
                },
                span_id: span.span_id,
                trace_id: span.trace_id,
                parent_span_id: if span.parent_span_id.len() == 8 {
                    Some(span.parent_span_id)
                } else {
                    None
                },
                service: None,
                name: span.name,
                started_at: signed(span.start_time_unix_nano),
                ended_at: if span.end_time_unix_nano == 0 {
                    None
                } else {
                    Some(signed(span.end_time_unix_nano))
                },
                status: status_of(code),
                status_message: if status_of(code) == Status::Error && message.len() > 0 {
                    Some(message)
                } else {
                    None
                },
                tags: last_values(tags_of(span.attributes)),
            },
        )
    }
}

/// What some spans that arrived are stored as, in order.
pub open spec fn all_stored(spans: Seq<OtlpSpanView>, received_at: int) -> Seq<SpanView>
    decreases spans.len(),
{
    if spans.len() == 0 {
        Seq::empty()
    } else {
        let rest = all_stored(spans.drop_last(), received_at);
        match stored(spans.last(), received_at) {
            Some(span) => rest.push(span),
            None => rest,
        }
    }
}

/// Every span of a request, whatever resource or scope it arrived under.
pub open spec fn spans_in(request: RequestView) -> Seq<OtlpSpanView> {
    request.flatten().flatten()
}

pub open spec fn span_view(span: Option<Span>) -> Option<SpanView> {
    match span {
        Some(span) => Some(span@),
        None => None,
    }
}

/// Tag values are text or none.
pub fn tag_value(value: AnyValue) -> (text: Option<String>)
    ensures
        option_view(text) == match value@ {
            Some(value) => value_text(value),
            None => None,
        },
        value.value matches Some(Value::StringValue(sent)) ==> option_view(text) == Some(sent@),
        value.value matches Some(Value::DoubleValue(sent)) ==> option_view(text) == Some(sent@),
        value.value matches Some(Value::BoolValue(sent)) ==> option_view(text) == Some(
            if sent {
                "true"@
            } else {
                "false"@
            },
        ),
        value.value matches Some(Value::IntValue(sent)) ==> option_view(text) == Some(
            decimal(sent as int),
        ),
        value.value matches Some(Value::BytesValue(sent)) ==> option_view(text) == Some(hex(sent@)),
        value.value is None ==> text is None,
{
    match value.value {
        Some(Value::StringValue(text)) => Some(text),
        Some(Value::BoolValue(value)) => Some(
            if value {
                String::from_str("true")
            } else {
                String::from_str("false")
            },
        ),
        Some(Value::IntValue(value)) => Some(decimal_text(value)),
        Some(Value::DoubleValue(text)) => Some(text),
        Some(Value::BytesValue(bytes)) => Some(hex_text(bytes.as_slice())),
        _ => None,
    }
}

/// The tags some attributes become.
pub fn tags(attributes: Vec<Attribute>) -> (tags: Tags)
    ensures
        tags@ == last_values(tags_of(attribute_views(attributes@))),
{
    let ghost given = attribute_views(attributes@);
    let mut entries: Vec<(String, Option<String>)> = Vec::new();
    for attribute in iter: attributes
        invariant
            given == attribute_views(iter.seq()),
            entry_views(entries@) == tags_of(given).take(iter.index()),
    {
        let ghost before = entries@;
        let ghost view = attribute@;
        assert(given[iter.index()] == view);
        let Attribute { key, value } = attribute;
        let text = match value {
            Some(value) => tag_value(value),
            None => None,
        };
        entries.push((key, text));
        assert(entry_views(entries@) =~= entry_views(before).push(tag_of(view)));
        assert(entry_views(entries@) =~= tags_of(given).take(iter.index() + 1));
    }
    assert(entry_views(entries@) =~= tags_of(given));
    Tags::from_iter(entries)
}

/// The instant a count of nanoseconds since the epoch stands for.
pub fn nanos(unix_nano: u64) -> (at: Timestamp)
    ensures
        at@ == signed(unix_nano),
{
    let count: i64 = if unix_nano <= i64::MAX as u64 {
        unix_nano as i64
    } else {
        -((u64::MAX - unix_nano) as i64) - 1
    };
    Timestamp::from_nanos(count)
}

/// The span something that arrived is stored as.
pub fn to_span(span: OtlpSpan, received_at: Timestamp) -> (row: Option<Span>)
    ensures
        span_view(row) == stored(span@, received_at@),
        row is Some <==> span.span_id@.len() == 8 && span.trace_id@.len() == 16,
        row matches Some(row) ==> {
            &&& row.common.received_at@ == received_at@
            &&& row.span_id@ == span.span_id@
            &&& row.trace_id@ == span.trace_id@
            &&& row.name@ == span.name@
            &&& row.status == Status::Error <==> (span.status matches Some(sent) && sent.code == 2)
            &&& row.status == Status::Okay <==> (span.status matches Some(sent) && sent.code == 1)
            &&& row.status_message is Some <==> (span.status matches Some(sent) && sent.code == 2
                && sent.message@.len() > 0)
            &&& row.status_message matches Some(message) ==> (span.status matches Some(sent)
                && message@ == sent.message@)
            &&& row.parent_span_id is Some <==> span.parent_span_id@.len() == 8
            &&& row.parent_span_id matches Some(parent) ==> parent@ == span.parent_span_id@
            &&& row.started_at@ % 0x1_0000_0000_0000_0000 == span.start_time_unix_nano
            &&& row.ended_at is Some <==> span.end_time_unix_nano != 0
            &&& row.ended_at matches Some(ended_at) ==> ended_at@ % 0x1_0000_0000_0000_0000
                == span.end_time_unix_nano
        },
{
    let (code, message): (i32, String) = match span.status {
        Some(status) => (status.code, status.message),
        None => (0, String::new()),
    };
    let span_id = match Id::<8>::from_slice(span.span_id.as_slice()) {
        Some(id) => id,
        None => {
            return None;
        },
    };
    let trace_id = match Id::<16>::from_slice(span.trace_id.as_slice()) {
        Some(id) => id,
        None => {
            return None;
        },
    };
    // Empty rather than absent is how OTLP says a span has no parent.
    let parent_span_id = Id::<8>::from_slice(span.parent_span_id.as_slice());
    // Zero means the span had not finished when it was exported, which is the
    // same as having no end.
    let ended_at = if span.end_time_unix_nano != 0 {
        Some(nanos(span.end_time_unix_nano))
    } else {
        None
    };
    let status = if code == 1 {
        Status::Okay
    } else if code == 2 {
        Status::Error
    } else {
        Status::Unset
    };
    // A message says why a span failed, so one sent with any other status is
    // about nothing.
    let status_message = if code == 2 && !is_empty(message.as_str()) {
        Some(message)
    } else {
        None
    };
    Some(
        Span {
            common: Common {
                organization_id: String::from_str(ORGANIZATION_ID),
                project_id: String::from_str(PROJECT_ID),
                received_at,
            },
            span_id,
            trace_id,
            parent_span_id,
            service: None,
            name: span.name,
            started_at: nanos(span.start_time_unix_nano),
            ended_at,
            status,
            status_message,
            tags: tags(span.attributes),
        },
    )
}

/// Spans are stored one by one, so what two requests hold is stored alike
/// whether they are sent apart or as one.
pub proof fn requests_are_stored_alike_apart_or_joined(
    a: Seq<OtlpSpanView>,
    b: Seq<OtlpSpanView>,
    received_at: int,
)
    ensures
        all_stored(a + b, received_at) == all_stored(a, received_at) + all_stored(b, received_at),
    decreases b.len(),
{
    if b.len() == 0 {
        assert(a + b =~= a);
    } else {
        requests_are_stored_alike_apart_or_joined(a, b.drop_last(), received_at);
        assert((a + b).drop_last() =~= a + b.drop_last());
    }
    assert(all_stored(a + b, received_at) =~= all_stored(a, received_at) + all_stored(
        b,
        received_at,
    ));
}

/// Adds what the spans of one scope are stored as.
fn push_scope(scope: ScopeSpans, received_at: Timestamp, spans: &mut Vec<Span>)
    ensures
        span_views(final(spans)@) == span_views(old(spans)@) + all_stored(scope@, received_at@),
{
    let ghost before = span_views(spans@);
    let ghost given = scope@;
    assert(before + all_stored(given.take(0), received_at@) =~= before);
    for span in iter: scope.spans
        invariant
            given == iter.seq().map_values(|span: OtlpSpan| span@),
            span_views(spans@) == before + all_stored(given.take(iter.index()), received_at@),
    {
        let ghost so_far = given.take(iter.index() + 1);
        let ghost held = spans@;
        assert(so_far.drop_last() =~= given.take(iter.index()));
        assert(so_far.last() == span@);
        if let Some(row) = to_span(span, received_at) {
            spans.push(row);
            assert(span_views(spans@) =~= span_views(held).push(row@));
        }
        assert(span_views(spans@) =~= before + all_stored(so_far, received_at@));
    }
    assert(given.take(given.len() as int) =~= given);
}

/// Adds what the spans of one resource are stored as.
fn push_resource(resource: ResourceSpans, received_at: Timestamp, spans: &mut Vec<Span>)
    ensures
        span_views(final(spans)@) == span_views(old(spans)@) + all_stored(
            resource@.flatten(),
            received_at@,
        ),
{
    let ghost before = span_views(spans@);
    let ghost given = resource@;
    assert(before + all_stored(given.take(0).flatten(), received_at@) =~= before);
    for scope in iter: resource.scope_spans
        invariant
            given == iter.seq().map_values(|scope: ScopeSpans| scope@),
            span_views(spans@) == before + all_stored(
                given.take(iter.index()).flatten(),
                received_at@,
            ),
    {
        let ghost taken = given.take(iter.index());
        let ghost view = scope@;
        push_scope(scope, received_at, spans);
        proof {
            assert(given.take(iter.index() + 1) =~= taken.push(view));
            taken.lemma_flatten_push(view);
            requests_are_stored_alike_apart_or_joined(taken.flatten(), view, received_at@);
            assert(span_views(spans@) =~= before + all_stored(
                given.take(iter.index() + 1).flatten(),
                received_at@,
            ));
        }
    }
    assert(given.take(given.len() as int) =~= given);
}

/// Every span in the request, whatever resource or scope it arrived under.
/// Those groupings say where a span came from, not what it is, and prism stores
/// one row per span.
pub fn spans(request: ExportTraceServiceRequest, received_at: Timestamp) -> (spans: Vec<Span>)
    ensures
        span_views(spans@) == all_stored(spans_in(request@), received_at@),
{
    let mut spans: Vec<Span> = Vec::new();
    let ghost given = request@;
    assert(span_views(spans@) =~= all_stored(spans_in(given.take(0)), received_at@));
    for resource in iter: request.resource_spans
        invariant
            given == iter.seq().map_values(|resource: ResourceSpans| resource@),
            span_views(spans@) == all_stored(spans_in(given.take(iter.index())), received_at@),
    {
        let ghost taken = given.take(iter.index());
        let ghost view = resource@;
        push_resource(resource, received_at, &mut spans);
        proof {
            assert(given.take(iter.index() + 1) =~= taken.push(view));
            taken.lemma_flatten_push(view);
            vstd::seq_lib::lemma_flatten_concat(taken.flatten(), view);
            requests_are_stored_alike_apart_or_joined(taken.flatten().flatten(), view.flatten(), received_at@);
        }
    }
    assert(given.take(given.len() as int) =~= given);
    spans
}

/// What a body decodes to, span by span, or what is wrong with it.
pub uninterp spec fn decoded(body: Seq<u8>) -> Result<RequestView, Seq<char>>;

/// What a decoded span holds.
pub uninterp spec fn sent_span(span: SentSpan) -> OtlpSpanView;

/// What a decoded attribute holds.
pub uninterp spec fn sent_attribute(attribute: common::KeyValue) -> AttributeView;

pub open spec fn sent_scope(scope: Seq<SentSpan>) -> ScopeView {
    scope.map_values(|span: SentSpan| sent_span(span))
}

pub open spec fn sent_resource(resource: Seq<Vec<SentSpan>>) -> ResourceView {
    resource.map_values(|scope: Vec<SentSpan>| sent_scope(scope@))
}

pub open spec fn sent_request(request: Seq<Vec<Vec<SentSpan>>>) -> RequestView {
    request.map_values(|resource: Vec<Vec<SentSpan>>| sent_resource(resource@))
}

/// `prost::Message::decode`, of an `ExportTraceServiceRequest`: the spans of
/// each scope of each resource, or the words of the error. What a body decodes
/// to depends on its bytes alone.
#[verifier::external_body]
fn decode(body: &[u8]) -> (request: Result<Vec<Vec<Vec<SentSpan>>>, String>)
    ensures
        decoded(body@) == match request {
            Ok(resources) => Ok::<RequestView, Seq<char>>(sent_request(resources@)),
            Err(message) => Err(message@),
        },
{
    let request = collector::ExportTraceServiceRequest::decode(body);
    let request = request.map_err(|error| error.to_string())?;
    let spans = |scope: opentelemetry_proto::tonic::trace::v1::ScopeSpans| scope.spans;
    let scopes = |resource: opentelemetry_proto::tonic::trace::v1::ResourceSpans| {
        resource.scope_spans.into_iter().map(spans).collect()
    };
    Ok(request.resource_spans.into_iter().map(scopes).collect())
}

/// A decoded span, its attributes still as they were decoded.
struct SentParts {
    trace_id: Vec<u8>,
    span_id: Vec<u8>,
    parent_span_id: Vec<u8>,
    name: String,
    start_time_unix_nano: u64,
    end_time_unix_nano: u64,
    status: Option<OtlpStatus>,
    attributes: Vec<common::KeyValue>,
}

spec fn sent_attributes(attributes: Seq<common::KeyValue>) -> Seq<AttributeView> {
    attributes.map_values(|attribute: common::KeyValue| sent_attribute(attribute))
}

/// The fields of a decoded `Span`, each as it is.
#[verifier::external_body]
fn parts(span: SentSpan) -> (parts: SentParts)
    ensures
        sent_span(span) == (OtlpSpanView {
            trace_id: parts.trace_id@,
            span_id: parts.span_id@,
            parent_span_id: parts.parent_span_id@,
            name: parts.name@,
            start_time_unix_nano: parts.start_time_unix_nano,
            end_time_unix_nano: parts.end_time_unix_nano,
            status: status_view(parts.status),
            attributes: sent_attributes(parts.attributes@),
        }),
{
    SentParts {
        trace_id: span.trace_id,
        span_id: span.span_id,
        parent_span_id: span.parent_span_id,
        name: span.name,
        start_time_unix_nano: span.start_time_unix_nano,
        end_time_unix_nano: span.end_time_unix_nano,
        status: span.status.map(|s| OtlpStatus { code: s.code, message: s.message }),
        attributes: span.attributes,
    }
}

/// The fields of a decoded `KeyValue`, a number with a fraction as
/// `f64::to_string` writes it.
#[verifier::external_body]
fn attribute(sent: common::KeyValue) -> (attribute: Attribute)
    ensures
        attribute@ == sent_attribute(sent),
{
    let value = |value: any_value::Value| match value {
        any_value::Value::StringValue(text) => Value::StringValue(text),
        any_value::Value::BoolValue(value) => Value::BoolValue(value),
        any_value::Value::IntValue(value) => Value::IntValue(value),
        any_value::Value::DoubleValue(value) => Value::DoubleValue(value.to_string()),
        any_value::Value::ArrayValue(_) => Value::ArrayValue,
        any_value::Value::KvlistValue(_) => Value::KvlistValue,
        any_value::Value::BytesValue(bytes) => Value::BytesValue(bytes),
        any_value::Value::StringValueStrindex(i) => Value::StringValueStrindex(i),
    };
    let any = |any: common::AnyValue| AnyValue { value: any.value.map(value) };
    Attribute { key: sent.key, value: sent.value.map(any) }
}

fn received_span(span: SentSpan) -> (received: OtlpSpan)
    ensures
        received@ == sent_span(span),
{
    let parts = parts(span);
    let ghost given = sent_attributes(parts.attributes@);
    let mut attributes: Vec<Attribute> = Vec::new();
    for sent in iter: parts.attributes
        invariant
            given == sent_attributes(iter.seq()),
            attribute_views(attributes@) == given.take(iter.index()),
    {
        let ghost before = attributes@;
        let ghost view = sent_attribute(sent);
        assert(given[iter.index()] == view);
        attributes.push(attribute(sent));
        assert(attribute_views(attributes@) =~= attribute_views(before).push(view));
        assert(attribute_views(attributes@) =~= given.take(iter.index() + 1));
    }
    assert(attribute_views(attributes@) =~= given);
    OtlpSpan {
        trace_id: parts.trace_id,
        span_id: parts.span_id,
        parent_span_id: parts.parent_span_id,
        name: parts.name,
        start_time_unix_nano: parts.start_time_unix_nano,
        end_time_unix_nano: parts.end_time_unix_nano,
        status: parts.status,
        attributes,
    }
}

fn received_scope(scope: Vec<SentSpan>) -> (received: ScopeSpans)
    ensures
        received@ == sent_scope(scope@),
{
    let ghost given = sent_scope(scope@);
    let mut spans: Vec<OtlpSpan> = Vec::new();
    for span in iter: scope
        invariant
            given == sent_scope(iter.seq()),
            spans@.len() == iter.index(),
            forall|i: int| 0 <= i < spans@.len() ==> (#[trigger] spans@[i])@ == given[i],
    {
        assert(given[iter.index()] == sent_span(span));
        spans.push(received_span(span));
    }
    let received = ScopeSpans { spans };
    assert(received@ =~= given);
    received
}

fn received_resource(resource: Vec<Vec<SentSpan>>) -> (received: ResourceSpans)
    ensures
        received@ == sent_resource(resource@),
{
    let ghost given = sent_resource(resource@);
    let mut scope_spans: Vec<ScopeSpans> = Vec::new();
    for scope in iter: resource
        invariant
            given == sent_resource(iter.seq()),
            scope_spans@.len() == iter.index(),
            forall|i: int|
                0 <= i < scope_spans@.len() ==> (#[trigger] scope_spans@[i])@ == given[i],
    {
        assert(given[iter.index()] == sent_scope(scope@));
        scope_spans.push(received_scope(scope));
    }
    let received = ResourceSpans { scope_spans };
    assert(received@ =~= given);
    received
}

/// What is wrong with a body that is no request.
#[derive(Debug)]
pub struct Malformed {
    pub message: String,
}

/// Every span in a request's body, or what is wrong with it.
pub fn from_bytes(body: &[u8], received_at: Timestamp) -> (read: Result<Vec<Span>, Malformed>)
    ensures
        match decoded(body@) {
            Ok(request) => read matches Ok(rows) && span_views(rows@) == all_stored(
                spans_in(request),
                received_at@,
            ),
            Err(message) => read matches Err(malformed) && malformed.message@ == message,
        },
{
    let resources = match decode(body) {
        Ok(resources) => resources,
        Err(message) => {
            return Err(Malformed { message });
        },
    };
    let ghost given = sent_request(resources@);
    let mut resource_spans: Vec<ResourceSpans> = Vec::new();
    for resource in iter: resources
        invariant
            given == sent_request(iter.seq()),
            resource_spans@.len() == iter.index(),
            forall|i: int|
                0 <= i < resource_spans@.len() ==> (#[trigger] resource_spans@[i])@ == given[i],
    {
        assert(given[iter.index()] == sent_resource(resource@));
        resource_spans.push(received_resource(resource));
    }
    let request = ExportTraceServiceRequest { resource_spans };
    assert(request@ =~= given);
    Ok(spans(request, received_at))
}

/// Only a span that failed is stored with a message.
pub proof fn only_a_failed_span_says_why(span: OtlpSpanView, received_at: int)
    ensures
        stored(span, received_at) matches Some(row) ==> (row.status_message is Some
            ==> row.status == Status::Error),
{
}

/// A span is dropped only where one of its ids has the wrong width, so a
/// request of well-formed spans is stored whole, one row for each.
pub proof fn every_span_in_the_request_is_stored(spans: Seq<OtlpSpanView>, received_at: int)
    requires
        forall|i: int|
            0 <= i < spans.len() ==> (#[trigger] spans[i]).span_id.len() == 8
                && spans[i].trace_id.len() == 16,
    ensures
        all_stored(spans, received_at).len() == spans.len(),
        forall|i: int|
            0 <= i < spans.len() ==> Some(#[trigger] all_stored(spans, received_at)[i]) == stored(
                spans[i],
                received_at,
            ),
    decreases spans.len(),
{
    if spans.len() > 0 {
        let front = spans.drop_last();
        assert forall|i: int| 0 <= i < front.len() implies (#[trigger] front[i]).span_id.len() == 8
            && front[i].trace_id.len() == 16 by {
            assert(front[i] == spans[i]);
        }
        every_span_in_the_request_is_stored(front, received_at);
        assert(spans.last() == spans[spans.len() - 1]);
        assert forall|i: int| 0 <= i < spans.len() implies Some(
            #[trigger] all_stored(spans, received_at)[i],
        ) == stored(spans[i], received_at) by {
            if i < front.len() {
                assert(all_stored(spans, received_at)[i] == all_stored(front, received_at)[i]);
                assert(front[i] == spans[i]);
            }
        }
    }
}

/// How a span ended is stored as it was sent, whatever else was sent with it:
/// failed exactly where it came with the code for that, well exactly where
/// with the other, and why it failed exactly where words came with a failure.
pub proof fn a_status_is_stored_as_it_was_sent(span: OtlpSpanView, received_at: int)
    requires
        span.span_id.len() == 8,
        span.trace_id.len() == 16,
    ensures
        stored(span, received_at) matches Some(row) && {
            &&& row.status == Status::Error <==> (span.status matches Some(sent) && sent.0 == 2)
            &&& row.status == Status::Okay <==> (span.status matches Some(sent) && sent.0 == 1)
            &&& row.status == Status::Unset <==> (span.status matches Some(sent) ==> sent.0 != 1
                && sent.0 != 2)
            &&& forall|message: Seq<char>|
                row.status_message == Some(message) <==> span.status == Some((2i32, message))
                    && message.len() > 0
        },
{
    let row = stored(span, received_at)->Some_0;
    assert forall|message: Seq<char>|
        row.status_message == Some(message) <==> span.status == Some((2i32, message))
            && message.len() > 0 by {}
}

/// A span is stored where its ids have the width of ids, and not otherwise,
/// and what is stored is what was sent: the same ids, the same name, the
/// instant it arrived, and as parent whatever was sent in the width of one.
pub proof fn a_span_is_stored_as_it_was_sent(span: OtlpSpanView, received_at: int)
    ensures
        stored(span, received_at) is Some <==> span.span_id.len() == 8 && span.trace_id.len()
            == 16,
        stored(span, received_at) matches Some(row) ==> {
            &&& row.common.organization_id == "1"@
            &&& row.common.project_id == "1"@
            &&& row.common.received_at == received_at
            &&& row.span_id == span.span_id
            &&& row.trace_id == span.trace_id
            &&& forall|parent: Seq<u8>|
                row.parent_span_id == Some(parent) <==> span.parent_span_id == parent
                    && parent.len() == 8
            &&& row.service is None
            &&& row.name == span.name
        },
{
    if let Some(row) = stored(span, received_at) {
        assert forall|parent: Seq<u8>|
            row.parent_span_id == Some(parent) <==> span.parent_span_id == parent && parent.len()
                == 8 by {}
    }
}

/// A span lasts from the instant sent as its start to the one sent as its end,
/// and one sent without an end has none. Counts of nanoseconds past what a
/// signed count holds wrap around.
pub proof fn a_span_lasts_as_long_as_was_sent(span: OtlpSpanView, received_at: int)
    ensures
        stored(span, received_at) matches Some(row) ==> {
            &&& row.started_at % 0x1_0000_0000_0000_0000 == span.start_time_unix_nano
            &&& i64::MIN <= row.started_at <= i64::MAX
            &&& row.ended_at is None <==> span.end_time_unix_nano == 0
            &&& row.ended_at matches Some(ended_at) ==> ended_at % 0x1_0000_0000_0000_0000
                == span.end_time_unix_nano && i64::MIN <= ended_at <= i64::MAX
        },
{
}

/// A span has a tag for each key it was sent with and for no other. Its value
/// is the last sent for that key: text, truth values, numbers and bytes as
/// text, and none for what has no text.
pub proof fn a_tag_holds_the_last_value_sent(span: OtlpSpanView, received_at: int, i: int)
    requires
        0 <= i < span.attributes.len(),
        forall|k: int| i < k < span.attributes.len() ==> (#[trigger] span.attributes[k]).0
            != span.attributes[i].0,
    ensures
        stored(span, received_at) matches Some(row) ==> {
            let key = span.attributes[i].0;
            let sent = span.attributes[i].1;
            let held = row.tags[key];
            &&& row.tags.contains_key(key)
            &&& sent is None ==> held is None
            &&& sent == Some(None::<ValueView>) ==> held is None
            &&& sent matches Some(Some(value)) ==> {
                &&& value matches ValueView::StringValue(text) ==> held == Some(text)
                &&& value matches ValueView::DoubleValue(text) ==> held == Some(text)
                &&& value == ValueView::BoolValue(true) ==> held == Some("true"@)
                &&& value == ValueView::BoolValue(false) ==> held == Some("false"@)
                &&& value matches ValueView::IntValue(n) ==> (held matches Some(text) && (if n
                    < 0 {
                    text[0] == '-' && number_of(text.drop_first()) == -n
                } else {
                    number_of(text) == n
                }))
                &&& value matches ValueView::BytesValue(bytes) ==> (held matches Some(text)
                    && text.len() == 2 * bytes.len() && forall|k: int|
                    0 <= k < bytes.len() ==> #[trigger] bytes[k] == 16 * hex_value(text[2 * k])
                        + hex_value(text[2 * k + 1]))
                &&& value is ArrayValue ==> held is None
                &&& value is KvlistValue ==> held is None
                &&& value is StringValueStrindex ==> held is None
            }
        },
{
    let tags = tags_of(span.attributes);
    assert(tags[i] == tag_of(span.attributes[i]));
    assert forall|k: int| i < k < tags.len() implies (#[trigger] tags[k]).0 != tags[i].0 by {
        assert(tags[k] == tag_of(span.attributes[k]));
    }
    lemma_last_value(tags, i);
    match span.attributes[i].1 {
        Some(Some(ValueView::IntValue(n))) => {
            decimal_reads_back(n);
        },
        Some(Some(ValueView::BytesValue(bytes))) => {
            hex_reads_back(bytes);
        },
        _ => {},
    }
}

/// A span has no tag under a key it was not sent with.
pub proof fn a_span_has_no_tag_that_was_not_sent(
    span: OtlpSpanView,
    received_at: int,
    key: Seq<char>,
)
    ensures
        stored(span, received_at) matches Some(row) ==> (row.tags.contains_key(key)
            <==> exists|i: int|
            0 <= i < span.attributes.len() && (#[trigger] span.attributes[i]).0 == key),
{
    let tags = tags_of(span.attributes);
    lemma_last_values_keys(tags, key);
    if last_values(tags).contains_key(key) {
        let i = choose|i: int| 0 <= i < tags.len() && (#[trigger] tags[i]).0 == key;
        assert(span.attributes[i].0 == key);
    }
    if exists|i: int| 0 <= i < span.attributes.len() && (#[trigger] span.attributes[i]).0 == key {
        let i = choose|i: int|
            0 <= i < span.attributes.len() && (#[trigger] span.attributes[i]).0 == key;
        assert(tags[i].0 == key);
    }
}

/// The spans of a request are those of its scopes, in the order they stand in:
/// one scope gives its own, and requests or resources put end to end give
/// theirs end to end.
pub proof fn a_request_holds_the_spans_of_its_scopes(
    scope: ScopeView,
    first: ResourceView,
    second: ResourceView,
    earlier: RequestView,
    later: RequestView,
)
    ensures
        spans_in(Seq::empty()) == Seq::<OtlpSpanView>::empty(),
        spans_in(seq![Seq::empty()]) == Seq::<OtlpSpanView>::empty(),
        spans_in(seq![seq![scope]]) == scope,
        spans_in(seq![first + second]) == spans_in(seq![first]) + spans_in(seq![second]),
        spans_in(earlier + later) == spans_in(earlier) + spans_in(later),
{
    lemma_flatten_of_one(Seq::<ScopeView>::empty());
    lemma_flatten_of_one(seq![scope]);
    lemma_flatten_of_one(scope);
    lemma_flatten_of_one(first);
    lemma_flatten_of_one(second);
    lemma_flatten_of_one(first + second);
    vstd::seq_lib::lemma_flatten_concat(first, second);
    vstd::seq_lib::lemma_flatten_concat(earlier, later);
    vstd::seq_lib::lemma_flatten_concat(earlier.flatten(), later.flatten());
    assert(Seq::<ResourceView>::empty().flatten() =~= Seq::<ScopeView>::empty());
    assert(Seq::<ScopeView>::empty().flatten() =~= Seq::<OtlpSpanView>::empty());
}

proof fn lemma_flatten_of_one<A>(part: Seq<A>)
    ensures
        seq![part].flatten() == part,
{
    let parts = seq![part];
    assert(parts.drop_first() =~= Seq::<Seq<A>>::empty());
    assert(parts.drop_first().flatten() =~= Seq::<A>::empty());
    assert(parts.flatten() =~= parts.first() + parts.drop_first().flatten());
    assert(parts.flatten() =~= part);
}

/// A request of one span is stored as that span is, and as nothing where the
/// span is dropped.
pub proof fn one_span_is_stored_as_one_row(span: OtlpSpanView, received_at: int)
    ensures
        span.span_id.len() == 8 && span.trace_id.len() == 16 ==> all_stored(
            seq![span],
            received_at,
        ).len() == 1 && Some(all_stored(seq![span], received_at)[0]) == stored(span, received_at),
        span.span_id.len() != 8 || span.trace_id.len() != 16 ==> all_stored(
            seq![span],
            received_at,
        ).len() == 0,
{
    assert(seq![span].drop_last() =~= Seq::<OtlpSpanView>::empty());
    assert(all_stored(seq![span].drop_last(), received_at).len() == 0);
}

} // verus!
