//! The flat, textual form of an event that the cold Parquet files and the hot log store:
//! kind and source by name, the payload as JSON text.

use vstd::prelude::*;
use crate::event::{
    Event, EventKind, EventSource, Json, kind_by_name, kind_name, kind_name_spec, kind_of_name,
    lemma_kind_name_roundtrip, lemma_source_name_roundtrip, source_by_name, source_name, source_name_spec,
    source_of_name,
};
use crate::event_index::{json_text, parse_json, parse_json_text, payload_text};
use crate::text::copy_opt_string;

verus! {

/// An event with its kind, source and payload as text.
#[derive(Debug, Clone)]
pub struct FlatEvent {
    pub session_id: String,
    pub seq: u64,
    pub ts_ms: u64,
    pub ts_exact: bool,
    pub kind: String,
    pub source: String,
    pub tool: Option<String>,
    pub tool_call_id: Option<String>,
    pub tokens_in: Option<u32>,
    pub tokens_out: Option<u32>,
    pub reasoning_tokens: Option<u32>,
    pub cost_usd_e6: Option<i64>,
    pub stop_reason: Option<String>,
    pub latency_ms: Option<u32>,
    pub ttft_ms: Option<u32>,
    pub retry_count: Option<u16>,
    pub context_used_tokens: Option<u32>,
    pub context_max_tokens: Option<u32>,
    pub cache_creation_tokens: Option<u32>,
    pub cache_read_tokens: Option<u32>,
    pub system_prompt_tokens: Option<u32>,
    pub payload_json: String,
}

/// `f` holds `e`: the same fields, kind and source by name, payload as compact JSON text.
pub open spec fn flat_of(f: FlatEvent, e: Event) -> bool {
    &&& f.session_id == e.session_id
    &&& f.seq == e.seq
    &&& f.ts_ms == e.ts_ms
    &&& f.ts_exact == e.ts_exact
    &&& f.kind@ == kind_name_spec(e.kind)
    &&& f.source@ == source_name_spec(e.source)
    &&& f.tool == e.tool
    &&& f.tool_call_id == e.tool_call_id
    &&& f.cost_usd_e6 == e.cost_usd_e6
    &&& f.stop_reason == e.stop_reason
    &&& f.retry_count == e.retry_count
    &&& f.payload_json@ == json_text(e.payload)
    &&& f.tokens_in == e.tokens_in
    &&& f.tokens_out == e.tokens_out
    &&& f.reasoning_tokens == e.reasoning_tokens
    &&& f.latency_ms == e.latency_ms
    &&& f.ttft_ms == e.ttft_ms
    &&& f.context_used_tokens == e.context_used_tokens
    &&& f.context_max_tokens == e.context_max_tokens
    &&& f.cache_creation_tokens == e.cache_creation_tokens
    &&& f.cache_read_tokens == e.cache_read_tokens
    &&& f.system_prompt_tokens == e.system_prompt_tokens
}

/// The event a flat record stands for, given how unknown kinds and sources read and what
/// the payload is.
pub open spec fn event_of_flat(f: FlatEvent, kind: EventKind, source: EventSource, payload: Json) -> Event {
    Event {
        session_id: f.session_id,
        seq: f.seq,
        ts_ms: f.ts_ms,
        ts_exact: f.ts_exact,
        kind,
        source,
        tool: f.tool,
        tool_call_id: f.tool_call_id,
        tokens_in: f.tokens_in,
        tokens_out: f.tokens_out,
        reasoning_tokens: f.reasoning_tokens,
        cost_usd_e6: f.cost_usd_e6,
        stop_reason: f.stop_reason,
        latency_ms: f.latency_ms,
        ttft_ms: f.ttft_ms,
        retry_count: f.retry_count,
        context_used_tokens: f.context_used_tokens,
        context_max_tokens: f.context_max_tokens,
        cache_creation_tokens: f.cache_creation_tokens,
        cache_read_tokens: f.cache_read_tokens,
        system_prompt_tokens: f.system_prompt_tokens,
        payload,
    }
}

/// The flat form of an event.
pub fn flatten_event(e: &Event) -> (r: FlatEvent)
    ensures
        flat_of(r, *e),
{
    FlatEvent {
        session_id: e.session_id.clone(),
        seq: e.seq,
        ts_ms: e.ts_ms,
        ts_exact: e.ts_exact,
        kind: kind_name(e.kind).to_string(),
        source: source_name(e.source).to_string(),
        tool: copy_opt_string(&e.tool),
        tool_call_id: copy_opt_string(&e.tool_call_id),
        tokens_in: e.tokens_in,
        tokens_out: e.tokens_out,
        reasoning_tokens: e.reasoning_tokens,
        cost_usd_e6: e.cost_usd_e6,
        stop_reason: copy_opt_string(&e.stop_reason),
        latency_ms: e.latency_ms,
        ttft_ms: e.ttft_ms,
        retry_count: e.retry_count,
        context_used_tokens: e.context_used_tokens,
        context_max_tokens: e.context_max_tokens,
        cache_creation_tokens: e.cache_creation_tokens,
        cache_read_tokens: e.cache_read_tokens,
        system_prompt_tokens: e.system_prompt_tokens,
        payload_json: payload_text(&e.payload),
    }
}

/// Builds the event of a flat record from its decoded kind, source and payload.
pub fn unflatten(f: FlatEvent, kind: EventKind, source: EventSource, payload: Json) -> (r: Event)
    ensures
        r == event_of_flat(f, kind, source, payload),
{
    Event {
        session_id: f.session_id,
        seq: f.seq,
        ts_ms: f.ts_ms,
        ts_exact: f.ts_exact,
        kind,
        source,
        tool: f.tool,
        tool_call_id: f.tool_call_id,
        tokens_in: f.tokens_in,
        tokens_out: f.tokens_out,
        reasoning_tokens: f.reasoning_tokens,
        cost_usd_e6: f.cost_usd_e6,
        stop_reason: f.stop_reason,
        latency_ms: f.latency_ms,
        ttft_ms: f.ttft_ms,
        retry_count: f.retry_count,
        context_used_tokens: f.context_used_tokens,
        context_max_tokens: f.context_max_tokens,
        cache_creation_tokens: f.cache_creation_tokens,
        cache_read_tokens: f.cache_read_tokens,
        system_prompt_tokens: f.system_prompt_tokens,
        payload,
    }
}

/// A stored event kind, reading unknown names as `Message`.
pub fn kind_or_message(s: &str) -> (r: EventKind)
    ensures
        r == match kind_of_name(s@) { Some(v) => v, None => EventKind::Message },
{
    match kind_by_name(s) {
        Some(v) => v,
        None => EventKind::Message,
    }
}

/// A stored event source, reading unknown names as `Tail`.
pub fn source_or_tail(s: &str) -> (r: EventSource)
    ensures
        r == match source_of_name(s@) { Some(v) => v, None => EventSource::Tail },
{
    match source_by_name(s) {
        Some(v) => v,
        None => EventSource::Tail,
    }
}

/// A flat record read back as the cold tier reads it: unknown kinds as `Message`, unknown
/// sources as `Tail`, a payload that is not JSON as `null`.
pub open spec fn cold_event_of(f: FlatEvent) -> Event {
    event_of_flat(
        f,
        match kind_of_name(f.kind@) { Some(v) => v, None => EventKind::Message },
        match source_of_name(f.source@) { Some(v) => v, None => EventSource::Tail },
        match parse_json(f.payload_json@) { Some(j) => j, None => Json::Null },
    )
}

/// Reads a cold-tier record back.
pub fn cold_event(f: FlatEvent) -> (r: Event)
    ensures
        r == cold_event_of(f),
{
    let kind = kind_or_message(f.kind.as_str());
    let source = source_or_tail(f.source.as_str());
    let payload = match parse_json_text(f.payload_json.as_str()) {
        Some(j) => j,
        None => Json::Null,
    };
    unflatten(f, kind, source, payload)
}

/// A flat record read back as the hot log reads it: unknown kinds as `Message`, unknown
/// sources as `Tail`; refused when the payload is not JSON.
pub open spec fn hot_event_of(f: FlatEvent) -> Option<Event> {
    match parse_json(f.payload_json@) {
        Some(j) => Some(event_of_flat(
            f,
            match kind_of_name(f.kind@) { Some(v) => v, None => EventKind::Message },
            match source_of_name(f.source@) { Some(v) => v, None => EventSource::Tail },
            j,
        )),
        None => None,
    }
}

/// Reads a hot-log record back.
pub fn hot_event(f: FlatEvent) -> (r: Option<Event>)
    ensures
        r == hot_event_of(f),
{
    let kind = kind_or_message(f.kind.as_str());
    let source = source_or_tail(f.source.as_str());
    match parse_json_text(f.payload_json.as_str()) {
        Some(j) => Some(unflatten(f, kind, source, j)),
        None => None,
    }
}

/// Flattening an event and reading it back from the cold tier gives the event again, up to
/// its payload, which comes back as whatever `serde_json` parses its printed text into.
pub proof fn lemma_cold_roundtrip(f: FlatEvent, e: Event)
    requires
        flat_of(f, e),
    ensures
        cold_event_of(f) == (Event { payload: match parse_json(json_text(e.payload)) { Some(j) => j, None => Json::Null }, ..e }),
{
    lemma_kind_name_roundtrip(e.kind);
    lemma_source_name_roundtrip(e.source);
}

/// The same for the hot log: the event comes back when its printed payload parses.
pub proof fn lemma_hot_roundtrip(f: FlatEvent, e: Event)
    requires
        flat_of(f, e),
    ensures
        hot_event_of(f) == match parse_json(json_text(e.payload)) {
            Some(j) => Some(Event { payload: j, ..e }),
            None => None,
        },
{
    lemma_kind_name_roundtrip(e.kind);
    lemma_source_name_roundtrip(e.source);
}

} // verus!
