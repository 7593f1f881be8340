//! How sessions and events are laid out as SQLite rows, and how rows read back.

use vstd::prelude::*;
use crate::event::{
    Event, EventKind, EventSource, Json, SessionRecord, SessionStatus, kind_by_name, kind_name, kind_name_spec,
    kind_of_name, lemma_kind_name_roundtrip, lemma_source_name_roundtrip, lemma_status_name_roundtrip, opt_view,
    source_by_name, source_name, source_name_spec, source_of_name, status_by_name, status_name, status_name_spec,
    status_of_name,
};
use crate::event_index::{json_text, parse_json, parse_json_text, payload_text};
use crate::text::copy_opt_string;

verus! {

/// A stored session status; unknown names read as `Done`.
pub fn status_from_str(s: &str) -> (r: SessionStatus)
    ensures
        r == match status_of_name(s@) { Some(v) => v, None => SessionStatus::Done },
{
    match status_by_name(s) {
        Some(v) => v,
        None => SessionStatus::Done,
    }
}

/// A stored event kind; unknown names read as `Hook`.
pub fn kind_from_str(s: &str) -> (r: EventKind)
    ensures
        r == match kind_of_name(s@) { Some(v) => v, None => EventKind::Hook },
{
    match kind_by_name(s) {
        Some(v) => v,
        None => EventKind::Hook,
    }
}

/// A stored event source; unknown names read as `Proxy`.
pub fn source_from_str(s: &str) -> (r: EventSource)
    ensures
        r == match source_of_name(s@) { Some(v) => v, None => EventSource::Proxy },
{
    match source_by_name(s) {
        Some(v) => v,
        None => EventSource::Proxy,
    }
}

pub fn bool_to_i64(v: bool) -> (r: i64)
    ensures
        r == if v { 1i64 } else { 0i64 },
{
    if v { 1 } else { 0 }
}

pub fn i64_to_bool(v: i64) -> (r: bool)
    ensures
        r == (v != 0),
{
    v != 0
}

/// `None` for the empty string.
pub fn empty_to_none(s: String) -> (r: Option<String>)
    ensures
        r == if s@.len() == 0 { None } else { Some(s) },
{
    if s.as_str().unicode_len() == 0 { None } else { Some(s) }
}

pub open spec fn opt_bool(v: Option<i64>) -> Option<bool> {
    match v {
        Some(x) => Some(x != 0),
        None => None,
    }
}

pub open spec fn opt_from_bool(v: Option<bool>) -> Option<i64> {
    match v {
        Some(b) => Some(if b { 1i64 } else { 0i64 }),
        None => None,
    }
}

fn map_bool(v: Option<i64>) -> (r: Option<bool>)
    ensures
        r == opt_bool(v),
{
    match v {
        Some(x) => Some(i64_to_bool(x)),
        None => None,
    }
}

fn map_from_bool(v: Option<bool>) -> (r: Option<i64>)
    ensures
        r == opt_from_bool(v),
{
    match v {
        Some(b) => Some(bool_to_i64(b)),
        None => None,
    }
}

/// A `sessions` row as SQLite hands it back.
#[derive(Debug, Clone)]
pub struct SessionRow {
    pub id: String,
    pub agent: String,
    pub model: Option<String>,
    pub workspace: String,
    pub started_at_ms: i64,
    pub ended_at_ms: Option<i64>,
    pub status: String,
    pub trace_path: String,
    pub start_commit: Option<String>,
    pub end_commit: Option<String>,
    pub branch: Option<String>,
    pub dirty_start: Option<i64>,
    pub dirty_end: Option<i64>,
    pub repo_binding_source: String,
    pub prompt_fingerprint: Option<String>,
    pub parent_session_id: Option<String>,
    pub agent_version: Option<String>,
    pub os: Option<String>,
    pub arch: Option<String>,
    pub repo_file_count: Option<i64>,
    pub repo_total_loc: Option<i64>,
}

/// An `events` row as SQLite hands it back (columns in table order).
#[derive(Debug, Clone)]
pub struct EventRow {
    pub session_id: String,
    pub seq: i64,
    pub ts_ms: i64,
    pub ts_exact: i64,
    pub kind: String,
    pub source: String,
    pub tool: Option<String>,
    pub tool_call_id: Option<String>,
    pub tokens_in: Option<i64>,
    pub tokens_out: Option<i64>,
    pub reasoning_tokens: Option<i64>,
    pub cost_usd_e6: Option<i64>,
    pub payload: String,
    pub stop_reason: Option<String>,
    pub latency_ms: Option<i64>,
    pub ttft_ms: Option<i64>,
    pub retry_count: Option<i64>,
    pub context_used_tokens: Option<i64>,
    pub context_max_tokens: Option<i64>,
    pub cache_creation_tokens: Option<i64>,
    pub cache_read_tokens: Option<i64>,
    pub system_prompt_tokens: Option<i64>,
}

pub open spec fn u32_of(v: Option<i64>) -> Option<u32> {
    match v {
        Some(x) => Some(x as u32),
        None => None,
    }
}

pub open spec fn u16_of(v: Option<i64>) -> Option<u16> {
    match v {
        Some(x) => Some(x as u16),
        None => None,
    }
}

pub open spec fn u64_of(v: Option<i64>) -> Option<u64> {
    match v {
        Some(x) => Some(x as u64),
        None => None,
    }
}

pub open spec fn wide_u32(v: Option<u32>) -> Option<i64> {
    match v {
        Some(x) => Some(x as i64),
        None => None,
    }
}

pub open spec fn wide_u16(v: Option<u16>) -> Option<i64> {
    match v {
        Some(x) => Some(x as i64),
        None => None,
    }
}

pub open spec fn signed_u64(v: Option<u64>) -> Option<i64> {
    match v {
        Some(x) => Some(x as i64),
        None => None,
    }
}

fn to_u32(v: Option<i64>) -> (r: Option<u32>)
    ensures
        r == u32_of(v),
{
    match v {
        Some(x) => Some(x as u32),
        None => None,
    }
}

fn to_u16(v: Option<i64>) -> (r: Option<u16>)
    ensures
        r == u16_of(v),
{
    match v {
        Some(x) => Some(x as u16),
        None => None,
    }
}

fn to_u64(v: Option<i64>) -> (r: Option<u64>)
    ensures
        r == u64_of(v),
{
    match v {
        Some(x) => Some(x as u64),
        None => None,
    }
}

fn from_u32(v: Option<u32>) -> (r: Option<i64>)
    ensures
        r == wide_u32(v),
{
    match v {
        Some(x) => Some(x as i64),
        None => None,
    }
}

fn from_u16(v: Option<u16>) -> (r: Option<i64>)
    ensures
        r == wide_u16(v),
{
    match v {
        Some(x) => Some(x as i64),
        None => None,
    }
}

fn from_u64(v: Option<u64>) -> (r: Option<i64>)
    ensures
        r == signed_u64(v),
{
    match v {
        Some(x) => Some(x as i64),
        None => None,
    }
}

/// The session a row stores. Integers are reinterpreted as unsigned, flags are non-zero,
/// an empty binding source reads as none.
pub open spec fn session_of_row(row: SessionRow) -> SessionRecord {
    SessionRecord {
        id: row.id,
        agent: row.agent,
        model: row.model,
        workspace: row.workspace,
        started_at_ms: row.started_at_ms as u64,
        ended_at_ms: u64_of(row.ended_at_ms),
        status: match status_of_name(row.status@) { Some(v) => v, None => SessionStatus::Done },
        trace_path: row.trace_path,
        start_commit: row.start_commit,
        end_commit: row.end_commit,
        branch: row.branch,
        dirty_start: opt_bool(row.dirty_start),
        dirty_end: opt_bool(row.dirty_end),
        repo_binding_source: if row.repo_binding_source@.len() == 0 { None } else { Some(row.repo_binding_source) },
        prompt_fingerprint: row.prompt_fingerprint,
        parent_session_id: row.parent_session_id,
        agent_version: row.agent_version,
        os: row.os,
        arch: row.arch,
        repo_file_count: u32_of(row.repo_file_count),
        repo_total_loc: u64_of(row.repo_total_loc),
    }
}

/// Reads a session back from its row.
pub fn session_from_row(row: SessionRow) -> (r: SessionRecord)
    ensures
        r == session_of_row(row),
{
    let status = status_from_str(row.status.as_str());
    SessionRecord {
        id: row.id,
        agent: row.agent,
        model: row.model,
        workspace: row.workspace,
        started_at_ms: row.started_at_ms as u64,
        ended_at_ms: to_u64(row.ended_at_ms),
        status,
        trace_path: row.trace_path,
        start_commit: row.start_commit,
        end_commit: row.end_commit,
        branch: row.branch,
        dirty_start: map_bool(row.dirty_start),
        dirty_end: map_bool(row.dirty_end),
        repo_binding_source: empty_to_none(row.repo_binding_source),
        prompt_fingerprint: row.prompt_fingerprint,
        parent_session_id: row.parent_session_id,
        agent_version: row.agent_version,
        os: row.os,
        arch: row.arch,
        repo_file_count: to_u32(row.repo_file_count),
        repo_total_loc: to_u64(row.repo_total_loc),
    }
}

/// The row a session is stored as, with its status name and binding source text.
pub open spec fn row_of_session(s: SessionRecord, status: String, binding: String) -> SessionRow {
    SessionRow {
        id: s.id,
        agent: s.agent,
        model: s.model,
        workspace: s.workspace,
        started_at_ms: s.started_at_ms as i64,
        ended_at_ms: signed_u64(s.ended_at_ms),
        status,
        trace_path: s.trace_path,
        start_commit: s.start_commit,
        end_commit: s.end_commit,
        branch: s.branch,
        dirty_start: opt_from_bool(s.dirty_start),
        dirty_end: opt_from_bool(s.dirty_end),
        repo_binding_source: binding,
        prompt_fingerprint: s.prompt_fingerprint,
        parent_session_id: s.parent_session_id,
        agent_version: s.agent_version,
        os: s.os,
        arch: s.arch,
        repo_file_count: wide_u32(s.repo_file_count),
        repo_total_loc: signed_u64(s.repo_total_loc),
    }
}

/// The row a session is stored as: its status by name, its binding source or the empty
/// string, unsigned integers reinterpreted as signed.
pub fn session_to_row(s: &SessionRecord) -> (r: SessionRow)
    ensures
        r == row_of_session(*s, r.status, r.repo_binding_source),
        r.status@ == status_name_spec(s.status),
        match s.repo_binding_source {
            Some(v) => r.repo_binding_source == v,
            None => r.repo_binding_source@ == Seq::<char>::empty(),
        },
{
    SessionRow {
        id: s.id.clone(),
        agent: s.agent.clone(),
        model: copy_opt_string(&s.model),
        workspace: s.workspace.clone(),
        started_at_ms: s.started_at_ms as i64,
        ended_at_ms: from_u64(s.ended_at_ms),
        status: status_name(s.status).to_string(),
        trace_path: s.trace_path.clone(),
        start_commit: copy_opt_string(&s.start_commit),
        end_commit: copy_opt_string(&s.end_commit),
        branch: copy_opt_string(&s.branch),
        dirty_start: map_from_bool(s.dirty_start),
        dirty_end: map_from_bool(s.dirty_end),
        repo_binding_source: match &s.repo_binding_source {
            Some(v) => v.clone(),
            None => String::new(),
        },
        prompt_fingerprint: copy_opt_string(&s.prompt_fingerprint),
        parent_session_id: copy_opt_string(&s.parent_session_id),
        agent_version: copy_opt_string(&s.agent_version),
        os: copy_opt_string(&s.os),
        arch: copy_opt_string(&s.arch),
        repo_file_count: from_u32(s.repo_file_count),
        repo_total_loc: from_u64(s.repo_total_loc),
    }
}

/// The event a row stores. Integers are narrowed to the field's width, the exactness flag
/// is non-zero, unknown kinds read as `Hook` and unknown sources as `Proxy`, and a payload
/// that is not JSON reads as `null`.
pub open spec fn event_of_row(row: EventRow) -> Event {
    Event {
        session_id: row.session_id,
        seq: row.seq as u64,
        ts_ms: row.ts_ms as u64,
        ts_exact: row.ts_exact != 0,
        kind: match kind_of_name(row.kind@) { Some(v) => v, None => EventKind::Hook },
        source: match source_of_name(row.source@) { Some(v) => v, None => EventSource::Proxy },
        tool: row.tool,
        tool_call_id: row.tool_call_id,
        tokens_in: u32_of(row.tokens_in),
        tokens_out: u32_of(row.tokens_out),
        reasoning_tokens: u32_of(row.reasoning_tokens),
        cost_usd_e6: row.cost_usd_e6,
        stop_reason: row.stop_reason,
        latency_ms: u32_of(row.latency_ms),
        ttft_ms: u32_of(row.ttft_ms),
        retry_count: u16_of(row.retry_count),
        context_used_tokens: u32_of(row.context_used_tokens),
        context_max_tokens: u32_of(row.context_max_tokens),
        cache_creation_tokens: u32_of(row.cache_creation_tokens),
        cache_read_tokens: u32_of(row.cache_read_tokens),
        system_prompt_tokens: u32_of(row.system_prompt_tokens),
        payload: match parse_json(row.payload@) { Some(j) => j, None => Json::Null },
    }
}

/// Reads an event back from its row.
pub fn event_from_row(row: EventRow) -> (r: Event)
    ensures
        r == event_of_row(row),
{
    let payload = match parse_json_text(row.payload.as_str()) {
        Some(j) => j,
        None => Json::Null,
    };
    let kind = kind_from_str(row.kind.as_str());
    let source = source_from_str(row.source.as_str());
    Event {
        session_id: row.session_id,
        seq: row.seq as u64,
        ts_ms: row.ts_ms as u64,
        ts_exact: row.ts_exact != 0,
        kind,
        source,
        tool: row.tool,
        tool_call_id: row.tool_call_id,
        tokens_in: to_u32(row.tokens_in),
        tokens_out: to_u32(row.tokens_out),
        reasoning_tokens: to_u32(row.reasoning_tokens),
        cost_usd_e6: row.cost_usd_e6,
        stop_reason: row.stop_reason,
        latency_ms: to_u32(row.latency_ms),
        ttft_ms: to_u32(row.ttft_ms),
        retry_count: to_u16(row.retry_count),
        context_used_tokens: to_u32(row.context_used_tokens),
        context_max_tokens: to_u32(row.context_max_tokens),
        cache_creation_tokens: to_u32(row.cache_creation_tokens),
        cache_read_tokens: to_u32(row.cache_read_tokens),
        system_prompt_tokens: to_u32(row.system_prompt_tokens),
        payload,
    }
}

/// The row an event is written as: kind and source by name, the payload as compact JSON
/// text, unsigned integers widened (or reinterpreted, for the 64-bit ones) as signed.
pub fn event_to_row(e: &Event) -> (r: EventRow)
    ensures
        r.session_id == e.session_id,
        r.seq == e.seq as i64,
        r.ts_ms == e.ts_ms as i64,
        r.ts_exact == if e.ts_exact { 1i64 } else { 0i64 },
        r.kind@ == kind_name_spec(e.kind),
        r.source@ == source_name_spec(e.source),
        r.tool == e.tool,
        r.tool_call_id == e.tool_call_id,
        r.tokens_in == wide_u32(e.tokens_in),
        r.tokens_out == wide_u32(e.tokens_out),
        r.reasoning_tokens == wide_u32(e.reasoning_tokens),
        r.cost_usd_e6 == e.cost_usd_e6,
        r.payload@ == json_text(e.payload),
        r.stop_reason == e.stop_reason,
        r.latency_ms == wide_u32(e.latency_ms),
        r.ttft_ms == wide_u32(e.ttft_ms),
        r.retry_count == wide_u16(e.retry_count),
        r.context_used_tokens == wide_u32(e.context_used_tokens),
        r.context_max_tokens == wide_u32(e.context_max_tokens),
        r.cache_creation_tokens == wide_u32(e.cache_creation_tokens),
        r.cache_read_tokens == wide_u32(e.cache_read_tokens),
        r.system_prompt_tokens == wide_u32(e.system_prompt_tokens),
{
    EventRow {
        session_id: e.session_id.clone(),
        seq: e.seq as i64,
        ts_ms: e.ts_ms as i64,
        ts_exact: bool_to_i64(e.ts_exact),
        kind: kind_name(e.kind).to_string(),
        source: source_name(e.source).to_string(),
        tool: copy_opt_string(&e.tool),
        tool_call_id: copy_opt_string(&e.tool_call_id),
        tokens_in: from_u32(e.tokens_in),
        tokens_out: from_u32(e.tokens_out),
        reasoning_tokens: from_u32(e.reasoning_tokens),
        cost_usd_e6: e.cost_usd_e6,
        payload: payload_text(&e.payload),
        stop_reason: copy_opt_string(&e.stop_reason),
        latency_ms: from_u32(e.latency_ms),
        ttft_ms: from_u32(e.ttft_ms),
        retry_count: from_u16(e.retry_count),
        context_used_tokens: from_u32(e.context_used_tokens),
        context_max_tokens: from_u32(e.context_max_tokens),
        cache_creation_tokens: from_u32(e.cache_creation_tokens),
        cache_read_tokens: from_u32(e.cache_read_tokens),
        system_prompt_tokens: from_u32(e.system_prompt_tokens),
    }
}

proof fn lemma_u64_i64_roundtrip(x: u64)
    ensures
        (x as i64) as u64 == x,
{
    assert((x as i64) as u64 == x) by (bit_vector);
}

/// Writing an event as a row and reading the row back gives the event again, up to its
/// payload, which comes back as whatever `serde_json` parses its printed text into.
pub proof fn lemma_event_row_roundtrip(e: Event, row: EventRow)
    requires
        row.session_id == e.session_id,
        row.seq == e.seq as i64,
        row.ts_ms == e.ts_ms as i64,
        row.ts_exact == if e.ts_exact { 1i64 } else { 0i64 },
        row.kind@ == kind_name_spec(e.kind),
        row.source@ == source_name_spec(e.source),
        row.tool == e.tool,
        row.tool_call_id == e.tool_call_id,
        row.tokens_in == wide_u32(e.tokens_in),
        row.tokens_out == wide_u32(e.tokens_out),
        row.reasoning_tokens == wide_u32(e.reasoning_tokens),
        row.cost_usd_e6 == e.cost_usd_e6,
        row.payload@ == json_text(e.payload),
        row.stop_reason == e.stop_reason,
        row.latency_ms == wide_u32(e.latency_ms),
        row.ttft_ms == wide_u32(e.ttft_ms),
        row.retry_count == wide_u16(e.retry_count),
        row.context_used_tokens == wide_u32(e.context_used_tokens),
        row.context_max_tokens == wide_u32(e.context_max_tokens),
        row.cache_creation_tokens == wide_u32(e.cache_creation_tokens),
        row.cache_read_tokens == wide_u32(e.cache_read_tokens),
        row.system_prompt_tokens == wide_u32(e.system_prompt_tokens),
    ensures
        event_of_row(row) == (Event {
            payload: match parse_json(json_text(e.payload)) { Some(j) => j, None => Json::Null },
            ..e
        }),
{
    lemma_u64_i64_roundtrip(e.seq);
    lemma_u64_i64_roundtrip(e.ts_ms);
    lemma_kind_name_roundtrip(e.kind);
    lemma_source_name_roundtrip(e.source);
}

/// Writing a session as a row and reading the row back gives the session again, unless
/// its binding source is the empty string (which reads back as none).
pub proof fn lemma_session_row_roundtrip(s: SessionRecord, status: String, binding: String)
    requires
        status@ == status_name_spec(s.status),
        match s.repo_binding_source {
            Some(v) => binding == v && v@.len() > 0,
            None => binding@ == Seq::<char>::empty(),
        },
    ensures
        session_of_row(row_of_session(s, status, binding)) == s,
{
    lemma_u64_i64_roundtrip(s.started_at_ms);
    match s.ended_at_ms {
        Some(v) => lemma_u64_i64_roundtrip(v),
        None => {},
    }
    match s.repo_total_loc {
        Some(v) => lemma_u64_i64_roundtrip(v),
        None => {},
    }
    lemma_status_name_roundtrip(s.status);
}

} // verus!
