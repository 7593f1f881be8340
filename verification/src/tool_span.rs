//! Tool spans: the builder a projector keeps while a tool call is open, the record it
//! emits when the span closes, and the helpers that match events to open spans.

use vstd::prelude::*;
use crate::event::{Event, Json, get_str, json_get, json_str, opt_view};
use crate::text::{copy_opt_string, copy_strings, dec_spec, push_decimal, str_eq, strictly_sorted, views};

verus! {

/// An open tool span under construction.
#[derive(Debug)]
pub struct SpanBuilder {
    pub span_id: String,
    pub session_id: String,
    pub tool: Option<String>,
    pub tool_call_id: Option<String>,
    pub parent_span_id: Option<String>,
    pub depth: u32,
    pub call_start_ms: Option<u64>,
    pub call_start_exact: bool,
    pub result_end_ms: Option<u64>,
    pub result_end_exact: bool,
    pub hook_start_ms: Option<u64>,
    pub hook_end_ms: Option<u64>,
    pub tokens_in: Option<u32>,
    pub tokens_out: Option<u32>,
    pub reasoning_tokens: Option<u32>,
    pub cost_usd_e6: Option<i64>,
    /// Paths touched by the span, ascending and distinct.
    pub paths: Vec<String>,
    pub has_call: bool,
    pub has_end: bool,
    pub subtree_cost_usd_e6: Option<i64>,
    pub subtree_token_count: Option<u32>,
}

/// The mathematical content of a [`SpanBuilder`].
pub struct SpanModel {
    pub span_id: Seq<char>,
    pub session_id: Seq<char>,
    pub tool: Option<Seq<char>>,
    pub tool_call_id: Option<Seq<char>>,
    pub parent_span_id: Option<Seq<char>>,
    pub depth: u32,
    pub call_start_ms: Option<u64>,
    pub call_start_exact: bool,
    pub result_end_ms: Option<u64>,
    pub result_end_exact: bool,
    pub hook_start_ms: Option<u64>,
    pub hook_end_ms: Option<u64>,
    pub tokens_in: Option<u32>,
    pub tokens_out: Option<u32>,
    pub reasoning_tokens: Option<u32>,
    pub cost_usd_e6: Option<i64>,
    pub paths: Set<Seq<char>>,
    pub has_call: bool,
    pub has_end: bool,
    pub subtree_cost_usd_e6: Option<i64>,
    pub subtree_token_count: Option<u32>,
}

impl View for SpanBuilder {
    type V = SpanModel;

    open spec fn view(&self) -> SpanModel {
        SpanModel {
            span_id: self.span_id@,
            session_id: self.session_id@,
            tool: opt_view(self.tool),
            tool_call_id: opt_view(self.tool_call_id),
            parent_span_id: opt_view(self.parent_span_id),
            depth: self.depth,
            call_start_ms: self.call_start_ms,
            call_start_exact: self.call_start_exact,
            result_end_ms: self.result_end_ms,
            result_end_exact: self.result_end_exact,
            hook_start_ms: self.hook_start_ms,
            hook_end_ms: self.hook_end_ms,
            tokens_in: self.tokens_in,
            tokens_out: self.tokens_out,
            reasoning_tokens: self.reasoning_tokens,
            cost_usd_e6: self.cost_usd_e6,
            paths: views(self.paths@).to_set(),
            has_call: self.has_call,
            has_end: self.has_end,
            subtree_cost_usd_e6: self.subtree_cost_usd_e6,
            subtree_token_count: self.subtree_token_count,
        }
    }
}

impl SpanBuilder {
    /// The builder keeps its paths ascending and distinct.
    pub open spec fn wf(&self) -> bool {
        strictly_sorted(views(self.paths@))
    }

    /// An empty builder with the given identity.
    pub fn empty(span_id: String, session_id: String) -> (r: SpanBuilder)
        ensures
            r@ == empty_model(span_id@, session_id@),
            r.wf(),
    {
        let paths: Vec<String> = Vec::new();
        assert(views(paths@) =~= Seq::empty());
        assert(views(paths@).to_set() =~= Set::empty());
        SpanBuilder {
            span_id,
            session_id,
            tool: None,
            tool_call_id: None,
            parent_span_id: None,
            depth: 0,
            call_start_ms: None,
            call_start_exact: false,
            result_end_ms: None,
            result_end_exact: false,
            hook_start_ms: None,
            hook_end_ms: None,
            tokens_in: None,
            tokens_out: None,
            reasoning_tokens: None,
            cost_usd_e6: None,
            paths,
            has_call: false,
            has_end: false,
            subtree_cost_usd_e6: None,
            subtree_token_count: None,
        }
    }
}

impl Default for SpanBuilder {
    fn default() -> (r: SpanBuilder)
        ensures
            r@ == empty_model(Seq::empty(), Seq::empty()),
            r.wf(),
    {
        SpanBuilder::empty(String::new(), String::new())
    }
}

/// A builder model with identity fields set and everything else unset.
pub open spec fn empty_model(span_id: Seq<char>, session_id: Seq<char>) -> SpanModel {
    SpanModel {
        span_id,
        session_id,
        tool: None,
        tool_call_id: None,
        parent_span_id: None,
        depth: 0,
        call_start_ms: None,
        call_start_exact: false,
        result_end_ms: None,
        result_end_exact: false,
        hook_start_ms: None,
        hook_end_ms: None,
        tokens_in: None,
        tokens_out: None,
        reasoning_tokens: None,
        cost_usd_e6: None,
        paths: Set::empty(),
        has_call: false,
        has_end: false,
        subtree_cost_usd_e6: None,
        subtree_token_count: None,
    }
}

/// A closed tool span as it is persisted.
#[derive(Debug)]
pub struct ToolSpanRecord {
    pub span_id: String,
    pub session_id: String,
    pub tool: Option<String>,
    pub tool_call_id: Option<String>,
    pub status: String,
    pub started_at_ms: Option<u64>,
    pub ended_at_ms: Option<u64>,
    pub lead_time_ms: Option<u64>,
    pub tokens_in: Option<u32>,
    pub tokens_out: Option<u32>,
    pub reasoning_tokens: Option<u32>,
    pub cost_usd_e6: Option<i64>,
    pub paths: Vec<String>,
    pub parent_span_id: Option<String>,
    pub depth: u32,
    pub subtree_cost_usd_e6: Option<i64>,
    pub subtree_token_count: Option<u32>,
}

/// The mathematical content of a [`ToolSpanRecord`].
pub struct RecordModel {
    pub span_id: Seq<char>,
    pub session_id: Seq<char>,
    pub tool: Option<Seq<char>>,
    pub tool_call_id: Option<Seq<char>>,
    pub status: Seq<char>,
    pub started_at_ms: Option<u64>,
    pub ended_at_ms: Option<u64>,
    pub lead_time_ms: Option<u64>,
    pub tokens_in: Option<u32>,
    pub tokens_out: Option<u32>,
    pub reasoning_tokens: Option<u32>,
    pub cost_usd_e6: Option<i64>,
    pub paths: Set<Seq<char>>,
    pub parent_span_id: Option<Seq<char>>,
    pub depth: u32,
    pub subtree_cost_usd_e6: Option<i64>,
    pub subtree_token_count: Option<u32>,
}

impl ToolSpanRecord {
    /// The record's paths are ascending and distinct.
    pub open spec fn wf(&self) -> bool {
        strictly_sorted(views(self.paths@))
    }
}

impl View for ToolSpanRecord {
    type V = RecordModel;

    open spec fn view(&self) -> RecordModel {
        RecordModel {
            span_id: self.span_id@,
            session_id: self.session_id@,
            tool: opt_view(self.tool),
            tool_call_id: opt_view(self.tool_call_id),
            status: self.status@,
            started_at_ms: self.started_at_ms,
            ended_at_ms: self.ended_at_ms,
            lead_time_ms: self.lead_time_ms,
            tokens_in: self.tokens_in,
            tokens_out: self.tokens_out,
            reasoning_tokens: self.reasoning_tokens,
            cost_usd_e6: self.cost_usd_e6,
            paths: views(self.paths@).to_set(),
            parent_span_id: opt_view(self.parent_span_id),
            depth: self.depth,
            subtree_cost_usd_e6: self.subtree_cost_usd_e6,
            subtree_token_count: self.subtree_token_count,
        }
    }
}

/// Per-span metrics sample emitted next to a closed record.
#[derive(Debug)]
pub struct ToolSpanSample {
    pub session_id: String,
    pub span_id: String,
    pub tool: Option<String>,
    pub lead_time_ms: Option<u64>,
    pub tokens_in: Option<u32>,
    pub tokens_out: Option<u32>,
    pub reasoning_tokens: Option<u32>,
    pub cost_usd_e6: Option<i64>,
    pub paths: Vec<String>,
}

/// The mathematical content of a [`ToolSpanSample`].
pub struct SampleModel {
    pub session_id: Seq<char>,
    pub span_id: Seq<char>,
    pub tool: Option<Seq<char>>,
    pub lead_time_ms: Option<u64>,
    pub tokens_in: Option<u32>,
    pub tokens_out: Option<u32>,
    pub reasoning_tokens: Option<u32>,
    pub cost_usd_e6: Option<i64>,
    pub paths: Set<Seq<char>>,
}

impl ToolSpanSample {
    /// The sample's paths are ascending and distinct.
    pub open spec fn wf(&self) -> bool {
        strictly_sorted(views(self.paths@))
    }
}

impl View for ToolSpanSample {
    type V = SampleModel;

    open spec fn view(&self) -> SampleModel {
        SampleModel {
            session_id: self.session_id@,
            span_id: self.span_id@,
            tool: opt_view(self.tool),
            lead_time_ms: self.lead_time_ms,
            tokens_in: self.tokens_in,
            tokens_out: self.tokens_out,
            reasoning_tokens: self.reasoning_tokens,
            cost_usd_e6: self.cost_usd_e6,
            paths: views(self.paths@).to_set(),
        }
    }
}

/// When the span started: its call, else its pre-hook.
pub open spec fn start_spec(s: SpanModel) -> Option<u64> {
    if s.call_start_ms is Some {
        s.call_start_ms
    } else {
        s.hook_start_ms
    }
}

/// When the span ended: its result, else its post-hook; nothing while it has no end.
pub open spec fn end_spec(s: SpanModel) -> Option<u64> {
    if !s.has_end {
        None
    } else if s.result_end_ms is Some {
        s.result_end_ms
    } else {
        s.hook_end_ms
    }
}

/// The record a closed span yields.
pub open spec fn record_spec(s: SpanModel) -> RecordModel {
    RecordModel {
        span_id: s.span_id,
        session_id: s.session_id,
        tool: s.tool,
        tool_call_id: s.tool_call_id,
        status: if s.has_end { "done"@ } else { "orphaned"@ },
        started_at_ms: start_spec(s),
        ended_at_ms: end_spec(s),
        lead_time_ms: match (start_spec(s), end_spec(s)) {
            (Some(a), Some(b)) => Some(if b >= a { (b - a) as u64 } else { 0 }),
            _ => None,
        },
        tokens_in: s.tokens_in,
        tokens_out: s.tokens_out,
        reasoning_tokens: s.reasoning_tokens,
        cost_usd_e6: s.cost_usd_e6,
        paths: s.paths,
        parent_span_id: s.parent_span_id,
        depth: s.depth,
        subtree_cost_usd_e6: s.subtree_cost_usd_e6,
        subtree_token_count: s.subtree_token_count,
    }
}

/// The metrics sample of a record.
pub open spec fn sample_spec(r: RecordModel) -> SampleModel {
    SampleModel {
        session_id: r.session_id,
        span_id: r.span_id,
        tool: r.tool,
        lead_time_ms: r.lead_time_ms,
        tokens_in: r.tokens_in,
        tokens_out: r.tokens_out,
        reasoning_tokens: r.reasoning_tokens,
        cost_usd_e6: r.cost_usd_e6,
        paths: r.paths,
    }
}

/// When the span started: its call, else its pre-hook.
pub fn span_start(span: &SpanBuilder) -> (r: Option<u64>)
    ensures
        r == start_spec(span@),
{
    if span.call_start_ms.is_some() {
        span.call_start_ms
    } else {
        span.hook_start_ms
    }
}

/// When the span ended.
pub fn span_end(span: &SpanBuilder) -> (r: Option<u64>)
    ensures
        r == end_spec(span@),
{
    if !span.has_end {
        None
    } else if span.result_end_ms.is_some() {
        span.result_end_ms
    } else {
        span.hook_end_ms
    }
}

impl ToolSpanRecord {
    /// The record of a closing span.
    pub fn from_builder(span: &SpanBuilder) -> (r: ToolSpanRecord)
        requires
            span.wf(),
        ensures
            r@ == record_spec(span@),
            r.wf(),
    {
        let started = span_start(span);
        let ended = span_end(span);
        let lead = match (started, ended) {
            (Some(a), Some(b)) => Some(b.saturating_sub(a)),
            _ => None,
        };
        let status = if span.has_end {
            "done".to_owned()
        } else {
            "orphaned".to_owned()
        };
        ToolSpanRecord {
            span_id: span.span_id.clone(),
            session_id: span.session_id.clone(),
            tool: copy_opt_string(&span.tool),
            tool_call_id: copy_opt_string(&span.tool_call_id),
            status,
            started_at_ms: started,
            ended_at_ms: ended,
            lead_time_ms: lead,
            tokens_in: span.tokens_in,
            tokens_out: span.tokens_out,
            reasoning_tokens: span.reasoning_tokens,
            cost_usd_e6: span.cost_usd_e6,
            paths: copy_strings(&span.paths),
            parent_span_id: copy_opt_string(&span.parent_span_id),
            depth: span.depth,
            subtree_cost_usd_e6: span.subtree_cost_usd_e6,
            subtree_token_count: span.subtree_token_count,
        }
    }
}

impl ToolSpanSample {
    /// The metrics sample of a record.
    pub fn from_record(r: &ToolSpanRecord) -> (s: ToolSpanSample)
        requires
            r.wf(),
        ensures
            s@ == sample_spec(r@),
            s.wf(),
    {
        ToolSpanSample {
            session_id: r.session_id.clone(),
            span_id: r.span_id.clone(),
            tool: copy_opt_string(&r.tool),
            lead_time_ms: r.lead_time_ms,
            tokens_in: r.tokens_in,
            tokens_out: r.tokens_out,
            reasoning_tokens: r.reasoning_tokens,
            cost_usd_e6: r.cost_usd_e6,
            paths: copy_strings(&r.paths),
        }
    }
}

/// The newer value when there is one, else the current one.
pub open spec fn pick_spec<T>(cur: Option<T>, new: Option<T>) -> Option<T> {
    if new is Some {
        new
    } else {
        cur
    }
}

pub fn pick_u32(cur: Option<u32>, new: Option<u32>) -> (r: Option<u32>)
    ensures
        r == pick_spec(cur, new),
{
    if new.is_some() {
        new
    } else {
        cur
    }
}

pub fn pick_i64(cur: Option<i64>, new: Option<i64>) -> (r: Option<i64>)
    ensures
        r == pick_spec(cur, new),
{
    if new.is_some() {
        new
    } else {
        cur
    }
}

/// Pre- or post-tool hook.
#[derive(Clone, Copy, Debug, PartialEq, Eq, Structural)]
pub enum HookKind {
    Pre,
    Post,
}

/// The hook's event name: `event`, else `hook_event_name`.
pub open spec fn hook_event_name(payload: Json) -> Option<Seq<char>> {
    match json_str(json_get(payload, "event"@)) {
        Some(e) => Some(e),
        None => json_str(json_get(payload, "hook_event_name"@)),
    }
}

/// `PreToolUse` and `PostToolUse` hooks delimit a span; other hooks do not.
pub open spec fn hook_kind_spec(payload: Json) -> Option<HookKind> {
    match hook_event_name(payload) {
        Some(e) => if e == "PreToolUse"@ {
            Some(HookKind::Pre)
        } else if e == "PostToolUse"@ {
            Some(HookKind::Post)
        } else {
            None
        },
        None => None,
    }
}

pub fn hook_kind(payload: &Json) -> (r: Option<HookKind>)
    ensures
        r == hook_kind_spec(*payload),
{
    let name = match get_str(payload, "event") {
        Some(s) => Some(s),
        None => get_str(payload, "hook_event_name"),
    };
    match name {
        Some(e) => {
            if str_eq(e.as_str(), "PreToolUse") {
                Some(HookKind::Pre)
            } else if str_eq(e.as_str(), "PostToolUse") {
                Some(HookKind::Post)
            } else {
                None
            }
        },
        None => None,
    }
}

/// The tool a hook names under `tool_name`.
pub open spec fn hook_tool_spec(payload: Json) -> Option<Seq<char>> {
    json_str(json_get(payload, "tool_name"@))
}

pub fn hook_tool(payload: &Json) -> (r: Option<String>)
    ensures
        opt_view(r) == hook_tool_spec(*payload),
{
    match get_str(payload, "tool_name") {
        Some(s) => Some(s.clone()),
        None => None,
    }
}

/// The identifier of a span that its events do not name: `session:seq:ts_ms`.
pub open spec fn synthetic_id_spec(session: Seq<char>, seq: u64, ts_ms: u64) -> Seq<char> {
    session + seq![':'] + dec_spec(seq as nat) + seq![':'] + dec_spec(ts_ms as nat)
}

pub fn synthetic_span_id(event: &Event) -> (r: String)
    ensures
        r@ == synthetic_id_spec(event.session_id@, event.seq, event.ts_ms),
{
    let mut out = event.session_id.clone();
    proof { reveal_strlit(":"); }
    out.append(":");
    push_decimal(&mut out, event.seq);
    out.append(":");
    push_decimal(&mut out, event.ts_ms);
    out
}

} // verus!
