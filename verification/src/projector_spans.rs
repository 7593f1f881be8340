//! The span half of the projector: how call, result and hook events open, update and
//! close the spans of one session, and what the projector emits for them.

use vstd::prelude::*;
use crate::event::{Event, EventKind, Json, opt_view};
use crate::event_index::{json_paths, paths_from_event_payload};
use crate::projector_hierarchy::{
    add_child, add_child_spec, all_wf, detach_chain, detach_spec, models, open_parent,
    open_parent_spec, seed_spec, seed_subtree, shallower, with_parent,
};
use crate::text::{copy_opt_string, copy_string, insert_sorted, str_eq, strictly_sorted, views};
use crate::tool_span::{
    HookKind, RecordModel, SampleModel, SpanBuilder, SpanModel, ToolSpanRecord, ToolSpanSample,
    empty_model, hook_kind, hook_kind_spec, hook_tool, hook_tool_spec, pick_i64, pick_spec, pick_u32,
    record_spec, sample_spec, span_start, start_spec, synthetic_id_spec, synthetic_span_id,
};

verus! {

/// What the projector emits for the store to persist.
#[derive(Debug)]
pub enum ProjectorEvent {
    SpanClosed(Box<ToolSpanRecord>, ToolSpanSample),
    FileTouched { session: String, path: String },
    SkillUsed { session: String, skill: String },
    RuleUsed { session: String, rule: String },
}

/// The mathematical content of a [`ProjectorEvent`].
pub enum OutModel {
    SpanClosed(RecordModel, SampleModel),
    FileTouched(Seq<char>, Seq<char>),
    SkillUsed(Seq<char>, Seq<char>),
    RuleUsed(Seq<char>, Seq<char>),
}

impl View for ProjectorEvent {
    type V = OutModel;

    open spec fn view(&self) -> OutModel {
        match self {
            ProjectorEvent::SpanClosed(r, s) => OutModel::SpanClosed(r@, s@),
            ProjectorEvent::FileTouched { session, path } => OutModel::FileTouched(session@, path@),
            ProjectorEvent::SkillUsed { session, skill } => OutModel::SkillUsed(session@, skill@),
            ProjectorEvent::RuleUsed { session, rule } => OutModel::RuleUsed(session@, rule@),
        }
    }
}

impl ProjectorEvent {
    /// Paths in emitted records are ascending and distinct.
    pub open spec fn wf(&self) -> bool {
        match self {
            ProjectorEvent::SpanClosed(r, s) => r.wf() && s.wf(),
            _ => true,
        }
    }
}

/// The models of a sequence of outputs.
pub open spec fn outs(v: Seq<ProjectorEvent>) -> Seq<OutModel> {
    v.map_values(|e: ProjectorEvent| e@)
}

/// Every output is well formed.
pub open spec fn outs_wf(v: Seq<ProjectorEvent>) -> bool {
    forall|i: int| 0 <= i < v.len() ==> (#[trigger] v[i]).wf()
}

/// Index of the open span with id `id`.
pub open spec fn find_span(spans: Seq<SpanModel>, id: Seq<char>) -> Option<int>
    decreases spans.len(),
{
    if spans.len() == 0 {
        None
    } else if spans.last().span_id == id {
        Some(spans.len() - 1)
    } else {
        find_span(spans.drop_last(), id)
    }
}

/// Which open spans may receive an event of a tool.
#[derive(Clone, Copy, Debug, PartialEq, Eq, Structural)]
pub enum ToolMatch {
    WithoutCall,
    Any,
    WithCall,
}

pub open spec fn tool_fits(s: SpanModel, tool: Seq<char>, m: ToolMatch) -> bool {
    &&& s.tool == Some(tool)
    &&& match m {
        ToolMatch::WithoutCall => !s.has_call,
        ToolMatch::Any => true,
        ToolMatch::WithCall => s.has_call,
    }
}

/// Index of the most recently opened span of `tool` that fits `m`.
pub open spec fn find_tool(spans: Seq<SpanModel>, tool: Seq<char>, m: ToolMatch) -> Option<int>
    decreases spans.len(),
{
    if spans.len() == 0 {
        None
    } else if tool_fits(spans.last(), tool, m) {
        Some(spans.len() - 1)
    } else {
        find_tool(spans.drop_last(), tool, m)
    }
}

/// Open spans of one session: distinct ids, all of this session, none ended.
pub open spec fn spans_ok(m: Seq<SpanModel>, sid: Seq<char>) -> bool {
    &&& forall|i: int, j: int| 0 <= i < j < m.len() ==> (#[trigger] m[i]).span_id != (#[trigger] m[j]).span_id
    &&& forall|i: int| 0 <= i < m.len() ==> (#[trigger] m[i]).session_id == sid && !m[i].has_end
}

/// The span with the paths named in `payload` added.
pub open spec fn with_paths(s: SpanModel, payload: Json) -> SpanModel {
    SpanModel { paths: s.paths.union(json_paths(payload, None)), ..s }
}

/// The span with the event's token and cost figures where the event has them.
pub open spec fn with_usage(s: SpanModel, e: Event) -> SpanModel {
    SpanModel {
        tokens_in: pick_spec(s.tokens_in, e.tokens_in),
        tokens_out: pick_spec(s.tokens_out, e.tokens_out),
        reasoning_tokens: pick_spec(s.reasoning_tokens, e.reasoning_tokens),
        cost_usd_e6: pick_spec(s.cost_usd_e6, e.cost_usd_e6),
        ..s
    }
}

/// A span opened by event `e` under id `id`.
pub open spec fn new_span_spec(
    e: Event,
    id: Seq<char>,
    tool: Option<Seq<char>>,
    hier: (Option<Seq<char>>, u32),
) -> SpanModel {
    SpanModel {
        tool,
        tool_call_id: opt_view(e.tool_call_id),
        parent_span_id: hier.0,
        depth: hier.1,
        ..empty_model(id, e.session_id@)
    }
}

pub open spec fn update_call_spec(s: SpanModel, e: Event, tool: Option<Seq<char>>) -> SpanModel {
    SpanModel {
        tool,
        tool_call_id: opt_view(e.tool_call_id),
        call_start_ms: Some(e.ts_ms),
        call_start_exact: e.ts_exact,
        has_call: true,
        ..with_paths(with_usage(s, e), e.payload)
    }
}

pub open spec fn update_result_spec(s: SpanModel, e: Event) -> SpanModel {
    SpanModel {
        result_end_ms: Some(e.ts_ms),
        result_end_exact: e.ts_exact,
        has_end: true,
        ..with_paths(with_usage(s, e), e.payload)
    }
}

pub open spec fn update_hook_spec(
    s: SpanModel,
    e: Event,
    tool: Option<Seq<char>>,
    kind: HookKind,
) -> SpanModel {
    SpanModel {
        tool: if s.tool is Some { s.tool } else { tool },
        tool_call_id: if s.tool_call_id is Some { s.tool_call_id } else { opt_view(e.tool_call_id) },
        hook_start_ms: if kind == HookKind::Pre { Some(e.ts_ms) } else { s.hook_start_ms },
        hook_end_ms: if kind == HookKind::Post { Some(e.ts_ms) } else { s.hook_end_ms },
        has_end: s.has_end || kind == HookKind::Post,
        ..with_paths(s, e.payload)
    }
}

/// The open spans with `init` appended unless a span `id` is already open.
pub open spec fn open_spec(spans: Seq<SpanModel>, id: Seq<char>, init: SpanModel) -> Seq<SpanModel> {
    if find_span(spans, id) is Some {
        spans
    } else {
        spans.push(init)
    }
}

pub open spec fn synth_id(e: Event) -> Seq<char> {
    synthetic_id_spec(e.session_id@, e.seq, e.ts_ms)
}

/// The span a tool call lands in: its call id; else the latest span of the same tool that
/// a pre-hook opened and no call reached yet; else a synthetic id.
pub open spec fn call_id_spec(spans: Seq<SpanModel>, e: Event) -> Seq<char> {
    match opt_view(e.tool_call_id) {
        Some(c) => c,
        None => match opt_view(e.tool) {
            Some(t) => match find_tool(spans, t, ToolMatch::WithoutCall) {
                Some(k) => spans[k].span_id,
                None => synth_id(e),
            },
            None => synth_id(e),
        },
    }
}

/// The span a hook lands in: its call id; else the latest open span of the same tool; else
/// a synthetic id.
pub open spec fn hook_id_spec(spans: Seq<SpanModel>, e: Event, tool: Option<Seq<char>>) -> Seq<char> {
    match opt_view(e.tool_call_id) {
        Some(c) => c,
        None => match tool {
            Some(t) => match find_tool(spans, t, ToolMatch::Any) {
                Some(k) => spans[k].span_id,
                None => synth_id(e),
            },
            None => synth_id(e),
        },
    }
}

/// The span a tool result closes: the open span of its call id; else the latest called
/// span of the same tool.
pub open spec fn match_id_spec(spans: Seq<SpanModel>, e: Event) -> Option<Seq<char>> {
    let by_id = match opt_view(e.tool_call_id) {
        Some(c) => if find_span(spans, c) is Some {
            Some(c)
        } else {
            None
        },
        None => None,
    };
    if by_id is Some {
        by_id
    } else {
        match opt_view(e.tool) {
            Some(t) => match find_tool(spans, t, ToolMatch::WithCall) {
                Some(k) => Some(spans[k].span_id),
                None => None,
            },
            None => None,
        }
    }
}

/// A closed span's totals flow into its parent when the parent is still open.
pub open spec fn propagate_spec(rest: Seq<SpanModel>, child: SpanModel) -> Seq<SpanModel> {
    match child.parent_span_id {
        Some(p) => match find_span(rest, p) {
            Some(j) => rest.update(j, add_child_spec(rest[j], child)),
            None => rest,
        },
        None => rest,
    }
}

/// What the projector emits for a closing span (already seeded with its own totals).
pub open spec fn closed_out(s: SpanModel) -> OutModel {
    OutModel::SpanClosed(record_spec(s), sample_spec(record_spec(s)))
}

/// Closes the open span `id`, if open.
pub open spec fn close_one_spec(spans: Seq<SpanModel>, id: Seq<char>) -> (Seq<SpanModel>, Seq<OutModel>) {
    match find_span(spans, id) {
        Some(k) => {
            let seeded = seed_spec(spans[k]);
            (propagate_spec(detach_spec(spans, k), seeded), seq![closed_out(seeded)])
        },
        None => (spans, Seq::empty()),
    }
}

/// Open spans after a tool call.
pub open spec fn step_call(spans: Seq<SpanModel>, e: Event) -> Seq<SpanModel> {
    let tool = opt_view(e.tool);
    let id = call_id_spec(spans, e);
    let opened = open_spec(spans, id, new_span_spec(e, id, tool, open_parent_spec(spans, id)));
    let k = find_span(opened, id)->0;
    opened.update(k, update_call_spec(opened[k], e, tool))
}

/// Open spans and outputs after a tool result.
pub open spec fn step_result(spans: Seq<SpanModel>, e: Event) -> (Seq<SpanModel>, Seq<OutModel>) {
    match match_id_spec(spans, e) {
        Some(id) => {
            let k = find_span(spans, id)->0;
            close_one_spec(spans.update(k, update_result_spec(spans[k], e)), id)
        },
        None => (spans, Seq::empty()),
    }
}

/// Open spans and outputs after a hook.
pub open spec fn step_hook(spans: Seq<SpanModel>, e: Event) -> (Seq<SpanModel>, Seq<OutModel>) {
    match hook_kind_spec(e.payload) {
        Some(kind) => {
            let tool = hook_tool_spec(e.payload);
            let id = hook_id_spec(spans, e, tool);
            let opened = open_spec(spans, id, new_span_spec(e, id, tool, open_parent_spec(spans, id)));
            let k = find_span(opened, id)->0;
            let updated = opened.update(k, update_hook_spec(opened[k], e, tool, kind));
            if kind == HookKind::Post {
                close_one_spec(updated, id)
            } else {
                (updated, Seq::empty())
            }
        },
        None => (spans, Seq::empty()),
    }
}

/// Open spans and outputs after any event.
pub open spec fn step_span(spans: Seq<SpanModel>, e: Event) -> (Seq<SpanModel>, Seq<OutModel>) {
    match e.kind {
        EventKind::ToolCall => (step_call(spans, e), Seq::empty()),
        EventKind::ToolResult => step_result(spans, e),
        EventKind::Hook => step_hook(spans, e),
        _ => (spans, Seq::empty()),
    }
}

/// Outputs of closing all open spans of a session, most recent first; closed spans do not
/// roll up into parents that close with them.
pub open spec fn flush_spec(spans: Seq<SpanModel>) -> Seq<OutModel> {
    Seq::new(spans.len(), |i: int| closed_out(seed_spec(spans[spans.len() - 1 - i])))
}

/// Whether a span started more than `ttl` before `now`.
pub open spec fn expired_spec(s: SpanModel, now: u64, ttl: u64) -> bool {
    match start_spec(s) {
        Some(st) => (if now >= st { now - st } else { 0 }) > ttl,
        None => false,
    }
}

/// Ids of the expired spans, in open order.
pub open spec fn expired_ids(spans: Seq<SpanModel>, now: u64, ttl: u64) -> Seq<Seq<char>>
    decreases spans.len(),
{
    if spans.len() == 0 {
        Seq::empty()
    } else {
        expired_ids(spans.drop_last(), now, ttl) + if expired_spec(spans.last(), now, ttl) {
            seq![spans.last().span_id]
        } else {
            Seq::empty()
        }
    }
}

/// Closes the spans `ids` one after the other.
pub open spec fn close_ids_spec(spans: Seq<SpanModel>, ids: Seq<Seq<char>>) -> (Seq<SpanModel>, Seq<OutModel>)
    decreases ids.len(),
{
    if ids.len() == 0 {
        (spans, Seq::empty())
    } else {
        let (a, o1) = close_one_spec(spans, ids[0]);
        let (b, o2) = close_ids_spec(a, ids.drop_first());
        (b, o1 + o2)
    }
}

/// Open spans and outputs after closing the expired spans.
pub open spec fn expire_spec(spans: Seq<SpanModel>, now: u64, ttl: u64) -> (Seq<SpanModel>, Seq<OutModel>) {
    close_ids_spec(spans, expired_ids(spans, now, ttl))
}

// ---------------------------------------------------------------------------------------
// Facts about the search functions and the invariant.

pub proof fn lemma_find_span(spans: Seq<SpanModel>, id: Seq<char>)
    ensures
        match find_span(spans, id) {
            Some(k) => 0 <= k < spans.len() && spans[k].span_id == id,
            None => forall|i: int| 0 <= i < spans.len() ==> (#[trigger] spans[i]).span_id != id,
        },
    decreases spans.len(),
{
    if spans.len() > 0 && spans.last().span_id != id {
        lemma_find_span(spans.drop_last(), id);
        if find_span(spans.drop_last(), id) is None {
            assert forall|i: int| 0 <= i < spans.len() implies (#[trigger] spans[i]).span_id != id by {
                if i < spans.len() - 1 {
                    assert(spans[i] == spans.drop_last()[i]);
                }
            }
        }
    }
}

pub proof fn lemma_find_tool(spans: Seq<SpanModel>, tool: Seq<char>, m: ToolMatch)
    ensures
        match find_tool(spans, tool, m) {
            Some(k) => 0 <= k < spans.len() && tool_fits(spans[k], tool, m),
            None => true,
        },
    decreases spans.len(),
{
    if spans.len() > 0 && !tool_fits(spans.last(), tool, m) {
        lemma_find_tool(spans.drop_last(), tool, m);
    }
}

/// With distinct ids, the span found for an id is the only one with that id.
pub proof fn lemma_find_unique(spans: Seq<SpanModel>, sid: Seq<char>, k: int)
    requires
        spans_ok(spans, sid),
        0 <= k < spans.len(),
    ensures
        find_span(spans, spans[k].span_id) == Some(k),
{
    lemma_find_span(spans, spans[k].span_id);
    let r = find_span(spans, spans[k].span_id);
    if r is Some {
        let j = r->0;
        if j != k {
            if j < k {
                assert(spans[j].span_id != spans[k].span_id);
            } else {
                assert(spans[k].span_id != spans[j].span_id);
            }
        }
    }
}

proof fn lemma_update_keeps_ok(spans: Seq<SpanModel>, sid: Seq<char>, k: int, s: SpanModel)
    requires
        spans_ok(spans, sid),
        0 <= k < spans.len(),
        s.span_id == spans[k].span_id,
        s.session_id == sid,
        !s.has_end,
    ensures
        spans_ok(spans.update(k, s), sid),
{
    let n = spans.update(k, s);
    assert forall|i: int, j: int| 0 <= i < j < n.len() implies (#[trigger] n[i]).span_id != (#[trigger] n[j]).span_id by {
        assert(n[i].span_id == spans[i].span_id);
        assert(n[j].span_id == spans[j].span_id);
    }
}

proof fn lemma_detach_keeps_ok(spans: Seq<SpanModel>, sid: Seq<char>, k: int)
    requires
        spans_ok(spans, sid),
        0 <= k < spans.len(),
    ensures
        spans_ok(detach_spec(spans, k), sid),
        forall|i: int| 0 <= i < spans.len() && i != k ==> #[trigger] find_span(detach_spec(spans, k), spans[i].span_id) is Some,
        find_span(detach_spec(spans, k), spans[k].span_id) is None,
        detach_spec(spans, k).len() == spans.len() - 1,
        forall|i: int| 0 <= i < detach_spec(spans, k).len() ==>
            (#[trigger] detach_spec(spans, k)[i]).span_id == spans[if i < k { i } else { i + 1 }].span_id,
{
    let d = detach_spec(spans, k);
    assert forall|i: int| 0 <= i < d.len() implies (#[trigger] d[i]).span_id == spans[if i < k { i } else { i + 1 }].span_id
        && d[i].session_id == sid && !d[i].has_end by {}
    assert forall|i: int, j: int| 0 <= i < j < d.len() implies (#[trigger] d[i]).span_id != (#[trigger] d[j]).span_id by {
        let a = if i < k { i } else { i + 1 };
        let b = if j < k { j } else { j + 1 };
        assert(a < b);
        assert(spans[a].span_id != spans[b].span_id);
    }
    assert forall|i: int| 0 <= i < spans.len() && i != k implies #[trigger] find_span(d, spans[i].span_id) is Some by {
        let a = if i < k { i } else { i - 1 };
        assert(d[a].span_id == spans[i].span_id);
        lemma_find_span(d, spans[i].span_id);
    }
    lemma_find_span(d, spans[k].span_id);
    if find_span(d, spans[k].span_id) is Some {
        let j = find_span(d, spans[k].span_id)->0;
        let b = if j < k { j } else { j + 1 };
        assert(d[j].span_id == spans[b].span_id);
        if b < k {
            assert(spans[b].span_id != spans[k].span_id);
        } else {
            assert(spans[k].span_id != spans[b].span_id);
        }
    }
}

proof fn lemma_propagate_keeps_ok(rest: Seq<SpanModel>, sid: Seq<char>, child: SpanModel)
    requires
        spans_ok(rest, sid),
    ensures
        spans_ok(propagate_spec(rest, child), sid),
        propagate_spec(rest, child).len() == rest.len(),
        forall|i: int| 0 <= i < rest.len() ==> (#[trigger] propagate_spec(rest, child)[i]).span_id == rest[i].span_id,
{
    if child.parent_span_id is Some {
        let p = child.parent_span_id->0;
        lemma_find_span(rest, p);
        if find_span(rest, p) is Some {
            let j = find_span(rest, p)->0;
            lemma_update_keeps_ok(rest, sid, j, add_child_spec(rest[j], child));
        }
    }
}

proof fn lemma_close_one_keeps_ok(spans: Seq<SpanModel>, sid: Seq<char>, id: Seq<char>)
    requires
        spans_ok(spans, sid),
    ensures
        spans_ok(close_one_spec(spans, id).0, sid),
{
    lemma_find_span(spans, id);
    if find_span(spans, id) is Some {
        let k = find_span(spans, id)->0;
        lemma_detach_keeps_ok(spans, sid, k);
        lemma_propagate_keeps_ok(detach_spec(spans, k), sid, seed_spec(spans[k]));
    }
}

/// An output that closes a span as orphaned, with no end time.
pub open spec fn orphan_close(o: OutModel) -> bool {
    match o {
        OutModel::SpanClosed(r, _) => r.status == "orphaned"@ && r.ended_at_ms is None,
        _ => false,
    }
}

/// Only the span ids matter to the search by id.
proof fn lemma_find_same_ids(a: Seq<SpanModel>, b: Seq<SpanModel>, x: Seq<char>)
    requires
        a.len() == b.len(),
        forall|i: int| 0 <= i < a.len() ==> (#[trigger] a[i]).span_id == b[i].span_id,
    ensures
        find_span(a, x) == find_span(b, x),
    decreases a.len(),
{
    if a.len() > 0 {
        assert forall|i: int| 0 <= i < a.drop_last().len() implies (#[trigger] a.drop_last()[i]).span_id == b.drop_last()[i].span_id by {
            assert(a.drop_last()[i] == a[i] && b.drop_last()[i] == b[i]);
        }
        lemma_find_same_ids(a.drop_last(), b.drop_last(), x);
    }
}

/// An id not among the spans is not found.
proof fn lemma_find_absent(spans: Seq<SpanModel>, x: Seq<char>)
    requires
        forall|i: int| 0 <= i < spans.len() ==> (#[trigger] spans[i]).span_id != x,
    ensures
        find_span(spans, x) is None,
{
    lemma_find_span(spans, x);
}

/// Closing an open span by id emits one record, removes that id, and keeps the others.
proof fn lemma_close_one_count(spans: Seq<SpanModel>, sid: Seq<char>, id: Seq<char>)
    requires
        spans_ok(spans, sid),
        find_span(spans, id) is Some,
    ensures
        close_one_spec(spans, id).1.len() == 1,
        find_span(close_one_spec(spans, id).0, id) is None,
        forall|x: Seq<char>| x != id ==> (#[trigger] find_span(close_one_spec(spans, id).0, x) is Some <==> find_span(spans, x) is Some),
{
    let k = find_span(spans, id)->0;
    lemma_find_span(spans, id);
    lemma_detach_keeps_ok(spans, sid, k);
    let d = detach_spec(spans, k);
    let child = seed_spec(spans[k]);
    lemma_propagate_keeps_ok(d, sid, child);
    let a = propagate_spec(d, child);
    assert(a == close_one_spec(spans, id).0);
    lemma_find_same_ids(a, d, id);
    assert forall|x: Seq<char>| x != id implies (#[trigger] find_span(a, x) is Some <==> find_span(spans, x) is Some) by {
        lemma_find_same_ids(a, d, x);
        lemma_find_span(spans, x);
        lemma_find_span(d, x);
        if find_span(spans, x) is Some {
            let i = find_span(spans, x)->0;
            assert(i != k);
        }
        if find_span(d, x) is Some {
            let j = find_span(d, x)->0;
            let jj = if j < k { j } else { j + 1 };
            assert(spans[jj].span_id == x);
            if find_span(spans, x) is None {
                assert(spans[jj].span_id != x);
            }
        }
    }
}

/// Closing distinct open spans by id emits one record each, removes those ids, and keeps
/// every other open span.
proof fn lemma_close_ids_count(spans: Seq<SpanModel>, sid: Seq<char>, ids: Seq<Seq<char>>)
    requires
        spans_ok(spans, sid),
        ids.no_duplicates(),
        forall|i: int| 0 <= i < ids.len() ==> find_span(spans, #[trigger] ids[i]) is Some,
    ensures
        close_ids_spec(spans, ids).1.len() == ids.len(),
        forall|i: int| 0 <= i < ids.len() ==> find_span(close_ids_spec(spans, ids).0, #[trigger] ids[i]) is None,
        forall|x: Seq<char>| !ids.contains(x) ==>
            (#[trigger] find_span(close_ids_spec(spans, ids).0, x) is Some <==> find_span(spans, x) is Some),
    decreases ids.len(),
{
    if ids.len() > 0 {
        let id = ids[0];
        let a = close_one_spec(spans, id).0;
        lemma_close_one_count(spans, sid, id);
        lemma_close_one_keeps_ok(spans, sid, id);
        let rest = ids.drop_first();
        assert forall|i: int| 0 <= i < rest.len() implies find_span(a, #[trigger] rest[i]) is Some by {
            assert(rest[i] == ids[i + 1]);
            assert(ids[i + 1] != ids[0]);
        }
        assert(rest.no_duplicates()) by {
            assert forall|p: int, q: int| 0 <= p < q < rest.len() implies rest[p] != rest[q] by {
                assert(rest[p] == ids[p + 1] && rest[q] == ids[q + 1]);
            }
        }
        lemma_close_ids_count(a, sid, rest);
        let res = close_ids_spec(a, rest).0;
        assert forall|i: int| 0 <= i < ids.len() implies find_span(close_ids_spec(spans, ids).0, #[trigger] ids[i]) is None by {
            if i == 0 {
                assert forall|j: int| 0 <= j < rest.len() implies (#[trigger] rest[j]) != id by {
                    assert(rest[j] == ids[j + 1]);
                }
                assert(!rest.contains(id));
            } else {
                assert(rest[i - 1] == ids[i]);
            }
        }
        assert forall|x: Seq<char>| !ids.contains(x) implies
            (#[trigger] find_span(close_ids_spec(spans, ids).0, x) is Some <==> find_span(spans, x) is Some) by {
            assert(x != id) by {
                assert(ids[0] == id);
            }
            if rest.contains(x) {
                let j = choose|j: int| 0 <= j < rest.len() && rest[j] == x;
                assert(ids[j + 1] == x);
            }
        }
    }
}

/// Some open span with id `x` is expired.
pub open spec fn expired_at(spans: Seq<SpanModel>, x: Seq<char>, now: u64, ttl: u64) -> bool {
    exists|k: int| 0 <= k < spans.len() && spans[k].span_id == x && expired_spec(spans[k], now, ttl)
}

/// The expired ids are distinct, and are the ids of exactly the expired open spans.
proof fn lemma_expired_ids(spans: Seq<SpanModel>, sid: Seq<char>, now: u64, ttl: u64)
    requires
        spans_ok(spans, sid),
    ensures
        expired_ids(spans, now, ttl).no_duplicates(),
        forall|i: int| 0 <= i < expired_ids(spans, now, ttl).len() ==>
            expired_at(spans, #[trigger] expired_ids(spans, now, ttl)[i], now, ttl),
        forall|k: int| 0 <= k < spans.len() ==>
            (expired_ids(spans, now, ttl).contains(#[trigger] spans[k].span_id) <==> expired_spec(spans[k], now, ttl)),
    decreases spans.len(),
{
    if spans.len() > 0 {
        let d = spans.drop_last();
        assert(spans_ok(d, sid)) by {
            assert forall|i: int, j: int| 0 <= i < j < d.len() implies (#[trigger] d[i]).span_id != (#[trigger] d[j]).span_id by {
                assert(d[i] == spans[i] && d[j] == spans[j]);
            }
            assert forall|i: int| 0 <= i < d.len() implies (#[trigger] d[i]).session_id == sid && !d[i].has_end by {
                assert(d[i] == spans[i]);
            }
        }
        lemma_expired_ids(d, sid, now, ttl);
        let e0 = expired_ids(d, now, ttl);
        let l = spans.last();
        let e = expired_ids(spans, now, ttl);
        let n = spans.len() - 1;
        assert forall|i: int| 0 <= i < e0.len() implies (#[trigger] e0[i]) != l.span_id by {
            assert(expired_at(d, e0[i], now, ttl));
            let k = choose|k: int| 0 <= k < d.len() && d[k].span_id == e0[i] && expired_spec(d[k], now, ttl);
            assert(spans[k].span_id != spans[n].span_id);
        }
        if expired_spec(l, now, ttl) {
            assert(e == e0.push(l.span_id));
        } else {
            assert(e =~= e0);
        }
        assert forall|i: int| 0 <= i < e.len() implies expired_at(spans, #[trigger] e[i], now, ttl) by {
            if i < e0.len() {
                assert(e[i] == e0[i]);
                assert(expired_at(d, e0[i], now, ttl));
                let k = choose|k: int| 0 <= k < d.len() && d[k].span_id == e0[i] && expired_spec(d[k], now, ttl);
                assert(spans[k] == d[k]);
            } else {
                assert(spans[n] == l);
                assert(e[i] == l.span_id);
            }
        }
        assert forall|k: int| 0 <= k < spans.len() implies
            (e.contains(#[trigger] spans[k].span_id) <==> expired_spec(spans[k], now, ttl)) by {
            if k < n {
                assert(spans[k] == d[k]);
                assert(spans[k].span_id != l.span_id);
                if e.contains(spans[k].span_id) {
                    let i = choose|i: int| 0 <= i < e.len() && e[i] == spans[k].span_id;
                    if i < e0.len() {
                        assert(e0[i] == e[i]);
                        assert(e0.contains(d[k].span_id));
                    }
                }
                if e0.contains(d[k].span_id) {
                    let i = choose|i: int| 0 <= i < e0.len() && e0[i] == d[k].span_id;
                    assert(e[i] == e0[i]);
                }
            } else {
                if expired_spec(l, now, ttl) {
                    assert(e[e.len() - 1] == l.span_id);
                } else if e.contains(l.span_id) {
                    let i = choose|i: int| 0 <= i < e.len() && e[i] == l.span_id;
                    assert(e0[i] == l.span_id);
                }
            }
        }
    }
}

/// Sweeping open spans closes each expired span once, and only those: one record per
/// expired span, the expired spans gone, every other span still open.
pub proof fn lemma_expire_closes_expired(spans: Seq<SpanModel>, sid: Seq<char>, now: u64, ttl: u64)
    requires
        spans_ok(spans, sid),
    ensures
        expire_spec(spans, now, ttl).1.len() == expired_ids(spans, now, ttl).len(),
        forall|k: int| 0 <= k < spans.len() ==>
            (find_span(expire_spec(spans, now, ttl).0, #[trigger] spans[k].span_id) is Some <==> !expired_spec(spans[k], now, ttl)),
{
    lemma_expired_ids(spans, sid, now, ttl);
    let ids = expired_ids(spans, now, ttl);
    assert forall|i: int| 0 <= i < ids.len() implies find_span(spans, #[trigger] ids[i]) is Some by {
        assert(expired_at(spans, ids[i], now, ttl));
        let k = choose|k: int| 0 <= k < spans.len() && spans[k].span_id == ids[i] && expired_spec(spans[k], now, ttl);
        lemma_find_unique(spans, sid, k);
    }
    lemma_close_ids_count(spans, sid, ids);
    assert forall|k: int| 0 <= k < spans.len() implies
        (find_span(expire_spec(spans, now, ttl).0, #[trigger] spans[k].span_id) is Some <==> !expired_spec(spans[k], now, ttl)) by {
        lemma_find_unique(spans, sid, k);
        if ids.contains(spans[k].span_id) {
            let i = choose|i: int| 0 <= i < ids.len() && ids[i] == spans[k].span_id;
        }
    }
}

/// An output that closes a span of session `sid`.
pub open spec fn closed_in(o: OutModel, sid: Seq<char>) -> bool {
    match o {
        OutModel::SpanClosed(r, _) => r.session_id == sid,
        _ => false,
    }
}

/// Closing open spans by id, one after the other, closes each as orphaned.
pub proof fn lemma_close_ids_orphans(spans: Seq<SpanModel>, sid: Seq<char>, ids: Seq<Seq<char>>)
    requires
        spans_ok(spans, sid),
    ensures
        forall|i: int| 0 <= i < close_ids_spec(spans, ids).1.len() ==> orphan_close(#[trigger] close_ids_spec(spans, ids).1[i])
            && closed_in(close_ids_spec(spans, ids).1[i], sid),
    decreases ids.len(),
{
    if ids.len() > 0 {
        let (a, o1) = close_one_spec(spans, ids[0]);
        lemma_find_span(spans, ids[0]);
        lemma_close_one_keeps_ok(spans, sid, ids[0]);
        lemma_close_ids_orphans(a, sid, ids.drop_first());
        let o2 = close_ids_spec(a, ids.drop_first()).1;
        assert forall|i: int| 0 <= i < (o1 + o2).len() implies orphan_close(#[trigger] (o1 + o2)[i]) && closed_in((o1 + o2)[i], sid) by {
            if i < o1.len() {
                let k = find_span(spans, ids[0])->0;
                assert(!spans[k].has_end);
                assert(spans[k].session_id == sid);
            } else {
                assert((o1 + o2)[i] == o2[i - o1.len()]);
            }
        }
    }
}

/// Closing a span by id after it was updated in place: the invariant holds for the rest.
proof fn lemma_close_updated_keeps_ok(spans: Seq<SpanModel>, sid: Seq<char>, k: int, s: SpanModel)
    requires
        spans_ok(spans, sid),
        0 <= k < spans.len(),
        s.span_id == spans[k].span_id,
        s.session_id == sid,
    ensures
        spans_ok(close_one_spec(spans.update(k, s), spans[k].span_id).0, sid),
{
    let u = spans.update(k, s);
    let id = spans[k].span_id;
    lemma_find_span(u, id);
    assert(u[k].span_id == id);
    let j = find_span(u, id)->0;
    if j != k {
        if j < k {
            assert(spans[j].span_id != spans[k].span_id);
        } else {
            assert(spans[k].span_id != spans[j].span_id);
        }
    }
    let d = detach_spec(u, k);
    assert forall|i: int| 0 <= i < d.len() implies (#[trigger] d[i]).span_id == spans[if i < k { i } else { i + 1 }].span_id
        && d[i].session_id == sid && !d[i].has_end by {}
    assert forall|a: int, b: int| 0 <= a < b < d.len() implies (#[trigger] d[a]).span_id != (#[trigger] d[b]).span_id by {
        let x = if a < k { a } else { a + 1 };
        let y = if b < k { b } else { b + 1 };
        assert(spans[x].span_id != spans[y].span_id);
    }
    assert(spans_ok(d, sid));
    lemma_propagate_keeps_ok(d, sid, seed_spec(u[k]));
}

proof fn lemma_open_keeps_ok(spans: Seq<SpanModel>, sid: Seq<char>, id: Seq<char>, init: SpanModel)
    requires
        spans_ok(spans, sid),
        init.span_id == id,
        init.session_id == sid,
        !init.has_end,
    ensures
        spans_ok(open_spec(spans, id, init), sid),
        find_span(open_spec(spans, id, init), id) is Some,
        ({
            let o = open_spec(spans, id, init);
            let k = find_span(o, id)->0;
            0 <= k < o.len() && o[k].span_id == id
        }),
{
    lemma_find_span(spans, id);
    let o = open_spec(spans, id, init);
    if find_span(spans, id) is None {
        assert forall|i: int, j: int| 0 <= i < j < o.len() implies (#[trigger] o[i]).span_id != (#[trigger] o[j]).span_id by {
            if j == spans.len() {
                assert(spans[i].span_id != id);
            }
        }
        assert(o.last().span_id == id);
    }
    lemma_find_span(o, id);
}

// ---------------------------------------------------------------------------------------
// Executable steps.

/// Index of the open span `id`.
pub fn find_span_exec(spans: &Vec<SpanBuilder>, id: &str) -> (r: Option<usize>)
    ensures
        match r {
            Some(k) => find_span(models(spans@), id@) == Some(k as int),
            None => find_span(models(spans@), id@) is None,
        },
{
    let ghost m = models(spans@);
    let mut i: usize = spans.len();
    assert(m.subrange(0, i as int) =~= m);
    while i > 0
        invariant
            i <= spans.len(),
            m == models(spans@),
            find_span(m, id@) == find_span(m.subrange(0, i as int), id@),
        decreases i,
    {
        let ghost pre = m.subrange(0, i as int);
        assert(pre.last() == spans@[i - 1]@);
        assert(pre.drop_last() =~= m.subrange(0, i - 1));
        if str_eq(spans[i - 1].span_id.as_str(), id) {
            return Some(i - 1);
        }
        i = i - 1;
    }
    None
}

fn tool_fits_exec(s: &SpanBuilder, tool: &str, m: ToolMatch) -> (r: bool)
    ensures
        r == tool_fits(s@, tool@, m),
{
    let same = match &s.tool {
        Some(t) => str_eq(t.as_str(), tool),
        None => false,
    };
    same && match m {
        ToolMatch::WithoutCall => !s.has_call,
        ToolMatch::Any => true,
        ToolMatch::WithCall => s.has_call,
    }
}

/// Index of the most recently opened span of `tool` that fits `m`.
pub fn find_tool_exec(spans: &Vec<SpanBuilder>, tool: &str, m: ToolMatch) -> (r: Option<usize>)
    ensures
        match r {
            Some(k) => find_tool(models(spans@), tool@, m) == Some(k as int),
            None => find_tool(models(spans@), tool@, m) is None,
        },
{
    let ghost md = models(spans@);
    let mut i: usize = spans.len();
    assert(md.subrange(0, i as int) =~= md);
    while i > 0
        invariant
            i <= spans.len(),
            md == models(spans@),
            find_tool(md, tool@, m) == find_tool(md.subrange(0, i as int), tool@, m),
        decreases i,
    {
        let ghost pre = md.subrange(0, i as int);
        assert(pre.last() == spans@[i - 1]@);
        assert(pre.drop_last() =~= md.subrange(0, i - 1));
        if tool_fits_exec(&spans[i - 1], tool, m) {
            return Some(i - 1);
        }
        i = i - 1;
    }
    None
}

/// Adds the paths named in `payload` to the span.
fn extend_paths(span: &mut SpanBuilder, payload: &Json)
    requires
        old(span).wf(),
    ensures
        final(span).wf(),
        final(span)@ == with_paths(old(span)@, *payload),
{
    let ps = paths_from_event_payload(payload);
    let ghost start = views(span.paths@).to_set();
    let mut i: usize = 0;
    while i < ps.len()
        invariant
            i <= ps.len(),
            span.wf(),
            span@ == (SpanModel { paths: span@.paths, ..old(span)@ }),
            views(span.paths@).to_set() == start.union(views(ps@).subrange(0, i as int).to_set()),
        decreases ps.len() - i,
    {
        insert_sorted(&mut span.paths, ps[i].clone());
        proof {
            let a = views(ps@).subrange(0, i as int);
            assert(views(ps@).subrange(0, i + 1) =~= a + seq![ps@[i as int]@]);
            vstd::seq_lib::lemma_seq_union_to_multiset_commutative::<Seq<char>>(a, a);
            assert((a + seq![ps@[i as int]@]).to_set() =~= a.to_set().insert(ps@[i as int]@)) by {
                Seq::<Seq<char>>::lemma_to_set_insert_commutes(a, ps@[i as int]@);
            }
        }
        i = i + 1;
    }
    assert(views(ps@).subrange(0, ps.len() as int) =~= views(ps@));
    assert(views(span.paths@).to_set() =~= old(span)@.paths.union(json_paths(*payload, None)));
}

fn copy_usage(span: &mut SpanBuilder, e: &Event)
    ensures
        final(span)@ == with_usage(old(span)@, *e),
        final(span).paths == old(span).paths,
{
    span.tokens_in = pick_u32(span.tokens_in, e.tokens_in);
    span.tokens_out = pick_u32(span.tokens_out, e.tokens_out);
    span.reasoning_tokens = pick_u32(span.reasoning_tokens, e.reasoning_tokens);
    span.cost_usd_e6 = pick_i64(span.cost_usd_e6, e.cost_usd_e6);
}

fn new_builder(e: &Event, id: &String, tool: Option<String>, hier: (Option<String>, u32)) -> (r: SpanBuilder)
    ensures
        r@ == new_span_spec(*e, id@, opt_view(tool), (opt_view(hier.0), hier.1)),
        r.wf(),
{
    let mut b = SpanBuilder::empty(copy_string(id), e.session_id.clone());
    b.tool = tool;
    b.tool_call_id = copy_opt_string(&e.tool_call_id);
    b.parent_span_id = hier.0;
    b.depth = hier.1;
    b
}

/// Index of the open span `id`, opening it with `init` when it is not open yet.
fn open_span(spans: &mut Vec<SpanBuilder>, id: &String, init: SpanBuilder) -> (k: usize)
    requires
        all_wf(old(spans)@),
        init.wf(),
        init@.span_id == id@,
    ensures
        all_wf(final(spans)@),
        models(final(spans)@) == open_spec(models(old(spans)@), id@, init@),
        find_span(models(final(spans)@), id@) == Some(k as int),
{
    match find_span_exec(spans, id.as_str()) {
        Some(k) => k,
        None => {
            let ghost m = models(spans@);
            spans.push(init);
            assert(models(spans@) =~= m.push(init@));
            assert(models(spans@).drop_last() =~= m);
            spans.len() - 1
        },
    }
}

/// Applies `f`'s model change to the span at `k` (takes the span out and puts it back).
fn take_span(spans: &mut Vec<SpanBuilder>, k: usize) -> (r: SpanBuilder)
    requires
        k < old(spans).len(),
    ensures
        r == old(spans)@[k as int],
        final(spans)@ == old(spans)@.update(k as int, final(spans)@[k as int]),
        final(spans).len() == old(spans).len(),
        final(spans)@[k as int].wf(),
{
    let mut sp = SpanBuilder::default();
    spans.set_and_swap(k, &mut sp);
    sp
}

proof fn lemma_put_back(old_v: Seq<SpanBuilder>, mid: Seq<SpanBuilder>, new_v: Seq<SpanBuilder>, k: int, s: SpanBuilder)
    requires
        0 <= k < old_v.len(),
        mid == old_v.update(k, mid[k]),
        new_v == mid.update(k, s),
        all_wf(old_v),
        s.wf(),
    ensures
        models(new_v) == models(old_v).update(k, s@),
        all_wf(new_v),
{
    assert(models(new_v) =~= models(old_v).update(k, s@));
}

fn update_call_at(spans: &mut Vec<SpanBuilder>, k: usize, e: &Event, tool: Option<String>)
    requires
        k < old(spans).len(),
        all_wf(old(spans)@),
    ensures
        all_wf(final(spans)@),
        models(final(spans)@) == models(old(spans)@).update(
            k as int,
            update_call_spec(models(old(spans)@)[k as int], *e, opt_view(tool)),
        ),
{
    let ghost v0 = spans@;
    let mut sp = take_span(spans, k);
    let ghost mid = spans@;
    sp.tool = tool;
    sp.tool_call_id = copy_opt_string(&e.tool_call_id);
    sp.call_start_ms = Some(e.ts_ms);
    sp.call_start_exact = e.ts_exact;
    copy_usage(&mut sp, e);
    extend_paths(&mut sp, &e.payload);
    sp.has_call = true;
    spans.set_and_swap(k, &mut sp);
    proof {
        lemma_put_back(v0, mid, spans@, k as int, spans@[k as int]);
    }
}

fn update_result_at(spans: &mut Vec<SpanBuilder>, k: usize, e: &Event)
    requires
        k < old(spans).len(),
        all_wf(old(spans)@),
    ensures
        all_wf(final(spans)@),
        models(final(spans)@) == models(old(spans)@).update(
            k as int,
            update_result_spec(models(old(spans)@)[k as int], *e),
        ),
{
    let ghost v0 = spans@;
    let mut sp = take_span(spans, k);
    let ghost mid = spans@;
    sp.result_end_ms = Some(e.ts_ms);
    sp.result_end_exact = e.ts_exact;
    copy_usage(&mut sp, e);
    extend_paths(&mut sp, &e.payload);
    sp.has_end = true;
    spans.set_and_swap(k, &mut sp);
    proof {
        lemma_put_back(v0, mid, spans@, k as int, spans@[k as int]);
    }
}

fn update_hook_at(spans: &mut Vec<SpanBuilder>, k: usize, e: &Event, tool: Option<String>, kind: HookKind)
    requires
        k < old(spans).len(),
        all_wf(old(spans)@),
    ensures
        all_wf(final(spans)@),
        models(final(spans)@) == models(old(spans)@).update(
            k as int,
            update_hook_spec(models(old(spans)@)[k as int], *e, opt_view(tool), kind),
        ),
{
    let ghost v0 = spans@;
    let mut sp = take_span(spans, k);
    let ghost mid = spans@;
    if sp.tool.is_none() {
        sp.tool = tool;
    }
    if sp.tool_call_id.is_none() {
        sp.tool_call_id = copy_opt_string(&e.tool_call_id);
    }
    extend_paths(&mut sp, &e.payload);
    match kind {
        HookKind::Pre => {
            sp.hook_start_ms = Some(e.ts_ms);
        },
        HookKind::Post => {
            sp.hook_end_ms = Some(e.ts_ms);
        },
    }
    sp.has_end = sp.has_end || kind == HookKind::Post;
    spans.set_and_swap(k, &mut sp);
    proof {
        lemma_put_back(v0, mid, spans@, k as int, spans@[k as int]);
    }
}

/// Seeds a closing span's totals, rolls them into its open parent and builds the output.
fn close_span(spans: &mut Vec<SpanBuilder>, span: SpanBuilder) -> (r: ProjectorEvent)
    requires
        all_wf(old(spans)@),
        span.wf(),
    ensures
        all_wf(final(spans)@),
        models(final(spans)@) == propagate_spec(models(old(spans)@), seed_spec(span@)),
        r@ == closed_out(seed_spec(span@)),
        r.wf(),
{
    let mut span = span;
    seed_subtree(&mut span);
    let ghost m0 = models(spans@);
    match &span.parent_span_id {
        Some(p) => {
            match find_span_exec(spans, p.as_str()) {
                Some(j) => {
                    proof {
                        lemma_find_span(m0, p@);
                    }
                    let ghost v0 = spans@;
                    let mut parent = take_span(spans, j);
                    let ghost mid = spans@;
                    add_child(&mut parent, &span);
                    spans.set_and_swap(j, &mut parent);
                    proof {
                        lemma_put_back(v0, mid, spans@, j as int, spans@[j as int]);
                    }
                },
                None => {},
            }
        },
        None => {},
    }
    assert(models(spans@) == propagate_spec(m0, span@));
    let record = ToolSpanRecord::from_builder(&span);
    let sample = ToolSpanSample::from_record(&record);
    ProjectorEvent::SpanClosed(Box::new(record), sample)
}

/// Closes the open span `id`, if open.
fn close_one(spans: &mut Vec<SpanBuilder>, id: &str) -> (r: Vec<ProjectorEvent>)
    requires
        all_wf(old(spans)@),
    ensures
        all_wf(final(spans)@),
        (models(final(spans)@), outs(r@)) == close_one_spec(models(old(spans)@), id@),
        outs_wf(r@),
{
    match find_span_exec(spans, id) {
        Some(k) => {
            proof {
                lemma_find_span(models(spans@), id@);
            }
            let span = detach_chain(spans, k);
            let out = close_span(spans, span);
            let v = vec![out];
            assert(outs(v@) =~= seq![v@[0]@]);
            v
        },
        None => {
            let v: Vec<ProjectorEvent> = Vec::new();
            assert(outs(v@) =~= Seq::empty());
            v
        },
    }
}

fn call_span_id(spans: &Vec<SpanBuilder>, e: &Event) -> (r: String)
    ensures
        r@ == call_id_spec(models(spans@), *e),
{
    match &e.tool_call_id {
        Some(c) => c.clone(),
        None => match &e.tool {
            Some(t) => match find_tool_exec(spans, t.as_str(), ToolMatch::WithoutCall) {
                Some(k) => {
                    proof {
                        lemma_find_tool(models(spans@), t@, ToolMatch::WithoutCall);
                    }
                    spans[k].span_id.clone()
                },
                None => synthetic_span_id(e),
            },
            None => synthetic_span_id(e),
        },
    }
}

fn hook_span_id(spans: &Vec<SpanBuilder>, e: &Event, tool: &Option<String>) -> (r: String)
    ensures
        r@ == hook_id_spec(models(spans@), *e, opt_view(*tool)),
{
    match &e.tool_call_id {
        Some(c) => c.clone(),
        None => match tool {
            Some(t) => match find_tool_exec(spans, t.as_str(), ToolMatch::Any) {
                Some(k) => {
                    proof {
                        lemma_find_tool(models(spans@), t@, ToolMatch::Any);
                    }
                    spans[k].span_id.clone()
                },
                None => synthetic_span_id(e),
            },
            None => synthetic_span_id(e),
        },
    }
}

fn matched_span_id(spans: &Vec<SpanBuilder>, e: &Event) -> (r: Option<String>)
    ensures
        opt_view(r) == match_id_spec(models(spans@), *e),
{
    if let Some(c) = &e.tool_call_id {
        if find_span_exec(spans, c.as_str()).is_some() {
            return Some(c.clone());
        }
    }
    match &e.tool {
        Some(t) => match find_tool_exec(spans, t.as_str(), ToolMatch::WithCall) {
            Some(k) => {
                proof {
                    lemma_find_tool(models(spans@), t@, ToolMatch::WithCall);
                }
                Some(spans[k].span_id.clone())
            },
            None => None,
        },
        None => None,
    }
}

/// Applies a tool call to a session's open spans.
pub fn apply_tool_call(spans: &mut Vec<SpanBuilder>, e: &Event)
    requires
        all_wf(old(spans)@),
        spans_ok(models(old(spans)@), e.session_id@),
    ensures
        all_wf(final(spans)@),
        spans_ok(models(final(spans)@), e.session_id@),
        models(final(spans)@) == step_call(models(old(spans)@), *e),
{
    let ghost m0 = models(spans@);
    let tool = copy_opt_string(&e.tool);
    let id = call_span_id(spans, e);
    let hier = open_parent(spans, &id);
    let init = new_builder(e, &id, copy_opt_string(&tool), hier);
    proof {
        lemma_open_keeps_ok(m0, e.session_id@, id@, init@);
    }
    let k = open_span(spans, &id, init);
    let ghost m1 = models(spans@);
    proof {
        lemma_update_keeps_ok(m1, e.session_id@, k as int, update_call_spec(m1[k as int], *e, opt_view(tool)));
    }
    update_call_at(spans, k, e, tool);
}

/// Applies a tool result to a session's open spans.
pub fn apply_tool_result(spans: &mut Vec<SpanBuilder>, e: &Event) -> (r: Vec<ProjectorEvent>)
    requires
        all_wf(old(spans)@),
        spans_ok(models(old(spans)@), e.session_id@),
    ensures
        all_wf(final(spans)@),
        spans_ok(models(final(spans)@), e.session_id@),
        (models(final(spans)@), outs(r@)) == step_result(models(old(spans)@), *e),
        outs_wf(r@),
{
    let ghost m0 = models(spans@);
    match matched_span_id(spans, e) {
        Some(id) => {
            proof {
                lemma_find_span(m0, id@);
                if opt_view(e.tool_call_id) is Some && find_span(m0, opt_view(e.tool_call_id)->0) is Some {
                } else {
                    lemma_find_tool(m0, opt_view(e.tool)->0, ToolMatch::WithCall);
                    let t = find_tool(m0, opt_view(e.tool)->0, ToolMatch::WithCall)->0;
                    lemma_find_unique(m0, e.session_id@, t);
                }
            }
            let k = match find_span_exec(spans, id.as_str()) {
                Some(k) => k,
                None => {
                    assert(false);
                    0
                },
            };
            proof {
                lemma_find_span(m0, id@);
                lemma_close_updated_keeps_ok(m0, e.session_id@, k as int, update_result_spec(m0[k as int], *e));
            }
            update_result_at(spans, k, e);
            close_one(spans, id.as_str())
        },
        None => {
            let v: Vec<ProjectorEvent> = Vec::new();
            assert(outs(v@) =~= Seq::empty());
            v
        },
    }
}

/// Applies a hook to a session's open spans.
pub fn apply_hook(spans: &mut Vec<SpanBuilder>, e: &Event) -> (r: Vec<ProjectorEvent>)
    requires
        all_wf(old(spans)@),
        spans_ok(models(old(spans)@), e.session_id@),
    ensures
        all_wf(final(spans)@),
        spans_ok(models(final(spans)@), e.session_id@),
        (models(final(spans)@), outs(r@)) == step_hook(models(old(spans)@), *e),
        outs_wf(r@),
{
    let ghost m0 = models(spans@);
    let kind = match hook_kind(&e.payload) {
        Some(k) => k,
        None => {
            let v: Vec<ProjectorEvent> = Vec::new();
            assert(outs(v@) =~= Seq::empty());
            return v;
        },
    };
    let tool = hook_tool(&e.payload);
    let id = hook_span_id(spans, e, &tool);
    let hier = open_parent(spans, &id);
    let init = new_builder(e, &id, copy_opt_string(&tool), hier);
    proof {
        lemma_open_keeps_ok(m0, e.session_id@, id@, init@);
    }
    let k = open_span(spans, &id, init);
    let ghost m1 = models(spans@);
    let ghost upd = update_hook_spec(m1[k as int], *e, opt_view(tool), kind);
    update_hook_at(spans, k, e, tool, kind);
    if kind == HookKind::Post {
        proof {
            lemma_find_span(m1, id@);
            lemma_close_updated_keeps_ok(m1, e.session_id@, k as int, upd);
        }
        close_one(spans, id.as_str())
    } else {
        proof {
            lemma_update_keeps_ok(m1, e.session_id@, k as int, upd);
        }
        let v: Vec<ProjectorEvent> = Vec::new();
        assert(outs(v@) =~= Seq::empty());
        v
    }
}

/// Applies any event to a session's open spans.
pub fn apply_span_event(spans: &mut Vec<SpanBuilder>, e: &Event) -> (r: Vec<ProjectorEvent>)
    requires
        all_wf(old(spans)@),
        spans_ok(models(old(spans)@), e.session_id@),
    ensures
        all_wf(final(spans)@),
        spans_ok(models(final(spans)@), e.session_id@),
        (models(final(spans)@), outs(r@)) == step_span(models(old(spans)@), *e),
        outs_wf(r@),
{
    match e.kind {
        EventKind::ToolCall => {
            apply_tool_call(spans, e);
            let v: Vec<ProjectorEvent> = Vec::new();
            assert(outs(v@) =~= Seq::empty());
            v
        },
        EventKind::ToolResult => apply_tool_result(spans, e),
        EventKind::Hook => apply_hook(spans, e),
        _ => {
            let v: Vec<ProjectorEvent> = Vec::new();
            assert(outs(v@) =~= Seq::empty());
            v
        },
    }
}


/// Closes every open span, most recent first, and leaves none open.
pub fn flush_spans(spans: &mut Vec<SpanBuilder>) -> (r: Vec<ProjectorEvent>)
    requires
        all_wf(old(spans)@),
    ensures
        final(spans)@.len() == 0,
        outs(r@) == flush_spec(models(old(spans)@)),
        outs_wf(r@),
{
    let ghost m0 = models(spans@);
    let mut taken: Vec<SpanBuilder> = Vec::new();
    core::mem::swap(&mut taken, spans);
    let mut out: Vec<ProjectorEvent> = Vec::new();
    while taken.len() > 0
        invariant
            all_wf(taken@),
            spans@.len() == 0,
            taken.len() <= m0.len(),
            models(taken@) == m0.subrange(0, taken.len() as int),
            out.len() + taken.len() == m0.len(),
            outs_wf(out@),
            outs(out@) == flush_spec(m0).subrange(0, out.len() as int),
        decreases taken.len(),
    {
        let ghost before = taken@;
        let mut span = match taken.pop() {
            Some(s) => s,
            None => {
                assert(false);
                SpanBuilder::default()
            },
        };
        assert(before[before.len() - 1] == span);
        assert(models(taken@) =~= m0.subrange(0, taken.len() as int));
        let ghost orig = span@;
        assert(models(before)[before.len() - 1] == orig);
        assert(orig == m0[taken.len() as int]);
        seed_subtree(&mut span);
        let record = ToolSpanRecord::from_builder(&span);
        let sample = ToolSpanSample::from_record(&record);
        let ghost prev = out@;
        out.push(ProjectorEvent::SpanClosed(Box::new(record), sample));
        proof {
            assert(outs(out@) =~= outs(prev).push(closed_out(seed_spec(m0[m0.len() - 1 - prev.len()]))));
            assert(flush_spec(m0).subrange(0, out.len() as int) =~= flush_spec(m0).subrange(0, prev.len() as int).push(
                flush_spec(m0)[prev.len() as int],
            ));
        }
    }
    assert(flush_spec(m0).subrange(0, out.len() as int) =~= flush_spec(m0));
    out
}

/// Whether a span started more than `ttl` before `now`.
fn is_expired(span: &SpanBuilder, now: u64, ttl: u64) -> (r: bool)
    ensures
        r == expired_spec(span@, now, ttl),
{
    match span_start(span) {
        Some(st) => now.saturating_sub(st) > ttl,
        None => false,
    }
}

fn expired_span_ids(spans: &Vec<SpanBuilder>, now: u64, ttl: u64) -> (r: Vec<String>)
    ensures
        views(r@) == expired_ids(models(spans@), now, ttl),
{
    let ghost m = models(spans@);
    let mut out: Vec<String> = Vec::new();
    let mut i: usize = 0;
    assert(views(out@) =~= expired_ids(m.subrange(0, 0), now, ttl));
    while i < spans.len()
        invariant
            i <= spans.len(),
            m == models(spans@),
            views(out@) == expired_ids(m.subrange(0, i as int), now, ttl),
        decreases spans.len() - i,
    {
        let ghost pre = m.subrange(0, i + 1);
        assert(pre.drop_last() =~= m.subrange(0, i as int));
        assert(pre.last() == spans@[i as int]@);
        if is_expired(&spans[i], now, ttl) {
            let ghost prev = out@;
            out.push(copy_string(&spans[i].span_id));
            assert(views(out@) =~= views(prev) + seq![spans@[i as int]@.span_id]);
        } else {
            assert(views(out@) =~= views(out@) + Seq::<Seq<char>>::empty());
        }
        i = i + 1;
    }
    assert(m.subrange(0, spans.len() as int) =~= m);
    out
}

proof fn lemma_close_ids_snoc(spans: Seq<SpanModel>, ids: Seq<Seq<char>>, i: int)
    requires
        0 <= i < ids.len(),
    ensures
        close_ids_spec(spans, ids.subrange(0, i + 1)) == ({
            let (a, o) = close_ids_spec(spans, ids.subrange(0, i));
            let (b, o2) = close_one_spec(a, ids[i]);
            (b, o + o2)
        }),
    decreases i,
{
    let pre1 = ids.subrange(0, i + 1);
    let pre0 = ids.subrange(0, i);
    let (a, o1) = close_one_spec(spans, ids[0]);
    assert(pre1[0] == ids[0]);
    if i == 0 {
        assert(pre1.drop_first() =~= Seq::<Seq<char>>::empty());
        assert(pre0 =~= Seq::<Seq<char>>::empty());
        assert(close_ids_spec(a, pre1.drop_first()) == (a, Seq::<OutModel>::empty()));
        assert(close_ids_spec(spans, pre0) == (spans, Seq::<OutModel>::empty()));
        assert(o1 + Seq::<OutModel>::empty() =~= o1);
        assert(Seq::<OutModel>::empty() + o1 =~= o1);
    } else {
        lemma_close_ids_snoc(a, ids.drop_first(), i - 1);
        assert(pre1.drop_first() =~= ids.drop_first().subrange(0, i));
        assert(pre0.drop_first() =~= ids.drop_first().subrange(0, i - 1));
        assert(pre0[0] == ids[0]);
        assert(ids.drop_first()[i - 1] == ids[i]);
        let (c, o3) = close_ids_spec(a, ids.drop_first().subrange(0, i - 1));
        let (d, o4) = close_one_spec(c, ids[i]);
        assert(close_ids_spec(spans, pre0) == (c, o1 + o3));
        assert(close_ids_spec(spans, pre1) == (d, o1 + (o3 + o4)));
        assert(o1 + (o3 + o4) =~= (o1 + o3) + o4);
    }
}

/// Closes the spans that started more than `ttl` before `now`.
pub fn expire_spans(spans: &mut Vec<SpanBuilder>, now: u64, ttl: u64, sid: Ghost<Seq<char>>) -> (r: Vec<ProjectorEvent>)
    requires
        all_wf(old(spans)@),
        spans_ok(models(old(spans)@), sid@),
    ensures
        all_wf(final(spans)@),
        spans_ok(models(final(spans)@), sid@),
        (models(final(spans)@), outs(r@)) == expire_spec(models(old(spans)@), now, ttl),
        outs_wf(r@),
{
    let ghost m0 = models(spans@);
    let ids = expired_span_ids(spans, now, ttl);
    let ghost vids = views(ids@);
    let mut out: Vec<ProjectorEvent> = Vec::new();
    let mut i: usize = 0;
    assert(vids.subrange(0, 0) =~= Seq::<Seq<char>>::empty());
    assert(outs(out@) =~= Seq::<OutModel>::empty());
    while i < ids.len()
        invariant
            i <= ids.len(),
            vids == views(ids@),
            all_wf(spans@),
            outs_wf(out@),
            spans_ok(models(spans@), sid@),
            (models(spans@), outs(out@)) == close_ids_spec(m0, vids.subrange(0, i as int)),
        decreases ids.len() - i,
    {
        proof {
            lemma_close_ids_snoc(m0, vids, i as int);
            lemma_close_one_keeps_ok(models(spans@), sid@, vids[i as int]);
        }
        let ghost prev = out@;
        let mut more = close_one(spans, ids[i].as_str());
        out.append(&mut more);
        assert(outs(out@) =~= outs(prev) + close_one_spec(
            close_ids_spec(m0, vids.subrange(0, i as int)).0,
            vids[i as int],
        ).1);
        i = i + 1;
    }
    assert(vids.subrange(0, ids.len() as int) =~= vids);
    out
}


/// What a tool result's closed record must show: the token and cost figures the result
/// carries, a `done` status, and the result's time as its end.
pub open spec fn result_record_ok(o: OutModel, e: Event) -> bool {
    match o {
        OutModel::SpanClosed(r, _) => {
            &&& (e.tokens_in is Some ==> r.tokens_in == e.tokens_in)
            &&& (e.tokens_out is Some ==> r.tokens_out == e.tokens_out)
            &&& (e.reasoning_tokens is Some ==> r.reasoning_tokens == e.reasoning_tokens)
            &&& (e.cost_usd_e6 is Some ==> r.cost_usd_e6 == e.cost_usd_e6)
            &&& r.status == "done"@
            &&& r.ended_at_ms == Some(e.ts_ms)
        },
        _ => false,
    }
}

/// A tool result closes at most one span, exactly one when it names the call id of an open
/// span, and the record it emits carries the usage the result reports (tokens in, out and reasoning, cost), is done, and ends at the result.
pub proof fn lemma_result_carries_usage(spans: Seq<SpanModel>, e: Event)
    requires
        e.kind == EventKind::ToolResult,
    ensures
        step_span(spans, e).1.len() <= 1,
        (e.tool_call_id is Some && exists|k: int| 0 <= k < spans.len() && (#[trigger] spans[k]).span_id
            == e.tool_call_id->Some_0@) ==> step_span(spans, e).1.len() == 1,
        forall|i: int| 0 <= i < step_span(spans, e).1.len() ==> result_record_ok(#[trigger] step_span(spans, e).1[i], e),
{
    if let Some(c) = opt_view(e.tool_call_id) {
        lemma_find_span(spans, c);
    }
    if let Some(id) = match_id_spec(spans, e) {
        lemma_find_span(spans, id);
        if find_span(spans, id) is None {
            match opt_view(e.tool_call_id) {
                Some(c) => {
                    if find_span(spans, c) is Some {
                        assert(false);
                    }
                },
                None => {},
            }
            let t = opt_view(e.tool)->0;
            lemma_find_tool(spans, t, ToolMatch::WithCall);
            let k2 = find_tool(spans, t, ToolMatch::WithCall)->0;
            assert(spans[k2].span_id == id);
            assert(false);
        }
        let k = find_span(spans, id)->0;
        let x = update_result_spec(spans[k], e);
        let upd = spans.update(k, x);
        assert forall|i: int| 0 <= i < upd.len() implies (#[trigger] upd[i]).span_id == spans[i].span_id by {}
        lemma_find_same_ids(upd, spans, id);
        assert(upd[k] == x);
        let out = close_one_spec(upd, id).1;
        assert(out == seq![closed_out(seed_spec(x))]);
        assert(result_record_ok(out[0], e));
    }
}

} // verus!
