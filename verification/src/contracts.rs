//! Row and report shapes the store hands to its callers.

use vstd::prelude::*;
use crate::event::{SessionRecord, SessionStatus};

verus! {

/// Per-workspace activity dashboard stats.
#[derive(Debug, Clone)]
pub struct InsightsStats {
    pub total_sessions: u64,
    pub running_sessions: u64,
    pub total_events: u64,
    /// (day label e.g. "Mon", count) for the last 7 days, oldest first.
    pub sessions_by_day: Vec<(String, u64)>,
    /// Most recent sessions (at most 3), each with its event count.
    pub recent: Vec<(SessionRecord, u64)>,
    /// Top tools by event count (at most 5).
    pub top_tools: Vec<(String, u64)>,
    pub total_cost_usd_e6: i64,
    pub sessions_with_cost: u64,
}

/// Sync daemon / outbox status.
#[derive(Debug, Clone)]
pub struct SyncStatusSnapshot {
    pub pending_outbox: u64,
    pub last_success_ms: Option<u64>,
    pub last_error: Option<String>,
    pub consecutive_failures: u32,
}

/// Aggregate stats across sessions and events of a workspace.
#[derive(Debug, Clone)]
pub struct SummaryStats {
    pub session_count: u64,
    pub total_cost_usd_e6: i64,
    pub by_agent: Vec<(String, u64)>,
    pub by_model: Vec<(String, u64)>,
    pub top_tools: Vec<(String, u64)>,
}

/// Skill vs Cursor rule.
#[derive(Clone, Copy, Debug, PartialEq, Eq, PartialOrd, Ord, Structural)]
pub enum GuidanceKind {
    Skill,
    Rule,
}

/// Result of pruning old sessions.
#[derive(Debug, Clone, Copy, Default, PartialEq, Eq, Structural)]
pub struct PruneStats {
    pub sessions_removed: u64,
    pub events_removed: u64,
}

/// Post-stop test/lint snapshot of a session.
#[derive(Debug, Clone, PartialEq, Eq)]
pub struct SessionOutcomeRow {
    pub session_id: String,
    pub test_passed: Option<i64>,
    pub test_failed: Option<i64>,
    pub test_skipped: Option<i64>,
    pub build_ok: Option<bool>,
    pub lint_errors: Option<i64>,
    pub revert_lines_14d: Option<i64>,
    pub pr_open: Option<i64>,
    pub ci_ok: Option<bool>,
    pub measured_at_ms: u64,
    pub measure_error: Option<String>,
}

/// A tool span as shipped to the sync service.
#[derive(Debug, Clone)]
pub struct ToolSpanSyncRow {
    pub span_id: String,
    pub session_id: String,
    pub tool: Option<String>,
    pub tool_call_id: Option<String>,
    pub status: String,
    pub started_at_ms: Option<u64>,
    pub ended_at_ms: Option<u64>,
    pub lead_time_ms: Option<u64>,
    pub tokens_in: Option<u32>,
    pub tokens_out: Option<u32>,
    pub reasoning_tokens: Option<u32>,
    pub cost_usd_e6: Option<i64>,
    pub paths: Vec<String>,
}

/// How a store connection is opened.
#[derive(Debug, Clone, Copy, PartialEq, Eq, Structural)]
pub enum StoreOpenMode {
    ReadWrite,
    ReadOnlyQuery,
}

/// A session's status and end time.
#[derive(Debug, Clone)]
pub struct SessionStatusRow {
    pub id: String,
    pub status: SessionStatus,
    pub ended_at_ms: Option<u64>,
}

/// Filter for session listings.
#[derive(Debug, Clone)]
pub struct SessionFilter {
    pub agent_prefix: Option<String>,
    pub status: Option<SessionStatus>,
    pub since_ms: Option<u64>,
}

/// One page of a session listing.
#[derive(Debug, Clone)]
pub struct SessionPage {
    pub rows: Vec<SessionRecord>,
    pub total: usize,
    pub next_offset: Option<usize>,
}

} // verus!
