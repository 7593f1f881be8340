//! Agent events as the store ingests them, and the JSON payload they carry.

use vstd::prelude::*;
use crate::text::str_eq;

verus! {

/// What an event records.
#[derive(Clone, Copy, Debug, PartialEq, Eq, Structural)]
pub enum EventKind {
    ToolCall,
    ToolResult,
    Message,
    Error,
    Cost,
    Hook,
    Lifecycle,
}

/// Where an event was captured.
#[derive(Clone, Copy, Debug, PartialEq, Eq, Structural)]
pub enum EventSource {
    Tail,
    Hook,
    Proxy,
}

/// Lifecycle state of a session.
#[derive(Clone, Copy, Debug, PartialEq, Eq, Structural)]
pub enum SessionStatus {
    Running,
    Waiting,
    Idle,
    Done,
}

/// A JSON value. Numbers keep their textual form; object entries keep their order.
#[derive(Debug)]
pub enum Json {
    Null,
    Bool(bool),
    Number(String),
    Str(String),
    Array(Vec<Json>),
    Object(Vec<(String, Json)>),
}

/// One agent session as the store records it.
#[derive(Debug, Clone)]
pub struct SessionRecord {
    pub id: String,
    pub agent: String,
    pub model: Option<String>,
    pub workspace: String,
    pub started_at_ms: u64,
    pub ended_at_ms: Option<u64>,
    pub status: SessionStatus,
    pub trace_path: String,
    pub start_commit: Option<String>,
    pub end_commit: Option<String>,
    pub branch: Option<String>,
    pub dirty_start: Option<bool>,
    pub dirty_end: Option<bool>,
    pub repo_binding_source: Option<String>,
    pub prompt_fingerprint: Option<String>,
    pub parent_session_id: Option<String>,
    pub agent_version: Option<String>,
    pub os: Option<String>,
    pub arch: Option<String>,
    pub repo_file_count: Option<u32>,
    pub repo_total_loc: Option<u64>,
}

/// One event of an agent session.
#[derive(Debug)]
pub struct Event {
    pub session_id: String,
    pub seq: u64,
    pub ts_ms: u64,
    pub ts_exact: bool,
    pub kind: EventKind,
    pub source: EventSource,
    pub tool: Option<String>,
    pub tool_call_id: Option<String>,
    pub tokens_in: Option<u32>,
    pub tokens_out: Option<u32>,
    pub reasoning_tokens: Option<u32>,
    pub cost_usd_e6: Option<i64>,
    pub stop_reason: Option<String>,
    pub latency_ms: Option<u32>,
    pub ttft_ms: Option<u32>,
    pub retry_count: Option<u16>,
    pub context_used_tokens: Option<u32>,
    pub context_max_tokens: Option<u32>,
    pub cache_creation_tokens: Option<u32>,
    pub cache_read_tokens: Option<u32>,
    pub system_prompt_tokens: Option<u32>,
    pub payload: Json,
}

/// The characters of an optional string.
pub open spec fn opt_view(s: Option<String>) -> Option<Seq<char>> {
    match s {
        Some(v) => Some(v@),
        None => None,
    }
}

/// Whether entry `i` is the first entry of `entries` whose key is `key`.
pub open spec fn is_first_key(entries: Seq<(String, Json)>, key: Seq<char>, i: int) -> bool {
    &&& 0 <= i < entries.len()
    &&& entries[i].0@ == key
    &&& forall|k: int| 0 <= k < i ==> (#[trigger] entries[k]).0@ != key
}

/// The value stored under `key` in an object (its first entry with that key).
pub open spec fn json_get(j: Json, key: Seq<char>) -> Option<Json> {
    match j {
        Json::Object(entries) => {
            if exists|i: int| is_first_key(entries@, key, i) {
                Some(entries@[choose|i: int| is_first_key(entries@, key, i)].1)
            } else {
                None
            }
        },
        _ => None,
    }
}

/// The characters of `j` when it is a JSON string.
pub open spec fn json_str(j: Option<Json>) -> Option<Seq<char>> {
    match j {
        Some(Json::Str(s)) => Some(s@),
        _ => None,
    }
}

/// Size measure of a JSON value for termination of the traversal.
pub open spec fn size(j: Json) -> nat
    decreases j,
{
    match j {
        Json::Array(items) => 1 + items_size(items@),
        Json::Object(entries) => 1 + entries_size(entries@),
        _ => 1,
    }
}

pub open spec fn items_size(items: Seq<Json>) -> nat
    decreases items,
{
    if items.len() == 0 {
        0
    } else {
        items_size(items.drop_last()) + size(items.last())
    }
}

pub open spec fn entries_size(entries: Seq<(String, Json)>) -> nat
    decreases entries,
{
    if entries.len() == 0 {
        0
    } else {
        entries_size(entries.drop_last()) + size(entries.last().1)
    }
}

pub proof fn lemma_items_size(items: Seq<Json>, i: int)
    requires
        0 <= i < items.len(),
    ensures
        size(items[i]) <= items_size(items),
    decreases items.len(),
{
    if i < items.len() - 1 {
        lemma_items_size(items.drop_last(), i);
    }
}

pub proof fn lemma_entries_size(entries: Seq<(String, Json)>, i: int)
    requires
        0 <= i < entries.len(),
    ensures
        size(entries[i].1) <= entries_size(entries),
    decreases entries.len(),
{
    if i < entries.len() - 1 {
        lemma_entries_size(entries.drop_last(), i);
    }
}

/// The value stored under `key` in an object, if any.
pub fn get<'a>(j: &'a Json, key: &str) -> (r: Option<&'a Json>)
    ensures
        match r {
            Some(v) => json_get(*j, key@) == Some(*v),
            None => json_get(*j, key@) is None,
        },
{
    match j {
        Json::Object(entries) => {
            let mut i: usize = 0;
            while i < entries.len()
                invariant
                    i <= entries.len(),
                    *j == Json::Object(*entries),
                    forall|k: int| 0 <= k < i ==> (#[trigger] entries@[k]).0@ != key@,
                decreases entries.len() - i,
            {
                if str_eq(entries[i].0.as_str(), key) {
                    proof {
                        assert(is_first_key(entries@, key@, i as int));
                        let c = choose|c: int| is_first_key(entries@, key@, c);
                        if c < i {
                            assert(entries@[c].0@ != key@);
                        }
                        if c > i {
                            assert(entries@[i as int].0@ != key@);
                        }
                        assert(c == i);
                        assert(json_get(*j, key@) == Some(entries@[i as int].1));
                        assert(entries@[i as int].1 == entries[i as int].1);
                    }
                    return Some(&entries[i].1);
                }
                i = i + 1;
            }
            proof {
                if exists|c: int| is_first_key(entries@, key@, c) {
                    let c = choose|c: int| is_first_key(entries@, key@, c);
                    assert(entries@[c].0@ != key@);
                }
            }
            None
        },
        _ => None,
    }
}

/// The string stored under `key`, if the entry exists and is a string.
pub fn get_str<'a>(j: &'a Json, key: &str) -> (r: Option<&'a String>)
    ensures
        opt_view(match r { Some(s) => Some(*s), None => None }) == json_str(json_get(*j, key@)),
{
    match get(j, key) {
        Some(Json::Str(s)) => Some(s),
        _ => None,
    }
}

/// The name an event kind is stored under (its variant name).
pub open spec fn kind_name_spec(v: EventKind) -> Seq<char> {
    match v {
        EventKind::ToolCall => seq!['T', 'o', 'o', 'l', 'C', 'a', 'l', 'l'],
        EventKind::ToolResult => seq!['T', 'o', 'o', 'l', 'R', 'e', 's', 'u', 'l', 't'],
        EventKind::Message => seq!['M', 'e', 's', 's', 'a', 'g', 'e'],
        EventKind::Error => seq!['E', 'r', 'r', 'o', 'r'],
        EventKind::Cost => seq!['C', 'o', 's', 't'],
        EventKind::Hook => seq!['H', 'o', 'o', 'k'],
        EventKind::Lifecycle => seq!['L', 'i', 'f', 'e', 'c', 'y', 'c', 'l', 'e'],
    }
}

/// The event kind stored under a name, if the name is one.
pub open spec fn kind_of_name(s: Seq<char>) -> Option<EventKind> {
    if s == seq!['T', 'o', 'o', 'l', 'C', 'a', 'l', 'l'] {
        Some(EventKind::ToolCall)
    }     else if s == seq!['T', 'o', 'o', 'l', 'R', 'e', 's', 'u', 'l', 't'] {
        Some(EventKind::ToolResult)
    }     else if s == seq!['M', 'e', 's', 's', 'a', 'g', 'e'] {
        Some(EventKind::Message)
    }     else if s == seq!['E', 'r', 'r', 'o', 'r'] {
        Some(EventKind::Error)
    }     else if s == seq!['C', 'o', 's', 't'] {
        Some(EventKind::Cost)
    }     else if s == seq!['H', 'o', 'o', 'k'] {
        Some(EventKind::Hook)
    }     else if s == seq!['L', 'i', 'f', 'e', 'c', 'y', 'c', 'l', 'e'] {
        Some(EventKind::Lifecycle)
    } else {
        None
    }
}

/// The name an event source is stored under.
pub open spec fn source_name_spec(v: EventSource) -> Seq<char> {
    match v {
        EventSource::Tail => seq!['T', 'a', 'i', 'l'],
        EventSource::Hook => seq!['H', 'o', 'o', 'k'],
        EventSource::Proxy => seq!['P', 'r', 'o', 'x', 'y'],
    }
}

/// The event source stored under a name, if the name is one.
pub open spec fn source_of_name(s: Seq<char>) -> Option<EventSource> {
    if s == seq!['T', 'a', 'i', 'l'] {
        Some(EventSource::Tail)
    }     else if s == seq!['H', 'o', 'o', 'k'] {
        Some(EventSource::Hook)
    }     else if s == seq!['P', 'r', 'o', 'x', 'y'] {
        Some(EventSource::Proxy)
    } else {
        None
    }
}

/// The name a session status is stored under.
pub open spec fn status_name_spec(v: SessionStatus) -> Seq<char> {
    match v {
        SessionStatus::Running => seq!['R', 'u', 'n', 'n', 'i', 'n', 'g'],
        SessionStatus::Waiting => seq!['W', 'a', 'i', 't', 'i', 'n', 'g'],
        SessionStatus::Idle => seq!['I', 'd', 'l', 'e'],
        SessionStatus::Done => seq!['D', 'o', 'n', 'e'],
    }
}

/// The session status stored under a name, if the name is one.
pub open spec fn status_of_name(s: Seq<char>) -> Option<SessionStatus> {
    if s == seq!['R', 'u', 'n', 'n', 'i', 'n', 'g'] {
        Some(SessionStatus::Running)
    }     else if s == seq!['W', 'a', 'i', 't', 'i', 'n', 'g'] {
        Some(SessionStatus::Waiting)
    }     else if s == seq!['I', 'd', 'l', 'e'] {
        Some(SessionStatus::Idle)
    }     else if s == seq!['D', 'o', 'n', 'e'] {
        Some(SessionStatus::Done)
    } else {
        None
    }
}

/// The name of an event kind.
pub fn kind_name(v: EventKind) -> (r: &'static str)
    ensures
        r@ == kind_name_spec(v),
{
    match v {
        EventKind::ToolCall => {
            proof {
                reveal_strlit("ToolCall");
            }
            assert("ToolCall"@ =~= seq!['T', 'o', 'o', 'l', 'C', 'a', 'l', 'l']);
            "ToolCall"
        },
        EventKind::ToolResult => {
            proof {
                reveal_strlit("ToolResult");
            }
            assert("ToolResult"@ =~= seq!['T', 'o', 'o', 'l', 'R', 'e', 's', 'u', 'l', 't']);
            "ToolResult"
        },
        EventKind::Message => {
            proof {
                reveal_strlit("Message");
            }
            assert("Message"@ =~= seq!['M', 'e', 's', 's', 'a', 'g', 'e']);
            "Message"
        },
        EventKind::Error => {
            proof {
                reveal_strlit("Error");
            }
            assert("Error"@ =~= seq!['E', 'r', 'r', 'o', 'r']);
            "Error"
        },
        EventKind::Cost => {
            proof {
                reveal_strlit("Cost");
            }
            assert("Cost"@ =~= seq!['C', 'o', 's', 't']);
            "Cost"
        },
        EventKind::Hook => {
            proof {
                reveal_strlit("Hook");
            }
            assert("Hook"@ =~= seq!['H', 'o', 'o', 'k']);
            "Hook"
        },
        EventKind::Lifecycle => {
            proof {
                reveal_strlit("Lifecycle");
            }
            assert("Lifecycle"@ =~= seq!['L', 'i', 'f', 'e', 'c', 'y', 'c', 'l', 'e']);
            "Lifecycle"
        },
    }
}

/// The event kind with this name.
pub fn kind_by_name(s: &str) -> (r: Option<EventKind>)
    ensures
        r == kind_of_name(s@),
{
    proof {
        reveal_strlit("ToolCall");
        assert("ToolCall"@ =~= seq!['T', 'o', 'o', 'l', 'C', 'a', 'l', 'l']);
        reveal_strlit("ToolResult");
        assert("ToolResult"@ =~= seq!['T', 'o', 'o', 'l', 'R', 'e', 's', 'u', 'l', 't']);
        reveal_strlit("Message");
        assert("Message"@ =~= seq!['M', 'e', 's', 's', 'a', 'g', 'e']);
        reveal_strlit("Error");
        assert("Error"@ =~= seq!['E', 'r', 'r', 'o', 'r']);
        reveal_strlit("Cost");
        assert("Cost"@ =~= seq!['C', 'o', 's', 't']);
        reveal_strlit("Hook");
        assert("Hook"@ =~= seq!['H', 'o', 'o', 'k']);
        reveal_strlit("Lifecycle");
        assert("Lifecycle"@ =~= seq!['L', 'i', 'f', 'e', 'c', 'y', 'c', 'l', 'e']);
    }
    if str_eq(s, "ToolCall") {
        Some(EventKind::ToolCall)
    }     else if str_eq(s, "ToolResult") {
        Some(EventKind::ToolResult)
    }     else if str_eq(s, "Message") {
        Some(EventKind::Message)
    }     else if str_eq(s, "Error") {
        Some(EventKind::Error)
    }     else if str_eq(s, "Cost") {
        Some(EventKind::Cost)
    }     else if str_eq(s, "Hook") {
        Some(EventKind::Hook)
    }     else if str_eq(s, "Lifecycle") {
        Some(EventKind::Lifecycle)
    } else {
        None
    }
}

/// The name of an event source.
pub fn source_name(v: EventSource) -> (r: &'static str)
    ensures
        r@ == source_name_spec(v),
{
    match v {
        EventSource::Tail => {
            proof {
                reveal_strlit("Tail");
            }
            assert("Tail"@ =~= seq!['T', 'a', 'i', 'l']);
            "Tail"
        },
        EventSource::Hook => {
            proof {
                reveal_strlit("Hook");
            }
            assert("Hook"@ =~= seq!['H', 'o', 'o', 'k']);
            "Hook"
        },
        EventSource::Proxy => {
            proof {
                reveal_strlit("Proxy");
            }
            assert("Proxy"@ =~= seq!['P', 'r', 'o', 'x', 'y']);
            "Proxy"
        },
    }
}

/// The event source with this name.
pub fn source_by_name(s: &str) -> (r: Option<EventSource>)
    ensures
        r == source_of_name(s@),
{
    proof {
        reveal_strlit("Tail");
        assert("Tail"@ =~= seq!['T', 'a', 'i', 'l']);
        reveal_strlit("Hook");
        assert("Hook"@ =~= seq!['H', 'o', 'o', 'k']);
        reveal_strlit("Proxy");
        assert("Proxy"@ =~= seq!['P', 'r', 'o', 'x', 'y']);
    }
    if str_eq(s, "Tail") {
        Some(EventSource::Tail)
    }     else if str_eq(s, "Hook") {
        Some(EventSource::Hook)
    }     else if str_eq(s, "Proxy") {
        Some(EventSource::Proxy)
    } else {
        None
    }
}

/// The name of a session status.
pub fn status_name(v: SessionStatus) -> (r: &'static str)
    ensures
        r@ == status_name_spec(v),
{
    match v {
        SessionStatus::Running => {
            proof {
                reveal_strlit("Running");
            }
            assert("Running"@ =~= seq!['R', 'u', 'n', 'n', 'i', 'n', 'g']);
            "Running"
        },
        SessionStatus::Waiting => {
            proof {
                reveal_strlit("Waiting");
            }
            assert("Waiting"@ =~= seq!['W', 'a', 'i', 't', 'i', 'n', 'g']);
            "Waiting"
        },
        SessionStatus::Idle => {
            proof {
                reveal_strlit("Idle");
            }
            assert("Idle"@ =~= seq!['I', 'd', 'l', 'e']);
            "Idle"
        },
        SessionStatus::Done => {
            proof {
                reveal_strlit("Done");
            }
            assert("Done"@ =~= seq!['D', 'o', 'n', 'e']);
            "Done"
        },
    }
}

/// The session status with this name.
pub fn status_by_name(s: &str) -> (r: Option<SessionStatus>)
    ensures
        r == status_of_name(s@),
{
    proof {
        reveal_strlit("Running");
        assert("Running"@ =~= seq!['R', 'u', 'n', 'n', 'i', 'n', 'g']);
        reveal_strlit("Waiting");
        assert("Waiting"@ =~= seq!['W', 'a', 'i', 't', 'i', 'n', 'g']);
        reveal_strlit("Idle");
        assert("Idle"@ =~= seq!['I', 'd', 'l', 'e']);
        reveal_strlit("Done");
        assert("Done"@ =~= seq!['D', 'o', 'n', 'e']);
    }
    if str_eq(s, "Running") {
        Some(SessionStatus::Running)
    }     else if str_eq(s, "Waiting") {
        Some(SessionStatus::Waiting)
    }     else if str_eq(s, "Idle") {
        Some(SessionStatus::Idle)
    }     else if str_eq(s, "Done") {
        Some(SessionStatus::Done)
    } else {
        None
    }
}

/// Reading a kind's name gives the kind back.
pub proof fn lemma_kind_name_roundtrip(k: EventKind)
    ensures
        kind_of_name(kind_name_spec(k)) == Some(k),
{
    reveal_with_fuel(kind_of_name, 1);
    match k {
        EventKind::ToolCall => {},
        EventKind::ToolResult => {
            assert(kind_name_spec(k)[4] != kind_name_spec(EventKind::ToolCall)[4]);
        },
        EventKind::Message => {
            assert(kind_name_spec(k)[0] != 'T');
        },
        EventKind::Error => {
            assert(kind_name_spec(k).len() != kind_name_spec(EventKind::ToolCall).len());
            assert(kind_name_spec(k)[0] != kind_name_spec(EventKind::Message)[0]);
        },
        EventKind::Cost => {
            assert(kind_name_spec(k).len() == 4);
        },
        EventKind::Hook => {
            assert(kind_name_spec(k)[0] != kind_name_spec(EventKind::Cost)[0]);
        },
        EventKind::Lifecycle => {
            assert(kind_name_spec(k)[0] != 'T');
            assert(kind_name_spec(k)[0] != 'M');
            assert(kind_name_spec(k)[0] != 'E');
        },
    }
}

/// Reading a source's name gives the source back.
pub proof fn lemma_source_name_roundtrip(v: EventSource)
    ensures
        source_of_name(source_name_spec(v)) == Some(v),
{
    match v {
        EventSource::Tail => {},
        EventSource::Hook => {
            assert(source_name_spec(v)[0] != 'T');
        },
        EventSource::Proxy => {
            assert(source_name_spec(v).len() == 5);
        },
    }
}

/// Reading a status's name gives the status back.
pub proof fn lemma_status_name_roundtrip(v: SessionStatus)
    ensures
        status_of_name(status_name_spec(v)) == Some(v),
{
    match v {
        SessionStatus::Running => {},
        SessionStatus::Waiting => {
            assert(status_name_spec(v)[0] != 'R');
        },
        SessionStatus::Idle => {
            assert(status_name_spec(v).len() == 4);
        },
        SessionStatus::Done => {
            assert(status_name_spec(v)[0] != 'I');
        },
    }
}

} // verus!
