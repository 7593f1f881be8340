//! Derive touched files, used skills and used rules from event payloads.

use vstd::prelude::*;
use crate::event::{Json, json_get, json_str, size, lemma_items_size, lemma_entries_size};
use crate::text::{insert_sorted, str_eq, strictly_sorted, substring, trim, trim_spec, views};

verus! {

#[verifier::external_type_specification]
#[verifier::external_body]
pub struct ExSerdeValue(serde_json::Value);

/// What `serde_json::from_str::<serde_json::Value>` yields for `text`, as a library value
/// (`None` when the text is not JSON).
pub uninterp spec fn parse_json(text: Seq<char>) -> Option<Json>;

/// What `serde_json` prints for `j` (compact form, as `Value::to_string` gives it).
pub uninterp spec fn json_text(j: Json) -> Seq<char>;

/// The capture groups of the successive matches of
/// `(?i)\.cursor/skills/([A-Za-z0-9][A-Za-z0-9_\-]{0,63})` in `text`.
pub uninterp spec fn skill_path_captures(text: Seq<char>) -> Seq<Seq<char>>;

/// The capture groups of the successive matches of
/// `(?i)\.cursor/rules/([A-Za-z0-9][A-Za-z0-9_\-]{0,63}\.mdc)` in `text`.
pub uninterp spec fn rule_path_captures(text: Seq<char>) -> Seq<Seq<char>>;

/// Converts a `serde_json::Value` into a library value node for node (numbers by their text).
#[verifier::external_body]
fn json_from_serde(v: &serde_json::Value) -> Json {
    match v {
        serde_json::Value::Null => Json::Null,
        serde_json::Value::Bool(b) => Json::Bool(*b),
        serde_json::Value::Number(n) => Json::Number(n.to_string()),
        serde_json::Value::String(s) => Json::Str(s.clone()),
        serde_json::Value::Array(a) => Json::Array(a.iter().map(json_from_serde).collect()),
        serde_json::Value::Object(m) => Json::Object(
            m.iter().map(|(k, x)| (k.clone(), json_from_serde(x))).collect(),
        ),
    }
}

/// Converts a library value into a `serde_json::Value` node for node.
#[verifier::external_body]
fn json_to_serde(j: &Json) -> serde_json::Value {
    match j {
        Json::Null => serde_json::Value::Null,
        Json::Bool(b) => serde_json::Value::Bool(*b),
        Json::Number(n) => serde_json::from_str(n).unwrap_or(serde_json::Value::Null),
        Json::Str(s) => serde_json::Value::String(s.clone()),
        Json::Array(a) => serde_json::Value::Array(a.iter().map(json_to_serde).collect()),
        Json::Object(e) => serde_json::Value::Object(
            e.iter().map(|(k, x)| (k.clone(), json_to_serde(x))).collect(),
        ),
    }
}

/// Calls `serde_json::from_str::<serde_json::Value>`; the result is named `parse_json`.
#[verifier::external_body]
pub fn parse_json_text(text: &str) -> (r: Option<Json>)
    ensures
        r == parse_json(text@),
{
    match serde_json::from_str::<serde_json::Value>(text) {
        Ok(v) => Some(json_from_serde(&v)),
        Err(_) => None,
    }
}

/// Calls `serde_json::Value::to_string` (compact JSON text); the result is named `json_text`.
#[verifier::external_body]
pub fn payload_text(j: &Json) -> (r: String)
    ensures
        r@ == json_text(*j),
{
    json_to_serde(j).to_string()
}

/// Calls `regex::Regex::captures_iter` with the skill path pattern and collects group 1
/// of every match; the result is named `skill_path_captures`.
#[verifier::external_body]
fn skill_captures(text: &str) -> (r: Vec<String>)
    ensures
        views(r@) == skill_path_captures(text@),
{
    let re = regex::Regex::new(r#"(?i)\.cursor/skills/([A-Za-z0-9][A-Za-z0-9_\-]{0,63})"#)
        .expect("skill path regex");
    let mut out = Vec::new();
    for caps in re.captures_iter(text) {
        if let Some(m) = caps.get(1) {
            out.push(m.as_str().to_string());
        }
    }
    out
}

/// Calls `regex::Regex::captures_iter` with the rule path pattern and collects group 1
/// of every match; the result is named `rule_path_captures`.
#[verifier::external_body]
fn rule_captures(text: &str) -> (r: Vec<String>)
    ensures
        views(r@) == rule_path_captures(text@),
{
    let re = regex::Regex::new(r#"(?i)\.cursor/rules/([A-Za-z0-9][A-Za-z0-9_\-]{0,63}\.mdc)"#)
        .expect("rule path regex");
    let mut out = Vec::new();
    for caps in re.captures_iter(text) {
        if let Some(m) = caps.get(1) {
            out.push(m.as_str().to_string());
        }
    }
    out
}

/// ASCII letter or digit.
pub open spec fn is_ascii_alnum(c: char) -> bool {
    ('a' <= c && c <= 'z') || ('A' <= c && c <= 'Z') || ('0' <= c && c <= '9')
}

/// The strict slug shape `^[A-Za-z0-9][A-Za-z0-9_\-]{0,63}$`.
pub open spec fn slug_shape(s: Seq<char>) -> bool {
    &&& 1 <= s.len() <= 64
    &&& is_ascii_alnum(s[0])
    &&& forall|i: int| 1 <= i < s.len() ==> is_ascii_alnum(#[trigger] s[i]) || s[i] == '_' || s[i] == '-'
}

/// Calls `regex::Regex::is_match` with `^[A-Za-z0-9][A-Za-z0-9_\-]{0,63}$`: true exactly
/// when the whole text has the slug shape.
#[verifier::external_body]
fn slug_regex_matches(s: &str) -> (r: bool)
    ensures
        r == slug_shape(s@),
{
    let re = regex::Regex::new(r#"^[A-Za-z0-9][A-Za-z0-9_\-]{0,63}$"#).expect("slug regex");
    re.is_match(s)
}

/// True iff `slug` matches the strict skill/rule slug shape.
pub fn is_valid_slug(slug: &str) -> (r: bool)
    ensures
        r == slug_shape(slug@),
{
    slug_regex_matches(slug)
}

/// The keys under which a payload names a file.
pub open spec fn is_path_key(k: Seq<char>) -> bool {
    k == "path"@ || k == "file_path"@ || k == "target_file"@ || k == "file"@ || k
        == "relative_workspace_path"@
}

/// Whether a string of `len` characters is re-read as nested JSON: always at the top, and
/// inside nested JSON only for strings shorter than the text they were parsed from (every
/// string that a JSON parser finds in a text is shorter than the text).
pub open spec fn nested_ok(bound: Option<nat>, len: nat) -> bool {
    match bound {
        None => true,
        Some(b) => len < b,
    }
}

pub open spec fn bound_rank(bound: Option<nat>) -> nat {
    if bound is None { 1 } else { 0 }
}

pub open spec fn bound_val(bound: Option<nat>) -> nat {
    match bound {
        Some(b) => b,
        None => 0,
    }
}

/// File paths named anywhere in `j`: string values under a path key (non-empty), also
/// inside strings that themselves hold JSON.
pub open spec fn json_paths(j: Json, bound: Option<nat>) -> Set<Seq<char>>
    decreases bound_rank(bound), bound_val(bound), j,
{
    match j {
        Json::Str(s) => {
            if nested_ok(bound, s@.len()) {
                match parse_json(s@) {
                    Some(v) => json_paths(v, Some(s@.len())),
                    None => Set::empty(),
                }
            } else {
                Set::empty()
            }
        },
        Json::Array(items) => items_paths(items@, bound),
        Json::Object(entries) => entries_paths(entries@, bound),
        _ => Set::empty(),
    }
}

pub open spec fn items_paths(items: Seq<Json>, bound: Option<nat>) -> Set<Seq<char>>
    decreases bound_rank(bound), bound_val(bound), items,
{
    if items.len() == 0 {
        Set::empty()
    } else {
        items_paths(items.drop_last(), bound).union(json_paths(items.last(), bound))
    }
}

/// Paths contributed by one object entry.
pub open spec fn entry_own_path(k: Seq<char>, v: Json) -> Set<Seq<char>> {
    match v {
        Json::Str(s) => if is_path_key(k) && s@.len() > 0 {
            set![s@]
        } else {
            Set::empty()
        },
        _ => Set::empty(),
    }
}

pub open spec fn entries_paths(entries: Seq<(String, Json)>, bound: Option<nat>) -> Set<Seq<char>>
    decreases bound_rank(bound), bound_val(bound), entries,
{
    if entries.len() == 0 {
        Set::empty()
    } else {
        entries_paths(entries.drop_last(), bound).union(
            entry_own_path(entries.last().0@, entries.last().1),
        ).union(json_paths(entries.last().1, bound))
    }
}

fn is_path_key_str(k: &str) -> (r: bool)
    ensures
        r == is_path_key(k@),
{
    str_eq(k, "path") || str_eq(k, "file_path") || str_eq(k, "target_file") || str_eq(k, "file")
        || str_eq(k, "relative_workspace_path")
}

/// Adds the paths named in `j` to the sorted set `out`.
fn collect_paths(j: &Json, bound: Option<usize>, out: &mut Vec<String>)
    requires
        strictly_sorted(views(old(out)@)),
    ensures
        strictly_sorted(views(final(out)@)),
        views(final(out)@).to_set() == views(old(out)@).to_set().union(
            json_paths(*j, match bound { Some(b) => Some(b as nat), None => None }),
        ),
    decreases bound_rank(match bound { Some(b) => Some(b as nat), None => None }), bound_val(
        match bound { Some(b) => Some(b as nat), None => None },
    ), size(*j),
{
    let ghost sb: Option<nat> = match bound { Some(b) => Some(b as nat), None => None };
    let ghost start = views(out@).to_set();
    match j {
        Json::Str(s) => {
            let len = s.as_str().unicode_len();
            let allowed = match bound {
                Some(b) => len < b,
                None => true,
            };
            if allowed {
                match parse_json_text(s.as_str()) {
                    Some(v) => {
                        collect_paths(&v, Some(len), out);
                    },
                    None => {
                        assert(views(out@).to_set() =~= start.union(Set::empty()));
                    },
                }
            } else {
                assert(views(out@).to_set() =~= start.union(Set::empty()));
            }
        },
        Json::Array(items) => {
            let mut i: usize = 0;
            while i < items.len()
                invariant
                    i <= items.len(),
                    *j == Json::Array(*items),
                    sb == (match bound { Some(b) => Some(b as nat), None => None }),
                    strictly_sorted(views(out@)),
                    views(out@).to_set() == start.union(items_paths(items@.subrange(0, i as int), sb)),
                decreases items.len() - i,
            {
                proof {
                    lemma_items_size(items@, i as int);
                }
                collect_paths(&items[i], bound, out);
                proof {
                    let pre = items@.subrange(0, i as int);
                    let nxt = items@.subrange(0, i + 1);
                    assert(nxt.drop_last() =~= pre);
                    assert(nxt.last() == items@[i as int]);
                    assert(views(out@).to_set() =~= start.union(items_paths(nxt, sb)));
                }
                i = i + 1;
            }
            assert(items@.subrange(0, items.len() as int) =~= items@);
        },
        Json::Object(entries) => {
            let mut i: usize = 0;
            while i < entries.len()
                invariant
                    i <= entries.len(),
                    *j == Json::Object(*entries),
                    sb == (match bound { Some(b) => Some(b as nat), None => None }),
                    strictly_sorted(views(out@)),
                    views(out@).to_set() == start.union(entries_paths(entries@.subrange(0, i as int), sb)),
                decreases entries.len() - i,
            {
                let ghost before = views(out@).to_set();
                let key = &entries[i].0;
                let val = &entries[i].1;
                let ghost own = entry_own_path(key@, *val);
                if is_path_key_str(key.as_str()) {
                    match val {
                        Json::Str(s) => {
                            if s.as_str().unicode_len() > 0 {
                                insert_sorted(out, s.clone());
                                assert(views(out@).to_set() =~= before.union(own));
                            } else {
                                assert(views(out@).to_set() =~= before.union(own));
                            }
                        },
                        _ => {
                            assert(views(out@).to_set() =~= before.union(own));
                        },
                    }
                } else {
                    assert(views(out@).to_set() =~= before.union(own));
                }
                proof {
                    lemma_entries_size(entries@, i as int);
                }
                collect_paths(val, bound, out);
                proof {
                    let pre = entries@.subrange(0, i as int);
                    let nxt = entries@.subrange(0, i + 1);
                    assert(nxt.drop_last() =~= pre);
                    assert(nxt.last() == entries@[i as int]);
                    assert(views(out@).to_set() =~= start.union(entries_paths(nxt, sb)));
                }
                i = i + 1;
            }
            assert(entries@.subrange(0, entries.len() as int) =~= entries@);
        },
        _ => {
            assert(views(out@).to_set() =~= start.union(Set::empty()));
        },
    }
}

/// The distinct file paths named in a payload, in ascending order.
pub fn paths_from_event_payload(payload: &Json) -> (r: Vec<String>)
    ensures
        strictly_sorted(views(r@)),
        views(r@).to_set() == json_paths(*payload, None),
{
    let mut out: Vec<String> = Vec::new();
    assert(views(out@).to_set() =~= Set::empty());
    collect_paths(payload, None, &mut out);
    assert(views(out@).to_set() =~= json_paths(*payload, None));
    out
}

/// The distinct elements of a sequence of strings, in ascending order.
fn sorted_set(v: Vec<String>) -> (r: Vec<String>)
    ensures
        strictly_sorted(views(r@)),
        views(r@).to_set() == views(v@).to_set(),
{
    crate::text::sort_dedup(v)
}

/// Skill slugs referenced via `.cursor/skills/<slug>` in the payload's JSON text, distinct
/// and ascending.
pub fn skills_from_event_json(payload: &Json) -> (r: Vec<String>)
    ensures
        strictly_sorted(views(r@)),
        views(r@).to_set() == skill_path_captures(json_text(*payload)).to_set(),
{
    let raw = payload_text(payload);
    let caps = skill_captures(raw.as_str());
    sorted_set(caps)
}

/// `raw` trimmed, with a trailing `.mdc` (any ASCII case) removed when something precedes it.
pub open spec fn normalize_rule_spec(raw: Seq<char>) -> Seq<char> {
    let t = trim_spec(raw);
    if t.len() > 4 && is_mdc_suffix(t.subrange(t.len() - 4, t.len() as int)) {
        t.subrange(0, t.len() - 4)
    } else {
        t
    }
}

/// `.mdc` compared ASCII-case-insensitively.
pub open spec fn is_mdc_suffix(s: Seq<char>) -> bool {
    &&& s.len() == 4
    &&& s[0] == '.'
    &&& (s[1] == 'm' || s[1] == 'M')
    &&& (s[2] == 'd' || s[2] == 'D')
    &&& (s[3] == 'c' || s[3] == 'C')
}

/// Strips white space and a trailing `.mdc` from a captured rule file name.
pub fn normalize_rule_id(raw: &str) -> (r: String)
    ensures
        r@ == normalize_rule_spec(raw@),
{
    let t = trim(raw);
    let n = t.as_str().unicode_len();
    if n > 4 {
        let c0 = t.as_str().get_char(n - 4);
        let c1 = t.as_str().get_char(n - 3);
        let c2 = t.as_str().get_char(n - 2);
        let c3 = t.as_str().get_char(n - 1);
        let suffix = c0 == '.' && (c1 == 'm' || c1 == 'M') && (c2 == 'd' || c2 == 'D') && (c3 == 'c'
            || c3 == 'C');
        let ghost tail = t@.subrange(n - 4, n as int);
        assert(tail[0] == c0 && tail[1] == c1 && tail[2] == c2 && tail[3] == c3);
        if suffix {
            return substring(t.as_str(), 0, n - 4);
        }
    }
    t
}

/// Cursor rule stems referenced via `.cursor/rules/<name>.mdc` in the payload's JSON text,
/// distinct and ascending.
pub fn rules_from_event_json(payload: &Json) -> (r: Vec<String>)
    ensures
        strictly_sorted(views(r@)),
        views(r@).to_set() == rule_path_captures(json_text(*payload)).map_values(
            |c: Seq<char>| normalize_rule_spec(c),
        ).to_set(),
{
    let raw = payload_text(payload);
    let caps = rule_captures(raw.as_str());
    let mut stems: Vec<String> = Vec::new();
    let mut i: usize = 0;
    while i < caps.len()
        invariant
            i <= caps.len(),
            views(stems@) =~= views(caps@).subrange(0, i as int).map_values(
                |c: Seq<char>| normalize_rule_spec(c),
            ),
        decreases caps.len() - i,
    {
        let stem = normalize_rule_id(caps[i].as_str());
        let ghost prev = stems@;
        stems.push(stem);
        proof {
            assert(views(stems@) =~= views(prev).push(normalize_rule_spec(caps@[i as int]@)));
            assert(views(caps@).subrange(0, i + 1) =~= views(caps@).subrange(0, i as int).push(
                caps@[i as int]@,
            ));
        }
        i = i + 1;
    }
    assert(views(caps@).subrange(0, caps.len() as int) =~= views(caps@));
    sorted_set(stems)
}

/// Whether an event records an agent stop: a hook whose `event` (or, when that is not a
/// string, `hook_event_name`) is `"Stop"`.
pub open spec fn is_stop_spec(kind: crate::event::EventKind, payload: Json) -> bool {
    &&& kind == crate::event::EventKind::Hook
    &&& match json_str(json_get(payload, "event"@)) {
        Some(e) => e == "Stop"@,
        None => json_str(json_get(payload, "hook_event_name"@)) == Some("Stop"@),
    }
}

/// Whether `e` is a `Stop` hook.
pub fn is_stop_event(e: &crate::event::Event) -> (r: bool)
    ensures
        r == is_stop_spec(e.kind, e.payload),
{
    if e.kind != crate::event::EventKind::Hook {
        return false;
    }
    let name = match crate::event::get_str(&e.payload, "event") {
        Some(s) => Some(s),
        None => crate::event::get_str(&e.payload, "hook_event_name"),
    };
    match name {
        Some(s) => str_eq(s.as_str(), "Stop"),
        None => false,
    }
}


/// A hook is a stop hook when its `event` field is the text `Stop`; when it has no text
/// under `event`, when its `hook_event_name` field is `Stop`. No event of another kind is.
pub proof fn lemma_stop_event(kind: crate::event::EventKind, payload: Json)
    ensures
        kind != crate::event::EventKind::Hook ==> !is_stop_spec(kind, payload),
        kind == crate::event::EventKind::Hook && json_str(json_get(payload, "event"@)) == Some("Stop"@)
            ==> is_stop_spec(kind, payload),
        kind == crate::event::EventKind::Hook && json_str(json_get(payload, "event"@)) is None
            && json_str(json_get(payload, "hook_event_name"@)) == Some("Stop"@) ==> is_stop_spec(kind, payload),
        (json_str(json_get(payload, "event"@)) matches Some(t) && t != "Stop"@) ==> !is_stop_spec(kind, payload),
        (json_str(json_get(payload, "event"@)) is None && json_str(json_get(payload, "hook_event_name"@)) != Some("Stop"@))
            ==> !is_stop_spec(kind, payload),
{
}

/// A payload entry under one of the keys `path`, `file_path`, `target_file`, `file` or
/// `relative_workspace_path` whose value is a non-empty string names that string as a file
/// path, wherever the entry sits in the object.
pub proof fn lemma_path_entry(entries: Vec<(String, Json)>, i: int, bound: Option<nat>)
    requires
        0 <= i < entries@.len(),
        entries@[i].0@ == "path"@ || entries@[i].0@ == "file_path"@ || entries@[i].0@ == "target_file"@
            || entries@[i].0@ == "file"@ || entries@[i].0@ == "relative_workspace_path"@,
        entries@[i].1 matches Json::Str(s) && s@.len() > 0,
    ensures
        json_paths(Json::Object(entries), bound).contains(entries@[i].1->Str_0@),
{
    lemma_entries_paths_has(entries@, i, bound);
}

proof fn lemma_entries_paths_has(entries: Seq<(String, Json)>, i: int, bound: Option<nat>)
    requires
        0 <= i < entries.len(),
        is_path_key(entries[i].0@),
        entries[i].1 matches Json::Str(s) && s@.len() > 0,
    ensures
        entries_paths(entries, bound).contains(entries[i].1->Str_0@),
    decreases entries.len(),
{
    if i < entries.len() - 1 {
        let d = entries.drop_last();
        assert(d[i] == entries[i]);
        lemma_entries_paths_has(d, i, bound);
    }
}

/// The paths named inside the value of any entry of an object are named by the object too.
pub proof fn lemma_nested_entry_paths(entries: Vec<(String, Json)>, i: int, bound: Option<nat>)
    requires
        0 <= i < entries@.len(),
    ensures
        json_paths(entries@[i].1, bound).subset_of(json_paths(Json::Object(entries), bound)),
{
    lemma_entries_nested(entries@, i, bound);
}

proof fn lemma_entries_nested(entries: Seq<(String, Json)>, i: int, bound: Option<nat>)
    requires
        0 <= i < entries.len(),
    ensures
        json_paths(entries[i].1, bound).subset_of(entries_paths(entries, bound)),
    decreases entries.len(),
{
    if i < entries.len() - 1 {
        let d = entries.drop_last();
        assert(d[i] == entries[i]);
        lemma_entries_nested(d, i, bound);
    }
}

} // verus!
