//! The pull cursor of the remote cache, and the aggregates reports draw from remote events.

use vstd::prelude::*;
use crate::group::{
    distinct_by_key, distinct_by_key_spec, distinct_count, masked_set, sum_by_key, sum_by_key_spec, total,
};
use crate::rank::{count_views, top, top_counts};
use crate::text::views;

verus! {

/// The singleton pull state: which provider was queried, its cursor, and when a pull last
/// succeeded.
#[derive(Debug, Clone, PartialEq, Eq)]
pub struct RemotePullState {
    pub query_provider: String,
    pub cursor_json: String,
    pub last_success_ms: Option<i64>,
}

impl Default for RemotePullState {
    /// No provider (`"none"`), an empty cursor, never succeeded.
    fn default() -> (r: RemotePullState)
        ensures
            r.query_provider@ == seq!['n', 'o', 'n', 'e'],
            r.cursor_json@ == Seq::<char>::empty(),
            r.last_success_ms is None,
    {
        proof {
            reveal_strlit("none");
        }
        RemotePullState {
            query_provider: "none".to_string(),
            cursor_json: String::new(),
            last_success_ms: None,
        }
    }
}

/// The fields of a pulled event that the aggregates read.
#[derive(Debug)]
pub struct RemoteEvent {
    pub session_id_hash: String,
    pub ts_ms: u64,
    pub agent: String,
    pub model: String,
    pub tool: Option<String>,
    pub cost_usd_e6: Option<i64>,
    pub tokens_in: Option<u32>,
    pub tokens_out: Option<u32>,
    pub reasoning_tokens: Option<u32>,
}

/// Aggregates of remote events for the summary, insights and metrics reports.
#[derive(Debug, Clone, PartialEq, Eq)]
pub struct RemoteEventAgg {
    pub session_count: u64,
    pub event_count: u64,
    pub total_cost_usd_e6: i64,
    pub sessions_with_cost: u64,
    pub by_agent: Vec<(String, u64)>,
    pub by_model: Vec<(String, u64)>,
    pub top_tools: Vec<(String, u64)>,
    /// Sessions active on each of the last seven days, oldest first, by weekday name.
    pub sessions_by_day: Vec<(String, u64)>,
    /// Tokens (in, out and reasoning) per tool.
    pub tool_token_totals: Vec<(String, u64)>,
}

pub const DAY_MS: u64 = 86_400_000;

/// Weekday name of weekday number `k` (0 is Sunday).
pub open spec fn weekday_name(k: int) -> Seq<char> {
    if k == 0 { seq!['S', 'u', 'n'] }
    else if k == 1 { seq!['M', 'o', 'n'] }
    else if k == 2 { seq!['T', 'u', 'e'] }
    else if k == 3 { seq!['W', 'e', 'd'] }
    else if k == 4 { seq!['T', 'h', 'u'] }
    else if k == 5 { seq!['F', 'r', 'i'] }
    else { seq!['S', 'a', 't'] }
}

/// Weekday name of day `day_idx` since the unix epoch (a Thursday).
pub fn day_label(day_idx: u64) -> (r: &'static str)
    ensures
        r@ == weekday_name(((day_idx as int) + 4) % 7),
{
    let k = (day_idx % 7 + 4) % 7;
    assert(k == ((day_idx as int) + 4) % 7);
    if k == 0 { proof { reveal_strlit("Sun"); } "Sun" }
    else if k == 1 { proof { reveal_strlit("Mon"); } "Mon" }
    else if k == 2 { proof { reveal_strlit("Tue"); } "Tue" }
    else if k == 3 { proof { reveal_strlit("Wed"); } "Wed" }
    else if k == 4 { proof { reveal_strlit("Thu"); } "Thu" }
    else if k == 5 { proof { reveal_strlit("Fri"); } "Fri" }
    else { proof { reveal_strlit("Sat"); } "Sat" }
}

/// `x` clamped to the range of `i64` (what `i64::saturating_add` yields for a sum `x`).
pub open spec fn sat_i64(x: int) -> i64 {
    if x > i64::MAX {
        i64::MAX
    } else if x < i64::MIN {
        i64::MIN
    } else {
        x as i64
    }
}

fn saturating_add_i64(a: i64, b: i64) -> (r: i64)
    ensures
        r == sat_i64(a + b),
{
    match a.checked_add(b) {
        Some(v) => v,
        None => if b > 0 { i64::MAX } else { i64::MIN },
    }
}

/// The costs of the first `n` events, added up with saturation, in order.
pub open spec fn cost_total(evs: Seq<RemoteEvent>, n: int) -> i64
    decreases n,
{
    if n <= 0 {
        0
    } else {
        match evs[n - 1].cost_usd_e6 {
            Some(c) => sat_i64(cost_total(evs, n - 1) + c),
            None => cost_total(evs, n - 1),
        }
    }
}

pub open spec fn or_zero(v: Option<u32>) -> nat {
    match v {
        Some(x) => x as nat,
        None => 0,
    }
}

/// Tokens an event reports: in, out and reasoning.
pub open spec fn event_tokens(e: RemoteEvent) -> u64 {
    (or_zero(e.tokens_in) + or_zero(e.tokens_out) + or_zero(e.reasoning_tokens)) as u64
}

/// The token weight of each event, in order.
pub open spec fn token_weights(evs: Seq<RemoteEvent>) -> Seq<u64> {
    evs.map_values(|e: RemoteEvent| event_tokens(e))
}

/// Start of the seven-day window that ends at `now_ms`.
pub open spec fn week_start(now_ms: u64) -> u64 {
    if now_ms >= 7 * DAY_MS { (now_ms - 7 * DAY_MS) as u64 } else { 0 }
}

/// Day number of slot `i` (0 to 6, oldest first) of the window ending today.
pub open spec fn window_day(now_ms: u64, i: int) -> u64 {
    let today = now_ms / DAY_MS;
    if today >= 6 - i { (today - (6 - i)) as u64 } else { 0 }
}

pub open spec fn session_hashes(evs: Seq<RemoteEvent>) -> Seq<Seq<char>> {
    evs.map_values(|e: RemoteEvent| e.session_id_hash@)
}

/// Events of window slot `i`.
pub open spec fn day_mask(evs: Seq<RemoteEvent>, now_ms: u64, i: int) -> Seq<bool> {
    Seq::new(evs.len(), |j: int| evs[j].ts_ms >= week_start(now_ms) && evs[j].ts_ms / DAY_MS == window_day(now_ms, i))
}

pub open spec fn tool_keys(evs: Seq<RemoteEvent>) -> Seq<Option<Seq<char>>> {
    evs.map_values(|e: RemoteEvent| crate::event::opt_view(e.tool))
}

proof fn lemma_total_bound(w: Seq<u64>, n: int, b: nat)
    requires
        0 <= n <= w.len(),
        forall|j: int| 0 <= j < w.len() ==> (#[trigger] w[j]) <= b,
    ensures
        total(w, n) <= n * b,
    decreases n,
{
    if n > 0 {
        lemma_total_bound(w, n - 1, b);
        assert((n - 1) * b + b == n * b) by (nonlinear_arith);
    }
}

/// Aggregates pulled events as of `now_ms`: counts of events and distinct sessions, the
/// saturating total of costs, sessions with a cost, distinct sessions per agent and per
/// model (ranked), events per tool (top 10), tokens per tool (top 20), and distinct
/// sessions on each of the last seven days.
pub fn remote_event_aggregate(now_ms: u64, events: &[RemoteEvent]) -> (r: RemoteEventAgg)
    requires
        events.len() <= 0x5555_5555,
    ensures
        r.event_count == events.len(),
        r.session_count == masked_set(session_hashes(events@), Seq::new(events@.len(), |j: int| true)).len(),
        r.total_cost_usd_e6 == cost_total(events@, events@.len() as int),
        r.sessions_with_cost == masked_set(
            session_hashes(events@),
            Seq::new(events@.len(), |j: int| events@[j].cost_usd_e6 is Some),
        ).len(),
        count_views(r.by_agent@) == crate::rank::ranking(distinct_by_key_spec(
            events@.map_values(|e: RemoteEvent| e.agent@),
            session_hashes(events@),
        )),
        count_views(r.by_model@) == crate::rank::ranking(distinct_by_key_spec(
            events@.map_values(|e: RemoteEvent| e.model@),
            session_hashes(events@),
        )),
        count_views(r.top_tools@) == top(sum_by_key_spec(tool_keys(events@), Seq::new(events@.len(), |j: int| 1u64)), 10),
        count_views(r.tool_token_totals@) == top(
            sum_by_key_spec(tool_keys(events@), token_weights(events@)),
            20,
        ),
        r.sessions_by_day@.len() == 7,
        forall|i: int| 0 <= i < 7 ==> (#[trigger] r.sessions_by_day@[i]).0@ == weekday_name(((window_day(now_ms, i) as int) + 4) % 7)
            && r.sessions_by_day@[i].1 == masked_set(session_hashes(events@), day_mask(events@, now_ms, i)).len(),
{
    let ghost evs = events@;
    let n = events.len();
    let week_ago = now_ms.saturating_sub(7 * DAY_MS);
    let now_day = now_ms / DAY_MS;
    let mut sids: Vec<String> = Vec::new();
    let mut all: Vec<bool> = Vec::new();
    let mut costed: Vec<bool> = Vec::new();
    let mut agents: Vec<String> = Vec::new();
    let mut models: Vec<String> = Vec::new();
    let mut tools: Vec<Option<String>> = Vec::new();
    let mut ones: Vec<u64> = Vec::new();
    let mut toks: Vec<u64> = Vec::new();
    let mut total_cost: i64 = 0;
    let mut j: usize = 0;
    while j < n
        invariant
            j <= n,
            n == evs.len(),
            evs == events@,
            views(sids@) == session_hashes(evs).take(j as int),
            sids.len() == j,
            agents.len() == j,
            models.len() == j,
            tools.len() == j,
            all@ == Seq::new(evs.len(), |q: int| true).take(j as int),
            costed@ == Seq::new(evs.len(), |q: int| evs[q].cost_usd_e6 is Some).take(j as int),
            views(agents@) == evs.map_values(|e: RemoteEvent| e.agent@).take(j as int),
            views(models@) == evs.map_values(|e: RemoteEvent| e.model@).take(j as int),
            tools@.map_values(|k: Option<String>| crate::event::opt_view(k)) == tool_keys(evs).take(j as int),
            ones@ == Seq::new(evs.len(), |q: int| 1u64).take(j as int),
            toks@ == evs.map_values(|e: RemoteEvent| event_tokens(e)).take(j as int),
            total_cost == cost_total(evs, j as int),
        decreases n - j,
    {
        let e = &events[j];
        sids.push(e.session_id_hash.clone());
        all.push(true);
        costed.push(e.cost_usd_e6.is_some());
        agents.push(e.agent.clone());
        models.push(e.model.clone());
        tools.push(match &e.tool {
            Some(t) => Some(t.clone()),
            None => None,
        });
        ones.push(1);
        let t_in: u64 = match e.tokens_in { Some(v) => v as u64, None => 0 };
        let t_out: u64 = match e.tokens_out { Some(v) => v as u64, None => 0 };
        let t_reason: u64 = match e.reasoning_tokens { Some(v) => v as u64, None => 0 };
        toks.push(t_in + t_out + t_reason);
        match e.cost_usd_e6 {
            Some(c) => {
                total_cost = saturating_add_i64(total_cost, c);
            },
            None => {},
        }
        proof {
            assert(e == evs[j as int]);
            assert(views(sids@)[j as int] == evs[j as int].session_id_hash@);
            assert(views(agents@)[j as int] == evs[j as int].agent@);
            assert(views(sids@) =~= session_hashes(evs).take(j + 1));
            assert(all@ =~= Seq::new(evs.len(), |q: int| true).take(j + 1));
            assert(costed@ =~= Seq::new(evs.len(), |q: int| evs[q].cost_usd_e6 is Some).take(j + 1));
            assert(views(agents@) =~= evs.map_values(|e: RemoteEvent| e.agent@).take(j + 1));
            assert(views(models@) =~= evs.map_values(|e: RemoteEvent| e.model@).take(j + 1));
            assert(tools@.map_values(|k: Option<String>| crate::event::opt_view(k)) =~= tool_keys(evs).take(j + 1));
            assert(ones@ =~= Seq::new(evs.len(), |q: int| 1u64).take(j + 1));
            assert(toks@ =~= evs.map_values(|e: RemoteEvent| event_tokens(e)).take(j + 1));
        }
        j = j + 1;
    }
    proof {
        assert(views(sids@) =~= session_hashes(evs));
        assert(all@ =~= Seq::new(evs.len(), |q: int| true));
        assert(costed@ =~= Seq::new(evs.len(), |q: int| evs[q].cost_usd_e6 is Some));
        assert(views(agents@) =~= evs.map_values(|e: RemoteEvent| e.agent@));
        assert(views(models@) =~= evs.map_values(|e: RemoteEvent| e.model@));
        assert(tools@.map_values(|k: Option<String>| crate::event::opt_view(k)) =~= tool_keys(evs));
        assert(ones@ =~= Seq::new(evs.len(), |q: int| 1u64));
        assert(toks@ =~= evs.map_values(|e: RemoteEvent| event_tokens(e)));
        assert(toks@ =~= token_weights(evs));
        lemma_total_bound(ones@, n as int, 1);
        lemma_total_bound(toks@, n as int, 12884901885);
        assert(n * 12884901885 <= u64::MAX) by (nonlinear_arith)
            requires
                n <= 0x5555_5555,
        ;
    }
    let session_count = distinct_count(&sids, &all);
    let sessions_with_cost = distinct_count(&sids, &costed);
    let by_agent_counts = distinct_by_key(&agents, &sids);
    let by_model_counts = distinct_by_key(&models, &sids);
    let tool_counts = sum_by_key(&tools, &ones);
    let token_counts = sum_by_key(&tools, &toks);
    let by_agent = crate::rank::rank_counts(&by_agent_counts);
    let by_model = crate::rank::rank_counts(&by_model_counts);
    let top_tools = top_counts(&tool_counts, 10);
    let tool_token_totals = top_counts(&token_counts, 20);
    let mut sessions_by_day: Vec<(String, u64)> = Vec::new();
    let mut i: u64 = 0;
    while i < 7
        invariant
            i <= 7,
            evs == events@,
            n == evs.len(),
            views(sids@) == session_hashes(evs),
            sids.len() == n,
            week_ago == week_start(now_ms),
            now_day == now_ms / DAY_MS,
            sessions_by_day@.len() == i,
            forall|q: int| 0 <= q < i ==> (#[trigger] sessions_by_day@[q]).0@ == weekday_name(((window_day(now_ms, q) as int) + 4) % 7)
                && sessions_by_day@[q].1 == masked_set(session_hashes(evs), day_mask(evs, now_ms, q)).len(),
        decreases 7 - i,
    {
        let target = now_day.saturating_sub(6 - i);
        let mut mask: Vec<bool> = Vec::new();
        let mut q: usize = 0;
        while q < n
            invariant
                q <= n,
                n == evs.len(),
                evs == events@,
                week_ago == week_start(now_ms),
                target == window_day(now_ms, i as int),
                mask@ == day_mask(evs, now_ms, i as int).take(q as int),
            decreases n - q,
        {
            let ts = events[q].ts_ms;
            mask.push(ts >= week_ago && ts / DAY_MS == target);
            proof {
                assert(mask@ =~= day_mask(evs, now_ms, i as int).take(q + 1));
            }
            q = q + 1;
        }
        proof {
            assert(mask@ =~= day_mask(evs, now_ms, i as int));
            assert(mask.len() == n);
        }
        let c = distinct_count(&sids, &mask);
        let label = day_label(target);
        sessions_by_day.push((label.to_string(), c));
        i = i + 1;
    }
    RemoteEventAgg {
        session_count,
        event_count: n as u64,
        total_cost_usd_e6: total_cost,
        sessions_with_cost,
        by_agent,
        by_model,
        top_tools,
        sessions_by_day,
        tool_token_totals,
    }
}

/// Tokens that the first `n` events with tool `t` report, reasoning tokens included, each
/// missing count taken as zero.
pub open spec fn tool_tokens_upto(evs: Seq<RemoteEvent>, t: Seq<char>, n: int) -> nat
    decreases n,
{
    if n <= 0 {
        0
    } else {
        let e = evs[n - 1];
        tool_tokens_upto(evs, t, n - 1) + match e.tool {
            Some(name) => if name@ == t {
                (match e.tokens_in { Some(x) => x as nat, None => 0 })
                    + (match e.tokens_out { Some(x) => x as nat, None => 0 })
                    + (match e.reasoning_tokens { Some(x) => x as nat, None => 0 })
            } else {
                0
            },
            None => 0,
        }
    }
}

/// The token total that the aggregate gives a tool is the sum, over the events with that
/// tool, of their input, output and reasoning tokens.
pub proof fn lemma_tool_token_totals(evs: Seq<RemoteEvent>, t: Seq<char>)
    requires
        evs.len() <= 0x5555_5555,
    ensures
        sum_by_key_spec(tool_keys(evs), token_weights(evs)).contains_key(t) <==> exists|j: int|
            0 <= j < evs.len() && crate::event::opt_view((#[trigger] evs[j]).tool) == Some(t),
        sum_by_key_spec(tool_keys(evs), token_weights(evs)).contains_key(t) ==> sum_by_key_spec(
            tool_keys(evs),
            token_weights(evs),
        )[t] == tool_tokens_upto(evs, t, evs.len() as int),
{
    let keys = tool_keys(evs);
    let w = token_weights(evs);
    assert forall|j: int| 0 <= j < w.len() implies (#[trigger] w[j]) <= 12884901885 by {
        let e = evs[j];
        assert(w[j] == event_tokens(e));
    }
    lemma_total_bound(w, evs.len() as int, 12884901885);
    assert(evs.len() * 12884901885 <= u64::MAX) by (nonlinear_arith)
        requires
            evs.len() <= 0x5555_5555,
    ;
    crate::group::lemma_key_sum_le_total(keys, w, t, evs.len() as int);
    lemma_tool_sum(evs, t, evs.len() as int);
    if sum_by_key_spec(keys, w).contains_key(t) {
        let j = choose|j: int| 0 <= j < evs.len() && keys[j] == Some(t);
        assert(crate::event::opt_view(evs[j].tool) == Some(t));
    }
    if exists|j: int| 0 <= j < evs.len() && crate::event::opt_view((#[trigger] evs[j]).tool) == Some(t) {
        let j = choose|j: int| 0 <= j < evs.len() && crate::event::opt_view((#[trigger] evs[j]).tool) == Some(t);
        assert(keys[j] == Some(t));
    }
}

proof fn lemma_tool_sum(evs: Seq<RemoteEvent>, t: Seq<char>, n: int)
    requires
        0 <= n <= evs.len(),
    ensures
        crate::group::key_sum(tool_keys(evs), token_weights(evs), t, n) == tool_tokens_upto(evs, t, n),
    decreases n,
{
    if n > 0 {
        lemma_tool_sum(evs, t, n - 1);
        let e = evs[n - 1];
        assert(token_weights(evs)[n - 1] == event_tokens(e));
        assert(tool_keys(evs)[n - 1] == crate::event::opt_view(e.tool));
    }
}

} // verus!
