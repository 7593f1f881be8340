//! Session listings: the filter of a listing as SQL, its paging, and sessions per day.

use vstd::prelude::*;
use crate::contracts::{SessionFilter, SessionPage};
use crate::event::{SessionRecord, status_name, status_name_spec};
use crate::remote_cache::{DAY_MS, day_label, weekday_name};
use crate::text::substring;

verus! {

/// The lowercase form of `s` (what `str::to_lowercase` gives: Unicode lowercase mapping).
pub uninterp spec fn lowercase(s: Seq<char>) -> Seq<char>;

/// Calls `str::to_lowercase`; the result is named `lowercase`.
#[verifier::external_body]
fn to_lowercase(s: &str) -> (r: String)
    ensures
        r@ == lowercase(s@),
{
    s.to_lowercase()
}

/// `s` with `\`, `%` and `_` escaped by a backslash.
pub open spec fn escape_like_chars(s: Seq<char>) -> Seq<char>
    decreases s.len(),
{
    if s.len() == 0 {
        Seq::empty()
    } else {
        let c = s.last();
        escape_like_chars(s.drop_last()) + if c == '\\' || c == '%' || c == '_' {
            seq!['\\', c]
        } else {
            seq![c]
        }
    }
}

/// A `LIKE` pattern that matches `raw` literally, case-folded to lowercase.
pub fn escape_like(raw: &str) -> (r: String)
    ensures
        r@ == escape_like_chars(lowercase(raw@)),
{
    let low = to_lowercase(raw);
    let s = low.as_str();
    let n = s.unicode_len();
    let mut out = String::new();
    let mut i: usize = 0;
    proof {
        reveal_strlit("\\");
    }
    while i < n
        invariant
            i <= n,
            n == s@.len(),
            s@ == lowercase(raw@),
            out@ == escape_like_chars(s@.take(i as int)),
        decreases n - i,
    {
        let c = s.get_char(i);
        proof {
            assert(s@.take(i + 1).drop_last() =~= s@.take(i as int));
            assert(s@.take(i + 1).last() == c);
        }
        let one = substring(s, i, i + 1);
        assert(one@ =~= seq![c]);
        if c == '\\' || c == '%' || c == '_' {
            proof {
                reveal_strlit("\\");
            }
            out.append("\\");
        }
        out.append(one.as_str());
        proof {
            assert(out@ =~= escape_like_chars(s@.take(i + 1)));
        }
        i = i + 1;
    }
    proof {
        assert(s@.take(n as int) =~= s@);
    }
    out
}

/// A bound value of a query.
#[derive(Debug, Clone, PartialEq, Eq)]
pub enum SqlArg {
    Text(String),
    Integer(i64),
}

pub enum ArgModel {
    Text(Seq<char>),
    Integer(i64),
}

pub open spec fn arg_model(a: SqlArg) -> ArgModel {
    match a {
        SqlArg::Text(s) => ArgModel::Text(s@),
        SqlArg::Integer(v) => ArgModel::Integer(v),
    }
}

pub open spec fn arg_models(v: Seq<SqlArg>) -> Seq<ArgModel> {
    v.map_values(|a: SqlArg| arg_model(a))
}

/// The agent-prefix condition applies when a non-empty prefix is given.
pub open spec fn prefix_of(f: SessionFilter) -> Option<Seq<char>> {
    match f.agent_prefix {
        Some(p) => if p@.len() > 0 { Some(p@) } else { None },
        None => None,
    }
}

/// The conditions of a listing, in order, with their bound values.
pub open spec fn filter_conditions(workspace: Seq<char>, f: SessionFilter) -> Seq<(Seq<char>, ArgModel)> {
    seq![("workspace = ?"@, ArgModel::Text(workspace))]
        + match prefix_of(f) {
            Some(p) => seq![("lower(agent) LIKE ? ESCAPE '\\'"@, ArgModel::Text(escape_like_chars(lowercase(p)) + seq!['%']))],
            None => Seq::empty(),
        }
        + match f.status {
            Some(s) => seq![("status = ?"@, ArgModel::Text(status_name_spec(s)))],
            None => Seq::empty(),
        }
        + match f.since_ms {
            Some(t) => seq![("started_at_ms >= ?"@, ArgModel::Integer(t as i64))],
            None => Seq::empty(),
        }
}

/// Conditions joined by ` AND `.
pub open spec fn join_and(cs: Seq<Seq<char>>) -> Seq<char>
    decreases cs.len(),
{
    if cs.len() == 0 {
        Seq::empty()
    } else if cs.len() == 1 {
        cs[0]
    } else {
        join_and(cs.drop_last()) + " AND "@ + cs.last()
    }
}

/// The `WHERE` clause of a listing of `workspace`'s sessions under `filter`, and the
/// values it binds, in order.
pub fn session_filter_sql(workspace: &str, filter: &SessionFilter) -> (r: (String, Vec<SqlArg>))
    ensures
        r.0@ == "WHERE "@ + join_and(filter_conditions(workspace@, *filter).map_values(|c: (Seq<char>, ArgModel)| c.0)),
        arg_models(r.1@) == filter_conditions(workspace@, *filter).map_values(|c: (Seq<char>, ArgModel)| c.1),
{
    let ghost conds = filter_conditions(workspace@, *filter);
    let mut sql = String::new();
    let mut args: Vec<SqlArg> = Vec::new();
    let ghost mut n: int = 0;
    proof {
        reveal_strlit("WHERE ");
        reveal_strlit("workspace = ?");
        reveal_strlit(" AND ");
        reveal_strlit("lower(agent) LIKE ? ESCAPE '\\'");
        reveal_strlit("status = ?");
        reveal_strlit("started_at_ms >= ?");
        reveal_strlit("%");
    }
    sql.append("WHERE ");
    sql.append("workspace = ?");
    args.push(SqlArg::Text(workspace.to_string()));
    let ghost mut done: Seq<(Seq<char>, ArgModel)> = seq![("workspace = ?"@, ArgModel::Text(workspace@))];
    proof {
        assert(done.map_values(|c: (Seq<char>, ArgModel)| c.0) =~= seq!["workspace = ?"@]);
        assert(join_and(seq!["workspace = ?"@]) == "workspace = ?"@);
        assert(sql@ =~= "WHERE "@ + join_and(done.map_values(|c: (Seq<char>, ArgModel)| c.0)));
        assert(arg_models(args@) =~= done.map_values(|c: (Seq<char>, ArgModel)| c.1));
    }
    match &filter.agent_prefix {
        Some(p) => {
            if p.as_str().unicode_len() > 0 {
                let mut pattern = escape_like(p.as_str());
                pattern.append("%");
                proof {
                    assert("%"@ =~= seq!['%']);
                    assert(pattern@ =~= escape_like_chars(lowercase(p@)) + seq!['%']);
                    assert(prefix_of(*filter) == Some(p@));
                }
                let ghost c = ("lower(agent) LIKE ? ESCAPE '\\'"@, ArgModel::Text(pattern@));
                let ghost pre = sql@;
                sql.append(" AND ");
                sql.append("lower(agent) LIKE ? ESCAPE '\\'");
                args.push(SqlArg::Text(pattern));
                proof {
                    step_done(done, c);
                    done = done.push(c);
                    assert(sql@ =~= pre + " AND "@ + c.0);
                    assert(arg_models(args@) =~= done.map_values(|c: (Seq<char>, ArgModel)| c.1));
                }
            } else {
                assert(prefix_of(*filter) is None);
            }
        },
        None => {},
    }
    proof {
        assert(done =~= seq![("workspace = ?"@, ArgModel::Text(workspace@))] + match prefix_of(*filter) {
            Some(p) => seq![("lower(agent) LIKE ? ESCAPE '\\'"@, ArgModel::Text(escape_like_chars(lowercase(p)) + seq!['%']))],
            None => Seq::empty(),
        });
    }
    let ghost d1 = done;
    match filter.status {
        Some(st) => {
            let name = status_name(st);
            let ghost c = ("status = ?"@, ArgModel::Text(status_name_spec(st)));
            let ghost pre = sql@;
            sql.append(" AND ");
            sql.append("status = ?");
            args.push(SqlArg::Text(name.to_string()));
            proof {
                step_done(done, c);
                done = done.push(c);
                assert(sql@ =~= pre + " AND "@ + c.0);
                assert(arg_models(args@) =~= done.map_values(|c: (Seq<char>, ArgModel)| c.1));
            }
        },
        None => {},
    }
    proof {
        assert(done =~= d1 + match filter.status {
            Some(s) => seq![("status = ?"@, ArgModel::Text(status_name_spec(s)))],
            None => Seq::empty(),
        });
    }
    let ghost d2 = done;
    match filter.since_ms {
        Some(t) => {
            let ghost c = ("started_at_ms >= ?"@, ArgModel::Integer(t as i64));
            let ghost pre = sql@;
            sql.append(" AND ");
            sql.append("started_at_ms >= ?");
            args.push(SqlArg::Integer(t as i64));
            proof {
                step_done(done, c);
                done = done.push(c);
                assert(sql@ =~= pre + " AND "@ + c.0);
                assert(arg_models(args@) =~= done.map_values(|c: (Seq<char>, ArgModel)| c.1));
            }
        },
        None => {},
    }
    proof {
        assert(done =~= d2 + match filter.since_ms {
            Some(t) => seq![("started_at_ms >= ?"@, ArgModel::Integer(t as i64))],
            None => Seq::empty(),
        });
        assert(done =~= conds);
    }
    (sql, args)
}

/// Adding a condition extends the joined text by ` AND ` and the condition.
proof fn step_done(done: Seq<(Seq<char>, ArgModel)>, c: (Seq<char>, ArgModel))
    requires
        done.len() > 0,
    ensures
        join_and(done.push(c).map_values(|c: (Seq<char>, ArgModel)| c.0))
            == join_and(done.map_values(|c: (Seq<char>, ArgModel)| c.0)) + " AND "@ + c.0,
        done.push(c).map_values(|c: (Seq<char>, ArgModel)| c.1) == done.map_values(|c: (Seq<char>, ArgModel)| c.1).push(c.1),
{
    let m = done.map_values(|c: (Seq<char>, ArgModel)| c.0);
    assert(done.push(c).map_values(|c: (Seq<char>, ArgModel)| c.0) =~= m.push(c.0));
    lemma_join_push(m, c.0);
    assert(done.push(c).map_values(|c: (Seq<char>, ArgModel)| c.1) =~= done.map_values(|c: (Seq<char>, ArgModel)| c.1).push(c.1));
}

proof fn lemma_join_push(cs: Seq<Seq<char>>, c: Seq<char>)
    requires
        cs.len() > 0,
    ensures
        join_and(cs.push(c)) == join_and(cs) + " AND "@ + c,
{
    assert(cs.push(c).drop_last() =~= cs);
}

/// Positions among the first `n` values whose day is `day`.
pub open spec fn count_day(started: Seq<i64>, day: u64, n: int) -> nat
    decreases n,
{
    if n <= 0 {
        0
    } else {
        count_day(started, day, n - 1) + if (started[n - 1] as u64) / DAY_MS == day { 1nat } else { 0nat }
    }
}

/// Day number of slot `i` (0 to 6, oldest first) of the week ending on the day of `now_ms`.
pub open spec fn week_day(now_ms: u64, i: int) -> u64 {
    let today = now_ms / DAY_MS;
    if today >= 6 - i { (today - (6 - i)) as u64 } else { 0 }
}

/// Sessions started on each of the seven days ending today, oldest first, by weekday name;
/// `started` holds the start times (as stored) of the sessions of the last week.
pub fn sessions_by_day(now_ms: u64, started: &[i64]) -> (r: Vec<(String, u64)>)
    ensures
        r@.len() == 7,
        forall|i: int| 0 <= i < 7 ==> (#[trigger] r@[i]).0@ == weekday_name(((week_day(now_ms, i) as int) + 4) % 7)
            && r@[i].1 == count_day(started@, week_day(now_ms, i), started@.len() as int),
{
    let today = now_ms / DAY_MS;
    let mut out: Vec<(String, u64)> = Vec::new();
    let mut i: u64 = 0;
    while i < 7
        invariant
            i <= 7,
            today == now_ms / DAY_MS,
            out@.len() == i,
            forall|q: int| 0 <= q < i ==> (#[trigger] out@[q]).0@ == weekday_name(((week_day(now_ms, q) as int) + 4) % 7)
                && out@[q].1 == count_day(started@, week_day(now_ms, q), started@.len() as int),
        decreases 7 - i,
    {
        let d = today.saturating_sub(6 - i);
        let mut c: u64 = 0;
        let mut j: usize = 0;
        while j < started.len()
            invariant
                j <= started.len(),
                d == week_day(now_ms, i as int),
                c == count_day(started@, d, j as int),
                c <= j,
            decreases started.len() - j,
        {
            if (started[j] as u64) / DAY_MS == d {
                c = c + 1;
            }
            j = j + 1;
        }
        out.push((day_label(d).to_string(), c));
        i = i + 1;
    }
    out
}

/// A page of a listing: its rows, the total, and where the next page starts when rows
/// remain past this one.
pub fn session_page(rows: Vec<SessionRecord>, total: usize, offset: usize) -> (r: SessionPage)
    ensures
        r.rows@ == rows@,
        r.total == total,
        r.next_offset == if offset + rows.len() < total { Some((offset + rows.len()) as usize) } else { None::<usize> },
{
    let next = offset.saturating_add(rows.len());
    let next_offset = if next < total { Some(next) } else { None };
    SessionPage { rows, total, next_offset }
}

/// The conditions of a listing: first the workspace; then the agent prefix when a non-empty
/// one is given, the status when one is given and the start time when one is given, each
/// with its own value and each independently of the others; the start time comes last.
pub proof fn lemma_filter_conditions(ws: Seq<char>, f: SessionFilter)
    ensures
        filter_conditions(ws, f).len() == 1 + (if f.agent_prefix is Some && f.agent_prefix->Some_0@.len() > 0 {
            1int
        } else {
            0
        }) + (if f.status is Some { 1int } else { 0 }) + (if f.since_ms is Some { 1int } else { 0 }),
        filter_conditions(ws, f)[0] == ("workspace = ?"@, ArgModel::Text(ws)),
        f.since_ms is Some ==> filter_conditions(ws, f).last() == (
            "started_at_ms >= ?"@,
            ArgModel::Integer(f.since_ms->Some_0 as i64),
        ),
        f.status is Some ==> filter_conditions(ws, f).contains(
            ("status = ?"@, ArgModel::Text(status_name_spec(f.status->Some_0))),
        ),
        f.agent_prefix is Some && f.agent_prefix->Some_0@.len() > 0 ==> filter_conditions(ws, f).contains(
            (
                "lower(agent) LIKE ? ESCAPE '\\'"@,
                ArgModel::Text(escape_like_chars(lowercase(f.agent_prefix->Some_0@)) + seq!['%']),
            ),
        ),
        f.since_ms is None ==> forall|i: int| 0 <= i < filter_conditions(ws, f).len()
            ==> (#[trigger] filter_conditions(ws, f)[i]).0 != "started_at_ms >= ?"@,
        f.status is None ==> forall|i: int| 0 <= i < filter_conditions(ws, f).len()
            ==> (#[trigger] filter_conditions(ws, f)[i]).0 != "status = ?"@,
{
    reveal_strlit("workspace = ?");
    reveal_strlit("started_at_ms >= ?");
    reveal_strlit("status = ?");
    reveal_strlit("lower(agent) LIKE ? ESCAPE '\\'");
    let c = filter_conditions(ws, f);
    let a = seq![("workspace = ?"@, ArgModel::Text(ws))];
    let b: Seq<(Seq<char>, ArgModel)> = match prefix_of(f) {
        Some(p) => seq![("lower(agent) LIKE ? ESCAPE '\\'"@, ArgModel::Text(escape_like_chars(lowercase(p)) + seq!['%']))],
        None => Seq::empty(),
    };
    let d: Seq<(Seq<char>, ArgModel)> = match f.status {
        Some(s) => seq![("status = ?"@, ArgModel::Text(status_name_spec(s)))],
        None => Seq::empty(),
    };
    let e: Seq<(Seq<char>, ArgModel)> = match f.since_ms {
        Some(t) => seq![("started_at_ms >= ?"@, ArgModel::Integer(t as i64))],
        None => Seq::empty(),
    };
    assert(c == a + b + d + e);
    if f.status is Some {
        assert(c[1 + b.len() as int] == d[0]);
    }
    if f.agent_prefix is Some && f.agent_prefix->Some_0@.len() > 0 {
        assert(c[1] == b[0]);
    }
    if f.since_ms is None {
        assert forall|i: int| 0 <= i < c.len() implies (#[trigger] c[i]).0 != "started_at_ms >= ?"@ by {
            assert("started_at_ms >= ?"@[0] != "workspace = ?"@[0]);
            assert("started_at_ms >= ?"@[0] != "lower(agent) LIKE ? ESCAPE '\\'"@[0]);
            assert("started_at_ms >= ?"@[3] != "status = ?"@[3]);
        }
    }
    if f.status is None {
        assert forall|i: int| 0 <= i < c.len() implies (#[trigger] c[i]).0 != "status = ?"@ by {
            assert("status = ?"@[0] != "workspace = ?"@[0]);
            assert("status = ?"@[0] != "lower(agent) LIKE ? ESCAPE '\\'"@[0]);
            assert("started_at_ms >= ?"@[3] != "status = ?"@[3]);
        }
    }
}

} // verus!
