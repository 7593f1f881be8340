//! Adoption and cost of skills and rules over a window: how many sessions referenced each
//! one, what those sessions cost, and whether it is present on disk.

use vstd::prelude::*;
use crate::contracts::GuidanceKind;
use crate::group::{group_ids, key_ids, keys_upto, lemma_sorted_len};
use crate::table::{keys, lemma_table_at, lemma_table_dom, table, table_find, table_ok};
use crate::text::{
    lemma_seq_lt_irreflexive, lemma_seq_lt_total, lemma_seq_lt_trans, lemma_sorted_of, seq_lt, sort_dedup,
    sorted_of, str_eq, str_lt, strictly_sorted, views,
};

verus! {

/// The cost recorded for `sid` among the first `n` entries (the last such entry; 0 when
/// there is none).
pub open spec fn cost_upto(costs: Seq<(String, i64)>, sid: Seq<char>, n: int) -> int
    decreases n,
{
    if n <= 0 {
        0
    } else if costs[n - 1].0@ == sid {
        costs[n - 1].1 as int
    } else {
        cost_upto(costs, sid, n - 1)
    }
}

pub open spec fn cost_of(costs: Seq<(String, i64)>, sid: Seq<char>) -> int {
    cost_upto(costs, sid, costs.len() as int)
}

/// Total cost of the sessions of `s`.
pub open spec fn seq_cost(costs: Seq<(String, i64)>, s: Seq<Seq<char>>) -> int
    decreases s.len(),
{
    if s.len() == 0 {
        0
    } else {
        seq_cost(costs, s.drop_last()) + cost_of(costs, s.last())
    }
}

/// Total cost of a set of sessions.
pub open spec fn set_cost(costs: Seq<(String, i64)>, sessions: Set<Seq<char>>) -> int {
    seq_cost(costs, sorted_of(sessions))
}

/// One report row, before percentages and averages.
#[derive(Debug, Clone, PartialEq, Eq)]
pub struct GuidanceCount {
    pub kind: GuidanceKind,
    pub id: String,
    pub sessions: u64,
    pub total_cost_usd_e6: i64,
    pub on_disk: bool,
}

/// The counts of a window: sessions active in it, their total cost, and a row per skill
/// and rule that was used or is on disk.
#[derive(Debug, Clone, PartialEq, Eq)]
pub struct GuidanceCounts {
    pub sessions_in_window: u64,
    pub total_cost_usd_e6: i64,
    pub rows: Vec<GuidanceCount>,
}

pub struct RowModel {
    pub kind: GuidanceKind,
    pub id: Seq<char>,
    pub sessions: nat,
    pub total_cost: int,
    pub on_disk: bool,
}

pub open spec fn row_model(r: GuidanceCount) -> RowModel {
    RowModel { kind: r.kind, id: r.id@, sessions: r.sessions as nat, total_cost: r.total_cost_usd_e6 as int, on_disk: r.on_disk }
}

pub open spec fn kind_rank(k: GuidanceKind) -> int {
    match k {
        GuidanceKind::Skill => 0,
        GuidanceKind::Rule => 1,
    }
}

/// Report order: more sessions first, then skills before rules, then by id.
pub open spec fn guide_lt(a: RowModel, b: RowModel) -> bool {
    ||| a.sessions > b.sessions
    ||| a.sessions == b.sessions && kind_rank(a.kind) < kind_rank(b.kind)
    ||| a.sessions == b.sessions && a.kind == b.kind && seq_lt(a.id, b.id)
}

pub open spec fn guide_sorted(s: Seq<RowModel>) -> bool {
    forall|i: int, j: int| 0 <= i < j < s.len() ==> guide_lt(#[trigger] s[i], #[trigger] s[j])
}

/// The sessions whose usage rows (session, id) name `id`.
pub open spec fn id_sessions(usage: Seq<(String, String)>, id: Seq<char>) -> Set<Seq<char>> {
    Set::new(|sid: Seq<char>| exists|j: int| 0 <= j < usage.len() && usage[j].1@ == id && usage[j].0@ == sid)
}

/// The ids named in usage rows or present on disk.
pub open spec fn listed_ids(usage: Seq<(String, String)>, on_disk: Seq<String>) -> Set<Seq<char>> {
    Set::new(|id: Seq<char>| (exists|j: int| 0 <= j < usage.len() && usage[j].1@ == id) || views(on_disk).contains(id))
}

/// The row of `id`.
pub open spec fn expected_row(
    kind: GuidanceKind,
    id: Seq<char>,
    usage: Seq<(String, String)>,
    on_disk: Seq<String>,
    costs: Seq<(String, i64)>,
) -> RowModel {
    RowModel {
        kind,
        id,
        sessions: id_sessions(usage, id).len(),
        total_cost: set_cost(costs, id_sessions(usage, id)),
        on_disk: views(on_disk).contains(id),
    }
}

/// All rows of one kind.
pub open spec fn kind_rows(
    kind: GuidanceKind,
    usage: Seq<(String, String)>,
    on_disk: Seq<String>,
    costs: Seq<(String, i64)>,
) -> Set<RowModel> {
    Set::new(|r: RowModel| r.kind == kind && listed_ids(usage, on_disk).contains(r.id)
        && r == expected_row(kind, r.id, usage, on_disk, costs))
}

pub open spec fn fits_i64(x: int) -> bool {
    i64::MIN <= x <= i64::MAX
}

/// Every total of the report fits an `i64`.
pub open spec fn totals_fit(
    active: Seq<String>,
    costs: Seq<(String, i64)>,
    skills: Seq<(String, String)>,
    rules: Seq<(String, String)>,
    skills_on_disk: Seq<String>,
    rules_on_disk: Seq<String>,
) -> bool {
    &&& fits_i64(set_cost(costs, views(active).to_set()))
    &&& forall|id: Seq<char>| #[trigger] listed_ids(skills, skills_on_disk).contains(id) ==> fits_i64(set_cost(costs, id_sessions(skills, id)))
    &&& forall|id: Seq<char>| #[trigger] listed_ids(rules, rules_on_disk).contains(id) ==> fits_i64(set_cost(costs, id_sessions(rules, id)))
}

pub proof fn lemma_guide_lt_trans(a: RowModel, b: RowModel, c: RowModel)
    requires
        guide_lt(a, b),
        guide_lt(b, c),
    ensures
        guide_lt(a, c),
{
    if a.sessions == b.sessions && b.sessions == c.sessions && a.kind == b.kind && b.kind == c.kind {
        lemma_seq_lt_trans(a.id, b.id, c.id);
    }
}

pub proof fn lemma_guide_lt_irreflexive(a: RowModel)
    ensures
        !guide_lt(a, a),
{
    lemma_seq_lt_irreflexive(a.id);
}

/// Two report-ordered sequences with the same rows are equal.
pub proof fn lemma_guide_sorted_unique(a: Seq<RowModel>, b: Seq<RowModel>)
    requires
        guide_sorted(a),
        guide_sorted(b),
        a.to_set() == b.to_set(),
    ensures
        a == b,
    decreases a.len(),
{
    if a.len() == 0 {
        if b.len() > 0 {
            assert(b.to_set().contains(b[0]));
        }
        assert(a =~= b);
    } else {
        if b.len() == 0 {
            assert(a.to_set().contains(a[0]));
        }
        assert(a.to_set().contains(a[0]));
        assert(b.to_set().contains(b[0]));
        let ia = choose|i: int| 0 <= i < b.len() && b[i] == a[0];
        let ib = choose|i: int| 0 <= i < a.len() && a[i] == b[0];
        if a[0] != b[0] {
            assert(ia > 0 && ib > 0);
            assert(guide_lt(b[0], b[ia]));
            assert(guide_lt(a[0], a[ib]));
            lemma_guide_lt_trans(a[0], b[0], a[0]);
            lemma_guide_lt_irreflexive(a[0]);
        }
        let ra = a.drop_first();
        let rb = b.drop_first();
        assert forall|x: RowModel| ra.to_set().contains(x) <==> rb.to_set().contains(x) by {
            if ra.to_set().contains(x) {
                let i = choose|i: int| 0 <= i < ra.len() && ra[i] == x;
                assert(a[i + 1] == x);
                assert(guide_lt(a[0], a[i + 1]));
                lemma_guide_lt_irreflexive(x);
                assert(a.to_set().contains(x));
                let j = choose|j: int| 0 <= j < b.len() && b[j] == x;
                if j == 0 {
                    assert(false);
                }
                assert(rb[j - 1] == x);
            }
            if rb.to_set().contains(x) {
                let i = choose|i: int| 0 <= i < rb.len() && rb[i] == x;
                assert(b[i + 1] == x);
                assert(guide_lt(b[0], b[i + 1]));
                lemma_guide_lt_irreflexive(x);
                assert(b.to_set().contains(x));
                let j = choose|j: int| 0 <= j < a.len() && a[j] == x;
                if j == 0 {
                    assert(false);
                }
                assert(ra[j - 1] == x);
            }
        }
        assert(ra.to_set() =~= rb.to_set());
        lemma_guide_sorted_unique(ra, rb);
        assert(a =~= seq![a[0]] + ra);
        assert(b =~= seq![b[0]] + rb);
    }
}

pub open spec fn row_models(v: Seq<GuidanceCount>) -> Seq<RowModel> {
    v.map_values(|r: GuidanceCount| row_model(r))
}

/// The cost recorded for `sid`.
fn cost_lookup(costs: &Vec<(String, i64)>, sid: &str) -> (r: i64)
    ensures
        r as int == cost_of(costs@, sid@),
{
    let mut cur: i64 = 0;
    let mut j: usize = 0;
    while j < costs.len()
        invariant
            j <= costs.len(),
            cur as int == cost_upto(costs@, sid@, j as int),
        decreases costs.len() - j,
    {
        if str_eq(costs[j].0.as_str(), sid) {
            cur = costs[j].1;
        }
        j = j + 1;
    }
    cur
}

proof fn lemma_seq_cost_bound(costs: Seq<(String, i64)>, s: Seq<Seq<char>>)
    ensures
        -(s.len() * 0x8000_0000_0000_0000) <= seq_cost(costs, s) <= s.len() * 0x8000_0000_0000_0000,
    decreases s.len(),
{
    if s.len() > 0 {
        lemma_seq_cost_bound(costs, s.drop_last());
        lemma_cost_of_bound(costs, s.last(), costs.len() as int);
        assert((s.len() - 1) * 0x8000_0000_0000_0000 + 0x8000_0000_0000_0000 == s.len() * 0x8000_0000_0000_0000) by (nonlinear_arith);
    }
}

proof fn lemma_cost_of_bound(costs: Seq<(String, i64)>, sid: Seq<char>, n: int)
    ensures
        i64::MIN <= cost_upto(costs, sid, n) <= i64::MAX,
    decreases n,
{
    if n > 0 {
        lemma_cost_of_bound(costs, sid, n - 1);
    }
}

/// Total cost of the listed sessions, exactly.
fn sum_costs(costs: &Vec<(String, i64)>, sids: &Vec<String>) -> (r: i128)
    ensures
        r as int == seq_cost(costs@, views(sids@)),
{
    let mut acc: i128 = 0;
    let mut j: usize = 0;
    while j < sids.len()
        invariant
            j <= sids.len(),
            acc as int == seq_cost(costs@, views(sids@).take(j as int)),
        decreases sids.len() - j,
    {
        let c = cost_lookup(costs, sids[j].as_str());
        proof {
            let t = views(sids@).take(j + 1);
            assert(t.drop_last() =~= views(sids@).take(j as int));
            assert(t.last() == sids@[j as int]@);
            lemma_seq_cost_bound(costs@, views(sids@).take(j as int));
            assert(j * 0x8000_0000_0000_0000 < 0x8000_0000_0000_0000_0000_0000_0000_0000 - 0x8000_0000_0000_0000) by (nonlinear_arith)
                requires
                    j < 0x1_0000_0000_0000_0000 - 1,
            ;
        }
        acc = acc + c as i128;
        j = j + 1;
    }
    assert(views(sids@).take(sids.len() as int) =~= views(sids@));
    acc
}

/// Whether `v` holds `s`.
fn contains_str(v: &Vec<String>, s: &str) -> (r: bool)
    ensures
        r == views(v@).contains(s@),
{
    let mut j: usize = 0;
    while j < v.len()
        invariant
            j <= v.len(),
            forall|q: int| 0 <= q < j ==> views(v@)[q] != s@,
        decreases v.len() - j,
    {
        if str_eq(v[j].as_str(), s) {
            assert(views(v@)[j as int] == s@);
            return true;
        }
        j = j + 1;
    }
    false
}

/// Inserts a row at its place in report order.
fn insert_row(v: &mut Vec<GuidanceCount>, row: GuidanceCount)
    requires
        guide_sorted(row_models(old(v)@)),
        forall|q: int| 0 <= q < old(v)@.len() ==> !((#[trigger] old(v)@[q]).kind == row.kind && old(v)@[q].id@ == row.id@),
    ensures
        guide_sorted(row_models(final(v)@)),
        row_models(final(v)@).to_set() == row_models(old(v)@).to_set().insert(row_model(row)),
{
    let ghost ov = row_models(v@);
    let ghost x = row_model(row);
    let mut i: usize = 0;
    let mut done = false;
    while !done && i < v.len()
        invariant
            i <= v.len(),
            row_models(v@) == ov,
            x == row_model(row),
            forall|k: int| 0 <= k < i ==> guide_lt(#[trigger] ov[k], x),
            done ==> i < v.len() && !guide_lt(ov[i as int], x),
        decreases v.len() - i + (if done { 0int } else { 1int }),
    {
        let ghost cur = ov[i as int];
        assert(cur == row_model(v@[i as int]));
        let vs = v[i].sessions;
        let before = vs > row.sessions || (vs == row.sessions && (
            (v[i].kind == GuidanceKind::Skill && row.kind == GuidanceKind::Rule) || (v[i].kind == row.kind
                && str_lt(v[i].id.as_str(), row.id.as_str()))));
        assert(before == guide_lt(cur, x));
        if before {
            i = i + 1;
        } else {
            done = true;
        }
    }
    proof {
        if i < v.len() {
            let c = ov[i as int];
            assert(!(v@[i as int].kind == row.kind && v@[i as int].id@ == row.id@));
            if c.sessions == x.sessions && c.kind == x.kind {
                lemma_seq_lt_total(x.id, c.id);
            }
            assert(guide_lt(x, c));
        }
    }
    v.insert(i, row);
    proof {
        let nv = row_models(v@);
        assert(nv =~= ov.insert(i as int, x));
        assert forall|a: int, b: int| 0 <= a < b < nv.len() implies guide_lt(#[trigger] nv[a], #[trigger] nv[b]) by {
            if b < i {
                assert(nv[a] == ov[a] && nv[b] == ov[b]);
            } else if b == i {
                assert(nv[a] == ov[a]);
            } else if a == i {
                assert(nv[b] == ov[b - 1]);
                if b - 1 > i {
                    lemma_guide_lt_trans(x, ov[i as int], ov[b - 1]);
                }
            } else if a < i {
                assert(nv[a] == ov[a] && nv[b] == ov[b - 1]);
            } else {
                assert(nv[a] == ov[a - 1] && nv[b] == ov[b - 1]);
            }
        }
        assert forall|y: RowModel| nv.to_set().contains(y) <==> ov.to_set().insert(x).contains(y) by {
            if nv.to_set().contains(y) {
                let k = choose|k: int| 0 <= k < nv.len() && nv[k] == y;
                if k < i {
                    assert(ov[k] == y);
                } else if k > i {
                    assert(ov[k - 1] == y);
                }
            }
            if ov.to_set().contains(y) && y != x {
                let k = choose|k: int| 0 <= k < ov.len() && ov[k] == y;
                if k < i {
                    assert(nv[k] == y);
                } else {
                    assert(nv[k + 1] == y);
                }
            }
            if y == x {
                assert(nv[i as int] == x);
            }
        }
        assert(nv.to_set() =~= ov.to_set().insert(x));
    }
}

/// The ids of the usage rows, and their sessions.
pub open spec fn usage_ids(usage: Seq<(String, String)>) -> Seq<Seq<char>> {
    usage.map_values(|p: (String, String)| p.1@)
}

pub open spec fn usage_sids(usage: Seq<(String, String)>) -> Seq<Seq<char>> {
    usage.map_values(|p: (String, String)| p.0@)
}

proof fn lemma_id_sessions(usage: Seq<(String, String)>, id: Seq<char>)
    ensures
        id_sessions(usage, id) == key_ids(usage_ids(usage), usage_sids(usage), id, usage.len() as int),
{
    let a = id_sessions(usage, id);
    let b = key_ids(usage_ids(usage), usage_sids(usage), id, usage.len() as int);
    assert forall|s: Seq<char>| a.contains(s) <==> b.contains(s) by {
        if a.contains(s) {
            let j = choose|j: int| 0 <= j < usage.len() && usage[j].1@ == id && usage[j].0@ == s;
            assert(usage_ids(usage)[j] == id && usage_sids(usage)[j] == s);
        }
        if b.contains(s) {
            let j = choose|j: int| 0 <= j < usage.len() && usage_ids(usage)[j] == id && usage_sids(usage)[j] == s;
            assert(usage[j].1@ == id && usage[j].0@ == s);
        }
    }
    assert(a =~= b);
}

/// The rows of one kind, added to `out` in report order; false (with `out` unspecified)
/// when some total does not fit an `i64`.
fn add_kind_rows(
    kind: GuidanceKind,
    usage: &Vec<(String, String)>,
    on_disk: &Vec<String>,
    costs: &Vec<(String, i64)>,
    out: &mut Vec<GuidanceCount>,
) -> (ok: bool)
    requires
        guide_sorted(row_models(old(out)@)),
        forall|q: int| 0 <= q < old(out)@.len() ==> (#[trigger] old(out)@[q]).kind != kind,
    ensures
        ok <==> forall|id: Seq<char>| #[trigger] listed_ids(usage@, on_disk@).contains(id)
            ==> fits_i64(set_cost(costs@, id_sessions(usage@, id))),
        ok ==> guide_sorted(row_models(final(out)@)),
        ok ==> row_models(final(out)@).to_set() == row_models(old(out)@).to_set().union(
            kind_rows(kind, usage@, on_disk@, costs@),
        ),
{
    let ghost start = row_models(out@).to_set();
    let ghost ou = usage@;
    let ghost od = on_disk@;
    let mut ids: Vec<String> = Vec::new();
    let mut sids: Vec<String> = Vec::new();
    let mut j: usize = 0;
    while j < usage.len()
        invariant
            j <= usage.len(),
            ou == usage@,
            views(ids@) == usage_ids(ou).take(j as int),
            views(sids@) == usage_sids(ou).take(j as int),
            ids.len() == j,
            sids.len() == j,
        decreases usage.len() - j,
    {
        ids.push(usage[j].1.clone());
        sids.push(usage[j].0.clone());
        proof {
            assert(views(ids@) =~= usage_ids(ou).take(j + 1));
            assert(views(sids@) =~= usage_sids(ou).take(j + 1));
        }
        j = j + 1;
    }
    proof {
        assert(views(ids@) =~= usage_ids(ou));
        assert(views(sids@) =~= usage_sids(ou));
    }
    let t = group_ids(&ids, &sids);
    let disk = sort_dedup(copy_list(on_disk));
    let ghost n = usage.len() as int;
    // Rows of the ids that were used.
    let mut q: usize = 0;
    while q < t.len()
        invariant
            q <= t.len(),
            table_ok(t@),
            ou == usage@,
            od == on_disk@,
            n == ou.len(),
            table(t@).dom() == keys_upto(usage_ids(ou), n),
            forall|k: Seq<char>| #[trigger] table(t@).contains_key(k) ==> strictly_sorted(views(table(t@)[k]@))
                && views(table(t@)[k]@).to_set() == key_ids(usage_ids(ou), usage_sids(ou), k, n),
            strictly_sorted(views(disk@)),
            views(disk@).to_set() == views(od).to_set(),
            guide_sorted(row_models(out@)),
            start == row_models(old(out)@).to_set(),
            forall|x: int| 0 <= x < old(out)@.len() ==> (#[trigger] old(out)@[x]).kind != kind,
            row_models(out@).to_set() == start.union(Set::new(|r: RowModel| exists|p: int| 0 <= p < q
                && r == expected_row(kind, t@[p].0@, ou, od, costs@))),
            forall|p: int| 0 <= p < q ==> fits_i64(#[trigger] set_cost(costs@, id_sessions(ou, t@[p].0@))),
        decreases t.len() - q,
    {
        let ghost id = t@[q as int].0@;
        proof {
            lemma_table_at(t@, q as int);
            lemma_id_sessions(ou, id);
            lemma_sorted_len(views(t@[q as int].1@));
            lemma_sorted_of(views(t@[q as int].1@));
        }
        let wide = sum_costs(costs, &t[q].1);
        if wide < i64::MIN as i128 || wide > i64::MAX as i128 {
            proof {
                assert(listed_ids(ou, od).contains(id)) by {
                    assert(keys(t@)[q as int] == id);
                    assert(keys_upto(usage_ids(ou), n).contains(id));
                    let j = choose|j: int| 0 <= j < n && usage_ids(ou)[j] == id;
                    assert(ou[j].1@ == id);
                }
            }
            return false;
        }
        let row = GuidanceCount {
            kind,
            id: t[q].0.clone(),
            sessions: t[q].1.len() as u64,
            total_cost_usd_e6: wide as i64,
            on_disk: contains_str(&disk, t[q].0.as_str()),
        };
        proof {
            assert(views(disk@).contains(id) <==> views(od).contains(id)) by {
                assert(views(disk@).to_set().contains(id) <==> views(disk@).contains(id));
                assert(views(od).to_set().contains(id) <==> views(od).contains(id));
            }
            assert(row_model(row) == expected_row(kind, id, ou, od, costs@));
            assert forall|x: int| 0 <= x < out@.len() implies !((#[trigger] out@[x]).kind == row.kind && out@[x].id@ == row.id@) by {
                if out@[x].kind == kind {
                    let m = row_model(out@[x]);
                    assert(row_models(out@)[x] == m);
                    assert(row_models(out@).to_set().contains(m));
                    if start.contains(m) {
                        let y = choose|y: int| 0 <= y < row_models(old(out)@).len() && row_models(old(out)@)[y] == m;
                        assert(old(out)@[y].kind == kind);
                    } else {
                        let p = choose|p: int| 0 <= p < q && m == expected_row(kind, t@[p].0@, ou, od, costs@);
                        assert(seq_lt(keys(t@)[p], keys(t@)[q as int]));
                        lemma_seq_lt_irreflexive(id);
                    }
                }
            }
        }
        insert_row(out, row);
        proof {
            assert(row_models(out@).to_set() =~= start.union(Set::new(|r: RowModel| exists|p: int| 0 <= p < q + 1
                && r == expected_row(kind, t@[p].0@, ou, od, costs@))));
        }
        q = q + 1;
    }
    let ghost mid = row_models(out@).to_set();
    proof {
        lemma_sorted_of(Seq::<Seq<char>>::empty());
        assert(Seq::<Seq<char>>::empty().to_set() =~= Set::<Seq<char>>::empty());
    }
    // Rows of the ids on disk that were not used.
    let mut d: usize = 0;
    while d < disk.len()
        invariant
            d <= disk.len(),
            table_ok(t@),
            ou == usage@,
            od == on_disk@,
            n == ou.len(),
            table(t@).dom() == keys_upto(usage_ids(ou), n),
            strictly_sorted(views(disk@)),
            views(disk@).to_set() == views(od).to_set(),
            guide_sorted(row_models(out@)),
            start == row_models(old(out)@).to_set(),
            forall|x: int| 0 <= x < old(out)@.len() ==> (#[trigger] old(out)@[x]).kind != kind,
            mid == start.union(Set::new(|r: RowModel| exists|p: int| 0 <= p < t@.len()
                && r == expected_row(kind, t@[p].0@, ou, od, costs@))),
            row_models(out@).to_set() == mid.union(Set::new(|r: RowModel| exists|e: int| 0 <= e < d
                && !table(t@).contains_key(views(disk@)[e]) && r == expected_row(kind, views(disk@)[e], ou, od, costs@))),
            sorted_of(Set::<Seq<char>>::empty()) == Seq::<Seq<char>>::empty(),
        decreases disk.len() - d,
    {
        let ghost id = views(disk@)[d as int];
        if table_find(&t, disk[d].as_str()).is_none() {
            proof {
                lemma_table_dom(t@);
                lemma_id_sessions(ou, id);
                assert(id_sessions(ou, id) =~= Set::<Seq<char>>::empty()) by {
                    if exists|s: Seq<char>| id_sessions(ou, id).contains(s) {
                        let s = choose|s: Seq<char>| id_sessions(ou, id).contains(s);
                        let j = choose|j: int| 0 <= j < ou.len() && ou[j].1@ == id && ou[j].0@ == s;
                        assert(usage_ids(ou)[j] == id);
                        assert(keys_upto(usage_ids(ou), n).contains(id));
                    }
                }
                assert(views(disk@).to_set().contains(id));
            }
            let row = GuidanceCount { kind, id: disk[d].clone(), sessions: 0, total_cost_usd_e6: 0, on_disk: true };
            proof {
                assert(views(od).to_set().contains(id));
                assert(row_model(row) == expected_row(kind, id, ou, od, costs@));
                assert forall|x: int| 0 <= x < out@.len() implies !((#[trigger] out@[x]).kind == row.kind && out@[x].id@ == row.id@) by {
                    if out@[x].kind == kind && out@[x].id@ == id {
                        let m = row_model(out@[x]);
                        assert(row_models(out@)[x] == m);
                        assert(row_models(out@).to_set().contains(m));
                        if start.contains(m) {
                            let y = choose|y: int| 0 <= y < row_models(old(out)@).len() && row_models(old(out)@)[y] == m;
                            assert(old(out)@[y].kind == kind);
                        } else if mid.contains(m) {
                            let p = choose|p: int| 0 <= p < t@.len() && m == expected_row(kind, t@[p].0@, ou, od, costs@);
                            lemma_table_at(t@, p);
                        } else {
                            let e = choose|e: int| 0 <= e < d && !table(t@).contains_key(views(disk@)[e])
                                && m == expected_row(kind, views(disk@)[e], ou, od, costs@);
                            assert(seq_lt(views(disk@)[e], views(disk@)[d as int]));
                            lemma_seq_lt_irreflexive(id);
                        }
                    }
                }
            }
            insert_row(out, row);
            proof {
                assert(row_models(out@).to_set() =~= mid.union(Set::new(|r: RowModel| exists|e: int| 0 <= e < d + 1
                    && !table(t@).contains_key(views(disk@)[e]) && r == expected_row(kind, views(disk@)[e], ou, od, costs@))));
            }
        } else {
            proof {
                assert(row_models(out@).to_set() =~= mid.union(Set::new(|r: RowModel| exists|e: int| 0 <= e < d + 1
                    && !table(t@).contains_key(views(disk@)[e]) && r == expected_row(kind, views(disk@)[e], ou, od, costs@))));
            }
        }
        d = d + 1;
    }
    proof {
        let kr = kind_rows(kind, ou, od, costs@);
        let built = Set::new(|r: RowModel| exists|p: int| 0 <= p < t@.len() && r == expected_row(kind, t@[p].0@, ou, od, costs@))
            .union(Set::new(|r: RowModel| exists|e: int| 0 <= e < disk@.len()
                && !table(t@).contains_key(views(disk@)[e]) && r == expected_row(kind, views(disk@)[e], ou, od, costs@)));
        assert forall|r: RowModel| built.contains(r) <==> kr.contains(r) by {
            if built.contains(r) {
                if exists|p: int| 0 <= p < t@.len() && r == expected_row(kind, t@[p].0@, ou, od, costs@) {
                    let p = choose|p: int| 0 <= p < t@.len() && r == expected_row(kind, t@[p].0@, ou, od, costs@);
                    lemma_table_at(t@, p);
                    assert(keys_upto(usage_ids(ou), n).contains(r.id));
                    let j = choose|j: int| 0 <= j < n && usage_ids(ou)[j] == r.id;
                    assert(ou[j].1@ == r.id);
                } else {
                    let e = choose|e: int| 0 <= e < disk@.len() && !table(t@).contains_key(views(disk@)[e])
                        && r == expected_row(kind, views(disk@)[e], ou, od, costs@);
                    assert(views(disk@).to_set().contains(r.id));
                    assert(views(od).to_set().contains(r.id));
                }
            }
            if kr.contains(r) {
                if table(t@).contains_key(r.id) {
                    let p = choose|p: int| 0 <= p < keys(t@).len() && keys(t@)[p] == r.id;
                    assert(t@[p].0@ == r.id);
                } else {
                    if exists|j: int| 0 <= j < ou.len() && ou[j].1@ == r.id {
                        let j = choose|j: int| 0 <= j < ou.len() && ou[j].1@ == r.id;
                        assert(usage_ids(ou)[j] == r.id);
                        assert(keys_upto(usage_ids(ou), n).contains(r.id));
                    }
                    assert(views(od).to_set().contains(r.id));
                    assert(views(disk@).to_set().contains(r.id));
                    let e = choose|e: int| 0 <= e < views(disk@).len() && views(disk@)[e] == r.id;
                }
            }
        }
        assert(row_models(out@).to_set() =~= start.union(kr));
        assert forall|id: Seq<char>| #[trigger] listed_ids(ou, od).contains(id) implies fits_i64(set_cost(costs@, id_sessions(ou, id))) by {
            if table(t@).contains_key(id) {
                let p = choose|p: int| 0 <= p < keys(t@).len() && keys(t@)[p] == id;
                assert(t@[p].0@ == id);
            } else {
                lemma_id_sessions(ou, id);
                assert(id_sessions(ou, id) =~= Set::<Seq<char>>::empty()) by {
                    if exists|s: Seq<char>| id_sessions(ou, id).contains(s) {
                        let s = choose|s: Seq<char>| id_sessions(ou, id).contains(s);
                        let j = choose|j: int| 0 <= j < ou.len() && ou[j].1@ == id && ou[j].0@ == s;
                        assert(usage_ids(ou)[j] == id);
                        assert(keys_upto(usage_ids(ou), n).contains(id));
                    }
                }
            }
        }
    }
    true
}

fn copy_list(v: &Vec<String>) -> (r: Vec<String>)
    ensures
        views(r@) == views(v@),
{
    crate::text::copy_strings(v)
}

/// The report counts of a window, from its active sessions (a set), per-session costs
/// (distinct sessions), usage rows `(session, skill)` and `(session, rule)`, and the skills
/// and rules on disk. Rows come in report order: more sessions first, then skills before
/// rules, then by id. `None` when a total does not fit an `i64`.
pub fn guidance_counts(
    active: &Vec<String>,
    costs: &Vec<(String, i64)>,
    skills: &Vec<(String, String)>,
    rules: &Vec<(String, String)>,
    skills_on_disk: &Vec<String>,
    rules_on_disk: &Vec<String>,
) -> (r: Option<GuidanceCounts>)
    ensures
        r is Some <==> totals_fit(active@, costs@, skills@, rules@, skills_on_disk@, rules_on_disk@),
        r matches Some(c) ==> {
            &&& c.sessions_in_window == views(active@).to_set().len()
            &&& c.total_cost_usd_e6 == set_cost(costs@, views(active@).to_set())
            &&& guide_sorted(row_models(c.rows@))
            &&& row_models(c.rows@).to_set() == kind_rows(GuidanceKind::Skill, skills@, skills_on_disk@, costs@).union(
                kind_rows(GuidanceKind::Rule, rules@, rules_on_disk@, costs@),
            )
        },
{
    let ghost av = views(active@);
    let act = sort_dedup(copy_list(active));
    proof {
        lemma_sorted_of(views(act@));
        lemma_sorted_len(views(act@));
    }
    let wide = sum_costs(costs, &act);
    let mut rows: Vec<GuidanceCount> = Vec::new();
    proof {
        assert(row_models(rows@).to_set() =~= Set::<RowModel>::empty());
    }
    let skills_ok = add_kind_rows(GuidanceKind::Skill, skills, skills_on_disk, costs, &mut rows);
    if !skills_ok {
        return None;
    }
    proof {
        assert forall|q: int| 0 <= q < rows@.len() implies (#[trigger] rows@[q]).kind != GuidanceKind::Rule by {
            assert(row_models(rows@)[q] == row_model(rows@[q]));
            assert(row_models(rows@).to_set().contains(row_model(rows@[q])));
        }
    }
    let ghost after_skills = row_models(rows@).to_set();
    let rules_ok = add_kind_rows(GuidanceKind::Rule, rules, rules_on_disk, costs, &mut rows);
    if !rules_ok {
        return None;
    }
    if wide < i64::MIN as i128 || wide > i64::MAX as i128 {
        return None;
    }
    proof {
        assert(Set::<RowModel>::empty().union(kind_rows(GuidanceKind::Skill, skills@, skills_on_disk@, costs@))
            =~= kind_rows(GuidanceKind::Skill, skills@, skills_on_disk@, costs@));
    }
    Some(GuidanceCounts { sessions_in_window: act.len() as u64, total_cost_usd_e6: wide as i64, rows })
}

} // verus!
