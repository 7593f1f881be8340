//! Counts by name, ranked largest first (ties by name), as the reports list them.

use vstd::prelude::*;
use crate::table::{keys, lemma_table_at, lemma_table_dom, table, table_ok};
use crate::text::{lemma_seq_lt_asym, lemma_seq_lt_irreflexive, lemma_seq_lt_total, lemma_seq_lt_trans, seq_lt, str_lt};

verus! {

/// `a` ranks before `b`: a larger count, or an equal count and a smaller name.
pub open spec fn rank_lt(a: (Seq<char>, u64), b: (Seq<char>, u64)) -> bool {
    a.1 > b.1 || (a.1 == b.1 && seq_lt(a.0, b.0))
}

/// Strictly ranked.
pub open spec fn ranked(s: Seq<(Seq<char>, u64)>) -> bool {
    forall|i: int, j: int| 0 <= i < j < s.len() ==> rank_lt(#[trigger] s[i], #[trigger] s[j])
}

/// The entries of a count map, ranked.
pub open spec fn ranking(m: Map<Seq<char>, u64>) -> Seq<(Seq<char>, u64)> {
    choose|s: Seq<(Seq<char>, u64)>| ranked(s) && s.to_set() == m.kv_pairs()
}

/// The first `limit` entries of the ranking.
pub open spec fn top(m: Map<Seq<char>, u64>, limit: nat) -> Seq<(Seq<char>, u64)> {
    if ranking(m).len() <= limit {
        ranking(m)
    } else {
        ranking(m).take(limit as int)
    }
}

pub proof fn lemma_rank_lt_trans(a: (Seq<char>, u64), b: (Seq<char>, u64), c: (Seq<char>, u64))
    requires
        rank_lt(a, b),
        rank_lt(b, c),
    ensures
        rank_lt(a, c),
{
    if a.1 == b.1 && b.1 == c.1 {
        lemma_seq_lt_trans(a.0, b.0, c.0);
    }
}

pub proof fn lemma_rank_lt_irreflexive(a: (Seq<char>, u64))
    ensures
        !rank_lt(a, a),
{
    lemma_seq_lt_irreflexive(a.0);
}

/// Two strictly ranked sequences with the same entries are equal.
pub proof fn lemma_ranked_unique(a: Seq<(Seq<char>, u64)>, b: Seq<(Seq<char>, u64)>)
    requires
        ranked(a),
        ranked(b),
        a.to_set() == b.to_set(),
    ensures
        a == b,
    decreases a.len(),
{
    if a.len() == 0 {
        if b.len() > 0 {
            assert(b.to_set().contains(b[0]));
        }
        assert(a =~= b);
    } else {
        if b.len() == 0 {
            assert(a.to_set().contains(a[0]));
        }
        assert(a.to_set().contains(a[0]));
        assert(b.to_set().contains(b[0]));
        let ia = choose|i: int| 0 <= i < b.len() && b[i] == a[0];
        let ib = choose|i: int| 0 <= i < a.len() && a[i] == b[0];
        if a[0] != b[0] {
            assert(ia > 0 && ib > 0);
            assert(rank_lt(b[0], b[ia]));
            assert(rank_lt(a[0], a[ib]));
            lemma_rank_lt_trans(a[0], b[0], a[0]);
            lemma_rank_lt_irreflexive(a[0]);
        }
        let ra = a.drop_first();
        let rb = b.drop_first();
        assert forall|x: (Seq<char>, u64)| ra.to_set().contains(x) <==> rb.to_set().contains(x) by {
            if ra.to_set().contains(x) {
                let i = choose|i: int| 0 <= i < ra.len() && ra[i] == x;
                assert(a[i + 1] == x);
                assert(rank_lt(a[0], a[i + 1]));
                lemma_rank_lt_irreflexive(x);
                assert(a.to_set().contains(x));
                let j = choose|j: int| 0 <= j < b.len() && b[j] == x;
                if j == 0 {
                    assert(false);
                }
                assert(rb[j - 1] == x);
            }
            if rb.to_set().contains(x) {
                let i = choose|i: int| 0 <= i < rb.len() && rb[i] == x;
                assert(b[i + 1] == x);
                assert(rank_lt(b[0], b[i + 1]));
                lemma_rank_lt_irreflexive(x);
                assert(b.to_set().contains(x));
                let j = choose|j: int| 0 <= j < a.len() && a[j] == x;
                if j == 0 {
                    assert(false);
                }
                assert(ra[j - 1] == x);
            }
        }
        assert(ra.to_set() =~= rb.to_set());
        lemma_ranked_unique(ra, rb);
        assert(a =~= seq![a[0]] + ra);
        assert(b =~= seq![b[0]] + rb);
    }
}

/// A ranked sequence holding exactly a map's entries is the map's ranking.
pub proof fn lemma_ranking_is(m: Map<Seq<char>, u64>, s: Seq<(Seq<char>, u64)>)
    requires
        ranked(s),
        s.to_set() == m.kv_pairs(),
    ensures
        ranking(m) == s,
{
    let c = ranking(m);
    assert(ranked(c) && c.to_set() == m.kv_pairs());
    lemma_ranked_unique(c, s);
}

/// The counts of a table, as a map.
pub open spec fn count_views(v: Seq<(String, u64)>) -> Seq<(Seq<char>, u64)> {
    v.map_values(|p: (String, u64)| (p.0@, p.1))
}

/// Inserts an entry into a ranked vector at its place.
fn insert_ranked(v: &mut Vec<(String, u64)>, name: String, count: u64)
    requires
        ranked(count_views(old(v)@)),
        !count_views(old(v)@).to_set().contains((name@, count)),
    ensures
        ranked(count_views(final(v)@)),
        count_views(final(v)@).to_set() == count_views(old(v)@).to_set().insert((name@, count)),
{
    let ghost ov = count_views(v@);
    let ghost x = (name@, count);
    let mut i: usize = 0;
    let mut done = false;
    while !done && i < v.len()
        invariant
            i <= v.len(),
            count_views(v@) == ov,
            x == (name@, count),
            forall|k: int| 0 <= k < i ==> rank_lt(#[trigger] ov[k], x),
            done ==> i < v.len() && !rank_lt(ov[i as int], x),
        decreases v.len() - i + (if done { 0int } else { 1int }),
    {
        assert(ov[i as int] == (v@[i as int].0@, v@[i as int].1));
        let c = v[i].1;
        let before = c > count || (c == count && str_lt(v[i].0.as_str(), name.as_str()));
        assert(before == rank_lt(ov[i as int], x));
        if before {
            i = i + 1;
        } else {
            done = true;
        }
    }
    proof {
        if i < v.len() {
            assert(ov.to_set().contains(ov[i as int]));
            assert(ov[i as int] != x);
            if ov[i as int].1 == count {
                lemma_seq_lt_total(x.0, ov[i as int].0);
            }
            assert(rank_lt(x, ov[i as int]));
        }
    }
    v.insert(i, (name, count));
    proof {
        let nv = count_views(v@);
        assert(nv =~= ov.insert(i as int, x));
        assert forall|a: int, b: int| 0 <= a < b < nv.len() implies rank_lt(#[trigger] nv[a], #[trigger] nv[b]) by {
            if b < i {
                assert(nv[a] == ov[a] && nv[b] == ov[b]);
            } else if b == i {
                assert(nv[a] == ov[a]);
            } else if a == i {
                assert(nv[b] == ov[b - 1]);
                if b - 1 > i {
                    lemma_rank_lt_trans(x, ov[i as int], ov[b - 1]);
                }
            } else if a < i {
                assert(nv[a] == ov[a] && nv[b] == ov[b - 1]);
            } else {
                assert(nv[a] == ov[a - 1] && nv[b] == ov[b - 1]);
            }
        }
        assert forall|y: (Seq<char>, u64)| nv.to_set().contains(y) <==> ov.to_set().insert(x).contains(y) by {
            if nv.to_set().contains(y) {
                let k = choose|k: int| 0 <= k < nv.len() && nv[k] == y;
                if k < i {
                    assert(ov[k] == y);
                } else if k > i {
                    assert(ov[k - 1] == y);
                }
            }
            if ov.to_set().contains(y) && y != x {
                let k = choose|k: int| 0 <= k < ov.len() && ov[k] == y;
                if k < i {
                    assert(nv[k] == y);
                } else {
                    assert(nv[k + 1] == y);
                }
            }
            if y == x {
                assert(nv[i as int] == x);
            }
        }
        assert(nv.to_set() =~= ov.to_set().insert(x));
    }
}

/// The entries of a count table, ranked: largest count first, ties by name.
pub fn rank_counts(t: &Vec<(String, u64)>) -> (r: Vec<(String, u64)>)
    requires
        table_ok(t@),
    ensures
        count_views(r@) == ranking(table(t@)),
{
    let mut out: Vec<(String, u64)> = Vec::new();
    let mut i: usize = 0;
    proof {
        assert(count_views(out@).to_set() =~= Set::empty());
    }
    while i < t.len()
        invariant
            i <= t.len(),
            table_ok(t@),
            ranked(count_views(out@)),
            count_views(out@).to_set() == Set::new(|p: (Seq<char>, u64)| exists|k: int| 0 <= k < i && p == (t@[k].0@, t@[k].1)),
        decreases t.len() - i,
    {
        let ghost pre = count_views(out@).to_set();
        proof {
            if pre.contains((t@[i as int].0@, t@[i as int].1)) {
                let k = choose|k: int| 0 <= k < i && (t@[i as int].0@, t@[i as int].1) == (t@[k].0@, t@[k].1);
                assert(keys(t@)[k] == keys(t@)[i as int]);
                lemma_seq_lt_irreflexive(keys(t@)[k]);
                assert(seq_lt(keys(t@)[k], keys(t@)[i as int]));
            }
        }
        insert_ranked(&mut out, t[i].0.clone(), t[i].1);
        proof {
            assert(count_views(out@).to_set() =~= Set::new(|p: (Seq<char>, u64)| exists|k: int| 0 <= k < i + 1 && p == (t@[k].0@, t@[k].1)));
        }
        i = i + 1;
    }
    proof {
        let m = table(t@);
        assert forall|p: (Seq<char>, u64)| count_views(out@).to_set().contains(p) <==> m.kv_pairs().contains(p) by {
            if count_views(out@).to_set().contains(p) {
                let k = choose|k: int| 0 <= k < t.len() && p == (t@[k].0@, t@[k].1);
                lemma_table_at(t@, k);
            }
            if m.kv_pairs().contains(p) {
                assert(m.contains_key(p.0) && m[p.0] == p.1);
                let k = choose|k: int| 0 <= k < keys(t@).len() && keys(t@)[k] == p.0;
                lemma_table_at(t@, k);
                assert(p == (t@[k].0@, t@[k].1));
            }
        }
        assert(count_views(out@).to_set() =~= m.kv_pairs());
        lemma_ranking_is(m, count_views(out@));
    }
    out
}

/// The first `limit` entries of the ranking of a count table.
pub fn top_counts(t: &Vec<(String, u64)>, limit: usize) -> (r: Vec<(String, u64)>)
    requires
        table_ok(t@),
    ensures
        count_views(r@) == top(table(t@), limit as nat),
{
    let mut r = rank_counts(t);
    r.truncate(limit);
    proof {
        if count_views(r@).len() > limit {
        }
        assert(count_views(r@) =~= top(table(t@), limit as nat));
    }
    r
}

} // verus!
