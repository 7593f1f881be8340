//! Grouping helpers: distinct ids per key, sums per key, distinct counts.

use vstd::prelude::*;
use crate::table::{keys, lemma_table_at, lemma_table_dom, lemma_table_update, table, table_find, table_insert, table_ok};
use crate::text::{insert_sorted, lemma_seq_lt_irreflexive, seq_lt, strictly_sorted, views};

verus! {

/// The distinct values of `ids` at the positions `mask` selects.
pub open spec fn masked_set(ids: Seq<Seq<char>>, mask: Seq<bool>) -> Set<Seq<char>> {
    Set::new(|s: Seq<char>| exists|j: int| 0 <= j < ids.len() && j < mask.len() && mask[j] && ids[j] == s)
}

/// Number of distinct ids among the selected positions.
pub fn distinct_count(ids: &Vec<String>, mask: &Vec<bool>) -> (r: u64)
    requires
        ids.len() == mask.len(),
    ensures
        r == masked_set(views(ids@), mask@).len(),
        masked_set(views(ids@), mask@).finite(),
{
    let mut seen: Vec<String> = Vec::new();
    let mut i: usize = 0;
    let ghost iv = views(ids@);
    proof {
        assert(views(seen@).to_set() =~= masked_set(iv.take(0), mask@));
    }
    while i < ids.len()
        invariant
            i <= ids.len(),
            ids.len() == mask.len(),
            iv == views(ids@),
            strictly_sorted(views(seen@)),
            views(seen@).to_set() == masked_set(iv.take(i as int), mask@),
        decreases ids.len() - i,
    {
        let ghost pre = views(seen@).to_set();
        if mask[i] {
            insert_sorted(&mut seen, ids[i].clone());
        }
        proof {
            assert(views(seen@).to_set() =~= masked_set(iv.take(i + 1), mask@)) by {
                assert forall|s: Seq<char>| masked_set(iv.take(i + 1), mask@).contains(s) <==> views(seen@).to_set().contains(s) by {
                    if masked_set(iv.take(i + 1), mask@).contains(s) {
                        let j = choose|j: int| 0 <= j < iv.take(i + 1).len() && j < mask@.len() && mask@[j] && iv.take(i + 1)[j] == s;
                        if j < i {
                            assert(iv.take(i as int)[j] == s);
                            assert(masked_set(iv.take(i as int), mask@).contains(s));
                        }
                    }
                    if pre.contains(s) {
                        let j = choose|j: int| 0 <= j < iv.take(i as int).len() && j < mask@.len() && mask@[j] && iv.take(i as int)[j] == s;
                        assert(iv.take(i + 1)[j] == s);
                    }
                    if mask@[i as int] && s == iv[i as int] {
                        assert(iv.take(i + 1)[i as int] == s);
                    }
                }
            }
        }
        i = i + 1;
    }
    proof {
        assert(iv.take(ids.len() as int) =~= iv);
        lemma_sorted_len(views(seen@));
    }
    seen.len() as u64
}

/// A strictly sorted sequence has as many elements as its set.
pub proof fn lemma_sorted_len(s: Seq<Seq<char>>)
    requires
        strictly_sorted(s),
    ensures
        s.to_set().len() == s.len(),
        s.to_set().finite(),
{
    assert forall|i: int, j: int| 0 <= i < s.len() && 0 <= j < s.len() && i != j implies s[i] != s[j] by {
        lemma_seq_lt_irreflexive(s[i]);
        if i < j {
            assert(seq_lt(s[i], s[j]));
        } else {
            assert(seq_lt(s[j], s[i]));
        }
    }
    assert(s.no_duplicates());
    s.unique_seq_to_set();
}

/// The distinct ids at the positions among the first `n` whose key is `k`.
pub open spec fn key_ids(keys: Seq<Seq<char>>, ids: Seq<Seq<char>>, k: Seq<char>, n: int) -> Set<Seq<char>> {
    Set::new(|s: Seq<char>| exists|j: int| 0 <= j < n && keys[j] == k && ids[j] == s)
}

/// The keys among the first `n` positions.
pub open spec fn keys_upto(keys: Seq<Seq<char>>, n: int) -> Set<Seq<char>> {
    Set::new(|k: Seq<char>| exists|j: int| 0 <= j < n && keys[j] == k)
}

/// For each key, the number of distinct ids found with it.
pub open spec fn distinct_by_key_spec(keys: Seq<Seq<char>>, ids: Seq<Seq<char>>) -> Map<Seq<char>, u64> {
    Map::new(
        |k: Seq<char>| keys_upto(keys, keys.len() as int).contains(k),
        |k: Seq<char>| key_ids(keys, ids, k, keys.len() as int).len() as u64,
    )
}

/// The distinct ids found with each key, ascending (`keys[j]` goes with `ids[j]`).
pub fn group_ids(group_keys: &Vec<String>, ids: &Vec<String>) -> (r: Vec<(String, Vec<String>)>)
    requires
        group_keys.len() == ids.len(),
    ensures
        table_ok(r@),
        table(r@).dom() == keys_upto(views(group_keys@), group_keys.len() as int),
        forall|k: Seq<char>| #[trigger] table(r@).contains_key(k) ==> strictly_sorted(views(table(r@)[k]@))
            && views(table(r@)[k]@).to_set() == key_ids(views(group_keys@), views(ids@), k, group_keys.len() as int),
{
    let ghost kv = views(group_keys@);
    let ghost iv = views(ids@);
    let mut t: Vec<(String, Vec<String>)> = Vec::new();
    let mut i: usize = 0;
    proof {
        assert(table(t@).dom() =~= keys_upto(kv, 0));
    }
    while i < group_keys.len()
        invariant
            i <= group_keys.len(),
            group_keys.len() == ids.len(),
            kv == views(group_keys@),
            iv == views(ids@),
            table_ok(t@),
            table(t@).dom() == keys_upto(kv, i as int),
            forall|k: Seq<char>| #[trigger] table(t@).contains_key(k) ==> strictly_sorted(views(table(t@)[k]@))
                && views(table(t@)[k]@).to_set() == key_ids(kv, iv, k, i as int),
        decreases group_keys.len() - i,
    {
        let ghost pre = t@;
        let k0 = &group_keys[i];
        assert(kv[i as int] == k0@ && iv[i as int] == ids@[i as int]@);
        match table_find(&t, k0.as_str()) {
            Some(p) => {
                proof {
                    lemma_table_at(pre, p as int);
                }
                let mut entry: (String, Vec<String>) = (String::new(), Vec::new());
                t.set_and_swap(p, &mut entry);
                insert_sorted(&mut entry.1, ids[i].clone());
                let ghost ne = entry;
                t.set_and_swap(p, &mut entry);
                proof {
                    assert(t@ == pre.update(p as int, ne));
                    lemma_table_update(pre, p as int, ne);
                }
            },
            None => {
                let mut v: Vec<String> = Vec::new();
                v.push(ids[i].clone());
                proof {
                    assert(views(v@) =~= seq![iv[i as int]]);
                }
                table_insert(&mut t, k0.clone(), v);
            },
        }
        proof {
            assert forall|k: Seq<char>| #[trigger] table(t@).contains_key(k) implies strictly_sorted(views(table(t@)[k]@))
                && views(table(t@)[k]@).to_set() == key_ids(kv, iv, k, i + 1) by {
                if k == kv[i as int] {
                    if table(pre).contains_key(k) {
                        assert(views(table(t@)[k]@).to_set() =~= key_ids(kv, iv, k, i as int).insert(iv[i as int]));
                    } else {
                        assert(views(table(t@)[k]@).to_set() =~= seq![iv[i as int]].to_set());
                        assert(key_ids(kv, iv, k, i as int) =~= Set::<Seq<char>>::empty()) by {
                            assert forall|s: Seq<char>| !key_ids(kv, iv, k, i as int).contains(s) by {
                                if key_ids(kv, iv, k, i as int).contains(s) {
                                    let j = choose|j: int| 0 <= j < i && kv[j] == k && iv[j] == s;
                                    assert(keys_upto(kv, i as int).contains(k));
                                    assert(table(pre).dom().contains(k));
                                }
                            }
                        }
                        assert(seq![iv[i as int]].to_set() =~= Set::<Seq<char>>::empty().insert(iv[i as int])) by {
                            assert(seq![iv[i as int]][0] == iv[i as int]);
                        }
                    }
                    assert(key_ids(kv, iv, k, i + 1) =~= key_ids(kv, iv, k, i as int).insert(iv[i as int]));
                } else {
                    assert(table(t@)[k] == table(pre)[k]);
                    assert(key_ids(kv, iv, k, i + 1) =~= key_ids(kv, iv, k, i as int));
                }
            }
            assert(table(t@).dom() =~= keys_upto(kv, i + 1)) by {
                assert forall|k: Seq<char>| keys_upto(kv, i + 1).contains(k) && k != kv[i as int] implies keys_upto(kv, i as int).contains(k) by {
                    let j = choose|j: int| 0 <= j < i + 1 && kv[j] == k;
                }
                assert forall|k: Seq<char>| keys_upto(kv, i as int).contains(k) implies keys_upto(kv, i + 1).contains(k) by {
                    let j = choose|j: int| 0 <= j < i && kv[j] == k;
                }
                assert(keys_upto(kv, i + 1).contains(kv[i as int]));
            }
        }
        i = i + 1;
    }
    t
}

/// Counts, for each key, the distinct ids that occur with it (`keys[j]` goes with `ids[j]`).
pub fn distinct_by_key(group_keys: &Vec<String>, ids: &Vec<String>) -> (r: Vec<(String, u64)>)
    requires
        group_keys.len() == ids.len(),
    ensures
        table_ok(r@),
        table(r@) == distinct_by_key_spec(views(group_keys@), views(ids@)),
{
    let ghost kv = views(group_keys@);
    let ghost iv = views(ids@);
    let t = group_ids(group_keys, ids);
    let mut out: Vec<(String, u64)> = Vec::new();
    let mut q: usize = 0;
    while q < t.len()
        invariant
            q <= t.len(),
            table_ok(t@),
            out@.len() == q,
            forall|j: int| 0 <= j < q ==> (#[trigger] out@[j]).0@ == t@[j].0@
                && out@[j].1 == views(t@[j].1@).to_set().len() as u64,
            forall|k: Seq<char>| #[trigger] table(t@).contains_key(k) ==> strictly_sorted(views(table(t@)[k]@)),
        decreases t.len() - q,
    {
        proof {
            lemma_table_at(t@, q as int);
            lemma_sorted_len(views(t@[q as int].1@));
        }
        let n = t[q].1.len() as u64;
        out.push((t[q].0.clone(), n));
        q = q + 1;
    }
    proof {
        assert(keys(out@) =~= keys(t@));
        assert forall|k: Seq<char>| #[trigger] table(out@).contains_key(k) <==> distinct_by_key_spec(kv, iv).contains_key(k) by {
            assert(table(out@).contains_key(k) <==> keys(out@).contains(k));
            assert(table(t@).contains_key(k) <==> keys(t@).contains(k));
        }
        assert forall|k: Seq<char>| table(out@).contains_key(k) implies #[trigger] table(out@)[k] == distinct_by_key_spec(kv, iv)[k] by {
            assert(keys(out@).contains(k));
            let j = choose|j: int| 0 <= j < keys(out@).len() && keys(out@)[j] == k;
            lemma_table_at(out@, j);
            lemma_table_at(t@, j);
            assert(kv.take(group_keys.len() as int) =~= kv);
        }
        assert(table(out@) =~= distinct_by_key_spec(kv, iv));
    }
    out
}

/// Sum of the first `n` weights.
pub open spec fn total(w: Seq<u64>, n: int) -> nat
    decreases n,
{
    if n <= 0 {
        0
    } else {
        total(w, n - 1) + w[n - 1] as nat
    }
}

/// Sum of the first `n` weights whose key is `k`.
pub open spec fn key_sum(keys: Seq<Option<Seq<char>>>, w: Seq<u64>, k: Seq<char>, n: int) -> nat
    decreases n,
{
    if n <= 0 {
        0
    } else {
        key_sum(keys, w, k, n - 1) + if keys[n - 1] == Some(k) { w[n - 1] as nat } else { 0 }
    }
}

/// The keys present among the first `n` positions.
pub open spec fn some_keys_upto(keys: Seq<Option<Seq<char>>>, n: int) -> Set<Seq<char>> {
    Set::new(|k: Seq<char>| exists|j: int| 0 <= j < n && keys[j] == Some(k))
}

/// For each key present, the sum of the weights found with it.
pub open spec fn sum_by_key_spec(keys: Seq<Option<Seq<char>>>, w: Seq<u64>) -> Map<Seq<char>, u64> {
    Map::new(
        |k: Seq<char>| some_keys_upto(keys, keys.len() as int).contains(k),
        |k: Seq<char>| key_sum(keys, w, k, keys.len() as int) as u64,
    )
}

pub(crate) proof fn lemma_key_sum_le_total(keys: Seq<Option<Seq<char>>>, w: Seq<u64>, k: Seq<char>, n: int)
    ensures
        key_sum(keys, w, k, n) <= total(w, n),
    decreases n,
{
    if n > 0 {
        lemma_key_sum_le_total(keys, w, k, n - 1);
    }
}

proof fn lemma_total_mono(w: Seq<u64>, a: int, b: int)
    requires
        a <= b,
    ensures
        total(w, a) <= total(w, b),
    decreases b - a,
{
    if a < b {
        lemma_total_mono(w, a, b - 1);
    }
}

proof fn lemma_key_sum_none(keys: Seq<Option<Seq<char>>>, w: Seq<u64>, k: Seq<char>, n: int)
    requires
        !some_keys_upto(keys, n).contains(k),
    ensures
        key_sum(keys, w, k, n) == 0,
    decreases n,
{
    if n > 0 {
        if keys[n - 1] == Some(k) {
            assert(some_keys_upto(keys, n).contains(k));
        }
        assert forall|j: int| 0 <= j < n - 1 && keys[j] == Some(k) implies false by {
            assert(some_keys_upto(keys, n).contains(k));
        }
        assert(!some_keys_upto(keys, n - 1).contains(k));
        lemma_key_sum_none(keys, w, k, n - 1);
    }
}

/// Sums, for each key present, the weights found with it (`keys[j]` goes with `w[j]`).
pub fn sum_by_key(group_keys: &Vec<Option<String>>, w: &Vec<u64>) -> (r: Vec<(String, u64)>)
    requires
        group_keys.len() == w.len(),
        total(w@, w.len() as int) <= u64::MAX,
    ensures
        table_ok(r@),
        table(r@) == sum_by_key_spec(group_keys@.map_values(|k: Option<String>| crate::event::opt_view(k)), w@),
{
    let ghost kv = group_keys@.map_values(|k: Option<String>| crate::event::opt_view(k));
    let mut t: Vec<(String, u64)> = Vec::new();
    let mut i: usize = 0;
    proof {
        assert(table(t@).dom() =~= some_keys_upto(kv, 0));
    }
    while i < group_keys.len()
        invariant
            i <= group_keys.len(),
            group_keys.len() == w.len(),
            kv == group_keys@.map_values(|k: Option<String>| crate::event::opt_view(k)),
            total(w@, w.len() as int) <= u64::MAX,
            table_ok(t@),
            table(t@).dom() == some_keys_upto(kv, i as int),
            forall|k: Seq<char>| #[trigger] table(t@).contains_key(k) ==> table(t@)[k] == key_sum(kv, w@, k, i as int),
        decreases group_keys.len() - i,
    {
        let ghost pre = t@;
        proof {
            lemma_total_mono(w@, i + 1, w.len() as int);
        }
        match &group_keys[i] {
            Some(k0) => {
                assert(kv[i as int] == Some(k0@));
                match table_find(&t, k0.as_str()) {
                    Some(p) => {
                        proof {
                            lemma_table_at(pre, p as int);
                            lemma_key_sum_le_total(kv, w@, k0@, i + 1);
                        }
                        let key = t[p].0.clone();
                        let v = t[p].1 + w[i];
                        proof {
                            lemma_table_update(pre, p as int, (key, v));
                        }
                        t.set(p, (key, v));
                    },
                    None => {
                        proof {
                            lemma_table_dom(pre);
                            lemma_key_sum_none(kv, w@, k0@, i as int);
                        }
                        table_insert(&mut t, k0.clone(), w[i]);
                    },
                }
            },
            None => {},
        }
        proof {
            assert forall|k: Seq<char>| #[trigger] table(t@).contains_key(k) implies table(t@)[k] == key_sum(kv, w@, k, i + 1) by {
                if kv[i as int] != Some(k) {
                    assert(table(t@)[k] == table(pre)[k]);
                }
            }
            assert(table(t@).dom() =~= some_keys_upto(kv, i + 1)) by {
                assert forall|k: Seq<char>| some_keys_upto(kv, i + 1).contains(k) && kv[i as int] != Some(k)
                    implies some_keys_upto(kv, i as int).contains(k) by {
                    let j = choose|j: int| 0 <= j < i + 1 && kv[j] == Some(k);
                }
                assert forall|k: Seq<char>| some_keys_upto(kv, i as int).contains(k) implies some_keys_upto(kv, i + 1).contains(k) by {
                    let j = choose|j: int| 0 <= j < i && kv[j] == Some(k);
                }
                if kv[i as int] is Some {
                    assert(some_keys_upto(kv, i + 1).contains(kv[i as int]->0));
                }
            }
        }
        i = i + 1;
    }
    proof {
        assert(table(t@) =~= sum_by_key_spec(kv, w@));
    }
    t
}

} // verus!
