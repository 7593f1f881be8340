//! Small string-keyed tables kept as vectors of pairs in ascending key order.

use vstd::prelude::*;
use crate::text::{lemma_seq_lt_irreflexive, lemma_seq_lt_total, lemma_seq_lt_trans, seq_lt, str_eq, str_lt, strictly_sorted};

verus! {

/// The keys of a table, in storage order.
pub open spec fn keys<T>(v: Seq<(String, T)>) -> Seq<Seq<char>> {
    v.map_values(|p: (String, T)| p.0@)
}

/// The map a table stands for: each key to the value stored with it.
pub open spec fn table<T>(v: Seq<(String, T)>) -> Map<Seq<char>, T> {
    Map::new(|k: Seq<char>| keys(v).contains(k), |k: Seq<char>| v[keys(v).index_of(k)].1)
}

/// Keys in ascending order, each once.
pub open spec fn table_ok<T>(v: Seq<(String, T)>) -> bool {
    strictly_sorted(keys(v))
}

/// In a well-ordered table, the entry at `i` is what the map holds for its key.
pub proof fn lemma_table_at<T>(v: Seq<(String, T)>, i: int)
    requires
        table_ok(v),
        0 <= i < v.len(),
    ensures
        table(v).contains_key(v[i].0@),
        table(v)[v[i].0@] == v[i].1,
{
    let ks = keys(v);
    assert(ks[i] == v[i].0@);
    assert(ks.contains(v[i].0@));
    let j = ks.index_of(v[i].0@);
    assert(0 <= j < ks.len() && ks[j] == v[i].0@);
    if j < i {
        lemma_seq_lt_irreflexive(ks[i]);
    }
    if j > i {
        lemma_seq_lt_irreflexive(ks[i]);
    }
}

/// The keys of a well-ordered table are the map's domain.
pub proof fn lemma_table_dom<T>(v: Seq<(String, T)>)
    ensures
        table(v).dom() == keys(v).to_set(),
{
    assert(table(v).dom() =~= keys(v).to_set());
}

/// Replacing the value stored at `i` (same key) replaces it in the map.
pub proof fn lemma_table_update<T>(v: Seq<(String, T)>, i: int, p: (String, T))
    requires
        table_ok(v),
        0 <= i < v.len(),
        p.0@ == v[i].0@,
    ensures
        keys(v.update(i, p)) == keys(v),
        table_ok(v.update(i, p)),
        table(v.update(i, p)) == table(v).insert(p.0@, p.1),
{
    let w = v.update(i, p);
    assert(keys(w) =~= keys(v));
    assert(keys(v)[i] == p.0@);
    assert forall|k: Seq<char>| #[trigger] table(w).contains_key(k) <==> table(v).insert(p.0@, p.1).contains_key(k) by {
        assert(table(w).contains_key(k) <==> keys(w).contains(k));
        assert(table(v).contains_key(k) <==> keys(v).contains(k));
    }
    assert forall|k: Seq<char>| table(w).contains_key(k) implies #[trigger] table(w)[k] == table(v).insert(p.0@, p.1)[k] by {
        assert(keys(w).contains(k));
        let j = choose|j: int| 0 <= j < keys(w).len() && keys(w)[j] == k;
        lemma_table_at(w, j);
        if j != i {
            lemma_table_at(v, j);
            assert(w[j] == v[j]);
            lemma_seq_lt_irreflexive(k);
            if j < i {
                assert(seq_lt(keys(v)[j], keys(v)[i]));
            } else {
                assert(seq_lt(keys(v)[i], keys(v)[j]));
            }
        } else {
            assert(w[i] == p);
        }
    }
    assert(table(w) =~= table(v).insert(p.0@, p.1));
}

/// Inserting a new key at its ordered position adds it to the map.
pub proof fn lemma_table_insert<T>(v: Seq<(String, T)>, i: int, p: (String, T))
    requires
        table_ok(v),
        table_ok(v.insert(i, p)),
        0 <= i <= v.len(),
    ensures
        table(v.insert(i, p)) == table(v).insert(p.0@, p.1),
{
    let w = v.insert(i, p);
    assert(keys(w) =~= keys(v).insert(i, p.0@));
    assert forall|k: Seq<char>| #[trigger] table(w).contains_key(k) <==> table(v).insert(p.0@, p.1).contains_key(k) by {
        if keys(w).contains(k) {
            let j = choose|j: int| 0 <= j < keys(w).len() && keys(w)[j] == k;
            if j < i {
                assert(keys(v)[j] == k);
            } else if j > i {
                assert(keys(v)[j - 1] == k);
            }
        }
        if keys(v).contains(k) {
            let j = choose|j: int| 0 <= j < keys(v).len() && keys(v)[j] == k;
            if j < i {
                assert(keys(w)[j] == k);
            } else {
                assert(keys(w)[j + 1] == k);
            }
        }
        if k == p.0@ {
            assert(keys(w)[i] == k);
        }
    }
    assert forall|k: Seq<char>| table(w).contains_key(k) implies #[trigger] table(w)[k] == table(v).insert(p.0@, p.1)[k] by {
        let j = choose|j: int| 0 <= j < keys(w).len() && keys(w)[j] == k;
        lemma_table_at(w, j);
        if j < i {
            assert(w[j] == v[j]);
            lemma_table_at(v, j);
            if k == p.0@ {
                lemma_seq_lt_irreflexive(k);
                assert(keys(w)[i] == k);
            }
        } else if j > i {
            assert(w[j] == v[j - 1]);
            lemma_table_at(v, j - 1);
            if k == p.0@ {
                lemma_seq_lt_irreflexive(k);
                assert(keys(w)[i] == k);
            }
        }
    }
    assert(table(w) =~= table(v).insert(p.0@, p.1));
}

/// Removing the entry at `i` removes its key from the map.
pub proof fn lemma_table_remove<T>(v: Seq<(String, T)>, i: int)
    requires
        table_ok(v),
        0 <= i < v.len(),
    ensures
        table_ok(v.remove(i)),
        table(v.remove(i)) == table(v).remove(v[i].0@),
{
    let w = v.remove(i);
    let k0 = v[i].0@;
    assert(keys(w) =~= keys(v).remove(i));
    assert forall|a: int, b: int| 0 <= a < b < keys(w).len() implies seq_lt(#[trigger] keys(w)[a], #[trigger] keys(w)[b]) by {
        let a2 = if a < i { a } else { a + 1 };
        let b2 = if b < i { b } else { b + 1 };
        assert(keys(w)[a] == keys(v)[a2]);
        assert(keys(w)[b] == keys(v)[b2]);
    }
    assert forall|k: Seq<char>| #[trigger] table(w).contains_key(k) <==> table(v).remove(k0).contains_key(k) by {
        assert(table(w).contains_key(k) <==> keys(w).contains(k));
        assert(table(v).contains_key(k) <==> keys(v).contains(k));
        if keys(w).contains(k) {
            let j = choose|j: int| 0 <= j < keys(w).len() && keys(w)[j] == k;
            let j2 = if j < i { j } else { j + 1 };
            assert(keys(v)[j2] == k);
            assert(keys(v).contains(k));
            if k == k0 {
                lemma_seq_lt_irreflexive(k);
                assert(keys(v)[i] == k0);
                if j2 < i {
                    assert(seq_lt(keys(v)[j2], keys(v)[i]));
                } else {
                    assert(seq_lt(keys(v)[i], keys(v)[j2]));
                }
            }
        }
        if keys(v).contains(k) && k != k0 {
            let j = choose|j: int| 0 <= j < keys(v).len() && keys(v)[j] == k;
            if j < i {
                assert(keys(w)[j] == k);
            } else {
                assert(j != i);
                assert(keys(w)[j - 1] == k);
            }
        }
    }
    assert forall|k: Seq<char>| table(w).contains_key(k) implies #[trigger] table(w)[k] == table(v).remove(k0)[k] by {
        assert(keys(w).contains(k));
        let j = choose|j: int| 0 <= j < keys(w).len() && keys(w)[j] == k;
        lemma_table_at(w, j);
        let j2 = if j < i { j } else { j + 1 };
        assert(w[j] == v[j2]);
        lemma_table_at(v, j2);
    }
    assert(table(w) =~= table(v).remove(k0));
}

/// Position of `k` in the table, if present.
pub fn table_find<T>(v: &Vec<(String, T)>, k: &str) -> (r: Option<usize>)
    ensures
        match r {
            Some(i) => i < v.len() && v@[i as int].0@ == k@,
            None => !keys(v@).contains(k@),
        },
{
    let mut i: usize = 0;
    while i < v.len()
        invariant
            i <= v.len(),
            forall|j: int| 0 <= j < i ==> #[trigger] keys(v@)[j] != k@,
        decreases v.len() - i,
    {
        if str_eq(v[i].0.as_str(), k) {
            return Some(i);
        }
        assert(keys(v@)[i as int] == v@[i as int].0@);
        i = i + 1;
    }
    None
}

/// Adds a key that is not present at its ordered position.
pub fn table_insert<T>(v: &mut Vec<(String, T)>, k: String, x: T)
    requires
        table_ok(old(v)@),
        !keys(old(v)@).contains(k@),
    ensures
        table_ok(final(v)@),
        table(final(v)@) == table(old(v)@).insert(k@, x),
{
    let ghost ov = v@;
    let mut i: usize = 0;
    let mut done = false;
    while !done && i < v.len()
        invariant
            i <= v.len(),
            v@ == ov,
            forall|j: int| 0 <= j < i ==> seq_lt(#[trigger] keys(v@)[j], k@),
            done ==> i < v.len() && !seq_lt(keys(v@)[i as int], k@),
        decreases v.len() - i + (if done { 0int } else { 1int }),
    {
        assert(keys(v@)[i as int] == v@[i as int].0@);
        if str_lt(v[i].0.as_str(), k.as_str()) {
            i = i + 1;
        } else {
            done = true;
        }
    }
    proof {
        if i < v.len() {
            assert(keys(ov)[i as int] != k@);
            lemma_seq_lt_total(k@, keys(ov)[i as int]);
        }
    }
    let ghost p = (k, x);
    v.insert(i, (k, x));
    proof {
        let nk = keys(v@);
        let ok = keys(ov);
        assert(nk =~= ok.insert(i as int, p.0@));
        assert forall|a: int, b: int| 0 <= a < b < nk.len() implies seq_lt(#[trigger] nk[a], #[trigger] nk[b]) by {
            if b < i {
                assert(nk[a] == ok[a] && nk[b] == ok[b]);
            } else if b == i {
                assert(nk[a] == ok[a]);
            } else if a == i {
                assert(nk[b] == ok[b - 1]);
                if b - 1 > i {
                    lemma_seq_lt_trans(p.0@, ok[i as int], ok[b - 1]);
                }
            } else if a < i {
                assert(nk[a] == ok[a] && nk[b] == ok[b - 1]);
            } else {
                assert(nk[a] == ok[a - 1] && nk[b] == ok[b - 1]);
            }
        }
        assert(v@ == ov.insert(i as int, p));
        lemma_table_insert(ov, i as int, p);
    }
}

} // verus!
