//! Parent/child decisions for open spans: which span a new one nests under, how subtree
//! totals roll up, and how the open chain is repaired when a span leaves it.

use vstd::prelude::*;
use crate::event::opt_view;
use crate::text::copy_string;
use crate::tool_span::{SpanBuilder, SpanModel};

verus! {

/// The models of a sequence of builders.
pub open spec fn models(v: Seq<SpanBuilder>) -> Seq<SpanModel> {
    v.map_values(|s: SpanBuilder| s@)
}

/// Every builder keeps its paths sorted.
pub open spec fn all_wf(v: Seq<SpanBuilder>) -> bool {
    forall|i: int| 0 <= i < v.len() ==> (#[trigger] v[i]).wf()
}

/// `l + r` in two's complement, as the release build computes it.
pub open spec fn wrap_i64(l: i64, r: i64) -> i64 {
    vstd::wrapping::i64_specs::wrapping_add(l, r)
}

/// `l + r` modulo 2^32, as the release build computes it.
pub open spec fn wrap_u32(l: u32, r: u32) -> u32 {
    vstd::wrapping::u32_specs::wrapping_add(l, r)
}

/// Adds an optional amount to an optional total; a missing amount leaves the total as is.
pub open spec fn add_i64_spec(left: Option<i64>, right: Option<i64>) -> Option<i64> {
    match right {
        Some(v) => Some(wrap_i64(match left { Some(l) => l, None => 0 }, v)),
        None => left,
    }
}

pub open spec fn add_u32_spec(left: Option<u32>, right: Option<u32>) -> Option<u32> {
    match right {
        Some(v) => Some(wrap_u32(match left { Some(l) => l, None => 0 }, v)),
        None => left,
    }
}

pub fn add_i64(left: Option<i64>, right: Option<i64>) -> (r: Option<i64>)
    ensures
        r == add_i64_spec(left, right),
{
    match right {
        Some(v) => {
            let l = match left {
                Some(l) => l,
                None => 0,
            };
            Some(l.wrapping_add(v))
        },
        None => left,
    }
}

pub fn add_u32(left: Option<u32>, right: Option<u32>) -> (r: Option<u32>)
    ensures
        r == add_u32_spec(left, right),
{
    match right {
        Some(v) => {
            let l = match left {
                Some(l) => l,
                None => 0,
            };
            Some(l.wrapping_add(v))
        },
        None => left,
    }
}

/// Tokens a span spent itself: input plus output, when input is known.
pub open spec fn own_tokens(s: SpanModel) -> Option<u32> {
    match s.tokens_in {
        Some(v) => Some(wrap_u32(v, match s.tokens_out { Some(o) => o, None => 0 })),
        None => None,
    }
}

/// A closing span's subtree totals include its own cost and tokens.
pub open spec fn seed_spec(s: SpanModel) -> SpanModel {
    SpanModel {
        subtree_cost_usd_e6: add_i64_spec(s.subtree_cost_usd_e6, s.cost_usd_e6),
        subtree_token_count: add_u32_spec(s.subtree_token_count, own_tokens(s)),
        ..s
    }
}

/// A parent's subtree totals grow by a closed child's subtree totals.
pub open spec fn add_child_spec(parent: SpanModel, child: SpanModel) -> SpanModel {
    SpanModel {
        subtree_cost_usd_e6: add_i64_spec(parent.subtree_cost_usd_e6, child.subtree_cost_usd_e6),
        subtree_token_count: add_u32_spec(parent.subtree_token_count, child.subtree_token_count),
        ..parent
    }
}

pub fn seed_subtree(span: &mut SpanBuilder)
    ensures
        final(span)@ == seed_spec(old(span)@),
        final(span).paths == old(span).paths,
{
    span.subtree_cost_usd_e6 = add_i64(span.subtree_cost_usd_e6, span.cost_usd_e6);
    let own = match span.tokens_in {
        Some(v) => Some(
            v.wrapping_add(
                match span.tokens_out {
                    Some(o) => o,
                    None => 0,
                },
            ),
        ),
        None => None,
    };
    span.subtree_token_count = add_u32(span.subtree_token_count, own);
}

pub fn add_child(parent: &mut SpanBuilder, child: &SpanBuilder)
    ensures
        final(parent)@ == add_child_spec(old(parent)@, child@),
        final(parent).paths == old(parent).paths,
{
    parent.subtree_cost_usd_e6 = add_i64(parent.subtree_cost_usd_e6, child.subtree_cost_usd_e6);
    parent.subtree_token_count = add_u32(parent.subtree_token_count, child.subtree_token_count);
}

/// Index of the last span whose id differs from `id`.
pub open spec fn last_other(spans: Seq<SpanModel>, id: Seq<char>) -> Option<int>
    decreases spans.len(),
{
    if spans.len() == 0 {
        None
    } else if spans.last().span_id != id {
        Some(spans.len() - 1)
    } else {
        last_other(spans.drop_last(), id)
    }
}

/// Parent and depth of a span opened as `id`: the most recently opened other span, one
/// level below it; a root at depth 0 when there is none.
pub open spec fn open_parent_spec(spans: Seq<SpanModel>, id: Seq<char>) -> (Option<Seq<char>>, u32) {
    match last_other(spans, id) {
        Some(k) => (Some(spans[k].span_id), wrap_u32(spans[k].depth, 1)),
        None => (None, 0),
    }
}

proof fn lemma_last_other_range(spans: Seq<SpanModel>, id: Seq<char>)
    ensures
        match last_other(spans, id) {
            Some(k) => 0 <= k < spans.len() && spans[k].span_id != id,
            None => true,
        },
    decreases spans.len(),
{
    if spans.len() > 0 && spans.last().span_id == id {
        lemma_last_other_range(spans.drop_last(), id);
    }
}

pub fn open_parent(spans: &Vec<SpanBuilder>, span_id: &String) -> (r: (Option<String>, u32))
    ensures
        (opt_view(r.0), r.1) == open_parent_spec(models(spans@), span_id@),
{
    let ghost m = models(spans@);
    let mut i: usize = spans.len();
    assert(m.subrange(0, i as int) =~= m);
    while i > 0
        invariant
            i <= spans.len(),
            m == models(spans@),
            last_other(m, span_id@) == last_other(m.subrange(0, i as int), span_id@),
        decreases i,
    {
        let ghost pre = m.subrange(0, i as int);
        assert(pre.last() == spans@[i - 1]@);
        assert(pre.drop_last() =~= m.subrange(0, i - 1));
        if spans[i - 1].span_id != *span_id {
            proof {
                lemma_last_other_range(m, span_id@);
            }
            return (Some(copy_string(&spans[i - 1].span_id)), spans[i - 1].depth.wrapping_add(1));
        }
        i = i - 1;
    }
    (None, 0)
}

/// A span with a new parent.
pub open spec fn with_parent(s: SpanModel, p: Option<Seq<char>>) -> SpanModel {
    SpanModel { parent_span_id: p, ..s }
}

/// A span one level shallower (never below zero).
pub open spec fn shallower(s: SpanModel) -> SpanModel {
    SpanModel { depth: if s.depth > 0 { (s.depth - 1) as u32 } else { 0 }, ..s }
}

/// The open chain after the span at `k` leaves it: the next span inherits the removed
/// span's parent, and every later span moves one level up.
pub open spec fn detach_spec(spans: Seq<SpanModel>, k: int) -> Seq<SpanModel> {
    let rest = spans.remove(k);
    Seq::new(
        rest.len(),
        |i: int|
            if i < k {
                rest[i]
            } else if i == k {
                shallower(with_parent(rest[i], spans[k].parent_span_id))
            } else {
                shallower(rest[i])
            },
    )
}

/// Removes the span at `k` from the open chain and repairs the chain.
pub fn detach_chain(spans: &mut Vec<SpanBuilder>, k: usize) -> (r: SpanBuilder)
    requires
        k < old(spans).len(),
        all_wf(old(spans)@),
    ensures
        r@ == old(spans)@[k as int]@,
        r.wf(),
        models(final(spans)@) == detach_spec(models(old(spans)@), k as int),
        all_wf(final(spans)@),
{
    let ghost m0 = models(spans@);
    let removed = spans.remove(k);
    let ghost rest = models(spans@);
    assert(rest =~= m0.remove(k as int));
    let mut i: usize = k;
    while i < spans.len()
        invariant
            k <= i <= spans.len(),
            spans.len() == rest.len(),
            all_wf(spans@),
            k < m0.len(),
            m0.len() == rest.len() + 1,
            rest == m0.remove(k as int),
            removed@ == m0[k as int],
            forall|j: int|
                0 <= j < spans.len() ==> #[trigger] models(spans@)[j] == if j < k {
                    rest[j]
                } else if j >= i {
                    rest[j]
                } else if j == k {
                    shallower(with_parent(rest[j], m0[k as int].parent_span_id))
                } else {
                    shallower(rest[j])
                },
        decreases spans.len() - i,
    {
        let ghost prev = spans@;
        let mut item = SpanBuilder::default();
        spans.set_and_swap(i, &mut item);
        assert(item == prev[i as int]);
        if i == k {
            item.parent_span_id = match &removed.parent_span_id {
                Some(p) => Some(copy_string(p)),
                None => None,
            };
        }
        item.depth = item.depth.saturating_sub(1);
        proof {
            assert(prev[i as int]@ == models(prev)[i as int]);
            assert(models(prev)[i as int] == rest[i as int]);
            if i == k {
                assert(item@ == shallower(with_parent(rest[i as int], m0[k as int].parent_span_id)));
            } else {
                assert(item@ == shallower(rest[i as int]));
            }
        }
        spans.set_and_swap(i, &mut item);
        proof {
            assert(spans@ == prev.update(i as int, spans@[i as int]));
            assert(models(spans@)[i as int] == if i == k {
                shallower(with_parent(rest[i as int], m0[k as int].parent_span_id))
            } else {
                shallower(rest[i as int])
            });
            assert forall|j: int| 0 <= j < spans.len() && j != i implies #[trigger] models(spans@)[j] == models(prev)[j] by {
                assert(spans@[j] == prev[j]);
            }
        }
        i = i + 1;
    }
    assert(models(spans@) =~= detach_spec(m0, k as int));
    removed
}

} // verus!
