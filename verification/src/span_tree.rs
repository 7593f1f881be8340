//! In-memory span tree assembled from flat span rows.

use vstd::prelude::*;
use crate::event::opt_view;
use crate::text::str_eq;

verus! {

/// A persisted tool span as queries return it.
#[derive(Debug)]
pub struct ToolSpanView {
    pub span_id: String,
    pub tool: String,
    pub status: String,
    pub lead_time_ms: Option<u64>,
    pub tokens_in: Option<u32>,
    pub tokens_out: Option<u32>,
    pub reasoning_tokens: Option<u32>,
    pub cost_usd_e6: Option<i64>,
    pub paths: Vec<String>,
    pub parent_span_id: Option<String>,
    pub depth: u32,
    pub subtree_cost_usd_e6: Option<i64>,
    pub subtree_token_count: Option<u32>,
}

impl Default for ToolSpanView {
    fn default() -> (r: ToolSpanView)
        ensures
            r.span_id@ == Seq::<char>::empty(),
            r.tool@ == Seq::<char>::empty(),
            r.status@ == Seq::<char>::empty(),
            r.lead_time_ms is None,
            r.tokens_in is None,
            r.tokens_out is None,
            r.reasoning_tokens is None,
            r.cost_usd_e6 is None,
            r.paths@.len() == 0,
            r.parent_span_id is None,
            r.depth == 0,
            r.subtree_cost_usd_e6 is None,
            r.subtree_token_count is None,
    {
        ToolSpanView {
            span_id: String::new(),
            tool: String::new(),
            status: String::new(),
            lead_time_ms: None,
            tokens_in: None,
            tokens_out: None,
            reasoning_tokens: None,
            cost_usd_e6: None,
            paths: Vec::new(),
            parent_span_id: None,
            depth: 0,
            subtree_cost_usd_e6: None,
            subtree_token_count: None,
        }
    }
}

/// A span with its child spans and its subtree totals.
#[derive(Debug)]
pub struct SpanNode {
    pub span: ToolSpanView,
    pub children: Vec<SpanNode>,
    pub subtree_cost_usd_e6: i64,
    pub subtree_token_count: u64,
}

/// Span ids of a forest in pre-order.
pub open spec fn flat(ns: Seq<SpanNode>) -> Seq<Seq<char>>
    decreases ns,
{
    if ns.len() == 0 {
        Seq::empty()
    } else {
        flat(ns.drop_last()) + flat_node(ns.last())
    }
}

pub open spec fn flat_node(n: SpanNode) -> Seq<Seq<char>>
    decreases n,
{
    seq![n.span.span_id@] + flat(n.children@)
}

/// Ids of the input rows.
pub open spec fn ids_of(spans: Seq<ToolSpanView>) -> Seq<Seq<char>> {
    spans.map_values(|s: ToolSpanView| s.span_id@)
}

/// Row `k` is the first row with id `id`.
pub open spec fn is_first(spans: Seq<ToolSpanView>, id: Seq<char>, k: int) -> bool {
    &&& 0 <= k < spans.len()
    &&& spans[k].span_id@ == id
    &&& forall|j: int| 0 <= j < k ==> (#[trigger] spans[j]).span_id@ != id
}

/// A row is a root when it names no parent or names one that is not among the rows.
pub open spec fn is_root(spans: Seq<ToolSpanView>, k: int) -> bool {
    match opt_view(spans[k].parent_span_id) {
        None => true,
        Some(p) => !ids_of(spans).contains(p),
    }
}

/// Ids of the root rows among the first `m` rows (first occurrences only), in input order.
pub open spec fn roots_upto(spans: Seq<ToolSpanView>, m: int) -> Seq<Seq<char>>
    decreases m,
{
    if m <= 0 {
        Seq::empty()
    } else {
        roots_upto(spans, m - 1) + if is_first(spans, spans[m - 1].span_id@, m - 1) && is_root(spans, m - 1) {
            seq![spans[m - 1].span_id@]
        } else {
            Seq::empty()
        }
    }
}

pub open spec fn roots_spec(spans: Seq<ToolSpanView>) -> Seq<Seq<char>> {
    roots_upto(spans, spans.len() as int)
}

/// Position of the first row with id `id`.
pub open spec fn first_pos(spans: Seq<ToolSpanView>, id: Seq<char>) -> int {
    choose|k: int| is_first(spans, id, k)
}

/// Nodes in the order their rows first appear in the input.
pub open spec fn ascending(ns: Seq<SpanNode>, spans: Seq<ToolSpanView>) -> bool {
    forall|a: int, b: int| 0 <= a < b < ns.len() ==>
        first_pos(spans, #[trigger] ns[a].span.span_id@) < first_pos(spans, #[trigger] ns[b].span.span_id@)
}

/// A node holds the first row with its id, totals taken from that row, and children that
/// name it as their parent, in input order.
pub open spec fn node_ok(n: SpanNode, spans: Seq<ToolSpanView>) -> bool
    decreases n,
{
    &&& exists|k: int| is_first(spans, n.span.span_id@, k) && n.span == spans[k]
    &&& ascending(n.children@, spans)
    &&& n.subtree_cost_usd_e6 == match n.span.subtree_cost_usd_e6 { Some(c) => c, None => 0 }
    &&& n.subtree_token_count == match n.span.subtree_token_count { Some(c) => c as u64, None => 0 }
    &&& children_ok(n.children@, n.span.span_id@, spans)
}

pub open spec fn children_ok(cs: Seq<SpanNode>, pid: Seq<char>, spans: Seq<ToolSpanView>) -> bool
    decreases cs,
{
    if cs.len() == 0 {
        true
    } else {
        &&& children_ok(cs.drop_last(), pid, spans)
        &&& opt_view(cs.last().span.parent_span_id) == Some(pid)
        &&& node_ok(cs.last(), spans)
    }
}

pub open spec fn forest_ok(ns: Seq<SpanNode>, spans: Seq<ToolSpanView>) -> bool
    decreases ns,
{
    if ns.len() == 0 {
        true
    } else {
        forest_ok(ns.drop_last(), spans) && node_ok(ns.last(), spans)
    }
}

/// The id of the parent row of `id`, when that row names a parent that is among the rows.
pub open spec fn parent_of(spans: Seq<ToolSpanView>, id: Seq<char>) -> Option<Seq<char>> {
    match opt_view(spans[first_pos(spans, id)].parent_span_id) {
        Some(p) => if ids_of(spans).contains(p) { Some(p) } else { None },
        None => None,
    }
}

/// The row `k` steps up the parent chain of `id`, if the chain is that long.
pub open spec fn up(spans: Seq<ToolSpanView>, id: Seq<char>, k: nat) -> Option<Seq<char>>
    decreases k,
{
    if k == 0 {
        Some(id)
    } else {
        match parent_of(spans, id) {
            Some(p) => up(spans, p, (k - 1) as nat),
            None => None,
        }
    }
}

pub open spec fn ends_at_root(spans: Seq<ToolSpanView>, o: Option<Seq<char>>) -> bool {
    match o {
        Some(y) => parent_of(spans, y) is None,
        None => false,
    }
}

/// The parent chain of `id` ends at a row without a present parent (it runs into no cycle).
pub open spec fn rooted(spans: Seq<ToolSpanView>, id: Seq<char>) -> bool {
    exists|k: nat| ends_at_root(spans, #[trigger] up(spans, id, k))
}

pub open spec fn not_earlier(spans: Seq<ToolSpanView>, o: Option<Seq<char>>, id: Seq<char>) -> bool {
    match o {
        Some(y) => y == id || first_pos(spans, y) > first_pos(spans, id),
        None => true,
    }
}

/// Row `id` heads a top-level tree: it names no parent among the rows, or its parent chain
/// runs into a cycle and no other row on that chain comes earlier in the input.
pub open spec fn heads(spans: Seq<ToolSpanView>, id: Seq<char>) -> bool {
    ||| parent_of(spans, id) is None
    ||| !rooted(spans, id) && forall|k: nat| k >= 1 ==> not_earlier(spans, #[trigger] up(spans, id, k), id)
}

/// Node `j`, `k` steps up the parent links `par`.
spec fn upi(par: Seq<Option<usize>>, j: int, k: nat) -> Option<int>
    decreases k,
{
    if k == 0 {
        Some(j)
    } else if 0 <= j < par.len() {
        match par[j] {
            Some(p) => upi(par, p as int, (k - 1) as nat),
            None => None,
        }
    } else {
        None
    }
}

spec fn root_at(par: Seq<Option<usize>>, o: Option<int>) -> bool {
    match o {
        Some(r) => 0 <= r < par.len() && par[r] is None,
        None => false,
    }
}

spec fn rooted_i(par: Seq<Option<usize>>, j: int) -> bool {
    exists|k: nat| root_at(par, #[trigger] upi(par, j, k))
}

spec fn later_or_self(o: Option<int>, j: int) -> bool {
    match o {
        Some(y) => y == j || y > j,
        None => true,
    }
}

spec fn head_i(par: Seq<Option<usize>>, j: int) -> bool {
    ||| par[j] is None
    ||| !rooted_i(par, j) && forall|k: nat| k >= 1 ==> later_or_self(#[trigger] upi(par, j, k), j)
}

spec fn earlier(o: Option<int>, j: int) -> bool {
    match o {
        Some(s) => s < j,
        None => false,
    }
}

/// Some node earlier than `j` lies up its parent chain.
spec fn anc_before(par: Seq<Option<usize>>, j: int) -> bool {
    exists|k: nat| k >= 1 && earlier(#[trigger] upi(par, j, k), j)
}

/// Node `j` lies below node `i`: `i` is on its parent chain (or is `j`).
spec fn below_of(par: Seq<Option<usize>>, j: int, i: int) -> bool {
    exists|k: nat| #[trigger] upi(par, j, k) == Some(i)
}

/// Node `j` heads a top-level tree, or lies below an earlier node or a root.
spec fn classified(par: Seq<Option<usize>>, starts: Seq<int>, j: int) -> bool {
    ||| starts.contains(j)
    ||| par[j] is Some && (rooted_i(par, j) || anc_before(par, j))
}

spec fn links_ok(par: Seq<Option<usize>>) -> bool {
    forall|j: int| 0 <= j < par.len() ==> match #[trigger] par[j] {
        Some(p) => p < par.len(),
        None => true,
    }
}

proof fn lemma_upi_range(par: Seq<Option<usize>>, j: int, k: nat)
    requires
        links_ok(par),
        0 <= j < par.len(),
    ensures
        upi(par, j, k) matches Some(y) ==> 0 <= y < par.len(),
    decreases k,
{
    if k > 0 {
        if let Some(p) = par[j] {
            lemma_upi_range(par, p as int, (k - 1) as nat);
        }
    }
}

/// Walking `a` steps and then `b` more is walking `a + b` steps.
proof fn lemma_upi_add(par: Seq<Option<usize>>, j: int, a: nat, b: nat)
    ensures
        upi(par, j, a) matches Some(y) ==> upi(par, j, a + b) == upi(par, y, b),
    decreases a,
{
    if a > 0 && 0 <= j < par.len() {
        if let Some(p) = par[j] {
            lemma_upi_add(par, p as int, (a - 1) as nat, b);
            assert((a + b - 1) as nat == ((a - 1) as nat + b) as nat);
        }
    }
}

spec fn idm(u: Seq<ToolSpanView>, o: Option<int>) -> Option<Seq<char>> {
    match o {
        Some(y) => Some(u[y].span_id@),
        None => None,
    }
}

/// The facts that tie the parent links `par` of the first-occurrence rows `u` to the input.
spec fn par_ok(orig: Seq<ToolSpanView>, u: Seq<ToolSpanView>, firsts: Seq<int>, par: Seq<Option<usize>>) -> bool {
    &&& firsts_ok(u, firsts, orig)
    &&& increasing(firsts)
    &&& par.len() == u.len()
    &&& forall|j: int| 0 <= j < u.len() ==> match #[trigger] par[j] {
        Some(p) => p < u.len() && opt_view(u[j].parent_span_id) == Some(u[p as int].span_id@),
        None => true,
    }
    &&& forall|j: int| 0 <= j < u.len() ==> (#[trigger] par[j] is None <==> is_root(orig, firsts[j]))
}

proof fn lemma_parent_of(orig: Seq<ToolSpanView>, u: Seq<ToolSpanView>, firsts: Seq<int>, par: Seq<Option<usize>>, j: int)
    requires
        par_ok(orig, u, firsts, par),
        0 <= j < u.len(),
    ensures
        parent_of(orig, u[j].span_id@) == match par[j] {
            Some(p) => Some(u[p as int].span_id@),
            None => None::<Seq<char>>,
        },
{
    lemma_first_pos(u, firsts, orig, j);
    assert(orig[firsts[j]] == u[j]);
    if let Some(p) = par[j] {
        assert(!is_root(orig, firsts[j]));
    } else {
        assert(is_root(orig, firsts[j]));
    }
}

proof fn lemma_up(orig: Seq<ToolSpanView>, u: Seq<ToolSpanView>, firsts: Seq<int>, par: Seq<Option<usize>>, j: int, k: nat)
    requires
        par_ok(orig, u, firsts, par),
        0 <= j < u.len(),
    ensures
        up(orig, u[j].span_id@, k) == idm(u, upi(par, j, k)),
    decreases k,
{
    if k > 0 {
        lemma_parent_of(orig, u, firsts, par, j);
        if let Some(p) = par[j] {
            lemma_up(orig, u, firsts, par, p as int, (k - 1) as nat);
        }
    }
}

/// `heads` over the input is `head_i` over the node links.
proof fn lemma_heads_match(orig: Seq<ToolSpanView>, u: Seq<ToolSpanView>, firsts: Seq<int>, par: Seq<Option<usize>>, j: int)
    requires
        par_ok(orig, u, firsts, par),
        0 <= j < u.len(),
    ensures
        heads(orig, u[j].span_id@) == head_i(par, j),
{
    lemma_u_distinct(u, firsts, orig);
    assert(links_ok(par));
    let id = u[j].span_id@;
    lemma_parent_of(orig, u, firsts, par, j);
    assert(rooted(orig, id) == rooted_i(par, j)) by {
        if rooted(orig, id) {
            let k = choose|k: nat| ends_at_root(orig, #[trigger] up(orig, id, k));
            lemma_up(orig, u, firsts, par, j, k);
            lemma_upi_range(par, j, k);
            let y = upi(par, j, k)->0;
            lemma_parent_of(orig, u, firsts, par, y);
            assert(root_at(par, upi(par, j, k)));
        }
        if rooted_i(par, j) {
            let k = choose|k: nat| root_at(par, #[trigger] upi(par, j, k));
            lemma_up(orig, u, firsts, par, j, k);
            let y = upi(par, j, k)->0;
            lemma_parent_of(orig, u, firsts, par, y);
            assert(ends_at_root(orig, up(orig, id, k)));
        }
    }
    assert forall|k: nat| k >= 1 implies not_earlier(orig, #[trigger] up(orig, id, k), id) == later_or_self(upi(par, j, k), j) by {
        lemma_up(orig, u, firsts, par, j, k);
        lemma_upi_range(par, j, k);
        if let Some(y) = upi(par, j, k) {
            lemma_first_pos(u, firsts, orig, y);
            lemma_first_pos(u, firsts, orig, j);
            if y < j {
                assert(firsts[y] < firsts[j]);
                assert(u[y].span_id@ != u[j].span_id@);
            } else if y > j {
                assert(firsts[j] < firsts[y]);
                assert(u[j].span_id@ != u[y].span_id@);
            }
        }
    }
    if head_i(par, j) && par[j] is Some {
        assert forall|k: nat| k >= 1 implies not_earlier(orig, #[trigger] up(orig, id, k), id) by {
            assert(later_or_self(upi(par, j, k), j));
        }
    }
    if heads(orig, id) && parent_of(orig, id) is Some {
        assert forall|k: nat| k >= 1 implies later_or_self(#[trigger] upi(par, j, k), j) by {
            assert(not_earlier(orig, up(orig, id, k), id));
        }
    }
}

/// Working state of the assembly.
struct Work {
    /// Rows by node index; a row is taken out when its node is assembled.
    slots: Vec<Option<ToolSpanView>>,
    /// Parent node index of each node, when its parent row is present.
    parent: Vec<Option<usize>>,
    /// Child node indices of each node, ascending.
    kids: Vec<Vec<usize>>,
    seen: Vec<bool>,
    on_stack: Vec<bool>,
}

/// The fixed facts of an assembly over the first-occurrence rows `u` of the input.
spec fn shape_ok(w: &Work, u: Seq<ToolSpanView>) -> bool {
    &&& w.slots.len() == u.len()
    &&& w.parent.len() == u.len()
    &&& w.kids.len() == u.len()
    &&& w.seen.len() == u.len()
    &&& w.on_stack.len() == u.len()
    &&& forall|j: int| 0 <= j < u.len() ==> match #[trigger] w.parent@[j] {
        Some(p) => p < u.len() && opt_view(u[j].parent_span_id) == Some(u[p as int].span_id@),
        None => true,
    }
    &&& forall|p: int, c: int|
        0 <= p < u.len() && 0 <= c < w.kids@[p].len() ==> #[trigger] w.kids@[p]@[c] < u.len()
            && w.parent@[w.kids@[p]@[c] as int] == Some(p as usize)
    &&& forall|p: int, a: int, b: int|
        0 <= p < u.len() && 0 <= a < b < w.kids@[p].len() ==> #[trigger] w.kids@[p]@[a] < #[trigger] w.kids@[p]@[b]
    &&& forall|j: int| 0 <= j < u.len() && (#[trigger] w.parent@[j]) is Some ==>
        exists|c: int| 0 <= c < w.kids@[w.parent@[j]->0 as int].len() && w.kids@[w.parent@[j]->0 as int]@[c] == j
}

/// Every child of an assembled node is assembled or being assembled.
spec fn closed(w: &Work) -> bool {
    forall|p: int, c: int| #![trigger w.kids@[p]@[c]]
        0 <= p < w.seen.len() && 0 <= c < w.kids@[p].len() && w.seen@[p] ==>
            w.seen@[w.kids@[p]@[c] as int] || w.on_stack@[w.kids@[p]@[c] as int]
}

/// With nothing being assembled, everything below an assembled node is assembled.
proof fn lemma_seen_below(w: &Work, u: Seq<ToolSpanView>, x: int, y: int, k: nat)
    requires
        shape_ok(w, u),
        closed(w),
        forall|a: int| 0 <= a < u.len() ==> !#[trigger] w.on_stack@[a],
        0 <= x < u.len(),
        w.seen@[y],
        upi(w.parent@, x, k) == Some(y),
    ensures
        w.seen@[x],
    decreases k,
{
    if k > 0 {
        let p = w.parent@[x]->0;
        lemma_seen_below(w, u, p as int, y, (k - 1) as nat);
        let c = choose|c: int| 0 <= c < w.kids@[p as int].len() && w.kids@[p as int]@[c] == x;
        assert(w.kids@[p as int]@[c] == x);
    }
}

/// The first row with an id is unique.
proof fn lemma_first_unique(spans: Seq<ToolSpanView>, id: Seq<char>, k1: int, k2: int)
    requires
        is_first(spans, id, k1),
        is_first(spans, id, k2),
    ensures
        k1 == k2,
{
    if k1 < k2 {
        assert(spans[k1].span_id@ == id);
    } else if k2 < k1 {
        assert(spans[k2].span_id@ == id);
    }
}

/// The first position of node `j`'s id is where it was found.
proof fn lemma_first_pos(u: Seq<ToolSpanView>, firsts: Seq<int>, spans: Seq<ToolSpanView>, j: int)
    requires
        firsts_ok(u, firsts, spans),
        0 <= j < u.len(),
    ensures
        first_pos(spans, u[j].span_id@) == firsts[j],
{
    assert(is_first(spans, u[j].span_id@, firsts[j]));
    let k = first_pos(spans, u[j].span_id@);
    lemma_first_unique(spans, u[j].span_id@, k, firsts[j]);
}

/// A slot holds its row exactly while the node is neither assembled nor being assembled.
spec fn slots_ok(w: &Work, u: Seq<ToolSpanView>) -> bool {
    forall|j: int|
        0 <= j < u.len() ==> (#[trigger] w.slots@[j] == if !w.seen@[j] && !w.on_stack@[j] {
            Some(u[j])
        } else {
            None::<ToolSpanView>
        })
}

spec fn stack_set(w: &Work) -> Set<int> {
    Set::new(|j: int| 0 <= j < w.on_stack.len() && w.on_stack@[j])
}

/// Node `j` of `u` corresponds to input row `firsts[j]`, its first occurrence.
spec fn firsts_ok(u: Seq<ToolSpanView>, firsts: Seq<int>, spans: Seq<ToolSpanView>) -> bool {
    &&& firsts.len() == u.len()
    &&& forall|j: int| 0 <= j < u.len() ==> is_first(spans, u[j].span_id@, #[trigger] firsts[j]) && u[j] == spans[firsts[j]]
}

proof fn lemma_flat_push(ns: Seq<SpanNode>, n: SpanNode)
    ensures
        flat(ns.push(n)) == flat(ns) + flat_node(n),
{
    assert(ns.push(n).drop_last() =~= ns);
}


/// Ids of the nodes without a present parent among the first `k` nodes.
spec fn roots_u(u: Seq<ToolSpanView>, par: Seq<Option<usize>>, k: int) -> Seq<Seq<char>>
    decreases k,
{
    if k <= 0 {
        Seq::empty()
    } else {
        roots_u(u, par, k - 1) + if par[k - 1] is None {
            seq![u[k - 1].span_id@]
        } else {
            Seq::empty()
        }
    }
}

/// Number of nodes whose first row lies before row `m`.
spec fn below(firsts: Seq<int>, m: int) -> int
    decreases firsts.len(),
{
    if firsts.len() == 0 {
        0
    } else if firsts.last() < m {
        firsts.len() as int
    } else {
        below(firsts.drop_last(), m)
    }
}

spec fn increasing(firsts: Seq<int>) -> bool {
    forall|a: int, b: int| 0 <= a < b < firsts.len() ==> #[trigger] firsts[a] < #[trigger] firsts[b]
}

proof fn lemma_below(firsts: Seq<int>, m: int)
    requires
        increasing(firsts),
    ensures
        0 <= below(firsts, m) <= firsts.len(),
        forall|j: int| 0 <= j < below(firsts, m) ==> #[trigger] firsts[j] < m,
        forall|j: int| below(firsts, m) <= j < firsts.len() ==> #[trigger] firsts[j] >= m,
    decreases firsts.len(),
{
    if firsts.len() > 0 {
        if firsts.last() < m {
            assert forall|j: int| 0 <= j < firsts.len() implies #[trigger] firsts[j] < m by {
                if j < firsts.len() - 1 {
                    assert(firsts[j] < firsts[firsts.len() - 1]);
                }
            }
        } else {
            let d = firsts.drop_last();
            assert(increasing(d));
            lemma_below(d, m);
            assert forall|j: int| 0 <= j < below(firsts, m) implies #[trigger] firsts[j] < m by {
                assert(d[j] == firsts[j]);
            }
            assert forall|j: int| below(firsts, m) <= j < firsts.len() implies #[trigger] firsts[j] >= m by {
                if j < firsts.len() - 1 {
                    assert(d[j] == firsts[j]);
                }
            }
        }
    }
}

proof fn lemma_below_unique(firsts: Seq<int>, m: int, b: int)
    requires
        increasing(firsts),
        0 <= b <= firsts.len(),
        forall|j: int| 0 <= j < b ==> #[trigger] firsts[j] < m,
        forall|j: int| b <= j < firsts.len() ==> #[trigger] firsts[j] >= m,
    ensures
        below(firsts, m) == b,
{
    lemma_below(firsts, m);
    let c = below(firsts, m);
    if c < b {
        assert(firsts[c] >= m);
        assert(firsts[c] < m);
    }
    if c > b {
        assert(firsts[b] < m);
        assert(firsts[b] >= m);
    }
}

/// The nodes' ids are distinct.
proof fn lemma_u_distinct(u: Seq<ToolSpanView>, firsts: Seq<int>, spans: Seq<ToolSpanView>)
    requires
        firsts_ok(u, firsts, spans),
        increasing(firsts),
    ensures
        forall|a: int, b: int| 0 <= a < b < u.len() ==> #[trigger] u[a].span_id@ != #[trigger] u[b].span_id@,
{
    assert forall|a: int, b: int| 0 <= a < b < u.len() implies #[trigger] u[a].span_id@ != #[trigger] u[b].span_id@ by {
        assert(is_first(spans, u[b].span_id@, firsts[b]));
        assert(firsts[a] < firsts[b]);
        assert(u[a] == spans[firsts[a]]);
    }
}

proof fn lemma_roots_match(
    spans: Seq<ToolSpanView>,
    u: Seq<ToolSpanView>,
    firsts: Seq<int>,
    par: Seq<Option<usize>>,
    m: int,
)
    requires
        0 <= m <= spans.len(),
        firsts_ok(u, firsts, spans),
        increasing(firsts),
        par.len() == u.len(),
        forall|k: int| 0 <= k < spans.len() && #[trigger] is_first(spans, spans[k].span_id@, k) ==> exists|j: int| 0 <= j < u.len() && firsts[j] == k,
        forall|j: int| 0 <= j < u.len() ==> (#[trigger] par[j] is None <==> is_root(spans, firsts[j])),
    ensures
        roots_upto(spans, m) == roots_u(u, par, below(firsts, m)),
    decreases m,
{
    lemma_below(firsts, m);
    if m == 0 {
        assert forall|j: int| 0 <= j < firsts.len() implies #[trigger] firsts[j] >= 0 by {
            assert(is_first(spans, u[j].span_id@, firsts[j]));
        }
        lemma_below_unique(firsts, 0, 0);
    } else {
        let k = m - 1;
        lemma_roots_match(spans, u, firsts, par, k);
        lemma_below(firsts, k);
        let b = below(firsts, k);
        if is_first(spans, spans[k].span_id@, k) {
            let j = choose|j: int| 0 <= j < u.len() && firsts[j] == k;
            if j < b {
                assert(firsts[j] < k);
            }
            if j > b {
                assert(firsts[b] < firsts[j]);
                assert(firsts[b] >= k);
            }
            assert(j == b);
            assert forall|q: int| b + 1 <= q < firsts.len() implies #[trigger] firsts[q] >= m by {
                assert(firsts[b] < firsts[q]);
            }
            lemma_below_unique(firsts, m, b + 1);
            assert(u[b] == spans[k]);
        } else {
            assert forall|q: int| b <= q < firsts.len() implies #[trigger] firsts[q] >= m by {
                assert(firsts[q] >= k);
                if firsts[q] == k {
                    assert(is_first(spans, u[q].span_id@, firsts[q]));
                    assert(u[q] == spans[k]);
                }
            }
            lemma_below_unique(firsts, m, b);
        }
    }
}

/// Assembles node `i` and its not yet assembled descendants.
fn assemble(
    w: &mut Work,
    i: usize,
    Ghost(u): Ghost<Seq<ToolSpanView>>,
    Ghost(firsts): Ghost<Seq<int>>,
    Ghost(spans): Ghost<Seq<ToolSpanView>>,
) -> (r: (Option<SpanNode>, Ghost<Seq<int>>))
    requires
        i < u.len(),
        shape_ok(old(w), u),
        slots_ok(old(w), u),
        firsts_ok(u, firsts, spans),
        increasing(firsts),
        closed(old(w)),
    ensures
        shape_ok(final(w), u),
        closed(final(w)),
        forall|m: int| 0 <= m < r.1@.len() ==> #[trigger] below_of(old(w).parent@, r.1@[m], i as int),
        slots_ok(final(w), u),
        final(w).parent@ == old(w).parent@,
        final(w).kids@ == old(w).kids@,
        final(w).on_stack@ == old(w).on_stack@,
        forall|j: int| 0 <= j < u.len() && old(w).seen@[j] ==> #[trigger] final(w).seen@[j],
        ({
            let order = r.1@;
            &&& order.no_duplicates()
            &&& forall|k: int| 0 <= k < order.len() ==> 0 <= #[trigger] order[k] < u.len()
                && !old(w).seen@[order[k]] && !old(w).on_stack@[order[k]]
            &&& forall|j: int| 0 <= j < u.len() ==> (#[trigger] final(w).seen@[j] <==> (old(w).seen@[j] || order.contains(j)))
            &&& forall|k: int| 0 < k < order.len() ==> #[trigger] old(w).parent@[order[k]] is Some
            &&& match r.0 {
                Some(n) => {
                    &&& !old(w).seen@[i as int] && !old(w).on_stack@[i as int]
                    &&& order.len() > 0 && order[0] == i
                    &&& node_ok(n, spans)
                    &&& n.span.span_id@ == u[i as int].span_id@
                    &&& flat_node(n) == order.map_values(|j: int| u[j].span_id@)
                },
                None => {
                    &&& (old(w).seen@[i as int] || old(w).on_stack@[i as int])
                    &&& order.len() == 0
                },
            }
        }),
    decreases u.len() - stack_set(old(w)).len(),
{
    if w.seen[i] || w.on_stack[i] {
        return (None, Ghost(Seq::empty()));
    }
    let ghost w0_seen = w.seen@;
    let ghost stk0 = stack_set(w);
    let mut slot: Option<ToolSpanView> = None;
    w.slots.set_and_swap(i, &mut slot);
    let span = match slot {
        Some(s) => s,
        None => {
            assert(false);
            ToolSpanView::default()
        },
    };
    w.on_stack.set(i, true);
    proof {
        vstd::set_lib::lemma_int_range(0, u.len() as int);
        assert(stack_set(w) =~= stk0.insert(i as int));
        assert(stk0.subset_of(vstd::set_lib::set_int_range(0, u.len() as int)));
        assert(stack_set(w).subset_of(vstd::set_lib::set_int_range(0, u.len() as int)));
        vstd::set_lib::lemma_len_subset(stk0, vstd::set_lib::set_int_range(0, u.len() as int));
        vstd::set_lib::lemma_len_subset(stack_set(w), vstd::set_lib::set_int_range(0, u.len() as int));
        assert(!stk0.contains(i as int));
    }
    proof {
        assert(upi(old(w).parent@, i as int, 0) == Some(i as int));
        assert forall|p: int, c: int| #![trigger w.kids@[p]@[c]]
            0 <= p < w.seen.len() && 0 <= c < w.kids@[p].len() && w.seen@[p] implies
                w.seen@[w.kids@[p]@[c] as int] || w.on_stack@[w.kids@[p]@[c] as int] by {
            assert(old(w).kids@[p]@[c] == w.kids@[p]@[c]);
        }
    }
    let mut children: Vec<SpanNode> = Vec::new();
    let ghost mut order: Seq<int> = seq![i as int];
    let ghost mut kpos: Seq<int> = Seq::empty();
    let n_kids = w.kids[i].len();
    let mut c: usize = 0;
    while c < n_kids
        invariant
            i < u.len(),
            c <= n_kids,
            n_kids == w.kids@[i as int].len(),
            shape_ok(w, u),
            slots_ok(w, u),
            firsts_ok(u, firsts, spans),
            w.on_stack@ == old(w).on_stack@.update(i as int, true),
            old(w).on_stack@.len() == u.len(),
            w.parent@ == old(w).parent@,
            w.kids@ == old(w).kids@,
            stack_set(w) == stk0.insert(i as int),
            stk0 == stack_set(old(w)),
            stack_set(w).len() == stk0.len() + 1,
            stack_set(w).len() <= u.len(),
            !w0_seen[i as int],
            w0_seen == old(w).seen@,
            forall|j: int| 0 <= j < u.len() && w0_seen[j] ==> #[trigger] w.seen@[j],
            !w.seen@[i as int],
            order.no_duplicates(),
            order.len() >= 1,
            order[0] == i,
            forall|k: int| 0 <= k < order.len() ==> 0 <= #[trigger] order[k] < u.len() && !w0_seen[order[k]]
                && !old(w).on_stack@[order[k]],
            forall|j: int| 0 <= j < u.len() && j != i ==> (#[trigger] w.seen@[j] <==> (w0_seen[j] || order.contains(j))),
            forall|k: int| 0 < k < order.len() ==> #[trigger] old(w).parent@[order[k]] is Some,
            children_ok(children@, u[i as int].span_id@, spans),
            seq![u[i as int].span_id@] + flat(children@) == order.map_values(|j: int| u[j].span_id@),
            increasing(firsts),
            closed(w),
            forall|c2: int| 0 <= c2 < c ==> w.seen@[#[trigger] w.kids@[i as int]@[c2] as int] || w.on_stack@[w.kids@[i as int]@[c2] as int],
            forall|m: int| 0 <= m < order.len() ==> #[trigger] below_of(old(w).parent@, order[m], i as int),
            kpos.len() == children.len(),
            forall|k: int| 0 <= k < kpos.len() ==> 0 <= #[trigger] kpos[k] < c,
            forall|a: int, b: int| 0 <= a < b < kpos.len() ==> #[trigger] kpos[a] < #[trigger] kpos[b],
            forall|k: int| 0 <= k < kpos.len() ==> (#[trigger] children@[k]).span.span_id@ == u[w.kids@[i as int]@[kpos[k]] as int].span_id@,
        decreases n_kids - c,
    {
        let child = w.kids[i][c];
        proof {
            assert(w.parent@[child as int] == Some(i));
        }
        let ghost pre_seen = w.seen@;
        let ghost pre_stack = w.on_stack@;
        assert(u.len() - stack_set(w).len() < u.len() - stack_set(old(w)).len());
        let (sub, Ghost(sub_order)) = assemble(w, child, Ghost(u), Ghost(firsts), Ghost(spans));
        proof {
            assert forall|k: int| 0 <= k < sub_order.len() implies !order.contains(#[trigger] sub_order[k]) by {
                let x = sub_order[k];
                assert(!pre_seen[x] && !pre_stack[x]);
                if order.contains(x) {
                    let q = choose|q: int| 0 <= q < order.len() && order[q] == x;
                    if x == i {
                        assert(pre_stack[i as int]);
                    } else {
                        assert(pre_seen[x]);
                    }
                }
            }
            assert forall|k: int| 0 <= k < sub_order.len() implies 0 <= #[trigger] sub_order[k] < u.len()
                && !w0_seen[sub_order[k]] && !old(w).on_stack@[sub_order[k]] by {
                let x = sub_order[k];
                assert(!pre_seen[x] && !pre_stack[x]);
                if w0_seen[x] {
                    assert(pre_seen[x]);
                }
                if old(w).on_stack@[x] {
                    assert(x != i);
                    assert(pre_stack[x]);
                }
            }
        }
        match sub {
            Some(node) => {
                let ghost prev = children@;
                children.push(node);
                proof {
                    kpos = kpos.push(c as int);
                    assert(children@[children.len() - 1] == node);
                    assert forall|k: int| 0 <= k < kpos.len() implies (#[trigger] children@[k]).span.span_id@ == u[w.kids@[i as int]@[kpos[k]] as int].span_id@ by {
                        if k < kpos.len() - 1 {
                            assert(children@[k] == prev[k]);
                        }
                    }
                    lemma_flat_push(prev, node);
                    assert(children@.drop_last() =~= prev);
                    assert(opt_view(u[child as int].parent_span_id) == Some(u[i as int].span_id@));
                    assert(node.span.span_id@ == u[child as int].span_id@);
                    let k0 = choose|k: int| is_first(spans, node.span.span_id@, k) && node.span == spans[k];
                    assert(node.span == u[child as int]) by {
                        assert(is_first(spans, u[child as int].span_id@, firsts[child as int]));
                        if k0 != firsts[child as int] {
                            if k0 < firsts[child as int] {
                                assert(spans[k0].span_id@ != u[child as int].span_id@);
                            } else {
                                assert(spans[firsts[child as int]].span_id@ != node.span.span_id@);
                            }
                        }
                    }
                }
            },
            None => {},
        }
        proof {
            let new_order = order + sub_order;
            assert(new_order.map_values(|j: int| u[j].span_id@) =~= order.map_values(|j: int| u[j].span_id@)
                + sub_order.map_values(|j: int| u[j].span_id@));
            assert forall|a: int, b: int| 0 <= a < b < new_order.len() implies new_order[a] != new_order[b] by {
                if b >= order.len() && a < order.len() {
                    assert(!order.contains(sub_order[b - order.len()]));
                }
            }
            assert forall|k: int| 0 <= k < new_order.len() implies 0 <= #[trigger] new_order[k] < u.len() && !w0_seen[new_order[k]]
                && !old(w).on_stack@[new_order[k]] by {
                if k >= order.len() {
                    assert(new_order[k] == sub_order[k - order.len()]);
                }
            }
            assert forall|j: int| 0 <= j < u.len() && j != i implies (#[trigger] w.seen@[j] <==> (w0_seen[j] || new_order.contains(j))) by {
                if new_order.contains(j) {
                    let q = choose|q: int| 0 <= q < new_order.len() && new_order[q] == j;
                    if q >= order.len() {
                        assert(sub_order[q - order.len()] == j);
                    }
                }
                if order.contains(j) {
                    let q = choose|q: int| 0 <= q < order.len() && order[q] == j;
                    assert(new_order[q] == j);
                }
                if sub_order.contains(j) {
                    let q = choose|q: int| 0 <= q < sub_order.len() && sub_order[q] == j;
                    assert(new_order[q + order.len()] == j);
                }
            }
            assert forall|k: int| 0 < k < new_order.len() implies #[trigger] old(w).parent@[new_order[k]] is Some by {
                if k >= order.len() {
                    let kk = k - order.len();
                    if kk == 0 {
                        assert(sub_order[0] == child);
                    }
                }
            }
            let par = old(w).parent@;
            assert(upi(par, child as int, 1) == Some(i as int)) by {
                assert(par[child as int] == Some(i));
                assert(upi(par, i as int, 0) == Some(i as int));
            }
            assert forall|m: int| 0 <= m < new_order.len() implies #[trigger] below_of(par, new_order[m], i as int) by {
                if m >= order.len() {
                    let x = sub_order[m - order.len()];
                    assert(new_order[m] == x);
                    assert(below_of(par, x, child as int));
                    let k1 = choose|k: nat| #[trigger] upi(par, x, k) == Some(child as int);
                    lemma_upi_add(par, x, k1, 1);
                    assert(upi(par, x, k1 + 1) == Some(i as int));
                } else {
                    assert(new_order[m] == order[m]);
                }
            }
            assert forall|c2: int| 0 <= c2 < c + 1 implies w.seen@[#[trigger] w.kids@[i as int]@[c2] as int] || w.on_stack@[w.kids@[i as int]@[c2] as int] by {
                let q = w.kids@[i as int]@[c2] as int;
                if c2 == c {
                    assert(q == child);
                    if !pre_seen[q] && !pre_stack[q] {
                        assert(sub_order[0] == child);
                        assert(sub_order.contains(q));
                    }
                } else {
                    assert(pre_seen[q] || pre_stack[q]);
                }
            }
            order = new_order;
        }
        c = c + 1;
    }
    w.on_stack.set(i, false);
    w.seen.set(i, true);
    let cost = match span.subtree_cost_usd_e6 {
        Some(v) => v,
        None => 0,
    };
    let tokens = match span.subtree_token_count {
        Some(v) => v as u64,
        None => 0,
    };
    let node = SpanNode { span, children, subtree_cost_usd_e6: cost, subtree_token_count: tokens };
    proof {
        let ks = w.kids@[i as int];
        assert forall|a: int, b: int| 0 <= a < b < node.children@.len() implies
            first_pos(spans, #[trigger] node.children@[a].span.span_id@) < first_pos(spans, #[trigger] node.children@[b].span.span_id@) by {
            let ia = ks@[kpos[a]] as int;
            let ib = ks@[kpos[b]] as int;
            assert(kpos[a] < kpos[b]);
            assert(ks@[kpos[a]] < ks@[kpos[b]]);
            lemma_first_pos(u, firsts, spans, ia);
            lemma_first_pos(u, firsts, spans, ib);
            assert(firsts[ia] < firsts[ib]);
        }
        assert(ascending(node.children@, spans));
        assert forall|p: int, c: int| #![trigger w.kids@[p]@[c]]
            0 <= p < w.seen.len() && 0 <= c < w.kids@[p].len() && w.seen@[p] implies
                w.seen@[w.kids@[p]@[c] as int] || w.on_stack@[w.kids@[p]@[c] as int] by {
            let q = w.kids@[p]@[c] as int;
            if p == i {
                assert(w.kids@[i as int]@[c] == w.kids@[p]@[c]);
            }
        }
        assert(is_first(spans, u[i as int].span_id@, firsts[i as int]));
        assert(stack_set(w) =~= stk0);
        assert forall|j: int| 0 <= j < u.len() implies (#[trigger] w.seen@[j] <==> (w0_seen[j] || order.contains(j))) by {
            if j == i {
                assert(order[0] == i);
            }
        }
    }
    (Some(node), Ghost(order))
}

/// Assemble a forest from a flat list of spans. Rows whose id repeats an earlier row are
/// dropped. Roots (rows without a present parent) come first in input order, each with
/// its descendants; rows left over (spans caught in parent cycles) follow as their own
/// trees. Every remaining row appears exactly once, and sits under its parent unless it
/// heads a tree (see `heads`): a row whose parent chain ends at a root is always under its
/// parent, and of the rows caught in a cycle only those with no earlier row up their chain
/// head trees of their own.
pub fn build_tree(spans: Vec<ToolSpanView>) -> (r: Vec<SpanNode>)
    ensures
        forest_ok(r@, spans@),
        flat(r@).no_duplicates(),
        flat(r@).to_set() == ids_of(spans@).to_set(),
        roots_spec(spans@).len() <= r.len(),
        forall|k: int| 0 <= k < roots_spec(spans@).len() ==> #[trigger] r@[k].span.span_id@ == roots_spec(spans@)[k],
        ascending(r@.subrange(roots_spec(spans@).len() as int, r.len() as int), spans@),
        forall|q: int| 0 <= q < r.len() ==> heads(spans@, #[trigger] r@[q].span.span_id@),
        forall|x: Seq<char>| flat(r@).contains(x) && #[trigger] heads(spans@, x) ==>
            exists|q: int| 0 <= q < r.len() && r@[q].span.span_id@ == x,
{
    let ghost orig = spans@;
    let mut spans = spans;
    // First occurrences of every id, in input order.
    let mut ids: Vec<String> = Vec::new();
    let mut slots: Vec<Option<ToolSpanView>> = Vec::new();
    let ghost mut u: Seq<ToolSpanView> = Seq::empty();
    let ghost mut firsts: Seq<int> = Seq::empty();
    let mut i: usize = 0;
    while i < spans.len()
        invariant
            i <= spans.len(),
            spans.len() == orig.len(),
            forall|k: int| i <= k < spans.len() ==> #[trigger] spans@[k] == orig[k],
            ids.len() == u.len(),
            slots.len() == u.len(),
            forall|j: int| 0 <= j < u.len() ==> #[trigger] ids@[j]@ == u[j].span_id@,
            forall|j: int| 0 <= j < u.len() ==> #[trigger] slots@[j] == Some(u[j]),
            firsts_ok(u, firsts, orig),
            forall|j: int| 0 <= j < u.len() ==> #[trigger] firsts[j] < i,
            forall|k: int| #![trigger orig[k]] 0 <= k < i ==> exists|j: int| 0 <= j < u.len() && #[trigger] u[j].span_id@ == orig[k].span_id@,
            forall|k: int| 0 <= k < i && #[trigger] is_first(orig, orig[k].span_id@, k) ==> exists|j: int| 0 <= j < u.len() && firsts[j] == k,
            increasing(firsts),
        decreases spans.len() - i,
    {
        let mut row = ToolSpanView::default();
        spans.set_and_swap(i, &mut row);
        let mut found = false;
        let mut j: usize = 0;
        while j < ids.len()
            invariant
                j <= ids.len(),
                ids.len() == u.len(),
                forall|q: int| 0 <= q < u.len() ==> #[trigger] ids@[q]@ == u[q].span_id@,
                found ==> exists|q: int| 0 <= q < u.len() && #[trigger] u[q].span_id@ == row.span_id@,
                !found ==> forall|q: int| 0 <= q < j ==> #[trigger] u[q].span_id@ != row.span_id@,
            decreases ids.len() - j,
        {
            if str_eq(ids[j].as_str(), row.span_id.as_str()) {
                found = true;
            }
            j = j + 1;
        }
        proof {
            assert(row == orig[i as int]);
        }
        if !found {
            proof {
                assert forall|k: int| 0 <= k < i implies #[trigger] orig[k].span_id@ != row.span_id@ by {
                    let q = choose|q: int| 0 <= q < u.len() && #[trigger] u[q].span_id@ == orig[k].span_id@;
                }
                assert(is_first(orig, row.span_id@, i as int));
            }
            ids.push(row.span_id.clone());
            let ghost prev_u = u;
            let ghost prev_f = firsts;
            slots.push(Some(row));
            proof {
                u = u.push(row);
                firsts = firsts.push(i as int);
                assert forall|k: int| #![trigger orig[k]] 0 <= k < i + 1 implies exists|q: int| 0 <= q < u.len() && #[trigger] u[q].span_id@ == orig[k].span_id@ by {
                    if k < i {
                        let q = choose|q: int| 0 <= q < prev_u.len() && #[trigger] prev_u[q].span_id@ == orig[k].span_id@;
                        assert(u[q] == prev_u[q]);
                    } else {
                        assert(u[prev_u.len() as int].span_id@ == orig[k].span_id@);
                    }
                }
                assert forall|k: int| 0 <= k < i + 1 && #[trigger] is_first(orig, orig[k].span_id@, k) implies exists|q: int| 0 <= q < u.len() && firsts[q] == k by {
                    if k < i {
                        let q = choose|q: int| 0 <= q < prev_u.len() && prev_f[q] == k;
                        assert(firsts[q] == k);
                    } else {
                        assert(firsts[prev_u.len() as int] == k);
                    }
                }
            }
        } else {
            proof {
                let q = choose|q: int| 0 <= q < u.len() && #[trigger] u[q].span_id@ == row.span_id@;
                assert forall|k: int| #![trigger orig[k]] 0 <= k < i + 1 implies exists|q: int| 0 <= q < u.len() && #[trigger] u[q].span_id@ == orig[k].span_id@ by {
                    if k == i {
                        assert(u[q].span_id@ == orig[k].span_id@);
                    }
                }
                assert forall|k: int| 0 <= k < i + 1 && #[trigger] is_first(orig, orig[k].span_id@, k) implies exists|q: int| 0 <= q < u.len() && firsts[q] == k by {
                    if k == i {
                        assert(is_first(orig, u[q].span_id@, firsts[q]));
                        assert(firsts[q] < i);
                        assert(orig[firsts[q]].span_id@ == orig[k].span_id@);
                        assert(false);
                    }
                }
            }
        }
        i = i + 1;
    }
    proof {
        lemma_u_distinct(u, firsts, orig);
    }
    let n = ids.len();
    // Parent index of each node.
    let mut parent: Vec<Option<usize>> = Vec::new();
    let mut j: usize = 0;
    while j < n
        invariant
            j <= n,
            n == u.len(),
            ids.len() == n,
            slots.len() == n,
            forall|q: int| 0 <= q < u.len() ==> #[trigger] ids@[q]@ == u[q].span_id@,
            forall|q: int| 0 <= q < u.len() ==> #[trigger] slots@[q] == Some(u[q]),
            parent.len() == j,
            forall|q: int| 0 <= q < j ==> match #[trigger] parent@[q] {
                Some(p) => p < u.len() && opt_view(u[q].parent_span_id) == Some(u[p as int].span_id@),
                None => match opt_view(u[q].parent_span_id) {
                    None => true,
                    Some(pid) => forall|x: int| 0 <= x < u.len() ==> #[trigger] u[x].span_id@ != pid,
                },
            },
        decreases n - j,
    {
        let p = match &slots[j] {
            Some(row) => match &row.parent_span_id {
                Some(pid) => {
                    let mut found: Option<usize> = None;
                    let mut x: usize = 0;
                    while x < n
                        invariant
                            x <= n,
                            n == u.len(),
                            ids.len() == n,
                            forall|q: int| 0 <= q < u.len() ==> #[trigger] ids@[q]@ == u[q].span_id@,
                            match found {
                                Some(p) => p < n && u[p as int].span_id@ == pid@,
                                None => forall|q: int| 0 <= q < x ==> #[trigger] u[q].span_id@ != pid@,
                            },
                        decreases n - x,
                    {
                        if found.is_none() && str_eq(ids[x].as_str(), pid.as_str()) {
                            found = Some(x);
                        }
                        x = x + 1;
                    }
                    found
                },
                None => None,
            },
            None => {
                assert(false);
                None
            },
        };
        parent.push(p);
        j = j + 1;
    }
    proof {
        assert forall|q: int| 0 <= q < u.len() implies (#[trigger] parent@[q] is None <==> is_root(orig, firsts[q])) by {
            assert(is_first(orig, u[q].span_id@, firsts[q]));
            assert(u[q] == orig[firsts[q]]);
            match opt_view(u[q].parent_span_id) {
                Some(pid) => {
                    if ids_of(orig).contains(pid) {
                        let z = choose|z: int| 0 <= z < orig.len() && ids_of(orig)[z] == pid;
                        assert(orig[z].span_id@ == pid);
                        let y = choose|y: int| 0 <= y < u.len() && #[trigger] u[y].span_id@ == orig[z].span_id@;
                        if parent@[q] is None {
                            assert(u[y].span_id@ != pid);
                        }
                    } else {
                        if parent@[q] is Some {
                            let p = parent@[q]->0;
                            assert(u[p as int] == orig[firsts[p as int]]);
                            assert(ids_of(orig)[firsts[p as int]] == pid);
                        }
                    }
                },
                None => {},
            }
        }
    }
    // Children of each node, ascending.
    let mut kids: Vec<Vec<usize>> = Vec::new();
    let mut p: usize = 0;
    while p < n
        invariant
            p <= n,
            parent.len() == n,
            kids.len() == p,
            forall|a: int, c: int|
                0 <= a < p && 0 <= c < kids@[a].len() ==> #[trigger] kids@[a]@[c] < n && parent@[kids@[a]@[c] as int] == Some(a as usize),
            forall|q: int, a: int, b: int|
                0 <= q < p && 0 <= a < b < kids@[q].len() ==> #[trigger] kids@[q]@[a] < #[trigger] kids@[q]@[b],
            forall|j: int| 0 <= j < n && (#[trigger] parent@[j]) is Some && (parent@[j]->0 as int) < p ==>
                exists|q: int| 0 <= q < kids@[parent@[j]->0 as int].len() && kids@[parent@[j]->0 as int]@[q] == j,
        decreases n - p,
    {
        let mut list: Vec<usize> = Vec::new();
        let mut c: usize = 0;
        while c < n
            invariant
                c <= n,
                parent.len() == n,
                forall|q: int| 0 <= q < list.len() ==> #[trigger] list@[q] < c && parent@[list@[q] as int] == Some(p),
                forall|a: int, b: int| 0 <= a < b < list.len() ==> #[trigger] list@[a] < #[trigger] list@[b],
                forall|x: int| 0 <= x < c && #[trigger] parent@[x] == Some(p) ==> exists|q: int| 0 <= q < list.len() && list@[q] == x,
            decreases n - c,
        {
            let ghost prev = list@;
            if parent[c] == Some(p) {
                list.push(c);
            }
            proof {
                assert forall|x: int| 0 <= x < c + 1 && #[trigger] parent@[x] == Some(p) implies exists|q: int| 0 <= q < list.len() && list@[q] == x by {
                    if x < c {
                        let q = choose|q: int| 0 <= q < prev.len() && prev[q] == x;
                        assert(list@[q] == x);
                    } else {
                        assert(list@[list.len() - 1] == x);
                    }
                }
            }
            c = c + 1;
        }
        let ghost prev_kids = kids@;
        kids.push(list);
        proof {
            assert forall|j: int| 0 <= j < n && (#[trigger] parent@[j]) is Some && (parent@[j]->0 as int) < p + 1 implies
                exists|q: int| 0 <= q < kids@[parent@[j]->0 as int].len() && kids@[parent@[j]->0 as int]@[q] == j by {
                let a = parent@[j]->0 as int;
                if a == p {
                    assert(parent@[j] == Some(p));
                    let q = choose|q: int| 0 <= q < list.len() && list@[q] == j;
                    assert(kids@[a] == list);
                } else {
                    assert(kids@[a] == prev_kids[a]);
                    let q = choose|q: int| 0 <= q < prev_kids[a].len() && prev_kids[a]@[q] == j;
                }
            }
        }
        p = p + 1;
    }
    let mut seen: Vec<bool> = Vec::new();
    let mut on_stack: Vec<bool> = Vec::new();
    let mut q: usize = 0;
    while q < n
        invariant
            q <= n,
            seen.len() == q,
            on_stack.len() == q,
            forall|a: int| 0 <= a < q ==> !#[trigger] seen@[a],
            forall|a: int| 0 <= a < q ==> !#[trigger] on_stack@[a],
        decreases n - q,
    {
        seen.push(false);
        on_stack.push(false);
        q = q + 1;
    }
    let ghost par = parent@;
    let mut w = Work { slots, parent, kids, seen, on_stack };
    assert(shape_ok(&w, u));
    assert(slots_ok(&w, u));
    assert(closed(&w));
    assert(forall|a: int| 0 <= a < n ==> !#[trigger] w.on_stack@[a]);
    let mut out: Vec<SpanNode> = Vec::new();
    let ghost mut order: Seq<int> = Seq::empty();
    let ghost mut starts: Seq<int> = Seq::empty();
    assert(flat(out@) =~= order.map_values(|j: int| u[j].span_id@));
    // Roots first, in input order.
    let mut k: usize = 0;
    while k < n
        invariant
            k <= n,
            n == u.len(),
            w.parent@ == par,
            shape_ok(&w, u),
            slots_ok(&w, u),
            firsts_ok(u, firsts, orig),
            increasing(firsts),
            closed(&w),
            forall|a: int| 0 <= a < n ==> !#[trigger] w.on_stack@[a],
            order.no_duplicates(),
            forall|a: int| 0 <= a < order.len() ==> 0 <= #[trigger] order[a] < n,
            forall|a: int| 0 <= a < n ==> (#[trigger] w.seen@[a] <==> order.contains(a)),
            forall|a: int| 0 <= a < n && #[trigger] w.seen@[a] ==> w.parent@[a] is Some || a < k,
            forest_ok(out@, orig),
            flat(out@) == order.map_values(|j: int| u[j].span_id@),
            out.len() == roots_u(u, par, k as int).len(),
            forall|a: int| 0 <= a < out.len() ==> #[trigger] out@[a].span.span_id@ == roots_u(u, par, k as int)[a],
            starts.len() == out.len(),
            forall|q: int| 0 <= q < starts.len() ==> 0 <= #[trigger] starts[q] < n
                && out@[q].span.span_id@ == u[starts[q]].span_id@ && head_i(par, starts[q]),
            forall|a: int| 0 <= a < order.len() ==> #[trigger] classified(par, starts, order[a]),
            forall|a: int| 0 <= a < k && par[a] is None ==> #[trigger] w.seen@[a],
        decreases n - k,
    {
        let ghost prev_out = out@;
        if w.parent[k].is_none() {
            let ghost before = order;
            let ghost seen0 = w.seen@;
            let (node, Ghost(sub)) = assemble(&mut w, k, Ghost(u), Ghost(firsts), Ghost(orig));
            match node {
                Some(nd) => {
                    out.push(nd);
                    proof {
                        lemma_flat_push(prev_out, nd);
                        assert(out@.drop_last() =~= prev_out);
                        let prev_starts = starts;
                        starts = starts.push(k as int);
                        assert forall|q: int| 0 <= q < starts.len() implies 0 <= #[trigger] starts[q] < n
                            && out@[q].span.span_id@ == u[starts[q]].span_id@ && head_i(par, starts[q]) by {
                            if q < prev_starts.len() {
                                assert(out@[q] == prev_out[q]);
                                assert(starts[q] == prev_starts[q]);
                            }
                        }
                        assert forall|a: int| 0 <= a < before.len() implies #[trigger] classified(par, starts, before[a]) by {
                            assert(classified(par, prev_starts, before[a]));
                            if prev_starts.contains(before[a]) {
                                let q = choose|q: int| 0 <= q < prev_starts.len() && prev_starts[q] == before[a];
                                assert(starts[q] == before[a]);
                            }
                        }
                        assert forall|m: int| 0 <= m < sub.len() implies #[trigger] classified(par, starts, sub[m]) by {
                            if m == 0 {
                                assert(starts[starts.len() - 1] == sub[m]);
                            } else {
                                assert(par[sub[m]] is Some);
                                assert(below_of(par, sub[m], k as int));
                                let k1 = choose|k1: nat| #[trigger] upi(par, sub[m], k1) == Some(k as int);
                                assert(root_at(par, upi(par, sub[m], k1)));
                            }
                        }
                    }
                },
                None => {
                    assert(false);
                },
            }
            proof {
                let before_c = before;
                order = before + sub;
                assert forall|a: int| 0 <= a < order.len() implies #[trigger] classified(par, starts, order[a]) by {
                    if a < before_c.len() {
                        assert(order[a] == before_c[a]);
                    } else {
                        assert(order[a] == sub[a - before_c.len()]);
                    }
                }
                assert forall|a: int| 0 <= a < k + 1 && par[a] is None implies #[trigger] w.seen@[a] by {
                    if a == k {
                        assert(sub[0] == k);
                        assert(order[before.len() as int] == k);
                        assert(order.contains(a));
                    } else {
                        assert(seen0[a]);
                    }
                }
                assert(order.map_values(|j: int| u[j].span_id@) =~= before.map_values(|j: int| u[j].span_id@) + sub.map_values(|j: int| u[j].span_id@));
                assert forall|a: int, b: int| 0 <= a < b < order.len() implies order[a] != order[b] by {
                    if a < before.len() && b >= before.len() {
                        assert(!seen0[sub[b - before.len()]]);
                        assert(seen0[before[a]]);
                    }
                }
                assert forall|a: int| 0 <= a < n implies (#[trigger] w.seen@[a] <==> order.contains(a)) by {
                    if order.contains(a) {
                        let q = choose|q: int| 0 <= q < order.len() && order[q] == a;
                        if q >= before.len() {
                            assert(sub[q - before.len()] == a);
                        } else {
                            assert(before[q] == a);
                        }
                    }
                    if sub.contains(a) {
                        let q = choose|q: int| 0 <= q < sub.len() && sub[q] == a;
                        assert(order[q + before.len()] == a);
                    }
                    if before.contains(a) {
                        let q = choose|q: int| 0 <= q < before.len() && before[q] == a;
                        assert(order[q] == a);
                    }
                }
                assert forall|a: int| 0 <= a < n && #[trigger] w.seen@[a] implies w.parent@[a] is Some || a < k + 1 by {
                    if !seen0[a] {
                        let q = choose|q: int| 0 <= q < sub.len() && sub[q] == a;
                        if q > 0 {
                            assert(par[sub[q]] is Some);
                        }
                    }
                }
                assert(roots_u(u, par, k + 1) == roots_u(u, par, k as int) + seq![u[k as int].span_id@]);
            }
        } else {
            proof {
                assert(roots_u(u, par, k + 1) =~= roots_u(u, par, k as int));
            }
        }
        k = k + 1;
    }
    proof {
        assert forall|j: int| 0 <= j < n && #[trigger] rooted_i(par, j) implies w.seen@[j] by {
            let k1 = choose|k1: nat| root_at(par, #[trigger] upi(par, j, k1));
            let r0 = upi(par, j, k1)->0;
            assert(w.seen@[r0]);
            lemma_seen_below(&w, u, j, r0, k1);
        }
    }
    let ghost nroots = out.len();
    let ghost root_nodes = out@;
    // Rows left over (caught in parent cycles), in input order.
    let mut rem: Vec<usize> = Vec::new();
    let mut k: usize = 0;
    while k < n
        invariant
            k <= n,
            n == w.seen.len(),
            forall|a: int| 0 <= a < rem.len() ==> #[trigger] rem@[a] < k,
            forall|a: int, b: int| 0 <= a < b < rem.len() ==> #[trigger] rem@[a] < #[trigger] rem@[b],
            forall|a: int| 0 <= a < k && !#[trigger] w.seen@[a] ==> exists|b: int| 0 <= b < rem.len() && rem@[b] == a,
        decreases n - k,
    {
        let ghost prev = rem@;
        if !w.seen[k] {
            rem.push(k);
            assert(rem@[rem.len() - 1] == k);
        }
        proof {
            assert forall|a: int| 0 <= a < k + 1 && !#[trigger] w.seen@[a] implies exists|b: int| 0 <= b < rem.len() && rem@[b] == a by {
                if a < k {
                    let b = choose|b: int| 0 <= b < prev.len() && prev[b] == a;
                    assert(rem@[b] == a);
                } else {
                    assert(rem@[rem.len() - 1] == a);
                }
            }
        }
        k = k + 1;
    }
    let mut t: usize = 0;
    let ghost mut xs: Seq<int> = Seq::empty();
    while t < rem.len()
        invariant
            t <= rem.len(),
            increasing(firsts),
            forall|a: int, b: int| 0 <= a < b < rem.len() ==> #[trigger] rem@[a] < #[trigger] rem@[b],
            xs.len() == out.len() - nroots,
            forall|q: int| 0 <= q < xs.len() ==> 0 <= #[trigger] xs[q] < t,
            forall|a: int, b: int| 0 <= a < b < xs.len() ==> #[trigger] xs[a] < #[trigger] xs[b],
            forall|q: int| 0 <= q < xs.len() ==> (#[trigger] out@[nroots + q]).span.span_id@ == u[rem@[xs[q]] as int].span_id@,
            n == u.len(),
            shape_ok(&w, u),
            slots_ok(&w, u),
            firsts_ok(u, firsts, orig),
            increasing(firsts),
            closed(&w),
            forall|a: int| 0 <= a < rem.len() ==> #[trigger] rem@[a] < n,
            forall|a: int| 0 <= a < n && !#[trigger] w.seen@[a] ==> exists|b: int| t <= b < rem.len() && rem@[b] == a,
            forall|a: int| 0 <= a < n ==> !#[trigger] w.on_stack@[a],
            order.no_duplicates(),
            forall|a: int| 0 <= a < order.len() ==> 0 <= #[trigger] order[a] < n,
            forall|a: int| 0 <= a < n ==> (#[trigger] w.seen@[a] <==> order.contains(a)),
            forest_ok(out@, orig),
            flat(out@) == order.map_values(|j: int| u[j].span_id@),
            out.len() >= nroots,
            out@.subrange(0, nroots as int) == root_nodes,
            w.parent@ == par,
            starts.len() == out.len(),
            forall|q: int| 0 <= q < starts.len() ==> 0 <= #[trigger] starts[q] < n
                && out@[q].span.span_id@ == u[starts[q]].span_id@ && head_i(par, starts[q]),
            forall|a: int| 0 <= a < order.len() ==> #[trigger] classified(par, starts, order[a]),
            forall|j: int| 0 <= j < n && #[trigger] rooted_i(par, j) ==> w.seen@[j],
        decreases rem.len() - t,
    {
        let ghost before = order;
        let ghost seen0 = w.seen@;
        let ghost prev_out = out@;
        let target = rem[t];
        proof {
            let x = target as int;
            assert(links_ok(par));
            assert forall|j: int| 0 <= j < n && !seen0[j] && j != x implies j > x by {
                let b = choose|b: int| t <= b < rem.len() && rem@[b] == j;
                if b > t {
                    assert(rem@[t as int] < rem@[b]);
                }
            }
            if !seen0[x] {
                assert(!rooted_i(par, x));
                assert forall|k: nat| k >= 1 implies later_or_self(#[trigger] upi(par, x, k), x) by {
                    lemma_upi_range(par, x, k);
                    if let Some(y) = upi(par, x, k) {
                        if y < x {
                            if !seen0[y] {
                                let b = choose|b: int| t <= b < rem.len() && rem@[b] == y;
                                if b > t {
                                    assert(rem@[t as int] < rem@[b]);
                                }
                            }
                            lemma_seen_below(&w, u, x, y, k);
                        }
                    }
                }
                assert(head_i(par, x));
            }
        }
        let (node, Ghost(sub)) = assemble(&mut w, target, Ghost(u), Ghost(firsts), Ghost(orig));
        match node {
            Some(nd) => {
                out.push(nd);
                proof {
                    lemma_flat_push(prev_out, nd);
                    assert(out@.drop_last() =~= prev_out);
                    assert(out@.subrange(0, nroots as int) =~= prev_out.subrange(0, nroots as int));
                    let prev_xs = xs;
                    xs = xs.push(t as int);
                    let x = target as int;
                    let prev_starts = starts;
                    starts = starts.push(x);
                    assert forall|q: int| 0 <= q < starts.len() implies 0 <= #[trigger] starts[q] < n
                        && out@[q].span.span_id@ == u[starts[q]].span_id@ && head_i(par, starts[q]) by {
                        if q < prev_starts.len() {
                            assert(out@[q] == prev_out[q]);
                            assert(starts[q] == prev_starts[q]);
                        }
                    }
                    assert forall|a: int| 0 <= a < before.len() implies #[trigger] classified(par, starts, before[a]) by {
                        assert(classified(par, prev_starts, before[a]));
                        if prev_starts.contains(before[a]) {
                            let q = choose|q: int| 0 <= q < prev_starts.len() && prev_starts[q] == before[a];
                            assert(starts[q] == before[a]);
                        }
                    }
                    assert forall|m: int| 0 <= m < sub.len() implies #[trigger] classified(par, starts, sub[m]) by {
                        if m == 0 {
                            assert(starts[starts.len() - 1] == sub[m]);
                        } else {
                            let j = sub[m];
                            assert(par[j] is Some);
                            assert(!seen0[j]);
                            assert(j != x) by {
                                assert(sub[0] == x);
                            }
                            assert(j > x);
                            assert(below_of(par, j, x));
                            let k1 = choose|k1: nat| #[trigger] upi(par, j, k1) == Some(x);
                            assert(k1 != 0);
                            assert(earlier(upi(par, j, k1), j));
                        }
                    }
                    assert forall|q: int| 0 <= q < xs.len() implies (#[trigger] out@[nroots + q]).span.span_id@ == u[rem@[xs[q]] as int].span_id@ by {
                        if q < prev_xs.len() {
                            assert(out@[nroots + q] == prev_out[nroots + q]);
                        }
                    }
                }
            },
            None => {},
        }
        proof {
            let before_c = before;
            order = before + sub;
            assert forall|a: int| 0 <= a < order.len() implies #[trigger] classified(par, starts, order[a]) by {
                if a < before_c.len() {
                    assert(order[a] == before_c[a]);
                } else {
                    assert(order[a] == sub[a - before_c.len()]);
                }
            }
            assert forall|j: int| 0 <= j < n && #[trigger] rooted_i(par, j) implies w.seen@[j] by {
                assert(seen0[j]);
            }
            assert(order.map_values(|j: int| u[j].span_id@) =~= before.map_values(|j: int| u[j].span_id@) + sub.map_values(|j: int| u[j].span_id@));
            assert forall|a: int, b: int| 0 <= a < b < order.len() implies order[a] != order[b] by {
                if a < before.len() && b >= before.len() {
                    assert(!seen0[sub[b - before.len()]]);
                    assert(seen0[before[a]]);
                }
            }
            assert forall|a: int| 0 <= a < n implies (#[trigger] w.seen@[a] <==> order.contains(a)) by {
                if order.contains(a) {
                    let q = choose|q: int| 0 <= q < order.len() && order[q] == a;
                    if q >= before.len() {
                        assert(sub[q - before.len()] == a);
                    } else {
                        assert(before[q] == a);
                    }
                }
                if sub.contains(a) {
                    let q = choose|q: int| 0 <= q < sub.len() && sub[q] == a;
                    assert(order[q + before.len()] == a);
                }
                if before.contains(a) {
                    let q = choose|q: int| 0 <= q < before.len() && before[q] == a;
                    assert(order[q] == a);
                }
            }
            assert(w.seen@[target as int]) by {
                if !seen0[target as int] {
                    assert(sub[0] == target);
                    assert(order.contains(target as int)) by {
                        assert(order[before.len() as int] == target);
                    }
                }
            }
            assert forall|a: int| 0 <= a < n && !#[trigger] w.seen@[a] implies exists|b: int| t + 1 <= b < rem.len() && rem@[b] == a by {
                assert(!seen0[a]);
                let b = choose|b: int| t <= b < rem.len() && rem@[b] == a;
                if b == t {
                    assert(w.seen@[target as int]);
                }
            }
        }
        t = t + 1;
    }
    proof {
        let extra = out@.subrange(nroots as int, out.len() as int);
        assert forall|a: int, b: int| 0 <= a < b < extra.len() implies
            first_pos(orig, #[trigger] extra[a].span.span_id@) < first_pos(orig, #[trigger] extra[b].span.span_id@) by {
            assert(extra[a] == out@[nroots + a]);
            assert(extra[b] == out@[nroots + b]);
            let ia = rem@[xs[a]] as int;
            let ib = rem@[xs[b]] as int;
            assert(xs[a] < xs[b]);
            assert(rem@[xs[a]] < rem@[xs[b]]);
            lemma_first_pos(u, firsts, orig, ia);
            lemma_first_pos(u, firsts, orig, ib);
            assert(firsts[ia] < firsts[ib]);
        }
        assert(ascending(extra, orig));
        // Every node is assembled exactly once.
        assert forall|a: int| 0 <= a < n implies order.contains(a) by {
            if !w.seen@[a] {
                let b = choose|b: int| rem.len() <= b < rem.len() && rem@[b] == a;
            }
        }
        let fl = flat(out@);
        assert forall|a: int, b: int| 0 <= a < b < fl.len() implies fl[a] != fl[b] by {
            assert(fl[a] == u[order[a]].span_id@ && fl[b] == u[order[b]].span_id@);
            assert(order[a] != order[b]);
            if order[a] < order[b] {
                assert(u[order[a]].span_id@ != u[order[b]].span_id@);
            } else {
                assert(u[order[b]].span_id@ != u[order[a]].span_id@);
            }
        }
        assert forall|x: Seq<char>| fl.to_set().contains(x) <==> ids_of(orig).to_set().contains(x) by {
            if fl.to_set().contains(x) {
                let a = choose|a: int| 0 <= a < fl.len() && fl[a] == x;
                let j = order[a];
                assert(u[j] == orig[firsts[j]]);
                assert(ids_of(orig)[firsts[j]] == x);
            }
            if ids_of(orig).to_set().contains(x) {
                let z = choose|z: int| 0 <= z < orig.len() && ids_of(orig)[z] == x;
                let j = choose|j: int| 0 <= j < u.len() && #[trigger] u[j].span_id@ == orig[z].span_id@;
                assert(order.contains(j));
                let a = choose|a: int| 0 <= a < order.len() && order[a] == j;
                assert(fl[a] == x);
            }
        }
        assert(fl.to_set() =~= ids_of(orig).to_set());
        // The first trees are the roots in input order.
        assert forall|z: int| 0 <= z < orig.len() && #[trigger] is_first(orig, orig[z].span_id@, z) implies exists|j: int| 0 <= j < u.len() && firsts[j] == z by {
        }
        lemma_roots_match(orig, u, firsts, par, orig.len() as int);
        lemma_below(firsts, orig.len() as int);
        assert forall|j: int| 0 <= j < n implies #[trigger] firsts[j] < orig.len() by {
            assert(is_first(orig, u[j].span_id@, firsts[j]));
        }
        lemma_below_unique(firsts, orig.len() as int, n as int);
        assert forall|k: int| 0 <= k < roots_spec(orig).len() implies #[trigger] out@[k].span.span_id@ == roots_spec(orig)[k] by {
            assert(out@[k] == out@.subrange(0, nroots as int)[k]);
        }
        // The top-level trees are headed exactly by the rows that `heads` names.
        assert(par_ok(orig, u, firsts, par));
        assert forall|q: int| 0 <= q < out.len() implies heads(orig, #[trigger] out@[q].span.span_id@) by {
            lemma_heads_match(orig, u, firsts, par, starts[q]);
        }
        assert forall|x: Seq<char>| flat(out@).contains(x) && #[trigger] heads(orig, x) implies
            exists|q: int| 0 <= q < out.len() && out@[q].span.span_id@ == x by {
            let a = choose|a: int| 0 <= a < fl.len() && fl[a] == x;
            let j = order[a];
            assert(x == u[j].span_id@);
            lemma_heads_match(orig, u, firsts, par, j);
            assert(classified(par, starts, order[a]));
            if !starts.contains(j) {
                if !rooted_i(par, j) {
                    let k = choose|k: nat| k >= 1 && earlier(#[trigger] upi(par, j, k), j);
                    assert(!later_or_self(upi(par, j, k), j));
                }
                assert(!head_i(par, j));
            }
            let q = choose|q: int| 0 <= q < starts.len() && starts[q] == j;
            assert(out@[q].span.span_id@ == x);
        }
    }
    out
}

} // verus!
