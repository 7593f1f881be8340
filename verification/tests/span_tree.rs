use kaizen::span_tree::{build_tree, SpanNode, ToolSpanView};

fn span(id: &str, parent: Option<&str>) -> ToolSpanView {
    ToolSpanView {
        span_id: id.into(),
        parent_span_id: parent.map(str::to_string),
        ..Default::default()
    }
}

fn ids(nodes: &[SpanNode]) -> Vec<&str> {
    nodes.iter().map(|n| n.span.span_id.as_str()).collect()
}

fn flat_ids(nodes: &[SpanNode]) -> Vec<&str> {
    nodes
        .iter()
        .flat_map(|n| std::iter::once(n.span.span_id.as_str()).chain(flat_ids(&n.children)))
        .collect()
}

#[test]
fn build_tree_keeps_grandchildren() {
    let roots = build_tree(vec![
        span("root", None),
        span("child", Some("root")),
        span("grandchild", Some("child")),
    ]);
    assert_eq!(ids(&roots), vec!["root"]);
    assert_eq!(ids(&roots[0].children), vec!["child"]);
    assert_eq!(ids(&roots[0].children[0].children), vec!["grandchild"]);
}

#[test]
fn build_tree_keeps_missing_parent_and_cycle_nodes_once() {
    let roots = build_tree(vec![
        span("orphan", Some("missing")),
        span("a", Some("b")),
        span("b", Some("a")),
    ]);
    assert_eq!(flat_ids(&roots), vec!["orphan", "a", "b"]);
}

#[test]
fn build_tree_of_nothing_is_empty() {
    assert!(build_tree(vec![]).is_empty());
}

#[test]
fn build_tree_drops_repeated_ids_and_keeps_first_row() {
    let mut first = span("x", None);
    first.tool = "first".into();
    let mut second = span("x", None);
    second.tool = "second".into();
    let roots = build_tree(vec![first, second]);
    assert_eq!(flat_ids(&roots), vec!["x"]);
    assert_eq!(roots[0].span.tool, "first");
}

#[test]
fn build_tree_node_totals_come_from_row() {
    let mut root = span("r", None);
    root.subtree_cost_usd_e6 = Some(42);
    root.subtree_token_count = Some(7);
    let roots = build_tree(vec![span("c", Some("r")), root]);
    assert_eq!(ids(&roots), vec!["r"]);
    assert_eq!(roots[0].subtree_cost_usd_e6, 42);
    assert_eq!(roots[0].subtree_token_count, 7);
    assert_eq!(ids(&roots[0].children), vec!["c"]);
    assert_eq!(roots[0].children[0].subtree_cost_usd_e6, 0);
    assert_eq!(roots[0].children[0].subtree_token_count, 0);
}

#[test]
fn build_tree_children_follow_input_order() {
    let roots = build_tree(vec![
        span("p", None),
        span("c2", Some("p")),
        span("c1", Some("p")),
        span("q", None),
    ]);
    assert_eq!(ids(&roots), vec!["p", "q"]);
    assert_eq!(ids(&roots[0].children), vec!["c2", "c1"]);
}

#[test]
fn build_tree_row_hanging_off_a_cycle_heads_its_own_tree_when_first() {
    let roots = build_tree(vec![
        span("c", Some("a")),
        span("a", Some("b")),
        span("b", Some("a")),
    ]);
    assert_eq!(ids(&roots), vec!["c", "a"]);
    assert!(roots[0].children.is_empty());
    assert_eq!(ids(&roots[1].children), vec!["b"]);
}
