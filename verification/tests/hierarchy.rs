use kaizen::projector_hierarchy::add_child;
use kaizen::tool_span::SpanBuilder;

#[test]
fn subtree_adds_child_totals_once() {
    let mut parent = SpanBuilder::default();
    let child = SpanBuilder {
        subtree_cost_usd_e6: Some(7),
        subtree_token_count: Some(11),
        ..Default::default()
    };
    add_child(&mut parent, &child);
    assert_eq!(parent.subtree_cost_usd_e6, Some(7));
    assert_eq!(parent.subtree_token_count, Some(11));
}
