use suspense_core::hydrate::{hydrate_pass, placeholder_present};
use suspense_core::resource::{Outcome, ResourceState};
use suspense_core::runtime::Runtime;
use suspense_core::stream::{render_stream, splice, Frag};
use suspense_core::tree::{node_settled_exec, RenderNode};

fn boundary(id: u64, child: RenderNode) -> RenderNode {
    RenderNode::Boundary { id, child: Box::new(child) }
}

fn pair(a: RenderNode, b: RenderNode) -> RenderNode {
    RenderNode::Pair(Box::new(a), Box::new(b))
}

#[test]
fn unresolved_boundary_streams_its_placeholder() {
    let mut rt = Runtime::new();
    let c = rt.new_cell(0);
    let r = rt.new_resource(c);
    rt.refresh(r);
    let tree = boundary(1, pair(RenderNode::Text(20), RenderNode::Read(r)));
    let m = render_stream(&tree, &rt.resources);
    assert_eq!(m, vec![Frag::Placeholder(1)]);
}

#[test]
fn resolved_boundary_streams_children_inline() {
    let mut rt = Runtime::new();
    let c = rt.new_cell(0);
    let r = rt.new_resource(c);
    let tag = rt.refresh(r).unwrap();
    rt.deliver(r, tag, Outcome::Value(42));
    let tree = boundary(1, pair(RenderNode::Text(20), RenderNode::Read(r)));
    let m = render_stream(&tree, &rt.resources);
    assert_eq!(m, vec![Frag::Text(20), Frag::Value(42)]);
}

#[test]
fn boundary_with_no_resources_is_vacuously_resolved() {
    let rt = Runtime::new();
    let tree = boundary(1, RenderNode::Text(3));
    assert!(node_settled_exec(&tree, &rt.resources));
    assert_eq!(render_stream(&tree, &rt.resources), vec![Frag::Text(3)]);
}

#[test]
fn splice_replaces_exactly_the_tagged_placeholder() {
    let m = vec![
        Frag::Text(1),
        Frag::Placeholder(7),
        Frag::Text(2),
        Frag::Placeholder(8),
        Frag::Text(3),
    ];
    let f = vec![Frag::Value(40), Frag::Value(41)];
    let out = splice(&m, 7, &f);
    assert_eq!(
        out,
        vec![
            Frag::Text(1),
            Frag::Value(40),
            Frag::Value(41),
            Frag::Text(2),
            Frag::Placeholder(8),
            Frag::Text(3),
        ]
    );
}

#[test]
fn splice_without_a_matching_placeholder_changes_nothing() {
    let m = vec![Frag::Text(1), Frag::Placeholder(8)];
    let f = vec![Frag::Value(40)];
    assert_eq!(splice(&m, 7, &f), m);
}

#[test]
fn inner_splice_leaves_outer_placeholder_alone() {
    // A nested layout: the outer boundary's placeholder and, further on,
    // the inner one's. Splicing the inner fragment touches neither the
    // outer placeholder nor the static markup around it, whichever order
    // the two resolve in.
    let m = vec![Frag::Text(1), Frag::Placeholder(10), Frag::Text(2), Frag::Placeholder(20)];
    let inner = vec![Frag::Value(5)];
    let outer = vec![Frag::Text(6)];

    let inner_first = splice(&splice(&m, 20, &inner), 10, &outer);
    let outer_first = splice(&splice(&m, 10, &outer), 20, &inner);
    let expected = vec![Frag::Text(1), Frag::Text(6), Frag::Text(2), Frag::Value(5)];
    assert_eq!(inner_first, expected);
    assert_eq!(outer_first, expected);
}

#[test]
fn hydration_of_resolved_markup_swaps_nothing() {
    // Idempotence: replaying hydration against markup that is already
    // fully resolved performs no swap and leaves every token in place.
    let mut rt = Runtime::new();
    let c = rt.new_cell(0);
    let r = rt.new_resource(c);
    let tag = rt.refresh(r).unwrap();
    rt.deliver(r, tag, Outcome::Value(9));
    let tree = boundary(1, RenderNode::Read(r));
    let m = render_stream(&tree, &rt.resources);
    assert_eq!(m, vec![Frag::Value(9)]);
    let (out, swaps) = hydrate_pass(&tree, &rt.resources, m.clone());
    assert_eq!(out, m);
    assert!(swaps.is_empty());
}

#[test]
fn hydration_swaps_a_settled_boundary_once() {
    let mut rt = Runtime::new();
    let c = rt.new_cell(0);
    let r = rt.new_resource(c);
    let tag = rt.refresh(r).unwrap();
    let tree = pair(RenderNode::Text(1), boundary(5, RenderNode::Read(r)));
    let m = render_stream(&tree, &rt.resources);
    assert_eq!(m, vec![Frag::Text(1), Frag::Placeholder(5)]);
    // Still pending: nothing to swap.
    let (m1, swaps1) = hydrate_pass(&tree, &rt.resources, m);
    assert!(swaps1.is_empty());
    // After the resource settles, exactly this boundary is swapped.
    rt.deliver(r, tag, Outcome::Value(3));
    let (m2, swaps2) = hydrate_pass(&tree, &rt.resources, m1);
    assert_eq!(swaps2, vec![5]);
    assert_eq!(m2, vec![Frag::Text(1), Frag::Value(3)]);
    assert!(!placeholder_present(&m2, 5));
    // A second pass has nothing left to do.
    let (m3, swaps3) = hydrate_pass(&tree, &rt.resources, m2.clone());
    assert_eq!(m3, m2);
    assert!(swaps3.is_empty());
}

#[test]
fn deep_nesting_converges_in_any_resolution_order() {
    // Three levels of nesting with one resource per level. Whatever order
    // the resources settle in, streaming early and reconciling by
    // hydration passes ends at the same markup as a fresh streaming pass
    // over the fully settled tree.
    let orders: [[usize; 3]; 3] = [[0, 1, 2], [2, 1, 0], [1, 2, 0]];
    let mut finals = Vec::new();
    for order in orders {
        let mut rt = Runtime::new();
        let mut tags = Vec::new();
        for _ in 0..3 {
            let c = rt.new_cell(0);
            let r = rt.new_resource(c);
            tags.push(rt.refresh(r).unwrap());
        }
        let level2 = boundary(3, pair(RenderNode::Text(33), RenderNode::Read(2)));
        let level1 = boundary(2, pair(RenderNode::Read(1), level2));
        let tree = boundary(1, pair(RenderNode::Read(0), level1));

        let mut markup = render_stream(&tree, &rt.resources);
        assert_eq!(markup, vec![Frag::Placeholder(1)]);
        for r in order {
            rt.deliver(r, tags[r], Outcome::Value(10 + r as u64));
            let (m, _swaps) = hydrate_pass(&tree, &rt.resources, markup);
            markup = m;
        }
        assert_eq!(markup, render_stream(&tree, &rt.resources));
        finals.push(markup);
    }
    assert_eq!(finals[0], finals[1]);
    assert_eq!(finals[1], finals[2]);
    assert_eq!(
        finals[0],
        vec![Frag::Value(10), Frag::Value(11), Frag::Text(33), Frag::Value(12)]
    );
}

#[test]
fn failed_resource_renders_its_failure_not_the_fallback() {
    let mut rt = Runtime::new();
    let c = rt.new_cell(0);
    let r = rt.new_resource(c);
    let tag = rt.refresh(r).unwrap();
    rt.deliver(r, tag, Outcome::Failure(13));
    assert_eq!(rt.state_of(r), ResourceState::Failed(13));
    let tree = boundary(1, RenderNode::Read(r));
    assert!(node_settled_exec(&tree, &rt.resources));
    assert_eq!(render_stream(&tree, &rt.resources), vec![Frag::Failed(13)]);
}
