use suspense_core::hydrate::placeholder_present;
use suspense_core::phase::{phase_step, BoundaryPhase, EmitKind};
use suspense_core::resource::{Outcome, ResourceState};
use suspense_core::runtime::Runtime;
use suspense_core::stream::{render_stream, splice, Frag};
use suspense_core::tree::{guarded_view, node_settled_exec, RenderNode};

fn boundary(id: u64, child: RenderNode) -> RenderNode {
    RenderNode::Boundary { id, child: Box::new(child) }
}

fn pair(a: RenderNode, b: RenderNode) -> RenderNode {
    RenderNode::Pair(Box::new(a), Box::new(b))
}

#[test]
fn single_boundary_with_delayed_resource() {
    // One boundary tracks one resource that settles two time units after
    // the pass starts. The fallback placeholder is streamed at pass start;
    // the children are emitted exactly once, after the delay, tagged with
    // the boundary's identity.
    let mut rt = Runtime::new();
    let c = rt.new_cell(0);
    let r = rt.new_resource(c);
    let tag = rt.refresh(r).unwrap();
    let tree = boundary(1, pair(RenderNode::Text(20), RenderNode::Read(r)));

    let mut markup = render_stream(&tree, &rt.resources);
    assert_eq!(markup, vec![Frag::Placeholder(1)]);

    let mut phase = BoundaryPhase::Fallback;
    let mut content_emissions = 0;
    for t in 0..4u64 {
        if t == 2 {
            assert!(rt.deliver(r, tag, Outcome::Value(42)));
        }
        let (next, emit) = phase_step(phase, node_settled_exec(&tree, &rt.resources));
        phase = next;
        if emit == EmitKind::EmitContent {
            content_emissions += 1;
            // The fragment is tagged with the boundary's identity and
            // spliced at exactly its placeholder.
            let child = pair(RenderNode::Text(20), RenderNode::Read(r));
            let fragment = render_stream(&child, &rt.resources);
            markup = splice(&markup, 1, &fragment);
        }
    }
    assert_eq!(content_emissions, 1);
    assert_eq!(markup, vec![Frag::Text(20), Frag::Value(42)]);
}

#[test]
fn outer_boundary_waits_for_inner() {
    // An outer boundary contains an inner boundary which contains the only
    // resource. The outer resolves only once the inner does: its resolution
    // time is no earlier than the inner's.
    let mut rt = Runtime::new();
    let c = rt.new_cell(0);
    let r = rt.new_resource(c);
    let tag = rt.refresh(r).unwrap();
    let inner = boundary(2, RenderNode::Read(r));
    let inner_probe = boundary(2, RenderNode::Read(r));
    let tree = boundary(1, pair(RenderNode::Text(5), inner));

    let mut inner_resolved_at: Option<u64> = None;
    let mut outer_resolved_at: Option<u64> = None;
    for t in 0..3u64 {
        if t == 1 {
            assert!(rt.deliver(r, tag, Outcome::Value(8)));
        }
        if inner_resolved_at.is_none() && node_settled_exec(&inner_probe, &rt.resources) {
            inner_resolved_at = Some(t);
        }
        if outer_resolved_at.is_none() && node_settled_exec(&tree, &rt.resources) {
            outer_resolved_at = Some(t);
        }
    }
    let it = inner_resolved_at.unwrap();
    let ot = outer_resolved_at.unwrap();
    assert_eq!(it, 1);
    assert!(ot >= it);
    // Fully resolved markup inlines the inner content inside the outer's.
    assert_eq!(
        render_stream(&tree, &rt.resources),
        vec![Frag::Text(5), Frag::Value(8)]
    );
}

#[test]
fn one_value_one_failure_resolves_with_error() {
    // Two resources share a boundary; one resolves, one fails. The
    // boundary leaves fallback and shows the failure, because a failure
    // settles a resource just as a value does.
    let mut rt = Runtime::new();
    let c0 = rt.new_cell(0);
    let c1 = rt.new_cell(0);
    let r0 = rt.new_resource(c0);
    let r1 = rt.new_resource(c1);
    let t0 = rt.refresh(r0).unwrap();
    let t1 = rt.refresh(r1).unwrap();
    let tree = boundary(1, pair(RenderNode::Read(r0), RenderNode::Read(r1)));
    assert!(!node_settled_exec(&tree, &rt.resources));

    assert!(rt.deliver(r0, t0, Outcome::Value(4)));
    assert!(!node_settled_exec(&tree, &rt.resources));
    assert!(rt.deliver(r1, t1, Outcome::Failure(99)));
    assert!(node_settled_exec(&tree, &rt.resources));

    let m = render_stream(&tree, &rt.resources);
    assert_eq!(m, vec![Frag::Value(4), Frag::Failed(99)]);
    assert!(!placeholder_present(&m, 1));
}

#[test]
fn two_rapid_input_changes_keep_only_the_second_result() {
    // A resource's input changes twice before either invocation completes:
    // only the second invocation's result is ever observed; the first's
    // completion arrives later and is discarded.
    let mut rt = Runtime::new();
    let c = rt.new_cell(1);
    let r = rt.new_resource(c);
    rt.set_input(c, 2);
    let first = rt.refresh(r).unwrap();
    rt.set_input(c, 3);
    let second = rt.refresh(r).unwrap();
    assert_ne!(first, second);

    assert!(rt.deliver(r, second, Outcome::Value(30)));
    assert_eq!(rt.state_of(r), ResourceState::Ready(30));
    // The superseded invocation's completion lands afterwards and is
    // silently dropped.
    assert!(!rt.deliver(r, first, Outcome::Value(20)));
    assert_eq!(rt.state_of(r), ResourceState::Ready(30));
}

#[test]
fn boundary_reenters_fallback_once_per_change() {
    // Once resolved, an input change sends the boundary back to fallback
    // exactly once: later passes with the subtree still unsettled emit no
    // duplicate fallback.
    let settled_by_pass = [true, false, false, false, true];
    let mut phase = BoundaryPhase::Fallback;
    let mut emissions = Vec::new();
    for s in settled_by_pass {
        let (next, emit) = phase_step(phase, s);
        phase = next;
        emissions.push(emit);
    }
    assert_eq!(
        emissions,
        vec![
            EmitKind::EmitContent,
            EmitKind::EmitFallback,
            EmitKind::Quiet,
            EmitKind::Quiet,
            EmitKind::EmitContent,
        ]
    );
}

#[test]
fn guard_admits_children_only_on_affirmative_answer() {
    // A region guarded by a resource: while the guard is pending the region
    // reads as pending, so the enclosing boundary stays on fallback; an
    // affirmative answer admits the children; a negative answer or a
    // failure shows the denial text and withholds them.
    let mut rt = Runtime::new();
    let c = rt.new_cell(0);
    let g = rt.new_resource(c);
    let dc = rt.new_cell(0);
    let d = rt.new_resource(dc);
    let tag = rt.refresh(g).unwrap();
    rt.refresh(d).unwrap();

    let children = || pair(RenderNode::Text(30), RenderNode::Read(d));
    let pending_tree = boundary(1, guarded_view(g, rt.state_of(g), 11, 12, children()));
    assert!(!node_settled_exec(&pending_tree, &rt.resources));
    assert_eq!(render_stream(&pending_tree, &rt.resources), vec![Frag::Placeholder(1)]);

    rt.deliver(g, tag, Outcome::Value(1));
    let granted_tree = boundary(1, guarded_view(g, rt.state_of(g), 11, 12, children()));
    // The guard is open but the admitted child's resource is still pending,
    // so the boundary stays on its fallback placeholder.
    assert!(!node_settled_exec(&granted_tree, &rt.resources));
    assert_eq!(render_stream(&granted_tree, &rt.resources), vec![Frag::Placeholder(1)]);

    let mut rt2 = Runtime::new();
    let c2 = rt2.new_cell(0);
    let g2 = rt2.new_resource(c2);
    let tag2 = rt2.refresh(g2).unwrap();
    rt2.deliver(g2, tag2, Outcome::Value(0));
    let denied_tree = boundary(1, guarded_view(g2, rt2.state_of(g2), 11, 12, RenderNode::Text(30)));
    assert_eq!(render_stream(&denied_tree, &rt2.resources), vec![Frag::Text(12)]);

    let mut rt3 = Runtime::new();
    let c3 = rt3.new_cell(0);
    let g3 = rt3.new_resource(c3);
    let tag3 = rt3.refresh(g3).unwrap();
    rt3.deliver(g3, tag3, Outcome::Failure(5));
    let failed_tree = boundary(1, guarded_view(g3, rt3.state_of(g3), 11, 12, RenderNode::Text(30)));
    assert_eq!(render_stream(&failed_tree, &rt3.resources), vec![Frag::Text(12)]);
}

#[test]
fn guard_with_settled_children_streams_them_inline() {
    // The full action flow: guard and data resource both settle, and the
    // region streams the note plus the children's content.
    let mut rt = Runtime::new();
    let gc = rt.new_cell(0);
    let g = rt.new_resource(gc);
    let dc = rt.new_cell(0);
    let d = rt.new_resource(dc);
    let gt = rt.refresh(g).unwrap();
    let dt = rt.refresh(d).unwrap();
    rt.deliver(g, gt, Outcome::Value(1));
    rt.deliver(d, dt, Outcome::Value(7));
    let children = boundary(2, pair(RenderNode::Text(30), RenderNode::Read(d)));
    let tree = boundary(1, guarded_view(g, rt.state_of(g), 11, 12, children));
    assert_eq!(
        render_stream(&tree, &rt.resources),
        vec![Frag::Text(11), Frag::Text(30), Frag::Value(7)]
    );
}

#[test]
fn resolved_boundary_returns_to_fallback_on_input_change() {
    // The full loop: resolve, change the tracked input, and the subtree is
    // unsettled again until the new invocation completes.
    let mut rt = Runtime::new();
    let c = rt.new_cell(0);
    let r = rt.new_resource(c);
    let tag = rt.refresh(r).unwrap();
    let tree = boundary(1, RenderNode::Read(r));

    rt.deliver(r, tag, Outcome::Value(1));
    assert!(node_settled_exec(&tree, &rt.resources));

    rt.set_input(c, 9);
    let tag2 = rt.refresh(r).unwrap();
    assert!(!node_settled_exec(&tree, &rt.resources));
    assert_eq!(render_stream(&tree, &rt.resources), vec![Frag::Placeholder(1)]);

    rt.deliver(r, tag2, Outcome::Value(9));
    assert!(node_settled_exec(&tree, &rt.resources));
    assert_eq!(render_stream(&tree, &rt.resources), vec![Frag::Value(9)]);
}
