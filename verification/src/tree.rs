use vstd::prelude::*;
use crate::resource::{Resource, ResourceState};

verus! {

/// One node of the declared component tree.
///
/// The tree is a tagged-variant structure rather than an open-ended view
/// hierarchy: static markup, a read of a resource by index, two subtrees in
/// sequence, or a suspense boundary wrapping a subtree. Nesting depth is
/// unbounded.
pub enum RenderNode {
    /// Nothing to render.
    Blank,
    /// A static piece of markup, identified by a text token.
    Text(u64),
    /// A read of the resource at this index in the owning runtime.
    Read(usize),
    /// Two subtrees rendered one after the other.
    Pair(Box<RenderNode>, Box<RenderNode>),
    /// A suspense boundary: while any resource read under it is pending it
    /// shows its fallback region — in emitted markup the placeholder token
    /// tagged with its identity — and shows `child` once every such read
    /// has settled.
    Boundary { id: u64, child: Box<RenderNode> },
}

/// The state column of a resource table.
pub open spec fn states_of(rs: Seq<Resource>) -> Seq<ResourceState> {
    rs.map_values(|r: Resource| r.state)
}

/// Whether `n` leaves an enclosing boundary free to resolve: every resource
/// read directly in `n` has settled, and every nested boundary in `n` is
/// itself resolved. A boundary shields the resources it reads from outer
/// boundaries, but an unresolved inner boundary still blocks the outer one.
pub open spec fn node_settled(n: RenderNode, rs: Seq<ResourceState>) -> bool
    decreases n,
{
    match n {
        RenderNode::Blank => true,
        RenderNode::Text(_) => true,
        RenderNode::Read(i) => i < rs.len() && rs[i as int].is_settled(),
        RenderNode::Pair(a, b) => node_settled(*a, rs) && node_settled(*b, rs),
        RenderNode::Boundary { child, .. } => node_settled(*child, rs),
    }
}

/// Every resource index read anywhere under `n` is within the table.
pub open spec fn reads_in_bounds(n: RenderNode, count: nat) -> bool
    decreases n,
{
    match n {
        RenderNode::Blank => true,
        RenderNode::Text(_) => true,
        RenderNode::Read(i) => i < count,
        RenderNode::Pair(a, b) => reads_in_bounds(*a, count) && reads_in_bounds(*b, count),
        RenderNode::Boundary { child, .. } => reads_in_bounds(*child, count),
    }
}

/// All boundary identities under `n`, outermost first, in declaration order.
pub open spec fn boundary_ids(n: RenderNode) -> Seq<u64>
    decreases n,
{
    match n {
        RenderNode::Blank => Seq::empty(),
        RenderNode::Text(_) => Seq::empty(),
        RenderNode::Read(_) => Seq::empty(),
        RenderNode::Pair(a, b) => boundary_ids(*a) + boundary_ids(*b),
        RenderNode::Boundary { id, child, .. } => seq![id] + boundary_ids(*child),
    }
}

/// The resource indices read directly in `n`: reads that a nested boundary
/// does not shield. These are what a boundary placed around `n` tracks for
/// the current pass; the set is a function of the declared tree, rebuilt
/// from it every pass, never accumulated.
pub open spec fn direct_reads(n: RenderNode) -> Seq<usize>
    decreases n,
{
    match n {
        RenderNode::Blank => Seq::empty(),
        RenderNode::Text(_) => Seq::empty(),
        RenderNode::Read(i) => seq![i],
        RenderNode::Pair(a, b) => direct_reads(*a) + direct_reads(*b),
        RenderNode::Boundary { .. } => Seq::empty(),
    }
}

/// The child subtrees of the boundaries nested immediately in `n`: those
/// that no deeper boundary encloses.
pub open spec fn nested_boundary_children(n: RenderNode) -> Seq<RenderNode>
    decreases n,
{
    match n {
        RenderNode::Blank => Seq::empty(),
        RenderNode::Text(_) => Seq::empty(),
        RenderNode::Read(_) => Seq::empty(),
        RenderNode::Pair(a, b) => nested_boundary_children(*a) + nested_boundary_children(*b),
        RenderNode::Boundary { child, .. } => seq![*child],
    }
}

/// The resolution formula: a boundary around `n` is resolved exactly when
/// every resource it directly tracks has settled and every boundary nested
/// in `n` is itself resolved. An inner boundary shields its own reads from
/// the outer one, yet blocks the outer boundary while it is unresolved.
pub proof fn lemma_resolution_formula(n: RenderNode, rs: Seq<ResourceState>)
    ensures
        node_settled(n, rs) == ({
            &&& forall|k: int|
                0 <= k < direct_reads(n).len() ==> (#[trigger] direct_reads(n)[k]) < rs.len()
                    && rs[direct_reads(n)[k] as int].is_settled()
            &&& forall|k: int|
                0 <= k < nested_boundary_children(n).len() ==> node_settled(
                    #[trigger] nested_boundary_children(n)[k],
                    rs,
                )
        }),
    decreases n,
{
    match n {
        RenderNode::Pair(a, b) => {
            lemma_resolution_formula(*a, rs);
            lemma_resolution_formula(*b, rs);
            let da = direct_reads(*a);
            let db = direct_reads(*b);
            let na = nested_boundary_children(*a);
            let nb = nested_boundary_children(*b);
            assert(direct_reads(n) == da + db);
            assert(nested_boundary_children(n) == na + nb);
            assert forall|k: int| 0 <= k < da.len() implies (da + db)[k] == da[k] by {}
            assert forall|k: int| 0 <= k < db.len() implies (da + db)[da.len() + k] == db[k] by {}
            assert forall|k: int| 0 <= k < na.len() implies (na + nb)[k] == na[k] by {}
            assert forall|k: int| 0 <= k < nb.len() implies (na + nb)[na.len() + k] == nb[k] by {}
            if node_settled(n, rs) {
                assert forall|k: int|
                    0 <= k < direct_reads(n).len() implies (#[trigger] direct_reads(n)[k])
                        < rs.len() && rs[direct_reads(n)[k] as int].is_settled() by {
                    if k < da.len() {
                        assert(direct_reads(n)[k] == da[k]);
                    } else {
                        assert(direct_reads(n)[k] == db[k - da.len()]);
                    }
                }
                assert forall|k: int|
                    0 <= k < nested_boundary_children(n).len() implies node_settled(
                    #[trigger] nested_boundary_children(n)[k],
                    rs,
                ) by {
                    if k < na.len() {
                        assert(nested_boundary_children(n)[k] == na[k]);
                    } else {
                        assert(nested_boundary_children(n)[k] == nb[k - na.len()]);
                    }
                }
            } else {
                let reads_ok = forall|k: int|
                    0 <= k < direct_reads(n).len() ==> (#[trigger] direct_reads(n)[k]) < rs.len()
                        && rs[direct_reads(n)[k] as int].is_settled();
                let nested_ok = forall|k: int|
                    0 <= k < nested_boundary_children(n).len() ==> node_settled(
                        #[trigger] nested_boundary_children(n)[k],
                        rs,
                    );
                if reads_ok && nested_ok {
                    assert forall|k: int|
                        0 <= k < da.len() implies (#[trigger] da[k]) < rs.len() && rs[da[k] as int].is_settled() by {
                        assert(direct_reads(n)[k] == da[k]);
                    }
                    assert forall|k: int|
                        0 <= k < db.len() implies (#[trigger] db[k]) < rs.len() && rs[db[k] as int].is_settled() by {
                        assert(direct_reads(n)[da.len() + k] == db[k]);
                    }
                    assert forall|k: int|
                        0 <= k < na.len() implies node_settled(#[trigger] na[k], rs) by {
                        assert(nested_boundary_children(n)[k] == na[k]);
                    }
                    assert forall|k: int|
                        0 <= k < nb.len() implies node_settled(#[trigger] nb[k], rs) by {
                        assert(nested_boundary_children(n)[na.len() + k] == nb[k]);
                    }
                    assert(node_settled(*a, rs));
                    assert(node_settled(*b, rs));
                }
            }
        },
        RenderNode::Read(i) => {
            assert(direct_reads(n) == seq![i]);
            if i < rs.len() && rs[i as int].is_settled() {
                assert forall|k: int|
                    0 <= k < direct_reads(n).len() implies (#[trigger] direct_reads(n)[k])
                        < rs.len() && rs[direct_reads(n)[k] as int].is_settled() by {
                    assert(direct_reads(n)[k] == i);
                }
            } else {
                assert(direct_reads(n)[0] == i);
            }
        },
        RenderNode::Boundary { child, .. } => {
            assert(nested_boundary_children(n) == seq![*child]);
            if node_settled(*child, rs) {
                assert forall|k: int|
                    0 <= k < nested_boundary_children(n).len() implies node_settled(
                    #[trigger] nested_boundary_children(n)[k],
                    rs,
                ) by {
                    assert(nested_boundary_children(n)[k] == *child);
                }
            } else {
                assert(nested_boundary_children(n)[0] == *child);
            }
        },
        _ => {},
    }
}

/// Whether every resource read in `n` sits under some suspense boundary.
/// A read outside any boundary has no placeholder that could ever be
/// swapped for it, so only covered trees reconcile fully.
pub open spec fn reads_covered(n: RenderNode) -> bool
    decreases n,
{
    match n {
        RenderNode::Blank => true,
        RenderNode::Text(_) => true,
        RenderNode::Read(_) => false,
        RenderNode::Pair(a, b) => reads_covered(*a) && reads_covered(*b),
        RenderNode::Boundary { .. } => true,
    }
}

/// A duplicate-free concatenation splits into duplicate-free, disjoint
/// halves.
pub proof fn lemma_no_duplicates_split(xs: Seq<u64>, ys: Seq<u64>)
    requires
        (xs + ys).no_duplicates(),
    ensures
        xs.no_duplicates(),
        ys.no_duplicates(),
        forall|x: u64| xs.contains(x) ==> !ys.contains(x),
{
    let w = xs + ys;
    assert forall|i: int, j: int|
        0 <= i < xs.len() && 0 <= j < xs.len() && i != j implies xs[i] != xs[j] by {
        assert(w[i] == xs[i] && w[j] == xs[j]);
    }
    assert forall|i: int, j: int|
        0 <= i < ys.len() && 0 <= j < ys.len() && i != j implies ys[i] != ys[j] by {
        assert(w[xs.len() + i] == ys[i] && w[xs.len() + j] == ys[j]);
    }
    assert forall|x: u64| xs.contains(x) implies !ys.contains(x) by {
        if xs.contains(x) && ys.contains(x) {
            let i = choose|i: int| 0 <= i < xs.len() && xs[i] == x;
            let j = choose|j: int| 0 <= j < ys.len() && ys[j] == x;
            assert(w[i] == x && w[xs.len() + j] == x);
        }
    }
}

/// A well-formed tree gives each boundary its own identity, so a fragment
/// tagged with an identity has exactly one placeholder it can belong to.
pub open spec fn tree_wf(n: RenderNode, count: nat) -> bool {
    reads_in_bounds(n, count) && boundary_ids(n).no_duplicates()
}

/// What a region guarded by a resource displays. While the guard is still
/// pending the region is just the guard's read, which keeps the enclosing
/// boundary on its fallback. Once the guard settles, a non-zero value admits
/// the real children behind an affirmative note; a zero value or a failure
/// shows the denial text and withholds the children entirely.
pub open spec fn spec_guarded_view(
    guard: usize,
    s: ResourceState,
    granted_text: u64,
    denied_text: u64,
    children: RenderNode,
) -> RenderNode {
    match s {
        ResourceState::Ready(v) => if v != 0 {
            RenderNode::Pair(
                Box::new(RenderNode::Text(granted_text)),
                Box::new(children),
            )
        } else {
            RenderNode::Text(denied_text)
        },
        ResourceState::Failed(_) => RenderNode::Text(denied_text),
        _ => RenderNode::Read(guard),
    }
}

/// Build the subtree a guard resource currently admits.
pub fn guarded_view(
    guard: usize,
    s: ResourceState,
    granted_text: u64,
    denied_text: u64,
    children: RenderNode,
) -> (n: RenderNode)
    ensures
        n == spec_guarded_view(guard, s, granted_text, denied_text, children),
{
    match s {
        ResourceState::Ready(v) => if v != 0 {
            RenderNode::Pair(
                Box::new(RenderNode::Text(granted_text)),
                Box::new(children),
            )
        } else {
            RenderNode::Text(denied_text)
        },
        ResourceState::Failed(_) => RenderNode::Text(denied_text),
        _ => RenderNode::Read(guard),
    }
}

/// Decide whether `n` is settled against the current resource table.
pub fn node_settled_exec(n: &RenderNode, res: &Vec<Resource>) -> (b: bool)
    requires
        reads_in_bounds(*n, res@.len()),
    ensures
        b == node_settled(*n, states_of(res@)),
    decreases *n,
{
    match n {
        RenderNode::Blank => true,
        RenderNode::Text(_) => true,
        RenderNode::Read(i) => {
            let s = res[*i].read();
            matches!(s, ResourceState::Ready(_)) || matches!(s, ResourceState::Failed(_))
        },
        RenderNode::Pair(a, b) => {
            let sa = node_settled_exec(a, res);
            let sb = node_settled_exec(b, res);
            sa && sb
        },
        RenderNode::Boundary { child, .. } => node_settled_exec(child, res),
    }
}

} // verus!
