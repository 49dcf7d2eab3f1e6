use vstd::prelude::*;
use crate::resource::{Resource, ResourceState};
use crate::tree::{RenderNode, node_settled, reads_in_bounds, states_of};
use crate::stream::{
    Frag, find_placeholder, lemma_find_placeholder, render_stream, spec_render,
    spec_splice, splice,
};

verus! {

/// One hydration pass: replay the component tree against already-delivered
/// markup, and for every boundary whose placeholder is still in the markup
/// and whose subtree has settled, splice that boundary's real content in at
/// exactly its own placeholder. The result is the reconciled markup and the
/// identities swapped, outermost first.
///
/// A boundary whose subtree is still unsettled is left alone, and so is one
/// whose placeholder is gone: content is spliced only once its whole
/// subtree has settled, so what was spliced carries no placeholder and
/// there is nothing beneath it to revisit
/// (`lemma_render_settled_no_placeholders`).
pub open spec fn spec_hydrate(n: RenderNode, rs: Seq<ResourceState>, m: Seq<Frag>) -> (Seq<Frag>, Seq<
    u64,
>)
    decreases n,
{
    match n {
        RenderNode::Pair(a, b) => {
            let (m1, s1) = spec_hydrate(*a, rs, m);
            let (m2, s2) = spec_hydrate(*b, rs, m1);
            (m2, s1 + s2)
        },
        RenderNode::Boundary { id, child, .. } => {
            if find_placeholder(m, id) is Some && node_settled(*child, rs) {
                (spec_splice(m, id, spec_render(*child, rs)), seq![id])
            } else {
                (m, Seq::empty())
            }
        },
        _ => (m, Seq::empty()),
    }
}

/// Run one hydration pass of `n` over the delivered markup `m`.
pub fn hydrate_pass(n: &RenderNode, res: &Vec<Resource>, m: Vec<Frag>) -> (r: (Vec<Frag>, Vec<u64>))
    requires
        reads_in_bounds(*n, res@.len()),
    ensures
        (r.0@, r.1@) == spec_hydrate(*n, states_of(res@), m@),
    decreases *n,
{
    match n {
        RenderNode::Pair(a, b) => {
            let (m1, mut s1) = hydrate_pass(a, res, m);
            let (m2, mut s2) = hydrate_pass(b, res, m1);
            s1.append(&mut s2);
            (m2, s1)
        },
        RenderNode::Boundary { id, child, .. } => {
            if placeholder_present(&m, *id) && crate::tree::node_settled_exec(child, res) {
                let content = render_stream(child, res);
                let out = splice(&m, *id, &content);
                let mut swaps: Vec<u64> = Vec::new();
                swaps.push(*id);
                (out, swaps)
            } else {
                (m, Vec::new())
            }
        },
        _ => (m, Vec::new()),
    }
}

/// Whether a placeholder tagged `id` stands anywhere in `m`.
pub fn placeholder_present(m: &Vec<Frag>, id: u64) -> (b: bool)
    ensures
        b == (find_placeholder(m@, id) is Some),
{
    proof {
        lemma_find_placeholder(m@, id);
    }
    let mut at: usize = 0;
    while at < m.len()
        invariant
            0 <= at <= m@.len(),
            forall|j: int| 0 <= j < at ==> m@[j] != Frag::Placeholder(id),
        decreases m@.len() - at,
    {
        if matches!(m[at], Frag::Placeholder(p) if p == id) {
            proof {
                crate::stream::lemma_find_placeholder_prefix(m@, id, at as int);
            }
            return true;
        }
        at = at + 1;
    }
    false
}

/// Hydration idempotence law: against markup that carries no placeholder —
/// markup that is already fully resolved — a hydration pass performs no
/// swap and leaves every token as it was, whatever the resource states.
pub proof fn lemma_hydrate_idempotent(n: RenderNode, rs: Seq<ResourceState>, m: Seq<Frag>)
    requires
        forall|j: int| 0 <= j < m.len() ==> !((#[trigger] m[j]) is Placeholder),
    ensures
        spec_hydrate(n, rs, m).0 == m,
        spec_hydrate(n, rs, m).1 == Seq::<u64>::empty(),
    decreases n,
{
    match n {
        RenderNode::Pair(a, b) => {
            lemma_hydrate_idempotent(*a, rs, m);
            lemma_hydrate_idempotent(*b, rs, spec_hydrate(*a, rs, m).0);
            assert(spec_hydrate(n, rs, m).1 =~= Seq::<u64>::empty());
        },
        RenderNode::Boundary { id, child, .. } => {
            lemma_find_placeholder(m, id);
            if find_placeholder(m, id) is Some {
                let i = find_placeholder(m, id)->Some_0;
                assert(m[i] is Placeholder);
            }
        },
        _ => {},
    }
}

/// No placeholder in `m` carries one of the identities in `ids`.
pub open spec fn no_placeholders_of(m: Seq<Frag>, ids: Seq<u64>) -> bool {
    forall|j: int|
        0 <= j < m.len() && (#[trigger] m[j]) is Placeholder ==> !ids.contains(
            m[j]->Placeholder_0,
        )
}

/// Hydrating a subtree leaves surrounding markup alone: tokens before and
/// after the subtree's own region pass through untouched, as long as they
/// carry no placeholder of the subtree's boundaries.
pub proof fn lemma_hydrate_frame(
    n: RenderNode,
    rs: Seq<ResourceState>,
    p: Seq<Frag>,
    m: Seq<Frag>,
    s: Seq<Frag>,
)
    requires
        no_placeholders_of(p, crate::tree::boundary_ids(n)),
        no_placeholders_of(s, crate::tree::boundary_ids(n)),
    ensures
        spec_hydrate(n, rs, p + m + s).0 == p + spec_hydrate(n, rs, m).0 + s,
        spec_hydrate(n, rs, p + m + s).1 == spec_hydrate(n, rs, m).1,
    decreases n,
{
    let ids = crate::tree::boundary_ids(n);
    match n {
        RenderNode::Pair(a, b) => {
            let ia = crate::tree::boundary_ids(*a);
            let ib = crate::tree::boundary_ids(*b);
            assert(ids == ia + ib);
            assert forall|x: u64| ia.contains(x) implies ids.contains(x) by {
                let k = choose|k: int| 0 <= k < ia.len() && ia[k] == x;
                assert(ids[k] == x);
            }
            assert forall|x: u64| ib.contains(x) implies ids.contains(x) by {
                let k = choose|k: int| 0 <= k < ib.len() && ib[k] == x;
                assert(ids[ia.len() + k] == x);
            }
            lemma_hydrate_frame(*a, rs, p, m, s);
            let ma = spec_hydrate(*a, rs, m).0;
            lemma_hydrate_frame(*b, rs, p, ma, s);
        },
        RenderNode::Boundary { id, child, .. } => {
            assert(ids[0] == id);
            assert(ids.contains(id));
            assert forall|j: int| 0 <= j < p.len() implies p[j] != Frag::Placeholder(id) by {
                if p[j] == Frag::Placeholder(id) {
                    assert(p[j] is Placeholder && p[j]->Placeholder_0 == id);
                }
            }
            assert forall|j: int| 0 <= j < s.len() implies s[j] != Frag::Placeholder(id) by {
                if s[j] == Frag::Placeholder(id) {
                    assert(s[j] is Placeholder && s[j]->Placeholder_0 == id);
                }
            }
            crate::stream::lemma_find_placeholder_frame(p, m, s, id);
            if find_placeholder(m, id) is Some && node_settled(*child, rs) {
                crate::stream::lemma_splice_frame(p, m, s, id, spec_render(*child, rs));
            }
        },
        _ => {},
    }
}

/// Convergence law: markup streamed under the resource states `rs`, then
/// reconciled by one hydration pass under any later states `rs2`, is
/// exactly the markup a fresh streaming pass would emit under `rs2`. So the
/// delivered page depends only on how far resources have settled — never on
/// when, in what order, or on which side of the stream they settled — for
/// any nesting depth, as long as every boundary identity is unique and
/// every read sits under a boundary.
pub proof fn lemma_stream_hydration_convergence(
    n: RenderNode,
    rs: Seq<ResourceState>,
    rs2: Seq<ResourceState>,
)
    requires
        crate::tree::boundary_ids(n).no_duplicates(),
        crate::tree::reads_covered(n),
        crate::stream::states_monotone(rs, rs2),
    ensures
        spec_hydrate(n, rs2, spec_render(n, rs)).0 == spec_render(n, rs2),
    decreases n,
{
    match n {
        RenderNode::Pair(a, b) => {
            let ia = crate::tree::boundary_ids(*a);
            let ib = crate::tree::boundary_ids(*b);
            let ra = spec_render(*a, rs);
            let rb = spec_render(*b, rs);
            let ra2 = spec_render(*a, rs2);
            let rb2 = spec_render(*b, rs2);
            crate::tree::lemma_no_duplicates_split(ia, ib);
            crate::stream::lemma_render_placeholders_from_ids(*b, rs);
            assert(no_placeholders_of(rb, ia)) by {
                assert forall|j: int|
                    0 <= j < rb.len() && (#[trigger] rb[j]) is Placeholder implies !ia.contains(
                    rb[j]->Placeholder_0,
                ) by {
                    assert(ib.contains(rb[j]->Placeholder_0));
                }
            }
            assert(Seq::<Frag>::empty() + ra + rb =~= ra + rb);
            lemma_hydrate_frame(*a, rs2, Seq::<Frag>::empty(), ra, rb);
            lemma_stream_hydration_convergence(*a, rs, rs2);
            assert(spec_hydrate(*a, rs2, ra + rb).0 == Seq::<Frag>::empty() + ra2 + rb);
            assert(Seq::<Frag>::empty() + ra2 + rb =~= ra2 + rb);

            crate::stream::lemma_render_placeholders_from_ids(*a, rs2);
            assert(no_placeholders_of(ra2, ib)) by {
                assert forall|j: int|
                    0 <= j < ra2.len() && (#[trigger] ra2[j]) is Placeholder implies !ib.contains(
                    ra2[j]->Placeholder_0,
                ) by {
                    assert(ia.contains(ra2[j]->Placeholder_0));
                }
            }
            assert(ra2 + rb + Seq::<Frag>::empty() =~= ra2 + rb);
            lemma_hydrate_frame(*b, rs2, ra2, rb, Seq::<Frag>::empty());
            lemma_stream_hydration_convergence(*b, rs, rs2);
            assert(spec_hydrate(*b, rs2, ra2 + rb).0 == ra2 + spec_hydrate(*b, rs2, rb).0
                + Seq::<Frag>::empty());
            assert(ra2 + rb2 + Seq::<Frag>::empty() =~= ra2 + rb2);
            assert(spec_render(n, rs2) == ra2 + rb2);
        },
        RenderNode::Boundary { id, child, .. } => {
            let ic = crate::tree::boundary_ids(*child);
            crate::tree::lemma_no_duplicates_split(seq![id], ic);
            if node_settled(*child, rs) {
                crate::stream::lemma_render_settled_no_placeholders(*child, rs);
                crate::stream::lemma_render_settled_stable(*child, rs, rs2);
                let m = spec_render(*child, rs);
                lemma_find_placeholder(m, id);
                if find_placeholder(m, id) is Some {
                    let i = find_placeholder(m, id)->Some_0;
                    assert(m[i] is Placeholder);
                }
            } else {
                let m = seq![Frag::Placeholder(id)];
                assert(spec_render(n, rs) == m);
                assert(find_placeholder(m, id) == Some(0int));
                if node_settled(*child, rs2) {
                    let f = spec_render(*child, rs2);
                    assert(spec_splice(m, id, f) =~= f);
                }
            }
        },
        _ => {},
    }
}

/// All resources settled.
pub open spec fn all_settled(rs: Seq<ResourceState>) -> bool {
    forall|i: int| 0 <= i < rs.len() ==> (#[trigger] rs[i]).is_settled()
}

/// Once every resource has settled, every subtree is settled.
pub proof fn lemma_all_settled_node(n: RenderNode, rs: Seq<ResourceState>)
    requires
        all_settled(rs),
        crate::tree::reads_in_bounds(n, rs.len()),
    ensures
        node_settled(n, rs),
    decreases n,
{
    match n {
        RenderNode::Pair(a, b) => {
            lemma_all_settled_node(*a, rs);
            lemma_all_settled_node(*b, rs);
        },
        RenderNode::Boundary { child, .. } => {
            lemma_all_settled_node(*child, rs);
        },
        _ => {},
    }
}

/// Full-resolution corollary: once every resource has settled, the markup
/// streamed under any earlier states and reconciled by one hydration pass
/// is the fully resolved page, and no placeholder is left in it. Whatever
/// interleaving of completions led to the final states, the delivered page
/// is the same.
pub proof fn lemma_final_markup(n: RenderNode, rs: Seq<ResourceState>, rs2: Seq<ResourceState>)
    requires
        crate::tree::tree_wf(n, rs2.len()),
        crate::tree::reads_covered(n),
        crate::stream::states_monotone(rs, rs2),
        all_settled(rs2),
    ensures
        spec_hydrate(n, rs2, spec_render(n, rs)).0 == spec_render(n, rs2),
        forall|j: int|
            0 <= j < spec_render(n, rs2).len() ==> !((#[trigger] spec_render(n, rs2)[j])
                is Placeholder),
{
    lemma_stream_hydration_convergence(n, rs, rs2);
    lemma_all_settled_node(n, rs2);
    crate::stream::lemma_render_settled_no_placeholders(n, rs2);
}

/// Convergence composes across passes: however many reconciliation rounds
/// the resolutions are spread over, the markup after the last round is the
/// one a fresh streaming pass would emit under the last states. Resolving
/// during streaming and resolving after hydration end in the same page.
pub proof fn lemma_convergence_composes(
    n: RenderNode,
    rs0: Seq<ResourceState>,
    rs1: Seq<ResourceState>,
    rs2: Seq<ResourceState>,
)
    requires
        crate::tree::boundary_ids(n).no_duplicates(),
        crate::tree::reads_covered(n),
        crate::stream::states_monotone(rs0, rs1),
        crate::stream::states_monotone(rs1, rs2),
    ensures
        spec_hydrate(n, rs2, spec_hydrate(n, rs1, spec_render(n, rs0)).0).0 == spec_render(
            n,
            rs2,
        ),
{
    lemma_stream_hydration_convergence(n, rs0, rs1);
    lemma_stream_hydration_convergence(n, rs1, rs2);
}

/// After the page has fully resolved, reconciliation is quiescent: one more
/// hydration pass, under any states, swaps nothing and changes no token.
pub proof fn lemma_converged_page_is_quiescent(
    n: RenderNode,
    rs: Seq<ResourceState>,
    rs2: Seq<ResourceState>,
    later: Seq<ResourceState>,
)
    requires
        crate::tree::tree_wf(n, rs2.len()),
        crate::tree::reads_covered(n),
        crate::stream::states_monotone(rs, rs2),
        all_settled(rs2),
    ensures
        spec_hydrate(n, later, spec_hydrate(n, rs2, spec_render(n, rs)).0).0 == spec_render(
            n,
            rs2,
        ),
        spec_hydrate(n, later, spec_hydrate(n, rs2, spec_render(n, rs)).0).1 == Seq::<
            u64,
        >::empty(),
{
    lemma_final_markup(n, rs, rs2);
    lemma_hydrate_idempotent(n, later, spec_render(n, rs2));
}

} // verus!
