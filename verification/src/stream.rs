use vstd::prelude::*;
use crate::resource::{Resource, ResourceState};
use crate::tree::{RenderNode, node_settled, reads_in_bounds, states_of};

verus! {

/// One token of emitted markup.
#[derive(Clone, Copy, PartialEq, Eq, Structural, Debug)]
pub enum Frag {
    /// Static markup, by text token.
    Text(u64),
    /// A resolved resource's value.
    Value(u64),
    /// A resolved resource's failure, rendered in place of a value.
    Failed(u64),
    /// A resource that has not settled; never emitted inside resolved
    /// content, only as the rendering of a read outside any boundary.
    Pending,
    /// The identity-tagged placeholder an unresolved boundary leaves in the
    /// stream; the boundary's resolved content is later spliced exactly
    /// here.
    Placeholder(u64),
}

/// How one resource read renders.
pub open spec fn frag_of_state(s: ResourceState) -> Frag {
    match s {
        ResourceState::Ready(v) => Frag::Value(v),
        ResourceState::Failed(e) => Frag::Failed(e),
        _ => Frag::Pending,
    }
}

/// The markup a top-down streaming pass emits for `n` under the resource
/// states `rs`: a resolved boundary streams its children inline, an
/// unresolved one leaves a placeholder tagged with its identity and the
/// stream continues past it.
pub open spec fn spec_render(n: RenderNode, rs: Seq<ResourceState>) -> Seq<Frag>
    decreases n,
{
    match n {
        RenderNode::Blank => Seq::empty(),
        RenderNode::Text(t) => seq![Frag::Text(t)],
        RenderNode::Read(i) => if i < rs.len() {
            seq![frag_of_state(rs[i as int])]
        } else {
            seq![Frag::Pending]
        },
        RenderNode::Pair(a, b) => spec_render(*a, rs) + spec_render(*b, rs),
        RenderNode::Boundary { id, child, .. } => if node_settled(*child, rs) {
            spec_render(*child, rs)
        } else {
            seq![Frag::Placeholder(id)]
        },
    }
}

/// Stream `n` top-down against the current resource table.
pub fn render_stream(n: &RenderNode, res: &Vec<Resource>) -> (out: Vec<Frag>)
    requires
        reads_in_bounds(*n, res@.len()),
    ensures
        out@ == spec_render(*n, states_of(res@)),
    decreases *n,
{
    match n {
        RenderNode::Blank => Vec::new(),
        RenderNode::Text(t) => {
            let mut out: Vec<Frag> = Vec::new();
            out.push(Frag::Text(*t));
            out
        },
        RenderNode::Read(i) => {
            let mut out: Vec<Frag> = Vec::new();
            let f = match res[*i].read() {
                ResourceState::Ready(v) => Frag::Value(v),
                ResourceState::Failed(e) => Frag::Failed(e),
                _ => Frag::Pending,
            };
            out.push(f);
            out
        },
        RenderNode::Pair(a, b) => {
            let mut out = render_stream(a, res);
            let mut tail = render_stream(b, res);
            out.append(&mut tail);
            out
        },
        RenderNode::Boundary { id, child, .. } => {
            if crate::tree::node_settled_exec(child, res) {
                render_stream(child, res)
            } else {
                let mut out: Vec<Frag> = Vec::new();
                out.push(Frag::Placeholder(*id));
                out
            }
        },
    }
}

/// Index of the first placeholder tagged `id` in `m`, if any.
pub open spec fn find_placeholder(m: Seq<Frag>, id: u64) -> Option<int>
    decreases m.len(),
{
    if m.len() == 0 {
        None
    } else if m.first() == Frag::Placeholder(id) {
        Some(0)
    } else {
        match find_placeholder(m.drop_first(), id) {
            Some(i) => Some(i + 1),
            None => None,
        }
    }
}

/// What `find_placeholder` finds is a placeholder, is the earliest one, and
/// a miss means there is none at all.
pub proof fn lemma_find_placeholder(m: Seq<Frag>, id: u64)
    ensures
        find_placeholder(m, id) is Some ==> {
            let i = find_placeholder(m, id)->Some_0;
            &&& 0 <= i < m.len()
            &&& m[i] == Frag::Placeholder(id)
            &&& forall|j: int| 0 <= j < i ==> m[j] != Frag::Placeholder(id)
        },
        find_placeholder(m, id) is None ==> forall|j: int|
            0 <= j < m.len() ==> m[j] != Frag::Placeholder(id),
    decreases m.len(),
{
    if m.len() > 0 {
        lemma_find_placeholder(m.drop_first(), id);
        if m.first() != Frag::Placeholder(id) {
            match find_placeholder(m.drop_first(), id) {
                Some(i0) => {
                    assert(m[i0 + 1] == m.drop_first()[i0]);
                    assert forall|j: int| 0 <= j < i0 + 1 implies m[j] != Frag::Placeholder(
                        id,
                    ) by {
                        if j > 0 {
                            assert(m[j] == m.drop_first()[j - 1]);
                        }
                    }
                },
                None => {
                    assert forall|j: int| 0 <= j < m.len() implies m[j] != Frag::Placeholder(
                        id,
                    ) by {
                        if j > 0 {
                            assert(m[j] == m.drop_first()[j - 1]);
                        }
                    }
                },
            }
        }
    }
}

/// The markup after the boundary tagged `id` resolves with content `f`:
/// exactly its placeholder is replaced by `f`; with no such placeholder the
/// markup is left as it is.
pub open spec fn spec_splice(m: Seq<Frag>, id: u64, f: Seq<Frag>) -> Seq<Frag> {
    match find_placeholder(m, id) {
        Some(i) => m.subrange(0, i) + f + m.subrange(i + 1, m.len() as int),
        None => m,
    }
}

/// Splice the resolved content `f` of the boundary tagged `id` into `m`, at
/// that boundary's placeholder and nowhere else.
pub fn splice(m: &Vec<Frag>, id: u64, f: &Vec<Frag>) -> (out: Vec<Frag>)
    ensures
        out@ == spec_splice(m@, id, f@),
{
    proof {
        lemma_find_placeholder(m@, id);
    }
    let mut at: usize = 0;
    let mut found = false;
    while at < m.len() && !found
        invariant
            0 <= at <= m@.len(),
            found ==> at < m@.len() && m@[at as int] == Frag::Placeholder(id)
                && find_placeholder(m@, id) == Some(at as int),
            !found ==> forall|j: int| 0 <= j < at ==> m@[j] != Frag::Placeholder(id),
        decreases m@.len() - at + (if found { 0int } else { 1 }),
    {
        if matches!(m[at], Frag::Placeholder(p) if p == id) {
            found = true;
            proof {
                lemma_find_placeholder_prefix(m@, id, at as int);
            }
        } else {
            at = at + 1;
        }
    }
    if !found {
        proof {
            lemma_find_placeholder(m@, id);
            if find_placeholder(m@, id) is Some {
                let i = find_placeholder(m@, id)->Some_0;
                assert(m@[i] == Frag::Placeholder(id));
            }
        }
        return m.clone();
    }
    let mut out: Vec<Frag> = Vec::new();
    let mut j: usize = 0;
    while j < at
        invariant
            0 <= j <= at <= m@.len(),
            out@ == m@.subrange(0, j as int),
        decreases at - j,
    {
        out.push(m[j]);
        j = j + 1;
    }
    let mut k: usize = 0;
    while k < f.len()
        invariant
            0 <= k <= f@.len(),
            at <= m@.len(),
            out@ == m@.subrange(0, at as int) + f@.subrange(0, k as int),
        decreases f@.len() - k,
    {
        out.push(f[k]);
        k = k + 1;
    }
    let mut t: usize = at + 1;
    while t < m.len()
        invariant
            at < m@.len(),
            at + 1 <= t <= m@.len(),
            out@ == m@.subrange(0, at as int) + f@ + m@.subrange(at + 1, t as int),
        decreases m@.len() - t,
    {
        out.push(m[t]);
        t = t + 1;
    }
    proof {
        assert(f@.subrange(0, f@.len() as int) =~= f@);
        assert(out@ =~= m@.subrange(0, at as int) + f@ + m@.subrange(
            at + 1,
            m@.len() as int,
        ));
    }
    out
}

/// Whether any placeholder tagged `id` stands in `m`.
pub open spec fn has_placeholder(m: Seq<Frag>, id: u64) -> bool {
    exists|j: int| 0 <= j < m.len() && m[j] == Frag::Placeholder(id)
}

/// `rs2` only advances `rs`: every resource already settled keeps exactly
/// the state it settled with. This is what sequence-tagging guarantees for
/// a streaming phase during which no input changes.
pub open spec fn states_monotone(rs: Seq<ResourceState>, rs2: Seq<ResourceState>) -> bool {
    &&& rs.len() == rs2.len()
    &&& forall|i: int| 0 <= i < rs.len() && (#[trigger] rs[i]).is_settled() ==> rs2[i] == rs[i]
}

/// Identity-isolation law: splicing the content of the boundary tagged `id`
/// rewrites exactly that boundary's placeholder. Every token before it is
/// unchanged in place, every token after it is unchanged and merely
/// shifted, so no other boundary's placeholder or already-streamed content
/// is touched — in particular never an ancestor's or a descendant's.
pub proof fn lemma_splice_identity_isolation(m: Seq<Frag>, id: u64, f: Seq<Frag>)
    requires
        find_placeholder(m, id) is Some,
    ensures
        ({
            let i = find_placeholder(m, id)->Some_0;
            let out = spec_splice(m, id, f);
            &&& 0 <= i < m.len()
            &&& m[i] == Frag::Placeholder(id)
            &&& out.len() == m.len() - 1 + f.len()
            &&& forall|j: int| 0 <= j < i ==> out[j] == m[j]
            &&& forall|j: int| 0 <= j < f.len() ==> out[i + j] == f[j]
            &&& forall|j: int| i < j < m.len() ==> out[j + f.len() - 1] == m[j]
        }),
{
    lemma_find_placeholder(m, id);
}

/// A boundary tagged differently keeps its placeholder across a splice for
/// `id`, as long as the spliced content does not itself carry such a
/// placeholder.
pub proof fn lemma_splice_preserves_other_placeholder(
    m: Seq<Frag>,
    id: u64,
    f: Seq<Frag>,
    other: u64,
)
    requires
        other != id,
        !has_placeholder(f, other),
    ensures
        has_placeholder(spec_splice(m, id, f), other) == has_placeholder(m, other),
{
    lemma_find_placeholder(m, id);
    if find_placeholder(m, id) is Some {
        let i = find_placeholder(m, id)->Some_0;
        let out = spec_splice(m, id, f);
        lemma_splice_identity_isolation(m, id, f);
        if has_placeholder(m, other) {
            let j = choose|j: int| 0 <= j < m.len() && m[j] == Frag::Placeholder(other);
            if j < i {
                assert(out[j] == Frag::Placeholder(other));
            } else {
                assert(j != i);
                assert(out[j + f.len() - 1] == Frag::Placeholder(other));
            }
        }
        if has_placeholder(out, other) {
            let j = choose|j: int| 0 <= j < out.len() && out[j] == Frag::Placeholder(other);
            if j < i {
                assert(m[j] == Frag::Placeholder(other));
            } else if j < i + f.len() {
                assert(f[j - i] == Frag::Placeholder(other));
                assert(has_placeholder(f, other));
            } else {
                assert(out[(j - f.len() + 1) + f.len() - 1] == m[j - f.len() + 1]);
                assert(m[j - f.len() + 1] == Frag::Placeholder(other));
            }
        }
    }
}

/// The stream of a settled subtree carries no placeholder at all: resolved
/// content is final when emitted.
pub proof fn lemma_render_settled_no_placeholders(n: RenderNode, rs: Seq<ResourceState>)
    requires
        node_settled(n, rs),
    ensures
        forall|j: int|
            0 <= j < spec_render(n, rs).len() ==> !((#[trigger] spec_render(n, rs)[j])
                is Placeholder),
    decreases n,
{
    match n {
        RenderNode::Pair(a, b) => {
            lemma_render_settled_no_placeholders(*a, rs);
            lemma_render_settled_no_placeholders(*b, rs);
            let ra = spec_render(*a, rs);
            let rb = spec_render(*b, rs);
            assert forall|j: int|
                0 <= j < spec_render(n, rs).len() implies !((#[trigger] spec_render(n, rs)[j])
                is Placeholder) by {
                assert(spec_render(n, rs) == ra + rb);
                if j < ra.len() {
                    assert(spec_render(n, rs)[j] == ra[j]);
                } else {
                    assert(spec_render(n, rs)[j] == rb[j - ra.len()]);
                }
            }
        },
        RenderNode::Boundary { child, .. } => {
            lemma_render_settled_no_placeholders(*child, rs);
        },
        _ => {},
    }
}

/// Settled content is stable: once a subtree has settled, advancing the
/// remaining resources neither unsettles it nor changes a token of its
/// stream. This is why a fragment emitted at resolution time is still the
/// right content at every later time.
pub proof fn lemma_render_settled_stable(
    n: RenderNode,
    rs: Seq<ResourceState>,
    rs2: Seq<ResourceState>,
)
    requires
        node_settled(n, rs),
        states_monotone(rs, rs2),
    ensures
        node_settled(n, rs2),
        spec_render(n, rs2) == spec_render(n, rs),
    decreases n,
{
    match n {
        RenderNode::Pair(a, b) => {
            lemma_render_settled_stable(*a, rs, rs2);
            lemma_render_settled_stable(*b, rs, rs2);
        },
        RenderNode::Boundary { child, .. } => {
            lemma_render_settled_stable(*child, rs, rs2);
        },
        _ => {},
    }
}

/// Where the placeholder tagged `id` appears in neither `p` nor `s`, a
/// search through `p + m + s` finds exactly what a search through `m`
/// finds, shifted past the prefix.
pub proof fn lemma_find_placeholder_frame(p: Seq<Frag>, m: Seq<Frag>, s: Seq<Frag>, id: u64)
    requires
        forall|j: int| 0 <= j < p.len() ==> p[j] != Frag::Placeholder(id),
        forall|j: int| 0 <= j < s.len() ==> s[j] != Frag::Placeholder(id),
    ensures
        find_placeholder(m, id) is Some ==> find_placeholder(p + m + s, id) == Some(
            p.len() + find_placeholder(m, id)->Some_0,
        ),
        find_placeholder(m, id) is None ==> find_placeholder(p + m + s, id) is None,
{
    lemma_find_placeholder(m, id);
    lemma_find_placeholder(p + m + s, id);
    let w = p + m + s;
    match find_placeholder(m, id) {
        Some(i) => {
            assert(w[p.len() + i] == m[i]);
            assert forall|j: int| 0 <= j < p.len() + i implies w[j] != Frag::Placeholder(id) by {
                if j < p.len() {
                    assert(w[j] == p[j]);
                } else {
                    assert(w[j] == m[j - p.len()]);
                }
            }
            lemma_find_placeholder_prefix(w, id, p.len() + i);
        },
        None => {
            if find_placeholder(w, id) is Some {
                let k = find_placeholder(w, id)->Some_0;
                assert(w[k] == Frag::Placeholder(id));
                if k < p.len() {
                    assert(p[k] == Frag::Placeholder(id));
                } else if k < p.len() + m.len() {
                    assert(m[k - p.len()] == Frag::Placeholder(id));
                } else {
                    assert(s[k - p.len() - m.len()] == Frag::Placeholder(id));
                }
            }
        },
    }
}

/// Splicing into the middle part of a framed markup splices into that part
/// alone: the untouched prefix and suffix pass through unchanged.
pub proof fn lemma_splice_frame(p: Seq<Frag>, m: Seq<Frag>, s: Seq<Frag>, id: u64, f: Seq<Frag>)
    requires
        forall|j: int| 0 <= j < p.len() ==> p[j] != Frag::Placeholder(id),
        forall|j: int| 0 <= j < s.len() ==> s[j] != Frag::Placeholder(id),
    ensures
        spec_splice(p + m + s, id, f) == p + spec_splice(m, id, f) + s,
{
    lemma_find_placeholder(m, id);
    lemma_find_placeholder_frame(p, m, s, id);
    let w = p + m + s;
    match find_placeholder(m, id) {
        Some(i) => {
            let k = p.len() + i;
            assert(find_placeholder(w, id) == Some(k as int));
            assert(spec_splice(w, id, f) =~= p + (m.subrange(0, i) + f + m.subrange(
                i + 1,
                m.len() as int,
            )) + s) by {
                assert(w.subrange(0, k as int) =~= p + m.subrange(0, i));
                assert(w.subrange(k + 1, w.len() as int) =~= m.subrange(i + 1, m.len() as int)
                    + s);
            }
        },
        None => {
            assert(spec_splice(w, id, f) == w);
            assert(w =~= p + spec_splice(m, id, f) + s);
        },
    }
}

/// Every placeholder a streaming pass emits carries the identity of a
/// boundary of the tree it rendered: identities are generated and threaded
/// consistently, so a fragment can never reference an unknown boundary.
pub proof fn lemma_render_placeholders_from_ids(n: RenderNode, rs: Seq<ResourceState>)
    ensures
        forall|j: int|
            0 <= j < spec_render(n, rs).len() && (#[trigger] spec_render(n, rs)[j])
                is Placeholder ==> crate::tree::boundary_ids(n).contains(
                spec_render(n, rs)[j]->Placeholder_0,
            ),
    decreases n,
{
    let ids = crate::tree::boundary_ids(n);
    match n {
        RenderNode::Pair(a, b) => {
            lemma_render_placeholders_from_ids(*a, rs);
            lemma_render_placeholders_from_ids(*b, rs);
            let ra = spec_render(*a, rs);
            let rb = spec_render(*b, rs);
            let ia = crate::tree::boundary_ids(*a);
            let ib = crate::tree::boundary_ids(*b);
            assert forall|j: int|
                0 <= j < spec_render(n, rs).len() && (#[trigger] spec_render(n, rs)[j])
                    is Placeholder implies ids.contains(
                spec_render(n, rs)[j]->Placeholder_0,
            ) by {
                assert(spec_render(n, rs) == ra + rb);
                let id = spec_render(n, rs)[j]->Placeholder_0;
                if j < ra.len() {
                    assert(ra[j] == Frag::Placeholder(id));
                    let k = choose|k: int| 0 <= k < ia.len() && ia[k] == id;
                    assert(ids[k] == id);
                } else {
                    assert(rb[j - ra.len()] == Frag::Placeholder(id));
                    let k = choose|k: int| 0 <= k < ib.len() && ib[k] == id;
                    assert(ids[ia.len() + k] == id);
                }
            }
        },
        RenderNode::Boundary { id, child, .. } => {
            lemma_render_placeholders_from_ids(*child, rs);
            let ic = crate::tree::boundary_ids(*child);
            assert forall|j: int|
                0 <= j < spec_render(n, rs).len() && (#[trigger] spec_render(n, rs)[j])
                    is Placeholder implies ids.contains(
                spec_render(n, rs)[j]->Placeholder_0,
            ) by {
                let pid = spec_render(n, rs)[j]->Placeholder_0;
                if node_settled(*child, rs) {
                    assert(spec_render(n, rs) == spec_render(*child, rs));
                    let k = choose|k: int| 0 <= k < ic.len() && ic[k] == pid;
                    assert(ids[1 + k] == pid);
                } else {
                    assert(spec_render(n, rs) == seq![Frag::Placeholder(id)]);
                    assert(pid == id);
                    assert(ids[0] == id);
                }
            }
        },
        _ => {},
    }
}

/// If nothing before `i` is the placeholder and `m[i]` is, then `i` is what
/// `find_placeholder` returns.
pub proof fn lemma_find_placeholder_prefix(m: Seq<Frag>, id: u64, i: int)
    requires
        0 <= i < m.len(),
        m[i] == Frag::Placeholder(id),
        forall|j: int| 0 <= j < i ==> m[j] != Frag::Placeholder(id),
    ensures
        find_placeholder(m, id) == Some(i),
    decreases m.len(),
{
    if i > 0 {
        lemma_find_placeholder_prefix(m.drop_first(), id, i - 1);
    }
}

} // verus!
