use vstd::prelude::*;
use crate::cell::ReactiveCell;
use crate::resource::{Outcome, Resource, ResourceState, spec_complete};

verus! {

/// One render scope's runtime: the reactive cells and resources it owns.
/// Cells and resources are addressed by stable indices, never shared across
/// independent render trees; dependency edges are the `input_cell` indices
/// the resources carry.
pub struct Runtime {
    /// The reactive cells, in creation order.
    pub cells: Vec<ReactiveCell>,
    /// The resources, in creation order; `Read` nodes refer to these.
    pub resources: Vec<Resource>,
}

impl Runtime {
    /// Every resource's input cell exists.
    pub open spec fn wf(self) -> bool {
        forall|i: int|
            0 <= i < self.resources@.len() ==> (#[trigger] self.resources@[i]).input_cell
                < self.cells@.len()
    }

    /// An empty runtime.
    pub fn new() -> (rt: Runtime)
        ensures
            rt.cells@.len() == 0,
            rt.resources@.len() == 0,
            rt.wf(),
    {
        Runtime { cells: Vec::new(), resources: Vec::new() }
    }

    /// Create a cell holding `value`; returns its index.
    pub fn new_cell(&mut self, value: u64) -> (i: usize)
        requires
            old(self).wf(),
        ensures
            final(self).wf(),
            i == old(self).cells@.len(),
            final(self).cells@.len() == old(self).cells@.len() + 1,
            final(self).cells@[i as int].value == value,
            final(self).cells@[i as int].version == 1,
            forall|j: int|
                0 <= j < old(self).cells@.len() ==> final(self).cells@[j] == old(self).cells@[j],
            final(self).resources@ == old(self).resources@,
    {
        let i = self.cells.len();
        self.cells.push(ReactiveCell::new(value));
        i
    }

    /// Create a resource keyed by the cell at `input_cell`; returns its
    /// index. The resource starts idle: its first invocation is started by
    /// the first `refresh`.
    pub fn new_resource(&mut self, input_cell: usize) -> (i: usize)
        requires
            old(self).wf(),
            input_cell < old(self).cells@.len(),
        ensures
            final(self).wf(),
            i == old(self).resources@.len(),
            final(self).resources@ == old(self).resources@.push(
                Resource {
                    input_cell,
                    seen_version: 0,
                    seq: 0,
                    state: ResourceState::Idle,
                },
            ),
            final(self).cells@ == old(self).cells@,
    {
        let i = self.resources.len();
        self.resources.push(Resource::new(input_cell));
        i
    }

    /// Read a resource's current state.
    pub fn state_of(&self, res: usize) -> (s: ResourceState)
        requires
            res < self.resources@.len(),
        ensures
            s == self.resources@[res as int].state,
    {
        self.resources[res].read()
    }

    /// Write a cell, publishing a new version. Dependents react when they
    /// are next refreshed.
    pub fn set_input(&mut self, cell: usize, value: u64)
        requires
            old(self).wf(),
            cell < old(self).cells@.len(),
            old(self).cells@[cell as int].version < u64::MAX,
        ensures
            final(self).wf(),
            final(self).cells@.len() == old(self).cells@.len(),
            final(self).cells@[cell as int].value == value,
            final(self).cells@[cell as int].version == old(self).cells@[cell as int].version + 1,
            forall|j: int|
                0 <= j < old(self).cells@.len() && j != cell ==> final(self).cells@[j] == old(
                    self,
                ).cells@[j],
            final(self).resources@ == old(self).resources@,
    {
        let mut c = self.cells[cell];
        c.set(value);
        self.cells.set(cell, c);
    }

    /// The resources keyed by `cell`, in creation order: exactly what a
    /// write to that cell schedules for re-evaluation.
    pub fn dependents_of(&self, cell: usize) -> (deps: Vec<usize>)
        ensures
            forall|k: int|
                0 <= k < deps@.len() ==> (#[trigger] deps@[k]) < self.resources@.len()
                    && self.resources@[deps@[k] as int].input_cell == cell,
            forall|i: int|
                0 <= i < self.resources@.len() && (#[trigger] self.resources@[i]).input_cell
                    == cell ==> deps@.contains(i as usize),
    {
        let mut deps: Vec<usize> = Vec::new();
        let mut i: usize = 0;
        while i < self.resources.len()
            invariant
                0 <= i <= self.resources@.len(),
                forall|k: int|
                    0 <= k < deps@.len() ==> (#[trigger] deps@[k]) < self.resources@.len()
                        && self.resources@[deps@[k] as int].input_cell == cell,
                forall|j: int|
                    0 <= j < i && (#[trigger] self.resources@[j]).input_cell == cell
                        ==> deps@.contains(j as usize),
            decreases self.resources@.len() - i,
        {
            let ghost pre = deps@;
            if self.resources[i].input_cell == cell {
                deps.push(i);
            }
            proof {
                assert forall|j: int|
                    0 <= j < i + 1 && (#[trigger] self.resources@[j]).input_cell == cell
                        implies deps@.contains(j as usize) by {
                    if j < i {
                        let k = choose|k: int| 0 <= k < pre.len() && pre[k] == j as usize;
                        assert(deps@[k] == j as usize);
                    } else {
                        assert(deps@[deps@.len() - 1] == j as usize);
                    }
                }
            }
            i = i + 1;
        }
        deps
    }

    /// Bring a resource up to date with its input cell. If the cell's
    /// version moved past the one the latest invocation was started for —
    /// or no invocation ever ran — a new invocation starts immediately and
    /// its fresh tag is returned, for the caller to hand to the producer.
    pub fn refresh(&mut self, res: usize) -> (started: Option<u64>)
        requires
            old(self).wf(),
            res < old(self).resources@.len(),
            old(self).resources@[res as int].seq < u64::MAX,
        ensures
            final(self).wf(),
            final(self).cells@ == old(self).cells@,
            final(self).resources@.len() == old(self).resources@.len(),
            forall|j: int|
                0 <= j < old(self).resources@.len() && j != res ==> final(self).resources@[j]
                    == old(self).resources@[j],
            ({
                let r = old(self).resources@[res as int];
                let ver = old(self).cells@[r.input_cell as int].version;
                let r2 = final(self).resources@[res as int];
                if r.state is Idle || r.seen_version != ver {
                    &&& r2.seq == r.seq + 1
                    &&& r2.seen_version == ver
                    &&& r2.state is Pending
                    &&& r2.input_cell == r.input_cell
                    &&& started == Some(r2.seq)
                } else {
                    &&& r2 == r
                    &&& started is None
                }
            }),
    {
        let mut r = self.resources[res];
        let ver = self.cells[r.input_cell].get_version();
        let started = r.sync_input(ver);
        self.resources.set(res, r);
        started
    }

    /// Deliver the result of the invocation of resource `res` tagged `tag`.
    /// The outcome is written only if that invocation is still the latest
    /// and still pending; a stale completion is dropped, observably.
    pub fn deliver(&mut self, res: usize, tag: u64, outcome: Outcome) -> (accepted: bool)
        requires
            old(self).wf(),
            res < old(self).resources@.len(),
        ensures
            final(self).wf(),
            final(self).cells@ == old(self).cells@,
            final(self).resources@ == old(self).resources@.update(
                res as int,
                spec_complete(old(self).resources@[res as int], tag, outcome),
            ),
            accepted == (tag == old(self).resources@[res as int].seq
                && old(self).resources@[res as int].state is Pending),
    {
        let mut r = self.resources[res];
        let accepted = r.complete(tag, outcome);
        self.resources.set(res, r);
        proof {
            assert(self.resources@ =~= old(self).resources@.update(
                res as int,
                spec_complete(old(self).resources@[res as int], tag, outcome),
            ));
        }
        accepted
    }
}

/// The resource table left behind by a whole run of interleaved
/// completions, each addressed to a resource by index and delivered in the
/// order of the sequence; a completion addressed out of range is ignored.
pub open spec fn apply_run(
    rs: Seq<Resource>,
    cs: Seq<(usize, u64, Outcome)>,
) -> Seq<Resource>
    decreases cs.len(),
{
    if cs.len() == 0 {
        rs
    } else {
        let c = cs.first();
        let rs1 = if c.0 < rs.len() {
            rs.update(c.0 as int, spec_complete(rs[c.0 as int], c.1, c.2))
        } else {
            rs
        };
        apply_run(rs1, cs.drop_first())
    }
}

/// The outcome of the earliest completion in `cs` addressed to resource
/// `i` with tag `t`, if any.
pub open spec fn first_match_run(cs: Seq<(usize, u64, Outcome)>, i: usize, t: u64) -> Option<
    Outcome,
>
    decreases cs.len(),
{
    if cs.len() == 0 {
        None
    } else if cs.first().0 == i && cs.first().1 == t {
        Some(cs.first().2)
    } else {
        first_match_run(cs.drop_first(), i, t)
    }
}

/// In a real run no invocation completes twice: no two completions share
/// both their resource index and their tag.
pub open spec fn distinct_run_tags(cs: Seq<(usize, u64, Outcome)>) -> bool {
    forall|i: int, j: int|
        0 <= i < j < cs.len() ==> ((#[trigger] cs[i]).0, cs[i].1) != ((#[trigger] cs[j]).0,
        cs[j].1)
}

/// A run of completions settles each pending resource with the outcome of
/// the one completion addressed to it under its latest sequence number;
/// everything else about the table is untouched.
pub proof fn lemma_apply_run_characterization(rs: Seq<Resource>, cs: Seq<(usize, u64, Outcome)>)
    requires
        rs.len() <= usize::MAX,
    ensures
        apply_run(rs, cs).len() == rs.len(),
        forall|i: int|
            0 <= i < rs.len() ==> {
                let r = #[trigger] rs[i];
                let r2 = apply_run(rs, cs)[i];
                &&& r2.seq == r.seq
                &&& r2.input_cell == r.input_cell
                &&& r2.seen_version == r.seen_version
                &&& r2.state == (if r.state is Pending {
                    match first_match_run(cs, i as usize, r.seq) {
                        Some(o) => crate::resource::state_of_outcome(o),
                        None => r.state,
                    }
                } else {
                    r.state
                })
            },
    decreases cs.len(),
{
    if cs.len() > 0 {
        let c = cs.first();
        let rs1 = if c.0 < rs.len() {
            rs.update(c.0 as int, spec_complete(rs[c.0 as int], c.1, c.2))
        } else {
            rs
        };
        lemma_apply_run_characterization(rs1, cs.drop_first());
        assert(apply_run(rs, cs) == apply_run(rs1, cs.drop_first()));
        assert forall|i: int| 0 <= i < rs.len() implies {
            let r = #[trigger] rs[i];
            let r2 = apply_run(rs, cs)[i];
            &&& r2.seq == r.seq
            &&& r2.input_cell == r.input_cell
            &&& r2.seen_version == r.seen_version
            &&& r2.state == (if r.state is Pending {
                match first_match_run(cs, i as usize, r.seq) {
                    Some(o) => crate::resource::state_of_outcome(o),
                    None => r.state,
                }
            } else {
                r.state
            })
        } by {
            let r = rs[i];
            let r1 = rs1[i];
            let r2 = apply_run(rs, cs)[i];
            assert(i as usize as int == i);
            if c.0 < rs.len() && c.0 as int == i {
                assert(rs1 == rs.update(i, spec_complete(rs[i], c.1, c.2)));
                assert(r1 == spec_complete(r, c.1, c.2));
                if c.1 == r.seq && r.state is Pending {
                    assert(first_match_run(cs, i as usize, r.seq) == Some(c.2));
                    assert(r1.state == crate::resource::state_of_outcome(c.2));
                    assert(!(r1.state is Pending));
                    assert(r2.state == r1.state);
                } else {
                    assert(r1 == r);
                    if r.state is Pending {
                        assert(first_match_run(cs, i as usize, r.seq) == first_match_run(
                            cs.drop_first(),
                            i as usize,
                            r.seq,
                        ));
                    }
                }
            } else {
                assert(r1 == r);
                if r.state is Pending {
                    assert(first_match_run(cs, i as usize, r.seq) == first_match_run(
                        cs.drop_first(),
                        i as usize,
                        r.seq,
                    ));
                }
            }
        }
    }
}

proof fn lemma_first_match_run_some_implies_contains(
    cs: Seq<(usize, u64, Outcome)>,
    i: usize,
    t: u64,
)
    requires
        first_match_run(cs, i, t) is Some,
    ensures
        cs.contains((i, t, first_match_run(cs, i, t)->Some_0)),
    decreases cs.len(),
{
    if cs.first().0 == i && cs.first().1 == t {
        assert(cs[0] == (i, t, first_match_run(cs, i, t)->Some_0));
    } else {
        lemma_first_match_run_some_implies_contains(cs.drop_first(), i, t);
        let o = first_match_run(cs.drop_first(), i, t)->Some_0;
        let k = choose|k: int| 0 <= k < cs.drop_first().len() && cs.drop_first()[k] == (i, t, o);
        assert(cs[k + 1] == (i, t, o));
    }
}

proof fn lemma_contains_implies_first_match_run(
    cs: Seq<(usize, u64, Outcome)>,
    i: usize,
    t: u64,
    o: Outcome,
)
    requires
        distinct_run_tags(cs),
        cs.contains((i, t, o)),
    ensures
        first_match_run(cs, i, t) == Some(o),
    decreases cs.len(),
{
    let k = choose|k: int| 0 <= k < cs.len() && cs[k] == (i, t, o);
    if cs.first().0 == i && cs.first().1 == t {
        // A later completion for the same invocation would repeat its key.
        assert(k == 0);
    } else {
        assert(cs.drop_first()[k - 1] == (i, t, o));
        lemma_contains_implies_first_match_run(cs.drop_first(), i, t, o);
    }
}

proof fn lemma_first_match_run_transfers(
    cs1: Seq<(usize, u64, Outcome)>,
    cs2: Seq<(usize, u64, Outcome)>,
    i: usize,
    t: u64,
)
    requires
        cs1.to_multiset() == cs2.to_multiset(),
        distinct_run_tags(cs1),
        distinct_run_tags(cs2),
    ensures
        first_match_run(cs1, i, t) == first_match_run(cs2, i, t),
{
    broadcast use vstd::seq_lib::group_to_multiset_ensures;

    match first_match_run(cs1, i, t) {
        Some(o) => {
            lemma_first_match_run_some_implies_contains(cs1, i, t);
            assert(cs1.to_multiset().count((i, t, o)) > 0);
            assert(cs2.contains((i, t, o)));
            lemma_contains_implies_first_match_run(cs2, i, t, o);
        },
        None => {
            match first_match_run(cs2, i, t) {
                Some(o) => {
                    lemma_first_match_run_some_implies_contains(cs2, i, t);
                    assert(cs2.to_multiset().count((i, t, o)) > 0);
                    assert(cs1.contains((i, t, o)));
                    lemma_contains_implies_first_match_run(cs1, i, t, o);
                },
                None => {},
            }
        },
    }
}

/// No-stale-overwrite law for a whole table: two interleavings that deliver
/// the same completions — each invocation completing at most once — leave
/// every resource, and with it the resolved state of every boundary over
/// them, exactly the same. Completion order never matters; only which
/// invocation was the latest for each resource does.
pub proof fn lemma_run_order_irrelevant(
    rs: Seq<Resource>,
    cs1: Seq<(usize, u64, Outcome)>,
    cs2: Seq<(usize, u64, Outcome)>,
)
    requires
        rs.len() <= usize::MAX,
        cs1.to_multiset() == cs2.to_multiset(),
        distinct_run_tags(cs1),
        distinct_run_tags(cs2),
    ensures
        apply_run(rs, cs1) == apply_run(rs, cs2),
{
    lemma_apply_run_characterization(rs, cs1);
    lemma_apply_run_characterization(rs, cs2);
    assert forall|i: int| 0 <= i < rs.len() implies apply_run(rs, cs1)[i] == apply_run(
        rs,
        cs2,
    )[i] by {
        lemma_first_match_run_transfers(cs1, cs2, i as usize, rs[i].seq);
        assert(apply_run(rs, cs1)[i] =~= apply_run(rs, cs2)[i]);
    }
    assert(apply_run(rs, cs1) =~= apply_run(rs, cs2));
}

} // verus!
