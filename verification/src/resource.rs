use vstd::prelude::*;

verus! {

/// What one asynchronous producer invocation came back with: a value or a
/// failure code.
#[derive(Clone, Copy, PartialEq, Eq, Structural, Debug)]
pub enum Outcome {
    Value(u64),
    Failure(u64),
}

/// The lifecycle state of a resource: never started, in flight, or settled
/// with a value or a failure.
#[derive(Clone, Copy, PartialEq, Eq, Structural, Debug)]
pub enum ResourceState {
    Idle,
    Pending,
    Ready(u64),
    Failed(u64),
}

impl ResourceState {
    /// A suspense boundary counts a resource as settled once it is `Ready`
    /// or `Failed`; both clear the fallback.
    pub open spec fn is_settled(self) -> bool {
        self is Ready || self is Failed
    }
}

/// The state a settled invocation leaves behind.
pub open spec fn state_of_outcome(o: Outcome) -> ResourceState {
    match o {
        Outcome::Value(v) => ResourceState::Ready(v),
        Outcome::Failure(e) => ResourceState::Failed(e),
    }
}

/// An asynchronous computation keyed by a reactive input cell.
///
/// Every started invocation is tagged with a fresh sequence number. A
/// completion is written back only while its tag still equals the latest
/// sequence number, so a stale completion can never overwrite the state of a
/// newer invocation.
#[derive(Clone, Copy)]
pub struct Resource {
    /// Index of the input cell this resource is keyed by.
    pub input_cell: usize,
    /// The input-cell version the latest invocation was started for.
    pub seen_version: u64,
    /// Sequence number of the latest started invocation; 0 while idle.
    pub seq: u64,
    /// Current lifecycle state.
    pub state: ResourceState,
}

/// The resource `complete` leaves behind when the invocation tagged `tag`
/// delivers `o`: the outcome is written only if `tag` is still the latest
/// sequence number and that invocation is still in flight; a stale
/// completion changes nothing.
pub open spec fn spec_complete(r: Resource, tag: u64, o: Outcome) -> Resource {
    if tag == r.seq && r.state is Pending {
        Resource { state: state_of_outcome(o), ..r }
    } else {
        r
    }
}

impl Resource {
    /// A fresh resource, bound to its input cell, with no invocation yet.
    pub fn new(input_cell: usize) -> (r: Resource)
        ensures
            r.input_cell == input_cell,
            r.seen_version == 0,
            r.seq == 0,
            r.state == ResourceState::Idle,
    {
        Resource { input_cell, seen_version: 0, seq: 0, state: ResourceState::Idle }
    }

    /// Tri-state read, as a render pass performs it.
    pub fn read(&self) -> (s: ResourceState)
        ensures
            s == self.state,
    {
        self.state
    }

    /// Bring the resource up to date with its input cell's version.
    ///
    /// If no invocation was ever started, or the input version moved past the
    /// one the latest invocation was started for, a new invocation is started
    /// immediately: the sequence number is bumped, the state re-enters
    /// `Pending`, and the fresh tag is returned so the caller can schedule
    /// the producer. Otherwise nothing changes and no duplicate invocation is
    /// started for the same input version.
    pub fn sync_input(&mut self, input_version: u64) -> (started: Option<u64>)
        requires
            old(self).seq < u64::MAX,
        ensures
            (old(self).state is Idle || old(self).seen_version != input_version) ==> {
                &&& final(self).seq == old(self).seq + 1
                &&& final(self).seen_version == input_version
                &&& final(self).state is Pending
                &&& final(self).input_cell == old(self).input_cell
                &&& started == Some(final(self).seq)
            },
            !(old(self).state is Idle || old(self).seen_version != input_version) ==> {
                &&& *final(self) == *old(self)
                &&& started is None
            },
    {
        let stale = matches!(self.state, ResourceState::Idle) || self.seen_version != input_version;
        if stale {
            self.seq = self.seq + 1;
            self.seen_version = input_version;
            self.state = ResourceState::Pending;
            Some(self.seq)
        } else {
            None
        }
    }

    /// Deliver the result of the invocation tagged `tag`.
    ///
    /// The outcome is written only if `tag` still equals the latest sequence
    /// number and that invocation is still pending; otherwise the completion
    /// is stale and silently dropped. The returned flag makes the drop
    /// observable (it is not an error).
    pub fn complete(&mut self, tag: u64, outcome: Outcome) -> (accepted: bool)
        ensures
            *final(self) == spec_complete(*old(self), tag, outcome),
            accepted == (tag == old(self).seq && old(self).state is Pending),
    {
        if tag == self.seq && matches!(self.state, ResourceState::Pending) {
            self.state = match outcome {
                Outcome::Value(v) => ResourceState::Ready(v),
                Outcome::Failure(e) => ResourceState::Failed(e),
            };
            true
        } else {
            false
        }
    }
}

/// The resource left behind after a whole run of completions, delivered in
/// the order of the sequence.
pub open spec fn apply_completions(r: Resource, cs: Seq<(u64, Outcome)>) -> Resource
    decreases cs.len(),
{
    if cs.len() == 0 {
        r
    } else {
        apply_completions(spec_complete(r, cs.first().0, cs.first().1), cs.drop_first())
    }
}

/// The outcome of the earliest completion in `cs` tagged `t`, if any.
pub open spec fn first_match(cs: Seq<(u64, Outcome)>, t: u64) -> Option<Outcome>
    decreases cs.len(),
{
    if cs.len() == 0 {
        None
    } else if cs.first().0 == t {
        Some(cs.first().1)
    } else {
        first_match(cs.drop_first(), t)
    }
}

/// Every invocation completes at most once, so in any real run no two
/// completions carry the same tag.
pub open spec fn distinct_tags(cs: Seq<(u64, Outcome)>) -> bool {
    forall|i: int, j: int| 0 <= i < j < cs.len() ==> (#[trigger] cs[i]).0 != (#[trigger] cs[j]).0
}

/// A run of completions settles a pending resource with the outcome of the
/// one completion whose tag matches the latest started invocation; all
/// others are dropped. A resource that is not pending is left untouched.
/// The input binding and the sequence number never move.
pub proof fn lemma_apply_completions_characterization(r: Resource, cs: Seq<(u64, Outcome)>)
    ensures
        apply_completions(r, cs).seq == r.seq,
        apply_completions(r, cs).input_cell == r.input_cell,
        apply_completions(r, cs).seen_version == r.seen_version,
        !(r.state is Pending) ==> apply_completions(r, cs).state == r.state,
        r.state is Pending ==> apply_completions(r, cs).state == (match first_match(cs, r.seq) {
            Some(o) => state_of_outcome(o),
            None => r.state,
        }),
    decreases cs.len(),
{
    if cs.len() > 0 {
        let r1 = spec_complete(r, cs.first().0, cs.first().1);
        lemma_apply_completions_characterization(r1, cs.drop_first());
    }
}

proof fn lemma_first_match_some_implies_contains(cs: Seq<(u64, Outcome)>, t: u64)
    requires
        first_match(cs, t) is Some,
    ensures
        cs.contains((t, first_match(cs, t)->Some_0)),
    decreases cs.len(),
{
    if cs.first().0 == t {
        assert(cs[0] == (t, first_match(cs, t)->Some_0));
    } else {
        lemma_first_match_some_implies_contains(cs.drop_first(), t);
        let o = first_match(cs.drop_first(), t)->Some_0;
        let i = choose|i: int| 0 <= i < cs.drop_first().len() && cs.drop_first()[i] == (t, o);
        assert(cs[i + 1] == (t, o));
    }
}

proof fn lemma_contains_implies_first_match(cs: Seq<(u64, Outcome)>, t: u64, o: Outcome)
    requires
        distinct_tags(cs),
        cs.contains((t, o)),
    ensures
        first_match(cs, t) == Some(o),
    decreases cs.len(),
{
    let i = choose|i: int| 0 <= i < cs.len() && cs[i] == (t, o);
    if cs.first().0 == t {
        // Any later completion tagged t would repeat the first one's tag.
        assert(i == 0);
    } else {
        assert(cs.drop_first()[i - 1] == (t, o));
        lemma_contains_implies_first_match(cs.drop_first(), t, o);
    }
}

proof fn lemma_first_match_transfers(cs1: Seq<(u64, Outcome)>, cs2: Seq<(u64, Outcome)>, t: u64)
    requires
        cs1.to_multiset() == cs2.to_multiset(),
        distinct_tags(cs1),
        distinct_tags(cs2),
    ensures
        first_match(cs1, t) == first_match(cs2, t),
{
    broadcast use vstd::seq_lib::group_to_multiset_ensures;

    match first_match(cs1, t) {
        Some(o) => {
            lemma_first_match_some_implies_contains(cs1, t);
            assert(cs1.to_multiset().count((t, o)) > 0);
            assert(cs2.contains((t, o)));
            lemma_contains_implies_first_match(cs2, t, o);
        },
        None => {
            match first_match(cs2, t) {
                Some(o) => {
                    lemma_first_match_some_implies_contains(cs2, t);
                    assert(cs2.to_multiset().count((t, o)) > 0);
                    assert(cs1.contains((t, o)));
                    lemma_contains_implies_first_match(cs1, t, o);
                },
                None => {},
            }
        },
    }
}

/// No-stale-overwrite law: the state a resource settles into depends only on
/// which tagged completions arrived, never on the order they arrived in.
/// Two interleavings that deliver the same set of completions — each
/// invocation completing at most once — leave the resource in the same
/// state, because only the completion tagged with the latest started
/// invocation is ever written and every other one is dropped.
pub proof fn lemma_completion_order_irrelevant(
    r: Resource,
    cs1: Seq<(u64, Outcome)>,
    cs2: Seq<(u64, Outcome)>,
)
    requires
        cs1.to_multiset() == cs2.to_multiset(),
        distinct_tags(cs1),
        distinct_tags(cs2),
    ensures
        apply_completions(r, cs1) == apply_completions(r, cs2),
{
    lemma_apply_completions_characterization(r, cs1);
    lemma_apply_completions_characterization(r, cs2);
    lemma_first_match_transfers(cs1, cs2, r.seq);
    assert(apply_completions(r, cs1) =~= apply_completions(r, cs2));
}

} // verus!
