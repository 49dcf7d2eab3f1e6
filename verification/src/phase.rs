use vstd::prelude::*;

verus! {

/// What a boundary currently shows.
#[derive(Clone, Copy, PartialEq, Eq, Structural, Debug)]
pub enum BoundaryPhase {
    /// The fallback view is on display.
    Fallback,
    /// The real children are on display.
    Resolved,
}

/// What one render pass emits for a boundary.
#[derive(Clone, Copy, PartialEq, Eq, Structural, Debug)]
pub enum EmitKind {
    /// Nothing changed; nothing is emitted.
    Quiet,
    /// The boundary (re-)entered fallback and emits the fallback view once.
    EmitFallback,
    /// The boundary resolved and emits its real content once.
    EmitContent,
}

/// One render pass over a boundary whose subtree is currently settled or
/// not: the phase moves toward what the subtree dictates, and something is
/// emitted only on a transition.
pub open spec fn spec_phase_step(p: BoundaryPhase, settled: bool) -> (BoundaryPhase, EmitKind) {
    match (p, settled) {
        (BoundaryPhase::Fallback, true) => (BoundaryPhase::Resolved, EmitKind::EmitContent),
        (BoundaryPhase::Fallback, false) => (BoundaryPhase::Fallback, EmitKind::Quiet),
        (BoundaryPhase::Resolved, true) => (BoundaryPhase::Resolved, EmitKind::Quiet),
        (BoundaryPhase::Resolved, false) => (BoundaryPhase::Fallback, EmitKind::EmitFallback),
    }
}

/// Advance a boundary's phase for one render pass.
pub fn phase_step(p: BoundaryPhase, settled: bool) -> (r: (BoundaryPhase, EmitKind))
    ensures
        r == spec_phase_step(p, settled),
{
    match (p, settled) {
        (BoundaryPhase::Fallback, true) => (BoundaryPhase::Resolved, EmitKind::EmitContent),
        (BoundaryPhase::Fallback, false) => (BoundaryPhase::Fallback, EmitKind::Quiet),
        (BoundaryPhase::Resolved, true) => (BoundaryPhase::Resolved, EmitKind::Quiet),
        (BoundaryPhase::Resolved, false) => (BoundaryPhase::Fallback, EmitKind::EmitFallback),
    }
}

/// The phase left behind by a run of passes whose settled flags are `bs`.
pub open spec fn phase_after(p: BoundaryPhase, bs: Seq<bool>) -> BoundaryPhase
    decreases bs.len(),
{
    if bs.len() == 0 {
        p
    } else {
        phase_after(spec_phase_step(p, bs.first()).0, bs.drop_first())
    }
}

/// How many of the passes in `bs` emit the fallback view.
pub open spec fn fallback_emissions(p: BoundaryPhase, bs: Seq<bool>) -> nat
    decreases bs.len(),
{
    if bs.len() == 0 {
        0
    } else {
        (if spec_phase_step(p, bs.first()).1 == EmitKind::EmitFallback {
            1nat
        } else {
            0nat
        }) + fallback_emissions(spec_phase_step(p, bs.first()).0, bs.drop_first())
    }
}

/// How many of the passes in `bs` emit real content.
pub open spec fn content_emissions(p: BoundaryPhase, bs: Seq<bool>) -> nat
    decreases bs.len(),
{
    if bs.len() == 0 {
        0
    } else {
        (if spec_phase_step(p, bs.first()).1 == EmitKind::EmitContent {
            1nat
        } else {
            0nat
        }) + content_emissions(spec_phase_step(p, bs.first()).0, bs.drop_first())
    }
}

/// Transitions of the settled flag from true to false across `bs`, with
/// `prev` the flag before the first pass.
pub open spec fn falling_edges(prev: bool, bs: Seq<bool>) -> nat
    decreases bs.len(),
{
    if bs.len() == 0 {
        0
    } else {
        (if prev && !bs.first() {
            1nat
        } else {
            0nat
        }) + falling_edges(bs.first(), bs.drop_first())
    }
}

/// Transitions of the settled flag from false to true across `bs`.
pub open spec fn rising_edges(prev: bool, bs: Seq<bool>) -> nat
    decreases bs.len(),
{
    if bs.len() == 0 {
        0
    } else {
        (if !prev && bs.first() {
            1nat
        } else {
            0nat
        }) + rising_edges(bs.first(), bs.drop_first())
    }
}

/// Boundary re-entry law: over any run of render passes, a boundary emits
/// its fallback exactly once for each change that takes its subtree from
/// settled back to unsettled, and its content exactly once for each change
/// back — never a duplicate emission for the same change.
pub proof fn lemma_emissions_match_edges(p: BoundaryPhase, bs: Seq<bool>)
    ensures
        fallback_emissions(p, bs) == falling_edges(p == BoundaryPhase::Resolved, bs),
        content_emissions(p, bs) == rising_edges(p == BoundaryPhase::Resolved, bs),
    decreases bs.len(),
{
    if bs.len() > 0 {
        lemma_emissions_match_edges(spec_phase_step(p, bs.first()).0, bs.drop_first());
    }
}

} // verus!
