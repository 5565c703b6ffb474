//! The seven phases of a scheduler tick, in their fixed cyclic order.

use vstd::prelude::*;

verus! {

/// One step of the fixed per-tick cycle. The declaration order here is the
/// order in which a tick walks the phases.
#[derive(Debug, PartialEq, Eq, Structural, Hash, Clone, Copy)]
pub enum Phase {
    Ticking,
    PreProcessing,
    Processing,
    PostProcessing,
    BackgroundEnd,
    BackgroundStart,
    Movement,
}

pub const PHASE_COUNT: usize = 7;

impl Phase {
    /// The position of this phase within the cycle.
    pub open spec fn spec_index(self) -> int {
        match self {
            Phase::Ticking => 0,
            Phase::PreProcessing => 1,
            Phase::Processing => 2,
            Phase::PostProcessing => 3,
            Phase::BackgroundEnd => 4,
            Phase::BackgroundStart => 5,
            Phase::Movement => 6,
        }
    }

    /// The phase sitting at a given position of the cycle.
    pub open spec fn spec_from_index(i: int) -> Phase {
        if i == 0 {
            Phase::Ticking
        } else if i == 1 {
            Phase::PreProcessing
        } else if i == 2 {
            Phase::Processing
        } else if i == 3 {
            Phase::PostProcessing
        } else if i == 4 {
            Phase::BackgroundEnd
        } else if i == 5 {
            Phase::BackgroundStart
        } else {
            Phase::Movement
        }
    }

    /// The display name of this phase, used to derive its marker event.
    pub open spec fn spec_name(self) -> Seq<char> {
        match self {
            Phase::Ticking => "Ticking"@,
            Phase::PreProcessing => "PreProcessing"@,
            Phase::Processing => "Processing"@,
            Phase::PostProcessing => "PostProcessing"@,
            Phase::BackgroundEnd => "BackgroundEnd"@,
            Phase::BackgroundStart => "BackgroundStart"@,
            Phase::Movement => "Movement"@,
        }
    }

    pub fn index(&self) -> (i: usize)
        ensures
            i == self.spec_index(),
    {
        match self {
            Phase::Ticking => 0,
            Phase::PreProcessing => 1,
            Phase::Processing => 2,
            Phase::PostProcessing => 3,
            Phase::BackgroundEnd => 4,
            Phase::BackgroundStart => 5,
            Phase::Movement => 6,
        }
    }

    pub fn name(&self) -> (r: &'static str)
        ensures
            r@ == self.spec_name(),
    {
        match self {
            Phase::Ticking => "Ticking",
            Phase::PreProcessing => "PreProcessing",
            Phase::Processing => "Processing",
            Phase::PostProcessing => "PostProcessing",
            Phase::BackgroundEnd => "BackgroundEnd",
            Phase::BackgroundStart => "BackgroundStart",
            Phase::Movement => "Movement",
        }
    }

    /// All phases, in cycle order.
    pub fn all() -> (r: Vec<Phase>)
        ensures
            r@.len() == PHASE_COUNT,
            forall|i: int| 0 <= i < r@.len() ==> r@[i] == #[trigger] Phase::spec_from_index(i),
            forall|i: int| 0 <= i < r@.len() ==> (#[trigger] r@[i]).spec_index() == i,
    {
        let mut v: Vec<Phase> = Vec::new();
        v.push(Phase::Ticking);
        v.push(Phase::PreProcessing);
        v.push(Phase::Processing);
        v.push(Phase::PostProcessing);
        v.push(Phase::BackgroundEnd);
        v.push(Phase::BackgroundStart);
        v.push(Phase::Movement);
        v
    }

    /// Whether this is one of the three foreground execution steps.
    pub open spec fn spec_is_foreground(self) -> bool {
        self == Phase::PreProcessing || self == Phase::Processing || self == Phase::PostProcessing
    }

    pub fn is_foreground(&self) -> (r: bool)
        ensures
            r == self.spec_is_foreground(),
    {
        match self {
            Phase::PreProcessing => true,
            Phase::Processing => true,
            Phase::PostProcessing => true,
            _ => false,
        }
    }
}

/// Distinct phases have distinct positions in the cycle.
pub proof fn lemma_phase_index_injective(a: Phase, b: Phase)
    ensures
        a.spec_index() == b.spec_index() ==> a == b,
{
}

} // verus!
