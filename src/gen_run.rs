use vstd::prelude::*;

verus! {

/// Progress units that make up one whole stage.
pub const PROGRESS_ONE: u32 = 1000;

/// What the generation driver does at a stage.
#[derive(Debug, Clone, Copy, PartialEq, Eq, Structural)]
pub enum GenStep {
    WarmUp,
    Noise,
    Fractal,
    Erosion,
    Smoothing,
    BuildMesh,
    Finish,
}

/// The fixed dispatch table from stage index to generation step, for a
/// pipeline of `max_stage` stages.
pub open spec fn step_spec(stage: u32, max_stage: u32) -> GenStep {
    if stage >= max_stage {
        GenStep::Finish
    } else if stage == 0 {
        GenStep::WarmUp
    } else if stage == 1 {
        GenStep::Noise
    } else if stage == 2 {
        GenStep::Fractal
    } else if stage == 3 {
        GenStep::Erosion
    } else if stage == 4 {
        GenStep::Smoothing
    } else if stage == 5 {
        GenStep::BuildMesh
    } else {
        GenStep::Finish
    }
}

/// Staged progress: the current stage and the progress made within it, in
/// units of `PROGRESS_ONE` per stage.
#[derive(Debug, Clone, Copy, PartialEq, Eq, Structural)]
pub struct Tracker {
    pub current_stage: u32,
    pub current_step_progress: u32,
    pub max_stage: u32,
}

/// The tracker after adding `delta` progress units: reaching a whole stage
/// moves to the next one with the progress reset to 0, whatever the excess.
pub open spec fn advanced(t: Tracker, delta: u32) -> Tracker {
    if t.current_step_progress + delta >= PROGRESS_ONE {
        Tracker { current_stage: (t.current_stage + 1) as u32, current_step_progress: 0, ..t }
    } else {
        Tracker { current_step_progress: (t.current_step_progress + delta) as u32, ..t }
    }
}

/// Overall completion in percent: `(stage + progress) / max_stage`, rounded
/// down and held to `0..=100`; 100 for a pipeline of no stages.
pub open spec fn percent_spec(t: Tracker) -> int {
    if t.max_stage == 0 {
        100
    } else {
        let p = (t.current_stage * PROGRESS_ONE + t.current_step_progress) * 100 / (t.max_stage
            * PROGRESS_ONE);
        if p > 100 {
            100
        } else {
            p
        }
    }
}

impl Tracker {
    /// A fresh tracker of the six-stage pipeline.
    pub open spec fn default_spec() -> Tracker {
        Tracker { current_stage: 0, current_step_progress: 0, max_stage: 6 }
    }
}

impl Default for Tracker {
    fn default() -> (r: Self)
        ensures
            r == Tracker::default_spec(),
    {
        Tracker { current_stage: 0, current_step_progress: 0, max_stage: 6 }
    }
}

impl Tracker {
    /// Adds `delta` progress units to the current stage.
    pub fn add_progress(&mut self, delta: u32)
        requires
            old(self).current_stage < u32::MAX,
        ensures
            *final(self) == advanced(*old(self), delta),
    {
        if self.current_step_progress >= PROGRESS_ONE || delta >= PROGRESS_ONE
            - self.current_step_progress {
            self.current_step_progress = 0;
            self.current_stage = self.current_stage + 1;
        } else {
            self.current_step_progress = self.current_step_progress + delta;
        }
    }

    /// The generation step for the current stage.
    pub fn current_step(&self) -> (r: GenStep)
        ensures
            r == step_spec(self.current_stage, self.max_stage),
    {
        if self.current_stage >= self.max_stage {
            GenStep::Finish
        } else if self.current_stage == 0 {
            GenStep::WarmUp
        } else if self.current_stage == 1 {
            GenStep::Noise
        } else if self.current_stage == 2 {
            GenStep::Fractal
        } else if self.current_stage == 3 {
            GenStep::Erosion
        } else if self.current_stage == 4 {
            GenStep::Smoothing
        } else if self.current_stage == 5 {
            GenStep::BuildMesh
        } else {
            GenStep::Finish
        }
    }

    /// Overall completion for a progress display, in `0..=100` percent.
    pub fn progress_percent(&self) -> (r: u32)
        ensures
            r == percent_spec(*self),
            r <= 100,
    {
        if self.max_stage == 0 {
            return 100;
        }
        proof {
            assert(self.current_stage as u64 * 1000 <= 0xFFFF_FFFFu64 * 1000) by (nonlinear_arith)
                requires
                    self.current_stage <= 0xFFFF_FFFFu32,
            ;
            assert(self.max_stage as u64 * 1000 >= 1000) by (nonlinear_arith)
                requires
                    self.max_stage >= 1,
            ;
        }
        let done: u64 = self.current_stage as u64 * PROGRESS_ONE as u64
            + self.current_step_progress as u64;
        let total: u64 = self.max_stage as u64 * PROGRESS_ONE as u64;
        let p = done * 100 / total;
        if p > 100 {
            100
        } else {
            p as u32
        }
    }

    /// Back to the first stage with no progress; the number of stages stays.
    pub fn reset(&mut self)
        ensures
            *final(self) == (Tracker { current_stage: 0, current_step_progress: 0, ..*old(self) }),
    {
        self.current_stage = 0;
        self.current_step_progress = 0;
    }
}

/// Adding progress never moves back and never moves on more than one stage,
/// and the progress within a stage stays below a whole one.
pub proof fn lemma_progress_one_stage(t: Tracker, delta: u32)
    requires
        t.current_step_progress < PROGRESS_ONE,
        t.current_stage < u32::MAX,
    ensures
        advanced(t, delta).current_stage == t.current_stage || advanced(t, delta).current_stage
            == t.current_stage + 1,
        advanced(t, delta).current_step_progress < PROGRESS_ONE,
        advanced(t, delta).current_stage == t.current_stage + 1 <==> t.current_step_progress
            + delta >= PROGRESS_ONE,
        advanced(t, delta).max_stage == t.max_stage,
{
}

} // verus!
