use vstd::prelude::*;

use crate::fractal::{apply_log, jitters_ok, region_fits, run_order, FractalRegion, FractalSubdivider};
use crate::gen_run::{advanced, step_spec, GenStep, Tracker, PROGRESS_ONE};
use crate::map_data::BitImage;
use crate::map_mutators::{
    average_by_neighbor, drops_inside, neighbor_mean, tick, write_samples, Area, ReverseRain,
};
use crate::randstruct::RandStruct;

verus! {

/// Droplets spawned at the start of the erosion stage.
pub const EROSION_DROPS: usize = 1000;

/// Strength of each droplet, in elevation units.
pub const EROSION_STRENGTH: i32 = 64;

/// Erosion ticks after which droplets still climbing are retired.
pub const EROSION_MAX_TICKS: u32 = 500;

/// Smoothing passes that make up the smoothing stage.
pub const SMOOTHING_PASSES: u32 = 5;

/// Fractal jitter width per unit of region width.
pub const FRACTAL_JITTER_SCALE: u32 = 64;

/// One generation run: the field, the stage tracker and the transient
/// work of the incremental stages, all owned together so that a reset
/// discards everything at once.
pub struct Generation {
    map: BitImage,
    tracker: Tracker,
    unit_count: usize,
    fractal: FractalSubdivider,
    drops: Vec<ReverseRain>,
    erosion_started: bool,
    erosion_ticks: u32,
}

impl Generation {
    pub closed spec fn field(&self) -> BitImage {
        self.map
    }

    pub closed spec fn stage(&self) -> Tracker {
        self.tracker
    }

    pub closed spec fn units(&self) -> usize {
        self.unit_count
    }

    /// Number of live droplets.
    pub closed spec fn live_drops(&self) -> nat {
        self.drops@.len()
    }

    /// The live droplets.
    pub closed spec fn drops(&self) -> Seq<ReverseRain> {
        self.drops@
    }

    /// The fractal work of the run.
    pub closed spec fn fractal(&self) -> FractalSubdivider {
        self.fractal
    }

    /// The erosion stage has spawned its droplets.
    pub closed spec fn erosion_started(&self) -> bool {
        self.erosion_started
    }

    /// Erosion ticks run since the droplets were spawned.
    pub closed spec fn erosion_ticks(&self) -> u32 {
        self.erosion_ticks
    }

    /// Nothing of a run has happened yet: stage 0, no fractal region
    /// processed, no droplet spawned.
    pub open spec fn fresh(&self) -> bool {
        &&& self.stage() == Tracker::default_spec()
        &&& self.fractal().root() == Self::full_region(self.units())
        &&& self.fractal().pending() == seq![Self::full_region(self.units())]
        &&& self.fractal().written() == Set::<(int, int)>::empty()
        &&& self.fractal().scale() == FRACTAL_JITTER_SCALE
        &&& self.live_drops() == 0
        &&& !self.erosion_started()
        &&& self.erosion_ticks() == 0
    }

    pub closed spec fn wf(&self) -> bool {
        &&& self.map.wf()
        &&& self.map@.edge == self.unit_count + 1
        &&& self.unit_count < u32::MAX
        &&& self.fractal.wf(self.map@.edge)
        &&& drops_inside(self.map@, self.drops@)
        &&& self.tracker.current_stage < u32::MAX
        &&& self.tracker.max_stage == 6
    }

    /// The whole grid as a fractal region.
    pub open spec fn full_region(unit_count: usize) -> FractalRegion {
        FractalRegion { x1: 0, y1: 0, x2: unit_count, y2: unit_count }
    }

    /// A fresh run over a grid of `unit_count` cells per edge: a flat field,
    /// stage 0 of 6, no droplets, the fractal work set up over the whole grid.
    pub fn new(unit_count: usize) -> (r: Self)
        requires
            unit_count < u32::MAX,
            (unit_count + 1) * (unit_count + 1) <= usize::MAX,
        ensures
            r.wf(),
            r.units() == unit_count,
            r.field()@.edge == unit_count + 1,
            forall|x: int, y: int| r.field()@.in_bounds(x, y) ==> #[trigger] r.field()@.at(x, y) == 0,
            r.fresh(),
    {
        let map = BitImage::new(unit_count);
        let fractal = FractalSubdivider::new(
            FractalRegion { x1: 0, y1: 0, x2: unit_count, y2: unit_count },
            FRACTAL_JITTER_SCALE,
        );
        proof {
            assert(region_fits(Self::full_region(unit_count), map@.edge));
        }
        Generation {
            map,
            tracker: Tracker::default(),
            unit_count,
            fractal,
            drops: Vec::new(),
            erosion_started: false,
            erosion_ticks: 0,
        }
    }

    /// Abandons the run and starts afresh over the same grid.
    pub fn reset(&mut self)
        requires
            old(self).wf(),
        ensures
            final(self).wf(),
            final(self).units() == old(self).units(),
            final(self).field()@.edge == old(self).field()@.edge,
            forall|x: int, y: int|
                final(self).field()@.in_bounds(x, y) ==> #[trigger] final(self).field()@.at(x, y) == 0,
            final(self).fresh(),
    {
        proof {
            self.map.lemma_valid();
        }
        *self = Generation::new(self.unit_count);
    }

    /// The field as generated so far.
    pub fn height_map(&self) -> (r: &BitImage)
        ensures
            r == self.field(),
    {
        &self.map
    }

    /// The stage tracker.
    pub fn tracker(&self) -> (r: Tracker)
        ensures
            r == self.stage(),
    {
        self.tracker
    }

    /// What the driver has to do next.
    pub fn current_step(&self) -> (r: GenStep)
        ensures
            r == step_spec(self.stage().current_stage, self.stage().max_stage),
    {
        self.tracker.current_step()
    }

    /// The warm-up stage: nothing to do, move on.
    pub fn warm_up(&mut self)
        requires
            old(self).wf(),
            step_spec(old(self).stage().current_stage, old(self).stage().max_stage) == GenStep::WarmUp,
        ensures
            final(self).wf(),
            final(self).field() == old(self).field(),
            final(self).stage() == advanced(old(self).stage(), PROGRESS_ONE),
    {
        self.tracker.add_progress(PROGRESS_ONE);
    }

    /// The noise stage: overwrite the whole field with `samples` (row by
    /// row) and move on.
    pub fn apply_noise(&mut self, samples: &Vec<Vec<i32>>)
        requires
            old(self).wf(),
            step_spec(old(self).stage().current_stage, old(self).stage().max_stage) == GenStep::Noise,
            samples@.len() == old(self).units() + 1,
            forall|j: int| 0 <= j < samples@.len() ==> (#[trigger] samples@[j])@.len() == old(self).units() + 1,
        ensures
            final(self).wf(),
            forall|x: int, y: int|
                final(self).field()@.in_bounds(x, y) ==> #[trigger] final(self).field()@.at(x, y)
                    == samples@[y]@[x],
            final(self).stage() == advanced(old(self).stage(), PROGRESS_ONE),
    {
        proof {
            self.map.lemma_valid();
        }
        let area = Area::full(self.unit_count);
        let _ = write_samples(&mut self.map, area, samples);
        proof {
            assert(drops_inside(self.map@, self.drops@));
        }
        self.tracker.add_progress(PROGRESS_ONE);
    }

    /// The fractal stage: process up to `budget` regions; once none is left,
    /// move on.
    pub fn fractal_tick(&mut self, rand: &mut RandStruct, budget: usize)
        requires
            old(self).wf(),
            step_spec(old(self).stage().current_stage, old(self).stage().max_stage) == GenStep::Fractal,
        ensures
            final(self).wf(),
            final(self).units() == old(self).units(),
            final(self).drops() == old(self).drops(),
            final(self).fractal().root() == old(self).fractal().root(),
            final(self).fractal().scale() == old(self).fractal().scale(),
            final(self).fractal().remaining() == (if budget < old(self).fractal().remaining() {
                old(self).fractal().remaining() - budget
            } else {
                0
            }),
            exists|regs: Seq<FractalRegion>, js: Seq<i32>|
                #![trigger apply_log(old(self).field()@, regs, js)]
                jitters_ok(regs, js, old(self).fractal().scale()) && final(self).field()@ == apply_log(
                    old(self).field()@,
                    regs,
                    js,
                ) && regs + run_order(final(self).fractal().pending(), final(self).fractal().remaining())
                    == run_order(old(self).fractal().pending(), old(self).fractal().remaining()),
            final(self).fractal().pending().len() == 0 ==> final(self).stage() == advanced(
                old(self).stage(),
                PROGRESS_ONE,
            ),
            final(self).fractal().pending().len() > 0 ==> final(self).stage() == old(self).stage(),
    {
        proof {
            self.map.lemma_valid();
        }
        let ghost m0 = self.map@;
        let ghost f0 = self.fractal;
        self.fractal.run_steps(&mut self.map, rand, budget);
        proof {
            assert(drops_inside(self.map@, self.drops@));
        }
        if self.fractal.is_done() {
            self.tracker.add_progress(PROGRESS_ONE);
        }
        proof {
            let (regs, js) = choose|regs: Seq<FractalRegion>, js: Seq<i32>|
                jitters_ok(regs, js, f0.scale()) && self.map@ == apply_log(m0, regs, js) && regs + run_order(
                    self.fractal.pending(),
                    self.fractal.remaining(),
                ) == run_order(f0.pending(), f0.remaining());
            assert(self.fractal() == self.fractal);
            assert(old(self).field()@ == m0);
            assert(old(self).fractal() == f0);
            assert(jitters_ok(regs, js, old(self).fractal().scale()));
            assert(self.field()@ == apply_log(old(self).field()@, regs, js));
            assert(regs + run_order(self.fractal().pending(), self.fractal().remaining()) == run_order(
                f0.pending(),
                f0.remaining(),
            ));
        }
    }

    /// The erosion stage: the first tick spawns the droplets, each later one
    /// moves them; when none is left, or the tick cap is reached (the rest
    /// are then retired), move on.
    pub fn erosion_tick(&mut self, rand: &mut RandStruct)
        requires
            old(self).wf(),
            step_spec(old(self).stage().current_stage, old(self).stage().max_stage) == GenStep::Erosion,
        ensures
            final(self).wf(),
            final(self).units() == old(self).units(),
            final(self).fractal() == old(self).fractal(),
            !old(self).erosion_started() ==> {
                &&& final(self).erosion_started()
                &&& final(self).erosion_ticks() == 0
                &&& final(self).live_drops() == EROSION_DROPS
                &&& forall|i: int|
                    0 <= i < EROSION_DROPS ==> (#[trigger] final(self).drops()[i]).strength
                        == EROSION_STRENGTH
                &&& final(self).field() == old(self).field()
                &&& final(self).stage() == old(self).stage()
            },
            old(self).erosion_started() && old(self).live_drops() > 0 && old(self).erosion_ticks()
                < EROSION_MAX_TICKS ==> {
                &&& (final(self).field()@, final(self).drops()) == tick(old(self).field()@, old(self).drops())
                &&& final(self).erosion_ticks() == old(self).erosion_ticks() + 1
                &&& final(self).erosion_started()
                &&& final(self).stage() == old(self).stage()
            },
            old(self).erosion_started() && (old(self).live_drops() == 0 || old(self).erosion_ticks()
                >= EROSION_MAX_TICKS) ==> {
                &&& final(self).live_drops() == 0
                &&& final(self).field() == old(self).field()
                &&& final(self).stage() == advanced(old(self).stage(), PROGRESS_ONE)
            },
    {
        if !self.erosion_started {
            let area = Area::full(self.unit_count);
            self.drops = ReverseRain::spawn_batch(rand, area, EROSION_DROPS, EROSION_STRENGTH);
            self.erosion_started = true;
            self.erosion_ticks = 0;
            return;
        }
        if self.drops.len() > 0 && self.erosion_ticks < EROSION_MAX_TICKS {
            ReverseRain::run_tick(&mut self.drops, &mut self.map);
            self.erosion_ticks = self.erosion_ticks + 1;
            proof {
                assert(self.fractal.wf(self.map@.edge));
            }
            return;
        }
        self.drops = Vec::new();
        self.tracker.add_progress(PROGRESS_ONE);
    }

    /// One pass of the smoothing stage over the whole field; the stage takes
    /// `SMOOTHING_PASSES` of them.
    pub fn smooth_tick(&mut self)
        requires
            old(self).wf(),
            step_spec(old(self).stage().current_stage, old(self).stage().max_stage) == GenStep::Smoothing,
        ensures
            final(self).wf(),
            final(self).units() == old(self).units(),
            final(self).field()@.edge == old(self).field()@.edge,
            forall|x: int, y: int|
                old(self).field()@.in_bounds(x, y) ==> #[trigger] final(self).field()@.at(x, y)
                    == neighbor_mean(old(self).field()@, x, y),
            final(self).stage() == advanced(old(self).stage(), PROGRESS_ONE / SMOOTHING_PASSES),
    {
        let area = Area::full(self.unit_count);
        let _ = average_by_neighbor(&mut self.map, area);
        proof {
            assert(drops_inside(self.map@, self.drops@));
            assert(self.fractal.wf(self.map@.edge));
        }
        self.tracker.add_progress(PROGRESS_ONE / SMOOTHING_PASSES);
    }

    /// The mesh stage, once the mesh has been built from the field: move on.
    pub fn mesh_built(&mut self)
        requires
            old(self).wf(),
            step_spec(old(self).stage().current_stage, old(self).stage().max_stage) == GenStep::BuildMesh,
        ensures
            final(self).wf(),
            final(self).field() == old(self).field(),
            final(self).stage() == advanced(old(self).stage(), PROGRESS_ONE),
    {
        self.tracker.add_progress(PROGRESS_ONE);
    }
}

} // verus!
