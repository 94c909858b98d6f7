use vstd::prelude::*;

use crate::map_data::{lemma_edit_keeps_valid, BitImage, FieldEdit, HeightMap};
use crate::map_mutators::trunc_div;
use crate::randstruct::RandStruct;

verus! {

/// A rectangle of the grid given by two opposite corners, bounds included.
#[derive(Debug, Clone, Copy, PartialEq, Eq, Structural)]
pub struct FractalRegion {
    pub x1: usize,
    pub y1: usize,
    pub x2: usize,
    pub y2: usize,
}

impl FractalRegion {
    pub open spec fn half_w(self) -> int {
        (self.x2 - self.x1) / 2
    }

    pub open spec fn half_h(self) -> int {
        (self.y2 - self.y1) / 2
    }

    /// The region is still wide and tall enough to be split.
    pub open spec fn splits(self) -> bool {
        self.half_w() > 0 && self.half_h() > 0
    }

    pub open spec fn mid_x(self) -> int {
        self.x1 + self.half_w()
    }

    pub open spec fn mid_y(self) -> int {
        self.y1 + self.half_h()
    }

    pub open spec fn in_box(self, x: int, y: int) -> bool {
        self.x1 <= x <= self.x2 && self.y1 <= y <= self.y2
    }

    pub open spec fn is_corner(self, x: int, y: int) -> bool {
        (x == self.x1 || x == self.x2) && (y == self.y1 || y == self.y2)
    }

    /// The four quadrants, sharing the region's middle lines.
    pub open spec fn children(self) -> Seq<FractalRegion> {
        let mx = self.mid_x() as usize;
        let my = self.mid_y() as usize;
        seq![
            FractalRegion { x1: self.x1, y1: self.y1, x2: mx, y2: my },
            FractalRegion { x1: mx, y1: self.y1, x2: self.x2, y2: my },
            FractalRegion { x1: self.x1, y1: my, x2: mx, y2: self.y2 },
            FractalRegion { x1: mx, y1: my, x2: self.x2, y2: self.y2 },
        ]
    }

    /// The cells one step on this region writes: the midpoints of the top,
    /// right, bottom and left edges, and the centre.
    pub open spec fn step_cells(self) -> Set<(int, int)> {
        if self.splits() {
            set![
                (self.mid_x(), self.y1 as int),
                (self.x2 as int, self.mid_y()),
                (self.mid_x(), self.y2 as int),
                (self.x1 as int, self.mid_y()),
                (self.mid_x(), self.mid_y()),
            ]
        } else {
            Set::empty()
        }
    }

    pub open spec fn extent(self) -> int {
        (self.x2 - self.x1) + (self.y2 - self.y1)
    }

    /// Every cell written by subdividing this region to the end.
    pub open spec fn covered(self) -> Set<(int, int)>
        decreases self.extent(),
    {
        if self.splits() {
            let c = self.children();
            self.step_cells().union(c[0].covered()).union(c[1].covered()).union(
                c[2].covered(),
            ).union(c[3].covered())
        } else {
            Set::empty()
        }
    }

    /// Number of regions processed in subdividing this region to the end.
    pub open spec fn tree_size(self) -> nat
        decreases self.extent(),
    {
        if self.splits() {
            let c = self.children();
            1 + c[0].tree_size() + c[1].tree_size() + c[2].tree_size() + c[3].tree_size()
        } else {
            1
        }
    }
}

/// `n` is a power of two.
pub open spec fn is_pow2(n: nat) -> bool
    decreases n,
{
    if n <= 1 {
        n == 1
    } else {
        n % 2 == 0 && is_pow2(n / 2)
    }
}

/// Subdividing a square region whose side is a power of two writes every
/// cell of it but the four corners, and nothing outside it.
pub proof fn lemma_pow2_square_covered(r: FractalRegion)
    requires
        r.x1 <= r.x2,
        r.y1 <= r.y2,
        r.x2 - r.x1 == r.y2 - r.y1,
        is_pow2((r.x2 - r.x1) as nat),
    ensures
        forall|x: int, y: int|
            #[trigger] r.covered().contains((x, y)) <==> (r.in_box(x, y) && !r.is_corner(x, y)),
    decreases r.extent(),
{
    let n = r.x2 - r.x1;
    if n == 1 {
        assert(r.half_w() == 0);
        assert(!r.splits());
        assert(r.covered() == Set::<(int, int)>::empty());
        assert forall|x: int, y: int| #[trigger] r.covered().contains((x, y)) <==> (r.in_box(x, y)
            && !r.is_corner(x, y)) by {
            assert(!r.covered().contains((x, y)));
            if r.in_box(x, y) {
                assert(x == r.x1 || x == r.x2);
                assert(y == r.y1 || y == r.y2);
            }
        }
    } else {
        let c = r.children();
        let h = n / 2;
        assert(r.half_w() == h && r.half_h() == h);
        assert(is_pow2(h as nat));
        assert(h >= 1);
        lemma_pow2_square_covered(c[0]);
        lemma_pow2_square_covered(c[1]);
        lemma_pow2_square_covered(c[2]);
        lemma_pow2_square_covered(c[3]);
        let mx = r.mid_x();
        let my = r.mid_y();
        assert(c[0] == FractalRegion { x1: r.x1, y1: r.y1, x2: mx as usize, y2: my as usize });
        assert(c[1] == FractalRegion { x1: mx as usize, y1: r.y1, x2: r.x2, y2: my as usize });
        assert(c[2] == FractalRegion { x1: r.x1, y1: my as usize, x2: mx as usize, y2: r.y2 });
        assert(c[3] == FractalRegion { x1: mx as usize, y1: my as usize, x2: r.x2, y2: r.y2 });
        assert(r.covered() == r.step_cells().union(c[0].covered()).union(c[1].covered()).union(
            c[2].covered(),
        ).union(c[3].covered()));
        assert forall|x: int, y: int| #[trigger] r.covered().contains((x, y)) <==> (r.in_box(x, y)
            && !r.is_corner(x, y)) by {
            if r.in_box(x, y) && !r.is_corner(x, y) {
                let k: int = if x <= mx {
                    if y <= my { 0 } else { 2 }
                } else {
                    if y <= my { 1 } else { 3 }
                };
                assert(c[k].in_box(x, y));
                if !c[k].is_corner(x, y) {
                    assert(c[k].covered().contains((x, y)));
                } else {
                    assert(r.step_cells().contains((x, y)));
                }
            }
            if r.covered().contains((x, y)) {
                if r.step_cells().contains((x, y)) {
                } else if c[0].covered().contains((x, y)) {
                } else if c[1].covered().contains((x, y)) {
                } else if c[2].covered().contains((x, y)) {
                } else {
                    assert(c[3].covered().contains((x, y)));
                }
            }
        }
    }
}

/// Largest width of the interval that a centre's jitter is drawn from.
pub const MAX_JITTER_RANGE: u32 = 0x4000_0000;

/// The mean of two elevations, rounded toward zero.
pub open spec fn mean2(a: i32, b: i32) -> i32 {
    trunc_div(a + b, 2) as i32
}

/// The mean of four elevations, rounded toward zero, plus `jitter`, held to
/// the range of `i32`.
pub open spec fn centre_value(a: i32, b: i32, c: i32, d: i32, jitter: i32) -> i32 {
    let v = trunc_div(a + b + c + d, 4) + jitter;
    if v > i32::MAX {
        i32::MAX
    } else if v < i32::MIN {
        i32::MIN
    } else {
        v as i32
    }
}

/// The field after one subdivision step on `r` with the given centre
/// jitter: edge midpoints take the mean of the two corners they lie between,
/// the centre the mean of all four plus the jitter; written top, right,
/// bottom, left, centre. A region too small to split is left alone.
pub open spec fn step_result(m: HeightMap, r: FractalRegion, jitter: i32) -> HeightMap {
    if r.splits() {
        let a = m.at(r.x1 as int, r.y1 as int);
        let b = m.at(r.x2 as int, r.y1 as int);
        let c = m.at(r.x1 as int, r.y2 as int);
        let d = m.at(r.x2 as int, r.y2 as int);
        m.write(r.mid_x(), r.y1 as int, mean2(a, b)).write(r.x2 as int, r.mid_y(), mean2(b, d)).write(
            r.mid_x(),
            r.y2 as int,
            mean2(c, d),
        ).write(r.x1 as int, r.mid_y(), mean2(a, c)).write(
            r.mid_x(),
            r.mid_y(),
            centre_value(a, b, c, d, jitter),
        )
    } else {
        m
    }
}

/// The region lies in a field of edge `edge`.
pub open spec fn region_fits(r: FractalRegion, edge: nat) -> bool {
    r.x1 <= r.x2 < edge && r.y1 <= r.y2 < edge
}

/// Half the width of the interval the centre jitter of `r` is drawn from:
/// the region's width times `scale`, capped.
pub open spec fn jitter_bound(r: FractalRegion, scale: u32) -> int {
    let w = (r.x2 - r.x1) * scale;
    (if w > MAX_JITTER_RANGE { MAX_JITTER_RANGE as int } else { w }) / 2
}

fn mean_of_two(a: i32, b: i32) -> (r: i32)
    ensures
        r == mean2(a, b),
{
    let s: i64 = a as i64 + b as i64;
    (s / 2) as i32
}

/// One subdivision step on `region`, with the centre jitter given: writes
/// the four edge midpoints and the centre, and returns the four quadrants
/// still to be processed (none when the region is too small to split).
pub fn process_region(map: &mut BitImage, region: FractalRegion, jitter: i32) -> (r: Vec<FractalRegion>)
    requires
        old(map).wf(),
        region_fits(region, old(map)@.edge),
    ensures
        final(map).wf(),
        final(map)@ == step_result(old(map)@, region, jitter),
        old(map)@.envelope_within(final(map)@),
        r@ == (if region.splits() { region.children() } else { Seq::empty() }),
{
    let hw = (region.x2 - region.x1) / 2;
    let hh = (region.y2 - region.y1) / 2;
    if hw == 0 || hh == 0 {
        return Vec::new();
    }
    let mx = region.x1 + hw;
    let my = region.y1 + hh;
    let a = map.get_ignore(region.x1, region.y1);
    let b = map.get_ignore(region.x2, region.y1);
    let c = map.get_ignore(region.x1, region.y2);
    let d = map.get_ignore(region.x2, region.y2);
    let s4: i64 = a as i64 + b as i64 + c as i64 + d as i64;
    let v: i64 = s4 / 4 + jitter as i64;
    let centre: i32 = if v > i32::MAX as i64 {
        i32::MAX
    } else if v < i32::MIN as i64 {
        i32::MIN
    } else {
        v as i32
    };
    let ghost m0 = map@;
    proof {
        map.lemma_valid();
        crate::map_data::lemma_edit_keeps_valid(
            m0,
            crate::map_data::FieldEdit::Write { x: mx as int, y: region.y1 as int, v: mean2(a, b) },
        );
    }
    let _ = map.point_set(mx, region.y1, mean_of_two(a, b));
    let ghost m1 = map@;
    proof {
        crate::map_data::lemma_edit_keeps_valid(
            m1,
            crate::map_data::FieldEdit::Write { x: region.x2 as int, y: my as int, v: mean2(b, d) },
        );
    }
    let _ = map.point_set(region.x2, my, mean_of_two(b, d));
    let ghost m2 = map@;
    proof {
        crate::map_data::lemma_edit_keeps_valid(
            m2,
            crate::map_data::FieldEdit::Write { x: mx as int, y: region.y2 as int, v: mean2(c, d) },
        );
    }
    let _ = map.point_set(mx, region.y2, mean_of_two(c, d));
    let ghost m3 = map@;
    proof {
        crate::map_data::lemma_edit_keeps_valid(
            m3,
            crate::map_data::FieldEdit::Write { x: region.x1 as int, y: my as int, v: mean2(a, c) },
        );
    }
    let _ = map.point_set(region.x1, my, mean_of_two(a, c));
    let ghost m4 = map@;
    proof {
        crate::map_data::lemma_edit_keeps_valid(
            m4,
            crate::map_data::FieldEdit::Write { x: mx as int, y: my as int, v: centre },
        );
    }
    let _ = map.point_set(mx, my, centre);
    let mut r: Vec<FractalRegion> = Vec::new();
    r.push(FractalRegion { x1: region.x1, y1: region.y1, x2: mx, y2: my });
    r.push(FractalRegion { x1: mx, y1: region.y1, x2: region.x2, y2: my });
    r.push(FractalRegion { x1: region.x1, y1: my, x2: mx, y2: region.y2 });
    r.push(FractalRegion { x1: mx, y1: my, x2: region.x2, y2: region.y2 });
    proof {
        assert(r@ =~= region.children());
    }
    r
}

/// The order in which `n` steps process the regions of the work stack `s`:
/// the last region first, its quadrants taking its place on the stack.
pub open spec fn run_order(s: Seq<FractalRegion>, n: nat) -> Seq<FractalRegion>
    decreases n,
{
    if n == 0 || s.len() == 0 {
        Seq::empty()
    } else {
        let r = s.last();
        seq![r] + run_order(
            s.drop_last() + (if r.splits() { r.children() } else { Seq::empty() }),
            (n - 1) as nat,
        )
    }
}

/// The field after the steps on `regs` in turn, the `i`-th with centre
/// jitter `js[i]`.
pub open spec fn apply_log(m: HeightMap, regs: Seq<FractalRegion>, js: Seq<i32>) -> HeightMap
    decreases regs.len(),
{
    if regs.len() == 0 || js.len() == 0 {
        m
    } else {
        step_result(apply_log(m, regs.drop_last(), js.drop_last()), regs.last(), js.last())
    }
}

/// One jitter per region, each within its region's bound.
pub open spec fn jitters_ok(regs: Seq<FractalRegion>, js: Seq<i32>, scale: u32) -> bool {
    &&& regs.len() == js.len()
    &&& forall|i: int|
        0 <= i < regs.len() ==> -jitter_bound(#[trigger] regs[i], scale) <= js[i] <= jitter_bound(
            regs[i],
            scale,
        )
}

/// One step writes only its own cells, and keeps the field well formed.
pub proof fn lemma_step_frame(m: HeightMap, r: FractalRegion, j: i32)
    requires
        m.valid(),
        region_fits(r, m.edge),
    ensures
        step_result(m, r, j).valid(),
        step_result(m, r, j).edge == m.edge,
        forall|x: int, y: int|
            m.in_bounds(x, y) && !r.step_cells().contains((x, y)) ==> #[trigger] step_result(m, r, j).at(x, y)
                == m.at(x, y),
{
    if r.splits() {
        let a = m.at(r.x1 as int, r.y1 as int);
        let b = m.at(r.x2 as int, r.y1 as int);
        let c = m.at(r.x1 as int, r.y2 as int);
        let d = m.at(r.x2 as int, r.y2 as int);
        let e1 = FieldEdit::Write { x: r.mid_x(), y: r.y1 as int, v: mean2(a, b) };
        let e2 = FieldEdit::Write { x: r.x2 as int, y: r.mid_y(), v: mean2(b, d) };
        let e3 = FieldEdit::Write { x: r.mid_x(), y: r.y2 as int, v: mean2(c, d) };
        let e4 = FieldEdit::Write { x: r.x1 as int, y: r.mid_y(), v: mean2(a, c) };
        let e5 = FieldEdit::Write { x: r.mid_x(), y: r.mid_y(), v: centre_value(a, b, c, d, j) };
        let m1 = m.apply(e1);
        let m2 = m1.apply(e2);
        let m3 = m2.apply(e3);
        let m4 = m3.apply(e4);
        let m5 = m4.apply(e5);
        lemma_edit_keeps_valid(m, e1);
        lemma_edit_keeps_valid(m1, e2);
        lemma_edit_keeps_valid(m2, e3);
        lemma_edit_keeps_valid(m3, e4);
        lemma_edit_keeps_valid(m4, e5);
        assert(m5 == step_result(m, r, j));
        assert forall|x: int, y: int|
            m.in_bounds(x, y) && !r.step_cells().contains((x, y)) implies #[trigger] m5.at(x, y) == m.at(x, y) by {
            assert(m1.at(x, y) == m.at(x, y));
            assert(m2.at(x, y) == m1.at(x, y));
            assert(m3.at(x, y) == m2.at(x, y));
            assert(m4.at(x, y) == m3.at(x, y));
            assert(m5.at(x, y) == m4.at(x, y));
        }
    }
}

/// Every cell that subdividing the regions of `s` to the end writes.
pub open spec fn stack_cover(s: Seq<FractalRegion>) -> Set<(int, int)>
    decreases s.len(),
{
    if s.len() == 0 {
        Set::empty()
    } else {
        stack_cover(s.drop_last()).union(s.last().covered())
    }
}

/// Number of regions still to be processed for the regions of `s`.
pub open spec fn stack_weight(s: Seq<FractalRegion>) -> nat
    decreases s.len(),
{
    if s.len() == 0 {
        0
    } else {
        stack_weight(s.drop_last()) + s.last().tree_size()
    }
}

proof fn lemma_push_children(s: Seq<FractalRegion>, r: FractalRegion)
    requires
        r.x1 <= r.x2,
        r.y1 <= r.y2,
        r.splits(),
    ensures
        stack_cover(s + r.children()).union(r.step_cells()) == stack_cover(s).union(r.covered()),
        stack_weight(s + r.children()) + 1 == stack_weight(s) + r.tree_size(),
{
    let c = r.children();
    let t = s + c;
    let t3 = s + seq![c[0], c[1], c[2]];
    let t2 = s + seq![c[0], c[1]];
    let t1 = s + seq![c[0]];
    assert(t.drop_last() =~= t3);
    assert(t3.drop_last() =~= t2);
    assert(t2.drop_last() =~= t1);
    assert(t1.drop_last() =~= s);
    assert(t.last() == c[3]);
    assert(t3.last() == c[2]);
    assert(t2.last() == c[1]);
    assert(t1.last() == c[0]);
    assert(stack_cover(t) == stack_cover(t3).union(c[3].covered()));
    assert(stack_cover(t3) == stack_cover(t2).union(c[2].covered()));
    assert(stack_cover(t2) == stack_cover(t1).union(c[1].covered()));
    assert(stack_cover(t1) == stack_cover(s).union(c[0].covered()));
    assert(stack_weight(t) == stack_weight(t3) + c[3].tree_size());
    assert(stack_weight(t3) == stack_weight(t2) + c[2].tree_size());
    assert(stack_weight(t2) == stack_weight(t1) + c[1].tree_size());
    assert(stack_weight(t1) == stack_weight(s) + c[0].tree_size());
    assert(r.covered() == r.step_cells().union(c[0].covered()).union(c[1].covered()).union(
        c[2].covered(),
    ).union(c[3].covered()));
    assert(r.tree_size() == 1 + c[0].tree_size() + c[1].tree_size() + c[2].tree_size()
        + c[3].tree_size());
    assert(stack_cover(t).union(r.step_cells()) =~= stack_cover(s).union(r.covered()));
}

/// Diamond-square subdivision run one region per step from a work stack, so
/// that a driver can spread it over many ticks. The cells that the steps
/// have written so far are recorded.
pub struct FractalSubdivider {
    stack: Vec<FractalRegion>,
    jitter_scale: u32,
    root: Ghost<FractalRegion>,
    written: Ghost<Set<(int, int)>>,
}

impl FractalSubdivider {
    /// The region the run started from.
    pub closed spec fn root(&self) -> FractalRegion {
        self.root@
    }

    /// The cells written by the steps so far.
    pub closed spec fn written(&self) -> Set<(int, int)> {
        self.written@
    }

    /// The regions waiting to be processed; the last one goes next.
    pub closed spec fn pending(&self) -> Seq<FractalRegion> {
        self.stack@
    }

    /// Jitter width per unit of region width.
    pub closed spec fn scale(&self) -> u32 {
        self.jitter_scale
    }

    /// Every pending region lies in a field of edge `edge`, and the cells
    /// written so far together with those the pending regions will write are
    /// exactly those that subdividing the root writes.
    pub open spec fn wf(&self, edge: nat) -> bool {
        &&& region_fits(self.root(), edge)
        &&& forall|i: int| 0 <= i < self.pending().len() ==> region_fits(#[trigger] self.pending()[i], edge)
        &&& self.written().union(stack_cover(self.pending())) == self.root().covered()
    }

    /// Number of regions still to be processed.
    pub open spec fn remaining(&self) -> nat {
        stack_weight(self.pending())
    }

    /// A run over `root` whose centre jitter is drawn from an interval as wide
    /// as the region times `jitter_scale` (capped at `MAX_JITTER_RANGE`).
    /// The corners of `root` are read as they stand in the field.
    pub fn new(root: FractalRegion, jitter_scale: u32) -> (r: Self)
        requires
            root.x1 <= root.x2,
            root.y1 <= root.y2,
        ensures
            r.root() == root,
            r.pending() == seq![root],
            r.written() == Set::<(int, int)>::empty(),
            r.scale() == jitter_scale,
            forall|e: nat| region_fits(root, e) ==> #[trigger] r.wf(e),
    {
        let mut stack: Vec<FractalRegion> = Vec::new();
        stack.push(root);
        let r = FractalSubdivider {
            stack,
            jitter_scale,
            root: Ghost(root),
            written: Ghost(Set::empty()),
        };
        proof {
            let p = r.pending();
            assert(p =~= seq![root]);
            assert(p.drop_last() =~= Seq::<FractalRegion>::empty());
            assert(stack_cover(Seq::<FractalRegion>::empty()) == Set::<(int, int)>::empty());
            assert(stack_cover(p) == stack_cover(p.drop_last()).union(p.last().covered()));
            assert(r.written().union(stack_cover(p)) =~= root.covered());
        }
        r
    }

    /// No region is left to process.
    pub fn is_done(&self) -> (r: bool)
        ensures
            r == (self.pending().len() == 0),
    {
        self.stack.len() == 0
    }

    /// Processes the next pending region, drawing its centre jitter
    /// uniformly from `-jitter_bound..=jitter_bound`; returns whether regions
    /// are left.
    pub fn step(&mut self, map: &mut BitImage, rand: &mut RandStruct) -> (more: bool)
        requires
            old(map).wf(),
            old(self).wf(old(map)@.edge),
        ensures
            final(map).wf(),
            final(self).wf(final(map)@.edge),
            old(map)@.envelope_within(final(map)@),
            final(self).root() == old(self).root(),
            final(self).scale() == old(self).scale(),
            more == (final(self).pending().len() > 0),
            old(self).pending().len() == 0 ==> {
                &&& final(self).pending() == old(self).pending()
                &&& final(map)@ == old(map)@
            },
            old(self).pending().len() == 0 ==> final(self).written() == old(self).written(),
            old(self).pending().len() > 0 ==> {
                let reg = old(self).pending().last();
                &&& final(self).written() == old(self).written().union(reg.step_cells())
                &&& final(self).remaining() + 1 == old(self).remaining()
                &&& final(self).pending() == old(self).pending().drop_last() + (if reg.splits() {
                    reg.children()
                } else {
                    Seq::empty()
                })
                &&& exists|j: i32|
                    -jitter_bound(reg, old(self).scale()) <= j <= jitter_bound(reg, old(self).scale())
                        && final(map)@ == step_result(old(map)@, reg, j)
            },
    {
        if self.stack.len() == 0 {
            return false;
        }
        let ghost old_stack = self.stack@;
        let reg = self.stack.pop().unwrap();
        proof {
            assert(old_stack.drop_last() == self.stack@);
            assert(region_fits(old_stack[old_stack.len() - 1], map@.edge));
        }
        let width: u64 = (reg.x2 - reg.x1) as u64;
        let wide: u64 = if self.jitter_scale == 0 {
            0
        } else if width > MAX_JITTER_RANGE as u64 {
            MAX_JITTER_RANGE as u64
        } else {
            proof {
                assert(width * self.jitter_scale <= 0x4000_0000u64 * 0xFFFF_FFFFu64) by (nonlinear_arith)
                    requires
                        width <= 0x4000_0000u64,
                        self.jitter_scale <= 0xFFFF_FFFFu32,
                ;
            }
            width * self.jitter_scale as u64
        };
        let range: u32 = if wide > MAX_JITTER_RANGE as u64 {
            MAX_JITTER_RANGE
        } else {
            wide as u32
        };
        let half: u32 = range / 2;
        proof {
            if width > MAX_JITTER_RANGE as u64 && self.jitter_scale > 0 {
                assert(width * self.jitter_scale >= width) by (nonlinear_arith)
                    requires
                        self.jitter_scale >= 1,
                ;
            }
            let w = (reg.x2 - reg.x1) * self.jitter_scale;
            assert(w == width * self.jitter_scale);
            if self.jitter_scale == 0 {
                assert(w == 0) by (nonlinear_arith)
                    requires
                        w == (reg.x2 - reg.x1) * self.jitter_scale,
                        self.jitter_scale == 0,
                ;
            }
            assert(half == jitter_bound(reg, self.jitter_scale));
        }
        let jitter: i32 = if half == 0 || (reg.x2 - reg.x1) / 2 == 0 || (reg.y2 - reg.y1) / 2 == 0 {
            0
        } else {
            let u = rand.get_map_range(0, 2 * half);
            u as i32 - half as i32
        };
        let children = process_region(map, reg, jitter);
        let ghost before = self.stack@;
        let ghost keep = (self.root, self.written, self.jitter_scale);
        let mut k: usize = 0;
        while k < children.len()
            invariant
                keep == (self.root, self.written, self.jitter_scale),
                k <= children@.len(),
                self.stack@ == before + children@.subrange(0, k as int),
            decreases children@.len() - k,
        {
            self.stack.push(children[k]);
            k += 1;
            proof {
                assert(self.stack@ =~= before + children@.subrange(0, k as int));
            }
        }
        proof {
            assert(children@.subrange(0, children@.len() as int) =~= children@);
            assert(-jitter_bound(reg, self.jitter_scale) <= jitter <= jitter_bound(reg, self.jitter_scale));
            let e = map@.edge;
            if reg.splits() {
                lemma_push_children(before, reg);
                assert(old_stack.last() == reg);
                assert(stack_cover(old_stack) == stack_cover(before).union(reg.covered()));
                self.written = Ghost(self.written@.union(reg.step_cells()));
                assert(self.written().union(stack_cover(self.pending())) =~= self.root().covered());
                assert forall|i: int| 0 <= i < self.pending().len() implies region_fits(
                    #[trigger] self.pending()[i],
                    e,
                ) by {
                    if i >= before.len() {
                        assert(self.pending()[i] == reg.children()[i - before.len()]);
                    } else {
                        assert(self.pending()[i] == old_stack[i]);
                    }
                }
            } else {
                assert(self.stack@ =~= before);
                assert(reg.step_cells() == Set::<(int, int)>::empty());
                assert(self.written@ =~= self.written@.union(reg.step_cells()));
                assert(reg.covered() == Set::<(int, int)>::empty());
                assert(reg.tree_size() == 1);
                assert(old_stack.last() == reg);
                assert(stack_cover(old_stack) =~= stack_cover(before));
                assert forall|i: int| 0 <= i < self.pending().len() implies region_fits(
                    #[trigger] self.pending()[i],
                    e,
                ) by {
                    assert(self.pending()[i] == old_stack[i]);
                }
            }
        }
        self.stack.len() > 0
    }

    /// Processes pending regions until none is left or, where `capped`,
    /// `budget` of them have been processed; returns how many were.
    fn run_logged(&mut self, map: &mut BitImage, rand: &mut RandStruct, budget: usize, capped: bool) -> (n: usize)
        requires
            old(map).wf(),
            old(self).wf(old(map)@.edge),
        ensures
            final(map).wf(),
            final(self).wf(final(map)@.edge),
            old(map)@.envelope_within(final(map)@),
            final(self).root() == old(self).root(),
            final(self).scale() == old(self).scale(),
            capped ==> final(self).remaining() + n == old(self).remaining(),
            capped ==> n == (if budget < old(self).remaining() { budget as nat } else { old(self).remaining() }),
            !capped ==> final(self).remaining() == 0,
            forall|x: int, y: int|
                old(map)@.in_bounds(x, y) && !stack_cover(old(self).pending()).contains((x, y))
                    ==> #[trigger] final(map)@.at(x, y) == old(map)@.at(x, y),
            exists|regs: Seq<FractalRegion>, js: Seq<i32>|
                #![trigger apply_log(old(map)@, regs, js)]
                jitters_ok(regs, js, old(self).scale()) && final(map)@ == apply_log(old(map)@, regs, js)
                    && regs + run_order(final(self).pending(), final(self).remaining()) == run_order(
                    old(self).pending(),
                    old(self).remaining(),
                ),
    {
        let ghost pre_m = map@;
        let ghost pre_p = self.pending();
        let ghost pre_rem = self.remaining();
        let ghost mut regs: Seq<FractalRegion> = Seq::empty();
        let ghost mut js: Seq<i32> = Seq::empty();
        let mut n: usize = 0;
        let ghost mut g: nat = 0;
        proof {
            assert(regs + run_order(pre_p, pre_rem) =~= run_order(pre_p, pre_rem));
            assert(map@ == apply_log(pre_m, regs, js));
        }
        while !self.is_done() && (!capped || n < budget)
            invariant
                map.wf(),
                self.wf(map@.edge),
                pre_m.envelope_within(map@),
                self.root() == old(self).root(),
                self.scale() == old(self).scale(),
                self.remaining() + g == pre_rem,
                capped ==> n <= budget && n == g,
                regs.len() == g,
                jitters_ok(regs, js, self.scale()),
                map@ == apply_log(pre_m, regs, js),
                regs + run_order(self.pending(), self.remaining()) == run_order(pre_p, pre_rem),
                pre_m.edge == map@.edge,
                forall|c: (int, int)| #[trigger] stack_cover(self.pending()).contains(c) ==> stack_cover(pre_p).contains(c),
                forall|x: int, y: int|
                    pre_m.in_bounds(x, y) && !stack_cover(pre_p).contains((x, y)) ==> #[trigger] map@.at(x, y)
                        == pre_m.at(x, y),
            decreases self.remaining(),
        {
            let ghost p0 = self.pending();
            let ghost r0 = self.remaining();
            let ghost m0 = map@;
            proof {
                assert(stack_weight(p0) == stack_weight(p0.drop_last()) + p0.last().tree_size());
                map.lemma_valid();
            }
            self.step(map, rand);
            proof {
                let reg = p0.last();
                let j = choose|j: i32|
                    -jitter_bound(reg, self.scale()) <= j <= jitter_bound(reg, self.scale())
                        && map@ == step_result(m0, reg, j);
                assert(region_fits(p0[p0.len() - 1], m0.edge));
                lemma_step_frame(m0, reg, j);
                assert(stack_cover(p0) == stack_cover(p0.drop_last()).union(reg.covered()));
                if reg.splits() {
                    lemma_push_children(p0.drop_last(), reg);
                    assert(reg.covered() == reg.step_cells().union(reg.children()[0].covered()).union(
                        reg.children()[1].covered()).union(reg.children()[2].covered()).union(
                        reg.children()[3].covered()));
                } else {
                    assert(self.pending() =~= p0.drop_last());
                }
                assert forall|c: (int, int)| #[trigger] stack_cover(self.pending()).contains(c) implies stack_cover(
                    pre_p,
                ).contains(c) by {
                    assert(stack_cover(p0).contains(c));
                }
                assert forall|x: int, y: int|
                    pre_m.in_bounds(x, y) && !stack_cover(pre_p).contains((x, y)) implies #[trigger] map@.at(x, y)
                    == pre_m.at(x, y) by {
                    if reg.step_cells().contains((x, y)) {
                        assert(reg.covered().contains((x, y)));
                        assert(stack_cover(p0).contains((x, y)));
                    }
                    assert(map@.at(x, y) == m0.at(x, y));
                }
                let old_regs = regs;
                let old_js = js;
                regs = regs.push(reg);
                js = js.push(j);
                assert(regs.drop_last() =~= old_regs);
                assert(js.drop_last() =~= old_js);
                assert(map@ == apply_log(pre_m, regs, js));
                assert(run_order(p0, r0) == seq![reg] + run_order(self.pending(), self.remaining()));
                assert(regs + run_order(self.pending(), self.remaining()) =~= old_regs + run_order(p0, r0));
                assert forall|i: int| 0 <= i < regs.len() implies -jitter_bound(#[trigger] regs[i], self.scale())
                    <= js[i] <= jitter_bound(regs[i], self.scale()) by {
                    if i < old_regs.len() {
                        assert(regs[i] == old_regs[i] && js[i] == old_js[i]);
                    }
                }
            }
            proof {
                g = g + 1;
            }
            if capped {
                n += 1;
            }
        }
        proof {
            let p = self.pending();
            if p.len() == 0 {
                assert(self.remaining() == 0);
            } else {
                assert(stack_weight(p) == stack_weight(p.drop_last()) + p.last().tree_size());
            }
        }
        n
    }

    /// Processes up to `budget` pending regions (all of them if fewer are
    /// left); returns how many were processed.
    pub fn run_steps(&mut self, map: &mut BitImage, rand: &mut RandStruct, budget: usize) -> (n: usize)
        requires
            old(map).wf(),
            old(self).wf(old(map)@.edge),
        ensures
            final(map).wf(),
            final(self).wf(final(map)@.edge),
            old(map)@.envelope_within(final(map)@),
            final(self).root() == old(self).root(),
            final(self).scale() == old(self).scale(),
            final(self).remaining() + n == old(self).remaining(),
            n == (if budget < old(self).remaining() { budget as nat } else { old(self).remaining() }),
            forall|x: int, y: int|
                old(map)@.in_bounds(x, y) && !stack_cover(old(self).pending()).contains((x, y))
                    ==> #[trigger] final(map)@.at(x, y) == old(map)@.at(x, y),
            exists|regs: Seq<FractalRegion>, js: Seq<i32>|
                #![trigger apply_log(old(map)@, regs, js)]
                jitters_ok(regs, js, old(self).scale()) && final(map)@ == apply_log(old(map)@, regs, js)
                    && regs + run_order(final(self).pending(), final(self).remaining()) == run_order(
                    old(self).pending(),
                    old(self).remaining(),
                ),
    {
        self.run_logged(map, rand, budget, true)
    }

    /// Processes every pending region. The field ends as the subdivision
    /// steps of `run_order` applied in turn, each centre with a jitter within
    /// its bound; the cells written are exactly those that subdividing the
    /// root writes: for a square root whose side is a power of two, every
    /// cell of it but its four corners.
    pub fn run_to_end(&mut self, map: &mut BitImage, rand: &mut RandStruct)
        requires
            old(map).wf(),
            old(self).wf(old(map)@.edge),
        ensures
            final(map).wf(),
            final(self).wf(final(map)@.edge),
            old(map)@.envelope_within(final(map)@),
            final(self).root() == old(self).root(),
            final(self).pending().len() == 0,
            final(self).written() == final(self).root().covered(),
            forall|x: int, y: int|
                old(map)@.in_bounds(x, y) && !stack_cover(old(self).pending()).contains((x, y))
                    ==> #[trigger] final(map)@.at(x, y) == old(map)@.at(x, y),
            exists|regs: Seq<FractalRegion>, js: Seq<i32>|
                #![trigger apply_log(old(map)@, regs, js)]
                jitters_ok(regs, js, old(self).scale()) && final(map)@ == apply_log(old(map)@, regs, js)
                    && regs == run_order(old(self).pending(), old(self).remaining()),
            ({
                let r = final(self).root();
                r.x2 - r.x1 == r.y2 - r.y1 && is_pow2((r.x2 - r.x1) as nat) ==> forall|x: int, y: int|
                    #[trigger] final(self).written().contains((x, y)) <==> (r.in_box(x, y)
                        && !r.is_corner(x, y))
            }),
    {
        let ghost pre_m = map@;
        let ghost pre_p = self.pending();
        let ghost pre_rem = self.remaining();
        self.run_logged(map, rand, 0, false);
        proof {
            let p = self.pending();
            if p.len() > 0 {
                assert(stack_weight(p) == stack_weight(p.drop_last()) + p.last().tree_size());
            }
            assert(p.len() == 0);
            assert(stack_cover(p) == Set::<(int, int)>::empty());
            assert(self.written().union(stack_cover(p)) =~= self.written());
            assert(run_order(p, 0) == Seq::<FractalRegion>::empty());
            let (regs, js) = choose|regs: Seq<FractalRegion>, js: Seq<i32>|
                jitters_ok(regs, js, self.scale()) && map@ == apply_log(pre_m, regs, js)
                    && regs + run_order(self.pending(), self.remaining()) == run_order(pre_p, pre_rem);
            assert(regs + run_order(p, 0) =~= regs);
            assert(apply_log(pre_m, regs, js) == apply_log(pre_m, regs, js));
            let r = self.root();
            if r.x2 - r.x1 == r.y2 - r.y1 && is_pow2((r.x2 - r.x1) as nat) {
                lemma_pow2_square_covered(r);
            }
        }
    }
}

} // verus!
