use vstd::prelude::*;

use crate::map_data::{greater, BitImage, HeightMap, MapError};
use crate::randstruct::RandStruct;

verus! {

/// `a / b` rounded toward zero, for `b > 0`.
pub open spec fn trunc_div(a: int, b: int) -> int {
    if a >= 0 {
        a / b
    } else {
        -((-a) / b)
    }
}

/// A rectangle of cells, bounds included on every side.
#[derive(Debug, Clone, Copy, PartialEq, Eq, Structural)]
pub struct Area {
    pub left: usize,
    pub top: usize,
    pub right: usize,
    pub bottom: usize,
}

impl Area {
    pub open spec fn contains(self, x: int, y: int) -> bool {
        self.left <= x <= self.right && self.top <= y <= self.bottom
    }

    /// Every cell of the area lies in the field.
    pub open spec fn fits(self, m: HeightMap) -> bool {
        self.right < m.edge && self.bottom < m.edge
    }

    /// The whole field of a grid with `unit_count` cells along an edge.
    pub fn full(unit_count: usize) -> (r: Area)
        ensures
            r == (Area { left: 0, top: 0, right: unit_count, bottom: unit_count }),
    {
        Area { left: 0, top: 0, right: unit_count, bottom: unit_count }
    }
}

/// Sum of the values at `coords`.
pub open spec fn sum_at(m: HeightMap, coords: Seq<(usize, usize)>) -> int
    decreases coords.len(),
{
    if coords.len() == 0 {
        0
    } else {
        sum_at(m, coords.drop_last()) + m.at(coords.last().0 as int, coords.last().1 as int)
    }
}

/// The mean (rounded toward zero) of the Moore neighbours of `(x, y)`, not
/// counting the cell itself; the cell's own value where it has none.
pub open spec fn neighbor_mean(m: HeightMap, x: int, y: int) -> int {
    let ns = m.neighbors(x, y);
    if ns.len() == 0 {
        m.at(x, y) as int
    } else {
        trunc_div(sum_at(m, ns), ns.len() as int)
    }
}

/// `sum` divided by `count` rounded toward zero, for `count > 0`.
fn div_toward_zero(sum: i64, count: i64) -> (r: i64)
    requires
        count > 0,
        sum > i64::MIN,
    ensures
        r == trunc_div(sum as int, count as int),
{
    sum / count
}

/// The mean of the Moore neighbours of `(x, y)`, as `neighbor_mean` gives it.
pub fn mean_of_neighbors(map: &BitImage, x: usize, y: usize) -> (r: i32)
    requires
        map.wf(),
        map@.in_bounds(x as int, y as int),
    ensures
        r == neighbor_mean(map@, x as int, y as int),
{
    let ns = map.get_neighbors(x, y);
    proof {
        map.lemma_valid();
        crate::map_data::lemma_neighbors_in_bounds(map@, x as int, y as int, 8);
    }
    if ns.len() == 0 {
        return map.get_ignore(x, y);
    }
    let mut sum: i64 = 0;
    let mut i: usize = 0;
    while i < ns.len()
        invariant
            map.wf(),
            i <= ns@.len() <= 8,
            ns@ == map@.neighbors(x as int, y as int),
            forall|j: int|
                0 <= j < ns@.len() ==> map@.in_bounds(
                    (#[trigger] ns@[j]).0 as int,
                    ns@[j].1 as int,
                ),
            sum == sum_at(map@, ns@.subrange(0, i as int)),
            i32::MIN * i <= sum <= i32::MAX * i,
        decreases ns@.len() - i,
    {
        let c = ns[i];
        let v = map.get_ignore(c.0, c.1);
        proof {
            assert(ns@.subrange(0, i + 1).drop_last() =~= ns@.subrange(0, i as int));
        }
        sum = sum + v as i64;
        i += 1;
    }
    proof {
        assert(ns@.subrange(0, ns@.len() as int) =~= ns@);
    }
    let n = ns.len() as i64;
    let q = div_toward_zero(sum, n);
    proof {
        if sum >= 0 {
            vstd::arithmetic::div_mod::lemma_div_is_ordered(sum as int, i32::MAX * n, n as int);
            vstd::arithmetic::div_mod::lemma_div_by_multiple(i32::MAX as int, n as int);
            vstd::arithmetic::div_mod::lemma_div_pos_is_pos(sum as int, n as int);
        } else {
            vstd::arithmetic::div_mod::lemma_div_is_ordered((-sum) as int, (-i32::MIN) * n, n as int);
            vstd::arithmetic::div_mod::lemma_div_by_multiple(-(i32::MIN as int), n as int);
            vstd::arithmetic::div_mod::lemma_div_pos_is_pos((-sum) as int, n as int);
        }
    }
    q as i32
}

/// `(cx, cy)` comes before `(x, y)` in a row-by-row scan of `area`.
pub open spec fn scanned(area: Area, x: int, y: int, cx: int, cy: int) -> bool {
    area.contains(cx, cy) && (cy < y || (cy == y && cx < x))
}

/// Each running bound of `m` is that of `pre`, or is held by a cell that a
/// scan of `area` has passed before `(x, y)`.
pub open spec fn attained_before(pre: HeightMap, m: HeightMap, area: Area, x: int, y: int) -> bool {
    &&& (m.max == pre.max || exists|cx: int, cy: int|
        scanned(area, x, y, cx, cy) && m.in_bounds(cx, cy) && #[trigger] m.at(cx, cy) == m.max)
    &&& (m.min == pre.min || exists|cx: int, cy: int|
        scanned(area, x, y, cx, cy) && m.in_bounds(cx, cy) && #[trigger] m.at(cx, cy) == m.min)
}

/// Writing the cell a scan has reached moves the scan on by one cell.
proof fn lemma_scan_write(pre: HeightMap, before: HeightMap, area: Area, x: int, y: int, after: HeightMap)
    requires
        before.valid(),
        before.in_bounds(x, y),
        area.contains(x, y),
        attained_before(pre, before, area, x, y),
        after == before.write(x, y, after.at(x, y)),
    ensures
        attained_before(pre, after, area, x + 1, y),
{
    let v = after.at(x, y);
    if after.max != pre.max {
        if v > before.max {
            assert(scanned(area, x + 1, y, x, y) && after.in_bounds(x, y) && after.at(x, y) == after.max);
        } else {
            let (wx, wy) = choose|cx: int, cy: int|
                scanned(area, x, y, cx, cy) && before.in_bounds(cx, cy) && #[trigger] before.at(cx, cy) == before.max;
            assert(after.at(wx, wy) == before.at(wx, wy));
            assert(scanned(area, x + 1, y, wx, wy) && after.in_bounds(wx, wy) && after.at(wx, wy) == after.max);
        }
    }
    if after.min != pre.min {
        if v < before.min {
            assert(scanned(area, x + 1, y, x, y) && after.in_bounds(x, y) && after.at(x, y) == after.min);
        } else {
            let (wx, wy) = choose|cx: int, cy: int|
                scanned(area, x, y, cx, cy) && before.in_bounds(cx, cy) && #[trigger] before.at(cx, cy) == before.min;
            assert(after.at(wx, wy) == before.at(wx, wy));
            assert(scanned(area, x + 1, y, wx, wy) && after.in_bounds(wx, wy) && after.at(wx, wy) == after.min);
        }
    }
}

/// Passing the end of a row is the same as starting the next one.
proof fn lemma_scan_next_row(pre: HeightMap, m: HeightMap, area: Area, y: int)
    requires
        attained_before(pre, m, area, area.right + 1, y),
    ensures
        attained_before(pre, m, area, area.left as int, y + 1),
{
    if m.max != pre.max {
        let (wx, wy) = choose|cx: int, cy: int|
            scanned(area, area.right + 1, y, cx, cy) && m.in_bounds(cx, cy) && #[trigger] m.at(cx, cy) == m.max;
        assert(scanned(area, area.left as int, y + 1, wx, wy));
    }
    if m.min != pre.min {
        let (wx, wy) = choose|cx: int, cy: int|
            scanned(area, area.right + 1, y, cx, cy) && m.in_bounds(cx, cy) && #[trigger] m.at(cx, cy) == m.min;
        assert(scanned(area, area.left as int, y + 1, wx, wy));
    }
}

/// One pass of neighbour averaging over `area`: each cell of it takes the
/// mean of its Moore neighbours, all read from the field as it was before the
/// pass. An area reaching outside the field is refused, with the field
/// unchanged.
pub fn average_by_neighbor(map: &mut BitImage, area: Area) -> (r: Result<(), MapError>)
    requires
        old(map).wf(),
    ensures
        final(map).wf(),
        area.fits(old(map)@) ==> {
            &&& r is Ok
            &&& old(map)@.envelope_within(final(map)@)
            &&& old(map)@.bounds_attained(final(map)@)
            &&& forall|x: int, y: int|
                #![trigger final(map)@.at(x, y)]
                old(map)@.in_bounds(x, y) ==> final(map)@.at(x, y) == if area.contains(x, y) {
                    neighbor_mean(old(map)@, x, y)
                } else {
                    old(map)@.at(x, y) as int
                }
        },
        !area.fits(old(map)@) ==> {
            &&& r == Err::<(), MapError>(
                MapError::OutOfBounds {
                    x: area.right,
                    y: area.bottom,
                    edge_size: old(map)@.edge as usize,
                },
            )
            &&& final(map)@ == old(map)@
        },
{
    let edge = map.edge_size();
    if area.right >= edge || area.bottom >= edge {
        return Err(MapError::OutOfBounds { x: area.right, y: area.bottom, edge_size: edge });
    }
    if area.left > area.right || area.top > area.bottom {
        return Ok(());
    }
    let snap = map.snapshot();
    let ghost pre = map@;
    proof {
        map.lemma_valid();
    }
    let mut y = area.top;
    while y <= area.bottom
        invariant
            map.wf(),
            snap.wf(),
            snap@ == pre,
            area.fits(pre),
            area.top <= y,
            y <= area.bottom + 1,
            area.left <= area.right,
            pre.valid(),
            pre.envelope_within(map@),
            attained_before(pre, map@, area, area.left as int, y as int),
            forall|cx: int, cy: int|
                #![trigger map@.at(cx, cy)]
                pre.in_bounds(cx, cy) ==> map@.at(cx, cy) == if area.contains(cx, cy) && cy < y {
                    neighbor_mean(pre, cx, cy)
                } else {
                    pre.at(cx, cy) as int
                },
        decreases area.bottom + 1 - y,
    {
        let mut x = area.left;
        while x <= area.right
            invariant
                map.wf(),
                snap.wf(),
                snap@ == pre,
                area.fits(pre),
                area.top <= y <= area.bottom,
                area.left <= x <= area.right + 1,
                pre.envelope_within(map@),
                attained_before(pre, map@, area, x as int, y as int),
                forall|cx: int, cy: int|
                    #![trigger map@.at(cx, cy)]
                    pre.in_bounds(cx, cy) ==> map@.at(cx, cy) == if area.contains(cx, cy) && (cy
                        < y || (cy == y && cx < x)) {
                        neighbor_mean(pre, cx, cy)
                    } else {
                        pre.at(cx, cy) as int
                    },
            decreases area.right + 1 - x,
        {
            let m = mean_of_neighbors(&snap, x, y);
            let ghost before = map@;
            proof {
                map.lemma_valid();
            }
            let _ = map.point_set(x, y, m);
            proof {
                crate::map_data::lemma_edit_keeps_valid(
                    before,
                    crate::map_data::FieldEdit::Write { x: x as int, y: y as int, v: m },
                );
                assert forall|cx: int, cy: int| pre.in_bounds(cx, cy) implies #[trigger] map@.at(cx, cy)
                    == if area.contains(cx, cy) && (cy < y || (cy == y && cx < x + 1)) {
                    neighbor_mean(pre, cx, cy)
                } else {
                    pre.at(cx, cy) as int
                } by {
                    if cx != x || cy != y {
                        assert(map@.at(cx, cy) == before.at(cx, cy));
                    }
                }
                lemma_scan_write(pre, before, area, x as int, y as int, map@);
            }
            x += 1;
        }
        proof {
            lemma_scan_next_row(pre, map@, area, y as int);
        }
        y += 1;
    }
    Ok(())
}

/// `(x, y)` lies on the outer ring of `area`.
pub open spec fn on_border(area: Area, x: int, y: int) -> bool {
    area.contains(x, y) && (x == area.left || x == area.right || y == area.top || y
        == area.bottom)
}

/// Sets the outer ring of `area` to 0. An area reaching outside the field is
/// refused, with the field unchanged.
pub fn zero_edges(map: &mut BitImage, area: Area) -> (r: Result<(), MapError>)
    requires
        old(map).wf(),
    ensures
        final(map).wf(),
        area.fits(old(map)@) ==> {
            &&& r is Ok
            &&& old(map)@.envelope_within(final(map)@)
            &&& final(map)@.max == old(map)@.max
            &&& final(map)@.min == old(map)@.min
            &&& forall|x: int, y: int|
                #![trigger final(map)@.at(x, y)]
                old(map)@.in_bounds(x, y) ==> final(map)@.at(x, y) == if on_border(area, x, y) {
                    0
                } else {
                    old(map)@.at(x, y)
                }
        },
        !area.fits(old(map)@) ==> {
            &&& r == Err::<(), MapError>(
                MapError::OutOfBounds {
                    x: area.right,
                    y: area.bottom,
                    edge_size: old(map)@.edge as usize,
                },
            )
            &&& final(map)@ == old(map)@
        },
{
    let edge = map.edge_size();
    if area.right >= edge || area.bottom >= edge {
        return Err(MapError::OutOfBounds { x: area.right, y: area.bottom, edge_size: edge });
    }
    if area.left > area.right || area.top > area.bottom {
        return Ok(());
    }
    let ghost pre = map@;
    proof {
        map.lemma_valid();
    }
    let mut y = area.top;
    while y <= area.bottom
        invariant
            map.wf(),
            pre.valid(),
            area.fits(pre),
            area.left <= area.right,
            area.top <= y <= area.bottom + 1,
            map@.edge == pre.edge,
            map@.max == pre.max,
            map@.min == pre.min,
            forall|cx: int, cy: int|
                #![trigger map@.at(cx, cy)]
                pre.in_bounds(cx, cy) ==> map@.at(cx, cy) == if on_border(area, cx, cy) && cy < y {
                    0
                } else {
                    pre.at(cx, cy)
                },
        decreases area.bottom + 1 - y,
    {
        let mut x = area.left;
        while x <= area.right
            invariant
                map.wf(),
                pre.valid(),
                area.fits(pre),
                area.top <= y <= area.bottom,
                area.left <= x <= area.right + 1,
                map@.edge == pre.edge,
                map@.max == pre.max,
                map@.min == pre.min,
                forall|cx: int, cy: int|
                    #![trigger map@.at(cx, cy)]
                    pre.in_bounds(cx, cy) ==> map@.at(cx, cy) == if on_border(area, cx, cy) && (cy
                        < y || (cy == y && cx < x)) {
                        0
                    } else {
                        pre.at(cx, cy)
                    },
            decreases area.right + 1 - x,
        {
            if x == area.left || x == area.right || y == area.top || y == area.bottom {
                let ghost before = map@;
                proof {
                    map.lemma_valid();
                }
                let _ = map.point_set(x, y, 0);
                proof {
                    assert forall|cx: int, cy: int| pre.in_bounds(cx, cy) implies #[trigger] map@.at(
                        cx,
                        cy,
                    ) == if on_border(area, cx, cy) && (cy < y || (cy == y && cx < x + 1)) {
                        0
                    } else {
                        pre.at(cx, cy)
                    } by {
                        if cx != x || cy != y {
                            assert(map@.at(cx, cy) == before.at(cx, cy));
                        }
                    }
                }
            }
            x += 1;
        }
        y += 1;
    }
    Ok(())
}

/// Overwrites every cell of `area` with the matching entry of `samples`,
/// given row by row from the area's top left corner. An area reaching
/// outside the field is refused, with the field unchanged.
pub fn write_samples(map: &mut BitImage, area: Area, samples: &Vec<Vec<i32>>) -> (r: Result<
    (),
    MapError,
>)
    requires
        old(map).wf(),
        area.left <= area.right,
        area.top <= area.bottom,
        samples@.len() == area.bottom - area.top + 1,
        forall|j: int| 0 <= j < samples@.len() ==> (#[trigger] samples@[j])@.len() == area.right - area.left + 1,
    ensures
        final(map).wf(),
        area.fits(old(map)@) ==> {
            &&& r is Ok
            &&& old(map)@.envelope_within(final(map)@)
            &&& old(map)@.bounds_attained(final(map)@)
            &&& forall|x: int, y: int|
                #![trigger final(map)@.at(x, y)]
                old(map)@.in_bounds(x, y) ==> final(map)@.at(x, y) == if area.contains(x, y) {
                    samples@[y - area.top]@[x - area.left]
                } else {
                    old(map)@.at(x, y)
                }
        },
        !area.fits(old(map)@) ==> {
            &&& r == Err::<(), MapError>(
                MapError::OutOfBounds {
                    x: area.right,
                    y: area.bottom,
                    edge_size: old(map)@.edge as usize,
                },
            )
            &&& final(map)@ == old(map)@
        },
{
    let edge = map.edge_size();
    if area.right >= edge || area.bottom >= edge {
        return Err(MapError::OutOfBounds { x: area.right, y: area.bottom, edge_size: edge });
    }
    let ghost pre = map@;
    proof {
        map.lemma_valid();
    }
    let mut y = area.top;
    while y <= area.bottom
        invariant
            map.wf(),
            pre.valid(),
            area.fits(pre),
            area.left <= area.right,
            area.top <= y <= area.bottom + 1,
            samples@.len() == area.bottom - area.top + 1,
            forall|j: int| 0 <= j < samples@.len() ==> (#[trigger] samples@[j])@.len() == area.right - area.left + 1,
            pre.envelope_within(map@),
            attained_before(pre, map@, area, area.left as int, y as int),
            forall|cx: int, cy: int|
                #![trigger map@.at(cx, cy)]
                pre.in_bounds(cx, cy) ==> map@.at(cx, cy) == if area.contains(cx, cy) && cy < y {
                    samples@[cy - area.top]@[cx - area.left]
                } else {
                    pre.at(cx, cy)
                },
        decreases area.bottom + 1 - y,
    {
        let row = &samples[y - area.top];
        let mut x = area.left;
        while x <= area.right
            invariant
                map.wf(),
                pre.valid(),
                area.fits(pre),
                area.top <= y <= area.bottom,
                area.left <= x <= area.right + 1,
                samples@.len() == area.bottom - area.top + 1,
                row@ == samples@[y - area.top]@,
                row@.len() == area.right - area.left + 1,
                pre.envelope_within(map@),
                attained_before(pre, map@, area, x as int, y as int),
                forall|cx: int, cy: int|
                    #![trigger map@.at(cx, cy)]
                    pre.in_bounds(cx, cy) ==> map@.at(cx, cy) == if area.contains(cx, cy) && (cy
                        < y || (cy == y && cx < x)) {
                        samples@[cy - area.top]@[cx - area.left]
                    } else {
                        pre.at(cx, cy)
                    },
            decreases area.right + 1 - x,
        {
            let v = row[x - area.left];
            let ghost before = map@;
            proof {
                map.lemma_valid();
            }
            let _ = map.point_set(x, y, v);
            proof {
                crate::map_data::lemma_edit_keeps_valid(
                    before,
                    crate::map_data::FieldEdit::Write { x: x as int, y: y as int, v },
                );
                assert forall|cx: int, cy: int| pre.in_bounds(cx, cy) implies #[trigger] map@.at(cx, cy)
                    == if area.contains(cx, cy) && (cy < y || (cy == y && cx < x + 1)) {
                    samples@[cy - area.top]@[cx - area.left]
                } else {
                    pre.at(cx, cy)
                } by {
                    if cx != x || cy != y {
                        assert(map@.at(cx, cy) == before.at(cx, cy));
                    }
                }
                lemma_scan_write(pre, before, area, x as int, y as int, map@);
            }
            x += 1;
        }
        proof {
            lemma_scan_next_row(pre, map@, area, y as int);
        }
        y += 1;
    }
    Ok(())
}

/// A droplet of "reverse rain": it climbs toward higher ground, raising the
/// cell it reaches by `strength` and that cell's neighbours by half of it.
#[derive(Debug, Clone, Copy)]
pub struct ReverseRain {
    pub x: usize,
    pub y: usize,
    pub strength: i32,
    pub next_coords: Option<(usize, usize)>,
}

/// The steepest-ascent target of a droplet at `(x, y)`: the last neighbour
/// that beats the best value seen so far, starting from the cell's own.
pub open spec fn ascent(m: HeightMap, x: int, y: int) -> Option<(usize, usize)> {
    m.scan_best(m.neighbors(x, y), m.at(x, y), greater()).1
}

/// What one droplet's move does to the field.
pub open spec fn drop_effect(m: HeightMap, d: ReverseRain) -> HeightMap {
    match d.next_coords {
        Some(c) => {
            let raised = m.raise(c.0 as int, c.1 as int, d.strength);
            raised.raise_each(raised.neighbors(c.0 as int, c.1 as int), trunc_div(d.strength as int, 2) as i32)
        },
        None => m,
    }
}

/// The field after every droplet of `drops` has moved, in order.
pub open spec fn rain_field(m: HeightMap, drops: Seq<ReverseRain>) -> HeightMap
    decreases drops.len(),
{
    if drops.len() == 0 {
        m
    } else {
        drop_effect(rain_field(m, drops.drop_last()), drops.last())
    }
}

/// The droplets that had somewhere to go, now standing there.
pub open spec fn survivors(drops: Seq<ReverseRain>) -> Seq<ReverseRain>
    decreases drops.len(),
{
    if drops.len() == 0 {
        Seq::empty()
    } else {
        let rest = survivors(drops.drop_last());
        let d = drops.last();
        match d.next_coords {
            Some(c) => rest.push(ReverseRain { x: c.0, y: c.1, strength: d.strength, next_coords: d.next_coords }),
            None => rest,
        }
    }
}

/// Every droplet stands in the field.
pub open spec fn drops_inside(m: HeightMap, drops: Seq<ReverseRain>) -> bool {
    forall|i: int| 0 <= i < drops.len() ==> m.in_bounds((#[trigger] drops[i]).x as int, drops[i].y as int)
}

/// Every planned move of a droplet leads into the field.
pub open spec fn targets_inside(m: HeightMap, drops: Seq<ReverseRain>) -> bool {
    forall|i: int|
        0 <= i < drops.len() ==> match (#[trigger] drops[i]).next_coords {
            Some(c) => m.in_bounds(c.0 as int, c.1 as int),
            None => true,
        }
}

/// A scan under `greater` ends on a value at least its start, and any cell it
/// moved to is one of `coords` and holds the value it ended on, which is
/// strictly above the start.
pub proof fn lemma_scan_climbs(m: HeightMap, coords: Seq<(usize, usize)>, start: i32)
    ensures
        m.scan_best(coords, start, greater()).0 >= start,
        m.scan_best(coords, start, greater()).1 is Some ==> {
            let c = m.scan_best(coords, start, greater()).1->Some_0;
            &&& coords.contains(c)
            &&& m.at(c.0 as int, c.1 as int) == m.scan_best(coords, start, greater()).0
            &&& m.scan_best(coords, start, greater()).0 > start
        },
    decreases coords.len(),
{
    if coords.len() > 0 {
        let rest = coords.drop_last();
        lemma_scan_climbs(m, rest, start);
        let prev = m.scan_best(rest, start, greater());
        if prev.1 is Some {
            let c = prev.1->Some_0;
            let k = choose|k: int| 0 <= k < rest.len() && rest[k] == c;
            assert(coords[k] == c);
        }
        assert(coords[coords.len() - 1] == coords.last());
    }
}

/// A droplet only ever plans a move to a strictly higher neighbour in the
/// field.
pub proof fn lemma_ascent_uphill(m: HeightMap, x: int, y: int)
    requires
        m.valid(),
        m.in_bounds(x, y),
    ensures
        ascent(m, x, y) is Some ==> {
            let c = ascent(m, x, y)->Some_0;
            &&& m.in_bounds(c.0 as int, c.1 as int)
            &&& m.at(c.0 as int, c.1 as int) > m.at(x, y)
        },
{
    crate::map_data::lemma_neighbors_in_bounds(m, x, y, 8);
    lemma_scan_climbs(m, m.neighbors(x, y), m.at(x, y));
}

/// Droplets that move to targets in a field stand in that field afterwards
/// (in any field of the same edge).
pub proof fn lemma_survivors_inside(drops: Seq<ReverseRain>, m: HeightMap)
    requires
        targets_inside(m, drops),
    ensures
        drops_inside(m, survivors(drops)),
        survivors(drops).len() <= drops.len(),
    decreases drops.len(),
{
    if drops.len() > 0 {
        let rest = drops.drop_last();
        assert forall|i: int| 0 <= i < rest.len() implies match (#[trigger] rest[i]).next_coords {
            Some(c) => m.in_bounds(c.0 as int, c.1 as int),
            None => true,
        } by {
            assert(rest[i] == drops[i]);
        }
        lemma_survivors_inside(rest, m);
        assert(drops[drops.len() - 1] == drops.last());
    }
}

/// A droplet with its move planned against `m`.
pub open spec fn planned(m: HeightMap, d: ReverseRain) -> ReverseRain {
    ReverseRain { next_coords: ascent(m, d.x as int, d.y as int), ..d }
}

/// The field and the droplets after one tick: every move planned against
/// the same field, then applied in order.
pub open spec fn tick(m: HeightMap, drops: Seq<ReverseRain>) -> (HeightMap, Seq<ReverseRain>) {
    let p = drops.map_values(|d: ReverseRain| planned(m, d));
    (rain_field(m, p), survivors(p))
}

/// The field and the droplets after `k` ticks.
pub open spec fn after_ticks(m: HeightMap, drops: Seq<ReverseRain>, k: nat) -> (HeightMap, Seq<ReverseRain>)
    decreases k,
{
    if k == 0 {
        (m, drops)
    } else {
        let t = tick(m, drops);
        after_ticks(t.0, t.1, (k - 1) as nat)
    }
}

proof fn lemma_no_drops_stay_none(m: HeightMap, k: nat)
    ensures
        after_ticks(m, Seq::empty(), k).1.len() == 0,
    decreases k,
{
    if k > 0 {
        let e = Seq::<ReverseRain>::empty();
        assert(e.map_values(|d: ReverseRain| planned(m, d)) =~= e);
        lemma_no_drops_stay_none(m, (k - 1) as nat);
    }
}

/// A single droplet of non-negative strength retires within
/// `max - height + 1` ticks, where `height` is the elevation of its cell and
/// `max` the field's running maximum: each move lands it strictly closer to
/// the running maximum, and at the maximum no neighbour is higher.
pub proof fn lemma_single_drop_retires(m: HeightMap, d: ReverseRain, k: nat)
    requires
        m.valid(),
        m.in_bounds(d.x as int, d.y as int),
        d.strength >= 0,
        k >= m.max - m.at(d.x as int, d.y as int) + 1,
    ensures
        after_ticks(m, seq![d], k).1.len() == 0,
    decreases m.max - m.at(d.x as int, d.y as int),
{
    let p = planned(m, d);
    let one = seq![d];
    assert(one.map_values(|e: ReverseRain| planned(m, e)) =~= seq![p]);
    let ps = seq![p];
    assert(ps.drop_last() =~= Seq::<ReverseRain>::empty());
    assert(ps.last() == p);
    let e = Seq::<ReverseRain>::empty();
    assert(rain_field(m, e) == m);
    assert(survivors(e) == e);
    assert(rain_field(m, ps) == drop_effect(rain_field(m, ps.drop_last()), ps.last()));
    assert(survivors(ps) == (match p.next_coords {
        Some(c) => survivors(ps.drop_last()).push(
            ReverseRain { x: c.0, y: c.1, strength: p.strength, next_coords: p.next_coords },
        ),
        None => survivors(ps.drop_last()),
    }));
    assert(rain_field(m, ps) == drop_effect(m, p));
    lemma_ascent_uphill(m, d.x as int, d.y as int);
    match p.next_coords {
        None => {
            assert(survivors(ps) =~= Seq::<ReverseRain>::empty());
            lemma_no_drops_stay_none(drop_effect(m, p), (k - 1) as nat);
        },
        Some(q) => {
            let qx = q.0 as int;
            let qy = q.1 as int;
            let s = d.strength;
            let half = trunc_div(s as int, 2) as i32;
            let hp = m.at(d.x as int, d.y as int);
            let hq = m.at(qx, qy);
            let mx = m.max;
            crate::map_data::lemma_edit_keeps_valid(
                m,
                crate::map_data::FieldEdit::Raise { x: qx, y: qy, d: s },
            );
            let m1 = m.raise(qx, qy, s);
            let ns = m1.neighbors(qx, qy);
            crate::map_data::lemma_neighbors_in_bounds(m1, qx, qy, 8);
            crate::map_data::lemma_neighbors_distinct(m1, qx, qy, 8);
            assert forall|i: int| 0 <= i < ns.len() implies m1.at(
                (#[trigger] ns[i]).0 as int,
                ns[i].1 as int,
            ) <= mx by {
                assert(m.in_bounds(ns[i].0 as int, ns[i].1 as int));
                assert(m1.at(ns[i].0 as int, ns[i].1 as int) == m.at(ns[i].0 as int, ns[i].1 as int));
            }
            crate::map_data::lemma_raise_each_bound(m1, ns, half, mx);
            let m2 = m1.raise_each(ns, half);
            assert(!ns.contains((qx as usize, qy as usize))) by {
                if ns.contains((qx as usize, qy as usize)) {
                    let i = choose|i: int| 0 <= i < ns.len() && ns[i] == (qx as usize, qy as usize);
                    assert(ns[i] == ns[i]);
                }
            }
            assert(m2.at(qx, qy) == m1.at(qx, qy));
            assert(m2 == drop_effect(m, p));
            let moved = ReverseRain { x: q.0, y: q.1, strength: s, next_coords: p.next_coords };
            assert(survivors(ps) =~= seq![moved]);
            assert(m2.max - m2.at(qx, qy) < mx - hp);
            lemma_single_drop_retires(m2, moved, (k - 1) as nat);
        },
    }
}

/// One more tick after `k` ticks.
pub proof fn lemma_after_ticks_step(m: HeightMap, drops: Seq<ReverseRain>, k: nat)
    ensures
        after_ticks(m, drops, k + 1) == tick(after_ticks(m, drops, k).0, after_ticks(m, drops, k).1),
    decreases k,
{
    let t = tick(m, drops);
    assert(after_ticks(m, drops, k + 1) == after_ticks(t.0, t.1, k));
    if k > 0 {
        assert(after_ticks(m, drops, k) == after_ticks(t.0, t.1, (k - 1) as nat));
        lemma_after_ticks_step(t.0, t.1, (k - 1) as nat);
    } else {
        assert(after_ticks(t.0, t.1, 0) == t);
    }
}

/// A tick never adds droplets: the live count never increases.
pub proof fn lemma_tick_never_adds(m: HeightMap, drops: Seq<ReverseRain>)
    ensures
        tick(m, drops).1.len() <= drops.len(),
{
    lemma_survivors_shrink(drops.map_values(|d: ReverseRain| planned(m, d)));
}

proof fn lemma_survivors_shrink(drops: Seq<ReverseRain>)
    ensures
        survivors(drops).len() <= drops.len(),
    decreases drops.len(),
{
    if drops.len() > 0 {
        lemma_survivors_shrink(drops.drop_last());
    }
}

impl ReverseRain {
    /// A droplet at `(x, y)` that has not looked around yet.
    pub fn new(x: usize, y: usize, strength: i32) -> (r: Self)
        ensures
            r == (ReverseRain { x, y, strength, next_coords: Some((x, y)) }),
    {
        ReverseRain { x, y, strength, next_coords: Some((x, y)) }
    }

    /// Two droplets joined into one at `a`'s place, with their strengths
    /// added (held to the range of `i32`); the result has not looked around.
    pub fn merge(a: ReverseRain, b: ReverseRain) -> (r: ReverseRain)
        ensures
            r == (ReverseRain {
                x: a.x,
                y: a.y,
                strength: crate::map_data::sat_add(a.strength, b.strength),
                next_coords: None,
            }),
    {
        let sum: i64 = a.strength as i64 + b.strength as i64;
        let strength: i32 = if sum > i32::MAX as i64 {
            i32::MAX
        } else if sum < i32::MIN as i64 {
            i32::MIN
        } else {
            sum as i32
        };
        ReverseRain { x: a.x, y: a.y, strength, next_coords: None }
    }

    /// The check pass: every droplet plans its move from the same field,
    /// toward its steepest-ascent neighbour, or to nowhere on a local peak.
    pub fn run_check(drops: &mut Vec<ReverseRain>, height_map: &BitImage)
        requires
            height_map.wf(),
            drops_inside(height_map@, old(drops)@),
        ensures
            final(drops)@.len() == old(drops)@.len(),
            forall|i: int|
                0 <= i < old(drops)@.len() ==> (#[trigger] final(drops)@[i]) == (ReverseRain {
                    next_coords: ascent(height_map@, old(drops)@[i].x as int, old(drops)@[i].y as int),
                    ..old(drops)@[i]
                }),
            drops_inside(height_map@, final(drops)@),
            targets_inside(height_map@, final(drops)@),
    {
        let ghost pre = drops@;
        proof {
            height_map.lemma_valid();
        }
        let mut i: usize = 0;
        while i < drops.len()
            invariant
                height_map.wf(),
                height_map@.valid(),
                i <= drops@.len(),
                drops@.len() == pre.len(),
                drops_inside(height_map@, pre),
                forall|j: int| i <= j < pre.len() ==> #[trigger] drops@[j] == pre[j],
                forall|j: int|
                    0 <= j < i ==> (#[trigger] drops@[j]) == (ReverseRain {
                        next_coords: ascent(height_map@, pre[j].x as int, pre[j].y as int),
                        ..pre[j]
                    }),
            decreases drops@.len() - i,
        {
            let d = drops[i];
            let next = height_map.steepest_ascent(d.x, d.y);
            proof {
                assert(pre[i as int] == d);
            }
            drops.set(i, ReverseRain { next_coords: next, ..d });
            i += 1;
        }
        proof {
            assert forall|j: int| 0 <= j < drops@.len() implies match (#[trigger] drops@[j]).next_coords {
                Some(c) => height_map@.in_bounds(c.0 as int, c.1 as int),
                None => true,
            } by {
                lemma_ascent_uphill(height_map@, pre[j].x as int, pre[j].y as int);
            }
        }
    }

    /// The move pass: each droplet with a planned move steps there, raises
    /// that cell by its strength and the cell's neighbours by half of it
    /// (rounded toward zero); droplets with nowhere to go are retired.
    pub fn run_mutate(drops: &mut Vec<ReverseRain>, height_map: &mut BitImage)
        requires
            old(height_map).wf(),
        ensures
            final(height_map).wf(),
            final(height_map)@ == rain_field(old(height_map)@, old(drops)@),
            old(height_map)@.envelope_within(final(height_map)@),
            final(drops)@ == survivors(old(drops)@),
    {
        let ghost pre_m = height_map@;
        let ghost pre_d = drops@;
        let mut kept: Vec<ReverseRain> = Vec::new();
        let mut i: usize = 0;
        while i < drops.len()
            invariant
                height_map.wf(),
                i <= drops@.len(),
                drops@ == pre_d,
                height_map@ == rain_field(pre_m, pre_d.subrange(0, i as int)),
                pre_m.envelope_within(height_map@),
                kept@ == survivors(pre_d.subrange(0, i as int)),
            decreases drops@.len() - i,
        {
            let d = drops[i];
            proof {
                assert(pre_d.subrange(0, i + 1).drop_last() =~= pre_d.subrange(0, i as int));
                assert(pre_d.subrange(0, i + 1).last() == d);
            }
            match d.next_coords {
                Some(c) => {
                    height_map.point_raise(c.0, c.1, d.strength);
                    height_map.neighbor_raise(c.0, c.1, d.strength / 2);
                    kept.push(ReverseRain { x: c.0, y: c.1, strength: d.strength, next_coords: d.next_coords });
                },
                None => {},
            }
            i += 1;
        }
        proof {
            assert(pre_d.subrange(0, pre_d.len() as int) =~= pre_d);
        }
        *drops = kept;
    }

    /// One simulation tick: every droplet plans its move from the same field,
    /// then all moves are applied in order.
    pub fn run_tick(drops: &mut Vec<ReverseRain>, height_map: &mut BitImage)
        requires
            old(height_map).wf(),
            drops_inside(old(height_map)@, old(drops)@),
        ensures
            final(height_map).wf(),
            (final(height_map)@, final(drops)@) == tick(old(height_map)@, old(drops)@),
            old(height_map)@.envelope_within(final(height_map)@),
            drops_inside(final(height_map)@, final(drops)@),
            final(drops)@.len() <= old(drops)@.len(),
    {
        let ghost pre_m = height_map@;
        let ghost pre_d = drops@;
        ReverseRain::run_check(drops, height_map);
        let ghost plan = drops@;
        proof {
            assert(plan =~= pre_d.map_values(|d: ReverseRain| planned(pre_m, d)));
        }
        ReverseRain::run_mutate(drops, height_map);
        proof {
            lemma_survivors_inside(plan, height_map@);
        }
    }

    /// Runs ticks until no droplet is left or `max_ticks` ticks have passed;
    /// returns the number of ticks run.
    pub fn simulate(drops: &mut Vec<ReverseRain>, height_map: &mut BitImage, max_ticks: usize) -> (r: usize)
        requires
            old(height_map).wf(),
            drops_inside(old(height_map)@, old(drops)@),
        ensures
            final(height_map).wf(),
            old(height_map)@.envelope_within(final(height_map)@),
            drops_inside(final(height_map)@, final(drops)@),
            r <= max_ticks,
            (final(height_map)@, final(drops)@) == after_ticks(old(height_map)@, old(drops)@, r as nat),
            r == max_ticks || final(drops)@.len() == 0,
            forall|k: nat| k < r ==> (#[trigger] after_ticks(old(height_map)@, old(drops)@, k)).1.len() > 0,
    {
        let ghost pre = height_map@;
        let ghost pre_d = drops@;
        let mut t: usize = 0;
        while t < max_ticks && drops.len() > 0
            invariant
                height_map.wf(),
                pre.envelope_within(height_map@),
                drops_inside(height_map@, drops@),
                t <= max_ticks,
                (height_map@, drops@) == after_ticks(pre, pre_d, t as nat),
                forall|k: nat| k < t ==> (#[trigger] after_ticks(pre, pre_d, k)).1.len() > 0,
            decreases max_ticks - t,
        {
            proof {
                lemma_after_ticks_step(pre, pre_d, t as nat);
            }
            ReverseRain::run_tick(drops, height_map);
            t += 1;
        }
        t
    }

    /// The start of an erosion stage: `count` fresh droplets of the given
    /// strength at random cells of `area`.
    pub fn spawn_batch(rand: &mut RandStruct, area: Area, count: usize, strength: i32) -> (r: Vec<
        ReverseRain,
    >)
        requires
            area.left <= area.right < u32::MAX,
            area.top <= area.bottom < u32::MAX,
        ensures
            r@.len() == count,
            forall|i: int|
                0 <= i < count ==> {
                    let d = #[trigger] r@[i];
                    &&& area.contains(d.x as int, d.y as int)
                    &&& d.strength == strength
                    &&& d.next_coords == Some((d.x, d.y))
                },
            final(rand).seed() == old(rand).seed(),
    {
        let mut r: Vec<ReverseRain> = Vec::new();
        let mut i: usize = 0;
        while i < count
            invariant
                i <= count,
                r@.len() == i,
                area.left <= area.right < u32::MAX,
                area.top <= area.bottom < u32::MAX,
                rand.seed() == old(rand).seed(),
                forall|j: int|
                    0 <= j < i ==> {
                        let d = #[trigger] r@[j];
                        &&& area.contains(d.x as int, d.y as int)
                        &&& d.strength == strength
                        &&& d.next_coords == Some((d.x, d.y))
                    },
            decreases count - i,
        {
            let x = rand.get_map_range(area.left as u32, area.right as u32) as usize;
            let y = rand.get_map_range(area.top as u32, area.bottom as u32) as usize;
            r.push(ReverseRain::new(x, y, strength));
            i += 1;
        }
        r
    }
}

} // verus!
