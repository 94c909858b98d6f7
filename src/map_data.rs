use vstd::prelude::*;

verus! {

/// The fixed-point value that stands for one unit of elevation.
pub const HEIGHT_ONE: i32 = 65536;

/// The fixed-point value of a normalized height of one.
pub const NORM_ONE: u32 = 65536;

/// A coordinate that lies outside the field.
#[derive(Debug, Clone, Copy, PartialEq, Eq, Structural)]
pub enum MapError {
    OutOfBounds { x: usize, y: usize, edge_size: usize },
}

/// `a + d`, held to the range of `i32`.
pub open spec fn sat_add(a: i32, d: i32) -> i32 {
    if a + d > i32::MAX {
        i32::MAX
    } else if a + d < i32::MIN {
        i32::MIN
    } else {
        (a + d) as i32
    }
}

/// `v` placed between `lo` and `hi` on the scale `0..=NORM_ONE`, rounded
/// down; 0 where `hi == lo`.
pub open spec fn normalized(v: i32, lo: int, hi: int) -> u32 {
    if hi <= lo {
        0
    } else {
        ((v - lo) * NORM_ONE / (hi - lo)) as u32
    }
}

/// Computes `normalized(v, lo, hi)` for `lo <= v <= hi`.
pub fn normalize(v: i32, lo: i32, hi: i32) -> (r: u32)
    requires
        lo <= v <= hi,
    ensures
        r == normalized(v, lo as int, hi as int),
        r <= NORM_ONE,
{
    if hi <= lo {
        0
    } else {
        let num: u64 = (v as i64 - lo as i64) as u64;
        let den: u64 = (hi as i64 - lo as i64) as u64;
        proof {
            assert(num * NORM_ONE <= den * NORM_ONE) by (nonlinear_arith)
                requires
                    num <= den,
            ;
            assert(den * NORM_ONE <= 0x1_0000_0000u64 * 65536) by (nonlinear_arith)
                requires
                    den <= 0x1_0000_0000u64,
            ;
            vstd::arithmetic::div_mod::lemma_div_is_ordered(
                (num * NORM_ONE) as int,
                (den * NORM_ONE) as int,
                den as int,
            );
            vstd::arithmetic::div_mod::lemma_div_by_multiple(NORM_ONE as int, den as int);
            assert(den * NORM_ONE == NORM_ONE * den) by (nonlinear_arith);
        }
        ((num * NORM_ONE as u64) / den) as u32
    }
}

/// Grey level of `v` between `lo` and `hi`: its normalized height scaled to
/// `0..=255`, rounded down.
pub open spec fn gray_of(v: i32, lo: int, hi: int) -> u8 {
    (normalized(v, lo, hi) * 255 / (NORM_ONE as int)) as u8
}

/// The mathematical content of a height field: a square of rows, and the
/// running bounds of everything stored so far.
pub struct HeightMap {
    pub rows: Seq<Seq<i32>>,
    pub edge: nat,
    pub max: int,
    pub min: int,
}

impl HeightMap {
    pub open spec fn in_bounds(self, x: int, y: int) -> bool {
        0 <= x < self.edge && 0 <= y < self.edge
    }

    pub open spec fn at(self, x: int, y: int) -> i32 {
        self.rows[y][x]
    }

    /// Every stored value lies between the running bounds, which enclose 0.
    pub open spec fn valid(self) -> bool {
        &&& 1 <= self.edge <= usize::MAX
        &&& self.edge * self.edge <= usize::MAX
        &&& self.rows.len() == self.edge
        &&& forall|y: int| 0 <= y < self.edge ==> (#[trigger] self.rows[y]).len() == self.edge
        &&& self.min <= 0 <= self.max
        &&& forall|x: int, y: int|
            self.in_bounds(x, y) ==> self.min <= #[trigger] self.at(x, y) <= self.max
    }

    /// The field after writing `v` at `(x, y)`; unchanged outside the field.
    pub open spec fn write(self, x: int, y: int, v: i32) -> HeightMap {
        if self.in_bounds(x, y) {
            HeightMap {
                rows: self.rows.update(y, self.rows[y].update(x, v)),
                edge: self.edge,
                max: if v > self.max { v as int } else { self.max },
                min: if v < self.min { v as int } else { self.min },
            }
        } else {
            self
        }
    }

    /// The field after adding `d` at `(x, y)`; unchanged outside the field.
    pub open spec fn raise(self, x: int, y: int, d: i32) -> HeightMap {
        if self.in_bounds(x, y) {
            self.write(x, y, sat_add(self.at(x, y), d))
        } else {
            self
        }
    }

    /// The field after raising each of `coords` in turn by `d`.
    pub open spec fn raise_each(self, coords: Seq<(usize, usize)>, d: i32) -> HeightMap
        decreases coords.len(),
    {
        if coords.len() == 0 {
            self
        } else {
            self.raise_each(coords.drop_last(), d).raise(
                coords.last().0 as int,
                coords.last().1 as int,
                d,
            )
        }
    }

    /// Each running bound of `other` is this field's, or is held by some
    /// cell of `other`.
    pub open spec fn bounds_attained(self, other: HeightMap) -> bool {
        &&& (other.max == self.max || exists|x: int, y: int|
            other.in_bounds(x, y) && #[trigger] other.at(x, y) == other.max)
        &&& (other.min == self.min || exists|x: int, y: int|
            other.in_bounds(x, y) && #[trigger] other.at(x, y) == other.min)
    }

    /// `other` has the same shape and bounds at least as wide as this field.
    pub open spec fn envelope_within(self, other: HeightMap) -> bool {
        &&& other.edge == self.edge
        &&& other.max >= self.max
        &&& other.min <= self.min
    }

    /// The in-bounds Moore neighbours of `(x, y)`, among the first `k` of
    /// the eight offsets, in scan order.
    pub open spec fn neighbor_prefix(self, x: int, y: int, k: nat) -> Seq<(usize, usize)>
        decreases k,
    {
        if k == 0 {
            Seq::empty()
        } else {
            let s = self.neighbor_prefix(x, y, (k - 1) as nat);
            let cx = x - 1 + offset_x((k - 1) as nat);
            let cy = y - 1 + offset_y((k - 1) as nat);
            if self.in_bounds(cx, cy) {
                s.push((cx as usize, cy as usize))
            } else {
                s
            }
        }
    }

    /// Scans `coords` in order from the value `start`, moving to each cell
    /// whose value `better` prefers over the best one so far; yields the final
    /// best value and the last cell moved to.
    pub open spec fn scan_best(
        self,
        coords: Seq<(usize, usize)>,
        start: i32,
        better: spec_fn(i32, i32) -> bool,
    ) -> (i32, Option<(usize, usize)>)
        decreases coords.len(),
    {
        if coords.len() == 0 {
            (start, None)
        } else {
            let prev = self.scan_best(coords.drop_last(), start, better);
            let c = coords.last();
            let v = self.at(c.0 as int, c.1 as int);
            if better(v, prev.0) {
                (v, Some(c))
            } else {
                prev
            }
        }
    }

    /// Folds `step` over the values at `coords`, in order, from `init`.
    pub open spec fn fold_at<A>(self, coords: Seq<(usize, usize)>, init: A, step: spec_fn(A, i32) -> A) -> A
        decreases coords.len(),
    {
        if coords.len() == 0 {
            init
        } else {
            step(
                self.fold_at(coords.drop_last(), init, step),
                self.at(coords.last().0 as int, coords.last().1 as int),
            )
        }
    }

    /// The cells in row-major order.
    pub open spec fn flat(self) -> Seq<i32> {
        Seq::new(self.edge * self.edge, |i: int| self.at(i % (self.edge as int), i / (self.edge as int)))
    }

    /// The in-bounds cells among the eight around `(x, y)`: row above left
    /// to right, then left and right, then the row below.
    pub open spec fn neighbors(self, x: int, y: int) -> Seq<(usize, usize)> {
        self.neighbor_prefix(x, y, 8)
    }
}

/// Every cell that `neighbor_prefix` yields lies in the field and is not the
/// centre.
pub proof fn lemma_neighbors_in_bounds(m: HeightMap, x: int, y: int, k: nat)
    requires
        m.edge <= usize::MAX,
    ensures
        m.neighbor_prefix(x, y, k).len() <= k,
        forall|i: int|
            0 <= i < m.neighbor_prefix(x, y, k).len() ==> {
                let c = #[trigger] m.neighbor_prefix(x, y, k)[i];
                &&& m.in_bounds(c.0 as int, c.1 as int)
                &&& (c.0 as int != x || c.1 as int != y)
            },
    decreases k,
{
    if k > 0 {
        let prev = m.neighbor_prefix(x, y, (k - 1) as nat);
        lemma_neighbors_in_bounds(m, x, y, (k - 1) as nat);
        let s = m.neighbor_prefix(x, y, k);
        assert forall|i: int| 0 <= i < s.len() implies {
            let c = #[trigger] s[i];
            &&& m.in_bounds(c.0 as int, c.1 as int)
            &&& (c.0 as int != x || c.1 as int != y)
        } by {
            if i < prev.len() {
                assert(s[i] == prev[i]);
            }
        }
    }
}

/// Strict "greater than" on elevations.
pub open spec fn greater() -> spec_fn(i32, i32) -> bool {
    |a: i32, b: i32| a > b
}

/// Strict "greater than" as a comparison to pass to a scan.
fn greater_than(a: i32, b: i32) -> (t: bool)
    ensures
        t == (a > b),
{
    a > b
}

/// The relation "`f(a, b)` returns true", for a comparison `f`.
pub open spec fn prefers<F: Fn(i32, i32) -> bool>(f: F) -> spec_fn(i32, i32) -> bool {
    |a: i32, b: i32| f.ensures((a, b), true)
}

/// The function computed by a deterministic fold step `f`.
pub open spec fn fold_fn<A, F: Fn(A, i32) -> A>(f: F) -> spec_fn(A, i32) -> A {
    |a: A, v: i32| choose|r: A| f.ensures((a, v), r)
}

/// The eight offsets are pairwise different.
proof fn lemma_offsets_distinct(i: nat, j: nat)
    requires
        i < j < 8,
    ensures
        offset_x(i) != offset_x(j) || offset_y(i) != offset_y(j),
{
}

/// The Moore neighbours yielded are pairwise different, each one of the
/// first `k` offsets.
pub proof fn lemma_neighbors_distinct(m: HeightMap, x: int, y: int, k: nat)
    requires
        m.edge <= usize::MAX,
        k <= 8,
    ensures
        forall|i: int, j: int|
            #![trigger m.neighbor_prefix(x, y, k)[i], m.neighbor_prefix(x, y, k)[j]]
            0 <= i < j < m.neighbor_prefix(x, y, k).len() ==> m.neighbor_prefix(x, y, k)[i]
                != m.neighbor_prefix(x, y, k)[j],
        forall|i: int|
            0 <= i < m.neighbor_prefix(x, y, k).len() ==> exists|kk: nat|
                kk < k && (#[trigger] m.neighbor_prefix(x, y, k)[i]).0 as int == x - 1 + offset_x(kk)
                    && m.neighbor_prefix(x, y, k)[i].1 as int == y - 1 + offset_y(kk),
    decreases k,
{
    if k > 0 {
        let prev = m.neighbor_prefix(x, y, (k - 1) as nat);
        lemma_neighbors_distinct(m, x, y, (k - 1) as nat);
        lemma_neighbors_in_bounds(m, x, y, (k - 1) as nat);
        let s = m.neighbor_prefix(x, y, k);
        let cx = x - 1 + offset_x((k - 1) as nat);
        let cy = y - 1 + offset_y((k - 1) as nat);
        assert forall|i: int| 0 <= i < s.len() implies exists|kk: nat|
            kk < k && (#[trigger] s[i]).0 as int == x - 1 + offset_x(kk) && s[i].1 as int == y - 1
                + offset_y(kk) by {
            if i < prev.len() {
                assert(s[i] == prev[i]);
            } else {
                assert(s[i].0 as int == cx && s[i].1 as int == cy);
            }
        }
        assert forall|i: int, j: int| #![trigger s[i], s[j]] 0 <= i < j < s.len() implies s[i] != s[j] by {
            if j < prev.len() {
                assert(s[i] == prev[i] && s[j] == prev[j]);
            } else {
                assert(s[i] == prev[i]);
                let kk = choose|kk: nat|
                    kk < k - 1 && (#[trigger] prev[i]).0 as int == x - 1 + offset_x(kk)
                        && prev[i].1 as int == y - 1 + offset_y(kk);
                lemma_offsets_distinct(kk, (k - 1) as nat);
            }
        }
    }
}

/// Raising distinct in-bounds cells, each holding at most `b`, by `d >= 0`
/// leaves every other cell alone and lifts the running maximum to at most
/// `b + d` (held to `i32`).
pub proof fn lemma_raise_each_bound(m: HeightMap, coords: Seq<(usize, usize)>, d: i32, b: int)
    requires
        m.valid(),
        d >= 0,
        forall|i: int, j: int| #![trigger coords[i], coords[j]] 0 <= i < j < coords.len() ==> coords[i] != coords[j],
        forall|i: int|
            0 <= i < coords.len() ==> m.in_bounds((#[trigger] coords[i]).0 as int, coords[i].1 as int),
        forall|i: int|
            0 <= i < coords.len() ==> m.at((#[trigger] coords[i]).0 as int, coords[i].1 as int) <= b,
    ensures
        m.raise_each(coords, d).valid(),
        m.raise_each(coords, d).edge == m.edge,
        m.raise_each(coords, d).max <= (if m.max >= b + d || m.max >= i32::MAX {
            m.max
        } else if b + d > i32::MAX {
            i32::MAX as int
        } else {
            b + d
        }),
        forall|x: int, y: int|
            m.in_bounds(x, y) && !coords.contains((x as usize, y as usize)) ==> #[trigger] m.raise_each(
                coords,
                d,
            ).at(x, y) == m.at(x, y),
    decreases coords.len(),
{
    if coords.len() > 0 {
        let rest = coords.drop_last();
        let c = coords.last();
        assert forall|i: int, j: int| #![trigger rest[i], rest[j]] 0 <= i < j < rest.len() implies rest[i] != rest[j] by {
            assert(rest[i] == coords[i] && rest[j] == coords[j]);
        }
        assert forall|i: int| 0 <= i < rest.len() implies m.in_bounds(
            (#[trigger] rest[i]).0 as int,
            rest[i].1 as int,
        ) && m.at(rest[i].0 as int, rest[i].1 as int) <= b by {
            assert(rest[i] == coords[i]);
        }
        lemma_raise_each_bound(m, rest, d, b);
        let r1 = m.raise_each(rest, d);
        assert(c == coords[coords.len() - 1]);
        assert(m.in_bounds(c.0 as int, c.1 as int));
        assert(!rest.contains(c)) by {
            if rest.contains(c) {
                let i = choose|i: int| 0 <= i < rest.len() && rest[i] == c;
                assert(coords[i] == coords[coords.len() - 1]);
            }
        }
        assert((c.0 as int) as usize == c.0 && (c.1 as int) as usize == c.1);
        assert(r1.at(c.0 as int, c.1 as int) == m.at(c.0 as int, c.1 as int));
        lemma_edit_keeps_valid(r1, FieldEdit::Raise { x: c.0 as int, y: c.1 as int, d });
        let r = r1.raise(c.0 as int, c.1 as int, d);
        assert forall|x: int, y: int|
            m.in_bounds(x, y) && !coords.contains((x as usize, y as usize)) implies #[trigger] r.at(x, y)
            == m.at(x, y) by {
            assert(!rest.contains((x as usize, y as usize))) by {
                if rest.contains((x as usize, y as usize)) {
                    let i = choose|i: int| 0 <= i < rest.len() && rest[i] == (x as usize, y as usize);
                    assert(coords[i] == rest[i]);
                }
            }
            if x == c.0 as int && y == c.1 as int {
                assert(coords[coords.len() - 1] == (x as usize, y as usize));
            }
            assert(r.at(x, y) == r1.at(x, y));
        }
    }
}

/// Column offset (plus one) of the `k`-th Moore neighbour.
pub open spec fn offset_x(k: nat) -> int {
    if k == 0 || k == 3 || k == 5 {
        0
    } else if k == 1 || k == 6 {
        1
    } else {
        2
    }
}

/// Row offset (plus one) of the `k`-th Moore neighbour.
pub open spec fn offset_y(k: nat) -> int {
    if k <= 2 {
        0
    } else if k <= 4 {
        1
    } else {
        2
    }
}

fn offset_x_exec(k: usize) -> (r: usize)
    requires
        k < 8,
    ensures
        r as int == offset_x(k as nat),
{
    if k == 0 || k == 3 || k == 5 {
        0
    } else if k == 1 || k == 6 {
        1
    } else {
        2
    }
}

fn offset_y_exec(k: usize) -> (r: usize)
    requires
        k < 8,
    ensures
        r as int == offset_y(k as nat),
{
    if k <= 2 {
        0
    } else if k <= 4 {
        1
    } else {
        2
    }
}

/// `c - 1 + d` where that lies in `0..edge`.
fn shifted(c: usize, d: usize, edge: usize) -> (r: Option<usize>)
    requires
        d <= 2,
    ensures
        r == (if 0 <= c - 1 + d < edge {
            Some((c - 1 + d) as usize)
        } else {
            None::<usize>
        }),
{
    if d == 0 {
        if c > 0 && c - 1 < edge {
            Some(c - 1)
        } else {
            None
        }
    } else if d == 1 {
        if c < edge {
            Some(c)
        } else {
            None
        }
    } else {
        if edge > 0 && c < edge - 1 {
            Some(c + 1)
        } else {
            None
        }
    }
}

proof fn lemma_flat_index(edge: int, x: int, y: int)
    requires
        0 <= x < edge,
        0 <= y < edge,
    ensures
        0 <= y * edge + x < edge * edge,
        (y * edge + x) / edge == y,
        (y * edge + x) % edge == x,
{
    assert(0 <= y * edge) by (nonlinear_arith)
        requires
            0 <= y,
            0 <= edge,
    ;
    assert(y * edge + x < edge * edge) by (nonlinear_arith)
        requires
            0 <= x < edge,
            0 <= y < edge,
    ;
    vstd::arithmetic::div_mod::lemma_fundamental_div_mod_converse(y * edge + x, edge, y, x);
}

/// A square grid of elevations, stored row by row, with the running maximum
/// and minimum of every value written to it.
pub struct BitImage {
    data: Vec<i32>,
    edge_size: usize,
    max_height: i32,
    min_height: i32,
}

impl View for BitImage {
    type V = HeightMap;

    closed spec fn view(&self) -> HeightMap {
        HeightMap {
            rows: Seq::new(
                self.edge_size as nat,
                |y: int| Seq::new(self.edge_size as nat, |x: int| self.data@[y * self.edge_size + x]),
            ),
            edge: self.edge_size as nat,
            max: self.max_height as int,
            min: self.min_height as int,
        }
    }
}

impl BitImage {
    spec fn inner_ok(&self) -> bool {
        &&& self.data@.len() == self.edge_size * self.edge_size
        &&& self.edge_size * self.edge_size <= usize::MAX
    }

    /// The field is well formed.
    pub closed spec fn wf(&self) -> bool {
        self.inner_ok() && self@.valid()
    }

    proof fn lemma_view_at(&self, x: int, y: int)
        requires
            self.inner_ok(),
            0 <= x < self.edge_size,
            0 <= y < self.edge_size,
        ensures
            0 <= y * self.edge_size + x < self.data@.len(),
            self@.at(x, y) == self.data@[y * self.edge_size + x],
    {
        lemma_flat_index(self.edge_size as int, x, y);
    }

    /// A field of `(unit_count + 1)²` zeros.
    pub fn new(unit_count: usize) -> (r: BitImage)
        requires
            (unit_count + 1) * (unit_count + 1) <= usize::MAX,
        ensures
            r.wf(),
            r@.edge == unit_count + 1,
            r@.max == 0,
            r@.min == 0,
            forall|x: int, y: int| r@.in_bounds(x, y) ==> #[trigger] r@.at(x, y) == 0,
    {
        proof {
            assert(unit_count + 1 <= usize::MAX) by (nonlinear_arith)
                requires
                    (unit_count + 1) * (unit_count + 1) <= usize::MAX,
            ;
        }
        let len = unit_count + 1;
        let data = vec![0i32; len * len];
        let r = BitImage { data, edge_size: len, max_height: 0, min_height: 0 };
        proof {
            assert forall|x: int, y: int| r@.in_bounds(x, y) implies #[trigger] r@.at(x, y) == 0 by {
                r.lemma_view_at(x, y);
            }
        }
        r
    }

    /// A well-formed field has a valid view.
    pub proof fn lemma_valid(&self)
        requires
            self.wf(),
        ensures
            self@.valid(),
    {
    }

    /// A copy of the field.
    pub fn snapshot(&self) -> (r: BitImage)
        requires
            self.wf(),
        ensures
            r.wf(),
            r@ == self@,
    {
        BitImage {
            data: self.data.clone(),
            edge_size: self.edge_size,
            max_height: self.max_height,
            min_height: self.min_height,
        }
    }

    /// Number of cells along one edge.
    pub fn edge_size(&self) -> (r: usize)
        ensures
            r == self@.edge,
    {
        self.edge_size
    }

    /// The largest value stored so far (at least 0).
    pub fn max_height(&self) -> (r: i32)
        ensures
            r == self@.max,
    {
        self.max_height
    }

    /// The smallest value stored so far (at most 0).
    pub fn min_height(&self) -> (r: i32)
        ensures
            r == self@.min,
    {
        self.min_height
    }

    fn check_coords(&self, x: usize, y: usize) -> (r: Result<(), MapError>)
        ensures
            r is Ok <==> self@.in_bounds(x as int, y as int),
            r is Err ==> r == Err::<(), MapError>(
                MapError::OutOfBounds { x, y, edge_size: self.edge_size },
            ),
    {
        if x >= self.edge_size || y >= self.edge_size {
            Err(MapError::OutOfBounds { x, y, edge_size: self.edge_size })
        } else {
            Ok(())
        }
    }

    /// The value at `(x, y)`, or `OutOfBounds`.
    pub fn get(&self, x: usize, y: usize) -> (r: Result<i32, MapError>)
        requires
            self.wf(),
        ensures
            self@.in_bounds(x as int, y as int) ==> r == Ok::<i32, MapError>(
                self@.at(x as int, y as int),
            ),
            !self@.in_bounds(x as int, y as int) ==> r == Err::<i32, MapError>(
                MapError::OutOfBounds { x, y, edge_size: self@.edge as usize },
            ),
    {
        match self.check_coords(x, y) {
            Ok(()) => {
                proof {
                    self.lemma_view_at(x as int, y as int);
                }
                Ok(self.data[y * self.edge_size + x])
            },
            Err(e) => Err(e),
        }
    }

    /// Writes `v` at an in-bounds cell and widens the running bounds.
    fn store(&mut self, x: usize, y: usize, v: i32)
        requires
            old(self).wf(),
            old(self)@.in_bounds(x as int, y as int),
        ensures
            final(self).wf(),
            final(self)@ == old(self)@.write(x as int, y as int, v),
    {
        let ghost pre = self@;
        proof {
            self.lemma_view_at(x as int, y as int);
        }
        let idx = y * self.edge_size + x;
        self.data.set(idx, v);
        if v > self.max_height {
            self.max_height = v;
        } else if v < self.min_height {
            self.min_height = v;
        }
        let ghost want = pre.write(x as int, y as int, v);
        proof {
            let e = self.edge_size as int;
            assert forall|yy: int, xx: int| 0 <= yy < e && 0 <= xx < e implies self@.rows[yy][xx]
                == want.rows[yy][xx] by {
                lemma_flat_index(e, xx, yy);
                lemma_flat_index(e, x as int, y as int);
            }
            assert(self@.rows =~~= want.rows);
            assert(self@ == want);
            assert forall|xx: int, yy: int| self@.in_bounds(xx, yy) implies self@.min <= #[trigger] self@.at(
                xx,
                yy,
            ) <= self@.max by {
                assert(pre.in_bounds(xx, yy));
                if xx != x || yy != y {
                    assert(want.at(xx, yy) == pre.at(xx, yy));
                }
            }
        }
    }

    /// Writes `v` at `(x, y)`, widening the running bounds to take it in;
    /// `OutOfBounds` leaves the field unchanged.
    pub fn point_set(&mut self, x: usize, y: usize, v: i32) -> (r: Result<(), MapError>)
        requires
            old(self).wf(),
        ensures
            final(self).wf(),
            final(self)@ == old(self)@.write(x as int, y as int, v),
            old(self)@.in_bounds(x as int, y as int) ==> r == Ok::<(), MapError>(()),
            !old(self)@.in_bounds(x as int, y as int) ==> r == Err::<(), MapError>(
                MapError::OutOfBounds { x, y, edge_size: old(self)@.edge as usize },
            ),
    {
        match self.check_coords(x, y) {
            Ok(()) => {
                self.store(x, y, v);
                Ok(())
            },
            Err(e) => Err(e),
        }
    }

    /// Adds `d` (held to the range of `i32`) at `(x, y)`; a coordinate
    /// outside the field is ignored.
    pub fn point_raise(&mut self, x: usize, y: usize, d: i32)
        requires
            old(self).wf(),
        ensures
            final(self).wf(),
            final(self)@ == old(self)@.raise(x as int, y as int, d),
            old(self)@.envelope_within(final(self)@),
    {
        proof {
            lemma_edit_keeps_valid(self@, FieldEdit::Raise { x: x as int, y: y as int, d });
        }
        if let Ok(c) = self.get(x, y) {
            let sum: i64 = c as i64 + d as i64;
            let v: i32 = if sum > i32::MAX as i64 {
                i32::MAX
            } else if sum < i32::MIN as i64 {
                i32::MIN
            } else {
                sum as i32
            };
            self.store(x, y, v);
        }
    }

    /// The in-bounds Moore neighbours of `(x, y)`, in scan order.
    pub fn get_neighbors(&self, x: usize, y: usize) -> (r: Vec<(usize, usize)>)
        ensures
            r@ == self@.neighbors(x as int, y as int),
    {
        let mut r: Vec<(usize, usize)> = Vec::new();
        let mut k: usize = 0;
        while k < 8
            invariant
                k <= 8,
                r@ == self@.neighbor_prefix(x as int, y as int, k as nat),
            decreases 8 - k,
        {
            let cx = shifted(x, offset_x_exec(k), self.edge_size);
            let cy = shifted(y, offset_y_exec(k), self.edge_size);
            match (cx, cy) {
                (Some(cx), Some(cy)) => r.push((cx, cy)),
                _ => {},
            }
            k += 1;
        }
        r
    }

    /// Raises each in-bounds Moore neighbour of `(x, y)` by `d`.
    pub fn neighbor_raise(&mut self, x: usize, y: usize, d: i32)
        requires
            old(self).wf(),
        ensures
            final(self).wf(),
            final(self)@ == old(self)@.raise_each(old(self)@.neighbors(x as int, y as int), d),
            old(self)@.envelope_within(final(self)@),
    {
        let ghost pre = self@;
        let ns = self.get_neighbors(x, y);
        let mut i: usize = 0;
        while i < ns.len()
            invariant
                i <= ns@.len(),
                ns@ == pre.neighbors(x as int, y as int),
                self.wf(),
                self@ == pre.raise_each(ns@.subrange(0, i as int), d),
                pre.envelope_within(self@),
            decreases ns@.len() - i,
        {
            let (cx, cy) = ns[i];
            proof {
                assert(ns@.subrange(0, i + 1).drop_last() =~= ns@.subrange(0, i as int));
            }
            self.point_raise(cx, cy, d);
            i += 1;
        }
        proof {
            assert(ns@.subrange(0, ns@.len() as int) =~= ns@);
        }
    }

    /// The scan shared by `compare_to_neighbors` and `steepest_ascent`:
    /// `compare` answers as the relation `better` does.
    fn scan_neighbors<F: Fn(i32, i32) -> bool>(
        &self,
        x: usize,
        y: usize,
        compare: F,
        Ghost(better): Ghost<spec_fn(i32, i32) -> bool>,
    ) -> (r: Option<(usize, usize)>)
        requires
            self.wf(),
            self@.in_bounds(x as int, y as int),
            forall|a: i32, b: i32| compare.requires((a, b)),
            forall|a: i32, b: i32, t: bool| compare.ensures((a, b), t) ==> t == better(a, b),
        ensures
            r == self@.scan_best(
                self@.neighbors(x as int, y as int),
                self@.at(x as int, y as int),
                better,
            ).1,
    {
        let ns = self.get_neighbors(x, y);
        proof {
            lemma_neighbors_in_bounds(self@, x as int, y as int, 8);
        }
        let mut best = self.get_ignore(x, y);
        let mut best_coord: Option<(usize, usize)> = None;
        let mut i: usize = 0;
        while i < ns.len()
            invariant
                i <= ns@.len(),
                self.wf(),
                ns@ == self@.neighbors(x as int, y as int),
                forall|a: i32, b: i32| compare.requires((a, b)),
                forall|a: i32, b: i32, t: bool| compare.ensures((a, b), t) ==> t == better(a, b),
                forall|j: int|
                    0 <= j < ns@.len() ==> self@.in_bounds(
                        (#[trigger] ns@[j]).0 as int,
                        ns@[j].1 as int,
                    ),
                (best, best_coord) == self@.scan_best(
                    ns@.subrange(0, i as int),
                    self@.at(x as int, y as int),
                    better,
                ),
            decreases ns@.len() - i,
        {
            let c = ns[i];
            let current = self.get_ignore(c.0, c.1);
            let take = compare(current, best);
            proof {
                assert(ns@.subrange(0, i + 1).drop_last() =~= ns@.subrange(0, i as int));
            }
            if take {
                best = current;
                best_coord = Some(c);
            }
            i += 1;
        }
        proof {
            assert(ns@.subrange(0, ns@.len() as int) =~= ns@);
        }
        best_coord
    }

    /// Scans the Moore neighbours of `(x, y)` from the value at `(x, y)`,
    /// moving to every neighbour for which `compare(neighbour, best)` holds;
    /// returns the last neighbour moved to, or `None`.
    pub fn compare_to_neighbors<F: Fn(i32, i32) -> bool>(
        &self,
        x: usize,
        y: usize,
        compare: F,
    ) -> (r: Option<(usize, usize)>)
        requires
            self.wf(),
            self@.in_bounds(x as int, y as int),
            forall|a: i32, b: i32| compare.requires((a, b)),
            forall|a: i32, b: i32|
                !(compare.ensures((a, b), true) && compare.ensures((a, b), false)),
        ensures
            r == self@.scan_best(
                self@.neighbors(x as int, y as int),
                self@.at(x as int, y as int),
                prefers(compare),
            ).1,
    {
        proof {
            assert forall|a: i32, b: i32, t: bool| compare.ensures((a, b), t) implies t == prefers(compare)(
                a,
                b,
            ) by {
                if !t {
                    assert(!compare.ensures((a, b), true));
                }
            }
        }
        self.scan_neighbors(x, y, compare, Ghost(prefers(compare)))
    }

    /// `compare_to_neighbors` under strict "greater than": the neighbour of
    /// steepest ascent, or `None` on a local peak.
    pub fn steepest_ascent(&self, x: usize, y: usize) -> (r: Option<(usize, usize)>)
        requires
            self.wf(),
            self@.in_bounds(x as int, y as int),
        ensures
            r == self@.scan_best(
                self@.neighbors(x as int, y as int),
                self@.at(x as int, y as int),
                greater(),
            ).1,
    {
        self.scan_neighbors(x, y, greater_than, Ghost(greater()))
    }

    /// Folds `fold` over the values of the Moore neighbours of `(x, y)`, in
    /// scan order, starting from `initial`.
    pub fn reduce_neighbors<A, F: Fn(A, i32) -> A>(&self, x: usize, y: usize, initial: A, fold: F) -> (r: A)
        requires
            self.wf(),
            forall|a: A, v: i32| fold.requires((a, v)),
            forall|a: A, v: i32, r1: A, r2: A|
                fold.ensures((a, v), r1) && fold.ensures((a, v), r2) ==> r1 == r2,
        ensures
            r == self@.fold_at(self@.neighbors(x as int, y as int), initial, fold_fn(fold)),
    {
        let ghost step = fold_fn(fold);
        let ns = self.get_neighbors(x, y);
        proof {
            self.lemma_valid();
            lemma_neighbors_in_bounds(self@, x as int, y as int, 8);
        }
        let mut acc = initial;
        let mut i: usize = 0;
        while i < ns.len()
            invariant
                i <= ns@.len(),
                self.wf(),
                ns@ == self@.neighbors(x as int, y as int),
                step == fold_fn(fold),
                forall|a: A, v: i32| fold.requires((a, v)),
                forall|a: A, v: i32, r1: A, r2: A|
                    fold.ensures((a, v), r1) && fold.ensures((a, v), r2) ==> r1 == r2,
                forall|j: int|
                    0 <= j < ns@.len() ==> self@.in_bounds(
                        (#[trigger] ns@[j]).0 as int,
                        ns@[j].1 as int,
                    ),
                acc == self@.fold_at(ns@.subrange(0, i as int), initial, step),
            decreases ns@.len() - i,
        {
            let c = ns[i];
            let v = self.get_ignore(c.0, c.1);
            let ghost prev = acc;
            acc = fold(acc, v);
            proof {
                assert(ns@.subrange(0, i + 1).drop_last() =~= ns@.subrange(0, i as int));
                assert(fold.ensures((prev, v), acc));
                assert(step(prev, v) == acc);
            }
            i += 1;
        }
        proof {
            assert(ns@.subrange(0, ns@.len() as int) =~= ns@);
        }
        acc
    }

    /// The value at `(x, y)` scaled into `0..=NORM_ONE` between the running
    /// minimum and maximum (rounded down); 0 on a flat field.
    pub fn get_normalized(&self, x: usize, y: usize) -> (r: Result<u32, MapError>)
        requires
            self.wf(),
        ensures
            self@.in_bounds(x as int, y as int) ==> r == Ok::<u32, MapError>(
                normalized(self@.at(x as int, y as int), self@.min, self@.max),
            ),
            !self@.in_bounds(x as int, y as int) ==> r == Err::<u32, MapError>(
                MapError::OutOfBounds { x, y, edge_size: self@.edge as usize },
            ),
    {
        match self.get(x, y) {
            Ok(v) => Ok(normalize(v, self.min_height, self.max_height)),
            Err(e) => Err(e),
        }
    }

    proof fn lemma_flat(&self, i: int)
        requires
            self.wf(),
            0 <= i < self.data@.len(),
        ensures
            self@.flat()[i] == self.data@[i],
            self@.in_bounds(i % (self.edge_size as int), i / (self.edge_size as int)),
    {
        let e = self.edge_size as int;
        let q = i / e;
        let r = i % e;
        vstd::arithmetic::div_mod::lemma_fundamental_div_mod(i, e);
        vstd::arithmetic::div_mod::lemma_mod_bound(i, e);
        vstd::arithmetic::div_mod::lemma_div_pos_is_pos(i, e);
        assert(q < e) by (nonlinear_arith)
            requires
                i == e * q + r,
                0 <= r < e,
                i < e * e,
                e > 0,
        ;
        assert(e * q == q * e) by (nonlinear_arith);
        self.lemma_view_at(r, q);
    }

    /// All elevations in row-major order.
    pub fn get_heightmap(&self) -> (r: Vec<i32>)
        requires
            self.wf(),
        ensures
            r@ == self@.flat(),
    {
        proof {
            assert forall|i: int| 0 <= i < self.data@.len() implies self@.flat()[i] == self.data@[i] by {
                self.lemma_flat(i);
            }
            assert(self@.flat() =~= self.data@);
        }
        self.data.clone()
    }

    /// A walk over the elevations in row-major order.
    pub fn get_heightmap_iter(&self) -> (r: HeightMapIter<'_>)
        requires
            self.wf(),
        ensures
            r.values() == self@.flat(),
            r.position() == 0,
    {
        proof {
            assert forall|i: int| 0 <= i < self.data@.len() implies self@.flat()[i] == self.data@[i] by {
                self.lemma_flat(i);
            }
            assert(self@.flat() =~= self.data@);
        }
        HeightMapIter::new(&self.data)
    }

    /// A walk over the normalized elevations in row-major order.
    pub fn get_heightmap_norm_iter(&self) -> (r: HeightMapNormIter<'_>)
        requires
            self.wf(),
        ensures
            r.wf(),
            r.values() == self@.flat(),
            r.bounds() == (self@.min, self@.max),
            r.position() == 0,
    {
        proof {
            assert forall|i: int| 0 <= i < self.data@.len() implies self@.flat()[i] == self.data@[i] by {
                self.lemma_flat(i);
            }
            assert(self@.flat() =~= self.data@);
            assert forall|i: int| 0 <= i < self.data@.len() implies self@.min <= #[trigger] self.data@[i]
                <= self@.max by {
                self.lemma_flat(i);
            }
        }
        HeightMapNormIter::new(&self.data, self.max_height, self.min_height)
    }

    /// A grey-scale RGBA preview: four bytes per cell in row-major order, the
    /// grey level of the cell's normalized height, then an opaque alpha.
    pub fn convert_to_rgba(&self) -> (r: Vec<u8>)
        requires
            self.wf(),
        ensures
            r@.len() == 4 * self@.flat().len(),
            forall|i: int|
                0 <= i < self@.flat().len() ==> {
                    let g = gray_of(#[trigger] self@.flat()[i], self@.min, self@.max);
                    &&& r@[4 * i] == g
                    &&& r@[4 * i + 1] == g
                    &&& r@[4 * i + 2] == g
                    &&& r@[4 * i + 3] == 255
                },
    {
        let mut out: Vec<u8> = Vec::new();
        let mut i: usize = 0;
        while i < self.data.len()
            invariant
                self.wf(),
                i <= self.data@.len(),
                out@.len() == 4 * i,
                forall|j: int|
                    0 <= j < i ==> {
                        let g = gray_of(#[trigger] self.data@[j], self@.min, self@.max);
                        &&& out@[4 * j] == g
                        &&& out@[4 * j + 1] == g
                        &&& out@[4 * j + 2] == g
                        &&& out@[4 * j + 3] == 255
                    },
            decreases self.data@.len() - i,
        {
            let v = self.data[i];
            proof {
                self.lemma_flat(i as int);
                assert(self@.in_bounds((i as int) % (self.edge_size as int), (i as int) / (self.edge_size as int)));
            }
            let n = normalize(v, self.min_height, self.max_height);
            let g = (n as u64 * 255 / NORM_ONE as u64) as u8;
            proof {
                assert((n as int) * 255 / 65536 <= 255) by (nonlinear_arith)
                    requires
                        n <= NORM_ONE,
                ;
            }
            out.push(g);
            out.push(g);
            out.push(g);
            out.push(255);
            i += 1;
        }
        proof {
            assert forall|i: int| 0 <= i < self.data@.len() implies self@.flat()[i] == self.data@[i] by {
                self.lemma_flat(i);
            }
        }
        proof {
            assert(self@.flat().len() == self.data@.len());
        }
        out
    }

    /// The value at `(x, y)`, or 0 outside the field.
    pub fn get_ignore(&self, x: usize, y: usize) -> (r: i32)
        requires
            self.wf(),
        ensures
            r == (if self@.in_bounds(x as int, y as int) {
                self@.at(x as int, y as int)
            } else {
                0
            }),
    {
        match self.get(x, y) {
            Ok(v) => v,
            Err(_) => 0,
        }
    }
}

/// A walk over a row-major sequence of elevations.
pub struct HeightMapIter<'a> {
    array: &'a Vec<i32>,
    index: usize,
}

impl<'a> HeightMapIter<'a> {
    pub closed spec fn values(&self) -> Seq<i32> {
        self.array@
    }

    pub closed spec fn position(&self) -> nat {
        self.index as nat
    }

    pub fn new(array: &'a Vec<i32>) -> (r: Self)
        ensures
            r.values() == array@,
            r.position() == 0,
    {
        HeightMapIter { array, index: 0 }
    }

    /// The next elevation, or `None` once all have been handed out.
    pub fn next(&mut self) -> (r: Option<i32>)
        ensures
            final(self).values() == old(self).values(),
            old(self).position() < old(self).values().len() ==> {
                &&& r == Some(old(self).values()[old(self).position() as int])
                &&& final(self).position() == old(self).position() + 1
            },
            old(self).position() >= old(self).values().len() ==> {
                &&& r is None
                &&& final(self).position() == old(self).position()
            },
    {
        if self.index < self.array.len() {
            let v = self.array[self.index];
            self.index += 1;
            Some(v)
        } else {
            None
        }
    }
}

/// A walk over a row-major sequence of elevations, each normalized between
/// a minimum and a maximum.
pub struct HeightMapNormIter<'a> {
    array: &'a Vec<i32>,
    index: usize,
    max: i32,
    min: i32,
}

impl<'a> HeightMapNormIter<'a> {
    pub closed spec fn values(&self) -> Seq<i32> {
        self.array@
    }

    pub closed spec fn position(&self) -> nat {
        self.index as nat
    }

    pub closed spec fn bounds(&self) -> (int, int) {
        (self.min as int, self.max as int)
    }

    /// Every value lies within the bounds.
    pub open spec fn wf(&self) -> bool {
        forall|i: int|
            0 <= i < self.values().len() ==> self.bounds().0 <= #[trigger] self.values()[i]
                <= self.bounds().1
    }

    pub fn new(array: &'a Vec<i32>, max: i32, min: i32) -> (r: Self)
        ensures
            r.values() == array@,
            r.bounds() == (min as int, max as int),
            r.position() == 0,
    {
        HeightMapNormIter { array, index: 0, max, min }
    }

    /// The next normalized elevation, or `None` once all have been handed out.
    pub fn next(&mut self) -> (r: Option<u32>)
        requires
            old(self).wf(),
        ensures
            final(self).wf(),
            final(self).values() == old(self).values(),
            final(self).bounds() == old(self).bounds(),
            old(self).position() < old(self).values().len() ==> {
                &&& r == Some(
                    normalized(
                        old(self).values()[old(self).position() as int],
                        old(self).bounds().0,
                        old(self).bounds().1,
                    ),
                )
                &&& final(self).position() == old(self).position() + 1
            },
            old(self).position() >= old(self).values().len() ==> {
                &&& r is None
                &&& final(self).position() == old(self).position()
            },
    {
        if self.index < self.array.len() {
            let v = self.array[self.index];
            self.index += 1;
            Some(normalize(v, self.min, self.max))
        } else {
            None
        }
    }
}

} // verus!

verus! {

/// One mutation of a field: an overwrite or a tolerant raise.
pub enum FieldEdit {
    Write { x: int, y: int, v: i32 },
    Raise { x: int, y: int, d: i32 },
}

impl HeightMap {
    pub open spec fn apply(self, e: FieldEdit) -> HeightMap {
        match e {
            FieldEdit::Write { x, y, v } => self.write(x, y, v),
            FieldEdit::Raise { x, y, d } => self.raise(x, y, d),
        }
    }

    /// The field after applying `edits` in order.
    pub open spec fn apply_all(self, edits: Seq<FieldEdit>) -> HeightMap
        decreases edits.len(),
    {
        if edits.len() == 0 {
            self
        } else {
            self.apply_all(edits.drop_last()).apply(edits.last())
        }
    }
}

/// Writing a value at an in-bounds cell and reading it back yields that
/// value; the field stays well formed.
pub proof fn lemma_set_then_get(m: HeightMap, x: int, y: int, v: i32)
    requires
        m.valid(),
        m.in_bounds(x, y),
    ensures
        m.write(x, y, v).valid(),
        m.write(x, y, v).at(x, y) == v,
{
    lemma_edit_keeps_valid(m, FieldEdit::Write { x, y, v });
}

/// Outside the field, writes and raises change nothing.
pub proof fn lemma_out_of_bounds_untouched(m: HeightMap, x: int, y: int, v: i32)
    requires
        !m.in_bounds(x, y),
    ensures
        m.write(x, y, v) == m,
        m.raise(x, y, v) == m,
{
}

/// A single write or raise keeps the field well formed and never narrows its
/// running bounds.
pub proof fn lemma_edit_keeps_valid(m: HeightMap, e: FieldEdit)
    requires
        m.valid(),
    ensures
        m.apply(e).valid(),
        m.envelope_within(m.apply(e)),
{
    let (x, y, v) = match e {
        FieldEdit::Write { x, y, v } => (x, y, v),
        FieldEdit::Raise { x, y, d } => (x, y, sat_add(m.at(x, y), d)),
    };
    if m.in_bounds(x, y) {
        let n = m.write(x, y, v);
        assert(n == m.apply(e));
        assert forall|y2: int| 0 <= y2 < n.edge implies (#[trigger] n.rows[y2]).len() == n.edge by {
            if y2 != y {
                assert(n.rows[y2] == m.rows[y2]);
            }
        }
        assert forall|xx: int, yy: int| n.in_bounds(xx, yy) implies n.min <= #[trigger] n.at(xx, yy)
            <= n.max by {
            if xx != x || yy != y {
                assert(n.at(xx, yy) == m.at(xx, yy));
            }
        }
    }
}

/// Over any sequence of writes and raises, the running maximum never
/// decreases and the running minimum never increases, and every stored
/// value stays between them.
pub proof fn lemma_envelope_monotone(m: HeightMap, edits: Seq<FieldEdit>)
    requires
        m.valid(),
    ensures
        forall|i: int| 0 <= i <= edits.len() ==> (#[trigger] m.apply_all(edits.take(i))).valid(),
        forall|i: int|
            0 <= i < edits.len() ==> m.apply_all(edits.take(i)).envelope_within(
                #[trigger] m.apply_all(edits.take(i + 1)),
            ),
    decreases edits.len(),
{
    if edits.len() > 0 {
        let rest = edits.drop_last();
        lemma_envelope_monotone(m, rest);
        assert forall|i: int| 0 <= i <= rest.len() implies #[trigger] edits.take(i) == rest.take(i) by {
            assert(edits.take(i) =~= rest.take(i));
        }
        let n = edits.len() as int;
        assert(edits.take(n) =~= edits);
        assert(edits.take(n).drop_last() =~= rest.take(n - 1));
        assert(rest.take(n - 1) =~= rest);
        lemma_edit_keeps_valid(m.apply_all(rest), edits.last());
        assert forall|i: int| 0 <= i < edits.len() implies m.apply_all(edits.take(i)).envelope_within(
            #[trigger] m.apply_all(edits.take(i + 1)),
        ) by {
            if i + 1 < n {
                assert(edits.take(i) == rest.take(i));
                assert(edits.take(i + 1) == rest.take(i + 1));
            }
        }
    }
}

} // verus!
