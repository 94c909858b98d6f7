use vstd::prelude::*;

verus! {

/// The `k`-th corner (`0..6`) of the two triangles of grid cell `(cx, cy)`
/// in a grid of `size` cells per edge, vertices numbered `cy * (size + 1) +
/// cx`. Every cell is split along the same diagonal, from its top left to
/// its bottom right corner: first `(tl, br, tr)`, then `(tl, bl, br)`.
pub open spec fn corner_index(size: int, cx: int, cy: int, k: int) -> int {
    let w = size + 1;
    let tl = cy * w + cx;
    let tr = cy * w + cx + 1;
    let bl = (cy + 1) * w + cx;
    let br = (cy + 1) * w + cx + 1;
    if k == 0 {
        tl
    } else if k == 1 {
        br
    } else if k == 2 {
        tr
    } else if k == 3 {
        tl
    } else if k == 4 {
        bl
    } else {
        br
    }
}

/// The `i`-th entry of the index buffer: cells row by row, six entries each.
pub open spec fn mesh_index(size: int, i: int) -> int {
    let cell = i / 6;
    corner_index(size, cell % size, cell / size, i % 6)
}

proof fn lemma_cell_position(size: int, cx: int, cy: int, k: int)
    requires
        0 <= cx < size,
        0 <= cy < size,
        0 <= k < 6,
    ensures
        mesh_index(size, 6 * (cy * size + cx) + k) == corner_index(size, cx, cy, k),
        0 <= corner_index(size, cx, cy, k) <= (size + 1) * (size + 1) - 1,
{
    let cell = cy * size + cx;
    let i = 6 * cell + k;
    vstd::arithmetic::div_mod::lemma_fundamental_div_mod_converse(i, 6, cell, k);
    vstd::arithmetic::div_mod::lemma_fundamental_div_mod_converse(cell, size, cy, cx);
    assert((cy + 1) * (size + 1) + cx + 1 <= (size + 1) * (size + 1) - 1) by (nonlinear_arith)
        requires
            0 <= cx < size,
            0 <= cy < size,
    ;
    assert(cy * (size + 1) >= 0) by (nonlinear_arith)
        requires
            0 <= cy,
            0 <= size,
    ;
    assert((cy + 1) * (size + 1) == cy * (size + 1) + size + 1) by (nonlinear_arith);
}

/// The triangle index buffer of a grid of `size` cells per edge: two
/// triangles per cell, cells row by row, one constant diagonal.
pub fn triangle_indices(size: u32) -> (r: Vec<u32>)
    requires
        (size + 1) * (size + 1) <= u32::MAX,
        6 * size * size <= usize::MAX,
    ensures
        r@.len() == 6 * size * size,
        forall|i: int| 0 <= i < r@.len() ==> #[trigger] r@[i] as int == mesh_index(size as int, i),
        forall|i: int| 0 <= i < r@.len() ==> #[trigger] r@[i] < (size + 1) * (size + 1),
{
    proof {
        assert(size + 1 <= u32::MAX) by (nonlinear_arith)
            requires
                (size + 1) * (size + 1) <= u32::MAX,
        ;
    }
    let w: u32 = size + 1;
    let mut r: Vec<u32> = Vec::new();
    let mut cy: u32 = 0;
    while cy < size
        invariant
            (size + 1) * (size + 1) <= u32::MAX,
            w == size + 1,
            cy <= size,
            r@.len() == 6 * (cy * size),
            forall|i: int| 0 <= i < r@.len() ==> #[trigger] r@[i] as int == mesh_index(size as int, i),
            forall|i: int| 0 <= i < r@.len() ==> #[trigger] r@[i] < (size + 1) * (size + 1),
        decreases size - cy,
    {
        let mut cx: u32 = 0;
        while cx < size
            invariant
                (size + 1) * (size + 1) <= u32::MAX,
                w == size + 1,
                cy < size,
                cx <= size,
                r@.len() == 6 * (cy * size + cx),
                forall|i: int|
                    0 <= i < r@.len() ==> #[trigger] r@[i] as int == mesh_index(size as int, i),
                forall|i: int| 0 <= i < r@.len() ==> #[trigger] r@[i] < (size + 1) * (size + 1),
            decreases size - cx,
        {
            proof {
                assert forall|k: int| 0 <= k < 6 implies mesh_index(
                    size as int,
                    6 * (cy * size + cx) + k,
                ) == corner_index(size as int, cx as int, cy as int, k) && 0 <= corner_index(
                    size as int,
                    cx as int,
                    cy as int,
                    k,
                ) < (size + 1) * (size + 1) by {
                    lemma_cell_position(size as int, cx as int, cy as int, k);
                }
                assert((cy + 1) * (size + 1) == cy * (size + 1) + size + 1) by (nonlinear_arith);
                assert((cy + 1) * (size + 1) + cx + 1 <= (size + 1) * (size + 1)) by (nonlinear_arith)
                    requires
                        cx < size,
                        cy < size,
                ;
            }
            let ghost base = r@.len() as int;
            let tl = cy * w + cx;
            let tr = tl + 1;
            let bl = (cy + 1) * w + cx;
            let br = bl + 1;
            r.push(tl);
            r.push(br);
            r.push(tr);
            r.push(tl);
            r.push(bl);
            r.push(br);
            proof {
                assert forall|i: int| base <= i < base + 6 implies #[trigger] r@[i] as int == mesh_index(
                    size as int,
                    i,
                ) && r@[i] < (size + 1) * (size + 1) by {
                    lemma_cell_position(size as int, cx as int, cy as int, i - base);
                }
                assert(6 * (cy * size + cx) + 6 == 6 * (cy * size + cx + 1));
            }
            cx += 1;
        }
        proof {
            assert(6 * (cy * size + size) == 6 * ((cy + 1) * size)) by (nonlinear_arith);
        }
        cy += 1;
    }
    proof {
        assert(6 * (size * size) == 6 * size * size) by (nonlinear_arith);
    }
    r
}

/// For each of `n` vertices, the last of the triangles (taken three indices
/// at a time from the first `3 * t` of `indices`) that uses it, or `None`.
pub open spec fn owners(indices: Seq<u32>, n: nat, t: nat) -> Seq<Option<usize>>
    decreases t,
{
    if t == 0 {
        Seq::new(n, |v: int| None)
    } else {
        let prev = owners(indices, n, (t - 1) as nat);
        let base = 3 * (t - 1);
        let tri = Some((t - 1) as usize);
        prev.update(indices[base] as int, tri).update(indices[base + 1] as int, tri).update(
            indices[base + 2] as int,
            tri,
        )
    }
}

/// Which triangle's face normal each vertex takes: the last triangle that
/// uses it, so that later triangles overwrite earlier ones; `None` for a
/// vertex that no triangle uses. This is plain assignment, not averaging, so
/// the shading it gives is faceted rather than smooth.
pub fn normal_owners(indices: &Vec<u32>, vertex_count: usize) -> (r: Vec<Option<usize>>)
    requires
        forall|i: int| 0 <= i < indices@.len() ==> #[trigger] indices@[i] < vertex_count,
    ensures
        r@ == owners(indices@, vertex_count as nat, indices@.len() / 3),
{
    let mut r: Vec<Option<usize>> = Vec::new();
    let mut v: usize = 0;
    while v < vertex_count
        invariant
            v <= vertex_count,
            r@.len() == v,
            forall|j: int| 0 <= j < v ==> #[trigger] r@[j] == None::<usize>,
        decreases vertex_count - v,
    {
        r.push(None);
        v += 1;
    }
    proof {
        assert(r@ =~= owners(indices@, vertex_count as nat, 0));
    }
    let len = indices.len();
    let n_tri = len / 3;
    let mut t: usize = 0;
    while t < n_tri
        invariant
            len == indices@.len(),
            n_tri == indices@.len() / 3,
            3 * n_tri <= len,
            t <= n_tri,
            forall|i: int| 0 <= i < indices@.len() ==> #[trigger] indices@[i] < vertex_count,
            r@ == owners(indices@, vertex_count as nat, t as nat),
            r@.len() == vertex_count,
        decreases n_tri - t,
    {
        let a = indices[3 * t] as usize;
        let b = indices[3 * t + 1] as usize;
        let c = indices[3 * t + 2] as usize;
        r.set(a, Some(t));
        r.set(b, Some(t));
        r.set(c, Some(t));
        t += 1;
    }
    r
}

/// The preview shown before any terrain exists: a `size` by `size` RGBA
/// image, row by row, white on the two diagonals (`x == y` and
/// `size - x == y`) and black elsewhere, always opaque.
pub fn diagonal_image(size: usize) -> (r: Vec<u8>)
    requires
        4 * size * size <= usize::MAX,
    ensures
        r@.len() == 4 * size * size,
        forall|i: int|
            0 <= i < size * size ==> {
                let x = i % (size as int);
                let y = i / (size as int);
                let g: u8 = if x == y || size - x == y { 255 } else { 0 };
                &&& #[trigger] r@[4 * i] == g
                &&& r@[4 * i + 1] == g
                &&& r@[4 * i + 2] == g
                &&& r@[4 * i + 3] == 255
            },
{
    let mut r: Vec<u8> = Vec::new();
    let mut y: usize = 0;
    while y < size
        invariant
            4 * size * size <= usize::MAX,
            y <= size,
            r@.len() == 4 * (y * size),
            forall|i: int|
                0 <= i < y * size ==> {
                    let x = i % (size as int);
                    let yy = i / (size as int);
                    let g: u8 = if x == yy || size - x == yy { 255 } else { 0 };
                    &&& #[trigger] r@[4 * i] == g
                    &&& r@[4 * i + 1] == g
                    &&& r@[4 * i + 2] == g
                    &&& r@[4 * i + 3] == 255
                },
        decreases size - y,
    {
        let mut x: usize = 0;
        while x < size
            invariant
                4 * size * size <= usize::MAX,
                y < size,
                x <= size,
                r@.len() == 4 * (y * size + x),
                forall|i: int|
                    0 <= i < y * size + x ==> {
                        let xx = i % (size as int);
                        let yy = i / (size as int);
                        let g: u8 = if xx == yy || size - xx == yy { 255 } else { 0 };
                        &&& #[trigger] r@[4 * i] == g
                        &&& r@[4 * i + 1] == g
                        &&& r@[4 * i + 2] == g
                        &&& r@[4 * i + 3] == 255
                    },
            decreases size - x,
        {
            proof {
                vstd::arithmetic::div_mod::lemma_fundamental_div_mod_converse(
                    (y * size + x) as int,
                    size as int,
                    y as int,
                    x as int,
                );
                assert(4 * (y * size + x) + 4 <= 4 * size * size) by (nonlinear_arith)
                    requires
                        x < size,
                        y < size,
                ;
            }
            let g: u8 = if x == y || size - x == y { 255 } else { 0 };
            let ghost old_r = r@;
            r.push(g);
            r.push(g);
            r.push(g);
            r.push(255);
            proof {
                let n = (y * size + x) as int;
                assert forall|i: int| 0 <= i < n + 1 implies {
                    let xx = i % (size as int);
                    let yy = i / (size as int);
                    let gg: u8 = if xx == yy || size - xx == yy { 255 } else { 0 };
                    &&& #[trigger] r@[4 * i] == gg
                    &&& r@[4 * i + 1] == gg
                    &&& r@[4 * i + 2] == gg
                    &&& r@[4 * i + 3] == 255
                } by {
                    if i < n {
                        assert(r@[4 * i] == old_r[4 * i]);
                        assert(r@[4 * i + 1] == old_r[4 * i + 1]);
                        assert(r@[4 * i + 2] == old_r[4 * i + 2]);
                        assert(r@[4 * i + 3] == old_r[4 * i + 3]);
                    }
                }
            }
            x += 1;
        }
        proof {
            assert(y * size + size == (y + 1) * size) by (nonlinear_arith);
        }
        y += 1;
    }
    proof {
        assert(4 * (size * size) == 4 * size * size) by (nonlinear_arith);
    }
    r
}

} // verus!
