//! Triangle index lists of the sky dome, the sun disc and terrain tiles.

use vstd::prelude::*;

verus! {

/// The two triangles (tl, tr, bl) and (tr, br, bl) of the quad whose
/// top-left vertex is `tl`, in a grid with `w` vertices per row.
pub open spec fn quad_indices(tl: int, w: int) -> Seq<u32> {
    seq![
        tl as u32,
        (tl + 1) as u32,
        (tl + w) as u32,
        (tl + 1) as u32,
        (tl + w + 1) as u32,
        (tl + w) as u32,
    ]
}

/// Indices of the first `s` quads of row `r` of a grid with `w` vertices
/// per row.
pub open spec fn row_indices(r: int, s: int, w: int) -> Seq<u32>
    decreases s,
{
    if s <= 0 {
        Seq::empty()
    } else {
        row_indices(r, s - 1, w) + quad_indices(r * w + s - 1, w)
    }
}

/// Indices of the first `r` rows of `sectors` quads each: the quads of a
/// (rings + 1) × (sectors + 1) vertex grid, row by row.
pub open spec fn grid_indices(r: int, sectors: int) -> Seq<u32>
    decreases r,
{
    if r <= 0 {
        Seq::empty()
    } else {
        grid_indices(r - 1, sectors) + row_indices(r - 1, sectors, sectors + 1)
    }
}

/// Triangle list of a `rings` × `sectors` quad grid over a vertex grid
/// with `sectors + 1` vertices per row, each quad split into two triangles.
pub fn grid_triangle_indices(rings: u32, sectors: u32) -> (out: Vec<u32>)
    requires
        (rings as int + 1) * (sectors as int + 1) <= u32::MAX,
    ensures
        out@ == grid_indices(rings as int, sectors as int),
{
    let mut out: Vec<u32> = Vec::new();
    assert(sectors as int + 1 <= u32::MAX) by (nonlinear_arith)
        requires
            (rings as int + 1) * (sectors as int + 1) <= u32::MAX,
    ;
    let w = sectors + 1;
    let mut r: u32 = 0;
    while r < rings
        invariant
            r <= rings,
            w == sectors + 1,
            (rings as int + 1) * (sectors as int + 1) <= u32::MAX,
            out@ == grid_indices(r as int, sectors as int),
        decreases rings - r,
    {
        let ghost before_row = out@;
        let mut s: u32 = 0;
        while s < sectors
            invariant
                r < rings,
                s <= sectors,
                w == sectors + 1,
                (rings as int + 1) * (sectors as int + 1) <= u32::MAX,
                out@ == before_row + row_indices(r as int, s as int, w as int),
            decreases sectors - s,
        {
            assert((r as int) * (w as int) + (s as int) + (w as int) + 1 <= (rings as int + 1) * (
            w as int)) by (nonlinear_arith)
                requires
                    r < rings,
                    s < sectors,
                    w == sectors + 1,
            ;
            let tl = r * w + s;
            let tr = tl + 1;
            let bl = tl + w;
            let br = bl + 1;
            out.push(tl);
            out.push(tr);
            out.push(bl);
            out.push(tr);
            out.push(br);
            out.push(bl);
            assert(out@ =~= before_row + row_indices(r as int, s + 1, w as int));
            s = s + 1;
        }
        r = r + 1;
    }
    out
}

/// Indices of the first `i` triangles of a fan around vertex 0 whose rim
/// has `n` vertices numbered 1..=n.
pub open spec fn fan_indices(i: int, n: int) -> Seq<u32>
    decreases i,
{
    if i <= 0 {
        Seq::empty()
    } else {
        fan_indices(i - 1, n) + seq![0u32, i as u32, ((i % n) + 1) as u32]
    }
}

/// Triangle list of a disc: `n` triangles from the centre (vertex 0) to
/// consecutive rim vertices, the last one closing the rim.
pub fn fan_triangle_indices(n: u32) -> (out: Vec<u32>)
    requires
        n < u32::MAX,
    ensures
        out@ == fan_indices(n as int, n as int),
{
    let mut out: Vec<u32> = Vec::new();
    let mut i: u32 = 0;
    while i < n
        invariant
            i <= n,
            n < u32::MAX,
            out@ == fan_indices(i as int, n as int),
        decreases n - i,
    {
        let next = (i + 1) % n;
        out.push(0);
        out.push(i + 1);
        out.push(next + 1);
        assert(out@ =~= fan_indices(i + 1, n as int));
        i = i + 1;
    }
    out
}

/// Indices of a terrain tile quad with corners TL, TR, BL, BR: the two
/// counter-clockwise triangles TL-BL-TR and TR-BL-BR seen from above.
pub fn tile_quad_indices() -> (out: Vec<u32>)
    ensures
        out@ == seq![0u32, 2, 1, 1, 2, 3],
{
    let out = vec![0u32, 2, 1, 1, 2, 3];
    assert(out@ =~= seq![0u32, 2, 1, 1, 2, 3]);
    out
}

proof fn lemma_row_in_range(r: int, s: int, w: int, bound: int)
    requires
        0 <= r,
        0 <= s < w,
        (r + 2) * w <= bound,
        bound <= u32::MAX,
    ensures
        row_indices(r, s, w).len() == 6 * s,
        forall|i: int| 0 <= i < row_indices(r, s, w).len() ==> #[trigger] row_indices(r, s, w)[i] < bound,
    decreases s,
{
    if s > 0 {
        lemma_row_in_range(r, s - 1, w, bound);
        assert(r * w + s - 1 + w + 1 < (r + 2) * w) by (nonlinear_arith)
            requires
                s < w,
                0 <= r,
        ;
        assert(0 <= r * w) by (nonlinear_arith)
            requires
                0 <= r,
                0 < w,
        ;
        let a = row_indices(r, s - 1, w);
        let b = quad_indices(r * w + s - 1, w);
        assert forall|i: int| 0 <= i < (a + b).len() implies #[trigger] (a + b)[i] < bound by {
            if i >= a.len() {
                assert((a + b)[i] == b[i - a.len()]);
            }
        }
    }
}

/// Every index of the sky-dome grid names one of its
/// (rings + 1) × (sectors + 1) vertices, and there are six per quad.
pub proof fn law_grid_indices_in_range(rings: int, sectors: int)
    requires
        0 <= rings,
        0 <= sectors,
        (rings + 1) * (sectors + 1) <= u32::MAX,
    ensures
        grid_indices(rings, sectors).len() == 6 * rings * sectors,
        forall|i: int|
            0 <= i < grid_indices(rings, sectors).len() ==> #[trigger] grid_indices(rings, sectors)[i]
                < (rings + 1) * (sectors + 1),
    decreases rings,
{
    if rings > 0 {
        assert((rings - 1 + 1) * (sectors + 1) <= u32::MAX) by (nonlinear_arith)
            requires
                (rings + 1) * (sectors + 1) <= u32::MAX,
                0 <= sectors,
                rings > 0,
        ;
        law_grid_indices_in_range(rings - 1, sectors);
        assert((rings - 1 + 1) * (sectors + 1) <= (rings + 1) * (sectors + 1)) by (nonlinear_arith)
            requires
                0 <= sectors,
                rings > 0,
        ;
        let bound = (rings + 1) * (sectors + 1);
        if sectors > 0 {
            assert((rings - 1 + 2) * (sectors + 1) == bound);
            lemma_row_in_range(rings - 1, sectors, sectors + 1, bound);
        } else {
            assert(row_indices(rings - 1, sectors, sectors + 1) =~= Seq::<u32>::empty());
        }
        let a = grid_indices(rings - 1, sectors);
        let b = row_indices(rings - 1, sectors, sectors + 1);
        assert(6 * (rings - 1) * sectors + 6 * sectors == 6 * rings * sectors) by (nonlinear_arith);
        assert forall|i: int| 0 <= i < (a + b).len() implies #[trigger] (a + b)[i] < bound by {
            if i >= a.len() {
                assert((a + b)[i] == b[i - a.len()]);
            }
        }
    }
}

/// Every index of a fan names the centre or one of its `n` rim vertices,
/// three per triangle.
pub proof fn law_fan_indices_in_range(i: int, n: int)
    requires
        0 <= i <= n,
        n < u32::MAX,
    ensures
        fan_indices(i, n).len() == 3 * i,
        forall|k: int| 0 <= k < fan_indices(i, n).len() ==> #[trigger] fan_indices(i, n)[k] <= n,
    decreases i,
{
    if i > 0 {
        law_fan_indices_in_range(i - 1, n);
        let a = fan_indices(i - 1, n);
        let b = seq![0u32, i as u32, ((i % n) + 1) as u32];
        assert forall|k: int| 0 <= k < (a + b).len() implies #[trigger] (a + b)[k] <= n by {
            if k >= a.len() {
                assert((a + b)[k] == b[k - a.len()]);
            }
        }
    }
}

proof fn lemma_row_len(r: int, n: int, w: int)
    ensures
        n >= 0 ==> row_indices(r, n, w).len() == 6 * n,
    decreases n,
{
    if n > 0 {
        lemma_row_len(r, n - 1, w);
    }
}

proof fn lemma_grid_len(n: int, sectors: int)
    requires
        sectors >= 0,
    ensures
        n >= 0 ==> grid_indices(n, sectors).len() == 6 * n * sectors,
    decreases n,
{
    if n > 0 {
        lemma_grid_len(n - 1, sectors);
        lemma_row_len(n - 1, sectors, sectors + 1);
        assert(6 * (n - 1) * sectors + 6 * sectors == 6 * n * sectors) by (nonlinear_arith);
        assert(grid_indices(n, sectors) == grid_indices(n - 1, sectors) + row_indices(
            n - 1,
            sectors,
            sectors + 1,
        ));
    } else if n == 0 {
        assert(6 * n * sectors == 0) by (nonlinear_arith)
            requires
                n == 0,
        ;
    }
}

/// Quad `s` of a row sits at positions 6·s … 6·s + 5 of the row's list.
proof fn lemma_row_quad(r: int, n: int, w: int, s: int, j: int)
    requires
        0 <= s < n,
        0 <= j < 6,
    ensures
        row_indices(r, n, w)[6 * s + j] == quad_indices(r * w + s, w)[j],
    decreases n,
{
    lemma_row_len(r, n - 1, w);
    let a = row_indices(r, n - 1, w);
    let b = quad_indices(r * w + n - 1, w);
    if s < n - 1 {
        lemma_row_quad(r, n - 1, w, s, j);
        assert((a + b)[6 * s + j] == a[6 * s + j]);
    } else {
        assert((a + b)[6 * s + j] == b[j]);
    }
}

/// Each quad of the sky-dome grid is covered by its two triangles: for row
/// `r < rings` and sector `s < sectors`, with `w = sectors + 1` vertices per
/// row and top-left vertex `tl = r·w + s`, positions 6·(r·sectors + s) …
/// 6·(r·sectors + s) + 5 hold the triangles (tl, tl + 1, tl + w) and
/// (tl + 1, tl + w + 1, tl + w), which together touch all four corners
/// tl, tl + 1, tl + w and tl + w + 1 of the quad.
pub proof fn law_grid_quads(rings: int, sectors: int, r: int, s: int)
    requires
        0 <= r < rings,
        0 <= s < sectors,
        (rings + 1) * (sectors + 1) <= u32::MAX,
    ensures
        grid_indices(rings, sectors)[6 * (r * sectors + s)] == r * (sectors + 1) + s,
        grid_indices(rings, sectors)[6 * (r * sectors + s) + 1] == r * (sectors + 1) + s + 1,
        grid_indices(rings, sectors)[6 * (r * sectors + s) + 2] == r * (sectors + 1) + s + sectors
            + 1,
        grid_indices(rings, sectors)[6 * (r * sectors + s) + 3] == r * (sectors + 1) + s + 1,
        grid_indices(rings, sectors)[6 * (r * sectors + s) + 4] == r * (sectors + 1) + s + sectors
            + 2,
        grid_indices(rings, sectors)[6 * (r * sectors + s) + 5] == r * (sectors + 1) + s + sectors
            + 1,
    decreases rings,
{
    let w = sectors + 1;
    let k = 6 * (r * sectors + s);
    lemma_grid_len(rings - 1, sectors);
    let a = grid_indices(rings - 1, sectors);
    let b = row_indices(rings - 1, sectors, w);
    assert(grid_indices(rings, sectors) == a + b);
    if r < rings - 1 {
        assert(rings * w <= (rings + 1) * w) by (nonlinear_arith)
            requires
                w > 0,
        ;
        law_grid_quads(rings - 1, sectors, r, s);
        assert(k + 5 < 6 * (rings - 1) * sectors) by (nonlinear_arith)
            requires
                0 <= r < rings - 1,
                0 <= s < sectors,
                k == 6 * (r * sectors + s),
        ;
        assert((a + b)[k] == a[k]);
        assert((a + b)[k + 1] == a[k + 1]);
        assert((a + b)[k + 2] == a[k + 2]);
        assert((a + b)[k + 3] == a[k + 3]);
        assert((a + b)[k + 4] == a[k + 4]);
        assert((a + b)[k + 5] == a[k + 5]);
    } else {
        assert(k == 6 * (rings - 1) * sectors + 6 * s) by (nonlinear_arith)
            requires
                r == rings - 1,
                k == 6 * (r * sectors + s),
        ;
        let tl = r * w + s;
        assert(tl + w + 1 <= (rings + 1) * w) by (nonlinear_arith)
            requires
                r == rings - 1,
                0 <= s < sectors,
                w == sectors + 1,
                tl == r * w + s,
        ;
        assert(0 <= tl) by (nonlinear_arith)
            requires
                0 <= r,
                0 <= s,
                w > 0,
                tl == r * w + s,
        ;
        assert(r * (sectors + 1) == r * w);
        lemma_row_len(rings - 1, sectors, w);
        assert forall|j: int| 0 <= j < 6 implies (a + b)[k + j] == quad_indices(tl, w)[j] by {
            lemma_row_quad(r, sectors, w, s, j);
            assert((a + b)[k + j] == b[6 * s + j]);
        }
        assert((a + b)[k] == quad_indices(tl, w)[0]);
        assert((a + b)[k + 1] == quad_indices(tl, w)[1]);
        assert((a + b)[k + 2] == quad_indices(tl, w)[2]);
        assert((a + b)[k + 3] == quad_indices(tl, w)[3]);
        assert((a + b)[k + 4] == quad_indices(tl, w)[4]);
        assert((a + b)[k + 5] == quad_indices(tl, w)[5]);
    }
}

/// Triangle `i < n` of the sun disc joins the centre (vertex 0) to rim
/// vertices `i + 1` and `i + 2`, and the last one closes the rim back to
/// vertex 1.
pub proof fn law_fan_triangles(m: int, n: int, i: int)
    requires
        0 <= i < m <= n,
        n < u32::MAX,
    ensures
        fan_indices(m, n)[3 * i] == 0,
        fan_indices(m, n)[3 * i + 1] == i + 1,
        fan_indices(m, n)[3 * i + 2] == (if i + 1 == n {
            1
        } else {
            i + 2
        }),
    decreases m,
{
    law_fan_indices_in_range(m - 1, n);
    let a = fan_indices(m - 1, n);
    let b = seq![0u32, (m - 1 + 1) as u32, (((m - 1 + 1) % n) + 1) as u32];
    assert(fan_indices(m, n) == a + b);
    if i < m - 1 {
        law_fan_triangles(m - 1, n, i);
        assert((a + b)[3 * i] == a[3 * i]);
        assert((a + b)[3 * i + 1] == a[3 * i + 1]);
        assert((a + b)[3 * i + 2] == a[3 * i + 2]);
    } else {
        assert((a + b)[3 * i] == b[0]);
        assert((a + b)[3 * i + 1] == b[1]);
        assert((a + b)[3 * i + 2] == b[2]);
        if i + 1 == n {
            vstd::arithmetic::div_mod::lemma_mod_self_0(n);
        } else {
            vstd::arithmetic::div_mod::lemma_small_mod((i + 1) as nat, n as nat);
        }
    }
}

} // verus!
