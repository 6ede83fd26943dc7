//! Field of view over the tile grid: a tile is visible from a centre when
//! it lies within Euclidean range and every interior point of the digital
//! line between the two is transparent (walls block sight). The digital
//! line samples the segment at the dominant-axis resolution, rounding each
//! coordinate to the nearest grid point.
use vstd::prelude::*;
use crate::components::{Pt, MAX_STAT};
use crate::map::{SpatialMap, TileType};

verus! {

/// Number of interior-and-endpoint steps of the digital line: the larger
/// coordinate distance.
pub open spec fn line_len(x0: int, y0: int, x1: int, y1: int) -> int {
    let adx = if x1 >= x0 {
        x1 - x0
    } else {
        x0 - x1
    };
    let ady = if y1 >= y0 {
        y1 - y0
    } else {
        y0 - y1
    };
    if adx >= ady {
        adx
    } else {
        ady
    }
}

/// The distance travelled along one axis after `i` of `n` steps: the
/// fraction `i*a/n` rounded to the nearest integer (halves up).
pub open spec fn round_step(a: int, i: int, n: int) -> int {
    (2 * i * a + n) / (2 * n)
}

/// X coordinate of the digital line's `i`-th sample.
pub open spec fn line_x(x0: int, x1: int, i: int, n: int) -> int {
    if x1 >= x0 {
        x0 + round_step(x1 - x0, i, n)
    } else {
        x0 - round_step(x0 - x1, i, n)
    }
}

/// Y coordinate of the digital line's `i`-th sample.
pub open spec fn line_y(y0: int, y1: int, i: int, n: int) -> int {
    if y1 >= y0 {
        y0 + round_step(y1 - y0, i, n)
    } else {
        y0 - round_step(y0 - y1, i, n)
    }
}

/// Sight from one tile to another is clear when no interior sample of the
/// digital line between them is a wall. The endpoints themselves do not
/// block: a wall is itself visible.
pub open spec fn los_clear(map: SpatialMap, x0: int, y0: int, x1: int, y1: int) -> bool {
    let n = line_len(x0, y0, x1, y1);
    forall|i: int|
        1 <= i < n ==> map.tiles@[map.idx_of(
            #[trigger] line_x(x0, x1, i, n),
            line_y(y0, y1, i, n),
        )] != TileType::Wall
}

/// The rounded fraction stays between zero and the full distance.
pub proof fn lemma_round_step_bounds(a: int, i: int, n: int)
    requires
        0 <= a <= n,
        1 <= n,
        0 <= i <= n,
    ensures
        0 <= round_step(a, i, n) <= a,
{
    let q = (2 * i * a + n) / (2 * n);
    let r = (2 * i * a + n) % (2 * n);
    vstd::arithmetic::div_mod::lemma_fundamental_div_mod(2 * i * a + n, 2 * n);
    vstd::arithmetic::div_mod::lemma_mod_bound(2 * i * a + n, 2 * n);
    assert(0 <= q <= a) by (nonlinear_arith)
        requires
            2 * i * a + n == 2 * n * q + r,
            0 <= r < 2 * n,
            0 <= a <= n,
            1 <= n,
            0 <= i <= n,
    ;
}

/// Decide clear sight between two in-bounds tiles by walking the digital
/// line.
pub fn los_clear_exec(map: &SpatialMap, x0: i32, y0: i32, x1: i32, y1: i32) -> (r: bool)
    requires
        map.wf(),
        map.in_bounds_spec(x0 as int, y0 as int),
        map.in_bounds_spec(x1 as int, y1 as int),
    ensures
        r == los_clear(*map, x0 as int, y0 as int, x1 as int, y1 as int),
{
    let adx: i32 = if x1 >= x0 {
        x1 - x0
    } else {
        x0 - x1
    };
    let ady: i32 = if y1 >= y0 {
        y1 - y0
    } else {
        y0 - y1
    };
    let n: i32 = if adx >= ady {
        adx
    } else {
        ady
    };
    proof {
        assert(n == line_len(x0 as int, y0 as int, x1 as int, y1 as int));
        assert(0 <= adx < crate::map::MAX_DIM && 0 <= ady < crate::map::MAX_DIM);
    }
    let mut i: i32 = 1;
    while i < n
        invariant
            1 <= i,
            i <= (if n >= 1 { n as int } else { 1int }),
            0 <= adx < crate::map::MAX_DIM,
            0 <= ady < crate::map::MAX_DIM,
            adx <= n,
            ady <= n,
            n < crate::map::MAX_DIM,
            n == line_len(x0 as int, y0 as int, x1 as int, y1 as int),
            forall|j: int|
                1 <= j < i ==> map.tiles@[map.idx_of(
                    #[trigger] line_x(x0 as int, x1 as int, j, n as int),
                    line_y(y0 as int, y1 as int, j, n as int),
                )] != TileType::Wall,
        decreases n - i,
    {
        proof {
            lemma_round_step_bounds(adx as int, i as int, n as int);
            lemma_round_step_bounds(ady as int, i as int, n as int);
            let ii = i as int;
            let ax = adx as int;
            let ay = ady as int;
            let nn = n as int;
            assert(0 <= 2 * ii * ax + nn <= 0x4000000 && 0 <= 2 * ii * ay + nn <= 0x4000000)
                by (nonlinear_arith)
                requires
                    0 <= ii <= nn,
                    0 <= ax <= nn,
                    0 <= ay <= nn,
                    1 <= nn < 0x1000,
            ;
        }
        let qx: i32 = (2 * i * adx + n) / (2 * n);
        let qy: i32 = (2 * i * ady + n) / (2 * n);
        let px: i32 = if x1 >= x0 {
            x0 + qx
        } else {
            x0 - qx
        };
        let py: i32 = if y1 >= y0 {
            y0 + qy
        } else {
            y0 - qy
        };
        proof {
            assert(px == line_x(x0 as int, x1 as int, i as int, n as int));
            assert(py == line_y(y0 as int, y1 as int, i as int, n as int));
        }
        let idx = map.get_index_at(px, py);
        if map.tiles[idx] == TileType::Wall {
            return false;
        }
        i += 1;
    }
    true
}

/// Width of the square scan box around a centre with the given range.
pub open spec fn box_side(range: int) -> int {
    2 * range + 1
}

/// X coordinate of the `k`-th cell of the scan box.
pub open spec fn cell_x(cx: int, range: int, k: int) -> int {
    cx - range + k % box_side(range)
}

/// Y coordinate of the `k`-th cell of the scan box.
pub open spec fn cell_y(cy: int, range: int, k: int) -> int {
    cy - range + k / box_side(range)
}

/// A tile is visible from the centre when it is in bounds, within
/// Euclidean range, and in clear sight.
pub open spec fn visible_tile(
    map: SpatialMap,
    cx: int,
    cy: int,
    range: int,
    tx: int,
    ty: int,
) -> bool {
    &&& map.in_bounds_spec(tx, ty)
    &&& (tx - cx) * (tx - cx) + (ty - cy) * (ty - cy) <= range * range
    &&& los_clear(map, cx, cy, tx, ty)
}

/// The visible tiles among the first `k` cells of the scan box, in scan
/// order.
pub open spec fn fov_seq(map: SpatialMap, cx: int, cy: int, range: int, k: int) -> Seq<Pt>
    decreases k,
{
    if k <= 0 {
        Seq::empty()
    } else {
        let s = fov_seq(map, cx, cy, range, k - 1);
        let tx = cell_x(cx, range, k - 1);
        let ty = cell_y(cy, range, k - 1);
        if visible_tile(map, cx, cy, range, tx, ty) {
            s.push(Pt { x: tx as i32, y: ty as i32 })
        } else {
            s
        }
    }
}

/// The full field of view: every cell of the scan box considered.
pub open spec fn fov_full(map: SpatialMap, cx: int, cy: int, range: int) -> Seq<Pt> {
    fov_seq(map, cx, cy, range, box_side(range) * box_side(range))
}

/// Everything the scan emits is a visible in-bounds tile.
pub proof fn lemma_fov_sound(map: SpatialMap, cx: int, cy: int, range: int, k: int)
    requires
        map.wf(),
        0 <= range,
        map.in_bounds_spec(cx, cy),
    ensures
        forall|j: int|
            0 <= j < fov_seq(map, cx, cy, range, k).len() ==> {
                let p = #[trigger] fov_seq(map, cx, cy, range, k)[j];
                visible_tile(map, cx, cy, range, p.x as int, p.y as int)
            },
    decreases k,
{
    if k > 0 {
        lemma_fov_sound(map, cx, cy, range, k - 1);
        let s = fov_seq(map, cx, cy, range, k);
        let s0 = fov_seq(map, cx, cy, range, k - 1);
        let tx = cell_x(cx, range, k - 1);
        let ty = cell_y(cy, range, k - 1);
        assert forall|j: int| 0 <= j < s.len() implies {
            let p = #[trigger] s[j];
            visible_tile(map, cx, cy, range, p.x as int, p.y as int)
        } by {
            if j < s0.len() {
                assert(s[j] == s0[j]);
            } else {
                assert(visible_tile(map, cx, cy, range, tx, ty));
                assert(map.in_bounds_spec(tx, ty));
                assert(s[j] == Pt { x: tx as i32, y: ty as i32 });
            }
        }
    }
}

/// Every visible tile is emitted: the cell whose coordinate matches lies
/// in the scan box, and from that cell on the scan keeps it.
pub proof fn lemma_fov_complete(
    map: SpatialMap,
    cx: int,
    cy: int,
    range: int,
    tx: int,
    ty: int,
    k: int,
)
    requires
        map.wf(),
        0 <= range,
        map.in_bounds_spec(cx, cy),
        visible_tile(map, cx, cy, range, tx, ty),
        (ty - cy + range) * box_side(range) + (tx - cx + range) < k,
        k <= box_side(range) * box_side(range),
    ensures
        fov_seq(map, cx, cy, range, k).contains(Pt { x: tx as i32, y: ty as i32 }),
    decreases k,
{
    let side = box_side(range);
    assert((tx - cx) * (tx - cx) + (ty - cy) * (ty - cy) <= range * range);
    assert(-range <= tx - cx <= range && -range <= ty - cy <= range) by (nonlinear_arith)
        requires
            (tx - cx) * (tx - cx) + (ty - cy) * (ty - cy) <= range * range,
            0 <= range,
    ;
    let kt = (ty - cy + range) * side + (tx - cx + range);
    crate::map::lemma_rowmajor(side, tx - cx + range, ty - cy + range);
    assert(kt % side == tx - cx + range && kt / side == ty - cy + range);
    assert(cell_x(cx, range, kt) == tx && cell_y(cy, range, kt) == ty);
    if kt == k - 1 {
        let s = fov_seq(map, cx, cy, range, k);
        assert(s.last() == Pt { x: tx as i32, y: ty as i32 });
    } else {
        lemma_fov_complete(map, cx, cy, range, tx, ty, k - 1);
        let s0 = fov_seq(map, cx, cy, range, k - 1);
        let j = choose|j: int| 0 <= j < s0.len() && s0[j] == Pt { x: tx as i32, y: ty as i32 };
        assert(fov_seq(map, cx, cy, range, k)[j] == Pt { x: tx as i32, y: ty as i32 });
    }
}

/// Membership in the full field of view is exactly visibility.
pub proof fn lemma_fov_contains(map: SpatialMap, cx: int, cy: int, range: int)
    requires
        map.wf(),
        0 <= range,
        map.in_bounds_spec(cx, cy),
    ensures
        forall|p: Pt|
            #[trigger] fov_full(map, cx, cy, range).contains(p) == visible_tile(
                map,
                cx,
                cy,
                range,
                p.x as int,
                p.y as int,
            ),
{
    let full = box_side(range) * box_side(range);
    lemma_fov_sound(map, cx, cy, range, full);
    assert forall|p: Pt| #[trigger] fov_full(map, cx, cy, range).contains(p) == visible_tile(
        map,
        cx,
        cy,
        range,
        p.x as int,
        p.y as int,
    ) by {
        if fov_full(map, cx, cy, range).contains(p) {
            let j = choose|j: int|
                0 <= j < fov_full(map, cx, cy, range).len() && fov_full(map, cx, cy, range)[j]
                    == p;
            assert(visible_tile(
                map,
                cx,
                cy,
                range,
                fov_full(map, cx, cy, range)[j].x as int,
                fov_full(map, cx, cy, range)[j].y as int,
            ));
        }
        if visible_tile(map, cx, cy, range, p.x as int, p.y as int) {
            let tx = p.x as int;
            let ty = p.y as int;
            assert(-range <= tx - cx <= range && -range <= ty - cy <= range) by (nonlinear_arith)
                requires
                    (tx - cx) * (tx - cx) + (ty - cy) * (ty - cy) <= range * range,
                    0 <= range,
            ;
            let side = box_side(range);
            assert((ty - cy + range) * side + (tx - cx + range) < side * side) by (nonlinear_arith)
                requires
                    side == 2 * range + 1,
                    0 <= range,
                    -range <= tx - cx <= range,
                    -range <= ty - cy <= range,
            ;
            lemma_fov_complete(map, cx, cy, range, tx, ty, side * side);
            assert(fov_full(map, cx, cy, range).contains(Pt { x: tx as i32, y: ty as i32 }));
            assert(Pt { x: tx as i32, y: ty as i32 } == p);
        }
    }
}

/// Compute the field of view from an in-bounds centre: scan the bounding
/// box of the range and keep each visible tile, in scan order.
pub fn field_of_view(map: &SpatialMap, cx: i32, cy: i32, range: i32) -> (r: Vec<Pt>)
    requires
        map.wf(),
        map.in_bounds_spec(cx as int, cy as int),
        0 <= range <= MAX_STAT,
    ensures
        r@ == fov_full(*map, cx as int, cy as int, range as int),
        forall|p: Pt|
            #[trigger] r@.contains(p) == visible_tile(
                *map,
                cx as int,
                cy as int,
                range as int,
                p.x as int,
                p.y as int,
            ),
{
    let side: i64 = 2 * (range as i64) + 1;
    proof {
        let si = side as int;
        assert(0 <= si * si <= 0x4_0000_0000) by (nonlinear_arith)
            requires
                1 <= si <= 0x20000,
        ;
    }
    let full: i64 = side * side;
    let mut out: Vec<Pt> = Vec::new();
    let mut k: i64 = 0;
    while k < full
        invariant
            0 <= k <= full,
            side == box_side(range as int),
            full == side * side,
            map.wf(),
            map.in_bounds_spec(cx as int, cy as int),
            0 <= range <= MAX_STAT,
            out@ == fov_seq(*map, cx as int, cy as int, range as int, k as int),
        decreases full - k,
    {
        proof {
            let ki = k as int;
            let si = side as int;
            vstd::arithmetic::div_mod::lemma_mod_bound(ki, si);
            vstd::arithmetic::div_mod::lemma_fundamental_div_mod(ki, si);
            assert(0 <= ki / si < si) by (nonlinear_arith)
                requires
                    1 <= si,
                    0 <= ki < si * si,
                    ki == si * (ki / si) + ki % si,
                    0 <= ki % si < si,
            ;
        }
        let tx64: i64 = (cx as i64) - (range as i64) + (k % side);
        let ty64: i64 = (cy as i64) - (range as i64) + (k / side);
        proof {
            assert(tx64 == cell_x(cx as int, range as int, k as int));
            assert(ty64 == cell_y(cy as int, range as int, k as int));
        }
        let mut vis = false;
        if 0 <= tx64 && tx64 < map.width as i64 && 0 <= ty64 && ty64 < map.height as i64 {
            let tx = tx64 as i32;
            let ty = ty64 as i32;
            let dx: i64 = (tx as i64) - (cx as i64);
            let dy: i64 = (ty as i64) - (cy as i64);
            proof {
                let dxi = dx as int;
                let dyi = dy as int;
                let ri = range as int;
                assert(0 <= dxi * dxi <= 0x1000000 && 0 <= dyi * dyi <= 0x1000000 && 0 <= ri * ri
                    <= 0x1_0000_0000) by (nonlinear_arith)
                    requires
                        -0x1000 <= dxi <= 0x1000,
                        -0x1000 <= dyi <= 0x1000,
                        0 <= ri <= 0x10000,
                ;
            }
            if dx * dx + dy * dy <= (range as i64) * (range as i64) {
                if los_clear_exec(map, cx, cy, tx, ty) {
                    vis = true;
                    out.push(Pt { x: tx, y: ty });
                }
            }
        }
        proof {
            let tx = cell_x(cx as int, range as int, k as int);
            let ty = cell_y(cy as int, range as int, k as int);
            if vis {
                assert(visible_tile(*map, cx as int, cy as int, range as int, tx, ty));
            } else {
                assert(!visible_tile(*map, cx as int, cy as int, range as int, tx, ty));
            }
            assert(out@ == fov_seq(*map, cx as int, cy as int, range as int, k + 1));
        }
        k += 1;
    }
    proof {
        lemma_fov_contains(*map, cx as int, cy as int, range as int);
    }
    out
}

} // verus!
