//! Visibility phase: recompute the visible-tile set of every entity whose
//! viewshed is marked dirty, clear the mark, and for the player also feed
//! the map's persistent revealed layer (monotonic: once revealed, never
//! un-revealed) and its current visible layer. Non-dirty viewsheds are
//! left entirely alone.
use vstd::prelude::*;
use vstd::pervasive::VecAdditionalExecFns;
use crate::components::Viewshed;
use crate::fov::{field_of_view, fov_full, fov_seq, visible_tile};
use crate::map::SpatialMap;
use crate::world::World;

verus! {

/// The visibility phase recomputes entity `e` this tick: it is alive,
/// positioned, and its viewshed is marked dirty.
pub open spec fn vis_processed(w: World, e: int) -> bool {
    &&& w.alive@[e]
    &&& w.viewshed@[e] is Some
    &&& w.viewshed@[e]->Some_0.dirty
    &&& w.position@[e] is Some
}

/// The player's viewshed is recomputed this tick.
pub open spec fn player_processed(w: World) -> bool {
    &&& w.player_id < w.n()
    &&& w.player@[w.player_id as int]
    &&& vis_processed(w, w.player_id as int)
}

/// The tile the player sees at index `idx` after its recomputation.
pub open spec fn player_sees_idx(w: World, idx: int) -> bool {
    let p = w.position@[w.player_id as int]->Some_0;
    let range = w.viewshed@[w.player_id as int]->Some_0.range;
    visible_tile(
        w.map,
        p.x as int,
        p.y as int,
        range as int,
        idx % (w.map.width as int),
        idx / (w.map.width as int),
    )
}

/// What the visibility phase does: each dirty positioned viewshed becomes
/// the field of view of its position, clean; every other viewshed is
/// untouched; the revealed layer grows by what a recomputed player sees;
/// the visible layer becomes exactly what a recomputed player sees; and
/// nothing else of the world changes.
pub open spec fn vis_rel(a: World, b: World) -> bool {
    &&& forall|e: int|
        0 <= e < a.n() ==> (if vis_processed(a, e) {
            &&& (#[trigger] b.viewshed@[e]) is Some
            &&& b.viewshed@[e]->Some_0.range == a.viewshed@[e]->Some_0.range
            &&& b.viewshed@[e]->Some_0.dirty == false
            &&& b.viewshed@[e]->Some_0.visible_tiles@ == fov_full(
                a.map,
                a.position@[e]->Some_0.x as int,
                a.position@[e]->Some_0.y as int,
                a.viewshed@[e]->Some_0.range as int,
            )
        } else {
            b.viewshed@[e] == a.viewshed@[e]
        })
    &&& forall|idx: int|
        0 <= idx < a.map.area() ==> #[trigger] b.map.revealed_tiles@[idx] == (
        a.map.revealed_tiles@[idx] || (player_processed(a) && player_sees_idx(a, idx)))
    &&& forall|idx: int|
        0 <= idx < a.map.area() ==> #[trigger] b.map.visible_tiles@[idx] == (if player_processed(
            a,
        ) {
            player_sees_idx(a, idx)
        } else {
            a.map.visible_tiles@[idx]
        })
    &&& b.viewshed@.len() == a.viewshed@.len()
    &&& b.map.revealed_tiles@.len() == a.map.area()
    &&& b.map.visible_tiles@.len() == a.map.area()
    &&& b.map == (SpatialMap {
        revealed_tiles: b.map.revealed_tiles,
        visible_tiles: b.map.visible_tiles,
        ..a.map
    })
    &&& b == (World { map: b.map, viewshed: b.viewshed, ..a })
}

/// A field of view depends only on the tile grid and the dimensions: the
/// per-tile layers do not enter it.
pub proof fn lemma_fov_same_map(m1: SpatialMap, m2: SpatialMap, cx: int, cy: int, range: int, k: int)
    requires
        m1.tiles@ == m2.tiles@,
        m1.width == m2.width,
        m1.height == m2.height,
    ensures
        fov_seq(m1, cx, cy, range, k) == fov_seq(m2, cx, cy, range, k),
    decreases k,
{
    if k > 0 {
        lemma_fov_same_map(m1, m2, cx, cy, range, k - 1);
        let tx = crate::fov::cell_x(cx, range, k - 1);
        let ty = crate::fov::cell_y(cy, range, k - 1);
        assert(crate::fov::los_clear(m1, cx, cy, tx, ty) == crate::fov::los_clear(
            m2,
            cx,
            cy,
            tx,
            ty,
        )) by {
            let n = crate::fov::line_len(cx, cy, tx, ty);
            if crate::fov::los_clear(m1, cx, cy, tx, ty) {
                assert forall|i: int| 1 <= i < n implies m2.tiles@[m2.idx_of(
                    #[trigger] crate::fov::line_x(cx, tx, i, n),
                    crate::fov::line_y(cy, ty, i, n),
                )] != crate::map::TileType::Wall by {
                    assert(m1.tiles@[m1.idx_of(
                        crate::fov::line_x(cx, tx, i, n),
                        crate::fov::line_y(cy, ty, i, n),
                    )] != crate::map::TileType::Wall);
                }
            }
            if crate::fov::los_clear(m2, cx, cy, tx, ty) {
                assert forall|i: int| 1 <= i < n implies m1.tiles@[m1.idx_of(
                    #[trigger] crate::fov::line_x(cx, tx, i, n),
                    crate::fov::line_y(cy, ty, i, n),
                )] != crate::map::TileType::Wall by {
                    assert(m2.tiles@[m2.idx_of(
                        crate::fov::line_x(cx, tx, i, n),
                        crate::fov::line_y(cy, ty, i, n),
                    )] != crate::map::TileType::Wall);
                }
            }
        }
        assert(visible_tile(m1, cx, cy, range, tx, ty) == visible_tile(m2, cx, cy, range, tx, ty));
    }
}

pub struct VisibilitySystem {}

impl VisibilitySystem {
    /// Recompute every dirty viewshed; feed the player's into the map's
    /// revealed and visible layers.
    pub fn run(&mut self, w: &mut World)
        requires
            old(w).wf(),
        ensures
            final(w).wf(),
            vis_rel(*old(w), *final(w)),
    {
        let n = w.alive.len();
        let mut e: usize = 0;
        while e < n
            invariant
                e <= n,
                n == w.n(),
                w.wf(),
                *w == (World { map: w.map, viewshed: w.viewshed, ..*old(w) }),
                w.map == (SpatialMap {
                    revealed_tiles: w.map.revealed_tiles,
                    visible_tiles: w.map.visible_tiles,
                    ..old(w).map
                }),
                forall|e2: int|
                    0 <= e2 < e ==> (if vis_processed(*old(w), e2) {
                        &&& (#[trigger] w.viewshed@[e2]) is Some
                        &&& w.viewshed@[e2]->Some_0.range == old(w).viewshed@[e2]->Some_0.range
                        &&& w.viewshed@[e2]->Some_0.dirty == false
                        &&& w.viewshed@[e2]->Some_0.visible_tiles@ == fov_full(
                            old(w).map,
                            old(w).position@[e2]->Some_0.x as int,
                            old(w).position@[e2]->Some_0.y as int,
                            old(w).viewshed@[e2]->Some_0.range as int,
                        )
                    } else {
                        w.viewshed@[e2] == old(w).viewshed@[e2]
                    }),
                forall|e2: int| e <= e2 < n ==> #[trigger] w.viewshed@[e2] == old(w).viewshed@[e2],
                forall|idx: int|
                    0 <= idx < w.map.area() ==> #[trigger] w.map.revealed_tiles@[idx] == (old(
                        w,
                    ).map.revealed_tiles@[idx] || (e as int > old(w).player_id
                        && player_processed(*old(w)) && player_sees_idx(*old(w), idx))),
                forall|idx: int|
                    0 <= idx < w.map.area() ==> #[trigger] w.map.visible_tiles@[idx] == (if (
                    e as int > old(w).player_id && player_processed(*old(w))) {
                        player_sees_idx(*old(w), idx)
                    } else {
                        old(w).map.visible_tiles@[idx]
                    }),
            decreases n - e,
        {
            let ghost pre = *w;
            let alive_e = w.alive[e];
            let mut has_vs = false;
            let mut range: i32 = 0;
            let mut dirty = false;
            match &w.viewshed[e] {
                Some(v) => {
                    has_vs = true;
                    range = v.range;
                    dirty = v.dirty;
                },
                None => {},
            }
            let pos = w.position[e];
            if alive_e && has_vs && dirty && pos.is_some() {
                let p = pos.unwrap();
                proof {
                    assert(w.entity_wf(e as int));
                    assert(vis_processed(*old(w), e as int));
                }
                let visible = field_of_view(&w.map, p.x, p.y, range);
                proof {
                    lemma_fov_same_map(
                        w.map,
                        old(w).map,
                        p.x as int,
                        p.y as int,
                        range as int,
                        crate::fov::box_side(range as int) * crate::fov::box_side(range as int),
                    );
                }
                let ghost fseq = fov_full(
                    old(w).map,
                    p.x as int,
                    p.y as int,
                    range as int,
                );
                if w.player[e] {
                    // Rebuild the player-centric visible layer from scratch,
                    // then mark everything seen as revealed.
                    let area = w.map.visible_tiles.len();
                    let mut idx: usize = 0;
                    while idx < area
                        invariant
                            idx <= area,
                            area == w.map.area(),
                            w.wf(),
                            *w == (World { map: w.map, ..pre }),
                            w.map == (SpatialMap { visible_tiles: w.map.visible_tiles, ..pre.map }),
                            forall|j: int|
                                0 <= j < idx ==> !(#[trigger] w.map.visible_tiles@[j]),
                            forall|j: int|
                                idx <= j < area ==> #[trigger] w.map.visible_tiles@[j]
                                    == pre.map.visible_tiles@[j],
                        decreases area - idx,
                    {
                        w.map.visible_tiles.set(idx, false);
                        proof {
                            assert forall|e3: int| 0 <= e3 < w.n() implies w.entity_wf(e3) by {
                                assert(pre.entity_wf(e3));
                            }
                        }
                        idx += 1;
                    }
                    let m = visible.len();
                    let mut j: usize = 0;
                    while j < m
                        invariant
                            j <= m,
                            m == fseq.len(),
                            visible@ == fseq,
                            w.wf(),
                            *w == (World { map: w.map, ..pre }),
                            w.map == (SpatialMap {
                                revealed_tiles: w.map.revealed_tiles,
                                visible_tiles: w.map.visible_tiles,
                                ..pre.map
                            }),
                            forall|i2: int|
                                0 <= i2 < w.map.area() ==> #[trigger] w.map.visible_tiles@[i2]
                                    == (exists|j2: int|
                                    0 <= j2 < j && pre.map.idx_of(
                                        #[trigger] fseq[j2].x as int,
                                        fseq[j2].y as int,
                                    ) == i2),
                            forall|i2: int|
                                0 <= i2 < w.map.area() ==> #[trigger] w.map.revealed_tiles@[i2]
                                    == (pre.map.revealed_tiles@[i2] || (exists|j2: int|
                                    0 <= j2 < j && pre.map.idx_of(
                                        #[trigger] fseq[j2].x as int,
                                        fseq[j2].y as int,
                                    ) == i2)),
                        decreases m - j,
                    {
                        let ghost mid = *w;
                        let vt = visible[j];
                        proof {
                            crate::fov::lemma_fov_sound(
                                old(w).map,
                                p.x as int,
                                p.y as int,
                                range as int,
                                crate::fov::box_side(range as int) * crate::fov::box_side(
                                    range as int,
                                ),
                            );
                            assert(visible_tile(
                                old(w).map,
                                p.x as int,
                                p.y as int,
                                range as int,
                                fseq[j as int].x as int,
                                fseq[j as int].y as int,
                            ));
                        }
                        let tidx = w.map.get_index_at(vt.x, vt.y);
                        w.map.visible_tiles.set(tidx, true);
                        w.map.revealed_tiles.set(tidx, true);
                        proof {
                            assert forall|e3: int| 0 <= e3 < w.n() implies w.entity_wf(e3) by {
                                assert(pre.entity_wf(e3));
                            }
                            assert forall|i2: int| 0 <= i2 < w.map.area() implies
                                #[trigger] w.map.visible_tiles@[i2] == (exists|j2: int|
                                0 <= j2 < j + 1 && pre.map.idx_of(
                                    #[trigger] fseq[j2].x as int,
                                    fseq[j2].y as int,
                                ) == i2) by {
                                if i2 == tidx {
                                    assert(pre.map.idx_of(
                                        fseq[j as int].x as int,
                                        fseq[j as int].y as int,
                                    ) == i2);
                                } else {
                                    if exists|j2: int|
                                        0 <= j2 < j + 1 && pre.map.idx_of(
                                            #[trigger] fseq[j2].x as int,
                                            fseq[j2].y as int,
                                        ) == i2 {
                                        let j2 = choose|j2: int|
                                            0 <= j2 < j + 1 && pre.map.idx_of(
                                                #[trigger] fseq[j2].x as int,
                                                fseq[j2].y as int,
                                            ) == i2;
                                        assert(j2 != j);
                                    }
                                    if exists|j2: int|
                                        0 <= j2 < j && pre.map.idx_of(
                                            #[trigger] fseq[j2].x as int,
                                            fseq[j2].y as int,
                                        ) == i2 {
                                        let j2 = choose|j2: int|
                                            0 <= j2 < j && pre.map.idx_of(
                                                #[trigger] fseq[j2].x as int,
                                                fseq[j2].y as int,
                                            ) == i2;
                                        assert(0 <= j2 < j + 1 && pre.map.idx_of(
                                            fseq[j2].x as int,
                                            fseq[j2].y as int,
                                        ) == i2);
                                    }
                                }
                            }
                            assert forall|i2: int| 0 <= i2 < w.map.area() implies
                                #[trigger] w.map.revealed_tiles@[i2] == (
                            pre.map.revealed_tiles@[i2] || (exists|j2: int|
                                0 <= j2 < j + 1 && pre.map.idx_of(
                                    #[trigger] fseq[j2].x as int,
                                    fseq[j2].y as int,
                                ) == i2)) by {
                                if i2 == tidx {
                                    assert(pre.map.idx_of(
                                        fseq[j as int].x as int,
                                        fseq[j as int].y as int,
                                    ) == i2);
                                } else {
                                    if exists|j2: int|
                                        0 <= j2 < j + 1 && pre.map.idx_of(
                                            #[trigger] fseq[j2].x as int,
                                            fseq[j2].y as int,
                                        ) == i2 {
                                        let j2 = choose|j2: int|
                                            0 <= j2 < j + 1 && pre.map.idx_of(
                                                #[trigger] fseq[j2].x as int,
                                                fseq[j2].y as int,
                                            ) == i2;
                                        assert(j2 != j);
                                    }
                                    if exists|j2: int|
                                        0 <= j2 < j && pre.map.idx_of(
                                            #[trigger] fseq[j2].x as int,
                                            fseq[j2].y as int,
                                        ) == i2 {
                                        let j2 = choose|j2: int|
                                            0 <= j2 < j && pre.map.idx_of(
                                                #[trigger] fseq[j2].x as int,
                                                fseq[j2].y as int,
                                            ) == i2;
                                        assert(0 <= j2 < j + 1 && pre.map.idx_of(
                                            fseq[j2].x as int,
                                            fseq[j2].y as int,
                                        ) == i2);
                                    }
                                }
                            }
                        }
                        j += 1;
                    }
                    proof {
                        lemma_layers_are_player_view(*old(w), pre, *w, e as int, fseq, p.x as int, p.y as int, range as int);
                    }
                }
                let new_vs = Viewshed { visible_tiles: visible, range, dirty: false };
                let ghost mid2 = *w;
                w.viewshed.set(e, Some(new_vs));
                proof {
                    assert forall|e3: int| 0 <= e3 < w.n() implies w.entity_wf(e3) by {
                        assert(mid2.entity_wf(e3));
                    }
                }
            } else {
                proof {
                    assert(!vis_processed(*old(w), e as int));
                }
            }
            e += 1;
        }
    }
}

/// After the player's marking loops, the two per-tile layers say exactly
/// what the player sees: existence of a matching field-of-view entry for a
/// tile index is visibility of that tile's coordinates.
pub proof fn lemma_layers_are_player_view(
    a: World,
    pre: World,
    cur: World,
    e: int,
    fseq: Seq<crate::components::Pt>,
    px: int,
    py: int,
    range: int,
)
    requires
        a.wf(),
        0 <= e < a.n(),
        a.player@[e],
        vis_processed(a, e),
        a.player_id == e,
        px == a.position@[e]->Some_0.x as int,
        py == a.position@[e]->Some_0.y as int,
        range == a.viewshed@[e]->Some_0.range as int,
        0 <= range,
        fseq == fov_full(a.map, px, py, range),
        pre.map.width == a.map.width,
        pre.map.height == a.map.height,
        pre.map.tiles@ == a.map.tiles@,
        cur.map.width == a.map.width,
        cur.map.height == a.map.height,
        cur.map.visible_tiles@.len() == a.map.area(),
        cur.map.revealed_tiles@.len() == a.map.area(),
        forall|i2: int|
            0 <= i2 < a.map.area() ==> #[trigger] cur.map.visible_tiles@[i2] == (exists|j2: int|
                0 <= j2 < fseq.len() && pre.map.idx_of(
                    #[trigger] fseq[j2].x as int,
                    fseq[j2].y as int,
                ) == i2),
        forall|i2: int|
            0 <= i2 < a.map.area() ==> #[trigger] cur.map.revealed_tiles@[i2] == (
            pre.map.revealed_tiles@[i2] || (exists|j2: int|
                0 <= j2 < fseq.len() && pre.map.idx_of(
                    #[trigger] fseq[j2].x as int,
                    fseq[j2].y as int,
                ) == i2)),
    ensures
        forall|idx: int|
            0 <= idx < a.map.area() ==> #[trigger] cur.map.visible_tiles@[idx] == player_sees_idx(
                a,
                idx,
            ),
        forall|idx: int|
            0 <= idx < a.map.area() ==> #[trigger] cur.map.revealed_tiles@[idx] == (
            pre.map.revealed_tiles@[idx] || player_sees_idx(a, idx)),
{
    assert(a.entity_wf(e));
    assert(a.map.wf());
    assert(a.map.pt_in_bounds(a.position@[e]->Some_0));
    crate::fov::lemma_fov_contains(a.map, px, py, range);
    crate::fov::lemma_fov_sound(
        a.map,
        px,
        py,
        range,
        crate::fov::box_side(range) * crate::fov::box_side(range),
    );
    assert forall|idx: int| 0 <= idx < a.map.area() implies (exists|j2: int|
        0 <= j2 < fseq.len() && pre.map.idx_of(#[trigger] fseq[j2].x as int, fseq[j2].y as int)
            == idx) == player_sees_idx(a, idx) by {
        let wd = a.map.width as int;
        let ht = a.map.height as int;
        let tx = idx % wd;
        let ty = idx / wd;
        crate::map::lemma_idx_decompose(wd, ht, idx);
        if exists|j2: int|
            0 <= j2 < fseq.len() && pre.map.idx_of(
                #[trigger] fseq[j2].x as int,
                fseq[j2].y as int,
            ) == idx {
            let j2 = choose|j2: int|
                0 <= j2 < fseq.len() && pre.map.idx_of(
                    #[trigger] fseq[j2].x as int,
                    fseq[j2].y as int,
                ) == idx;
            let q = fseq[j2];
            assert(visible_tile(a.map, px, py, range, q.x as int, q.y as int));
            crate::map::lemma_rowmajor(wd, q.x as int, q.y as int);
            assert(q.x == tx && q.y == ty);
            assert(player_sees_idx(a, idx));
        }
        if player_sees_idx(a, idx) {
            assert(visible_tile(a.map, px, py, range, tx, ty));
            assert(fseq.contains(crate::components::Pt { x: tx as i32, y: ty as i32 }));
            let j2 = choose|j2: int|
                0 <= j2 < fseq.len() && fseq[j2] == crate::components::Pt {
                    x: tx as i32,
                    y: ty as i32,
                };
            assert(pre.map.idx_of(fseq[j2].x as int, fseq[j2].y as int) == idx);
        }
    }
}

} // verus!
