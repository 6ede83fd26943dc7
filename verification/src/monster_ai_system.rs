//! Decision phase: during the monster turn, every monster that can see
//! the player either attacks (when within melee reach) or takes one step
//! along a shortest walkable path toward the player. Decisions are made
//! against the occupancy snapshot from the start of the phase: a monster
//! never observes another monster's move of the same tick.
use vstd::prelude::*;
use vstd::pervasive::VecAdditionalExecFns;
use crate::components::{Pt, RunState, Viewshed};
use crate::map::SpatialMap;
use crate::pathing::{best_dir, compute_dists, nbr_min, path_dist, INF_DIST};
use crate::world::World;

verus! {

/// The decision phase acts on entity `e`: an alive monster with sight and
/// a position.
pub open spec fn ai_monster(a: World, e: int) -> bool {
    &&& a.alive@[e]
    &&& a.monster@[e]
    &&& a.viewshed@[e] is Some
    &&& a.position@[e] is Some
}

/// The monster stands within melee reach of the player: Euclidean
/// distance below one and a half tiles, which on the grid is a squared
/// distance of at most two.
pub open spec fn ai_adjacent(a: World, e: int) -> bool {
    let p = a.position@[e]->Some_0;
    let dx = p.x - a.player_pos.x;
    let dy = p.y - a.player_pos.y;
    dx * dx + dy * dy <= 2
}

/// The player's tile is in the monster's visible set.
pub open spec fn ai_sees(a: World, e: int) -> bool {
    a.viewshed@[e]->Some_0.visible_tiles@.contains(a.player_pos)
}

/// Walkable distances toward the player over the phase-start occupancy.
pub open spec fn ai_dists(a: World) -> Seq<u32> {
    path_dist(
        a.map,
        a.map.blocked@,
        a.map.idx_of(a.player_pos.x as int, a.player_pos.y as int),
    )
}

/// The monster moves: it is not in melee reach, sees the player, and some
/// neighbouring tile has a finite walkable distance to the player.
pub open spec fn ai_moves(a: World, e: int) -> bool {
    let p = a.position@[e]->Some_0;
    &&& ai_monster(a, e)
    &&& !ai_adjacent(a, e)
    &&& ai_sees(a, e)
    &&& nbr_min(a.map, ai_dists(a), p.x as int, p.y as int) < INF_DIST
}

/// The tile a moving monster steps onto: its first neighbour, in scan
/// order, whose walkable distance to the player is smallest.
pub open spec fn ai_dest(a: World, e: int) -> Pt {
    let p = a.position@[e]->Some_0;
    let d = best_dir(a.map, ai_dists(a), p.x as int, p.y as int);
    Pt { x: (p.x + d.0) as i32, y: (p.y + d.1) as i32 }
}

/// The blocking layer after the first `k` monsters' moves: each mover
/// frees its origin tile and bars its destination, in id order.
pub open spec fn ai_blocked_fold(a: World, k: int) -> Seq<bool>
    decreases k,
{
    if k <= 0 {
        a.map.blocked@
    } else {
        let s = ai_blocked_fold(a, k - 1);
        if ai_moves(a, k - 1) {
            let p = a.position@[k - 1]->Some_0;
            s.update(a.map.idx_of(p.x as int, p.y as int), false).update(
                a.map.idx_of(ai_dest(a, k - 1).x as int, ai_dest(a, k - 1).y as int),
                true,
            )
        } else {
            s
        }
    }
}

/// What the decision phase does. Outside the monster turn, nothing. In
/// it: every monster in melee reach of the player files a melee intent on
/// the player; every other monster that sees the player and can walk
/// toward it steps onto its best neighbouring tile, patching the blocking
/// layer and dirtying its viewshed; everything else is unchanged.
pub open spec fn ai_rel(a: World, b: World) -> bool {
    if a.run_state != RunState::MonsterTurn {
        b == a
    } else {
        &&& forall|e: int|
            0 <= e < a.n() ==> #[trigger] b.wants_melee@[e] == (if ai_monster(a, e)
                && ai_adjacent(a, e) {
                Some(a.player_id)
            } else {
                a.wants_melee@[e]
            })
        &&& forall|e: int|
            0 <= e < a.n() ==> #[trigger] b.position@[e] == (if ai_moves(a, e) {
                Some(ai_dest(a, e))
            } else {
                a.position@[e]
            })
        &&& forall|e: int|
            0 <= e < a.n() ==> (if ai_moves(a, e) {
                &&& (#[trigger] b.viewshed@[e]) is Some
                &&& b.viewshed@[e]->Some_0.dirty
                &&& b.viewshed@[e]->Some_0.range == a.viewshed@[e]->Some_0.range
                &&& b.viewshed@[e]->Some_0.visible_tiles
                    == a.viewshed@[e]->Some_0.visible_tiles
            } else {
                b.viewshed@[e] == a.viewshed@[e]
            })
        &&& b.wants_melee@.len() == a.wants_melee@.len()
        &&& b.position@.len() == a.position@.len()
        &&& b.viewshed@.len() == a.viewshed@.len()
        &&& b.map.blocked@ == ai_blocked_fold(a, a.n())
        &&& b.map == (SpatialMap { blocked: b.map.blocked, ..a.map })
        &&& b == (World {
            map: b.map,
            position: b.position,
            viewshed: b.viewshed,
            wants_melee: b.wants_melee,
            ..a
        })
    }
}

/// Whether a point list holds a given point.
fn contains_pt(v: &Vec<Pt>, p: Pt) -> (r: bool)
    ensures
        r == v@.contains(p),
{
    let n = v.len();
    let mut i: usize = 0;
    while i < n
        invariant
            i <= n,
            n == v@.len(),
            forall|j: int| 0 <= j < i ==> v@[j] != p,
        decreases n - i,
    {
        if v[i].x == p.x && v[i].y == p.y {
            proof {
                assert(v@[i as int] == p);
            }
            return true;
        }
        i += 1;
    }
    false
}

pub struct MonsterAI {}

impl MonsterAI {
    /// Decide every monster's turn against the phase-start occupancy
    /// snapshot: melee the player when in reach, otherwise walk one step
    /// along a shortest path when the player is visible and reachable.
    pub fn run(&mut self, w: &mut World)
        requires
            old(w).wf(),
        ensures
            final(w).wf(),
            ai_rel(*old(w), *final(w)),
    {
        if !matches!(w.run_state, RunState::MonsterTurn) {
            return ;
        }
        let player_idx = w.map.get_index_at(w.player_pos.x, w.player_pos.y);
        let dists = compute_dists(&w.map, player_idx);
        proof {
            assert(dists@ == ai_dists(*old(w)));
        }
        let n = w.alive.len();
        let mut e: usize = 0;
        while e < n
            invariant
                e <= n,
                n == w.n(),
                w.wf(),
                w.run_state == RunState::MonsterTurn,
                dists@ == ai_dists(*old(w)),
                dists@.len() == w.map.area(),
                *w == (World {
                    map: w.map,
                    position: w.position,
                    viewshed: w.viewshed,
                    wants_melee: w.wants_melee,
                    ..*old(w)
                }),
                w.map == (SpatialMap { blocked: w.map.blocked, ..old(w).map }),
                forall|e2: int|
                    0 <= e2 < e ==> #[trigger] w.wants_melee@[e2] == (if ai_monster(*old(w), e2)
                        && ai_adjacent(*old(w), e2) {
                        Some(old(w).player_id)
                    } else {
                        old(w).wants_melee@[e2]
                    }),
                forall|e2: int|
                    e <= e2 < n ==> #[trigger] w.wants_melee@[e2] == old(w).wants_melee@[e2],
                forall|e2: int|
                    0 <= e2 < e ==> #[trigger] w.position@[e2] == (if ai_moves(*old(w), e2) {
                        Some(ai_dest(*old(w), e2))
                    } else {
                        old(w).position@[e2]
                    }),
                forall|e2: int|
                    e <= e2 < n ==> #[trigger] w.position@[e2] == old(w).position@[e2],
                forall|e2: int|
                    0 <= e2 < e ==> (if ai_moves(*old(w), e2) {
                        &&& (#[trigger] w.viewshed@[e2]) is Some
                        &&& w.viewshed@[e2]->Some_0.dirty
                        &&& w.viewshed@[e2]->Some_0.range == old(w).viewshed@[e2]->Some_0.range
                        &&& w.viewshed@[e2]->Some_0.visible_tiles == old(
                            w,
                        ).viewshed@[e2]->Some_0.visible_tiles
                    } else {
                        w.viewshed@[e2] == old(w).viewshed@[e2]
                    }),
                forall|e2: int|
                    e <= e2 < n ==> #[trigger] w.viewshed@[e2] == old(w).viewshed@[e2],
                w.map.blocked@ == ai_blocked_fold(*old(w), e as int),
            decreases n - e,
        {
            let ghost pre = *w;
            let is_actor = w.alive[e] && w.monster[e];
            let pos = w.position[e];
            let mut has_vs = false;
            match &w.viewshed[e] {
                Some(_) => {
                    has_vs = true;
                },
                None => {},
            }
            if is_actor && has_vs && pos.is_some() {
                let p = pos.unwrap();
                proof {
                    assert(w.entity_wf(e as int));
                    assert(ai_monster(*old(w), e as int));
                }
                let dx: i64 = (p.x as i64) - (w.player_pos.x as i64);
                let dy: i64 = (p.y as i64) - (w.player_pos.y as i64);
                proof {
                    let dxi = dx as int;
                    let dyi = dy as int;
                    assert(0 <= dxi * dxi <= 0x1000000 && 0 <= dyi * dyi <= 0x1000000)
                        by (nonlinear_arith)
                        requires
                            -0x1000 <= dxi <= 0x1000,
                            -0x1000 <= dyi <= 0x1000,
                    ;
                }
                if dx * dx + dy * dy <= 2 {
                    proof {
                        assert(ai_adjacent(*old(w), e as int));
                        assert(!ai_moves(*old(w), e as int));
                    }
                    w.wants_melee.set(e, Some(w.player_id));
                    proof {
                        assert forall|e2: int| 0 <= e2 < w.n() implies w.entity_wf(e2) by {
                            assert(pre.entity_wf(e2));
                        }
                    }
                } else {
                    proof {
                        assert(!ai_adjacent(*old(w), e as int));
                    }
                    let mut sees = false;
                    match &w.viewshed[e] {
                        Some(vs) => {
                            sees = contains_pt(&vs.visible_tiles, w.player_pos);
                        },
                        None => {},
                    }
                    proof {
                        assert(sees == ai_sees(*old(w), e as int));
                    }
                    if sees {
                        let (best, bdx, bdy) = crate::pathing::best_neighbor(
                            &w.map,
                            &dists,
                            p.x,
                            p.y,
                        );
                        proof {
                            assert(nbr_min(w.map, dists@, p.x as int, p.y as int) == nbr_min(
                                old(w).map,
                                dists@,
                                p.x as int,
                                p.y as int,
                            ));
                            assert(best_dir(w.map, dists@, p.x as int, p.y as int) == best_dir(
                                old(w).map,
                                dists@,
                                p.x as int,
                                p.y as int,
                            ));
                        }
                        if best < INF_DIST {
                            proof {
                                assert(ai_moves(*old(w), e as int));
                            }
                            let old_idx = w.map.get_index_at(p.x, p.y);
                            let nx = p.x + bdx;
                            let ny = p.y + bdy;
                            proof {
                                assert(old(w).map.in_bounds_spec(nx as int, ny as int));
                                assert(ai_dest(*old(w), e as int) == Pt { x: nx, y: ny });
                            }
                            let new_idx = w.map.get_index_at(nx, ny);
                            w.map.blocked.set(old_idx, false);
                            w.position.set(e, Some(Pt { x: nx, y: ny }));
                            w.map.blocked.set(new_idx, true);
                            let mut slot: Option<Viewshed> = None;
                            w.viewshed.set_and_swap(e, &mut slot);
                            let new_slot = match slot {
                                Some(vs) => Some(
                                    Viewshed {
                                        visible_tiles: vs.visible_tiles,
                                        range: vs.range,
                                        dirty: true,
                                    },
                                ),
                                None => None,
                            };
                            w.viewshed.set(e, new_slot);
                            proof {
                                assert forall|e2: int| 0 <= e2 < w.n() implies w.entity_wf(
                                    e2,
                                ) by {
                                    assert(pre.entity_wf(e2));
                                }
                                assert(w.map.blocked@ =~= ai_blocked_fold(*old(w), e + 1));
                            }
                        } else {
                            proof {
                                assert(!ai_moves(*old(w), e as int));
                            }
                        }
                    } else {
                        proof {
                            assert(!ai_moves(*old(w), e as int));
                        }
                    }
                }
            } else {
                proof {
                    assert(!ai_monster(*old(w), e as int));
                    assert(!ai_moves(*old(w), e as int));
                }
            }
            e += 1;
        }
    }
}

} // verus!
