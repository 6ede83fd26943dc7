//! Occupancy-index phase: rebuild the map's per-tile blocking flag and
//! occupant list from the entities' current positions. Both layers are a
//! derived cache, recomputed from scratch every tick so that no stale entry
//! of the previous tick survives.
use vstd::prelude::*;
use vstd::pervasive::VecAdditionalExecFns;
use crate::map::{SpatialMap, TileType};
use crate::world::World;

verus! {

/// Entity `e` is alive and stands on the tile with row-major index `idx`.
pub open spec fn occupies(w: World, e: int, idx: int) -> bool {
    w.alive@[e] && match w.position@[e] {
        Some(p) => w.map.idx_of(p.x as int, p.y as int) == idx,
        None => false,
    }
}

/// The occupant list a full rebuild gives tile `idx`, considering only
/// entities with id below `k`: every occupant in increasing id order.
pub open spec fn occupants_upto(w: World, idx: int, k: int) -> Seq<usize>
    decreases k,
{
    if k <= 0 {
        Seq::empty()
    } else if occupies(w, k - 1, idx) {
        occupants_upto(w, idx, k - 1).push((k - 1) as usize)
    } else {
        occupants_upto(w, idx, k - 1)
    }
}

/// Some alive, tile-blocking entity with id below `k` stands on tile `idx`.
pub open spec fn blocker_below(w: World, idx: int, k: int) -> bool {
    exists|e: int| 0 <= e < k && #[trigger] occupies(w, e, idx) && w.blocks_tile@[e]
}

/// What the occupancy rebuild does: every tile's blocking flag holds
/// exactly when the tile is a wall or some alive blocking entity stands on
/// it, every tile's occupant list is exactly the alive entities standing
/// on it in id order, and nothing else of the world changes.
pub open spec fn index_rel(a: World, b: World) -> bool {
    &&& forall|idx: int|
        0 <= idx < a.map.area() ==> b.map.blocked@[idx] == (a.map.tiles@[idx] == TileType::Wall
            || blocker_below(a, idx, a.n()))
    &&& forall|idx: int|
        0 <= idx < a.map.area() ==> b.map.tile_content@[idx]@ == occupants_upto(a, idx, a.n())
    &&& b.map.blocked@.len() == a.map.area()
    &&& b.map.tile_content@.len() == a.map.area()
    &&& b.map == (SpatialMap { blocked: b.map.blocked, tile_content: b.map.tile_content, ..a.map })
    &&& b == (World { map: b.map, ..a })
}

/// Membership in a rebuilt occupant list means a real occupant: whoever
/// the list names is alive and positioned on that tile.
pub proof fn lemma_occupants_sound(w: World, idx: int, k: int)
    requires
        0 <= k <= w.n(),
        w.n() <= usize::MAX,
    ensures
        forall|j: int|
            0 <= j < occupants_upto(w, idx, k).len() ==> #[trigger] occupants_upto(w, idx, k)[j]
                < k && occupies(w, occupants_upto(w, idx, k)[j] as int, idx),
    decreases k,
{
    if k > 0 {
        lemma_occupants_sound(w, idx, k - 1);
        let s = occupants_upto(w, idx, k);
        let s0 = occupants_upto(w, idx, k - 1);
        assert forall|j: int| 0 <= j < s.len() implies #[trigger] s[j] < k && occupies(
            w,
            s[j] as int,
            idx,
        ) by {
            if j < s0.len() {
                assert(s[j] == s0[j]);
            } else {
                assert(s[j] == (k - 1) as usize);
            }
        }
    }
}

/// Every alive occupant of a tile appears in its rebuilt occupant list.
pub proof fn lemma_occupants_complete(w: World, idx: int, k: int, e: int)
    requires
        0 <= e < k <= w.n(),
        occupies(w, e, idx),
    ensures
        occupants_upto(w, idx, k).contains(e as usize),
    decreases k,
{
    if e == k - 1 {
        assert(occupants_upto(w, idx, k).last() == e as usize);
    } else {
        lemma_occupants_complete(w, idx, k - 1, e);
        let s = occupants_upto(w, idx, k - 1);
        let j = choose|j: int| 0 <= j < s.len() && s[j] == e as usize;
        assert(occupants_upto(w, idx, k)[j] == e as usize);
    }
}

pub struct MapIndexingSystem {}

impl MapIndexingSystem {
    /// Rebuild the occupancy cache from every alive entity's position.
    pub fn run(&mut self, w: &mut World)
        requires
            old(w).wf(),
        ensures
            final(w).wf(),
            index_rel(*old(w), *final(w)),
    {
        w.map.populate_blocked();
        w.map.clear_content_index();
        proof {
            assert forall|e2: int| 0 <= e2 < w.n() implies w.entity_wf(e2) by {
                assert(old(w).entity_wf(e2));
            }
            assert(w.wf());
        }
        let n = w.alive.len();
        let mut e: usize = 0;
        while e < n
            invariant
                e <= n,
                n == w.n(),
                w.wf(),
                *w == (World { map: w.map, ..*old(w) }),
                w.map == (SpatialMap {
                    blocked: w.map.blocked,
                    tile_content: w.map.tile_content,
                    ..old(w).map
                }),
                forall|idx: int| #![trigger w.map.blocked@[idx]]
                    0 <= idx < w.map.area() ==> w.map.blocked@[idx] == (w.map.tiles@[idx]
                        == TileType::Wall || blocker_below(*old(w), idx, e as int)),
                forall|idx: int| #![trigger w.map.tile_content@[idx]]
                    0 <= idx < w.map.area() ==> w.map.tile_content@[idx]@ == occupants_upto(
                        *old(w),
                        idx,
                        e as int,
                    ),
            decreases n - e,
        {
            let ghost pre = *w;
            if w.alive[e] {
                if let Some(p) = w.position[e] {
                    proof {
                        assert(w.entity_wf(e as int));
                    }
                    let idx = w.map.get_index_at(p.x, p.y);
                    if w.blocks_tile[e] {
                        w.map.blocked.set(idx, true);
                    }
                    w.map.push_content(idx, e);
                    proof {
                        assert(occupies(*old(w), e as int, idx as int));
                        assert forall|i2: int| #![trigger w.map.blocked@[i2]]
                            0 <= i2 < w.map.area() implies w.map.blocked@[i2] == (
                        w.map.tiles@[i2] == TileType::Wall || blocker_below(
                            *old(w),
                            i2,
                            e + 1,
                        )) by {
                            if i2 == idx && w.blocks_tile@[e as int] {
                                assert(blocker_below(*old(w), i2, e + 1));
                            } else {
                                if blocker_below(*old(w), i2, e + 1) != blocker_below(
                                    *old(w),
                                    i2,
                                    e as int,
                                ) {
                                    let b = choose|b: int|
                                        0 <= b < e + 1 && #[trigger] occupies(*old(w), b, i2)
                                            && old(w).blocks_tile@[b];
                                    assert(b == e);
                                }
                            }
                        }
                        assert forall|i2: int| #![trigger w.map.tile_content@[i2]]
                            0 <= i2 < w.map.area() implies w.map.tile_content@[i2]@
                            == occupants_upto(*old(w), i2, e + 1) by {
                            if i2 == idx {
                                assert(pre.map.tile_content@[i2]@ == occupants_upto(
                                    *old(w),
                                    i2,
                                    e as int,
                                ));
                                assert(occupants_upto(*old(w), i2, e + 1) == occupants_upto(
                                    *old(w),
                                    i2,
                                    e as int,
                                ).push(e));
                                assert(w.map.tile_content@[i2]@ == pre.map.tile_content@[i2]@.push(
                                    e,
                                ));
                            } else {
                                assert(w.map.tile_content@[i2] == pre.map.tile_content@[i2]);
                                assert(!occupies(*old(w), e as int, i2));
                                assert(occupants_upto(*old(w), i2, e + 1) == occupants_upto(
                                    *old(w),
                                    i2,
                                    e as int,
                                ));
                            }
                        }
                        assert forall|e2: int| 0 <= e2 < w.n() implies w.entity_wf(e2) by {
                            assert(pre.entity_wf(e2));
                        }
                        assert forall|i2: int, k2: int|
                            0 <= i2 < w.map.tile_content@.len() && 0 <= k2
                                < w.map.tile_content@[i2]@.len() implies #[trigger] w.map.tile_content@[i2]@[k2]
                                < w.n() by {
                            if i2 == idx && k2 == w.map.tile_content@[i2]@.len() - 1 {
                            } else {
                                assert(pre.map.tile_content@[i2]@[k2] < pre.n());
                            }
                        }
                    }
                } else {
                    proof {
                        assert forall|idx: int|
                            #![trigger w.map.tile_content@[idx]]
                            #![trigger w.map.blocked@[idx]]
                            0 <= idx < w.map.area() implies w.map.tile_content@[idx]@
                            == occupants_upto(*old(w), idx, e + 1) && w.map.blocked@[idx] == (
                        w.map.tiles@[idx] == TileType::Wall || blocker_below(
                            *old(w),
                            idx,
                            e + 1,
                        )) by {
                            lemma_step_no_occupy(*old(w), idx, e as int);
                        }
                    }
                }
            } else {
                proof {
                    assert forall|idx: int|
                        #![trigger w.map.tile_content@[idx]]
                        #![trigger w.map.blocked@[idx]]
                        0 <= idx < w.map.area() implies w.map.tile_content@[idx]@
                        == occupants_upto(*old(w), idx, e + 1) && w.map.blocked@[idx] == (
                    w.map.tiles@[idx] == TileType::Wall || blocker_below(*old(w), idx, e + 1)) by {
                        lemma_step_no_occupy(*old(w), idx, e as int);
                    }
                }
            }
            e += 1;
        }
    }
}

/// When entity `e` is dead or unpositioned, extending the rebuild scan
/// past it changes neither the occupant list nor the blocking decision of
/// any one tile.
pub proof fn lemma_step_no_occupy(a: World, idx: int, e: int)
    requires
        !(a.alive@[e] && a.position@[e] is Some),
    ensures
        occupants_upto(a, idx, e + 1) == occupants_upto(a, idx, e),
        blocker_below(a, idx, e + 1) == blocker_below(a, idx, e),
{
    assert(!occupies(a, e, idx));
    if blocker_below(a, idx, e) {
        let b = choose|b: int| 0 <= b < e && #[trigger] occupies(a, b, idx) && a.blocks_tile@[b];
        assert(0 <= b < e + 1 && occupies(a, b, idx) && a.blocks_tile@[b]);
    }
    if blocker_below(a, idx, e + 1) {
        let b = choose|b: int|
            0 <= b < e + 1 && #[trigger] occupies(a, b, idx) && a.blocks_tile@[b];
        assert(b != e);
        assert(0 <= b < e && occupies(a, b, idx) && a.blocks_tile@[b]);
    }
}

} // verus!
