//! Damage-application phase: commit every pending damage amount to health,
//! clamp health at zero, leave a bloodstain where a positioned entity was
//! hurt, and drain every accumulator. Its companion pass `delete_the_dead`
//! queues dead non-players for deferred removal and turns a dead player
//! into the end of the game; the symmetric-teleport pass resolves mirrored
//! displacements queued by item effects.
use vstd::prelude::*;
use vstd::pervasive::VecAdditionalExecFns;
use crate::components::{lemma_log_push, log_of, log_view, CombatStats, LogEntry, LogEvent, Pt, RunState, MAX_DMG};
use crate::map::SpatialMap;
use crate::world::{sum_seq, sum_suffer, World};

verus! {

/// Entity `e` has combat stats and at least one pending damage amount.
pub open spec fn damaged(w: World, e: int) -> bool {
    w.alive@[e] && w.combat_stats@[e] is Some && w.suffer_damage@[e]@.len() > 0
}

/// The health entity `e` is left with: its pending damage subtracted,
/// never below zero.
pub open spec fn hp_after_damage(w: World, e: int) -> int {
    let st = w.combat_stats@[e]->Some_0;
    let total = sum_seq(w.suffer_damage@[e]@);
    if st.hp - total >= 0 {
        st.hp - total
    } else {
        0
    }
}

/// Some damaged entity with id below `k` stands on tile `idx`.
pub open spec fn blood_from(w: World, idx: int, k: int) -> bool {
    exists|e: int|
        0 <= e < k && #[trigger] damaged(w, e) && w.position@[e] is Some && w.map.idx_of(
            w.position@[e]->Some_0.x as int,
            w.position@[e]->Some_0.y as int,
        ) == idx
}

/// What damage application does: every damaged entity's health drops by
/// the sum of its accumulator (clamped at zero), every accumulator is
/// drained, a bloodstain appears under every damaged positioned entity,
/// and nothing else of the world changes.
pub open spec fn damage_rel(a: World, b: World) -> bool {
    &&& forall|e: int|
        0 <= e < a.n() ==> b.combat_stats@[e] == (if damaged(a, e) {
            Some(
                CombatStats {
                    hp: hp_after_damage(a, e) as i32,
                    ..a.combat_stats@[e]->Some_0
                },
            )
        } else {
            a.combat_stats@[e]
        })
    &&& forall|e: int| 0 <= e < a.n() ==> #[trigger] b.suffer_damage@[e]@.len() == 0
    &&& forall|idx: int|
        0 <= idx < a.map.area() ==> #[trigger] b.map.bloodstains@[idx] == (
        a.map.bloodstains@[idx] || blood_from(a, idx, a.n()))
    &&& b.combat_stats@.len() == a.combat_stats@.len()
    &&& b.suffer_damage@.len() == a.suffer_damage@.len()
    &&& b.map.bloodstains@.len() == a.map.area()
    &&& b.map == (SpatialMap { bloodstains: b.map.bloodstains, ..a.map })
    &&& b == (World {
        map: b.map,
        combat_stats: b.combat_stats,
        suffer_damage: b.suffer_damage,
        ..a
    })
}

pub struct DamageSystem {}

impl DamageSystem {
    /// Apply and drain all pending damage. Afterwards every entity with
    /// combat stats satisfies `0 <= hp <= max_hp`, and every accumulator
    /// is empty: a leaked accumulator would double-charge next tick.
    pub fn run(&mut self, w: &mut World)
        requires
            old(w).wf(),
        ensures
            final(w).wf(),
            damage_rel(*old(w), *final(w)),
            forall|e: int|
                0 <= e < final(w).n() && final(w).combat_stats@[e] is Some ==> {
                    let st = #[trigger] final(w).combat_stats@[e]->Some_0;
                    0 <= st.hp <= st.max_hp
                },
            forall|e: int| 0 <= e < final(w).n() ==> #[trigger] final(w).suffer_damage@[e]@.len() == 0,
    {
        let n = w.alive.len();
        let mut e: usize = 0;
        while e < n
            invariant
                e <= n,
                n == w.n(),
                w.wf(),
                *w == (World {
                    map: w.map,
                    combat_stats: w.combat_stats,
                    suffer_damage: w.suffer_damage,
                    ..*old(w)
                }),
                w.map == (SpatialMap { bloodstains: w.map.bloodstains, ..old(w).map }),
                forall|e2: int|
                    0 <= e2 < e ==> w.combat_stats@[e2] == (if damaged(*old(w), e2) {
                        Some(
                            CombatStats {
                                hp: hp_after_damage(*old(w), e2) as i32,
                                ..old(w).combat_stats@[e2]->Some_0
                            },
                        )
                    } else {
                        old(w).combat_stats@[e2]
                    }),
                forall|e2: int| 0 <= e2 < e ==> #[trigger] w.suffer_damage@[e2]@.len() == 0,
                forall|e2: int|
                    e <= e2 < n ==> #[trigger] w.combat_stats@[e2] == old(w).combat_stats@[e2],
                forall|e2: int|
                    e <= e2 < n ==> #[trigger] w.suffer_damage@[e2] == old(w).suffer_damage@[e2],
                forall|idx: int| #![trigger w.map.bloodstains@[idx]]
                    0 <= idx < w.map.area() ==> w.map.bloodstains@[idx] == (
                    old(w).map.bloodstains@[idx] || blood_from(*old(w), idx, e as int)),
            decreases n - e,
        {
            let ghost pre = *w;
            let is_damaged = w.alive[e] && w.combat_stats[e].is_some()
                && w.suffer_damage[e].len() > 0;
            if is_damaged {
                proof {
                    assert(w.entity_wf(e as int));
                }
                let total = sum_suffer(&w.suffer_damage[e]);
                let st = w.combat_stats[e].unwrap();
                let hp_wide = (st.hp as i128) - total;
                let new_hp: i32 = if hp_wide < 0 {
                    0
                } else {
                    hp_wide as i32
                };
                w.combat_stats.set(e, Some(CombatStats { hp: new_hp, ..st }));
                if let Some(p) = w.position[e] {
                    let idx = w.map.get_index_at(p.x, p.y);
                    w.map.bloodstains.set(idx, true);
                }
            }
            w.suffer_damage.set(e, Vec::new());
            proof {
                assert forall|e2: int| 0 <= e2 < w.n() implies w.entity_wf(e2) by {
                    assert(pre.entity_wf(e2));
                }
                assert(damaged(*old(w), e as int) == is_damaged);
                assert forall|idx: int| #![trigger w.map.bloodstains@[idx]]
                    0 <= idx < w.map.area() implies w.map.bloodstains@[idx] == (
                old(w).map.bloodstains@[idx] || blood_from(*old(w), idx, e + 1)) by {
                    if blood_from(*old(w), idx, e + 1) != blood_from(*old(w), idx, e as int) {
                        let b = choose|b: int|
                            0 <= b < e + 1 && #[trigger] damaged(*old(w), b) && old(
                                w,
                            ).position@[b] is Some && old(w).map.idx_of(
                                old(w).position@[b]->Some_0.x as int,
                                old(w).position@[b]->Some_0.y as int,
                            ) == idx;
                        assert(b == e);
                    }
                    if blood_from(*old(w), idx, e as int) {
                        let b = choose|b: int|
                            0 <= b < e && #[trigger] damaged(*old(w), b) && old(
                                w,
                            ).position@[b] is Some && old(w).map.idx_of(
                                old(w).position@[b]->Some_0.x as int,
                                old(w).position@[b]->Some_0.y as int,
                            ) == idx;
                        assert(blood_from(*old(w), idx, e + 1));
                    }
                }
            }
            e += 1;
        }
        proof {
            assert forall|e2: int|
                0 <= e2 < w.n() && w.combat_stats@[e2] is Some implies ({
                let st = w.combat_stats@[e2]->Some_0;
                0 <= st.hp <= st.max_hp
            }) by {
                assert(w.entity_wf(e2));
            }
        }
    }
}

/// The dead non-players with id below `k`, in id order: what one sweep of
/// `delete_the_dead` queues for removal.
pub open spec fn dead_upto(w: World, k: int) -> Seq<usize>
    decreases k,
{
    if k <= 0 {
        Seq::empty()
    } else if dead_nonplayer(w, k - 1) {
        dead_upto(w, k - 1).push((k - 1) as usize)
    } else {
        dead_upto(w, k - 1)
    }
}

/// Entity `e` is alive in the registry, has combat stats at or below zero
/// health, and is not the player.
pub open spec fn dead_nonplayer(w: World, e: int) -> bool {
    w.alive@[e] && w.combat_stats@[e] is Some && w.combat_stats@[e]->Some_0.hp <= 0
        && !w.player@[e]
}

/// The death notices one sweep logs, over entities with id below `k`:
/// one per named dead non-player, carrying the victim's name, in id order.
pub open spec fn dead_log(w: World, k: int) -> Seq<LogEvent>
    decreases k,
{
    if k <= 0 {
        Seq::empty()
    } else if dead_nonplayer(w, k - 1) && w.name@[k - 1] is Some {
        dead_log(w, k - 1).push(LogEvent::Dead { name: w.name@[k - 1]->Some_0@ })
    } else {
        dead_log(w, k - 1)
    }
}

/// The player-capable entity is alive with health at or below zero.
pub open spec fn dead_player_below(w: World, k: int) -> bool {
    exists|e: int|
        0 <= e < k && w.alive@[e] && #[trigger] w.player@[e] && w.combat_stats@[e] is Some
            && w.combat_stats@[e]->Some_0.hp <= 0
}

/// Queue every dead non-player for deferred deletion (logging a death
/// notice when the victim is named), and turn a dead player into the
/// `GameOver` state instead of deleting it. Deletions themselves happen
/// later, in the structural maintenance pass.
pub fn delete_the_dead(w: &mut World)
    requires
        old(w).wf(),
    ensures
        final(w).wf(),
        final(w).pending_deletes@ == old(w).pending_deletes@ + dead_upto(*old(w), old(w).n()),
        final(w).run_state == (if dead_player_below(*old(w), old(w).n()) {
            RunState::GameOver
        } else {
            old(w).run_state
        }),
        log_of(final(w).log@) == log_of(old(w).log@) + dead_log(*old(w), old(w).n()),
        *final(w) == (World {
            run_state: final(w).run_state,
            log: final(w).log,
            pending_deletes: final(w).pending_deletes,
            ..*old(w)
        }),
{
    let n = w.alive.len();
    let mut e: usize = 0;
    while e < n
        invariant
            e <= n,
            n == w.n(),
            w.wf(),
            *w == (World {
                run_state: w.run_state,
                log: w.log,
                pending_deletes: w.pending_deletes,
                ..*old(w)
            }),
            w.pending_deletes@ == old(w).pending_deletes@ + dead_upto(*old(w), e as int),
            w.run_state == (if dead_player_below(*old(w), e as int) {
                RunState::GameOver
            } else {
                old(w).run_state
            }),
            log_of(w.log@) == log_of(old(w).log@) + dead_log(*old(w), e as int),
        decreases n - e,
    {
        let ghost pre = *w;
        if w.alive[e] {
            if let Some(st) = w.combat_stats[e] {
                if st.hp <= 0 {
                    if !w.player[e] {
                        let nm = &w.name[e];
                        if let Some(victim_name) = nm {
                            let ghost pre_log = w.log@;
                            let entry = LogEntry::Dead { name: victim_name.clone() };
                            w.log.push(entry);
                            proof {
                                assert(dead_nonplayer(*old(w), e as int));
                                lemma_log_push(pre_log, entry);
                                assert(log_view(entry) == (LogEvent::Dead {
                                    name: old(w).name@[e as int]->Some_0@
                                }));
                                assert(log_of(old(w).log@) + dead_log(*old(w), e + 1) =~= (
                                log_of(old(w).log@) + dead_log(*old(w), e as int)).push(
                                    LogEvent::Dead { name: old(w).name@[e as int]->Some_0@ },
                                ));
                            }
                        } else {
                            proof {
                                assert(dead_log(*old(w), e + 1) == dead_log(*old(w), e as int));
                            }
                        }
                        w.pending_deletes.push(e);
                    } else {
                        w.run_state = RunState::GameOver;
                        proof {
                            assert(0 <= e < e + 1 && old(w).alive@[e as int] && old(
                                w,
                            ).player@[e as int] && old(w).combat_stats@[e as int] is Some && old(
                                w,
                            ).combat_stats@[e as int]->Some_0.hp <= 0);
                            assert(dead_player_below(*old(w), e + 1));
                        }
                    }
                }
            }
        }
        proof {
            if dead_player_below(*old(w), e + 1) && !dead_player_below(*old(w), e as int) {
                let b = choose|b: int|
                    0 <= b < e + 1 && old(w).alive@[b] && #[trigger] old(w).player@[b] && old(
                        w,
                    ).combat_stats@[b] is Some && old(w).combat_stats@[b]->Some_0.hp <= 0;
                assert(b == e);
            }
            if dead_player_below(*old(w), e as int) {
                let b = choose|b: int|
                    0 <= b < e && old(w).alive@[b] && #[trigger] old(w).player@[b] && old(
                        w,
                    ).combat_stats@[b] is Some && old(w).combat_stats@[b]->Some_0.hp <= 0;
                assert(dead_player_below(*old(w), e + 1));
            }
            assert forall|e2: int| 0 <= e2 < w.n() implies w.entity_wf(e2) by {
                assert(pre.entity_wf(e2));
            }
            if dead_nonplayer(*old(w), e as int) {
                assert(dead_upto(*old(w), e + 1) == dead_upto(*old(w), e as int).push(e));
            } else {
                assert(dead_upto(*old(w), e + 1) == dead_upto(*old(w), e as int));
                assert(dead_log(*old(w), e + 1) == dead_log(*old(w), e as int));
            }
        }
        e += 1;
    }
}


/// The mirrored destination of teleported entity `v`: its displacement
/// from the caster's position, reflected through that position.
pub open spec fn tp_dest(w: World, v: int) -> Pt {
    let f = w.teleport_from@[v]->Some_0 as int;
    let fp = w.position@[f]->Some_0;
    let vp = w.position@[v]->Some_0;
    Pt { x: (2 * fp.x - vp.x) as i32, y: (2 * fp.y - vp.y) as i32 }
}

/// The teleport of entity `v` resolves: it is alive with a pending
/// mirrored teleport, both it and the caster stand somewhere, it has a
/// viewshed to invalidate, and the mirrored destination is on the map.
pub open spec fn tp_applies(w: World, v: int) -> bool {
    &&& w.alive@[v]
    &&& w.teleport_from@[v] is Some
    &&& w.position@[v] is Some
    &&& w.position@[w.teleport_from@[v]->Some_0 as int] is Some
    &&& w.viewshed@[v] is Some
    &&& w.map.in_bounds_spec(2 * w.position@[w.teleport_from@[v]->Some_0 as int]->Some_0.x
        - w.position@[v]->Some_0.x, 2 * w.position@[w.teleport_from@[v]->Some_0 as int]->Some_0.y
        - w.position@[v]->Some_0.y)
}

/// The entities the teleport pass pushes into tile `idx`'s occupant list:
/// every resolving victim with id below `k` whose destination is that
/// tile, in id order.
pub open spec fn tp_added(w: World, idx: int, k: int) -> Seq<usize>
    decreases k,
{
    if k <= 0 {
        Seq::empty()
    } else if tp_applies(w, k - 1) && w.map.idx_of(
        tp_dest(w, k - 1).x as int,
        tp_dest(w, k - 1).y as int,
    ) == idx {
        tp_added(w, idx, k - 1).push((k - 1) as usize)
    } else {
        tp_added(w, idx, k - 1)
    }
}

/// Some resolving victim with id below `k` lands on tile `idx`.
pub open spec fn tp_lands(w: World, idx: int, k: int) -> bool {
    exists|v: int|
        0 <= v < k && #[trigger] tp_applies(w, v) && w.map.idx_of(
            tp_dest(w, v).x as int,
            tp_dest(w, v).y as int,
        ) == idx
}

/// The diagnostics the teleport pass logs, over victims with id below
/// `k`: one dropped-intent notice per pending teleport that cannot
/// resolve (missing position, caster position or viewshed, or an
/// off-map destination), in id order.
pub open spec fn tp_log(w: World, k: int) -> Seq<LogEvent>
    decreases k,
{
    if k <= 0 {
        Seq::empty()
    } else if w.alive@[k - 1] && w.teleport_from@[k - 1] is Some && !tp_applies(w, k - 1) {
        tp_log(w, k - 1).push(LogEvent::SkippedIntent { who: (k - 1) as usize })
    } else {
        tp_log(w, k - 1)
    }
}

/// What the symmetric-teleport pass does: every resolving victim stands at
/// its mirrored destination with a dirtied viewshed, the destination tile
/// is marked blocked and gains the victim in its occupant list, every
/// pending teleport is drained, and nothing else of the world changes.
/// Caster positions are the ones from before the pass: they are
/// snapshotted at intent-resolution time, so the order of victims cannot
/// change any destination.
pub open spec fn tp_rel(a: World, b: World) -> bool {
    &&& forall|v: int|
        0 <= v < a.n() ==> #[trigger] b.position@[v] == (if tp_applies(a, v) {
            Some(tp_dest(a, v))
        } else {
            a.position@[v]
        })
    &&& forall|v: int|
        0 <= v < a.n() ==> (if tp_applies(a, v) {
            &&& (#[trigger] b.viewshed@[v]) is Some
            &&& b.viewshed@[v]->Some_0.dirty
            &&& b.viewshed@[v]->Some_0.range == a.viewshed@[v]->Some_0.range
            &&& b.viewshed@[v]->Some_0.visible_tiles == a.viewshed@[v]->Some_0.visible_tiles
        } else {
            b.viewshed@[v] == a.viewshed@[v]
        })
    &&& forall|v: int| 0 <= v < a.n() ==> #[trigger] b.teleport_from@[v] is None
    &&& forall|idx: int|
        0 <= idx < a.map.area() ==> #[trigger] b.map.blocked@[idx] == (a.map.blocked@[idx]
            || tp_lands(a, idx, a.n()))
    &&& forall|idx: int|
        0 <= idx < a.map.area() ==> #[trigger] b.map.tile_content@[idx]@
            == a.map.tile_content@[idx]@ + tp_added(a, idx, a.n())
    &&& b.position@.len() == a.position@.len()
    &&& b.viewshed@.len() == a.viewshed@.len()
    &&& b.teleport_from@.len() == a.teleport_from@.len()
    &&& b.map.blocked@.len() == a.map.area()
    &&& b.map.tile_content@.len() == a.map.area()
    &&& b.map == (SpatialMap { blocked: b.map.blocked, tile_content: b.map.tile_content, ..a.map })
    &&& log_of(b.log@) == log_of(a.log@) + tp_log(a, a.n())
    &&& b == (World {
        map: b.map,
        position: b.position,
        viewshed: b.viewshed,
        teleport_from: b.teleport_from,
        log: b.log,
        ..a
    })
}

pub struct TeleportedSymSystem {}

impl TeleportedSymSystem {
    /// Resolve every pending mirrored teleport against a snapshot of the
    /// casters' positions, then drain the pending teleports. A teleport
    /// whose victim or caster lacks what it needs, or whose destination
    /// falls off the map, is dropped with a diagnostic.
    pub fn run(&mut self, w: &mut World)
        requires
            old(w).wf(),
        ensures
            final(w).wf(),
            tp_rel(*old(w), *final(w)),
    {
        let n = w.alive.len();
        // Snapshot every caster's position before anything moves.
        let mut mid: Vec<Option<Pt>> = Vec::new();
        let mut v0: usize = 0;
        while v0 < n
            invariant
                v0 <= n,
                n == w.n(),
                w.wf(),
                *w == *old(w),
                mid@.len() == v0,
                forall|v: int|
                    0 <= v < v0 ==> #[trigger] mid@[v] == (if w.teleport_from@[v] is Some {
                        w.position@[w.teleport_from@[v]->Some_0 as int]
                    } else {
                        None::<Pt>
                    }),
            decreases n - v0,
        {
            match w.teleport_from[v0] {
                Some(f) => {
                    proof {
                        assert(w.entity_wf(v0 as int));
                    }
                    let p = w.position[f];
                    mid.push(p);
                },
                None => {
                    mid.push(None);
                },
            }
            v0 += 1;
        }
        let mut v: usize = 0;
        while v < n
            invariant
                v <= n,
                n == w.n(),
                w.wf(),
                *w == (World {
                    map: w.map,
                    position: w.position,
                    viewshed: w.viewshed,
                    log: w.log,
                    ..*old(w)
                }),
                w.map == (SpatialMap {
                    blocked: w.map.blocked,
                    tile_content: w.map.tile_content,
                    ..old(w).map
                }),
                log_of(w.log@) == log_of(old(w).log@) + tp_log(*old(w), v as int),
                mid@.len() == n,
                forall|v2: int|
                    0 <= v2 < n ==> #[trigger] mid@[v2] == (if old(w).teleport_from@[v2] is Some {
                        old(w).position@[old(w).teleport_from@[v2]->Some_0 as int]
                    } else {
                        None::<Pt>
                    }),
                forall|v2: int|
                    0 <= v2 < v ==> #[trigger] w.position@[v2] == (if tp_applies(*old(w), v2) {
                        Some(tp_dest(*old(w), v2))
                    } else {
                        old(w).position@[v2]
                    }),
                forall|v2: int|
                    v <= v2 < n ==> #[trigger] w.position@[v2] == old(w).position@[v2],
                forall|v2: int|
                    0 <= v2 < v ==> (if tp_applies(*old(w), v2) {
                        &&& (#[trigger] w.viewshed@[v2]) is Some
                        &&& w.viewshed@[v2]->Some_0.dirty
                        &&& w.viewshed@[v2]->Some_0.range == old(w).viewshed@[v2]->Some_0.range
                        &&& w.viewshed@[v2]->Some_0.visible_tiles == old(
                            w,
                        ).viewshed@[v2]->Some_0.visible_tiles
                    } else {
                        w.viewshed@[v2] == old(w).viewshed@[v2]
                    }),
                forall|v2: int|
                    v <= v2 < n ==> #[trigger] w.viewshed@[v2] == old(w).viewshed@[v2],
                forall|idx: int| #![trigger w.map.blocked@[idx]]
                    0 <= idx < w.map.area() ==> w.map.blocked@[idx] == (old(w).map.blocked@[idx]
                        || tp_lands(*old(w), idx, v as int)),
                forall|idx: int| #![trigger w.map.tile_content@[idx]]
                    0 <= idx < w.map.area() ==> w.map.tile_content@[idx]@ == old(
                        w,
                    ).map.tile_content@[idx]@ + tp_added(*old(w), idx, v as int),
            decreases n - v,
        {
            let ghost pre = *w;
            let mut acted = false;
            if w.alive[v] {
                if let Some(_f) = w.teleport_from[v] {
                    proof {
                        assert(w.entity_wf(v as int));
                    }
                    let vpos = w.position[v];
                    let fpos = mid[v];
                    let mut has_vs = false;
                    match &w.viewshed[v] {
                        Some(_) => {
                            has_vs = true;
                        },
                        None => {},
                    }
                    if vpos.is_some() && fpos.is_some() && has_vs {
                        let vp = vpos.unwrap();
                        let fp = fpos.unwrap();
                        let nx64: i64 = 2 * (fp.x as i64) - (vp.x as i64);
                        let ny64: i64 = 2 * (fp.y as i64) - (vp.y as i64);
                        if 0 <= nx64 && nx64 < w.map.width as i64 && 0 <= ny64 && ny64
                            < w.map.height as i64 {
                            acted = true;
                            let nx = nx64 as i32;
                            let ny = ny64 as i32;
                            proof {
                                assert(tp_applies(*old(w), v as int));
                                assert(tp_dest(*old(w), v as int) == Pt { x: nx, y: ny });
                            }
                            w.position.set(v, Some(Pt { x: nx, y: ny }));
                            let idx = w.map.get_index_at(nx, ny);
                            w.map.blocked.set(idx, true);
                            w.map.push_content(idx, v);
                            let mut slot: Option<crate::components::Viewshed> = None;
                            w.viewshed.set_and_swap(v, &mut slot);
                            let new_slot = match slot {
                                Some(vs) => Some(
                                    crate::components::Viewshed {
                                        visible_tiles: vs.visible_tiles,
                                        range: vs.range,
                                        dirty: true,
                                    },
                                ),
                                None => None,
                            };
                            w.viewshed.set(v, new_slot);
                            proof {
                                assert forall|e2: int| 0 <= e2 < w.n() implies w.entity_wf(
                                    e2,
                                ) by {
                                    assert(pre.entity_wf(e2));
                                }
                                assert forall|i2: int| #![trigger w.map.blocked@[i2]]
                                    0 <= i2 < w.map.area() implies w.map.blocked@[i2] == (old(
                                    w,
                                ).map.blocked@[i2] || tp_lands(*old(w), i2, v + 1)) by {
                                    if i2 == idx {
                                        assert(tp_lands(*old(w), i2, v + 1));
                                    } else {
                                        if tp_lands(*old(w), i2, v + 1) != tp_lands(
                                            *old(w),
                                            i2,
                                            v as int,
                                        ) {
                                            let b = choose|b: int|
                                                0 <= b < v + 1 && #[trigger] tp_applies(
                                                    *old(w),
                                                    b,
                                                ) && old(w).map.idx_of(
                                                    tp_dest(*old(w), b).x as int,
                                                    tp_dest(*old(w), b).y as int,
                                                ) == i2;
                                            assert(b == v);
                                        }
                                        if tp_lands(*old(w), i2, v as int) {
                                            let b = choose|b: int|
                                                0 <= b < v && #[trigger] tp_applies(*old(w), b)
                                                    && old(w).map.idx_of(
                                                    tp_dest(*old(w), b).x as int,
                                                    tp_dest(*old(w), b).y as int,
                                                ) == i2;
                                            assert(tp_lands(*old(w), i2, v + 1));
                                        }
                                    }
                                }
                                assert forall|i2: int| #![trigger w.map.tile_content@[i2]]
                                    0 <= i2 < w.map.area() implies w.map.tile_content@[i2]@ == old(
                                    w,
                                ).map.tile_content@[i2]@ + tp_added(*old(w), i2, v + 1) by {
                                    if i2 == idx {
                                        assert(old(w).map.tile_content@[i2]@ + tp_added(
                                            *old(w),
                                            i2,
                                            v + 1,
                                        ) =~= (old(w).map.tile_content@[i2]@ + tp_added(
                                            *old(w),
                                            i2,
                                            v as int,
                                        )).push(v));
                                        assert(w.map.tile_content@[i2]@
                                            == pre.map.tile_content@[i2]@.push(v));
                                    } else {
                                        assert(w.map.tile_content@[i2]
                                            == pre.map.tile_content@[i2]);
                                    }
                                }
                            }
                        }
                    }
                    if !acted {
                        let ghost pre_log = w.log@;
                        let entry = LogEntry::SkippedIntent { who: v };
                        w.log.push(entry);
                        proof {
                            assert(!tp_applies(*old(w), v as int));
                            assert forall|e2: int| 0 <= e2 < w.n() implies w.entity_wf(e2) by {
                                assert(pre.entity_wf(e2));
                            }
                            lemma_log_push(pre_log, entry);
                            assert(log_of(old(w).log@) + tp_log(*old(w), v + 1) =~= (log_of(
                                old(w).log@,
                            ) + tp_log(*old(w), v as int)).push(
                                LogEvent::SkippedIntent { who: v },
                            ));
                        }
                    }
                }
            }
            proof {
                if !(old(w).alive@[v as int] && old(w).teleport_from@[v as int] is Some) {
                    assert(!tp_applies(*old(w), v as int));
                    assert(tp_log(*old(w), v + 1) == tp_log(*old(w), v as int));
                }
                if tp_applies(*old(w), v as int) {
                    assert(tp_log(*old(w), v + 1) == tp_log(*old(w), v as int));
                }
                if !tp_applies(*old(w), v as int) {
                    assert forall|i2: int| #![trigger w.map.blocked@[i2]]
                        0 <= i2 < w.map.area() implies w.map.blocked@[i2] == (old(
                    w,
                    ).map.blocked@[i2] || tp_lands(*old(w), i2, v + 1)) by {
                        if tp_lands(*old(w), i2, v + 1) {
                            let b = choose|b: int|
                                0 <= b < v + 1 && #[trigger] tp_applies(*old(w), b) && old(
                                    w,
                                ).map.idx_of(
                                    tp_dest(*old(w), b).x as int,
                                    tp_dest(*old(w), b).y as int,
                                ) == i2;
                            assert(b != v);
                            assert(tp_lands(*old(w), i2, v as int));
                        }
                        if tp_lands(*old(w), i2, v as int) {
                            let b = choose|b: int|
                                0 <= b < v && #[trigger] tp_applies(*old(w), b) && old(
                                    w,
                                ).map.idx_of(
                                    tp_dest(*old(w), b).x as int,
                                    tp_dest(*old(w), b).y as int,
                                ) == i2;
                            assert(tp_lands(*old(w), i2, v + 1));
                        }
                    }
                    assert forall|i2: int| #![trigger w.map.tile_content@[i2]]
                        0 <= i2 < w.map.area() implies w.map.tile_content@[i2]@ == old(
                    w,
                    ).map.tile_content@[i2]@ + tp_added(*old(w), i2, v + 1) by {
                        assert(tp_added(*old(w), i2, v + 1) == tp_added(*old(w), i2, v as int));
                    }
                }
            }
            v += 1;
        }
        let mut e: usize = 0;
        while e < n
            invariant
                e <= n,
                n == w.n(),
                w.wf(),
                *w == (World {
                    map: w.map,
                    position: w.position,
                    viewshed: w.viewshed,
                    teleport_from: w.teleport_from,
                    log: w.log,
                    ..*old(w)
                }),
                w.map == (SpatialMap {
                    blocked: w.map.blocked,
                    tile_content: w.map.tile_content,
                    ..old(w).map
                }),
                log_of(w.log@) == log_of(old(w).log@) + tp_log(*old(w), n as int),
                forall|v2: int|
                    0 <= v2 < n ==> #[trigger] w.position@[v2] == (if tp_applies(*old(w), v2) {
                        Some(tp_dest(*old(w), v2))
                    } else {
                        old(w).position@[v2]
                    }),
                forall|v2: int|
                    0 <= v2 < n ==> (if tp_applies(*old(w), v2) {
                        &&& (#[trigger] w.viewshed@[v2]) is Some
                        &&& w.viewshed@[v2]->Some_0.dirty
                        &&& w.viewshed@[v2]->Some_0.range == old(w).viewshed@[v2]->Some_0.range
                        &&& w.viewshed@[v2]->Some_0.visible_tiles == old(
                            w,
                        ).viewshed@[v2]->Some_0.visible_tiles
                    } else {
                        w.viewshed@[v2] == old(w).viewshed@[v2]
                    }),
                forall|idx: int| #![trigger w.map.blocked@[idx]]
                    0 <= idx < w.map.area() ==> w.map.blocked@[idx] == (old(w).map.blocked@[idx]
                        || tp_lands(*old(w), idx, n as int)),
                forall|idx: int| #![trigger w.map.tile_content@[idx]]
                    0 <= idx < w.map.area() ==> w.map.tile_content@[idx]@ == old(
                        w,
                    ).map.tile_content@[idx]@ + tp_added(*old(w), idx, n as int),
                forall|e2: int| 0 <= e2 < e ==> #[trigger] w.teleport_from@[e2] is None,
            decreases n - e,
        {
            let ghost pre = *w;
            w.teleport_from.set(e, None);
            proof {
                assert forall|e2: int| 0 <= e2 < w.n() implies w.entity_wf(e2) by {
                    assert(pre.entity_wf(e2));
                }
            }
            e += 1;
        }
    }
}

} // verus!
