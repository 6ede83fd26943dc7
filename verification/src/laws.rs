//! The simulation's cross-phase guarantees, stated and proved once over
//! the phase relations: health stays within bounds after damage
//! application, pending damage never leaks across the consumption point,
//! a rebuilt occupancy index is never stale, recomputing visibility twice
//! changes nothing the second time, and a drop followed by a pickup puts
//! the item back where it started.
use vstd::prelude::*;
use crate::components::{CombatStats, Pt};
use crate::damage_system::{damage_rel, damaged, hp_after_damage};
use crate::inventory_system::{
    drop_applies, drop_bp, drop_pos, drop_rel, last_picker, pickup_applies, pickup_rel, use_fold,
    use_state_of, use_step,
};
use crate::map_indexing_system::{index_rel, lemma_occupants_sound, occupants_upto, occupies};
use crate::melee_combat_system::{
    defense_bonus_sum, melee_applies, melee_bonus_sum, melee_damage, melee_entries,
};
use crate::monster_ai_system::{ai_adjacent, ai_monster, ai_moves};
use crate::state::pipeline_rel;
use crate::visibility_system::{player_processed, vis_processed, vis_rel};
use crate::world::{lemma_sum_bounds, sum_seq, World};

verus! {

/// After damage application, every entity that still has combat stats
/// satisfies `0 <= hp <= max_hp`: a victim is clamped at zero, never left
/// negative-but-alive.
pub proof fn lemma_health_bounded_after_damage(a: World, b: World)
    requires
        a.wf(),
        damage_rel(a, b),
    ensures
        forall|e: int|
            0 <= e < b.n() && b.combat_stats@[e] is Some ==> {
                let st = #[trigger] b.combat_stats@[e]->Some_0;
                0 <= st.hp <= st.max_hp
            },
{
    assert forall|e: int| 0 <= e < b.n() && b.combat_stats@[e] is Some implies {
        let st = #[trigger] b.combat_stats@[e]->Some_0;
        0 <= st.hp <= st.max_hp
    } by {
        assert(a.entity_wf(e));
        if damaged(a, e) {
            lemma_sum_bounds(a.suffer_damage@[e]@);
            assert(b.combat_stats@[e]->Some_0.hp == hp_after_damage(a, e) as i32);
        }
    }
}

/// Immediately after damage application every pending-damage accumulator
/// is empty: the phase is the single consumption point, and nothing
/// survives it.
pub proof fn lemma_damage_drains_accumulators(a: World, b: World)
    requires
        damage_rel(a, b),
    ensures
        forall|e: int| 0 <= e < b.n() ==> #[trigger] b.suffer_damage@[e]@.len() == 0,
{
}

/// After an occupancy rebuild no entry is stale: every entity a tile's
/// occupant list names is alive and positioned exactly on that tile.
pub proof fn lemma_occupancy_not_stale(a: World, b: World)
    requires
        a.wf(),
        index_rel(a, b),
    ensures
        forall|idx: int, k: int|
            0 <= idx < b.map.area() && 0 <= k < b.map.tile_content@[idx]@.len() ==> {
                let e = #[trigger] b.map.tile_content@[idx]@[k];
                &&& b.alive@[e as int]
                &&& b.position@[e as int] is Some
                &&& b.map.idx_of(
                    b.position@[e as int]->Some_0.x as int,
                    b.position@[e as int]->Some_0.y as int,
                ) == idx
            },
{
    assert forall|idx: int, k: int|
        0 <= idx < b.map.area() && 0 <= k < b.map.tile_content@[idx]@.len() implies {
        let e = #[trigger] b.map.tile_content@[idx]@[k];
        &&& b.alive@[e as int]
        &&& b.position@[e as int] is Some
        &&& b.map.idx_of(
            b.position@[e as int]->Some_0.x as int,
            b.position@[e as int]->Some_0.y as int,
        ) == idx
    } by {
        lemma_occupants_sound(a, idx, a.n());
        assert(b.map.tile_content@[idx]@ == occupants_upto(a, idx, a.n()));
        let e = b.map.tile_content@[idx]@[k];
        assert(occupies(a, e as int, idx));
    }
}

/// Running the visibility phase twice in a row without any move or fresh
/// invalidation is a no-op the second time: the first run cleans every
/// dirty mark it processes, so the second finds nothing to do and leaves
/// every viewshed and both map layers exactly as they were.
pub proof fn lemma_visibility_idempotent(a: World, b: World, c: World)
    requires
        a.wf(),
        vis_rel(a, b),
        vis_rel(b, c),
    ensures
        forall|e: int| 0 <= e < b.n() ==> #[trigger] c.viewshed@[e] == b.viewshed@[e],
        c.map.revealed_tiles@ == b.map.revealed_tiles@,
        c.map.visible_tiles@ == b.map.visible_tiles@,
{
    assert forall|e: int| 0 <= e < b.n() implies !vis_processed(b, e) by {
        if vis_processed(b, e) {
            if vis_processed(a, e) {
                assert(!b.viewshed@[e]->Some_0.dirty);
            } else {
                assert(b.viewshed@[e] == a.viewshed@[e]);
            }
        }
    }
    assert forall|e: int| 0 <= e < b.n() implies #[trigger] c.viewshed@[e] == b.viewshed@[e] by {
        assert(!vis_processed(b, e));
    }
    assert(!player_processed(b));
    assert forall|idx: int| 0 <= idx < b.map.area() implies #[trigger] c.map.revealed_tiles@[idx]
        == b.map.revealed_tiles@[idx] by {}
    assert(c.map.revealed_tiles@ =~= b.map.revealed_tiles@);
    assert forall|idx: int| 0 <= idx < b.map.area() implies #[trigger] c.map.visible_tiles@[idx]
        == b.map.visible_tiles@[idx] by {}
    assert(c.map.visible_tiles@ =~= b.map.visible_tiles@);
}

/// Once the sole dropper of an item has acted, later droppers leave the
/// item's ground state alone.
proof fn lemma_drop_settles(a: World, d: int, i: int, k: int)
    requires
        a.wf(),
        0 <= d < a.n(),
        0 <= i < a.n(),
        a.wants_drop@[d] == Some(i as usize),
        drop_applies(a, d, d),
        forall|d2: int|
            0 <= d2 < a.n() && d2 != d && #[trigger] a.wants_drop@[d2] is Some ==> a.wants_drop@[d2]
                != Some(i as usize),
        i != d,
        d < k <= a.n(),
    ensures
        drop_pos(a, k, i) == drop_pos(a, d + 1, i),
        drop_bp(a, k, i) == None::<usize>,
    decreases k,
{
    if k == d + 1 {
        assert(drop_applies(a, d, d));
        assert(drop_pos(a, d + 1, i) == drop_pos(a, d, d));
        assert(drop_bp(a, d + 1, i) is None);
    } else {
        lemma_drop_settles(a, d, i, k - 1);
        let d2 = k - 1;
        if a.wants_drop@[d2] is Some {
            assert(a.wants_drop@[d2]->Some_0 != i);
        }
    }
}

/// The dropper's own position never changes during the drop phase: drops
/// reposition items, and the dropper is no drop target here.
proof fn lemma_dropper_pos_stable(a: World, d: int, k: int)
    requires
        a.wf(),
        0 <= d < a.n(),
        forall|d2: int|
            0 <= d2 < a.n() && #[trigger] a.wants_drop@[d2] is Some ==> a.wants_drop@[d2]
                != Some(d as usize),
        0 <= k <= a.n(),
    ensures
        drop_pos(a, k, d) == a.position@[d],
    decreases k,
{
    if k > 0 {
        lemma_dropper_pos_stable(a, d, k - 1);
        let d2 = k - 1;
        assert(0 <= d < 0x10000);
        assert(!(drop_applies(a, k - 1, d2) && a.wants_drop@[d2]->Some_0 == d)) by {
            if a.wants_drop@[d2] is Some {
                assert(a.wants_drop@[d2] != Some(d as usize));
                assert(a.wants_drop@[d2]->Some_0 != d);
            } else {
                assert(!drop_applies(a, k - 1, d2));
            }
        }
        assert(drop_pos(a, k, d) == drop_pos(a, k - 1, d));
    }
}

/// With a single picker of the item, that picker's pickup is the one that
/// lands.
proof fn lemma_single_picker(b: World, h: int, i: int, k: int)
    requires
        b.wf(),
        0 <= h < b.n(),
        0 <= i < b.n(),
        pickup_applies(b, h, i),
        forall|h2: int|
            0 <= h2 < b.n() && h2 != h && #[trigger] b.wants_pickup@[h2] is Some
                ==> b.wants_pickup@[h2]->Some_0.item != i,
        h < k <= b.n(),
    ensures
        last_picker(b, i, k) == Some(h),
    decreases k,
{
    if k == h + 1 {
    } else {
        lemma_single_picker(b, h, i, k - 1);
        let h2 = k - 1;
        if b.wants_pickup@[h2] is Some {
            assert(b.wants_pickup@[h2]->Some_0.item != i);
        }
    }
}

/// Round trip: when an entity drops an item and then picks it back up
/// (being the only one to touch it in either phase), the item ends in the
/// backpack of exactly its original owner, under its original identity.
pub proof fn lemma_drop_pickup_roundtrip(a: World, b: World, c: World, d: int, i: int, h: int)
    requires
        a.wf(),
        b.wf(),
        drop_rel(a, b),
        pickup_rel(b, c),
        0 <= d < a.n(),
        0 <= i < a.n(),
        i != d,
        // the original owner asks to drop exactly this carried item
        a.in_backpack@[i] == Some(d as usize),
        a.wants_drop@[d] == Some(i as usize),
        a.alive@[d],
        a.alive@[i],
        a.position@[d] is Some,
        a.equipped@[i] is None,
        // nobody else drops this item, and nothing repositions the dropper
        forall|d2: int|
            0 <= d2 < a.n() && d2 != d && #[trigger] a.wants_drop@[d2] is Some ==> a.wants_drop@[d2]
                != Some(i as usize),
        forall|d2: int|
            0 <= d2 < a.n() && #[trigger] a.wants_drop@[d2] is Some ==> a.wants_drop@[d2] != Some(
                d as usize,
            ),
        // afterwards the owner (alone) picks the same item back up
        0 <= h < b.n(),
        b.wants_pickup@[h] is Some,
        b.wants_pickup@[h]->Some_0.item == i,
        b.wants_pickup@[h]->Some_0.collected_by == d,
        b.alive@[h],
        forall|h2: int|
            0 <= h2 < b.n() && h2 != h && #[trigger] b.wants_pickup@[h2] is Some
                ==> b.wants_pickup@[h2]->Some_0.item != i,
    ensures
        c.in_backpack@[i] == a.in_backpack@[i],
        c.in_backpack@[i] == Some(d as usize),
{
    assert(b.n() == a.n());
    lemma_dropper_pos_stable(a, d, d as int);
    assert(drop_pos(a, d, d) == a.position@[d]);
    assert(drop_applies(a, d, d));
    lemma_drop_settles(a, d, i, a.n());
    assert(b.in_backpack@[i] == drop_bp(a, a.n(), i));
    assert(b.in_backpack@[i] is None);
    assert(b.equipped@[i] == a.equipped@[i]);
    assert(pickup_applies(b, h, i));
    lemma_single_picker(b, h, i, b.n());
    assert(last_picker(b, i, b.n()) == Some(h));
    assert(c.in_backpack@[i] == Some(b.wants_pickup@[h]->Some_0.collected_by));
}


/// Without equipment there is no equipment bonus.
proof fn lemma_no_equipment_no_bonus(w: World, owner: int, k: int)
    requires
        forall|e: int| 0 <= e < w.n() ==> #[trigger] w.equipped@[e] is None,
        0 <= k <= w.n(),
    ensures
        melee_bonus_sum(w, owner, k) == 0,
        defense_bonus_sum(w, owner, k) == 0,
    decreases k,
{
    if k > 0 {
        lemma_no_equipment_no_bonus(w, owner, k - 1);
        assert(w.equipped@[k - 1] is None);
    }
}

/// With a single attacker, melee resolution queues exactly its one hit on
/// its target, and nothing anywhere else.
proof fn lemma_single_attacker_entries(w: World, m: int, t: int, k: int)
    requires
        0 <= m < w.n(),
        w.wants_melee@[m] is Some,
        melee_applies(w, m),
        melee_damage(w, m) > 0,
        forall|e: int| 0 <= e < w.n() && e != m ==> #[trigger] w.wants_melee@[e] is None,
        0 <= k <= w.n(),
    ensures
        melee_entries(w, t, k) == (if k > m && w.wants_melee@[m]->Some_0 == t {
            seq![melee_damage(w, m) as i64]
        } else {
            Seq::<i64>::empty()
        }),
    decreases k,
{
    if k > 0 {
        lemma_single_attacker_entries(w, m, t, k - 1);
        if k - 1 != m {
            assert(w.wants_melee@[k - 1] is None);
            assert(!melee_applies(w, k - 1));
        } else {
            if w.wants_melee@[m]->Some_0 == t {
                assert(melee_entries(w, t, k) =~= seq![melee_damage(w, m) as i64]);
            }
        }
    }
}

/// With no use intent pending, item-use resolution moves nothing.
proof fn lemma_no_use(w: World, k: int)
    requires
        forall|u: int| 0 <= u < w.n() ==> #[trigger] w.wants_use@[u] is None,
        0 <= k <= w.n(),
    ensures
        use_fold(w, k) == use_state_of(w),
    decreases k,
{
    if k > 0 {
        lemma_no_use(w, k - 1);
        assert(w.wants_use@[k - 1] is None);
        assert(use_step(w, use_fold(w, k - 1), k - 1) == use_fold(w, k - 1));
    }
}

/// The melee scenario across one whole pipeline run in the monster turn:
/// an unarmed monster standing in melee reach of an unarmored player, with
/// clean viewsheds, no other live entity and no pending intent or damage
/// anywhere, attacks; resolution queues exactly power-minus-defense damage
/// and application commits it. The attacker's stats are untouched, and no
/// melee intent and no pending damage survives the run.
pub proof fn lemma_monster_turn_melee_scenario(w0: World, w9: World, m: int, p: int)
    requires
        w0.wf(),
        pipeline_rel(w0, w9),
        w0.run_state == crate::components::RunState::MonsterTurn,
        0 <= m < w0.n(),
        0 <= p < w0.n(),
        m != p,
        p == w0.player_id,
        w0.alive@[m] && w0.monster@[m],
        w0.alive@[p] && w0.player@[p] && !w0.monster@[p],
        w0.viewshed@[m] is Some && !w0.viewshed@[m]->Some_0.dirty,
        w0.viewshed@[p] is Some && !w0.viewshed@[p]->Some_0.dirty,
        w0.position@[m] is Some && w0.position@[p] is Some,
        w0.player_pos == w0.position@[p]->Some_0,
        // within melee reach: squared distance at most two
        (w0.position@[m]->Some_0.x - w0.player_pos.x) * (w0.position@[m]->Some_0.x
            - w0.player_pos.x) + (w0.position@[m]->Some_0.y - w0.player_pos.y) * (
        w0.position@[m]->Some_0.y - w0.player_pos.y) <= 2,
        w0.combat_stats@[m] is Some,
        w0.combat_stats@[p] is Some,
        // the hit connects and does not kill
        w0.combat_stats@[m]->Some_0.power > w0.combat_stats@[p]->Some_0.defense,
        w0.combat_stats@[p]->Some_0.hp > w0.combat_stats@[m]->Some_0.power
            - w0.combat_stats@[p]->Some_0.defense,
        // no equipment, no pending damage, no pending intent of any kind
        forall|e: int| 0 <= e < w0.n() ==> #[trigger] w0.equipped@[e] is None,
        forall|e: int| 0 <= e < w0.n() ==> #[trigger] w0.suffer_damage@[e]@.len() == 0,
        forall|e: int| 0 <= e < w0.n() ==> #[trigger] w0.wants_melee@[e] is None,
        forall|e: int| 0 <= e < w0.n() ==> #[trigger] w0.wants_pickup@[e] is None,
        forall|e: int| 0 <= e < w0.n() ==> #[trigger] w0.wants_use@[e] is None,
        forall|e: int| 0 <= e < w0.n() ==> #[trigger] w0.wants_drop@[e] is None,
        forall|e: int| 0 <= e < w0.n() ==> #[trigger] w0.wants_remove@[e] is None,
        forall|e: int| 0 <= e < w0.n() ==> #[trigger] w0.teleport_from@[e] is None,
        forall|e: int| 0 <= e < w0.n() && #[trigger] w0.alive@[e] ==> e == m || e == p,
    ensures
        w9.combat_stats@[p] == Some(
            CombatStats {
                hp: (w0.combat_stats@[p]->Some_0.hp - (w0.combat_stats@[m]->Some_0.power
                    - w0.combat_stats@[p]->Some_0.defense)) as i32,
                ..w0.combat_stats@[p]->Some_0
            },
        ),
        w9.combat_stats@[m] == w0.combat_stats@[m],
        forall|e: int| 0 <= e < w0.n() ==> #[trigger] w9.wants_melee@[e] is None,
        forall|e: int| 0 <= e < w0.n() ==> #[trigger] w9.suffer_damage@[e]@.len() == 0,
{
    let (w1, w2, w3, w4, w5) = choose|w1: World, w2: World, w3: World, w4: World, w5: World|
        #[trigger] vis_rel(w0, w1) && #[trigger] index_rel(w1, w2) && #[trigger] crate::monster_ai_system::ai_rel(w2, w3)
            && #[trigger] crate::melee_combat_system::melee_rel(w3, w4)
            && #[trigger] damage_rel(w4, w5) && crate::state::item_phases_rel(w5, w9);
    // the visibility phase finds every viewshed clean and changes nothing
    assert(!vis_processed(w0, m) && !vis_processed(w0, p));
    assert forall|e: int| 0 <= e < w0.n() implies #[trigger] w1.viewshed@[e]
        == w0.viewshed@[e] by {
        if w0.alive@[e] {
            assert(!vis_processed(w0, e));
        } else {
            assert(w0.entity_wf(e));
            assert(!vis_processed(w0, e));
        }
    }
    // the occupancy rebuild touches only the map
    assert(w2 == (World { map: w2.map, ..w1 }));
    // the decision phase files exactly the monster's attack
    assert(ai_monster(w2, m) && ai_adjacent(w2, m));
    assert(!ai_moves(w2, m));
    assert(w3.wants_melee@[m] == Some(w0.player_id));
    assert forall|e: int| 0 <= e < w0.n() && e != m implies #[trigger] w3.wants_melee@[e]
        is None by {
        if w0.alive@[e] {
            assert(!(ai_monster(w2, e) && ai_adjacent(w2, e)));
        } else {
            assert(w0.entity_wf(e));
            assert(!ai_monster(w2, e));
        }
        assert(w2.wants_melee@[e] == w0.wants_melee@[e]);
    }
    assert forall|e: int| 0 <= e < w0.n() implies !ai_moves(w2, e) by {
        if e != m && w0.alive@[e] {
            assert(!ai_monster(w2, e) || ai_adjacent(w2, e) || !ai_moves(w2, e)) by {
                assert(e == p ==> !w2.monster@[e]);
            }
        }
        if !w0.alive@[e] {
            assert(!ai_monster(w2, e));
        }
    }
    assert(w3.combat_stats@[m] == w0.combat_stats@[m]);
    assert(w3.combat_stats@[p] == w0.combat_stats@[p]);
    // melee resolution queues exactly one hit on the player
    let pw = w0.combat_stats@[m]->Some_0.power as int;
    let df = w0.combat_stats@[p]->Some_0.defense as int;
    assert(w0.entity_wf(m));
    assert(w0.entity_wf(p));
    assert(melee_applies(w3, m));
    lemma_no_equipment_no_bonus(w3, m, w3.n());
    lemma_no_equipment_no_bonus(w3, p, w3.n());
    assert(melee_damage(w3, m) == pw - df);
    assert forall|t: int| 0 <= t < w0.n() implies #[trigger] w4.suffer_damage@[t]@
        == (if t == p {
        seq![(pw - df) as i64]
    } else {
        Seq::<i64>::empty()
    }) by {
        lemma_single_attacker_entries(w3, m, t, w3.n());
        assert(w3.suffer_damage@[t]@ =~= Seq::<i64>::empty());
        assert(w4.suffer_damage@[t]@ =~= w3.suffer_damage@[t]@ + melee_entries(w3, t, w3.n()));
        if t == p {
            assert(w4.suffer_damage@[t]@ =~= seq![(pw - df) as i64]);
        } else {
            assert(w4.suffer_damage@[t]@ =~= Seq::<i64>::empty());
        }
    }
    // damage application commits the hit and drains the accumulator
    assert(damaged(w4, p));
    assert(!damaged(w4, m));
    assert(sum_seq(w4.suffer_damage@[p]@) == pw - df) by {
        assert(sum_seq(Seq::<i64>::empty()) == 0);
        assert(w4.suffer_damage@[p]@.drop_last() =~= Seq::<i64>::empty());
        assert(w4.suffer_damage@[p]@.last() == (pw - df) as i64);
    }
    assert(hp_after_damage(w4, p) == w0.combat_stats@[p]->Some_0.hp - (pw - df));
    assert(w5.combat_stats@[p] == Some(
        CombatStats {
            hp: (w0.combat_stats@[p]->Some_0.hp - (pw - df)) as i32,
            ..w0.combat_stats@[p]->Some_0
        },
    ));
    assert(w5.combat_stats@[m] == w0.combat_stats@[m]);
    // the item phases find no intent and move nothing
    let (w6, w7, w8, w9b) = choose|w6: World, w7: World, w8: World, w9b: World|
        #[trigger] pickup_rel(w5, w6) && #[trigger] crate::inventory_system::use_rel(w6, w7)
            && #[trigger] crate::inventory_system::drop_rel(w7, w8)
            && #[trigger] crate::inventory_system::remove_rel(w8, w9b)
            && crate::damage_system::tp_rel(w9b, w9);
    assert(w6 == (World {
        position: w6.position,
        in_backpack: w6.in_backpack,
        wants_pickup: w6.wants_pickup,
        log: w6.log,
        ..w5
    }));
    lemma_no_use(w6, w6.n());
    assert(w7.combat_stats@ == w6.combat_stats@);
    assert forall|e: int| 0 <= e < w0.n() implies #[trigger] w7.suffer_damage@[e]@
        == w6.suffer_damage@[e]@ by {
        assert(use_state_of(w6).suffer[e] == w6.suffer_damage@[e]@);
    }
    assert(w7.wants_melee@ == w6.wants_melee@);
    assert(w8.combat_stats@ == w7.combat_stats@);
    assert(w9b.combat_stats@ == w8.combat_stats@);
    assert(w9.combat_stats@ == w9b.combat_stats@);
    assert forall|e: int| 0 <= e < w0.n() implies #[trigger] w9.suffer_damage@[e]@.len()
        == 0 by {
        assert(w5.suffer_damage@[e]@.len() == 0);
        assert(w6.suffer_damage@[e] == w5.suffer_damage@[e]);
        assert(w7.suffer_damage@[e]@ == w6.suffer_damage@[e]@);
        assert(w8.suffer_damage@[e] == w7.suffer_damage@[e]);
        assert(w9b.suffer_damage@[e] == w8.suffer_damage@[e]);
        assert(w9.suffer_damage@[e] == w9b.suffer_damage@[e]);
    }
    assert forall|e: int| 0 <= e < w0.n() implies #[trigger] w9.wants_melee@[e] is None by {
        assert(w4.wants_melee@[e] is None);
        assert(w5.wants_melee@[e] == w4.wants_melee@[e]);
        assert(w6.wants_melee@[e] == w5.wants_melee@[e]);
        assert(w7.wants_melee@[e] == w6.wants_melee@[e]);
        assert(w8.wants_melee@[e] == w7.wants_melee@[e]);
        assert(w9b.wants_melee@[e] == w8.wants_melee@[e]);
        assert(w9.wants_melee@[e] == w9b.wants_melee@[e]);
    }
}

} // verus!
