//! End-to-end scenarios over the turn pipeline: melee resolution and
//! damage application, item effects, monster decisions, and death
//! handling.
use rogue_core::components::{EquipSlot, Equipped, LogEntry, Pt, RunState};
use rogue_core::damage_system::{delete_the_dead, DamageSystem};
use rogue_core::inventory_system::ItemUseSystem;
use rogue_core::map::SpatialMap;
use rogue_core::map_indexing_system::MapIndexingSystem;
use rogue_core::melee_combat_system::MeleeCombatSystem;
use rogue_core::monster_ai_system::MonsterAI;
use rogue_core::world::World;

fn open_world(width: i32, height: i32) -> World {
    let map = SpatialMap::new(width, height, 1);
    World::new(map, Pt { x: 1, y: 1 })
}

fn spawn_player(w: &mut World, x: i32, y: i32, hp: i32, max_hp: i32, defense: i32, power: i32) -> usize {
    let id = w.spawn().unwrap();
    w.set_player(id);
    w.set_position(id, x, y);
    w.give_stats(id, max_hp, hp, defense, power);
    w.give_viewshed(id, 8);
    w.set_player_pos(x, y);
    id
}

fn spawn_monster(w: &mut World, x: i32, y: i32, hp: i32, defense: i32, power: i32) -> usize {
    let id = w.spawn().unwrap();
    w.set_monster(id, true);
    w.set_blocks_tile(id, true);
    w.set_position(id, x, y);
    w.give_stats(id, hp, hp, defense, power);
    w.give_viewshed(id, 8);
    id
}

#[test]
fn melee_attack_queues_and_applies_damage() {
    // Actor at (5,5), player at (5,6): power 5 against defense 2 queues 3
    // damage, and damage application takes exactly 3 hit points.
    let mut w = open_world(12, 12);
    let player = spawn_player(&mut w, 5, 6, 20, 20, 2, 1);
    let monster = spawn_monster(&mut w, 5, 5, 16, 0, 5);
    w.set_wants_melee(monster, player);
    let mut melee = MeleeCombatSystem {};
    melee.run(&mut w);
    assert_eq!(w.suffer_damage[player], vec![3i64]);
    assert!(w.wants_melee[monster].is_none());
    let mut dmg = DamageSystem {};
    dmg.run(&mut w);
    let st = w.combat_stats[player].unwrap();
    assert_eq!(st.hp, 17);
    assert!(w.suffer_damage[player].is_empty());
}

#[test]
fn healing_potion_heals_and_is_consumed() {
    // Drinking a heal-10 potion at 5/20 leaves 15/20 and deletes the
    // consumable item.
    let mut w = open_world(10, 10);
    let player = spawn_player(&mut w, 4, 4, 5, 20, 0, 1);
    let potion = w.spawn().unwrap();
    w.set_item(potion, true);
    w.set_consumable(potion, true);
    w.give_healing(potion, 10);
    w.set_in_backpack(potion, player);
    w.set_wants_use(player, potion, None);
    let mut use_sys = ItemUseSystem {};
    use_sys.run(&mut w);
    assert_eq!(w.combat_stats[player].unwrap().hp, 15);
    assert!(w.pending_deletes.contains(&potion));
    w.maintain();
    assert!(!w.alive[potion]);
    assert!(w.alive[player]);
}

#[test]
fn area_effect_damage_hits_blast_not_bystanders() {
    // A radius-1 blast at a tile hurts both monsters on it and one on an
    // adjacent in-radius tile; a monster three tiles away is untouched.
    let mut w = open_world(14, 14);
    let player = spawn_player(&mut w, 2, 2, 20, 20, 0, 1);
    let m_center_a = spawn_monster(&mut w, 6, 6, 10, 0, 1);
    let m_center_b = spawn_monster(&mut w, 6, 6, 10, 0, 1);
    let m_adjacent = spawn_monster(&mut w, 6, 7, 10, 0, 1);
    let m_far = spawn_monster(&mut w, 6, 9, 10, 0, 1);
    let scroll = w.spawn().unwrap();
    w.set_item(scroll, true);
    w.set_consumable(scroll, true);
    w.give_damage(scroll, 8);
    w.give_aoe(scroll, 1);
    w.set_in_backpack(scroll, player);
    let mut index = MapIndexingSystem {};
    index.run(&mut w);
    w.set_wants_use(player, scroll, Some(Pt { x: 6, y: 6 }));
    let mut use_sys = ItemUseSystem {};
    use_sys.run(&mut w);
    assert_eq!(w.suffer_damage[m_center_a], vec![8i64]);
    assert_eq!(w.suffer_damage[m_center_b], vec![8i64]);
    assert_eq!(w.suffer_damage[m_adjacent], vec![8i64]);
    assert!(w.suffer_damage[m_far].is_empty());
    assert!(w.pending_deletes.contains(&scroll));
}

#[test]
fn blind_monster_neither_moves_nor_attacks() {
    // The player's tile is not in the monster's visible set: the decision
    // phase leaves the monster exactly where it was, with no intent.
    let mut w = open_world(12, 12);
    let _player = spawn_player(&mut w, 2, 2, 20, 20, 0, 1);
    let monster = spawn_monster(&mut w, 8, 8, 10, 0, 3);
    w.set_run_state(RunState::MonsterTurn);
    let mut ai = MonsterAI {};
    ai.run(&mut w);
    let p = w.position[monster].unwrap();
    assert_eq!((p.x, p.y), (8, 8));
    assert!(w.wants_melee[monster].is_none());
}

#[test]
fn seeing_monster_walks_toward_player() {
    // With the player's tile in its visible set and a clear floor, the
    // monster steps one tile along a shortest path.
    let mut w = open_world(12, 12);
    let _player = spawn_player(&mut w, 2, 2, 20, 20, 0, 1);
    let monster = spawn_monster(&mut w, 7, 7, 10, 0, 3);
    let mut vis = rogue_core::visibility_system::VisibilitySystem {};
    vis.run(&mut w);
    let mut index = MapIndexingSystem {};
    index.run(&mut w);
    w.set_run_state(RunState::MonsterTurn);
    let mut ai = MonsterAI {};
    ai.run(&mut w);
    let p = w.position[monster].unwrap();
    assert_eq!((p.x, p.y), (6, 6));
    assert!(w.wants_melee[monster].is_none());
}

#[test]
fn adjacent_monster_files_melee_intent() {
    let mut w = open_world(12, 12);
    let player = spawn_player(&mut w, 5, 6, 20, 20, 0, 1);
    let monster = spawn_monster(&mut w, 5, 5, 10, 0, 3);
    let mut vis = rogue_core::visibility_system::VisibilitySystem {};
    vis.run(&mut w);
    w.set_run_state(RunState::MonsterTurn);
    let mut ai = MonsterAI {};
    ai.run(&mut w);
    assert_eq!(w.wants_melee[monster], Some(player));
    let p = w.position[monster].unwrap();
    assert_eq!((p.x, p.y), (5, 5));
}

#[test]
fn dead_player_ends_game_dead_monster_is_removed() {
    // Health at zero turns the game over for the player, and queues a
    // monster for removal; maintenance then actually removes it.
    let mut w = open_world(10, 10);
    let player = spawn_player(&mut w, 2, 2, 0, 20, 0, 1);
    let monster = spawn_monster(&mut w, 5, 5, 10, 0, 3);
    let st = w.combat_stats[monster].unwrap();
    w.give_stats(monster, st.max_hp, 0, st.defense, st.power);
    delete_the_dead(&mut w);
    assert_eq!(w.run_state, RunState::GameOver);
    assert!(w.pending_deletes.contains(&monster));
    assert!(!w.pending_deletes.contains(&player));
    w.maintain();
    assert!(!w.alive[monster]);
    assert!(w.alive[player]);
}

#[test]
fn equipment_bonuses_change_melee_damage() {
    // Attacker power 5 with a +2 weapon against defense 2 with a +1
    // shield queues 5 + 2 - 2 - 1 = 4 damage.
    let mut w = open_world(12, 12);
    let player = spawn_player(&mut w, 5, 6, 20, 20, 2, 1);
    let monster = spawn_monster(&mut w, 5, 5, 16, 0, 5);
    let sword = w.spawn().unwrap();
    w.set_item(sword, true);
    w.give_melee_bonus(sword, 2);
    w.give_equippable(sword, EquipSlot::Melee);
    w.equipped[sword] = Some(Equipped { owner: monster, slot: EquipSlot::Melee });
    let shield = w.spawn().unwrap();
    w.set_item(shield, true);
    w.give_defense_bonus(shield, 1);
    w.give_equippable(shield, EquipSlot::Shield);
    w.equipped[shield] = Some(Equipped { owner: player, slot: EquipSlot::Shield });
    w.set_wants_melee(monster, player);
    let mut melee = MeleeCombatSystem {};
    melee.run(&mut w);
    assert_eq!(w.suffer_damage[player], vec![4i64]);
}

#[test]
fn equip_with_no_target_is_skipped_with_a_diagnostic() {
    // An equippable item aimed at an empty tile resolves to no target:
    // the equip is dropped, nothing changes hands, and a diagnostic
    // lands in the log.
    let mut w = open_world(12, 12);
    let player = spawn_player(&mut w, 2, 2, 20, 20, 0, 1);
    let sword = w.spawn().unwrap();
    w.set_item(sword, true);
    w.give_equippable(sword, EquipSlot::Melee);
    w.set_in_backpack(sword, player);
    let mut index = MapIndexingSystem {};
    index.run(&mut w);
    w.set_wants_use(player, sword, Some(Pt { x: 6, y: 6 }));
    let log_before = w.log.len();
    let mut use_sys = ItemUseSystem {};
    use_sys.run(&mut w);
    assert!(w.equipped[sword].is_none());
    assert_eq!(w.in_backpack[sword], Some(player));
    assert_eq!(w.log.len(), log_before + 1);
    assert_eq!(w.log[log_before], LogEntry::SkippedIntent { who: player });
    // an unused equippable is never consumed
    assert!(!w.pending_deletes.contains(&sword));
}

#[test]
fn a_named_victim_gets_a_death_notice() {
    let mut w = open_world(10, 10);
    let _player = spawn_player(&mut w, 2, 2, 20, 20, 0, 1);
    let monster = spawn_monster(&mut w, 5, 5, 10, 0, 3);
    w.give_name(monster, String::from("Grump"));
    let st = w.combat_stats[monster].unwrap();
    w.give_stats(monster, st.max_hp, 0, st.defense, st.power);
    let log_before = w.log.len();
    delete_the_dead(&mut w);
    assert_eq!(w.log.len(), log_before + 1);
    assert_eq!(w.log[log_before], LogEntry::Dead { name: String::from("Grump") });
}
