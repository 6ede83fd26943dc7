//! Unit checks of the map builders, the field of view, inventory
//! round trips, visibility recomputation, and the state machine.
use rogue_core::components::{EquipSlot, Equipped, Key, MenuSelection, Pt, RunState};
use rogue_core::fov::field_of_view;
use rogue_core::inventory_system::{ItemCollectionSystem, ItemDropSystem, ItemRemoveSystem};
use rogue_core::map::{get_index_at, new_map, SpatialMap, TileType};
use rogue_core::player::{player_input, skip_turn, try_move_player, try_next_level};
use rogue_core::state::{MainResult, State, TickInput};
use rogue_core::visibility_system::VisibilitySystem;
use rogue_core::world::World;

fn open_world(width: i32, height: i32) -> World {
    let map = SpatialMap::new(width, height, 1);
    World::new(map, Pt { x: 1, y: 1 })
}

fn spawn_player(w: &mut World, x: i32, y: i32) -> usize {
    let id = w.spawn().unwrap();
    w.set_player(id);
    w.set_position(id, x, y);
    w.give_stats(id, 20, 20, 1, 3);
    w.give_viewshed(id, 8);
    w.set_player_pos(x, y);
    id
}

#[test]
fn row_major_index_on_the_eighty_column_grid() {
    assert_eq!(get_index_at(0, 0), 0);
    assert_eq!(get_index_at(79, 0), 79);
    assert_eq!(get_index_at(0, 1), 80);
    assert_eq!(get_index_at(40, 25), 25 * 80 + 40);
}

#[test]
fn generated_grid_walls_boundary_and_requested_tiles() {
    let walls = vec![Pt { x: 10, y: 10 }, Pt { x: 40, y: 25 }];
    let map = new_map(&walls);
    assert_eq!(map.len(), 80 * 50);
    assert_eq!(map[get_index_at(0, 0)], TileType::Wall);
    assert_eq!(map[get_index_at(79, 49)], TileType::Wall);
    assert_eq!(map[get_index_at(10, 10)], TileType::Wall);
    // the central starting tile is protected even when listed
    assert_eq!(map[get_index_at(40, 25)], TileType::Floor);
    assert_eq!(map[get_index_at(20, 20)], TileType::Floor);
}

#[test]
fn walls_block_line_of_sight_but_are_themselves_visible() {
    let mut map = SpatialMap::new(9, 9, 1);
    let wall_idx = map.get_index_at(4, 3);
    map.tiles[wall_idx] = TileType::Wall;
    let fov = field_of_view(&map, 4, 4, 3);
    let sees = |x: i32, y: i32| fov.iter().any(|p| p.x == x && p.y == y);
    assert!(sees(4, 4));
    assert!(sees(4, 3)); // the wall itself
    assert!(!sees(4, 2)); // hidden behind it
    assert!(sees(3, 3)); // around it
}

#[test]
fn recomputing_visibility_twice_changes_nothing() {
    // The second run finds every viewshed clean and leaves the visible
    // set, and both map layers, untouched.
    let mut w = open_world(12, 12);
    let player = spawn_player(&mut w, 5, 5);
    let mut vis = VisibilitySystem {};
    vis.run(&mut w);
    let first: Vec<Pt> = w.viewshed[player].as_ref().unwrap().visible_tiles.clone();
    let revealed_first = w.map.revealed_tiles.clone();
    vis.run(&mut w);
    let second = &w.viewshed[player].as_ref().unwrap().visible_tiles;
    assert_eq!(first.len(), second.len());
    for (a, b) in first.iter().zip(second.iter()) {
        assert_eq!((a.x, a.y), (b.x, b.y));
    }
    assert_eq!(revealed_first, w.map.revealed_tiles);
    assert!(!w.viewshed[player].as_ref().unwrap().dirty);
}

#[test]
fn drop_then_pickup_restores_the_backpack() {
    // Dropping an item and grabbing it again restores InBackpack with the
    // original owner and the same item identity.
    let mut w = open_world(10, 10);
    let player = spawn_player(&mut w, 4, 4);
    let trinket = w.spawn().unwrap();
    w.set_item(trinket, true);
    w.set_in_backpack(trinket, player);
    w.set_wants_drop(player, trinket);
    let mut drop_sys = ItemDropSystem {};
    drop_sys.run(&mut w);
    let ground = w.position[trinket].unwrap();
    assert_eq!((ground.x, ground.y), (4, 4));
    assert!(w.in_backpack[trinket].is_none());
    w.set_wants_pickup(player, player, trinket);
    let mut pickup = ItemCollectionSystem {};
    pickup.run(&mut w);
    assert_eq!(w.in_backpack[trinket], Some(player));
    assert!(w.position[trinket].is_none());
}

#[test]
fn removing_an_equipped_item_returns_it_to_the_backpack() {
    let mut w = open_world(10, 10);
    let player = spawn_player(&mut w, 4, 4);
    let sword = w.spawn().unwrap();
    w.set_item(sword, true);
    w.give_equippable(sword, EquipSlot::Melee);
    w.equipped[sword] = Some(Equipped { owner: player, slot: EquipSlot::Melee });
    w.set_wants_remove(player, sword);
    let mut remove = ItemRemoveSystem {};
    remove.run(&mut w);
    assert!(w.equipped[sword].is_none());
    assert_eq!(w.in_backpack[sword], Some(player));
}

#[test]
fn bumping_into_a_fighter_files_melee_instead_of_moving() {
    let mut w = open_world(10, 10);
    let player = spawn_player(&mut w, 4, 4);
    let monster = w.spawn().unwrap();
    w.set_monster(monster, true);
    w.set_blocks_tile(monster, true);
    w.set_position(monster, 4, 3);
    w.give_stats(monster, 10, 10, 0, 2);
    let mut index = rogue_core::map_indexing_system::MapIndexingSystem {};
    index.run(&mut w);
    try_move_player(0, -1, &mut w);
    assert_eq!(w.wants_melee[player], Some(monster));
    let p = w.position[player].unwrap();
    assert_eq!((p.x, p.y), (4, 4));
}

#[test]
fn moving_onto_a_free_tile_updates_position_and_resources() {
    let mut w = open_world(10, 10);
    let player = spawn_player(&mut w, 4, 4);
    let mut index = rogue_core::map_indexing_system::MapIndexingSystem {};
    index.run(&mut w);
    try_move_player(1, 0, &mut w);
    let p = w.position[player].unwrap();
    assert_eq!((p.x, p.y), (5, 4));
    assert_eq!((w.player_pos.x, w.player_pos.y), (5, 4));
    assert!(w.viewshed[player].as_ref().unwrap().dirty);
}

#[test]
fn walls_stop_the_player() {
    let mut w = open_world(10, 10);
    let player = spawn_player(&mut w, 1, 1);
    let mut index = rogue_core::map_indexing_system::MapIndexingSystem {};
    index.run(&mut w);
    try_move_player(-1, 0, &mut w);
    let p = w.position[player].unwrap();
    assert_eq!((p.x, p.y), (1, 1));
}

#[test]
fn resting_heals_one_point_when_nothing_is_in_sight() {
    let mut w = open_world(10, 10);
    let player = spawn_player(&mut w, 4, 4);
    let st = w.combat_stats[player].unwrap();
    w.give_stats(player, st.max_hp, 5, st.defense, st.power);
    let r = skip_turn(&mut w);
    assert_eq!(r, RunState::PlayerTurn);
    assert_eq!(w.combat_stats[player].unwrap().hp, 6);
}

#[test]
fn stairs_are_needed_to_descend() {
    let mut w = open_world(10, 10);
    let _player = spawn_player(&mut w, 4, 4);
    assert!(!try_next_level(&mut w));
    let idx = w.map.get_index_at(4, 4);
    w.map.tiles[idx] = TileType::DownStairs;
    assert!(try_next_level(&mut w));
}

#[test]
fn the_state_machine_walks_from_menu_to_input() {
    let mut gs = State { ecs: open_world(10, 10) };
    spawn_player(&mut gs.ecs, 4, 4);
    assert!(matches!(gs.ecs.run_state, RunState::MainMenu { .. }));
    let quit = gs.tick(TickInput::Main(MainResult::Selected(MenuSelection::NewGame)));
    assert!(!quit);
    assert_eq!(gs.ecs.run_state, RunState::PreTurn);
    let quit = gs.tick(TickInput::Nothing);
    assert!(!quit);
    assert_eq!(gs.ecs.run_state, RunState::AwaitingInput);
    let quit = gs.tick(TickInput::KeyPress(Key::Inventory));
    assert!(!quit);
    assert_eq!(gs.ecs.run_state, RunState::ShowInventory);
}

#[test]
fn a_full_player_turn_resolves_a_bump_attack() {
    // One keypress toward an adjacent monster, then the player turn and
    // the monster turn: the monster takes power-minus-defense damage.
    let mut gs = State { ecs: open_world(10, 10) };
    let _player = spawn_player(&mut gs.ecs, 4, 4);
    let monster = gs.ecs.spawn().unwrap();
    gs.ecs.set_monster(monster, true);
    gs.ecs.set_blocks_tile(monster, true);
    gs.ecs.set_position(monster, 4, 3);
    gs.ecs.give_stats(monster, 10, 10, 1, 2);
    gs.ecs.give_viewshed(monster, 8);
    gs.ecs.set_run_state(RunState::PreTurn);
    assert!(!gs.tick(TickInput::Nothing));
    assert!(!gs.tick(TickInput::KeyPress(Key::Up)));
    assert_eq!(gs.ecs.run_state, RunState::PlayerTurn);
    assert!(!gs.tick(TickInput::Nothing));
    // player power 3 against monster defense 1: two points of damage
    assert_eq!(gs.ecs.combat_stats[monster].unwrap().hp, 8);
}

#[test]
fn quitting_from_the_main_menu_reports_quit() {
    let mut gs = State { ecs: open_world(10, 10) };
    spawn_player(&mut gs.ecs, 4, 4);
    let quit = gs.tick(TickInput::Main(MainResult::Selected(MenuSelection::Quit)));
    assert!(quit);
}

#[test]
fn player_input_routes_menu_keys() {
    let mut gs = State { ecs: open_world(10, 10) };
    spawn_player(&mut gs.ecs, 4, 4);
    assert_eq!(player_input(&mut gs, Some(Key::Drop)), RunState::ShowDropItem);
    assert_eq!(player_input(&mut gs, Some(Key::Remove)), RunState::ShowRemoveItem);
    assert_eq!(player_input(&mut gs, Some(Key::Escape)), RunState::SaveGame);
    assert_eq!(player_input(&mut gs, None), RunState::AwaitingInput);
}
