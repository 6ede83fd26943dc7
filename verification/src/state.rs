//! Tick orchestration: the simulation-level state machine, the fixed
//! phase pipeline each turn state runs, level changes and the game-over
//! teardown. One call to `tick` advances the world by exactly one
//! discrete step of the state machine.
use vstd::prelude::*;
use vstd::pervasive::VecAdditionalExecFns;
use crate::components::{log_of, Key, LogEntry, MenuSelection, Pt, RunState, UseIntent, Viewshed};
use crate::damage_system::{
    damage_rel, dead_log, dead_player_below, dead_upto, delete_the_dead, tp_rel, DamageSystem,
    TeleportedSymSystem,
};
use crate::inventory_system::{
    drop_rel, pickup_rel, remove_rel, use_rel, ItemCollectionSystem, ItemDropSystem,
    ItemRemoveSystem, ItemUseSystem,
};
use crate::map::SpatialMap;
use crate::map_indexing_system::{index_rel, MapIndexingSystem};
use crate::melee_combat_system::{melee_rel, MeleeCombatSystem};
use crate::monster_ai_system::{ai_rel, MonsterAI};
use crate::player::{player_input, player_input_rel};
use crate::visibility_system::{vis_rel, VisibilitySystem};
use crate::world::World;

verus! {

/// Outcome of an item-selection menu, as the interface hands it back.
#[derive(Clone, Copy, PartialEq, Eq, Structural, Debug)]
pub enum MenuResult {
    Cancel,
    NoResponse,
    Selected(usize),
}

/// Outcome of aiming at a tile.
#[derive(Clone, Copy, PartialEq, Eq, Structural, Debug)]
pub enum TargetResult {
    Cancel,
    NoResponse,
    Selected(Pt),
}

/// Outcome of the main menu.
#[derive(Clone, Copy, PartialEq, Eq, Structural, Debug)]
pub enum MainResult {
    NoSelection(MenuSelection),
    Selected(MenuSelection),
}

/// Everything the interface can hand one tick: a decoded key, a menu
/// outcome, a target choice, or a freshly generated level (a map and the
/// player's landing tile) for a depth change or a post-game reset.
pub enum TickInput {
    Nothing,
    KeyPress(Key),
    Menu(MenuResult),
    Target(TargetResult),
    Main(MainResult),
    Generated(SpatialMap, Pt),
}

/// The whole game: its world of entities, components and resources.
pub struct State {
    pub ecs: World,
}

/// What the structural maintenance pass does (mirrors `World::maintain`).
pub open spec fn maintain_rel(a: World, b: World) -> bool {
    &&& b.n() == a.n()
    &&& b.pending_deletes@.len() == 0
    &&& forall|e: int|
        0 <= e < a.n() && a.pending_deletes@.contains(e as usize) ==> World::slot_cleared(b, e)
    &&& forall|e: int|
        0 <= e < a.n() && !a.pending_deletes@.contains(e as usize) ==> World::slot_unchanged(
            a,
            b,
            e,
        )
    &&& b.map == a.map
    &&& b.run_state == a.run_state
    &&& b.player_id == a.player_id
    &&& b.player_pos == a.player_pos
    &&& b.aiming == a.aiming
    &&& b.log == a.log
}

/// What the death sweep does (mirrors `delete_the_dead`).
pub open spec fn dead_rel(a: World, b: World) -> bool {
    &&& b.pending_deletes@ == a.pending_deletes@ + dead_upto(a, a.n())
    &&& b.run_state == (if dead_player_below(a, a.n()) {
        RunState::GameOver
    } else {
        a.run_state
    })
    &&& log_of(b.log@) == log_of(a.log@) + dead_log(a, a.n())
    &&& b == (World {
        run_state: b.run_state,
        log: b.log,
        pending_deletes: b.pending_deletes,
        ..a
    })
}

/// One full run of the phase pipeline, in its fixed order: visibility,
/// occupancy indexing, monster decisions, melee resolution, damage
/// application, then the item phases (collection, use, drop, removal) and
/// the mirrored-teleport companion pass.
pub open spec fn pipeline_rel(a: World, b: World) -> bool {
    exists|w1: World, w2: World, w3: World, w4: World, w5: World|
        #[trigger] vis_rel(a, w1) && #[trigger] index_rel(w1, w2) && #[trigger] ai_rel(w2, w3)
            && #[trigger] melee_rel(w3, w4) && #[trigger] damage_rel(w4, w5) && item_phases_rel(
            w5,
            b,
        )
}

/// The item phases and the teleport companion, chained.
pub open spec fn item_phases_rel(a: World, b: World) -> bool {
    exists|w6: World, w7: World, w8: World, w9: World|
        #[trigger] pickup_rel(a, w6) && #[trigger] use_rel(w6, w7) && #[trigger] drop_rel(w7, w8)
            && #[trigger] remove_rel(w8, w9) && tp_rel(w9, b)
}

/// The state a completed turn moves on to.
pub open spec fn turn_next(s: RunState) -> RunState {
    match s {
        RunState::PreTurn => RunState::AwaitingInput,
        RunState::PlayerTurn => RunState::MonsterTurn,
        RunState::MonsterTurn => RunState::AwaitingInput,
        _ => s,
    }
}

/// One whole turn: the pipeline, the onward transition, the death sweep
/// (which may instead end the game), and the deferred structural cleanup.
pub open spec fn turn_rel(a: World, b: World) -> bool {
    exists|w1: World, w2: World, w3: World|
        #[trigger] pipeline_rel(a, w1) && w2 == (World { run_state: turn_next(a.run_state), ..w1 })
            && #[trigger] dead_rel(w2, w3) && maintain_rel(w3, b)
}

/// Entities that do not survive a depth change: everything but the player
/// and what the player carries or wears.
pub open spec fn depth_protected(a: World, e: int) -> bool {
    ||| a.player@[e]
    ||| (a.in_backpack@[e] is Some && a.in_backpack@[e]->Some_0 == a.player_id)
    ||| (a.equipped@[e] is Some && a.equipped@[e]->Some_0.owner == a.player_id)
}

/// The ids queued for removal on a depth change, in id order.
pub open spec fn depth_doomed(a: World, k: int) -> Seq<usize>
    decreases k,
{
    if k <= 0 {
        Seq::empty()
    } else if a.alive@[k - 1] && !depth_protected(a, k - 1) {
        depth_doomed(a, k - 1).push((k - 1) as usize)
    } else {
        depth_doomed(a, k - 1)
    }
}

/// What descending to a fresh level does: everything unprotected (and
/// everything already queued) is wiped, the generated map — one level
/// deeper than the old one — is adopted verbatim, the player stands on
/// its landing tile with a dirtied viewshed, and the log records the
/// descent.
pub open spec fn next_level_rel(a: World, b: World, m: SpatialMap, p: Pt) -> bool {
    &&& b.n() == a.n()
    &&& b.map.depth == a.map.depth + 1
    &&& b.pending_deletes@.len() == 0
    &&& forall|e: int|
        0 <= e < a.n() && ((a.alive@[e] && !depth_protected(a, e))
            || a.pending_deletes@.contains(e as usize)) ==> World::slot_cleared(b, e)
    &&& forall|e: int|
        0 <= e < a.n() && !((a.alive@[e] && !depth_protected(a, e))
            || a.pending_deletes@.contains(e as usize)) && e != a.player_id
            ==> World::slot_unchanged(a, b, e)
    &&& (a.n() > 0 && !((a.alive@[a.player_id as int] && !depth_protected(a, a.player_id as int))
        || a.pending_deletes@.contains(a.player_id)) ==> {
        let pid = a.player_id as int;
        &&& b.alive@[pid] == a.alive@[pid]
        &&& b.position@[pid] == (if a.position@[pid] is Some {
            Some(p)
        } else {
            None::<Pt>
        })
        &&& (if a.viewshed@[pid] is Some {
            &&& b.viewshed@[pid] is Some
            &&& b.viewshed@[pid]->Some_0.dirty
            &&& b.viewshed@[pid]->Some_0.range == a.viewshed@[pid]->Some_0.range
            &&& b.viewshed@[pid]->Some_0.visible_tiles == a.viewshed@[pid]->Some_0.visible_tiles
        } else {
            b.viewshed@[pid] is None
        })
        &&& b.combat_stats@[pid] == a.combat_stats@[pid]
        &&& b.in_backpack@[pid] == a.in_backpack@[pid]
        &&& b.equipped@[pid] == a.equipped@[pid]
        &&& b.player@[pid] == a.player@[pid]
    })
    &&& b.map == m
    &&& b.player_pos == p
    &&& b.log@ == a.log@.push(LogEntry::Descend)
    &&& b.run_state == a.run_state
    &&& b.player_id == a.player_id
    &&& b.aiming == a.aiming
}


/// What the post-game teardown does (mirrors `game_over_cleanup`).
pub open spec fn gameover_cleanup_rel(a: World, b: World, m: SpatialMap, p: Pt) -> bool {
    &&& b.n() == a.n()
    &&& (forall|e: int| 0 <= e < b.n() ==> World::slot_cleared(b, e))
    &&& b.map == m
    &&& b.player_pos == p
    &&& b.pending_deletes@.len() == 0
    &&& b.run_state == a.run_state
    &&& b.player_id == a.player_id
    &&& b.log == a.log
    &&& b.aiming == a.aiming
}

/// What an item-selection menu tick does. Cancel returns to input; a
/// selection of a ranged item opens targeting, of any other item files a
/// use intent and spends the turn; anything else leaves the world alone.
pub open spec fn inv_menu_rel(a: World, b: World, input: TickInput) -> bool {
    match input {
        TickInput::Menu(MenuResult::Cancel) => b == (World {
            run_state: RunState::AwaitingInput,
            ..a
        }),
        TickInput::Menu(MenuResult::Selected(item)) => {
            if a.n() > 0 && item < a.n() {
                if a.ranged@[item as int] is Some {
                    b == (World {
                        run_state: RunState::ShowTargeting {
                            range: a.ranged@[item as int]->Some_0,
                            item,
                        },
                        ..a
                    })
                } else {
                    &&& b.wants_use@ == a.wants_use@.update(
                        a.player_id as int,
                        Some(UseIntent { item, target: None }),
                    )
                    &&& b == (World {
                        run_state: RunState::PlayerTurn,
                        wants_use: b.wants_use,
                        ..a
                    })
                }
            } else {
                b == a
            }
        },
        _ => b == a,
    }
}

/// What the drop menu tick does.
pub open spec fn drop_menu_rel(a: World, b: World, input: TickInput) -> bool {
    match input {
        TickInput::Menu(MenuResult::Cancel) => b == (World {
            run_state: RunState::AwaitingInput,
            ..a
        }),
        TickInput::Menu(MenuResult::Selected(item)) => {
            if a.n() > 0 && item < a.n() {
                &&& b.wants_drop@ == a.wants_drop@.update(a.player_id as int, Some(item))
                &&& b == (World { run_state: RunState::PlayerTurn, wants_drop: b.wants_drop, ..a })
            } else {
                b == a
            }
        },
        _ => b == a,
    }
}

/// What the unequip menu tick does.
pub open spec fn remove_menu_rel(a: World, b: World, input: TickInput) -> bool {
    match input {
        TickInput::Menu(MenuResult::Cancel) => b == (World {
            run_state: RunState::AwaitingInput,
            ..a
        }),
        TickInput::Menu(MenuResult::Selected(item)) => {
            if a.n() > 0 && item < a.n() {
                &&& b.wants_remove@ == a.wants_remove@.update(a.player_id as int, Some(item))
                &&& b == (World {
                    run_state: RunState::PlayerTurn,
                    wants_remove: b.wants_remove,
                    ..a
                })
            } else {
                b == a
            }
        },
        _ => b == a,
    }
}

/// What a targeting tick does for the pending ranged item.
pub open spec fn targeting_rel(a: World, b: World, input: TickInput, item: usize) -> bool {
    match input {
        TickInput::Target(TargetResult::Cancel) => b == (World {
            run_state: RunState::AwaitingInput,
            ..a
        }),
        TickInput::Target(TargetResult::Selected(pt)) => {
            if a.n() > 0 && item < a.n() {
                &&& b.wants_use@ == a.wants_use@.update(
                    a.player_id as int,
                    Some(UseIntent { item, target: Some(pt) }),
                )
                &&& b == (World { run_state: RunState::PlayerTurn, wants_use: b.wants_use, ..a })
            } else {
                b == a
            }
        },
        _ => b == a,
    }
}

/// What a main-menu tick does; quitting leaves the world untouched and
/// reports the wish to stop.
pub open spec fn main_menu_rel(a: World, b: World, input: TickInput, quit: bool) -> bool {
    match input {
        TickInput::Main(MainResult::NoSelection(sel)) => !quit && b == (World {
            run_state: RunState::MainMenu { menu_selection: sel },
            ..a
        }),
        TickInput::Main(MainResult::Selected(sel)) => match sel {
            MenuSelection::NewGame => !quit && b == (World { run_state: RunState::PreTurn, ..a }),
            MenuSelection::LoadGame => !quit && b == (World {
                run_state: RunState::AwaitingInput,
                ..a
            }),
            MenuSelection::Quit => quit && b == a,
        },
        _ => !quit && b == a,
    }
}

/// Accepted inputs: a generated level must be a well-formed, empty map
/// with an in-bounds landing tile, and — when it answers a descent — lie
/// exactly one level deeper than the current one.
pub open spec fn tick_input_ok(a: World, input: TickInput) -> bool {
    match input {
        TickInput::Generated(m, p) => m.wf() && m.pt_in_bounds(p) && (forall|idx: int|
            0 <= idx < m.tile_content@.len() ==> #[trigger] m.tile_content@[idx]@.len() == 0) && (
        a.run_state is NextLevel ==> m.depth == a.map.depth + 1),
        _ => true,
    }
}

/// The decoded key an input carries, if any.
pub open spec fn key_of(input: TickInput) -> Option<Key> {
    match input {
        TickInput::KeyPress(k) => Some(k),
        _ => None,
    }
}

/// What one tick does, by the state the machine is in.
pub open spec fn tick_rel(a: World, b: World, input: TickInput, quit: bool) -> bool {
    match a.run_state {
        RunState::PreTurn => !quit && turn_rel(a, b),
        RunState::PlayerTurn => !quit && turn_rel(a, b),
        RunState::MonsterTurn => !quit && turn_rel(a, b),
        RunState::AwaitingInput => !quit && (exists|w1: World, r: RunState|
            #![trigger player_input_rel(a, w1, key_of(input), r)]
            player_input_rel(a, w1, key_of(input), r) && b == (World { run_state: r, ..w1 })),
        RunState::ShowInventory => !quit && inv_menu_rel(a, b, input),
        RunState::ShowDropItem => !quit && drop_menu_rel(a, b, input),
        RunState::ShowRemoveItem => !quit && remove_menu_rel(a, b, input),
        RunState::ShowTargeting { range, item } => !quit && range == range && targeting_rel(
            a,
            b,
            input,
            item,
        ),
        RunState::MainMenu { .. } => main_menu_rel(a, b, input, quit),
        RunState::SaveGame => !quit && b == (World {
            run_state: RunState::MainMenu { menu_selection: MenuSelection::LoadGame },
            ..a
        }),
        RunState::NextLevel => !quit && (match input {
            TickInput::Generated(m, p) => exists|w1: World|
                #![trigger next_level_rel(a, w1, m, p)]
                next_level_rel(a, w1, m, p) && b == (World { run_state: RunState::PreTurn, ..w1 }),
            _ => b == a,
        }),
        RunState::GameOver => !quit && (match input {
            TickInput::Generated(m, p) => exists|w1: World|
                #![trigger gameover_cleanup_rel(a, w1, m, p)]
                gameover_cleanup_rel(a, w1, m, p) && b == (World {
                    run_state: RunState::MainMenu { menu_selection: MenuSelection::NewGame },
                    ..w1
                }),
            _ => b == a,
        }),
    }
}

impl State {
    /// Run the full phase pipeline once, in order.
    pub fn run_systems(&mut self)
        requires
            old(self).ecs.wf(),
        ensures
            final(self).ecs.wf(),
            pipeline_rel(old(self).ecs, final(self).ecs),
    {
        let mut visibility = VisibilitySystem {};
        visibility.run(&mut self.ecs);
        let ghost w1 = self.ecs;
        let mut map_index = MapIndexingSystem {};
        map_index.run(&mut self.ecs);
        let ghost w2 = self.ecs;
        let mut monster_ai = MonsterAI {};
        monster_ai.run(&mut self.ecs);
        let ghost w3 = self.ecs;
        let mut melee_combat = MeleeCombatSystem {};
        melee_combat.run(&mut self.ecs);
        let ghost w4 = self.ecs;
        let mut damage_system = DamageSystem {};
        damage_system.run(&mut self.ecs);
        let ghost w5 = self.ecs;
        let mut pickup = ItemCollectionSystem {};
        pickup.run(&mut self.ecs);
        let ghost w6 = self.ecs;
        let mut potions = ItemUseSystem {};
        potions.run(&mut self.ecs);
        let ghost w7 = self.ecs;
        let mut drop_items = ItemDropSystem {};
        drop_items.run(&mut self.ecs);
        let ghost w8 = self.ecs;
        let mut item_remove = ItemRemoveSystem {};
        item_remove.run(&mut self.ecs);
        let ghost w9 = self.ecs;
        let mut teleported = TeleportedSymSystem {};
        teleported.run(&mut self.ecs);
        proof {
            assert(pickup_rel(w5, w6) && use_rel(w6, w7) && drop_rel(w7, w8) && remove_rel(w8, w9)
                && tp_rel(w9, final(self).ecs));
            assert(item_phases_rel(w5, final(self).ecs));
            assert(vis_rel(old(self).ecs, w1) && index_rel(w1, w2) && ai_rel(w2, w3) && melee_rel(
                w3,
                w4,
            ) && damage_rel(w4, w5));
        }
    }

    /// Which entities a depth change leaves behind.
    pub fn entities_to_remove_on_depth_change(&mut self) -> (r: Vec<usize>)
        requires
            old(self).ecs.wf(),
        ensures
            *final(self) == *old(self),
            r@ == depth_doomed(old(self).ecs, old(self).ecs.n()),
    {
        let n = self.ecs.alive.len();
        let mut to_delete: Vec<usize> = Vec::new();
        let mut e: usize = 0;
        while e < n
            invariant
                e <= n,
                n == self.ecs.n(),
                self.ecs.wf(),
                *self == *old(self),
                to_delete@ == depth_doomed(old(self).ecs, e as int),
            decreases n - e,
        {
            let w = &self.ecs;
            if w.alive[e] {
                let mut should_delete = true;
                if w.player[e] {
                    should_delete = false;
                }
                if let Some(owner) = w.in_backpack[e] {
                    if owner == w.player_id {
                        should_delete = false;
                    }
                }
                if let Some(eq) = w.equipped[e] {
                    if eq.owner == w.player_id {
                        should_delete = false;
                    }
                }
                proof {
                    assert(should_delete == !depth_protected(old(self).ecs, e as int));
                }
                if should_delete {
                    to_delete.push(e);
                }
            }
            e += 1;
        }
        to_delete
    }

    /// Move to a freshly generated level: drop everything the player does
    /// not carry, adopt the map, stand the player on its landing tile.
    pub fn goto_next_level(&mut self, new_map: SpatialMap, new_player_pos: Pt)
        requires
            old(self).ecs.wf(),
            new_map.wf(),
            new_map.depth == old(self).ecs.map.depth + 1,
            new_map.pt_in_bounds(new_player_pos),
            forall|idx: int|
                0 <= idx < new_map.tile_content@.len() ==> #[trigger] new_map.tile_content@[idx]@.len() == 0,
        ensures
            final(self).ecs.wf(),
            next_level_rel(old(self).ecs, final(self).ecs, new_map, new_player_pos),
    {
        let to_delete = self.entities_to_remove_on_depth_change();
        let m = to_delete.len();
        let mut k: usize = 0;
        while k < m
            invariant
                k <= m,
                self.ecs.wf(),
                m == to_delete@.len(),
                to_delete@ == depth_doomed(old(self).ecs, old(self).ecs.n()),
                *self == (State { ecs: self.ecs }),
                self.ecs == (World { pending_deletes: self.ecs.pending_deletes, ..old(self).ecs }),
                self.ecs.pending_deletes@ == old(self).ecs.pending_deletes@ + to_delete@.subrange(
                    0,
                    k as int,
                ),
            decreases m - k,
        {
            let ghost pre = self.ecs;
            let id = to_delete[k];
            proof {
                lemma_doomed_bounded(old(self).ecs, old(self).ecs.n(), k as int);
            }
            self.ecs.pending_deletes.push(id);
            proof {
                assert forall|e2: int| 0 <= e2 < self.ecs.n() implies self.ecs.entity_wf(e2) by {
                    assert(pre.entity_wf(e2));
                }
                assert(self.ecs.pending_deletes@ =~= old(self).ecs.pending_deletes@
                    + to_delete@.subrange(0, k + 1));
            }
            k += 1;
        }
        proof {
            assert(to_delete@.subrange(0, m as int) =~= to_delete@);
        }
        let ghost before_maintain = self.ecs;
        self.ecs.maintain();
        let ghost after_maintain = self.ecs;
        self.ecs.map = new_map;
        self.ecs.player_pos = new_player_pos;
        let n = self.ecs.alive.len();
        if n > 0 {
            let pid = self.ecs.player_id;
            if self.ecs.position[pid].is_some() {
                self.ecs.position.set(pid, Some(new_player_pos));
            }
            let mut slot: Option<Viewshed> = None;
            self.ecs.viewshed.set_and_swap(pid, &mut slot);
            let new_slot = match slot {
                Some(vs) => Some(
                    Viewshed { visible_tiles: vs.visible_tiles, range: vs.range, dirty: true },
                ),
                None => None,
            };
            self.ecs.viewshed.set(pid, new_slot);
        }
        let entry = LogEntry::Descend;
        self.ecs.log.push(entry);
        proof {
            let a = old(self).ecs;
            let fin = self.ecs;
            let pid = a.player_id as int;
            assert forall|e2: int|
                0 <= e2 < a.n() && !before_maintain.pending_deletes@.contains(e2 as usize) && e2
                    != pid implies fin.position@[e2] is None || (a.alive@[e2]
                    && depth_protected(a, e2)) by {
                assert(World::slot_unchanged(before_maintain, after_maintain, e2));
                if after_maintain.position@[e2] is Some {
                    assert(a.position@[e2] is Some);
                    assert(a.entity_wf(e2));
                    assert(a.alive@[e2]);
                    if !depth_protected(a, e2) {
                        lemma_doomed_complete(a, a.n(), e2);
                        lemma_concat_contains(
                            a.pending_deletes@,
                            depth_doomed(a, a.n()),
                            e2 as usize,
                        );
                    }
                }
            }
            assert forall|e2: int| 0 <= e2 < fin.n() implies fin.entity_wf(e2) by {
                if before_maintain.pending_deletes@.contains(e2 as usize) {
                    assert(World::slot_cleared(after_maintain, e2));
                    assert(after_maintain.entity_wf(e2));
                } else {
                    assert(World::slot_unchanged(before_maintain, after_maintain, e2));
                    assert(a.entity_wf(e2));
                    if e2 != pid && after_maintain.position@[e2] is Some {
                        assert(a.alive@[e2]);
                        if !depth_protected(a, e2) {
                            lemma_doomed_complete(a, a.n(), e2);
                            lemma_concat_contains(
                                a.pending_deletes@,
                                depth_doomed(a, a.n()),
                                e2 as usize,
                            );
                        } else {
                            assert(a.location_exclusive(e2));
                            assert(a.player@[e2] ==> e2 == pid);
                            assert(a.position@[e2] is None);
                        }
                    }
                }
            }
            assert forall|e: int| #![trigger World::slot_cleared(fin, e)]
                0 <= e < a.n() && ((a.alive@[e] && !depth_protected(a, e))
                    || a.pending_deletes@.contains(e as usize)) implies World::slot_cleared(
                fin,
                e,
            ) by {
                if a.alive@[e] && !depth_protected(a, e) {
                    lemma_doomed_complete(a, a.n(), e);
                    lemma_concat_contains(a.pending_deletes@, depth_doomed(a, a.n()), e as usize);
                } else {
                    let j = choose|j: int|
                        0 <= j < a.pending_deletes@.len() && a.pending_deletes@[j] == (e as usize);
                    assert(before_maintain.pending_deletes@[j] == (e as usize));
                }
                assert(before_maintain.pending_deletes@.contains(e as usize));
                assert(World::slot_cleared(after_maintain, e));
                if e == pid {
                    assert(after_maintain.position@[e] is None);
                    assert(after_maintain.viewshed@[e] is None);
                }
            }
            assert forall|e: int| #![trigger World::slot_unchanged(a, fin, e)]
                0 <= e < a.n() && !((a.alive@[e] && !depth_protected(a, e))
                    || a.pending_deletes@.contains(e as usize)) && e != pid implies
                World::slot_unchanged(a, fin, e) by {
                assert(!before_maintain.pending_deletes@.contains(e as usize)) by {
                    if before_maintain.pending_deletes@.contains(e as usize) {
                        let j = choose|j: int|
                            0 <= j < before_maintain.pending_deletes@.len()
                                && before_maintain.pending_deletes@[j] == (e as usize);
                        if j < a.pending_deletes@.len() {
                            assert(a.pending_deletes@.contains(e as usize));
                        } else {
                            lemma_doomed_sound(a, a.n(), j - a.pending_deletes@.len());
                        }
                    }
                }
                assert(World::slot_unchanged(before_maintain, after_maintain, e));
                assert(World::slot_unchanged(a, fin, e));
            }
            if a.n() > 0 && !((a.alive@[pid] && !depth_protected(a, pid))
                || a.pending_deletes@.contains(a.player_id)) {
                assert(!before_maintain.pending_deletes@.contains(a.player_id)) by {
                    if before_maintain.pending_deletes@.contains(a.player_id) {
                        let j = choose|j: int|
                            0 <= j < before_maintain.pending_deletes@.len()
                                && before_maintain.pending_deletes@[j] == a.player_id;
                        if j < a.pending_deletes@.len() {
                            assert(a.pending_deletes@.contains(a.player_id));
                        } else {
                            lemma_doomed_sound(a, a.n(), j - a.pending_deletes@.len());
                        }
                    }
                }
                assert(World::slot_unchanged(before_maintain, after_maintain, pid));
            }
        }
    }

    /// Tear the whole world down after the game ends: every entity slot is
    /// wiped and a fresh level is adopted. The caller then respawns the
    /// player before play resumes.
    pub fn game_over_cleanup(&mut self, new_map: SpatialMap, new_player_pos: Pt)
        requires
            old(self).ecs.wf(),
            new_map.wf(),
            new_map.pt_in_bounds(new_player_pos),
            forall|idx: int|
                0 <= idx < new_map.tile_content@.len() ==> #[trigger] new_map.tile_content@[idx]@.len() == 0,
        ensures
            final(self).ecs.wf(),
            final(self).ecs.n() == old(self).ecs.n(),
            forall|e: int|
                0 <= e < final(self).ecs.n() ==> World::slot_cleared(final(self).ecs, e),
            final(self).ecs.map == new_map,
            final(self).ecs.player_pos == new_player_pos,
            final(self).ecs.pending_deletes@.len() == 0,
            final(self).ecs.run_state == old(self).ecs.run_state,
            final(self).ecs.player_id == old(self).ecs.player_id,
            final(self).ecs.log == old(self).ecs.log,
            final(self).ecs.aiming == old(self).ecs.aiming,
    {
        let n = self.ecs.alive.len();
        let mut e: usize = 0;
        while e < n
            invariant
                e <= n,
                self.ecs.wf(),
                n == self.ecs.n(),
                *self == (State { ecs: self.ecs }),
                self.ecs == (World { pending_deletes: self.ecs.pending_deletes, ..old(self).ecs }),
                self.ecs.pending_deletes@.len() == old(self).ecs.pending_deletes@.len() + e,
                forall|j: int|
                    0 <= j < old(self).ecs.pending_deletes@.len()
                        ==> #[trigger] self.ecs.pending_deletes@[j]
                        == old(self).ecs.pending_deletes@[j],
                forall|j: int|
                    0 <= j < e ==> #[trigger] self.ecs.pending_deletes@[old(
                        self,
                    ).ecs.pending_deletes@.len() + j] == j,
            decreases n - e,
        {
            let ghost pre = self.ecs;
            self.ecs.pending_deletes.push(e);
            proof {
                assert forall|e2: int| 0 <= e2 < self.ecs.n() implies self.ecs.entity_wf(e2) by {
                    assert(pre.entity_wf(e2));
                }
            }
            e += 1;
        }
        let ghost before_maintain = self.ecs;
        self.ecs.maintain();
        proof {
            assert forall|e2: int| 0 <= e2 < self.ecs.n() implies World::slot_cleared(
                self.ecs,
                e2,
            ) by {
                assert(before_maintain.pending_deletes@[old(self).ecs.pending_deletes@.len() + e2]
                    == e2);
                assert(before_maintain.pending_deletes@.contains(e2 as usize));
            }
        }
        let ghost after_maintain = self.ecs;
        self.ecs.map = new_map;
        self.ecs.player_pos = new_player_pos;
        proof {
            assert forall|e2: int| 0 <= e2 < self.ecs.n() implies self.ecs.entity_wf(e2)
                && World::slot_cleared(self.ecs, e2) by {
                assert(World::slot_cleared(after_maintain, e2));
            }
        }
    }

    /// Advance the simulation by one tick of the state machine: run the
    /// turn pipeline in a turn state, or react to the interface's outcome
    /// in a menu state. Returns whether the player asked to quit.
    pub fn tick(&mut self, input: TickInput) -> (quit: bool)
        requires
            old(self).ecs.wf(),
            tick_input_ok(old(self).ecs, input),
        ensures
            final(self).ecs.wf(),
            tick_rel(old(self).ecs, final(self).ecs, input, quit),
    {
        let state_now = self.ecs.run_state;
        let quit_val = match state_now {
            RunState::PreTurn | RunState::PlayerTurn | RunState::MonsterTurn => {
                self.run_systems();
                let ghost w1 = self.ecs;
                let next = match state_now {
                    RunState::PreTurn => RunState::AwaitingInput,
                    RunState::PlayerTurn => RunState::MonsterTurn,
                    _ => RunState::AwaitingInput,
                };
                self.ecs.set_run_state(next);
                let ghost w2 = self.ecs;
                delete_the_dead(&mut self.ecs);
                let ghost w3 = self.ecs;
                self.ecs.maintain();
                let ghost w4 = self.ecs;
                proof {
                    assert(w2 == (World {
                        run_state: turn_next(old(self).ecs.run_state),
                        ..w1
                    }));
                    assert(dead_rel(w2, w3));
                    assert(maintain_rel(w3, w4));
                    assert(pipeline_rel(old(self).ecs, w1));
                    assert(turn_rel(old(self).ecs, w4)) by {
                        assert(pipeline_rel(old(self).ecs, w1) && w2 == (World {
                            run_state: turn_next(old(self).ecs.run_state),
                            ..w1
                        }) && dead_rel(w2, w3) && maintain_rel(w3, w4));
                    }
                }
                false
            },
            RunState::AwaitingInput => {
                let key = match &input {
                    TickInput::KeyPress(k) => Some(*k),
                    _ => None,
                };
                let r = player_input(self, key);
                let ghost w1 = self.ecs;
                self.ecs.set_run_state(r);
                let ghost w2 = self.ecs;
                proof {
                    assert(key == key_of(input));
                    assert(player_input_rel(old(self).ecs, w1, key_of(input), r) && w2 == (World {
                        run_state: r,
                        ..w1
                    }));
                }
                false
            },
            RunState::ShowInventory => {
                match input {
                    TickInput::Menu(MenuResult::Cancel) => {
                        self.ecs.set_run_state(RunState::AwaitingInput);
                    },
                    TickInput::Menu(MenuResult::Selected(item)) => {
                        let n = self.ecs.alive.len();
                        if n > 0 && item < n {
                            let pid = self.ecs.player_id;
                            match self.ecs.ranged[item] {
                                Some(rng) => {
                                    self.ecs.set_run_state(
                                        RunState::ShowTargeting { range: rng, item },
                                    );
                                },
                                None => {
                                    let ghost pre = self.ecs;
                                    self.ecs.wants_use.set(
                                        pid,
                                        Some(UseIntent { item, target: None }),
                                    );
                                    proof {
                                        assert forall|e2: int|
                                            0 <= e2 < self.ecs.n() implies self.ecs.entity_wf(
                                            e2,
                                        ) by {
                                            assert(pre.entity_wf(e2));
                                        }
                                    }
                                    self.ecs.set_run_state(RunState::PlayerTurn);
                                },
                            }
                        }
                    },
                    _ => {},
                }
                false
            },
            RunState::ShowDropItem => {
                match input {
                    TickInput::Menu(MenuResult::Cancel) => {
                        self.ecs.set_run_state(RunState::AwaitingInput);
                    },
                    TickInput::Menu(MenuResult::Selected(item)) => {
                        let n = self.ecs.alive.len();
                        if n > 0 && item < n {
                            let pid = self.ecs.player_id;
                            let ghost pre = self.ecs;
                            self.ecs.wants_drop.set(pid, Some(item));
                            proof {
                                assert forall|e2: int|
                                    0 <= e2 < self.ecs.n() implies self.ecs.entity_wf(e2) by {
                                    assert(pre.entity_wf(e2));
                                }
                            }
                            self.ecs.set_run_state(RunState::PlayerTurn);
                        }
                    },
                    _ => {},
                }
                false
            },
            RunState::ShowRemoveItem => {
                match input {
                    TickInput::Menu(MenuResult::Cancel) => {
                        self.ecs.set_run_state(RunState::AwaitingInput);
                    },
                    TickInput::Menu(MenuResult::Selected(item)) => {
                        let n = self.ecs.alive.len();
                        if n > 0 && item < n {
                            let pid = self.ecs.player_id;
                            let ghost pre = self.ecs;
                            self.ecs.wants_remove.set(pid, Some(item));
                            proof {
                                assert forall|e2: int|
                                    0 <= e2 < self.ecs.n() implies self.ecs.entity_wf(e2) by {
                                    assert(pre.entity_wf(e2));
                                }
                            }
                            self.ecs.set_run_state(RunState::PlayerTurn);
                        }
                    },
                    _ => {},
                }
                false
            },
            RunState::ShowTargeting { range: _, item } => {
                match input {
                    TickInput::Target(TargetResult::Cancel) => {
                        self.ecs.set_run_state(RunState::AwaitingInput);
                    },
                    TickInput::Target(TargetResult::Selected(pt)) => {
                        let n = self.ecs.alive.len();
                        if n > 0 && item < n {
                            let pid = self.ecs.player_id;
                            let ghost pre = self.ecs;
                            self.ecs.wants_use.set(
                                pid,
                                Some(UseIntent { item, target: Some(pt) }),
                            );
                            proof {
                                assert forall|e2: int|
                                    0 <= e2 < self.ecs.n() implies self.ecs.entity_wf(e2) by {
                                    assert(pre.entity_wf(e2));
                                }
                            }
                            self.ecs.set_run_state(RunState::PlayerTurn);
                        }
                    },
                    _ => {},
                }
                false
            },
            RunState::MainMenu { .. } => {
                match input {
                    TickInput::Main(MainResult::NoSelection(sel)) => {
                        self.ecs.set_run_state(RunState::MainMenu { menu_selection: sel });
                        false
                    },
                    TickInput::Main(MainResult::Selected(sel)) => match sel {
                        MenuSelection::NewGame => {
                            self.ecs.set_run_state(RunState::PreTurn);
                            false
                        },
                        MenuSelection::LoadGame => {
                            self.ecs.set_run_state(RunState::AwaitingInput);
                            false
                        },
                        MenuSelection::Quit => true,
                    },
                    _ => false,
                }
            },
            RunState::SaveGame => {
                self.ecs.set_run_state(
                    RunState::MainMenu { menu_selection: MenuSelection::LoadGame },
                );
                false
            },
            RunState::NextLevel => {
                match input {
                    TickInput::Generated(m, p) => {
                        self.goto_next_level(m, p);
                        let ghost w1 = self.ecs;
                        self.ecs.set_run_state(RunState::PreTurn);
                        let ghost w2 = self.ecs;
                        proof {
                            assert(next_level_rel(old(self).ecs, w1, m, p) && w2 == (World {
                                run_state: RunState::PreTurn,
                                ..w1
                            }));
                        }
                    },
                    _ => {},
                }
                false
            },
            RunState::GameOver => {
                match input {
                    TickInput::Generated(m, p) => {
                        self.game_over_cleanup(m, p);
                        let ghost w1 = self.ecs;
                        self.ecs.set_run_state(
                            RunState::MainMenu { menu_selection: MenuSelection::NewGame },
                        );
                        let ghost w2 = self.ecs;
                        proof {
                            assert(gameover_cleanup_rel(old(self).ecs, w1, m, p) && w2 == (World {
                                run_state: RunState::MainMenu {
                                    menu_selection: MenuSelection::NewGame,
                                },
                                ..w1
                            }));
                        }
                    },
                    _ => {},
                }
                false
            },
        };
        quit_val
    }

}

/// A value in the appended part of a concatenation is in the whole.
pub proof fn lemma_concat_contains(s1: Seq<usize>, s2: Seq<usize>, v: usize)
    requires
        s2.contains(v),
    ensures
        (s1 + s2).contains(v),
{
    let j = choose|j: int| 0 <= j < s2.len() && s2[j] == v;
    assert((s1 + s2)[s1.len() + j] == v);
}

/// Each queued-for-depth-change id is a real, doomed slot.
pub proof fn lemma_doomed_sound(a: World, k: int, j: int)
    requires
        0 <= j < depth_doomed(a, k).len(),
        k <= a.n(),
        a.n() <= usize::MAX,
    ensures
        depth_doomed(a, k)[j] < k,
        a.alive@[depth_doomed(a, k)[j] as int] && !depth_protected(
            a,
            depth_doomed(a, k)[j] as int,
        ),
    decreases k,
{
    if k > 0 {
        let s0 = depth_doomed(a, k - 1);
        if j < s0.len() {
            lemma_doomed_sound(a, k - 1, j);
        }
    }
}

/// The queued ids stay within the entity range.
pub proof fn lemma_doomed_bounded(a: World, k: int, j: int)
    requires
        0 <= j < depth_doomed(a, k).len(),
        k <= a.n(),
        a.n() <= usize::MAX,
    ensures
        depth_doomed(a, k)[j] < a.n(),
    decreases k,
{
    lemma_doomed_sound(a, k, j);
}

/// Every alive, unprotected slot is queued.
pub proof fn lemma_doomed_complete(a: World, k: int, e: int)
    requires
        0 <= e < k <= a.n(),
        a.n() <= usize::MAX,
        a.alive@[e],
        !depth_protected(a, e),
    ensures
        depth_doomed(a, k).contains(e as usize),
    decreases k,
{
    if e == k - 1 {
        assert(depth_doomed(a, k).last() == e as usize);
    } else {
        lemma_doomed_complete(a, k - 1, e);
        let s0 = depth_doomed(a, k - 1);
        let j = choose|j: int| 0 <= j < s0.len() && s0[j] == e as usize;
        if a.alive@[k - 1] && !depth_protected(a, k - 1) {
            assert(depth_doomed(a, k)[j] == e as usize);
        } else {
            assert(depth_doomed(a, k)[j] == e as usize);
        }
    }
}

} // verus!
