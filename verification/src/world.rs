//! The world: every entity's components stored per-component and keyed by
//! entity id, together with the shared resources the phases read and write
//! (the spatial map, the run state, the player handle, the game log, and
//! the queue of entities awaiting deferred deletion).
use vstd::prelude::*;
use vstd::pervasive::VecAdditionalExecFns;
use crate::components::{
    Aiming, CombatStats, EquipSlot, Equipped, LogEntry, MAX_DMG, MAX_ENTITIES, MAX_STAT,
    PickupIntent, Pt, RunState, UseIntent, Viewshed,
};
use crate::map::SpatialMap;

verus! {

/// All simulation state. Each component vector has one slot per entity id;
/// a `None` (or `false`, or empty) slot means the entity lacks that
/// component. Entity ids are indices; deletion clears a slot but never
/// shifts ids.
pub struct World {
    pub map: SpatialMap,
    pub run_state: RunState,
    pub player_id: usize,
    pub player_pos: Pt,
    pub aiming: Aiming,
    pub log: Vec<LogEntry>,
    pub pending_deletes: Vec<usize>,
    pub alive: Vec<bool>,
    pub position: Vec<Option<Pt>>,
    pub player: Vec<bool>,
    pub monster: Vec<bool>,
    pub blocks_tile: Vec<bool>,
    pub name: Vec<Option<String>>,
    pub viewshed: Vec<Option<Viewshed>>,
    pub combat_stats: Vec<Option<CombatStats>>,
    pub suffer_damage: Vec<Vec<i64>>,
    pub item: Vec<bool>,
    pub consumable: Vec<bool>,
    pub provides_healing: Vec<Option<i32>>,
    pub inflicts_damage: Vec<Option<i32>>,
    pub ranged: Vec<Option<i32>>,
    pub area_of_effect: Vec<Option<i32>>,
    pub confusion: Vec<Option<i32>>,
    pub confused: Vec<Option<i32>>,
    pub inflicts_teleport: Vec<bool>,
    pub teleport_from: Vec<Option<usize>>,
    pub equippable: Vec<Option<EquipSlot>>,
    pub in_backpack: Vec<Option<usize>>,
    pub equipped: Vec<Option<Equipped>>,
    pub melee_power_bonus: Vec<Option<i32>>,
    pub defense_bonus: Vec<Option<i32>>,
    pub wants_melee: Vec<Option<usize>>,
    pub wants_pickup: Vec<Option<PickupIntent>>,
    pub wants_use: Vec<Option<UseIntent>>,
    pub wants_drop: Vec<Option<usize>>,
    pub wants_remove: Vec<Option<usize>>,
}

impl World {
    /// Number of entity slots ever allocated.
    pub open spec fn n(self) -> int {
        self.alive@.len() as int
    }

    /// Every component vector has exactly one slot per entity.
    pub open spec fn lens_ok(self) -> bool {
        &&& self.n() <= MAX_ENTITIES
        &&& self.position@.len() == self.n()
        &&& self.player@.len() == self.n()
        &&& self.monster@.len() == self.n()
        &&& self.blocks_tile@.len() == self.n()
        &&& self.name@.len() == self.n()
        &&& self.viewshed@.len() == self.n()
        &&& self.combat_stats@.len() == self.n()
        &&& self.suffer_damage@.len() == self.n()
        &&& self.item@.len() == self.n()
        &&& self.consumable@.len() == self.n()
        &&& self.provides_healing@.len() == self.n()
        &&& self.inflicts_damage@.len() == self.n()
        &&& self.ranged@.len() == self.n()
        &&& self.area_of_effect@.len() == self.n()
        &&& self.confusion@.len() == self.n()
        &&& self.confused@.len() == self.n()
        &&& self.inflicts_teleport@.len() == self.n()
        &&& self.teleport_from@.len() == self.n()
        &&& self.equippable@.len() == self.n()
        &&& self.in_backpack@.len() == self.n()
        &&& self.equipped@.len() == self.n()
        &&& self.melee_power_bonus@.len() == self.n()
        &&& self.defense_bonus@.len() == self.n()
        &&& self.wants_melee@.len() == self.n()
        &&& self.wants_pickup@.len() == self.n()
        &&& self.wants_use@.len() == self.n()
        &&& self.wants_drop@.len() == self.n()
        &&& self.wants_remove@.len() == self.n()
    }

    /// An entity is at most in one place: on the ground with a position,
    /// in a backpack, or equipped on a wearer.
    pub open spec fn location_exclusive(self, e: int) -> bool {
        &&& self.position@[e] is Some ==> self.in_backpack@[e] is None && self.equipped@[e] is None
        &&& self.in_backpack@[e] is Some ==> self.equipped@[e] is None
    }

    /// Value bounds and reference validity for one entity slot.
    pub open spec fn entity_wf(self, e: int) -> bool {
        &&& (match self.position@[e] {
            Some(p) => self.map.pt_in_bounds(p),
            None => true,
        })
        &&& (!self.alive@[e] ==> self.position@[e] is None)
        &&& (match self.combat_stats@[e] {
            Some(st) => st.wf(),
            None => true,
        })
        &&& (match self.viewshed@[e] {
            Some(v) => 0 <= v.range <= MAX_STAT,
            None => true,
        })
        &&& (match self.provides_healing@[e] {
            Some(h) => 0 <= h <= MAX_STAT,
            None => true,
        })
        &&& (match self.inflicts_damage@[e] {
            Some(d) => 0 <= d <= MAX_STAT,
            None => true,
        })
        &&& (match self.ranged@[e] {
            Some(r) => 0 <= r <= MAX_STAT,
            None => true,
        })
        &&& (match self.area_of_effect@[e] {
            Some(r) => 0 <= r <= MAX_STAT,
            None => true,
        })
        &&& (match self.confusion@[e] {
            Some(t) => 0 <= t <= MAX_STAT,
            None => true,
        })
        &&& (match self.confused@[e] {
            Some(t) => 0 <= t <= MAX_STAT,
            None => true,
        })
        &&& (match self.melee_power_bonus@[e] {
            Some(b) => 0 <= b <= MAX_STAT,
            None => true,
        })
        &&& (match self.defense_bonus@[e] {
            Some(b) => 0 <= b <= MAX_STAT,
            None => true,
        })
        &&& (forall|k: int|
            0 <= k < self.suffer_damage@[e]@.len() ==> 0 <= #[trigger] self.suffer_damage@[e]@[k]
                <= MAX_DMG)
        &&& (match self.in_backpack@[e] {
            Some(o) => o < self.n(),
            None => true,
        })
        &&& (match self.equipped@[e] {
            Some(eq) => eq.owner < self.n(),
            None => true,
        })
        &&& (match self.teleport_from@[e] {
            Some(f) => f < self.n(),
            None => true,
        })
        &&& (match self.wants_melee@[e] {
            Some(t) => t < self.n(),
            None => true,
        })
        &&& (match self.wants_pickup@[e] {
            Some(pi) => pi.item < self.n() && pi.collected_by < self.n(),
            None => true,
        })
        &&& (match self.wants_use@[e] {
            Some(ui) => ui.item < self.n(),
            None => true,
        })
        &&& (match self.wants_drop@[e] {
            Some(i) => i < self.n(),
            None => true,
        })
        &&& (match self.wants_remove@[e] {
            Some(i) => i < self.n(),
            None => true,
        })
        &&& self.location_exclusive(e)
    }

    /// Every entity listed in a tile's occupant index is a real slot.
    pub open spec fn map_refs_ok(self) -> bool {
        forall|idx: int, k: int|
            0 <= idx < self.map.tile_content@.len() && 0 <= k
                < self.map.tile_content@[idx]@.len() ==> #[trigger] self.map.tile_content@[idx]@[k]
                < self.n()
    }

    /// The player handle names a real slot, nothing but that slot carries
    /// the player capability, and the player-position resource is on the
    /// map.
    pub open spec fn player_ok(self) -> bool {
        &&& (self.player_id == 0 || self.player_id < self.n())
        &&& (forall|e: int| 0 <= e < self.n() && #[trigger] self.player@[e] ==> e == self.player_id)
        &&& self.map.pt_in_bounds(self.player_pos)
    }

    pub open spec fn pending_ok(self) -> bool {
        forall|k: int|
            0 <= k < self.pending_deletes@.len() ==> #[trigger] self.pending_deletes@[k] < self.n()
    }

    /// The well-formedness every public operation preserves.
    pub open spec fn wf(self) -> bool {
        &&& self.map.wf()
        &&& self.lens_ok()
        &&& (forall|e: int| 0 <= e < self.n() ==> #[trigger] self.entity_wf(e))
        &&& self.map_refs_ok()
        &&& self.player_ok()
        &&& self.pending_ok()
    }

    /// Entity slot `e` holds exactly the same components in both worlds.
    pub open spec fn slot_unchanged(a: World, b: World, e: int) -> bool {
        &&& b.alive@[e] == a.alive@[e]
        &&& b.position@[e] == a.position@[e]
        &&& b.player@[e] == a.player@[e]
        &&& b.monster@[e] == a.monster@[e]
        &&& b.blocks_tile@[e] == a.blocks_tile@[e]
        &&& b.name@[e] == a.name@[e]
        &&& b.viewshed@[e] == a.viewshed@[e]
        &&& b.combat_stats@[e] == a.combat_stats@[e]
        &&& b.suffer_damage@[e] == a.suffer_damage@[e]
        &&& b.item@[e] == a.item@[e]
        &&& b.consumable@[e] == a.consumable@[e]
        &&& b.provides_healing@[e] == a.provides_healing@[e]
        &&& b.inflicts_damage@[e] == a.inflicts_damage@[e]
        &&& b.ranged@[e] == a.ranged@[e]
        &&& b.area_of_effect@[e] == a.area_of_effect@[e]
        &&& b.confusion@[e] == a.confusion@[e]
        &&& b.confused@[e] == a.confused@[e]
        &&& b.inflicts_teleport@[e] == a.inflicts_teleport@[e]
        &&& b.teleport_from@[e] == a.teleport_from@[e]
        &&& b.equippable@[e] == a.equippable@[e]
        &&& b.in_backpack@[e] == a.in_backpack@[e]
        &&& b.equipped@[e] == a.equipped@[e]
        &&& b.melee_power_bonus@[e] == a.melee_power_bonus@[e]
        &&& b.defense_bonus@[e] == a.defense_bonus@[e]
        &&& b.wants_melee@[e] == a.wants_melee@[e]
        &&& b.wants_pickup@[e] == a.wants_pickup@[e]
        &&& b.wants_use@[e] == a.wants_use@[e]
        &&& b.wants_drop@[e] == a.wants_drop@[e]
        &&& b.wants_remove@[e] == a.wants_remove@[e]
    }

    /// Entity slot `e` has been wiped: dead, and without any component.
    pub open spec fn slot_cleared(b: World, e: int) -> bool {
        &&& !b.alive@[e]
        &&& b.position@[e] is None
        &&& !b.player@[e]
        &&& !b.monster@[e]
        &&& !b.blocks_tile@[e]
        &&& b.name@[e] is None
        &&& b.viewshed@[e] is None
        &&& b.combat_stats@[e] is None
        &&& b.suffer_damage@[e]@.len() == 0
        &&& !b.item@[e]
        &&& !b.consumable@[e]
        &&& b.provides_healing@[e] is None
        &&& b.inflicts_damage@[e] is None
        &&& b.ranged@[e] is None
        &&& b.area_of_effect@[e] is None
        &&& b.confusion@[e] is None
        &&& b.confused@[e] is None
        &&& !b.inflicts_teleport@[e]
        &&& b.teleport_from@[e] is None
        &&& b.equippable@[e] is None
        &&& b.in_backpack@[e] is None
        &&& b.equipped@[e] is None
        &&& b.melee_power_bonus@[e] is None
        &&& b.defense_bonus@[e] is None
        &&& b.wants_melee@[e] is None
        &&& b.wants_pickup@[e] is None
        &&& b.wants_use@[e] is None
        &&& b.wants_drop@[e] is None
        &&& b.wants_remove@[e] is None
    }

    /// A fresh world around a map: no entities, the pipeline idle, the
    /// player handle provisionally on slot zero (set when the player is
    /// spawned).
    pub fn new(map: SpatialMap, player_pos: Pt) -> (w: World)
        requires
            map.wf(),
            map.pt_in_bounds(player_pos),
            forall|idx: int|
                0 <= idx < map.tile_content@.len() ==> #[trigger] map.tile_content@[idx]@.len()
                    == 0,
        ensures
            w.wf(),
            w.n() == 0,
            w.map == map,
            w.player_pos == player_pos,
            w.run_state == (RunState::MainMenu { menu_selection: crate::components::MenuSelection::NewGame }),
            w.log@.len() == 0,
            w.pending_deletes@.len() == 0,
            w.player_id == 0,
    {
        World {
            map,
            run_state: RunState::MainMenu { menu_selection: crate::components::MenuSelection::NewGame },
            player_id: 0,
            player_pos,
            aiming: Aiming { x: player_pos.x, y: player_pos.y },
            log: Vec::new(),
            pending_deletes: Vec::new(),
            alive: Vec::new(),
            position: Vec::new(),
            player: Vec::new(),
            monster: Vec::new(),
            blocks_tile: Vec::new(),
            name: Vec::new(),
            viewshed: Vec::new(),
            combat_stats: Vec::new(),
            suffer_damage: Vec::new(),
            item: Vec::new(),
            consumable: Vec::new(),
            provides_healing: Vec::new(),
            inflicts_damage: Vec::new(),
            ranged: Vec::new(),
            area_of_effect: Vec::new(),
            confusion: Vec::new(),
            confused: Vec::new(),
            inflicts_teleport: Vec::new(),
            teleport_from: Vec::new(),
            equippable: Vec::new(),
            in_backpack: Vec::new(),
            equipped: Vec::new(),
            melee_power_bonus: Vec::new(),
            defense_bonus: Vec::new(),
            wants_melee: Vec::new(),
            wants_pickup: Vec::new(),
            wants_use: Vec::new(),
            wants_drop: Vec::new(),
            wants_remove: Vec::new(),
        }
    }

    /// Allocate a fresh, living, componentless entity slot; `None` when
    /// the world is full. The player handle is only provisional while the
    /// world has no player-capable entity, so allocation never disturbs it.
    pub fn spawn(&mut self) -> (r: Option<usize>)
        requires
            old(self).wf(),
        ensures
            final(self).wf(),
            old(self).n() < MAX_ENTITIES ==> r == Some(old(self).n() as usize),
            old(self).n() == MAX_ENTITIES ==> r is None && *final(self) == *old(self),
            r is Some ==> {
                &&& final(self).n() == old(self).n() + 1
                &&& final(self).alive@[old(self).n()]
                &&& forall|e: int|
                    0 <= e < old(self).n() ==> World::slot_unchanged(*old(self), *final(self), e)
                &&& final(self).position@[old(self).n()] is None
                &&& final(self).combat_stats@[old(self).n()] is None
                &&& final(self).viewshed@[old(self).n()] is None
                &&& !final(self).player@[old(self).n()]
                &&& !final(self).monster@[old(self).n()]
                &&& !final(self).blocks_tile@[old(self).n()]
                &&& final(self).name@[old(self).n()] is None
                &&& final(self).suffer_damage@[old(self).n()]@.len() == 0
                &&& !final(self).item@[old(self).n()]
                &&& !final(self).consumable@[old(self).n()]
                &&& final(self).provides_healing@[old(self).n()] is None
                &&& final(self).inflicts_damage@[old(self).n()] is None
                &&& final(self).ranged@[old(self).n()] is None
                &&& final(self).area_of_effect@[old(self).n()] is None
                &&& final(self).confusion@[old(self).n()] is None
                &&& final(self).confused@[old(self).n()] is None
                &&& !final(self).inflicts_teleport@[old(self).n()]
                &&& final(self).teleport_from@[old(self).n()] is None
                &&& final(self).equippable@[old(self).n()] is None
                &&& final(self).in_backpack@[old(self).n()] is None
                &&& final(self).equipped@[old(self).n()] is None
                &&& final(self).melee_power_bonus@[old(self).n()] is None
                &&& final(self).defense_bonus@[old(self).n()] is None
                &&& final(self).wants_melee@[old(self).n()] is None
                &&& final(self).wants_pickup@[old(self).n()] is None
                &&& final(self).wants_use@[old(self).n()] is None
                &&& final(self).wants_drop@[old(self).n()] is None
                &&& final(self).wants_remove@[old(self).n()] is None
                &&& final(self).map == old(self).map
                &&& final(self).run_state == old(self).run_state
                &&& final(self).player_id == old(self).player_id
                &&& final(self).player_pos == old(self).player_pos
                &&& final(self).aiming == old(self).aiming
                &&& final(self).log == old(self).log
                &&& final(self).pending_deletes == old(self).pending_deletes
            },
    {
        if self.alive.len() >= MAX_ENTITIES {
            return None;
        }
        let id = self.alive.len();
        self.alive.push(true);
        self.position.push(None);
        self.player.push(false);
        self.monster.push(false);
        self.blocks_tile.push(false);
        self.name.push(None);
        self.viewshed.push(None);
        self.combat_stats.push(None);
        self.suffer_damage.push(Vec::new());
        self.item.push(false);
        self.consumable.push(false);
        self.provides_healing.push(None);
        self.inflicts_damage.push(None);
        self.ranged.push(None);
        self.area_of_effect.push(None);
        self.confusion.push(None);
        self.confused.push(None);
        self.inflicts_teleport.push(false);
        self.teleport_from.push(None);
        self.equippable.push(None);
        self.in_backpack.push(None);
        self.equipped.push(None);
        self.melee_power_bonus.push(None);
        self.defense_bonus.push(None);
        self.wants_melee.push(None);
        self.wants_pickup.push(None);
        self.wants_use.push(None);
        self.wants_drop.push(None);
        self.wants_remove.push(None);
        proof {
            assert forall|e: int| 0 <= e < self.n() implies self.entity_wf(e) by {
                if e < old(self).n() {
                    assert(old(self).entity_wf(e));
                }
            }
        }
        Some(id)
    }

    /// Move the state machine; nothing else of the world changes.
    pub fn set_run_state(&mut self, s: RunState)
        requires
            old(self).wf(),
        ensures
            final(self).wf(),
            *final(self) == (World { run_state: s, ..*old(self) }),
    {
        self.run_state = s;
        proof {
            assert forall|e: int| 0 <= e < self.n() implies self.entity_wf(e) by {
                assert(old(self).entity_wf(e));
            }
        }
    }


    /// Builder: mark entity `e` with the `monster` capability.
    pub fn set_monster(&mut self, e: usize, v: bool)
        requires
            old(self).wf(),
            e < old(self).n(),
        ensures
            final(self).wf(),
            final(self).monster@ == old(self).monster@.update(e as int, v),
            *final(self) == (World { monster: final(self).monster, ..*old(self) }),
    {
        self.monster.set(e, v);
        proof {
            assert forall|e2: int| 0 <= e2 < self.n() implies self.entity_wf(e2) by {
                assert(old(self).entity_wf(e2));
            }
        }
    }

    /// Builder: mark entity `e` with the `blocks_tile` capability.
    pub fn set_blocks_tile(&mut self, e: usize, v: bool)
        requires
            old(self).wf(),
            e < old(self).n(),
        ensures
            final(self).wf(),
            final(self).blocks_tile@ == old(self).blocks_tile@.update(e as int, v),
            *final(self) == (World { blocks_tile: final(self).blocks_tile, ..*old(self) }),
    {
        self.blocks_tile.set(e, v);
        proof {
            assert forall|e2: int| 0 <= e2 < self.n() implies self.entity_wf(e2) by {
                assert(old(self).entity_wf(e2));
            }
        }
    }

    /// Builder: mark entity `e` with the `item` capability.
    pub fn set_item(&mut self, e: usize, v: bool)
        requires
            old(self).wf(),
            e < old(self).n(),
        ensures
            final(self).wf(),
            final(self).item@ == old(self).item@.update(e as int, v),
            *final(self) == (World { item: final(self).item, ..*old(self) }),
    {
        self.item.set(e, v);
        proof {
            assert forall|e2: int| 0 <= e2 < self.n() implies self.entity_wf(e2) by {
                assert(old(self).entity_wf(e2));
            }
        }
    }

    /// Builder: mark entity `e` with the `consumable` capability.
    pub fn set_consumable(&mut self, e: usize, v: bool)
        requires
            old(self).wf(),
            e < old(self).n(),
        ensures
            final(self).wf(),
            final(self).consumable@ == old(self).consumable@.update(e as int, v),
            *final(self) == (World { consumable: final(self).consumable, ..*old(self) }),
    {
        self.consumable.set(e, v);
        proof {
            assert forall|e2: int| 0 <= e2 < self.n() implies self.entity_wf(e2) by {
                assert(old(self).entity_wf(e2));
            }
        }
    }

    /// Builder: mark entity `e` with the `inflicts_teleport` capability.
    pub fn set_inflicts_teleport(&mut self, e: usize, v: bool)
        requires
            old(self).wf(),
            e < old(self).n(),
        ensures
            final(self).wf(),
            final(self).inflicts_teleport@ == old(self).inflicts_teleport@.update(e as int, v),
            *final(self) == (World { inflicts_teleport: final(self).inflicts_teleport, ..*old(self) }),
    {
        self.inflicts_teleport.set(e, v);
        proof {
            assert forall|e2: int| 0 <= e2 < self.n() implies self.entity_wf(e2) by {
                assert(old(self).entity_wf(e2));
            }
        }
    }

    /// Builder: attach a `provides_healing` value to entity `e`.
    pub fn give_healing(&mut self, e: usize, v: i32)
        requires
            old(self).wf(),
            e < old(self).n(),
            0 <= v <= MAX_STAT,
        ensures
            final(self).wf(),
            final(self).provides_healing@ == old(self).provides_healing@.update(e as int, Some(v)),
            *final(self) == (World { provides_healing: final(self).provides_healing, ..*old(self) }),
    {
        self.provides_healing.set(e, Some(v));
        proof {
            assert forall|e2: int| 0 <= e2 < self.n() implies self.entity_wf(e2) by {
                assert(old(self).entity_wf(e2));
            }
        }
    }

    /// Builder: attach a `inflicts_damage` value to entity `e`.
    pub fn give_damage(&mut self, e: usize, v: i32)
        requires
            old(self).wf(),
            e < old(self).n(),
            0 <= v <= MAX_STAT,
        ensures
            final(self).wf(),
            final(self).inflicts_damage@ == old(self).inflicts_damage@.update(e as int, Some(v)),
            *final(self) == (World { inflicts_damage: final(self).inflicts_damage, ..*old(self) }),
    {
        self.inflicts_damage.set(e, Some(v));
        proof {
            assert forall|e2: int| 0 <= e2 < self.n() implies self.entity_wf(e2) by {
                assert(old(self).entity_wf(e2));
            }
        }
    }

    /// Builder: attach a `ranged` value to entity `e`.
    pub fn give_ranged(&mut self, e: usize, v: i32)
        requires
            old(self).wf(),
            e < old(self).n(),
            0 <= v <= MAX_STAT,
        ensures
            final(self).wf(),
            final(self).ranged@ == old(self).ranged@.update(e as int, Some(v)),
            *final(self) == (World { ranged: final(self).ranged, ..*old(self) }),
    {
        self.ranged.set(e, Some(v));
        proof {
            assert forall|e2: int| 0 <= e2 < self.n() implies self.entity_wf(e2) by {
                assert(old(self).entity_wf(e2));
            }
        }
    }

    /// Builder: attach a `area_of_effect` value to entity `e`.
    pub fn give_aoe(&mut self, e: usize, v: i32)
        requires
            old(self).wf(),
            e < old(self).n(),
            0 <= v <= MAX_STAT,
        ensures
            final(self).wf(),
            final(self).area_of_effect@ == old(self).area_of_effect@.update(e as int, Some(v)),
            *final(self) == (World { area_of_effect: final(self).area_of_effect, ..*old(self) }),
    {
        self.area_of_effect.set(e, Some(v));
        proof {
            assert forall|e2: int| 0 <= e2 < self.n() implies self.entity_wf(e2) by {
                assert(old(self).entity_wf(e2));
            }
        }
    }

    /// Builder: attach a `confusion` value to entity `e`.
    pub fn give_confusion(&mut self, e: usize, v: i32)
        requires
            old(self).wf(),
            e < old(self).n(),
            0 <= v <= MAX_STAT,
        ensures
            final(self).wf(),
            final(self).confusion@ == old(self).confusion@.update(e as int, Some(v)),
            *final(self) == (World { confusion: final(self).confusion, ..*old(self) }),
    {
        self.confusion.set(e, Some(v));
        proof {
            assert forall|e2: int| 0 <= e2 < self.n() implies self.entity_wf(e2) by {
                assert(old(self).entity_wf(e2));
            }
        }
    }

    /// Builder: attach a `melee_power_bonus` value to entity `e`.
    pub fn give_melee_bonus(&mut self, e: usize, v: i32)
        requires
            old(self).wf(),
            e < old(self).n(),
            0 <= v <= MAX_STAT,
        ensures
            final(self).wf(),
            final(self).melee_power_bonus@ == old(self).melee_power_bonus@.update(e as int, Some(v)),
            *final(self) == (World { melee_power_bonus: final(self).melee_power_bonus, ..*old(self) }),
    {
        self.melee_power_bonus.set(e, Some(v));
        proof {
            assert forall|e2: int| 0 <= e2 < self.n() implies self.entity_wf(e2) by {
                assert(old(self).entity_wf(e2));
            }
        }
    }

    /// Builder: attach a `defense_bonus` value to entity `e`.
    pub fn give_defense_bonus(&mut self, e: usize, v: i32)
        requires
            old(self).wf(),
            e < old(self).n(),
            0 <= v <= MAX_STAT,
        ensures
            final(self).wf(),
            final(self).defense_bonus@ == old(self).defense_bonus@.update(e as int, Some(v)),
            *final(self) == (World { defense_bonus: final(self).defense_bonus, ..*old(self) }),
    {
        self.defense_bonus.set(e, Some(v));
        proof {
            assert forall|e2: int| 0 <= e2 < self.n() implies self.entity_wf(e2) by {
                assert(old(self).entity_wf(e2));
            }
        }
    }

    /// Builder: give entity `e` combat stats.
    pub fn give_stats(&mut self, e: usize, max_hp: i32, hp: i32, defense: i32, power: i32)
        requires
            old(self).wf(),
            e < old(self).n(),
            0 <= hp <= max_hp <= MAX_STAT,
            0 <= defense <= MAX_STAT,
            0 <= power <= MAX_STAT,
        ensures
            final(self).wf(),
            final(self).combat_stats@ == old(self).combat_stats@.update(
                e as int,
                Some(CombatStats { max_hp, hp, defense, power }),
            ),
            *final(self) == (World { combat_stats: final(self).combat_stats, ..*old(self) }),
    {
        self.combat_stats.set(e, Some(CombatStats { max_hp, hp, defense, power }));
        proof {
            assert forall|e2: int| 0 <= e2 < self.n() implies self.entity_wf(e2) by {
                assert(old(self).entity_wf(e2));
            }
        }
    }

    /// Builder: stand entity `e` on an in-bounds tile. A positioned
    /// entity is neither carried nor worn.
    pub fn set_position(&mut self, e: usize, x: i32, y: i32)
        requires
            old(self).wf(),
            e < old(self).n(),
            old(self).alive@[e as int],
            old(self).map.in_bounds_spec(x as int, y as int),
            old(self).in_backpack@[e as int] is None,
            old(self).equipped@[e as int] is None,
        ensures
            final(self).wf(),
            final(self).position@ == old(self).position@.update(e as int, Some(Pt { x, y })),
            *final(self) == (World { position: final(self).position, ..*old(self) }),
    {
        self.position.set(e, Some(Pt { x, y }));
        proof {
            assert forall|e2: int| 0 <= e2 < self.n() implies self.entity_wf(e2) by {
                assert(old(self).entity_wf(e2));
            }
        }
    }

    /// Builder: put item `e` into `owner`'s backpack. A carried entity
    /// is neither on the ground nor worn.
    pub fn set_in_backpack(&mut self, e: usize, owner: usize)
        requires
            old(self).wf(),
            e < old(self).n(),
            owner < old(self).n(),
            old(self).position@[e as int] is None,
            old(self).equipped@[e as int] is None,
        ensures
            final(self).wf(),
            final(self).in_backpack@ == old(self).in_backpack@.update(e as int, Some(owner)),
            *final(self) == (World { in_backpack: final(self).in_backpack, ..*old(self) }),
    {
        self.in_backpack.set(e, Some(owner));
        proof {
            assert forall|e2: int| 0 <= e2 < self.n() implies self.entity_wf(e2) by {
                assert(old(self).entity_wf(e2));
            }
        }
    }

    /// Builder: make entity `e` equippable into a slot.
    pub fn give_equippable(&mut self, e: usize, slot: EquipSlot)
        requires
            old(self).wf(),
            e < old(self).n(),
        ensures
            final(self).wf(),
            final(self).equippable@ == old(self).equippable@.update(e as int, Some(slot)),
            *final(self) == (World { equippable: final(self).equippable, ..*old(self) }),
    {
        self.equippable.set(e, Some(slot));
        proof {
            assert forall|e2: int| 0 <= e2 < self.n() implies self.entity_wf(e2) by {
                assert(old(self).entity_wf(e2));
            }
        }
    }

    /// Builder: give entity `e` a fresh, dirty viewshed.
    pub fn give_viewshed(&mut self, e: usize, range: i32)
        requires
            old(self).wf(),
            e < old(self).n(),
            0 <= range <= MAX_STAT,
        ensures
            final(self).wf(),
            final(self).viewshed@[e as int] is Some,
            final(self).viewshed@[e as int]->Some_0.range == range,
            final(self).viewshed@[e as int]->Some_0.dirty,
            final(self).viewshed@[e as int]->Some_0.visible_tiles@.len() == 0,
            forall|e2: int|
                0 <= e2 < final(self).n() && e2 != e ==> final(self).viewshed@[e2] == old(
                    self,
                ).viewshed@[e2],
            *final(self) == (World { viewshed: final(self).viewshed, ..*old(self) }),
    {
        self.viewshed.set(e, Some(Viewshed { visible_tiles: Vec::new(), range, dirty: true }));
        proof {
            assert forall|e2: int| 0 <= e2 < self.n() implies self.entity_wf(e2) by {
                assert(old(self).entity_wf(e2));
            }
        }
    }

    /// Builder: name entity `e`.
    pub fn give_name(&mut self, e: usize, name: String)
        requires
            old(self).wf(),
            e < old(self).n(),
        ensures
            final(self).wf(),
            final(self).name@[e as int] is Some,
            forall|e2: int|
                0 <= e2 < final(self).n() && e2 != e ==> final(self).name@[e2] == old(
                    self,
                ).name@[e2],
            *final(self) == (World { name: final(self).name, ..*old(self) }),
    {
        self.name.set(e, Some(name));
        proof {
            assert forall|e2: int| 0 <= e2 < self.n() implies self.entity_wf(e2) by {
                assert(old(self).entity_wf(e2));
            }
        }
    }

    /// Builder: hand the player capability to entity `e`. No other slot
    /// may already carry it.
    pub fn set_player(&mut self, e: usize)
        requires
            old(self).wf(),
            e < old(self).n(),
            forall|e2: int| 0 <= e2 < old(self).n() ==> !(#[trigger] old(self).player@[e2]),
        ensures
            final(self).wf(),
            final(self).player@ == old(self).player@.update(e as int, true),
            final(self).player_id == e,
            *final(self) == (World {
                player: final(self).player,
                player_id: e,
                ..*old(self)
            }),
    {
        self.player.set(e, true);
        self.player_id = e;
        proof {
            assert forall|e2: int| 0 <= e2 < self.n() implies self.entity_wf(e2) by {
                assert(old(self).entity_wf(e2));
            }
        }
    }

    /// Builder: set the player-position resource.
    pub fn set_player_pos(&mut self, x: i32, y: i32)
        requires
            old(self).wf(),
            old(self).map.in_bounds_spec(x as int, y as int),
        ensures
            final(self).wf(),
            *final(self) == (World { player_pos: Pt { x, y }, ..*old(self) }),
    {
        self.player_pos = Pt { x, y };
        proof {
            assert forall|e2: int| 0 <= e2 < self.n() implies self.entity_wf(e2) by {
                assert(old(self).entity_wf(e2));
            }
        }
    }

    /// Builder: file a melee intent for entity `e` on `target`.
    pub fn set_wants_melee(&mut self, e: usize, target: usize)
        requires
            old(self).wf(),
            e < old(self).n(),
            target < old(self).n(),
        ensures
            final(self).wf(),
            final(self).wants_melee@ == old(self).wants_melee@.update(e as int, Some(target)),
            *final(self) == (World { wants_melee: final(self).wants_melee, ..*old(self) }),
    {
        self.wants_melee.set(e, Some(target));
        proof {
            assert forall|e2: int| 0 <= e2 < self.n() implies self.entity_wf(e2) by {
                assert(old(self).entity_wf(e2));
            }
        }
    }

    /// Builder: file a use intent for entity `e`.
    pub fn set_wants_use(&mut self, e: usize, item: usize, target: Option<Pt>)
        requires
            old(self).wf(),
            e < old(self).n(),
            item < old(self).n(),
        ensures
            final(self).wf(),
            final(self).wants_use@ == old(self).wants_use@.update(
                e as int,
                Some(UseIntent { item, target }),
            ),
            *final(self) == (World { wants_use: final(self).wants_use, ..*old(self) }),
    {
        self.wants_use.set(e, Some(UseIntent { item, target }));
        proof {
            assert forall|e2: int| 0 <= e2 < self.n() implies self.entity_wf(e2) by {
                assert(old(self).entity_wf(e2));
            }
        }
    }

    /// Builder: file a drop intent for entity `e`.
    pub fn set_wants_drop(&mut self, e: usize, item: usize)
        requires
            old(self).wf(),
            e < old(self).n(),
            item < old(self).n(),
        ensures
            final(self).wf(),
            final(self).wants_drop@ == old(self).wants_drop@.update(e as int, Some(item)),
            *final(self) == (World { wants_drop: final(self).wants_drop, ..*old(self) }),
    {
        self.wants_drop.set(e, Some(item));
        proof {
            assert forall|e2: int| 0 <= e2 < self.n() implies self.entity_wf(e2) by {
                assert(old(self).entity_wf(e2));
            }
        }
    }

    /// Builder: file a pickup intent for entity `e`.
    pub fn set_wants_pickup(&mut self, e: usize, collected_by: usize, item: usize)
        requires
            old(self).wf(),
            e < old(self).n(),
            collected_by < old(self).n(),
            item < old(self).n(),
        ensures
            final(self).wf(),
            final(self).wants_pickup@ == old(self).wants_pickup@.update(
                e as int,
                Some(PickupIntent { collected_by, item }),
            ),
            *final(self) == (World { wants_pickup: final(self).wants_pickup, ..*old(self) }),
    {
        self.wants_pickup.set(e, Some(PickupIntent { collected_by, item }));
        proof {
            assert forall|e2: int| 0 <= e2 < self.n() implies self.entity_wf(e2) by {
                assert(old(self).entity_wf(e2));
            }
        }
    }

    /// Builder: file an unequip intent for entity `e`.
    pub fn set_wants_remove(&mut self, e: usize, item: usize)
        requires
            old(self).wf(),
            e < old(self).n(),
            item < old(self).n(),
        ensures
            final(self).wf(),
            final(self).wants_remove@ == old(self).wants_remove@.update(e as int, Some(item)),
            *final(self) == (World { wants_remove: final(self).wants_remove, ..*old(self) }),
    {
        self.wants_remove.set(e, Some(item));
        proof {
            assert forall|e2: int| 0 <= e2 < self.n() implies self.entity_wf(e2) by {
                assert(old(self).entity_wf(e2));
            }
        }
    }

    /// Append a pending damage amount to an entity's accumulator.
    pub fn suffer_push(&mut self, e: usize, amount: i64)
        requires
            old(self).wf(),
            e < old(self).n(),
            0 <= amount <= MAX_DMG,
        ensures
            final(self).wf(),
            final(self).suffer_damage@.len() == old(self).suffer_damage@.len(),
            final(self).suffer_damage@[e as int]@ == old(self).suffer_damage@[e as int]@.push(
                amount,
            ),
            forall|j: int|
                0 <= j < final(self).n() && j != e ==> final(self).suffer_damage@[j] == old(
                    self,
                ).suffer_damage@[j],
            *final(self) == (World { suffer_damage: final(self).suffer_damage, ..*old(self) }),
    {
        let mut row: Vec<i64> = Vec::new();
        self.suffer_damage.set_and_swap(e, &mut row);
        row.push(amount);
        self.suffer_damage.set_and_swap(e, &mut row);
        proof {
            assert forall|j: int| 0 <= j < self.n() implies self.entity_wf(j) by {
                assert(old(self).entity_wf(j));
            }
        }
    }

    /// Wipe every entity queued for deletion, then empty the queue.
    /// Deletion is deferred to this single structural pass so that no
    /// phase ever removes a slot mid-iteration.
    pub fn maintain(&mut self)
        requires
            old(self).wf(),
        ensures
            final(self).wf(),
            final(self).n() == old(self).n(),
            final(self).pending_deletes@.len() == 0,
            forall|e: int|
                0 <= e < old(self).n() && old(self).pending_deletes@.contains(e as usize)
                    ==> World::slot_cleared(*final(self), e),
            forall|e: int|
                0 <= e < old(self).n() && !old(self).pending_deletes@.contains(e as usize)
                    ==> World::slot_unchanged(*old(self), *final(self), e),
            final(self).map == old(self).map,
            final(self).run_state == old(self).run_state,
            final(self).player_id == old(self).player_id,
            final(self).player_pos == old(self).player_pos,
            final(self).aiming == old(self).aiming,
            final(self).log == old(self).log,
    {
        let m = self.pending_deletes.len();
        let mut k: usize = 0;
        while k < m
            invariant
                k <= m,
                self.wf(),
                self.n() == old(self).n(),
                self.pending_deletes == old(self).pending_deletes,
                m == self.pending_deletes@.len(),
                self.map == old(self).map,
                self.run_state == old(self).run_state,
                self.player_id == old(self).player_id,
                self.player_pos == old(self).player_pos,
                self.aiming == old(self).aiming,
                self.log == old(self).log,
                forall|e: int|
                    0 <= e < old(self).n() && (exists|j: int|
                        0 <= j < k && old(self).pending_deletes@[j] == e) ==> World::slot_cleared(
                        *self,
                        e,
                    ),
                forall|e: int|
                    0 <= e < old(self).n() && !(exists|j: int|
                        0 <= j < k && old(self).pending_deletes@[j] == e)
                        ==> World::slot_unchanged(*old(self), *self, e),
            decreases m - k,
        {
            let ghost pre = *self;
            let id = self.pending_deletes[k];
            self.alive.set(id, false);
            self.position.set(id, None);
            self.player.set(id, false);
            self.monster.set(id, false);
            self.blocks_tile.set(id, false);
            self.name.set(id, None);
            self.viewshed.set(id, None);
            self.combat_stats.set(id, None);
            self.suffer_damage.set(id, Vec::new());
            self.item.set(id, false);
            self.consumable.set(id, false);
            self.provides_healing.set(id, None);
            self.inflicts_damage.set(id, None);
            self.ranged.set(id, None);
            self.area_of_effect.set(id, None);
            self.confusion.set(id, None);
            self.confused.set(id, None);
            self.inflicts_teleport.set(id, false);
            self.teleport_from.set(id, None);
            self.equippable.set(id, None);
            self.in_backpack.set(id, None);
            self.equipped.set(id, None);
            self.melee_power_bonus.set(id, None);
            self.defense_bonus.set(id, None);
            self.wants_melee.set(id, None);
            self.wants_pickup.set(id, None);
            self.wants_use.set(id, None);
            self.wants_drop.set(id, None);
            self.wants_remove.set(id, None);
            proof {
                assert forall|e2: int| 0 <= e2 < self.n() implies self.entity_wf(e2) by {
                    assert(pre.entity_wf(e2));
                }
                assert forall|e2: int|
                    0 <= e2 < old(self).n() && (exists|j: int|
                        0 <= j < k + 1 && old(self).pending_deletes@[j]
                            == e2) implies World::slot_cleared(*self, e2) by {
                    let j = choose|j: int|
                        0 <= j < k + 1 && old(self).pending_deletes@[j] == e2;
                    if j < k && e2 != id {
                        assert(World::slot_cleared(pre, e2));
                    }
                }
                assert forall|e2: int|
                    0 <= e2 < old(self).n() && !(exists|j: int|
                        0 <= j < k + 1 && old(self).pending_deletes@[j]
                            == e2) implies World::slot_unchanged(*old(self), *self, e2) by {
                    assert(old(self).pending_deletes@[k as int] == id);
                    assert(e2 != id);
                    assert(World::slot_unchanged(*old(self), pre, e2));
                }
            }
            k += 1;
        }
        let ghost done = *self;
        self.pending_deletes = Vec::new();
        proof {
            assert forall|e: int| 0 <= e < self.n() implies self.entity_wf(e) by {
                assert(done.entity_wf(e));
            }
            assert forall|e: int|
                0 <= e < old(self).n() && old(self).pending_deletes@.contains(
                    e as usize,
                ) implies World::slot_cleared(*self, e) by {
                let j = choose|j: int|
                    0 <= j < old(self).pending_deletes@.len() && old(self).pending_deletes@[j] == (
                    e as usize);
                assert(old(self).pending_deletes@[j] == e);
                assert(World::slot_cleared(done, e));
            }
            assert forall|e: int|
                0 <= e < old(self).n() && !old(self).pending_deletes@.contains(
                    e as usize,
                ) implies World::slot_unchanged(*old(self), *self, e) by {
                assert forall|j: int|
                    0 <= j < old(self).pending_deletes@.len() implies old(
                        self,
                    ).pending_deletes@[j] != e by {
                    if old(self).pending_deletes@[j] == e {
                        assert(old(self).pending_deletes@.contains(e as usize));
                    }
                }
                assert(World::slot_unchanged(*old(self), done, e));
            }
        }
    }
}

/// Sum of a sequence of pending damage amounts.
pub open spec fn sum_seq(s: Seq<i64>) -> int
    decreases s.len(),
{
    if s.len() == 0 {
        0
    } else {
        sum_seq(s.drop_last()) + s.last()
    }
}

/// A sum of bounded, non-negative entries is itself bounded.
pub proof fn lemma_sum_bounds(s: Seq<i64>)
    requires
        forall|k: int| 0 <= k < s.len() ==> 0 <= #[trigger] s[k] <= MAX_DMG,
    ensures
        0 <= sum_seq(s) <= s.len() * MAX_DMG,
    decreases s.len(),
{
    if s.len() > 0 {
        lemma_sum_bounds(s.drop_last());
    }
}

/// Sum an entity's pending damage without any risk of overflow.
pub fn sum_suffer(v: &Vec<i64>) -> (s: i128)
    requires
        forall|k: int| 0 <= k < v@.len() ==> 0 <= #[trigger] v@[k] <= MAX_DMG,
    ensures
        s == sum_seq(v@),
        0 <= s,
{
    let n = v.len();
    let mut acc: i128 = 0;
    let mut i: usize = 0;
    while i < n
        invariant
            i <= n,
            n == v@.len(),
            acc == sum_seq(v@.subrange(0, i as int)),
            0 <= acc <= i * MAX_DMG,
        decreases n - i,
    {
        proof {
            assert(v@.subrange(0, i + 1).drop_last() =~= v@.subrange(0, i as int));
            assert(v@.subrange(0, i + 1).last() == v@[i as int]);
        }
        acc = acc + (v[i] as i128);
        i += 1;
    }
    proof {
        assert(v@.subrange(0, n as int) =~= v@);
    }
    acc
}

} // verus!
