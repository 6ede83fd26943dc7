//! Player-issued actions: moving or bump-attacking, grabbing an item off
//! the floor, resting for a turn, and stepping down a staircase. The
//! input decoder only hands the core a decoded key; everything decided
//! here is core logic.
use vstd::prelude::*;
use vstd::pervasive::VecAdditionalExecFns;
use crate::components::{Aiming, CombatStats, Key, LogEntry, PickupIntent, Pt, RunState, Viewshed};
use crate::map::TileType;
use crate::state::State;
use crate::world::World;

verus! {

/// The world has a live, positioned, sighted player to move.
pub open spec fn tmp_actor_ok(a: World) -> bool {
    &&& a.n() > 0
    &&& a.alive@[a.player_id as int]
    &&& a.player@[a.player_id as int]
    &&& a.position@[a.player_id as int] is Some
    &&& a.viewshed@[a.player_id as int] is Some
}

/// Where the player is trying to step.
pub open spec fn tmp_tx(a: World, dx: int) -> int {
    a.position@[a.player_id as int]->Some_0.x + dx
}

pub open spec fn tmp_ty(a: World, dy: int) -> int {
    a.position@[a.player_id as int]->Some_0.y + dy
}

/// The destination stays off the outermost ring of the map.
pub open spec fn tmp_in_range(a: World, dx: int, dy: int) -> bool {
    &&& tmp_tx(a, dx) >= 1
    &&& tmp_tx(a, dx) <= a.map.width - 1
    &&& tmp_ty(a, dy) >= 1
    &&& tmp_ty(a, dy) <= a.map.height - 1
    &&& tmp_tx(a, dx) < a.map.width
    &&& tmp_ty(a, dy) < a.map.height
}

/// The first occupant of the destination tile that can fight, scanning
/// the occupant list in order: whoever the player bumps into.
pub open spec fn first_with_stats(a: World, row: Seq<usize>, j: int) -> Option<usize>
    decreases j,
{
    if j <= 0 {
        None
    } else {
        match first_with_stats(a, row, j - 1) {
            Some(t) => Some(t),
            None => {
                if row[j - 1] < a.n() && a.combat_stats@[row[j - 1] as int] is Some {
                    Some(row[j - 1])
                } else {
                    None
                }
            },
        }
    }
}

pub open spec fn tmp_melee_target(a: World, dx: int, dy: int) -> Option<usize> {
    let row = a.map.tile_content@[a.map.idx_of(tmp_tx(a, dx), tmp_ty(a, dy))]@;
    first_with_stats(a, row, row.len() as int)
}

/// What trying to move the player does: out of the actor or the map's
/// interior, nothing; onto a tile with a combat-capable occupant, a melee
/// intent on the first such occupant; onto a free tile, the move with a
/// dirtied viewshed and refreshed player-position and aiming resources;
/// onto a blocked tile, nothing.
pub open spec fn tmp_rel(a: World, b: World, dx: int, dy: int) -> bool {
    if !tmp_actor_ok(a) || !tmp_in_range(a, dx, dy) {
        b == a
    } else if tmp_melee_target(a, dx, dy) is Some {
        &&& b.wants_melee@ == a.wants_melee@.update(
            a.player_id as int,
            Some(tmp_melee_target(a, dx, dy)->Some_0),
        )
        &&& b == (World { wants_melee: b.wants_melee, ..a })
    } else if !a.map.blocked@[a.map.idx_of(tmp_tx(a, dx), tmp_ty(a, dy))] {
        &&& b.position@ == a.position@.update(
            a.player_id as int,
            Some(Pt { x: tmp_tx(a, dx) as i32, y: tmp_ty(a, dy) as i32 }),
        )
        &&& b.viewshed@[a.player_id as int] is Some
        &&& b.viewshed@[a.player_id as int]->Some_0.dirty
        &&& b.viewshed@[a.player_id as int]->Some_0.range == a.viewshed@[a.player_id as int]->Some_0.range
        &&& b.viewshed@[a.player_id as int]->Some_0.visible_tiles == a.viewshed@[a.player_id as int]->Some_0.visible_tiles
        &&& forall|e: int|
            0 <= e < a.n() && e != a.player_id ==> #[trigger] b.viewshed@[e] == a.viewshed@[e]
        &&& b.player_pos == (Pt { x: tmp_tx(a, dx) as i32, y: tmp_ty(a, dy) as i32 })
        &&& b.aiming == (Aiming { x: tmp_tx(a, dx) as i32, y: (tmp_ty(a, dy) - 1) as i32 })
        &&& b == (World {
            position: b.position,
            viewshed: b.viewshed,
            player_pos: b.player_pos,
            aiming: b.aiming,
            ..a
        })
    } else {
        b == a
    }
}

/// Try to move the player by a delta: bump-attack the first fighter in
/// the way, else step onto a free tile.
pub fn try_move_player(delta_x: i32, delta_y: i32, w: &mut World)
    requires
        old(w).wf(),
        -1 <= delta_x <= 1,
        -1 <= delta_y <= 1,
    ensures
        final(w).wf(),
        tmp_rel(*old(w), *final(w), delta_x as int, delta_y as int),
{
    if w.alive.len() == 0 {
        return ;
    }
    let pid = w.player_id;
    let actor_ok = w.alive[pid] && w.player[pid] && w.position[pid].is_some()
        && w.viewshed[pid].is_some();
    if !actor_ok {
        return ;
    }
    proof {
        assert(w.entity_wf(pid as int));
    }
    let p = w.position[pid].unwrap();
    let tx = p.x + delta_x;
    let ty = p.y + delta_y;
    if tx < 1 || tx > w.map.width - 1 || ty < 1 || ty > w.map.height - 1 || tx >= w.map.width
        || ty >= w.map.height {
        proof {
            assert(!tmp_in_range(*old(w), delta_x as int, delta_y as int));
        }
        return ;
    }
    let destination_index = w.map.get_index_at(tx, ty);
    let row_len = w.map.tile_content[destination_index].len();
    let mut target: Option<usize> = None;
    let mut j: usize = 0;
    while j < row_len
        invariant
            j <= row_len,
            w.wf(),
            *w == *old(w),
            destination_index < w.map.tile_content@.len(),
            row_len == w.map.tile_content@[destination_index as int]@.len(),
            target == first_with_stats(
                *old(w),
                w.map.tile_content@[destination_index as int]@,
                j as int,
            ),
            target is Some ==> target->Some_0 < w.n(),
        decreases row_len - j,
    {
        if target.is_none() {
            let occupant = w.map.tile_content[destination_index][j];
            if occupant < w.alive.len() {
                if w.combat_stats[occupant].is_some() {
                    target = Some(occupant);
                }
            }
        }
        j += 1;
    }
    if let Some(t) = target {
        w.wants_melee.set(pid, Some(t));
        proof {
            assert forall|e2: int| 0 <= e2 < w.n() implies w.entity_wf(e2) by {
                assert(old(w).entity_wf(e2));
            }
        }
        return ;
    }
    if !w.map.blocked[destination_index] {
        w.position.set(pid, Some(Pt { x: tx, y: ty }));
        let mut slot: Option<Viewshed> = None;
        w.viewshed.set_and_swap(pid, &mut slot);
        let new_slot = match slot {
            Some(vs) => Some(
                Viewshed { visible_tiles: vs.visible_tiles, range: vs.range, dirty: true },
            ),
            None => None,
        };
        w.viewshed.set(pid, new_slot);
        w.player_pos = Pt { x: tx, y: ty };
        w.aiming = Aiming { x: tx, y: ty - 1 };
        proof {
            assert forall|e2: int| 0 <= e2 < w.n() implies w.entity_wf(e2) by {
                assert(old(w).entity_wf(e2));
            }
        }
    }
}

pub open spec fn pt_eq(p: Pt, q: Pt) -> bool {
    p.x == q.x && p.y == q.y
}

/// Whether the player stands on the given position.
pub fn player_on_position(player_pos: &Pt, other_pos: &Pt) -> (r: bool)
    ensures
        r == pt_eq(*player_pos, *other_pos),
{
    player_pos.x == other_pos.x && player_pos.y == other_pos.y
}

/// The last item lying on the player's tile, scanning entities in id
/// order: later finds overwrite earlier ones.
pub open spec fn item_under_player(a: World, k: int) -> Option<usize>
    decreases k,
{
    if k <= 0 {
        None
    } else if a.alive@[k - 1] && a.item@[k - 1] && a.position@[k - 1] is Some && pt_eq(
        a.position@[k - 1]->Some_0,
        a.player_pos,
    ) {
        Some((k - 1) as usize)
    } else {
        item_under_player(a, k - 1)
    }
}

/// What grabbing does: when an item lies on the player's tile, the player
/// files a pickup intent for the last one found; otherwise a log message
/// says there is nothing to pick up.
pub open spec fn get_item_rel(a: World, b: World) -> bool {
    match item_under_player(a, a.n()) {
        Some(item) => {
            &&& a.n() > 0
            &&& b.wants_pickup@ == a.wants_pickup@.update(
                a.player_id as int,
                Some(PickupIntent { collected_by: a.player_id, item }),
            )
            &&& b == (World { wants_pickup: b.wants_pickup, ..a })
        },
        None => {
            &&& b.log@ == a.log@.push(LogEntry::NothingToPickUp)
            &&& b == (World { log: b.log, ..a })
        },
    }
}

/// Grab whatever item lies under the player.
pub fn get_item(w: &mut World)
    requires
        old(w).wf(),
    ensures
        final(w).wf(),
        get_item_rel(*old(w), *final(w)),
{
    let n = w.alive.len();
    let mut target_item: Option<usize> = None;
    let mut e: usize = 0;
    while e < n
        invariant
            e <= n,
            n == w.n(),
            w.wf(),
            *w == *old(w),
            target_item == item_under_player(*old(w), e as int),
            target_item is Some ==> target_item->Some_0 < n,
        decreases n - e,
    {
        if w.alive[e] && w.item[e] {
            if let Some(p) = w.position[e] {
                if player_on_position(&w.player_pos, &p) {
                    target_item = Some(e);
                }
            }
        }
        e += 1;
    }
    match target_item {
        None => {
            let entry = LogEntry::NothingToPickUp;
            w.log.push(entry);
            proof {
                assert forall|e2: int| 0 <= e2 < w.n() implies w.entity_wf(e2) by {
                    assert(old(w).entity_wf(e2));
                }
            }
        },
        Some(item) => {
            let pid = w.player_id;
            w.wants_pickup.set(pid, Some(PickupIntent { collected_by: pid, item }));
            proof {
                assert forall|e2: int| 0 <= e2 < w.n() implies w.entity_wf(e2) by {
                    assert(old(w).entity_wf(e2));
                }
            }
        },
    }
}

/// The player's tile carries a staircase down.
pub open spec fn on_stairs(a: World) -> bool {
    a.map.tiles@[a.map.idx_of(a.player_pos.x as int, a.player_pos.y as int)]
        == TileType::DownStairs
}

/// Report whether the player may descend; log the refusal otherwise.
pub fn try_next_level(w: &mut World) -> (r: bool)
    requires
        old(w).wf(),
    ensures
        final(w).wf(),
        r == on_stairs(*old(w)),
        r ==> *final(w) == *old(w),
        !r ==> final(w).log@ == old(w).log@.push(LogEntry::NoStairsHere) && *final(w) == (
        World { log: final(w).log, ..*old(w) }),
{
    let player_idx = w.map.get_index_at(w.player_pos.x, w.player_pos.y);
    if w.map.tiles[player_idx] == TileType::DownStairs {
        true
    } else {
        let entry = LogEntry::NoStairsHere;
        w.log.push(entry);
        proof {
            assert forall|e2: int| 0 <= e2 < w.n() implies w.entity_wf(e2) by {
                assert(old(w).entity_wf(e2));
            }
        }
        false
    }
}

/// A monster occupies tile `idx`'s occupant list.
pub open spec fn row_monster(a: World, idx: int) -> bool {
    exists|k: int|
        0 <= k < a.map.tile_content@[idx]@.len() && a.monster@[#[trigger] a.map.tile_content@[idx]@[k] as int]
}

/// Some tile of the player's visible set, in bounds, holds a monster.
pub open spec fn monster_in_sight(a: World, j: int) -> bool {
    exists|j2: int|
        0 <= j2 < j && a.map.pt_in_bounds(
            #[trigger] a.viewshed@[a.player_id as int]->Some_0.visible_tiles@[j2],
        ) && row_monster(
            a,
            a.map.idx_of(
                a.viewshed@[a.player_id as int]->Some_0.visible_tiles@[j2].x as int,
                a.viewshed@[a.player_id as int]->Some_0.visible_tiles@[j2].y as int,
            ),
        )
}

/// The player can rest and heal: it has a viewshed and stats and no
/// monster stands on any tile it sees.
pub open spec fn can_heal_spec(a: World) -> bool {
    &&& a.n() > 0
    &&& a.alive@[a.player_id as int]
    &&& a.viewshed@[a.player_id as int] is Some
    &&& a.combat_stats@[a.player_id as int] is Some
    &&& !monster_in_sight(a, a.viewshed@[a.player_id as int]->Some_0.visible_tiles@.len() as int)
}

/// What resting does: with no monster in sight the player heals one hit
/// point up to its maximum; otherwise nothing. Either way the turn is
/// spent.
pub open spec fn skip_turn_rel(a: World, b: World) -> bool {
    if can_heal_spec(a) {
        let st = a.combat_stats@[a.player_id as int]->Some_0;
        let nh = if st.hp + 1 <= st.max_hp {
            st.hp + 1
        } else {
            st.max_hp as int
        };
        &&& b.combat_stats@ == a.combat_stats@.update(
            a.player_id as int,
            Some(CombatStats { hp: nh as i32, ..st }),
        )
        &&& b == (World { combat_stats: b.combat_stats, ..a })
    } else {
        b == a
    }
}

/// Rest for a turn, healing one hit point when no monster is in sight.
pub fn skip_turn(w: &mut World) -> (r: RunState)
    requires
        old(w).wf(),
    ensures
        final(w).wf(),
        r == RunState::PlayerTurn,
        skip_turn_rel(*old(w), *final(w)),
{
    let n = w.alive.len();
    if n == 0 {
        return RunState::PlayerTurn;
    }
    let pid = w.player_id;
    if !w.alive[pid] || w.combat_stats[pid].is_none() {
        return RunState::PlayerTurn;
    }
    let mut tiles_len: usize = 0;
    let mut has_vs = false;
    match &w.viewshed[pid] {
        Some(vs) => {
            has_vs = true;
            tiles_len = vs.visible_tiles.len();
        },
        None => {},
    }
    if !has_vs {
        return RunState::PlayerTurn;
    }
    let mut can_heal = true;
    let mut j: usize = 0;
    while j < tiles_len
        invariant
            j <= tiles_len,
            w.wf(),
            *w == *old(w),
            n == w.n(),
            pid == w.player_id,
            pid < n,
            w.viewshed@[pid as int] is Some,
            tiles_len == w.viewshed@[pid as int]->Some_0.visible_tiles@.len(),
            can_heal == !monster_in_sight(*old(w), j as int),
        decreases tiles_len - j,
    {
        let mut tile = Pt { x: 0, y: 0 };
        match &w.viewshed[pid] {
            Some(vs) => {
                tile = vs.visible_tiles[j];
            },
            None => {},
        }
        if w.map.in_bounds(tile.x, tile.y) {
            let idx = w.map.get_index_at(tile.x, tile.y);
            let row_len = w.map.tile_content[idx].len();
            let mut k: usize = 0;
            let mut row_has = false;
            while k < row_len
                invariant
                    k <= row_len,
                    w.wf(),
                    *w == *old(w),
                    n == w.n(),
                    idx < w.map.tile_content@.len(),
                    row_len == w.map.tile_content@[idx as int]@.len(),
                    row_has == (exists|k2: int|
                        0 <= k2 < k && w.monster@[#[trigger] w.map.tile_content@[idx as int]@[k2] as int]),
                decreases row_len - k,
            {
                let ent = w.map.tile_content[idx][k];
                proof {
                    assert(w.map.tile_content@[idx as int]@[k as int] < w.n());
                }
                if w.monster[ent] {
                    row_has = true;
                    proof {
                        assert(w.monster@[w.map.tile_content@[idx as int]@[k as int] as int]);
                    }
                }
                k += 1;
            }
            proof {
                assert(row_has == row_monster(*old(w), idx as int));
            }
            if row_has {
                can_heal = false;
            }
            proof {
                lemma_sight_step(*old(w), j as int, row_has);
            }
        } else {
            proof {
                lemma_sight_step_oob(*old(w), j as int);
            }
        }
        j += 1;
    }
    if can_heal {
        proof {
            assert(can_heal_spec(*old(w)));
            assert(w.entity_wf(pid as int));
        }
        let st = w.combat_stats[pid].unwrap();
        let nh = if st.hp + 1 <= st.max_hp {
            st.hp + 1
        } else {
            st.max_hp
        };
        w.combat_stats.set(pid, Some(CombatStats { hp: nh, ..st }));
        proof {
            assert forall|e2: int| 0 <= e2 < w.n() implies w.entity_wf(e2) by {
                assert(old(w).entity_wf(e2));
            }
        }
    } else {
        proof {
            assert(monster_in_sight(*old(w), tiles_len as int));
            assert(!can_heal_spec(*old(w)));
        }
    }
    RunState::PlayerTurn
}

/// Extending the sight scan by one in-bounds tile adds exactly that
/// tile's verdict.
pub proof fn lemma_sight_step(a: World, j: int, row_has: bool)
    requires
        a.n() > 0,
        a.viewshed@[a.player_id as int] is Some,
        0 <= j < a.viewshed@[a.player_id as int]->Some_0.visible_tiles@.len(),
        a.map.pt_in_bounds(a.viewshed@[a.player_id as int]->Some_0.visible_tiles@[j]),
        row_has == row_monster(
            a,
            a.map.idx_of(
                a.viewshed@[a.player_id as int]->Some_0.visible_tiles@[j].x as int,
                a.viewshed@[a.player_id as int]->Some_0.visible_tiles@[j].y as int,
            ),
        ),
    ensures
        monster_in_sight(a, j + 1) == (monster_in_sight(a, j) || row_has),
{
    if row_has {
        assert(monster_in_sight(a, j + 1));
    }
    if monster_in_sight(a, j) {
        let j2 = choose|j2: int|
            0 <= j2 < j && a.map.pt_in_bounds(
                #[trigger] a.viewshed@[a.player_id as int]->Some_0.visible_tiles@[j2],
            ) && row_monster(
                a,
                a.map.idx_of(
                    a.viewshed@[a.player_id as int]->Some_0.visible_tiles@[j2].x as int,
                    a.viewshed@[a.player_id as int]->Some_0.visible_tiles@[j2].y as int,
                ),
            );
        assert(monster_in_sight(a, j + 1));
    }
    if monster_in_sight(a, j + 1) && !row_has {
        let j2 = choose|j2: int|
            0 <= j2 < j + 1 && a.map.pt_in_bounds(
                #[trigger] a.viewshed@[a.player_id as int]->Some_0.visible_tiles@[j2],
            ) && row_monster(
                a,
                a.map.idx_of(
                    a.viewshed@[a.player_id as int]->Some_0.visible_tiles@[j2].x as int,
                    a.viewshed@[a.player_id as int]->Some_0.visible_tiles@[j2].y as int,
                ),
            );
        if j2 == j {
        } else {
            assert(monster_in_sight(a, j));
        }
    }
}

/// An out-of-bounds tile never contributes to the sight scan.
pub proof fn lemma_sight_step_oob(a: World, j: int)
    requires
        a.n() > 0,
        a.viewshed@[a.player_id as int] is Some,
        0 <= j < a.viewshed@[a.player_id as int]->Some_0.visible_tiles@.len(),
        !a.map.pt_in_bounds(a.viewshed@[a.player_id as int]->Some_0.visible_tiles@[j]),
    ensures
        monster_in_sight(a, j + 1) == monster_in_sight(a, j),
{
    if monster_in_sight(a, j) {
        let j2 = choose|j2: int|
            0 <= j2 < j && a.map.pt_in_bounds(
                #[trigger] a.viewshed@[a.player_id as int]->Some_0.visible_tiles@[j2],
            ) && row_monster(
                a,
                a.map.idx_of(
                    a.viewshed@[a.player_id as int]->Some_0.visible_tiles@[j2].x as int,
                    a.viewshed@[a.player_id as int]->Some_0.visible_tiles@[j2].y as int,
                ),
            );
        assert(monster_in_sight(a, j + 1));
    }
    if monster_in_sight(a, j + 1) {
        let j2 = choose|j2: int|
            0 <= j2 < j + 1 && a.map.pt_in_bounds(
                #[trigger] a.viewshed@[a.player_id as int]->Some_0.visible_tiles@[j2],
            ) && row_monster(
                a,
                a.map.idx_of(
                    a.viewshed@[a.player_id as int]->Some_0.visible_tiles@[j2].x as int,
                    a.viewshed@[a.player_id as int]->Some_0.visible_tiles@[j2].y as int,
                ),
            );
        assert(j2 != j);
        assert(monster_in_sight(a, j));
    }
}

/// What decoding one key does to the world and which state the turn
/// machine moves to.
pub open spec fn player_input_rel(a: World, b: World, key: Option<Key>, r: RunState) -> bool {
    match key {
        None => b == a && r == RunState::AwaitingInput,
        Some(k) => match k {
            Key::Up => tmp_rel(a, b, 0, -1) && r == RunState::PlayerTurn,
            Key::Down => tmp_rel(a, b, 0, 1) && r == RunState::PlayerTurn,
            Key::Left => tmp_rel(a, b, -1, 0) && r == RunState::PlayerTurn,
            Key::Right => tmp_rel(a, b, 1, 0) && r == RunState::PlayerTurn,
            Key::UpRight => tmp_rel(a, b, 1, -1) && r == RunState::PlayerTurn,
            Key::UpLeft => tmp_rel(a, b, -1, -1) && r == RunState::PlayerTurn,
            Key::DownRight => tmp_rel(a, b, 1, 1) && r == RunState::PlayerTurn,
            Key::DownLeft => tmp_rel(a, b, -1, 1) && r == RunState::PlayerTurn,
            Key::Grab => get_item_rel(a, b) && r == RunState::PlayerTurn,
            Key::Inventory => b == a && r == RunState::ShowInventory,
            Key::Drop => b == a && r == RunState::ShowDropItem,
            Key::Remove => b == a && r == RunState::ShowRemoveItem,
            Key::Escape => b == a && r == RunState::SaveGame,
            Key::Skip => skip_turn_rel(a, b) && r == RunState::PlayerTurn,
            Key::Descend => {
                if on_stairs(a) {
                    b == a && r == RunState::NextLevel
                } else {
                    b.log@ == a.log@.push(LogEntry::NoStairsHere) && b == (World {
                        log: b.log,
                        ..a
                    }) && r == RunState::PlayerTurn
                }
            },
            Key::Other => b == a && r == RunState::AwaitingInput,
        },
    }
}

/// Decode one key into the player's action for this turn.
pub fn player_input(gs: &mut State, key: Option<Key>) -> (r: RunState)
    requires
        old(gs).ecs.wf(),
    ensures
        final(gs).ecs.wf(),
        player_input_rel(old(gs).ecs, final(gs).ecs, key, r),
{
    match key {
        None => RunState::AwaitingInput,
        Some(k) => match k {
            Key::Up => {
                try_move_player(0, -1, &mut gs.ecs);
                RunState::PlayerTurn
            },
            Key::Down => {
                try_move_player(0, 1, &mut gs.ecs);
                RunState::PlayerTurn
            },
            Key::Left => {
                try_move_player(-1, 0, &mut gs.ecs);
                RunState::PlayerTurn
            },
            Key::Right => {
                try_move_player(1, 0, &mut gs.ecs);
                RunState::PlayerTurn
            },
            Key::UpRight => {
                try_move_player(1, -1, &mut gs.ecs);
                RunState::PlayerTurn
            },
            Key::UpLeft => {
                try_move_player(-1, -1, &mut gs.ecs);
                RunState::PlayerTurn
            },
            Key::DownRight => {
                try_move_player(1, 1, &mut gs.ecs);
                RunState::PlayerTurn
            },
            Key::DownLeft => {
                try_move_player(-1, 1, &mut gs.ecs);
                RunState::PlayerTurn
            },
            Key::Grab => {
                get_item(&mut gs.ecs);
                RunState::PlayerTurn
            },
            Key::Inventory => RunState::ShowInventory,
            Key::Drop => RunState::ShowDropItem,
            Key::Remove => RunState::ShowRemoveItem,
            Key::Escape => RunState::SaveGame,
            Key::Skip => skip_turn(&mut gs.ecs),
            Key::Descend => {
                if try_next_level(&mut gs.ecs) {
                    RunState::NextLevel
                } else {
                    RunState::PlayerTurn
                }
            },
            Key::Other => RunState::AwaitingInput,
        },
    }
}

} // verus!
