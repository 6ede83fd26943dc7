//! The component and resource types attached to entities, and the small
//! value types shared by every phase of the pipeline.
use vstd::prelude::*;

verus! {

/// Largest number of entity slots a world may hold.
pub const MAX_ENTITIES: usize = 0x10000;

/// Upper bound on every stat-like quantity: hit points, power, defense,
/// equipment bonuses, heal and damage amounts, viewshed ranges, blast radii
/// and confusion turn counts.
pub const MAX_STAT: i32 = 0xFFFF;

/// Upper bound on a single pending-damage entry. A melee hit is at most
/// `MAX_STAT` of attacker power plus a bonus summed over at most
/// `MAX_ENTITIES` equipped items of `MAX_STAT` each, which stays below this.
pub const MAX_DMG: i64 = 0x2_0000_0000;

/// An integer grid coordinate.
#[derive(Clone, Copy, PartialEq, Eq, Structural, Debug)]
pub struct Pt {
    pub x: i32,
    pub y: i32,
}

/// Combat capability of an actor.
#[derive(Clone, Copy, PartialEq, Eq, Structural, Debug)]
pub struct CombatStats {
    pub max_hp: i32,
    pub hp: i32,
    pub defense: i32,
    pub power: i32,
}

impl CombatStats {
    /// Field bounds every well-formed world maintains.
    pub open spec fn wf(self) -> bool {
        0 <= self.hp <= self.max_hp <= MAX_STAT && 0 <= self.defense <= MAX_STAT && 0
            <= self.power <= MAX_STAT
    }
}

/// The set of tiles an entity currently sees, with the radius it sees to
/// and a flag forcing recomputation.
pub struct Viewshed {
    pub visible_tiles: Vec<Pt>,
    pub range: i32,
    pub dirty: bool,
}

/// Equipment slot an item can occupy.
#[derive(Clone, Copy, PartialEq, Eq, Structural, Debug)]
pub enum EquipSlot {
    Melee,
    Shield,
}

/// Back-reference from an equipped item to its wearer.
#[derive(Clone, Copy, PartialEq, Eq, Structural, Debug)]
pub struct Equipped {
    pub owner: usize,
    pub slot: EquipSlot,
}

/// Single-turn message: this entity wants to pick an item off the ground.
#[derive(Clone, Copy, PartialEq, Eq, Structural, Debug)]
pub struct PickupIntent {
    pub collected_by: usize,
    pub item: usize,
}

/// Single-turn message: this entity wants to use an item, optionally at a
/// target point.
#[derive(Clone, Copy, PartialEq, Eq, Structural, Debug)]
pub struct UseIntent {
    pub item: usize,
    pub target: Option<Pt>,
}

/// Where the player's next targeted effect is aimed.
pub struct Aiming {
    pub x: i32,
    pub y: i32,
}

/// Choice highlighted or picked in the main menu.
#[derive(Clone, Copy, PartialEq, Eq, Structural, Debug)]
pub enum MenuSelection {
    NewGame,
    LoadGame,
    Quit,
}

/// Simulation-level state machine driving which phases run on a tick.
#[derive(Clone, Copy, PartialEq, Eq, Structural, Debug)]
pub enum RunState {
    AwaitingInput,
    PreTurn,
    PlayerTurn,
    MonsterTurn,
    ShowInventory,
    ShowDropItem,
    ShowTargeting { range: i32, item: usize },
    MainMenu { menu_selection: MenuSelection },
    SaveGame,
    NextLevel,
    ShowRemoveItem,
    GameOver,
}

/// A decoded keyboard command, as the input decoder hands it to the core.
#[derive(Clone, Copy, PartialEq, Eq, Structural, Debug)]
pub enum Key {
    Up,
    Down,
    Left,
    Right,
    UpRight,
    UpLeft,
    DownRight,
    DownLeft,
    Grab,
    Inventory,
    Drop,
    Remove,
    Escape,
    Skip,
    Descend,
    Other,
}

/// One entry of the append-only game log. Entries carry the data a renderer
/// needs to phrase a message; the core never formats text itself.
#[derive(Clone, PartialEq, Debug)]
pub enum LogEntry {
    Welcome,
    Dead { name: String },
    PickedUp { name: String },
    Dropped { name: String },
    Equip { name: String },
    Unequip { name: String },
    Healed { name: String, amount: i32 },
    Inflicted { item_name: String, target_name: String, amount: i32 },
    Teleported { item_name: String, target_name: String },
    Confused { item_name: String, target_name: String },
    NothingToPickUp,
    NoStairsHere,
    Descend,
    /// Diagnostic: an intent referred to an entity that lacks a component
    /// the action needs; the intent was dropped and processing went on.
    SkippedIntent { who: usize },
}


/// The abstract content of a log entry: the same shape as `LogEntry`, with
/// text as character sequences. Contracts speak of entries through this
/// view, which pins every message's content.
pub enum LogEvent {
    Welcome,
    Dead { name: Seq<char> },
    PickedUp { name: Seq<char> },
    Dropped { name: Seq<char> },
    Equip { name: Seq<char> },
    Unequip { name: Seq<char> },
    Healed { name: Seq<char>, amount: i32 },
    Inflicted { item_name: Seq<char>, target_name: Seq<char>, amount: i32 },
    Teleported { item_name: Seq<char>, target_name: Seq<char> },
    Confused { item_name: Seq<char>, target_name: Seq<char> },
    NothingToPickUp,
    NoStairsHere,
    Descend,
    SkippedIntent { who: usize },
}

/// The abstract content of one log entry.
pub open spec fn log_view(e: LogEntry) -> LogEvent {
    match e {
        LogEntry::Welcome => LogEvent::Welcome,
        LogEntry::Dead { name } => LogEvent::Dead { name: name@ },
        LogEntry::PickedUp { name } => LogEvent::PickedUp { name: name@ },
        LogEntry::Dropped { name } => LogEvent::Dropped { name: name@ },
        LogEntry::Equip { name } => LogEvent::Equip { name: name@ },
        LogEntry::Unequip { name } => LogEvent::Unequip { name: name@ },
        LogEntry::Healed { name, amount } => LogEvent::Healed { name: name@, amount },
        LogEntry::Inflicted { item_name, target_name, amount } => LogEvent::Inflicted {
            item_name: item_name@,
            target_name: target_name@,
            amount,
        },
        LogEntry::Teleported { item_name, target_name } => LogEvent::Teleported {
            item_name: item_name@,
            target_name: target_name@,
        },
        LogEntry::Confused { item_name, target_name } => LogEvent::Confused {
            item_name: item_name@,
            target_name: target_name@,
        },
        LogEntry::NothingToPickUp => LogEvent::NothingToPickUp,
        LogEntry::NoStairsHere => LogEvent::NoStairsHere,
        LogEntry::Descend => LogEvent::Descend,
        LogEntry::SkippedIntent { who } => LogEvent::SkippedIntent { who },
    }
}

/// The abstract content of a whole log.
pub open spec fn log_of(s: Seq<LogEntry>) -> Seq<LogEvent> {
    s.map_values(|e: LogEntry| log_view(e))
}

/// Appending an entry appends its view.
pub proof fn lemma_log_push(s: Seq<LogEntry>, e: LogEntry)
    ensures
        log_of(s.push(e)) == log_of(s).push(log_view(e)),
{
    assert(log_of(s.push(e)) =~= log_of(s).push(log_view(e)));
}

} // verus!
